//! Assembly of the readers of one cube-table scan: the columns to read, the
//! filters of the partitions assigned to this worker, one reader per file or
//! in-memory chunk, and how their outputs are merged.
use vstd::prelude::*;
use std::collections::HashMap;
use crate::batch::{schema_view, ColumnBatch};
use crate::model::{Chunk, ColumnDef, RangeV, ColumnType, DataType, Field, IndexSnapshot, PartitionSnapshot, RowFilter, BatchSchema, TimeUnit};
use crate::error::CubeError;

verus! {

broadcast use vstd::std_specs::hash::group_hash_axioms;

/// A filter expression pushed down to the readers.
#[derive(Debug)]
pub enum Expr {
    /// A predicate given as text.
    Predicate(String),
    /// Both operands hold.
    And(Box<Expr>, Box<Expr>),
}

/// Mathematical counterpart of `Expr`.
pub enum ExprV {
    Predicate(Seq<char>),
    And(Box<ExprV>, Box<ExprV>),
}

/// The view of an expression.
pub open spec fn expr_view(e: Expr) -> ExprV
    decreases e,
{
    match e {
        Expr::Predicate(s) => ExprV::Predicate(s@),
        Expr::And(a, b) => ExprV::And(Box::new(expr_view(*a)), Box::new(expr_view(*b))),
    }
}

impl Expr {
    /// A copy with the same view.
    pub fn copy(&self) -> (r: Expr)
        ensures
            expr_view(r) == expr_view(*self),
        decreases self,
    {
        match self {
            Expr::Predicate(s) => Expr::Predicate(s.clone()),
            Expr::And(a, b) => Expr::And(Box::new((**a).copy()), Box::new((**b).copy())),
        }
    }
}

/// The conjunction of filters, left to right; `None` for no filters.
pub open spec fn combined(fs: Seq<ExprV>) -> Option<ExprV>
    decreases fs.len(),
{
    if fs.len() == 0 {
        None
    } else if fs.len() == 1 {
        Some(fs[0])
    } else {
        Some(ExprV::And(Box::new(combined(fs.drop_last()).unwrap()), Box::new(fs.last())))
    }
}

pub open spec fn exprs_view(fs: Seq<Expr>) -> Seq<ExprV> {
    fs.map_values(|e: Expr| expr_view(e))
}

pub open spec fn opt_expr_view(e: Option<Expr>) -> Option<ExprV> {
    match e {
        Some(x) => Some(expr_view(x)),
        None => None,
    }
}

/// Combines filters into one by AND, left to right; none for no filters.
pub fn combine_filters(filters: &Vec<Expr>) -> (r: Option<Expr>)
    ensures
        opt_expr_view(r) == combined(exprs_view(filters@)),
{
    if filters.len() == 0 {
        return None;
    }
    let ghost fv = exprs_view(filters@);
    let mut acc = filters[0].copy();
    let mut i: usize = 1;
    assert(fv.subrange(0, 1).drop_last().len() == 0);
    while i < filters.len()
        invariant
            1 <= i <= filters.len(),
            fv == exprs_view(filters@),
            Some(expr_view(acc)) == combined(fv.subrange(0, i as int)),
        decreases filters.len() - i,
    {
        assert(fv.subrange(0, i + 1).drop_last() =~= fv.subrange(0, i as int));
        acc = Expr::And(Box::new(acc), Box::new(filters[i].copy()));
        i += 1;
    }
    assert(fv.subrange(0, i as int) =~= fv);
    Some(acc)
}

/// The read projection: the requested columns, then each unique-key column
/// and the sequence column that is not among them yet.
pub open spec fn expand(p: Seq<usize>, extra: Seq<usize>) -> Seq<usize>
    decreases extra.len(),
{
    if extra.len() == 0 {
        p
    } else {
        let w = expand(p, extra.drop_last());
        if w.contains(extra.last()) {
            w
        } else {
            w.push(extra.last())
        }
    }
}

/// Appends each of `extra` that `p` does not hold yet.
pub fn expand_projection(p: &Vec<usize>, extra: &Vec<usize>) -> (r: Vec<usize>)
    ensures
        r@ == expand(p@, extra@),
{
    let mut w: Vec<usize> = Vec::new();
    let mut i: usize = 0;
    while i < p.len()
        invariant
            i <= p.len(),
            w@ =~= p@.subrange(0, i as int),
        decreases p.len() - i,
    {
        w.push(p[i]);
        i += 1;
    }
    assert(p@.subrange(0, i as int) =~= p@);
    let mut k: usize = 0;
    while k < extra.len()
        invariant
            k <= extra.len(),
            w@ == expand(p@, extra@.subrange(0, k as int)),
        decreases extra.len() - k,
    {
        assert(extra@.subrange(0, k + 1).drop_last() =~= extra@.subrange(0, k as int));
        let x = extra[k];
        let mut present = false;
        let mut q: usize = 0;
        while q < w.len()
            invariant
                q <= w.len(),
                present ==> w@.contains(x),
                !present ==> forall|a: int| 0 <= a < q ==> w@[a] != x,
            decreases w.len() - q,
        {
            if w[q] == x {
                present = true;
            }
            q += 1;
        }
        if !present {
            w.push(x);
        }
        k += 1;
    }
    assert(extra@.subrange(0, k as int) =~= extra@);
    w
}

/// The position of the first of `names` equal to `name`.
pub open spec fn first_position(names: Seq<Seq<char>>, name: Seq<char>) -> Option<nat> {
    if exists|i: int| 0 <= i < names.len() && names[i] == name {
        Some((choose|i: int| 0 <= i < names.len() && names[i] == name && forall|j: int| 0 <= j < i ==> names[j] != name) as nat)
    } else {
        None
    }
}

proof fn lemma_first_position(names: Seq<Seq<char>>, name: Seq<char>, i: int)
    requires
        0 <= i < names.len(),
        names[i] == name,
        forall|j: int| 0 <= j < i ==> names[j] != name,
    ensures
        first_position(names, name) == Some(i as nat),
{
    let c = choose|c: int| 0 <= c < names.len() && names[c] == name && forall|j: int| 0 <= j < c ==> names[j] != name;
    assert(c == i) by {
        if c < i {
        } else if c > i {
            assert(names[i] == name);
        }
    }
}

/// The views of a list of strings.
pub open spec fn strs_view(v: Seq<String>) -> Seq<Seq<char>> {
    v.map_values(|s: String| s@)
}

/// Finds the first of `names` equal to `name`.
pub fn position_of(names: &Vec<String>, name: &String) -> (r: Option<usize>)
    ensures
        r is None ==> first_position(strs_view(names@), name@) is None,
        match r {
            Some(i) => i < names.len() && names@[i as int]@ == name@ && forall|j: int| 0 <= j < i ==> names@[j]@ != name@,
            None => forall|j: int| 0 <= j < names.len() ==> names@[j]@ != name@,
        },
{
    let mut i: usize = 0;
    while i < names.len()
        invariant
            i <= names.len(),
            forall|j: int| 0 <= j < i ==> names@[j]@ != name@,
        decreases names.len() - i,
    {
        if names[i] == *name {
            return Some(i);
        }
        i += 1;
    }
    assert(!(exists|k: int| 0 <= k < strs_view(names@).len() && strs_view(names@)[k] == name@)) by {
        if exists|k: int| 0 <= k < strs_view(names@).len() && strs_view(names@)[k] == name@ {
            let k = choose|k: int| 0 <= k < strs_view(names@).len() && strs_view(names@)[k] == name@;
            assert(names@[k]@ == name@);
        }
    }
    None
}

/// The values of `v` in ascending order: those equal to 0, then those equal
/// to 1, and so on up to `n - 1`.
pub open spec fn ascending(v: Seq<usize>, n: nat) -> Seq<usize>
    decreases n,
{
    if n == 0 {
        Seq::empty()
    } else {
        ascending(v, (n - 1) as nat) + v.filter(|x: usize| x == (n - 1) as usize)
    }
}

/// Sorts positions below `bound` in ascending order.
pub fn sort_positions(v: &Vec<usize>, bound: usize) -> (r: Vec<usize>)
    ensures
        r@ == ascending(v@, bound as nat),
{
    let mut r: Vec<usize> = Vec::new();
    let mut p: usize = 0;
    while p < bound
        invariant
            p <= bound,
            r@ == ascending(v@, p as nat),
        decreases bound - p,
    {
        let ghost pred = |x: usize| x == p;
        let ghost base = r@;
        let mut i: usize = 0;
        while i < v.len()
            invariant
                i <= v.len(),
                pred == (|x: usize| x == p),
                r@ == base + v@.subrange(0, i as int).filter(pred),
            decreases v.len() - i,
        {
            assert(v@.subrange(0, i + 1) =~= v@.subrange(0, i as int).push(v@[i as int]));
            proof {
                v@.subrange(0, i as int).lemma_filter_push(v@[i as int], pred);
            }
            if v[i] == p {
                r.push(p);
            }
            i += 1;
        }
        assert(v@.subrange(0, i as int) =~= v@);
        assert(((p + 1) as nat - 1) as usize == p);
        p += 1;
    }
    r
}

/// Finds the filter of partition `id` in a list sorted by id.
pub fn find_filter(ps: &Vec<(u64, RowFilter)>, id: u64) -> (r: Option<usize>)
    requires
        forall|a: int, b: int| 0 <= a < b < ps.len() ==> ps@[a].0 < ps@[b].0,
    ensures
        match r {
            Some(i) => i < ps.len() && ps@[i as int].0 == id,
            None => forall|a: int| 0 <= a < ps.len() ==> ps@[a].0 != id,
        },
{
    let mut lo: usize = 0;
    let mut hi: usize = ps.len();
    while lo < hi
        invariant
            lo <= hi <= ps.len(),
            forall|a: int, b: int| 0 <= a < b < ps.len() ==> ps@[a].0 < ps@[b].0,
            forall|a: int| 0 <= a < lo ==> ps@[a].0 < id,
            forall|a: int| hi <= a < ps.len() ==> ps@[a].0 > id,
        decreases hi - lo,
    {
        let mid = lo + (hi - lo) / 2;
        let k = ps[mid].0;
        if k == id {
            return Some(mid);
        } else if k < id {
            lo = mid + 1;
        } else {
            hi = mid;
        }
    }
    None
}

/// The local file of a remote file: that of the first entry naming it.
pub open spec fn local_of(names: Seq<(String, String)>, remote: Seq<char>) -> Seq<char> {
    names[choose|i: int| 0 <= i < names.len() && names[i].0@ == remote && forall|j: int| 0 <= j < i ==> names[j].0@ != remote].1@
}

/// The local file of a remote file, if one is known.
pub fn local_path(names: &Vec<(String, String)>, remote: &String) -> (r: Option<String>)
    ensures
        match r {
            Some(l) => (exists|i: int| 0 <= i < names.len() && names@[i].0@ == remote@) && l@ == local_of(names@, remote@),
            None => forall|i: int| 0 <= i < names.len() ==> names@[i].0@ != remote@,
        },
{
    let mut i: usize = 0;
    while i < names.len()
        invariant
            i <= names.len(),
            forall|k: int| 0 <= k < i ==> names@[k].0@ != remote@,
        decreases names.len() - i,
    {
        if names[i].0 == *remote {
            let ghost c = choose|c: int| 0 <= c < names@.len() && names@[c].0@ == remote@ && forall|j: int| 0 <= j < c ==> names@[j].0@ != remote@;
            assert(c == i) by {
                if c > i {
                    assert(names@[i as int].0@ == remote@);
                }
            }
            return Some(names[i].1.clone());
        }
        i += 1;
    }
    None
}

/// What one reader reads: a local file, or the batches of an in-memory chunk.
pub enum SourceV {
    File(Seq<char>),
    Memory(u64),
}

/// The view of an optional list of positions.
pub open spec fn positions_view(p: Option<Vec<usize>>) -> Option<Seq<usize>> {
    match p {
        Some(v) => Some(v@),
        None => None,
    }
}

/// A reader node: the file or chunk reader of `src` with the given read
/// projection, predicate and batch size, under the key-range filter `filter`
/// on the first `key_len` columns.
pub open spec fn reader_ok(
    n: ExecNode,
    src: SourceV,
    filter: Seq<RangeV>,
    key_len: usize,
    proj: Option<Seq<usize>>,
    pred: Option<ExprV>,
    batch_size: usize,
) -> bool {
    match n {
        ExecNode::FilterByKeyRange { input, filter: f, key_len: k } => k == key_len && f@ == filter && match src {
            SourceV::File(path) => match *input {
                ExecNode::ParquetScan { path: p, projection, predicate, batch_size: bs } => p@ == path && positions_view(projection) == proj
                    && opt_expr_view(predicate) == pred && bs == batch_size,
                _ => false,
            },
            SourceV::Memory(id) => match *input {
                ExecNode::MemorySource { chunk_id, projection } => chunk_id == id && positions_view(projection) == proj,
                _ => false,
            },
        },
        _ => false,
    }
}

/// The readers of a scan, one output partition each, with what is known of
/// the order of their rows.
#[derive(Debug)]
pub struct CubeTableExec {
    pub schema: BatchSchema,
    pub partition_execs: Vec<ExecNode>,
    /// The snapshot's explicit sort columns, if any.
    pub sort_on: Option<Vec<String>>,
    /// The names of the index's sort-key columns.
    pub sort_key: Vec<String>,
    pub filter: Option<Expr>,
}

/// The position of the first field named `name`.
pub open spec fn field_pos(fields: Seq<Field>, name: Seq<char>) -> Option<nat> {
    first_position(fields.map_values(|f: Field| f.name@), name)
}

/// How many leading names of `names` are fields.
pub open spec fn found_prefix(fields: Seq<Field>, names: Seq<Seq<char>>) -> nat
    decreases names.len(),
{
    if names.len() == 0 || field_pos(fields, names[0]) is None {
        0
    } else {
        1 + found_prefix(fields, names.drop_first())
    }
}

/// The sort order that a scan's output is known to have, as field positions:
/// that of the snapshot's sort columns if all are fields; else the longest
/// found prefix of the index's sort key, if not empty.
pub open spec fn hints_spec(fields: Seq<Field>, sort_on: Option<Seq<Seq<char>>>, sort_key: Seq<Seq<char>>) -> Option<Seq<nat>> {
    match sort_on {
        Some(c) => if forall|i: int| 0 <= i < c.len() ==> (#[trigger] field_pos(fields, c[i])) is Some {
            Some(Seq::new(c.len(), |i: int| field_pos(fields, c[i]).unwrap()))
        } else {
            None
        },
        None => {
            let n = found_prefix(fields, sort_key);
            if n == 0 {
                None
            } else {
                Some(Seq::new(n, |i: int| field_pos(fields, sort_key[i]).unwrap()))
            }
        },
    }
}

/// The position of the first field named `name`.
fn field_position(fields: &Vec<Field>, name: &String) -> (r: Option<usize>)
    ensures
        match r {
            Some(i) => field_pos(fields@, name@) == Some(i as nat),
            None => field_pos(fields@, name@) is None,
        },
{
    let ghost names = fields@.map_values(|f: Field| f.name@);
    let mut i: usize = 0;
    while i < fields.len()
        invariant
            i <= fields.len(),
            names == fields@.map_values(|f: Field| f.name@),
            forall|j: int| 0 <= j < i ==> names[j] != name@,
        decreases fields.len() - i,
    {
        if fields[i].name == *name {
            assert(names[i as int] == name@);
            let ghost c = choose|k: int| 0 <= k < names.len() && names[k] == name@ && forall|j: int| 0 <= j < k ==> names[j] != name@;
            assert(c == i) by {
                if c < i {
                } else if c > i {
                    assert(names[i as int] != name@);
                }
            }
            return Some(i);
        }
        i += 1;
    }
    None
}

impl CubeTableExec {
    /// The view of the snapshot's sort columns.
    pub open spec fn sort_on_view(&self) -> Option<Seq<Seq<char>>> {
        match self.sort_on {
            Some(c) => Some(strs_view(c@)),
            None => None,
        }
    }

    /// The number of output partitions: one per reader.
    pub fn output_partition_count(&self) -> (n: usize)
        ensures
            n == self.partition_execs.len(),
    {
        self.partition_execs.len()
    }

    /// The sort order that the output is known to have; see `hints_spec`.
    pub fn output_hints(&self) -> (r: Option<Vec<usize>>)
        ensures
            match (r, hints_spec(self.schema.fields@, self.sort_on_view(), strs_view(self.sort_key@))) {
                (Some(v), Some(h)) => v@.len() == h.len() && forall|i: int| 0 <= i < h.len() ==> v@[i] as nat == h[i],
                (None, None) => true,
                _ => false,
            },
    {
        let fields = &self.schema.fields;
        match &self.sort_on {
            Some(c) => {
                let ghost cv = strs_view(c@);
                let mut v: Vec<usize> = Vec::new();
                let mut i: usize = 0;
                while i < c.len()
                    invariant
                        i <= c.len(),
                        self.sort_on == Some(*c),
                        fields@ == self.schema.fields@,
                        cv == strs_view(c@),
                        v.len() == i,
                        forall|k: int| 0 <= k < i ==> (#[trigger] field_pos(fields@, cv[k])) is Some && v@[k] as nat == field_pos(fields@, cv[k]).unwrap(),
                    decreases c.len() - i,
                {
                    match field_position(fields, &c[i]) {
                        Some(p) => v.push(p),
                        None => {
                            assert(field_pos(fields@, cv[i as int]) is None);
                            assert(self.sort_on == Some(*c));
                            assert(!(forall|k: int| 0 <= k < cv.len() ==> (#[trigger] field_pos(fields@, cv[k])) is Some));
                            assert(self.sort_on_view() == Some(cv));
                            assert(hints_spec(fields@, Some(cv), strs_view(self.sort_key@)) is None);
                            return None;
                        },
                    }
                    i += 1;
                }
                assert(forall|k: int| 0 <= k < cv.len() ==> (#[trigger] field_pos(fields@, cv[k])) is Some);
                Some(v)
            },
            None => {
                let ghost kv = strs_view(self.sort_key@);
                let mut v: Vec<usize> = Vec::new();
                let mut i: usize = 0;
                let mut stop = false;
                while i < self.sort_key.len() && !stop
                    invariant
                        i <= self.sort_key.len(),
                        self.sort_on is None,
                        fields@ == self.schema.fields@,
                        kv == strs_view(self.sort_key@),
                        v.len() == i,
                        forall|k: int| 0 <= k < i ==> (#[trigger] field_pos(fields@, kv[k])) is Some && v@[k] as nat == field_pos(fields@, kv[k]).unwrap(),
                        stop ==> i < kv.len() && field_pos(fields@, kv[i as int]) is None,
                    decreases self.sort_key.len() - i + if stop { 0int } else { 1int },
                {
                    match field_position(fields, &self.sort_key[i]) {
                        Some(p) => {
                            v.push(p);
                            i += 1;
                        },
                        None => {
                            stop = true;
                        },
                    }
                }
                proof {
                    lemma_found_prefix(fields@, kv, i as nat);
                    assert(found_prefix(fields@, kv) == v.len());
                }
                if v.len() == 0 {
                    None
                } else {
                    Some(v)
                }
            },
        }
    }
}

proof fn lemma_found_prefix(fields: Seq<Field>, names: Seq<Seq<char>>, i: nat)
    requires
        i <= names.len(),
        forall|k: int| 0 <= k < i ==> (#[trigger] field_pos(fields, names[k])) is Some,
        i < names.len() ==> field_pos(fields, names[i as int]) is None,
    ensures
        found_prefix(fields, names) == i,
    decreases i,
{
    if i > 0 {
        let rest = names.drop_first();
        assert forall|k: int| 0 <= k < i - 1 implies (#[trigger] field_pos(fields, rest[k])) is Some by {
            assert(rest[k] == names[k + 1]);
        }
        if i < names.len() {
            assert(rest[i - 1] == names[i as int]);
        }
        lemma_found_prefix(fields, rest, (i - 1) as nat);
    }
}

/// A node of the physical plan of a scan.
#[derive(Debug)]
pub enum ExecNode {
    /// Reads a local columnar file: the columns at the given positions, rows
    /// that may pass the predicate, in batches of the given size.
    ParquetScan { path: String, projection: Option<Vec<usize>>, predicate: Option<Expr>, batch_size: usize },
    /// Reads the batches handed in for an in-memory chunk.
    MemorySource { chunk_id: u64, projection: Option<Vec<usize>> },
    /// Drops the rows whose first `key_len` columns fall outside the filter.
    FilterByKeyRange { input: Box<ExecNode>, filter: RowFilter, key_len: usize },
    /// Keeps the columns at the given positions, in that order.
    Projection { input: Box<ExecNode>, columns: Vec<usize> },
    /// Yields no rows.
    Empty,
    /// The readers of a scan, one output partition each.
    Table(CubeTableExec),
    /// Merges sorted inputs into one stream sorted by the given columns.
    MergeSort { input: Box<ExecNode>, columns: Vec<usize> },
    /// Of adjacent rows equal on the given columns keeps the last.
    LastRowByUniqueKey { input: Box<ExecNode>, columns: Vec<usize> },
    /// Interleaves its inputs in no particular order.
    Merge { input: Box<ExecNode> },
}

/// The columnar type that stores a column type.
pub open spec fn data_type_of(t: ColumnType) -> DataType {
    match t {
        ColumnType::String => DataType::Utf8,
        ColumnType::Int => DataType::Int64,
        ColumnType::Bytes => DataType::Binary,
        ColumnType::Timestamp => DataType::Timestamp(TimeUnit::Microsecond, false),
        ColumnType::Decimal { scale, precision: _ } => DataType::Int64Decimal(scale),
        ColumnType::Float => DataType::Float64,
        ColumnType::Boolean => DataType::Boolean,
    }
}

/// The columnar type that stores a column type.
pub fn column_data_type(t: ColumnType) -> (r: DataType)
    ensures
        r == data_type_of(t),
{
    match t {
        ColumnType::String => DataType::Utf8,
        ColumnType::Int => DataType::Int64,
        ColumnType::Bytes => DataType::Binary,
        ColumnType::Timestamp => DataType::Timestamp(TimeUnit::Microsecond, false),
        ColumnType::Decimal { scale, precision: _ } => DataType::Int64Decimal(scale),
        ColumnType::Float => DataType::Float64,
        ColumnType::Boolean => DataType::Boolean,
    }
}

/// Whether a partition is assigned to this worker.
pub open spec fn assigned(wp: Seq<(u64, RowFilter)>, id: u64) -> bool {
    exists|i: int| 0 <= i < wp.len() && wp[i].0 == id
}

/// How far a scan applies a pushed-down filter.
#[derive(Debug, Clone, Copy, PartialEq, Eq, Structural)]
pub enum FilterPushDown {
    Unsupported,
    Inexact,
    Exact,
}

/// One table scan of one index snapshot on one worker.
#[derive(Debug)]
pub struct CubeTable {
    pub index_snapshot: IndexSnapshot,
    /// Local file of each remote file, by remote name.
    pub remote_to_local_names: Vec<(String, String)>,
    /// The filters of the partitions that this worker reads, sorted by id.
    pub worker_partition_ids: Vec<(u64, RowFilter)>,
    /// The batches of each in-memory chunk, by chunk id.
    pub chunk_id_to_record_batches: HashMap<u64, Vec<ColumnBatch>>,
    pub schema: BatchSchema,
}

impl CubeTable {
    /// The table's columns and unique key refer to valid positions, a unique
    /// key comes with a sequence column, and the partition filters are
    /// sorted by id.
    pub open spec fn wf(&self) -> bool {
        let t = self.index_snapshot.table;
        &&& self.schema.fields@.len() == t.columns@.len()
        &&& (t.unique_key matches Some(k) ==> (forall|i: int| 0 <= i < k@.len() ==> #[trigger] k@[i] < t.columns@.len()) && t.seq_column is Some)
        &&& (t.seq_column matches Some(s) ==> s < t.columns@.len())
        &&& forall|a: int, b: int| 0 <= a < b < self.worker_partition_ids@.len() ==> self.worker_partition_ids@[a].0 < self.worker_partition_ids@[b].0
    }

    /// A local file is known for remote file `remote`.
    pub open spec fn local_known(&self, remote: Seq<char>) -> bool {
        exists|i: int| 0 <= i < self.remote_to_local_names@.len() && self.remote_to_local_names@[i].0@ == remote
    }

    /// A chunk can be read: an in-memory chunk has batches handed in, and
    /// not an empty list of them; a chunk on disk has a known local file.
    pub open spec fn chunk_ok(&self, c: Chunk) -> bool {
        if c.in_memory {
            self.chunk_id_to_record_batches@.contains_key(c.id) && self.chunk_id_to_record_batches@[c.id]@.len() > 0
        } else {
            self.local_known(c.file_name@)
        }
    }

    /// A partition snapshot can be read: its file and each chunk.
    pub open spec fn snapshot_ok(&self, ps: PartitionSnapshot) -> bool {
        &&& (ps.partition.file_name matches Some(n) ==> self.local_known(n@))
        &&& forall|k: int| 0 <= k < ps.chunks@.len() ==> self.chunk_ok(#[trigger] ps.chunks@[k])
    }

    /// Every partition snapshot assigned to this worker can be read.
    pub open spec fn readers_ok(&self) -> bool {
        forall|i: int| 0 <= i < self.index_snapshot.partitions@.len() && assigned(self.worker_partition_ids@, (#[trigger] self.index_snapshot.partitions@[i]).partition.id)
            ==> self.snapshot_ok(self.index_snapshot.partitions@[i])
    }

    /// A scan of an index snapshot: the schema holds one nullable field per
    /// column of the table, in table order.
    pub fn try_new(index_snapshot: IndexSnapshot, remote_to_local_names: Vec<(String, String)>, worker_partition_ids: Vec<(u64, RowFilter)>) -> (r: Result<CubeTable, CubeError>)
        ensures
            r matches Ok(t) && t.schema.fields@.len() == index_snapshot.table.columns@.len()
                && (forall|i: int| 0 <= i < t.schema.fields@.len() ==> (#[trigger] t.schema.fields@[i]).name@ == index_snapshot.table.columns@[i].name@
                    && t.schema.fields@[i].data_type == data_type_of(index_snapshot.table.columns@[i].column_type)
                    && t.schema.fields@[i].nullable)
                && t.index_snapshot == index_snapshot && t.worker_partition_ids == worker_partition_ids
                && t.remote_to_local_names == remote_to_local_names && t.chunk_id_to_record_batches@ == Map::<u64, Vec<ColumnBatch>>::empty(),
    {
        let mut fields: Vec<Field> = Vec::new();
        let mut i: usize = 0;
        while i < index_snapshot.table.columns.len()
            invariant
                i <= index_snapshot.table.columns.len(),
                fields.len() == i,
                forall|k: int| 0 <= k < i ==> (#[trigger] fields@[k]).name@ == index_snapshot.table.columns@[k].name@
                    && fields@[k].data_type == data_type_of(index_snapshot.table.columns@[k].column_type)
                    && fields@[k].nullable,
            decreases index_snapshot.table.columns.len() - i,
        {
            let c = &index_snapshot.table.columns[i];
            fields.push(Field { name: c.name.clone(), data_type: column_data_type(c.column_type), nullable: true });
            i += 1;
        }
        Ok(CubeTable {
            index_snapshot,
            remote_to_local_names,
            worker_partition_ids,
            chunk_id_to_record_batches: HashMap::new(),
            schema: BatchSchema { fields },
        })
    }

    /// The same scan as read on a worker: with the worker's local files,
    /// partition filters and in-memory chunk batches.
    pub fn to_worker_table(
        self,
        remote_to_local_names: Vec<(String, String)>,
        worker_partition_ids: Vec<(u64, RowFilter)>,
        chunk_id_to_record_batches: HashMap<u64, Vec<ColumnBatch>>,
    ) -> (r: CubeTable)
        ensures
            r.index_snapshot == self.index_snapshot,
            r.schema == self.schema,
            r.remote_to_local_names == remote_to_local_names,
            r.worker_partition_ids == worker_partition_ids,
            r.chunk_id_to_record_batches == chunk_id_to_record_batches,
    {
        CubeTable { remote_to_local_names, worker_partition_ids, chunk_id_to_record_batches, ..self }
    }

    /// The position in the index of each column, found by name.
    pub fn project_to_index_positions(projection_columns: &Vec<ColumnDef>, index: &crate::model::IndexDef) -> (r: Vec<Option<usize>>)
        ensures
            r.len() == projection_columns.len(),
            forall|k: int| 0 <= k < r.len() ==> match #[trigger] r@[k] {
                Some(i) => i < index.columns.len() && index.columns@[i as int]@ == projection_columns@[k].name@
                    && forall|j: int| 0 <= j < i ==> index.columns@[j]@ != projection_columns@[k].name@,
                None => forall|j: int| 0 <= j < index.columns.len() ==> index.columns@[j]@ != projection_columns@[k].name@,
            },
    {
        let mut r: Vec<Option<usize>> = Vec::new();
        let mut k: usize = 0;
        while k < projection_columns.len()
            invariant
                k <= projection_columns.len(),
                r.len() == k,
                forall|q: int| 0 <= q < k ==> match #[trigger] r@[q] {
                    Some(i) => i < index.columns.len() && index.columns@[i as int]@ == projection_columns@[q].name@
                        && forall|j: int| 0 <= j < i ==> index.columns@[j]@ != projection_columns@[q].name@,
                    None => forall|j: int| 0 <= j < index.columns.len() ==> index.columns@[j]@ != projection_columns@[q].name@,
                },
            decreases projection_columns.len() - k,
        {
            r.push(position_of(&index.columns, &projection_columns[k].name));
            k += 1;
        }
        r
    }

    /// The table's columns at the given positions.
    pub fn project_to_table(table: &crate::model::TableDef, projection_column_indices: &Vec<usize>) -> (r: Vec<ColumnDef>)
        requires
            forall|k: int| 0 <= k < projection_column_indices.len() ==> #[trigger] projection_column_indices@[k] < table.columns.len(),
        ensures
            r.len() == projection_column_indices.len(),
            forall|k: int| 0 <= k < r.len() ==> (#[trigger] r@[k]).name@ == table.columns@[projection_column_indices@[k] as int].name@
                && r@[k].column_type == table.columns@[projection_column_indices@[k] as int].column_type,
    {
        let mut r: Vec<ColumnDef> = Vec::new();
        let mut k: usize = 0;
        while k < projection_column_indices.len()
            invariant
                k <= projection_column_indices.len(),
                r.len() == k,
                forall|q: int| 0 <= q < projection_column_indices.len() ==> #[trigger] projection_column_indices@[q] < table.columns.len(),
                forall|q: int| 0 <= q < k ==> (#[trigger] r@[q]).name@ == table.columns@[projection_column_indices@[q] as int].name@
                    && r@[q].column_type == table.columns@[projection_column_indices@[q] as int].column_type,
            decreases projection_column_indices.len() - k,
        {
            let c = &table.columns[projection_column_indices[k]];
            r.push(ColumnDef { name: c.name.clone(), column_type: c.column_type });
            k += 1;
        }
        r
    }

    /// How far the scan applies a pushed-down filter: inexactly for every
    /// filter, so the rows it yields may be a superset and the caller filters
    /// again.
    pub fn supports_filter_pushdown(&self, _filter: &Expr) -> (r: FilterPushDown)
        ensures
            r == FilterPushDown::Inexact,
    {
        FilterPushDown::Inexact
    }

    /// The index snapshot that the scan reads.
    pub fn index_snapshot(&self) -> (r: &IndexSnapshot)
        ensures
            *r == self.index_snapshot,
    {
        &self.index_snapshot
    }
}

/// The name of table column `c`.
pub open spec fn col_name(t: CubeTable, c: usize) -> Seq<char> {
    t.index_snapshot.table.columns@[c as int].name@
}

/// Every column of the read projection is a column of the index.
pub open spec fn index_names_ok(t: CubeTable, rp: Seq<usize>) -> bool {
    forall|k: int| 0 <= k < rp.len() ==> (#[trigger] first_position(strs_view(t.index_snapshot.index.columns@), col_name(t, rp[k]))) is Some
}

/// The index position of each column of the read projection.
pub open spec fn index_positions_spec(t: CubeTable, rp: Seq<usize>) -> Seq<usize> {
    Seq::new(rp.len(), |k: int| first_position(strs_view(t.index_snapshot.index.columns@), col_name(t, rp[k])).unwrap() as usize)
}

/// The read projection of a table: with a unique key, the unique-key columns
/// and the sequence column are read too.
pub open spec fn read_projection_spec(t: crate::model::TableDef, p: Seq<usize>) -> Seq<usize> {
    match t.unique_key {
        Some(k) => expand(p, k@.push(t.seq_column.unwrap())),
        None => p,
    }
}

/// The names of the index's sort-key columns.
pub open spec fn sort_key_names(idx: crate::model::IndexDef) -> Seq<Seq<char>> {
    strs_view(idx.columns@).take(if idx.sort_key_size < idx.columns@.len() { idx.sort_key_size as int } else { idx.columns@.len() as int })
}

/// The names of the unique-key columns of a table that has a unique key.
pub open spec fn unique_key_names(t: crate::model::TableDef) -> Seq<Seq<char>> {
    t.unique_key.unwrap()@.map_values(|c: usize| t.columns@[c as int].name@)
}

/// The views of a list of fields.
pub open spec fn fields_view(fs: Seq<Field>) -> Seq<(Seq<char>, DataType, bool)> {
    fs.map_values(|f: Field| (f.name@, f.data_type, f.nullable))
}

/// Where each of `ip` stands in `sp`: its first position.
pub fn reorder_of(ip: &Vec<usize>, sp: &Vec<usize>) -> (r: Vec<usize>)
    requires
        forall|k: int| 0 <= k < ip.len() ==> sp@.contains(#[trigger] ip@[k]),
    ensures
        r@ == reorder_spec(ip@, sp@),
{
    let mut r: Vec<usize> = Vec::new();
    let mut k: usize = 0;
    while k < ip.len()
        invariant
            k <= ip.len(),
            forall|q: int| 0 <= q < ip.len() ==> sp@.contains(#[trigger] ip@[q]),
            r@ =~= reorder_spec(ip@, sp@).subrange(0, k as int),
        decreases ip.len() - k,
    {
        let mut found: Option<usize> = None;
        let mut i: usize = 0;
        while i < sp.len() && found.is_none()
            invariant
                i <= sp.len(),
                k < ip.len(),
                found matches Some(f) ==> f < sp.len() && sp@[f as int] == ip@[k as int] && forall|j: int| 0 <= j < f ==> sp@[j] != ip@[k as int],
                found is None ==> forall|j: int| 0 <= j < i ==> sp@[j] != ip@[k as int],
            decreases sp.len() - i,
        {
            if sp[i] == ip[k] {
                found = Some(i);
            }
            i += 1;
        }
        assert(found is Some) by {
            if found is None {
                assert(sp@.contains(ip@[k as int]));
            }
        }
        let f = found.unwrap();
        let ghost c = first_index(sp@, ip@[k as int]);
        assert(c == f) by {
            assert(0 <= c < sp@.len() && sp@[c] == ip@[k as int] && forall|j: int| 0 <= j < c ==> sp@[j] != ip@[k as int]);
            if c < f {
            } else if c > f {
                assert(sp@[f as int] == ip@[k as int]);
            }
        }
        r.push(f);
        k += 1;
    }
    r
}

/// The read projection, where a projection is asked for.
pub open spec fn read_proj_opt(t: CubeTable, projection: Option<Vec<usize>>) -> Option<Seq<usize>> {
    match projection {
        Some(p) => Some(read_projection_spec(t.index_snapshot.table, p@)),
        None => None,
    }
}

/// The index positions that readers read, in ascending order.
pub open spec fn part_proj_spec(t: CubeTable, projection: Option<Vec<usize>>) -> Option<Seq<usize>> {
    match read_proj_opt(t, projection) {
        Some(rp) => Some(ascending(index_positions_spec(t, rp), t.index_snapshot.index.columns@.len())),
        None => None,
    }
}

/// The position of the first `x` in `s`.
pub open spec fn first_index(s: Seq<usize>, x: usize) -> int {
    choose|i: int| 0 <= i < s.len() && s[i] == x && forall|j: int| 0 <= j < i ==> s[j] != x
}

/// Where each column of the read projection stands among the columns that
/// readers yield.
pub open spec fn reorder_spec(ip: Seq<usize>, sp: Seq<usize>) -> Seq<usize> {
    Seq::new(ip.len(), |k: int| first_index(sp, ip[k]) as usize)
}

/// The reorder of a scan, where a projection is asked for.
pub open spec fn scan_reorder(t: CubeTable, projection: Option<Vec<usize>>) -> Option<Seq<usize>> {
    match read_proj_opt(t, projection) {
        Some(rp) => {
            let ip = index_positions_spec(t, rp);
            Some(reorder_spec(ip, ascending(ip, t.index_snapshot.index.columns@.len())))
        },
        None => None,
    }
}

/// Position `k` holds `k` throughout.
pub open spec fn is_identity(r: Seq<usize>) -> bool {
    forall|k: int| 0 <= k < r.len() ==> r[k] == k
}

/// The fields of the scan's schema: the table's fields at the read
/// projection, or all of them.
pub open spec fn projected_fields(t: CubeTable, projection: Option<Vec<usize>>) -> Seq<(Seq<char>, DataType, bool)> {
    match read_proj_opt(t, projection) {
        Some(rp) => Seq::new(rp.len(), |k: int| schema_view(t.schema)[rp[k] as int]),
        None => schema_view(t.schema),
    }
}

/// The names of a list of field views.
pub open spec fn names_of(fv: Seq<(Seq<char>, DataType, bool)>) -> Seq<Seq<char>> {
    fv.map_values(|f: (Seq<char>, DataType, bool)| f.0)
}

/// Every one of `names` is a field.
pub open spec fn names_found(fv: Seq<(Seq<char>, DataType, bool)>, names: Seq<Seq<char>>) -> bool {
    forall|i: int| 0 <= i < names.len() ==> (#[trigger] first_position(names_of(fv), names[i])) is Some
}

/// The position of the first field of each of `names`.
pub open spec fn positions_in(fv: Seq<(Seq<char>, DataType, bool)>, names: Seq<Seq<char>>) -> Seq<usize> {
    Seq::new(names.len(), |i: int| first_position(names_of(fv), names[i]).unwrap() as usize)
}

/// The names of the requested table columns.
pub open spec fn proj_names(t: CubeTable, p: Seq<usize>) -> Seq<Seq<char>> {
    p.map_values(|c: usize| col_name(t, c))
}

/// The view of the snapshot's sort columns.
pub open spec fn snapshot_sort_on(t: CubeTable) -> Option<Seq<Seq<char>>> {
    match t.index_snapshot.sort_on {
        Some(c) => Some(strs_view(c@)),
        None => None,
    }
}

/// The columns that merging and deduplication look up are fields: with a
/// unique key the sort key, the unique key and the requested columns; else
/// the snapshot's sort columns, if any.
pub open spec fn merge_names_ok(t: CubeTable, projection: Option<Vec<usize>>) -> bool {
    let fv = projected_fields(t, projection);
    if t.index_snapshot.table.unique_key is Some {
        &&& names_found(fv, sort_key_names(t.index_snapshot.index))
        &&& names_found(fv, unique_key_names(t.index_snapshot.table))
        &&& (projection matches Some(p) ==> names_found(fv, proj_names(t, p@)))
    } else {
        match snapshot_sort_on(t) {
            Some(so) => names_found(fv, so),
            None => true,
        }
    }
}

/// One child of the scan's readers: the reader of its source, under a
/// projection that puts the columns back in read order where the reader's
/// order differs.
pub open spec fn child_ok(t: CubeTable, projection: Option<Vec<usize>>, pred: Option<ExprV>, batch_size: usize, n: ExecNode, src: (SourceV, Seq<RangeV>)) -> bool {
    let pv = part_proj_spec(t, projection);
    let k = t.index_snapshot.index.sort_key_size;
    match scan_reorder(t, projection) {
        Some(r) => if is_identity(r) {
            reader_ok(n, src.0, src.1, k, pv, pred, batch_size)
        } else {
            n matches ExecNode::Projection { input, columns } && columns@ == r && reader_ok(*input, src.0, src.1, k, pv, pred, batch_size)
        },
        None => reader_ok(n, src.0, src.1, k, pv, pred, batch_size),
    }
}

/// The readers of a scan: one child per source, or one empty child where
/// there is none.
pub open spec fn execs_ok(t: CubeTable, projection: Option<Vec<usize>>, pred: Option<ExprV>, batch_size: usize, execs: Seq<ExecNode>) -> bool {
    let src = sources(t, t.index_snapshot.partitions@);
    &&& (src.len() == 0 ==> execs.len() == 1 && execs[0] is Empty)
    &&& (src.len() > 0 ==> execs.len() == src.len() && forall|i: int| 0 <= i < src.len() ==> child_ok(t, projection, pred, batch_size, #[trigger] execs[i], src[i]))
}

/// The readers node of a scan: schema, one child per source (or one empty
/// child where there is none), the snapshot's sort columns, the index's sort
/// key and the combined filter.
pub open spec fn table_exec_ok(t: CubeTable, projection: Option<Vec<usize>>, filters: Seq<Expr>, batch_size: usize, e: CubeTableExec) -> bool {
    let src = sources(t, t.index_snapshot.partitions@);
    let pred = combined(exprs_view(filters));
    &&& schema_view(e.schema) == projected_fields(t, projection)
    &&& execs_ok(t, projection, pred, batch_size, e.partition_execs@)
    &&& e.sort_on_view() == snapshot_sort_on(t)
    &&& strs_view(e.sort_key@) == sort_key_names(t.index_snapshot.index)
    &&& opt_expr_view(e.filter) == pred
}

/// The plan of a scan: the readers node, merged by the sort key and
/// deduplicated by the unique key (then projected to the requested columns)
/// where the table has a unique key, merged by the snapshot's sort columns
/// where it has them, else merged in any order.
pub open spec fn plan_spec(t: CubeTable, projection: Option<Vec<usize>>, filters: Seq<Expr>, batch_size: usize, plan: ExecNode) -> bool {
    let fv = projected_fields(t, projection);
    let readers = |n: ExecNode| n matches ExecNode::Table(e) && table_exec_ok(t, projection, filters, batch_size, e);
    if t.index_snapshot.table.unique_key is Some {
        let dedup = |n: ExecNode| n matches ExecNode::LastRowByUniqueKey { input, columns: kc } && kc@ == positions_in(fv, unique_key_names(t.index_snapshot.table))
            && (*input matches ExecNode::MergeSort { input: rd, columns: sc } && sc@ == positions_in(fv, sort_key_names(t.index_snapshot.index)) && readers(*rd));
        match projection {
            Some(p) => plan matches ExecNode::Projection { input, columns } && columns@ == positions_in(fv, proj_names(t, p@)) && dedup(*input),
            None => dedup(plan),
        }
    } else {
        match snapshot_sort_on(t) {
            Some(so) => plan matches ExecNode::MergeSort { input, columns } && columns@ == positions_in(fv, so) && readers(*input),
            None => plan matches ExecNode::Merge { input } && readers(*input),
        }
    }
}

proof fn lemma_ascending_contains(v: Seq<usize>, n: nat, x: usize)
    requires
        x < n,
        v.contains(x),
    ensures
        ascending(v, n).contains(x),
    decreases n,
{
    let pred = |y: usize| y == (n - 1) as usize;
    if x == (n - 1) as usize {
        let i = choose|i: int| 0 <= i < v.len() && v[i] == x;
        v.lemma_filter_contains(pred, i);
        let f = v.filter(pred);
        let j = choose|j: int| 0 <= j < f.len() && f[j] == x;
        assert(ascending(v, n)[ascending(v, (n - 1) as nat).len() + j] == x);
    } else {
        lemma_ascending_contains(v, (n - 1) as nat, x);
        let a = ascending(v, (n - 1) as nat);
        let j = choose|j: int| 0 <= j < a.len() && a[j] == x;
        assert(ascending(v, n)[j] == x);
    }
}

proof fn lemma_expand_bounded(p: Seq<usize>, r: Seq<usize>, t: crate::model::TableDef, bound: nat)
    requires
        forall|k: int| 0 <= k < p.len() ==> #[trigger] p[k] < bound,
        t.unique_key matches Some(key) ==> (forall|i: int| 0 <= i < key@.len() ==> #[trigger] key@[i] < bound) && t.seq_column is Some,
        t.seq_column matches Some(sc) ==> sc < bound,
        r == read_projection_spec(t, p),
    ensures
        forall|k: int| 0 <= k < r.len() ==> #[trigger] r[k] < bound,
{
    if let Some(key) = t.unique_key {
        let extra = key@.push(t.seq_column.unwrap());
        lemma_expand_elems(p, extra, bound);
    }
}

proof fn lemma_expand_elems(p: Seq<usize>, extra: Seq<usize>, bound: nat)
    requires
        forall|k: int| 0 <= k < p.len() ==> #[trigger] p[k] < bound,
        forall|k: int| 0 <= k < extra.len() ==> #[trigger] extra[k] < bound,
    ensures
        forall|k: int| 0 <= k < expand(p, extra).len() ==> #[trigger] expand(p, extra)[k] < bound,
    decreases extra.len(),
{
    if extra.len() > 0 {
        lemma_expand_elems(p, extra.drop_last(), bound);
        let w = expand(p, extra.drop_last());
        assert(extra.last() == extra[extra.len() - 1]);
        assert(extra.last() < bound);
        if !w.contains(extra.last()) {
            assert forall|k: int| 0 <= k < w.push(extra.last()).len() implies #[trigger] w.push(extra.last())[k] < bound by {
                if k < w.len() {
                    assert(w.push(extra.last())[k] == w[k]);
                }
            }
        }
    }
}

/// A copy of an optional list of positions.
pub fn copy_positions(p: &Option<Vec<usize>>) -> (r: Option<Vec<usize>>)
    ensures
        positions_view(r) == positions_view(*p),
{
    match p {
        Some(v) => {
            let mut w: Vec<usize> = Vec::new();
            let mut i: usize = 0;
            while i < v.len()
                invariant
                    i <= v.len(),
                    w@ =~= v@.subrange(0, i as int),
                decreases v.len() - i,
            {
                w.push(v[i]);
                i += 1;
            }
            assert(v@.subrange(0, i as int) =~= v@);
            Some(w)
        },
        None => None,
    }
}

/// A copy of an optional expression.
pub fn copy_predicate(e: &Option<Expr>) -> (r: Option<Expr>)
    ensures
        opt_expr_view(r) == opt_expr_view(*e),
{
    match e {
        Some(x) => Some(x.copy()),
        None => None,
    }
}

/// The sources of one partition snapshot: its file, if any, then each chunk.
pub open spec fn snapshot_sources(names: Seq<(String, String)>, ps: PartitionSnapshot) -> Seq<SourceV> {
    (match ps.partition.file_name {
        Some(n) => seq![SourceV::File(local_of(names, n@))],
        None => Seq::empty(),
    }) + ps.chunks@.map_values(|c: Chunk| chunk_source(names, c))
}

/// The source of one chunk.
pub open spec fn chunk_source(names: Seq<(String, String)>, c: Chunk) -> SourceV {
    if c.in_memory {
        SourceV::Memory(c.id)
    } else {
        SourceV::File(local_of(names, c.file_name@))
    }
}

/// The filter of an assigned partition.
pub open spec fn filter_of(wp: Seq<(u64, RowFilter)>, id: u64) -> Seq<RangeV> {
    wp[choose|i: int| 0 <= i < wp.len() && wp[i].0 == id].1@
}

/// The sources of the assigned partitions among `parts`, in partition order,
/// each with its partition's filter.
pub open spec fn sources(t: CubeTable, parts: Seq<PartitionSnapshot>) -> Seq<(SourceV, Seq<RangeV>)>
    decreases parts.len(),
{
    if parts.len() == 0 {
        Seq::empty()
    } else {
        sources(t, parts.drop_last()) + if assigned(t.worker_partition_ids@, parts.last().partition.id) {
            let f = filter_of(t.worker_partition_ids@, parts.last().partition.id);
            snapshot_sources(t.remote_to_local_names@, parts.last()).map_values(|x: SourceV| (x, f))
        } else {
            Seq::empty()
        }
    }
}

/// The reader-creation errors.
pub open spec fn is_reader_error(e: CubeError) -> bool {
    e == CubeError::MissingRemotePath || e == CubeError::MissingChunkBatches || e == CubeError::EmptyChunkBatches
}

impl CubeTable {
    /// The reader of one chunk, before its key-range filter.
    fn chunk_reader(&self, chunk: &Chunk, proj: &Option<Vec<usize>>, predicate: &Option<Expr>, batch_size: usize) -> (r: Result<ExecNode, CubeError>)
        requires
            self.wf(),
        ensures
            (r is Ok) == self.chunk_ok(*chunk),
            r matches Err(e) ==> is_reader_error(e),
            r matches Ok(n) ==> match chunk_source(self.remote_to_local_names@, *chunk) {
                SourceV::File(path) => n matches ExecNode::ParquetScan { path: p, projection, predicate: pr, batch_size: bs } && p@ == path
                    && positions_view(projection) == positions_view(*proj) && opt_expr_view(pr) == opt_expr_view(*predicate) && bs == batch_size,
                SourceV::Memory(id) => n matches ExecNode::MemorySource { chunk_id, projection } && chunk_id == id
                    && positions_view(projection) == positions_view(*proj),
            },
    {
        if chunk.in_memory {
            match self.chunk_id_to_record_batches.get(&chunk.id) {
                Some(batches) => {
                    if batches.len() == 0 {
                        return Err(CubeError::EmptyChunkBatches);
                    }
                    Ok(ExecNode::MemorySource { chunk_id: chunk.id, projection: copy_positions(proj) })
                },
                None => Err(CubeError::MissingChunkBatches),
            }
        } else {
            match local_path(&self.remote_to_local_names, &chunk.file_name) {
                Some(local) => Ok(ExecNode::ParquetScan { path: local, projection: copy_positions(proj), predicate: copy_predicate(predicate), batch_size }),
                None => Err(CubeError::MissingRemotePath),
            }
        }
    }

    /// The readers of one partition snapshot: its file and each chunk, each
    /// under the partition's key-range filter.
    #[verifier::rlimit(60)]
    fn snapshot_reader_nodes(
        &self,
        ps: &PartitionSnapshot,
        filter: &RowFilter,
        proj: &Option<Vec<usize>>,
        predicate: &Option<Expr>,
        batch_size: usize,
        out: &mut Vec<ExecNode>,
    ) -> (r: Result<(), CubeError>)
        requires
            self.wf(),
        ensures
            r is Ok ==> final(out)@.len() == old(out)@.len() + snapshot_sources(self.remote_to_local_names@, *ps).len(),
            r is Ok ==> final(out)@.subrange(0, old(out)@.len() as int) == old(out)@,
            r is Ok ==> forall|i: int| old(out)@.len() <= i < final(out)@.len() ==> reader_ok(
                #[trigger] final(out)@[i],
                snapshot_sources(self.remote_to_local_names@, *ps)[i - old(out)@.len()],
                filter@,
                self.index_snapshot.index.sort_key_size,
                positions_view(*proj),
                opt_expr_view(*predicate),
                batch_size,
            ),
            r matches Err(e) ==> is_reader_error(e),
            (r is Ok) == self.snapshot_ok(*ps),
    {
        let key_len = self.index_snapshot.index.sort_key_size;
        let ghost start = out@;
        let ghost ss = snapshot_sources(self.remote_to_local_names@, *ps);
        let ghost pv = positions_view(*proj);
        let ghost ev = opt_expr_view(*predicate);
        let ghost off: int = if ps.partition.file_name is Some { 1 } else { 0 };
        assert(ss.len() == off + ps.chunks@.len());
        if let Some(remote) = &ps.partition.file_name {
            match local_path(&self.remote_to_local_names, remote) {
                Some(local) => {
                    let scan = ExecNode::ParquetScan { path: local, projection: copy_positions(proj), predicate: copy_predicate(predicate), batch_size };
                    out.push(ExecNode::FilterByKeyRange { input: Box::new(scan), filter: filter.copy(), key_len });
                },
                None => {
                    return Err(CubeError::MissingRemotePath);
                },
            }
        }
        assert(ps.partition.file_name matches Some(n) ==> self.local_known(n@));
        let ghost base = out@;
        assert(base.len() == start.len() + if ps.partition.file_name is Some { 1nat } else { 0nat });
        let mut k: usize = 0;
        while k < ps.chunks.len()
            invariant
                k <= ps.chunks.len(),
                key_len == self.index_snapshot.index.sort_key_size,
                out@.len() == base.len() + k,
                out@.subrange(0, base.len() as int) == base,
                base.len() >= start.len(),
                base.subrange(0, start.len() as int) == start,
                ss == snapshot_sources(self.remote_to_local_names@, *ps),
                pv == positions_view(*proj),
                ev == opt_expr_view(*predicate),
                off == (if ps.partition.file_name is Some { 1int } else { 0int }),
                base.len() == start.len() + off,
                forall|i: int| start.len() <= i < out@.len() ==> reader_ok(#[trigger] out@[i], ss[i - start.len()], filter@, key_len, pv, ev, batch_size),
                self.wf(),
                ps.partition.file_name matches Some(n) ==> self.local_known(n@),
                forall|q: int| 0 <= q < k ==> self.chunk_ok(#[trigger] ps.chunks@[q]),
            decreases ps.chunks.len() - k,
        {
            let chunk = &ps.chunks[k];
            let node = match self.chunk_reader(chunk, proj, predicate, batch_size) {
                Ok(n) => n,
                Err(e) => {
                    return Err(e);
                },
            };
            let ghost before = out@;
            assert(ss[off + k] == chunk_source(self.remote_to_local_names@, ps.chunks@[k as int]));
            out.push(ExecNode::FilterByKeyRange { input: Box::new(node), filter: filter.copy(), key_len });
            assert(out@.subrange(0, base.len() as int) =~= before.subrange(0, base.len() as int));
            assert(forall|i: int| start.len() <= i < before.len() ==> out@[i] == before[i]);
            k += 1;
        }
        assert(out@.subrange(0, start.len() as int) =~= out@.subrange(0, base.len() as int).subrange(0, start.len() as int));
        Ok(())
    }

    /// The readers of the partitions assigned to this worker, in order.
    pub fn partition_readers(&self, proj: &Option<Vec<usize>>, predicate: &Option<Expr>, batch_size: usize) -> (r: Result<Vec<ExecNode>, CubeError>)
        requires
            self.wf(),
        ensures
            r matches Ok(v) ==> v@.len() == sources(*self, self.index_snapshot.partitions@).len()
                && forall|i: int| 0 <= i < v@.len() ==> reader_ok(
                    #[trigger] v@[i],
                    sources(*self, self.index_snapshot.partitions@)[i].0,
                    sources(*self, self.index_snapshot.partitions@)[i].1,
                    self.index_snapshot.index.sort_key_size,
                    positions_view(*proj),
                    opt_expr_view(*predicate),
                    batch_size,
                ),
            r matches Err(e) ==> is_reader_error(e),
            (r is Ok) == self.readers_ok(),
    {
        let parts = &self.index_snapshot.partitions;
        let mut out: Vec<ExecNode> = Vec::new();
        let mut i: usize = 0;
        while i < parts.len()
            invariant
                self.wf(),
                parts == &self.index_snapshot.partitions,
                i <= parts.len(),
                out@.len() == sources(*self, parts@.subrange(0, i as int)).len(),
                forall|q: int| 0 <= q < i && assigned(self.worker_partition_ids@, (#[trigger] parts@[q]).partition.id) ==> self.snapshot_ok(parts@[q]),
                forall|q: int| 0 <= q < out@.len() ==> reader_ok(
                    #[trigger] out@[q],
                    sources(*self, parts@.subrange(0, i as int))[q].0,
                    sources(*self, parts@.subrange(0, i as int))[q].1,
                    self.index_snapshot.index.sort_key_size,
                    positions_view(*proj),
                    opt_expr_view(*predicate),
                    batch_size,
                ),
            decreases parts.len() - i,
        {
            let ps = &parts[i];
            assert(parts@.subrange(0, i + 1).drop_last() =~= parts@.subrange(0, i as int));
            assert(parts@.subrange(0, i + 1).last() == *ps);
            match find_filter(&self.worker_partition_ids, ps.partition.id) {
                Some(f) => {
                    assert(assigned(self.worker_partition_ids@, ps.partition.id));
                    let ghost old_out = out@;
                    let ghost prev = sources(*self, parts@.subrange(0, i as int));
                    let ghost wp = self.worker_partition_ids@;
                    let ghost fv = filter_of(wp, ps.partition.id);
                    proof {
                        let c = choose|c: int| 0 <= c < wp.len() && wp[c].0 == ps.partition.id;
                        if c < f {
                            assert(wp[c].0 < wp[f as int].0);
                        } else if c > f {
                            assert(wp[f as int].0 < wp[c].0);
                        }
                        assert(fv == wp[f as int].1@);
                    }
                    let res = self.snapshot_reader_nodes(ps, &self.worker_partition_ids[f].1, proj, predicate, batch_size, &mut out);
                    if let Err(e) = res {
                        assert(!self.snapshot_ok(parts@[i as int]));
                        return Err(e);
                    }
                    let ghost ss = snapshot_sources(self.remote_to_local_names@, *ps);
                    let ghost now = sources(*self, parts@.subrange(0, i + 1));
                    assert(now == prev + ss.map_values(|x: SourceV| (x, fv)));
                    assert forall|q: int| 0 <= q < out@.len() implies reader_ok(
                        #[trigger] out@[q],
                        now[q].0,
                        now[q].1,
                        self.index_snapshot.index.sort_key_size,
                        positions_view(*proj),
                        opt_expr_view(*predicate),
                        batch_size,
                    ) by {
                        if q < old_out.len() {
                            assert(out@[q] == out@.subrange(0, old_out.len() as int)[q]);
                            assert(now[q] == prev[q]);
                        } else {
                            assert(now[q] == (ss[q - old_out.len()], fv));
                        }
                    }
                },
                None => {
                    assert(!assigned(self.worker_partition_ids@, ps.partition.id));
                    assert(sources(*self, parts@.subrange(0, i + 1)) =~= sources(*self, parts@.subrange(0, i as int)));
                },
            }
            i += 1;
        }
        assert(parts@.subrange(0, i as int) =~= parts@);
        Ok(out)
    }

    /// The position of the first field of each of `names`.
    fn field_positions(fields: &Vec<Field>, names: &Vec<String>) -> (r: Result<Vec<usize>, CubeError>)
        ensures
            (r is Ok) == names_found(fields_view(fields@), strs_view(names@)),
            r matches Err(e) ==> e == CubeError::ColumnNotFound,
            r matches Ok(v) ==> v@ == positions_in(fields_view(fields@), strs_view(names@)),
    {
        let ghost fn_ = names_of(fields_view(fields@));
        let ghost nv = strs_view(names@);
        let mut v: Vec<usize> = Vec::new();
        let mut k: usize = 0;
        while k < names.len()
            invariant
                k <= names.len(),
                fn_ == names_of(fields_view(fields@)),
                nv == strs_view(names@),
                v.len() == k,
                forall|q: int| 0 <= q < k ==> first_position(fn_, nv[q]) == Some(v@[q] as nat),
            decreases names.len() - k,
        {
            let mut found: Option<usize> = None;
            let mut i: usize = 0;
            while i < fields.len() && found.is_none()
                invariant
                    i <= fields.len(),
                    k < names.len(),
                    fn_ == names_of(fields_view(fields@)),
                    nv == strs_view(names@),
                    found matches Some(f) ==> f < fields.len() && fn_[f as int] == nv[k as int] && forall|j: int| 0 <= j < f ==> fn_[j] != nv[k as int],
                    found is None ==> forall|j: int| 0 <= j < i ==> fn_[j] != nv[k as int],
                decreases fields.len() - i,
            {
                assert(fn_[i as int] == fields@[i as int].name@);
                if fields[i].name == names[k] {
                    found = Some(i);
                }
                i += 1;
            }
            match found {
                Some(f) => {
                    proof {
                        lemma_first_position(fn_, nv[k as int], f as int);
                    }
                    v.push(f);
                },
                None => {
                    assert(first_position(fn_, nv[k as int]) is None);
                    assert(!names_found(fields_view(fields@), nv));
                    return Err(CubeError::ColumnNotFound);
                },
            }
            k += 1;
        }
        assert(v@ =~= positions_in(fields_view(fields@), nv));
        assert forall|q: int| 0 <= q < nv.len() implies (#[trigger] first_position(names_of(fields_view(fields@)), nv[q])) is Some by {
            assert(first_position(fn_, nv[q]) == Some(v@[q] as nat));
        }
        Ok(v)
    }

    /// The names of the table columns at the given positions.
    fn table_column_names(&self, cols: &Vec<usize>) -> (r: Vec<String>)
        requires
            forall|k: int| 0 <= k < cols.len() ==> #[trigger] cols@[k] < self.index_snapshot.table.columns@.len(),
        ensures
            strs_view(r@) == proj_names(*self, cols@),
    {
        let mut r: Vec<String> = Vec::new();
        let mut k: usize = 0;
        while k < cols.len()
            invariant
                k <= cols.len(),
                r.len() == k,
                forall|q: int| 0 <= q < cols.len() ==> #[trigger] cols@[q] < self.index_snapshot.table.columns@.len(),
                forall|q: int| 0 <= q < k ==> (#[trigger] r@[q])@ == col_name(*self, cols@[q]),
            decreases cols.len() - k,
        {
            r.push(self.index_snapshot.table.columns[cols[k]].name.clone());
            k += 1;
        }
        assert(strs_view(r@) =~= proj_names(*self, cols@));
        r
    }

    /// The table's fields at the given positions.
    fn fields_at(&self, rp: &Vec<usize>) -> (r: Vec<Field>)
        requires
            forall|k: int| 0 <= k < rp.len() ==> #[trigger] rp@[k] < self.schema.fields@.len(),
        ensures
            fields_view(r@) == Seq::new(rp@.len(), |k: int| schema_view(self.schema)[rp@[k] as int]),
    {
        let mut r: Vec<Field> = Vec::new();
        let mut k: usize = 0;
        while k < rp.len()
            invariant
                k <= rp.len(),
                forall|q: int| 0 <= q < rp.len() ==> #[trigger] rp@[q] < self.schema.fields@.len(),
                fields_view(r@) =~= Seq::new(k as nat, |q: int| schema_view(self.schema)[rp@[q] as int]),
            decreases rp.len() - k,
        {
            let f = &self.schema.fields[rp[k]];
            let ghost prev = fields_view(r@);
            r.push(Field { name: f.name.clone(), data_type: f.data_type, nullable: f.nullable });
            assert(fields_view(r@) =~= prev.push((f.name@, f.data_type, f.nullable)));
            k += 1;
        }
        r
    }

    /// All of the table's fields.
    fn all_fields(&self) -> (r: Vec<Field>)
        ensures
            fields_view(r@) == schema_view(self.schema),
    {
        let mut r: Vec<Field> = Vec::new();
        let mut k: usize = 0;
        while k < self.schema.fields.len()
            invariant
                k <= self.schema.fields.len(),
                fields_view(r@) =~= schema_view(self.schema).subrange(0, k as int),
            decreases self.schema.fields.len() - k,
        {
            let f = &self.schema.fields[k];
            let ghost prev = fields_view(r@);
            r.push(Field { name: f.name.clone(), data_type: f.data_type, nullable: f.nullable });
            assert(fields_view(r@) =~= prev.push((f.name@, f.data_type, f.nullable)));
            k += 1;
        }
        assert(schema_view(self.schema).subrange(0, k as int) =~= schema_view(self.schema));
        r
    }

    /// The readers of the scan with the read projection and `predicate`
    /// pushed down, their columns put back in read order, and the fields of
    /// the scan's schema.
    #[verifier::rlimit(60)]
    fn build_readers(&self, projection: &Option<Vec<usize>>, batch_size: usize, predicate: &Option<Expr>) -> (r: Result<(Vec<ExecNode>, Vec<Field>), CubeError>)
        requires
            self.wf(),
            projection matches Some(p) ==> forall|k: int| 0 <= k < p.len() ==> #[trigger] p@[k] < self.index_snapshot.table.columns@.len(),
        ensures
            (read_proj_opt(*self, *projection) matches Some(rp) && !index_names_ok(*self, rp)) ==> r == Err::<(Vec<ExecNode>, Vec<Field>), CubeError>(CubeError::ColumnNotFound),
            (read_proj_opt(*self, *projection) matches Some(rp) ==> index_names_ok(*self, rp)) && !self.readers_ok() ==> (r matches Err(e) && is_reader_error(e)),
            (read_proj_opt(*self, *projection) matches Some(rp) ==> index_names_ok(*self, rp)) && self.readers_ok() ==> (r matches Ok(x)
                && fields_view(x.1@) == projected_fields(*self, *projection)
                && execs_ok(*self, *projection, opt_expr_view(*predicate), batch_size, x.0@)),
    {
        let t = &self.index_snapshot.table;
        let ncols = t.columns.len();
        let ghost rpo = read_proj_opt(*self, *projection);
        let mut read: Option<Vec<usize>> = None;
        let mut positions: Vec<usize> = Vec::new();
        let mut part_proj: Option<Vec<usize>> = None;
        if let Some(p) = projection {
            let rp = self.read_projection(p);
            proof {
                lemma_expand_bounded(p@, rp@, self.index_snapshot.table, ncols as nat);
            }
            match self.index_positions(&rp) {
                Ok(v) => {
                    part_proj = Some(sort_positions(&v, self.index_snapshot.index.columns.len()));
                    positions = v;
                },
                Err(e) => {
                    return Err(e);
                },
            }
            read = Some(rp);
        }
        assert(positions_view(part_proj) == part_proj_spec(*self, *projection));
        assert(positions_view(read) == rpo);
        let mut execs = match self.partition_readers(&part_proj, predicate, batch_size) {
            Ok(v) => v,
            Err(e) => {
                return Err(e);
            },
        };
        let ghost src = sources(*self, self.index_snapshot.partitions@);
        let ghost readers = execs@;
        let mut fields: Vec<Field> = Vec::new();
        if let (Some(rp), Some(sorted)) = (&read, &part_proj) {
            proof {
                assert forall|k: int| 0 <= k < positions@.len() implies sorted@.contains(#[trigger] positions@[k]) by {
                    assert(positions@.contains(positions@[k]));
                    lemma_ascending_contains(positions@, self.index_snapshot.index.columns@.len(), positions@[k]);
                }
            }
            let reorder = reorder_of(&positions, sorted);
            let mut identity = true;
            let mut k: usize = 0;
            while k < reorder.len()
                invariant
                    k <= reorder.len(),
                    identity == forall|q: int| 0 <= q < k ==> reorder@[q] == q,
                decreases reorder.len() - k,
            {
                if reorder[k] != k {
                    identity = false;
                }
                k += 1;
            }
            assert(scan_reorder(*self, *projection) == Some(reorder@));
            if !identity {
                let mut wrapped: Vec<ExecNode> = Vec::new();
                let ghost n = execs@.len();
                while execs.len() > 0
                    invariant
                        wrapped@.len() + execs@.len() == n,
                        n == readers.len(),
                        execs@ == readers.subrange(wrapped@.len() as int, n as int),
                        forall|q: int| 0 <= q < wrapped@.len() ==> ((#[trigger] wrapped@[q]) matches ExecNode::Projection { input, columns }
                            && columns@ == reorder@ && *input == readers[q]),
                    decreases execs@.len(),
                {
                    let ghost before = execs@;
                    let e = execs.remove(0);
                    assert(execs@ =~= readers.subrange(wrapped@.len() as int + 1, n as int));
                    let mut cols: Vec<usize> = Vec::new();
                    let mut q: usize = 0;
                    while q < reorder.len()
                        invariant
                            q <= reorder.len(),
                            cols@ =~= reorder@.subrange(0, q as int),
                        decreases reorder.len() - q,
                    {
                        cols.push(reorder[q]);
                        q += 1;
                    }
                    assert(reorder@.subrange(0, q as int) =~= reorder@);
                    wrapped.push(ExecNode::Projection { input: Box::new(e), columns: cols });
                }
                execs = wrapped;
            }
            fields = self.fields_at(rp);
        } else {
            fields = self.all_fields();
        }
        assert(fields_view(fields@) == projected_fields(*self, *projection));
        if execs.len() == 0 {
            execs.push(ExecNode::Empty);
        }
        assert(execs@.len() == 0 ==> src.len() == 0);
        Ok((execs, fields))
    }

    /// Builds the plan of the scan: the readers of the assigned partitions
    /// with the read projection and the combined filters pushed down, their
    /// columns put back in read order, then merged: sorted by the sort key and
    /// deduplicated by the unique key where the table has one, sorted by the
    /// snapshot's sort columns where it has them, else merged in any order.
    /// A missing index column is found first, then a reader that cannot be
    /// built, then a merge column that is not a field.
    pub fn scan(&self, projection: &Option<Vec<usize>>, batch_size: usize, filters: &Vec<Expr>) -> (r: Result<ExecNode, CubeError>)
        requires
            self.wf(),
            projection matches Some(p) ==> forall|k: int| 0 <= k < p.len() ==> #[trigger] p@[k] < self.index_snapshot.table.columns@.len(),
        ensures
            (read_proj_opt(*self, *projection) matches Some(rp) && !index_names_ok(*self, rp)) ==> r == Err::<ExecNode, CubeError>(CubeError::ColumnNotFound),
            (read_proj_opt(*self, *projection) matches Some(rp) ==> index_names_ok(*self, rp)) && !self.readers_ok() ==> (r matches Err(e) && is_reader_error(e)),
            (read_proj_opt(*self, *projection) matches Some(rp) ==> index_names_ok(*self, rp)) && self.readers_ok() && !merge_names_ok(*self, *projection)
                ==> r == Err::<ExecNode, CubeError>(CubeError::ColumnNotFound),
            (read_proj_opt(*self, *projection) matches Some(rp) ==> index_names_ok(*self, rp)) && self.readers_ok() && merge_names_ok(*self, *projection)
                ==> (r matches Ok(plan) && plan_spec(*self, *projection, filters@, batch_size, plan)),
    {
        let t = &self.index_snapshot.table;
        let predicate = combine_filters(filters);
        let (execs, fields) = match self.build_readers(projection, batch_size, &predicate) {
            Ok(x) => x,
            Err(e) => {
                return Err(e);
            },
        };
        let sort_names: Vec<String> = {
            let idx = &self.index_snapshot.index;
            let mut names: Vec<String> = Vec::new();
            let mut k: usize = 0;
            while k < idx.sort_key_size && k < idx.columns.len()
                invariant
                    k <= idx.columns.len(),
                    k <= idx.sort_key_size,
                    idx == &self.index_snapshot.index,
                    strs_view(names@) =~= strs_view(idx.columns@).take(k as int),
                decreases idx.columns.len() - k,
            {
                let ghost prev = strs_view(names@);
                names.push(idx.columns[k].clone());
                assert(strs_view(names@) =~= prev.push(idx.columns@[k as int]@));
                k += 1;
            }
            names
        };
        assert(strs_view(sort_names@) == sort_key_names(self.index_snapshot.index));
        let ghost fv = fields_view(fields@);
        let unique = match &t.unique_key {
            Some(key) => {
                let sort_columns = match Self::field_positions(&fields, &sort_names) {
                    Ok(v) => v,
                    Err(e) => {
                        return Err(e);
                    },
                };
                let key_names = self.table_column_names(key);
                assert(proj_names(*self, key@) =~= unique_key_names(self.index_snapshot.table));
                let key_columns = match Self::field_positions(&fields, &key_names) {
                    Ok(v) => v,
                    Err(e) => {
                        return Err(e);
                    },
                };
                let out_columns = match projection {
                    Some(p) => {
                        let names = self.table_column_names(p);
                        match Self::field_positions(&fields, &names) {
                            Ok(v) => Some(v),
                            Err(e) => {
                                return Err(e);
                            },
                        }
                    },
                    None => None,
                };
                Some((sort_columns, key_columns, out_columns))
            },
            None => None,
        };
        let sort_on_columns = match (&unique, &self.index_snapshot.sort_on) {
            (None, Some(so)) => match Self::field_positions(&fields, so) {
                Ok(v) => Some(v),
                Err(e) => {
                    return Err(e);
                },
            },
            _ => None,
        };
        let mut sort_on_names: Option<Vec<String>> = None;
        if let Some(so) = &self.index_snapshot.sort_on {
            let mut names: Vec<String> = Vec::new();
            let mut k: usize = 0;
            while k < so.len()
                invariant
                    k <= so.len(),
                    strs_view(names@) =~= strs_view(so@).subrange(0, k as int),
                decreases so.len() - k,
            {
                let ghost prev = strs_view(names@);
                names.push(so[k].clone());
                assert(strs_view(names@) =~= prev.push(so@[k as int]@));
                k += 1;
            }
            assert(strs_view(so@).subrange(0, k as int) =~= strs_view(so@));
            sort_on_names = Some(names);
        }
        let ghost execs_v = execs@;
        let exec = CubeTableExec {
            schema: BatchSchema { fields },
            partition_execs: execs,
            sort_on: sort_on_names,
            sort_key: sort_names,
            filter: predicate,
        };
        assert(schema_view(exec.schema) =~= fv);
        let read_data = ExecNode::Table(exec);
        match unique {
            Some((sort_columns, key_columns, out_columns)) => {
                let merged = ExecNode::MergeSort { input: Box::new(read_data), columns: sort_columns };
                let dedup = ExecNode::LastRowByUniqueKey { input: Box::new(merged), columns: key_columns };
                match out_columns {
                    Some(columns) => Ok(ExecNode::Projection { input: Box::new(dedup), columns }),
                    None => Ok(dedup),
                }
            },
            None => match sort_on_columns {
                Some(columns) => Ok(ExecNode::MergeSort { input: Box::new(read_data), columns }),
                None => Ok(ExecNode::Merge { input: Box::new(read_data) }),
            },
        }
    }

    /// The read projection: the requested table columns, then the unique-key
    /// columns and the sequence column where the table has a unique key.
    pub fn read_projection(&self, p: &Vec<usize>) -> (r: Vec<usize>)
        requires
            self.wf(),
        ensures
            r@ == read_projection_spec(self.index_snapshot.table, p@),
    {
        match &self.index_snapshot.table.unique_key {
            Some(k) => {
                let mut extra: Vec<usize> = Vec::new();
                let mut i: usize = 0;
                while i < k.len()
                    invariant
                        i <= k.len(),
                        extra@ =~= k@.subrange(0, i as int),
                    decreases k.len() - i,
                {
                    extra.push(k[i]);
                    i += 1;
                }
                assert(k@.subrange(0, i as int) =~= k@);
                extra.push(self.index_snapshot.table.seq_column.unwrap());
                expand_projection(p, &extra)
            },
            None => {
                let mut w: Vec<usize> = Vec::new();
                let mut i: usize = 0;
                while i < p.len()
                    invariant
                        i <= p.len(),
                        w@ =~= p@.subrange(0, i as int),
                    decreases p.len() - i,
                {
                    w.push(p[i]);
                    i += 1;
                }
                assert(p@.subrange(0, i as int) =~= p@);
                w
            },
        }
    }

    /// The index position of each table column of `read`, found by name:
    /// the first index column of that name.
    pub fn index_positions(&self, read: &Vec<usize>) -> (r: Result<Vec<usize>, CubeError>)
        requires
            forall|k: int| 0 <= k < read.len() ==> #[trigger] read@[k] < self.index_snapshot.table.columns@.len(),
        ensures
            (r is Ok) == index_names_ok(*self, read@),
            r matches Err(e) ==> e == CubeError::ColumnNotFound,
            r matches Ok(v) ==> v@ == index_positions_spec(*self, read@)
                && forall|k: int| 0 <= k < v.len() ==> (#[trigger] v@[k]) < self.index_snapshot.index.columns@.len(),
    {
        let cols = &self.index_snapshot.index.columns;
        let ghost names = strs_view(cols@);
        let mut v: Vec<usize> = Vec::new();
        let mut k: usize = 0;
        while k < read.len()
            invariant
                k <= read.len(),
                cols == &self.index_snapshot.index.columns,
                names == strs_view(cols@),
                forall|q: int| 0 <= q < read.len() ==> #[trigger] read@[q] < self.index_snapshot.table.columns@.len(),
                v.len() == k,
                forall|q: int| 0 <= q < k ==> (#[trigger] v@[q]) < cols@.len()
                    && first_position(names, col_name(*self, read@[q])) == Some(v@[q] as nat),
            decreases read.len() - k,
        {
            let name = &self.index_snapshot.table.columns[read[k]].name;
            match position_of(cols, name) {
                Some(i) => {
                    proof {
                        lemma_first_position(names, name@, i as int);
                    }
                    v.push(i);
                },
                None => {
                    assert(first_position(names, col_name(*self, read@[k as int])) is None) by {
                        if exists|i: int| 0 <= i < names.len() && names[i] == name@ {
                            let i = choose|i: int| 0 <= i < names.len() && names[i] == name@;
                            assert(cols@[i]@ == names[i]);
                        }
                    }
                    return Err(CubeError::ColumnNotFound);
                },
            }
            k += 1;
        }
        assert(v@ =~= index_positions_spec(*self, read@));
        assert forall|q: int| 0 <= q < read@.len() implies (#[trigger] first_position(strs_view(self.index_snapshot.index.columns@), col_name(*self, read@[q]))) is Some by {
            assert(first_position(names, col_name(*self, read@[q])) == Some(v@[q] as nat));
        }
        Ok(v)
    }
}

} // verus!

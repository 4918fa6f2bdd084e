//! Record batches held as plain values, and their regrouping into pieces of
//! bounded size.
use vstd::prelude::*;
use crate::model::{row_view, DataType, Field, BatchSchema, Value, ValueV};

verus! {

/// A columnar batch: a schema, one column of cells per field, and the number
/// of rows.
#[derive(Debug)]
pub struct ColumnBatch {
    pub schema: BatchSchema,
    pub columns: Vec<Vec<Value>>,
    pub num_rows: usize,
}

/// The view of a schema: name, type and nullability of each field.
pub open spec fn schema_view(s: BatchSchema) -> Seq<(Seq<char>, DataType, bool)> {
    s.fields@.map_values(|f: Field| (f.name@, f.data_type, f.nullable))
}

/// The views of the columns of a batch.
pub open spec fn cols_view(b: ColumnBatch) -> Seq<Seq<ValueV>> {
    b.columns@.map_values(|c: Vec<Value>| row_view(c@))
}

impl ColumnBatch {
    /// One column per field, each with `num_rows` cells.
    pub open spec fn wf(&self) -> bool {
        &&& self.columns@.len() == self.schema.fields@.len()
        &&& forall|c: int| 0 <= c < self.columns@.len() ==> (#[trigger] self.columns@[c])@.len() == self.num_rows
    }
}

/// Column `c` of all batches, one batch after another.
pub open spec fn concat_col(bs: Seq<ColumnBatch>, c: int) -> Seq<ValueV>
    decreases bs.len(),
{
    if bs.len() == 0 {
        Seq::empty()
    } else {
        concat_col(bs.drop_last(), c) + cols_view(bs.last())[c]
    }
}

/// The row counts of the pieces that a batch of `rows` rows is cut into:
/// full pieces of `n` rows, then what is left.
pub open spec fn chunk_sizes(rows: nat, n: nat) -> Seq<nat>
    decreases rows,
{
    if rows == 0 || n == 0 {
        Seq::empty()
    } else if rows <= n {
        seq![rows]
    } else {
        seq![n] + chunk_sizes((rows - n) as nat, n)
    }
}

/// The row counts of the pieces of all batches, one batch after another.
pub open spec fn all_chunk_sizes(bs: Seq<ColumnBatch>, n: nat) -> Seq<nat>
    decreases bs.len(),
{
    if bs.len() == 0 {
        Seq::empty()
    } else {
        all_chunk_sizes(bs.drop_last(), n) + chunk_sizes(bs.last().num_rows as nat, n)
    }
}

/// The row counts of a list of batches.
pub open spec fn sizes(bs: Seq<ColumnBatch>) -> Seq<nat> {
    bs.map_values(|b: ColumnBatch| b.num_rows as nat)
}

/// All batches are well formed and have the fields of `s`.
pub open spec fn all_of_schema(bs: Seq<ColumnBatch>, s: Seq<(Seq<char>, DataType, bool)>) -> bool {
    forall|i: int| 0 <= i < bs.len() ==> (#[trigger] bs[i]).wf() && schema_view(bs[i].schema) == s
}

/// A copy of a schema.
pub fn copy_schema(s: &BatchSchema) -> (r: BatchSchema)
    ensures
        schema_view(r) == schema_view(*s),
{
    let mut fields: Vec<Field> = Vec::new();
    let mut i: usize = 0;
    while i < s.fields.len()
        invariant
            i <= s.fields.len(),
            schema_view(BatchSchema { fields }) =~= schema_view(*s).subrange(0, i as int),
        decreases s.fields.len() - i,
    {
        let f = &s.fields[i];
        let ghost prev = schema_view(BatchSchema { fields });
        fields.push(Field { name: f.name.clone(), data_type: f.data_type, nullable: f.nullable });
        assert(schema_view(BatchSchema { fields }) =~= prev.push((f.name@, f.data_type, f.nullable)));
        i += 1;
    }
    assert(schema_view(*s).subrange(0, i as int) =~= schema_view(*s));
    BatchSchema { fields }
}

/// Cells `start .. start + len` of a column, in a buffer of their own.
pub fn slice_copy(a: &Vec<Value>, start: usize, len: usize) -> (r: Vec<Value>)
    requires
        start + len <= a.len(),
    ensures
        row_view(r@) == row_view(a@).subrange(start as int, start + len),
{
    let mut r: Vec<Value> = Vec::new();
    let mut i: usize = 0;
    while i < len
        invariant
            i <= len,
            start + len <= a.len(),
            r.len() == i,
            forall|k: int| 0 <= k < i ==> (#[trigger] r@[k])@ == a@[start + k]@,
        decreases len - i,
    {
        r.push(a[start + i].copy());
        i += 1;
    }
    assert(row_view(r@) =~= row_view(a@).subrange(start as int, start + len));
    r
}

/// Rows `start .. start + len` of a batch, each column in a buffer of its own.
pub fn slice_batch(b: &ColumnBatch, start: usize, len: usize) -> (r: ColumnBatch)
    requires
        b.wf(),
        start + len <= b.num_rows,
    ensures
        r.wf(),
        r.num_rows == len,
        schema_view(r.schema) == schema_view(b.schema),
        forall|c: int| 0 <= c < cols_view(*b).len() ==> #[trigger] cols_view(r)[c] == cols_view(*b)[c].subrange(start as int, start + len),
        cols_view(r).len() == cols_view(*b).len(),
{
    let mut columns: Vec<Vec<Value>> = Vec::new();
    let mut k: usize = 0;
    while k < b.columns.len()
        invariant
            b.wf(),
            start + len <= b.num_rows,
            k <= b.columns.len(),
            columns.len() == k,
            forall|c: int| 0 <= c < k ==> (#[trigger] columns@[c])@.len() == len,
            forall|c: int| 0 <= c < k ==> row_view((#[trigger] columns@[c])@) == cols_view(*b)[c].subrange(start as int, start + len),
        decreases b.columns.len() - k,
    {
        assert(b.columns@[k as int]@.len() == b.num_rows);
        let col = slice_copy(&b.columns[k], start, len);
        assert(col@.len() == row_view(col@).len());
        columns.push(col);
        k += 1;
    }
    let r = ColumnBatch { schema: copy_schema(&b.schema), columns, num_rows: len };
    assert(schema_view(r.schema).len() == r.schema.fields@.len());
    assert(schema_view(b.schema).len() == b.schema.fields@.len());
    assert forall|c: int| 0 <= c < cols_view(*b).len() implies #[trigger] cols_view(r)[c] == cols_view(*b)[c].subrange(start as int, start + len) by {
        assert(cols_view(r)[c] == row_view(columns@[c]@));
    }
    r
}

proof fn lemma_chunk_sizes_bounded(rows: nat, n: nat)
    ensures
        forall|k: int| 0 <= k < chunk_sizes(rows, n).len() ==> 1 <= #[trigger] chunk_sizes(rows, n)[k] <= n,
    decreases rows,
{
    if rows > 0 && n > 0 && rows > n {
        lemma_chunk_sizes_bounded((rows - n) as nat, n);
        assert forall|k: int| 0 <= k < chunk_sizes(rows, n).len() implies 1 <= #[trigger] chunk_sizes(rows, n)[k] <= n by {
            if k > 0 {
                assert(chunk_sizes(rows, n)[k] == chunk_sizes((rows - n) as nat, n)[k - 1]);
            }
        }
    }
}

/// Every piece has between one and `n` rows.
pub proof fn lemma_all_chunk_sizes_bounded(bs: Seq<ColumnBatch>, n: nat)
    ensures
        forall|k: int| 0 <= k < all_chunk_sizes(bs, n).len() ==> 1 <= #[trigger] all_chunk_sizes(bs, n)[k] <= n,
    decreases bs.len(),
{
    if bs.len() > 0 {
        lemma_all_chunk_sizes_bounded(bs.drop_last(), n);
        lemma_chunk_sizes_bounded(bs.last().num_rows as nat, n);
        let a = all_chunk_sizes(bs.drop_last(), n);
        assert forall|k: int| 0 <= k < all_chunk_sizes(bs, n).len() implies 1 <= #[trigger] all_chunk_sizes(bs, n)[k] <= n by {
            if k >= a.len() {
                assert(all_chunk_sizes(bs, n)[k] == chunk_sizes(bs.last().num_rows as nat, n)[k - a.len()]);
            } else {
                assert(all_chunk_sizes(bs, n)[k] == a[k]);
            }
        }
    }
}

/// The batches are well formed and share the fields of `s`.
pub open spec fn common_schema(bs: Seq<ColumnBatch>, s: Seq<(Seq<char>, DataType, bool)>) -> bool {
    forall|i: int| 0 <= i < bs.len() ==> (#[trigger] bs[i]).wf() && schema_view(bs[i].schema) == s
}

/// Cuts batches into pieces of at most `max_rows` rows. Pieces never span two
/// input batches: each batch gives full pieces and then what is left. The
/// schema and the rows, in order, are kept.
pub fn regroup_batches(batches: &Vec<ColumnBatch>, max_rows: usize) -> (r: Vec<ColumnBatch>)
    requires
        max_rows >= 1,
        batches.len() > 0 ==> common_schema(batches@, schema_view(batches@[0].schema)),
    ensures
        sizes(r@) == all_chunk_sizes(batches@, max_rows as nat),
        forall|i: int| 0 <= i < r.len() ==> 1 <= (#[trigger] r@[i]).num_rows <= max_rows,
        batches.len() > 0 ==> common_schema(r@, schema_view(batches@[0].schema)),
        batches.len() > 0 ==> forall|c: int| 0 <= c < schema_view(batches@[0].schema).len() ==> #[trigger] concat_col(r@, c) == concat_col(batches@, c),
{
    if batches.len() == 0 {
        let r: Vec<ColumnBatch> = Vec::new();
        assert(batches@ =~= Seq::<ColumnBatch>::empty());
        assert(sizes(r@) =~= all_chunk_sizes(batches@, max_rows as nat));
        return r;
    }
    let ghost n = max_rows as nat;
    let ghost sv = schema_view(batches@[0].schema);
    let mut r: Vec<ColumnBatch> = Vec::new();
    let mut i: usize = 0;
    while i < batches.len()
        invariant
            max_rows >= 1,
            n == max_rows as nat,
            i <= batches.len(),
            common_schema(batches@, sv),
            sizes(r@) == all_chunk_sizes(batches@.subrange(0, i as int), n),
            common_schema(r@, sv),
            forall|c: int| 0 <= c < sv.len() ==> #[trigger] concat_col(r@, c) == concat_col(batches@.subrange(0, i as int), c),
        decreases batches.len() - i,
    {
        let b = &batches[i];
        let ghost pre = batches@.subrange(0, i as int);
        assert(batches@.subrange(0, i + 1).drop_last() =~= pre);
        assert(batches@.subrange(0, i + 1).last() == *b);
        assert(b.wf() && schema_view(b.schema) == sv);
        let mut row: usize = 0;
        while row != b.num_rows
            invariant
                max_rows >= 1,
                n == max_rows as nat,
                b.wf(),
                schema_view(b.schema) == sv,
                cols_view(*b).len() == sv.len(),
                row <= b.num_rows,
                sizes(r@) + chunk_sizes((b.num_rows - row) as nat, n) == all_chunk_sizes(pre, n) + chunk_sizes(b.num_rows as nat, n),
                common_schema(r@, sv),
                forall|c: int| 0 <= c < sv.len() ==> #[trigger] concat_col(r@, c) == concat_col(pre, c) + cols_view(*b)[c].subrange(0, row as int),
            decreases b.num_rows - row,
        {
            let left = b.num_rows - row;
            let slice_len = if left < max_rows { left } else { max_rows };
            let piece = slice_batch(b, row, slice_len);
            let ghost prev = r@;
            r.push(piece);
            proof {
                assert(r@.drop_last() == prev);
                assert(sizes(r@) =~= sizes(prev).push(slice_len as nat));
                let rest = (left - slice_len) as nat;
                assert(chunk_sizes(left as nat, n) == seq![slice_len as nat] + chunk_sizes(rest, n));
                assert(sizes(prev).push(slice_len as nat) + chunk_sizes(rest, n) =~= sizes(prev) + (seq![slice_len as nat] + chunk_sizes(rest, n)));
                assert forall|c: int| 0 <= c < sv.len() implies #[trigger] concat_col(r@, c) == concat_col(pre, c) + cols_view(*b)[c].subrange(0, row + slice_len) by {
                    assert(concat_col(r@, c) == concat_col(prev, c) + cols_view(piece)[c]);
                    assert(cols_view(*b)[c].subrange(0, row + slice_len) =~= cols_view(*b)[c].subrange(0, row as int) + cols_view(*b)[c].subrange(row as int, row + slice_len));
                }
            }
            row = row + slice_len;
        }
        proof {
            assert(chunk_sizes(0, n) == Seq::<nat>::empty());
            assert(sizes(r@) =~= sizes(r@) + chunk_sizes(0, n));
            assert forall|c: int| 0 <= c < sv.len() implies #[trigger] concat_col(r@, c) == concat_col(batches@.subrange(0, i + 1), c) by {
                assert(cols_view(*b)[c].len() == b.num_rows);
                assert(cols_view(*b)[c].subrange(0, row as int) =~= cols_view(*b)[c]);
            }
        }
        i += 1;
    }
    assert(batches@.subrange(0, i as int) =~= batches@);
    proof {
        lemma_all_chunk_sizes_bounded(batches@, n);
        assert forall|q: int| 0 <= q < r.len() implies 1 <= (#[trigger] r@[q]).num_rows <= max_rows by {
            assert(sizes(r@)[q] == r@[q].num_rows);
        }
    }
    r
}

} // verus!

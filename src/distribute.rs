//! Worker assignment: key-range filters for each logical worker partition,
//! the worker each one goes to, and the filters bound into a plan for one
//! worker.
use vstd::prelude::*;
use crate::logical::parts2_view;
use crate::model::{full_range, parts_view, Partition, PartitionV, RangeV, RowRange};
use crate::names::{chars_lt, lemma_chars_lt_irreflexive, lemma_chars_lt_total, lemma_chars_lt_transitive, name_lt, pick_worker_by_ids, worker_for, WorkerConfig};

verus! {

/// The view of a list of (partition id, range) pairs.
pub open spec fn filters_view(v: Seq<(u64, RowRange)>) -> Seq<(u64, RangeV)> {
    v.map_values(|x: (u64, RowRange)| (x.0, x.1@))
}

/// The range that the first partition of a list covers.
pub open spec fn leaf_range(ps: Seq<PartitionV>) -> RangeV {
    RangeV { start: ps[0].min_val, end: ps[0].max_val }
}

/// The filter of each partition of a logical worker partition: all of it in
/// the ordinary regime; in the multi-partition regime all of the leaf's own
/// partitions (those of the first one's multi-partition) and, of an
/// ancestor's, only the first partition's key range.
pub open spec fn filters_spec(ps: Seq<PartitionV>) -> Seq<(u64, RangeV)> {
    if ps.len() == 0 {
        Seq::empty()
    } else {
        ps.map_values(|p: PartitionV|
            (p.id, if ps[0].multi_id is None || p.multi_id == ps[0].multi_id {
                full_range()
            } else {
                leaf_range(ps)
            }))
    }
}

/// The ids that route a logical worker partition: its multi-partition, or
/// else the ids of its partitions in order.
pub open spec fn routing_ids(ps: Seq<PartitionV>) -> Seq<u64> {
    match ps[0].multi_id {
        Some(m) => seq![m],
        None => ps.map_values(|p: PartitionV| p.id),
    }
}

/// The worker of a nonempty logical worker partition.
#[verifier::opaque]
pub open spec fn node_of(c: WorkerConfig, ps: Seq<PartitionV>) -> Seq<char> {
    worker_for(c, routing_ids(ps))
}

/// The filters of all logical worker partitions that go to worker `w`, in order.
pub open spec fn filters_for(c: WorkerConfig, l: Seq<Seq<PartitionV>>, w: Seq<char>) -> Seq<(u64, RangeV)>
    decreases l.len(),
{
    if l.len() == 0 {
        Seq::empty()
    } else {
        filters_for(c, l.drop_last(), w) + if node_of(c, l.last()) == w {
            filters_spec(l.last())
        } else {
            Seq::empty()
        }
    }
}

/// `w` is the worker of some logical worker partition.
pub open spec fn is_some_node(c: WorkerConfig, l: Seq<Seq<PartitionV>>, w: Seq<char>) -> bool {
    exists|j: int| 0 <= j < l.len() && node_of(c, l[j]) == w
}

/// `w` is the name of some entry of an assignment list.
pub open spec fn is_listed(r: Seq<(Seq<char>, Seq<(u64, RangeV)>)>, w: Seq<char>) -> bool {
    exists|i: int| 0 <= i < r.len() && r[i].0 == w
}

/// A list of worker assignments: names strictly ascending, exactly the
/// workers of the logical partitions, each with all of their filters.
pub open spec fn assignment_spec(c: WorkerConfig, l: Seq<Seq<PartitionV>>, r: Seq<(Seq<char>, Seq<(u64, RangeV)>)>) -> bool {
    &&& forall|i: int, j: int| 0 <= i < j < r.len() ==> chars_lt(r[i].0, r[j].0)
    &&& forall|i: int| 0 <= i < r.len() ==> is_some_node(c, l, #[trigger] r[i].0)
    &&& forall|j: int| 0 <= j < l.len() ==> is_listed(r, #[trigger] node_of(c, l[j]))
    &&& forall|i: int| 0 <= i < r.len() ==> (#[trigger] r[i]).1 == filters_for(c, l, r[i].0)
}

/// The view of a worker assignment list.
pub open spec fn assignment_view(r: Seq<(String, Vec<(u64, RowRange)>)>) -> Seq<(Seq<char>, Seq<(u64, RangeV)>)> {
    r.map_values(|x: (String, Vec<(u64, RowRange)>)| (x.0@, filters_view(x.1@)))
}

/// The filters of one logical worker partition.
pub fn issue_filters(ps: &Vec<Partition>) -> (r: Vec<(u64, RowRange)>)
    ensures
        filters_view(r@) == filters_spec(parts_view(ps@)),
{
    let ghost pv = parts_view(ps@);
    let mut r: Vec<(u64, RowRange)> = Vec::new();
    if ps.len() == 0 {
        assert(filters_view(r@) =~= filters_spec(pv));
        return r;
    }
    let multi_id = ps[0].multi_partition_id;
    let mut i: usize = 0;
    while i < ps.len()
        invariant
            0 < ps.len(),
            i <= ps.len(),
            pv == parts_view(ps@),
            multi_id == ps@[0].multi_partition_id,
            filters_view(r@) =~= filters_spec(pv).subrange(0, i as int),
        decreases ps.len() - i,
    {
        let range = if multi_id.is_none() || ps[i].multi_partition_id == multi_id {
            RowRange::default()
        } else {
            RowRange { start: crate::model::copy_opt_row(&ps[0].min_val), end: crate::model::copy_opt_row(&ps[0].max_val) }
        };
        let ghost prev = filters_view(r@);
        let ghost rv = range@;
        r.push((ps[i].id, range));
        assert(filters_view(r@) =~= prev.push((ps@[i as int].id, rv)));
        i += 1;
    }
    r
}

/// The worker of a nonempty logical worker partition.
pub fn pick_node(c: &WorkerConfig, ps: &Vec<Partition>) -> (w: String)
    requires
        ps.len() > 0,
    ensures
        w@ == node_of(*c, parts_view(ps@)),
{
    let ghost pv = parts_view(ps@);
    reveal(node_of);
    match ps[0].multi_partition_id {
        Some(m) => {
            let ids = vec![m];
            assert(ids@ =~= routing_ids(pv));
            pick_worker_by_ids(c, &ids)
        },
        None => {
            let mut ids: Vec<u64> = Vec::new();
            let mut i: usize = 0;
            while i < ps.len()
                invariant
                    i <= ps.len(),
                    pv == parts_view(ps@),
                    ids@ =~= pv.subrange(0, i as int).map_values(|p: PartitionV| p.id),
                decreases ps.len() - i,
            {
                ids.push(ps[i].id);
                i += 1;
            }
            assert(pv.subrange(0, i as int) =~= pv);
            pick_worker_by_ids(c, &ids)
        },
    }
}

/// Each list is nonempty.
pub open spec fn all_nonempty(l: Seq<Seq<PartitionV>>) -> bool {
    forall|j: int| 0 <= j < l.len() ==> (#[trigger] l[j]).len() > 0
}

/// Inserts `x` into a strictly ascending list of distinct names that does not
/// hold it.
fn insert_sorted(sorted: &mut Vec<String>, x: String)
    requires
        forall|a: int, b: int| 0 <= a < b < old(sorted).len() ==> chars_lt(old(sorted)@[a]@, old(sorted)@[b]@),
        forall|a: int| 0 <= a < old(sorted).len() ==> old(sorted)@[a]@ != x@,
    ensures
        forall|a: int, b: int| 0 <= a < b < final(sorted).len() ==> chars_lt(final(sorted)@[a]@, final(sorted)@[b]@),
        exists|k: int| 0 <= k <= old(sorted).len() && final(sorted)@ == old(sorted)@.insert(k, x),
{
    let mut k: usize = 0;
    let mut found = false;
    while k < sorted.len() && !found
        invariant
            k <= sorted.len(),
            forall|a: int| 0 <= a < k ==> !chars_lt(x@, sorted@[a]@),
            found ==> k < sorted.len() && chars_lt(x@, sorted@[k as int]@),
        decreases sorted.len() - k + if found { 0int } else { 1int },
    {
        if name_lt(&x, &sorted[k]) {
            found = true;
        } else {
            k += 1;
        }
    }
    let ghost old_s = sorted@;
    proof {
        assert forall|a: int| 0 <= a < k implies chars_lt(old_s[a]@, x@) by {
            lemma_chars_lt_total(old_s[a]@, x@);
        }
    }
    sorted.insert(k, x);
    proof {
        let s2 = sorted@;
        assert(s2 == old_s.insert(k as int, x));
        assert forall|a: int, b: int| 0 <= a < b < s2.len() implies chars_lt(s2[a]@, s2[b]@) by {
            if b < k {
                assert(s2[a] == old_s[a] && s2[b] == old_s[b]);
            } else if b == k {
                assert(s2[a] == old_s[a]);
            } else if a > k {
                assert(s2[a] == old_s[a - 1] && s2[b] == old_s[b - 1]);
            } else if a == k {
                assert(s2[b] == old_s[b - 1]);
                if b - 1 > k {
                    lemma_chars_lt_transitive(x@, old_s[k as int]@, old_s[b - 1]@);
                }
            } else {
                assert(s2[a] == old_s[a] && s2[b] == old_s[b - 1]);
                if b - 1 > k {
                    lemma_chars_lt_transitive(x@, old_s[k as int]@, old_s[b - 1]@);
                }
                lemma_chars_lt_transitive(old_s[a]@, x@, old_s[b - 1]@);
            }
        }
    }
}

/// The position of `x` in a list of names, if it is there.
fn find_name(v: &Vec<String>, x: &String) -> (r: Option<usize>)
    ensures
        r matches Some(i) ==> i < v.len() && v@[i as int]@ == x@,
        r is None ==> forall|a: int| 0 <= a < v.len() ==> v@[a]@ != x@,
{
    let mut i: usize = 0;
    while i < v.len()
        invariant
            i <= v.len(),
            forall|a: int| 0 <= a < i ==> v@[a]@ != x@,
        decreases v.len() - i,
    {
        if v[i] == *x {
            return Some(i);
        }
        i += 1;
    }
    None
}

/// The distinct names of a list, strictly ascending, with where each name
/// comes from and where each entry went.
fn distinct_sorted(nodes: &Vec<String>) -> (r: (Vec<String>, Ghost<Seq<int>>, Ghost<Seq<int>>))
    ensures
        forall|a: int, b: int| 0 <= a < b < r.0.len() ==> chars_lt(r.0@[a]@, r.0@[b]@),
        r.1@.len() == r.0.len(),
        forall|a: int| 0 <= a < r.0.len() ==> 0 <= #[trigger] r.1@[a] < nodes.len() && nodes@[r.1@[a]]@ == r.0@[a]@,
        r.2@.len() == nodes.len(),
        forall|k: int| 0 <= k < nodes.len() ==> 0 <= #[trigger] r.2@[k] < r.0.len() && r.0@[r.2@[k]]@ == nodes@[k]@,
{
    let mut sorted: Vec<String> = Vec::new();
    let ghost mut src: Seq<int> = Seq::empty();
    let ghost mut pos: Seq<int> = Seq::empty();
    let mut j: usize = 0;
    while j < nodes.len()
        invariant
            j <= nodes.len(),
            forall|a: int, b: int| 0 <= a < b < sorted.len() ==> chars_lt(sorted@[a]@, sorted@[b]@),
            src.len() == sorted.len(),
            forall|a: int| 0 <= a < sorted.len() ==> 0 <= #[trigger] src[a] < j && nodes@[src[a]]@ == sorted@[a]@,
            pos.len() == j,
            forall|k: int| 0 <= k < j ==> 0 <= #[trigger] pos[k] < sorted.len() && sorted@[pos[k]]@ == nodes@[k]@,
        decreases nodes.len() - j,
    {
        let x = &nodes[j];
        match find_name(&sorted, x) {
            Some(a0) => {
                proof {
                    pos = pos.push(a0 as int);
                }
            },
            None => {
                let ghost old_s = sorted@;
                insert_sorted(&mut sorted, x.clone());
                proof {
                    let k0 = choose|k: int| 0 <= k <= old_s.len() && sorted@ == old_s.insert(k, nodes@[j as int]);
                    let old_src = src;
                    let old_pos = pos;
                    src = old_src.insert(k0, j as int);
                    pos = old_pos.map_values(|p: int| if p >= k0 { p + 1 } else { p }).push(k0);
                    assert forall|a: int| 0 <= a < sorted.len() implies 0 <= #[trigger] src[a] < j + 1 && nodes@[src[a]]@ == sorted@[a]@ by {
                        if a < k0 {
                            assert(sorted@[a] == old_s[a] && src[a] == old_src[a]);
                        } else if a > k0 {
                            assert(sorted@[a] == old_s[a - 1] && src[a] == old_src[a - 1]);
                        }
                    }
                    assert forall|k: int| 0 <= k < j + 1 implies 0 <= #[trigger] pos[k] < sorted.len() && sorted@[pos[k]]@ == nodes@[k]@ by {
                        if k < j {
                            let p = old_pos[k];
                            if p >= k0 {
                                assert(sorted@[p + 1] == old_s[p]);
                            } else {
                                assert(sorted@[p] == old_s[p]);
                            }
                        }
                    }
                }
            },
        }
        j += 1;
    }
    (sorted, Ghost(src), Ghost(pos))
}

/// The worker of each logical worker partition.
fn nodes_of(c: &WorkerConfig, logical: &Vec<Vec<Partition>>) -> (nodes: Vec<String>)
    requires
        all_nonempty(parts2_view(logical@)),
    ensures
        nodes.len() == logical.len(),
        forall|k: int| 0 <= k < nodes.len() ==> (#[trigger] nodes@[k])@ == node_of(*c, parts2_view(logical@)[k]),
{
    let ghost lv = parts2_view(logical@);
    let mut nodes: Vec<String> = Vec::new();
    let mut j: usize = 0;
    while j < logical.len()
        invariant
            j <= logical.len(),
            lv == parts2_view(logical@),
            all_nonempty(lv),
            nodes.len() == j,
            forall|k: int| 0 <= k < j ==> (#[trigger] nodes@[k])@ == node_of(*c, lv[k]),
        decreases logical.len() - j,
    {
        assert(lv[j as int].len() > 0);
        nodes.push(pick_node(c, &logical[j]));
        j += 1;
    }
    nodes
}

/// All filters of the logical worker partitions that go to worker `name`.
fn gather_filters(c: &WorkerConfig, logical: &Vec<Vec<Partition>>, nodes: &Vec<String>, name: &String) -> (acc: Vec<(u64, RowRange)>)
    requires
        nodes.len() == logical.len(),
        forall|k: int| 0 <= k < nodes.len() ==> (#[trigger] nodes@[k])@ == node_of(*c, parts2_view(logical@)[k]),
    ensures
        filters_view(acc@) == filters_for(*c, parts2_view(logical@), name@),
{
    let ghost lv = parts2_view(logical@);
    let mut acc: Vec<(u64, RowRange)> = Vec::new();
    let mut k: usize = 0;
    while k < logical.len()
        invariant
            k <= logical.len(),
            lv == parts2_view(logical@),
            nodes.len() == logical.len(),
            forall|q: int| 0 <= q < nodes.len() ==> (#[trigger] nodes@[q])@ == node_of(*c, lv[q]),
            filters_view(acc@) == filters_for(*c, lv.subrange(0, k as int), name@),
        decreases logical.len() - k,
    {
        assert(lv.subrange(0, k + 1).drop_last() =~= lv.subrange(0, k as int));
        assert(lv.subrange(0, k + 1).last() == lv[k as int]);
        if nodes[k] == *name {
            let mut f = issue_filters(&logical[k]);
            let ghost prev = filters_view(acc@);
            let ghost fv = filters_view(f@);
            acc.append(&mut f);
            assert(filters_view(acc@) =~= prev + fv);
        } else {
            assert(filters_view(acc@) =~= filters_view(acc@) + Seq::empty());
        }
        k += 1;
    }
    assert(lv.subrange(0, k as int) =~= lv);
    acc
}

proof fn lemma_sorted_lists_equal(r1: Seq<(Seq<char>, Seq<(u64, RangeV)>)>, r2: Seq<(Seq<char>, Seq<(u64, RangeV)>)>)
    requires
        forall|i: int, j: int| 0 <= i < j < r1.len() ==> chars_lt(r1[i].0, r1[j].0),
        forall|i: int, j: int| 0 <= i < j < r2.len() ==> chars_lt(r2[i].0, r2[j].0),
        forall|i: int| 0 <= i < r1.len() ==> is_listed(r2, #[trigger] r1[i].0),
        forall|i: int| 0 <= i < r2.len() ==> is_listed(r1, #[trigger] r2[i].0),
    ensures
        r1.len() == r2.len(),
        forall|i: int| 0 <= i < r1.len() ==> #[trigger] r1[i].0 == r2[i].0,
{
    assert forall|i: int| 0 <= i < r1.len() && 0 <= i < r2.len() implies #[trigger] r1[i].0 == r2[i].0 by {
        lemma_prefix_equal(r1, r2, i);
    }
    if r1.len() > r2.len() {
        let n = r2.len() as int;
        lemma_extra_entry(r1, r2, n);
    } else if r2.len() > r1.len() {
        let n = r1.len() as int;
        lemma_extra_entry(r2, r1, n);
    }
}

proof fn lemma_prefix_equal(r1: Seq<(Seq<char>, Seq<(u64, RangeV)>)>, r2: Seq<(Seq<char>, Seq<(u64, RangeV)>)>, i: int)
    requires
        0 <= i < r1.len(),
        0 <= i < r2.len(),
        forall|a: int, b: int| 0 <= a < b < r1.len() ==> chars_lt(r1[a].0, r1[b].0),
        forall|a: int, b: int| 0 <= a < b < r2.len() ==> chars_lt(r2[a].0, r2[b].0),
        forall|a: int| 0 <= a < r1.len() ==> is_listed(r2, #[trigger] r1[a].0),
        forall|a: int| 0 <= a < r2.len() ==> is_listed(r1, #[trigger] r2[a].0),
    ensures
        r1[i].0 == r2[i].0,
    decreases i,
{
    if i > 0 {
        lemma_prefix_equal(r1, r2, i - 1);
    }
    assert forall|k: int| 0 <= k < i implies r1[k].0 == r2[k].0 by {
        lemma_prefix_equal(r1, r2, k);
    }
    if r1[i].0 != r2[i].0 {
        lemma_chars_lt_total(r1[i].0, r2[i].0);
        if chars_lt(r1[i].0, r2[i].0) {
            lemma_before_missing(r1, r2, i);
        } else {
            lemma_before_missing(r2, r1, i);
        }
    }
}

proof fn lemma_before_missing(r1: Seq<(Seq<char>, Seq<(u64, RangeV)>)>, r2: Seq<(Seq<char>, Seq<(u64, RangeV)>)>, i: int)
    requires
        0 <= i < r1.len(),
        0 <= i < r2.len(),
        chars_lt(r1[i].0, r2[i].0),
        forall|k: int| 0 <= k < i ==> r1[k].0 == r2[k].0,
        forall|a: int, b: int| 0 <= a < b < r1.len() ==> chars_lt(r1[a].0, r1[b].0),
        forall|a: int, b: int| 0 <= a < b < r2.len() ==> chars_lt(r2[a].0, r2[b].0),
    ensures
        !is_listed(r2, r1[i].0),
{
    if is_listed(r2, r1[i].0) {
        let b = choose|b: int| 0 <= b < r2.len() && r2[b].0 == r1[i].0;
        if b < i {
            assert(chars_lt(r1[b].0, r1[i].0));
            lemma_chars_lt_irreflexive(r1[i].0);
        } else if b == i {
            lemma_chars_lt_irreflexive(r1[i].0);
        } else {
            assert(chars_lt(r2[i].0, r2[b].0));
            lemma_chars_lt_transitive(r1[i].0, r2[i].0, r2[b].0);
            lemma_chars_lt_irreflexive(r1[i].0);
        }
    }
}

proof fn lemma_extra_entry(r1: Seq<(Seq<char>, Seq<(u64, RangeV)>)>, r2: Seq<(Seq<char>, Seq<(u64, RangeV)>)>, n: int)
    requires
        n == r2.len(),
        n < r1.len(),
        forall|k: int| 0 <= k < n ==> #[trigger] r1[k].0 == r2[k].0,
        forall|a: int, b: int| 0 <= a < b < r1.len() ==> chars_lt(r1[a].0, r1[b].0),
    ensures
        !is_listed(r2, r1[n].0),
{
    if is_listed(r2, r1[n].0) {
        let b = choose|b: int| 0 <= b < r2.len() && r2[b].0 == r1[n].0;
        assert(r1[b].0 == r2[b].0);
        assert(chars_lt(r1[b].0, r1[n].0));
        lemma_chars_lt_irreflexive(r1[n].0);
    }
}

/// Worker assignment is deterministic: for given workers and logical worker
/// partitions there is exactly one list that meets `assignment_spec`, so every
/// run, in every process, yields the same list.
pub proof fn lemma_assignment_deterministic(
    c: WorkerConfig,
    l: Seq<Seq<PartitionV>>,
    r1: Seq<(Seq<char>, Seq<(u64, RangeV)>)>,
    r2: Seq<(Seq<char>, Seq<(u64, RangeV)>)>,
)
    requires
        assignment_spec(c, l, r1),
        assignment_spec(c, l, r2),
    ensures
        r1 == r2,
{
    assert forall|i: int| 0 <= i < r1.len() implies is_listed(r2, #[trigger] r1[i].0) by {
        let j = choose|j: int| 0 <= j < l.len() && node_of(c, l[j]) == r1[i].0;
        assert(is_listed(r2, node_of(c, l[j])));
    }
    assert forall|i: int| 0 <= i < r2.len() implies is_listed(r1, #[trigger] r2[i].0) by {
        let j = choose|j: int| 0 <= j < l.len() && node_of(c, l[j]) == r2[i].0;
        assert(is_listed(r1, node_of(c, l[j])));
    }
    lemma_sorted_lists_equal(r1, r2);
    assert forall|i: int| 0 <= i < r1.len() implies r1[i] == r2[i] by {
        assert(r1[i].0 == r2[i].0);
    }
    assert(r1 =~= r2);
}

/// The views of a list of names.
pub open spec fn names_view(v: Seq<String>) -> Seq<Seq<char>> {
    v.map_values(|x: String| x@)
}

proof fn lemma_assignment(
    c: WorkerConfig,
    lv: Seq<Seq<PartitionV>>,
    nv: Seq<Seq<char>>,
    sv: Seq<Seq<char>>,
    src: Seq<int>,
    pos: Seq<int>,
    rv: Seq<(Seq<char>, Seq<(u64, RangeV)>)>,
)
    requires
        nv.len() == lv.len(),
        forall|k: int| 0 <= k < nv.len() ==> #[trigger] nv[k] == node_of(c, lv[k]),
        forall|a: int, b: int| 0 <= a < b < sv.len() ==> chars_lt(sv[a], sv[b]),
        src.len() == sv.len(),
        forall|a: int| 0 <= a < sv.len() ==> 0 <= #[trigger] src[a] < nv.len() && nv[src[a]] == sv[a],
        pos.len() == nv.len(),
        forall|k: int| 0 <= k < nv.len() ==> 0 <= #[trigger] pos[k] < sv.len() && sv[pos[k]] == nv[k],
        rv == sv.map_values(|n: Seq<char>| (n, filters_for(c, lv, n))),
    ensures
        assignment_spec(c, lv, rv),
{
    assert forall|a: int| 0 <= a < rv.len() implies (#[trigger] rv[a]) == (sv[a], filters_for(c, lv, sv[a])) by {}
    assert forall|a: int, b: int| 0 <= a < b < rv.len() implies chars_lt(rv[a].0, rv[b].0) by {
        assert(rv[a].0 == sv[a] && rv[b].0 == sv[b]);
    }
    assert forall|a: int| 0 <= a < rv.len() implies is_some_node(c, lv, #[trigger] rv[a].0) by {
        let k = src[a];
        assert(nv[k] == node_of(c, lv[k]));
        assert(rv[a].0 == sv[a]);
        assert(0 <= k < lv.len() && node_of(c, lv[k]) == rv[a].0);
    }
    assert forall|j: int| 0 <= j < lv.len() implies is_listed(rv, #[trigger] node_of(c, lv[j])) by {
        assert(nv[j] == node_of(c, lv[j]));
        let a = pos[j];
        assert(rv[a].0 == sv[a]);
        assert(0 <= a < rv.len() && rv[a].0 == node_of(c, lv[j]));
    }
    assert forall|a: int| 0 <= a < rv.len() implies (#[trigger] rv[a]).1 == filters_for(c, lv, rv[a].0) by {
        assert(rv[a] == (sv[a], filters_for(c, lv, sv[a])));
    }
}

/// Sends each logical worker partition to its worker and gathers the filters
/// of each worker; the list is sorted by worker name.
pub fn assign_nodes(c: &WorkerConfig, logical: &Vec<Vec<Partition>>) -> (r: Vec<(String, Vec<(u64, RowRange)>)>)
    requires
        all_nonempty(parts2_view(logical@)),
    ensures
        assignment_spec(*c, parts2_view(logical@), assignment_view(r@)),
{
    let ghost lv = parts2_view(logical@);
    let nodes = nodes_of(c, logical);
    let (sorted, Ghost(src), Ghost(pos)) = distinct_sorted(&nodes);
    let ghost sv = names_view(sorted@);
    let ghost f = |n: Seq<char>| (n, filters_for(*c, lv, n));
    let mut r: Vec<(String, Vec<(u64, RowRange)>)> = Vec::new();
    let mut i: usize = 0;
    while i < sorted.len()
        invariant
            i <= sorted.len(),
            lv == parts2_view(logical@),
            sv == names_view(sorted@),
            f == (|n: Seq<char>| (n, filters_for(*c, lv, n))),
            nodes.len() == logical.len(),
            forall|k: int| 0 <= k < nodes.len() ==> (#[trigger] nodes@[k])@ == node_of(*c, lv[k]),
            assignment_view(r@) == sv.subrange(0, i as int).map_values(f),
        decreases sorted.len() - i,
    {
        let acc = gather_filters(c, logical, &nodes, &sorted[i]);
        let ghost prev = assignment_view(r@);
        let ghost av = filters_view(acc@);
        r.push((sorted[i].clone(), acc));
        assert(assignment_view(r@) =~= prev.push((sv[i as int], av)));
        assert(sv.subrange(0, i + 1).map_values(f) =~= sv.subrange(0, i as int).map_values(f).push(f(sv[i as int])));
        i += 1;
    }
    proof {
        assert(sv.subrange(0, i as int) =~= sv);
        let nv = names_view(nodes@);
        assert forall|k: int| 0 <= k < nv.len() implies #[trigger] nv[k] == node_of(*c, lv[k]) by {
            assert(nv[k] == nodes@[k]@);
        }
        assert forall|a: int, b: int| 0 <= a < b < sv.len() implies chars_lt(sv[a], sv[b]) by {
            assert(sv[a] == sorted@[a]@ && sv[b] == sorted@[b]@);
        }
        assert forall|a: int| 0 <= a < sv.len() implies 0 <= #[trigger] src[a] < nv.len() && nv[src[a]] == sv[a] by {
            assert(sv[a] == sorted@[a]@);
            assert(nv[src[a]] == nodes@[src[a]]@);
        }
        assert forall|k: int| 0 <= k < nv.len() implies 0 <= #[trigger] pos[k] < sv.len() && sv[pos[k]] == nv[k] by {
            assert(nv[k] == nodes@[k]@);
            assert(sv[pos[k]] == sorted@[pos[k]]@);
        }
        lemma_assignment(*c, lv, nv, sv, src, pos, assignment_view(r@));
    }
    r
}

} // verus!

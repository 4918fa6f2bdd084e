//! The cluster-send operator: one output partition per worker, each bound to
//! the filters of the partitions that the worker reads.
use vstd::prelude::*;
use std::collections::HashMap;
use crate::distribute::{all_nonempty, assign_nodes, assignment_spec, assignment_view, filters_view};
use crate::logical::{
    all_parts, group, group_ids, leaf_ids, logical_input_ok, logical_partitions, logical_spec, pick, positions, union_lists,
};
use crate::model::{id_filters_view, IndexSnapshot, MultiPartition, PartitionV, RangeV, RowFilter, RowRange, BatchSchema, SerializedPlan};
use crate::names::WorkerConfig;
use crate::product::{is_choice, lemma_product_of_ranges, product};

verus! {

proof fn lemma_group_of_listed_id(all: Seq<PartitionV>, m: u64)
    requires
        group_ids(all).contains(m),
        crate::logical::all_multi(all),
    ensures
        group(all, m).len() > 0,
{
    crate::logical::lemma_group_ids_sound(all, m);
    let i = choose|i: int| 0 <= i < all.len() && all[i].multi_id == Some(m);
    let pred = |p: PartitionV| p.multi_id == Some(m);
    all.lemma_filter_contains(pred, i);
    assert(group(all, m) == all.filter(pred));
    assert(all.filter(pred).contains(all[i]));
}

/// Every logical worker partition has at least one partition.
pub proof fn lemma_logical_nonempty(s: Seq<Vec<IndexSnapshot>>, tree: Map<u64, MultiPartition>)
    requires
        logical_input_ok(s, tree),
    ensures
        all_nonempty(logical_spec(s, tree)),
{
    let av = all_parts(s);
    let l = logical_spec(s, tree);
    if crate::logical::all_ordinary(av) {
        let lists = union_lists(s);
        if lists.len() > 0 {
            crate::product::lemma_product_tuple_len(positions(lists));
            assert forall|j: int| 0 <= j < l.len() implies (#[trigger] l[j]).len() > 0 by {
                assert(product(positions(lists))[j].len() == lists.len());
            }
        }
    } else {
        assert forall|j: int| 0 <= j < l.len() implies (#[trigger] l[j]).len() > 0 by {
            let m = leaf_ids(tree, av)[j];
            let pred = |m: u64| !crate::logical::has_children(tree, m);
            assert(group_ids(av).filter(pred).contains(m));
            assert(leaf_ids(tree, av) == group_ids(av).filter(pred));
            assert(group_ids(av).filter(pred)[j] == m);
            group_ids(av).lemma_filter_contains_rev(pred, m);
            lemma_group_of_listed_id(av, m);
        }
    }
}

proof fn lemma_lens_positions(lists: Seq<Seq<PartitionV>>)
    ensures
        crate::product::lens_product(positions(lists)) == crate::product::lens_product(lists),
    decreases lists.len(),
{
    if lists.len() > 0 {
        assert(positions(lists).drop_first() =~= positions(lists.drop_first()));
        lemma_lens_positions(lists.drop_first());
    }
}

/// `x` picks one partition from each list.
pub open spec fn is_pick(lists: Seq<Seq<PartitionV>>, x: Seq<PartitionV>) -> bool {
    exists|t: Seq<usize>| is_choice(positions(lists), t) && x == pick(lists, t)
}

proof fn lemma_union_within_all(s: Seq<Vec<IndexSnapshot>>, k: int)
    requires
        0 <= k < s.len(),
    ensures
        crate::logical::union_parts(s[k]@).len() <= all_parts(s).len(),
    decreases s.len(),
{
    if k < s.len() - 1 {
        lemma_union_within_all(s.drop_last(), k);
        assert(s.drop_last()[k] == s[k]);
    }
}

proof fn lemma_union_list_bounded(s: Seq<Vec<IndexSnapshot>>, j: int)
    requires
        0 <= j < union_lists(s).len(),
    ensures
        union_lists(s)[j].len() <= all_parts(s).len(),
{
    let f = |u: Vec<IndexSnapshot>| crate::logical::union_parts(u@);
    let pred = |l: Seq<PartitionV>| l.len() > 0;
    let m = s.map_values(f);
    assert(union_lists(s) == m.filter(pred));
    assert(m.filter(pred).contains(m.filter(pred)[j]));
    m.lemma_filter_contains_rev(pred, m.filter(pred)[j]);
    let k = choose|k: int| 0 <= k < m.len() && m[k] == m.filter(pred)[j];
    lemma_union_within_all(s, k);
}

/// In the ordinary regime the logical worker partitions are exactly the
/// Cartesian product of the union arms that have partitions: as many as the
/// product of their sizes, each a pick of one partition per arm, and every
/// such pick among them. (The query's partitions number at most `usize::MAX`,
/// as they do whenever `all_partitions` can list them.)
pub proof fn lemma_coverage(s: Seq<Vec<IndexSnapshot>>, tree: Map<u64, MultiPartition>)
    requires
        crate::logical::all_ordinary(all_parts(s)),
        union_lists(s).len() > 0,
        all_parts(s).len() <= usize::MAX,
    ensures
        logical_spec(s, tree).len() == crate::product::lens_product(union_lists(s)),
        forall|p: int| 0 <= p < logical_spec(s, tree).len() ==> is_pick(union_lists(s), #[trigger] logical_spec(s, tree)[p]),
        forall|t: Seq<usize>| is_choice(positions(union_lists(s)), t) ==> logical_spec(s, tree).contains(#[trigger] pick(union_lists(s), t)),
{
    let lists = union_lists(s);
    let ps = positions(lists);
    assert forall|j: int| 0 <= j < lists.len() implies (#[trigger] lists[j]).len() <= usize::MAX by {
        lemma_union_list_bounded(s, j);
    }
    assert forall|a: int, b: int| 0 <= a < ps.len() && 0 <= b < ps[a].len() implies ps[a][b] == b by {
        assert(lists[a].len() <= usize::MAX);
    }
    lemma_product_of_ranges(ps);
    lemma_lens_positions(lists);
    let l = logical_spec(s, tree);
    assert forall|p: int| 0 <= p < l.len() implies is_pick(lists, #[trigger] l[p]) by {
        assert(is_choice(ps, product(ps)[p]));
        assert(l[p] == pick(lists, product(ps)[p]));
    }
    assert forall|t: Seq<usize>| is_choice(ps, t) implies l.contains(#[trigger] pick(lists, t)) by {
        let p = choose|p: int| 0 <= p < product(ps).len() && #[trigger] product(ps)[p] == t;
        assert(l[p] == pick(lists, t));
    }
}

/// The ranges given for partition `id`, in order.
pub open spec fn ranges_of_id(pv: Seq<(u64, RangeV)>, id: u64) -> Seq<RangeV> {
    pv.filter(id_pred(id)).map_values(range_part())
}

/// Whether an entry is for partition `id`.
pub open spec fn id_pred(id: u64) -> spec_fn((u64, RangeV)) -> bool {
    |x: (u64, RangeV)| x.0 == id
}

/// The range of an entry.
pub open spec fn range_part() -> spec_fn((u64, RangeV)) -> RangeV {
    |x: (u64, RangeV)| x.1
}

/// `id` is the partition id of some entry.
pub open spec fn id_in(pv: Seq<(u64, RangeV)>, id: u64) -> bool {
    exists|k: int| 0 <= k < pv.len() && pv[k].0 == id
}

/// `id` is the partition id of some filter.
pub open spec fn id_bound(r: Seq<(u64, Seq<RangeV>)>, id: u64) -> bool {
    exists|a: int| 0 <= a < r.len() && r[a].0 == id
}

/// The ranges of a worker's partitions grouped by partition id: ids strictly
/// ascending, exactly those given, each with its ranges in order.
pub open spec fn grouped_spec(pv: Seq<(u64, RangeV)>, r: Seq<(u64, Seq<RangeV>)>) -> bool {
    &&& forall|a: int, b: int| 0 <= a < b < r.len() ==> r[a].0 < r[b].0
    &&& forall|a: int| 0 <= a < r.len() ==> id_in(pv, #[trigger] r[a].0)
    &&& forall|k: int| 0 <= k < pv.len() ==> id_bound(r, #[trigger] pv[k].0)
    &&& forall|a: int| 0 <= a < r.len() ==> (#[trigger] r[a]).1 == ranges_of_id(pv, r[a].0)
}

/// Inserts a new id into a strictly ascending list.
fn insert_id(ids: &mut Vec<u64>, x: u64)
    requires
        forall|a: int, b: int| 0 <= a < b < old(ids).len() ==> old(ids)@[a] < old(ids)@[b],
        !old(ids)@.contains(x),
    ensures
        forall|a: int, b: int| 0 <= a < b < final(ids).len() ==> final(ids)@[a] < final(ids)@[b],
        final(ids)@.to_set() == old(ids)@.to_set().insert(x),
{
    let mut k: usize = 0;
    while k < ids.len() && ids[k] < x
        invariant
            k <= ids.len(),
            forall|a: int| 0 <= a < k ==> ids@[a] < x,
        decreases ids.len() - k,
    {
        k += 1;
    }
    let ghost old_s = ids@;
    ids.insert(k, x);
    proof {
        assert(ids@ == old_s.insert(k as int, x));
        if k < old_s.len() {
            assert(old_s[k as int] != x);
        }
        assert forall|a: int, b: int| 0 <= a < b < ids.len() implies ids@[a] < ids@[b] by {
            if b < k {
            } else if b == k {
            } else if a > k {
                assert(ids@[a] == old_s[a - 1] && ids@[b] == old_s[b - 1]);
            } else {
                assert(ids@[b] == old_s[b - 1]);
                assert(old_s[k as int] >= x);
            }
        }
        assert(ids@.to_set() =~= old_s.to_set().insert(x)) by {
            assert forall|y: u64| ids@.to_set().contains(y) implies old_s.to_set().insert(x).contains(y) by {
                let i = choose|i: int| 0 <= i < ids@.len() && ids@[i] == y;
                if i < k {
                    assert(old_s[i] == y);
                } else if i > k {
                    assert(old_s[i - 1] == y);
                }
            }
            assert forall|y: u64| old_s.to_set().insert(x).contains(y) implies ids@.to_set().contains(y) by {
                if y == x {
                    assert(ids@[k as int] == x);
                } else {
                    let i = choose|i: int| 0 <= i < old_s.len() && old_s[i] == y;
                    if i < k {
                        assert(ids@[i] == y);
                    } else {
                        assert(ids@[i + 1] == y);
                    }
                }
            }
        }
    }
}

/// The ranges given for one partition id, as a disjunction.
fn filter_of_id(parts: &Vec<(u64, RowRange)>, id: u64) -> (f: RowFilter)
    ensures
        f@ == ranges_of_id(filters_view(parts@), id),
{
    let ghost pv = filters_view(parts@);
    let ghost pred = id_pred(id);
    let ghost g = range_part();
    let mut f = RowFilter::default();
    let mut i: usize = 0;
    while i < parts.len()
        invariant
            i <= parts.len(),
            pv == filters_view(parts@),
            pred == id_pred(id),
            g == range_part(),
            f@ == pv.subrange(0, i as int).filter(pred).map_values(g),
        decreases parts.len() - i,
    {
        assert(pv.subrange(0, i + 1) =~= pv.subrange(0, i as int).push(pv[i as int]));
        proof {
            pv.subrange(0, i as int).lemma_filter_push(pv[i as int], pred);
        }
        if parts[i].0 == id {
            let ghost prev = f@;
            f.append_or(parts[i].1.copy());
            assert(pv.subrange(0, i as int).filter(pred).push(pv[i as int]).map_values(g) =~= prev.push(pv[i as int].1));
        }
        i += 1;
    }
    assert(pv.subrange(0, i as int) =~= pv);
    f
}

/// Groups the ranges of a worker's partitions by partition id, combining the
/// ranges of one id by OR; the list is sorted by id.
pub fn partition_filters(parts: &Vec<(u64, RowRange)>) -> (r: Vec<(u64, RowFilter)>)
    ensures
        grouped_spec(filters_view(parts@), id_filters_view(r@)),
{
    let ghost pv = filters_view(parts@);
    let mut ids: Vec<u64> = Vec::new();
    let mut i: usize = 0;
    while i < parts.len()
        invariant
            i <= parts.len(),
            pv == filters_view(parts@),
            forall|a: int, b: int| 0 <= a < b < ids.len() ==> ids@[a] < ids@[b],
            ids@.to_set() == pv.subrange(0, i as int).map_values(|x: (u64, RangeV)| x.0).to_set(),
        decreases parts.len() - i,
    {
        let x = parts[i].0;
        let ghost keys = pv.subrange(0, i as int).map_values(|x: (u64, RangeV)| x.0);
        assert(pv.subrange(0, i + 1).map_values(|x: (u64, RangeV)| x.0) =~= keys.push(x));
        proof {
            keys.lemma_push_to_set_commute(x);
        }
        let mut present = false;
        let mut k: usize = 0;
        while k < ids.len()
            invariant
                k <= ids.len(),
                present ==> ids@.contains(x),
                !present ==> forall|q: int| 0 <= q < k ==> ids@[q] != x,
            decreases ids.len() - k,
        {
            if ids[k] == x {
                present = true;
            }
            k += 1;
        }
        if !present {
            insert_id(&mut ids, x);
        } else {
            assert(ids@.to_set() =~= ids@.to_set().insert(x));
        }
        i += 1;
    }
    assert(pv.subrange(0, i as int) =~= pv);
    let ghost keys = pv.map_values(|x: (u64, RangeV)| x.0);
    let mut r: Vec<(u64, RowFilter)> = Vec::new();
    let mut a: usize = 0;
    while a < ids.len()
        invariant
            a <= ids.len(),
            pv == filters_view(parts@),
            r.len() == a,
            forall|q: int| 0 <= q < a ==> (#[trigger] r@[q]).0 == ids@[q] && r@[q].1@ == ranges_of_id(pv, ids@[q]),
        decreases ids.len() - a,
    {
        let f = filter_of_id(parts, ids[a]);
        r.push((ids[a], f));
        a += 1;
    }
    proof {
        let rv = id_filters_view(r@);
        assert forall|q: int| 0 <= q < rv.len() implies (#[trigger] rv[q]) == (ids@[q], ranges_of_id(pv, ids@[q])) by {
            assert(r@[q].0 == ids@[q]);
        }
        assert forall|q: int| 0 <= q < rv.len() implies id_in(pv, #[trigger] rv[q].0) by {
            assert(ids@.to_set().contains(ids@[q]));
            assert(keys.to_set().contains(ids@[q]));
            let k = choose|k: int| 0 <= k < keys.len() && keys[k] == ids@[q];
            assert(pv[k].0 == rv[q].0);
        }
        assert forall|k: int| 0 <= k < pv.len() implies id_bound(rv, #[trigger] pv[k].0) by {
            assert(keys[k] == pv[k].0);
            assert(keys.to_set().contains(keys[k]));
            assert(ids@.to_set().contains(pv[k].0));
            let q = choose|q: int| 0 <= q < ids@.len() && ids@[q] == pv[k].0;
            assert(rv[q].0 == pv[k].0);
        }
    }
    r
}

/// The cluster-send operator: the workers of a query, each with the filters
/// of the partitions it reads, and the plan to send them.
#[derive(Debug)]
pub struct ClusterSendExec {
    pub schema: BatchSchema,
    pub partitions: Vec<(String, Vec<(u64, RowRange)>)>,
    pub serialized_plan: SerializedPlan,
    pub use_streaming: bool,
}

impl ClusterSendExec {
    /// Computes which worker reads which partitions, with what filters.
    pub fn distribute_to_workers(config: &WorkerConfig, snapshots: &Vec<Vec<IndexSnapshot>>, tree: &HashMap<u64, MultiPartition>) -> (r: Vec<(String, Vec<(u64, RowRange)>)>)
        requires
            logical_input_ok(snapshots@, tree@),
        ensures
            assignment_spec(*config, logical_spec(snapshots@, tree@), assignment_view(r@)),
    {
        let logical = logical_partitions(snapshots, tree);
        proof {
            lemma_logical_nonempty(snapshots@, tree@);
        }
        assign_nodes(config, &logical)
    }

    /// The operator for a plan whose cube-table scans read the given snapshots.
    pub fn new(
        schema: BatchSchema,
        config: &WorkerConfig,
        serialized_plan: SerializedPlan,
        union_snapshots: &Vec<Vec<IndexSnapshot>>,
        use_streaming: bool,
    ) -> (r: ClusterSendExec)
        requires
            logical_input_ok(union_snapshots@, serialized_plan.multi_part_subtree@),
        ensures
            assignment_spec(*config, logical_spec(union_snapshots@, serialized_plan.multi_part_subtree@), assignment_view(r.partitions@)),
            r.serialized_plan == serialized_plan,
            r.schema == schema,
            r.use_streaming == use_streaming,
    {
        let partitions = Self::distribute_to_workers(config, union_snapshots, &serialized_plan.multi_part_subtree);
        ClusterSendExec { schema, partitions, serialized_plan, use_streaming }
    }

    /// The number of output partitions: one per worker.
    pub fn output_partition_count(&self) -> (n: usize)
        ensures
            n == self.partitions.len(),
    {
        self.partitions.len()
    }

    /// The same operator with another declared schema; workers and filters
    /// are unchanged.
    pub fn with_changed_schema(&self, schema: BatchSchema) -> (r: ClusterSendExec)
        ensures
            r.schema == schema,
            assignment_view(r.partitions@) == assignment_view(self.partitions@),
            r.serialized_plan.logical_plan@ == self.serialized_plan.logical_plan@,
            r.serialized_plan.multi_part_subtree@ == self.serialized_plan.multi_part_subtree@,
            id_filters_view(r.serialized_plan.partition_ids_to_execute@) == id_filters_view(self.serialized_plan.partition_ids_to_execute@),
            r.use_streaming == self.use_streaming,
    {
        let mut partitions: Vec<(String, Vec<(u64, RowRange)>)> = Vec::new();
        let mut i: usize = 0;
        while i < self.partitions.len()
            invariant
                i <= self.partitions.len(),
                assignment_view(partitions@) =~= assignment_view(self.partitions@).subrange(0, i as int),
            decreases self.partitions.len() - i,
        {
            let fs = &self.partitions[i].1;
            let mut c: Vec<(u64, RowRange)> = Vec::new();
            let mut k: usize = 0;
            while k < fs.len()
                invariant
                    k <= fs.len(),
                    filters_view(c@) =~= filters_view(fs@).subrange(0, k as int),
                decreases fs.len() - k,
            {
                let ghost prev = filters_view(c@);
                let x = (fs[k].0, fs[k].1.copy());
                let ghost xv = (x.0, x.1@);
                c.push(x);
                assert(filters_view(c@) =~= prev.push(xv));
                k += 1;
            }
            assert(filters_view(fs@).subrange(0, k as int) =~= filters_view(fs@));
            let ghost prev = assignment_view(partitions@);
            let e = (self.partitions[i].0.clone(), c);
            let ghost ev = (e.0@, filters_view(e.1@));
            partitions.push(e);
            assert(assignment_view(partitions@) =~= prev.push(ev));
            i += 1;
        }
        let mut filters: Vec<(u64, RowFilter)> = Vec::new();
        let src = &self.serialized_plan.partition_ids_to_execute;
        let mut k: usize = 0;
        while k < src.len()
            invariant
                k <= src.len(),
                id_filters_view(filters@) =~= id_filters_view(src@).subrange(0, k as int),
            decreases src.len() - k,
        {
            let mut f = RowFilter::default();
            let mut q: usize = 0;
            while q < src[k].1.or_filters.len()
                invariant
                    k < src.len(),
                    q <= src@[k as int].1.or_filters.len(),
                    f@ =~= src@[k as int].1@.subrange(0, q as int),
                decreases src@[k as int].1.or_filters.len() - q,
            {
                f.append_or(src[k].1.or_filters[q].copy());
                q += 1;
            }
            assert(src@[k as int].1@.subrange(0, q as int) =~= src@[k as int].1@);
            let ghost prev = id_filters_view(filters@);
            let ghost fv = f@;
            filters.push((src[k].0, f));
            assert(id_filters_view(filters@) =~= prev.push((src@[k as int].0, fv)));
            k += 1;
        }
        assert(id_filters_view(src@).subrange(0, k as int) =~= id_filters_view(src@));
        ClusterSendExec {
            schema,
            partitions,
            serialized_plan: self.serialized_plan.with_partition_id_to_execute(filters),
            use_streaming: self.use_streaming,
        }
    }

    /// What output partition `i` sends: the worker, and the plan bound to the
    /// filters of that worker's partitions grouped by partition id.
    pub fn worker_request(&self, i: usize) -> (r: (String, SerializedPlan))
        requires
            i < self.partitions.len(),
        ensures
            r.0@ == self.partitions@[i as int].0@,
            r.1.logical_plan@ == self.serialized_plan.logical_plan@,
            r.1.multi_part_subtree@ == self.serialized_plan.multi_part_subtree@,
            grouped_spec(filters_view(self.partitions@[i as int].1@), id_filters_view(r.1.partition_ids_to_execute@)),
    {
        let ps = partition_filters(&self.partitions[i].1);
        (self.partitions[i].0.clone(), self.serialized_plan.with_partition_id_to_execute(ps))
    }
}

} // verus!

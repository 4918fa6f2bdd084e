//! Logical worker partitions: which partitions are read together by one
//! worker, in the ordinary regime (a Cartesian product across unions) and in
//! the multi-partition regime (one list per leaf of the forest).
use vstd::prelude::*;
use std::collections::HashMap;
use vstd::std_specs::hash::spec_values_iter;
use vstd::std_specs::iter::IteratorSpec;
use crate::model::{IndexSnapshot, MultiPartition, Partition, PartitionSnapshot, PartitionV, parts_view};
use crate::product::{all_index_ranges, cartesian_product, is_choice, lemma_product_of_ranges, product, vv_view};

verus! {

broadcast use {vstd::seq_lib::group_seq_properties, vstd::std_specs::hash::group_hash_axioms, vstd::std_specs::hash::axiom_spec_values_iter};

/// The partitions of one index snapshot, in order.
pub open spec fn index_parts(ix: IndexSnapshot) -> Seq<PartitionV> {
    ix.partitions@.map_values(|ps: PartitionSnapshot| ps.partition@)
}

/// The partitions of one union arm: those of its indexes, one index after another.
pub open spec fn union_parts(u: Seq<IndexSnapshot>) -> Seq<PartitionV>
    decreases u.len(),
{
    if u.len() == 0 {
        Seq::empty()
    } else {
        union_parts(u.drop_last()) + index_parts(u.last())
    }
}

/// The partitions of all union arms, one arm after another.
pub open spec fn all_parts(s: Seq<Vec<IndexSnapshot>>) -> Seq<PartitionV>
    decreases s.len(),
{
    if s.len() == 0 {
        Seq::empty()
    } else {
        all_parts(s.drop_last()) + union_parts(s.last()@)
    }
}

/// The partition lists of the union arms that have partitions.
pub open spec fn union_lists(s: Seq<Vec<IndexSnapshot>>) -> Seq<Seq<PartitionV>> {
    s.map_values(|u: Vec<IndexSnapshot>| union_parts(u@)).filter(|l: Seq<PartitionV>| l.len() > 0)
}

/// The positions `0..l.len()` of each list.
pub open spec fn positions(lists: Seq<Seq<PartitionV>>) -> Seq<Seq<usize>> {
    lists.map_values(|l: Seq<PartitionV>| Seq::new(l.len(), |i: int| i as usize))
}

/// The partitions that a tuple of positions picks, one from each list.
pub open spec fn pick(lists: Seq<Seq<PartitionV>>, t: Seq<usize>) -> Seq<PartitionV> {
    Seq::new(t.len(), |j: int| lists[j][t[j] as int])
}

/// Ordinary regime: every pick of one partition from each union arm.
pub open spec fn ordinary_logical(lists: Seq<Seq<PartitionV>>) -> Seq<Seq<PartitionV>> {
    product(positions(lists)).map_values(|t: Seq<usize>| pick(lists, t))
}

/// The views of a list of partition lists.
pub open spec fn parts2_view(v: Seq<Vec<Partition>>) -> Seq<Seq<PartitionV>> {
    v.map_values(|x: Vec<Partition>| parts_view(x@))
}

/// The partitions of one union arm, in order.
pub fn union_partitions(u: &Vec<IndexSnapshot>) -> (r: Vec<Partition>)
    ensures
        parts_view(r@) == union_parts(u@),
{
    let mut r: Vec<Partition> = Vec::new();
    let mut i: usize = 0;
    while i < u.len()
        invariant
            i <= u.len(),
            parts_view(r@) == union_parts(u@.subrange(0, i as int)),
        decreases u.len() - i,
    {
        let ix = &u[i];
        let ghost before = parts_view(r@);
        let mut k: usize = 0;
        while k < ix.partitions.len()
            invariant
                k <= ix.partitions.len(),
                parts_view(r@) == before + index_parts(*ix).subrange(0, k as int),
            decreases ix.partitions.len() - k,
        {
            let ghost prev = parts_view(r@);
            let c = ix.partitions[k].partition.copy();
            r.push(c);
            assert(parts_view(r@) =~= prev.push(c@));
            assert(index_parts(*ix).subrange(0, k + 1) =~= index_parts(*ix).subrange(0, k as int).push(c@));
            k += 1;
        }
        assert(index_parts(*ix).subrange(0, k as int) =~= index_parts(*ix));
        assert(u@.subrange(0, i + 1).drop_last() =~= u@.subrange(0, i as int));
        i += 1;
    }
    assert(u@.subrange(0, i as int) =~= u@);
    r
}

/// The partitions of all union arms, in order.
pub fn all_partitions(s: &Vec<Vec<IndexSnapshot>>) -> (r: Vec<Partition>)
    ensures
        parts_view(r@) == all_parts(s@),
{
    let mut r: Vec<Partition> = Vec::new();
    let mut i: usize = 0;
    while i < s.len()
        invariant
            i <= s.len(),
            parts_view(r@) == all_parts(s@.subrange(0, i as int)),
        decreases s.len() - i,
    {
        let mut u = union_partitions(&s[i]);
        let ghost before = parts_view(r@);
        let ghost uv = parts_view(u@);
        r.append(&mut u);
        assert(parts_view(r@) =~= before + uv);
        assert(s@.subrange(0, i + 1).drop_last() =~= s@.subrange(0, i as int));
        i += 1;
    }
    assert(s@.subrange(0, i as int) =~= s@);
    r
}

/// Ordinary regime: the Cartesian product of the partition lists.
fn multiply(lists: &Vec<Vec<Partition>>) -> (r: Vec<Vec<Partition>>)
    ensures
        parts2_view(r@) == ordinary_logical(parts2_view(lists@)),
{
    let ghost lv = parts2_view(lists@);
    let mut idx: Vec<Vec<usize>> = Vec::new();
    let mut j: usize = 0;
    while j < lists.len()
        invariant
            j <= lists.len(),
            lv == parts2_view(lists@),
            vv_view(idx@) =~= positions(lv).subrange(0, j as int),
        decreases lists.len() - j,
    {
        let mut l: Vec<usize> = Vec::new();
        let mut i: usize = 0;
        while i < lists[j].len()
            invariant
                j < lists.len(),
                lv == parts2_view(lists@),
                vv_view(idx@) =~= positions(lv).subrange(0, j as int),
                i <= lists@[j as int].len(),
                l@ =~= Seq::new(i as nat, |k: int| k as usize),
            decreases lists@[j as int].len() - i,
        {
            l.push(i);
            i += 1;
        }
        assert(l@ =~= positions(lv)[j as int]);
        let ghost prev = idx@;
        let ghost lview = l@;
        idx.push(l);
        assert(idx@ == prev.push(l));
        assert(vv_view(idx@) =~= vv_view(prev).push(lview));
        assert(positions(lv).subrange(0, j + 1) =~= positions(lv).subrange(0, j as int).push(lview));
        j += 1;
    }
    assert(positions(lv).subrange(0, j as int) =~= positions(lv));
    let tuples = cartesian_product(idx);
    let ghost tv = product(positions(lv));
    assert(vv_view(tuples@) == tv);
    proof {
        if lv.len() > 0 {
            assert forall|a: int, b: int| 0 <= a < positions(lv).len() && 0 <= b < positions(lv)[a].len()
                implies positions(lv)[a][b] == b by {
                assert(lv[a].len() == lists@[a]@.len());
                assert(lists@[a]@.len() == lists@[a].len());
            }
            assert(all_index_ranges(positions(lv)));
            lemma_product_of_ranges(positions(lv));
        }
    }
    let mut r: Vec<Vec<Partition>> = Vec::new();
    let mut p: usize = 0;
    while p < tuples.len()
        invariant
            p <= tuples.len(),
            lv == parts2_view(lists@),
            vv_view(tuples@) == tv,
            forall|q: int| 0 <= q < tv.len() ==> is_choice(positions(lv), #[trigger] tv[q]),
            r.len() == p,
            forall|q: int| 0 <= q < p ==> parts_view(#[trigger] r@[q]@) == pick(lv, tv[q]),
        decreases tuples.len() - p,
    {
        let t = &tuples[p];
        assert(t@ == tv[p as int]);
        let mut row: Vec<Partition> = Vec::new();
        let mut j2: usize = 0;
        while j2 < t.len()
            invariant
                j2 <= t.len(),
                t@ == tv[p as int],
                is_choice(positions(lv), t@),
                lv == parts2_view(lists@),
                row.len() == j2,
                forall|k: int| 0 <= k < j2 ==> (#[trigger] row@[k])@ == pick(lv, t@)[k],
            decreases t.len() - j2,
        {
            assert(positions(lv)[j2 as int].len() == lv[j2 as int].len());
            row.push(lists[j2][t[j2]].copy());
            j2 += 1;
        }
        assert(parts_view(row@) =~= pick(lv, tv[p as int]));
        r.push(row);
        p += 1;
    }
    assert(parts2_view(r@) =~= ordinary_logical(lv));
    r
}

/// The multi-partition ids of a list of partitions, each once, in order of
/// first appearance.
pub open spec fn group_ids(all: Seq<PartitionV>) -> Seq<u64>
    decreases all.len(),
{
    if all.len() == 0 {
        Seq::empty()
    } else {
        let d = group_ids(all.drop_last());
        let m = all.last().multi_id.unwrap();
        if d.contains(m) {
            d
        } else {
            d.push(m)
        }
    }
}

/// The partitions of multi-partition `m`, in order.
pub open spec fn group(all: Seq<PartitionV>, m: u64) -> Seq<PartitionV> {
    all.filter(|p: PartitionV| p.multi_id == Some(m))
}

/// Whether some node of the forest has `m` as its parent.
pub open spec fn has_children(tree: Map<u64, MultiPartition>, m: u64) -> bool {
    exists|k: u64| tree.contains_key(k) && tree[k].parent == Some(m)
}

/// Whether `m` is a node of the forest.
pub open spec fn in_tree(tree: Map<u64, MultiPartition>, m: u64) -> bool {
    tree.contains_key(m)
}

/// The parent of node `m`.
pub open spec fn parent_of(tree: Map<u64, MultiPartition>, m: u64) -> Option<u64> {
    if in_tree(tree, m) {
        tree[m].parent
    } else {
        None
    }
}

/// The chain of parents from `cur` ends at a root within `fuel` steps.
pub open spec fn reaches_root(tree: Map<u64, MultiPartition>, cur: Option<u64>, fuel: nat) -> bool
    decreases fuel,
{
    match cur {
        None => true,
        Some(p) => fuel > 0 && in_tree(tree, p) && reaches_root(tree, parent_of(tree, p), (fuel - 1) as nat),
    }
}

/// A rooted forest, keyed by node id: every chain of parents stays in the
/// forest and ends at a root.
pub open spec fn tree_wf(tree: Map<u64, MultiPartition>) -> bool {
    forall|k: u64| tree.contains_key(k) ==> reaches_root(tree, #[trigger] tree[k].parent, tree.len())
}

/// The partitions of the ancestors from `cur` upwards, nearest first.
pub open spec fn ancestor_parts(tree: Map<u64, MultiPartition>, all: Seq<PartitionV>, cur: Option<u64>, fuel: nat) -> Seq<PartitionV>
    decreases fuel,
{
    match cur {
        None => Seq::empty(),
        Some(p) => if fuel == 0 {
            Seq::empty()
        } else {
            group(all, p) + ancestor_parts(tree, all, parent_of(tree, p), (fuel - 1) as nat)
        },
    }
}

/// What a leaf reads: its own partitions, then those of its ancestors.
pub open spec fn leaf_list(tree: Map<u64, MultiPartition>, all: Seq<PartitionV>, m: u64) -> Seq<PartitionV> {
    group(all, m) + ancestor_parts(tree, all, parent_of(tree, m), tree.len())
}

/// The leaves among the multi-partitions that have partitions, in order of
/// first appearance.
pub open spec fn leaf_ids(tree: Map<u64, MultiPartition>, all: Seq<PartitionV>) -> Seq<u64> {
    group_ids(all).filter(|m: u64| !has_children(tree, m))
}

/// Multi-partition regime: one list per leaf.
pub open spec fn multi_logical(tree: Map<u64, MultiPartition>, all: Seq<PartitionV>) -> Seq<Seq<PartitionV>> {
    leaf_ids(tree, all).map_values(|m: u64| leaf_list(tree, all, m))
}

/// Every partition belongs to a multi-partition of the forest.
pub open spec fn all_in_tree(tree: Map<u64, MultiPartition>, all: Seq<PartitionV>) -> bool {
    forall|i: int| 0 <= i < all.len() ==> (#[trigger] all[i]).multi_id is Some && in_tree(tree, all[i].multi_id.unwrap())
}

fn contains_id(v: &Vec<u64>, x: u64) -> (r: bool)
    ensures
        r == v@.contains(x),
{
    let mut i: usize = 0;
    while i < v.len()
        invariant
            i <= v.len(),
            forall|k: int| 0 <= k < i ==> v@[k] != x,
        decreases v.len() - i,
    {
        if v[i] == x {
            return true;
        }
        i += 1;
    }
    false
}

fn multi_ids_of(all: &Vec<Partition>) -> (r: Vec<u64>)
    requires
        forall|i: int| 0 <= i < all.len() ==> all@[i].multi_partition_id is Some,
    ensures
        r@ == group_ids(parts_view(all@)),
{
    let ghost av = parts_view(all@);
    let mut r: Vec<u64> = Vec::new();
    let mut i: usize = 0;
    while i < all.len()
        invariant
            i <= all.len(),
            av == parts_view(all@),
            forall|k: int| 0 <= k < all.len() ==> all@[k].multi_partition_id is Some,
            r@ == group_ids(av.subrange(0, i as int)),
        decreases all.len() - i,
    {
        assert(av.subrange(0, i + 1).drop_last() =~= av.subrange(0, i as int));
        let m = all[i].multi_partition_id.unwrap();
        if !contains_id(&r, m) {
            r.push(m);
        }
        i += 1;
    }
    assert(av.subrange(0, i as int) =~= av);
    r
}

/// The partitions of multi-partition `m`, in order.
fn parts_of(all: &Vec<Partition>, m: u64) -> (r: Vec<Partition>)
    ensures
        parts_view(r@) == group(parts_view(all@), m),
{
    let ghost av = parts_view(all@);
    let ghost pred = |p: PartitionV| p.multi_id == Some(m);
    let mut r: Vec<Partition> = Vec::new();
    let mut i: usize = 0;
    while i < all.len()
        invariant
            i <= all.len(),
            av == parts_view(all@),
            pred == (|p: PartitionV| p.multi_id == Some(m)),
            parts_view(r@) == av.subrange(0, i as int).filter(pred),
        decreases all.len() - i,
    {
        assert(av.subrange(0, i + 1) =~= av.subrange(0, i as int).push(av[i as int]));
        proof {
            av.subrange(0, i as int).lemma_filter_push(av[i as int], pred);
        }
        if all[i].multi_partition_id == Some(m) {
            let ghost prev = parts_view(r@);
            let c = all[i].copy();
            r.push(c);
            assert(parts_view(r@) =~= prev.push(c@));
        }
        i += 1;
    }
    assert(av.subrange(0, i as int) =~= av);
    r
}

/// The nodes of a forest, in the order the map yields them.
fn nodes_of(tree: &HashMap<u64, MultiPartition>) -> (r: Vec<MultiPartition>)
    ensures
        r@.to_set() == tree@.values(),
{
    let mut r: Vec<MultiPartition> = Vec::new();
    assert(spec_values_iter(tree).remaining().unref().to_set() == tree@.values());
    for n in it: tree.values()
        invariant
            r@ == it.seq().unref().take(it.index() as int),
            it.seq().unref().to_set() == tree@.values(),
    {
        r.push(*n);
    }
    assert(r@.to_set() =~= tree@.values());
    r
}

/// The parent of node `m` of a forest.
fn parent_in(tree: &HashMap<u64, MultiPartition>, m: u64) -> (r: Option<u64>)
    requires
        in_tree(tree@, m),
    ensures
        r == parent_of(tree@, m),
{
    match tree.get(&m) {
        Some(n) => n.parent,
        None => None,
    }
}

/// Whether some node of the forest has `m` as its parent.
fn has_children_in(tree: &HashMap<u64, MultiPartition>, m: u64) -> (r: bool)
    ensures
        r == has_children(tree@, m),
{
    let nodes = nodes_of(tree);
    let mut i: usize = 0;
    while i < nodes.len()
        invariant
            i <= nodes.len(),
            nodes@.to_set() == tree@.values(),
            forall|k: int| 0 <= k < i ==> nodes@[k].parent != Some(m),
        decreases nodes.len() - i,
    {
        if nodes[i].parent == Some(m) {
            proof {
                assert(nodes@.to_set().contains(nodes@[i as int]));
                let k = choose|k: u64| tree@.contains_key(k) && tree@[k] == nodes@[i as int];
            }
            return true;
        }
        i += 1;
    }
    proof {
        if has_children(tree@, m) {
            let k = choose|k: u64| tree@.contains_key(k) && tree@[k].parent == Some(m);
            assert(tree@.values().contains(tree@[k]));
            assert(nodes@.to_set().contains(tree@[k]));
            let j = choose|j: int| 0 <= j < nodes@.len() && nodes@[j] == tree@[k];
        }
    }
    false
}

/// What leaf `m` reads: its own partitions, then those of its ancestors.
fn leaf_partitions(tree: &HashMap<u64, MultiPartition>, all: &Vec<Partition>, m: u64) -> (r: Vec<Partition>)
    requires
        tree_wf(tree@),
        in_tree(tree@, m),
    ensures
        parts_view(r@) == leaf_list(tree@, parts_view(all@), m),
{
    let ghost av = parts_view(all@);
    let mut r = parts_of(all, m);
    let mut curr = parent_in(tree, m);
    let ghost mut fuel: nat = tree@.len();
    assert(reaches_root(tree@, tree@[m].parent, tree@.len()));
    while curr.is_some()
        invariant
            tree_wf(tree@),
            av == parts_view(all@),
            reaches_root(tree@, curr, fuel),
            parts_view(r@) + ancestor_parts(tree@, av, curr, fuel) == leaf_list(tree@, av, m),
        decreases fuel,
    {
        let p = curr.unwrap();
        let mut g = parts_of(all, p);
        let ghost prev = parts_view(r@);
        let ghost gv = parts_view(g@);
        r.append(&mut g);
        assert(parts_view(r@) =~= prev + gv);
        assert(prev + (gv + ancestor_parts(tree@, av, parent_of(tree@, p), (fuel - 1) as nat))
            =~= (prev + gv) + ancestor_parts(tree@, av, parent_of(tree@, p), (fuel - 1) as nat));
        curr = parent_in(tree, p);
        proof {
            fuel = (fuel - 1) as nat;
        }
    }
    assert(parts_view(r@) + Seq::empty() =~= parts_view(r@));
    r
}

pub proof fn lemma_group_ids_sound(all: Seq<PartitionV>, m: u64)
    requires
        group_ids(all).contains(m),
        all_multi(all),
    ensures
        exists|i: int| 0 <= i < all.len() && all[i].multi_id == Some(m),
    decreases all.len(),
{
    let d = group_ids(all.drop_last());
    if d.contains(m) {
        lemma_group_ids_sound(all.drop_last(), m);
        let i = choose|i: int| 0 <= i < all.drop_last().len() && all.drop_last()[i].multi_id == Some(m);
        assert(all[i].multi_id == Some(m));
    } else {
        assert(all[all.len() - 1].multi_id is Some);
        assert(all.last().multi_id.unwrap() == m);
    }
}

/// Multi-partition regime: one list per leaf that has partitions.
fn distribute_multi(all: &Vec<Partition>, tree: &HashMap<u64, MultiPartition>) -> (r: Vec<Vec<Partition>>)
    requires
        tree_wf(tree@),
        all_in_tree(tree@, parts_view(all@)),
    ensures
        parts2_view(r@) == multi_logical(tree@, parts_view(all@)),
{
    let ghost av = parts_view(all@);
    assert forall|i: int| 0 <= i < all.len() implies all@[i].multi_partition_id is Some by {
        assert(av[i].multi_id is Some);
    }
    let ids = multi_ids_of(all);
    let ghost pred = |m: u64| !has_children(tree@, m);
    let ghost f = |m: u64| leaf_list(tree@, av, m);
    let mut r: Vec<Vec<Partition>> = Vec::new();
    let mut k: usize = 0;
    while k < ids.len()
        invariant
            k <= ids.len(),
            tree_wf(tree@),
            all_in_tree(tree@, av),
            av == parts_view(all@),
            ids@ == group_ids(av),
            pred == (|m: u64| !has_children(tree@, m)),
            f == (|m: u64| leaf_list(tree@, av, m)),
            parts2_view(r@) == ids@.subrange(0, k as int).filter(pred).map_values(f),
        decreases ids.len() - k,
    {
        let m = ids[k];
        assert(ids@.subrange(0, k + 1) =~= ids@.subrange(0, k as int).push(m));
        proof {
            ids@.subrange(0, k as int).lemma_filter_push(m, pred);
        }
        if !has_children_in(tree, m) {
            proof {
                assert(group_ids(av).contains(m));
                assert(all_multi(av));
                lemma_group_ids_sound(av, m);
                let i = choose|i: int| 0 <= i < av.len() && av[i].multi_id == Some(m);
                assert(in_tree(tree@, av[i].multi_id.unwrap()));
            }
            let l = leaf_partitions(tree, all, m);
            let ghost prev = parts2_view(r@);
            let ghost lv = parts_view(l@);
            r.push(l);
            assert(parts2_view(r@) =~= prev.push(lv));
            assert(ids@.subrange(0, k as int).filter(pred).push(m).map_values(f)
                =~= ids@.subrange(0, k as int).filter(pred).map_values(f).push(f(m)));
        }
        k += 1;
    }
    assert(ids@.subrange(0, k as int) =~= ids@);
    r
}

/// The partitions in the ordinary regime: none has a multi-partition.
pub open spec fn all_ordinary(av: Seq<PartitionV>) -> bool {
    forall|i: int| 0 <= i < av.len() ==> (#[trigger] av[i]).multi_id is None
}

/// The partitions in the multi-partition regime: each has a multi-partition.
pub open spec fn all_multi(av: Seq<PartitionV>) -> bool {
    forall|i: int| 0 <= i < av.len() ==> (#[trigger] av[i]).multi_id is Some
}

/// What a query may ask for: partitions of one regime only, and in the
/// multi-partition regime a forest that holds all of their multi-partitions.
pub open spec fn logical_input_ok(s: Seq<Vec<IndexSnapshot>>, tree: Map<u64, MultiPartition>) -> bool {
    let av = all_parts(s);
    all_ordinary(av) || (all_multi(av) && tree_wf(tree) && all_in_tree(tree, av))
}

/// The logical worker partitions of a query.
pub open spec fn logical_spec(s: Seq<Vec<IndexSnapshot>>, tree: Map<u64, MultiPartition>) -> Seq<Seq<PartitionV>> {
    let av = all_parts(s);
    if all_ordinary(av) {
        ordinary_logical(union_lists(s))
    } else {
        multi_logical(tree, av)
    }
}

/// Groups the partitions of a query into logical worker partitions: in the
/// ordinary regime every pick of one partition per union arm, in the
/// multi-partition regime one list per leaf, its own partitions first and
/// then those of its ancestors.
pub fn logical_partitions(snapshots: &Vec<Vec<IndexSnapshot>>, tree: &HashMap<u64, MultiPartition>) -> (r: Vec<Vec<Partition>>)
    requires
        logical_input_ok(snapshots@, tree@),
    ensures
        parts2_view(r@) == logical_spec(snapshots@, tree@),
{
    let all = all_partitions(snapshots);
    let ghost av = parts_view(all@);
    let mut any_multi = false;
    let mut i: usize = 0;
    while i < all.len()
        invariant
            i <= all.len(),
            av == parts_view(all@),
            any_multi == exists|k: int| 0 <= k < i && (#[trigger] av[k]).multi_id is Some,
        decreases all.len() - i,
    {
        if all[i].multi_partition_id.is_some() {
            assert(av[i as int].multi_id is Some);
            any_multi = true;
        }
        i += 1;
    }
    if any_multi {
        return distribute_multi(&all, tree);
    }
    let ghost f = |u: Vec<IndexSnapshot>| union_parts(u@);
    let ghost pred = |l: Seq<PartitionV>| l.len() > 0;
    let mut lists: Vec<Vec<Partition>> = Vec::new();
    let mut j: usize = 0;
    while j < snapshots.len()
        invariant
            j <= snapshots.len(),
            f == (|u: Vec<IndexSnapshot>| union_parts(u@)),
            pred == (|l: Seq<PartitionV>| l.len() > 0),
            parts2_view(lists@) == snapshots@.subrange(0, j as int).map_values(f).filter(pred),
        decreases snapshots.len() - j,
    {
        let u = union_partitions(&snapshots[j]);
        assert(snapshots@.subrange(0, j + 1).map_values(f) =~= snapshots@.subrange(0, j as int).map_values(f).push(f(snapshots@[j as int])));
        proof {
            snapshots@.subrange(0, j as int).map_values(f).lemma_filter_push(f(snapshots@[j as int]), pred);
        }
        if u.len() > 0 {
            let ghost prev = parts2_view(lists@);
            let ghost uv = parts_view(u@);
            lists.push(u);
            assert(parts2_view(lists@) =~= prev.push(uv));
        }
        j += 1;
    }
    assert(snapshots@.subrange(0, j as int) =~= snapshots@);
    multiply(&lists)
}

/// Whether the chain of parents from `cur` ends at a root within `fuel` steps.
fn chain_ends(tree: &HashMap<u64, MultiPartition>, cur: Option<u64>, fuel: usize) -> (r: bool)
    ensures
        r == reaches_root(tree@, cur, fuel as nat),
{
    let mut c = cur;
    let mut f = fuel;
    while c.is_some()
        invariant
            reaches_root(tree@, cur, fuel as nat) == reaches_root(tree@, c, f as nat),
        decreases f,
    {
        let p = c.unwrap();
        if f == 0 || !tree.contains_key(&p) {
            return false;
        }
        c = parent_in(tree, p);
        f = f - 1;
    }
    true
}

/// Whether a query's partitions and forest are what `logical_partitions`
/// asks for: one regime only, and in the multi-partition regime a rooted
/// forest that holds every multi-partition of the query.
pub fn logical_input_valid(snapshots: &Vec<Vec<IndexSnapshot>>, tree: &HashMap<u64, MultiPartition>) -> (r: bool)
    ensures
        r == logical_input_ok(snapshots@, tree@),
{
    let all = all_partitions(snapshots);
    let ghost av = parts_view(all@);
    let mut ordinary = true;
    let mut multi = true;
    let mut known = true;
    let mut i: usize = 0;
    while i < all.len()
        invariant
            i <= all.len(),
            av == parts_view(all@),
            ordinary == forall|k: int| 0 <= k < i ==> (#[trigger] av[k]).multi_id is None,
            multi == forall|k: int| 0 <= k < i ==> (#[trigger] av[k]).multi_id is Some,
            known == forall|k: int| 0 <= k < i ==> (#[trigger] av[k]).multi_id is Some && in_tree(tree@, av[k].multi_id.unwrap()),
        decreases all.len() - i,
    {
        assert(av[i as int] == all@[i as int]@);
        match all[i].multi_partition_id {
            Some(m) => {
                ordinary = false;
                if !tree.contains_key(&m) {
                    known = false;
                }
            },
            None => {
                multi = false;
                known = false;
            },
        }
        i += 1;
    }
    if ordinary {
        return true;
    }
    if !multi || !known {
        return false;
    }
    assert(!all_ordinary(av));
    let n = tree.len();
    let nodes = nodes_of(tree);
    let mut k: usize = 0;
    while k < nodes.len()
        invariant
            k <= nodes.len(),
            av == all_parts(snapshots@),
            !all_ordinary(av),
            all_multi(av),
            all_in_tree(tree@, av),
            n == tree@.len(),
            nodes@.to_set() == tree@.values(),
            forall|q: int| 0 <= q < k ==> reaches_root(tree@, #[trigger] nodes@[q].parent, n as nat),
        decreases nodes.len() - k,
    {
        if !chain_ends(tree, nodes[k].parent, n) {
            proof {
                assert(nodes@.to_set().contains(nodes@[k as int]));
                let key = choose|key: u64| tree@.contains_key(key) && tree@[key] == nodes@[k as int];
                assert(!reaches_root(tree@, tree@[key].parent, tree@.len()));
            }
            return false;
        }
        k += 1;
    }
    proof {
        assert forall|key: u64| tree@.contains_key(key) implies reaches_root(tree@, #[trigger] tree@[key].parent, tree@.len()) by {
            assert(tree@.values().contains(tree@[key]));
            assert(nodes@.to_set().contains(tree@[key]));
            let j = choose|j: int| 0 <= j < nodes@.len() && nodes@[j] == tree@[key];
            assert(reaches_root(tree@, nodes@[j].parent, n as nat));
        }
    }
    true
}

} // verus!

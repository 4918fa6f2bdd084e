//! What the multi-partition regime guarantees about which leaf reads a row:
//! a leaf's own partitions are read whole by that leaf alone, and an
//! ancestor's partitions are read by each descendant leaf only within the
//! leaf's key range.
use vstd::prelude::*;
use crate::distribute::{filters_spec, leaf_range};
use crate::logical::{
    all_multi, all_in_tree, ancestor_parts, group, group_ids, has_children, in_tree, leaf_ids, leaf_list, multi_logical, parent_of,
    reaches_root, tree_wf,
};
use crate::model::{full_range, MultiPartition, PartitionV, RangeV, ValueV};

verus! {

/// Multi-partition `m` is on the chain of parents from `cur` upwards.
pub open spec fn in_chain(tree: Map<u64, MultiPartition>, cur: Option<u64>, m: u64, fuel: nat) -> bool
    decreases fuel,
{
    match cur {
        None => false,
        Some(p) => fuel > 0 && (p == m || in_chain(tree, parent_of(tree, p), m, (fuel - 1) as nat)),
    }
}

/// Leaf stream `j` reads the row of key `k` of partition `x`: `x` is among
/// its partitions and the row passes that partition's filter.
pub open spec fn read_by(l: Seq<Seq<PartitionV>>, j: int, x: PartitionV, k: Seq<ValueV>, in_range: spec_fn(Seq<ValueV>, RangeV) -> bool) -> bool {
    exists|q: int| 0 <= q < l[j].len() && l[j][q].id == x.id && in_range(k, #[trigger] filters_spec(l[j])[q].1)
}

proof fn lemma_group_elems(av: Seq<PartitionV>, p: u64)
    ensures
        forall|q: int| 0 <= q < group(av, p).len() ==> group(av, p)[q].multi_id == Some(p) && av.contains(#[trigger] group(av, p)[q]),
        forall|b: int| 0 <= b < av.len() && av[b].multi_id == Some(p) ==> #[trigger] group(av, p).contains(av[b]),
{
    let pred = |y: PartitionV| y.multi_id == Some(p);
    assert(group(av, p) == av.filter(pred));
    assert forall|q: int| 0 <= q < group(av, p).len() implies group(av, p)[q].multi_id == Some(p) && av.contains(#[trigger] group(av, p)[q]) by {
        av.lemma_filter_pred(pred, q);
        assert(av.filter(pred).contains(av.filter(pred)[q]));
        av.lemma_filter_contains_rev(pred, av.filter(pred)[q]);
    }
    assert forall|b: int| 0 <= b < av.len() && av[b].multi_id == Some(p) implies #[trigger] group(av, p).contains(av[b]) by {
        av.lemma_filter_contains(pred, b);
    }
}

proof fn lemma_ancestor_elems(tree: Map<u64, MultiPartition>, av: Seq<PartitionV>, cur: Option<u64>, fuel: nat)
    requires
        all_multi(av),
    ensures
        forall|q: int| 0 <= q < ancestor_parts(tree, av, cur, fuel).len() ==> av.contains(#[trigger] ancestor_parts(tree, av, cur, fuel)[q])
            && in_chain(tree, cur, ancestor_parts(tree, av, cur, fuel)[q].multi_id.unwrap(), fuel),
        forall|b: int| 0 <= b < av.len() && in_chain(tree, cur, av[b].multi_id.unwrap(), fuel) ==> #[trigger] ancestor_parts(tree, av, cur, fuel).contains(av[b]),
    decreases fuel,
{
    if let Some(p) = cur {
        if fuel > 0 {
            let next = parent_of(tree, p);
            lemma_ancestor_elems(tree, av, next, (fuel - 1) as nat);
            lemma_group_elems(av, p);
            let g = group(av, p);
            let rest = ancestor_parts(tree, av, next, (fuel - 1) as nat);
            let ap = ancestor_parts(tree, av, cur, fuel);
            assert(ap == g + rest);
            assert forall|q: int| 0 <= q < ap.len() implies av.contains(#[trigger] ap[q]) && in_chain(tree, cur, ap[q].multi_id.unwrap(), fuel) by {
                if q < g.len() {
                    assert(ap[q] == g[q]);
                } else {
                    assert(ap[q] == rest[q - g.len()]);
                }
            }
            assert forall|b: int| 0 <= b < av.len() && in_chain(tree, cur, av[b].multi_id.unwrap(), fuel) implies #[trigger] ap.contains(av[b]) by {
                assert(av[b].multi_id is Some);
                if av[b].multi_id == Some(p) {
                    assert(g.contains(av[b]));
                    let q = choose|q: int| 0 <= q < g.len() && g[q] == av[b];
                    assert(ap[q] == av[b]);
                } else {
                    assert(rest.contains(av[b]));
                    let q = choose|q: int| 0 <= q < rest.len() && rest[q] == av[b];
                    assert(ap[q + g.len()] == av[b]);
                }
            }
        }
    }
}

proof fn lemma_chain_has_children(tree: Map<u64, MultiPartition>, c: u64, m: u64, fuel: nat)
    requires
        tree_wf(tree),
        in_tree(tree, c),
        in_chain(tree, parent_of(tree, c), m, fuel),
    ensures
        has_children(tree, m),
    decreases fuel,
{
    assert(parent_of(tree, c) == tree[c].parent);
    let p = parent_of(tree, c).unwrap();
    if p == m {
        assert(tree.contains_key(c) && tree[c].parent == Some(m));
    } else {
        assert(reaches_root(tree, tree[c].parent, tree.len()));
        assert(in_tree(tree, p)) by {
            lemma_chain_in_tree(tree, parent_of(tree, c), m, fuel);
        }
        lemma_chain_has_children(tree, p, m, (fuel - 1) as nat);
    }
}

proof fn lemma_chain_in_tree(tree: Map<u64, MultiPartition>, cur: Option<u64>, m: u64, fuel: nat)
    requires
        in_chain(tree, cur, m, fuel),
    ensures
        cur matches Some(p) && (p == m || in_tree(tree, p)),
{
    let p = cur.unwrap();
    if p != m {
        if !in_tree(tree, p) {
            assert(parent_of(tree, p) is None);
            assert(!in_chain(tree, parent_of(tree, p), m, (fuel - 1) as nat));
        }
    }
}

proof fn lemma_group_ids_distinct(all: Seq<PartitionV>)
    ensures
        group_ids(all).no_duplicates(),
    decreases all.len(),
{
    if all.len() > 0 {
        lemma_group_ids_distinct(all.drop_last());
    }
}

proof fn lemma_filter_distinct(s: Seq<u64>, pred: spec_fn(u64) -> bool)
    requires
        s.no_duplicates(),
    ensures
        s.filter(pred).no_duplicates(),
    decreases s.len(),
{
    if s.len() > 0 {
        let init = s.drop_last();
        assert(init.no_duplicates());
        lemma_filter_distinct(init, pred);
        assert(s == init.push(s.last()));
        init.lemma_filter_push(s.last(), pred);
        if pred(s.last()) {
            if init.filter(pred).contains(s.last()) {
                init.lemma_filter_contains_rev(pred, s.last());
                let a = choose|a: int| 0 <= a < init.len() && init[a] == s.last();
                assert(s[a] == s[s.len() - 1]);
            }
        }
    }
}

/// Exactly one leaf stream reads the row of key `k` of partition `x`.
pub open spec fn exactly_one_reader(l: Seq<Seq<PartitionV>>, x: PartitionV, k: Seq<ValueV>, in_range: spec_fn(Seq<ValueV>, RangeV) -> bool) -> bool {
    exists|j: int| 0 <= j < l.len() && read_by(l, j, x, k, in_range) && forall|j2: int| 0 <= j2 < l.len() && #[trigger] read_by(l, j2, x, k, in_range) ==> j2 == j
}

/// Leaf `j` lies below multi-partition `m` and its key range holds `k`.
pub open spec fn leaf_below_holding(tree: Map<u64, MultiPartition>, av: Seq<PartitionV>, j: int, m: u64, k: Seq<ValueV>, in_range: spec_fn(Seq<ValueV>, RangeV) -> bool) -> bool {
    &&& 0 <= j < leaf_ids(tree, av).len()
    &&& in_chain(tree, parent_of(tree, leaf_ids(tree, av)[j]), m, tree.len())
    &&& in_range(k, leaf_range(multi_logical(tree, av)[j]))
}

/// Exactly one leaf below `m` has `k` in its key range.
pub open spec fn exactly_one_leaf_holding(tree: Map<u64, MultiPartition>, av: Seq<PartitionV>, m: u64, k: Seq<ValueV>, in_range: spec_fn(Seq<ValueV>, RangeV) -> bool) -> bool {
    exists|j: int| leaf_below_holding(tree, av, j, m, k, in_range) && forall|j2: int| #[trigger] leaf_below_holding(tree, av, j2, m, k, in_range) ==> j2 == j
}

proof fn lemma_leaf_list_shape(tree: Map<u64, MultiPartition>, av: Seq<PartitionV>, j: int)
    requires
        all_multi(av),
        tree_wf(tree),
        all_in_tree(tree, av),
        0 <= j < leaf_ids(tree, av).len(),
    ensures
        group(av, leaf_ids(tree, av)[j]).len() > 0,
        multi_logical(tree, av)[j] == leaf_list(tree, av, leaf_ids(tree, av)[j]),
        multi_logical(tree, av)[j][0].multi_id == Some(leaf_ids(tree, av)[j]),
        !has_children(tree, leaf_ids(tree, av)[j]),
        in_tree(tree, leaf_ids(tree, av)[j]),
{
    let ids = leaf_ids(tree, av);
    let m = ids[j];
    let pred = |m: u64| !has_children(tree, m);
    assert(group_ids(av).filter(pred)[j] == m);
    group_ids(av).lemma_filter_pred(pred, j);
    assert(group_ids(av).filter(pred).contains(m));
    group_ids(av).lemma_filter_contains_rev(pred, m);
    crate::logical::lemma_group_ids_sound(av, m);
    let b = choose|b: int| 0 <= b < av.len() && av[b].multi_id == Some(m);
    lemma_group_elems(av, m);
    assert(group(av, m).contains(av[b]));
    assert(in_tree(tree, av[b].multi_id.unwrap()));
    let g = group(av, m);
    assert(leaf_list(tree, av, m)[0] == g[0]);
}

/// No row is read twice: where partition ids are unique, the full range holds
/// every key and, for a row of a multi-partition with children, exactly one
/// leaf below it covers the row's key (leaf ranges partition their
/// ancestors' ranges), exactly one leaf stream reads the row.
#[verifier::rlimit(60)]
pub proof fn lemma_no_double_counting(
    tree: Map<u64, MultiPartition>,
    av: Seq<PartitionV>,
    in_range: spec_fn(Seq<ValueV>, RangeV) -> bool,
    i: int,
    k: Seq<ValueV>,
)
    requires
        all_multi(av),
        tree_wf(tree),
        all_in_tree(tree, av),
        forall|a: int, b: int| 0 <= a < av.len() && 0 <= b < av.len() && av[a].id == av[b].id ==> a == b,
        forall|key: Seq<ValueV>| #[trigger] in_range(key, full_range()),
        0 <= i < av.len(),
        has_children(tree, av[i].multi_id.unwrap()) ==> exactly_one_leaf_holding(tree, av, av[i].multi_id.unwrap(), k, in_range),
    ensures
        exactly_one_reader(multi_logical(tree, av), av[i], k, in_range),
{
    let l = multi_logical(tree, av);
    let ids = leaf_ids(tree, av);
    let x = av[i];
    let m = x.multi_id.unwrap();
    let n = tree.len();
    lemma_group_ids_distinct(av);
    let pred = |m: u64| !has_children(tree, m);
    lemma_filter_distinct(group_ids(av), pred);
    assert(ids.no_duplicates());
    // Where `x` can stand in a leaf list, and with which filter.
    assert forall|j: int, q: int| 0 <= j < l.len() && 0 <= q < l[j].len() && l[j][q].id == x.id implies
        l[j][q] == x && (if q < group(av, ids[j]).len() { m == ids[j] } else { in_chain(tree, parent_of(tree, ids[j]), m, n) })
        && filters_spec(l[j])[q].1 == (if m == ids[j] { full_range() } else { leaf_range(l[j]) }) by {
        lemma_leaf_list_shape(tree, av, j);
        let g = group(av, ids[j]);
        let ap = ancestor_parts(tree, av, parent_of(tree, ids[j]), n);
        lemma_group_elems(av, ids[j]);
        lemma_ancestor_elems(tree, av, parent_of(tree, ids[j]), n);
        assert(l[j] == g + ap);
        let y = l[j][q];
        if q < g.len() {
            assert(y == g[q]);
            assert(av.contains(y));
        } else {
            assert(y == ap[q - g.len()]);
            assert(av.contains(y));
        }
        let b = choose|b: int| 0 <= b < av.len() && av[b] == y;
        assert(b == i);
        if q >= g.len() && m == ids[j] {
            lemma_chain_has_children(tree, ids[j], m, n);
        }
    }
    if has_children(tree, m) {
        let js = choose|j: int| leaf_below_holding(tree, av, j, m, k, in_range) && forall|j2: int| #[trigger] leaf_below_holding(tree, av, j2, m, k, in_range) ==> j2 == j;
        lemma_leaf_list_shape(tree, av, js);
        assert(m != ids[js]);
        let g = group(av, ids[js]);
        let ap = ancestor_parts(tree, av, parent_of(tree, ids[js]), n);
        lemma_ancestor_elems(tree, av, parent_of(tree, ids[js]), n);
        assert(ap.contains(av[i]));
        let q0 = choose|q: int| 0 <= q < ap.len() && ap[q] == av[i];
        assert(l[js] == g + ap);
        assert(l[js][q0 + g.len()] == x);
        assert(in_range(k, filters_spec(l[js])[q0 + g.len()].1));
        assert(read_by(l, js, x, k, in_range));
        assert forall|j2: int| 0 <= j2 < l.len() && #[trigger] read_by(l, j2, x, k, in_range) implies j2 == js by {
            let q = choose|q: int| 0 <= q < l[j2].len() && l[j2][q].id == x.id && in_range(k, #[trigger] filters_spec(l[j2])[q].1);
            lemma_leaf_list_shape(tree, av, j2);
            if q < group(av, ids[j2]).len() {
                assert(m == ids[j2]);
            }
            assert(leaf_below_holding(tree, av, j2, m, k, in_range));
        }
    } else {
        assert(group_ids(av).contains(m)) by {
            lemma_group_elems(av, m);
            assert(group(av, m).contains(av[i]));
            lemma_group_ids_complete(av, i);
        }
        group_ids(av).lemma_filter_contains_rev(pred, m);
        let gi = choose|a: int| 0 <= a < group_ids(av).len() && group_ids(av)[a] == m;
        group_ids(av).lemma_filter_contains(pred, gi);
        let j0 = choose|j: int| 0 <= j < ids.len() && ids[j] == m;
        lemma_leaf_list_shape(tree, av, j0);
        lemma_group_elems(av, m);
        let g = group(av, m);
        assert(av[i].multi_id == Some(m));
        assert(g.contains(av[i]));
        let q0 = choose|q: int| 0 <= q < g.len() && g[q] == av[i];
        assert(l[j0] == leaf_list(tree, av, m));
        assert(leaf_list(tree, av, m)[q0] == g[q0]);
        assert(l[j0][q0] == x);
        assert(filters_spec(l[j0])[q0].1 == full_range());
        assert(in_range(k, full_range()));
        assert(read_by(l, j0, x, k, in_range));
        assert forall|j2: int| 0 <= j2 < l.len() && #[trigger] read_by(l, j2, x, k, in_range) implies j2 == j0 by {
            let q = choose|q: int| 0 <= q < l[j2].len() && l[j2][q].id == x.id && in_range(k, #[trigger] filters_spec(l[j2])[q].1);
            lemma_leaf_list_shape(tree, av, j2);
            if q >= group(av, ids[j2]).len() {
                lemma_chain_has_children(tree, ids[j2], m, n);
            }
            assert(ids[j2] == ids[j0]);
        }
    }
}

proof fn lemma_group_ids_complete(all: Seq<PartitionV>, i: int)
    requires
        all_multi(all),
        0 <= i < all.len(),
    ensures
        group_ids(all).contains(all[i].multi_id.unwrap()),
    decreases all.len(),
{
    let d = group_ids(all.drop_last());
    if i < all.len() - 1 {
        lemma_group_ids_complete(all.drop_last(), i);
        assert(all.drop_last()[i] == all[i]);
        let a = choose|a: int| 0 <= a < d.len() && d[a] == all[i].multi_id.unwrap();
        if !d.contains(all.last().multi_id.unwrap()) {
            assert(d.push(all.last().multi_id.unwrap())[a] == all[i].multi_id.unwrap());
        }
    } else {
        if !d.contains(all.last().multi_id.unwrap()) {
            assert(d.push(all.last().multi_id.unwrap())[d.len() as int] == all[i].multi_id.unwrap());
        }
    }
}

} // verus!

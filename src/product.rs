//! Cartesian products of sequences, as `itertools::multi_cartesian_product`
//! forms them, and what holds of their size and contents.
use vstd::prelude::*;
use itertools::Itertools;

verus! {

/// The product of a list of sequences in lexicographic order, the last one
/// varying fastest; the product of no sequences is empty.
pub open spec fn product<A>(s: Seq<Seq<A>>) -> Seq<Seq<A>>
    decreases s.len(),
{
    if s.len() == 0 {
        Seq::empty()
    } else if s.len() == 1 {
        s[0].map_values(|x: A| seq![x])
    } else {
        let rest = product(s.drop_first());
        s[0].map_values(|x: A| rest.map_values(|t: Seq<A>| seq![x] + t)).flatten()
    }
}

/// The product of the lengths of a list of sequences.
pub open spec fn lens_product<A>(s: Seq<Seq<A>>) -> nat
    decreases s.len(),
{
    if s.len() == 0 {
        1
    } else {
        s[0].len() * lens_product(s.drop_first())
    }
}

/// `s[j]` is `0, 1, ..., s[j].len() - 1` for every `j`.
pub open spec fn all_index_ranges(s: Seq<Seq<usize>>) -> bool {
    forall|j: int, i: int| 0 <= j < s.len() && 0 <= i < s[j].len() ==> s[j][i] == i
}

/// A tuple that picks one position of each sequence of `s`.
pub open spec fn is_choice(s: Seq<Seq<usize>>, t: Seq<usize>) -> bool {
    t.len() == s.len() && forall|j: int| 0 <= j < s.len() ==> t[j] < s[j].len()
}

pub open spec fn vv_view(v: Seq<Vec<usize>>) -> Seq<Seq<usize>> {
    v.map_values(|x: Vec<usize>| x@)
}

proof fn lemma_flatten_uniform<A>(ss: Seq<Seq<A>>, m: nat)
    requires
        forall|i: int| 0 <= i < ss.len() ==> #[trigger] ss[i].len() == m,
    ensures
        ss.flatten().len() == ss.len() * m,
        forall|a: int, b: int|
            0 <= a < ss.len() && 0 <= b < m ==> ss.flatten()[a * m + b] == #[trigger] ss[a][b],
    decreases ss.len(),
{
    if ss.len() > 0 {
        let rest = ss.drop_first();
        lemma_flatten_uniform(rest, m);
        assert(ss.flatten() == ss[0] + rest.flatten());
        assert(ss.len() * m == m + rest.len() * m) by (nonlinear_arith)
            requires
                rest.len() == ss.len() - 1,
        ;
        assert forall|a: int, b: int| 0 <= a < ss.len() && 0 <= b < m implies ss.flatten()[a * m
            + b] == #[trigger] ss[a][b] by {
            if a > 0 {
                assert(a * m + b == m + ((a - 1) * m + b)) by (nonlinear_arith);
                assert(0 <= (a - 1) * m + b) by (nonlinear_arith)
                    requires
                        a >= 1,
                        b >= 0,
                ;
                assert(rest.len() == ss.len() - 1);
                assert(0 <= a - 1 < rest.len());
                assert(rest[a - 1] == ss[a]);
                assert(rest.flatten()[(a - 1) * m + b] == rest[a - 1][b]);
                assert(ss[0].len() == m);
                assert((a - 1) * m + b < rest.len() * m) by (nonlinear_arith)
                    requires
                        0 <= a - 1 < rest.len(),
                        0 <= b < m,
                ;
                assert((ss[0] + rest.flatten())[m + ((a - 1) * m + b)] == rest.flatten()[(a - 1) * m + b]);
            } else {
                assert(a * m + b == b) by (nonlinear_arith)
                    requires
                        a == 0,
                ;
            }
        }
    }
}

/// Every tuple of a product picks one element from each sequence.
pub proof fn lemma_product_tuple_len<A>(s: Seq<Seq<A>>)
    ensures
        forall|p: int| 0 <= p < product(s).len() ==> (#[trigger] product(s)[p]).len() == s.len(),
    decreases s.len(),
{
    if s.len() > 1 {
        let rest = s.drop_first();
        lemma_product_tuple_len(rest);
        let rp = product(rest);
        let m = rp.len();
        let ss = s[0].map_values(|x: A| rp.map_values(|t: Seq<A>| seq![x] + t));
        lemma_flatten_uniform(ss, m);
        assert forall|p: int| 0 <= p < product(s).len() implies (#[trigger] product(s)[p]).len() == s.len() by {
            let a = p / (m as int);
            let b = p % (m as int);
            assert(m > 0) by (nonlinear_arith)
                requires
                    p < ss.len() * m,
                    p >= 0,
            ;
            assert(p == a * m + b && 0 <= b < m) by (nonlinear_arith)
                requires
                    a == p / (m as int),
                    b == p % (m as int),
                    m > 0,
            ;
            assert(0 <= a < ss.len()) by (nonlinear_arith)
                requires
                    p == a * m + b,
                    0 <= b < m,
                    p < ss.len() * m,
                    0 <= p,
            ;
            assert(ss[a][b] == seq![s[0][a]] + rp[b]);
        }
    }
}

/// Size, soundness and completeness of the product of index ranges.
pub proof fn lemma_product_of_ranges(s: Seq<Seq<usize>>)
    requires
        s.len() > 0,
        all_index_ranges(s),
    ensures
        product(s).len() == lens_product(s),
        forall|p: int| 0 <= p < product(s).len() ==> is_choice(s, #[trigger] product(s)[p]),
        forall|t: Seq<usize>|
            is_choice(s, t) ==> exists|p: int| 0 <= p < product(s).len() && #[trigger] product(s)[p]
                == t,
    decreases s.len(),
{
    if s.len() == 1 {
        assert(lens_product(s.drop_first()) == 1);
        assert(lens_product(s) == s[0].len() * 1);
        assert forall|t: Seq<usize>| is_choice(s, t) implies exists|p: int|
            0 <= p < product(s).len() && #[trigger] product(s)[p] == t by {
            assert(product(s)[t[0] as int] =~= t);
        }
    } else {
        let rest = s.drop_first();
        lemma_product_of_ranges(rest);
        let rp = product(rest);
        let m = rp.len();
        let ss = s[0].map_values(|x: usize| rp.map_values(|t: Seq<usize>| seq![x] + t));
        assert(product(s) == ss.flatten());
        lemma_flatten_uniform(ss, m);
        assert(lens_product(s) == s[0].len() * lens_product(rest));
        assert forall|p: int| 0 <= p < product(s).len() implies is_choice(s, #[trigger] product(s)[p]) by {
            let a = p / (m as int);
            let b = p % (m as int);
            assert(m > 0) by (nonlinear_arith)
                requires
                    p < ss.len() * m,
                    p >= 0,
            ;
            assert(p == a * m + b && 0 <= b < m) by (nonlinear_arith)
                requires
                    a == p / (m as int),
                    b == p % (m as int),
                    m > 0,
            ;
            assert(0 <= a < ss.len()) by (nonlinear_arith)
                requires
                    p == a * m + b,
                    0 <= b < m,
                    p < ss.len() * m,
                    0 <= p,
            ;
            let t = product(s)[p];
            assert(ss[a][b] == seq![s[0][a]] + rp[b]);
            assert(t == ss[a][b]);
            assert(is_choice(rest, rp[b]));
            assert forall|j: int| 0 <= j < s.len() implies t[j] < s[j].len() by {
                if j > 0 {
                    assert(t[j] == rp[b][j - 1]);
                    assert(rest[j - 1] == s[j]);
                }
            }
        }
        assert forall|t: Seq<usize>| is_choice(s, t) implies exists|p: int|
            0 <= p < product(s).len() && #[trigger] product(s)[p] == t by {
            let t2 = t.drop_first();
            assert(is_choice(rest, t2));
            let b = choose|b: int| 0 <= b < rp.len() && rp[b] == t2;
            let a = t[0] as int;
            assert(0 <= a * m + b < ss.len() * m) by (nonlinear_arith)
                requires
                    0 <= a < ss.len(),
                    0 <= b < m,
            ;
            assert(ss[a][b] == seq![s[0][a]] + rp[b]);
            assert(product(s)[a * m + b] == ss[a][b]);
            assert(product(s)[a * m + b] =~= t);
        }
    }
}

/// Relies on `Itertools::multi_cartesian_product`: for a nonempty list of
/// lists it yields every pick of one element per list, in lexicographic order
/// with the last list varying fastest; for an empty list it yields nothing.
#[verifier::external_body]
pub(crate) fn cartesian_product(v: Vec<Vec<usize>>) -> (r: Vec<Vec<usize>>)
    ensures
        vv_view(r@) == product(vv_view(v@)),
{
    v.into_iter().multi_cartesian_product().collect()
}

} // verus!

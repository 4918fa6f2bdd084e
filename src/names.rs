//! Worker names: their order, and the deterministic choice of a worker.
use vstd::prelude::*;

verus! {

broadcast use vstd::string::axiom_spec_iter;

/// Strict lexicographic order of character sequences, by code point; on
/// strings this is the byte order of their UTF-8 encodings.
pub open spec fn chars_lt(a: Seq<char>, b: Seq<char>) -> bool
    decreases a.len(),
{
    if b.len() == 0 {
        false
    } else if a.len() == 0 {
        true
    } else if a[0] != b[0] {
        (a[0] as int) < (b[0] as int)
    } else {
        chars_lt(a.drop_first(), b.drop_first())
    }
}

/// `chars_lt` is irreflexive.
pub proof fn lemma_chars_lt_irreflexive(a: Seq<char>)
    ensures
        !chars_lt(a, a),
    decreases a.len(),
{
    if a.len() > 0 {
        lemma_chars_lt_irreflexive(a.drop_first());
    }
}

/// `chars_lt` is total on distinct sequences and asymmetric.
pub proof fn lemma_chars_lt_total(a: Seq<char>, b: Seq<char>)
    ensures
        a != b ==> chars_lt(a, b) || chars_lt(b, a),
        !(chars_lt(a, b) && chars_lt(b, a)),
    decreases a.len(),
{
    if a.len() > 0 && b.len() > 0 {
        if a[0] == b[0] {
            lemma_chars_lt_total(a.drop_first(), b.drop_first());
            if a != b {
                assert(a.drop_first() != b.drop_first()) by {
                    if a.drop_first() == b.drop_first() {
                        assert(a =~= seq![a[0]] + a.drop_first());
                        assert(b =~= seq![b[0]] + b.drop_first());
                    }
                }
            }
        } else {
            assert((a[0] as int) != (b[0] as int));
        }
    } else if a.len() == 0 && b.len() == 0 {
        assert(a =~= b);
    }
}

/// `chars_lt` is transitive.
pub proof fn lemma_chars_lt_transitive(a: Seq<char>, b: Seq<char>, c: Seq<char>)
    requires
        chars_lt(a, b),
        chars_lt(b, c),
    ensures
        chars_lt(a, c),
    decreases a.len(),
{
    if a.len() > 0 && a[0] == b[0] && b[0] == c[0] {
        lemma_chars_lt_transitive(a.drop_first(), b.drop_first(), c.drop_first());
    }
}

/// The characters of a string.
pub fn chars_of(s: &str) -> (v: Vec<char>)
    ensures
        v@ == s@,
{
    let mut v: Vec<char> = Vec::new();
    for c in it: s.chars()
        invariant
            v@ == it.seq().subrange(0, it.index() as int),
    {
        v.push(c);
    }
    v
}

/// Whether `a` sorts strictly before `b`.
pub fn name_lt(a: &String, b: &String) -> (r: bool)
    ensures
        r == chars_lt(a@, b@),
{
    let av = chars_of(a.as_str());
    let bv = chars_of(b.as_str());
    let mut i: usize = 0;
    assert(a@.subrange(0, a@.len() as int) =~= a@);
    assert(b@.subrange(0, b@.len() as int) =~= b@);
    while i < av.len() && i < bv.len()
        invariant
            i <= av.len(),
            i <= bv.len(),
            av@ == a@,
            bv@ == b@,
            chars_lt(a@, b@) == chars_lt(
                a@.subrange(i as int, a@.len() as int),
                b@.subrange(i as int, b@.len() as int),
            ),
        decreases av.len() - i,
    {
        if av[i] != bv[i] {
            return av[i] < bv[i];
        }
        assert(a@.subrange(i + 1, a@.len() as int) =~= a@.subrange(i as int, a@.len() as int).drop_first());
        assert(b@.subrange(i + 1, b@.len() as int) =~= b@.subrange(i as int, b@.len() as int).drop_first());
        i += 1;
    }
    i < bv.len()
}

/// The modulus of the worker hash; below 2^31, so no step overflows.
pub const HASH_MODULUS: u64 = 2147483647;

/// A deterministic hash of a list of ids: a polynomial in base 31 modulo
/// `HASH_MODULUS`, read from the first id on.
pub open spec fn ids_hash(ids: Seq<u64>) -> u64
    decreases ids.len(),
{
    if ids.len() == 0 {
        0
    } else {
        let h = ids_hash(ids.drop_last()) as int;
        ((h * 31 + (ids.last() % HASH_MODULUS) as int) % (HASH_MODULUS as int)) as u64
    }
}

/// Computes `ids_hash`.
pub fn hash_ids(ids: &Vec<u64>) -> (h: u64)
    ensures
        h == ids_hash(ids@),
        h < HASH_MODULUS,
{
    let mut h: u64 = 0;
    let mut i: usize = 0;
    while i < ids.len()
        invariant
            i <= ids.len(),
            h == ids_hash(ids@.subrange(0, i as int)),
            h < HASH_MODULUS,
        decreases ids.len() - i,
    {
        assert(ids@.subrange(0, i + 1).drop_last() =~= ids@.subrange(0, i as int));
        h = (h * 31 + ids[i] % HASH_MODULUS) % HASH_MODULUS;
        i += 1;
    }
    assert(ids@.subrange(0, i as int) =~= ids@);
    h
}

/// The nodes of a cluster that queries can be sent to.
#[derive(Debug)]
pub struct WorkerConfig {
    /// This node's own name, used when there are no workers.
    pub server_name: String,
    pub select_workers: Vec<String>,
}

/// The worker that a list of ids routes to.
pub open spec fn worker_for(c: WorkerConfig, ids: Seq<u64>) -> Seq<char> {
    if c.select_workers@.len() == 0 {
        c.server_name@
    } else {
        c.select_workers@[(ids_hash(ids) as int) % c.select_workers@.len() as int]@
    }
}

/// Picks the worker for a list of ids: the hash of the ids modulo the number
/// of workers, or this node when there are none.
pub fn pick_worker_by_ids(c: &WorkerConfig, ids: &Vec<u64>) -> (w: String)
    ensures
        w@ == worker_for(*c, ids@),
{
    let h = hash_ids(ids);
    if c.select_workers.len() == 0 {
        c.server_name.clone()
    } else {
        let i = (h % (c.select_workers.len() as u64)) as usize;
        c.select_workers[i].clone()
    }
}

} // verus!

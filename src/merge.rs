//! Merging of sorted row streams into one stream sorted by key columns.
use vstd::prelude::*;
use crate::dedup::{key_of, rows_view, values_equal};
use crate::model::{copy_row, Value, ValueV};
use crate::names::{chars_lt, lemma_chars_lt_total, name_lt};

verus! {

/// Strict lexicographic order of byte sequences.
pub open spec fn bytes_lt(a: Seq<u8>, b: Seq<u8>) -> bool
    decreases a.len(),
{
    if b.len() == 0 {
        false
    } else if a.len() == 0 {
        true
    } else if a[0] != b[0] {
        a[0] < b[0]
    } else {
        bytes_lt(a.drop_first(), b.drop_first())
    }
}

proof fn lemma_bytes_lt_asymmetric(a: Seq<u8>, b: Seq<u8>)
    ensures
        !(bytes_lt(a, b) && bytes_lt(b, a)),
    decreases a.len(),
{
    if a.len() > 0 && b.len() > 0 && a[0] == b[0] {
        lemma_bytes_lt_asymmetric(a.drop_first(), b.drop_first());
    }
}

/// The order of the kinds of cells: nulls first.
pub open spec fn rank(v: ValueV) -> int {
    match v {
        ValueV::Null => 0,
        ValueV::Boolean(_) => 1,
        ValueV::Int(_) => 2,
        ValueV::UInt(_) => 3,
        ValueV::Decimal(_) => 4,
        ValueV::Float(_) => 5,
        ValueV::Timestamp(_) => 6,
        ValueV::String(_) => 7,
        ValueV::Bytes(_) => 8,
    }
}

/// The bit pattern of a double mapped so that unsigned order is IEEE-754
/// total order.
pub open spec fn float_key(bits: u64) -> int {
    if bits >= 0x8000_0000_0000_0000 {
        0xFFFF_FFFF_FFFF_FFFF - bits
    } else {
        bits + 0x8000_0000_0000_0000
    }
}

/// Strict order of cells: by kind, then by value; strings and bytes
/// lexicographically, floats in IEEE-754 total order.
pub open spec fn value_lt(a: ValueV, b: ValueV) -> bool {
    if rank(a) != rank(b) {
        rank(a) < rank(b)
    } else {
        match (a, b) {
            (ValueV::Boolean(x), ValueV::Boolean(y)) => !x && y,
            (ValueV::Int(x), ValueV::Int(y)) => x < y,
            (ValueV::UInt(x), ValueV::UInt(y)) => x < y,
            (ValueV::Decimal(x), ValueV::Decimal(y)) => x < y,
            (ValueV::Float(x), ValueV::Float(y)) => float_key(x) < float_key(y),
            (ValueV::Timestamp(x), ValueV::Timestamp(y)) => x < y,
            (ValueV::String(x), ValueV::String(y)) => chars_lt(x, y),
            (ValueV::Bytes(x), ValueV::Bytes(y)) => bytes_lt(x, y),
            _ => false,
        }
    }
}

proof fn lemma_value_lt_asymmetric(a: ValueV, b: ValueV)
    ensures
        !(value_lt(a, b) && value_lt(b, a)),
{
    match (a, b) {
        (ValueV::String(x), ValueV::String(y)) => lemma_chars_lt_total(x, y),
        (ValueV::Bytes(x), ValueV::Bytes(y)) => lemma_bytes_lt_asymmetric(x, y),
        _ => {},
    }
}

/// Strict lexicographic order of keys of equal length.
pub open spec fn key_lt(a: Seq<ValueV>, b: Seq<ValueV>) -> bool
    decreases a.len(),
{
    if a.len() == 0 || b.len() == 0 {
        false
    } else if a[0] != b[0] {
        value_lt(a[0], b[0])
    } else {
        key_lt(a.drop_first(), b.drop_first())
    }
}

proof fn lemma_key_lt_asymmetric(a: Seq<ValueV>, b: Seq<ValueV>)
    ensures
        !(key_lt(a, b) && key_lt(b, a)),
    decreases a.len(),
{
    if a.len() > 0 && b.len() > 0 {
        if a[0] != b[0] {
            lemma_value_lt_asymmetric(a[0], b[0]);
        } else {
            lemma_key_lt_asymmetric(a.drop_first(), b.drop_first());
        }
    }
}

/// Row `a` sorts strictly before row `b` on the key columns.
pub open spec fn row_lt(a: Seq<ValueV>, b: Seq<ValueV>, cols: Seq<usize>) -> bool {
    key_lt(key_of(a, cols), key_of(b, cols))
}

/// No row sorts strictly before the one ahead of it.
pub open spec fn sorted_by(rows: Seq<Seq<ValueV>>, cols: Seq<usize>) -> bool {
    forall|i: int| 0 <= i < rows.len() - 1 ==> !row_lt(#[trigger] rows[i + 1], rows[i], cols)
}

/// The merge of two streams: at each step the head of the second goes first
/// only when it sorts strictly before the head of the first, so ties keep
/// the order of arrival.
pub open spec fn merge_spec(a: Seq<Seq<ValueV>>, b: Seq<Seq<ValueV>>, cols: Seq<usize>) -> Seq<Seq<ValueV>>
    decreases a.len() + b.len(),
{
    if a.len() == 0 {
        b
    } else if b.len() == 0 {
        a
    } else if row_lt(b[0], a[0], cols) {
        seq![b[0]] + merge_spec(a, b.drop_first(), cols)
    } else {
        seq![a[0]] + merge_spec(a.drop_first(), b, cols)
    }
}

proof fn lemma_merge_sorted(a: Seq<Seq<ValueV>>, b: Seq<Seq<ValueV>>, cols: Seq<usize>)
    requires
        sorted_by(a, cols),
        sorted_by(b, cols),
    ensures
        sorted_by(merge_spec(a, b, cols), cols),
        merge_spec(a, b, cols).len() == a.len() + b.len(),
        merge_spec(a, b, cols).len() > 0 ==> (merge_spec(a, b, cols)[0] == a[0] && a.len() > 0) || (merge_spec(a, b, cols)[0] == b[0] && b.len() > 0),
    decreases a.len() + b.len(),
{
    if a.len() > 0 && b.len() > 0 {
        let m = merge_spec(a, b, cols);
        if row_lt(b[0], a[0], cols) {
            let rest = b.drop_first();
            assert(sorted_by(rest, cols)) by {
                assert forall|i: int| 0 <= i < rest.len() - 1 implies !row_lt(#[trigger] rest[i + 1], rest[i], cols) by {
                    assert(rest[i + 1] == b[i + 2] && rest[i] == b[i + 1]);
                }
            }
            lemma_merge_sorted(a, rest, cols);
            let t = merge_spec(a, rest, cols);
            assert(m == seq![b[0]] + t);
            assert forall|i: int| 0 <= i < m.len() - 1 implies !row_lt(#[trigger] m[i + 1], m[i], cols) by {
                if i == 0 {
                    if t[0] == a[0] {
                        lemma_key_lt_asymmetric(key_of(b[0], cols), key_of(a[0], cols));
                    } else {
                        assert(t[0] == rest[0] && rest[0] == b[1]);
                        assert(!row_lt(b[0int + 1], b[0], cols));
                    }
                } else {
                    assert(m[i + 1] == t[i] && m[i] == t[i - 1]);
                    assert(!row_lt(t[(i - 1) + 1], t[i - 1], cols));
                }
            }
        } else {
            let rest = a.drop_first();
            assert(sorted_by(rest, cols)) by {
                assert forall|i: int| 0 <= i < rest.len() - 1 implies !row_lt(#[trigger] rest[i + 1], rest[i], cols) by {
                    assert(rest[i + 1] == a[i + 2] && rest[i] == a[i + 1]);
                }
            }
            lemma_merge_sorted(rest, b, cols);
            let t = merge_spec(rest, b, cols);
            assert(m == seq![a[0]] + t);
            assert forall|i: int| 0 <= i < m.len() - 1 implies !row_lt(#[trigger] m[i + 1], m[i], cols) by {
                if i == 0 {
                    if t[0] == b[0] {
                    } else {
                        assert(t[0] == rest[0] && rest[0] == a[1]);
                        assert(!row_lt(a[0int + 1], a[0], cols));
                    }
                } else {
                    assert(m[i + 1] == t[i] && m[i] == t[i - 1]);
                    assert(!row_lt(t[(i - 1) + 1], t[i - 1], cols));
                }
            }
        }
    }
}

/// The merge of all streams, one after another into the merge so far.
pub open spec fn merge_all_spec(inputs: Seq<Seq<Seq<ValueV>>>, cols: Seq<usize>) -> Seq<Seq<ValueV>>
    decreases inputs.len(),
{
    if inputs.len() == 0 {
        Seq::empty()
    } else {
        merge_spec(merge_all_spec(inputs.drop_last(), cols), inputs.last(), cols)
    }
}

/// Merging streams that are each sorted by the key columns gives a stream
/// sorted by them, with all their rows.
pub proof fn lemma_merge_all_sorted(inputs: Seq<Seq<Seq<ValueV>>>, cols: Seq<usize>)
    requires
        forall|i: int| 0 <= i < inputs.len() ==> sorted_by(#[trigger] inputs[i], cols),
    ensures
        sorted_by(merge_all_spec(inputs, cols), cols),
    decreases inputs.len(),
{
    if inputs.len() > 0 {
        lemma_merge_all_sorted(inputs.drop_last(), cols);
        assert(sorted_by(inputs[inputs.len() - 1], cols));
        lemma_merge_sorted(merge_all_spec(inputs.drop_last(), cols), inputs.last(), cols);
    }
}

/// Whether byte string `a` sorts strictly before `b`.
fn bytes_less(a: &Vec<u8>, b: &Vec<u8>) -> (r: bool)
    ensures
        r == bytes_lt(a@, b@),
{
    let mut i: usize = 0;
    assert(a@.subrange(0, a@.len() as int) =~= a@);
    assert(b@.subrange(0, b@.len() as int) =~= b@);
    while i < a.len() && i < b.len()
        invariant
            i <= a.len(),
            i <= b.len(),
            bytes_lt(a@, b@) == bytes_lt(a@.subrange(i as int, a@.len() as int), b@.subrange(i as int, b@.len() as int)),
        decreases a.len() - i,
    {
        if a[i] != b[i] {
            return a[i] < b[i];
        }
        assert(a@.subrange(i + 1, a@.len() as int) =~= a@.subrange(i as int, a@.len() as int).drop_first());
        assert(b@.subrange(i + 1, b@.len() as int) =~= b@.subrange(i as int, b@.len() as int).drop_first());
        i += 1;
    }
    i < b.len()
}

fn rank_of(v: &Value) -> (r: u8)
    ensures
        r as int == rank(v@),
{
    match v {
        Value::Null => 0,
        Value::Boolean(_) => 1,
        Value::Int(_) => 2,
        Value::UInt(_) => 3,
        Value::Decimal(_) => 4,
        Value::Float(_) => 5,
        Value::Timestamp(_) => 6,
        Value::String(_) => 7,
        Value::Bytes(_) => 8,
    }
}

fn float_order_key(bits: u64) -> (r: u64)
    ensures
        r as int == float_key(bits),
{
    if bits >= 0x8000_0000_0000_0000 {
        0xFFFF_FFFF_FFFF_FFFF - bits
    } else {
        bits + 0x8000_0000_0000_0000
    }
}

/// Whether cell `a` sorts strictly before cell `b`.
pub fn value_less(a: &Value, b: &Value) -> (r: bool)
    ensures
        r == value_lt(a@, b@),
{
    let ra = rank_of(a);
    let rb = rank_of(b);
    if ra != rb {
        return ra < rb;
    }
    match (a, b) {
        (Value::Boolean(x), Value::Boolean(y)) => !*x && *y,
        (Value::Int(x), Value::Int(y)) => *x < *y,
        (Value::UInt(x), Value::UInt(y)) => *x < *y,
        (Value::Decimal(x), Value::Decimal(y)) => *x < *y,
        (Value::Float(x), Value::Float(y)) => float_order_key(*x) < float_order_key(*y),
        (Value::Timestamp(x), Value::Timestamp(y)) => *x < *y,
        (Value::String(x), Value::String(y)) => name_lt(x, y),
        (Value::Bytes(x), Value::Bytes(y)) => bytes_less(x, y),
        _ => false,
    }
}

/// Whether row `a` sorts strictly before row `b` on the key columns.
pub fn row_less(a: &Vec<Value>, b: &Vec<Value>, cols: &Vec<usize>) -> (r: bool)
    requires
        forall|k: int| 0 <= k < cols.len() ==> #[trigger] cols@[k] < a.len() && cols@[k] < b.len(),
    ensures
        r == row_lt(crate::model::row_view(a@), crate::model::row_view(b@), cols@),
{
    let ghost ka = key_of(crate::model::row_view(a@), cols@);
    let ghost kb = key_of(crate::model::row_view(b@), cols@);
    let mut k: usize = 0;
    assert(ka.subrange(0, ka.len() as int) =~= ka);
    assert(kb.subrange(0, kb.len() as int) =~= kb);
    while k < cols.len()
        invariant
            k <= cols.len(),
            ka == key_of(crate::model::row_view(a@), cols@),
            kb == key_of(crate::model::row_view(b@), cols@),
            forall|q: int| 0 <= q < cols.len() ==> #[trigger] cols@[q] < a.len() && cols@[q] < b.len(),
            key_lt(ka, kb) == key_lt(ka.subrange(k as int, ka.len() as int), kb.subrange(k as int, kb.len() as int)),
        decreases cols.len() - k,
    {
        let x = &a[cols[k]];
        let y = &b[cols[k]];
        assert(ka.subrange(k as int, ka.len() as int)[0] == x@);
        assert(kb.subrange(k as int, kb.len() as int)[0] == y@);
        if !values_equal(x, y) {
            return value_less(x, y);
        }
        assert(ka.subrange(k + 1, ka.len() as int) =~= ka.subrange(k as int, ka.len() as int).drop_first());
        assert(kb.subrange(k + 1, kb.len() as int) =~= kb.subrange(k as int, kb.len() as int).drop_first());
        k += 1;
    }
    false
}

/// Every row has all key columns.
pub open spec fn rows_have(rows: Seq<Vec<Value>>, cols: Seq<usize>) -> bool {
    forall|i: int, k: int| 0 <= i < rows.len() && 0 <= k < cols.len() ==> #[trigger] cols[k] < (#[trigger] rows[i]).len()
}

/// Merges two streams; see `merge_spec`.
pub fn merge_two(a: &Vec<Vec<Value>>, b: &Vec<Vec<Value>>, cols: &Vec<usize>) -> (r: Vec<Vec<Value>>)
    requires
        rows_have(a@, cols@),
        rows_have(b@, cols@),
    ensures
        rows_view(r@) == merge_spec(rows_view(a@), rows_view(b@), cols@),
        rows_have(r@, cols@),
{
    let ghost av = rows_view(a@);
    let ghost bv = rows_view(b@);
    let mut out: Vec<Vec<Value>> = Vec::new();
    let mut i: usize = 0;
    let mut j: usize = 0;
    assert(av.subrange(0, av.len() as int) =~= av);
    assert(bv.subrange(0, bv.len() as int) =~= bv);
    assert(rows_view(out@) + merge_spec(av, bv, cols@) =~= merge_spec(av, bv, cols@));
    while i < a.len() || j < b.len()
        invariant
            i <= a.len(),
            j <= b.len(),
            av == rows_view(a@),
            bv == rows_view(b@),
            rows_have(a@, cols@),
            rows_have(b@, cols@),
            rows_have(out@, cols@),
            rows_view(out@) + merge_spec(av.subrange(i as int, av.len() as int), bv.subrange(j as int, bv.len() as int), cols@) == merge_spec(av, bv, cols@),
        decreases a.len() + b.len() - i - j,
    {
        let ghost sa = av.subrange(i as int, av.len() as int);
        let ghost sb = bv.subrange(j as int, bv.len() as int);
        let ghost prev = rows_view(out@);
        let take_b = if i == a.len() {
            true
        } else if j == b.len() {
            false
        } else {
            assert forall|k: int| 0 <= k < cols.len() implies #[trigger] cols@[k] < b@[j as int].len() && cols@[k] < a@[i as int].len() by {
                assert(cols@[k] < b@[j as int].len());
                assert(cols@[k] < a@[i as int].len());
            }
            row_less(&b[j], &a[i], cols)
        };
        if take_b {
            let c = copy_row(&b[j]);
            assert(sb[0] == crate::model::row_view(b@[j as int]@));
            assert(c@.len() == crate::model::row_view(c@).len() && b@[j as int]@.len() == crate::model::row_view(b@[j as int]@).len());
            let ghost old_out = out@;
            out.push(c);
            assert forall|q: int, k: int| 0 <= q < out@.len() && 0 <= k < cols@.len() implies #[trigger] cols@[k] < (#[trigger] out@[q]).len() by {
                if q < old_out.len() {
                    assert(out@[q] == old_out[q]);
                } else {
                    assert(cols@[k] < b@[j as int].len());
                }
            }
            assert(rows_view(out@) =~= prev.push(sb[0]));
            assert(bv.subrange(j + 1, bv.len() as int) =~= sb.drop_first());
            if i < a.len() {
                assert(sa[0] == crate::model::row_view(a@[i as int]@));
            } else {
                assert(sa.len() == 0);
                assert(sb =~= seq![sb[0]] + sb.drop_first());
            }
            assert(prev.push(sb[0]) + merge_spec(sa, sb.drop_first(), cols@) =~= prev + (seq![sb[0]] + merge_spec(sa, sb.drop_first(), cols@)));
            j += 1;
        } else {
            let c = copy_row(&a[i]);
            assert(sa[0] == crate::model::row_view(a@[i as int]@));
            assert(c@.len() == crate::model::row_view(c@).len() && a@[i as int]@.len() == crate::model::row_view(a@[i as int]@).len());
            let ghost old_out = out@;
            out.push(c);
            assert forall|q: int, k: int| 0 <= q < out@.len() && 0 <= k < cols@.len() implies #[trigger] cols@[k] < (#[trigger] out@[q]).len() by {
                if q < old_out.len() {
                    assert(out@[q] == old_out[q]);
                } else {
                    assert(cols@[k] < a@[i as int].len());
                }
            }
            assert(rows_view(out@) =~= prev.push(sa[0]));
            assert(av.subrange(i + 1, av.len() as int) =~= sa.drop_first());
            if j < b.len() {
                assert(sb[0] == crate::model::row_view(b@[j as int]@));
            } else {
                assert(sb.len() == 0);
                assert(sa =~= seq![sa[0]] + sa.drop_first());
            }
            assert(prev.push(sa[0]) + merge_spec(sa.drop_first(), sb, cols@) =~= prev + (seq![sa[0]] + merge_spec(sa.drop_first(), sb, cols@)));
            i += 1;
        }
    }
    assert(av.subrange(i as int, av.len() as int).len() == 0);
    assert(bv.subrange(j as int, bv.len() as int).len() == 0);
    assert(rows_view(out@) + Seq::empty() =~= rows_view(out@));
    out
}

/// The views of a list of row streams.
pub open spec fn streams_view(v: Seq<Vec<Vec<Value>>>) -> Seq<Seq<Seq<ValueV>>> {
    v.map_values(|s: Vec<Vec<Value>>| rows_view(s@))
}

/// Merges row streams into one, sorted by the key columns where each stream
/// is; see `merge_all_spec` and `lemma_merge_all_sorted`.
pub fn merge_sorted(inputs: &Vec<Vec<Vec<Value>>>, cols: &Vec<usize>) -> (r: Vec<Vec<Value>>)
    requires
        forall|i: int| 0 <= i < inputs.len() ==> rows_have(#[trigger] inputs@[i]@, cols@),
    ensures
        rows_view(r@) == merge_all_spec(streams_view(inputs@), cols@),
{
    let ghost iv = streams_view(inputs@);
    let mut acc: Vec<Vec<Value>> = Vec::new();
    let mut i: usize = 0;
    assert(rows_view(acc@) =~= merge_all_spec(iv.subrange(0, 0), cols@));
    while i < inputs.len()
        invariant
            i <= inputs.len(),
            iv == streams_view(inputs@),
            forall|q: int| 0 <= q < inputs.len() ==> rows_have(#[trigger] inputs@[q]@, cols@),
            rows_have(acc@, cols@),
            rows_view(acc@) == merge_all_spec(iv.subrange(0, i as int), cols@),
        decreases inputs.len() - i,
    {
        assert(iv.subrange(0, i + 1).drop_last() =~= iv.subrange(0, i as int));
        assert(iv.subrange(0, i + 1).last() == rows_view(inputs@[i as int]@));
        acc = merge_two(&acc, &inputs[i], cols);
        i += 1;
    }
    assert(iv.subrange(0, i as int) =~= iv);
    acc
}

} // verus!

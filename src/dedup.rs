//! Last-write-wins deduplication: of each run of rows with equal unique key,
//! only the last row is kept.
use vstd::prelude::*;
use crate::model::{row_view, Value, ValueV};

verus! {

/// The unique key of a row: its cells at the key columns.
pub open spec fn key_of(row: Seq<ValueV>, cols: Seq<usize>) -> Seq<ValueV> {
    cols.map_values(|c: usize| row[c as int])
}

/// Row `i` is the last of its run: the next row, if any, has another key.
pub open spec fn last_of_run(rows: Seq<Seq<ValueV>>, cols: Seq<usize>, i: int) -> bool {
    i + 1 == rows.len() || key_of(rows[i], cols) != key_of(rows[i + 1], cols)
}

/// The positions of the rows among the first `n` that are last of their run.
pub open spec fn kept_positions(rows: Seq<Seq<ValueV>>, cols: Seq<usize>, n: nat) -> Seq<int>
    decreases n,
{
    if n == 0 {
        Seq::empty()
    } else {
        let prev = kept_positions(rows, cols, (n - 1) as nat);
        if last_of_run(rows, cols, n - 1) {
            prev.push(n - 1)
        } else {
            prev
        }
    }
}

/// The rows that deduplication keeps, in order.
pub open spec fn dedup_spec(rows: Seq<Seq<ValueV>>, cols: Seq<usize>) -> Seq<Seq<ValueV>> {
    kept_positions(rows, cols, rows.len()).map_values(|i: int| rows[i])
}

/// The views of a list of rows.
pub open spec fn rows_view(rows: Seq<Vec<Value>>) -> Seq<Seq<ValueV>> {
    rows.map_values(|r: Vec<Value>| row_view(r@))
}

/// Whether two cells are equal.
pub fn values_equal(a: &Value, b: &Value) -> (r: bool)
    ensures
        r == (a@ == b@),
{
    match (a, b) {
        (Value::Null, Value::Null) => true,
        (Value::Int(x), Value::Int(y)) => *x == *y,
        (Value::UInt(x), Value::UInt(y)) => *x == *y,
        (Value::Decimal(x), Value::Decimal(y)) => *x == *y,
        (Value::Float(x), Value::Float(y)) => *x == *y,
        (Value::Timestamp(x), Value::Timestamp(y)) => *x == *y,
        (Value::String(x), Value::String(y)) => *x == *y,
        (Value::Bytes(x), Value::Bytes(y)) => {
            if x.len() != y.len() {
                return false;
            }
            let mut i: usize = 0;
            while i < x.len()
                invariant
                    i <= x.len(),
                    x.len() == y.len(),
                    a@ == ValueV::Bytes(x@),
                    b@ == ValueV::Bytes(y@),
                    forall|k: int| 0 <= k < i ==> x@[k] == y@[k],
                decreases x.len() - i,
            {
                if x[i] != y[i] {
                    assert(x@[i as int] != y@[i as int]);
                    return false;
                }
                i += 1;
            }
            assert(x@ =~= y@);
            true
        },
        (Value::Boolean(x), Value::Boolean(y)) => *x == *y,
        _ => false,
    }
}

/// Whether two rows have the same unique key.
fn same_key(a: &Vec<Value>, b: &Vec<Value>, cols: &Vec<usize>) -> (r: bool)
    requires
        forall|k: int| 0 <= k < cols.len() ==> #[trigger] cols@[k] < a.len() && cols@[k] < b.len(),
    ensures
        r == (key_of(row_view(a@), cols@) == key_of(row_view(b@), cols@)),
{
    let mut k: usize = 0;
    while k < cols.len()
        invariant
            k <= cols.len(),
            forall|q: int| 0 <= q < cols.len() ==> #[trigger] cols@[q] < a.len() && cols@[q] < b.len(),
            forall|q: int| 0 <= q < k ==> key_of(row_view(a@), cols@)[q] == key_of(row_view(b@), cols@)[q],
        decreases cols.len() - k,
    {
        if !values_equal(&a[cols[k]], &b[cols[k]]) {
            assert(key_of(row_view(a@), cols@)[k as int] != key_of(row_view(b@), cols@)[k as int]);
            return false;
        }
        k += 1;
    }
    assert(key_of(row_view(a@), cols@) =~= key_of(row_view(b@), cols@));
    true
}

/// Keeps the last row of each run of rows with equal key columns; the input
/// is expected in an order where rows with equal key are adjacent.
pub fn last_row_by_unique_key(rows: &Vec<Vec<Value>>, key_columns: &Vec<usize>) -> (r: Vec<Vec<Value>>)
    requires
        forall|i: int, k: int| 0 <= i < rows.len() && 0 <= k < key_columns.len() ==> #[trigger] key_columns@[k] < (#[trigger] rows@[i]).len(),
    ensures
        rows_view(r@) == dedup_spec(rows_view(rows@), key_columns@),
{
    let ghost rv = rows_view(rows@);
    let mut out: Vec<Vec<Value>> = Vec::new();
    let mut i: usize = 0;
    while i < rows.len()
        invariant
            i <= rows.len(),
            rv == rows_view(rows@),
            forall|a: int, k: int| 0 <= a < rows.len() && 0 <= k < key_columns.len() ==> #[trigger] key_columns@[k] < (#[trigger] rows@[a]).len(),
            rows_view(out@) == kept_positions(rv, key_columns@, i as nat).map_values(|q: int| rv[q]),
        decreases rows.len() - i,
    {
        let last = if i + 1 == rows.len() {
            true
        } else {
            assert forall|k: int| 0 <= k < key_columns.len() implies #[trigger] key_columns@[k] < rows@[i as int].len() && key_columns@[k] < rows@[i + 1].len() by {
                assert(key_columns@[k] < rows@[i as int].len());
                assert(key_columns@[k] < rows@[i + 1].len());
            }
            !same_key(&rows[i], &rows[i + 1], key_columns)
        };
        assert(rv[i as int] == row_view(rows@[i as int]@));
        if i + 1 < rows.len() {
            assert(rv[i + 1] == row_view(rows@[i + 1]@));
        }
        assert(last == last_of_run(rv, key_columns@, i as int));
        let ghost kp = kept_positions(rv, key_columns@, i as nat);
        if last {
            let ghost prev = rows_view(out@);
            let c = crate::model::copy_row(&rows[i]);
            out.push(c);
            assert(rows_view(out@) =~= prev.push(rv[i as int]));
            assert(kp.push(i as int).map_values(|q: int| rv[q]) =~= kp.map_values(|q: int| rv[q]).push(rv[i as int]));
        }
        i += 1;
    }
    out
}

proof fn lemma_kept_positions(rows: Seq<Seq<ValueV>>, cols: Seq<usize>, n: nat)
    requires
        n <= rows.len(),
    ensures
        forall|a: int, b: int| 0 <= a < b < kept_positions(rows, cols, n).len() ==> kept_positions(rows, cols, n)[a] < kept_positions(rows, cols, n)[b],
        forall|a: int| 0 <= a < kept_positions(rows, cols, n).len() ==> 0 <= #[trigger] kept_positions(rows, cols, n)[a] < n
            && last_of_run(rows, cols, kept_positions(rows, cols, n)[a]),
        forall|i: int| 0 <= i < n && last_of_run(rows, cols, i) ==> #[trigger] kept_positions(rows, cols, n).contains(i),
    decreases n,
{
    if n > 0 {
        lemma_kept_positions(rows, cols, (n - 1) as nat);
        let prev = kept_positions(rows, cols, (n - 1) as nat);
        assert forall|i: int| 0 <= i < n && last_of_run(rows, cols, i) implies #[trigger] kept_positions(rows, cols, n).contains(i) by {
            if i < n - 1 {
                assert(prev.contains(i));
                let q = choose|q: int| 0 <= q < prev.len() && prev[q] == i;
                if last_of_run(rows, cols, n - 1) {
                    assert(prev.push(n - 1)[q] == i);
                }
            } else {
                assert(prev.push(n - 1)[prev.len() as int] == i);
            }
        }
    }
}

/// Rows with equal key are adjacent.
pub open spec fn keys_grouped(rows: Seq<Seq<ValueV>>, cols: Seq<usize>) -> bool {
    forall|i: int, j: int, k: int|
        #![trigger key_of(rows[i], cols), key_of(rows[j], cols), key_of(rows[k], cols)]
        0 <= i < j < k < rows.len() && key_of(rows[i], cols) == key_of(rows[k], cols) ==> key_of(rows[j], cols) == key_of(rows[i], cols)
}

/// The number in a sequence cell.
pub open spec fn seq_number(v: ValueV) -> int {
    match v {
        ValueV::Int(x) => x as int,
        ValueV::UInt(x) => x as int,
        ValueV::Timestamp(x) => x as int,
        _ => 0,
    }
}

proof fn lemma_run_end(rows: Seq<Seq<ValueV>>, cols: Seq<usize>, i: int) -> (j: int)
    requires
        0 <= i < rows.len(),
    ensures
        i <= j < rows.len(),
        last_of_run(rows, cols, j),
        forall|m: int| i <= m <= j ==> #[trigger] key_of(rows[m], cols) == key_of(rows[i], cols),
    decreases rows.len() - i,
{
    if last_of_run(rows, cols, i) {
        i
    } else {
        let j = lemma_run_end(rows, cols, i + 1);
        j
    }
}

proof fn lemma_no_other_end(rows: Seq<Seq<ValueV>>, cols: Seq<usize>, i: int, j: int, m: int)
    requires
        keys_grouped(rows, cols),
        0 <= i <= j < rows.len(),
        last_of_run(rows, cols, j),
        forall|q: int| i <= q <= j ==> #[trigger] key_of(rows[q], cols) == key_of(rows[i], cols),
        0 <= m < rows.len(),
        key_of(rows[m], cols) == key_of(rows[i], cols),
    ensures
        m <= j,
        last_of_run(rows, cols, m) ==> m == j,
{
    if m > j {
        if j + 1 < m {
            assert(key_of(rows[j + 1], cols) == key_of(rows[j], cols));
        }
    }
    if last_of_run(rows, cols, m) && m < j {
        if m < i {
            if m + 1 < j {
                assert(key_of(rows[m + 1], cols) == key_of(rows[m], cols));
            }
        } else {
            assert(key_of(rows[m + 1], cols) == key_of(rows[i], cols));
        }
    }
}

/// Row `p` of the deduplicated rows has key `u`, no other has, and no row of
/// key `u` has a larger sequence number.
pub open spec fn kept_row(rows: Seq<Seq<ValueV>>, cols: Seq<usize>, seq_col: int, u: Seq<ValueV>, p: int) -> bool {
    let out = dedup_spec(rows, cols);
    &&& 0 <= p < out.len()
    &&& key_of(out[p], cols) == u
    &&& forall|p2: int| 0 <= p2 < out.len() && key_of(#[trigger] out[p2], cols) == u ==> p2 == p
    &&& forall|k: int| 0 <= k < rows.len() && key_of(#[trigger] rows[k], cols) == u ==> seq_number(rows[k][seq_col]) <= seq_number(out[p][seq_col])
}

/// Exactly one deduplicated row has key `u`, with the largest sequence number
/// of its key.
pub open spec fn kept_once(rows: Seq<Seq<ValueV>>, cols: Seq<usize>, seq_col: int, u: Seq<ValueV>) -> bool {
    exists|p: int| kept_row(rows, cols, seq_col, u, p)
}

/// Last-write-wins: where rows with equal key are adjacent and their sequence
/// numbers do not decrease, deduplication keeps, for every key present,
/// exactly one row, and that row has the largest sequence number of its key.
pub proof fn lemma_dedup_keeps_last_write(rows: Seq<Seq<ValueV>>, cols: Seq<usize>, seq_col: int)
    requires
        keys_grouped(rows, cols),
        forall|i: int, j: int| 0 <= i < j < rows.len() && key_of(rows[i], cols) == key_of(rows[j], cols)
            ==> seq_number(#[trigger] rows[i][seq_col]) <= seq_number(#[trigger] rows[j][seq_col]),
    ensures
        forall|i: int| 0 <= i < rows.len() ==> #[trigger] kept_once(rows, cols, seq_col, key_of(rows[i], cols)),
{
    let kp = kept_positions(rows, cols, rows.len());
    lemma_kept_positions(rows, cols, rows.len());
    let out = dedup_spec(rows, cols);
    assert forall|i: int| 0 <= i < rows.len() implies #[trigger] kept_once(rows, cols, seq_col, key_of(rows[i], cols)) by {
        let j = lemma_run_end(rows, cols, i);
        assert(kp.contains(j));
        let p = choose|p: int| 0 <= p < kp.len() && kp[p] == j;
        assert(out[p] == rows[j]);
        assert forall|p2: int| 0 <= p2 < out.len() && key_of(out[p2], cols) == key_of(rows[i], cols) implies p2 == p by {
            let m = kp[p2];
            assert(out[p2] == rows[m]);
            lemma_no_other_end(rows, cols, i, j, m);
            if p2 < p {
                assert(kp[p2] < kp[p]);
            } else if p2 > p {
                assert(kp[p] < kp[p2]);
            }
        }
        assert forall|k: int| 0 <= k < rows.len() && key_of(rows[k], cols) == key_of(rows[i], cols) implies seq_number(rows[k][seq_col]) <= seq_number(out[p][seq_col]) by {
            lemma_no_other_end(rows, cols, i, j, k);
            if k < j {
                assert(key_of(rows[k], cols) == key_of(rows[j], cols));
            }
        }
        assert(kept_row(rows, cols, seq_col, key_of(rows[i], cols), p));
    }
}

} // verus!

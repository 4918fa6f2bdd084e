use cubestore_exec::dedup::last_row_by_unique_key;
use cubestore_exec::merge::{merge_sorted, merge_two, row_less, value_less};
use cubestore_exec::model::Value;

fn row(k: i64, s: i64) -> Vec<Value> {
    vec![Value::Int(k), Value::Int(s)]
}

fn pairs(rows: &Vec<Vec<Value>>) -> Vec<(i64, i64)> {
    rows.iter()
        .map(|r| match (&r[0], &r[1]) {
            (Value::Int(a), Value::Int(b)) => (*a, *b),
            _ => panic!("not integers"),
        })
        .collect()
}

#[test]
fn dedup_after_merge_keeps_last_write() {
    let partition = vec![row(1, 1), row(1, 2), row(2, 1)];
    let chunk = vec![row(1, 3)];
    let merged = merge_sorted(&vec![partition, chunk], &vec![0]);
    assert_eq!(pairs(&merged), vec![(1, 1), (1, 2), (1, 3), (2, 1)]);
    let out = last_row_by_unique_key(&merged, &vec![0]);
    assert_eq!(pairs(&out), vec![(1, 3), (2, 1)]);
}

#[test]
fn merge_is_sorted_and_stable() {
    let a = vec![row(1, 0), row(3, 0), row(5, 0)];
    let b = vec![row(1, 1), row(2, 1), row(6, 1)];
    let c = vec![row(4, 2)];
    let m = merge_sorted(&vec![a, b, c], &vec![0]);
    assert_eq!(pairs(&m), vec![(1, 0), (1, 1), (2, 1), (3, 0), (4, 2), (5, 0), (6, 1)]);
    assert!(merge_sorted(&vec![], &vec![0]).is_empty());
    assert_eq!(pairs(&merge_two(&vec![], &vec![row(1, 1)], &vec![0])), vec![(1, 1)]);
}

#[test]
fn cell_order() {
    assert!(value_less(&Value::Null, &Value::Int(-5)));
    assert!(value_less(&Value::Int(-5), &Value::Int(3)));
    assert!(!value_less(&Value::Int(3), &Value::Int(3)));
    assert!(value_less(&Value::Float((-1.5f64).to_bits()), &Value::Float(0.5f64.to_bits())));
    assert!(value_less(&Value::Float((-2.0f64).to_bits()), &Value::Float((-1.0f64).to_bits())));
    assert!(!value_less(&Value::Float(2.0f64.to_bits()), &Value::Float(1.0f64.to_bits())));
    assert!(value_less(&Value::String("ab".to_string()), &Value::String("b".to_string())));
    assert!(value_less(&Value::Bytes(vec![1, 2]), &Value::Bytes(vec![1, 3])));
    assert!(value_less(&Value::Boolean(false), &Value::Boolean(true)));
    assert!(row_less(&row(1, 9), &row(2, 0), &vec![0, 1]));
    assert!(row_less(&row(1, 0), &row(1, 9), &vec![0, 1]));
    assert!(!row_less(&row(1, 0), &row(1, 9), &vec![0]));
}

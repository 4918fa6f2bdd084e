use cubestore_exec::batch::{regroup_batches, slice_copy, ColumnBatch};
use cubestore_exec::codec::SerializedRecordBatchStream;
use cubestore_exec::dedup::last_row_by_unique_key;
use cubestore_exec::dataframe::{arrow_to_column_type, batch_to_dataframe};
use cubestore_exec::error::CubeError;
use cubestore_exec::executor::QueryExecutorImpl;
use cubestore_exec::model::{ColumnType, DataType, Field, BatchSchema, TimeUnit, Value};

fn int_batch(name: &str, values: Vec<i64>) -> ColumnBatch {
    let n = values.len();
    ColumnBatch {
        schema: BatchSchema { fields: vec![Field { name: name.to_string(), data_type: DataType::Int64, nullable: true }] },
        columns: vec![values.into_iter().map(Value::Int).collect()],
        num_rows: n,
    }
}

fn ints(b: &ColumnBatch) -> Vec<i64> {
    b.columns[0]
        .iter()
        .map(|v| match v {
            Value::Int(x) => *x,
            _ => panic!("not an integer"),
        })
        .collect()
}

#[test]
fn regroup_never_merges_across_batches() {
    let out = regroup_batches(&vec![int_batch("a", (0..7).collect()), int_batch("a", (7..10).collect())], 4);
    let sizes: Vec<usize> = out.iter().map(|b| b.num_rows).collect();
    assert_eq!(sizes, vec![4, 3, 3]);
    let all: Vec<i64> = out.iter().flat_map(ints).collect();
    assert_eq!(all, (0..10).collect::<Vec<_>>());
    assert!(out.iter().all(|b| b.schema.fields[0].name == "a"));
}

#[test]
fn regroup_keeps_rows_and_bounds_sizes() {
    let out = regroup_batches(&vec![int_batch("a", vec![]), int_batch("a", (0..5).collect())], 1);
    assert_eq!(out.len(), 5);
    assert!(out.iter().all(|b| b.num_rows == 1));
    assert_eq!(out.iter().flat_map(ints).collect::<Vec<_>>(), vec![0, 1, 2, 3, 4]);
    assert!(regroup_batches(&vec![], 3).is_empty());
}

#[test]
fn slice_copy_takes_the_range() {
    let col: Vec<Value> = (0..6).map(Value::Int).collect();
    let s = slice_copy(&col, 2, 3);
    assert_eq!(s.len(), 3);
    assert!(matches!(s[0], Value::Int(2)));
    assert!(matches!(s[2], Value::Int(4)));
}

#[test]
fn column_types_of_columnar_types() {
    assert_eq!(arrow_to_column_type(DataType::Int8), Ok(ColumnType::Int));
    assert_eq!(arrow_to_column_type(DataType::UInt64), Ok(ColumnType::Int));
    assert_eq!(arrow_to_column_type(DataType::Float16), Ok(ColumnType::Float));
    assert_eq!(arrow_to_column_type(DataType::LargeUtf8), Ok(ColumnType::String));
    assert_eq!(arrow_to_column_type(DataType::Binary), Ok(ColumnType::Bytes));
    assert_eq!(arrow_to_column_type(DataType::Timestamp(TimeUnit::Second, true)), Ok(ColumnType::Timestamp));
    assert_eq!(arrow_to_column_type(DataType::Int64Decimal(5)), Ok(ColumnType::Decimal { scale: 5, precision: 18 }));
    assert_eq!(arrow_to_column_type(DataType::Boolean), Ok(ColumnType::Boolean));
    assert_eq!(arrow_to_column_type(DataType::Float32), Err(CubeError::UnsupportedType));
    assert_eq!(arrow_to_column_type(DataType::Date32), Err(CubeError::UnsupportedType));
}

#[test]
fn rows_of_batches() {
    let b = ColumnBatch {
        schema: BatchSchema {
            fields: vec![
                Field { name: "u".to_string(), data_type: DataType::UInt64, nullable: true },
                Field { name: "t".to_string(), data_type: DataType::Timestamp(TimeUnit::Microsecond, false), nullable: true },
                Field { name: "s".to_string(), data_type: DataType::Utf8, nullable: true },
            ],
        },
        columns: vec![
            vec![Value::UInt(u64::MAX), Value::Null],
            vec![Value::Timestamp(5), Value::Timestamp(-2)],
            vec![Value::String("x".to_string()), Value::Null],
        ],
        num_rows: 2,
    };
    let df = batch_to_dataframe(&vec![b]).unwrap();
    assert_eq!(df.columns.len(), 3);
    assert_eq!(df.columns[1].name, "t");
    assert_eq!(df.columns[1].column_type, ColumnType::Timestamp);
    assert_eq!(df.columns[2].index, 2);
    assert_eq!(df.rows.len(), 2);
    assert!(matches!(df.rows[0][0], Value::Int(-1)));
    assert!(matches!(df.rows[0][1], Value::Timestamp(5000)));
    assert!(matches!(&df.rows[0][2], Value::String(s) if s == "x"));
    assert!(matches!(df.rows[1][0], Value::Null));
    assert!(matches!(df.rows[1][1], Value::Timestamp(-2000)));
}

#[test]
fn rows_of_unsupported_type_fail() {
    let b = ColumnBatch {
        schema: BatchSchema { fields: vec![Field { name: "f".to_string(), data_type: DataType::Float32, nullable: true }] },
        columns: vec![vec![Value::Float(0)]],
        num_rows: 1,
    };
    assert_eq!(batch_to_dataframe(&vec![b]).err(), Some(CubeError::UnsupportedType));
    let bad = ColumnBatch {
        schema: BatchSchema { fields: vec![Field { name: "i".to_string(), data_type: DataType::Int64, nullable: true }] },
        columns: vec![vec![Value::Boolean(true)]],
        num_rows: 1,
    };
    assert_eq!(batch_to_dataframe(&vec![bad]).err(), Some(CubeError::BadCell));
    let big = ColumnBatch {
        schema: BatchSchema { fields: vec![Field { name: "t".to_string(), data_type: DataType::Timestamp(TimeUnit::Microsecond, false), nullable: true }] },
        columns: vec![vec![Value::Timestamp(i64::MAX)]],
        num_rows: 1,
    };
    assert_eq!(batch_to_dataframe(&vec![big]).err(), Some(CubeError::BadCell));
    let empty = batch_to_dataframe(&vec![]).unwrap();
    assert!(empty.columns.is_empty() && empty.rows.is_empty());
}

#[test]
fn single_batch_of_a_blob() {
    assert_eq!(SerializedRecordBatchStream::single_batch(Vec::<u8>::new()), Err(CubeError::ZeroBatches));
    assert_eq!(SerializedRecordBatchStream::single_batch(vec![1u8, 2]), Err(CubeError::ManyBatches));
    assert_eq!(SerializedRecordBatchStream::single_batch(vec![7u8]), Ok(7));
    let s = SerializedRecordBatchStream::new(vec![1, 2]);
    assert_eq!(s.record_batch_file, vec![1, 2]);
}

#[test]
fn worker_results_are_regrouped() {
    let e = QueryExecutorImpl;
    assert_eq!(e.worker_results(None, &vec![]).err(), Some(CubeError::NoWorkerMarker));
    let out = e.worker_results(Some(1024), &vec![int_batch("a", (0..3000).collect())]).unwrap();
    assert_eq!(out.iter().map(|b| b.num_rows).collect::<Vec<_>>(), vec![1024, 1024, 952]);
    assert_eq!(e.context_config(), (4096, 1));
    assert!(e.is_slow_query(201));
    assert!(!e.is_slow_query(200));
}

#[test]
fn dedup_keeps_last_write_per_key() {
    let row = |k: i64, s: i64| vec![Value::Int(k), Value::Int(s)];
    let merged = vec![row(1, 1), row(1, 2), row(1, 3), row(2, 1)];
    let out = last_row_by_unique_key(&merged, &vec![0]);
    assert_eq!(out.len(), 2);
    assert!(matches!(out[0][..], [Value::Int(1), Value::Int(3)]));
    assert!(matches!(out[1][..], [Value::Int(2), Value::Int(1)]));
    assert!(last_row_by_unique_key(&vec![], &vec![0]).is_empty());
}

#[test]
fn zoned_timestamps_convert_too() {
    let b = ColumnBatch {
        schema: BatchSchema {
            fields: vec![
                Field { name: "t".to_string(), data_type: DataType::Timestamp(TimeUnit::Microsecond, true), nullable: true },
                Field { name: "n".to_string(), data_type: DataType::Timestamp(TimeUnit::Nanosecond, true), nullable: true },
            ],
        },
        columns: vec![vec![Value::Timestamp(7)], vec![Value::Timestamp(9)]],
        num_rows: 1,
    };
    let df = batch_to_dataframe(&vec![b]).unwrap();
    assert!(matches!(df.rows[0][0], Value::Timestamp(7000)));
    assert!(matches!(df.rows[0][1], Value::Timestamp(9)));
}

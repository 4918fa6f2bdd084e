use cubestore_exec::batch::ColumnBatch;
use cubestore_exec::error::CubeError;
use cubestore_exec::model::{
    Chunk, ColumnDef, ColumnType, DataType, IndexDef, IndexSnapshot, Partition, PartitionSnapshot, RowFilter, RowRange,
    BatchSchema, TableDef,
};
use cubestore_exec::scan::{combine_filters, expand_projection, sort_positions, CubeTable, CubeTableExec, ExecNode, Expr, FilterPushDown};

fn col(name: &str, t: ColumnType) -> ColumnDef {
    ColumnDef { name: name.to_string(), column_type: t }
}

fn table(unique: bool, sort_on: Option<Vec<&str>>, chunks: Vec<Chunk>) -> IndexSnapshot {
    IndexSnapshot {
        table: TableDef {
            columns: vec![col("k", ColumnType::Int), col("v", ColumnType::String), col("s", ColumnType::Int)],
            unique_key: if unique { Some(vec![0]) } else { None },
            seq_column: if unique { Some(2) } else { None },
        },
        index: IndexDef { columns: vec!["k".to_string(), "s".to_string(), "v".to_string()], sort_key_size: 2 },
        partitions: vec![
            PartitionSnapshot {
                partition: Partition { id: 1, multi_partition_id: None, min_val: None, max_val: None, file_name: Some("1.parquet".to_string()) },
                chunks,
            },
            PartitionSnapshot {
                partition: Partition { id: 2, multi_partition_id: None, min_val: None, max_val: None, file_name: Some("2.parquet".to_string()) },
                chunks: vec![],
            },
        ],
        sort_on: sort_on.map(|v| v.into_iter().map(|s| s.to_string()).collect()),
    }
}

fn worker(snapshot: IndexSnapshot, batches: Vec<(u64, Vec<ColumnBatch>)>) -> CubeTable {
    let batches: std::collections::HashMap<u64, Vec<ColumnBatch>> = batches.into_iter().collect();
    let t = CubeTable::try_new(snapshot, vec![], vec![]).unwrap();
    t.to_worker_table(
        vec![("1.parquet".to_string(), "/tmp/1.parquet".to_string()), ("c9.parquet".to_string(), "/tmp/c9.parquet".to_string())],
        vec![(1, RowFilter { or_filters: vec![RowRange::default()] })],
        batches,
    )
}

fn readers(n: &ExecNode) -> &CubeTableExec {
    match n {
        ExecNode::Table(e) => e,
        ExecNode::MergeSort { input, .. } | ExecNode::Merge { input } | ExecNode::LastRowByUniqueKey { input, .. } | ExecNode::Projection { input, .. } => readers(input),
        _ => panic!("no readers"),
    }
}

#[test]
fn unique_key_scan_sorts_dedups_and_projects() {
    let chunk = Chunk { id: 9, in_memory: true, file_name: "c9.parquet".to_string() };
    let b = ColumnBatch { schema: BatchSchema { fields: vec![] }, columns: vec![], num_rows: 0 };
    let t = worker(table(true, None, vec![chunk]), vec![(9, vec![b])]);
    let plan = t.scan(&Some(vec![1]), 4096, &vec![]).unwrap();
    match &plan {
        ExecNode::Projection { input, columns } => {
            assert_eq!(columns, &vec![0]);
            match &**input {
                ExecNode::LastRowByUniqueKey { input, columns } => {
                    assert_eq!(columns, &vec![1]);
                    match &**input {
                        ExecNode::MergeSort { columns, .. } => assert_eq!(columns, &vec![1, 2]),
                        _ => panic!("expected a sorted merge"),
                    }
                }
                _ => panic!("expected deduplication"),
            }
        }
        _ => panic!("expected a projection"),
    }
    let r = readers(&plan);
    assert_eq!(r.partition_execs.len(), 2);
    let names: Vec<&str> = r.schema.fields.iter().map(|f| f.name.as_str()).collect();
    assert_eq!(names, vec!["v", "k", "s"]);
    assert_eq!(r.schema.fields[0].data_type, DataType::Utf8);
    assert_eq!(r.output_hints(), Some(vec![1, 2]));
    match &r.partition_execs[0] {
        ExecNode::Projection { input, columns } => {
            assert_eq!(columns, &vec![2, 0, 1]);
            match &**input {
                ExecNode::FilterByKeyRange { input, key_len, .. } => {
                    assert_eq!(*key_len, 2);
                    match &**input {
                        ExecNode::ParquetScan { path, projection, batch_size, .. } => {
                            assert_eq!(path, "/tmp/1.parquet");
                            assert_eq!(projection, &Some(vec![0, 1, 2]));
                            assert_eq!(*batch_size, 4096);
                        }
                        _ => panic!("expected a file reader"),
                    }
                }
                _ => panic!("expected a key-range filter"),
            }
        }
        _ => panic!("expected a reordering projection"),
    }
}

#[test]
fn sort_on_scan_merges_sorted() {
    let t = worker(table(false, Some(vec!["v"]), vec![]), vec![]);
    let plan = t.scan(&None, 100, &vec![Expr::Predicate("k > 1".to_string())]).unwrap();
    match &plan {
        ExecNode::MergeSort { columns, .. } => assert_eq!(columns, &vec![1]),
        _ => panic!("expected a sorted merge"),
    }
    let r = readers(&plan);
    assert_eq!(r.partition_execs.len(), 1);
    assert_eq!(r.output_hints(), Some(vec![1]));
    assert!(matches!(&r.filter, Some(Expr::Predicate(p)) if p == "k > 1"));
}

#[test]
fn plain_scan_merges_and_empty_scan_has_one_child() {
    let t = CubeTable::try_new(table(false, None, vec![]), vec![], vec![]).unwrap();
    let plan = t.scan(&None, 100, &vec![]).unwrap();
    match &plan {
        ExecNode::Merge { input } => match &**input {
            ExecNode::Table(e) => {
                assert_eq!(e.partition_execs.len(), 1);
                assert!(matches!(e.partition_execs[0], ExecNode::Empty));
                assert_eq!(e.output_hints(), Some(vec![0, 2]));
            }
            _ => panic!("expected readers"),
        },
        _ => panic!("expected a merge"),
    }
}

#[test]
fn scan_errors() {
    let chunk = Chunk { id: 9, in_memory: true, file_name: "c9.parquet".to_string() };
    let t = worker(table(false, None, vec![chunk]), vec![]);
    assert_eq!(t.scan(&None, 1, &vec![]).err(), Some(CubeError::MissingChunkBatches));
    let chunk = Chunk { id: 9, in_memory: true, file_name: "c9.parquet".to_string() };
    let t = worker(table(false, None, vec![chunk]), vec![(9, vec![])]);
    assert_eq!(t.scan(&None, 1, &vec![]).err(), Some(CubeError::EmptyChunkBatches));
    let chunk = Chunk { id: 9, in_memory: false, file_name: "missing.parquet".to_string() };
    let t = worker(table(false, None, vec![chunk]), vec![]);
    assert_eq!(t.scan(&None, 1, &vec![]).err(), Some(CubeError::MissingRemotePath));
    let mut snap = table(false, None, vec![]);
    snap.index.columns = vec!["k".to_string()];
    let t = worker(snap, vec![]);
    assert_eq!(t.scan(&Some(vec![1]), 1, &vec![]).err(), Some(CubeError::ColumnNotFound));
    let mut snap = table(false, None, vec![]);
    snap.table.columns[0].column_type = ColumnType::Decimal { scale: 300, precision: 18 };
    let t = CubeTable::try_new(snap, vec![], vec![]).unwrap();
    assert_eq!(t.schema.fields[0].data_type, DataType::Int64Decimal(300));
}

#[test]
fn projection_helpers() {
    assert_eq!(expand_projection(&vec![1], &vec![0, 2, 1]), vec![1, 0, 2]);
    assert_eq!(sort_positions(&vec![2, 0, 2, 1], 3), vec![0, 1, 2, 2]);
    let f = combine_filters(&vec![Expr::Predicate("a".to_string()), Expr::Predicate("b".to_string()), Expr::Predicate("c".to_string())]);
    match f {
        Some(Expr::And(l, r)) => {
            assert!(matches!(*r, Expr::Predicate(ref s) if s == "c"));
            assert!(matches!(*l, Expr::And(_, _)));
        }
        _ => panic!("expected a conjunction"),
    }
    assert!(combine_filters(&vec![]).is_none());
    let snap = table(true, None, vec![]);
    let pos = CubeTable::project_to_index_positions(&vec![col("v", ColumnType::String), col("x", ColumnType::Int)], &snap.index);
    assert_eq!(pos, vec![Some(2), None]);
    let cols = CubeTable::project_to_table(&snap.table, &vec![2, 0]);
    assert_eq!(cols.iter().map(|c| c.name.as_str()).collect::<Vec<_>>(), vec!["s", "k"]);
}

#[test]
fn filters_are_pushed_down_inexactly() {
    let t = CubeTable::try_new(table(false, None, vec![]), vec![], vec![]).unwrap();
    assert_eq!(t.supports_filter_pushdown(&Expr::Predicate("k = 1".to_string())), FilterPushDown::Inexact);
}

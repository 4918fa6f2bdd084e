use std::collections::HashMap;
use cubestore_exec::cluster_send::{partition_filters, ClusterSendExec};
use cubestore_exec::distribute::{assign_nodes, issue_filters, pick_node};
use cubestore_exec::logical::{logical_input_valid, logical_partitions};
use cubestore_exec::model::{
    ColumnDef, ColumnType, IndexDef, IndexSnapshot, MultiPartition, Partition, PartitionSnapshot, RowFilter, RowRange,
    BatchSchema, SerializedPlan, TableDef, Value,
};
use cubestore_exec::names::{hash_ids, name_lt, pick_worker_by_ids, WorkerConfig};

fn part(id: u64, multi: Option<u64>, min: Option<i64>, max: Option<i64>) -> Partition {
    Partition {
        id,
        multi_partition_id: multi,
        min_val: min.map(|v| vec![Value::Int(v)]),
        max_val: max.map(|v| vec![Value::Int(v)]),
        file_name: Some(format!("{}.parquet", id)),
    }
}

fn snapshot(parts: Vec<Partition>) -> IndexSnapshot {
    IndexSnapshot {
        table: TableDef {
            columns: vec![ColumnDef { name: "k".to_string(), column_type: ColumnType::Int }],
            unique_key: None,
            seq_column: None,
        },
        index: IndexDef { columns: vec!["k".to_string()], sort_key_size: 1 },
        partitions: parts.into_iter().map(|partition| PartitionSnapshot { partition, chunks: vec![] }).collect(),
        sort_on: None,
    }
}

fn two_workers() -> WorkerConfig {
    WorkerConfig { server_name: "router".to_string(), select_workers: vec!["w1".to_string(), "w2".to_string()] }
}

fn ids(l: &Vec<Vec<Partition>>) -> Vec<Vec<u64>> {
    l.iter().map(|ps| ps.iter().map(|p| p.id).collect()).collect()
}

fn is_full(r: &RowRange) -> bool {
    r.start.is_none() && r.end.is_none()
}

fn int_bound(b: &Option<Vec<Value>>) -> Option<i64> {
    b.as_ref().map(|row| match row[0] {
        Value::Int(v) => v,
        _ => panic!("not an integer key"),
    })
}

#[test]
fn ordinary_scan_single_partition() {
    let snaps = vec![vec![snapshot(vec![part(1, None, None, None)])]];
    let l = logical_partitions(&snaps, &HashMap::new());
    assert_eq!(ids(&l), vec![vec![1]]);
    let f = issue_filters(&l[0]);
    assert_eq!(f.len(), 1);
    assert_eq!(f[0].0, 1);
    assert!(is_full(&f[0].1));
    let c = two_workers();
    let expected = pick_worker_by_ids(&c, &vec![1]);
    assert_eq!(pick_node(&c, &l[0]), expected);
    let w = ClusterSendExec::distribute_to_workers(&c, &snaps, &HashMap::new());
    assert_eq!(w.len(), 1);
    assert_eq!(w[0].0, expected);
    assert_eq!(w[0].1.len(), 1);
    assert_eq!(w[0].1[0].0, 1);
}

#[test]
fn two_unions_ordinary_cartesian_product() {
    let snaps = vec![
        vec![snapshot(vec![part(1, None, None, None), part(2, None, None, None)])],
        vec![snapshot(vec![part(3, None, None, None)])],
    ];
    let l = logical_partitions(&snaps, &HashMap::new());
    assert_eq!(ids(&l), vec![vec![1, 3], vec![2, 3]]);
    for ps in &l {
        let f = issue_filters(ps);
        assert_eq!(f.len(), 2);
        assert!(f.iter().all(|(_, r)| is_full(r)));
    }
}

#[test]
fn coverage_counts_product_of_union_sizes() {
    let snaps = vec![
        vec![snapshot(vec![part(1, None, None, None), part(2, None, None, None)])],
        vec![snapshot(vec![part(3, None, None, None)]), snapshot(vec![part(4, None, None, None), part(5, None, None, None)])],
        vec![snapshot(vec![])],
    ];
    let l = logical_partitions(&snaps, &HashMap::new());
    assert_eq!(l.len(), 6);
    assert_eq!(ids(&l), vec![vec![1, 3], vec![1, 4], vec![1, 5], vec![2, 3], vec![2, 4], vec![2, 5]]);
}

#[test]
fn no_partitions_no_logical_partitions() {
    let snaps = vec![vec![snapshot(vec![])]];
    assert!(logical_partitions(&snaps, &HashMap::new()).is_empty());
}

fn forest(nodes: Vec<MultiPartition>) -> HashMap<u64, MultiPartition> {
    nodes.into_iter().map(|n| (n.id, n)).collect()
}

fn two_level_tree() -> HashMap<u64, MultiPartition> {
    forest(vec![
        MultiPartition { id: 10, parent: None },
        MultiPartition { id: 20, parent: Some(10) },
        MultiPartition { id: 30, parent: Some(10) },
    ])
}

#[test]
fn multi_two_level_tree() {
    let snaps = vec![vec![snapshot(vec![
        part(1, Some(20), Some(0), Some(5)),
        part(2, Some(30), Some(5), Some(10)),
        part(3, Some(10), Some(0), Some(10)),
    ])]];
    let l = logical_partitions(&snaps, &two_level_tree());
    assert_eq!(ids(&l), vec![vec![1, 3], vec![2, 3]]);
    let f20 = issue_filters(&l[0]);
    assert_eq!(f20[0].0, 1);
    assert!(is_full(&f20[0].1));
    assert_eq!(f20[1].0, 3);
    assert_eq!(int_bound(&f20[1].1.start), Some(0));
    assert_eq!(int_bound(&f20[1].1.end), Some(5));
    let f30 = issue_filters(&l[1]);
    assert_eq!(f30[0].0, 2);
    assert!(is_full(&f30[0].1));
    assert_eq!(f30[1].0, 3);
    assert_eq!(int_bound(&f30[1].1.start), Some(5));
    assert_eq!(int_bound(&f30[1].1.end), Some(10));
}

#[test]
fn multi_routes_by_multi_partition_id() {
    let snaps = vec![vec![snapshot(vec![
        part(1, Some(20), Some(0), Some(5)),
        part(2, Some(30), Some(5), Some(10)),
        part(3, Some(10), Some(0), Some(10)),
    ])]];
    let c = two_workers();
    let l = logical_partitions(&snaps, &two_level_tree());
    assert_eq!(pick_node(&c, &l[0]), pick_worker_by_ids(&c, &vec![20]));
    assert_eq!(pick_node(&c, &l[1]), pick_worker_by_ids(&c, &vec![30]));
}

#[test]
fn multi_ancestor_rows_read_by_exactly_one_leaf() {
    let snaps = vec![vec![snapshot(vec![
        part(1, Some(20), Some(0), Some(5)),
        part(2, Some(30), Some(5), Some(10)),
        part(3, Some(10), Some(0), Some(10)),
    ])]];
    let l = logical_partitions(&snaps, &two_level_tree());
    for key in 0..10i64 {
        let mut readers = 0;
        for ps in &l {
            for (id, r) in issue_filters(ps) {
                if id != 3 {
                    continue;
                }
                let lo = int_bound(&r.start).map_or(true, |s| s <= key);
                let hi = int_bound(&r.end).map_or(true, |e| key < e);
                if lo && hi {
                    readers += 1;
                }
            }
        }
        assert_eq!(readers, 1, "key {}", key);
    }
}

#[test]
fn assignment_is_sorted_and_deterministic() {
    let c = WorkerConfig {
        server_name: "router".to_string(),
        select_workers: vec!["wb".to_string(), "wa".to_string(), "wc".to_string()],
    };
    let snaps = vec![vec![snapshot((1..=12).map(|i| part(i, None, None, None)).collect())]];
    let l = logical_partitions(&snaps, &HashMap::new());
    let a = assign_nodes(&c, &l);
    let b = assign_nodes(&c, &l);
    let names: Vec<String> = a.iter().map(|x| x.0.clone()).collect();
    let mut sorted = names.clone();
    sorted.sort();
    sorted.dedup();
    assert_eq!(names, sorted);
    assert_eq!(names, b.iter().map(|x| x.0.clone()).collect::<Vec<_>>());
    let total: usize = a.iter().map(|x| x.1.len()).sum();
    assert_eq!(total, 12);
    for (w, fs) in &a {
        for (id, _) in fs {
            assert_eq!(pick_worker_by_ids(&c, &vec![*id]), *w);
        }
    }
}

#[test]
fn no_workers_routes_to_server() {
    let c = WorkerConfig { server_name: "router".to_string(), select_workers: vec![] };
    assert_eq!(pick_worker_by_ids(&c, &vec![7, 8]), "router");
}

#[test]
fn hash_of_ids_exact_values() {
    assert_eq!(hash_ids(&vec![]), 0);
    assert_eq!(hash_ids(&vec![1]), 1);
    assert_eq!(hash_ids(&vec![1, 2]), 33);
    assert_eq!(hash_ids(&vec![2147483647]), 0);
}

#[test]
fn names_order_by_code_point() {
    assert!(name_lt(&"a".to_string(), &"b".to_string()));
    assert!(name_lt(&"a".to_string(), &"ab".to_string()));
    assert!(!name_lt(&"b".to_string(), &"ab".to_string()));
    assert!(!name_lt(&"x".to_string(), &"x".to_string()));
}

#[test]
fn router_worker_round_trip_groups_filters() {
    let r = |s: i64, e: i64| RowRange { start: Some(vec![Value::Int(s)]), end: Some(vec![Value::Int(e)]) };
    let exec = ClusterSendExec {
        schema: BatchSchema { fields: vec![] },
        partitions: vec![("w1".to_string(), vec![(2, r(0, 5)), (1, RowRange::default()), (2, r(5, 10))])],
        serialized_plan: SerializedPlan { logical_plan: vec![1, 2, 3], multi_part_subtree: HashMap::new(), partition_ids_to_execute: vec![] },
        use_streaming: false,
    };
    assert_eq!(exec.output_partition_count(), 1);
    let (node, plan) = exec.worker_request(0);
    assert_eq!(node, "w1");
    assert_eq!(plan.logical_plan, vec![1, 2, 3]);
    let ids: Vec<u64> = plan.partition_ids_to_execute.iter().map(|x| x.0).collect();
    assert_eq!(ids, vec![1, 2]);
    assert_eq!(plan.partition_ids_to_execute[0].1.or_filters.len(), 1);
    let f2: &RowFilter = &plan.partition_ids_to_execute[1].1;
    assert_eq!(f2.or_filters.len(), 2);
    assert_eq!(int_bound(&f2.or_filters[0].start), Some(0));
    assert_eq!(int_bound(&f2.or_filters[1].start), Some(5));
}

#[test]
fn partition_filters_sorted_by_id() {
    let g = partition_filters(&vec![(9, RowRange::default()), (3, RowRange::default()), (9, RowRange::default())]);
    let ids: Vec<u64> = g.iter().map(|x| x.0).collect();
    assert_eq!(ids, vec![3, 9]);
    assert_eq!(g[1].1.or_filters.len(), 2);
}

#[test]
fn input_validity_of_regimes_and_forests() {
    let ordinary = vec![vec![snapshot(vec![part(1, None, None, None)])]];
    assert!(logical_input_valid(&ordinary, &HashMap::new()));
    let mixed = vec![vec![snapshot(vec![part(1, None, None, None)])], vec![snapshot(vec![part(2, Some(20), None, None)])]];
    assert!(!logical_input_valid(&mixed, &two_level_tree()));
    let multi = vec![vec![snapshot(vec![part(2, Some(20), Some(0), Some(5)), part(3, Some(10), None, None)])]];
    assert!(logical_input_valid(&multi, &two_level_tree()));
    let unknown = vec![vec![snapshot(vec![part(2, Some(99), None, None)])]];
    assert!(!logical_input_valid(&unknown, &two_level_tree()));
    let cycle = forest(vec![MultiPartition { id: 10, parent: Some(20) }, MultiPartition { id: 20, parent: Some(10) }]);
    assert!(!logical_input_valid(&vec![vec![snapshot(vec![part(2, Some(20), None, None)])]], &cycle));
    let orphan = forest(vec![MultiPartition { id: 20, parent: Some(99) }]);
    assert!(!logical_input_valid(&vec![vec![snapshot(vec![part(2, Some(20), None, None)])]], &orphan));
}

use sled_htap::htap::{Operation, QueryType, TableSchema, WorkloadGenerator};
use sled_htap::htap_columns;
use sled_htap::mixed;
use rand::Rng;

#[test]
fn test_workload_generation() {
    let total_ops = 10000;
    let olap_ratio = 0.7;
    let oltp_ratio = 0.3;
    let data_access_ratio = 0.5;
    let total_rows: u64 = 100000;
    let num_olap = (total_ops as f64 * olap_ratio) as usize;
    let num_oltp = (total_ops as f64 * oltp_ratio) as usize;
    let theta = (total_rows as f64 * data_access_ratio) as u64;
    let workload = WorkloadGenerator::with_counts(num_olap, num_oltp, theta, total_rows);

    assert!(workload.len() <= total_ops);

    let mut insert_count = 0;
    let mut query_count = 0;

    for op in &workload.operations {
        match op {
            Operation::Insert(_) => insert_count += 1,
            Operation::Query(_, _) => query_count += 1,
        }
    }

    println!("Inserts: {}, Queries: {}", insert_count, query_count);
    assert!(insert_count > 0);
    assert!(query_count > 0);
}

#[test]
fn workload_has_every_insert_key_once_and_every_query_at_theta() {
    let workload = WorkloadGenerator::with_counts(7, 3, 50, 100);
    assert_eq!(workload.len(), 10);
    assert!(!workload.is_empty());
    let mut keys: Vec<u64> = Vec::new();
    for op in &workload.operations {
        match op {
            Operation::Insert(pk) => keys.push(*pk),
            Operation::Query(_, t) => assert_eq!(*t, 50),
        }
    }
    keys.sort();
    assert_eq!(keys, vec![100, 101, 102]);
    assert!(WorkloadGenerator::with_counts(0, 0, 1, 1).is_empty());
}

#[test]
fn query_type_from_index() {
    assert_eq!(QueryType::from_index(0), QueryType::Q1);
    assert_eq!(QueryType::from_index(1), QueryType::Q2);
    assert_eq!(QueryType::from_index(2), QueryType::Q3);
    assert_eq!(QueryType::from_index(9), QueryType::Q3);
    let q = QueryType::random();
    assert!(q == QueryType::Q1 || q == QueryType::Q2 || q == QueryType::Q3);
}

#[test]
fn test_generate_and_parse_row() {
    let schema = TableSchema::new(30);
    let mut rng = rand::thread_rng();
    let vals: Vec<u32> = (0..30).map(|_| rng.gen_range(0.0f32..1000.0).to_bits()).collect();
    let row = schema.build_row(12345, &vals);

    assert_eq!(schema.get_pk(&row), 12345);
    assert!(schema.get_column(&row, 0).is_some());
    assert!(schema.get_column(&row, 29).is_some());
    assert!(schema.get_column(&row, 30).is_none());
}

#[test]
fn htap_row_layout_and_values() {
    let schema = TableSchema::new(2);
    assert_eq!(schema.row_size(), 16);
    let vals = vec![1.5f32.to_bits(), 7u32];
    let row = schema.build_row(0x0102030405060708, &vals);
    assert_eq!(row, vec![8, 7, 6, 5, 4, 3, 2, 1, 0, 0, 0xc0, 0x3f, 7, 0, 0, 0]);
    assert_eq!(f32::from_bits(schema.get_column(&row, 0).unwrap()), 1.5);
    assert_eq!(schema.get_column(&row, 1), Some(7));
    assert_eq!(schema.get_pk(&[1, 2, 3]), 0);
}

#[test]
fn htap_q1_counts_rows_below_theta() {
    let schema = TableSchema::new(1);
    let mut entries: Vec<(Vec<u8>, Vec<u8>)> = Vec::new();
    for pk in 0u64..10 {
        entries.push((pk.to_be_bytes().to_vec(), schema.build_row(pk, &vec![0])));
    }
    // A short value and an odd-sized key.
    entries.push((3u64.to_be_bytes().to_vec(), vec![1, 2]));
    entries.push((vec![9], schema.build_row(0, &vec![0])));
    assert_eq!(sled_htap::htap::execute_q1(&entries, &schema, 4), 5);
    assert_eq!(sled_htap::htap::execute_q1(&entries, &schema, 0), 0);
}

#[test]
fn column_queries_count_rows_below_threshold() {
    let schema = TableSchema::new(3);
    let mut entries: Vec<(Vec<u8>, Vec<u8>)> = Vec::new();
    for pk in 0u64..6 {
        let row = schema.build_row(pk, &vec![1, 2, 3]);
        entries.push((pk.to_be_bytes().to_vec(), row));
    }
    // Keys are stored big-endian but read little-endian, as the workload
    // does: only key 0 reads as a small number.
    let q1 = htap_columns::execute_q1(&entries, &schema, 2);
    assert_eq!(q1, 1);
    assert_eq!(htap_columns::execute_q2(&entries, &schema, 2, 2), 1);
    let le_entries: Vec<(Vec<u8>, Vec<u8>)> =
        (0u64..6).map(|pk| (pk.to_le_bytes().to_vec(), schema.build_row(pk, &vec![1, 2, 3]))).collect();
    assert_eq!(htap_columns::execute_q1(&le_entries, &schema, 2), 2);
    assert_eq!(htap_columns::execute_query(&entries, &schema, htap_columns::QueryType::Q3, 2, 5), 3);
    assert_eq!(htap_columns::execute_query(&entries, &schema, htap_columns::QueryType::Q1, 0, 5), 0);
}

#[test]
fn mixed_schema_rows() {
    let schema = mixed::TableSchema::new(2);
    let row = schema.build_row(5, &vec![1, 2]);
    assert_eq!(schema.get_pk(&row), 5);
    let changed = schema.modify_row(&row, 1, 0xaabbccdd);
    assert_eq!(&changed[0..12], &row[0..12]);
    assert_eq!(&changed[12..16], &[0xdd, 0xcc, 0xbb, 0xaa]);
    assert_eq!(schema.modify_row(&row, 2, 9), row);
    assert_eq!(mixed::WorkloadRatio::ReadHeavy.ap_percent(), 70);
    assert_eq!(mixed::WorkloadRatio::Balance.ap_percent(), 50);
    assert_eq!(mixed::WorkloadRatio::WriteHeavy.ap_percent(), 30);
    assert_ne!(mixed::WorkloadMode::Row, mixed::WorkloadMode::Column);
}

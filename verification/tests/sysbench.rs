use sled_htap::byte_map::ByteMap;
use sled_htap::overlay::OverlayTree;
use std::time::Duration;
use sled_htap::htap::QueryType;
use sled_htap::l2_merge::{plan_merge_page_to_cold_log, scan_window, MergeDecision};
use sled_htap::sysbench::{ap_query_bounds, direct_range_stats, encode_grade_row, scan_range_count};

fn table(grades: &[(u64, u64)]) -> ByteMap<Vec<u8>> {
    let mut t: ByteMap<Vec<u8>> = ByteMap::new();
    for &(k, g) in grades {
        t.insert(k.to_be_bytes().to_vec(), encode_grade_row(g, 7));
    }
    t
}

#[test]
fn direct_stats_sum_the_grades_in_range() {
    let mut t = table(&[(1, 10), (2, 20), (3, 30), (4, 40)]);
    // A row whose grade cannot be read is skipped.
    t.insert(5u64.to_be_bytes().to_vec(), b"junk".to_vec());
    assert_eq!(direct_range_stats(&t, &1u64.to_be_bytes(), &4u64.to_be_bytes()), Some((60, 100 + 400 + 900, 3)));
    assert_eq!(direct_range_stats(&t, &0u64.to_be_bytes(), &9u64.to_be_bytes()), Some((100, 3000, 4)));
    assert_eq!(direct_range_stats(&t, &4u64.to_be_bytes(), &2u64.to_be_bytes()), Some((0, 0, 0)));
    // The squares of many maximal grades do not fit in a u128.
    let mut big = ByteMap::new();
    for k in 0u64..3 {
        big.insert(k.to_be_bytes().to_vec(), encode_grade_row(u64::MAX, 0));
    }
    assert_eq!(direct_range_stats(&big, &0u64.to_be_bytes(), &1u64.to_be_bytes()).map(|t| t.2), Some(1));
    assert_eq!(direct_range_stats(&big, &0u64.to_be_bytes(), &9u64.to_be_bytes()), None);
}

#[test]
fn range_counts_stop_after_the_limit() {
    let t = table(&[(1, 1), (2, 2), (3, 3), (4, 4), (5, 5)]);
    assert_eq!(scan_range_count(&t, &2u64.to_be_bytes(), &5u64.to_be_bytes(), 100), 3);
    assert_eq!(scan_range_count(&t, &0u64.to_be_bytes(), &9u64.to_be_bytes(), 2), 3);
    assert_eq!(scan_range_count(&t, &6u64.to_be_bytes(), &9u64.to_be_bytes(), 2), 0);
}

#[test]
fn query_bounds_are_cut_at_the_table_end() {
    assert_eq!(ap_query_bounds(10, 100, 1000), (10, 110));
    assert_eq!(ap_query_bounds(950, 100, 1000), (950, 1000));
    assert_eq!(ap_query_bounds(900, 100, 1000), (900, 1000));
}

#[test]
fn scanner_window_wraps_around() {
    assert_eq!(scan_window(3, 5, 4), vec![4, 0, 1, 2]);
    assert_eq!(scan_window(0, 1, 3), vec![0, 0, 0]);
    assert_eq!(scan_window(7, 100, 0), Vec::<u64>::new());
}

#[test]
fn lineitem_transpose_puts_each_field_together() {
    let a: Vec<u8> = (0u8..16).collect();
    let b: Vec<u8> = (100u8..116).collect();
    match plan_merge_page_to_cold_log(None, true, false, &vec![a, b]) {
        MergeDecision::Transpose(blob, offsets) => {
            assert_eq!(offsets, vec![0, 8, 16, 24]);
            assert_eq!(&blob[8..16], &[4, 5, 6, 7, 104, 105, 106, 107]);
            assert_eq!(blob.len(), 32);
        }
        _ => panic!("a lineitem chunk is transposed"),
    }
    assert!(matches!(plan_merge_page_to_cold_log(None, true, false, &vec![vec![1; 17]]), MergeDecision::Rewrite));
}

#[test]
fn random_query_types_are_among_the_three() {
    for _ in 0..50 {
        let q = QueryType::random();
        assert!(matches!(q, QueryType::Q1 | QueryType::Q2 | QueryType::Q3));
    }
    // Over many draws every type comes up.
    let draws: Vec<QueryType> = (0..300).map(|_| QueryType::random()).collect();
    assert!(draws.contains(&QueryType::Q1));
    assert!(draws.contains(&QueryType::Q2));
    assert!(draws.contains(&QueryType::Q3));
    assert!(matches!(QueryType::from_index(0), QueryType::Q1));
    assert!(matches!(QueryType::from_index(2), QueryType::Q3));
}

#[test]
fn flushed_columns_answer_as_the_row_scan() {
    let rows = [(3u64, 30u64, 1u32), (1, 10, 2), (7, 70, 3), (5, 0x7c00_0000_0000_007c, 4), (9, 90, 0x7c7c7c7c)];
    let table = table(&rows.iter().map(|&(k, g, _)| (k, g)).collect::<Vec<_>>());
    let mut t = OverlayTree::with_columns(ByteMap::new(), 1000, Duration::from_millis(50), false, 2);
    for &(k, g, pay) in &rows {
        t.insert(&k.to_be_bytes(), encode_grade_row(g, pay));
    }
    t.flush_now();
    for (lo, hi) in [(0u64, 10u64), (2, 8), (5, 6), (8, 2), (4, 5)] {
        let (lo, hi) = (lo.to_be_bytes(), hi.to_be_bytes());
        assert_eq!(Some(t.column_range_stats(0, &lo, &hi)), direct_range_stats(&table, &lo, &hi));
    }
    let g: u128 = 0x7c00_0000_0000_007c;
    assert_eq!(t.column_range_stats(0, &2u64.to_be_bytes(), &8u64.to_be_bytes()), (30 + g + 70, 900 + g * g + 4900, 3));
    // A grade holding the delimiter byte is stored whole under column 0.
    assert_eq!(t.get_column(&5u64.to_be_bytes(), 0), Some(0x7c00_0000_0000_007cu64.to_be_bytes().to_vec()));
    assert_eq!(t.get_column(&9u64.to_be_bytes(), 1), Some(vec![0x7c; 4]));
    assert_eq!(t.get(&9u64.to_be_bytes()), Some(encode_grade_row(90, 0x7c7c7c7c)));
}

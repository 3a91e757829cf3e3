use sled_htap::byte_map::ByteMap;
use sled_htap::columns::{join_cols_vec, make_col_key, split_cols};
use sled_htap::overlay::OverlayTree;
use std::time::Duration;

fn overlay(columns: usize, promote: bool) -> OverlayTree {
    OverlayTree::with_columns(ByteMap::new(), 1000, Duration::from_millis(200), promote, columns)
}

fn be(v: u64) -> Vec<u8> {
    v.to_be_bytes().to_vec()
}

#[test]
fn split_and_join_columns() {
    assert_eq!(split_cols(b"a|bc||d"), vec![b"a".to_vec(), b"bc".to_vec(), vec![], b"d".to_vec()]);
    assert_eq!(split_cols(b""), vec![Vec::<u8>::new()]);
    assert_eq!(split_cols(b"|"), vec![Vec::<u8>::new(), Vec::new()]);
    let cols = vec![b"x".to_vec(), vec![], b"yz".to_vec()];
    assert_eq!(join_cols_vec(&cols), b"x||yz".to_vec());
    assert_eq!(join_cols_vec(&vec![]), Vec::<u8>::new());
    let row = b"12|34|".to_vec();
    assert_eq!(join_cols_vec(&split_cols(&row)), row);
}

#[test]
fn column_key_layout() {
    assert_eq!(make_col_key(b"k1", 0), b"c|\x00\x00|k1".to_vec());
    assert_eq!(make_col_key(b"", 258), b"c|\x01\x02|".to_vec());
    assert_eq!(make_col_key(b"a", 65536 + 3), make_col_key(b"a", 3));
}

#[test]
fn byte_map_orders_and_replaces() {
    let mut m: ByteMap<u32> = ByteMap::new();
    assert_eq!(m.insert(b"b".to_vec(), 2), None);
    assert_eq!(m.insert(b"a".to_vec(), 1), None);
    assert_eq!(m.insert(b"ab".to_vec(), 3), None);
    assert_eq!(m.insert(b"b".to_vec(), 4), Some(2));
    assert_eq!(m.len(), 3);
    assert_eq!(m.key_at(0), &b"a".to_vec());
    assert_eq!(m.key_at(1), &b"ab".to_vec());
    assert_eq!(m.key_at(2), &b"b".to_vec());
    assert_eq!(m.get(b"b"), Some(&4));
    assert_eq!(m.lower_bound(b"aa"), 1);
    assert_eq!(m.remove(b"ab"), Some(3));
    assert_eq!(m.remove(b"ab"), None);
    assert_eq!(m.get(b"ab"), None);
    let taken = m.take();
    assert_eq!(taken.len(), 2);
    assert_eq!(m.len(), 0);
}

#[test]
fn read_your_write_before_and_after_flush() {
    let mut t = overlay(2, false);
    assert_eq!(t.insert(b"k", b"a|b".to_vec()), None);
    assert_eq!(t.get(b"k"), Some(b"a|b".to_vec()));
    assert_eq!(t.insert(b"k", b"c|d".to_vec()), Some(b"a|b".to_vec()));
    assert_eq!(t.l1_size(), 1);
    t.flush_now();
    assert_eq!(t.l1_size(), 0);
    assert_eq!(t.get(b"k"), Some(b"c|d".to_vec()));
    assert_eq!(t.get_column(b"k", 1), Some(b"d".to_vec()));
    assert_eq!(t.get_column(b"k", 2), None);
}

#[test]
fn removal_hides_a_row_before_and_after_flush() {
    let mut t = overlay(2, false);
    t.insert(b"k", b"1|2".to_vec());
    t.flush_now();
    assert_eq!(t.remove(b"k"), Some(b"1|2".to_vec()));
    assert_eq!(t.get(b"k"), None);
    assert_eq!(t.get_column(b"k", 0), None);
    t.flush_now();
    assert_eq!(t.get(b"k"), None);
    assert_eq!(t.remove(b"missing"), None);
}

#[test]
fn rows_of_the_wrong_width_read_back_differently_after_flush() {
    let mut t = overlay(2, false);
    t.insert(b"k", b"only".to_vec());
    assert_eq!(t.get(b"k"), Some(b"only".to_vec()));
    t.flush_now();
    // Column 1 was never written, so the row cannot be rebuilt.
    assert_eq!(t.get(b"k"), None);
    assert_eq!(t.get_column(b"k", 0), Some(b"only".to_vec()));
}

#[test]
fn reads_promote_hot_keys_after_the_threshold() {
    let mut base: ByteMap<Vec<u8>> = ByteMap::new();
    base.insert(make_col_key(b"k", 0), b"v".to_vec());
    let mut t = OverlayTree::with_columns_and_promote_threshold(base, 10, Duration::from_millis(5), true, 1, 2);
    assert_eq!(t.get(b"k"), Some(b"v".to_vec()));
    assert_eq!(t.l1_size(), 0);
    assert_eq!(t.get(b"k"), Some(b"v".to_vec()));
    assert_eq!(t.l1_size(), 1);
    assert_eq!(t.get(b"k"), Some(b"v".to_vec()));
    assert_eq!(t.get(b"nope"), None);
    assert!(t.flush_due(true));
    assert!(!t.flush_due(false));
}

#[test]
fn default_constructor_has_one_column() {
    let mut t = OverlayTree::new(ByteMap::new(), 1, Duration::from_millis(1), false);
    t.insert(b"x", b"a|b".to_vec());
    assert!(t.flush_due(false));
    t.flush_now();
    // One column: the whole row is column 0.
    assert_eq!(t.get(b"x"), Some(b"a".to_vec()));
    assert_eq!(t.flush_interval(), Duration::from_millis(1));
}

#[test]
fn column_aggregates_over_flushed_rows() {
    let mut t = overlay(2, false);
    for (k, g) in [(1u64, 10u64), (2, 20), (3, 30), (4, 40)] {
        let mut row = be(g);
        row.push(b'|');
        row.extend_from_slice(b"pay");
        t.insert(&be(k), row);
    }
    t.flush_now();
    assert_eq!(t.sum_column(0), 100);
    assert_eq!(t.column_totals(0), (100, 4));
    // Column 1 holds 3-byte values, which are not counted.
    assert_eq!(t.sum_column(1), 0);
    assert_eq!(t.sum_column_range(0, &be(2), &be(4)), 50);
    assert_eq!(t.column_range_totals(0, &be(2), &be(4)), (50, 2));
    assert_eq!(t.column_range_stats(0, &be(1), &be(5)), (100, 100 + 400 + 900 + 1600, 4));
    assert_eq!(t.column_range_stats(0, &be(5), &be(1)), (0, 0, 0));
    assert_eq!(t.try_column_range_stats(0, &be(2), &be(3)), Some((20, 400, 1)));
}

#[test]
fn column_reads_agree_with_row_reads() {
    let mut t = overlay(3, false);
    t.insert(b"r", b"x|yy|zzz".to_vec());
    let row = t.get(b"r").unwrap();
    for (j, col) in split_cols(&row).iter().enumerate() {
        assert_eq!(t.get_column(b"r", j).as_ref(), Some(col));
    }
    t.flush_now();
    let row = t.get(b"r").unwrap();
    assert_eq!(row, b"x|yy|zzz".to_vec());
    for (j, col) in split_cols(&row).iter().enumerate() {
        assert_eq!(t.get_column(b"r", j).as_ref(), Some(col));
    }
    assert_eq!(t.get_column(b"r", 3), None);
    // An index past what a column key can name is out of range.
    assert_eq!(t.get_column(b"r", 65536), None);
    assert_eq!(t.get_column(b"r", 65536 + 1), None);
}

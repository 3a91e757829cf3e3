use sled_htap::disk_ptr::DiskPtr;
use sled_htap::l2_merge::{new_columnar_data, plan_merge_page_to_cold_log, transpose_lineitem, MergeDecision};
use sled_htap::schema::{fixed_width, parse_i32, DataType, RowField, TableSchema};
use sled_htap::sysbench::{encode_grade_row, row_grade};
use sled_htap::ycsb::{load_data, ycsb_key, ycsb_record, zeros, KVEngine};
use std::cell::RefCell;

#[test]
fn parse_integers_like_str_parse() {
    assert_eq!(parse_i32(b"123"), Some(123));
    assert_eq!(parse_i32(b"-2147483648"), Some(i32::MIN));
    assert_eq!(parse_i32(b"+7"), Some(7));
    assert_eq!(parse_i32(b"2147483648"), None);
    assert_eq!(parse_i32(b""), None);
    assert_eq!(parse_i32(b"-"), None);
    assert_eq!(parse_i32(b"1a"), None);
    for s in ["0", "42", "-17", "99999999999", "+", " 1"] {
        assert_eq!(parse_i32(s.as_bytes()), s.parse::<i32>().ok());
    }
}

#[test]
fn fixed_width_text() {
    assert_eq!(fixed_width(b"abcdef", 3), b"abc".to_vec());
    assert_eq!(fixed_width(b"ab", 4), vec![b'a', b'b', 0, 0]);
}

#[test]
fn row_fields_follow_the_projection() {
    let schema = TableSchema::new(
        "t",
        vec![("id", DataType::I32), ("price", DataType::F32), ("flag", DataType::Bytes(2)), ("day", DataType::Date)],
        vec![1],
        vec![3, 0, 2, 9],
    );
    let fields = schema.parse_row(b"17|1.5|A|1994-01-01|");
    assert_eq!(fields.len(), 3);
    assert!(matches!(&fields[0], RowField::Date(t) if t == b"1994-01-01"));
    assert!(matches!(&fields[1], RowField::Ready(b) if b == &17i32.to_le_bytes().to_vec()));
    assert!(matches!(&fields[2], RowField::Ready(b) if b == &vec![b'A', 0]));
    let all = TableSchema::new("t", vec![("a", DataType::I32), ("b", DataType::F32)], vec![], vec![]);
    let fields = all.parse_row(b"x|2.0");
    assert!(matches!(&fields[0], RowField::Ready(b) if b == &vec![0, 0, 0, 0]));
    assert!(matches!(&fields[1], RowField::Float(t) if t == b"2.0"));
    assert_eq!(all.name, "t");
}

#[test]
fn lineitem_chunks_transpose_column_major() {
    let a: Vec<u8> = (0u8..16).collect();
    let b: Vec<u8> = (16u8..32).collect();
    let (blob, offsets) = transpose_lineitem(&vec![a.clone(), b.clone()]).unwrap();
    assert_eq!(offsets, vec![0, 8, 16, 24]);
    assert_eq!(&blob[0..8], &[0, 1, 2, 3, 16, 17, 18, 19]);
    assert_eq!(&blob[24..32], &[12, 13, 14, 15, 28, 29, 30, 31]);
    assert!(transpose_lineitem(&vec![]).is_none());
    assert!(transpose_lineitem(&vec![vec![0; 15]]).is_none());
    assert!(matches!(plan_merge_page_to_cold_log(Some(DiskPtr::new_cold(1)), true, false, &vec![a.clone()]), MergeDecision::Skip));
    assert!(matches!(plan_merge_page_to_cold_log(None, false, false, &vec![a.clone()]), MergeDecision::Skip));
    assert!(matches!(plan_merge_page_to_cold_log(Some(DiskPtr::new_inline(1)), true, true, &vec![a.clone()]), MergeDecision::Rewrite));
    assert!(matches!(plan_merge_page_to_cold_log(None, true, false, &vec![a.clone()]), MergeDecision::Transpose(_, _)));
    let (data, starts) = new_columnar_data(&vec![(0u8..18).collect()]);
    assert_eq!(starts, (0, 4, 8));
    assert_eq!(data, (0u8..18).collect::<Vec<u8>>());
}

#[test]
fn sysbench_rows_carry_their_grade() {
    let row = encode_grade_row(0x0102030405060708, 0x0a0b0c0d);
    assert_eq!(row, vec![1, 2, 3, 4, 5, 6, 7, 8, b'|', 10, 11, 12, 13]);
    assert_eq!(row_grade(&row), Some(0x0102030405060708));
    assert_eq!(row_grade(b"short|x"), None);
    assert_eq!(row_grade(b"no delimiter"), None);
    // A grade may hold the delimiter byte: the layout fixes where it ends.
    assert_eq!(row_grade(&encode_grade_row(0x7c, 1)), Some(0x7c));
    assert_eq!(row_grade(&encode_grade_row(0x7c7c_7c7c_7c7c_7c7c, 0x7c7c_7c7c)), Some(0x7c7c_7c7c_7c7c_7c7c));
    // Outside that layout the first delimiter must come after 8 bytes.
    assert_eq!(row_grade(b"abcdefgh|"), Some(u64::from_be_bytes(*b"abcdefgh")));
    assert_eq!(row_grade(b"abc|defgh|ijkl"), None);
}

#[test]
fn ycsb_keys_are_zero_padded() {
    assert_eq!(ycsb_key(0), format!("user{:019}", 0).into_bytes());
    assert_eq!(ycsb_key(1234567), format!("user{:019}", 1234567).into_bytes());
    assert_eq!(ycsb_key(u64::MAX), format!("user{:019}", u64::MAX).into_bytes());
    assert_eq!(zeros(3), vec![0, 0, 0]);
}

struct Recorder {
    puts: RefCell<Vec<(Vec<u8>, Vec<u8>)>>,
    fail_at: usize,
}

impl KVEngine for Recorder {
    fn put(&self, key: &[u8], value: &[u8]) -> Result<(), anyhow::Error> {
        if self.puts.borrow().len() == self.fail_at {
            return Err(anyhow::Error::msg("full"));
        }
        self.puts.borrow_mut().push((key.to_vec(), value.to_vec()));
        Ok(())
    }
    fn get(&self, _key: &[u8]) -> Result<Option<Vec<u8>>, anyhow::Error> {
        Ok(None)
    }
    fn scan(&self, _start_key: &[u8], _count: usize) -> Result<Vec<(Vec<u8>, Vec<u8>)>, anyhow::Error> {
        Ok(vec![])
    }
}

#[test]
fn load_data_writes_each_record() {
    let r = Recorder { puts: RefCell::new(vec![]), fail_at: usize::MAX };
    assert!(load_data(&r, 3, 2).is_ok());
    let puts = r.puts.borrow();
    assert_eq!(puts.len(), 3);
    assert_eq!(puts[2], (format!("user{:019}", 2).into_bytes(), vec![0, 0]));
    let f = Recorder { puts: RefCell::new(vec![]), fail_at: 1 };
    assert!(load_data(&f, 3, 2).is_err());
    assert_eq!(f.puts.borrow().len(), 1);
    // No record: no write is made, so even a failing engine is not asked.
    let z = Recorder { puts: RefCell::new(vec![]), fail_at: 0 };
    assert!(load_data(&z, 0, 2).is_ok());
    assert_eq!(ycsb_record(7, 3), (format!("user{:019}", 7).into_bytes(), vec![0, 0, 0]));
}

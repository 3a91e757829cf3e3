use sled_htap::disk_ptr::{DiskPtr, HeapId, NonZeroOffset, STREAM_SELECTOR_MASK};
use sled_htap::metrics::{safe_base_size, PageMetrics};
use sled_htap::recovery::{advance_snapshot, clean_tail_for_log, read_snapshot_or_default, LogMessage, LogTail};
use sled_htap::snapshot::{LogKind, PageState, Snapshot, SnapshotError};
use sled_htap::snapshot_file::{check_trailer, frame_snapshot, frame_with_checksum, unframe_snapshot};

fn heap(lid: u64, loc: u64, lsn: i64) -> DiskPtr {
    DiskPtr::new_heap_item(lid, HeapId { location: loc, original_lsn: lsn })
}

#[test]
fn disk_pointer_streams_and_offsets() {
    let hot = DiskPtr::new_inline(42);
    let cold = DiskPtr::new_cold(42);
    assert!(hot.is_inline() && !hot.is_cold());
    assert!(cold.is_cold());
    assert_eq!(cold, DiskPtr::Inline(42 | STREAM_SELECTOR_MASK));
    assert_eq!(cold.to_raw_offset(), 42);
    assert_eq!(cold.lid(), Some(42));
    let mut h = heap(7 | STREAM_SELECTOR_MASK, 3, 99);
    assert!(h.is_heap_item() && h.is_cold());
    assert_eq!(h.lid(), Some(7));
    assert_eq!(h.heap_id(), Some(HeapId { location: 3, original_lsn: 99 }));
    assert_eq!(h.original_lsn(), 99);
    assert!(!h.heap_pointer_merged_into_snapshot());
    h.forget_heap_log_coordinates();
    assert!(h.heap_pointer_merged_into_snapshot());
    assert_eq!(h.lid(), None);
    assert!(!h.is_cold());
    assert_eq!(hot.heap_id(), None);
    assert!(NonZeroOffset::new(0).is_none());
    assert_eq!(NonZeroOffset::new(5).unwrap().get(), 5);
}

#[test]
fn page_state_push_keeps_lsns_increasing() {
    let mut p = PageState::Present { base: (10, DiskPtr::new_inline(1)), frags: vec![] };
    p.push((12, DiskPtr::new_inline(2)));
    p.push((11, DiskPtr::new_inline(3)));
    p.push((12, DiskPtr::new_inline(4)));
    p.push((13, heap(5, 6, 13)));
    assert_eq!(p.offsets(), vec![Some(1), Some(2), Some(5)]);
    assert_eq!(p.heap_ids(), vec![HeapId { location: 6, original_lsn: 13 }]);
    assert!(!p.is_free());
    let f = PageState::Free(3, heap(9, 1, 3));
    assert!(f.is_free());
    assert_eq!(f.offsets(), vec![Some(9)]);
    assert_eq!(PageState::Uninitialized.offsets(), Vec::<Option<u64>>::new());
    assert_eq!(PageState::Uninitialized.heap_ids(), vec![]);
}

#[test]
fn snapshot_apply_replace_link_free() {
    let mut s = Snapshot::default();
    assert_eq!(s.apply(LogKind::Replace, 2, 5, DiskPtr::new_inline(100)), Ok(()));
    assert_eq!(s.pt.len(), 3);
    assert!(matches!(s.pt[0], PageState::Uninitialized));
    assert_eq!(s.apply(LogKind::Link, 2, 6, DiskPtr::new_inline(200)), Ok(()));
    assert_eq!(s.pt[2].offsets(), vec![Some(100), Some(200)]);
    assert_eq!(s.apply(LogKind::Free, 1, 7, DiskPtr::new_inline(300)), Ok(()));
    assert!(s.pt[1].is_free());
    // A link to a page never replaced is dropped, with the slot it added.
    assert_eq!(s.apply(LogKind::Link, 4, 8, DiskPtr::new_inline(400)), Ok(()));
    assert_eq!(s.pt.len(), 4);
    assert_eq!(s.apply(LogKind::Skip, 0, 9, DiskPtr::new_inline(1)), Err(SnapshotError::Corruption));
    assert_eq!(s.apply(LogKind::Corrupted, 0, 9, DiskPtr::new_inline(1)), Err(SnapshotError::Corruption));
}

#[test]
fn snapshot_filter_and_coords() {
    let mut s = Snapshot::default();
    s.apply(LogKind::Replace, 0, 5, heap(10, 1, 5)).unwrap();
    s.apply(LogKind::Link, 0, 6, heap(11, 2, 6)).unwrap();
    s.filter_inner_heap_ids();
    assert_eq!(s.pt[0].offsets(), vec![None, None]);
    assert_eq!(s.pt[0].heap_ids().len(), 2);
    assert_eq!(s.recovered_coords(100), (None, None));
    // With no stable lsn the segment size is not used.
    assert_eq!(s.recovered_coords(0), (None, None));
    s.stable_lsn = Some(250);
    assert_eq!(s.recovered_coords(100), (None, Some(300)));
    s.stable_lsn = Some(300);
    assert_eq!(s.recovered_coords(100), (None, Some(300)));
    s.active_segment = Some(1000);
    s.stable_lsn = Some(250);
    assert_eq!(s.recovered_coords(100), (Some(1050), Some(250)));
}

#[test]
fn tail_cleanup_plans() {
    let seg = 1000;
    let none = LogTail { cur_lsn: None, segment_base: None, torn: vec![] };
    let p = clean_tail_for_log(&none, seg).unwrap();
    assert_eq!((p.stable_lsn, p.active_segment, p.zero.len()), (0, None, 0));
    assert_eq!(clean_tail_for_log(&none, 0).unwrap().stable_lsn, 0);
    // Inside a segment header: corruption.
    let bad = LogTail { cur_lsn: Some(2005), segment_base: Some(4000), torn: vec![] };
    assert_eq!(clean_tail_for_log(&bad, seg).err(), Some(SnapshotError::Corruption));
    // Mid-segment: shred the rest of it, zero the torn segments.
    let mid = LogTail { cur_lsn: Some(2100), segment_base: Some(4000), torn: vec![(3000, 9000)] };
    let p = clean_tail_for_log(&mid, seg).unwrap();
    assert_eq!((p.stable_lsn, p.active_segment), (2100, Some(4000)));
    assert_eq!(p.zero, vec![(4100, 899), (9000, 1000)]);
    // Near the end of a segment: bump to the next one.
    let end = LogTail { cur_lsn: Some(2980), segment_base: Some(4000), torn: vec![] };
    let p = clean_tail_for_log(&end, seg).unwrap();
    assert_eq!((p.stable_lsn, p.active_segment, p.zero.len()), (3000, None, 0));
}

#[test]
fn advance_and_recover_snapshot() {
    let items = vec![
        LogMessage { kind: LogKind::Replace, pid: 0, lsn: 10, ptr: heap(10, 1, 10) },
        LogMessage { kind: LogKind::Link, pid: 0, lsn: 20, ptr: DiskPtr::new_inline(20) },
    ];
    let hot = LogTail { cur_lsn: Some(2100), segment_base: Some(4000), torn: vec![] };
    let adv = read_snapshot_or_default(None, &items, &hot, None, 1000).ok().unwrap();
    assert_eq!(adv.snapshot.stable_lsn, Some(2100));
    assert_eq!(adv.snapshot.active_segment, Some(4000));
    assert!(adv.write_back);
    assert_eq!(adv.hot_zero, vec![(4100, 899)]);
    assert_eq!(adv.snapshot.pt[0].offsets(), vec![None, Some(20)]);
    // Already up to date: messages below the stable lsn are skipped, nothing moves.
    let again = advance_snapshot(&items, &LogTail { cur_lsn: None, segment_base: None, torn: vec![] }, None, adv.snapshot, 1000)
        .ok()
        .unwrap();
    assert!(!again.write_back);
    assert_eq!(again.snapshot.stable_lsn, Some(2100));
    let corrupt = vec![LogMessage { kind: LogKind::Skip, pid: 0, lsn: 5, ptr: DiskPtr::new_inline(0) }];
    assert!(read_snapshot_or_default(None, &corrupt, &hot, None, 1000).is_err());
    let cold = LogTail { cur_lsn: Some(5100), segment_base: Some(8000), torn: vec![] };
    let adv = read_snapshot_or_default(None, &vec![], &hot, Some(&cold), 1000).ok().unwrap();
    assert_eq!(adv.snapshot.stable_lsn, Some(5100));
    assert_eq!(adv.snapshot.active_segment, Some(4000));
    assert_eq!(adv.cold_zero, vec![(8100, 899)]);
    // A corrupt cold tail is found after the hot tail was cleaned.
    let bad_cold = LogTail { cur_lsn: Some(5005), segment_base: Some(8000), torn: vec![] };
    let stop = read_snapshot_or_default(None, &vec![], &hot, Some(&bad_cold), 1000).err().unwrap();
    assert_eq!(stop.error, SnapshotError::Corruption);
    assert_eq!(stop.hot_zero, vec![(4100, 899)]);
    // A corrupt replay stops before any tail is cleaned.
    let stop = read_snapshot_or_default(None, &corrupt, &hot, Some(&cold), 1000).err().unwrap();
    assert!(stop.hot_zero.is_empty());
    // A message below the stable lsn is never applied, whatever page it names.
    let mut base = Snapshot::default();
    base.stable_lsn = Some(100);
    let old = vec![LogMessage { kind: LogKind::Replace, pid: u64::MAX, lsn: 50, ptr: DiskPtr::new_inline(1) }];
    let none = LogTail { cur_lsn: None, segment_base: None, torn: vec![] };
    let adv = advance_snapshot(&old, &none, None, base, 0).ok().unwrap();
    assert_eq!(adv.snapshot.pt.len(), 0);
    assert!(!adv.write_back);
}

#[test]
fn snapshot_file_trailer_round_trip() {
    let body = b"snapshot bytes".to_vec();
    let framed = frame_snapshot(&body);
    assert_eq!(framed.len(), body.len() + 12);
    assert_eq!(&framed[body.len()..body.len() + 8], &(body.len() as u64).to_le_bytes());
    assert_eq!(&framed[body.len() + 8..], &crc32fast::hash(&body).to_le_bytes());
    assert_eq!(unframe_snapshot(&framed), Ok(body.clone()));
    let mut bad = framed.clone();
    bad[0] ^= 1;
    assert_eq!(unframe_snapshot(&bad), Err(SnapshotError::Corruption));
    assert_eq!(unframe_snapshot(&framed[..12]), Err(SnapshotError::Corruption));
    // The IEEE CRC-32 of "123456789" is 0xCBF43926.
    assert_eq!(&frame_snapshot(b"123456789")[17..], &[0x26, 0x39, 0xf4, 0xcb]);
}

#[test]
fn snapshot_trailer_with_a_given_checksum() {
    let framed = frame_with_checksum(b"ab", 0x0a0b0c0d);
    assert_eq!(framed, vec![b'a', b'b', 2, 0, 0, 0, 0, 0, 0, 0, 0x0d, 0x0c, 0x0b, 0x0a]);
    assert_eq!(check_trailer(&framed, 0x0a0b0c0d), Ok(b"ab".to_vec()));
    assert_eq!(check_trailer(&framed, 0x0a0b0c0e), Err(SnapshotError::Corruption));
    assert_eq!(check_trailer(&framed[1..], 0x0a0b0c0d), Ok(b"b".to_vec()));
    assert_eq!(check_trailer(&framed[2..], 0x0a0b0c0d), Err(SnapshotError::Corruption));
}

#[test]
fn page_metrics_counters() {
    let mut m = PageMetrics::new();
    assert!(!m.merge_candidate());
    m.mark_read();
    m.mark_scan();
    m.mark_update(100);
    assert_eq!((m.read_count, m.scan_count, m.delta_count, m.delta_size), (1, 1, 1, 100));
    assert!(m.merge_candidate());
    m.reset_after_merge(50);
    assert_eq!((m.read_count, m.scan_count, m.delta_count, m.delta_size, m.last_merge_ts), (0, 0, 0, 0, 50));
    assert_eq!(m.wait_time(70), 20);
    assert_eq!(m.wait_time(10), 0);
    m.read_count = usize::MAX;
    m.mark_read();
    assert_eq!(m.read_count, 0);
    assert_eq!(safe_base_size(0), 4096);
    assert_eq!(safe_base_size(10), 10);
}

# sled_htap

A verified library for a hybrid transactional/analytical key-value store:
a write-optimised level of whole rows over a base store that keeps each row
column by column, the page-cache bookkeeping behind its cold log, and the
row formats and query kernels of the HTAP, sysbench and YCSB workloads that
exercise it.  Verus proves the functions of `src/` against their
contracts; the few calls into outside crates (a checksum and random draws)
stand behind small trusted wrappers in `src/snapshot_file.rs` and
`src/rng.rs`, and a function whose result is chance, or whose work is done
by an engine the caller supplies, says only what holds of every outcome.

## Layout

- `src/bytes.rs`, `src/byte_map.rs`: the byte order and an ordered byte map,
  the base store of the overlay.
- `src/columns.rs`: splitting rows into columns and column keys.
- `src/overlay.rs`: the two-level overlay tree (reads, writes, removal,
  promotion of hot keys, flush, column aggregates), with the laws that a
  flush changes no read and that column reads agree with row reads.  A row
  of the sysbench layout (8-byte grade, delimiter, 4-byte payload) is stored
  as its grade and its payload, whatever bytes they hold.
- `src/aggregate.rs`: range scans that sum, square and count 8-byte values,
  and the transfer of those statistics between two stores.
- `src/sysbench.rs`: the sysbench row format, the row-scan aggregate, and
  the law that the column store answers as the row store does.
- `src/disk_ptr.rs`, `src/snapshot.rs`, `src/recovery.rs`,
  `src/snapshot_file.rs`: disk pointers, the page-table snapshot, log
  recovery plans and the snapshot file trailer.
- `src/metrics.rs`, `src/l2_merge.rs`: merge metrics and the transposition
  of lineitem chunks into column-major blocks.
- `src/schema.rs`, `src/htap.rs`, `src/htap_columns.rs`, `src/mixed.rs`,
  `src/ycsb.rs`, `src/le.rs`, `src/rng.rs`: row layouts, workload
  generators and queries of the benchmarks.
- `app/`: the sysbench-style driver program and the floating-point parts of
  the workloads.
- `tests/`: tests of the library on concrete values.

//! A verified core for an HTAP-flavoured page cache and overlay tree:
//! on-disk pointers, page-table snapshots and their recovery, per-page merge
//! metrics, a row/column overlay over an ordered byte-keyed store, and the
//! pure helpers of the workloads that exercise them.
pub mod aggregate;
pub mod byte_map;
pub mod bytes;
pub mod columns;
pub mod disk_ptr;
pub mod htap;
pub mod htap_columns;
pub mod l2_merge;
pub mod le;
pub mod metrics;
pub mod mixed;
pub mod overlay;
pub mod recovery;
pub mod rng;
pub mod schema;
pub mod snapshot;
pub mod snapshot_file;
pub mod sysbench;
pub mod ycsb;

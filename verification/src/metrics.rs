use vstd::prelude::*;

verus! {

/// Counters kept per logical page, from which the priority of merging the
/// page into the cold log is computed.
pub struct PageMetrics {
    /// Number of read operations (get) on this page.
    pub read_count: usize,
    /// Number of column scans over this page.
    pub scan_count: usize,
    /// Number of updates (deltas) since the last merge.
    pub delta_count: usize,
    /// Estimated size of the deltas, in bytes.
    pub delta_size: usize,
    /// Timestamp of the last merge.
    pub last_merge_ts: usize,
}

impl PageMetrics {
    /// All counters at zero.
    pub fn new() -> (r: Self)
        ensures
            r.read_count == 0,
            r.scan_count == 0,
            r.delta_count == 0,
            r.delta_size == 0,
            r.last_merge_ts == 0,
    {
        PageMetrics { read_count: 0, scan_count: 0, delta_count: 0, delta_size: 0, last_merge_ts: 0 }
    }

    /// Counts one read.
    pub fn mark_read(&mut self)
        ensures
            *final(self) == (PageMetrics { read_count: vstd::wrapping::usize_specs::wrapping_add(old(self).read_count, 1), ..*old(self) }),
    {
        self.read_count = self.read_count.wrapping_add(1);
    }

    /// Counts one column scan.
    pub fn mark_scan(&mut self)
        ensures
            *final(self) == (PageMetrics { scan_count: vstd::wrapping::usize_specs::wrapping_add(old(self).scan_count, 1), ..*old(self) }),
    {
        self.scan_count = self.scan_count.wrapping_add(1);
    }

    /// Counts one update of `size` bytes.
    pub fn mark_update(&mut self, size: usize)
        ensures
            *final(self) == (PageMetrics {
                delta_count: vstd::wrapping::usize_specs::wrapping_add(old(self).delta_count, 1),
                delta_size: vstd::wrapping::usize_specs::wrapping_add(old(self).delta_size, size),
                ..*old(self)
            }),
    {
        self.delta_count = self.delta_count.wrapping_add(1);
        self.delta_size = self.delta_size.wrapping_add(size);
    }

    /// Clears the counters after a merge, and records when it happened.
    pub fn reset_after_merge(&mut self, current_ts: usize)
        ensures
            *final(self) == (PageMetrics {
                read_count: 0,
                scan_count: 0,
                delta_count: 0,
                delta_size: 0,
                last_merge_ts: current_ts,
            }),
    {
        self.read_count = 0;
        self.scan_count = 0;
        self.delta_count = 0;
        self.delta_size = 0;
        self.last_merge_ts = current_ts;
    }

    /// Whether merging the page can pay off at all: it has been read or
    /// scanned, and it has deltas.  When not, its merge priority is zero.
    pub fn merge_candidate(&self) -> (r: bool)
        ensures
            r == ((self.read_count > 0 || self.scan_count > 0) && self.delta_count > 0),
    {
        (self.read_count > 0 || self.scan_count > 0) && self.delta_count > 0
    }

    /// How long the page has waited since its last merge, as of `check_ts`;
    /// zero when `check_ts` is not after it.
    pub fn wait_time(&self, check_ts: usize) -> (r: usize)
        ensures
            r == (if check_ts > self.last_merge_ts { check_ts - self.last_merge_ts } else { 0 }),
    {
        if check_ts > self.last_merge_ts {
            check_ts - self.last_merge_ts
        } else {
            0
        }
    }
}

/// The base size a merge is costed at: the page's base size, or 4096 bytes
/// when the page has no base.
pub fn safe_base_size(base_size: usize) -> (r: usize)
    ensures
        r == (if base_size == 0 { 4096 } else { base_size }),
{
    if base_size == 0 {
        4096
    } else {
        base_size
    }
}

} // verus!

use vstd::prelude::*;

use crate::byte_map::{entries_map, has_key, keys_sorted, lemma_entries_map_at, ByteMap};
use crate::bytes::{lemma_lex_order, lex_lt};
use crate::aggregate::{range_stats, scan_stats};
use crate::columns::{
    col_prefix_spec, col_key_spec, grade_layout, join_cols_vec, join_spec, has_delim, lemma_col_key_injective,
    lemma_join_row_columns, lemma_row_columns_of_join, make_col_key, row_columns, row_columns_spec,
};

verus! {

/// What the write-optimised level holds for a key: a whole row, or the
/// mark that the key was removed.
pub enum L1Value {
    Row(Vec<u8>),
    Tombstone,
}

/// What a level-1 entry says a read of its key gives.
pub open spec fn l1_entry_view(v: L1Value) -> Option<Seq<u8>> {
    match v {
        L1Value::Row(r) => Some(r@),
        L1Value::Tombstone => None,
    }
}

/// A row rebuilt from its columns in the base store: present when every
/// column `0..columns` is stored, and then the columns joined with
/// delimiters.
pub open spec fn reconstruct(base: Map<Seq<u8>, Seq<u8>>, key: Seq<u8>, columns: nat) -> Option<Seq<u8>> {
    if forall|i: nat| i < columns ==> #[trigger] base.contains_key(col_key_spec(key, i)) {
        Some(join_spec(Seq::new(columns, |i: int| base[col_key_spec(key, i as nat)])))
    } else {
        None
    }
}

/// What a read of `key` gives: level 1 first, then the base store.
pub open spec fn overlay_read(
    l1: Map<Seq<u8>, Option<Seq<u8>>>,
    base: Map<Seq<u8>, Seq<u8>>,
    columns: nat,
    key: Seq<u8>,
) -> Option<Seq<u8>> {
    if l1.contains_key(key) {
        l1[key]
    } else {
        reconstruct(base, key, columns)
    }
}

/// The access count a key has after one more read.
pub open spec fn bumped(counts: Map<Seq<u8>, u64>, key: Seq<u8>) -> u64 {
    if counts.contains_key(key) {
        if counts[key] == u64::MAX {
            0
        } else {
            (counts[key] + 1) as u64
        }
    } else {
        1
    }
}

/// A two-level overlay: an in-memory, write-optimised level of whole rows
/// over a base store that holds each row column by column.
pub struct OverlayTree {
    base: ByteMap<Vec<u8>>,
    l1: ByteMap<L1Value>,
    access_counts: ByteMap<u64>,
    flush_threshold: usize,
    flush_interval: std::time::Duration,
    promote_on_read: bool,
    promote_threshold: u64,
    columns: usize,
}

fn copy_bytes(v: &[u8]) -> (r: Vec<u8>)
    ensures
        r@ == v@,
{
    vstd::slice::slice_to_vec(v)
}

impl OverlayTree {
    /// The three stores are well formed.
    pub closed spec fn wf(&self) -> bool {
        &&& self.base.wf()
        &&& self.l1.wf()
        &&& self.access_counts.wf()
    }

    /// The base store: column key to column value.
    pub closed spec fn base_view(&self) -> Map<Seq<u8>, Seq<u8>> {
        self.base@.map_values(|v: Vec<u8>| v@)
    }

    /// The base store's entries in key order.
    pub closed spec fn base_entries(&self) -> Seq<(Seq<u8>, Seq<u8>)> {
        self.base.entries().map_values(|e: (Seq<u8>, Vec<u8>)| (e.0, e.1@))
    }

    /// Level 1: a row, or `None` for a removed key.
    pub closed spec fn l1_view(&self) -> Map<Seq<u8>, Option<Seq<u8>>> {
        self.l1@.map_values(|v: L1Value| l1_entry_view(v))
    }

    /// Level 1's entries in key order.
    pub closed spec fn l1_entries(&self) -> Seq<(Seq<u8>, Option<Seq<u8>>)> {
        self.l1.entries().map_values(|e: (Seq<u8>, L1Value)| (e.0, l1_entry_view(e.1)))
    }

    /// The number of entries in level 1.
    pub closed spec fn l1_len(&self) -> nat {
        self.l1.spec_len()
    }

    /// How often each key has been read from the base store.
    pub closed spec fn access_view(&self) -> Map<Seq<u8>, u64> {
        self.access_counts@
    }

    /// The number of columns each row is stored as.
    pub closed spec fn spec_columns(&self) -> nat {
        self.columns as nat
    }

    /// The level-1 size at which a flush is due.
    pub closed spec fn spec_flush_threshold(&self) -> nat {
        self.flush_threshold as nat
    }

    /// Whether reads promote hot keys into level 1.
    pub closed spec fn spec_promote_on_read(&self) -> bool {
        self.promote_on_read
    }

    /// The number of reads after which a key is promoted.
    pub closed spec fn spec_promote_threshold(&self) -> u64 {
        self.promote_threshold
    }

    /// The time between background flushes.
    pub closed spec fn spec_flush_interval(&self) -> std::time::Duration {
        self.flush_interval
    }

    /// The same settings.
    pub open spec fn same_settings(&self, other: &Self) -> bool {
        &&& self.spec_columns() == other.spec_columns()
        &&& self.spec_flush_threshold() == other.spec_flush_threshold()
        &&& self.spec_promote_on_read() == other.spec_promote_on_read()
        &&& self.spec_promote_threshold() == other.spec_promote_threshold()
        &&& self.spec_flush_interval() == other.spec_flush_interval()
    }

    /// What a read of `key` gives.
    pub open spec fn read(&self, key: Seq<u8>) -> Option<Seq<u8>> {
        overlay_read(self.l1_view(), self.base_view(), self.spec_columns(), key)
    }

    /// Everything a read can give: key to row.
    pub open spec fn view(&self) -> Map<Seq<u8>, Seq<u8>> {
        Map::new(|k: Seq<u8>| self.read(k) is Some, |k: Seq<u8>| self.read(k).unwrap())
    }

    /// An overlay over `base` with one column per row and a promotion
    /// threshold of 3 reads.
    pub fn new(
        base: ByteMap<Vec<u8>>,
        flush_threshold: usize,
        flush_interval: std::time::Duration,
        promote_on_read: bool,
    ) -> (r: Self)
        requires
            base.wf(),
        ensures
            r.wf(),
            r.base_view() == base@.map_values(|v: Vec<u8>| v@),
            r.l1_view() == Map::<Seq<u8>, Option<Seq<u8>>>::empty(),
            r.access_view() == Map::<Seq<u8>, u64>::empty(),
            r.spec_columns() == 1,
            r.spec_flush_threshold() == flush_threshold,
            r.spec_promote_on_read() == promote_on_read,
            r.spec_promote_threshold() == 3,
            r.spec_flush_interval() == flush_interval,
    {
        Self::with_columns(base, flush_threshold, flush_interval, promote_on_read, 1)
    }

    /// An overlay whose rows are stored as `columns` columns in the base.
    pub fn with_columns(
        base: ByteMap<Vec<u8>>,
        flush_threshold: usize,
        flush_interval: std::time::Duration,
        promote_on_read: bool,
        columns: usize,
    ) -> (r: Self)
        requires
            base.wf(),
        ensures
            r.wf(),
            r.base_view() == base@.map_values(|v: Vec<u8>| v@),
            r.l1_view() == Map::<Seq<u8>, Option<Seq<u8>>>::empty(),
            r.access_view() == Map::<Seq<u8>, u64>::empty(),
            r.spec_columns() == columns,
            r.spec_flush_threshold() == flush_threshold,
            r.spec_promote_on_read() == promote_on_read,
            r.spec_promote_threshold() == 3,
            r.spec_flush_interval() == flush_interval,
    {
        Self::with_columns_and_promote_threshold(base, flush_threshold, flush_interval, promote_on_read, columns, 3)
    }

    /// An overlay that promotes a key read from the base into level 1 once
    /// it has been read `promote_threshold` times.
    pub fn with_columns_and_promote_threshold(
        base: ByteMap<Vec<u8>>,
        flush_threshold: usize,
        flush_interval: std::time::Duration,
        promote_on_read: bool,
        columns: usize,
        promote_threshold: u64,
    ) -> (r: Self)
        requires
            base.wf(),
        ensures
            r.wf(),
            r.base_view() == base@.map_values(|v: Vec<u8>| v@),
            r.l1_view() == Map::<Seq<u8>, Option<Seq<u8>>>::empty(),
            r.access_view() == Map::<Seq<u8>, u64>::empty(),
            r.spec_columns() == columns,
            r.spec_flush_threshold() == flush_threshold,
            r.spec_promote_on_read() == promote_on_read,
            r.spec_promote_threshold() == promote_threshold,
            r.spec_flush_interval() == flush_interval,
    {
        let l1 = ByteMap::new();
        let access_counts = ByteMap::new();
        let r = OverlayTree {
            base,
            l1,
            access_counts,
            flush_threshold,
            flush_interval,
            promote_on_read,
            promote_threshold,
            columns,
        };
        assert(r.l1_view() =~= Map::<Seq<u8>, Option<Seq<u8>>>::empty());
        r
    }

    /// The number of entries in level 1.
    pub fn l1_size(&self) -> (r: usize)
        requires
            self.wf(),
        ensures
            r == self.l1_len(),
    {
        self.l1.len()
    }

    /// The time between background flushes.
    pub fn flush_interval(&self) -> (r: std::time::Duration)
        ensures
            r == self.spec_flush_interval(),
    {
        self.flush_interval
    }

    /// Whether a background flush is due: the interval has passed, or level 1
    /// has reached the flush threshold.
    pub fn flush_due(&self, interval_elapsed: bool) -> (r: bool)
        requires
            self.wf(),
        ensures
            r == (interval_elapsed || self.l1_len() >= self.spec_flush_threshold()),
    {
        interval_elapsed || self.l1.len() >= self.flush_threshold
    }

    /// Level 1's answer for `key`: `Some(row)` or `Some(None)` for a removed
    /// key; `None` when level 1 does not know the key.
    fn l1_get_value(&self, key: &[u8]) -> (r: Option<Option<Vec<u8>>>)
        requires
            self.wf(),
        ensures
            match r {
                Some(Some(v)) => self.l1_view().contains_key(key@) && self.l1_view()[key@] == Some(v@),
                Some(None) => self.l1_view().contains_key(key@) && self.l1_view()[key@] is None,
                None => !self.l1_view().contains_key(key@),
            },
    {
        match self.l1.get(key) {
            Some(L1Value::Row(val)) => Some(Some(copy_bytes(val.as_slice()))),
            Some(L1Value::Tombstone) => Some(None),
            None => None,
        }
    }

    /// Rebuilds the row of `key` from its columns in the base store.
    fn base_reconstruct(&self, key: &[u8]) -> (r: Option<Vec<u8>>)
        requires
            self.wf(),
        ensures
            match r {
                Some(v) => reconstruct(self.base_view(), key@, self.spec_columns()) == Some(v@),
                None => reconstruct(self.base_view(), key@, self.spec_columns()) is None,
            },
    {
        let mut cols: Vec<Vec<u8>> = Vec::new();
        let mut i: usize = 0;
        let ghost b = self.base_view();
        while i < self.columns
            invariant
                self.wf(),
                b == self.base_view(),
                i <= self.columns,
                cols@.len() == i,
                forall|j: int| 0 <= j < i ==> #[trigger] b.contains_key(col_key_spec(key@, j as nat)),
                forall|j: int| 0 <= j < i ==> #[trigger] cols@[j]@ == b[col_key_spec(key@, j as nat)],
            decreases self.columns - i,
        {
            let ck = make_col_key(key, i);
            match self.base.get(ck.as_slice()) {
                Some(c) => {
                    cols.push(copy_bytes(c.as_slice()));
                },
                None => {
                    assert(!b.contains_key(col_key_spec(key@, i as nat)));
                    return None;
                },
            }
            i += 1;
        }
        let row = join_cols_vec(&cols);
        proof {
            assert(cols@.map_values(|c: Vec<u8>| c@) =~= Seq::new(
                self.spec_columns(),
                |j: int| b[col_key_spec(key@, j as nat)],
            ));
            assert forall|j: nat| j < self.spec_columns() implies #[trigger] b.contains_key(col_key_spec(key@, j)) by {
                let jj: int = j as int;
                assert(0 <= jj < i);
                assert(b.contains_key(col_key_spec(key@, jj as nat)));
            }
        }
        Some(row)
    }

    /// Counts one more read of `key` from the base store and gives the new
    /// count.
    fn increment_access_count(&mut self, key: &[u8]) -> (r: u64)
        requires
            old(self).wf(),
        ensures
            final(self).wf(),
            r == bumped(old(self).access_view(), key@),
            final(self).access_view() == old(self).access_view().insert(key@, r),
            final(self).base == old(self).base,
            final(self).l1 == old(self).l1,
            final(self).same_settings(old(self)),
    {
        let n: u64 = match self.access_counts.get(key) {
            Some(c) => if *c == u64::MAX {
                0
            } else {
                *c + 1
            },
            None => 1,
        };
        self.access_counts.insert(copy_bytes(key), n);
        n
    }

    /// Reads `key`: level 1 first, then the base store.  A key read from the
    /// base is counted, and promoted into level 1 once its count reaches the
    /// promotion threshold while level 1 is below the flush threshold.
    pub fn get(&mut self, key: &[u8]) -> (r: Option<Vec<u8>>)
        requires
            old(self).wf(),
        ensures
            final(self).wf(),
            match r {
                Some(v) => old(self).read(key@) == Some(v@),
                None => old(self).read(key@) is None,
            },
            forall|k: Seq<u8>| #[trigger] final(self).read(k) == old(self).read(k),
            final(self)@ == old(self)@,
            final(self).base_view() == old(self).base_view(),
            final(self).same_settings(old(self)),
            ({
                let counted = old(self).spec_promote_on_read() && !old(self).l1_view().contains_key(key@)
                    && old(self).read(key@) is Some;
                let promoted = counted && bumped(old(self).access_view(), key@) >= old(self).spec_promote_threshold()
                    && old(self).l1_len() < old(self).spec_flush_threshold();
                &&& final(self).access_view() == (if counted {
                    old(self).access_view().insert(key@, bumped(old(self).access_view(), key@))
                } else {
                    old(self).access_view()
                })
                &&& final(self).l1_view() == (if promoted {
                    old(self).l1_view().insert(key@, old(self).read(key@))
                } else {
                    old(self).l1_view()
                })
            }),
    {
        if let Some(v) = self.l1_get_value(key) {
            return v;
        }
        let row = match self.base_reconstruct(key) {
            Some(row) => row,
            None => {
                return None;
            },
        };
        if self.promote_on_read {
            let access_count = self.increment_access_count(key);
            if access_count >= self.promote_threshold {
                let cur_len = self.l1.len();
                if cur_len < self.flush_threshold {
                    let ghost before = self.l1_view();
                    self.l1.insert(copy_bytes(key), L1Value::Row(copy_bytes(row.as_slice())));
                    proof {
                        assert(self.l1_view() =~= before.insert(key@, Some(row@)));
                        assert forall|k: Seq<u8>| #[trigger] self.read(k) == old(self).read(k) by {}
                    }
                }
            }
        }
        proof {
            assert forall|k: Seq<u8>| #[trigger] self.read(k) == old(self).read(k) by {}
            assert(self@ =~= old(self)@);
        }
        Some(row)
    }

    /// Writes `value` under `key` into level 1, and gives back what a read
    /// gave before.
    pub fn insert(&mut self, key: &[u8], value: Vec<u8>) -> (r: Option<Vec<u8>>)
        requires
            old(self).wf(),
        ensures
            final(self).wf(),
            match r {
                Some(v) => old(self).read(key@) == Some(v@),
                None => old(self).read(key@) is None,
            },
            final(self)@ == old(self)@.insert(key@, value@),
            final(self).l1_view() == old(self).l1_view().insert(key@, Some(value@)),
            final(self).base_view() == old(self).base_view(),
            final(self).same_settings(old(self)),
            final(self).access_view() == (if old(self).spec_promote_on_read() && !old(self).l1_view().contains_key(key@)
                && old(self).read(key@) is Some {
                old(self).access_view().insert(key@, bumped(old(self).access_view(), key@))
            } else {
                old(self).access_view()
            }),
    {
        let prev = self.get(key);
        let ghost mid = self.l1_view();
        let ghost value_view = value@;
        self.l1.insert(copy_bytes(key), L1Value::Row(value));
        proof {
            assert(self.l1_view() =~= mid.insert(key@, Some(value_view)));
            assert(self.l1_view() =~= old(self).l1_view().insert(key@, Some(value_view)));
            assert(self@ =~= old(self)@.insert(key@, value_view));
        }
        prev
    }

    /// Marks `key` removed in level 1, and gives back what a read gave
    /// before.
    pub fn remove(&mut self, key: &[u8]) -> (r: Option<Vec<u8>>)
        requires
            old(self).wf(),
        ensures
            final(self).wf(),
            match r {
                Some(v) => old(self).read(key@) == Some(v@),
                None => old(self).read(key@) is None,
            },
            final(self)@ == old(self)@.remove(key@),
            final(self).l1_view() == old(self).l1_view().insert(key@, None),
            final(self).base_view() == old(self).base_view(),
            final(self).same_settings(old(self)),
            final(self).access_view() == (if old(self).spec_promote_on_read() && !old(self).l1_view().contains_key(key@)
                && old(self).read(key@) is Some {
                old(self).access_view().insert(key@, bumped(old(self).access_view(), key@))
            } else {
                old(self).access_view()
            }),
    {
        let prev = self.get(key);
        let ghost mid = self.l1_view();
        self.l1.insert(copy_bytes(key), L1Value::Tombstone);
        proof {
            assert(self.l1_view() =~= mid.insert(key@, None));
            assert(self.l1_view() =~= old(self).l1_view().insert(key@, None));
            assert(self@ =~= old(self)@.remove(key@));
        }
        prev
    }

    /// The base store's entries are sorted and stand for the base store.
    pub proof fn lemma_base_entries(&self)
        requires
            self.wf(),
        ensures
            keys_sorted(self.base_entries()),
            entries_map(self.base_entries()) == self.base_view(),
    {
        crate::aggregate::lemma_map_entries(&self.base);
        assert(self.base_entries() == crate::aggregate::map_entries(&self.base));
    }

    proof fn lemma_l1_entries(&self)
        requires
            self.wf(),
        ensures
            keys_sorted(self.l1_entries()),
            entries_map(self.l1_entries()) == self.l1_view(),
            forall|a: int, b: int| 0 <= a < b < self.l1_entries().len() ==> #[trigger] self.l1_entries()[a].0 != #[trigger] self.l1_entries()[b].0,
    {
        lemma_lex_order();
        let s = self.l1.entries();
        let t = self.l1_entries();
        assert(keys_sorted(t)) by {
            assert forall|i: int, j: int| 0 <= i < j < t.len() implies lex_lt(#[trigger] t[i].0, #[trigger] t[j].0) by {
                assert(t[i].0 == s[i].0 && t[j].0 == s[j].0);
            }
        }
        assert forall|a: int, b: int| 0 <= a < b < t.len() implies #[trigger] t[a].0 != #[trigger] t[b].0 by {
            assert(lex_lt(t[a].0, t[b].0));
        }
        let m = self.l1_view();
        assert forall|i: int| 0 <= i < t.len() implies #[trigger] m.contains_key(t[i].0) && m[t[i].0] == t[i].1 by {
            lemma_entries_map_at(s, i);
        }
        assert forall|k: Seq<u8>| #[trigger] m.contains_key(k) implies has_key(t, k) by {
            let j = choose|j: int| 0 <= j < s.len() && #[trigger] s[j].0 == k;
            assert(t[j].0 == k);
        }
        crate::byte_map::lemma_entries_map_is(t, m);
    }

    /// Pushes every level-1 entry down into the base store and empties
    /// level 1: a row is written as its columns (`row_columns_spec`: a row of
    /// the grade layout as its grade and payload, any other row split at
    /// every delimiter), a removal erases the key's columns.  When every row in level 1 has exactly the overlay's number
    /// of columns (between 1 and 2^16), no read changes.
    pub fn flush_now(&mut self)
        requires
            old(self).wf(),
        ensures
            final(self).wf(),
            final(self).l1_view() == Map::<Seq<u8>, Option<Seq<u8>>>::empty(),
            final(self).l1_len() == 0,
            final(self).base_view() == flush_spec(old(self).base_view(), old(self).l1_entries(), old(self).spec_columns()),
            final(self).access_view() == old(self).access_view(),
            final(self).same_settings(old(self)),
            rows_fit(old(self).l1_view(), old(self).spec_columns()) && 1 <= old(self).spec_columns() <= 65536
                ==> final(self)@ == old(self)@,
    {
        let ghost old_l1 = self.l1_entries();
        let ghost b0 = self.base_view();
        let drained = self.l1.take();
        let ghost l1_after = self.l1;
        let ghost ac = self.access_counts;
        let ghost settings = (self.columns, self.flush_threshold, self.promote_on_read, self.promote_threshold, self.flush_interval);
        let ghost ents = drained.entries();
        assert(old_l1 == ents.map_values(|e: (Seq<u8>, L1Value)| (e.0, l1_entry_view(e.1))));
        let n = drained.len();
        let mut i: usize = 0;
        while i < n
            invariant
                self.base.wf(),
                self.l1 == l1_after,
                self.access_counts == ac,
                settings == (self.columns, self.flush_threshold, self.promote_on_read, self.promote_threshold, self.flush_interval),
                drained.wf(),
                n == drained.spec_len(),
                i <= n,
                ents == drained.entries(),
                old_l1 == ents.map_values(|e: (Seq<u8>, L1Value)| (e.0, l1_entry_view(e.1))),
                self.base_view() == flush_spec(b0, old_l1.take(i as int), self.columns as nat),
            decreases n - i,
        {
            let k = drained.key_at(i);
            let ghost prev = self.base_view();
            assert(old_l1.take(i + 1).drop_last() =~= old_l1.take(i as int));
            assert(old_l1.take(i + 1).last() == old_l1[i as int]);
            match drained.value_at(i) {
                L1Value::Row(val) => {
                    let cols = row_columns(val.as_slice());
                    let ghost cs = cols@.map_values(|c: Vec<u8>| c@);
                    let mut j: usize = 0;
                    while j < cols.len()
                        invariant
                            self.base.wf(),
                            self.l1 == l1_after,
                            self.access_counts == ac,
                            settings == (self.columns, self.flush_threshold, self.promote_on_read, self.promote_threshold, self.flush_interval),
                            j <= cols.len(),
                            cs == cols@.map_values(|c: Vec<u8>| c@),
                            self.base_view() == write_columns(prev, k@, cs.take(j as int)),
                        decreases cols.len() - j,
                    {
                        let ck = make_col_key(k.as_slice(), j);
                        let c = copy_bytes(cols[j].as_slice());
                        let ghost before = self.base_view();
                        self.base.insert(ck, c);
                        assert(cs.take(j + 1).drop_last() =~= cs.take(j as int));
                        assert(self.base_view() =~= before.insert(col_key_spec(k@, j as nat), cs[j as int]));
                        j += 1;
                    }
                    assert(cs.take(j as int) =~= cs);
                },
                L1Value::Tombstone => {
                    let mut j: usize = 0;
                    while j < self.columns
                        invariant
                            self.base.wf(),
                            self.l1 == l1_after,
                            self.access_counts == ac,
                            settings == (self.columns, self.flush_threshold, self.promote_on_read, self.promote_threshold, self.flush_interval),
                            j <= self.columns,
                            self.base_view() == erase_columns(prev, k@, j as nat),
                        decreases self.columns - j,
                    {
                        let ck = make_col_key(k.as_slice(), j);
                        let ghost before = self.base_view();
                        self.base.remove(ck.as_slice());
                        assert(self.base_view() =~= before.remove(col_key_spec(k@, j as nat)));
                        j += 1;
                    }
                },
            }
            i += 1;
        }
        proof {
            assert(old_l1.take(n as int) =~= old_l1);
            assert(self.l1_view() =~= Map::<Seq<u8>, Option<Seq<u8>>>::empty());
            if rows_fit(old(self).l1_view(), old(self).spec_columns()) && 1 <= old(self).spec_columns() <= 65536 {
                old(self).lemma_l1_entries();
                let l1e = old(self).l1_entries();
                assert forall|a: int| 0 <= a < l1e.len() implies (#[trigger] l1e[a].1 matches Some(row) ==> row_columns_spec(row).len() == old(self).spec_columns()) by {
                    lemma_entries_map_at(l1e, a);
                }
                assert forall|k: Seq<u8>| #[trigger] self.read(k) == old(self).read(k) by {
                    lemma_flush_preserves_reads(l1e, b0, old(self).spec_columns(), k);
                }
                assert(self@ =~= old(self)@);
            }
        }
    }

    /// Sum, sum of squares and count of the 8-byte big-endian values stored
    /// for column `column_index`, over every row.
    pub open spec fn column_stats(&self, column_index: nat) -> (nat, nat, nat) {
        range_stats(self.base_entries(), col_prefix_spec(column_index), None, col_prefix_spec(column_index), false)
    }

    /// The same, over the rows whose key lies in `[k_start, k_end)`.
    pub open spec fn column_range(&self, column_index: nat, k_start: Seq<u8>, k_end: Seq<u8>) -> (nat, nat, nat) {
        range_stats(
            self.base_entries(),
            col_key_spec(k_start, column_index),
            Some(col_key_spec(k_end, column_index)),
            col_prefix_spec(column_index),
            false,
        )
    }

    fn column_prefix(column_index: usize) -> (r: Vec<u8>)
        ensures
            r@ == col_prefix_spec(column_index as nat),
    {
        let empty: Vec<u8> = Vec::new();
        let r = make_col_key(empty.as_slice(), column_index);
        assert(col_prefix_spec(column_index as nat) + empty@ =~= col_prefix_spec(column_index as nat));
        r
    }

    /// Sum of a numeric column: the 8-byte big-endian values stored in the
    /// base store for column `column_index`.
    pub fn sum_column(&self, column_index: usize) -> (r: u128)
        requires
            self.wf(),
        ensures
            r == self.column_stats(column_index as nat).0,
    {
        let prefix = Self::column_prefix(column_index);
        let st = scan_stats(&self.base, prefix.as_slice(), None, prefix.as_slice(), false, false).unwrap();
        st.0
    }

    /// Sum and count of a numeric column; their quotient is its average.
    pub fn column_totals(&self, column_index: usize) -> (r: (u128, u128))
        requires
            self.wf(),
        ensures
            r.0 == self.column_stats(column_index as nat).0,
            r.1 == self.column_stats(column_index as nat).2,
    {
        let prefix = Self::column_prefix(column_index);
        let st = scan_stats(&self.base, prefix.as_slice(), None, prefix.as_slice(), false, false).unwrap();
        (st.0, st.2 as u128)
    }

    /// Sum of a numeric column over the rows in `[k_start, k_end)`.
    pub fn sum_column_range(&self, column_index: usize, k_start: &[u8], k_end: &[u8]) -> (r: u128)
        requires
            self.wf(),
        ensures
            r == self.column_range(column_index as nat, k_start@, k_end@).0,
    {
        let prefix = Self::column_prefix(column_index);
        let start_key = make_col_key(k_start, column_index);
        let end_key = make_col_key(k_end, column_index);
        assert(prefix@.is_prefix_of(start_key@)) by {
            assert(prefix@ =~= start_key@.subrange(0, prefix@.len() as int));
        }
        let st = scan_stats(&self.base, start_key.as_slice(), Some(end_key.as_slice()), prefix.as_slice(), false, false).unwrap();
        st.0
    }

    /// Sum and count of a numeric column over the rows in `[k_start, k_end)`.
    pub fn column_range_totals(&self, column_index: usize, k_start: &[u8], k_end: &[u8]) -> (r: (u128, u128))
        requires
            self.wf(),
        ensures
            r.0 == self.column_range(column_index as nat, k_start@, k_end@).0,
            r.1 == self.column_range(column_index as nat, k_start@, k_end@).2,
    {
        let prefix = Self::column_prefix(column_index);
        let start_key = make_col_key(k_start, column_index);
        let end_key = make_col_key(k_end, column_index);
        assert(prefix@.is_prefix_of(start_key@)) by {
            assert(prefix@ =~= start_key@.subrange(0, prefix@.len() as int));
        }
        let st = scan_stats(&self.base, start_key.as_slice(), Some(end_key.as_slice()), prefix.as_slice(), false, false).unwrap();
        (st.0, st.2 as u128)
    }

    /// Sum, sum of squares and count of a numeric column over the rows in
    /// `[k_start, k_end)`.
    pub fn column_range_stats(&self, column_index: usize, k_start: &[u8], k_end: &[u8]) -> (r: (u128, u128, u64))
        requires
            self.wf(),
            self.column_range(column_index as nat, k_start@, k_end@).1 <= u128::MAX,
        ensures
            r.0 == self.column_range(column_index as nat, k_start@, k_end@).0,
            r.1 == self.column_range(column_index as nat, k_start@, k_end@).1,
            r.2 == self.column_range(column_index as nat, k_start@, k_end@).2,
    {
        self.try_column_range_stats(column_index, k_start, k_end).unwrap()
    }

    /// `column_range_stats`, or `None` when the sum of squares does not fit
    /// in a `u128`.
    pub fn try_column_range_stats(&self, column_index: usize, k_start: &[u8], k_end: &[u8]) -> (r: Option<(u128, u128, u64)>)
        requires
            self.wf(),
        ensures
            r is None <==> self.column_range(column_index as nat, k_start@, k_end@).1 > u128::MAX,
            r matches Some(t) ==> {
                &&& t.0 == self.column_range(column_index as nat, k_start@, k_end@).0
                &&& t.1 == self.column_range(column_index as nat, k_start@, k_end@).1
                &&& t.2 == self.column_range(column_index as nat, k_start@, k_end@).2
            },
    {
        let prefix = Self::column_prefix(column_index);
        let start_key = make_col_key(k_start, column_index);
        let end_key = make_col_key(k_end, column_index);
        assert(prefix@.is_prefix_of(start_key@)) by {
            assert(prefix@ =~= start_key@.subrange(0, prefix@.len() as int));
        }
        scan_stats(&self.base, start_key.as_slice(), Some(end_key.as_slice()), prefix.as_slice(), false, true)
    }

    /// Reads one column of `key`: from the level-1 row if there is one, else
    /// straight from the base store.  `None` for an index out of range: one
    /// past the row's columns, or at or past 2^16, the number of columns a
    /// column key can name.
    pub fn get_column(&self, key: &[u8], column_index: usize) -> (r: Option<Vec<u8>>)
        requires
            self.wf(),
        ensures
            r matches Some(v) ==> Some(v@) == column_read(self.l1_view(), self.base_view(), key@, column_index as nat),
            r is None ==> column_read(self.l1_view(), self.base_view(), key@, column_index as nat) is None,
            column_index >= 65536 ==> r is None,
    {
        if column_index >= 65536 {
            return None;
        }
        match self.l1.get(key) {
            Some(L1Value::Row(val)) => {
                let cols = row_columns(val.as_slice());
                if column_index < cols.len() {
                    assert(cols@[column_index as int]@ == row_columns_spec(val@)[column_index as int]);
                    Some(copy_bytes(cols[column_index].as_slice()))
                } else {
                    None
                }
            },
            Some(L1Value::Tombstone) => None,
            None => {
                let ck = make_col_key(key, column_index);
                match self.base.get(ck.as_slice()) {
                    Some(c) => Some(copy_bytes(c.as_slice())),
                    None => None,
                }
            },
        }
    }
}

/// What a read of one column gives: nothing for an index at or past 2^16;
/// else the column of the level-1 row, if level 1 knows the key, else the
/// stored column.
pub open spec fn column_read(
    l1: Map<Seq<u8>, Option<Seq<u8>>>,
    base: Map<Seq<u8>, Seq<u8>>,
    key: Seq<u8>,
    idx: nat,
) -> Option<Seq<u8>> {
    if idx >= 65536 {
        None
    } else if l1.contains_key(key) {
        match l1[key] {
            Some(row) => if idx < row_columns_spec(row).len() {
                Some(row_columns_spec(row)[idx as int])
            } else {
                None
            },
            None => None,
        }
    } else if base.contains_key(col_key_spec(key, idx)) {
        Some(base[col_key_spec(key, idx)])
    } else {
        None
    }
}


/// The base store after the columns of one row are written under `key`,
/// column 0 first.
pub open spec fn write_columns(base: Map<Seq<u8>, Seq<u8>>, key: Seq<u8>, cols: Seq<Seq<u8>>) -> Map<Seq<u8>, Seq<u8>>
    decreases cols.len(),
{
    if cols.len() == 0 {
        base
    } else {
        write_columns(base, key, cols.drop_last()).insert(col_key_spec(key, (cols.len() - 1) as nat), cols.last())
    }
}

/// The base store after columns `0..n` of `key` are removed.
pub open spec fn erase_columns(base: Map<Seq<u8>, Seq<u8>>, key: Seq<u8>, n: nat) -> Map<Seq<u8>, Seq<u8>>
    decreases n,
{
    if n == 0 {
        base
    } else {
        erase_columns(base, key, (n - 1) as nat).remove(col_key_spec(key, (n - 1) as nat))
    }
}

/// The base store after one level-1 entry is pushed down: a row is written
/// column by column, as `row_columns_spec` splits it; a removal erases the `columns` columns of the key.
pub open spec fn flush_entry(
    base: Map<Seq<u8>, Seq<u8>>,
    key: Seq<u8>,
    v: Option<Seq<u8>>,
    columns: nat,
) -> Map<Seq<u8>, Seq<u8>> {
    match v {
        Some(row) => write_columns(base, key, row_columns_spec(row)),
        None => erase_columns(base, key, columns),
    }
}

/// The base store after level-1 entries are pushed down in order.
pub open spec fn flush_spec(
    base: Map<Seq<u8>, Seq<u8>>,
    entries: Seq<(Seq<u8>, Option<Seq<u8>>)>,
    columns: nat,
) -> Map<Seq<u8>, Seq<u8>>
    decreases entries.len(),
{
    if entries.len() == 0 {
        base
    } else {
        flush_entry(flush_spec(base, entries.drop_last(), columns), entries.last().0, entries.last().1, columns)
    }
}

/// Every row in level 1 is stored as exactly `columns` columns.
pub open spec fn rows_fit(l1: Map<Seq<u8>, Option<Seq<u8>>>, columns: nat) -> bool {
    forall|k: Seq<u8>| #[trigger] l1.contains_key(k) ==> (l1[k] matches Some(row) ==> row_columns_spec(row).len() == columns)
}

proof fn lemma_write_columns(base: Map<Seq<u8>, Seq<u8>>, key: Seq<u8>, cols: Seq<Seq<u8>>, k: Seq<u8>, j: nat)
    requires
        cols.len() <= 65536,
        j < 65536,
    ensures
        ({
            let w = write_columns(base, key, cols);
            let ck = col_key_spec(k, j);
            if k == key && j < cols.len() {
                w.contains_key(ck) && w[ck] == cols[j as int]
            } else {
                w.contains_key(ck) == base.contains_key(ck) && (base.contains_key(ck) ==> w[ck] == base[ck])
            }
        }),
    decreases cols.len(),
{
    if cols.len() > 0 {
        lemma_write_columns(base, key, cols.drop_last(), k, j);
        let n = (cols.len() - 1) as nat;
        if col_key_spec(k, j) == col_key_spec(key, n) {
            lemma_col_key_injective(k, j, key, n);
        }
    }
}

proof fn lemma_erase_columns(base: Map<Seq<u8>, Seq<u8>>, key: Seq<u8>, n: nat, k: Seq<u8>, j: nat)
    requires
        n <= 65536,
        j < 65536,
    ensures
        ({
            let w = erase_columns(base, key, n);
            let ck = col_key_spec(k, j);
            if k == key && j < n {
                !w.contains_key(ck)
            } else {
                w.contains_key(ck) == base.contains_key(ck) && (base.contains_key(ck) ==> w[ck] == base[ck])
            }
        }),
    decreases n,
{
    if n > 0 {
        lemma_erase_columns(base, key, (n - 1) as nat, k, j);
        if col_key_spec(k, j) == col_key_spec(key, (n - 1) as nat) {
            lemma_col_key_injective(k, j, key, (n - 1) as nat);
        }
    }
}

/// Pushing down entries with distinct keys leaves column `j` of each pushed
/// key as its row says, and every other column as it was.
proof fn lemma_flush_columns(
    base: Map<Seq<u8>, Seq<u8>>,
    entries: Seq<(Seq<u8>, Option<Seq<u8>>)>,
    columns: nat,
    k: Seq<u8>,
    j: nat,
)
    requires
        columns <= 65536,
        j < columns,
        forall|a: int, b: int| 0 <= a < b < entries.len() ==> #[trigger] entries[a].0 != #[trigger] entries[b].0,
        forall|a: int| 0 <= a < entries.len() ==> (#[trigger] entries[a].1 matches Some(row) ==> row_columns_spec(row).len() == columns),
    ensures
        ({
            let w = flush_spec(base, entries, columns);
            let ck = col_key_spec(k, j);
            if exists|a: int| 0 <= a < entries.len() && #[trigger] entries[a].0 == k {
                let a = choose|a: int| 0 <= a < entries.len() && #[trigger] entries[a].0 == k;
                match entries[a].1 {
                    Some(row) => w.contains_key(ck) && w[ck] == row_columns_spec(row)[j as int],
                    None => !w.contains_key(ck),
                }
            } else {
                w.contains_key(ck) == base.contains_key(ck) && (base.contains_key(ck) ==> w[ck] == base[ck])
            }
        }),
    decreases entries.len(),
{
    if entries.len() > 0 {
        let init = entries.drop_last();
        assert forall|a: int, b: int| 0 <= a < b < init.len() implies #[trigger] init[a].0 != #[trigger] init[b].0 by {
            assert(init[a] == entries[a] && init[b] == entries[b]);
        }
        assert forall|a: int| 0 <= a < init.len() implies (#[trigger] init[a].1 matches Some(row) ==> row_columns_spec(row).len() == columns) by {
            assert(init[a] == entries[a]);
        }
        lemma_flush_columns(base, init, columns, k, j);
        let prev = flush_spec(base, init, columns);
        let last = entries.last();
        let n = (entries.len() - 1) as int;
        match last.1 {
            Some(row) => {
                assert(entries[n].1 == last.1);
                lemma_write_columns(prev, last.0, row_columns_spec(row), k, j);
            },
            None => {
                lemma_erase_columns(prev, last.0, columns, k, j);
            },
        }
        if exists|a: int| 0 <= a < entries.len() && #[trigger] entries[a].0 == k {
            let a = choose|a: int| 0 <= a < entries.len() && #[trigger] entries[a].0 == k;
            if a < n {
                assert(init[a].0 == k);
                let a2 = choose|a: int| 0 <= a < init.len() && #[trigger] init[a].0 == k;
                assert(entries[a2].0 == k);
                if a2 != a {
                    assert(entries[a].0 != entries[a2].0);
                }
                assert(last.0 != k);
            } else {
                assert(a == n);
                assert(!exists|b: int| 0 <= b < init.len() && #[trigger] init[b].0 == k) by {
                    if exists|b: int| 0 <= b < init.len() && #[trigger] init[b].0 == k {
                        let b = choose|b: int| 0 <= b < init.len() && #[trigger] init[b].0 == k;
                        assert(entries[b].0 == entries[n].0);
                    }
                }
            }
        } else {
            assert(last.0 != k) by {
                if last.0 == k {
                    assert(entries[n].0 == k);
                }
            }
            assert(!exists|b: int| 0 <= b < init.len() && #[trigger] init[b].0 == k) by {
                if exists|b: int| 0 <= b < init.len() && #[trigger] init[b].0 == k {
                    let b = choose|b: int| 0 <= b < init.len() && #[trigger] init[b].0 == k;
                    assert(entries[b].0 == k);
                }
            }
        }
    }
}

/// A read of one column agrees with a read of the whole row: when a read of
/// `key` gives a row, a read of its column `j` (below 2^16) gives column `j`
/// of that row, if the row comes from level 1; or if it comes from the base
/// store, is stored as at least one column, and either is a grade row of two
/// columns, an 8-byte grade and a 4-byte payload, or is no grade row and
/// none of its stored columns holds a delimiter.
pub proof fn lemma_column_read_matches_row(t: &OverlayTree, key: Seq<u8>, j: nat)
    requires
        t.read(key) is Some,
        j < 65536,
        j < row_columns_spec(t.read(key).unwrap()).len(),
        !t.l1_view().contains_key(key) ==> t.spec_columns() >= 1,
        !t.l1_view().contains_key(key) ==> if grade_layout(t.read(key).unwrap()) {
            t.spec_columns() == 2 && t.base_view()[col_key_spec(key, 0)].len() == 8
        } else {
            forall|i: nat| i < t.spec_columns() ==> !has_delim(#[trigger] t.base_view()[col_key_spec(key, i)])
        },
    ensures
        column_read(t.l1_view(), t.base_view(), key, j) == Some(row_columns_spec(t.read(key).unwrap())[j as int]),
{
    if !t.l1_view().contains_key(key) {
        let base = t.base_view();
        let n = t.spec_columns();
        let cols = Seq::new(n, |i: int| base[col_key_spec(key, i as nat)]);
        let row = t.read(key).unwrap();
        assert(row == join_spec(cols));
        if grade_layout(row) {
            assert(cols[0] == base[col_key_spec(key, 0)]);
            assert(cols.drop_last() =~= seq![cols[0]]);
            assert(join_spec(cols.drop_last()) == cols.drop_last()[0]);
            assert(row.len() == cols[0].len() + 1 + cols[1].len());
        } else {
            assert forall|i: int| 0 <= i < cols.len() implies !has_delim(#[trigger] cols[i]) by {
                assert(cols[i] == base[col_key_spec(key, i as nat)]);
            }
        }
        lemma_row_columns_of_join(cols);
        assert(base.contains_key(col_key_spec(key, j)));
    }
}

/// What a flush leaves under column 0 of the base store: the first column
/// of each row that level 1 held, and nothing else new; so when the base
/// store held no column-0 entry and level 1 held only rows, column 0 holds
/// exactly the first columns of those rows.
pub proof fn lemma_flush_first_columns(t: &OverlayTree)
    requires
        t.wf(),
        1 <= t.spec_columns() <= 65536,
        rows_fit(t.l1_view(), t.spec_columns()),
        forall|x: Seq<u8>| #[trigger] t.base_view().contains_key(x) ==> !col_prefix_spec(0).is_prefix_of(x),
        forall|k: Seq<u8>| #[trigger] t.l1_view().contains_key(k) ==> t.l1_view()[k] is Some,
    ensures
        ({
            let w = flush_spec(t.base_view(), t.l1_entries(), t.spec_columns());
            &&& forall|k: Seq<u8>| #[trigger] t.l1_view().contains_key(k) ==> w.contains_key(col_key_spec(k, 0))
                && w[col_key_spec(k, 0)] == row_columns_spec(t.l1_view()[k].unwrap())[0]
            &&& forall|x: Seq<u8>| #[trigger] w.contains_key(x) && col_prefix_spec(0).is_prefix_of(x)
                ==> t.l1_view().contains_key(x.skip(5))
        }),
{
    t.lemma_l1_entries();
    let e = t.l1_entries();
    let n = t.spec_columns();
    let base = t.base_view();
    let w = flush_spec(base, e, n);
    let l1 = t.l1_view();
    assert forall|a: int| 0 <= a < e.len() implies (#[trigger] e[a].1 matches Some(row) ==> row_columns_spec(row).len() == n) by {
        lemma_entries_map_at(e, a);
        assert(l1.contains_key(e[a].0));
    }
    assert forall|k: Seq<u8>| #[trigger] l1.contains_key(k) implies w.contains_key(col_key_spec(k, 0))
        && w[col_key_spec(k, 0)] == row_columns_spec(l1[k].unwrap())[0] by {
        lemma_flush_columns(base, e, n, k, 0);
        assert(has_key(e, k));
        let a = choose|a: int| 0 <= a < e.len() && #[trigger] e[a].0 == k;
        lemma_entries_map_at(e, a);
    }
    assert forall|x: Seq<u8>| #[trigger] w.contains_key(x) && col_prefix_spec(0).is_prefix_of(x)
        implies l1.contains_key(x.skip(5)) by {
        let k = x.skip(5);
        assert(x =~= col_key_spec(k, 0)) by {
            assert(col_prefix_spec(0) =~= x.subrange(0, 5));
        }
        lemma_flush_columns(base, e, n, k, 0);
        if !has_key(e, k) {
            assert(!base.contains_key(x));
        }
        let a = choose|a: int| 0 <= a < e.len() && #[trigger] e[a].0 == k;
        lemma_entries_map_at(e, a);
    }
}

/// Pushing level 1 down into the base store changes no read, when every
/// row in level 1 splits into exactly the overlay's number of columns and
/// that number is between 1 and 2^16.
pub proof fn lemma_flush_preserves_reads(
    l1_entries: Seq<(Seq<u8>, Option<Seq<u8>>)>,
    base: Map<Seq<u8>, Seq<u8>>,
    columns: nat,
    key: Seq<u8>,
)
    requires
        1 <= columns <= 65536,
        forall|a: int, b: int| 0 <= a < b < l1_entries.len() ==> #[trigger] l1_entries[a].0 != #[trigger] l1_entries[b].0,
        forall|a: int| 0 <= a < l1_entries.len() ==> (#[trigger] l1_entries[a].1 matches Some(row) ==> row_columns_spec(row).len() == columns),
    ensures
        overlay_read(Map::empty(), flush_spec(base, l1_entries, columns), columns, key)
            == overlay_read(entries_map(l1_entries), base, columns, key),
{
    let w = flush_spec(base, l1_entries, columns);
    let l1 = entries_map(l1_entries);
    if has_key(l1_entries, key) {
        let a = choose|a: int| 0 <= a < l1_entries.len() && #[trigger] l1_entries[a].0 == key;
        assert(l1.contains_key(key));
        assert(l1[key] == l1_entries[a].1);
        match l1_entries[a].1 {
            Some(row) => {
                assert forall|j: nat| j < columns implies #[trigger] w.contains_key(col_key_spec(key, j)) by {
                    lemma_flush_columns(base, l1_entries, columns, key, j);
                }
                let cols = Seq::new(columns, |i: int| w[col_key_spec(key, i as nat)]);
                assert(cols =~= row_columns_spec(row)) by {
                    assert forall|i: int| 0 <= i < columns implies cols[i] == row_columns_spec(row)[i] by {
                        let jj = i as nat;
                        lemma_flush_columns(base, l1_entries, columns, key, jj);
                    }
                }
                lemma_join_row_columns(row);
            },
            None => {
                lemma_flush_columns(base, l1_entries, columns, key, 0);
                assert(!w.contains_key(col_key_spec(key, 0)));
            },
        }
    } else {
        assert(!l1.contains_key(key));
        let base_all = forall|i: nat| i < columns ==> #[trigger] base.contains_key(col_key_spec(key, i));
        let w_all = forall|i: nat| i < columns ==> #[trigger] w.contains_key(col_key_spec(key, i));
        assert forall|j: nat| j < columns implies #[trigger] w.contains_key(col_key_spec(key, j)) == base.contains_key(col_key_spec(key, j))
            && (base.contains_key(col_key_spec(key, j)) ==> w[col_key_spec(key, j)] == base[col_key_spec(key, j)]) by {
            lemma_flush_columns(base, l1_entries, columns, key, j);
        }
        if base_all {
            assert forall|i: nat| i < columns implies #[trigger] w.contains_key(col_key_spec(key, i)) by {
                assert(base.contains_key(col_key_spec(key, i)));
            }
        }
        if w_all {
            assert forall|i: nat| i < columns implies #[trigger] base.contains_key(col_key_spec(key, i)) by {
                assert(w.contains_key(col_key_spec(key, i)));
            }
        }
        assert(base_all == w_all);
        if base_all {
            assert(Seq::new(columns, |i: int| w[col_key_spec(key, i as nat)]) =~= Seq::new(
                columns,
                |i: int| base[col_key_spec(key, i as nat)],
            )) by {
                assert forall|i: int| 0 <= i < columns implies #[trigger] w[col_key_spec(key, i as nat)] == base[col_key_spec(key, i as nat)] by {
                    assert(base.contains_key(col_key_spec(key, i as nat)));
                    assert(w.contains_key(col_key_spec(key, i as nat)));
                }
            }
        }
    }
}

} // verus!

use vstd::prelude::*;

use crate::disk_ptr::{DiskPtr, LogOffset, Lsn, PageId};
use crate::snapshot::{trunc_rem, LogKind, Snapshot, SnapshotError, SnapshotModel};

verus! {

/// The size of a segment header in the log.
pub const SEG_HEADER_LEN: usize = 20;

/// The largest size of a message header in the log.
pub const MAX_MSG_HEADER_LEN: usize = 32;

/// The byte that marks a torn or shredded stretch of the log.
pub const CORRUPTED_MARKER: u8 = 0;

/// One message read back from the log.
#[derive(Debug, Clone, Copy)]
pub struct LogMessage {
    pub kind: LogKind,
    pub pid: PageId,
    pub lsn: Lsn,
    pub ptr: DiskPtr,
}

/// Where the scan of one log stream stopped.
pub struct LogTail {
    /// The lsn the scan reached, if it read anything.
    pub cur_lsn: Option<Lsn>,
    /// The log offset of the segment the scan stopped in, if any.
    pub segment_base: Option<LogOffset>,
    /// Segments past the last valid message, by lsn, with their offsets.
    pub torn: Vec<(Lsn, LogOffset)>,
}

/// What cleaning a log's tail decides: its stable lsn and active segment,
/// and the stretches (offset, length) to overwrite with the corrupted
/// marker, in order.
pub struct TailPlan {
    pub stable_lsn: Lsn,
    pub active_segment: Option<LogOffset>,
    pub zero: Vec<(LogOffset, usize)>,
}

/// What a tail scan yields: the stable lsn and active segment, or corruption
/// when the scan stopped inside a segment header.
pub open spec fn tail_outcome(cur: Option<Lsn>, base: Option<LogOffset>, seg: int) -> Result<(int, Option<LogOffset>), SnapshotError> {
    match cur {
        None => Ok((0int, None)),
        Some(l) => {
            let prog = trunc_rem(l as int, seg);
            if !(prog >= SEG_HEADER_LEN || (prog == 0 && base is None)) {
                Err(SnapshotError::Corruption)
            } else if prog + MAX_MSG_HEADER_LEN >= seg {
                Ok((l - prog + seg, None))
            } else {
                Ok((l as int, base))
            }
        },
    }
}

/// The stretch after the last message of a partly written segment, which
/// gets shredded.
pub open spec fn shred_region(cur: Option<Lsn>, base: Option<LogOffset>, seg: int) -> Option<(int, int)> {
    match (cur, base) {
        (Some(l), Some(o)) => {
            let prog = trunc_rem(l as int, seg);
            if tail_outcome(cur, base, seg) is Ok && prog + MAX_MSG_HEADER_LEN < seg {
                Some((o + prog, seg - prog - 1))
            } else {
                None
            }
        },
        _ => None,
    }
}

/// The arithmetic of cleaning a tail stays within the machine's integers.
pub open spec fn tail_fits(cur: Option<Lsn>, base: Option<LogOffset>, seg: int) -> bool {
    &&& tail_outcome(cur, base, seg) matches Ok(t) ==> t.0 <= i64::MAX
    &&& shred_region(cur, base, seg) matches Some(z) ==> z.0 <= u64::MAX
}

/// Every stretch that cleaning a tail overwrites, in order: the shredded
/// end of the current segment, then each torn segment whole.
pub open spec fn zero_regions(tail: (Option<Lsn>, Option<LogOffset>, Seq<(Lsn, LogOffset)>), seg: int) -> Seq<(LogOffset, usize)> {
    let torn = tail.2.map_values(|t: (Lsn, LogOffset)| (t.1, seg as usize));
    match shred_region(tail.0, tail.1, seg) {
        Some(z) => seq![(z.0 as LogOffset, z.1 as usize)] + torn,
        None => torn,
    }
}

impl LogTail {
    /// The tail's fields, as plain values.
    pub open spec fn parts(&self) -> (Option<Lsn>, Option<LogOffset>, Seq<(Lsn, LogOffset)>) {
        (self.cur_lsn, self.segment_base, self.torn@)
    }
}

/// Decides how to clean the tail of one log stream: where it is stable, and
/// which stretches to overwrite.  Nothing is overwritten when the scan
/// stopped inside a segment header.
pub fn clean_tail_for_log(tail: &LogTail, segment_size: usize) -> (r: Result<TailPlan, SnapshotError>)
    requires
        tail.cur_lsn is Some ==> 0 < segment_size <= i64::MAX,
        tail_fits(tail.cur_lsn, tail.segment_base, segment_size as int),
    ensures
        match tail_outcome(tail.cur_lsn, tail.segment_base, segment_size as int) {
            Err(e) => r == Err::<TailPlan, SnapshotError>(e),
            Ok(t) => r matches Ok(plan) && plan.stable_lsn == t.0 && plan.active_segment == t.1
                && plan.zero@ == plan_zero(tail.parts(), segment_size as int),
        },
{
    let seg = segment_size as i64;
    let iterated_lsn = match tail.cur_lsn {
        None => {
            let plan = TailPlan { stable_lsn: 0, active_segment: None, zero: Vec::new() };
            assert(plan.zero@ =~= plan_zero(tail.parts(), segment_size as int));
            return Ok(plan);
        },
        Some(l) => l,
    };
    let segment_progress = iterated_lsn % seg;
    proof {
        assert(segment_progress == trunc_rem(iterated_lsn as int, seg as int));
    }
    let monotonic = segment_progress >= SEG_HEADER_LEN as i64 || (segment_progress == 0 && tail.segment_base.is_none());
    if !monotonic {
        return Err(SnapshotError::Corruption);
    }
    let mut zero: Vec<(LogOffset, usize)> = Vec::new();
    let stable_lsn: Lsn;
    let active_segment: Option<LogOffset>;
    if segment_progress >= seg - MAX_MSG_HEADER_LEN as i64 {
        stable_lsn = iterated_lsn - segment_progress + seg;
        active_segment = None;
    } else {
        if let Some(offset) = tail.segment_base {
            let shred_len = segment_size - segment_progress as usize - 1;
            let shred_base = offset + segment_progress as u64;
            zero.push((shred_base, shred_len));
        }
        stable_lsn = iterated_lsn;
        active_segment = tail.segment_base;
    }
    let ghost head = zero@;
    let mut i: usize = 0;
    while i < tail.torn.len()
        invariant
            i <= tail.torn@.len(),
            zero@ == head + tail.torn@.take(i as int).map_values(|t: (Lsn, LogOffset)| (t.1, segment_size)),
        decreases tail.torn@.len() - i,
    {
        zero.push((tail.torn[i].1, segment_size));
        assert(tail.torn@.take(i + 1).map_values(|t: (Lsn, LogOffset)| (t.1, segment_size))
            =~= tail.torn@.take(i as int).map_values(|t: (Lsn, LogOffset)| (t.1, segment_size)).push((tail.torn@[i as int].1, segment_size)));
        i += 1;
    }
    assert(tail.torn@.take(i as int) =~= tail.torn@);
    proof {
        let torn = tail.torn@.map_values(|t: (Lsn, LogOffset)| (t.1, segment_size));
        assert((segment_size as int) as usize == segment_size);
        match shred_region(tail.cur_lsn, tail.segment_base, segment_size as int) {
            Some(z) => {
                assert(zero@ =~= seq![(z.0 as LogOffset, z.1 as usize)] + torn);
            },
            None => {
                assert(zero@ =~= torn);
            },
        }
    }
    Ok(TailPlan { stable_lsn, active_segment, zero })
}

/// The lsn below which log messages are already in the snapshot.
pub open spec fn replay_floor(stable: Option<Lsn>) -> int {
    match stable {
        Some(s) => s as int,
        None => -1,
    }
}

/// The page table after the log's messages are applied in order, skipping
/// those below `floor`; `false` when one of them is corruption.
pub open spec fn replay(m: SnapshotModel, items: Seq<LogMessage>, floor: int) -> (SnapshotModel, bool)
    decreases items.len(),
{
    if items.len() == 0 {
        (m, true)
    } else {
        let (prev, ok) = replay(m, items.drop_last(), floor);
        let it = items.last();
        if !ok {
            (prev, false)
        } else if it.lsn < floor {
            (prev, true)
        } else {
            prev.applied(it.kind, it.pid as nat, it.lsn, it.ptr)
        }
    }
}

/// Optional lsns ordered with `None` lowest.
pub open spec fn opt_lsn_lt(a: Option<Lsn>, b: Option<Lsn>) -> bool {
    match (a, b) {
        (None, Some(_)) => true,
        (Some(x), Some(y)) => x < y,
        _ => false,
    }
}


/// A log stream's tail, as recovery reads it: the lsn the scan reached and
/// the segment it stopped in.
pub open spec fn tail_kind(t: &LogTail) -> (Option<Lsn>, Option<LogOffset>) {
    (t.cur_lsn, t.segment_base)
}

/// Where an optional tail stopped, as `tail_kind` gives it.
pub open spec fn cold_kind(t: Option<&LogTail>) -> Option<(Option<Lsn>, Option<LogOffset>)> {
    match t {
        Some(c) => Some(tail_kind(c)),
        None => None,
    }
}

/// The stretches cleaning a tail overwrites; none when the scan read
/// nothing.
pub open spec fn plan_zero(tail: (Option<Lsn>, Option<LogOffset>, Seq<(Lsn, LogOffset)>), seg: int) -> Seq<(LogOffset, usize)> {
    if tail.0 is None {
        Seq::empty()
    } else {
        zero_regions(tail, seg)
    }
}

/// What recovery decides: the log replayed over the snapshot, then the
/// stable lsn moved to the furthest tip of the hot and cold logs when that
/// is past it (with the hot log's active segment), the heap pointers' log
/// coordinates dropped; and whether the snapshot moved on.  Corruption in
/// the replay or in either tail is an error.
pub open spec fn advance_outcome(
    snapshot: SnapshotModel,
    items: Seq<LogMessage>,
    hot: (Option<Lsn>, Option<LogOffset>),
    cold: Option<(Option<Lsn>, Option<LogOffset>)>,
    seg: int,
) -> Result<(SnapshotModel, bool), SnapshotError> {
    let old_stable = snapshot.stable_lsn;
    let replayed = replay(snapshot, items, replay_floor(old_stable));
    let h = tail_outcome(hot.0, hot.1, seg);
    let c = match cold {
        Some(t) => tail_outcome(t.0, t.1, seg),
        None => Ok((0int, None)),
    };
    if !replayed.1 {
        Err(SnapshotError::Corruption)
    } else if h is Err {
        Err(h->Err_0)
    } else if c is Err {
        Err(c->Err_0)
    } else {
        let hs = h->Ok_0.0;
        let cs = c->Ok_0.0;
        let new_stable = if hs >= cs { hs } else { cs };
        let moved = new_stable > (match old_stable {
            Some(s) => s as int,
            None => 0,
        });
        let stable = if moved { Some(new_stable as Lsn) } else { old_stable };
        let m = SnapshotModel {
            version: snapshot.version,
            stable_lsn: stable,
            active_segment: if moved { h->Ok_0.1 } else { snapshot.active_segment },
            pt: replayed.0.pt.map_values(|p: crate::snapshot::PageModel| p.forgotten()),
        };
        Ok((m, opt_lsn_lt(old_stable, stable)))
    }
}

/// What recovery yields: the advanced snapshot, the stretches of each log
/// to overwrite, and whether the snapshot moved on and must be written.
pub struct Advanced {
    pub snapshot: Snapshot,
    pub hot_zero: Vec<(LogOffset, usize)>,
    pub cold_zero: Vec<(LogOffset, usize)>,
    pub write_back: bool,
}

/// Recovery that stopped on corruption: the error, and the stretches of the
/// hot log that were already overwritten.  The hot log's tail is settled
/// before the cold log's, so a corrupt cold tail is found after the hot
/// log's tail has been cleaned.
#[derive(Debug)]
pub struct Stopped {
    pub error: SnapshotError,
    pub hot_zero: Vec<(LogOffset, usize)>,
}

/// The stretches of the hot log overwritten before recovery stops: the hot
/// log's cleaning, when the replay and the hot tail are sound.
pub open spec fn zeroed_before_stop(
    snapshot: SnapshotModel,
    items: Seq<LogMessage>,
    hot: (Option<Lsn>, Option<LogOffset>, Seq<(Lsn, LogOffset)>),
    seg: int,
) -> Seq<(LogOffset, usize)> {
    if replay(snapshot, items, replay_floor(snapshot.stable_lsn)).1 && tail_outcome(hot.0, hot.1, seg) is Ok {
        plan_zero(hot, seg)
    } else {
        Seq::empty()
    }
}

/// The messages a replay over a snapshot with this stable lsn applies name
/// pages whose successor fits in a `usize`.
pub open spec fn applied_pids_fit(items: Seq<LogMessage>, stable: Option<Lsn>) -> bool {
    forall|i: int| 0 <= i < items.len() && (#[trigger] items[i]).lsn >= replay_floor(stable) ==> items[i].pid < usize::MAX
}

fn opt_lsn_less(a: Option<Lsn>, b: Option<Lsn>) -> (r: bool)
    ensures
        r == opt_lsn_lt(a, b),
{
    match (a, b) {
        (None, Some(_)) => true,
        (Some(x), Some(y)) => x < y,
        _ => false,
    }
}

/// Brings a snapshot up to the tip of the log: applies the messages read
/// since the snapshot, settles the tails of the hot and (if there is one)
/// cold log, moves the stable lsn to the furthest tip, drops the heap
/// pointers' log coordinates, and says whether the snapshot must be written
/// back.
pub fn advance_snapshot(
    items: &Vec<LogMessage>,
    hot: &LogTail,
    cold: Option<&LogTail>,
    start: Snapshot,
    segment_size: usize,
) -> (r: Result<Advanced, Stopped>)
    requires
        hot.cur_lsn is Some ==> 0 < segment_size <= i64::MAX,
        cold matches Some(c) && c.cur_lsn is Some ==> 0 < segment_size <= i64::MAX,
        applied_pids_fit(items@, start.stable_lsn),
        tail_fits(hot.cur_lsn, hot.segment_base, segment_size as int),
        cold matches Some(c) ==> tail_fits(c.cur_lsn, c.segment_base, segment_size as int),
    ensures
        match advance_outcome(start@, items@, tail_kind(hot), cold_kind(cold), segment_size as int) {
            Err(e) => r matches Err(st) && st.error == e
                && st.hot_zero@ == zeroed_before_stop(start@, items@, hot.parts(), segment_size as int),
            Ok((m, wb)) => r matches Ok(adv) && adv.snapshot@ == m && adv.write_back == wb
                && adv.hot_zero@ == plan_zero(hot.parts(), segment_size as int)
                && adv.cold_zero@ == (match cold {
                    Some(t) => plan_zero(t.parts(), segment_size as int),
                    None => Seq::empty(),
                }),
        },
{
    let mut snapshot = start;
    let old_stable_lsn = snapshot.stable_lsn;
    let floor: i64 = match snapshot.stable_lsn {
        Some(s) => s,
        None => -1,
    };
    let ghost m0 = snapshot@;
    let mut i: usize = 0;
    while i < items.len()
        invariant
            i <= items@.len(),
            applied_pids_fit(items@, old_stable_lsn),
            floor == replay_floor(old_stable_lsn),
            m0 == start@,
            old_stable_lsn == start@.stable_lsn,
            snapshot@ == replay(m0, items@.take(i as int), floor as int).0,
            replay(m0, items@.take(i as int), floor as int).1,
        decreases items@.len() - i,
    {
        let it = items[i];
        assert(items@.take(i + 1).drop_last() =~= items@.take(i as int));
        assert(items@.take(i + 1).last() == it);
        if it.lsn < floor {
            i += 1;
            continue;
        }
        let res = snapshot.apply(it.kind, it.pid, it.lsn, it.ptr);
        if res.is_err() {
            proof {
                assert(!replay(m0, items@.take(i + 1), floor as int).1);
                lemma_replay_stays_failed(m0, items@, floor as int, i + 1);
            }
            return Err(Stopped { error: SnapshotError::Corruption, hot_zero: Vec::new() });
        }
        i += 1;
    }
    assert(items@.take(i as int) =~= items@);
    let hot_plan = match clean_tail_for_log(hot, segment_size) {
        Ok(p) => p,
        Err(e) => {
            return Err(Stopped { error: e, hot_zero: Vec::new() });
        },
    };
    let cold_plan = match cold {
        Some(c) => match clean_tail_for_log(c, segment_size) {
            Ok(p) => p,
            Err(e) => {
                return Err(Stopped { error: e, hot_zero: hot_plan.zero });
            },
        },
        None => TailPlan { stable_lsn: 0, active_segment: None, zero: Vec::new() },
    };
    assert(cold is None ==> cold_plan.zero@ =~= Seq::<(LogOffset, usize)>::empty());
    let ghost replayed = snapshot@;
    proof {
        lemma_replay_keeps_header(start@, items@, replay_floor(start@.stable_lsn));
    }
    let new_stable_lsn = if hot_plan.stable_lsn >= cold_plan.stable_lsn {
        hot_plan.stable_lsn
    } else {
        cold_plan.stable_lsn
    };
    let prev: i64 = match snapshot.stable_lsn {
        Some(s) => s,
        None => 0,
    };
    if new_stable_lsn > prev {
        snapshot.stable_lsn = Some(new_stable_lsn);
        snapshot.active_segment = hot_plan.active_segment;
    }
    snapshot.filter_inner_heap_ids();
    assert(snapshot@.pt == replayed.pt.map_values(|p: crate::snapshot::PageModel| p.forgotten()));
    if opt_lsn_less(snapshot.stable_lsn, old_stable_lsn) {
        return Err(Stopped { error: SnapshotError::Corruption, hot_zero: hot_plan.zero });
    }
    let write_back = opt_lsn_less(old_stable_lsn, snapshot.stable_lsn);
    proof {
        let seg = segment_size as int;
        let h = tail_outcome(hot.cur_lsn, hot.segment_base, seg);
        let c = match cold {
            Some(t) => tail_outcome(t.cur_lsn, t.segment_base, seg),
            None => Ok((0int, None)),
        };
        assert(h == Ok::<(int, Option<LogOffset>), SnapshotError>((hot_plan.stable_lsn as int, hot_plan.active_segment)));
        assert(c->Ok_0.0 == cold_plan.stable_lsn as int);
        let expected = advance_outcome(start@, items@, tail_kind(hot), cold_kind(cold), seg);
        assert(expected is Ok);
        assert(snapshot@.stable_lsn == expected->Ok_0.0.stable_lsn);
        assert(snapshot@.active_segment == expected->Ok_0.0.active_segment);
        assert(snapshot@.version == expected->Ok_0.0.version);
        assert(snapshot@ == expected->Ok_0.0);
        assert(write_back == expected->Ok_0.1);
    }
    Ok(Advanced { snapshot, hot_zero: hot_plan.zero, cold_zero: cold_plan.zero, write_back })
}

proof fn lemma_replay_keeps_header(m: SnapshotModel, items: Seq<LogMessage>, floor: int)
    ensures
        replay(m, items, floor).0.version == m.version,
        replay(m, items, floor).0.stable_lsn == m.stable_lsn,
        replay(m, items, floor).0.active_segment == m.active_segment,
    decreases items.len(),
{
    if items.len() > 0 {
        lemma_replay_keeps_header(m, items.drop_last(), floor);
    }
}

proof fn lemma_replay_stays_failed(m: SnapshotModel, items: Seq<LogMessage>, floor: int, n: int)
    requires
        0 <= n <= items.len(),
        !replay(m, items.take(n), floor).1,
    ensures
        !replay(m, items, floor).1,
    decreases items.len() - n,
{
    if n < items.len() {
        assert(items.take(n + 1).drop_last() =~= items.take(n));
        lemma_replay_stays_failed(m, items, floor, n + 1);
    } else {
        assert(items.take(n) =~= items);
    }
}

/// Recovers the snapshot: the stored one, or an empty one when none was
/// stored, advanced to the tip of the log.
pub fn read_snapshot_or_default(
    stored: Option<Snapshot>,
    items: &Vec<LogMessage>,
    hot: &LogTail,
    cold: Option<&LogTail>,
    segment_size: usize,
) -> (r: Result<Advanced, Stopped>)
    requires
        hot.cur_lsn is Some ==> 0 < segment_size <= i64::MAX,
        cold matches Some(c) && c.cur_lsn is Some ==> 0 < segment_size <= i64::MAX,
        applied_pids_fit(items@, match stored {
            Some(s) => s.stable_lsn,
            None => None,
        }),
        tail_fits(hot.cur_lsn, hot.segment_base, segment_size as int),
        cold matches Some(c) ==> tail_fits(c.cur_lsn, c.segment_base, segment_size as int),
    ensures
        ({
            let start = match stored {
                Some(s) => s@,
                None => SnapshotModel { version: 0, stable_lsn: None, active_segment: None, pt: Seq::empty() },
            };
            match advance_outcome(start, items@, tail_kind(hot), cold_kind(cold), segment_size as int) {
                Err(e) => r matches Err(st) && st.error == e
                    && st.hot_zero@ == zeroed_before_stop(start, items@, hot.parts(), segment_size as int),
                Ok((m, wb)) => r matches Ok(adv) && adv.snapshot@ == m && adv.write_back == wb
                    && adv.hot_zero@ == plan_zero(hot.parts(), segment_size as int)
                    && adv.cold_zero@ == (match cold {
                        Some(t) => plan_zero(t.parts(), segment_size as int),
                        None => Seq::empty(),
                    }),
            }
        }),
{
    let last_snap = match stored {
        Some(s) => s,
        None => Snapshot::default(),
    };
    proof {
        if stored is None {
            assert(last_snap@.pt =~= Seq::<crate::snapshot::PageModel>::empty());
            assert(last_snap@ =~= SnapshotModel { version: 0, stable_lsn: None, active_segment: None, pt: Seq::empty() });
        }
    }
    advance_snapshot(items, hot, cold, last_snap, segment_size)
}

/// Recovery never moves the stable lsn back, and the snapshot is written
/// back exactly when the stable lsn moved on.
pub proof fn lemma_advance_never_regresses(
    snapshot: SnapshotModel,
    items: Seq<LogMessage>,
    hot: (Option<Lsn>, Option<LogOffset>),
    cold: Option<(Option<Lsn>, Option<LogOffset>)>,
    seg: int,
)
    requires
        advance_outcome(snapshot, items, hot, cold, seg) is Ok,
        tail_fits(hot.0, hot.1, seg),
        cold matches Some(c) ==> tail_fits(c.0, c.1, seg),
    ensures
        ({
            let (m, wb) = advance_outcome(snapshot, items, hot, cold, seg)->Ok_0;
            &&& !opt_lsn_lt(m.stable_lsn, snapshot.stable_lsn)
            &&& wb == (m.stable_lsn != snapshot.stable_lsn)
        }),
{
}

/// Recovery moves the stable lsn to the furthest tail tip exactly when a
/// tip is past it: then the stable lsn is at least the hot tip and at least
/// the cold tip, and is one of them, and the active segment is the hot
/// log's.  When neither tip is past it, the stable lsn and the active
/// segment are kept as they were.
pub proof fn lemma_advance_moves_to_furthest_tip(
    snapshot: SnapshotModel,
    items: Seq<LogMessage>,
    hot: (Option<Lsn>, Option<LogOffset>),
    cold: Option<(Option<Lsn>, Option<LogOffset>)>,
    seg: int,
    hot_tip: int,
    hot_active: Option<LogOffset>,
    cold_tip: int,
)
    requires
        advance_outcome(snapshot, items, hot, cold, seg) is Ok,
        tail_fits(hot.0, hot.1, seg),
        cold matches Some(c) ==> tail_fits(c.0, c.1, seg),
        tail_outcome(hot.0, hot.1, seg) == Ok::<(int, Option<LogOffset>), SnapshotError>((hot_tip, hot_active)),
        cold matches Some(c) ==> tail_outcome(c.0, c.1, seg) matches Ok(t) && t.0 == cold_tip,
        cold is None ==> cold_tip == 0,
    ensures
        ({
            let m = advance_outcome(snapshot, items, hot, cold, seg)->Ok_0.0;
            let old = match snapshot.stable_lsn {
                Some(s) => s as int,
                None => 0,
            };
            &&& (hot_tip > old || cold_tip > old) ==> (m.stable_lsn matches Some(s) && s >= hot_tip && s >= cold_tip
                && (s == hot_tip || s == cold_tip) && m.active_segment == hot_active)
            &&& !(hot_tip > old || cold_tip > old) ==> (m.stable_lsn == snapshot.stable_lsn
                && m.active_segment == snapshot.active_segment)
        }),
{
    lemma_replay_keeps_header(snapshot, items, replay_floor(snapshot.stable_lsn));
}

/// Cleaning a tail that read something and is sound zeroes every torn
/// segment whole, whether or not the end of the current segment is
/// shredded.
pub proof fn lemma_torn_segments_zeroed(
    tail: (Option<Lsn>, Option<LogOffset>, Seq<(Lsn, LogOffset)>),
    seg: int,
    i: int,
)
    requires
        tail.0 is Some,
        tail_outcome(tail.0, tail.1, seg) is Ok,
        0 <= i < tail.2.len(),
    ensures
        plan_zero(tail, seg).contains((tail.2[i].1, seg as usize)),
{
    let torn = tail.2.map_values(|t: (Lsn, LogOffset)| (t.1, seg as usize));
    let z = plan_zero(tail, seg);
    match shred_region(tail.0, tail.1, seg) {
        Some(r) => {
            assert(z[i + 1] == torn[i]);
        },
        None => {
            assert(z[i] == torn[i]);
        },
    }
}

} // verus!

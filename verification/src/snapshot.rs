use vstd::prelude::*;

use crate::disk_ptr::{raw_offset_of, DiskPtr, HeapId, LogOffset, Lsn, PageId};

verus! {

/// What went wrong while rebuilding the page table.
#[derive(Debug, Clone, Copy, PartialEq, Eq)]
pub enum SnapshotError {
    /// The log or the snapshot holds something that cannot be.
    Corruption,
}

/// The kind of a log message, as far as the page table cares.
#[derive(Debug, Clone, Copy, PartialEq, Eq)]
pub enum LogKind {
    Replace,
    Link,
    Free,
    Skip,
    Corrupted,
}

/// Where a page's data lives in the log.
pub enum PageState {
    /// A page with data: a base, and the fragments linked onto it since.
    Present { base: (Lsn, DiskPtr), frags: Vec<(Lsn, DiskPtr)> },
    /// A freed page.
    Free(Lsn, DiskPtr),
    Uninitialized,
}

/// The mathematical value of a `PageState`.
pub enum PageModel {
    Present { base: (Lsn, DiskPtr), frags: Seq<(Lsn, DiskPtr)> },
    Free(Lsn, DiskPtr),
    Uninitialized,
}

impl View for PageState {
    type V = PageModel;

    open spec fn view(&self) -> PageModel {
        match self {
            PageState::Present { base, frags } => PageModel::Present { base: *base, frags: frags@ },
            PageState::Free(l, p) => PageModel::Free(*l, *p),
            PageState::Uninitialized => PageModel::Uninitialized,
        }
    }
}

/// The lsn of the newest write of a present page.
pub open spec fn last_lsn(base: (Lsn, DiskPtr), frags: Seq<(Lsn, DiskPtr)>) -> Lsn {
    if frags.len() == 0 {
        base.0
    } else {
        frags.last().0
    }
}

impl PageModel {
    /// A fragment linked onto a present page; it is kept only when it is
    /// newer than everything the page holds.
    pub open spec fn pushed(self, item: (Lsn, DiskPtr)) -> PageModel {
        match self {
            PageModel::Present { base, frags } => if last_lsn(base, frags) < item.0 {
                PageModel::Present { base, frags: frags.push(item) }
            } else {
                self
            },
            _ => self,
        }
    }

    /// Base and fragments are in strictly increasing lsn order.
    pub open spec fn chain_increasing(self) -> bool {
        match self {
            PageModel::Present { base, frags } => {
                &&& forall|i: int| 0 <= i < frags.len() ==> base.0 < #[trigger] frags[i].0
                &&& forall|i: int, j: int| 0 <= i < j < frags.len() ==> #[trigger] frags[i].0 < #[trigger] frags[j].0
            },
            _ => true,
        }
    }

    /// Every pointer of the page: base first, then the fragments.
    pub open spec fn pointers(self) -> Seq<DiskPtr> {
        match self {
            PageModel::Present { base, frags } => seq![base.1] + frags.map_values(|f: (Lsn, DiskPtr)| f.1),
            PageModel::Free(_, p) => seq![p],
            PageModel::Uninitialized => Seq::empty(),
        }
    }

    /// The page with the log coordinates of its heap pointers dropped.
    pub open spec fn forgotten(self) -> PageModel {
        match self {
            PageModel::Present { base, frags } => PageModel::Present {
                base: (base.0, base.1.forgotten()),
                frags: frags.map_values(|f: (Lsn, DiskPtr)| (f.0, f.1.forgotten())),
            },
            PageModel::Free(l, p) => PageModel::Free(l, p.forgotten()),
            PageModel::Uninitialized => PageModel::Uninitialized,
        }
    }
}

/// The heap ids among some pointers, in order.
pub open spec fn heap_ids_of(ptrs: Seq<DiskPtr>) -> Seq<HeapId>
    decreases ptrs.len(),
{
    if ptrs.len() == 0 {
        Seq::empty()
    } else {
        let init = heap_ids_of(ptrs.drop_last());
        match ptrs.last() {
            DiskPtr::Heap(_, h) => init.push(h),
            DiskPtr::Inline(_) => init,
        }
    }
}

/// The log offset of a pointer, without the stream bit, if it has one.
pub open spec fn lid_of(p: DiskPtr) -> Option<LogOffset> {
    match p.coordinates() {
        Some(l) => Some(raw_offset_of(l)),
        None => None,
    }
}

impl PageState {
    /// Links a fragment onto a present page, unless it is not newer than
    /// everything the page holds.
    pub fn push(&mut self, item: (Lsn, DiskPtr))
        requires
            old(self)@ is Present,
        ensures
            final(self)@ == old(self)@.pushed(item),
            old(self)@.chain_increasing() ==> final(self)@.chain_increasing(),
    {
        match self {
            PageState::Present { base, frags } => {
                let last = if frags.len() == 0 {
                    base.0
                } else {
                    frags[frags.len() - 1].0
                };
                if last < item.0 {
                    frags.push(item);
                }
            },
            _ => {
                assert(false);
            },
        }
    }

    /// Whether the page is free.
    pub fn is_free(&self) -> (r: bool)
        ensures
            r == (self@ is Free),
    {
        matches!(self, PageState::Free(_, _))
    }

    /// The log offsets of the page's pointers, base first.
    pub fn offsets(&self) -> (r: Vec<Option<LogOffset>>)
        ensures
            r@ == self@.pointers().map_values(|p: DiskPtr| lid_of(p)),
    {
        match self {
            PageState::Present { base, frags } => {
                let mut offsets: Vec<Option<LogOffset>> = Vec::new();
                offsets.push(base.1.lid());
                let mut i: usize = 0;
                while i < frags.len()
                    invariant
                        i <= frags@.len(),
                        offsets@ == (seq![base.1] + frags@.take(i as int).map_values(|f: (Lsn, DiskPtr)| f.1)).map_values(
                            |p: DiskPtr| lid_of(p),
                        ),
                    decreases frags@.len() - i,
                {
                    offsets.push(frags[i].1.lid());
                    assert((seq![base.1] + frags@.take(i + 1).map_values(|f: (Lsn, DiskPtr)| f.1)).map_values(|p: DiskPtr| lid_of(p))
                        =~= offsets@);
                    i += 1;
                }
                assert(frags@.take(i as int) =~= frags@);
                offsets
            },
            PageState::Free(_, ptr) => {
                let mut offsets: Vec<Option<LogOffset>> = Vec::new();
                offsets.push(ptr.lid());
                assert(offsets@ =~= self@.pointers().map_values(|p: DiskPtr| lid_of(p)));
                offsets
            },
            PageState::Uninitialized => {
                let offsets: Vec<Option<LogOffset>> = Vec::new();
                assert(offsets@ =~= self@.pointers().map_values(|p: DiskPtr| lid_of(p)));
                offsets
            },
        }
    }

    /// The heap ids the page points to, base first.
    pub fn heap_ids(&self) -> (r: Vec<HeapId>)
        ensures
            r@ == heap_ids_of(self@.pointers()),
    {
        let mut ret: Vec<HeapId> = Vec::new();
        match self {
            PageState::Present { base, frags } => {
                let ghost ptrs = self@.pointers();
                if let Some(heap_id) = base.1.heap_id() {
                    ret.push(heap_id);
                }
                assert(ptrs.take(1).drop_last() =~= Seq::<DiskPtr>::empty());
                assert(ptrs.take(1).last() == base.1);
                assert(heap_ids_of(Seq::<DiskPtr>::empty()) =~= Seq::<HeapId>::empty());
                assert(ret@ =~= heap_ids_of(ptrs.take(1)));
                let mut i: usize = 0;
                while i < frags.len()
                    invariant
                        i <= frags@.len(),
                        ptrs == seq![base.1] + frags@.map_values(|f: (Lsn, DiskPtr)| f.1),
                        ret@ == heap_ids_of(ptrs.take(i + 1)),
                    decreases frags@.len() - i,
                {
                    assert(ptrs.take(i + 2).drop_last() =~= ptrs.take(i + 1));
                    assert(ptrs.take(i + 2).last() == frags@[i as int].1);
                    if let Some(heap_id) = frags[i].1.heap_id() {
                        ret.push(heap_id);
                    }
                    i += 1;
                }
                assert(ptrs.take(i + 1) =~= ptrs);
            },
            PageState::Free(_, ptr) => {
                if let Some(heap_id) = ptr.heap_id() {
                    ret.push(heap_id);
                }
                assert(self@.pointers().drop_last() =~= Seq::<DiskPtr>::empty());
                assert(self@.pointers().last() == *ptr);
                assert(heap_ids_of(Seq::<DiskPtr>::empty()) =~= Seq::<HeapId>::empty());
                assert(ret@ =~= heap_ids_of(self@.pointers()));
            },
            PageState::Uninitialized => {
                assert(ret@ =~= heap_ids_of(self@.pointers()));
            },
        }
        ret
    }

    /// The page with the log coordinates of its heap pointers dropped.
    fn forget_all(self) -> (r: PageState)
        ensures
            r@ == self@.forgotten(),
    {
        match self {
            PageState::Present { base, mut frags } => {
                let ghost f0 = frags@;
                let mut i: usize = 0;
                while i < frags.len()
                    invariant
                        i <= frags@.len(),
                        frags@.len() == f0.len(),
                        forall|j: int| 0 <= j < i ==> #[trigger] frags@[j] == (f0[j].0, f0[j].1.forgotten()),
                        forall|j: int| i <= j < frags@.len() ==> #[trigger] frags@[j] == f0[j],
                    decreases frags@.len() - i,
                {
                    let (l, p) = frags[i];
                    let mut q = p;
                    q.forget_heap_log_coordinates();
                    frags[i] = (l, q);
                    i += 1;
                }
                let mut b = base.1;
                b.forget_heap_log_coordinates();
                assert(frags@ =~= f0.map_values(|f: (Lsn, DiskPtr)| (f.0, f.1.forgotten())));
                let r = PageState::Present { base: (base.0, b), frags };
                assert(r@ == PageModel::Present { base, frags: f0 }.forgotten());
                r
            },
            PageState::Free(l, p) => {
                let mut q = p;
                q.forget_heap_log_coordinates();
                PageState::Free(l, q)
            },
            PageState::Uninitialized => PageState::Uninitialized,
        }
    }
}

/// The state needed to restart the page cache quickly: the lsn and offset
/// the log was read up to, and where every page lives.
pub struct Snapshot {
    /// The version of the snapshot format.
    pub version: u8,
    /// The last read message lsn.
    pub stable_lsn: Option<Lsn>,
    /// The last read message lid.
    pub active_segment: Option<LogOffset>,
    /// The mapping from pages to where their data lives.
    pub pt: Vec<PageState>,
}

/// The mathematical value of a `Snapshot`.
pub struct SnapshotModel {
    pub version: u8,
    pub stable_lsn: Option<Lsn>,
    pub active_segment: Option<LogOffset>,
    pub pt: Seq<PageModel>,
}

impl View for Snapshot {
    type V = SnapshotModel;

    open spec fn view(&self) -> SnapshotModel {
        SnapshotModel {
            version: self.version,
            stable_lsn: self.stable_lsn,
            active_segment: self.active_segment,
            pt: self.pt@.map_values(|p: PageState| p@),
        }
    }
}

impl Default for Snapshot {
    fn default() -> (r: Snapshot)
        ensures
            r.version == 0,
            r.stable_lsn is None,
            r.active_segment is None,
            r.pt@.len() == 0,
    {
        Snapshot { version: 0, stable_lsn: None, active_segment: None, pt: Vec::new() }
    }
}

/// `a / b` rounded toward zero, as Rust's integer division does.
pub open spec fn trunc_div(a: int, b: int) -> int {
    if a >= 0 {
        a / b
    } else {
        -((-a) / b)
    }
}

/// The remainder that goes with `trunc_div`, as Rust's `%` computes it.
pub open spec fn trunc_rem(a: int, b: int) -> int {
    if a >= 0 {
        a % b
    } else {
        -((-a) % b)
    }
}

/// The first segment boundary at or after `lsn`, as recovery computes it
/// when there is no active segment.
pub open spec fn next_segment_lsn(lsn: int, segment_size: int) -> int {
    (trunc_div(lsn, segment_size) + if trunc_rem(lsn, segment_size) == 0 { 0int } else { 1int }) * segment_size
}

impl SnapshotModel {
    /// The page table after one log message is applied.  The table first
    /// grows to hold `pid`; a replace makes the page present afresh, a link
    /// is pushed onto a present page (and a link to any other page is
    /// dropped, with the one slot it added), a free frees the page, and any
    /// other kind is corruption.
    pub open spec fn applied(self, kind: LogKind, pid: nat, lsn: Lsn, ptr: DiskPtr) -> (SnapshotModel, bool) {
        let pt = self.pt;
        let pushed = pt.len() <= pid;
        let grown = if pushed {
            pt + Seq::new((pid + 1 - pt.len()) as nat, |i: int| PageModel::Uninitialized)
        } else {
            pt
        };
        let with = |t: Seq<PageModel>| SnapshotModel { pt: t, ..self };
        match kind {
            LogKind::Replace => (with(grown.update(pid as int, PageModel::Present { base: (lsn, ptr), frags: Seq::empty() })), true),
            LogKind::Link => if grown[pid as int] is Present {
                (with(grown.update(pid as int, grown[pid as int].pushed((lsn, ptr)))), true)
            } else if pushed {
                (with(grown.drop_last()), true)
            } else {
                (with(grown), true)
            },
            LogKind::Free => (with(grown.update(pid as int, PageModel::Free(lsn, ptr))), true),
            _ => (with(grown), false),
        }
    }

    /// Every present page holds its writes in increasing lsn order.
    pub open spec fn chains_increasing(self) -> bool {
        forall|i: int| 0 <= i < self.pt.len() ==> (#[trigger] self.pt[i]).chain_increasing()
    }
}

/// A replace rewrites its page afresh: whatever the page held before, it
/// is present with the replace's write as its base and no fragments; the
/// table grows just enough to hold the page, every other page stays as it
/// was, the header is kept, and a replace is never corruption.
pub proof fn lemma_replace_rewrites_page(m: SnapshotModel, pid: nat, lsn: Lsn, ptr: DiskPtr)
    ensures
        ({
            let (r, ok) = m.applied(LogKind::Replace, pid, lsn, ptr);
            &&& ok
            &&& r.pt.len() == if pid < m.pt.len() { m.pt.len() } else { pid + 1 }
            &&& r.pt[pid as int] == PageModel::Present { base: (lsn, ptr), frags: Seq::empty() }
            &&& forall|i: int| 0 <= i < m.pt.len() && i != pid ==> r.pt[i] == m.pt[i]
            &&& r.version == m.version
            &&& r.stable_lsn == m.stable_lsn
            &&& r.active_segment == m.active_segment
        }),
{
}

impl Snapshot {
    /// The log offset and lsn that recovery resumes from.
    pub fn recovered_coords(&self, segment_size: usize) -> (r: (Option<LogOffset>, Option<Lsn>))
        requires
            self.stable_lsn is Some ==> 0 < segment_size <= i64::MAX,
            (match (self.stable_lsn, self.active_segment) {
                (Some(s), Some(b)) => trunc_rem(s as int, segment_size as int) >= 0
                    && b + trunc_rem(s as int, segment_size as int) <= u64::MAX,
                (Some(s), None) => i64::MIN <= next_segment_lsn(s as int, segment_size as int) <= i64::MAX,
                _ => true,
            }),
        ensures
            match self.stable_lsn {
                None => r == (None::<LogOffset>, None::<Lsn>),
                Some(s) => match self.active_segment {
                    Some(b) => r == (Some((b + trunc_rem(s as int, segment_size as int)) as LogOffset), Some(s)),
                    None => r == (None::<LogOffset>, Some(next_segment_lsn(s as int, segment_size as int) as Lsn)),
                },
            },
    {
        if self.stable_lsn.is_none() {
            return (None, None);
        }
        let stable_lsn = self.stable_lsn.unwrap();
        let seg = segment_size as i64;
        if let Some(base_offset) = self.active_segment {
            let progress = stable_lsn % seg;
            assert(progress == trunc_rem(stable_lsn as int, seg as int));
            let offset = base_offset + progress as u64;
            (Some(offset), Some(stable_lsn))
        } else {
            let q = stable_lsn / seg;
            let rem = stable_lsn % seg;
            proof {
                let a = stable_lsn as int;
                let b = seg as int;
                assert(q == trunc_div(a, b));
                assert(rem == trunc_rem(a, b));
                if rem != 0 {
                    let qq = q as int;
                    assert((qq + 1) * b == next_segment_lsn(a, b));
                    if qq + 1 > i64::MAX {
                        assert((qq + 1) * b >= qq + 1) by (nonlinear_arith)
                            requires qq + 1 > 0, b >= 1;
                    }
                }
            }
            let lsn_idx = if rem == 0 {
                q
            } else {
                q + 1
            };
            let next_lsn = lsn_idx * seg;
            (None, Some(next_lsn))
        }
    }

    /// Applies one log message to the page table; see `SnapshotModel::applied`.
    pub fn apply(&mut self, log_kind: LogKind, pid: PageId, lsn: Lsn, disk_ptr: DiskPtr) -> (r: Result<(), SnapshotError>)
        requires
            pid < usize::MAX,
        ensures
            final(self)@ == old(self)@.applied(log_kind, pid as nat, lsn, disk_ptr).0,
            r is Ok == old(self)@.applied(log_kind, pid as nat, lsn, disk_ptr).1,
            r matches Err(e) ==> e == SnapshotError::Corruption,
            old(self)@.chains_increasing() ==> final(self)@.chains_increasing(),
    {
        let ghost m0 = self@;
        let p = pid as usize;
        let pushed = self.pt.len() <= p;
        if pushed {
            let ghost pt0 = self.pt@;
            while self.pt.len() <= p
                invariant
                    p < usize::MAX,
                    pt0.len() <= self.pt@.len() <= p + 1,
                    self.pt@.map_values(|q: PageState| q@) == m0.pt + Seq::new(
                        (self.pt@.len() - pt0.len()) as nat,
                        |i: int| PageModel::Uninitialized,
                    ),
                    self.version == m0.version,
                    self.stable_lsn == m0.stable_lsn,
                    self.active_segment == m0.active_segment,
                    m0.pt == pt0.map_values(|q: PageState| q@),
                decreases p + 1 - self.pt@.len(),
            {
                let ghost before = self.pt@;
                self.pt.push(PageState::Uninitialized);
                assert(self.pt@ == before.push(PageState::Uninitialized));
                assert(self.pt@.map_values(|q: PageState| q@) =~= before.map_values(|q: PageState| q@).push(PageModel::Uninitialized));
                assert(self.pt@.map_values(|q: PageState| q@) =~= m0.pt + Seq::new(
                    (self.pt@.len() - pt0.len()) as nat,
                    |i: int| PageModel::Uninitialized,
                ));
            }
        }
        let ghost grown = self@.pt;
        assert(grown.len() > p);
        match log_kind {
            LogKind::Replace => {
                self.pt[p] = PageState::Present { base: (lsn, disk_ptr), frags: Vec::new() };
                assert(self@.pt =~= grown.update(p as int, PageModel::Present { base: (lsn, disk_ptr), frags: Seq::empty() }));
            },
            LogKind::Link => {
                if matches!(self.pt[p], PageState::Present { .. }) {
                    self.pt[p].push((lsn, disk_ptr));
                    assert(self@.pt =~= grown.update(p as int, grown[p as int].pushed((lsn, disk_ptr))));
                } else {
                    if pushed {
                        let old = self.pt.pop().unwrap();
                        assert(self@.pt =~= grown.drop_last());
                        if !matches!(old, PageState::Uninitialized) {
                            return Err(SnapshotError::Corruption);
                        }
                    }
                }
            },
            LogKind::Free => {
                self.pt[p] = PageState::Free(lsn, disk_ptr);
                assert(self@.pt =~= grown.update(p as int, PageModel::Free(lsn, disk_ptr)));
            },
            LogKind::Corrupted | LogKind::Skip => {
                return Err(SnapshotError::Corruption);
            },
        }
        Ok(())
    }

    /// Drops the log coordinates of every heap pointer in the page table.
    pub fn filter_inner_heap_ids(&mut self)
        ensures
            final(self)@ == (SnapshotModel { pt: old(self)@.pt.map_values(|p: PageModel| p.forgotten()), ..old(self)@ }),
    {
        let ghost pt0 = self@.pt;
        let mut i: usize = 0;
        while i < self.pt.len()
            invariant
                i <= self.pt@.len(),
                self.pt@.len() == pt0.len(),
                self.version == old(self).version,
                self.stable_lsn == old(self).stable_lsn,
                self.active_segment == old(self).active_segment,
                pt0 == old(self)@.pt,
                forall|j: int| 0 <= j < i ==> #[trigger] self.pt@[j]@ == pt0[j].forgotten(),
                forall|j: int| i <= j < self.pt@.len() ==> #[trigger] self.pt@[j]@ == pt0[j],
            decreases self.pt@.len() - i,
        {
            let mut page = PageState::Uninitialized;
            std::mem::swap(&mut page, &mut self.pt[i]);
            let page = page.forget_all();
            self.pt[i] = page;
            i += 1;
        }
        assert(self@.pt =~= pt0.map_values(|p: PageModel| p.forgotten()));
    }
}

} // verus!

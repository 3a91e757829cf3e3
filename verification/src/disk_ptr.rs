use vstd::prelude::*;

verus! {

/// A log sequence number.
pub type Lsn = i64;

/// An offset into the log file.
pub type LogOffset = u64;

/// The identifier of a logical page.
pub type PageId = u64;

/// The bit of a log offset that selects the cold stream.
pub const STREAM_SELECTOR_MASK: u64 = 0x8000_0000_0000_0000;

/// The largest offset that fits below the stream selector bit.
pub open spec fn raw_offset_of(l: u64) -> u64 {
    (l % 0x8000_0000_0000_0000) as u64
}

/// Whether the stream selector bit of an offset is set.
pub open spec fn selects_cold(l: u64) -> bool {
    l >= 0x8000_0000_0000_0000
}

proof fn lemma_mask_bits(l: u64)
    ensures
        (l & 0x8000_0000_0000_0000u64 != 0) == selects_cold(l),
        l & !0x8000_0000_0000_0000u64 == raw_offset_of(l),
        (l | 0x8000_0000_0000_0000u64) == (if selects_cold(l) { l } else { (l + 0x8000_0000_0000_0000u64) as u64 }),
{
    assert((l & 0x8000_0000_0000_0000u64 != 0) == (l >= 0x8000_0000_0000_0000u64)) by (bit_vector);
    assert(l & !0x8000_0000_0000_0000u64 == l % 0x8000_0000_0000_0000u64) by (bit_vector);
    assert((l | 0x8000_0000_0000_0000u64) == (if l >= 0x8000_0000_0000_0000u64 { l } else {
        (l + 0x8000_0000_0000_0000u64) as u64 })) by (bit_vector);
}

/// A log offset that is never zero.
#[derive(Debug, Clone, Copy, PartialEq, Eq)]
pub struct NonZeroOffset {
    value: u64,
}

impl NonZeroOffset {
    #[verifier::type_invariant]
    spec fn inv(self) -> bool {
        self.value != 0
    }

    /// The offset this holds.
    pub closed spec fn spec_get(&self) -> u64 {
        self.value
    }

    /// Wraps `value` unless it is zero.
    pub fn new(value: u64) -> (r: Option<Self>)
        ensures
            r is Some <==> value != 0,
            r matches Some(n) ==> n.spec_get() == value,
    {
        if value == 0 {
            None
        } else {
            Some(NonZeroOffset { value })
        }
    }

    /// The offset this holds.
    #[verifier::when_used_as_spec(spec_get)]
    pub fn get(&self) -> (r: u64)
        ensures
            r == self.spec_get(),
            r != 0,
    {
        proof {
            use_type_invariant(self);
        }
        self.value
    }
}

/// Where a value that lives off-log is stored, and the lsn it was written at.
#[derive(Debug, Clone, Copy, PartialEq, Eq)]
pub struct HeapId {
    pub location: u64,
    pub original_lsn: Lsn,
}

/// A pointer to a location on disk or an off-log heap item.
#[derive(Debug, Clone, Copy, PartialEq, Eq)]
pub enum DiskPtr {
    /// Points to a value stored in the single-file log.
    Inline(LogOffset),
    /// Points to a value stored off-log in the heap.
    Heap(Option<NonZeroOffset>, HeapId),
}

impl DiskPtr {
    /// The pointer with the log coordinates of a heap pointer dropped.
    pub open spec fn forgotten(self) -> DiskPtr {
        match self {
            DiskPtr::Inline(l) => DiskPtr::Inline(l),
            DiskPtr::Heap(_, h) => DiskPtr::Heap(None, h),
        }
    }

    /// The log offset this pointer carries, with the stream bit, if any.
    pub open spec fn coordinates(self) -> Option<u64> {
        match self {
            DiskPtr::Inline(l) => Some(l),
            DiskPtr::Heap(Some(n), _) => Some(n.spec_get()),
            DiskPtr::Heap(None, _) => None,
        }
    }

    /// Points into the hot stream of the log.
    pub fn new_inline(l: LogOffset) -> (r: Self)
        ensures
            r == DiskPtr::Inline(l),
    {
        DiskPtr::Inline(l)
    }

    /// Points into the cold stream of the log.
    pub fn new_cold(l: LogOffset) -> (r: Self)
        ensures
            r == DiskPtr::Inline(if selects_cold(l) { l } else { (l + STREAM_SELECTOR_MASK) as u64 }),
    {
        proof {
            lemma_mask_bits(l);
        }
        DiskPtr::Inline(l | STREAM_SELECTOR_MASK)
    }

    /// Points to a heap item whose pointer was written at log offset `lid`.
    pub fn new_heap_item(lid: LogOffset, heap_id: HeapId) -> (r: Self)
        requires
            lid != 0,
        ensures
            r matches DiskPtr::Heap(Some(n), h) && n.spec_get() == lid && h == heap_id,
    {
        let n = NonZeroOffset::new(lid);
        DiskPtr::Heap(Some(n.unwrap()), heap_id)
    }

    /// Whether the pointer points into the log itself.
    pub fn is_inline(&self) -> (r: bool)
        ensures
            r == (*self is Inline),
    {
        matches!(self, DiskPtr::Inline(_))
    }

    /// Whether this pointer selects the cold stream.
    pub fn is_cold(&self) -> (r: bool)
        ensures
            r == (self.coordinates() matches Some(l) && selects_cold(l)),
    {
        match self {
            DiskPtr::Inline(lid) => {
                proof {
                    lemma_mask_bits(*lid);
                }
                *lid & STREAM_SELECTOR_MASK != 0
            },
            DiskPtr::Heap(Some(lid), _) => {
                let l = lid.get();
                proof {
                    lemma_mask_bits(l);
                }
                l & STREAM_SELECTOR_MASK != 0
            },
            _ => false,
        }
    }

    /// The log offset without the stream bit.
    pub fn to_raw_offset(&self) -> (r: LogOffset)
        requires
            self.coordinates() is Some,
        ensures
            r == raw_offset_of(self.coordinates().unwrap()),
    {
        match self {
            DiskPtr::Inline(lid) => {
                proof {
                    lemma_mask_bits(*lid);
                }
                *lid & !STREAM_SELECTOR_MASK
            },
            DiskPtr::Heap(Some(lid), _) => {
                let l = lid.get();
                proof {
                    lemma_mask_bits(l);
                }
                l & !STREAM_SELECTOR_MASK
            },
            DiskPtr::Heap(None, _) => {
                assert(false);
                0
            },
        }
    }

    /// Whether the pointer points to a heap slot.
    pub fn is_heap_item(&self) -> (r: bool)
        ensures
            r == (*self is Heap),
    {
        matches!(self, DiskPtr::Heap(_, _))
    }

    /// The heap slot of a heap pointer.
    pub fn heap_id(&self) -> (r: Option<HeapId>)
        ensures
            r == (match *self {
                DiskPtr::Heap(_, h) => Some(h),
                DiskPtr::Inline(_) => None,
            }),
    {
        if let DiskPtr::Heap(_, heap_id) = self {
            Some(*heap_id)
        } else {
            None
        }
    }

    /// The log offset without the stream bit, if this pointer still has one.
    pub fn lid(&self) -> (r: Option<LogOffset>)
        ensures
            r == (match self.coordinates() {
                Some(l) => Some(raw_offset_of(l)),
                None => None,
            }),
    {
        match self {
            DiskPtr::Inline(lid) => {
                proof {
                    lemma_mask_bits(*lid);
                }
                Some(*lid & !STREAM_SELECTOR_MASK)
            },
            DiskPtr::Heap(Some(lid), _) => {
                let l = lid.get();
                proof {
                    lemma_mask_bits(l);
                }
                Some(l & !STREAM_SELECTOR_MASK)
            },
            DiskPtr::Heap(None, _) => None,
        }
    }

    /// Drops the log coordinates of a heap pointer; inline pointers stay.
    pub fn forget_heap_log_coordinates(&mut self)
        ensures
            *final(self) == old(self).forgotten(),
    {
        match self {
            DiskPtr::Inline(_) => {},
            DiskPtr::Heap(opt, _) => *opt = None,
        }
    }

    /// The lsn at which a heap item was first written.
    pub fn original_lsn(&self) -> (r: Lsn)
        requires
            *self is Heap,
        ensures
            r == self->Heap_1.original_lsn,
    {
        match self {
            DiskPtr::Heap(_, heap_id) => heap_id.original_lsn,
            DiskPtr::Inline(_) => {
                assert(false);
                0
            },
        }
    }

    /// Whether a heap pointer has had its log coordinates forgotten, its
    /// record having been merged into a snapshot.
    pub fn heap_pointer_merged_into_snapshot(&self) -> (r: bool)
        ensures
            r == (*self matches DiskPtr::Heap(None, _)),
    {
        matches!(self, DiskPtr::Heap(None, _))
    }
}

/// A pointer into the cold stream selects the cold stream, and carries the
/// same raw offset it was made from.
pub proof fn lemma_cold_pointer(l: u64)
    ensures
        ({
            let c = if selects_cold(l) { l } else { (l + STREAM_SELECTOR_MASK) as u64 };
            &&& selects_cold(c)
            &&& raw_offset_of(c) == raw_offset_of(l)
        }),
{
}

/// A pointer into the hot stream, made from an offset below the stream bit,
/// does not select the cold stream and carries that offset.
pub proof fn lemma_hot_pointer(l: u64)
    requires
        l < STREAM_SELECTOR_MASK,
    ensures
        !selects_cold(l),
        raw_offset_of(l) == l,
{
}

} // verus!

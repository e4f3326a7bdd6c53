//! The mirrored-mapping model: the allocation primitive under the ring
//! buffer.
//!
//! A mirrored mapping is a range of `2 × cap` bytes whose two halves are
//! backed by the same storage, so a write at offset `k < cap` is observed
//! at `k + cap` and vice versa. The model keeps one slot per element, `2 ×
//! slots` of them, and maintains the aliasing of the two halves as an
//! invariant that every write re-establishes by filling both images of the
//! touched slot. A slot holds `None` until an element is constructed in it
//! and again after the element is removed, which is what lets the buffer
//! above state its initialization obligations exactly.

use vstd::prelude::*;
use vstd::pervasive::VecAdditionalExecFns;

use crate::platform::{
    round_capacity, round_up, spec_cap_limit, valid_request, GRANULARITY,
};
use crate::platform::{lemma_round_up_exact, lemma_round_up_monotone};

verus! {

/// One mirrored mapping: `cap` bytes per half, of which `slots` whole
/// element slots are usable, and the doubled slot storage itself.
pub struct MirrorBuf<T> {
    data: Vec<Option<T>>,
    cap: usize,
    slots: usize,
}

impl<T> MirrorBuf<T> {
    /// The rounded byte capacity of one half; `0` for the never-allocated
    /// placeholder mapping.
    pub closed spec fn byte_capacity(&self) -> nat {
        self.cap as nat
    }

    /// How many whole elements fit in one half of the mapping.
    pub closed spec fn slot_count(&self) -> nat {
        self.slots as nat
    }

    /// The contents of slot `i`, for `0 <= i < 2 * slot_count()`.
    pub closed spec fn slot(&self, i: int) -> Option<T> {
        self.data@[i]
    }

    /// Well-formedness: the two halves alias the same contents, the byte
    /// capacity is a positive granule multiple below the address-span
    /// limit once allocated, and the slot count is what fits in one half.
    pub closed spec fn wf(&self) -> bool {
        &&& self.data@.len() == 2 * self.slots
        &&& (self.cap == 0 ==> self.slots == 0)
        &&& (self.cap > 0 ==> {
            &&& 1 <= vstd::layout::size_of::<T>()
            &&& 0 < self.cap < spec_cap_limit()
            &&& self.cap as int % (GRANULARITY as int) == 0
            &&& self.slots == self.cap as int / vstd::layout::size_of::<T>() as int
            &&& 1 <= self.slots
        })
        &&& forall|i: int|
            0 <= i < self.slots ==> self.data@[i] == self.data@[#[trigger] (i + self.slots)]
    }

    /// Mirroring property: the two halves of a well-formed mapping hold
    /// the same contents, so whatever a write leaves at offset `o` is
    /// observed at `o + slot_count()`, and the other way round.
    pub proof fn lemma_mirrored(&self, o: int)
        requires
            self.wf(),
            0 <= o < self.slot_count(),
        ensures
            self.slot(o) == self.slot(o + self.slot_count()),
    {
    }

    /// Size facts that follow from well-formedness: the doubled slot
    /// storage is addressable and no larger than the byte capacity says.
    pub proof fn lemma_size(&self)
        requires
            self.wf(),
        ensures
            2 * self.slot_count() <= usize::MAX,
            self.slot_count() <= self.byte_capacity(),
            self.byte_capacity() == 0 ==> self.slot_count() == 0,
            self.byte_capacity() > 0 ==> 1 <= self.slot_count(),
            self.byte_capacity() < spec_cap_limit(),
    {
        assert(self.data@.len() <= usize::MAX);
        if self.cap > 0 {
            vstd::arithmetic::div_mod::lemma_div_nonincreasing(
                self.cap as int,
                vstd::layout::size_of::<T>() as int,
            );
        }
    }

    /// A request for any window of `1..=slot_count()` elements of an
    /// allocated mapping is itself a valid allocation request: growth by
    /// no more than the current content can always be sized.
    pub proof fn lemma_window_request(&self, n: int)
        requires
            self.wf(),
            1 <= n <= self.slot_count(),
        ensures
            valid_request(n, vstd::layout::size_of::<T>() as int),
    {
        let size = vstd::layout::size_of::<T>() as int;
        let g = GRANULARITY as int;
        assert(1 <= n * size) by (nonlinear_arith)
            requires
                1 <= n,
                1 <= size,
        ;
        assert(n * size <= self.slots * size) by (nonlinear_arith)
            requires
                n <= self.slots,
                1 <= size,
        ;
        assert(self.slots * size <= self.cap) by {
            assert(self.slots == self.cap as int / size);
            vstd::arithmetic::div_mod::lemma_fundamental_div_mod(self.cap as int, size);
            vstd::arithmetic::div_mod::lemma_mod_bound(self.cap as int, size);
        }
        lemma_round_up_monotone(n * size, self.cap as int, g);
        lemma_round_up_exact(self.cap as int, g);
    }

    /// The never-allocated placeholder mapping: no storage, no capacity.
    pub fn unallocated() -> (b: MirrorBuf<T>)
        ensures
            b.wf(),
            b.byte_capacity() == 0,
            b.slot_count() == 0,
    {
        MirrorBuf { data: Vec::new(), cap: 0, slots: 0 }
    }

    /// Allocates a mirrored mapping sized for at least `count` elements:
    /// the byte capacity of one half is the granule-rounded element total,
    /// and every slot of both halves starts unoccupied. A zero request
    /// yields the placeholder mapping with no storage at all.
    pub fn allocate(count: usize) -> (b: MirrorBuf<T>)
        requires
            count == 0 || valid_request(count as int, vstd::layout::size_of::<T>() as int),
        ensures
            b.wf(),
            count == 0 ==> b.byte_capacity() == 0,
            count > 0 ==> b.byte_capacity() == round_up(
                count as int * vstd::layout::size_of::<T>() as int,
                GRANULARITY as int,
            ),
            count > 0 ==> b.slot_count() == b.byte_capacity() as int / vstd::layout::size_of::<
                T,
            >() as int,
            count <= b.slot_count() || count == 0,
            forall|i: int| 0 <= i < 2 * b.slot_count() ==> b.slot(i) is None,
    {
        if count == 0 {
            return MirrorBuf::unallocated();
        }
        let size: usize = core::mem::size_of::<T>();
        proof {
            assert(1 <= size) by (nonlinear_arith)
                requires
                    1 <= count as int * size as int,
                    0 <= count,
                    0 <= size,
            ;
        }
        let cap: usize = round_capacity(count, size);
        let slots: usize = cap / size;
        proof {
            assert(count as int * size as int / size as int == count) by {
                vstd::arithmetic::div_mod::lemma_div_multiples_vanish(
                    count as int,
                    size as int,
                );
                vstd::arithmetic::mul::lemma_mul_is_commutative(count as int, size as int);
            }
            vstd::arithmetic::div_mod::lemma_div_is_ordered(
                count as int * size as int,
                cap as int,
                size as int,
            );
            assert(count <= slots);
        }
        let n: usize = 2 * slots;
        let mut data: Vec<Option<T>> = Vec::new();
        let mut i: usize = 0;
        while i < n
            invariant
                i <= n,
                data@.len() == i,
                forall|j: int| 0 <= j < i ==> data@[j] is None,
            decreases n - i,
        {
            data.push(None);
            i = i + 1;
        }
        MirrorBuf { data, cap, slots }
    }

    /// The byte capacity of one half of the mapping.
    pub fn cap_bytes(&self) -> (c: usize)
        ensures
            c as nat == self.byte_capacity(),
    {
        self.cap
    }

    /// How many whole elements one half of the mapping holds.
    pub fn slots(&self) -> (n: usize)
        ensures
            n as nat == self.slot_count(),
    {
        self.slots
    }

    /// Removes the element in the slot at offset `i`, clearing both images
    /// of that slot so the two halves keep aliasing the same contents.
    pub fn erase(&mut self, i: usize)
        requires
            old(self).wf(),
            i < 2 * old(self).slot_count(),
        ensures
            final(self).wf(),
            final(self).byte_capacity() == old(self).byte_capacity(),
            final(self).slot_count() == old(self).slot_count(),
            final(self).slot(low_offset(i as int, old(self).slot_count() as int)) is None,
            final(self).slot(
                low_offset(i as int, old(self).slot_count() as int) + old(self).slot_count(),
            ) is None,
            forall|k: int|
                0 <= k < 2 * old(self).slot_count()
                    && k != low_offset(i as int, old(self).slot_count() as int)
                    && k != low_offset(i as int, old(self).slot_count() as int)
                        + old(self).slot_count() ==> final(self).slot(k) == old(self).slot(k),
    {
        let j: usize = if i < self.slots { i } else { i - self.slots };
        self.data.set(j, None);
        self.data.set(j + self.slots, None);
    }
}

impl<T: Copy> MirrorBuf<T> {
    /// Constructs `value` in the slot at offset `i`, filling both images
    /// of that slot so the two halves keep aliasing the same contents.
    pub fn write(&mut self, i: usize, value: T)
        requires
            old(self).wf(),
            i < 2 * old(self).slot_count(),
        ensures
            final(self).wf(),
            final(self).byte_capacity() == old(self).byte_capacity(),
            final(self).slot_count() == old(self).slot_count(),
            final(self).slot(low_offset(i as int, old(self).slot_count() as int)) == Some(
                value,
            ),
            final(self).slot(
                low_offset(i as int, old(self).slot_count() as int) + old(self).slot_count(),
            ) == Some(value),
            forall|k: int|
                0 <= k < 2 * old(self).slot_count()
                    && k != low_offset(i as int, old(self).slot_count() as int)
                    && k != low_offset(i as int, old(self).slot_count() as int)
                        + old(self).slot_count() ==> final(self).slot(k) == old(self).slot(k),
    {
        let j: usize = if i < self.slots { i } else { i - self.slots };
        self.data.set(j, Some(value));
        self.data.set(j + self.slots, Some(value));
    }

    /// Reads the element in the slot at offset `i`.
    pub fn read(&self, i: usize) -> (r: T)
        requires
            self.wf(),
            i < 2 * self.slot_count(),
            self.slot(i as int) is Some,
        ensures
            self.slot(i as int) == Some(r),
    {
        let o: Option<T> = self.data[i];
        o.unwrap()
    }
}

/// The image of offset `i` of the doubled range inside the first half:
/// `i` itself if it lies there, else `i` folded back by one half.
pub open spec fn low_offset(i: int, slots: int) -> int {
    if i < slots {
        i
    } else {
        i - slots
    }
}

} // verus!

//! A growable FIFO ring buffer laid out over a mirrored mapping: storage
//! whose two halves alias the same contents, so that any window of up to
//! one half-capacity of elements is contiguous, wherever it starts.

use vstd::prelude::*;

pub mod mirror;
pub mod platform;

use crate::mirror::MirrorBuf;
use crate::platform::{round_up, valid_request, GRANULARITY};

verus! {

/// The element capacity that a mirrored mapping allocated for `count`
/// elements of type `T` provides: the granule-rounded byte total, in whole
/// elements. Growth never over-allocates beyond this rounding.
pub open spec fn capacity_for<T>(count: int) -> int {
    round_up(count * vstd::layout::size_of::<T>() as int, GRANULARITY as int)
        / vstd::layout::size_of::<T>() as int
}

/// A growable FIFO ring buffer over a mirrored mapping: elements are
/// appended at the back and removed from the front, and the live window
/// `[base, base + len)` of slots is contiguous even where it runs past the
/// half-capacity boundary, because the mapping's upper half aliases its
/// lower half.
pub struct RingBuffer<T> {
    buf: MirrorBuf<T>,
    // Offset of the logical front, in elements; always within the lower
    // half of the mapping.
    base: usize,
    // Number of live elements.
    len: usize,
}

impl<T> View for RingBuffer<T> {
    type V = Seq<T>;

    /// The logical element sequence: `len` elements starting at slot
    /// `base`, read without wraparound thanks to the mirrored upper half.
    closed spec fn view(&self) -> Seq<T> {
        Seq::new(self.len as nat, |i: int| self.stored(i))
    }
}

impl<T> RingBuffer<T> {
    /// How many elements fit in one half of the owned mapping.
    pub closed spec fn spec_capacity(&self) -> nat {
        self.buf.slot_count()
    }

    /// The slot offset of the logical front.
    pub closed spec fn spec_base(&self) -> nat {
        self.base as nat
    }

    /// Whether the window slot at offset `i` from the logical front holds
    /// an element. Offsets in `[len, capacity)` name the spare region.
    pub closed spec fn occupied(&self, i: int) -> bool {
        self.buf.slot(self.base + i) is Some
    }

    /// The element in the window slot at offset `i` from the logical
    /// front, where one is stored.
    pub closed spec fn stored(&self, i: int) -> T {
        self.buf.slot(self.base + i)->Some_0
    }

    /// Well-formedness: the mapping is mirrored, the window length never
    /// exceeds the capacity, the base stays inside the lower half (the
    /// mirror exists so reads may extend past it, not so the window may
    /// start there), and every window slot holds an element.
    pub closed spec fn wf(&self) -> bool {
        &&& self.buf.wf()
        &&& self.len as nat <= self.buf.slot_count()
        &&& if self.buf.slot_count() == 0 {
            self.base == 0
        } else {
            (self.base as nat) < self.buf.slot_count()
        }
        &&& forall|i: int| 0 <= i < self.len ==> #[trigger] self.occupied(i)
    }

    /// Length/capacity invariant: in every well-formed state the length
    /// is at most the capacity and, once anything is allocated, the base
    /// offset lies strictly inside one mapping half.
    pub proof fn lemma_window_in_bounds(&self)
        requires
            self.wf(),
        ensures
            self@.len() <= self.spec_capacity(),
            self.spec_capacity() > 0 ==> self.spec_base() < self.spec_capacity(),
            self.spec_capacity() == 0 ==> self.spec_base() == 0,
    {
    }

    /// Constructs a new, empty ring buffer; nothing is allocated until
    /// elements arrive.
    pub fn new() -> (rb: RingBuffer<T>)
        ensures
            rb.wf(),
            rb@ == Seq::<T>::empty(),
            rb.spec_capacity() == 0,
    {
        RingBuffer { buf: MirrorBuf::unallocated(), base: 0, len: 0 }
    }

    /// Constructs a new, empty ring buffer whose capacity is `capacity`
    /// rounded up to the allocation granularity; a zero request does not
    /// allocate.
    pub fn with_capacity(capacity: usize) -> (rb: RingBuffer<T>)
        requires
            capacity == 0 || valid_request(
                capacity as int,
                vstd::layout::size_of::<T>() as int,
            ),
        ensures
            rb.wf(),
            rb@ == Seq::<T>::empty(),
            capacity <= rb.spec_capacity() || capacity == 0,
            capacity == 0 ==> rb.spec_capacity() == 0,
            capacity > 0 ==> rb.spec_capacity() == capacity_for::<T>(capacity as int),
    {
        if capacity == 0 {
            return RingBuffer::new();
        }
        let buf = MirrorBuf::allocate(capacity);
        RingBuffer { buf, base: 0, len: 0 }
    }

    /// The number of elements the ring buffer can hold without
    /// reallocating.
    pub fn capacity(&self) -> (n: usize)
        ensures
            n as nat == self.spec_capacity(),
    {
        self.buf.slots()
    }

    /// The number of elements in the ring buffer.
    pub fn len(&self) -> (n: usize)
        ensures
            n as nat == self@.len(),
    {
        self.len
    }

    /// Whether the ring buffer contains no elements.
    pub fn is_empty(&self) -> (b: bool)
        ensures
            b <==> self@.len() == 0,
    {
        self.len == 0
    }

    /// The number of additional elements the ring buffer has room for.
    pub fn reserved_len(&self) -> (n: usize)
        requires
            self.wf(),
        ensures
            n as nat == self.spec_capacity() - self@.len(),
    {
        self.buf.slots() - self.len
    }

    /// Reads the element at logical index `i`.
    pub fn get(&self, i: usize) -> (r: T) where T: Copy
        requires
            self.wf(),
            i < self@.len(),
        ensures
            r == self@[i as int],
    {
        proof {
            self.buf.lemma_size();
            assert(self.occupied(i as int));
        }
        self.buf.read(self.base + i)
    }

    /// The whole logical content, front to back, as a fresh vector: a
    /// reading view of the contiguous element window.
    pub fn to_vec(&self) -> (v: Vec<T>) where T: Copy
        requires
            self.wf(),
        ensures
            v@ == self@,
    {
        let mut v: Vec<T> = Vec::new();
        let mut i: usize = 0;
        while i < self.len
            invariant
                i <= self.len,
                self.wf(),
                self@.len() == self.len,
                v@ == self@.take(i as int),
            decreases self.len - i,
        {
            v.push(self.get(i));
            i = i + 1;
            proof {
                assert(v@ =~= self@.take(i as int));
            }
        }
        proof {
            assert(self@.take(self.len as int) =~= self@);
        }
        v
    }

    /// Removes the front element and returns it, or returns nothing from
    /// an empty buffer: the normal, non-error outcome.
    pub fn pop(&mut self) -> (r: Option<T>) where T: Copy
        requires
            old(self).wf(),
        ensures
            final(self).wf(),
            final(self).spec_capacity() == old(self).spec_capacity(),
            old(self)@.len() == 0 ==> r is None && final(self)@ == old(self)@,
            old(self)@.len() > 0 ==> r == Some(old(self)@[0]) && final(self)@ == old(
                self,
            )@.skip(1),
    {
        if self.len == 0 {
            return None;
        }
        proof {
            self.buf.lemma_size();
            assert(self.occupied(0));
            assert(self.buf.slot(self.base as int) is Some);
        }
        let ghost prev = *self;
        let value = self.buf.read(self.base);
        self.buf.erase(self.base);
        self.len = self.len - 1;
        self.base = self.base + 1;
        let slots = self.buf.slots();
        if self.base >= slots {
            self.base = self.base - slots;
        }
        proof {
            assert forall|i: int|
                #![trigger self.stored(i)]
                #![trigger self.occupied(i)]
                0 <= i < self.len implies self.occupied(i) && self.stored(i) == prev.stored(
                1 + i,
            ) by {
                assert(self.buf.slot(prev.base + (1 + i)) == prev.buf.slot(
                    prev.base + (1 + i),
                ));
                assert(prev.occupied(1 + i));
                if prev.base + 1 == prev.buf.slot_count() {
                    self.buf.lemma_mirrored(i);
                    assert(self.base + i + prev.buf.slot_count() == prev.base + (1 + i));
                } else {
                    assert(self.base + i == prev.base + (1 + i));
                }
            }
            assert(self@ =~= prev@.skip(1));
        }
        Some(value)
    }

    /// Shortens the buffer to its first `len` elements, removing the
    /// rest; a `len` at or beyond the current length changes nothing.
    pub fn truncate(&mut self, len: usize)
        requires
            old(self).wf(),
        ensures
            final(self).wf(),
            final(self).spec_capacity() == old(self).spec_capacity(),
            final(self).spec_base() == old(self).spec_base(),
            (len as int) >= old(self)@.len() ==> final(self)@ == old(self)@,
            (len as int) < old(self)@.len() ==> final(self)@ == old(self)@.take(len as int),
    {
        if len > self.len {
            return;
        }
        proof {
            self.buf.lemma_size();
        }
        let ghost prev = *self;
        let n: usize = self.len - len;
        self.len = len;
        let mut i: usize = 0;
        while i < n
            invariant
                i <= n,
                prev.wf(),
                n == prev.len - len,
                len + n == prev.len,
                self.base == prev.base,
                self.len == len,
                self.buf.wf(),
                self.buf.slot_count() == prev.buf.slot_count(),
                self.buf.byte_capacity() == prev.buf.byte_capacity(),
                2 * self.buf.slot_count() <= usize::MAX,
                forall|j: int|
                    0 <= j < prev.len && !(len <= j < len + i) ==> #[trigger] self.buf.slot(
                        prev.base + j,
                    ) == prev.buf.slot(prev.base + j),
            decreases n - i,
        {
            self.buf.erase(self.base + len + i);
            i = i + 1;
        }
        proof {
            assert forall|j: int| 0 <= j < self.len implies #[trigger] self.occupied(j)
                && self.buf.slot(self.base + j) == prev.buf.slot(prev.base + j) by {
                assert(self.buf.slot(prev.base + j) == prev.buf.slot(prev.base + j));
                assert(prev.occupied(j));
            }
            assert(self@ =~= prev@.take(len as int));
        }
    }

    /// Removes all elements; the allocated capacity is retained.
    pub fn clear(&mut self)
        requires
            old(self).wf(),
        ensures
            final(self).wf(),
            final(self).spec_capacity() == old(self).spec_capacity(),
            final(self).spec_base() == old(self).spec_base(),
            final(self)@ == Seq::<T>::empty(),
    {
        self.truncate(0);
        proof {
            assert(self@ =~= Seq::<T>::empty());
        }
    }

    /// Removes up to `n` elements from the front (the name is historical:
    /// like `pop`, it takes from the logical front, where `push` appends
    /// at the back); a count beyond the current length is clamped to it,
    /// emptying the buffer.
    pub fn remove_tail(&mut self, n: usize)
        requires
            old(self).wf(),
        ensures
            final(self).wf(),
            final(self).spec_capacity() == old(self).spec_capacity(),
            n as int <= old(self)@.len() ==> final(self)@ == old(self)@.skip(n as int),
            n as int > old(self)@.len() ==> final(self)@ == Seq::<T>::empty(),
    {
        let n: usize = if n < self.len {
            n
        } else {
            self.len
        };
        proof {
            self.buf.lemma_size();
        }
        let ghost prev = *self;
        let mut i: usize = 0;
        while i < n
            invariant
                i <= n,
                prev.wf(),
                n <= prev.len,
                self.base == prev.base,
                self.len == prev.len,
                self.buf.wf(),
                self.buf.slot_count() == prev.buf.slot_count(),
                self.buf.byte_capacity() == prev.buf.byte_capacity(),
                2 * self.buf.slot_count() <= usize::MAX,
                forall|j: int|
                    i <= j < prev.len ==> #[trigger] self.buf.slot(prev.base + j)
                        == prev.buf.slot(prev.base + j),
            decreases n - i,
        {
            self.buf.erase(self.base + i);
            i = i + 1;
        }
        self.len = self.len - n;
        self.base = self.base + n;
        let slots = self.buf.slots();
        if self.base >= slots {
            self.base = self.base - slots;
        }
        proof {
            assert forall|i: int|
                #![trigger self.stored(i)]
                #![trigger self.occupied(i)]
                0 <= i < self.len implies self.occupied(i) && self.stored(i) == prev.stored(
                n + i,
            ) by {
                let j: int = n + i;
                assert(self.buf.slot(prev.base + j) == prev.buf.slot(prev.base + j));
                assert(prev.occupied(j));
                if prev.base + n >= prev.buf.slot_count() {
                    self.buf.lemma_mirrored(self.base + i);
                    assert(self.base + i + prev.buf.slot_count() == prev.base + j);
                } else {
                    assert(self.base + i == prev.base + j);
                }
            }
            assert(self@ =~= prev@.skip(n as int));
        }
    }

    /// Replaces the mapping with a freshly allocated one sized for
    /// `len + additional` elements, relocating the content to base 0.
    /// The old mapping is dropped only after the copy, and its element
    /// region is given up wholesale with the move, so no element is ever
    /// destroyed twice.
    fn reallocate(&mut self, additional: usize) where T: Copy
        requires
            old(self).wf(),
            old(self).spec_capacity() < old(self)@.len() + additional,
            valid_request(
                old(self)@.len() + additional as int,
                vstd::layout::size_of::<T>() as int,
            ),
        ensures
            final(self).wf(),
            final(self)@ == old(self)@,
            final(self).spec_base() == 0,
            old(self)@.len() + additional <= final(self).spec_capacity(),
            old(self).spec_capacity() < final(self).spec_capacity(),
            final(self).spec_capacity() == capacity_for::<T>(
                old(self)@.len() + additional as int,
            ),
    {
        proof {
            self.buf.lemma_size();
            let count = old(self)@.len() + additional as int;
            let size = vstd::layout::size_of::<T>() as int;
            crate::platform::lemma_round_up_properties(
                count * size,
                crate::platform::GRANULARITY as int,
            );
            assert(1 <= size) by (nonlinear_arith)
                requires
                    1 <= count * size,
                    0 <= count,
                    0 <= size,
            ;
            assert(count <= count * size) by (nonlinear_arith)
                requires
                    1 <= size,
                    0 <= count,
            ;
        }
        let count: usize = self.len + additional;
        let mut nb: MirrorBuf<T> = MirrorBuf::allocate(count);
        proof {
            nb.lemma_size();
        }
        let ghost prev = *self;
        let mut i: usize = 0;
        while i < self.len
            invariant
                i <= self.len,
                *self == prev,
                prev.wf(),
                2 * prev.buf.slot_count() <= usize::MAX,
                nb.wf(),
                prev.len <= count <= nb.slot_count(),
                nb.slot_count() == capacity_for::<T>(count as int),
                nb.slot_count() <= usize::MAX,
                forall|j: int| 0 <= j < i ==> #[trigger] nb.slot(j) == Some(prev.stored(j)),
            decreases self.len - i,
        {
            proof {
                assert(self.occupied(i as int));
            }
            let v: T = self.buf.read(self.base + i);
            nb.write(i, v);
            i = i + 1;
        }
        self.buf = nb;
        self.base = 0;
        proof {
            assert forall|k: int|
                #![trigger self.stored(k)]
                #![trigger self.occupied(k)]
                0 <= k < self.len implies self.occupied(k) && self.stored(k) == prev.stored(
                k,
            ) by {
                assert(self.buf.slot(k) == Some(prev.stored(k)));
            }
            assert(self@ =~= prev@);
        }
    }

    /// Ensures room for at least `additional` more elements, growing the
    /// mapping if the spare capacity does not already cover them; the
    /// content is unchanged either way, and a buffer that already has the
    /// room is not touched at all.
    pub fn reserve(&mut self, additional: usize) where T: Copy
        requires
            old(self).wf(),
            old(self)@.len() + additional > old(self).spec_capacity() ==> valid_request(
                old(self)@.len() + additional as int,
                vstd::layout::size_of::<T>() as int,
            ),
        ensures
            final(self).wf(),
            final(self)@ == old(self)@,
            old(self)@.len() + additional <= final(self).spec_capacity(),
            old(self).spec_capacity() <= final(self).spec_capacity(),
            old(self)@.len() + additional <= old(self).spec_capacity() ==> *final(self)
                == *old(self),
            old(self)@.len() + additional > old(self).spec_capacity()
                ==> final(self).spec_capacity() == capacity_for::<T>(
                old(self)@.len() + additional as int,
            ),
    {
        let res: usize = self.buf.slots() - self.len;
        if additional > res {
            self.reallocate(additional);
        }
    }

    /// Appends an element at the back, growing the mapping first when the
    /// buffer is full.
    pub fn push(&mut self, value: T) where T: Copy
        requires
            old(self).wf(),
            old(self)@.len() == old(self).spec_capacity() ==> valid_request(
                old(self)@.len() + 1int,
                vstd::layout::size_of::<T>() as int,
            ),
        ensures
            final(self).wf(),
            final(self)@ == old(self)@.push(value),
            old(self).spec_capacity() <= final(self).spec_capacity(),
            old(self)@.len() < old(self).spec_capacity() ==> final(self).spec_capacity()
                == old(self).spec_capacity(),
            old(self)@.len() == old(self).spec_capacity() ==> final(self).spec_capacity()
                == capacity_for::<T>(old(self)@.len() + 1int),
    {
        self.reserve(1);
        proof {
            self.buf.lemma_size();
        }
        let ghost prev = *self;
        let pos: usize = self.base + self.len;
        self.buf.write(pos, value);
        self.len = self.len + 1;
        proof {
            assert forall|i: int|
                #![trigger self.stored(i)]
                #![trigger self.occupied(i)]
                0 <= i < prev.len implies self.occupied(i) && self.stored(i) == prev.stored(
                i,
            ) by {
                assert(prev.occupied(i));
                assert(self.buf.slot(prev.base + i) == prev.buf.slot(prev.base + i));
            }
            assert(self.occupied(prev.len as int));
            assert(self.stored(prev.len as int) == value);
            assert(self@ =~= prev@.push(value));
        }
    }

    /// Copies and appends every element of a slice, growing the mapping
    /// first when the spare capacity cannot take them all.
    pub fn extend_from_slice(&mut self, other: &[T]) where T: Copy
        requires
            old(self).wf(),
            old(self)@.len() + other@.len() > old(self).spec_capacity() ==> valid_request(
                old(self)@.len() + other@.len() as int,
                vstd::layout::size_of::<T>() as int,
            ),
        ensures
            final(self).wf(),
            final(self)@ == old(self)@ + other@,
            old(self).spec_capacity() <= final(self).spec_capacity(),
            old(self)@.len() + other@.len() <= old(self).spec_capacity()
                ==> final(self).spec_capacity() == old(self).spec_capacity(),
            old(self)@.len() + other@.len() > old(self).spec_capacity()
                ==> final(self).spec_capacity() == capacity_for::<T>(
                old(self)@.len() + other@.len() as int,
            ),
    {
        let m: usize = other.len();
        self.reserve(m);
        proof {
            self.buf.lemma_size();
        }
        let ghost prev = *self;
        let mut i: usize = 0;
        while i < m
            invariant
                i <= m,
                m == other@.len(),
                prev.wf(),
                self.base == prev.base,
                self.len == prev.len,
                self.buf.wf(),
                self.buf.slot_count() == prev.buf.slot_count(),
                self.buf.byte_capacity() == prev.buf.byte_capacity(),
                2 * self.buf.slot_count() <= usize::MAX,
                prev.len + m <= self.buf.slot_count(),
                forall|j: int|
                    0 <= j < prev.len ==> #[trigger] self.buf.slot(prev.base + j)
                        == prev.buf.slot(prev.base + j),
                forall|j: int|
                    0 <= j < i ==> #[trigger] self.buf.slot(prev.base + (prev.len + j))
                        == Some(other@[j]),
            decreases m - i,
        {
            let v: T = other[i];
            self.buf.write(self.base + self.len + i, v);
            i = i + 1;
        }
        self.len = self.len + m;
        proof {
            assert forall|k: int|
                #![trigger self.stored(k)]
                #![trigger self.occupied(k)]
                0 <= k < self.len implies self.occupied(k) && self.stored(k) == (if k
                < prev.len {
                prev.stored(k)
            } else {
                other@[k - prev.len]
            }) by {
                if k < prev.len {
                    assert(prev.occupied(k));
                    assert(self.buf.slot(prev.base + k) == prev.buf.slot(prev.base + k));
                } else {
                    assert(self.buf.slot(prev.base + (prev.len + (k - prev.len))) == Some(
                        other@[k - prev.len],
                    ));
                    assert(prev.base + (prev.len + (k - prev.len)) == prev.base + k);
                }
            }
            assert(self@ =~= prev@ + other@);
        }
    }

    /// Resizes the buffer so that its length becomes `new_len`: beyond the
    /// current length every new slot is filled with a copy of `value`, and
    /// below it the buffer is truncated.
    pub fn resize(&mut self, new_len: usize, value: T) where T: Copy
        requires
            old(self).wf(),
            (new_len as int) > old(self).spec_capacity() ==> valid_request(
                new_len as int,
                vstd::layout::size_of::<T>() as int,
            ),
        ensures
            final(self).wf(),
            (new_len as int) <= old(self)@.len() ==> final(self)@ == old(self)@.take(
                new_len as int,
            ),
            (new_len as int) > old(self)@.len() ==> final(self)@ == old(self)@ + Seq::new(
                (new_len - old(self)@.len()) as nat,
                |i: int| value,
            ),
            old(self).spec_capacity() <= final(self).spec_capacity(),
            (new_len as int) <= old(self).spec_capacity() ==> final(self).spec_capacity()
                == old(self).spec_capacity(),
            (new_len as int) > old(self).spec_capacity() ==> final(self).spec_capacity()
                == capacity_for::<T>(new_len as int),
    {
        if new_len <= self.len {
            self.truncate(new_len);
            return;
        }
        let additional: usize = new_len - self.len;
        self.reserve(additional);
        proof {
            self.buf.lemma_size();
        }
        let ghost prev = *self;
        let mut i: usize = 0;
        while i < additional
            invariant
                i <= additional,
                prev.wf(),
                self.base == prev.base,
                self.len == prev.len,
                self.buf.wf(),
                self.buf.slot_count() == prev.buf.slot_count(),
                self.buf.byte_capacity() == prev.buf.byte_capacity(),
                2 * self.buf.slot_count() <= usize::MAX,
                prev.len + additional <= self.buf.slot_count(),
                forall|j: int|
                    0 <= j < prev.len ==> #[trigger] self.buf.slot(prev.base + j)
                        == prev.buf.slot(prev.base + j),
                forall|j: int|
                    0 <= j < i ==> #[trigger] self.buf.slot(prev.base + (prev.len + j))
                        == Some(value),
            decreases additional - i,
        {
            self.buf.write(self.base + self.len + i, value);
            i = i + 1;
        }
        self.len = self.len + additional;
        proof {
            assert forall|k: int|
                #![trigger self.stored(k)]
                #![trigger self.occupied(k)]
                0 <= k < self.len implies self.occupied(k) && self.stored(k) == (if k
                < prev.len {
                prev.stored(k)
            } else {
                value
            }) by {
                if k < prev.len {
                    assert(prev.occupied(k));
                    assert(self.buf.slot(prev.base + k) == prev.buf.slot(prev.base + k));
                } else {
                    assert(self.buf.slot(prev.base + (prev.len + (k - prev.len))) == Some(
                        value,
                    ));
                    assert(prev.base + (prev.len + (k - prev.len)) == prev.base + k);
                }
            }
            assert(self@ =~= prev@ + Seq::new((additional) as nat, |i: int| value));
        }
    }

    /// Writes `value` into the spare slot `offset` places past the live
    /// window, without changing the length: the safe counterpart of
    /// filling the reserved region (for instance from a bulk read) before
    /// marking it live with `add_len` or `set_len`.
    pub fn write_reserved(&mut self, offset: usize, value: T) where T: Copy
        requires
            old(self).wf(),
            old(self)@.len() + offset < old(self).spec_capacity(),
        ensures
            final(self).wf(),
            final(self)@ == old(self)@,
            final(self).spec_capacity() == old(self).spec_capacity(),
            final(self).spec_base() == old(self).spec_base(),
            final(self).occupied(old(self)@.len() + offset),
            final(self).stored(old(self)@.len() + offset) == value,
            forall|j: int|
                0 <= j < old(self).spec_capacity() && j != old(self)@.len() + offset ==> (
                #[trigger] final(self).occupied(j)) == old(self).occupied(j),
            forall|j: int|
                0 <= j < old(self).spec_capacity() && j != old(self)@.len() + offset
                    && old(self).occupied(j) ==> (#[trigger] final(self).stored(j)) == old(
                    self,
                ).stored(j),
    {
        proof {
            self.buf.lemma_size();
        }
        let ghost prev = *self;
        let pos: usize = self.base + (self.len + offset);
        self.buf.write(pos, value);
        proof {
            let t = prev.len + offset as int;
            assert forall|j: int|
                #![trigger self.occupied(j)]
                #![trigger self.stored(j)]
                0 <= j < prev.buf.slot_count() && j != t implies self.buf.slot(prev.base + j)
                == prev.buf.slot(prev.base + j) by {}
            assert(self.occupied(t));
            assert(self.stored(t) == value);
            assert forall|i: int| 0 <= i < self.len implies #[trigger] self.occupied(i) by {
                assert(prev.occupied(i));
                assert(self.buf.slot(prev.base + i) == prev.buf.slot(prev.base + i));
            }
            assert(self@ =~= prev@);
        }
    }

    /// Marks `additional` filled spare slots as live, growing the length
    /// over elements already written there with `write_reserved`.
    pub fn add_len(&mut self, additional: usize)
        requires
            old(self).wf(),
            old(self)@.len() + additional <= old(self).spec_capacity(),
            forall|j: int|
                old(self)@.len() <= j < old(self)@.len() + additional ==> #[trigger] old(
                    self,
                ).occupied(j),
        ensures
            final(self).wf(),
            final(self).spec_capacity() == old(self).spec_capacity(),
            final(self).spec_base() == old(self).spec_base(),
            final(self)@ == old(self)@ + Seq::new(
                additional as nat,
                |i: int| old(self).stored(old(self)@.len() + i),
            ),
    {
        proof {
            self.buf.lemma_size();
        }
        let ghost prev = *self;
        self.len = self.len + additional;
        proof {
            assert forall|i: int| 0 <= i < self.len implies #[trigger] self.occupied(i) by {
                assert(prev.occupied(i));
            }
            assert(self@ =~= prev@ + Seq::new(
                additional as nat,
                |i: int| prev.stored(prev.len + i),
            ));
        }
    }

    /// Forces the length to `new_len`, whose slots must all be filled:
    /// shrinking this way gives elements up without removing them from
    /// their slots, growing takes over elements written with
    /// `write_reserved`.
    pub fn set_len(&mut self, new_len: usize)
        requires
            old(self).wf(),
            new_len as nat <= old(self).spec_capacity(),
            forall|j: int| 0 <= j < new_len ==> #[trigger] old(self).occupied(j),
        ensures
            final(self).wf(),
            final(self).spec_capacity() == old(self).spec_capacity(),
            final(self).spec_base() == old(self).spec_base(),
            final(self)@ == Seq::new(new_len as nat, |i: int| old(self).stored(i)),
    {
        proof {
            self.buf.lemma_size();
        }
        let ghost prev = *self;
        self.len = new_len;
        proof {
            assert forall|i: int| 0 <= i < self.len implies #[trigger] self.occupied(i) by {
                assert(prev.occupied(i));
            }
            assert(self@ =~= Seq::new(new_len as nat, |i: int| prev.stored(i)));
        }
    }

    /// Builds a ring buffer holding the elements of a vector, in order:
    /// one allocation sized for them all, then one bulk append.
    pub fn from_vec(values: &Vec<T>) -> (rb: RingBuffer<T>) where T: Copy
        requires
            values@.len() > 0 ==> valid_request(
                values@.len() as int,
                vstd::layout::size_of::<T>() as int,
            ),
        ensures
            rb.wf(),
            rb@ == values@,
    {
        let mut rb = RingBuffer::with_capacity(values.len());
        rb.extend_from_slice(values.as_slice());
        proof {
            assert(rb@ =~= values@);
        }
        rb
    }

    /// An independent copy: a fresh mapping sized for the current length,
    /// with every element copied over; nothing is shared with the source.
    pub fn clone(&self) -> (r: RingBuffer<T>) where T: Copy
        requires
            self.wf(),
        ensures
            r.wf(),
            r@ == self@,
            self@.len() == 0 ==> r.spec_capacity() == 0,
            self@.len() > 0 ==> r.spec_capacity() == capacity_for::<T>(self@.len() as int),
    {
        if self.len == 0 {
            let r = RingBuffer::new();
            proof {
                assert(r@ =~= self@);
            }
            return r;
        }
        proof {
            self.buf.lemma_window_request(self@.len() as int);
        }
        let mut r = RingBuffer::with_capacity(self.len);
        let mut i: usize = 0;
        while i < self.len
            invariant
                i <= self.len,
                self.wf(),
                self@.len() == self.len,
                r.wf(),
                r@ == self@.take(i as int),
                self.len <= r.spec_capacity(),
                r.spec_capacity() == capacity_for::<T>(self.len as int),
            decreases self.len - i,
        {
            let v = self.get(i);
            r.push(v);
            i = i + 1;
            proof {
                assert(r@ =~= self@.take(i as int));
            }
        }
        proof {
            assert(self@.take(self.len as int) =~= self@);
        }
        r
    }

    /// Resizes the buffer so that its length becomes `new_len`: beyond the
    /// current length each new slot is filled with the result of one call
    /// of `f`, made once per slot in order; below it the buffer is
    /// truncated.
    pub fn resize_with<F: Fn() -> T>(&mut self, new_len: usize, f: F) where T: Copy
        requires
            old(self).wf(),
            (new_len as int) > old(self).spec_capacity() ==> valid_request(
                new_len as int,
                vstd::layout::size_of::<T>() as int,
            ),
            (new_len as int) > old(self)@.len() ==> call_requires(f, ()),
        ensures
            final(self).wf(),
            (new_len as int) <= old(self)@.len() ==> final(self)@ == old(self)@.take(
                new_len as int,
            ),
            (new_len as int) > old(self)@.len() ==> {
                &&& final(self)@.len() == new_len
                &&& forall|j: int| 0 <= j < old(self)@.len() ==> final(self)@[j] == old(
                    self,
                )@[j]
                &&& forall|j: int|
                    old(self)@.len() <= j < new_len ==> call_ensures(
                        f,
                        (),
                        #[trigger] final(self)@[j],
                    )
            },
            old(self).spec_capacity() <= final(self).spec_capacity(),
            (new_len as int) <= old(self).spec_capacity() ==> final(self).spec_capacity()
                == old(self).spec_capacity(),
            (new_len as int) > old(self).spec_capacity() ==> final(self).spec_capacity()
                == capacity_for::<T>(new_len as int),
    {
        if new_len <= self.len {
            self.truncate(new_len);
            return;
        }
        let additional: usize = new_len - self.len;
        self.reserve(additional);
        proof {
            self.buf.lemma_size();
        }
        let ghost prev = *self;
        let mut i: usize = 0;
        while i < additional
            invariant
                i <= additional,
                prev.wf(),
                call_requires(f, ()),
                self.base == prev.base,
                self.len == prev.len,
                self.buf.wf(),
                self.buf.slot_count() == prev.buf.slot_count(),
                self.buf.byte_capacity() == prev.buf.byte_capacity(),
                2 * self.buf.slot_count() <= usize::MAX,
                prev.len + additional <= self.buf.slot_count(),
                forall|j: int|
                    0 <= j < prev.len ==> #[trigger] self.buf.slot(prev.base + j)
                        == prev.buf.slot(prev.base + j),
                forall|j: int|
                    0 <= j < i ==> (#[trigger] self.buf.slot(prev.base + (prev.len + j)))
                        is Some,
                forall|j: int|
                    0 <= j < i ==> call_ensures(
                        f,
                        (),
                        (#[trigger] self.buf.slot(prev.base + (prev.len + j)))->Some_0,
                    ),
            decreases additional - i,
        {
            let v: T = f();
            self.buf.write(self.base + self.len + i, v);
            i = i + 1;
        }
        self.len = self.len + additional;
        proof {
            assert forall|k: int|
                #![trigger self.stored(k)]
                #![trigger self.occupied(k)]
                0 <= k < self.len implies self.occupied(k) && (k < prev.len ==> self.stored(k)
                == prev.stored(k)) && (k >= prev.len ==> call_ensures(
                f,
                (),
                self.stored(k),
            )) by {
                if k < prev.len {
                    assert(prev.occupied(k));
                    assert(self.buf.slot(prev.base + k) == prev.buf.slot(prev.base + k));
                } else {
                    assert((self.buf.slot(prev.base + (prev.len + (k - prev.len))))
                        is Some);
                    assert(call_ensures(
                        f,
                        (),
                        self.buf.slot(prev.base + (prev.len + (k - prev.len)))->Some_0,
                    ));
                    assert(prev.base + (prev.len + (k - prev.len)) == prev.base + k);
                }
            }
            assert forall|j: int| 0 <= j < prev.len implies self@[j] == prev@[j] by {}
        }
    }
}


/// The view after enqueuing each element of `vs` in order onto a buffer
/// whose view is `q`: what a loop of single `push` calls leaves behind,
/// by `push`'s contract.
pub open spec fn enqueue_all<T>(q: Seq<T>, vs: Seq<T>) -> Seq<T>
    decreases vs.len(),
{
    if vs.len() == 0 {
        q
    } else {
        enqueue_all(q.push(vs.first()), vs.drop_first())
    }
}

/// Growth-independent content: any run of single enqueues appends exactly
/// the enqueued values, in order, to the starting content — `push`'s
/// contract says nothing else happens to the view however often the
/// mapping is replaced underneath.
pub proof fn lemma_enqueue_all_appends<T>(q: Seq<T>, vs: Seq<T>)
    ensures
        enqueue_all(q, vs) == q + vs,
    decreases vs.len(),
{
    if vs.len() == 0 {
        assert(enqueue_all(q, vs) =~= q + vs);
    } else {
        lemma_enqueue_all_appends(q.push(vs.first()), vs.drop_first());
        assert(q.push(vs.first()) + vs.drop_first() =~= q + vs);
    }
}

/// FIFO order: enqueue `vs` onto an empty buffer and then dequeue
/// repeatedly; before the k-th dequeue the view is `vs.skip(k)`, so by
/// `pop`'s contract that dequeue observes `vs[k]` and leaves
/// `vs.skip(k + 1)`: the values come out in the order they went in.
pub proof fn lemma_fifo_order<T>(vs: Seq<T>, k: int)
    requires
        0 <= k < vs.len(),
    ensures
        enqueue_all(Seq::empty(), vs).skip(k)[0] == vs[k],
        enqueue_all(Seq::empty(), vs).skip(k).skip(1) == enqueue_all(
            Seq::empty(),
            vs,
        ).skip(k + 1),
{
    lemma_enqueue_all_appends(Seq::empty(), vs);
    assert(Seq::empty() + vs =~= vs);
    assert(vs.skip(k).skip(1) =~= vs.skip(k + 1));
}

/// Round trip of a bulk append: appending `t` to a buffer holding `s` and
/// then bulk-removing `t.len()` elements from the front (the contracts of
/// `extend_from_slice` and `remove_tail`) leaves exactly as many elements
/// as before the append; and where the buffer was empty before the
/// append, so that the removed prefix is the appended data itself, it
/// leaves exactly the content from before the append.
pub proof fn lemma_bulk_round_trip<T>(s: Seq<T>, t: Seq<T>)
    ensures
        (s + t).skip(t.len() as int).len() == s.len(),
        s.len() == 0 ==> (s + t).skip(t.len() as int) == s,
{
    if s.len() == 0 {
        assert((s + t).skip(t.len() as int) =~= s);
    }
}

} // verus!

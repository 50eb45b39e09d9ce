//! A queue optimized for FIFO queuing of very small amounts of data.

use vstd::prelude::*;

verus! {

// There's no particular science behind this number, but it seems to work
// relatively well in ad-hoc benchmarks.
pub const INLINE_MAX: usize = 4;

/// A struct optimized for FIFO queuing of very small amounts of data, supporting
/// `push_back` and `pop_front` operations as well as a `mutate_in_place`
/// operation used in practice for sorting.
///
/// Stores the first `INLINE_MAX` entries inline, and then spills to a `Vec`;
/// will only provide any advantage if spilling is unlikely.
///
/// The implementation is a sort of compromise between a ring buffer and a plain
/// array. We increment a `front` pointer on `pop_front` rather than move
/// everything, but we don't use a true ring buffer because that would make
/// sorting pretty complex. Instead we just compact `front` back to zero
/// periodically.
pub struct Buffer<T> {
    // Index where next item will be inserted in buffer, either in `data`
    // or in `spill`.
    back: usize,
    // Index of first item in buffer (or zero if buffer is empty).
    // Always found in `data`.
    front: usize,
    // Inline storage, used for fast path.
    data: [T; 4],
    // Logical extension of inline storage. While `back` is at most
    // `INLINE_MAX` the items live in `data` alone. Otherwise, `spill` contains
    // all items, and `data` contains a copy of those at the indices from
    // `front` up to `INLINE_MAX` (values before `front` are garbage in both).
    spill: Vec<T>,
}

impl<T> View for Buffer<T> {
    type V = Seq<T>;

    /// The queued items, oldest first.
    closed spec fn view(&self) -> Seq<T> {
        if self.back <= INLINE_MAX {
            self.data@.subrange(self.front as int, self.back as int)
        } else {
            self.spill@.subrange(self.front as int, self.back as int)
        }
    }
}

impl<T: Copy + Default> Buffer<T> {
    /// The representation invariant.
    pub closed spec fn wf(&self) -> bool {
        &&& self.front <= self.back
        &&& self.front < INLINE_MAX
        &&& self.back > INLINE_MAX ==> {
            &&& self.spill@.len() == self.back
            &&& forall|i: int| self.front <= i < INLINE_MAX ==> self.data@[i] == self.spill@[i]
        }
    }

    /// Whether the items have been moved to the heap. They are not unless
    /// more than `INLINE_MAX` items were queued at once.
    pub closed spec fn spilled(&self) -> bool {
        self.back > INLINE_MAX
    }

    /// Makes an empty buffer.
    pub fn new() -> (buffer: Buffer<T>)
        ensures
            buffer.wf(),
            buffer@ == Seq::<T>::empty(),
            !buffer.spilled(),
    {
        let buffer = Buffer { data: [T::default();4], spill: Vec::new(), front: 0, back: 0 };
        assert(buffer@ =~= Seq::<T>::empty());
        buffer
    }

    /// Applies `f` to the queued items, as one slice.
    pub fn mutate_in_place<F: FnOnce(&mut [T])>(&mut self, f: F)
        requires
            old(self).wf(),
            forall|s: &mut [T]| s@ == old(self)@ ==> #[trigger] call_requires(f, (s,)),
            forall|s: &mut [T]| #[trigger] call_ensures(f, (s,), ()) ==> final(s)@.len() == s@.len(),
        ensures
            final(self).wf(),
            exists|s: &mut [T]|
                s@ == old(self)@ && #[trigger] call_ensures(f, (s,), ()) && final(self)@ == final(s)@,
            !old(self).spilled() ==> !final(self).spilled(),
    {
        if self.back <= INLINE_MAX {
            // Not spilled (fast path)
            self.mutate_inline(f);
        } else if self.size() <= INLINE_MAX {
            // Spilled, can unspill (might as well since it's a copy either way)
            self.unspill();
            self.mutate_inline(f);
        } else {
            // Spilled, have to stay that way
            self.mutate_spilled(f);
        }
    }

    /// Appends `item` behind the queued items.
    pub fn push_back(&mut self, item: T)
        requires
            old(self).wf(),
        ensures
            final(self).wf(),
            final(self)@ == old(self)@.push(item),
            !old(self).spilled() && old(self)@.len() < INLINE_MAX ==> !final(self).spilled(),
    {
        if self.back < INLINE_MAX {
            // Fast path
            self.data[self.back] = item;
        } else if self.size() < INLINE_MAX && self.back == INLINE_MAX {
            // Non-allocating fallback
            self.shrink_inline();
            self.data[self.back] = item;
        } else if self.back == INLINE_MAX {
            // Allocating fallback
            self.spill(item);
        } else {
            // Already spilled
            self.spill.push(item);
        }
        // A vector is no longer than `usize::MAX`.
        assert(self.spill@.len() == self.spill.len());
        self.back += 1;
        assert(self@ =~= old(self)@.push(item));
    }

    /// Applies `f` to the queued items, as one slice, and then appends `item`.
    pub fn mutate_and_push_back<F: FnOnce(&mut [T])>(&mut self, item: T, f: F)
        requires
            old(self).wf(),
            forall|s: &mut [T]| s@ == old(self)@ ==> #[trigger] call_requires(f, (s,)),
            forall|s: &mut [T]| #[trigger] call_ensures(f, (s,), ()) ==> final(s)@.len() == s@.len(),
        ensures
            final(self).wf(),
            exists|s: &mut [T]|
                s@ == old(self)@ && #[trigger] call_ensures(f, (s,), ()) && final(self)@ == final(s)@.push(item),
            !old(self).spilled() && old(self)@.len() < INLINE_MAX ==> !final(self).spilled(),
    {
        if self.back < INLINE_MAX {
            // Fast path
            self.mutate_inline(f);
            self.data[self.back] = item;
        } else if self.size() < INLINE_MAX && self.back == INLINE_MAX {
            // Non-allocating fallback
            self.shrink_inline();
            self.mutate_inline(f);
            self.data[self.back] = item;
        } else if self.size() < INLINE_MAX {
            // Spilled, can unspill (might as well since it's a copy either way)
            self.unspill();
            self.mutate_inline(f);
            self.data[self.back] = item;
        } else if self.back == INLINE_MAX {
            // Allocating fallback
            self.mutate_inline(f);
            self.spill(item);
        } else if self.size() == INLINE_MAX {
            // Spilled, with as many items as fit inline
            self.unspill();
            self.mutate_inline(f);
            self.spill(item);
        } else {
            // Already spilled
            self.mutate_spilled(f);
            self.spill.push(item);
        }
        // A vector is no longer than `usize::MAX`.
        assert(self.spill@.len() == self.spill.len());
        self.back += 1;
    }

    /// Removes the oldest item, if there is one.
    pub fn pop_front(&mut self) -> (item: Option<T>)
        requires
            old(self).wf(),
        ensures
            final(self).wf(),
            old(self)@.len() == 0 ==> item is None && final(self)@ == old(self)@,
            old(self)@.len() > 0 ==> item == Some(old(self)@[0]) && final(self)@ == old(self)@.skip(1),
            !old(self).spilled() ==> !final(self).spilled(),
    {
        let size: usize = self.size();
        if size == 0 {
            None
        } else if size == 1 {
            // Fast path when the buffer has exactly one item - avoid
            // moving the front pointer forward to avoid unnecessary
            // compaction
            let result = self.data[self.front];
            self.back = self.front;
            assert(self@ =~= old(self)@.skip(1));
            Some(result)
        } else {
            // Potentially slower path, if we need to compact
            if self.front == INLINE_MAX - 1 {
                self.compact();
            }
            let result = self.data[self.front];
            self.front += 1;
            assert(self@ =~= old(self)@.skip(1));
            Some(result)
        }
    }

    fn mutate_inline<F: FnOnce(&mut [T])>(&mut self, f: F)
        requires
            old(self).wf(),
            old(self).back <= INLINE_MAX,
            forall|s: &mut [T]| s@ == old(self)@ ==> #[trigger] call_requires(f, (s,)),
            forall|s: &mut [T]| #[trigger] call_ensures(f, (s,), ()) ==> final(s)@.len() == s@.len(),
        ensures
            final(self).wf(),
            final(self).front == old(self).front,
            final(self).back == old(self).back,
            exists|s: &mut [T]|
                s@ == old(self)@ && #[trigger] call_ensures(f, (s,), ()) && final(self)@ == final(s)@,
    {
        let whole: &mut [T] = &mut self.data;
        let (head, _tail) = whole.split_at_mut(self.back);
        let (_skipped, live) = head.split_at_mut(self.front);
        assert(live@ =~= old(self)@);
        f(live);
        assert(self@ =~= final(live)@);
    }

    fn mutate_spilled<F: FnOnce(&mut [T])>(&mut self, f: F)
        requires
            old(self).wf(),
            old(self).back - old(self).front > INLINE_MAX,
            forall|s: &mut [T]| s@ == old(self)@ ==> #[trigger] call_requires(f, (s,)),
            forall|s: &mut [T]| #[trigger] call_ensures(f, (s,), ()) ==> final(s)@.len() == s@.len(),
        ensures
            final(self).wf(),
            final(self).back > INLINE_MAX,
            exists|s: &mut [T]|
                s@ == old(self)@ && #[trigger] call_ensures(f, (s,), ()) && final(self)@ == final(s)@,
    {
        if self.front > 0 {
            self.shrink_spilled();
        }
        let live: &mut [T] = self.spill.as_mut_slice();
        assert(live@ =~= old(self)@);
        f(live);
        self.mirror();
        assert(self@ =~= final(live)@);
    }

    // Copies the first `INLINE_MAX` spilled items to the inline storage.
    fn mirror(&mut self)
        requires
            old(self).front == 0,
            old(self).back > INLINE_MAX,
            old(self).spill@.len() == old(self).back,
        ensures
            final(self).wf(),
            final(self).front == 0,
            final(self).back == old(self).back,
            final(self).spill == old(self).spill,
    {
        let mut i: usize = 0;
        while i < INLINE_MAX
            invariant
                i <= INLINE_MAX,
                self.front == 0,
                self.back == old(self).back,
                self.spill == old(self).spill,
                self.spill@.len() > INLINE_MAX,
                forall|j: int| 0 <= j < i ==> self.data@[j] == self.spill@[j],
            decreases INLINE_MAX - i,
        {
            self.data[i] = self.spill[i];
            i = i + 1;
        }
    }

    fn spill(&mut self, item: T)
        requires
            old(self).wf(),
            old(self).back == INLINE_MAX,
            old(self).front == 0,
        ensures
            final(self).front == 0,
            final(self).back == INLINE_MAX,
            final(self).data == old(self).data,
            final(self).spill@ == old(self).data@.push(item),
    {
        self.spill.clear();
        self.spill.reserve(INLINE_MAX + 1);
        let mut i: usize = 0;
        while i < INLINE_MAX
            invariant
                i <= INLINE_MAX,
                self.front == 0,
                self.back == INLINE_MAX,
                self.data == old(self).data,
                self.spill@ == self.data@.subrange(0, i as int),
            decreases INLINE_MAX - i,
        {
            self.spill.push(self.data[i]);
            i = i + 1;
            assert(self.spill@ =~= self.data@.subrange(0, i as int));
        }
        assert(self.data@.subrange(0, INLINE_MAX as int) =~= self.data@);
        self.spill.push(item);
    }

    fn compact(&mut self)
        requires
            old(self).wf(),
            old(self).front > 0,
            old(self).back >= INLINE_MAX,
        ensures
            final(self).wf(),
            final(self)@ == old(self)@,
            final(self).front == 0,
    {
        if self.back == INLINE_MAX {
            self.shrink_inline();
        } else if self.size() <= INLINE_MAX {
            self.unspill();
        } else {
            self.shrink_spilled();
        }
    }

    fn shrink_inline(&mut self)
        requires
            old(self).wf(),
            old(self).back <= INLINE_MAX,
        ensures
            final(self).wf(),
            final(self)@ == old(self)@,
            final(self).front == 0,
            final(self).back == old(self).back - old(self).front,
    {
        let mut i: usize = self.front;
        while i < self.back
            invariant
                self.front <= i <= self.back <= INLINE_MAX,
                self.front == old(self).front,
                self.back == old(self).back,
                forall|j: int| self.front <= j < i ==> self.data@[j - self.front] == old(self).data@[j],
                forall|j: int| i <= j < INLINE_MAX ==> self.data@[j] == old(self).data@[j],
            decreases self.back - i,
        {
            self.data[i - self.front] = self.data[i];
            i = i + 1;
        }
        self.back -= self.front;
        self.front = 0;
        assert(self@ =~= old(self)@);
    }

    fn unspill(&mut self)
        requires
            old(self).wf(),
            old(self).back > INLINE_MAX,
            old(self).back - old(self).front <= INLINE_MAX,
        ensures
            final(self).wf(),
            final(self)@ == old(self)@,
            final(self).front == 0,
            final(self).back == old(self).back - old(self).front,
    {
        let size: usize = self.size();
        let mut i: usize = 0;
        while i < size
            invariant
                i <= size <= INLINE_MAX,
                size == self.back - self.front,
                self.front == old(self).front,
                self.back == old(self).back,
                self.spill == old(self).spill,
                self.spill@.len() == self.back,
                forall|j: int| 0 <= j < i ==> self.data@[j] == self.spill@[j + self.front],
            decreases size - i,
        {
            self.data[i] = self.spill[self.front + i];
            i = i + 1;
        }
        self.spill.clear();
        self.back = size;
        self.front = 0;
        assert(self@ =~= old(self)@);
    }

    fn shrink_spilled(&mut self)
        requires
            old(self).wf(),
            old(self).back > INLINE_MAX,
            old(self).back - old(self).front > INLINE_MAX,
        ensures
            final(self).wf(),
            final(self)@ == old(self)@,
            final(self).front == 0,
            final(self).back == old(self).back - old(self).front,
            final(self).spill@.len() == final(self).back,
    {
        let size: usize = self.size();
        let mut i: usize = 0;
        while i < size
            invariant
                i <= size,
                size == self.back - self.front,
                self.front == old(self).front,
                self.back == old(self).back,
                self.spill@.len() == self.back,
                forall|j: int| 0 <= j < i ==> self.spill@[j] == old(self).spill@[j + self.front],
                forall|j: int| i <= j < self.back ==> self.spill@[j] == old(self).spill@[j],
            decreases size - i,
        {
            let item = self.spill[self.front + i];
            self.spill[i] = item;
            i = i + 1;
        }
        self.spill.truncate(size);
        self.back -= self.front;
        self.front = 0;
        self.mirror();
        assert(self@ =~= old(self)@);
    }

    /// The number of queued items.
    pub fn size(&self) -> (n: usize)
        requires
            self.wf(),
        ensures
            n == self@.len(),
    {
        self.back - self.front
    }
}

} // verus!

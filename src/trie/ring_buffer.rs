//! A circular buffer that keeps the most recently pushed items.
use vstd::prelude::*;

verus! {

/// The last `n` items of `s` (all of them when `s` is shorter).
pub open spec fn last_n<T>(s: Seq<T>, n: nat) -> Seq<T> {
    if s.len() <= n {
        s
    } else {
        s.subrange(s.len() - n, s.len() as int)
    }
}

/// A circular buffer that keeps the last `capacity` items pushed to it.
#[derive(Debug)]
pub struct RingBuffer<T: Copy> {
    values: Vec<T>,
    capacity: usize,
    pos: usize,
}

impl<T: Copy> View for RingBuffer<T> {
    type V = Seq<T>;

    /// The live items, oldest first.
    closed spec fn view(&self) -> Seq<T> {
        Seq::new(
            self.values@.len(),
            |i: int|
                if i + self.pos < self.capacity {
                    self.values@[i + self.pos]
                } else {
                    self.values@[i + self.pos - self.capacity]
                },
        )
    }
}

impl<T: Copy> RingBuffer<T> {
    /// The number of items the buffer keeps.
    pub closed spec fn spec_capacity(&self) -> nat {
        self.capacity as nat
    }

    /// The buffer never holds more than its capacity, and the start of the
    /// live items moves only once the buffer is full.
    pub closed spec fn wf(&self) -> bool {
        &&& self.values@.len() <= self.capacity
        &&& (self.pos < self.capacity || self.pos == 0)
        &&& (self.values@.len() < self.capacity ==> self.pos == 0)
    }

    /// A new, empty buffer with the given capacity.
    pub fn new(capacity: usize) -> (r: Self)
        ensures
            r.wf(),
            r@.len() == 0,
            r.spec_capacity() == capacity,
    {
        RingBuffer { values: Vec::with_capacity(capacity), capacity, pos: 0 }
    }

    /// Push a new item; when the buffer is at capacity the oldest item is
    /// removed.
    pub fn push(&mut self, item: T)
        requires
            old(self).wf(),
            old(self).spec_capacity() > 0,
        ensures
            final(self).wf(),
            final(self).spec_capacity() == old(self).spec_capacity(),
            final(self)@ == last_n(old(self)@.push(item), old(self).spec_capacity()),
    {
        let ghost pre = self@;
        if self.values.len() < self.capacity {
            self.values.push(item);
            assert(self@ =~= pre.push(item));
        } else {
            let p = self.pos;
            self.values.set(p, item);
            self.pos = if p + 1 == self.capacity {
                0
            } else {
                p + 1
            };
            let ghost full = pre.push(item);
            assert(self@ =~= full.subrange(full.len() - self.capacity, full.len() as int));
        }
    }

    /// The number of items currently stored.
    pub fn len(&self) -> (r: usize)
        requires
            self.wf(),
        ensures
            r == self@.len(),
    {
        self.values.len()
    }

    /// The item at logical position `index`, 0 being the oldest live item.
    pub fn get_item(&self, index: usize) -> (r: T)
        requires
            self.wf(),
            index < self@.len(),
        ensures
            r == self@[index as int],
    {
        let room = self.capacity - self.pos;
        if index < room {
            self.values[self.pos + index]
        } else {
            self.values[index - room]
        }
    }
}

} // verus!

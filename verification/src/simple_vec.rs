//! The growable buffer: a contiguous array that starts without storage,
//! takes storage for `INITIAL_SIZE` items at the first push and half as much
//! again whenever it is full.

use vstd::prelude::*;

verus! {

/// The capacity that the first push gives the buffer.
pub const INITIAL_SIZE: usize = 16;

/// The capacity a full buffer of capacity `capacity` grows to.
pub open spec fn grown(capacity: int) -> int {
    capacity / 2 + capacity
}

/// The growable buffer.
pub struct Vec<T> {
    /// The items, in the storage that the buffer owns.
    pub items: std::vec::Vec<T>,
    /// The number of items that the buffer has taken storage for.
    pub capacity: usize,
}

impl<T> Vec<T> {
    /// The items, in order.
    pub open spec fn view(self) -> Seq<T> {
        self.items@
    }

    /// The items fit the capacity, and a buffer that has storage has it for
    /// `INITIAL_SIZE` items at least.
    pub open spec fn wf(self) -> bool {
        self.items@.len() <= self.capacity && (self.capacity == 0 || self.capacity >= INITIAL_SIZE)
    }

    /// The capacity after one push.
    pub open spec fn capacity_after_push(self) -> int {
        if self.capacity == 0 {
            INITIAL_SIZE as int
        } else if self.items@.len() == self.capacity {
            grown(self.capacity as int)
        } else {
            self.capacity as int
        }
    }

    /// An empty buffer without storage.
    pub fn new() -> (v: Self)
        ensures
            v.wf(),
            v@ == Seq::<T>::empty(),
            v.capacity == 0,
    {
        Vec { items: std::vec::Vec::new(), capacity: 0 }
    }

    /// Moves the items into storage for `capacity` items.
    fn regrow(&mut self, capacity: usize)
        requires
            old(self).items@.len() <= capacity,
        ensures
            final(self)@ == old(self)@,
            final(self).capacity == capacity,
    {
        let mut storage: std::vec::Vec<T> = std::vec::Vec::with_capacity(capacity);
        storage.append(&mut self.items);
        self.items = storage;
        self.capacity = capacity;
    }

    /// Appends `t`. A buffer without storage takes storage for
    /// `INITIAL_SIZE` items first, and a full one for half as many again as
    /// it has.
    pub fn push(&mut self, t: T)
        requires
            old(self).wf(),
            old(self).capacity_after_push() <= usize::MAX,
        ensures
            final(self).wf(),
            final(self)@ == old(self)@.push(t),
            final(self).capacity == old(self).capacity_after_push(),
    {
        if self.capacity == 0 {
            self.regrow(INITIAL_SIZE);
        }
        if self.items.len() == self.capacity {
            let new_cap = self.capacity / 2 + self.capacity;
            self.regrow(new_cap);
        }
        self.items.push(t);
    }

    /// Drops every item and keeps the storage.
    pub fn clear(&mut self)
        requires
            old(self).wf(),
        ensures
            final(self).wf(),
            final(self)@ == Seq::<T>::empty(),
            final(self).capacity == old(self).capacity,
    {
        self.items.clear();
    }

    /// The number of items.
    pub fn len(&self) -> (n: usize)
        ensures
            n == self@.len(),
    {
        self.items.len()
    }

    /// The items as a slice.
    pub fn deref(&self) -> (slice: &[T])
        ensures
            slice@ == self@,
    {
        self.items.as_slice()
    }

    /// The items as a slice, to be changed in place.
    pub fn deref_mut(&mut self) -> (slice: &mut [T])
        ensures
            slice@ == old(self)@,
            final(slice)@ == final(self)@,
            final(self).capacity == old(self).capacity,
    {
        self.items.as_mut_slice()
    }

    /// The item at `idx`.
    pub fn index(&self, idx: usize) -> (item: &T)
        requires
            idx < self@.len(),
        ensures
            *item == self@[idx as int],
    {
        &self.items[idx]
    }

    /// The item at `idx`, to be changed in place.
    pub fn index_mut(&mut self, idx: usize) -> (item: &mut T)
        requires
            idx < old(self)@.len(),
        ensures
            *item == old(self)@[idx as int],
            final(self)@ == old(self)@.update(idx as int, *final(item)),
            final(self).capacity == old(self).capacity,
    {
        &mut self.items[idx]
    }
}

} // verus!

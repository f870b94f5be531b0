//! A minimal growable array.
//!
//! The vector tracks a separate capacity that at least covers the current
//! size and grows by doubling whenever an insertion finds it full, the way
//! a hand-rolled dynamic array manages its allocation.  It is viewed as
//! the sequence of its first `size` elements.

use vstd::prelude::*;

use crate::seq_ops;

verus! {

pub struct Vector {
    data: Vec<i64>,
    capacity: usize,
}

impl View for Vector {
    type V = Seq<i64>;

    closed spec fn view(&self) -> Seq<i64> {
        self.data@
    }
}

impl Vector {
    /// The size never exceeds the capacity, and the capacity never
    /// collapses to zero (otherwise doubling could not grow it).
    pub closed spec fn well_formed(&self) -> bool {
        self.data@.len() <= self.capacity && self.capacity >= 1
    }

    /// The tracked capacity.
    pub closed spec fn spec_capacity(&self) -> usize {
        self.capacity
    }

    /// An empty vector with room for one element.
    pub fn new() -> (v: Self)
        ensures
            v.well_formed(),
            v@ == Seq::<i64>::empty(),
            v.spec_capacity() == 1,
    {
        Vector { data: Vec::new(), capacity: 1 }
    }

    /// Doubles the capacity (saturating at the machine limit).
    fn resize(&mut self)
        requires
            old(self).well_formed(),
        ensures
            final(self).well_formed(),
            final(self)@ == old(self)@,
            final(self).spec_capacity() > old(self).spec_capacity() || final(self).spec_capacity()
                == usize::MAX,
    {
        if self.capacity > usize::MAX / 2 {
            self.capacity = usize::MAX;
        } else {
            self.capacity = self.capacity * 2;
        }
    }

    /// Reads the element at `index`.
    pub fn get(&self, index: usize) -> (r: i64)
        requires
            index < self@.len(),
        ensures
            r == self@[index as int],
    {
        self.data[index]
    }

    /// Appends `value`, growing the capacity first if the vector is full.
    pub fn insert(&mut self, value: i64)
        requires
            old(self).well_formed(),
            old(self)@.len() < usize::MAX,
        ensures
            final(self).well_formed(),
            final(self)@ == old(self)@.push(value),
    {
        while self.data.len() >= self.capacity
            invariant
                self.well_formed(),
                self@ == old(self)@,
                self@.len() < usize::MAX,
            decreases usize::MAX - self.capacity,
        {
            self.resize();
        }
        self.data.push(value);
    }

    /// Removes the element at `index`, shifting the later elements left.
    pub fn remove(&mut self, index: usize)
        requires
            old(self).well_formed(),
            index < old(self)@.len(),
        ensures
            final(self).well_formed(),
            final(self)@ == old(self)@.remove(index as int),
    {
        self.data.remove(index);
    }

    /// The position of the first occurrence of `value`, if any.
    pub fn find(&self, value: i64) -> (r: Option<usize>)
        ensures
            match r {
                Some(i) => i < self@.len() && self@[i as int] == value && (forall|j: int|
                    0 <= j < i ==> self@[j] != value),
                None => !self@.contains(value),
            },
    {
        seq_ops::find_first(&self.data, value)
    }

    /// Overwrites the element at `index` with `value`.
    pub fn set(&mut self, index: usize, value: i64)
        requires
            old(self).well_formed(),
            index < old(self)@.len(),
        ensures
            final(self).well_formed(),
            final(self)@ == old(self)@.update(index as int, value),
    {
        self.data.set(index, value);
    }

    /// The number of elements held.
    pub fn size(&self) -> (r: usize)
        ensures
            r == self@.len(),
    {
        self.data.len()
    }

    /// The tracked capacity.
    pub fn capacity(&self) -> (r: usize)
        ensures
            r == self.spec_capacity(),
    {
        self.capacity
    }

    /// Renders the contents as `[v0, v1, ...]`.
    pub fn to_string(&self) -> (r: String)
        ensures
            r@ == crate::text::render_values(self@),
    {
        crate::text::render_i64_values(&self.data)
    }
}

} // verus!

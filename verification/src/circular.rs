//! A circular linked list: a ring of values with a distinguished head.
//!
//! The ring is held in contiguous storage starting at the head, index
//! order standing for the traversal that follows each node's successor
//! until the head comes round again.  The list is viewed as that
//! head-first sequence; in the ring, the node before the head is the tail,
//! so appending "at the end" inserts just before the head comes round.

use vstd::prelude::*;

use crate::seq_ops;
use crate::seq_ops::insert_after_first;
use crate::seq_ops::remove_first;

verus! {

pub struct CircularLinkedList {
    elems: Vec<i64>,
}

impl View for CircularLinkedList {
    type V = Seq<i64>;

    closed spec fn view(&self) -> Seq<i64> {
        self.elems@
    }
}

impl CircularLinkedList {
    /// An empty list.
    pub fn new() -> (list: Self)
        ensures
            list@ == Seq::<i64>::empty(),
    {
        Self { elems: Vec::new() }
    }

    /// Inserts `data` at the tail of the ring, just before the head.
    pub fn insert_at_end(&mut self, data: i64)
        ensures
            final(self)@ == old(self)@.push(data),
    {
        self.elems.push(data);
    }

    /// Inserts `data` as the new head of the ring.
    pub fn insert_at_beginning(&mut self, data: i64)
        ensures
            final(self)@ == seq![data] + old(self)@,
    {
        self.elems.insert(0, data);
        assert(final(self)@ =~= seq![data] + old(self)@);
    }

    /// Inserts `data` right after the first node (in head-first ring order)
    /// holding `prev_data`.  Returns whether such a node was found; the
    /// ring is unchanged otherwise.
    pub fn insert_after(&mut self, prev_data: i64, data: i64) -> (r: bool)
        ensures
            final(self)@ == insert_after_first(old(self)@, prev_data, data),
            r == old(self)@.contains(prev_data),
    {
        match seq_ops::find_first(&self.elems, prev_data) {
            Some(i) => {
                proof {
                    seq_ops::lemma_insert_after_first_at(self.elems@, prev_data, data, i as int);
                    assert(old(self)@.contains(prev_data)) by {
                        assert(old(self)@[i as int] == prev_data);
                    }
                }
                self.elems.insert(i + 1, data);
                true
            }
            None => {
                proof {
                    seq_ops::lemma_insert_after_first_absent(self.elems@, prev_data, data);
                }
                false
            }
        }
    }

    /// Removes the first node (in head-first ring order) holding `data`,
    /// if any.  When the head itself is removed, its successor becomes
    /// the new head.
    pub fn delete(&mut self, data: i64)
        ensures
            final(self)@ == remove_first(old(self)@, data),
    {
        match seq_ops::find_first(&self.elems, data) {
            Some(i) => {
                proof {
                    seq_ops::lemma_remove_first_at(self.elems@, data, i as int);
                }
                self.elems.remove(i);
            }
            None => {
                proof {
                    seq_ops::lemma_remove_first_absent(self.elems@, data);
                }
            }
        }
    }

    /// Reverses the traversal order of the ring.
    pub fn reverse(&mut self)
        ensures
            final(self)@ == old(self)@.reverse(),
    {
        self.elems = seq_ops::reversed_vec(&self.elems);
    }

    /// The number of nodes in the ring.
    pub fn length(&self) -> (r: u64)
        requires
            self@.len() <= u64::MAX,
        ensures
            r == self@.len(),
    {
        self.elems.len() as u64
    }

    /// The values of the ring in traversal order, head first.
    pub fn values(&self) -> (r: Vec<i64>)
        ensures
            r@ == self@,
    {
        seq_ops::copied_vec(&self.elems)
    }

    /// True when the ring holds no nodes.
    pub fn is_empty(&self) -> (r: bool)
        ensures
            r == (self@.len() == 0),
    {
        self.elems.len() == 0
    }
}

} // verus!

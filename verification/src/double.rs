//! A doubly linked list: a sequence that can be walked from either end.
//!
//! The elements are held in contiguous storage, index order standing for
//! the forward (head-to-tail) traversal, so that both traversal directions
//! are a bounds-checked walk rather than a web of shared mutable
//! back-references.  The list is viewed as the forward sequence of its
//! values; `values_backward` is the observer for the tail-to-head walk.

use vstd::prelude::*;

use crate::seq_ops;
use crate::seq_ops::insert_after_first;
use crate::seq_ops::remove_first;

verus! {

pub struct DoubleLinkedList {
    elems: Vec<i64>,
}

impl View for DoubleLinkedList {
    type V = Seq<i64>;

    closed spec fn view(&self) -> Seq<i64> {
        self.elems@
    }
}

impl DoubleLinkedList {
    /// An empty list.
    pub fn new() -> (list: Self)
        ensures
            list@ == Seq::<i64>::empty(),
    {
        Self { elems: Vec::new() }
    }

    /// Appends `data` at the tail of the list.
    pub fn insert_at_end(&mut self, data: i64)
        ensures
            final(self)@ == old(self)@.push(data),
    {
        self.elems.push(data);
    }

    /// Prepends `data` at the head of the list.
    pub fn insert_at_beginning(&mut self, data: i64)
        ensures
            final(self)@ == seq![data] + old(self)@,
    {
        self.elems.insert(0, data);
        assert(final(self)@ =~= seq![data] + old(self)@);
    }

    /// Inserts `data` right after the first node holding `prev_data`.
    /// Returns whether such a node was found; the list is unchanged otherwise.
    pub fn insert_after(&mut self, prev_data: i64, data: i64) -> (r: bool)
        ensures
            final(self)@ == insert_after_first(old(self)@, prev_data, data),
            r == old(self)@.contains(prev_data),
    {
        match seq_ops::find_first(&self.elems, prev_data) {
            Some(i) => {
                proof {
                    seq_ops::lemma_insert_after_first_at(self.elems@, prev_data, data, i as int);
                    assert(old(self)@.contains(prev_data)) by {
                        assert(old(self)@[i as int] == prev_data);
                    }
                }
                self.elems.insert(i + 1, data);
                true
            }
            None => {
                proof {
                    seq_ops::lemma_insert_after_first_absent(self.elems@, prev_data, data);
                }
                false
            }
        }
    }

    /// Removes the first node holding `data`, if any.
    pub fn delete(&mut self, data: i64)
        ensures
            final(self)@ == remove_first(old(self)@, data),
    {
        match seq_ops::find_first(&self.elems, data) {
            Some(i) => {
                proof {
                    seq_ops::lemma_remove_first_at(self.elems@, data, i as int);
                }
                self.elems.remove(i);
            }
            None => {
                proof {
                    seq_ops::lemma_remove_first_absent(self.elems@, data);
                }
            }
        }
    }

    /// Reverses the list in place.
    pub fn reverse(&mut self)
        ensures
            final(self)@ == old(self)@.reverse(),
    {
        self.elems = seq_ops::reversed_vec(&self.elems);
    }

    /// True when some node holds `data`.
    pub fn search(&self, data: i64) -> (r: bool)
        ensures
            r == self@.contains(data),
    {
        match seq_ops::find_first(&self.elems, data) {
            Some(i) => {
                assert(self@.contains(data)) by {
                    assert(self@[i as int] == data);
                }
                true
            }
            None => false,
        }
    }

    /// The number of nodes in the list.
    pub fn length(&self) -> (r: usize)
        ensures
            r == self@.len(),
    {
        self.elems.len()
    }

    /// An iterator over the values, head first.
    pub fn iter(&self) -> (r: Iter<'_>)
        ensures
            r@ == self@,
    {
        Iter { elems: &self.elems, at: 0 }
    }

    /// The values of the list in forward order, head first.
    pub fn values(&self) -> (r: Vec<i64>)
        ensures
            r@ == self@,
    {
        seq_ops::copied_vec(&self.elems)
    }

    /// The values of the list as seen by a backward walk, tail first.
    pub fn values_backward(&self) -> (r: Vec<i64>)
        ensures
            r@ == self@.reverse(),
    {
        seq_ops::reversed_vec(&self.elems)
    }

    /// Renders the list as `[v0, v1, ...]`, or `["Empty"]` when empty.
    pub fn to_string(&self) -> (r: String)
        ensures
            r@ == crate::text::render_values_or_empty(self@),
    {
        crate::text::render_i64_values_or_empty(&self.elems)
    }
}

/// A cursor over a `DoubleLinkedList`, yielding the values head first.
pub struct Iter<'a> {
    elems: &'a Vec<i64>,
    at: usize,
}

impl<'a> Iter<'a> {
    /// The cursor never runs past the end of the list.
    #[verifier::type_invariant]
    spec fn cursor_in_range(self) -> bool {
        self.at <= self.elems@.len()
    }
}

impl<'a> View for Iter<'a> {
    type V = Seq<i64>;

    closed spec fn view(&self) -> Seq<i64> {
        self.elems@.skip(self.at as int)
    }
}

impl<'a> Iter<'a> {
    /// Yields the next value, or `None` when the list is exhausted.
    pub fn next(&mut self) -> (r: Option<i64>)
        ensures
            old(self)@.len() == 0 ==> r is None && final(self)@ == old(self)@,
            old(self)@.len() > 0 ==> r == Some(old(self)@[0]) && final(self)@ == old(
                self,
            )@.drop_first(),
    {
        proof {
            use_type_invariant(&*self);
        }
        if self.at < self.elems.len() {
            let data = self.elems[self.at];
            *self = Iter { elems: self.elems, at: self.at + 1 };
            assert(final(self)@ =~= old(self)@.drop_first());
            Some(data)
        } else {
            assert(old(self)@.len() == 0);
            None
        }
    }
}

} // verus!

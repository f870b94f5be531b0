//! A singly linked list of owned nodes.
//!
//! The list is viewed as the sequence of its values from head to tail.
//! `insert_after` and `delete` act on the first occurrence of the value
//! they are given; the spec functions `insert_after_first` and
//! `remove_first` pin down the result exactly.

use vstd::prelude::*;

use crate::seq_ops::insert_after_first;
use crate::seq_ops::remove_first;

verus! {

struct Node {
    data: i64,
    next: Option<Box<Node>>,
}

pub struct SingularLinkedList {
    head: Option<Box<Node>>,
}

spec fn seq_of(node: Option<Box<Node>>) -> Seq<i64>
    decreases node,
{
    match node {
        None => Seq::empty(),
        Some(n) => seq![n.data] + seq_of(n.next),
    }
}

impl View for SingularLinkedList {
    type V = Seq<i64>;

    closed spec fn view(&self) -> Seq<i64> {
        seq_of(self.head)
    }
}

fn push_back(node: &mut Option<Box<Node>>, data: i64)
    ensures
        seq_of(*final(node)) == seq_of(*old(node)).push(data),
    decreases *old(node),
{
    match node.take() {
        None => {
            *node = Some(Box::new(Node { data, next: None }));
            assert(seq_of(*node) =~= seq_of(None::<Box<Node>>).push(data));
        }
        Some(mut boxed) => {
            push_back(&mut boxed.next, data);
            let ghost prior = seq_of(boxed.next);
            *node = Some(boxed);
            assert(seq_of(*node) =~= (seq![boxed.data] + prior.drop_last()).push(data));
        }
    }
}

fn insert_after_node(node: &mut Option<Box<Node>>, prev_data: i64, data: i64) -> (r: bool)
    ensures
        seq_of(*final(node)) == insert_after_first(seq_of(*old(node)), prev_data, data),
        r == seq_of(*old(node)).contains(prev_data),
    decreases *old(node),
{
    match node.take() {
        None => {
            assert(!seq_of(None::<Box<Node>>).contains(prev_data));
            false
        }
        Some(mut boxed) => {
            let ghost orig = seq_of(Some(boxed));
            assert(orig.drop_first() =~= seq_of(boxed.next));
            if boxed.data == prev_data {
                let rest = boxed.next.take();
                let ghost rest_seq = seq_of(rest);
                boxed.next = Some(Box::new(Node { data, next: rest }));
                assert(seq_of(boxed.next) =~= seq![data] + rest_seq);
                *node = Some(boxed);
                assert(seq_of(*node) =~= seq![orig[0]] + (seq![data] + rest_seq));
                assert(seq_of(*node) =~= seq![orig[0], data] + orig.drop_first());
                assert(orig.contains(prev_data)) by {
                    assert(orig[0] == prev_data);
                }
                true
            } else {
                let found = insert_after_node(&mut boxed.next, prev_data, data);
                let ghost inner = seq_of(boxed.next);
                *node = Some(boxed);
                assert(seq_of(*node) =~= seq![orig[0]] + inner);
                proof {
                    if orig.contains(prev_data) {
                        let i = choose|i: int| 0 <= i < orig.len() && orig[i] == prev_data;
                        assert(i != 0);
                        assert(orig.drop_first()[i - 1] == prev_data);
                    }
                    if orig.drop_first().contains(prev_data) {
                        let i = choose|i: int|
                            0 <= i < orig.drop_first().len() && orig.drop_first()[i] == prev_data;
                        assert(orig[i + 1] == prev_data);
                    }
                }
                found
            }
        }
    }
}

fn delete_node(node: &mut Option<Box<Node>>, data: i64)
    ensures
        seq_of(*final(node)) == remove_first(seq_of(*old(node)), data),
    decreases *old(node),
{
    match node.take() {
        None => {
        }
        Some(mut boxed) => {
            let ghost orig = seq_of(Some(boxed));
            assert(orig.drop_first() =~= seq_of(boxed.next));
            if boxed.data == data {
                *node = boxed.next.take();
            } else {
                delete_node(&mut boxed.next, data);
                let ghost inner = seq_of(boxed.next);
                *node = Some(boxed);
                assert(seq_of(*node) =~= seq![orig[0]] + inner);
            }
        }
    }
}

fn reverse_onto(current: Option<Box<Node>>, acc: Option<Box<Node>>) -> (r: Option<Box<Node>>)
    ensures
        seq_of(r) == seq_of(current).reverse() + seq_of(acc),
    decreases current,
{
    match current {
        None => {
            assert(seq_of(None::<Box<Node>>).reverse() + seq_of(acc) =~= seq_of(acc));
            acc
        }
        Some(mut boxed) => {
            let ghost orig = seq_of(Some(boxed));
            let ghost acc0 = seq_of(acc);
            let next = boxed.next.take();
            assert(orig.drop_first() =~= seq_of(next));
            boxed.next = acc;
            assert(seq_of(Some(boxed)) =~= seq![orig[0]] + acc0);
            let r = reverse_onto(next, Some(boxed));
            assert(seq_of(r) =~= orig.reverse() + acc0);
            r
        }
    }
}

fn search_node(node: &Option<Box<Node>>, data: i64) -> (r: bool)
    ensures
        r == seq_of(*node).contains(data),
    decreases *node,
{
    match node {
        None => {
            assert(!seq_of(None::<Box<Node>>).contains(data));
            false
        }
        Some(boxed) => {
            let ghost orig = seq_of(*node);
            assert(orig.drop_first() =~= seq_of(boxed.next));
            if boxed.data == data {
                assert(orig[0] == data);
                true
            } else {
                let found = search_node(&boxed.next, data);
                proof {
                    if orig.contains(data) {
                        let i = choose|i: int| 0 <= i < orig.len() && orig[i] == data;
                        assert(i != 0);
                        assert(orig.drop_first()[i - 1] == data);
                    }
                    if orig.drop_first().contains(data) {
                        let i = choose|i: int|
                            0 <= i < orig.drop_first().len() && orig.drop_first()[i] == data;
                        assert(orig[i + 1] == data);
                    }
                }
                found
            }
        }
    }
}

impl SingularLinkedList {
    /// An empty list.
    pub fn new() -> (list: Self)
        ensures
            list@ == Seq::<i64>::empty(),
    {
        Self { head: None }
    }

    /// Appends `data` at the tail of the list.
    pub fn insert_at_end(&mut self, data: i64)
        ensures
            final(self)@ == old(self)@.push(data),
    {
        push_back(&mut self.head, data);
    }

    /// Prepends `data` at the head of the list.
    pub fn insert_at_beginning(&mut self, data: i64)
        ensures
            final(self)@ == seq![data] + old(self)@,
    {
        let node = Box::new(Node { data, next: self.head.take() });
        self.head = Some(node);
    }

    /// Inserts `data` right after the first node holding `prev_data`.
    /// Returns whether such a node was found; the list is unchanged otherwise.
    pub fn insert_after(&mut self, prev_data: i64, data: i64) -> (r: bool)
        ensures
            final(self)@ == insert_after_first(old(self)@, prev_data, data),
            r == old(self)@.contains(prev_data),
    {
        insert_after_node(&mut self.head, prev_data, data)
    }

    /// Removes the first node holding `data`, if any.
    pub fn delete(&mut self, data: i64)
        ensures
            final(self)@ == remove_first(old(self)@, data),
    {
        delete_node(&mut self.head, data);
    }

    /// Reverses the list in place.
    pub fn reverse(&mut self)
        ensures
            final(self)@ == old(self)@.reverse(),
    {
        let nodes = self.head.take();
        self.head = reverse_onto(nodes, None);
        assert(old(self)@.reverse() + seq_of(None::<Box<Node>>) =~= old(self)@.reverse());
    }

    /// True when some node holds `data`.
    pub fn search(&self, data: i64) -> (r: bool)
        ensures
            r == self@.contains(data),
    {
        search_node(&self.head, data)
    }

    /// The number of nodes in the list.
    pub fn length(&self) -> (r: usize)
        requires
            self@.len() <= usize::MAX,
        ensures
            r == self@.len(),
    {
        let mut count: usize = 0;
        let mut cursor: &Option<Box<Node>> = &self.head;
        loop
            invariant
                self@.len() <= usize::MAX,
                count + seq_of(*cursor).len() == self@.len(),
            ensures
                count == self@.len(),
            decreases seq_of(*cursor).len(),
        {
            match cursor {
                None => {
                    break ;
                }
                Some(boxed) => {
                    assert(seq_of(*cursor).drop_first() =~= seq_of(boxed.next));
                    count = count + 1;
                    cursor = &boxed.next;
                }
            }
        }
        count
    }

    /// An iterator over the values, head first.
    pub fn iter(&self) -> (r: Iter<'_>)
        ensures
            r@ == self@,
    {
        Iter { cursor: &self.head }
    }

    /// The values of the list, head first.
    pub fn values(&self) -> (r: Vec<i64>)
        ensures
            r@ == self@,
    {
        let mut out: Vec<i64> = Vec::new();
        let mut cursor: &Option<Box<Node>> = &self.head;
        loop
            invariant
                out@ + seq_of(*cursor) == self@,
            ensures
                out@ == self@,
            decreases seq_of(*cursor).len(),
        {
            match cursor {
                None => {
                    assert(out@ =~= out@ + seq_of(*cursor));
                    break ;
                }
                Some(boxed) => {
                    assert(seq_of(*cursor).drop_first() =~= seq_of(boxed.next));
                    out.push(boxed.data);
                    cursor = &boxed.next;
                    assert(out@ + seq_of(*cursor) =~= self@);
                }
            }
        }
        out
    }

    /// Renders the list as `[v0, v1, ...]`, or `["Empty"]` when empty.
    pub fn to_string(&self) -> (r: String)
        ensures
            r@ == crate::text::render_values_or_empty(self@),
    {
        let vals = self.values();
        crate::text::render_i64_values_or_empty(&vals)
    }
}

/// A cursor over a `SingularLinkedList`, yielding the values head first.
pub struct Iter<'a> {
    cursor: &'a Option<Box<Node>>,
}

impl<'a> View for Iter<'a> {
    type V = Seq<i64>;

    closed spec fn view(&self) -> Seq<i64> {
        seq_of(*self.cursor)
    }
}

impl<'a> Iter<'a> {
    /// Yields the next value, or `None` when the list is exhausted.
    pub fn next(&mut self) -> (r: Option<i64>)
        ensures
            old(self)@.len() == 0 ==> r is None && final(self)@ == old(self)@,
            old(self)@.len() > 0 ==> r == Some(old(self)@[0]) && final(self)@ == old(
                self,
            )@.drop_first(),
    {
        match self.cursor {
            None => None,
            Some(boxed) => {
                assert(old(self)@.drop_first() =~= seq_of(boxed.next));
                let data = boxed.data;
                self.cursor = &boxed.next;
                Some(data)
            }
        }
    }
}

} // verus!

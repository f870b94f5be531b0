//! A plain (unbalanced) binary search tree over `i64` keys.
//!
//! The tree is viewed as the set of keys it holds.  Every key in a node's
//! left subtree is smaller than the node's key and every key in its right
//! subtree is larger; `well_formed` states that ordering invariant and all
//! operations preserve it.  Deleting a node with two children replaces its
//! key with the minimum of the right subtree.

use vstd::prelude::*;
use vstd::string::StringExecFns;

verus! {

pub struct Node {
    pub value: i64,
    pub left: Option<Box<Node>>,
    pub right: Option<Box<Node>>,
}

pub struct BinarySearchTree {
    pub root: Option<Box<Node>>,
}

/// The set of keys in a subtree.
pub open spec fn key_set(node: Option<Box<Node>>) -> Set<i64>
    decreases node,
{
    match node {
        None => Set::empty(),
        Some(n) => key_set(n.left).union(key_set(n.right)).insert(n.value),
    }
}

/// The binary-search-tree ordering invariant.
pub open spec fn ordered(node: Option<Box<Node>>) -> bool
    decreases node,
{
    match node {
        None => true,
        Some(n) => {
            &&& (forall|k: i64| key_set(n.left).contains(k) ==> k < n.value)
            &&& (forall|k: i64| key_set(n.right).contains(k) ==> k > n.value)
            &&& ordered(n.left)
            &&& ordered(n.right)
        },
    }
}

impl Node {
    /// A fresh leaf node holding `value`.
    pub fn new(value: i64) -> (r: Node)
        ensures
            r.value == value,
            r.left is None,
            r.right is None,
    {
        Node { value, left: None, right: None }
    }
}

impl View for BinarySearchTree {
    type V = Set<i64>;

    open spec fn view(&self) -> Set<i64> {
        key_set(self.root)
    }
}

fn insert_node(node: &mut Option<Box<Node>>, value: i64)
    requires
        ordered(*old(node)),
    ensures
        ordered(*final(node)),
        key_set(*final(node)) == key_set(*old(node)).insert(value),
        key_set(*old(node)).contains(value) ==> *final(node) == *old(node),
    decreases *old(node),
{
    match node.take() {
        None => {
            *node = Some(Box::new(Node::new(value)));
            assert(key_set(*node) =~= key_set(None::<Box<Node>>).insert(value));
        }
        Some(mut boxed) => {
            let ghost whole = Some(boxed);
            if value < boxed.value {
                insert_node(&mut boxed.left, value);
                proof {
                    if key_set(whole).contains(value) {
                        assert(!key_set(whole.unwrap().right).contains(value));
                        assert(key_set(whole.unwrap().left).contains(value));
                    }
                }
            } else if value > boxed.value {
                insert_node(&mut boxed.right, value);
                proof {
                    if key_set(whole).contains(value) {
                        assert(!key_set(whole.unwrap().left).contains(value));
                        assert(key_set(whole.unwrap().right).contains(value));
                    }
                }
            }
            let ghost b = boxed;
            *node = Some(boxed);
            assert(key_set(*node) =~= key_set(b.left).union(key_set(b.right)).insert(b.value));
            assert(key_set(*node) =~= key_set(*old(node)).insert(value));
        }
    }
}

fn search_node(node: &Option<Box<Node>>, value: i64) -> (r: bool)
    requires
        ordered(*node),
    ensures
        r == key_set(*node).contains(value),
    decreases *node,
{
    match node {
        None => {
            assert(!key_set(*node).contains(value));
            false
        }
        Some(boxed) => {
            if value == boxed.value {
                assert(key_set(*node).contains(value));
                true
            } else if value < boxed.value {
                let found = search_node(&boxed.left, value);
                assert(!key_set(boxed.right).contains(value));
                assert(key_set(*node).contains(value) == key_set(boxed.left).contains(value));
                found
            } else {
                let found = search_node(&boxed.right, value);
                assert(!key_set(boxed.left).contains(value));
                assert(key_set(*node).contains(value) == key_set(boxed.right).contains(value));
                found
            }
        }
    }
}

/// The smallest key in a non-empty subtree.
fn find_min(node: &Box<Node>) -> (r: i64)
    requires
        ordered(Some(*node)),
    ensures
        key_set(Some(*node)).contains(r),
        forall|k: i64| key_set(Some(*node)).contains(k) ==> r <= k,
    decreases *node,
{
    match &node.left {
        Some(left) => {
            let r = find_min(left);
            assert(key_set(Some(*node)).contains(r));
            assert(key_set(node.left).contains(r));
            assert forall|k: i64| key_set(Some(*node)).contains(k) implies r <= k by {
                if key_set(node.left).contains(k) {
                } else if key_set(node.right).contains(k) {
                    assert(r < node.value);
                    assert(k > node.value);
                } else {
                    assert(k == node.value);
                    assert(r < node.value);
                }
            }
            r
        }
        None => {
            assert(key_set(node.left) =~= Set::<i64>::empty());
            assert forall|k: i64| key_set(Some(*node)).contains(k) implies node.value <= k by {
                if key_set(node.right).contains(k) {
                    assert(k > node.value);
                }
            }
            node.value
        }
    }
}

/// Removes the smallest key of a non-empty subtree; every key that has a
/// smaller one below it stays.
fn delete_min(node: Box<Node>) -> (r: Option<Box<Node>>)
    requires
        ordered(Some(node)),
    ensures
        ordered(r),
        forall|k: i64|
            key_set(r).contains(k) <==> (key_set(Some(node)).contains(k) && exists|j: i64|
                key_set(Some(node)).contains(j) && j < k),
    decreases node,
{
    let ghost whole = Some(node);
    let mut boxed = node;
    match boxed.left.take() {
        None => {
            proof {
                assert(key_set(whole.unwrap().left) =~= Set::<i64>::empty());
                assert forall|k: i64|
                    key_set(boxed.right).contains(k) implies (key_set(whole).contains(k) && exists|
                    j: i64,
                |
                    key_set(whole).contains(j) && j < k) by {
                    assert(key_set(whole).contains(boxed.value) && boxed.value < k);
                }
                assert forall|k: i64|
                    key_set(whole).contains(k) && (exists|j: i64|
                        key_set(whole).contains(j) && j < k) implies key_set(
                    boxed.right,
                ).contains(k) by {
                    if k == boxed.value {
                        let j = choose|j: i64| key_set(whole).contains(j) && j < k;
                        assert(key_set(whole.unwrap().right).contains(j) ==> j > boxed.value);
                        assert(false);
                    }
                }
            }
            boxed.right
        }
        Some(left) => {
            let ghost lset = key_set(Some(left));
            let ghost lwit = left.value;
            proof {
                assert(lset.contains(lwit));
            }
            let rest = delete_min(left);
            boxed.left = rest;
            let r = Some(boxed);
            assert(key_set(r) =~= key_set(rest).union(key_set(boxed.right)).insert(boxed.value));
            proof {
                assert forall|k: i64| key_set(r).contains(k) implies (key_set(whole).contains(k)
                    && exists|j: i64| key_set(whole).contains(j) && j < k) by {
                    if key_set(rest).contains(k) {
                        let j = choose|j: i64| lset.contains(j) && j < k;
                        assert(key_set(whole).contains(j) && j < k);
                    } else {
                        assert(lwit < boxed.value);
                        assert(lwit < k);
                        assert(key_set(whole).contains(lwit) && lwit < k);
                    }
                }
                assert forall|k: i64|
                    key_set(whole).contains(k) && (exists|j: i64|
                        key_set(whole).contains(j) && j < k) implies key_set(r).contains(k) by {
                    if lset.contains(k) {
                        let j = choose|j: i64| key_set(whole).contains(j) && j < k;
                        assert(k < boxed.value);
                        assert(j < boxed.value);
                        assert(lset.contains(j));
                        assert(key_set(rest).contains(k));
                    }
                }
            }
            r
        }
    }
}

fn delete_node(node: &mut Option<Box<Node>>, value: i64)
    requires
        ordered(*old(node)),
    ensures
        ordered(*final(node)),
        key_set(*final(node)) == key_set(*old(node)).remove(value),
        !key_set(*old(node)).contains(value) ==> *final(node) == *old(node),
    decreases *old(node),
{
    match node.take() {
        None => {
            assert(key_set(None::<Box<Node>>) =~= key_set(None::<Box<Node>>).remove(value));
        }
        Some(mut boxed) => {
            let ghost whole = Some(boxed);
            if value < boxed.value {
                delete_node(&mut boxed.left, value);
                *node = Some(boxed);
                proof {
                    assert(!key_set(whole.unwrap().right).contains(value));
                    assert(key_set(*node) =~= key_set(whole).remove(value));
                }
            } else if value > boxed.value {
                delete_node(&mut boxed.right, value);
                *node = Some(boxed);
                proof {
                    assert(!key_set(whole.unwrap().left).contains(value));
                    assert(key_set(*node) =~= key_set(whole).remove(value));
                }
            } else {
                match (boxed.left.take(), boxed.right.take()) {
                    (None, None) => {
                        *node = None;
                        assert(key_set(*node) =~= key_set(whole).remove(value));
                    }
                    (Some(left), None) => {
                        *node = Some(left);
                        proof {
                            assert(key_set(whole.unwrap().right) =~= Set::<i64>::empty());
                            assert(!key_set(whole.unwrap().left).contains(value));
                            assert(key_set(*node) =~= key_set(whole).remove(value));
                        }
                    }
                    (None, Some(right)) => {
                        *node = Some(right);
                        proof {
                            assert(key_set(whole.unwrap().left) =~= Set::<i64>::empty());
                            assert(!key_set(whole.unwrap().right).contains(value));
                            assert(key_set(*node) =~= key_set(whole).remove(value));
                        }
                    }
                    (Some(left), Some(right)) => {
                        let ghost lset = key_set(Some(left));
                        let ghost rset = key_set(Some(right));
                        let min = find_min(&right);
                        let rest = delete_min(right);
                        boxed.value = min;
                        boxed.left = Some(left);
                        boxed.right = rest;
                        *node = Some(boxed);
                        proof {
                            assert forall|k: i64| key_set(rest).contains(k) implies rset.contains(
                                k,
                            ) && k > min by {
                                let j = choose|j: i64| rset.contains(j) && j < k;
                                assert(min <= j);
                            }
                            assert forall|k: i64| rset.contains(k) && k != min implies key_set(
                                rest,
                            ).contains(k) by {
                                assert(min < k);
                                assert(rset.contains(min) && min < k);
                            }
                            assert(key_set(rest) =~= rset.remove(min));
                            assert(!rset.contains(value));
                            assert(!lset.contains(value));
                            assert(rset.contains(min));
                            assert(key_set(*node) =~= lset.union(key_set(rest)).insert(min));
                            assert(key_set(*node) =~= key_set(whole).remove(value));
                        }
                    }
                }
            }
        }
    }
}

/// Renders one subtree, deepest-right first, each line indented four
/// spaces per level.
pub open spec fn render_tree(node: Option<Box<Node>>, prefix: Seq<char>) -> Seq<char>
    decreases node,
{
    match node {
        None => Seq::empty(),
        Some(n) => render_tree(n.right, prefix + "    "@) + prefix + crate::text::decimal_int(
            n.value as int,
        ) + "\n"@ + render_tree(n.left, prefix + "    "@),
    }
}

fn render_node(node: &Option<Box<Node>>, prefix: &String, out: &mut String)
    ensures
        final(out)@ == old(out)@ + render_tree(*node, prefix@),
    decreases *node,
{
    match node {
        None => {
            assert(old(out)@ + render_tree(*node, prefix@) =~= old(out)@);
        }
        Some(boxed) => {
            let mut deeper = String::from_str(prefix.as_str());
            deeper.append("    ");
            render_node(&boxed.right, &deeper, out);
            out.append(prefix.as_str());
            let digits = crate::text::format_i64(boxed.value);
            out.append(digits.as_str());
            out.append("\n");
            render_node(&boxed.left, &deeper, out);
            assert(final(out)@ =~= old(out)@ + render_tree(*node, prefix@));
        }
    }
}

impl BinarySearchTree {
    /// An empty tree.
    pub fn new() -> (tree: Self)
        ensures
            tree.well_formed(),
            tree@ == Set::<i64>::empty(),
    {
        BinarySearchTree { root: None }
    }

    /// The ordering invariant of the whole tree.
    pub open spec fn well_formed(&self) -> bool {
        ordered(self.root)
    }

    /// Adds `value` to the key set; inserting a present key leaves the
    /// tree untouched.
    pub fn insert(&mut self, value: i64)
        requires
            old(self).well_formed(),
        ensures
            final(self).well_formed(),
            final(self)@ == old(self)@.insert(value),
            old(self)@.contains(value) ==> *final(self) == *old(self),
    {
        insert_node(&mut self.root, value);
    }

    /// True exactly when `value` is in the key set.
    pub fn search(&self, value: i64) -> (r: bool)
        requires
            self.well_formed(),
        ensures
            r == self@.contains(value),
    {
        search_node(&self.root, value)
    }

    /// Removes `value` from the key set; deleting an absent key leaves
    /// the tree untouched.
    pub fn delete(&mut self, value: i64)
        requires
            old(self).well_formed(),
        ensures
            final(self).well_formed(),
            final(self)@ == old(self)@.remove(value),
            !old(self)@.contains(value) ==> *final(self) == *old(self),
    {
        delete_node(&mut self.root, value);
    }

    /// Renders the tree sideways: right subtree above, four spaces of
    /// indentation per level.
    pub fn pretty_print(&self) -> (r: String)
        ensures
            r@ == render_tree(self.root, Seq::<char>::empty()),
    {
        let mut out = String::new();
        let prefix = String::new();
        render_node(&self.root, &prefix, &mut out);
        assert(out@ =~= render_tree(self.root, Seq::<char>::empty()));
        out
    }
}

} // verus!

//! A self-balancing binary search tree with height-based (AVL)
//! rebalancing.
//!
//! The tree is viewed as the set of keys it holds, and every operation
//! preserves the binary-search-tree ordering invariant and the exact key
//! set.  Heights are measured from zero at a leaf (`-1` for an absent
//! child) and recomputed on demand; each node also caches its height in a
//! field, refreshed the same way after every structural change.  The
//! height computation saturates at the machine limit instead of
//! overflowing, which coincides with the true height for every tree that
//! fits in memory.

use vstd::prelude::*;

verus! {

pub struct AvlNode {
    pub value: i64,
    pub right: Option<Box<AvlNode>>,
    pub left: Option<Box<AvlNode>>,
    pub height: i64,
}

pub struct AvlTree {
    pub root: Option<Box<AvlNode>>,
}

/// The set of keys in a subtree.
pub open spec fn key_set(node: Option<Box<AvlNode>>) -> Set<i64>
    decreases node,
{
    match node {
        None => Set::empty(),
        Some(n) => key_set(n.left).union(key_set(n.right)).insert(n.value),
    }
}

/// The binary-search-tree ordering invariant.
pub open spec fn ordered(node: Option<Box<AvlNode>>) -> bool
    decreases node,
{
    match node {
        None => true,
        Some(n) => {
            &&& (forall|k: i64| key_set(n.left).contains(k) ==> k < n.value)
            &&& (forall|k: i64| key_set(n.right).contains(k) ==> k > n.value)
            &&& ordered(n.left)
            &&& ordered(n.right)
        },
    }
}

/// The height of a subtree: `-1` when absent, otherwise one more than the
/// taller child, saturating at the machine limit.
pub open spec fn height_of(node: Option<Box<AvlNode>>) -> int
    decreases node,
{
    match node {
        None => -1,
        Some(n) => {
            let m = if height_of(n.left) >= height_of(n.right) {
                height_of(n.left)
            } else {
                height_of(n.right)
            };
            if m == i64::MAX {
                m
            } else {
                m + 1
            }
        },
    }
}

/// An optional shared child as the optional owned value the specs use.
pub open spec fn deref_opt(node: Option<&Box<AvlNode>>) -> Option<Box<AvlNode>> {
    match node {
        None => None,
        Some(n) => Some(*n),
    }
}

/// The balance factor (left height minus right height), clamped to the
/// `i64` range.
pub open spec fn balance_of(node: Option<Box<AvlNode>>) -> int {
    match node {
        None => 0,
        Some(n) => {
            let d = height_of(n.left) - height_of(n.right);
            if d > i64::MAX {
                i64::MAX as int
            } else if d < i64::MIN {
                i64::MIN as int
            } else {
                d
            }
        },
    }
}

impl AvlNode {
    /// A fresh leaf node holding `value`, with height zero.
    pub fn new(value: i64) -> (r: Self)
        ensures
            r.value == value,
            r.left is None,
            r.right is None,
            r.height == 0,
    {
        AvlNode { value, right: None, left: None, height: 0 }
    }
}

/// A subtree's height is at least zero when it is present.
proof fn lemma_height_nonneg(node: Option<Box<AvlNode>>)
    ensures
        height_of(node) >= -1,
        node is Some ==> height_of(node) >= 0,
        height_of(node) <= i64::MAX,
    decreases node,
{
    match node {
        None => {
        }
        Some(n) => {
            lemma_height_nonneg(n.left);
            lemma_height_nonneg(n.right);
        }
    }
}

impl AvlTree {
    /// The ordering invariant of the whole tree.
    pub open spec fn well_formed(&self) -> bool {
        ordered(self.root)
    }

    /// A tree holding just `value` at its root.
    pub fn new(value: i64) -> (tree: Self)
        ensures
            tree.well_formed(),
            tree@ == Set::<i64>::empty().insert(value),
            tree.root is Some,
            tree.root.unwrap().value == value,
            tree.root.unwrap().left is None,
            tree.root.unwrap().right is None,
            tree.root.unwrap().height == 0,
    {
        let node = AvlNode::new(value);
        let tree = Self { root: Some(Box::new(node)) };
        proof {
            assert(key_set(None::<Box<AvlNode>>) =~= Set::<i64>::empty());
            assert(tree.root.unwrap().left is None);
            assert(tree.root.unwrap().right is None);
            assert(tree@ =~= Set::<i64>::empty().insert(value));
            assert(key_set(tree.root.unwrap().left) =~= Set::<i64>::empty());
            assert(key_set(tree.root.unwrap().right) =~= Set::<i64>::empty());
            assert forall|k: i64| key_set(tree.root.unwrap().left).contains(k) implies k
                < tree.root.unwrap().value by {}
            assert forall|k: i64| key_set(tree.root.unwrap().right).contains(k) implies k
                > tree.root.unwrap().value by {}
            assert(ordered(tree.root.unwrap().left));
            assert(ordered(tree.root.unwrap().right));
            assert(ordered(tree.root));
        }
        tree
    }

    /// The height of a subtree, recomputed from its structure.
    pub fn get_height(node: Option<&Box<AvlNode>>) -> (r: i64)
        ensures
            r == height_of(deref_opt(node)),
        decreases deref_opt(node),
    {
        match node {
            Some(n) => {
                proof {
                    lemma_height_nonneg(n.left);
                    lemma_height_nonneg(n.right);
                }
                let hl = AvlTree::get_height(n.left.as_ref());
                let hr = AvlTree::get_height(n.right.as_ref());
                let m = if hl >= hr {
                    hl
                } else {
                    hr
                };
                if m == i64::MAX {
                    m
                } else {
                    m + 1
                }
            }
            None => -1,
        }
    }

    /// The balance factor of a subtree: left height minus right height.
    pub fn get_balance(node: Option<&Box<AvlNode>>) -> (r: i64)
        ensures
            r == balance_of(deref_opt(node)),
    {
        match node {
            Some(n) => {
                proof {
                    lemma_height_nonneg(n.left);
                    lemma_height_nonneg(n.right);
                }
                let hl = AvlTree::get_height(n.left.as_ref());
                let hr = AvlTree::get_height(n.right.as_ref());
                let d = hl as i128 - hr as i128;
                if d > i64::MAX as i128 {
                    i64::MAX
                } else if d < i64::MIN as i128 {
                    i64::MIN
                } else {
                    d as i64
                }
            }
            None => 0,
        }
    }

    /// Refreshes the cached height field from the children.
    fn update_height(node: &mut Box<AvlNode>)
        ensures
            final(node).value == old(node).value,
            final(node).left == old(node).left,
            final(node).right == old(node).right,
    {
        let hl = AvlTree::get_height(node.left.as_ref());
        let hr = AvlTree::get_height(node.right.as_ref());
        let m = if hl >= hr {
            hl
        } else {
            hr
        };
        node.height = if m == i64::MAX {
            m
        } else {
            m + 1
        };
    }

    /// Rotation around a left-heavy node: the left child is promoted and
    /// the node becomes its right child.  Keys and ordering are
    /// preserved.
    fn rotate_right(node: Box<AvlNode>) -> (r: Box<AvlNode>)
        requires
            node.left is Some,
            ordered(Some(node)),
        ensures
            key_set(Some(r)) == key_set(Some(node)),
            ordered(Some(r)),
    {
        proof {
            reveal_with_fuel(key_set, 4);
            reveal_with_fuel(ordered, 4);
        }
        let ghost whole = Some(node);
        let mut n = node;
        let mut y = n.left.take().unwrap();
        let ghost y0 = y;
        n.left = y.right.take();
        let mut inner = n;
        AvlTree::update_height(&mut inner);
        let ghost inner0 = inner;
        y.right = Some(inner);
        AvlTree::update_height(&mut y);
        proof {
            assert(y.right == Some(inner0) && y.left == y0.left && y.value == y0.value);
            assert(key_set(Some(inner0)) =~= key_set(y0.right).union(
                key_set(whole.unwrap().right),
            ).insert(whole.unwrap().value));
            assert(whole.unwrap().left == Some(y0));
            assert(key_set(whole.unwrap().left) =~= key_set(y0.left).union(
                key_set(y0.right),
            ).insert(y0.value));
            assert(key_set(Some(y)) =~= key_set(whole));
            assert(ordered(whole.unwrap().left));
            assert(ordered(y0.left));
            assert(ordered(y0.right));
            assert(key_set(whole.unwrap().left).contains(y0.value));
            assert forall|k: i64| key_set(y.right).contains(k) implies k > y.value by {
                if key_set(inner0.right).contains(k) {
                    assert(key_set(whole.unwrap().right).contains(k));
                    assert(k > whole.unwrap().value);
                    assert(key_set(whole.unwrap().left).contains(y.value));
                } else if key_set(inner0.left).contains(k) {
                    assert(key_set(y0.right).contains(k));
                } else {
                    assert(k == whole.unwrap().value);
                    assert(key_set(whole.unwrap().left).contains(y.value));
                }
            }
            assert forall|k: i64| key_set(y.left).contains(k) implies k < y.value by {
                assert(key_set(y0.left).contains(k));
            }
            assert forall|k: i64| key_set(inner0.right).contains(k) implies k > inner0.value by {}
            assert forall|k: i64| key_set(inner0.left).contains(k) implies k < inner0.value by {
                assert(key_set(y0.right).contains(k));
                assert(key_set(whole.unwrap().left).contains(k));
            }
            assert(ordered(Some(inner0)));
            assert(ordered(Some(y)));
        }
        y
    }

    /// The mirror image of `rotate_right`, around a right-heavy node.
    fn rotate_left(node: Box<AvlNode>) -> (r: Box<AvlNode>)
        requires
            node.right is Some,
            ordered(Some(node)),
        ensures
            key_set(Some(r)) == key_set(Some(node)),
            ordered(Some(r)),
    {
        proof {
            reveal_with_fuel(key_set, 4);
            reveal_with_fuel(ordered, 4);
        }
        let ghost whole = Some(node);
        let mut n = node;
        let mut y = n.right.take().unwrap();
        let ghost y0 = y;
        n.right = y.left.take();
        let mut inner = n;
        AvlTree::update_height(&mut inner);
        let ghost inner0 = inner;
        y.left = Some(inner);
        AvlTree::update_height(&mut y);
        proof {
            assert(y.left == Some(inner0) && y.right == y0.right && y.value == y0.value);
            assert(key_set(Some(inner0)) =~= key_set(whole.unwrap().left).union(
                key_set(y0.left),
            ).insert(whole.unwrap().value));
            assert(whole.unwrap().right == Some(y0));
            assert(key_set(whole.unwrap().right) =~= key_set(y0.left).union(
                key_set(y0.right),
            ).insert(y0.value));
            assert(key_set(Some(y)) =~= key_set(whole));
            assert(ordered(whole.unwrap().right));
            assert(ordered(y0.left));
            assert(ordered(y0.right));
            assert(key_set(whole.unwrap().right).contains(y0.value));
            assert forall|k: i64| key_set(y.left).contains(k) implies k < y.value by {
                if key_set(inner0.left).contains(k) {
                    assert(key_set(whole.unwrap().left).contains(k));
                    assert(k < whole.unwrap().value);
                    assert(key_set(whole.unwrap().right).contains(y.value));
                } else if key_set(inner0.right).contains(k) {
                    assert(key_set(y0.left).contains(k));
                } else {
                    assert(k == whole.unwrap().value);
                    assert(key_set(whole.unwrap().right).contains(y.value));
                }
            }
            assert forall|k: i64| key_set(y.right).contains(k) implies k > y.value by {
                assert(key_set(y0.right).contains(k));
            }
            assert forall|k: i64| key_set(inner0.left).contains(k) implies k < inner0.value by {}
            assert forall|k: i64| key_set(inner0.right).contains(k) implies k > inner0.value by {
                assert(key_set(y0.left).contains(k));
                assert(key_set(whole.unwrap().right).contains(k));
            }
            assert(ordered(Some(inner0)));
            assert(ordered(Some(y)));
        }
        y
    }

    /// Left rotation at the left child, then right rotation at the node.
    fn rotate_left_right(node: Box<AvlNode>) -> (r: Box<AvlNode>)
        requires
            node.left is Some,
            node.left.unwrap().right is Some,
            ordered(Some(node)),
        ensures
            key_set(Some(r)) == key_set(Some(node)),
            ordered(Some(r)),
    {
        proof {
            reveal_with_fuel(key_set, 3);
            reveal_with_fuel(ordered, 3);
        }
        let ghost whole = Some(node);
        let mut n = node;
        let l = n.left.take().unwrap();
        proof {
            assert(ordered(Some(l)));
        }
        let l2 = AvlTree::rotate_left(l);
        n.left = Some(l2);
        proof {
            assert(key_set(n.left) =~= key_set(whole.unwrap().left));
            assert forall|k: i64| key_set(n.left).contains(k) implies k < n.value by {
                assert(key_set(whole.unwrap().left).contains(k));
            }
            assert(ordered(Some(n)));
            assert(key_set(Some(n)) =~= key_set(whole));
        }
        AvlTree::rotate_right(n)
    }

    /// Right rotation at the right child, then left rotation at the node.
    fn rotate_right_left(node: Box<AvlNode>) -> (r: Box<AvlNode>)
        requires
            node.right is Some,
            node.right.unwrap().left is Some,
            ordered(Some(node)),
        ensures
            key_set(Some(r)) == key_set(Some(node)),
            ordered(Some(r)),
    {
        proof {
            reveal_with_fuel(key_set, 3);
            reveal_with_fuel(ordered, 3);
        }
        let ghost whole = Some(node);
        let mut n = node;
        let l = n.right.take().unwrap();
        proof {
            assert(ordered(Some(l)));
        }
        let l2 = AvlTree::rotate_right(l);
        n.right = Some(l2);
        proof {
            assert(key_set(n.right) =~= key_set(whole.unwrap().right));
            assert forall|k: i64| key_set(n.right).contains(k) implies k > n.value by {
                assert(key_set(whole.unwrap().right).contains(k));
            }
            assert(ordered(Some(n)));
            assert(key_set(Some(n)) =~= key_set(whole));
        }
        AvlTree::rotate_left(n)
    }

    /// The smallest key in a non-empty subtree.
    fn min_value_node(node: &Box<AvlNode>) -> (r: i64)
        requires
            ordered(Some(*node)),
        ensures
            key_set(Some(*node)).contains(r),
            forall|k: i64| key_set(Some(*node)).contains(k) ==> r <= k,
        decreases *node,
    {
        match &node.left {
            Some(left) => {
                let r = AvlTree::min_value_node(left);
                assert(key_set(Some(*node)).contains(r));
                assert(key_set(node.left).contains(r));
                assert forall|k: i64| key_set(Some(*node)).contains(k) implies r <= k by {
                    if key_set(node.left).contains(k) {
                    } else if key_set(node.right).contains(k) {
                        assert(r < node.value);
                        assert(k > node.value);
                    } else {
                        assert(k == node.value);
                        assert(r < node.value);
                    }
                }
                r
            }
            None => {
                assert(key_set(node.left) =~= Set::<i64>::empty());
                assert forall|k: i64| key_set(Some(*node)).contains(k) implies node.value <= k by {
                    if key_set(node.right).contains(k) {
                        assert(k > node.value);
                    }
                }
                node.value
            }
        }
    }

    /// Ordered descent, insertion as a new leaf (an equal key is a
    /// no-op), height refresh, and rebalancing of a node left or right
    /// heavy by more than one.
    fn insert_node(node: Box<AvlNode>, value: i64) -> (r: Box<AvlNode>)
        requires
            ordered(Some(node)),
        ensures
            ordered(Some(r)),
            key_set(Some(r)) == key_set(Some(node)).insert(value),
        decreases node,
    {
        proof {
            reveal_with_fuel(key_set, 3);
            reveal_with_fuel(ordered, 3);
        }
        let ghost whole = Some(node);
        let mut n = node;
        if value < n.value {
            match n.left.take() {
                Some(left_node) => {
                    let l2 = AvlTree::insert_node(left_node, value);
                    n.left = Some(l2);
                }
                None => {
                    n.left = Some(Box::new(AvlNode::new(value)));
                }
            }
            proof {
                assert(key_set(n.left) =~= key_set(whole.unwrap().left).insert(value));
                assert(key_set(Some(n)) =~= key_set(whole).insert(value));
                assert(ordered(Some(n)));
            }
        } else if value > n.value {
            match n.right.take() {
                Some(right_node) => {
                    let r2 = AvlTree::insert_node(right_node, value);
                    n.right = Some(r2);
                }
                None => {
                    n.right = Some(Box::new(AvlNode::new(value)));
                }
            }
            proof {
                assert(key_set(n.right) =~= key_set(whole.unwrap().right).insert(value));
                assert(key_set(Some(n)) =~= key_set(whole).insert(value));
                assert(ordered(Some(n)));
            }
        } else {
            proof {
                assert(key_set(whole).contains(value));
                assert(key_set(whole) =~= key_set(whole).insert(value));
            }
            return n;
        }
        AvlTree::update_height(&mut n);
        let ghost rebuilt = Some(n);
        let balance = AvlTree::get_balance(Some(&n));
        proof {
            lemma_height_nonneg(n.left);
            lemma_height_nonneg(n.right);
        }
        // Left heavy.
        if balance > 1 {
            proof {
                assert(height_of(n.left) >= 1);
                assert(n.left is Some) by {
                    if n.left is None {
                        assert(height_of(n.left) == -1);
                    }
                }
            }
            if AvlTree::get_balance(AvlTree::left_child(&n)) >= 0 {
                return AvlTree::rotate_right(n);
            } else {
                proof {
                    lemma_height_nonneg(n.left.unwrap().right);
                    assert(n.left.unwrap().right is Some) by {
                        if n.left.unwrap().right is None {
                            assert(height_of(n.left.unwrap().right) == -1);
                            assert(balance_of(n.left) >= 0);
                        }
                    }
                }
                return AvlTree::rotate_left_right(n);
            }
        }
        // Right heavy.
        if balance < -1 {
            proof {
                assert(height_of(n.right) >= 1);
                assert(n.right is Some) by {
                    if n.right is None {
                        assert(height_of(n.right) == -1);
                    }
                }
            }
            if AvlTree::get_balance(AvlTree::right_child(&n)) <= 0 {
                return AvlTree::rotate_left(n);
            } else {
                proof {
                    lemma_height_nonneg(n.right.unwrap().left);
                    assert(n.right.unwrap().left is Some) by {
                        if n.right.unwrap().left is None {
                            assert(height_of(n.right.unwrap().left) == -1);
                            assert(balance_of(n.right) <= 0);
                        }
                    }
                }
                return AvlTree::rotate_right_left(n);
            }
        }
        n
    }

    /// Adds `value` to the key set; inserting a present key is a no-op.
    pub fn insert(&mut self, value: i64)
        requires
            old(self).well_formed(),
        ensures
            final(self).well_formed(),
            final(self)@ == old(self)@.insert(value),
    {
        match self.root.take() {
            Some(root) => {
                self.root = Some(AvlTree::insert_node(root, value));
            }
            None => {
                self.root = Some(Box::new(AvlNode::new(value)));
                proof {
                    assert(key_set(self.root) =~= key_set(None::<Box<AvlNode>>).insert(value));
                }
            }
        }
    }

    /// Ordered descent and removal: a node with at most one child is
    /// replaced by that child; a node with two children takes the
    /// minimum key of its right subtree, which is then removed there.
    /// The node on the path is rebalanced when left or right heavy by
    /// more than one.
    #[verifier::rlimit(50)]
    fn delete_node(node: Box<AvlNode>, value: i64) -> (r: Option<Box<AvlNode>>)
        requires
            ordered(Some(node)),
        ensures
            ordered(r),
            key_set(r) == key_set(Some(node)).remove(value),
        decreases node,
    {
        proof {
            reveal_with_fuel(key_set, 3);
            reveal_with_fuel(ordered, 3);
        }
        let ghost whole = Some(node);
        let mut n = node;
        if value < n.value {
            match n.left.take() {
                Some(left) => {
                    n.left = AvlTree::delete_node(left, value);
                }
                None => {
                }
            }
            proof {
                assert(key_set(n.left) =~= key_set(whole.unwrap().left).remove(value));
                assert(!key_set(whole.unwrap().right).contains(value));
                assert(key_set(Some(n)) =~= key_set(whole).remove(value));
                assert(ordered(Some(n)));
            }
        } else if value > n.value {
            match n.right.take() {
                Some(right) => {
                    n.right = AvlTree::delete_node(right, value);
                }
                None => {
                }
            }
            proof {
                assert(key_set(n.right) =~= key_set(whole.unwrap().right).remove(value));
                assert(!key_set(whole.unwrap().left).contains(value));
                assert(key_set(Some(n)) =~= key_set(whole).remove(value));
                assert(ordered(Some(n)));
            }
        } else {
            if n.left.is_none() {
                proof {
                    assert(key_set(n.left) =~= Set::<i64>::empty());
                    assert(!key_set(whole.unwrap().right).contains(value));
                    assert(key_set(whole.unwrap().right) =~= key_set(whole).remove(value));
                }
                return n.right;
            } else if n.right.is_none() {
                proof {
                    assert(key_set(whole.unwrap().right) =~= Set::<i64>::empty());
                    assert(!key_set(whole.unwrap().left).contains(value));
                    assert(key_set(whole.unwrap().left) =~= key_set(whole).remove(value));
                }
                return n.left;
            } else {
                let ghost rkeys = key_set(n.right);
                let rsub = n.right.take().unwrap();
                let m = AvlTree::min_value_node(&rsub);
                n.value = m;
                n.right = AvlTree::delete_node(rsub, m);
                proof {
                    assert(rkeys.contains(m));
                    assert(m > whole.unwrap().value);
                    assert(!key_set(whole.unwrap().left).contains(value));
                    assert(key_set(n.right) =~= rkeys.remove(m));
                    assert(key_set(Some(n)) =~= key_set(whole).remove(value));
                    assert forall|k: i64| key_set(n.left).contains(k) implies k < n.value by {
                        assert(key_set(whole.unwrap().left).contains(k));
                        assert(k < whole.unwrap().value);
                    }
                    assert forall|k: i64| key_set(n.right).contains(k) implies k > n.value by {
                        assert(rkeys.contains(k) && k != m);
                        assert(m <= k);
                    }
                    assert(ordered(Some(n)));
                }
            }
        }
        AvlTree::update_height(&mut n);
        let balance = AvlTree::get_balance(Some(&n));
        proof {
            lemma_height_nonneg(n.left);
            lemma_height_nonneg(n.right);
        }
        if balance > 1 {
            proof {
                assert(n.left is Some) by {
                    if n.left is None {
                        assert(height_of(n.left) == -1);
                    }
                }
            }
            if AvlTree::get_balance(AvlTree::left_child(&n)) >= 0 {
                return Some(AvlTree::rotate_right(n));
            } else {
                proof {
                    lemma_height_nonneg(n.left.unwrap().right);
                    assert(n.left.unwrap().right is Some) by {
                        if n.left.unwrap().right is None {
                            assert(height_of(n.left.unwrap().right) == -1);
                            assert(balance_of(n.left) >= 0);
                        }
                    }
                }
                return Some(AvlTree::rotate_left_right(n));
            }
        }
        if balance < -1 {
            proof {
                assert(n.right is Some) by {
                    if n.right is None {
                        assert(height_of(n.right) == -1);
                    }
                }
            }
            if AvlTree::get_balance(AvlTree::right_child(&n)) <= 0 {
                return Some(AvlTree::rotate_left(n));
            } else {
                proof {
                    lemma_height_nonneg(n.right.unwrap().left);
                    assert(n.right.unwrap().left is Some) by {
                        if n.right.unwrap().left is None {
                            assert(height_of(n.right.unwrap().left) == -1);
                            assert(balance_of(n.right) <= 0);
                        }
                    }
                }
                return Some(AvlTree::rotate_right_left(n));
            }
        }
        Some(n)
    }

    /// The left child as an optional reference.
    fn left_child(node: &Box<AvlNode>) -> (r: Option<&Box<AvlNode>>)
        ensures
            deref_opt(r) == node.left,
    {
        node.left.as_ref()
    }

    /// The right child as an optional reference.
    fn right_child(node: &Box<AvlNode>) -> (r: Option<&Box<AvlNode>>)
        ensures
            deref_opt(r) == node.right,
    {
        node.right.as_ref()
    }

    /// Removes `value` from the key set; deleting an absent key is a
    /// no-op.
    pub fn delete(&mut self, value: i64)
        requires
            old(self).well_formed(),
        ensures
            final(self).well_formed(),
            final(self)@ == old(self)@.remove(value),
    {
        match self.root.take() {
            Some(root) => {
                self.root = AvlTree::delete_node(root, value);
            }
            None => {
                proof {
                    assert(key_set(self.root) =~= key_set(None::<Box<AvlNode>>).remove(value));
                }
            }
        }
    }
}

impl View for AvlTree {
    type V = Set<i64>;

    open spec fn view(&self) -> Set<i64> {
        key_set(self.root)
    }
}

} // verus!

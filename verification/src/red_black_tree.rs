//! A self-balancing binary search tree with red-black colouring.
//!
//! The tree is viewed as the set of keys it holds.  `well_formed` states
//! the full invariant, which holds after every operation:
//!
//! * binary-search-tree order (`ordered`);
//! * the root is black;
//! * no red node has a red child (`no_red_red`);
//! * every path from a node down to an absent-child sentinel passes the
//!   same number of black nodes (`balanced`, via `black_height`).
//!
//! Mutations descend by comparison, edit the structure locally, and
//! restore the invariant on the way back up: insertion attaches a red
//! leaf and runs the recolouring/rotation case analysis at each ancestor
//! (`insert_fix_left` / `insert_fix_right`); deletion splices the node
//! out and, when a black node was removed, drives the double-black case
//! analysis (`delete_fix_left` / `delete_fix_right`) until the missing
//! black level is restored.

use vstd::prelude::*;

verus! {

pub struct Node {
    pub value: i64,
    pub is_red: bool,
    pub left: Option<Box<Node>>,
    pub right: Option<Box<Node>>,
}

pub struct RedBlackTree {
    pub root: Option<Box<Node>>,
}

/// The set of keys in a subtree.
pub open spec fn key_set(node: Option<Box<Node>>) -> Set<i64>
    decreases node,
{
    match node {
        None => Set::empty(),
        Some(n) => key_set(n.left).union(key_set(n.right)).insert(n.value),
    }
}

/// The keys of a subtree in ascending order.
pub open spec fn inorder_of(node: Option<Box<Node>>) -> Seq<i64>
    decreases node,
{
    match node {
        None => Seq::empty(),
        Some(n) => inorder_of(n.left) + seq![n.value] + inorder_of(n.right),
    }
}

/// The binary-search-tree ordering invariant.
pub open spec fn ordered(node: Option<Box<Node>>) -> bool
    decreases node,
{
    match node {
        None => true,
        Some(n) => {
            &&& (forall|k: i64| key_set(n.left).contains(k) ==> k < n.value)
            &&& (forall|k: i64| key_set(n.right).contains(k) ==> k > n.value)
            &&& ordered(n.left)
            &&& ordered(n.right)
        },
    }
}

/// Whether a subtree has a red root; an absent child counts as a black
/// sentinel.
pub open spec fn node_is_red(node: Option<Box<Node>>) -> bool {
    match node {
        None => false,
        Some(n) => n.is_red,
    }
}

/// The number of black nodes on any path from this subtree's root down to
/// a sentinel (well-defined on balanced trees, where every path agrees).
pub open spec fn black_height(node: Option<Box<Node>>) -> nat
    decreases node,
{
    match node {
        None => 0,
        Some(n) => black_height(n.left) + if n.is_red {
            0nat
        } else {
            1nat
        },
    }
}

/// Every path from a node to a sentinel passes the same number of blacks.
pub open spec fn balanced(node: Option<Box<Node>>) -> bool
    decreases node,
{
    match node {
        None => true,
        Some(n) => {
            &&& black_height(n.left) == black_height(n.right)
            &&& balanced(n.left)
            &&& balanced(n.right)
        },
    }
}

/// No red node has a red child.
pub open spec fn no_red_red(node: Option<Box<Node>>) -> bool
    decreases node,
{
    match node {
        None => true,
        Some(n) => {
            &&& (n.is_red ==> !node_is_red(n.left) && !node_is_red(n.right))
            &&& no_red_red(n.left)
            &&& no_red_red(n.right)
        },
    }
}

/// The colour invariants together with the ordering invariant.
pub open spec fn rb_valid(node: Option<Box<Node>>) -> bool {
    ordered(node) && balanced(node) && no_red_red(node)
}

/// What an insertion hands back up: both subtrees are internally valid,
/// and a red root clashes with at most one red child (the side the
/// insertion went down).
pub open spec fn near_valid(node: Option<Box<Node>>) -> bool {
    match node {
        None => true,
        Some(n) => {
            &&& no_red_red(n.left)
            &&& no_red_red(n.right)
            &&& (n.is_red ==> !(node_is_red(n.left) && node_is_red(n.right)))
        },
    }
}

impl Node {
    /// A fresh red leaf holding `value`; insertion always attaches these.
    pub fn new(value: i64) -> (r: Node)
        ensures
            r.value == value,
            r.is_red,
            r.left is None,
            r.right is None,
    {
        Node { value, left: None, right: None, is_red: true }
    }
}

/// Whether an optional child has a red root.
fn opt_is_red(node: &Option<Box<Node>>) -> (r: bool)
    ensures
        r == node_is_red(*node),
{
    match node {
        None => false,
        Some(n) => n.is_red,
    }
}

/// Promotes `node.right` to `node`'s position; `node` becomes its left
/// child and keeps the promoted node's former left subtree as its right
/// subtree.  Colours move with their nodes; the in-order sequence is
/// unchanged.
fn left_rotation(node: Box<Node>) -> (r: Box<Node>)
    requires
        node.right is Some,
    ensures
        r.value == node.right.unwrap().value,
        r.is_red == node.right.unwrap().is_red,
        r.right == node.right.unwrap().right,
        r.left is Some,
        r.left.unwrap().value == node.value,
        r.left.unwrap().is_red == node.is_red,
        r.left.unwrap().left == node.left,
        r.left.unwrap().right == node.right.unwrap().left,
        key_set(Some(r)) == key_set(Some(node)),
        inorder_of(Some(r)) == inorder_of(Some(node)),
        ordered(Some(node)) ==> ordered(Some(r)),
{
    let ghost whole = Some(node);
    let mut n = node;
    let mut y = n.right.take().unwrap();
    let ghost y0 = y;
    n.right = y.left.take();
    let ghost inner = n;
    y.left = Some(n);
    proof {
        assert(key_set(Some(inner)) =~= key_set(whole.unwrap().left).union(
            key_set(y0.left),
        ).insert(whole.unwrap().value));
        assert(whole.unwrap().right == Some(y0));
        assert(key_set(whole.unwrap().right) =~= key_set(y0.left).union(key_set(y0.right)).insert(
            y0.value,
        ));
        assert(key_set(Some(y)) =~= key_set(whole));
        assert(inorder_of(Some(inner)) =~= inorder_of(whole.unwrap().left) + seq![
            whole.unwrap().value,
        ] + inorder_of(y0.left));
        assert(inorder_of(whole.unwrap().right) =~= inorder_of(y0.left) + seq![y0.value]
            + inorder_of(y0.right));
        assert(inorder_of(Some(y)) =~= inorder_of(whole));
        if ordered(whole) {
            assert(ordered(whole.unwrap().right));
            assert(ordered(y0.left));
            assert(ordered(y0.right));
            assert(key_set(whole.unwrap().right).contains(y0.value));
            assert forall|k: i64| key_set(y.left).contains(k) implies k < y.value by {
                if key_set(inner.left).contains(k) {
                    assert(key_set(whole.unwrap().left).contains(k));
                    assert(k < whole.unwrap().value);
                    assert(key_set(whole.unwrap().right).contains(y.value));
                } else if key_set(inner.right).contains(k) {
                    assert(key_set(y0.left).contains(k));
                } else {
                    assert(k == whole.unwrap().value);
                    assert(key_set(whole.unwrap().right).contains(y.value));
                }
            }
            assert forall|k: i64| key_set(y.right).contains(k) implies k > y.value by {
                assert(key_set(y0.right).contains(k));
            }
            assert forall|k: i64| key_set(inner.left).contains(k) implies k < inner.value by {}
            assert forall|k: i64| key_set(inner.right).contains(k) implies k > inner.value by {
                assert(key_set(y0.left).contains(k));
                assert(key_set(whole.unwrap().right).contains(k));
            }
            assert(ordered(Some(inner)));
            assert(ordered(Some(y)));
        }
    }
    y
}

/// The mirror image of `left_rotation`.
fn right_rotation(node: Box<Node>) -> (r: Box<Node>)
    requires
        node.left is Some,
    ensures
        r.value == node.left.unwrap().value,
        r.is_red == node.left.unwrap().is_red,
        r.left == node.left.unwrap().left,
        r.right is Some,
        r.right.unwrap().value == node.value,
        r.right.unwrap().is_red == node.is_red,
        r.right.unwrap().right == node.right,
        r.right.unwrap().left == node.left.unwrap().right,
        key_set(Some(r)) == key_set(Some(node)),
        inorder_of(Some(r)) == inorder_of(Some(node)),
        ordered(Some(node)) ==> ordered(Some(r)),
{
    let ghost whole = Some(node);
    let mut n = node;
    let mut y = n.left.take().unwrap();
    let ghost y0 = y;
    n.left = y.right.take();
    let ghost inner = n;
    y.right = Some(n);
    proof {
        assert(key_set(Some(inner)) =~= key_set(y0.right).union(
            key_set(whole.unwrap().right),
        ).insert(whole.unwrap().value));
        assert(whole.unwrap().left == Some(y0));
        assert(key_set(whole.unwrap().left) =~= key_set(y0.left).union(key_set(y0.right)).insert(
            y0.value,
        ));
        assert(key_set(Some(y)) =~= key_set(whole));
        assert(inorder_of(Some(inner)) =~= inorder_of(y0.right) + seq![whole.unwrap().value]
            + inorder_of(whole.unwrap().right));
        assert(inorder_of(whole.unwrap().left) =~= inorder_of(y0.left) + seq![y0.value]
            + inorder_of(y0.right));
        assert(inorder_of(Some(y)) =~= inorder_of(whole));
        if ordered(whole) {
            assert(ordered(whole.unwrap().left));
            assert(ordered(y0.left));
            assert(ordered(y0.right));
            assert(key_set(whole.unwrap().left).contains(y0.value));
            assert forall|k: i64| key_set(y.right).contains(k) implies k > y.value by {
                if key_set(inner.right).contains(k) {
                    assert(key_set(whole.unwrap().right).contains(k));
                    assert(k > whole.unwrap().value);
                    assert(key_set(whole.unwrap().left).contains(y.value));
                } else if key_set(inner.left).contains(k) {
                    assert(key_set(y0.right).contains(k));
                } else {
                    assert(k == whole.unwrap().value);
                    assert(key_set(whole.unwrap().left).contains(y.value));
                }
            }
            assert forall|k: i64| key_set(y.left).contains(k) implies k < y.value by {
                assert(key_set(y0.left).contains(k));
            }
            assert forall|k: i64| key_set(inner.right).contains(k) implies k > inner.value by {}
            assert forall|k: i64| key_set(inner.left).contains(k) implies k < inner.value by {
                assert(key_set(y0.right).contains(k));
                assert(key_set(whole.unwrap().left).contains(k));
            }
            assert(ordered(Some(inner)));
            assert(ordered(Some(y)));
        }
    }
    y
}

/// The insertion fixup at `node` for a possible red-red clash in
/// `node.left`.  With a red uncle the clash is recoloured away and moves
/// up to `node`; with a black uncle a zigzag is straightened at the child
/// and a rotation at `node` settles it for good.  Without a clash the
/// subtree is returned untouched.
fn insert_fix_left(node: Box<Node>) -> (r: Box<Node>)
    requires
        ordered(Some(node)),
        balanced(Some(node)),
        no_red_red(node.right),
        near_valid(node.left),
        node.is_red ==> no_red_red(node.left) && !node_is_red(node.right),
    ensures
        ordered(Some(r)),
        balanced(Some(r)),
        black_height(Some(r)) == black_height(Some(node)),
        key_set(Some(r)) == key_set(Some(node)),
        near_valid(Some(r)),
        !node.is_red ==> no_red_red(Some(r)),
        no_red_red(node.left) ==> r == node,
{
    let violation = match &node.left {
        Some(l) => l.is_red && (opt_is_red(&l.left) || opt_is_red(&l.right)),
        None => false,
    };
    if !violation {
        proof {
            assert(no_red_red(node.left));
        }
        return node;
    }
    let mut n = node;
    proof {
        reveal_with_fuel(key_set, 4);
        reveal_with_fuel(ordered, 4);
        reveal_with_fuel(balanced, 4);
        reveal_with_fuel(black_height, 4);
        reveal_with_fuel(no_red_red, 4);
    }
    assert(!n.is_red);
    let ghost l0 = node.left.unwrap();
    assert(l0.is_red);
    if opt_is_red(&n.right) {
        // Uncle red: recolour parent and uncle black, this node red.
        let ghost u0 = node.right.unwrap();
        let mut l = n.left.take().unwrap();
        l.is_red = false;
        n.left = Some(l);
        let mut u = n.right.take().unwrap();
        u.is_red = false;
        n.right = Some(u);
        n.is_red = true;
        proof {
            assert(key_set(n.left) =~= key_set(node.left));
            assert(key_set(n.right) =~= key_set(node.right));
            assert(key_set(Some(n)) =~= key_set(Some(node)));
            assert(ordered(Some(n)));
            assert(black_height(n.left) == black_height(node.left) + 1);
            assert(black_height(n.right) == black_height(node.right) + 1);
            assert(balanced(Some(n)));
            assert(black_height(Some(n)) == black_height(Some(node)));
            assert(no_red_red(n.left));
            assert(no_red_red(n.right));
            assert(no_red_red(Some(n)));
        }
        n
    } else {
        // Uncle black or absent.
        let mut l = n.left.take().unwrap();
        let ghost h = black_height(node.left);
        proof {
            assert(h == black_height(l0.left) && h == black_height(l0.right));
        }
        if opt_is_red(&l.right) {
            // Zigzag: straighten it so the red pair leans left-left.
            proof {
                assert(!node_is_red(l0.left));
                assert(black_height(l0.right.unwrap().left) == h);
                assert(black_height(l0.right.unwrap().right) == h);
            }
            l = left_rotation(l);
            proof {
                assert(node_is_red(l.left));
                assert(!node_is_red(l.right));
                assert(no_red_red(l.left));
                assert(no_red_red(l.right));
                assert(black_height(l.left) == h);
                assert(black_height(l.right) == h);
                assert(balanced(l.left));
                assert(balanced(Some(l)));
                assert(black_height(Some(l)) == h);
            }
        } else {
            proof {
                assert(node_is_red(l.left));
                assert(!node_is_red(l.right));
                assert(black_height(Some(l)) == h);
            }
        }
        l.is_red = false;
        n.is_red = true;
        n.left = Some(l);
        proof {
            assert(key_set(n.left) =~= key_set(node.left));
            assert(ordered(Some(n)));
            assert(black_height(n.left) == h + 1);
        }
        let r = right_rotation(n);
        proof {
            assert(key_set(Some(r)) =~= key_set(Some(node)));
            assert(r.right.unwrap().is_red);
            assert(!r.is_red);
            assert(black_height(r.left) == h);
            assert(black_height(r.right.unwrap().left) == h);
            assert(black_height(r.right.unwrap().right) == h);
            assert(black_height(r.right) == h);
            assert(balanced(r.right));
            assert(balanced(Some(r)));
            assert(black_height(Some(r)) == h + 1);
            assert(black_height(Some(node)) == h + 1);
            assert(no_red_red(r.left));
            assert(no_red_red(r.right));
            assert(no_red_red(Some(r)));
        }
        r
    }
}

/// The mirror image of `insert_fix_left`, for a clash in `node.right`.
fn insert_fix_right(node: Box<Node>) -> (r: Box<Node>)
    requires
        ordered(Some(node)),
        balanced(Some(node)),
        no_red_red(node.left),
        near_valid(node.right),
        node.is_red ==> no_red_red(node.right) && !node_is_red(node.left),
    ensures
        ordered(Some(r)),
        balanced(Some(r)),
        black_height(Some(r)) == black_height(Some(node)),
        key_set(Some(r)) == key_set(Some(node)),
        near_valid(Some(r)),
        !node.is_red ==> no_red_red(Some(r)),
        no_red_red(node.right) ==> r == node,
{
    let violation = match &node.right {
        Some(l) => l.is_red && (opt_is_red(&l.left) || opt_is_red(&l.right)),
        None => false,
    };
    if !violation {
        proof {
            assert(no_red_red(node.right));
        }
        return node;
    }
    let mut n = node;
    proof {
        reveal_with_fuel(key_set, 4);
        reveal_with_fuel(ordered, 4);
        reveal_with_fuel(balanced, 4);
        reveal_with_fuel(black_height, 4);
        reveal_with_fuel(no_red_red, 4);
    }
    assert(!n.is_red);
    let ghost l0 = node.right.unwrap();
    assert(l0.is_red);
    if opt_is_red(&n.left) {
        // Uncle red: recolour parent and uncle black, this node red.
        let ghost u0 = node.left.unwrap();
        let mut l = n.right.take().unwrap();
        l.is_red = false;
        n.right = Some(l);
        let mut u = n.left.take().unwrap();
        u.is_red = false;
        n.left = Some(u);
        n.is_red = true;
        proof {
            assert(key_set(n.right) =~= key_set(node.right));
            assert(key_set(n.left) =~= key_set(node.left));
            assert(key_set(Some(n)) =~= key_set(Some(node)));
            assert(ordered(Some(n)));
            assert(black_height(n.right) == black_height(node.right) + 1);
            assert(black_height(n.left) == black_height(node.left) + 1);
            assert(balanced(Some(n)));
            assert(black_height(Some(n)) == black_height(Some(node)));
            assert(no_red_red(n.right));
            assert(no_red_red(n.left));
            assert(no_red_red(Some(n)));
        }
        n
    } else {
        // Uncle black or absent.
        let mut l = n.right.take().unwrap();
        let ghost h = black_height(node.right);
        proof {
            assert(h == black_height(l0.left) && h == black_height(l0.right));
        }
        if opt_is_red(&l.left) {
            // Zigzag: straighten it so the red pair leans right-right.
            proof {
                assert(!node_is_red(l0.right));
                assert(black_height(l0.left.unwrap().left) == h);
                assert(black_height(l0.left.unwrap().right) == h);
            }
            l = right_rotation(l);
            proof {
                assert(node_is_red(l.right));
                assert(!node_is_red(l.left));
                assert(no_red_red(l.right));
                assert(no_red_red(l.left));
                assert(black_height(l.right) == h);
                assert(black_height(l.left) == h);
                assert(balanced(l.right));
                assert(balanced(Some(l)));
                assert(black_height(Some(l)) == h);
            }
        } else {
            proof {
                assert(node_is_red(l.right));
                assert(!node_is_red(l.left));
                assert(black_height(Some(l)) == h);
            }
        }
        l.is_red = false;
        n.is_red = true;
        n.right = Some(l);
        proof {
            assert(key_set(n.right) =~= key_set(node.right));
            assert(ordered(Some(n)));
            assert(black_height(n.right) == h + 1);
        }
        let r = left_rotation(n);
        proof {
            assert(key_set(Some(r)) =~= key_set(Some(node)));
            assert(r.left.unwrap().is_red);
            assert(!r.is_red);
            assert(black_height(r.right) == h);
            assert(black_height(r.left.unwrap().left) == h);
            assert(black_height(r.left.unwrap().right) == h);
            assert(black_height(r.left) == h);
            assert(balanced(r.left));
            assert(balanced(Some(r)));
            assert(black_height(Some(r)) == h + 1);
            assert(black_height(Some(node)) == h + 1);
            assert(no_red_red(r.right));
            assert(no_red_red(r.left));
            assert(no_red_red(Some(r)));
        }
        r
    }
}

/// Ordered descent: attaches `value` as a red leaf (or stops on an equal
/// key) and runs the fixup at each node on the way back up.
fn insert_node(node: Option<Box<Node>>, value: i64) -> (r: Box<Node>)
    requires
        rb_valid(node),
    ensures
        ordered(Some(r)),
        balanced(Some(r)),
        black_height(Some(r)) == black_height(node),
        key_set(Some(r)) == key_set(node).insert(value),
        near_valid(Some(r)),
        !node_is_red(node) ==> no_red_red(Some(r)),
        key_set(node).contains(value) ==> Some(r) == node,
    decreases node,
{
    match node {
        None => {
            let r = Box::new(Node::new(value));
            assert(key_set(Some(r)) =~= key_set(None::<Box<Node>>).insert(value));
            r
        }
        Some(mut n) => {
            let ghost whole = Some(n);
            if value < n.value {
                let l = insert_node(n.left.take(), value);
                n.left = Some(l);
                proof {
                    assert(key_set(Some(n)) =~= key_set(whole).insert(value));
                    assert(!key_set(whole.unwrap().right).contains(value));
                }
                let r = insert_fix_left(n);
                proof {
                    if key_set(whole).contains(value) {
                        assert(key_set(whole.unwrap().left).contains(value));
                        assert(Some(r) == whole);
                    }
                }
                r
            } else if value > n.value {
                let l = insert_node(n.right.take(), value);
                n.right = Some(l);
                proof {
                    assert(key_set(Some(n)) =~= key_set(whole).insert(value));
                    assert(!key_set(whole.unwrap().left).contains(value));
                }
                let r = insert_fix_right(n);
                proof {
                    if key_set(whole).contains(value) {
                        assert(key_set(whole.unwrap().right).contains(value));
                        assert(Some(r) == whole);
                    }
                }
                r
            } else {
                proof {
                    assert(key_set(whole).contains(value));
                    assert(key_set(whole) =~= key_set(whole).insert(value));
                }
                n
            }
        }
    }
}

/// The deletion fixup at `node` when its left subtree is one black level
/// short and the sibling is black: the three terminal sibling cases.
/// Sibling with two black children: recolour it red and either absorb the
/// deficit here (red `node` turns black) or pass it up.  Red near child:
/// rotate at the sibling first.  Red far child: recolour and rotate at
/// `node`, which settles the deficit.
#[verifier::rlimit(100)]
fn delete_fix_left_black(node: Box<Node>) -> (r: (Box<Node>, bool))
    requires
        ordered(Some(node)),
        no_red_red(node.left),
        no_red_red(node.right),
        balanced(node.left),
        balanced(node.right),
        black_height(node.left) + 1 == black_height(node.right),
        !node_is_red(node.left),
        node.right is Some,
        !node.right.unwrap().is_red,
    ensures
        ordered(Some(r.0)),
        key_set(Some(r.0)) == key_set(Some(node)),
        no_red_red(Some(r.0)),
        balanced(Some(r.0)),
        !node.is_red ==> !r.0.is_red,
        node.is_red ==> !r.1,
        !r.1 ==> black_height(Some(r.0)) == black_height(node.right) + (if node.is_red {
            0nat
        } else {
            1nat
        }),
        r.1 ==> black_height(Some(r.0)) + 1 == black_height(node.right) + (if node.is_red {
            0nat
        } else {
            1nat
        }),
        r.1 ==> !r.0.is_red,
{
    proof {
        reveal_with_fuel(key_set, 4);
        reveal_with_fuel(ordered, 4);
        reveal_with_fuel(balanced, 4);
        reveal_with_fuel(black_height, 4);
        reveal_with_fuel(no_red_red, 4);
    }
    let ghost h = black_height(node.left);
    let ghost s0 = node.right.unwrap();
    proof {
        assert(black_height(s0.left) == h && black_height(s0.right) == h);
    }
    let mut n = node;
    let s_left_red = match &n.right {
        Some(s) => opt_is_red(&s.left),
        None => false,
    };
    let s_right_red = match &n.right {
        Some(s) => opt_is_red(&s.right),
        None => false,
    };
    if !s_left_red && !s_right_red {
        // Sibling has no red child: recolour it red, move the deficit up.
        let mut s = n.right.take().unwrap();
        s.is_red = true;
        n.right = Some(s);
        proof {
            assert(key_set(n.right) =~= key_set(node.right));
            assert(ordered(Some(n)));
            assert(no_red_red(n.right));
            assert(black_height(n.right) == h);
            assert(balanced(Some(n)));
            assert(key_set(Some(n)) =~= key_set(Some(node)));
        }
        if n.is_red {
            n.is_red = false;
            proof {
                assert(no_red_red(Some(n)));
                assert(black_height(Some(n)) == h + 1);
            }
            (n, false)
        } else {
            proof {
                assert(no_red_red(Some(n)));
                assert(black_height(Some(n)) == h + 1);
            }
            (n, true)
        }
    } else {
        let mut s = n.right.take().unwrap();
        if !s_right_red {
            // Near child red, far child black: rotate at the sibling so
            // the red child moves to the far side.
            proof {
                assert(node_is_red(s0.left));
                assert(black_height(s0.left.unwrap().left) == h);
                assert(black_height(s0.left.unwrap().right) == h);
                assert(!node_is_red(s0.left.unwrap().left));
                assert(!node_is_red(s0.left.unwrap().right));
            }
            let mut sl = s.left.take().unwrap();
            sl.is_red = false;
            s.is_red = true;
            s.left = Some(sl);
            proof {
                assert(ordered(node.right));
                assert(ordered(s0.left));
                assert(key_set(s.left) =~= key_set(s0.left));
                assert(key_set(Some(s)) =~= key_set(node.right));
                assert forall|k: i64| key_set(s.left).contains(k) implies k < s.value by {
                    assert(key_set(s0.left).contains(k));
                }
                assert(ordered(Some(s)));
            }
            s = right_rotation(s);
            proof {
                assert(!s.is_red);
                assert(node_is_red(s.right));
                assert(key_set(Some(s)) =~= key_set(node.right));
                assert(black_height(s.left) == h);
                assert(black_height(s.right) == h);
                assert(balanced(Some(s)));
                assert(black_height(Some(s)) == h + 1);
                assert(no_red_red(Some(s)));
            }
        }
        // Far child red: the sibling takes this node's colour, this node
        // and the far child turn black, and a rotation at this node
        // restores the missing black level.
        let ghost sd = s;
        proof {
            assert(node_is_red(sd.right));
            assert(!sd.is_red);
            assert(key_set(Some(sd)) =~= key_set(node.right));
            assert(ordered(Some(sd)));
            assert(no_red_red(Some(sd)));
            assert(balanced(Some(sd)));
            assert(black_height(Some(sd)) == h + 1);
            assert(black_height(sd.left) == h);
            assert(black_height(sd.right) == h);
            assert(black_height(sd.right.unwrap().left) == h);
            assert(black_height(sd.right.unwrap().right) == h);
        }
        s.is_red = n.is_red;
        n.is_red = false;
        let mut sr = s.right.take().unwrap();
        sr.is_red = false;
        s.right = Some(sr);
        let ghost srec = s;
        n.right = Some(s);
        proof {
            assert(key_set(srec.right) =~= key_set(sd.right));
            assert(key_set(Some(srec)) =~= key_set(Some(sd)));
            assert(ordered(sd.right));
            assert forall|k: i64| key_set(srec.right).contains(k) implies k > srec.value by {
                assert(key_set(sd.right).contains(k));
            }
            assert(ordered(Some(srec)));
            assert forall|k: i64| key_set(n.right).contains(k) implies k > n.value by {
                assert(key_set(node.right).contains(k));
            }
            assert(ordered(Some(n)));
            assert(key_set(Some(n)) =~= key_set(Some(node)));
        }
        let r = left_rotation(n);
        proof {
            assert(key_set(Some(r)) =~= key_set(Some(node)));
            assert(r.is_red == node.is_red);
            assert(!r.left.unwrap().is_red);
            assert(!r.right.unwrap().is_red);
            assert(black_height(r.left) == h + 1);
            assert(black_height(r.right) == h + 1);
            assert(balanced(Some(r)));
            assert(no_red_red(Some(r)));
            assert(black_height(Some(r)) == h + 1 + (if node.is_red {
                0nat
            } else {
                1nat
            }));
        }
        (r, false)
    }
}

/// The mirror image of `delete_fix_left_black`: the right subtree is one
/// black level short and the sibling (on the left) is black.
#[verifier::rlimit(100)]
fn delete_fix_right_black(node: Box<Node>) -> (r: (Box<Node>, bool))
    requires
        ordered(Some(node)),
        no_red_red(node.left),
        no_red_red(node.right),
        balanced(node.left),
        balanced(node.right),
        black_height(node.right) + 1 == black_height(node.left),
        !node_is_red(node.right),
        node.left is Some,
        !node.left.unwrap().is_red,
    ensures
        ordered(Some(r.0)),
        key_set(Some(r.0)) == key_set(Some(node)),
        no_red_red(Some(r.0)),
        balanced(Some(r.0)),
        !node.is_red ==> !r.0.is_red,
        node.is_red ==> !r.1,
        !r.1 ==> black_height(Some(r.0)) == black_height(node.left) + (if node.is_red {
            0nat
        } else {
            1nat
        }),
        r.1 ==> black_height(Some(r.0)) + 1 == black_height(node.left) + (if node.is_red {
            0nat
        } else {
            1nat
        }),
        r.1 ==> !r.0.is_red,
{
    proof {
        reveal_with_fuel(key_set, 4);
        reveal_with_fuel(ordered, 4);
        reveal_with_fuel(balanced, 4);
        reveal_with_fuel(black_height, 4);
        reveal_with_fuel(no_red_red, 4);
    }
    let ghost h = black_height(node.right);
    let ghost s0 = node.left.unwrap();
    proof {
        assert(black_height(s0.left) == h && black_height(s0.right) == h);
    }
    let mut n = node;
    let s_left_red = match &n.left {
        Some(s) => opt_is_red(&s.left),
        None => false,
    };
    let s_right_red = match &n.left {
        Some(s) => opt_is_red(&s.right),
        None => false,
    };
    if !s_left_red && !s_right_red {
        // Sibling has no red child: recolour it red, move the deficit up.
        let mut s = n.left.take().unwrap();
        s.is_red = true;
        n.left = Some(s);
        proof {
            assert(key_set(n.left) =~= key_set(node.left));
            assert(ordered(Some(n)));
            assert(no_red_red(n.left));
            assert(black_height(n.left) == h);
            assert(balanced(Some(n)));
            assert(key_set(Some(n)) =~= key_set(Some(node)));
        }
        if n.is_red {
            n.is_red = false;
            proof {
                assert(no_red_red(Some(n)));
                assert(black_height(Some(n)) == h + 1);
            }
            (n, false)
        } else {
            proof {
                assert(no_red_red(Some(n)));
                assert(black_height(Some(n)) == h + 1);
            }
            (n, true)
        }
    } else {
        let mut s = n.left.take().unwrap();
        if !s_left_red {
            // Near child red, far child black: rotate at the sibling so
            // the red child moves to the far side.
            proof {
                assert(node_is_red(s0.right));
                assert(black_height(s0.right.unwrap().left) == h);
                assert(black_height(s0.right.unwrap().right) == h);
                assert(!node_is_red(s0.right.unwrap().left));
                assert(!node_is_red(s0.right.unwrap().right));
            }
            let mut sr = s.right.take().unwrap();
            sr.is_red = false;
            s.is_red = true;
            s.right = Some(sr);
            proof {
                assert(ordered(node.left));
                assert(ordered(s0.right));
                assert(key_set(s.right) =~= key_set(s0.right));
                assert(key_set(Some(s)) =~= key_set(node.left));
                assert forall|k: i64| key_set(s.right).contains(k) implies k > s.value by {
                    assert(key_set(s0.right).contains(k));
                }
                assert(ordered(Some(s)));
            }
            s = left_rotation(s);
            proof {
                assert(!s.is_red);
                assert(node_is_red(s.left));
                assert(key_set(Some(s)) =~= key_set(node.left));
                assert(black_height(s.left) == h);
                assert(black_height(s.right) == h);
                assert(balanced(Some(s)));
                assert(black_height(Some(s)) == h + 1);
                assert(no_red_red(Some(s)));
            }
        }
        // Far child red: the sibling takes this node's colour, this node
        // and the far child turn black, and a rotation at this node
        // restores the missing black level.
        let ghost sd = s;
        proof {
            assert(node_is_red(sd.left));
            assert(!sd.is_red);
            assert(key_set(Some(sd)) =~= key_set(node.left));
            assert(ordered(Some(sd)));
            assert(no_red_red(Some(sd)));
            assert(balanced(Some(sd)));
            assert(black_height(Some(sd)) == h + 1);
            assert(black_height(sd.left) == h);
            assert(black_height(sd.right) == h);
            assert(black_height(sd.left.unwrap().left) == h);
            assert(black_height(sd.left.unwrap().right) == h);
        }
        s.is_red = n.is_red;
        n.is_red = false;
        let mut sl = s.left.take().unwrap();
        sl.is_red = false;
        s.left = Some(sl);
        let ghost srec = s;
        n.left = Some(s);
        proof {
            assert(key_set(srec.left) =~= key_set(sd.left));
            assert(key_set(Some(srec)) =~= key_set(Some(sd)));
            assert(ordered(sd.left));
            assert forall|k: i64| key_set(srec.left).contains(k) implies k < srec.value by {
                assert(key_set(sd.left).contains(k));
            }
            assert(ordered(Some(srec)));
            assert forall|k: i64| key_set(n.left).contains(k) implies k < n.value by {
                assert(key_set(node.left).contains(k));
            }
            assert(ordered(Some(n)));
            assert(key_set(Some(n)) =~= key_set(Some(node)));
        }
        let r = right_rotation(n);
        proof {
            assert(key_set(Some(r)) =~= key_set(Some(node)));
            assert(r.is_red == node.is_red);
            assert(!r.left.unwrap().is_red);
            assert(!r.right.unwrap().is_red);
            assert(black_height(r.left) == h + 1);
            assert(black_height(r.right) == h + 1);
            assert(balanced(Some(r)));
            assert(no_red_red(Some(r)));
            assert(black_height(Some(r)) == h + 1 + (if node.is_red {
                0nat
            } else {
                1nat
            }));
        }
        (r, false)
    }
}

/// The mirror image of `delete_fix_left`: the right subtree is one black
/// level short.
fn delete_fix_right(node: Box<Node>) -> (r: (Box<Node>, bool))
    requires
        ordered(Some(node)),
        no_red_red(node.left),
        no_red_red(node.right),
        balanced(node.left),
        balanced(node.right),
        black_height(node.right) + 1 == black_height(node.left),
        !node_is_red(node.right),
        node.is_red ==> !node_is_red(node.left),
    ensures
        ordered(Some(r.0)),
        key_set(Some(r.0)) == key_set(Some(node)),
        no_red_red(Some(r.0)),
        balanced(Some(r.0)),
        !node.is_red ==> !r.0.is_red,
        node.is_red ==> !r.1,
        !r.1 ==> black_height(Some(r.0)) == black_height(node.left) + (if node.is_red {
            0nat
        } else {
            1nat
        }),
        r.1 ==> black_height(Some(r.0)) + 1 == black_height(node.left) + (if node.is_red {
            0nat
        } else {
            1nat
        }),
        r.1 ==> !r.0.is_red,
{
    proof {
        reveal_with_fuel(key_set, 4);
        reveal_with_fuel(ordered, 4);
        reveal_with_fuel(balanced, 4);
        reveal_with_fuel(black_height, 4);
        reveal_with_fuel(no_red_red, 4);
    }
    let ghost h = black_height(node.right);
    proof {
        if node.left is None {
            assert(black_height(node.left) == 0);
            assert(false);
        }
    }
    if opt_is_red(&node.left) {
        // Red sibling: rotate it above this node; the deficit is then
        // fixed under it against a black sibling.
        let ghost s0 = node.left.unwrap();
        proof {
            assert(!node.is_red);
            assert(black_height(s0.left) == h + 1);
            assert(black_height(s0.right) == h + 1);
            assert(!node_is_red(s0.left));
            assert(!node_is_red(s0.right));
        }
        let mut n = node;
        let mut s = n.left.take().unwrap();
        s.is_red = false;
        n.is_red = true;
        n.left = Some(s);
        proof {
            assert(key_set(n.left) =~= key_set(node.left));
            assert(key_set(Some(n)) =~= key_set(Some(node)));
            assert forall|k: i64| key_set(n.left).contains(k) implies k < n.value by {
                assert(key_set(node.left).contains(k));
            }
            assert(ordered(Some(n)));
        }
        let mut top = right_rotation(n);
        let ghost pretop = top;
        let inner = top.right.take().unwrap();
        proof {
            assert(inner.is_red);
            assert(inner.right == node.right);
            assert(inner.left == s0.right);
            assert(ordered(Some(top)));
            assert(ordered(Some(inner)));
            assert(black_height(inner.left) == h + 1);
            assert(inner.left is Some) by {
                if inner.left is None {
                    assert(black_height(inner.left) == 0);
                }
            }
            assert(!inner.left.unwrap().is_red);
            assert(no_red_red(inner.left));
            assert(no_red_red(inner.right));
        }
        let (fixed, still) = delete_fix_right_black(inner);
        proof {
            assert(!still);
            assert(black_height(Some(fixed)) == h + 1);
        }
        top.right = Some(fixed);
        proof {
            assert(key_set(Some(top)) =~= key_set(Some(node)));
            assert forall|k: i64| key_set(top.right).contains(k) implies k > top.value by {
                assert(key_set(Some(inner)).contains(k));
                assert(key_set(pretop.right).contains(k));
                assert(k > pretop.value);
            }
            assert(ordered(Some(top)));
            assert(!top.is_red);
            assert(black_height(Some(top)) == h + 2);
            assert(black_height(node.left) == h + 1);
            assert(no_red_red(Some(top)));
            assert(balanced(Some(top)));
        }
        (top, false)
    } else {
        delete_fix_right_black(node)
    }
}

/// The deletion fixup at `node` when its left subtree is one black level
/// short.  A red sibling is first rotated away (it turns black, `node`
/// red), after which the black-sibling cases settle the deficit for good.
fn delete_fix_left(node: Box<Node>) -> (r: (Box<Node>, bool))
    requires
        ordered(Some(node)),
        no_red_red(node.left),
        no_red_red(node.right),
        balanced(node.left),
        balanced(node.right),
        black_height(node.left) + 1 == black_height(node.right),
        !node_is_red(node.left),
        node.is_red ==> !node_is_red(node.right),
    ensures
        ordered(Some(r.0)),
        key_set(Some(r.0)) == key_set(Some(node)),
        no_red_red(Some(r.0)),
        balanced(Some(r.0)),
        !node.is_red ==> !r.0.is_red,
        node.is_red ==> !r.1,
        !r.1 ==> black_height(Some(r.0)) == black_height(node.right) + (if node.is_red {
            0nat
        } else {
            1nat
        }),
        r.1 ==> black_height(Some(r.0)) + 1 == black_height(node.right) + (if node.is_red {
            0nat
        } else {
            1nat
        }),
        r.1 ==> !r.0.is_red,
{
    proof {
        reveal_with_fuel(key_set, 4);
        reveal_with_fuel(ordered, 4);
        reveal_with_fuel(balanced, 4);
        reveal_with_fuel(black_height, 4);
        reveal_with_fuel(no_red_red, 4);
    }
    let ghost h = black_height(node.left);
    proof {
        if node.right is None {
            assert(black_height(node.right) == 0);
            assert(false);
        }
    }
    if opt_is_red(&node.right) {
        // Red sibling: rotate it above this node; the deficit is then
        // fixed under it against a black sibling.
        let ghost s0 = node.right.unwrap();
        proof {
            assert(!node.is_red);
            assert(black_height(s0.left) == h + 1);
            assert(black_height(s0.right) == h + 1);
            assert(!node_is_red(s0.left));
            assert(!node_is_red(s0.right));
        }
        let mut n = node;
        let mut s = n.right.take().unwrap();
        s.is_red = false;
        n.is_red = true;
        n.right = Some(s);
        proof {
            assert(key_set(n.right) =~= key_set(node.right));
            assert(key_set(Some(n)) =~= key_set(Some(node)));
            assert forall|k: i64| key_set(n.right).contains(k) implies k > n.value by {
                assert(key_set(node.right).contains(k));
            }
            assert(ordered(Some(n)));
        }
        let mut top = left_rotation(n);
        let ghost pretop = top;
        let inner = top.left.take().unwrap();
        proof {
            assert(inner.is_red);
            assert(inner.left == node.left);
            assert(inner.right == s0.left);
            assert(ordered(Some(top)));
            assert(ordered(Some(inner)));
            assert(black_height(inner.right) == h + 1);
            assert(inner.right is Some) by {
                if inner.right is None {
                    assert(black_height(inner.right) == 0);
                }
            }
            assert(!inner.right.unwrap().is_red);
            assert(no_red_red(inner.left));
            assert(no_red_red(inner.right));
        }
        let (fixed, still) = delete_fix_left_black(inner);
        proof {
            assert(!still);
            assert(black_height(Some(fixed)) == h + 1);
        }
        let ghost top0 = top;
        top.left = Some(fixed);
        proof {
            assert(key_set(Some(top)) =~= key_set(Some(node)));
            assert forall|k: i64| key_set(top.left).contains(k) implies k < top.value by {
                assert(key_set(Some(inner)).contains(k));
                assert(key_set(pretop.left).contains(k));
                assert(k < pretop.value);
            }
            assert(ordered(Some(top)));
            assert(!top.is_red);
            assert(black_height(Some(top)) == h + 2);
            assert(black_height(node.right) == h + 1);
            assert(no_red_red(Some(top)));
            assert(balanced(Some(top)));
        }
        (top, false)
    } else {
        delete_fix_left_black(node)
    }
}

/// Splices out the minimum of a subtree: descends to the left-most node,
/// replaces it by its right child, and repairs any missing black level on
/// the way back up.  Returns the new subtree, the removed key, and
/// whether the subtree is still one black level short.
#[verifier::rlimit(100)]
fn delete_min_node(node: Box<Node>) -> (r: (Option<Box<Node>>, i64, bool))
    requires
        ordered(Some(node)),
        balanced(Some(node)),
        no_red_red(Some(node)),
    ensures
        ordered(r.0),
        balanced(r.0),
        no_red_red(r.0),
        key_set(Some(node)).contains(r.1),
        forall|k: i64| key_set(Some(node)).contains(k) ==> r.1 <= k,
        key_set(r.0) == key_set(Some(node)).remove(r.1),
        !node.is_red ==> !node_is_red(r.0),
        node.is_red ==> !r.2,
        !r.2 ==> black_height(r.0) == black_height(Some(node)),
        r.2 ==> black_height(r.0) + 1 == black_height(Some(node)),
        r.2 ==> !node_is_red(r.0),
    decreases node,
{
    proof {
        reveal_with_fuel(key_set, 3);
        reveal_with_fuel(ordered, 3);
        reveal_with_fuel(balanced, 3);
        reveal_with_fuel(black_height, 3);
        reveal_with_fuel(no_red_red, 3);
    }
    let mut n = node;
    match n.left.take() {
        None => {
            // This node is the minimum; its right child takes its place.
            proof {
                assert(key_set(node.left) =~= Set::<i64>::empty());
                assert forall|k: i64| key_set(Some(node)).contains(k) implies node.value <= k by {
                    if key_set(node.right).contains(k) {
                        assert(k > node.value);
                    }
                }
            }
            match n.right.take() {
                Some(mut rc) => {
                    proof {
                        assert(black_height(node.right) == 0);
                        assert(rc.is_red) by {
                            if !rc.is_red {
                                assert(black_height(node.right) >= 1);
                            }
                        }
                        assert(!node.is_red);
                    }
                    rc.is_red = false;
                    proof {
                        assert(key_set(Some(rc)) =~= key_set(node.right));
                        assert(key_set(Some(rc)) =~= key_set(Some(node)).remove(node.value));
                        assert(black_height(Some(rc)) == 1);
                        assert(black_height(Some(node)) == 1);
                        assert(ordered(Some(rc)));
                        assert(no_red_red(Some(rc)));
                        assert(balanced(Some(rc)));
                    }
                    (Some(rc), n.value, false)
                }
                None => {
                    proof {
                        assert(key_set(None::<Box<Node>>) =~= key_set(Some(node)).remove(
                            node.value,
                        ));
                    }
                    if n.is_red {
                        (None, n.value, false)
                    } else {
                        (None, n.value, true)
                    }
                }
            }
        }
        Some(l) => {
            let ghost whole = Some(node);
            let ghost lkeys = key_set(Some(l));
            let (l2, m, d) = delete_min_node(l);
            n.left = l2;
            proof {
                assert(key_set(n.left) =~= lkeys.remove(m));
                assert(lkeys.contains(m));
                assert(whole.unwrap().left == Some(l));
                assert(m < whole.unwrap().value);
                assert(!key_set(whole.unwrap().right).contains(m)) by {
                    if key_set(whole.unwrap().right).contains(m) {
                        assert(m > whole.unwrap().value);
                    }
                }
                assert(key_set(Some(n)) =~= key_set(whole).remove(m));
                assert forall|k: i64| key_set(whole).contains(k) implies m <= k by {
                    if lkeys.contains(k) {
                    } else if key_set(whole.unwrap().right).contains(k) {
                        assert(m < whole.unwrap().value);
                        assert(k > whole.unwrap().value);
                    } else {
                        assert(k == whole.unwrap().value);
                        assert(m < whole.unwrap().value);
                    }
                }
                assert(ordered(Some(n)));
                assert(no_red_red(whole.unwrap().right));
                assert(balanced(whole.unwrap().right));
            }
            if d {
                proof {
                    assert(black_height(n.left) + 1 == black_height(node.left));
                    assert(black_height(node.left) == black_height(n.right));
                }
                let (fixed, still) = delete_fix_left(n);
                proof {
                    assert(key_set(Some(fixed)) =~= key_set(whole).remove(m));
                    if !still {
                        assert(black_height(Some(fixed)) == black_height(whole));
                    } else {
                        assert(black_height(Some(fixed)) + 1 == black_height(whole));
                    }
                }
                (Some(fixed), m, still)
            } else {
                proof {
                    assert(balanced(Some(n)));
                    assert(no_red_red(Some(n)));
                    assert(black_height(Some(n)) == black_height(whole));
                }
                (Some(n), m, false)
            }
        }
    }
}

/// Ordered descent to the key, then removal: a node with at most one
/// child is replaced by that child (recoloured black if it was red); a
/// node with two children takes the minimum of its right subtree as its
/// key and that minimum is spliced out instead.  A missing black level is
/// repaired on the way back up.
#[verifier::rlimit(100)]
fn delete_node(node: Option<Box<Node>>, value: i64) -> (r: (Option<Box<Node>>, bool))
    requires
        rb_valid(node),
    ensures
        ordered(r.0),
        balanced(r.0),
        no_red_red(r.0),
        key_set(r.0) == key_set(node).remove(value),
        !node_is_red(node) ==> !node_is_red(r.0),
        node_is_red(node) ==> !r.1,
        !r.1 ==> black_height(r.0) == black_height(node),
        r.1 ==> black_height(r.0) + 1 == black_height(node),
        r.1 ==> !node_is_red(r.0),
        !key_set(node).contains(value) ==> r.0 == node && !r.1,
    decreases node,
{
    proof {
        reveal_with_fuel(key_set, 3);
        reveal_with_fuel(ordered, 3);
        reveal_with_fuel(balanced, 3);
        reveal_with_fuel(black_height, 3);
        reveal_with_fuel(no_red_red, 3);
    }
    match node {
        None => {
            proof {
                assert(key_set(None::<Box<Node>>) =~= key_set(None::<Box<Node>>).remove(value));
            }
            (None, false)
        }
        Some(mut n) => {
            let ghost whole = Some(n);
            if value < n.value {
                let ghost lkeys = key_set(n.left);
                let (l2, d) = delete_node(n.left.take(), value);
                n.left = l2;
                proof {
                    assert(!key_set(whole.unwrap().right).contains(value));
                    assert(key_set(Some(n)) =~= key_set(whole).remove(value));
                    assert(ordered(Some(n)));
                }
                if d {
                    let (fixed, still) = delete_fix_left(n);
                    proof {
                        assert(key_set(Some(fixed)) =~= key_set(whole).remove(value));
                    }
                    (Some(fixed), still)
                } else {
                    proof {
                        if !lkeys.contains(value) {
                            assert(key_set(whole) =~= key_set(whole).remove(value));
                        }
                    }
                    (Some(n), false)
                }
            } else if value > n.value {
                let ghost rkeys = key_set(n.right);
                let (r2, d) = delete_node(n.right.take(), value);
                n.right = r2;
                proof {
                    assert(!key_set(whole.unwrap().left).contains(value));
                    assert(key_set(Some(n)) =~= key_set(whole).remove(value));
                    assert(ordered(Some(n)));
                }
                if d {
                    let (fixed, still) = delete_fix_right(n);
                    proof {
                        assert(key_set(Some(fixed)) =~= key_set(whole).remove(value));
                    }
                    (Some(fixed), still)
                } else {
                    proof {
                        if !rkeys.contains(value) {
                            assert(key_set(whole) =~= key_set(whole).remove(value));
                        }
                    }
                    (Some(n), false)
                }
            } else {
                // The node to remove.
                proof {
                    assert(!key_set(whole.unwrap().left).contains(value));
                    assert(!key_set(whole.unwrap().right).contains(value));
                }
                if n.left.is_none() {
                    match n.right.take() {
                        Some(mut rc) => {
                            proof {
                                assert(key_set(n.left) =~= Set::<i64>::empty());
                                assert(black_height(node.unwrap().right) == 0);
                                assert(rc.is_red) by {
                                    if !rc.is_red {
                                        assert(black_height(node.unwrap().right) >= 1);
                                    }
                                }
                                assert(!n.is_red);
                            }
                            rc.is_red = false;
                            proof {
                                assert(key_set(Some(rc)) =~= key_set(whole).remove(value));
                                assert(ordered(Some(rc)));
                                assert(no_red_red(Some(rc)));
                                assert(balanced(Some(rc)));
                                assert(black_height(Some(rc)) == 1);
                                assert(black_height(whole) == 1);
                            }
                            (Some(rc), false)
                        }
                        None => {
                            proof {
                                assert(key_set(n.left) =~= Set::<i64>::empty());
                                assert(key_set(None::<Box<Node>>) =~= key_set(whole).remove(
                                    value,
                                ));
                            }
                            if n.is_red {
                                (None, false)
                            } else {
                                (None, true)
                            }
                        }
                    }
                } else if n.right.is_none() {
                    let mut lc = n.left.take().unwrap();
                    proof {
                        assert(key_set(whole.unwrap().right) =~= Set::<i64>::empty());
                        assert(black_height(whole.unwrap().right) == 0);
                        assert(black_height(whole.unwrap().left) == 0);
                        assert(lc.is_red) by {
                            if !lc.is_red {
                                assert(black_height(whole.unwrap().left) >= 1);
                            }
                        }
                        assert(!n.is_red);
                    }
                    lc.is_red = false;
                    proof {
                        assert(key_set(Some(lc)) =~= key_set(whole).remove(value));
                        assert(ordered(Some(lc)));
                        assert(no_red_red(Some(lc)));
                        assert(balanced(Some(lc)));
                        assert(black_height(Some(lc)) == 1);
                        assert(black_height(whole) == 1);
                    }
                    (Some(lc), false)
                } else {
                    // Two children: the in-order successor's key replaces
                    // this one, and the successor is spliced out instead.
                    let ghost rkeys = key_set(n.right);
                    let rsub = n.right.take().unwrap();
                    let (r2, m, d) = delete_min_node(rsub);
                    n.value = m;
                    n.right = r2;
                    proof {
                        assert(rkeys.contains(m));
                        assert(m > whole.unwrap().value);
                        assert(key_set(n.right) =~= rkeys.remove(m));
                        assert(key_set(Some(n)) =~= key_set(whole).remove(value));
                        assert forall|k: i64| key_set(n.left).contains(k) implies k < n.value by {
                            assert(key_set(whole.unwrap().left).contains(k));
                            assert(k < whole.unwrap().value);
                        }
                        assert forall|k: i64| key_set(n.right).contains(k) implies k > n.value by {
                            assert(rkeys.contains(k) && k != m);
                            assert(m <= k);
                        }
                        assert(ordered(Some(n)));
                    }
                    if d {
                        let (fixed, still) = delete_fix_right(n);
                        proof {
                            assert(key_set(Some(fixed)) =~= key_set(whole).remove(value));
                        }
                        (Some(fixed), still)
                    } else {
                        (Some(n), false)
                    }
                }
            }
        }
    }
}

fn search_node(node: &Option<Box<Node>>, value: i64) -> (r: bool)
    requires
        ordered(*node),
    ensures
        r == key_set(*node).contains(value),
    decreases *node,
{
    match node {
        None => {
            assert(!key_set(*node).contains(value));
            false
        }
        Some(boxed) => {
            if value == boxed.value {
                assert(key_set(*node).contains(value));
                true
            } else if value < boxed.value {
                let found = search_node(&boxed.left, value);
                assert(!key_set(boxed.right).contains(value));
                assert(key_set(*node).contains(value) == key_set(boxed.left).contains(value));
                found
            } else {
                let found = search_node(&boxed.right, value);
                assert(!key_set(boxed.left).contains(value));
                assert(key_set(*node).contains(value) == key_set(boxed.right).contains(value));
                found
            }
        }
    }
}

fn push_inorder(node: &Option<Box<Node>>, out: &mut Vec<i64>)
    ensures
        final(out)@ == old(out)@ + inorder_of(*node),
    decreases *node,
{
    match node {
        None => {
            assert(final(out)@ =~= old(out)@ + inorder_of(*node));
        }
        Some(boxed) => {
            push_inorder(&boxed.left, out);
            let ghost mid = out@;
            out.push(boxed.value);
            assert(out@ =~= mid + seq![boxed.value]);
            push_inorder(&boxed.right, out);
            assert(final(out)@ =~= old(out)@ + inorder_of(*node));
        }
    }
}

/// The number of edges on the longest path from a subtree's root down to
/// a sentinel.
pub open spec fn tree_height(node: Option<Box<Node>>) -> nat
    decreases node,
{
    match node {
        None => 0,
        Some(n) => 1 + if tree_height(n.left) >= tree_height(n.right) {
            tree_height(n.left)
        } else {
            tree_height(n.right)
        },
    }
}

/// The colour invariants bound the shape: the height is at most twice
/// the black height (plus one for a red root), and a subtree of black
/// height `b` holds at least `2^b - 1` keys — together, the height is
/// logarithmic in the number of keys.
pub proof fn lemma_height_bounded(node: Option<Box<Node>>)
    requires
        ordered(node),
        balanced(node),
        no_red_red(node),
    ensures
        tree_height(node) + (if node_is_red(node) {
            0nat
        } else {
            1nat
        }) <= 2 * black_height(node) + 1,
        key_set(node).len() + 1 >= vstd::arithmetic::power2::pow2(black_height(node)),
    decreases node,
{
    vstd::arithmetic::power2::lemma_pow2_pos(black_height(node));
    match node {
        None => {
            assert(key_set(node) =~= Set::<i64>::empty());
            vstd::arithmetic::power2::lemma2_to64();
        }
        Some(n) => {
            lemma_height_bounded(n.left);
            lemma_height_bounded(n.right);
            lemma_key_set_finite(n.left);
            lemma_key_set_finite(n.right);
            assert(key_set(n.left).disjoint(key_set(n.right))) by {
                assert forall|k: i64|
                    !(key_set(n.left).contains(k) && key_set(n.right).contains(k)) by {}
            }
            vstd::set_lib::lemma_set_disjoint_lens(key_set(n.left), key_set(n.right));
            assert(!key_set(n.left).union(key_set(n.right)).contains(n.value));
            assert(key_set(node) =~= key_set(n.left).union(key_set(n.right)).insert(n.value));
            assert(key_set(node).len() == key_set(n.left).len() + key_set(n.right).len() + 1);
            if n.is_red {
                // Both children have black roots and the same black height.
                assert(black_height(node) == black_height(n.left));
                assert(tree_height(n.left) + 1 <= 2 * black_height(n.left) + 1);
                assert(tree_height(n.right) + 1 <= 2 * black_height(n.right) + 1);
            } else {
                assert(black_height(node) == black_height(n.left) + 1);
                vstd::arithmetic::power2::lemma_pow2_unfold(black_height(node));
            }
        }
    }
}

/// A subtree holds finitely many keys.
pub proof fn lemma_key_set_finite(node: Option<Box<Node>>)
    ensures
        key_set(node).finite(),
    decreases node,
{
    match node {
        None => {
        }
        Some(n) => {
            lemma_key_set_finite(n.left);
            lemma_key_set_finite(n.right);
        }
    }
}

/// On an ordered subtree the in-order key sequence is strictly increasing
/// and holds exactly the subtree's key set.
pub proof fn lemma_inorder_sorted(node: Option<Box<Node>>)
    requires
        ordered(node),
    ensures
        forall|i: int, j: int|
            0 <= i < j < inorder_of(node).len() ==> inorder_of(node)[i] < inorder_of(node)[j],
        forall|k: i64| #[trigger] inorder_of(node).contains(k) <==> key_set(node).contains(k),
        inorder_of(node).len() == key_set(node).len(),
    decreases node,
{
    match node {
        None => {
            assert(key_set(node) =~= Set::<i64>::empty());
            assert(Set::<i64>::empty().len() == 0);
            assert forall|k: i64| #[trigger]
                inorder_of(node).contains(k) <==> key_set(node).contains(k) by {}
        }
        Some(n) => {
            lemma_inorder_sorted(n.left);
            lemma_inorder_sorted(n.right);
            let ls = inorder_of(n.left);
            let rs = inorder_of(n.right);
            let s = inorder_of(node);
            assert(s == ls + seq![n.value] + rs);
            assert forall|k: i64| #[trigger] s.contains(k) implies key_set(node).contains(k) by {
                let i = choose|i: int| 0 <= i < s.len() && s[i] == k;
                if i < ls.len() {
                    assert(ls[i] == k);
                    assert(ls.contains(k));
                } else if i > ls.len() {
                    assert(rs[i - ls.len() - 1] == k);
                    assert(rs.contains(k));
                }
            }
            assert forall|k: i64| key_set(node).contains(k) implies #[trigger] s.contains(k) by {
                if key_set(n.left).contains(k) {
                    assert(ls.contains(k));
                    let i = choose|i: int| 0 <= i < ls.len() && ls[i] == k;
                    assert(s[i] == k);
                } else if key_set(n.right).contains(k) {
                    assert(rs.contains(k));
                    let i = choose|i: int| 0 <= i < rs.len() && rs[i] == k;
                    assert(s[ls.len() + 1 + i] == k);
                } else {
                    assert(k == n.value);
                    assert(s[ls.len() as int] == k);
                }
            }
            assert forall|i: int, j: int| 0 <= i < j < s.len() implies s[i] < s[j] by {
                if j < ls.len() {
                } else if i < ls.len() && j == ls.len() {
                    assert(ls.contains(s[i]));
                    assert(key_set(n.left).contains(s[i]));
                } else if i < ls.len() && j > ls.len() {
                    assert(ls.contains(s[i]));
                    assert(rs.contains(s[j]));
                    assert(key_set(n.left).contains(s[i]));
                    assert(key_set(n.right).contains(s[j]));
                } else if i == ls.len() && j > ls.len() {
                    assert(rs.contains(s[j]));
                    assert(key_set(n.right).contains(s[j]));
                } else if i > ls.len() {
                    assert(s[i] == rs[i - ls.len() - 1]);
                    assert(s[j] == rs[j - ls.len() - 1]);
                }
            }
            assert(key_set(node) =~= key_set(n.left).union(key_set(n.right)).insert(n.value));
            lemma_key_set_finite(n.left);
            lemma_key_set_finite(n.right);
            assert(key_set(n.left).disjoint(key_set(n.right))) by {
                assert forall|k: i64|
                    !(key_set(n.left).contains(k) && key_set(n.right).contains(k)) by {}
            }
            vstd::set_lib::lemma_set_disjoint_lens(key_set(n.left), key_set(n.right));
            assert(!key_set(n.left).union(key_set(n.right)).contains(n.value));
            assert(key_set(node).len() == key_set(n.left).len() + key_set(n.right).len() + 1);
        }
    }
}

/// Inserting a key that is not yet present and then deleting that same
/// key restores the exact key set that existed before the insertion
/// (`insert` adds the key to the view and `delete` removes it again).
/// For a key that is already present this fails: the insertion is a
/// no-op, so the deletion removes the pre-existing key.
pub proof fn lemma_insert_then_delete_restores(s: Set<i64>, value: i64)
    requires
        !s.contains(value),
    ensures
        s.insert(value).remove(value) == s,
{
    assert(s.insert(value).remove(value) =~= s);
}

/// For every well-formed tree the in-order traversal is strictly
/// increasing and contains exactly the keys of the tree — so after any
/// sequence of inserts it lists the distinct inserted keys in ascending
/// order.
pub proof fn lemma_inorder_lists_keys(tree: RedBlackTree)
    requires
        tree.well_formed(),
    ensures
        forall|i: int, j: int|
            0 <= i < j < tree.inorder_spec().len() ==> tree.inorder_spec()[i]
                < tree.inorder_spec()[j],
        forall|k: i64| #[trigger] tree.inorder_spec().contains(k) <==> tree@.contains(k),
{
    lemma_inorder_sorted(tree.root);
}

impl View for RedBlackTree {
    type V = Set<i64>;

    open spec fn view(&self) -> Set<i64> {
        key_set(self.root)
    }
}

impl RedBlackTree {
    /// The full red-black invariant: ordering, colour rules and equal
    /// black counts, with a black root.
    pub open spec fn well_formed(&self) -> bool {
        rb_valid(self.root) && !node_is_red(self.root)
    }

    /// The keys in ascending order.
    pub open spec fn inorder_spec(&self) -> Seq<i64> {
        inorder_of(self.root)
    }

    /// An empty tree.
    pub fn new() -> (tree: Self)
        ensures
            tree.well_formed(),
            tree@ == Set::<i64>::empty(),
    {
        RedBlackTree { root: None }
    }

    /// Adds `value` to the key set; inserting a present key is a no-op
    /// and leaves the tree untouched.
    pub fn insert(&mut self, value: i64)
        requires
            old(self).well_formed(),
        ensures
            final(self).well_formed(),
            final(self)@ == old(self)@.insert(value),
            old(self)@.contains(value) ==> *final(self) == *old(self),
    {
        let root = self.root.take();
        let mut r = insert_node(root, value);
        let ghost pre = r;
        r.is_red = false;
        self.root = Some(r);
        proof {
            if key_set(old(self).root).contains(value) {
                assert(Some(pre) == old(self).root);
                assert(!pre.is_red);
            }
            assert(key_set(self.root) =~= key_set(old(self).root).insert(value));
        }
    }

    /// Removes `value` from the key set; deleting an absent key is a
    /// no-op and leaves the tree identical.
    pub fn delete(&mut self, value: i64)
        requires
            old(self).well_formed(),
        ensures
            final(self).well_formed(),
            final(self)@ == old(self)@.remove(value),
            !old(self)@.contains(value) ==> *final(self) == *old(self),
    {
        let root = self.root.take();
        let (r, _) = delete_node(root, value);
        match r {
            Some(mut b) => {
                let ghost b0 = b;
                b.is_red = false;
                self.root = Some(b);
                proof {
                    assert(key_set(self.root) =~= key_set(Some(b0)));
                    assert(ordered(self.root));
                    assert(no_red_red(self.root));
                    assert(balanced(self.root));
                    if !key_set(old(self).root).contains(value) {
                        assert(Some(b0) == old(self).root);
                        assert(!b0.is_red);
                    }
                }
            }
            None => {
                self.root = None;
            }
        }
    }

    /// True exactly when `value` is in the key set.
    pub fn search(&self, value: i64) -> (r: bool)
        requires
            self.well_formed(),
        ensures
            r == self@.contains(value),
    {
        search_node(&self.root, value)
    }

    /// The keys in ascending order: the sequence is strictly increasing
    /// and holds exactly the keys of the tree.
    pub fn inorder(&self) -> (r: Vec<i64>)
        requires
            self.well_formed(),
        ensures
            r@ == self.inorder_spec(),
            forall|i: int, j: int| 0 <= i < j < r@.len() ==> r@[i] < r@[j],
            forall|k: i64| #[trigger] r@.contains(k) <==> self@.contains(k),
    {
        let mut out: Vec<i64> = Vec::new();
        push_inorder(&self.root, &mut out);
        proof {
            lemma_inorder_sorted(self.root);
            assert(out@ =~= inorder_of(self.root));
        }
        out
    }
}

} // verus!

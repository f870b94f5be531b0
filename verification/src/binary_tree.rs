//! A plain binary tree of string-labelled nodes with traversal helpers.
//!
//! The traversals return the visited labels in order instead of writing
//! them out, so the visit order itself is what the contracts pin down.
//! `pretty_print` renders the tree with box-drawing connectors, one node
//! per line.

use vstd::prelude::*;
use vstd::string::StringExecFns;

verus! {

pub struct BinaryTreeNode {
    pub value: String,
    pub left: Option<Box<BinaryTreeNode>>,
    pub right: Option<Box<BinaryTreeNode>>,
}

/// Root, then left subtree, then right subtree.
pub open spec fn preorder_labels(node: Option<Box<BinaryTreeNode>>) -> Seq<Seq<char>>
    decreases node,
{
    match node {
        None => Seq::empty(),
        Some(n) => seq![n.value@] + preorder_labels(n.left) + preorder_labels(n.right),
    }
}

/// Right subtree, then root, then left subtree.
pub open spec fn inorder_labels(node: Option<Box<BinaryTreeNode>>) -> Seq<Seq<char>>
    decreases node,
{
    match node {
        None => Seq::empty(),
        Some(n) => inorder_labels(n.right) + seq![n.value@] + inorder_labels(n.left),
    }
}

/// Both subtrees in preorder (right first), then the root.
pub open spec fn postorder_labels(node: Option<Box<BinaryTreeNode>>) -> Seq<Seq<char>> {
    match node {
        None => Seq::empty(),
        Some(n) => preorder_labels(n.right) + preorder_labels(n.left) + seq![n.value@],
    }
}

/// The rendering of the subtrees under a node: each line starts with the
/// accumulated `prefix`, then a connector that tells a left child from a
/// right one, then the label.
pub open spec fn render_subtree(
    node: Option<Box<BinaryTreeNode>>,
    prefix: Seq<char>,
    is_left: bool,
) -> Seq<char>
    decreases node,
{
    match node {
        None => Seq::empty(),
        Some(n) => {
            let connector = if is_left {
                "\u{251c}\u{2500}\u{2500} "@
            } else {
                "\u{2514}\u{2500}\u{2500} "@
            };
            let deeper = prefix + (if is_left {
                "\u{2502}   "@
            } else {
                "    "@
            });
            prefix + connector + n.value@ + "\n"@ + render_subtree(n.left, deeper, true)
                + render_subtree(n.right, deeper, false)
        },
    }
}

/// Root-left-right order for a whole tree rooted at `root`.
pub open spec fn preorder_of(root: BinaryTreeNode) -> Seq<Seq<char>> {
    seq![root.value@] + preorder_labels(root.left) + preorder_labels(root.right)
}

/// Right-root-left order for a whole tree rooted at `root`.
pub open spec fn inorder_of(root: BinaryTreeNode) -> Seq<Seq<char>> {
    inorder_labels(root.right) + seq![root.value@] + inorder_labels(root.left)
}

/// Subtrees in preorder (right first), then the root, for a whole tree.
pub open spec fn postorder_of(root: BinaryTreeNode) -> Seq<Seq<char>> {
    preorder_labels(root.right) + preorder_labels(root.left) + seq![root.value@]
}

/// The whole rendering: the root label on its own line, then both subtrees.
pub open spec fn render_node_tree(root: BinaryTreeNode) -> Seq<char> {
    root.value@ + "\n"@ + render_subtree(root.left, Seq::empty(), true) + render_subtree(
        root.right,
        Seq::empty(),
        false,
    )
}

fn push_preorder(node: &Option<Box<BinaryTreeNode>>, out: &mut Vec<String>)
    ensures
        final(out).deep_view() == old(out).deep_view() + preorder_labels(*node),
    decreases *node,
{
    match node {
        None => {
            assert(final(out).deep_view() =~= old(out).deep_view() + preorder_labels(*node));
        }
        Some(boxed) => {
            let label = String::from_str(boxed.value.as_str());
            out.push(label);
            assert(out.deep_view() =~= old(out).deep_view() + seq![boxed.value@]);
            push_preorder(&boxed.left, out);
            push_preorder(&boxed.right, out);
            assert(final(out).deep_view() =~= old(out).deep_view() + preorder_labels(*node));
        }
    }
}

fn push_inorder(node: &Option<Box<BinaryTreeNode>>, out: &mut Vec<String>)
    ensures
        final(out).deep_view() == old(out).deep_view() + inorder_labels(*node),
    decreases *node,
{
    match node {
        None => {
            assert(final(out).deep_view() =~= old(out).deep_view() + inorder_labels(*node));
        }
        Some(boxed) => {
            push_inorder(&boxed.right, out);
            let ghost mid = out.deep_view();
            let label = String::from_str(boxed.value.as_str());
            out.push(label);
            assert(out.deep_view() =~= mid + seq![boxed.value@]);
            push_inorder(&boxed.left, out);
            assert(final(out).deep_view() =~= old(out).deep_view() + inorder_labels(*node));
        }
    }
}

fn render_pretty(node: &Option<Box<BinaryTreeNode>>, prefix: &String, is_left: bool, out: &mut String)
    ensures
        final(out)@ == old(out)@ + render_subtree(*node, prefix@, is_left),
    decreases *node,
{
    match node {
        None => {
            assert(final(out)@ =~= old(out)@ + render_subtree(*node, prefix@, is_left));
        }
        Some(boxed) => {
            out.append(prefix.as_str());
            if is_left {
                out.append("\u{251c}\u{2500}\u{2500} ");
            } else {
                out.append("\u{2514}\u{2500}\u{2500} ");
            }
            out.append(boxed.value.as_str());
            out.append("\n");
            let mut deeper = String::from_str(prefix.as_str());
            if is_left {
                deeper.append("\u{2502}   ");
            } else {
                deeper.append("    ");
            }
            render_pretty(&boxed.left, &deeper, true, out);
            render_pretty(&boxed.right, &deeper, false, out);
            assert(final(out)@ =~= old(out)@ + render_subtree(*node, prefix@, is_left));
        }
    }
}

impl BinaryTreeNode {
    /// A fresh leaf node labelled `value`.
    pub fn new(value: &str) -> (r: Self)
        ensures
            r.value@ == value@,
            r.left is None,
            r.right is None,
    {
        let final_value = String::from_str(value);
        BinaryTreeNode { value: final_value, left: None, right: None }
    }

    /// The labels in root-left-right order.
    pub fn preorder(&self) -> (r: Vec<String>)
        ensures
            r.deep_view() == preorder_of(*self),
    {
        let mut out: Vec<String> = Vec::new();
        let label = String::from_str(self.value.as_str());
        out.push(label);
        assert(out.deep_view() =~= seq![self.value@]);
        push_preorder(&self.left, &mut out);
        push_preorder(&self.right, &mut out);
        assert(out.deep_view() =~= preorder_of(*self));
        out
    }

    /// The labels in right-root-left order.
    pub fn inorder(&self) -> (r: Vec<String>)
        ensures
            r.deep_view() == inorder_of(*self),
    {
        let mut out: Vec<String> = Vec::new();
        push_inorder(&self.right, &mut out);
        let label = String::from_str(self.value.as_str());
        out.push(label);
        push_inorder(&self.left, &mut out);
        assert(out.deep_view() =~= inorder_of(*self));
        out
    }

    /// Both subtrees in preorder (right first), then the root label.
    pub fn postorder(&self) -> (r: Vec<String>)
        ensures
            r.deep_view() == postorder_of(*self),
    {
        let mut out: Vec<String> = Vec::new();
        push_preorder(&self.right, &mut out);
        push_preorder(&self.left, &mut out);
        let label = String::from_str(self.value.as_str());
        out.push(label);
        assert(out.deep_view() =~= postorder_of(*self));
        out
    }

    /// Renders the tree with box-drawing connectors, one node per line.
    pub fn pretty_print(&self) -> (r: String)
        ensures
            r@ == render_node_tree(*self),
    {
        let mut out = String::from_str(self.value.as_str());
        out.append("\n");
        let prefix = String::new();
        render_pretty(&self.left, &prefix, true, &mut out);
        render_pretty(&self.right, &prefix, false, &mut out);
        assert(out@ =~= render_node_tree(*self));
        out
    }
}

} // verus!

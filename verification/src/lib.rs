//! A family of hand-built, verified data structures.
//!
//! The centrepiece is the red-black tree: a self-balancing binary search
//! tree whose ordering invariant, colour invariants and black-height
//! balance are stated as specifications and proved to hold after every
//! operation.  Around it stand a set of independent baseline containers:
//! singly, doubly and circular linked lists, a stack, a growable array,
//! a plain binary search tree, a binary tree traversal helper and an
//! AVL tree.

pub mod avl_tree;
pub mod binary_search_tree;
pub mod binary_tree;
pub mod circular;
pub mod double;
pub mod red_black_tree;
pub mod seq_ops;
pub mod singular;
pub mod stack;
pub mod text;
pub mod vector;

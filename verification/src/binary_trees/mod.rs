//! Binary search trees.

pub mod avl;
pub mod bst;
pub mod tree;

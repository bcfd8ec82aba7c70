//! A self-balancing ordered container: an AVL-balanced binary search tree of
//! `usize` values, with logarithmic insertion, membership lookup, and ordered
//! full and range traversal. Duplicates are rejected on insertion, so the
//! container always holds a strictly ascending set of values.

pub mod iters;
pub mod seqs;
pub mod tree;

pub use crate::iters::IntoIter;
pub use crate::iters::RangeIter;
pub use crate::tree::AVLTree;
pub use crate::tree::Node;

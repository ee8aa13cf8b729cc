//! An array-backed binary search tree with key/value insertion, key lookup,
//! and in-order traversal via a resumable cursor.
//!
//! The tree stores its nodes in a flat, fixed-capacity array using implicit
//! heap-style indexing: the root sits at index 0, and a node at index `i` has
//! its left child at `2 * i + 1` and its right child at `2 * i + 2`.

pub mod bst;
pub mod order;

//! A self-balancing ordered container: a red-black tree over `i64` keys with
//! multiset semantics (inserting an existing key keeps both copies).
//!
//! The tree supports membership test, insertion, deletion and a consuming
//! in-order iterator. Every operation is verified to preserve the red-black
//! invariants: binary-search-tree order, no red node with a red child, equal
//! black-node counts on all root-to-leaf paths, and a black root.

pub mod tree;

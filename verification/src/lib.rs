//! An in-memory ordered index over `i32` keys, organized as a balanced
//! multi-way search tree (a B-tree) with a configurable branching factor.
//!
//! The index supports two operations: testing membership of a key
//! ([`tree::BTree::search`]) and inserting a key while preserving balance
//! ([`tree::BTree::insert`]). Insertion uses proactive splitting: a full
//! child is split before the descent continues into it, so a node that
//! receives a promoted key always has room for it.

pub mod laws;
pub mod node;
pub mod tree;

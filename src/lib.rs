//! An in-memory B-tree of order `S` mapping `u64` keys to values.
pub mod lemmas;
pub mod node;
pub mod tree;
pub mod laws;

pub use node::{KeyVal, Node};
pub use tree::BTree;

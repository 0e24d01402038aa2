//! A binary search tree of unique `i32` keys with insertion and membership
//! search.

pub mod lemmas;
pub mod link;
pub mod tree;

pub use link::{Link, Node};
pub use tree::BST;

//! A self-balancing (AVL) binary search tree over any totally ordered type.

pub mod balance;
pub mod insertion;
pub mod iter;
pub mod laws;
pub mod node;
pub mod ops;
pub mod order;
pub mod removal;
pub mod shape;
pub mod tree;

pub use crate::iter::{BSTConsumingIter, BSTRefIter};
pub use crate::node::Node;
pub use crate::tree::BST;

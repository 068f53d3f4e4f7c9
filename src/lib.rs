//! An implicit binary search tree kept in one flat, sorted array.
//!
//! Parent, child and sibling positions are computed from the binary form of an
//! index (its lowest set bit), so the tree stores no links at all. Slot 0 of
//! the container is reserved; the elements live in slots `1..length`, sorted
//! by key.
//!
//! The walkers branch on the move they make; no constant-time selection is
//! attempted. Every index computation is checked against overflow.

pub mod index;
pub mod node;
pub mod collection;
pub mod walker;
pub mod bst;
pub mod tree;
pub mod kv;
pub mod laws;

pub use index::{lsb, height, root, Direction, NodeSide, NodeType, IndexView, FenwickTreeError};
pub use node::{Keyed, NodeKV};
pub use collection::{Length, Height, IndexedCollection, IndexedCollectionMut, InsertableCollection, FixedVec};
pub use walker::{TreeWalker, VirtualTreeView, StatefulTreeView, StatefulTreeViewMut};
pub use bst::{BST, BSTWalker, BSTWalkerResult, BSTError, BSTSet, BSTMap, BSTSetConst, BSTMapConst};
pub use tree::{TreeRead, TreeReadMut, TreeWrite};
pub use kv::{TreeReadKV, TreeReadKVMut, TreeWriteKV};

//! The recursive realisation of the ordered tree map.

pub mod bstree;
pub mod node;

pub use bstree::BSTree;

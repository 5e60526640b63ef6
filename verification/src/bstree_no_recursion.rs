//! The iterative realisation of the ordered tree map: every operation
//! walks the tree with a loop, saving its path on an explicit stack or
//! queue instead of the call stack.

pub mod bstree;
pub mod node;

pub use bstree::BSTree;

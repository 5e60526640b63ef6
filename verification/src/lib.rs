//! An ordered key-value map backed by an unbalanced binary search tree.
//!
//! The map comes in two behaviourally identical realisations: a purely
//! recursive engine and an iterative engine that keeps its search path on
//! an explicit stack or queue.  Every operation of either engine promises
//! that the view of its result is the same [`model`] function of the view
//! of its input, so any sequence of operations leads both engines through
//! equal model states and to equal observable answers.
//!
//! The crate root re-exports the recursive engine; the iterative one is
//! reached as `bstree_no_recursion::BSTree`, under the identical
//! interface and contracts.

pub mod iterator;
pub mod model;

pub mod bstree_no_recursion;
pub mod bstree_recursion;

pub use bstree_recursion::BSTree;

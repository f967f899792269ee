//! Successor search over a fixed, sorted collection.
//!
//! An [`OrderedCollection`] keeps its elements in Eytzinger order, the
//! breadth-first layout of a complete binary search tree, and answers
//! "smallest element greater than or equal to `x`" with a branch-free walk
//! down that implicit tree.
pub mod collection;
pub mod layout;
pub mod order;
pub mod prefetch;
pub mod successor;
pub mod walk;

pub use collection::OrderedCollection;

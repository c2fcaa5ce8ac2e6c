//! A binary heap ordered by a comparator held as a value.
//!
//! The order is not fixed to `Ord`: a heap is built with a comparator, any value whose type
//! implements [`Compare`], and keeps it for life. [`Max`] and [`Min`] are the two comparators that
//! cover `Ord`. Every operation keeps every element exactly once whatever the comparator answers;
//! the ordering guarantees (the heap property, a greatest root, sorted output) hold whenever the
//! comparator is a total order in the sense of [`compare::is_total_order`].
mod buffer;
pub mod compare;
pub mod heap;
pub mod sorting;
pub mod tree;

pub use compare::{Compare, Max, Min};
pub use heap::{BinaryHeap, MaxHeap, MinHeap, PeekMut};

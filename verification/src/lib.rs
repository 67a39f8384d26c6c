//! A binary heap whose order is given by a comparator.
//!
//! [`Heap`] keeps its elements in an array laid out as a complete binary
//! tree, so that no element stands below one that its comparator puts
//! beneath it. [`MinHeap`] and [`MaxHeap`] are the two orderings of
//! elements that already have an order of their own.
pub mod comparator;
pub mod heap;
pub mod history;
pub mod layout;
pub mod natural;
pub mod slices;

pub use comparator::Comparator;
pub use heap::Heap;
pub use natural::{MaxHeap, MinHeap};

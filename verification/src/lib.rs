//! An array-backed binary heap (priority queue) whose ordering is a
//! pluggable comparison rule: one structure serves as a min-heap or a
//! max-heap depending on the `Priority` value it is built with.

pub mod heap;
pub mod order;

pub use heap::Heap;
pub use heap::MaxHeap;
pub use heap::MinHeap;
pub use order::MaxCmp;
pub use order::MinCmp;
pub use order::Priority;

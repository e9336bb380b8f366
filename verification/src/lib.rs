//! An array-backed binary heap parameterized by an ordering policy.
//!
//! The heap keeps a complete binary tree in a `Vec`, ordered so that no
//! element ever outranks its parent under the chosen [`Priority`] policy.
//! With the [`MinHeap`] policy the smallest element surfaces first; with
//! [`MaxHeap`], the largest. Insertion and extraction take logarithmic
//! time; repeated extraction drains the elements in sorted order, which
//! [`laws`] states and proves.

pub mod heap;
pub mod laws;
pub mod order;

pub use heap::Heap;
pub use order::MaxHeap;
pub use order::MinHeap;
pub use order::Priority;

//! Ordering policies: the pluggable comparison that decides which of two
//! elements must sit above the other in the heap.

use vstd::prelude::*;

use crate::heap::Heap;

verus! {

/// A comparison policy over `T`, fixed when a heap is constructed.
///
/// `outranks(a, b)` holds when `a` must sit above `b` in the tree: `a < b`
/// for a min-heap, `a > b` for a max-heap. The three lemmas ask of every
/// policy what they ask of those two, that the relation is a strict weak
/// order; the heap's guarantees are proved from them alone.
pub trait Priority<T>: Sized {
    /// Holds when `a` must sit above `b` in the heap.
    spec fn outranks(a: T, b: T) -> bool;

    /// The policy never ranks each of two values above the other.
    proof fn lemma_asymmetric(a: T, b: T)
        requires
            Self::outranks(a, b),
        ensures
            !Self::outranks(b, a),
    ;

    /// Outranking carries over intermediate values.
    proof fn lemma_transitive(a: T, b: T, c: T)
        requires
            Self::outranks(a, b),
            Self::outranks(b, c),
        ensures
            Self::outranks(a, c),
    ;

    /// "Does not outrank" carries over intermediate values as well.
    proof fn lemma_not_outranks_transitive(a: T, b: T, c: T)
        requires
            !Self::outranks(b, a),
            !Self::outranks(c, b),
        ensures
            !Self::outranks(c, a),
    ;

    /// Decides `Self::outranks` on two borrowed values.
    fn higher_priority(&self, a: &T, b: &T) -> (r: bool)
        ensures
            r == Self::outranks(*a, *b),
    ;
}

/// The policy that surfaces the smallest element first.
pub struct MinHeap;

/// The policy that surfaces the largest element first.
pub struct MaxHeap;

impl Priority<i32> for MinHeap {
    open spec fn outranks(a: i32, b: i32) -> bool {
        a < b
    }

    proof fn lemma_asymmetric(a: i32, b: i32) {
    }

    proof fn lemma_transitive(a: i32, b: i32, c: i32) {
    }

    proof fn lemma_not_outranks_transitive(a: i32, b: i32, c: i32) {
    }

    fn higher_priority(&self, a: &i32, b: &i32) -> (r: bool) {
        *a < *b
    }
}

impl Priority<i32> for MaxHeap {
    open spec fn outranks(a: i32, b: i32) -> bool {
        a > b
    }

    proof fn lemma_asymmetric(a: i32, b: i32) {
    }

    proof fn lemma_transitive(a: i32, b: i32, c: i32) {
    }

    proof fn lemma_not_outranks_transitive(a: i32, b: i32, c: i32) {
    }

    fn higher_priority(&self, a: &i32, b: &i32) -> (r: bool) {
        *a > *b
    }
}

impl Priority<u64> for MinHeap {
    open spec fn outranks(a: u64, b: u64) -> bool {
        a < b
    }

    proof fn lemma_asymmetric(a: u64, b: u64) {
    }

    proof fn lemma_transitive(a: u64, b: u64, c: u64) {
    }

    proof fn lemma_not_outranks_transitive(a: u64, b: u64, c: u64) {
    }

    fn higher_priority(&self, a: &u64, b: &u64) -> (r: bool) {
        *a < *b
    }
}

impl Priority<u64> for MaxHeap {
    open spec fn outranks(a: u64, b: u64) -> bool {
        a > b
    }

    proof fn lemma_asymmetric(a: u64, b: u64) {
    }

    proof fn lemma_transitive(a: u64, b: u64, c: u64) {
    }

    proof fn lemma_not_outranks_transitive(a: u64, b: u64, c: u64) {
    }

    fn higher_priority(&self, a: &u64, b: &u64) -> (r: bool) {
        *a > *b
    }
}

impl MinHeap {
    /// Creates a heap that hands out its smallest element first.
    pub fn new<T>() -> (h: Heap<T, MinHeap>) where MinHeap: Priority<T>
        ensures
            h.well_formed(),
            h@ == Seq::<T>::empty(),
    {
        Heap::new(MinHeap)
    }
}

impl MaxHeap {
    /// Creates a heap that hands out its largest element first.
    pub fn new<T>() -> (h: Heap<T, MaxHeap>) where MaxHeap: Priority<T>
        ensures
            h.well_formed(),
            h@ == Seq::<T>::empty(),
    {
        Heap::new(MaxHeap)
    }
}

} // verus!

use binheap::Heap;
use binheap::MaxHeap;
use binheap::MinHeap;

#[test]
fn test_empty_heap() {
    let mut heap = MaxHeap::new::<i32>();
    assert_eq!(heap.next(), None);
}

#[test]
fn test_min_heap() {
    let mut heap = MinHeap::new();
    heap.add(4);
    heap.add(2);
    heap.add(9);
    heap.add(11);
    assert_eq!(heap.len(), 4);
    assert_eq!(heap.next(), Some(2));
    assert_eq!(heap.next(), Some(4));
    assert_eq!(heap.next(), Some(9));
    heap.add(1);
    assert_eq!(heap.next(), Some(1));
}

#[test]
fn test_max_heap() {
    let mut heap = MaxHeap::new();
    heap.add(4);
    heap.add(2);
    heap.add(9);
    heap.add(11);
    assert_eq!(heap.len(), 4);
    assert_eq!(heap.next(), Some(11));
    assert_eq!(heap.next(), Some(9));
    assert_eq!(heap.next(), Some(4));
    heap.add(1);
    assert_eq!(heap.next(), Some(2));
}

#[test]
fn test_fresh_heap_is_empty() {
    let mut min = Heap::<i32, MinHeap>::new_min();
    assert!(min.is_empty());
    assert_eq!(min.len(), 0);
    assert_eq!(min.next(), None);
    let mut max = Heap::<i32, MaxHeap>::new_max();
    assert!(max.is_empty());
    assert_eq!(max.len(), 0);
    assert_eq!(max.next(), None);
}

#[test]
fn test_len_counts_adds_minus_removals() {
    let mut heap = Heap::new(MinHeap);
    assert_eq!(heap.len(), 0);
    heap.add(8);
    heap.add(3);
    assert_eq!(heap.len(), 2);
    assert_eq!(heap.next(), Some(3));
    assert_eq!(heap.len(), 1);
    heap.add(5);
    heap.add(5);
    assert_eq!(heap.len(), 3);
    assert_eq!(heap.next(), Some(5));
    assert_eq!(heap.next(), Some(5));
    assert_eq!(heap.next(), Some(8));
    assert_eq!(heap.len(), 0);
    // a "next" that finds no value leaves the length at 0
    assert_eq!(heap.next(), None);
    assert_eq!(heap.len(), 0);
}

#[test]
fn test_min_heap_full_drain_order() {
    let mut heap = MinHeap::new();
    heap.add(4);
    heap.add(2);
    heap.add(9);
    heap.add(11);
    assert_eq!(heap.len(), 4);
    assert_eq!(heap.next(), Some(2));
    assert_eq!(heap.next(), Some(4));
    assert_eq!(heap.next(), Some(9));
    assert_eq!(heap.next(), Some(11));
    heap.add(1);
    assert_eq!(heap.next(), Some(1));
}

#[test]
fn test_drain_sorts_ascending_for_min() {
    let mut heap = MinHeap::new();
    heap.add(10);
    heap.add(1);
    heap.add(7);
    heap.add(3);
    heap.add(9);
    assert_eq!(heap.drain(), vec![1, 3, 7, 9, 10]);
    assert!(heap.is_empty());
}

#[test]
fn test_drain_sorts_descending_for_max() {
    let mut heap = MaxHeap::new();
    heap.add(10);
    heap.add(1);
    heap.add(7);
    heap.add(3);
    heap.add(9);
    assert_eq!(heap.drain(), vec![10, 9, 7, 3, 1]);
    assert!(heap.is_empty());
}

#[test]
fn test_drain_keeps_duplicates() {
    let mut heap = MinHeap::new();
    heap.add(5);
    heap.add(3);
    heap.add(5);
    heap.add(3);
    assert_eq!(heap.drain(), vec![3, 3, 5, 5]);
}

#[test]
fn test_emptiness_is_idempotent() {
    let mut heap = MaxHeap::new();
    heap.add(6);
    heap.add(2);
    assert_eq!(heap.next(), Some(6));
    assert_eq!(heap.next(), Some(2));
    assert_eq!(heap.next(), None);
    assert_eq!(heap.next(), None);
    assert_eq!(heap.len(), 0);
    assert!(heap.is_empty());
}

#[test]
fn test_single_element_round_trip() {
    let mut heap = MinHeap::new();
    heap.add(42);
    assert_eq!(heap.next(), Some(42));
    assert_eq!(heap.next(), None);
}

#[test]
fn test_negative_values_min_heap() {
    let mut heap = MinHeap::new();
    heap.add(-3);
    heap.add(4);
    heap.add(-8);
    heap.add(0);
    assert_eq!(heap.drain(), vec![-8, -3, 0, 4]);
}

#[test]
fn test_u64_min_heap() {
    let mut heap = MinHeap::new::<u64>();
    heap.add(u64::MAX);
    heap.add(0);
    heap.add(17);
    assert_eq!(heap.next(), Some(0));
    assert_eq!(heap.next(), Some(17));
    assert_eq!(heap.next(), Some(u64::MAX));
    assert_eq!(heap.next(), None);
}

#[test]
fn test_u64_max_heap() {
    let mut heap = MaxHeap::new::<u64>();
    heap.add(u64::MAX);
    heap.add(0);
    heap.add(17);
    assert_eq!(heap.drain(), vec![u64::MAX, 17, 0]);
}

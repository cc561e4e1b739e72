use algorithms::heap::{Heap, MaxHeap, MinHeap, Order};

#[test]
fn test_empty_heap() {
    let mut heap = MaxHeap::new::<i32>();
    assert_eq!(heap.next(), None);
}

#[test]
fn test_min_heap() {
    let mut heap = MinHeap::new();
    heap.add(4);
    heap.add(2);
    heap.add(9);
    heap.add(11);
    assert_eq!(heap.len(), 4);
    assert_eq!(heap.next(), Some(2));
    assert_eq!(heap.next(), Some(4));
    assert_eq!(heap.next(), Some(9));
    heap.add(1);
    assert_eq!(heap.next(), Some(1));
}

#[test]
fn test_max_heap() {
    let mut heap = MaxHeap::new();
    heap.add(4);
    heap.add(2);
    heap.add(9);
    heap.add(11);
    assert_eq!(heap.len(), 4);
    assert_eq!(heap.next(), Some(11));
    assert_eq!(heap.next(), Some(9));
    assert_eq!(heap.next(), Some(4));
    heap.add(1);
    assert_eq!(heap.next(), Some(2));
}

#[test]
fn heap_drains_in_order_with_duplicates() {
    let mut heap = Heap::<i64>::new_min();
    for v in [5, -3, 5, 0, 12, -3, 7, 1] {
        heap.add(v);
    }
    let mut out = Vec::new();
    while let Some(v) = heap.next() {
        out.push(v);
    }
    assert_eq!(out, vec![-3, -3, 0, 1, 5, 5, 7, 12]);
    assert!(heap.is_empty());
    assert_eq!(heap.next(), None);
}

#[test]
fn heap_max_by_constructor() {
    let mut heap = Heap::<u64>::new(Order::Max);
    assert!(heap.is_empty());
    for v in [3u64, 30, 10, 20] {
        heap.add(v);
    }
    assert!(!heap.is_empty());
    assert_eq!(heap.next(), Some(30));
    assert_eq!(heap.next(), Some(20));
    assert_eq!(heap.len(), 2);
    let mut max = Heap::<u32>::new_max();
    max.add(1);
    max.add(2);
    assert_eq!(max.next(), Some(2));
}

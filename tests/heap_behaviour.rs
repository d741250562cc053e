use heap_queue::{Comparator, Heap, MaxHeap, MinHeap};

#[test]
fn test_empty_heap() {
    let mut heap = MaxHeap::new::<i32>();
    assert_eq!(heap.next(), None);
}

#[test]
fn test_min_heap() {
    let mut heap = MinHeap::new();
    heap.add(4);
    heap.add(2);
    heap.add(9);
    heap.add(11);
    assert_eq!(heap.len(), 4);
    assert_eq!(heap.next(), Some(2));
    assert_eq!(heap.next(), Some(4));
    assert_eq!(heap.next(), Some(9));
    heap.add(1);
    assert_eq!(heap.next(), Some(1));
}

#[test]
fn test_max_heap() {
    let mut heap = MaxHeap::new();
    heap.add(4);
    heap.add(2);
    heap.add(9);
    heap.add(11);
    assert_eq!(heap.len(), 4);
    assert_eq!(heap.next(), Some(11));
    assert_eq!(heap.next(), Some(9));
    assert_eq!(heap.next(), Some(4));
    heap.add(1);
    assert_eq!(heap.next(), Some(2));
}

fn drain<T, C: Comparator<T>>(heap: &mut Heap<T, C>) -> Vec<T> {
    let mut out = Vec::new();
    while let Some(x) = heap.next() {
        out.push(x);
    }
    out
}

#[test]
fn min_heap_drains_in_ascending_order() {
    let values = [5i64, -3, 17, 0, 5, 42, -8, 9, 1, 1, 100, -50];
    let mut heap = Heap::new_min();
    for v in values {
        heap.add(v);
    }
    assert_eq!(heap.len(), values.len());
    let mut expected = values.to_vec();
    expected.sort();
    assert_eq!(drain(&mut heap), expected);
    assert!(heap.is_empty());
}

#[test]
fn max_heap_drains_in_descending_order() {
    let values = [5u32, 3, 17, 0, 5, 42, 8, 9, 1, 1, 100, 50, 7];
    let mut heap = Heap::new_max();
    for v in values {
        heap.add(v);
    }
    let mut expected = values.to_vec();
    expected.sort();
    expected.reverse();
    assert_eq!(drain(&mut heap), expected);
}

#[test]
fn len_counts_adds_minus_consumptions() {
    let mut heap = MinHeap::new::<i32>();
    assert_eq!(heap.len(), 0);
    assert!(heap.is_empty());
    heap.add(3);
    heap.add(3);
    heap.add(1);
    assert_eq!(heap.len(), 3);
    assert!(!heap.is_empty());
    assert_eq!(heap.next(), Some(1));
    assert_eq!(heap.len(), 2);
    assert_eq!(heap.next(), Some(3));
    assert_eq!(heap.next(), Some(3));
    assert_eq!(heap.len(), 0);
    assert!(heap.is_empty());
}

#[test]
fn exhausted_heap_stays_exhausted() {
    let mut heap = MinHeap::new::<i32>();
    assert_eq!(heap.next(), None);
    assert_eq!(heap.next(), None);
    heap.add(7);
    assert_eq!(heap.next(), Some(7));
    assert_eq!(heap.next(), None);
    assert_eq!(heap.next(), None);
    assert_eq!(heap.len(), 0);
}

#[test]
fn interleaved_adds_yield_current_top() {
    let mut heap = MaxHeap::new::<i32>();
    heap.add(10);
    heap.add(20);
    assert_eq!(heap.next(), Some(20));
    heap.add(15);
    heap.add(5);
    assert_eq!(heap.next(), Some(15));
    heap.add(30);
    assert_eq!(heap.next(), Some(30));
    assert_eq!(heap.next(), Some(10));
    heap.add(-1);
    assert_eq!(heap.next(), Some(5));
    assert_eq!(heap.next(), Some(-1));
    assert_eq!(heap.next(), None);
}

#[test]
fn equal_priorities_all_come_out() {
    let mut heap = MinHeap::new::<u8>();
    for _ in 0..6 {
        heap.add(4);
    }
    heap.add(2);
    assert_eq!(drain(&mut heap), vec![2, 4, 4, 4, 4, 4, 4]);
}

#[test]
fn custom_comparator_through_new() {
    let mut heap = Heap::new(MaxHeap);
    heap.add((1u8, 9u8));
    heap.add((3u8, 0u8));
    heap.add((3u8, 1u8));
    assert_eq!(heap.next(), Some((3, 1)));
    assert_eq!(heap.next(), Some((3, 0)));
    assert_eq!(heap.next(), Some((1, 9)));
    assert_eq!(heap.next(), None);
}

#[test]
fn single_element_round_trip() {
    let mut heap = Heap::new_max();
    heap.add(i64::MIN);
    assert_eq!(heap.len(), 1);
    assert_eq!(heap.next(), Some(i64::MIN));
    assert!(heap.is_empty());
}

#[test]
fn comparator_rules_rank_values() {
    assert!(MinHeap.outranks(&1i32, &2i32));
    assert!(!MinHeap.outranks(&2i32, &2i32));
    assert!(MaxHeap.outranks(&2i32, &1i32));
    assert!(!MaxHeap.outranks(&1i32, &2i32));
}

use eight_puzzle::min_heap::MinHeap;

#[test]
fn new_heap_is_empty() {
    let mut heap: MinHeap<u8> = MinHeap::new();
    assert!(heap.is_empty());
    assert_eq!(heap.pop(), None);
    assert!(heap.is_empty());
}

#[test]
fn pop_returns_items_by_rising_priority() {
    let mut heap: MinHeap<char> = MinHeap::new();
    heap.insert('d', 40);
    heap.insert('b', 20);
    heap.insert('e', 50);
    heap.insert('a', 10);
    heap.insert('c', 30);
    assert!(!heap.is_empty());
    assert_eq!(heap.pop(), Some('a'));
    assert_eq!(heap.pop(), Some('b'));
    assert_eq!(heap.pop(), Some('c'));
    assert_eq!(heap.pop(), Some('d'));
    assert_eq!(heap.pop(), Some('e'));
    assert_eq!(heap.pop(), None);
}

#[test]
fn insert_keeps_earlier_entries_of_the_same_item() {
    let mut heap: MinHeap<u32> = MinHeap::new();
    heap.insert(7, 9);
    heap.insert(7, 3);
    heap.insert(8, 5);
    heap.insert(7, 1);
    let mut popped = Vec::new();
    while !heap.is_empty() {
        popped.push(heap.pop().unwrap());
    }
    assert_eq!(popped, vec![7, 7, 8, 7]);
}

#[test]
fn pop_orders_many_entries() {
    let mut heap: MinHeap<u32> = MinHeap::new();
    let mut x: u32 = 12345;
    for _ in 0..500 {
        x = x.wrapping_mul(1103515245).wrapping_add(12345);
        let priority = (x >> 8) % 1000;
        heap.insert(priority, priority);
    }
    let mut last = 0;
    let mut count = 0;
    while let Some(priority) = heap.pop() {
        assert!(last <= priority);
        last = priority;
        count += 1;
    }
    assert_eq!(count, 500);
}

#[test]
fn equal_priorities_all_come_out() {
    let mut heap: MinHeap<u8> = MinHeap::new();
    heap.insert(1, 0);
    heap.insert(2, 0);
    heap.insert(3, 0);
    let mut popped = vec![heap.pop().unwrap(), heap.pop().unwrap(), heap.pop().unwrap()];
    popped.sort();
    assert_eq!(popped, vec![1, 2, 3]);
    assert!(heap.is_empty());
}

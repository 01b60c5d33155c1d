use a_star::priority_queue::{MinHeap, PriorityQueue};

#[test]
fn test_priority_queue() {
    // Create a new Priority Queue
    let mut priority_queue = PriorityQueue::<u32>::new();

    // Push multiple values into the priority queue
    priority_queue.push(1);
    priority_queue.push(2);
    priority_queue.push(3);
    priority_queue.push(4);
    priority_queue.push(10);
    priority_queue.push(9);
    priority_queue.push(6);
    priority_queue.push(5);

    // Pop elements one by one and check that they come out in ascending order
    assert_eq!(priority_queue.pop(), Some(1)); // smallest element
    assert_eq!(priority_queue.pop(), Some(2));
    assert_eq!(priority_queue.pop(), Some(3));
    assert_eq!(priority_queue.pop(), Some(4));

    // Check length after some pops
    assert_eq!(priority_queue.len(), 4);

    // Continue popping
    assert_eq!(priority_queue.pop(), Some(5));
    assert_eq!(priority_queue.pop(), Some(6));

    // Length should now be 2
    assert_eq!(priority_queue.len(), 2);

    // Pop remaining elements
    assert_eq!(priority_queue.pop(), Some(9));
    assert_eq!(priority_queue.pop(), Some(10));

    // The queue should now be empty
    assert_eq!(priority_queue.is_empty(), true);
}

#[test]
fn test_min_heap() {
    // Create a new Min-Heap
    let mut min_heap = MinHeap::<u32>::new();

    // Push multiple values into the min-heap
    min_heap.push(1);
    min_heap.push(2);
    min_heap.push(3);
    min_heap.push(4);
    min_heap.push(10);
    min_heap.push(9);
    min_heap.push(6);
    min_heap.push(5);

    // Pop elements one by one and check that they come out in ascending order
    assert_eq!(min_heap.pop(), Some(1));
    assert_eq!(min_heap.pop(), Some(2));
    assert_eq!(min_heap.pop(), Some(3));
    assert_eq!(min_heap.pop(), Some(4));

    // Check length after some pops
    assert_eq!(min_heap.len(), 4);

    // Continue popping
    assert_eq!(min_heap.pop(), Some(5));
    assert_eq!(min_heap.pop(), Some(6));

    // Length should now be 2
    assert_eq!(min_heap.len(), 2);

    // Pop remaining elements
    assert_eq!(min_heap.pop(), Some(9));
    assert_eq!(min_heap.pop(), Some(10));

    // The heap should now be empty
    assert_eq!(min_heap.is_empty(), true);
}

#[test]
fn test_heap_sorted_drain() {
    // repeated pops yield a non-decreasing sequence, whatever the push order
    let mut heap = MinHeap::<u32>::new();
    for v in [41, 7, 7, 99, 0, 23, 7, 55, 12, 3] {
        heap.push(v);
    }
    assert_eq!(heap.len(), 10);
    let mut drained = Vec::new();
    while let Some(v) = heap.pop() {
        drained.push(v);
    }
    assert_eq!(drained, vec![0, 3, 7, 7, 7, 12, 23, 41, 55, 99]);
    assert_eq!(heap.pop(), None);
}

#[test]
fn test_heap_peek() {
    let mut heap = MinHeap::<u32>::new();
    assert!(heap.peek().is_none());
    heap.push(8);
    heap.push(2);
    heap.push(5);
    assert_eq!(heap.peek(), Some(&2));
    // peeking does not remove the minimum
    assert_eq!(heap.len(), 3);
    assert_eq!(heap.pop(), Some(2));
    assert_eq!(heap.peek(), Some(&5));

    let mut queue = PriorityQueue::<u32>::new();
    assert!(queue.peek().is_none());
    queue.push(4);
    queue.push(9);
    assert_eq!(queue.peek(), Some(&4));
}

use tcplb::waiter::WaiterQueue;

#[test]
fn enqueue_respects_the_bound() {
    let mut q = WaiterQueue::new(2);
    assert!(q.enqueue(10));
    assert!(q.enqueue(11));
    assert!(!q.enqueue(12), "a full queue rejects the waiter");
    assert_eq!(q.len(), 2);
}

#[test]
fn dequeue_is_fifo() {
    let mut q = WaiterQueue::new(4);
    for w in [5u64, 6, 7] {
        assert!(q.enqueue(w));
    }
    assert_eq!(q.dequeue(), Some(5));
    assert_eq!(q.dequeue(), Some(6));
    assert!(q.enqueue(8));
    assert_eq!(q.dequeue(), Some(7));
    assert_eq!(q.dequeue(), Some(8));
    assert_eq!(q.dequeue(), None);
}

#[test]
fn drain_hands_out_the_oldest_first() {
    let mut q = WaiterQueue::new(8);
    for w in 1..=5u64 {
        assert!(q.enqueue(w));
    }
    assert_eq!(q.drain(3), vec![1, 2, 3]);
    assert_eq!(q.drain(10), vec![4, 5]);
    assert_eq!(q.drain(1), Vec::<u64>::new());
}

#[test]
fn cancel_removes_one_occurrence() {
    let mut q = WaiterQueue::new(8);
    for w in [1u64, 2, 3] {
        assert!(q.enqueue(w));
    }
    assert!(q.cancel(2));
    assert!(!q.cancel(2));
    assert_eq!(q.drain(8), vec![1, 3]);
}

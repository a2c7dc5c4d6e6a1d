use containers::queue::Queue;

#[test]
fn test_enqueue_element() {
    let mut q: Queue<i32> = Queue::new();
    q.enqueue(2);
    assert_eq!(q.is_empty(), false);
}

#[test]
fn test_enqueue_and_dequeue_element() {
    let mut q: Queue<i32> = Queue::new();
    q.enqueue(2);
    q.enqueue(20);
    q.enqueue(2000);
    assert_eq!(q.is_empty(), false);
    assert_eq!(q.dequeue(), Some(2));
    assert_eq!(q.dequeue(), Some(20));
    assert_eq!(q.dequeue(), Some(2000));
    for _ in 0..1_000 {
        q.enqueue(4000);
    }
    for _ in 0..1_000 {
        assert_eq!(q.dequeue(), Some(4000));
    }
    assert_eq!(q.dequeue(), None);
}

#[test]
fn test_dequeue_empty_queue() {
    let mut q: Queue<i32> = Queue::new();
    assert_eq!(q.dequeue(), None);
}

#[test]
fn queue_is_empty_again_after_draining() {
    let mut q: Queue<i32> = Queue::new();
    assert!(q.is_empty());
    q.enqueue(7);
    assert_eq!(q.dequeue(), Some(7));
    assert!(q.is_empty());
    assert_eq!(q.dequeue(), None);
    assert!(q.is_empty());
}

#[test]
fn queue_keeps_order_across_compaction() {
    let mut q: Queue<u32> = Queue::new();
    for i in 0..2_500u32 {
        q.enqueue(i);
    }
    for i in 0..1_200u32 {
        assert_eq!(q.dequeue(), Some(i));
    }
    q.enqueue(9_999);
    for i in 1_200..2_500u32 {
        assert_eq!(q.dequeue(), Some(i));
    }
    assert_eq!(q.dequeue(), Some(9_999));
    assert_eq!(q.dequeue(), None);
}

use kernel_core::queue::HandoffQueue;
use kernel_core::queue::QueueEmpty;
use kernel_core::queue::QueueFull;

#[test]
fn new_queue_is_empty() {
    let mut queue = HandoffQueue::new(4);
    assert_eq!(queue.capacity(), 4);
    assert_eq!(queue.len(), 0);
    assert!(queue.is_empty());
    assert!(!queue.is_full());
    assert_eq!(queue.pop(), Err(QueueEmpty));
}

#[test]
fn queue_accepts_exactly_its_capacity() {
    for capacity in [1usize, 2, 7, 100] {
        let mut queue = HandoffQueue::new(capacity);
        for i in 0..capacity {
            assert_eq!(queue.push(1000 + i as u64), Ok(()));
            assert_eq!(queue.len(), i + 1);
        }
        assert!(queue.is_full());
        assert_eq!(queue.push(7), Err(QueueFull(7)));
        assert_eq!(queue.len(), capacity);
        for i in 0..capacity {
            assert_eq!(queue.pop(), Ok(1000 + i as u64));
        }
        assert_eq!(queue.pop(), Err(QueueEmpty));
        assert!(queue.is_empty());
    }
}

#[test]
fn queue_is_first_in_first_out() {
    let mut queue = HandoffQueue::new(3);
    assert_eq!(queue.push(10), Ok(()));
    assert_eq!(queue.push(20), Ok(()));
    assert_eq!(queue.pop(), Ok(10));
    assert_eq!(queue.push(30), Ok(()));
    assert_eq!(queue.push(40), Ok(()));
    assert_eq!(queue.push(50), Err(QueueFull(50)));
    assert_eq!(queue.pop(), Ok(20));
    assert_eq!(queue.pop(), Ok(30));
    assert_eq!(queue.pop(), Ok(40));
    assert_eq!(queue.pop(), Err(QueueEmpty));
}

#[test]
fn rejected_push_leaves_the_queue_as_it_is() {
    let mut queue = HandoffQueue::new(1);
    assert_eq!(queue.push(5), Ok(()));
    assert_eq!(queue.push(6), Err(QueueFull(6)));
    assert_eq!(queue.push(7), Err(QueueFull(7)));
    assert_eq!(queue.len(), 1);
    assert_eq!(queue.pop(), Ok(5));
    assert_eq!(queue.push(8), Ok(()));
    assert_eq!(queue.pop(), Ok(8));
}

#[test]
fn queue_wraps_around_many_times() {
    let mut queue = HandoffQueue::new(3);
    for i in 0..100u64 {
        assert_eq!(queue.push(i), Ok(()));
        assert_eq!(queue.push(i + 1000), Ok(()));
        assert_eq!(queue.pop(), Ok(i));
        assert_eq!(queue.pop(), Ok(i + 1000));
    }
    assert!(queue.is_empty());
    assert_eq!(queue.capacity(), 3);
}

use injection_sim::depth_queue::DepthOrderedQueue;

/// Encodes a physical depth as the queue's total-order key: the usual
/// order-preserving map from IEEE doubles to unsigned integers.
fn depth_key(d: f64) -> u64 {
    let bits = d.to_bits();
    if bits & (1u64 << 63) == 0 {
        bits | (1u64 << 63)
    } else {
        !bits
    }
}

#[test]
fn test_queue_ordering() {
    let mut queue = DepthOrderedQueue::new();
    queue.push(depth_key(3.0), 30, 0, 0);
    queue.push(depth_key(1.0), 10, 0, 0);
    queue.push(depth_key(1.0), 11, 0, 0);
    queue.push(depth_key(2.0), 20, 0, 0);

    // the 1.0-depth cells first, in push order, then 2.0, then 3.0
    assert_eq!(queue.pop(), Some((10, 0, 0)));
    assert_eq!(queue.pop(), Some((11, 0, 0)));
    assert_eq!(queue.pop(), Some((20, 0, 0)));
    assert_eq!(queue.pop(), Some((30, 0, 0)));
    assert_eq!(queue.pop(), None);
}

#[test]
fn test_queue_len_and_duplicates() {
    let mut queue = DepthOrderedQueue::new();
    assert!(queue.is_empty());
    queue.push(depth_key(5.0), 1, 2, 3);
    queue.push(depth_key(5.0), 1, 2, 3);
    assert_eq!(queue.len(), 2);
    assert_eq!(queue.pop(), Some((1, 2, 3)));
    assert_eq!(queue.pop(), Some((1, 2, 3)));
    assert!(queue.is_empty());
}

#[test]
fn test_queue_negative_depths_order() {
    let mut queue = DepthOrderedQueue::new();
    queue.push(depth_key(0.5), 1, 0, 0);
    queue.push(depth_key(-1.5), 2, 0, 0);
    queue.push(depth_key(0.0), 3, 0, 0);
    assert_eq!(queue.pop(), Some((2, 0, 0)));
    assert_eq!(queue.pop(), Some((3, 0, 0)));
    assert_eq!(queue.pop(), Some((1, 0, 0)));
}

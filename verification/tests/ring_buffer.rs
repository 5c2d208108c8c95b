use foldback::ring_buffer::RingBuffer;

#[test]
fn capacity_zero_stays_empty() {
    let mut rb = RingBuffer::new(0);
    for i in 0..10 {
        rb.push(i);
    }
    assert_eq!(rb.len(), 0);
    assert!(rb.is_empty());
}

#[test]
fn capacity_one_keeps_only_latest() {
    let mut rb = RingBuffer::new(1);
    rb.push(1);
    rb.push(2);
    rb.push(3);
    assert_eq!(rb.len(), 1);
    assert_eq!(rb.iter().copied().collect::<Vec<_>>(), vec![3]);
}

#[test]
fn wraparound_evicts_oldest_first() {
    let mut rb = RingBuffer::new(3);
    for i in 1..=5 {
        rb.push(i);
    }
    assert_eq!(rb.len(), 3);
    assert_eq!(rb.iter().copied().collect::<Vec<_>>(), vec![3, 4, 5]);
}

#[test]
fn under_capacity_keeps_everything() {
    let mut rb = RingBuffer::new(10);
    rb.push(1);
    rb.push(2);
    assert_eq!(rb.iter().copied().collect::<Vec<_>>(), vec![1, 2]);
}

#[test]
fn retention_never_exceeds_capacity() {
    for capacity in 0usize..12 {
        let mut rb = RingBuffer::new(capacity);
        for p in 0..40i32 {
            rb.push(p);
            assert!(rb.len() <= capacity);
            assert_eq!(rb.capacity(), capacity);
        }
    }
}

#[test]
fn back_is_the_latest_retained_item() {
    let mut rb = RingBuffer::new(2);
    assert_eq!(rb.back(), None);
    rb.push(7);
    rb.push(8);
    rb.push(9);
    assert_eq!(rb.back(), Some(&9));
    let mut empty = RingBuffer::new(0);
    empty.push(1);
    assert_eq!(empty.back(), None);
}

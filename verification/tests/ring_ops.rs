use circularbuffer::CircularBuffer;
use circularbuffer::RingError;

fn contents(buffer: &CircularBuffer<i32>) -> Vec<i32> {
    buffer.iter().into_iter().map(|r| *r).collect()
}

#[test]
fn new_buffer_is_empty() {
    let buffer: CircularBuffer<i32> = CircularBuffer::new(4);
    assert!(buffer.is_empty());
    assert!(!buffer.is_full());
    assert_eq!(buffer.len(), 0);
    assert_eq!(buffer.capacity(), 4);
    assert_eq!(contents(&buffer), Vec::<i32>::new());
}

#[test]
fn pop_returns_elements_in_push_order() {
    let mut buffer = CircularBuffer::new(5);
    buffer.push(1);
    buffer.push(2);
    buffer.push(3);
    assert_eq!(buffer.pop(), Some(1));
    assert_eq!(buffer.pop(), Some(2));
    assert_eq!(buffer.pop(), Some(3));
    assert_eq!(buffer.pop(), None);
}

#[test]
fn fifo_order_survives_wrapping() {
    let mut buffer = CircularBuffer::new(3);
    buffer.push(1);
    buffer.push(2);
    assert_eq!(buffer.pop(), Some(1));
    buffer.push(3);
    buffer.push(4);
    assert_eq!(contents(&buffer), vec![2, 3, 4]);
    assert_eq!(buffer.pop(), Some(2));
    assert_eq!(buffer.pop(), Some(3));
    assert_eq!(buffer.pop(), Some(4));
    assert_eq!(buffer.pop(), None);
}

#[test]
fn push_into_full_buffer_evicts_oldest() {
    let mut buffer = CircularBuffer::new(3);
    buffer.push(10);
    buffer.push(20);
    buffer.push(30);
    assert!(buffer.is_full());
    buffer.push(40);
    assert_eq!(buffer.len(), 3);
    assert!(!buffer.contains(&10));
    assert_eq!(contents(&buffer), vec![20, 30, 40]);
}

#[test]
fn capacity_one_keeps_only_newest() {
    let mut buffer = CircularBuffer::new(1);
    buffer.push(7);
    buffer.push(8);
    assert_eq!(buffer.len(), 1);
    assert_eq!(buffer.peek(), Some(&8));
    assert_eq!(buffer.pop(), Some(8));
    assert_eq!(buffer.pop(), None);
}

#[test]
fn len_never_exceeds_capacity() {
    let mut buffer = CircularBuffer::new(3);
    for x in 0..10 {
        buffer.push(x);
        assert!(buffer.len() <= buffer.capacity());
        assert!(!(buffer.is_empty() && buffer.is_full()));
    }
}

#[test]
fn resize_grow_preserves_order() {
    let mut buffer = CircularBuffer::new(3);
    buffer.push(1);
    buffer.push(2);
    buffer.push(3);
    buffer.push(4);
    assert_eq!(contents(&buffer), vec![2, 3, 4]);
    assert_eq!(buffer.resize(6), Ok(()));
    assert_eq!(buffer.capacity(), 6);
    assert_eq!(buffer.len(), 3);
    assert_eq!(buffer.pop(), Some(2));
    assert_eq!(buffer.pop(), Some(3));
    assert_eq!(buffer.pop(), Some(4));
    assert_eq!(buffer.pop(), None);
}

#[test]
fn resize_to_zero_is_rejected_and_state_kept() {
    let mut buffer = CircularBuffer::new(2);
    buffer.push(5);
    assert_eq!(buffer.resize(0), Err(RingError::InvalidCapacity));
    assert_eq!(buffer.capacity(), 2);
    assert_eq!(contents(&buffer), vec![5]);
}

#[test]
fn resize_smaller_keeps_newest() {
    let mut buffer = CircularBuffer::new(5);
    for x in 1..=5 {
        buffer.push(x);
    }
    assert_eq!(buffer.resize(2), Ok(()));
    assert_eq!(buffer.capacity(), 2);
    assert_eq!(contents(&buffer), vec![4, 5]);
}

#[test]
fn clear_empties_and_pop_returns_none() {
    let mut buffer = CircularBuffer::new(4);
    buffer.push(1);
    buffer.push(2);
    buffer.clear();
    assert!(buffer.is_empty());
    assert_eq!(buffer.capacity(), 4);
    assert_eq!(buffer.pop(), None);
}

#[test]
fn contains_after_push() {
    let mut buffer = CircularBuffer::new(3);
    buffer.push(42);
    assert!(buffer.contains(&42));
    assert!(!buffer.contains(&7));
    buffer.push(7);
    assert!(buffer.contains(&7));
}

#[test]
fn contains_sees_only_present_elements() {
    let mut buffer = CircularBuffer::new(3);
    buffer.push(1);
    buffer.push(2);
    assert_eq!(buffer.pop(), Some(1));
    assert!(!buffer.contains(&1));
    assert!(buffer.contains(&2));
}

#[test]
fn peek_reads_oldest_without_removing() {
    let mut buffer = CircularBuffer::new(3);
    assert_eq!(buffer.peek(), None);
    buffer.push(9);
    buffer.push(11);
    assert_eq!(buffer.peek(), Some(&9));
    assert_eq!(buffer.len(), 2);
    assert_eq!(buffer.pop(), Some(9));
    assert_eq!(buffer.peek(), Some(&11));
}

#[test]
fn shrink_to_fit_matches_length() {
    let mut buffer = CircularBuffer::new(8);
    buffer.push(1);
    buffer.push(2);
    buffer.push(3);
    buffer.shrink_to_fit();
    assert_eq!(buffer.capacity(), 3);
    assert!(buffer.is_full());
    assert_eq!(contents(&buffer), vec![1, 2, 3]);
    assert_eq!(buffer.pop(), Some(1));
}

#[test]
fn shrink_to_fit_on_full_buffer_is_noop() {
    let mut buffer = CircularBuffer::new(2);
    buffer.push(1);
    buffer.push(2);
    buffer.shrink_to_fit();
    assert_eq!(buffer.capacity(), 2);
    assert_eq!(contents(&buffer), vec![1, 2]);
}

#[test]
fn shrink_to_fit_on_empty_buffer_leaves_one_slot() {
    let mut buffer: CircularBuffer<i32> = CircularBuffer::new(6);
    buffer.shrink_to_fit();
    assert_eq!(buffer.capacity(), 1);
    assert!(buffer.is_empty());
    buffer.push(5);
    assert_eq!(buffer.pop(), Some(5));
}

#[test]
fn iter_yields_oldest_to_newest_after_wrap() {
    let mut buffer = CircularBuffer::new(4);
    for x in 1..=6 {
        buffer.push(x);
    }
    let seen: Vec<i32> = buffer.iter().into_iter().map(|r| *r).collect();
    assert_eq!(seen, vec![3, 4, 5, 6]);
}

#[test]
fn full_scenario_capacity_five() {
    let mut buffer = CircularBuffer::new(5);
    buffer.push(10);
    buffer.push(20);
    buffer.push(30);
    assert_eq!(contents(&buffer), vec![10, 20, 30]);
    buffer.push(40);
    buffer.push(50);
    assert_eq!(contents(&buffer), vec![10, 20, 30, 40, 50]);
    buffer.push(60);
    assert_eq!(contents(&buffer), vec![20, 30, 40, 50, 60]);
    assert_eq!(buffer.pop(), Some(20));
    assert_eq!(contents(&buffer), vec![30, 40, 50, 60]);
    assert_eq!(buffer.resize(7), Ok(()));
    assert_eq!(contents(&buffer), vec![30, 40, 50, 60]);
    assert_eq!(buffer.capacity(), 7);
    assert_eq!(buffer.len(), 4);
}

#[test]
fn works_with_non_copy_elements() {
    let mut buffer: CircularBuffer<String> = CircularBuffer::new(2);
    buffer.push(String::from("a"));
    buffer.push(String::from("b"));
    buffer.push(String::from("c"));
    assert!(buffer.contains(&String::from("b")));
    assert!(!buffer.contains(&String::from("a")));
    assert_eq!(buffer.pop(), Some(String::from("b")));
    assert_eq!(buffer.pop(), Some(String::from("c")));
    assert_eq!(buffer.pop(), None);
}

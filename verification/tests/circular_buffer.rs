use data_structures::circular_buffer::CircularBuffer;

#[test]
fn circular_buffer_test_new() {
    let buffer: CircularBuffer<i32> = CircularBuffer::new(5);
    assert_eq!(buffer.capacity(), 5);
    assert_eq!(buffer.len(), 0);
    assert!(buffer.is_empty());
    assert!(!buffer.is_full());
}

#[test]
fn test_push_and_pop() {
    let mut buffer = CircularBuffer::new(3);
    buffer.push(1);
    buffer.push(2);
    buffer.push(3);
    assert_eq!(buffer.len(), 3);
    assert!(!buffer.is_empty());
    assert!(buffer.is_full());

    assert_eq!(buffer.pop(), Some(1));
    assert_eq!(buffer.pop(), Some(2));
    assert_eq!(buffer.pop(), Some(3));
    assert_eq!(buffer.pop(), None);
    assert!(buffer.is_empty());
}

#[test]
fn circular_buffer_test_peek() {
    let mut buffer = CircularBuffer::new(3);
    buffer.push(1);
    buffer.push(2);
    assert_eq!(buffer.peek(), Some(&1));
    buffer.push(3);
    assert_eq!(buffer.peek(), Some(&1));

    buffer.pop();
    assert_eq!(buffer.peek(), Some(&2));
    buffer.pop();
    assert_eq!(buffer.peek(), Some(&3));
    buffer.pop();
    assert_eq!(buffer.peek(), None);
}

#[test]
fn circular_buffer_test_clear() {
    let mut buffer = CircularBuffer::new(3);
    buffer.push(1);
    buffer.push(2);
    buffer.push(3);
    buffer.clear();
    assert_eq!(buffer.len(), 0);
    assert!(buffer.is_empty());
    assert!(!buffer.is_full());
}

#[test]
fn test_extend() {
    let mut buffer = CircularBuffer::new(5);
    buffer.extend(vec![1, 2, 3]);
    assert_eq!(buffer.len(), 3);
    assert_eq!(buffer.pop(), Some(1));
    assert_eq!(buffer.pop(), Some(2));
    assert_eq!(buffer.pop(), Some(3));
    assert_eq!(buffer.pop(), None);

    buffer.extend(vec![4, 5, 6, 7]);
    assert_eq!(buffer.len(), 4);
    assert_eq!(buffer.pop(), Some(4));
    assert_eq!(buffer.pop(), Some(5));
    assert_eq!(buffer.pop(), Some(6));
    assert_eq!(buffer.pop(), Some(7));
    assert_eq!(buffer.pop(), None);
}

#[test]
fn circular_buffer_test_iter() {
    let mut buffer = CircularBuffer::new(5);
    buffer.push(1);
    buffer.push(2);
    buffer.push(3);

    let collected: Vec<&i32> = buffer.iter().into_iter().collect();
    assert_eq!(collected, vec![&1, &2, &3]);

    buffer.push(4);
    buffer.push(5);
    let collected: Vec<&i32> = buffer.iter().into_iter().collect();
    assert_eq!(collected, vec![&1, &2, &3, &4, &5]);
}

#[test]
fn iter_lists_the_items_oldest_first() {
    let mut buffer = CircularBuffer::new(5);
    buffer.push(1);
    buffer.push(2);
    buffer.push(3);
    assert_eq!(buffer.iter(), vec![&1, &2, &3]);

    buffer.push(4);
    buffer.push(5);
    assert_eq!(buffer.iter(), vec![&1, &2, &3, &4, &5]);

    buffer.push(6);
    buffer.push(7);
    assert_eq!(buffer.iter(), vec![&3, &4, &5, &6, &7]);
}

#[test]
fn test_from_iterator() {
    let mut buffer: CircularBuffer<i32> = CircularBuffer::from_iter(vec![1, 2, 3, 4, 5]);
    assert_eq!(buffer.capacity(), 5);
    assert_eq!(buffer.len(), 5);
    assert_eq!(buffer.pop(), Some(1));
    assert_eq!(buffer.pop(), Some(2));
    assert_eq!(buffer.pop(), Some(3));
    assert_eq!(buffer.pop(), Some(4));
    assert_eq!(buffer.pop(), Some(5));
    assert_eq!(buffer.pop(), None);
}

#[test]
fn a_full_buffer_gives_up_its_oldest_item() {
    let mut buffer = CircularBuffer::new(3);
    for i in 1..=7 {
        buffer.push(i);
    }
    assert!(buffer.is_full());
    assert_eq!(buffer.iter(), vec![&5, &6, &7]);
    assert_eq!(buffer.peek(), Some(&5));
    assert_eq!(buffer.pop(), Some(5));
    buffer.push(8);
    buffer.push(9);
    assert_eq!(buffer.iter(), vec![&7, &8, &9]);
}

#[test]
fn extend_keeps_the_newest_items() {
    let mut buffer = CircularBuffer::new(4);
    buffer.extend(vec![1, 2, 3]);
    buffer.extend(vec![4, 5, 6]);
    assert_eq!(buffer.iter(), vec![&3, &4, &5, &6]);
    buffer.extend(vec![10, 11, 12, 13, 14, 15]);
    assert_eq!(buffer.iter(), vec![&12, &13, &14, &15]);
    buffer.extend(vec![]);
    assert_eq!(buffer.iter(), vec![&12, &13, &14, &15]);
}

#[test]
fn clear_makes_room_for_a_fresh_start() {
    let mut buffer = CircularBuffer::new(5);
    buffer.push(1);
    buffer.push(2);
    buffer.clear();
    buffer.push(3);
    buffer.push(4);
    assert_eq!(buffer.len(), 2);
    assert_eq!(buffer.capacity(), 5);
    assert_eq!(buffer.pop(), Some(3));
    assert_eq!(buffer.pop(), Some(4));
    assert_eq!(buffer.pop(), None);
}

#[test]
fn items_need_not_be_copyable() {
    let mut buffer: CircularBuffer<String> = CircularBuffer::new(2);
    buffer.push(String::from("a"));
    buffer.push(String::from("b"));
    buffer.push(String::from("c"));
    assert_eq!(buffer.pop(), Some(String::from("b")));
    assert_eq!(buffer.peek(), Some(&String::from("c")));
}

#[test]
fn default_has_no_room() {
    let buffer: CircularBuffer<i32> = CircularBuffer::default();
    assert_eq!(buffer.capacity(), 0);
    assert_eq!(buffer.len(), 0);
    assert!(buffer.is_empty());
    assert!(buffer.is_full());
}

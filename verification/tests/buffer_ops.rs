use lapin_core::buffer::Buffer;

#[test]
fn fresh_buffer_is_empty() {
    let b = Buffer::new(16);
    assert_eq!(b.available_data(), 0);
    assert_eq!(b.available_space(), 16);
    assert_eq!(b.capacity(), 16);
}

#[test]
fn zero_capacity_buffer() {
    let b = Buffer::new(0);
    assert_eq!(b.available_data(), 0);
    assert_eq!(b.available_space(), 0);
    assert_eq!(b.capacity(), 0);
}

#[test]
fn push_and_consume_track_cursors() {
    let mut b = Buffer::new(10);
    b.push_bytes(&vec![1, 2, 3, 4]);
    assert_eq!(b.available_data(), 4);
    assert_eq!(b.available_space(), 6);
    assert_eq!(b.data(), vec![1, 2, 3, 4]);
    b.consume(2);
    assert_eq!(b.available_data(), 2);
    // consuming never shrinks the free region
    assert_eq!(b.available_space(), 6);
    assert_eq!(b.data(), vec![3, 4]);
    assert_eq!(b.byte_at(0), 3);
    assert_eq!(b.byte_at(1), 4);
}

#[test]
fn conservation_across_fill_consume_shift() {
    // available_data + available_space + consumed-since-compaction == capacity
    let mut b = Buffer::new(8);
    b.push_bytes(&vec![9, 9, 9, 9, 9]);
    assert_eq!(b.available_data() + b.available_space(), 8 - 0);
    b.consume(3);
    // 3 bytes moved to the consumed region
    assert_eq!(b.available_data() + b.available_space() + 3, 8);
    b.shift();
    // compaction reclaims the consumed region; the unread bytes survive
    assert_eq!(b.available_data(), 2);
    assert_eq!(b.available_space(), 6);
    assert_eq!(b.data(), vec![9, 9]);
    assert_eq!(b.capacity(), 8);
}

#[test]
fn fill_publishes_free_region_bytes() {
    let mut b = Buffer::new(4);
    // fill() only moves the write cursor; a fresh buffer's storage is zeroed
    b.fill(3);
    assert_eq!(b.available_data(), 3);
    assert_eq!(b.available_space(), 1);
    assert_eq!(b.data(), vec![0, 0, 0]);
}

#[test]
fn no_starvation_under_partial_fills() {
    // a writer that always fills less than the available space never sees
    // the free region reach zero, and a full drain plus compaction restores
    // the whole capacity
    let mut b = Buffer::new(6);
    b.push_bytes(&vec![1, 2, 3]);
    assert!(b.available_space() > 0);
    b.push_bytes(&vec![4, 5]);
    assert!(b.available_space() > 0);
    b.consume(5);
    b.shift();
    assert_eq!(b.available_space(), 6);
    assert_eq!(b.available_data(), 0);
}

#[test]
fn fill_to_capacity_then_drain() {
    let mut b = Buffer::new(3);
    b.push_bytes(&vec![7, 8, 9]);
    assert_eq!(b.available_space(), 0);
    b.consume(3);
    b.shift();
    assert_eq!(b.available_space(), 3);
}

use u8ring::U8RingBuffer;

#[test]
fn pushes_within_capacity_concatenate() {
    let mut buffer = U8RingBuffer::new(8);
    buffer.push(&[10, 20]);
    buffer.push(&[30]);
    buffer.push(&[40, 50, 60]);
    assert_eq!(buffer.slice(), &[10, 20, 30, 40, 50, 60]);
    assert_eq!(buffer.len(), 6);
}

#[test]
fn long_push_keeps_only_tail() {
    let mut buffer = U8RingBuffer::new(4);
    buffer.push(&[9, 9]);
    buffer.push(&[1, 2, 3, 4, 5, 6, 7]);
    assert_eq!(buffer.slice(), &[4, 5, 6, 7]);
    assert_eq!(buffer.len(), 4);
}

#[test]
fn full_buffer_slides_by_push_length() {
    let mut buffer = U8RingBuffer::new(6);
    buffer.push(&[1, 2, 3, 4, 5, 6]);
    assert_eq!(buffer.slice(), &[1, 2, 3, 4, 5, 6]);
    buffer.push(&[7, 8]);
    assert_eq!(buffer.slice(), &[3, 4, 5, 6, 7, 8]);
    assert_eq!(buffer.len(), 6);
}

#[test]
fn purge_too_much_fails_and_changes_nothing() {
    let mut buffer = U8RingBuffer::new(5);
    buffer.push(&[1, 2, 3]);
    assert_eq!(buffer.purge(4), false);
    assert_eq!(buffer.len(), 3);
    assert_eq!(buffer.slice(), &[1, 2, 3]);
}

#[test]
fn purge_all_empties_the_window() {
    let mut buffer = U8RingBuffer::new(5);
    buffer.push(&[1, 2, 3]);
    assert_eq!(buffer.purge(3), true);
    assert_eq!(buffer.len(), 0);
    assert!(buffer.is_empty());
    assert_eq!(buffer.slice(), &[] as &[u8]);
}

#[test]
fn purge_drops_oldest_bytes() {
    let mut buffer = U8RingBuffer::new(5);
    buffer.push(&[1, 2, 3, 4, 5]);
    buffer.push(&[6, 7]);
    assert_eq!(buffer.slice(), &[3, 4, 5, 6, 7]);
    assert_eq!(buffer.purge(2), true);
    assert_eq!(buffer.slice(), &[5, 6, 7]);
    assert_eq!(buffer.len(), 3);
}

#[test]
fn clear_then_push_matches_fresh_buffer() {
    let mut cleared = U8RingBuffer::new(7);
    cleared.push(&[1, 2, 3, 4, 5, 6, 7]);
    cleared.push(&[8, 9]);
    cleared.clear();
    let mut fresh = U8RingBuffer::new(7);
    cleared.push(&[11, 12, 13]);
    fresh.push(&[11, 12, 13]);
    assert_eq!(cleared.slice(), &[11, 12, 13]);
    assert_eq!(fresh.slice(), &[11, 12, 13]);
    assert_eq!(cleared.len(), fresh.len());
}

#[test]
fn occurrence_found_at_window_end() {
    let mut buffer = U8RingBuffer::new(10);
    buffer.push(&[1, 2, 3, 4, 5]);
    assert_eq!(buffer.first_occurence(&[4, 5]), Some(3));
    assert_eq!(buffer.first_occurence(&[5]), Some(4));
    assert_eq!(buffer.first_occurence(&[1, 2, 3, 4, 5]), Some(0));
}

#[test]
fn occurrence_edge_patterns_not_found() {
    let mut buffer = U8RingBuffer::new(10);
    buffer.push(&[1, 2, 3]);
    assert_eq!(buffer.first_occurence(&[]), None);
    assert_eq!(buffer.first_occurence(&[1, 2, 3, 4]), None);
    assert_eq!(buffer.second_occurence(&[]), None);
    assert_eq!(buffer.second_occurence(&[2, 3]), None);
}

#[test]
fn occurrence_in_wrapped_window() {
    let mut buffer = U8RingBuffer::new(6);
    buffer.push(&[9, 9, 9, 9, 1, 2]);
    buffer.push(&[3, 1, 2]);
    assert_eq!(buffer.slice(), &[9, 1, 2, 3, 1, 2]);
    assert_eq!(buffer.first_occurence(&[1, 2]), Some(1));
    assert_eq!(buffer.second_occurence(&[1, 2]), Some(4));
    assert_eq!(buffer.second_occurence(&[3]), None);
}

#[test]
fn capacity_one_buffer_keeps_last_byte() {
    let mut buffer = U8RingBuffer::new(1);
    buffer.push(&[1, 2, 3]);
    assert_eq!(buffer.slice(), &[3]);
    assert_eq!(buffer.len(), 1);
    assert_eq!(buffer.capacity(), 1);
    buffer.push(&[4]);
    assert_eq!(buffer.slice(), &[4]);
}

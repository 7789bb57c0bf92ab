use poll_engine::reorder::ReorderBuffer;

#[test]
fn results_leave_in_admission_order() {
    let mut b = ReorderBuffer::new();
    assert!(b.is_empty());
    assert_eq!(b.put(2, "c"), Ok(()));
    assert_eq!(b.pop_next(), None);
    assert_eq!(b.put(0, "a"), Ok(()));
    assert_eq!(b.pop_next(), Some("a"));
    assert_eq!(b.next_seq(), 1);
    assert_eq!(b.pop_next(), None);
    assert_eq!(b.put(1, "b"), Ok(()));
    assert_eq!(b.pop_next(), Some("b"));
    assert_eq!(b.pop_next(), Some("c"));
    assert_eq!(b.pop_next(), None);
    assert_eq!(b.next_seq(), 3);
    assert!(b.is_empty());
}

#[test]
fn a_number_is_taken_once() {
    let mut b = ReorderBuffer::new();
    assert_eq!(b.put(1, 10), Ok(()));
    // Held already.
    assert_eq!(b.put(1, 11), Err(11));
    assert_eq!(b.put(0, 5), Ok(()));
    assert_eq!(b.pop_next(), Some(5));
    // Its turn has passed.
    assert_eq!(b.put(0, 6), Err(6));
    assert_eq!(b.pop_next(), Some(10));
    assert_eq!(b.put(1, 12), Err(12));
    assert!(b.is_empty());
}

#[test]
fn the_last_number_is_never_taken() {
    let mut b = ReorderBuffer::new();
    assert_eq!(b.put(u64::MAX, 1), Err(1));
    assert_eq!(b.put(u64::MAX - 1, 2), Ok(()));
    assert!(!b.is_empty());
}

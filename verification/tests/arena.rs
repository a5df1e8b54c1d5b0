use flash_fuzzy::arena::{
    Record, RecordArena, STATUS_ADDED, STATUS_CAPACITY_EXCEEDED, STATUS_EMPTY_INPUT,
    STATUS_POOL_EXHAUSTED,
};
use flash_fuzzy::bloom::BloomFilter;

#[test]
fn status_codes() {
    assert_eq!(STATUS_ADDED, 1);
    assert_eq!(STATUS_CAPACITY_EXCEEDED, -1);
    assert_eq!(STATUS_EMPTY_INPUT, -2);
    assert_eq!(STATUS_POOL_EXHAUSTED, -3);
}

#[test]
fn texts_are_appended_in_the_order_of_arrival() {
    let mut arena = RecordArena::new();
    assert_eq!(arena.add_record(3, b"one"), 1);
    assert_eq!(arena.add_record(4, b"three"), 1);
    assert_eq!(arena.add_record(3, b"x"), 1);
    assert_eq!(arena.record_count(), 3);
    assert_eq!(arena.pool_used(), 9);
    assert_eq!(
        arena.record(0),
        Record { id: 3, text_start: 0, text_len: 3, bloom: BloomFilter::from_text(b"one").bits(), active: true }
    );
    assert_eq!(
        arena.record(1),
        Record { id: 4, text_start: 3, text_len: 5, bloom: BloomFilter::from_text(b"three").bits(), active: true }
    );
    assert_eq!(arena.record(2).text_start, 8);
    assert_eq!(arena.text(0), b"one");
    assert_eq!(arena.text(1), b"three");
    assert_eq!(arena.text(2), b"x");
}

#[test]
fn removal_clears_the_flag_and_keeps_slot_and_bytes() {
    let mut arena = RecordArena::new();
    assert_eq!(arena.add_record(1, b"one"), 1);
    assert_eq!(arena.add_record(1, b"two"), 1);
    assert_eq!(arena.remove_record(2), 0);
    assert_eq!(arena.remove_record(1), 1);
    assert!(!arena.record(0).active);
    assert!(arena.record(1).active);
    assert_eq!(arena.text(0), b"one");
    assert_eq!(arena.remove_record(1), 1);
    assert!(!arena.record(1).active);
    assert_eq!(arena.remove_record(1), 0);
    assert_eq!(arena.record_count(), 2);
    assert_eq!(arena.pool_used(), 6);
}

#[test]
fn empty_bytes_are_refused() {
    let mut arena = RecordArena::new();
    assert_eq!(arena.add_record(1, b""), -2);
    assert_eq!(arena.record_count(), 0);
    assert_eq!(arena.pool_used(), 0);
}

#[test]
fn arena_reset_drops_everything() {
    let mut arena = RecordArena::new();
    assert_eq!(arena.add_record(1, b"one"), 1);
    arena.reset();
    assert_eq!(arena.record_count(), 0);
    assert_eq!(arena.pool_used(), 0);
    assert_eq!(arena.add_record(2, b"two"), 1);
    assert_eq!(arena.record(0).text_start, 0);
    assert_eq!(arena.text(0), b"two");
}

use mmbus::error::IoKind;
use mmbus::ring::{
    fresh_prefix, holds_shape, is_full_at, lags_of, min_of, mmap_size, slot_stride, slots_offset,
    stats_of, RingBuffer, SeqBefore, SlotReader, CURSOR_UNCLAIMED, MAGIC, MAX_RETRIES,
};
use mmbus::text::{chars_of, join_path, parse_u64, push_decimal, push_fixed_decimal};

#[test]
fn layout_is_fixed() {
    assert_eq!(slots_offset(0), 64);
    assert_eq!(slots_offset(1), 128);
    assert_eq!(slots_offset(16), 192);
    assert_eq!(slots_offset(17), 256);
    assert_eq!(slot_stride(8), 24);
    assert_eq!(slot_stride(1), 16);
    assert_eq!(mmap_size(4, 8, 2), 128 + 4 * 24);
    let ring = RingBuffer::create(4, 8, 2);
    assert_eq!(ring.mem.len(), mmap_size(4, 8, 2));
    assert_eq!(&ring.mem[0..8], &MAGIC.to_le_bytes());
    assert_eq!(&ring.mem[8..24], &[4, 0, 0, 0, 4, 0, 0, 0, 8, 0, 0, 0, 2, 0, 0, 0]);
    // Generation, tail and cursors.
    assert_eq!(&ring.mem[24..40], &[1, 0, 0, 0, 0, 0, 0, 0, 0, 0, 0, 0, 0, 0, 0, 0]);
    assert_eq!(&ring.mem[64..80], &[0xFF; 16]);
    assert_eq!(fresh_prefix(4, 8, 2), ring.mem[..128].to_vec());
    assert!(holds_shape(224, 4, 8, 2) && !holds_shape(223, 4, 8, 2));
}

#[test]
fn published_slot_holds_seq_length_and_payload() {
    let mut ring = RingBuffer::create(4, 8, 1);
    assert!(ring.try_publish(b"first"));
    assert!(ring.try_publish(b"abc"));
    let at = slots_offset(1) + slot_stride(8);
    assert_eq!(&ring.mem[at..at + 8], &1u64.to_le_bytes());
    assert_eq!(&ring.mem[at + 8..at + 12], &3u32.to_le_bytes());
    assert_eq!(&ring.mem[at + 12..at + 15], b"abc");
    assert_eq!(ring.current_tail(), 2);
}

#[test]
fn ring_without_slots_has_no_message() {
    let mut ring = RingBuffer::create(0, 8, 1);
    let idx = ring.claim_cursor(0).unwrap();
    let mut out = vec![7];
    assert_eq!(ring.try_receive(idx, 0, &mut out), None);
    assert_eq!(ring.try_receive(idx, 5, &mut out), None);
    assert_eq!((out, ring.current_tail()), (vec![7], 0));
}

#[test]
fn ring_is_full_for_the_slowest() {
    let mut ring = RingBuffer::create(2, 8, 3);
    // Nobody reads: never full.
    for _ in 0..5 {
        assert!(!ring.is_full());
        assert!(ring.try_publish(b"x"));
    }
    let slow = ring.claim_cursor(5).unwrap();
    let fast = ring.claim_cursor(5).unwrap();
    assert_eq!((slow, fast), (0, 1));
    assert!(ring.try_publish(b"a") && ring.try_publish(b"b"));
    ring.set_cursor(fast, 7);
    assert!(ring.is_full());
    assert!(!ring.try_publish(b"c"));
    assert_eq!(ring.current_tail(), 7);
    // Overwriting goes on regardless.
    assert!(ring.publish_drop_oldest(b"c"));
    ring.release_cursor(slow);
    assert_eq!(ring.min_active_cursor(), Some(7));
    assert!(!ring.is_full());
    assert_eq!(ring.cursors(), vec![CURSOR_UNCLAIMED, 7, CURSOR_UNCLAIMED]);
    assert_eq!(ring.lags_with_idx(), vec![(1, 1)]);
}

#[test]
fn cursor_decisions() {
    assert_eq!(min_of(&vec![CURSOR_UNCLAIMED, 9, 4]), Some(4));
    assert_eq!(min_of(&vec![CURSOR_UNCLAIMED]), None);
    assert!(is_full_at(10, &vec![2], 8) && !is_full_at(9, &vec![2], 8));
    assert!(!is_full_at(100, &vec![], 8));
    // A cursor ahead of the tail, left from before a restart.
    assert!(is_full_at(0, &vec![3], 8));
    assert_eq!(lags_of(10, &vec![4, CURSOR_UNCLAIMED, 12]), vec![(0, 6), (2, 0)]);
    let s = stats_of(10, &vec![4, CURSOR_UNCLAIMED]);
    assert_eq!((s.tail, s.active_subscribers, s.lags), (10, 1, vec![6]));
}

#[test]
fn torn_reads_are_tried_again() {
    assert_eq!(SlotReader::start(5, 5), None);
    let mut r = SlotReader::start(3, 9).unwrap();
    assert!(r.next_try());
    // The publisher is ahead: follow it.
    assert_eq!(r.before_copy(7), SeqBefore::Skipped);
    assert_eq!(r.position, 7);
    assert!(r.next_try());
    assert_eq!(r.before_copy(7), SeqBefore::Present);
    // Overwritten while it was copied.
    assert_eq!(r.after_copy(11), None);
    assert_eq!(r.position, 11);
    assert!(r.next_try());
    assert_eq!(r.before_copy(11), SeqBefore::Present);
    assert_eq!(r.after_copy(11), Some(12));
    // The message is not there yet.
    let mut r = SlotReader::start(3, 9).unwrap();
    assert!(r.next_try());
    assert_eq!(r.before_copy(2), SeqBefore::Missing);
    // It does not go on for ever.
    let mut r = SlotReader::start(0, 1).unwrap();
    for _ in 0..MAX_RETRIES {
        assert!(r.next_try());
    }
    assert!(!r.next_try());
}

#[test]
fn foreign_memory_is_refused() {
    let good = RingBuffer::create(4, 8, 1).mem;
    assert!(RingBuffer::open(good.clone()).is_ok());
    let mut bad = good.clone();
    bad[0] ^= 1;
    assert_eq!(RingBuffer::open(bad).err(), Some(IoKind::InvalidData));
    assert_eq!(RingBuffer::open(vec![]).err(), Some(IoKind::InvalidData));
    assert_eq!(RingBuffer::open(good[..7].to_vec()).err(), Some(IoKind::InvalidData));
    // Memory that is longer than its ring will do.
    let mut long = good;
    long.push(0);
    assert!(RingBuffer::open(long).is_ok());
}

#[test]
fn short_memory_reads_as_zeros() {
    let mut ring = RingBuffer::create(4, 8, 1);
    assert!(ring.try_publish(b"first") && ring.try_publish(b"second"));
    let total = ring.mem.len();
    // The second slot is cut off.
    let short = ring.mem[..slots_offset(1) + slot_stride(8)].to_vec();
    let opened = RingBuffer::open(short.clone()).unwrap();
    assert_eq!((opened.mem.len(), opened.generation(), opened.current_tail()), (total, 1, 2));
    assert_eq!((&opened.mem[..short.len()], &opened.mem[short.len()..]), (&short[..], &[0; 72][..]));
    let reused = RingBuffer::create_or_reuse(Some(short), 4, 8, 1);
    assert_eq!((reused.mem.len(), reused.generation(), reused.current_tail()), (total, 2, 0));
    // A header that ends behind its shape has no generation yet.
    let header = RingBuffer::open(ring.mem[..24].to_vec()).unwrap();
    assert_eq!((header.capacity, header.slot_payload_size, header.max_subscribers), (4, 8, 1));
    assert_eq!((header.mem.len(), header.generation()), (total, 0));
}

#[test]
fn numbers_and_paths_are_written_out() {
    let mut s = String::from("n=");
    push_decimal(&mut s, 0);
    push_decimal(&mut s, 18446744073709551615);
    assert_eq!(s, "n=018446744073709551615");
    let mut s = String::new();
    push_fixed_decimal(&mut s, 42, 5);
    assert_eq!(s, "00042");
    let chars = chars_of("a\u{e9}7+19x");
    assert_eq!(chars.len(), 7);
    assert_eq!(parse_u64(&chars, 3, 6), Some(19));
    assert_eq!(parse_u64(&chars, 2, 3), Some(7));
    assert_eq!(parse_u64(&chars, 2, 4), None);
    assert_eq!(parse_u64(&chars, 3, 4), None);
    assert_eq!(parse_u64(&chars, 5, 7), None);
    assert_eq!(join_path("/a", "b"), "/a/b");
    assert_eq!(join_path("/a/", "b"), "/a/b");
    assert_eq!(join_path("", "b"), "b");
    assert_eq!(join_path("/a", "/b"), "/b");
}

//! SPMC ring buffer over one block of memory.
//!
//! # Layout
//!
//! ```text
//! Bytes 0..64: fixed header
//!   0   u64    magic
//!   8   u32    version (= 4)
//!  12   u32    capacity (slot count)
//!  16   u32    slot_payload_size (max bytes per message)
//!  20   u32    max_subscribers
//!  24   u64    generation, incremented on publisher restart
//!  32   u64    tail, the producer cursor
//!
//! Bytes 64 .. 64+8*max_subscribers: subscriber cursor table
//!   cursor[i]  u64, CURSOR_UNCLAIMED = free, else the next position to read
//!
//! From the next multiple of 64 on: ring slots
//!   slot[i]  [u64 seq][u32 len][payload (slot_payload_size bytes)]
//! ```
//!
//! `seq` carries the position of the message in the slot. A subscriber loads it before and
//! after it copies the payload: a change means that the publisher overwrote the slot in
//! between, and the subscriber tries again at the position it finds.
//!
//! The producer may advance `tail` only as long as `tail - min(claimed cursors)` is below
//! the capacity. Every subscriber moves its own cursor; there is no shared head.

use crate::codec;
use crate::error::IoKind;
use vstd::prelude::*;

verus! {

/// `"mmbus"` and the format version.
pub const MAGIC: u64 = 0x6D6D_6275_7300_0004;

/// The cursor value of a free slot of the cursor table.
pub const CURSOR_UNCLAIMED: u64 = 0xFFFF_FFFF_FFFF_FFFF;

pub const MAX_SUBSCRIBERS_DEFAULT: u32 = 16;

/// Format version in the header.
pub const RING_VERSION: u32 = 4;

pub const OFF_MAGIC: usize = 0;

pub const OFF_VERSION: usize = 8;

pub const OFF_CAPACITY: usize = 12;

pub const OFF_SLOT_SIZE: usize = 16;

pub const OFF_MAX_SUBS: usize = 20;

pub const OFF_GENERATION: usize = 24;

pub const OFF_TAIL: usize = 32;

pub const OFF_CURSORS: usize = 64;

/// Bytes of a slot in front of its payload.
pub const SLOT_OVERHEAD: usize = 12;

/// How often a subscriber tries again when the publisher overwrites the slot it reads.
pub const MAX_RETRIES: u32 = 16;

/// `n` rounded up to a multiple of `a`.
pub open spec fn align_up(n: int, a: int) -> int {
    (n + a - 1) / a * a
}

/// Where the slots start.
pub open spec fn slots_start(max_subscribers: u32) -> int {
    align_up(OFF_CURSORS + 8 * max_subscribers, 64)
}

/// From one slot to the next.
pub open spec fn stride_of(slot_payload_size: u32) -> int {
    align_up(SLOT_OVERHEAD + slot_payload_size, 8)
}

/// Where slot `i` starts.
pub open spec fn slot_start(slot_payload_size: u32, max_subscribers: u32, i: int) -> int {
    slots_start(max_subscribers) + stride_of(slot_payload_size) * i
}

/// The size of a ring.
pub open spec fn ring_size(capacity: u32, slot_payload_size: u32, max_subscribers: u32) -> int {
    slot_start(slot_payload_size, max_subscribers, capacity as int)
}

/// First byte offset of the ring slots: 64-byte aligned, behind the cursor table.
pub fn slots_offset(max_subscribers: u32) -> (n: usize)
    requires
        slots_start(max_subscribers) + 63 <= usize::MAX,
    ensures
        n == slots_start(max_subscribers),
        n % 64 == 0,
        OFF_CURSORS + 8 * max_subscribers <= n < OFF_CURSORS + 8 * max_subscribers + 64,
{
    let raw: usize = OFF_CURSORS + 8 * max_subscribers as usize;
    (raw + 63) / 64 * 64
}

/// Slot stride: sequence number, length and payload, rounded up so that every sequence
/// number is naturally aligned.
pub fn slot_stride(slot_payload_size: u32) -> (n: usize)
    requires
        SLOT_OVERHEAD + slot_payload_size + 7 <= usize::MAX,
    ensures
        n == stride_of(slot_payload_size),
        n % 8 == 0,
        SLOT_OVERHEAD + slot_payload_size <= n < SLOT_OVERHEAD + slot_payload_size + 8,
{
    let raw: usize = SLOT_OVERHEAD + slot_payload_size as usize;
    (raw + 7) / 8 * 8
}

/// Bytes of a ring of this shape.
pub fn mmap_size(capacity: u32, slot_payload_size: u32, max_subscribers: u32) -> (n: usize)
    requires
        ring_size(capacity, slot_payload_size, max_subscribers) <= usize::MAX,
        slots_start(max_subscribers) + 63 <= usize::MAX,
        SLOT_OVERHEAD + slot_payload_size + 7 <= usize::MAX,
    ensures
        n == ring_size(capacity, slot_payload_size, max_subscribers),
{
    proof {
        lemma_slot_bounds(slot_payload_size, max_subscribers, 0, capacity as int);
        let stride = stride_of(slot_payload_size);
        assert(stride * capacity >= 0) by (nonlinear_arith)
            requires
                stride >= 0,
        ;
    }
    slots_offset(max_subscribers) + slot_stride(slot_payload_size) * capacity as usize
}

/// Slots follow each other without overlap.
pub proof fn lemma_slot_bounds(slot_payload_size: u32, max_subscribers: u32, i: int, j: int)
    requires
        0 <= i <= j,
    ensures
        slots_start(max_subscribers) >= OFF_CURSORS + 8 * max_subscribers,
        stride_of(slot_payload_size) >= SLOT_OVERHEAD + slot_payload_size,
        slots_start(max_subscribers) <= slot_start(slot_payload_size, max_subscribers, i),
        slot_start(slot_payload_size, max_subscribers, i) <= slot_start(
            slot_payload_size,
            max_subscribers,
            j,
        ),
        i < j ==> slot_start(slot_payload_size, max_subscribers, i) + stride_of(slot_payload_size)
            <= slot_start(slot_payload_size, max_subscribers, j),
{
    let s = stride_of(slot_payload_size);
    assert(s * i >= 0) by (nonlinear_arith)
        requires
            s >= 0,
            i >= 0,
    ;
    assert(s * i <= s * j) by (nonlinear_arith)
        requires
            s >= 0,
            i <= j,
    ;
    if i < j {
        assert(s * i + s <= s * j) by (nonlinear_arith)
            requires
                s >= 0,
                i + 1 <= j,
        ;
    }
}

/// What stands in a slot.
#[verifier::ext_equal]
pub struct SlotView {
    pub seq: u64,
    pub len: u32,
    /// The payload area, all of it.
    pub area: Seq<u8>,
}

impl SlotView {
    /// The message in the slot.
    pub open spec fn payload(&self) -> Seq<u8> {
        self.area.take(self.len as int)
    }
}

/// What a ring holds.
#[verifier::ext_equal]
pub struct RingView {
    pub generation: u64,
    pub tail: u64,
    pub cursors: Seq<u64>,
    pub slots: Seq<SlotView>,
}

/// The slot at byte `at`.
pub open spec fn slot_view(mem: Seq<u8>, at: int, slot_payload_size: u32) -> SlotView {
    SlotView {
        seq: codec::le_at(mem, at, 8) as u64,
        len: codec::le_at(mem, at + 8, 4) as u32,
        area: mem.subrange(at + 12, at + 12 + slot_payload_size),
    }
}

/// What the memory of a ring of this shape holds.
pub open spec fn ring_view(
    mem: Seq<u8>,
    capacity: u32,
    slot_payload_size: u32,
    max_subscribers: u32,
) -> RingView {
    RingView {
        generation: codec::le_at(mem, OFF_GENERATION as int, 8) as u64,
        tail: codec::le_at(mem, OFF_TAIL as int, 8) as u64,
        cursors: Seq::new(
            max_subscribers as nat,
            |i: int| codec::le_at(mem, OFF_CURSORS + 8 * i, 8) as u64,
        ),
        slots: Seq::new(
            capacity as nat,
            |i: int|
                slot_view(mem, slot_start(slot_payload_size, max_subscribers, i), slot_payload_size),
        ),
    }
}

/// The memory starts with the header of a ring of this shape, and has room for it.
pub open spec fn shaped(
    mem: Seq<u8>,
    capacity: u32,
    slot_payload_size: u32,
    max_subscribers: u32,
) -> bool {
    &&& mem.len() >= ring_size(capacity, slot_payload_size, max_subscribers)
    &&& codec::le_at(mem, OFF_MAGIC as int, 8) == MAGIC
    &&& codec::le_at(mem, OFF_CAPACITY as int, 4) == capacity
    &&& codec::le_at(mem, OFF_SLOT_SIZE as int, 4) == slot_payload_size
    &&& codec::le_at(mem, OFF_MAX_SUBS as int, 4) == max_subscribers
}

/// The two memories agree outside of `a..b`.
pub open spec fn same_outside(m1: Seq<u8>, m2: Seq<u8>, a: int, b: int) -> bool {
    &&& m1.len() == m2.len()
    &&& forall|i: int| 0 <= i < m1.len() && !(a <= i < b) ==> m1[i] == #[trigger] m2[i]
}

proof fn lemma_same_range(m1: Seq<u8>, m2: Seq<u8>, a: int, b: int, from: int, to: int)
    requires
        same_outside(m1, m2, a, b),
        0 <= from <= to <= m1.len(),
        to <= a || b <= from,
    ensures
        m1.subrange(from, to) == m2.subrange(from, to),
{
    assert(m1.subrange(from, to) =~= m2.subrange(from, to));
}

/// A change inside slot `idx` leaves the header, the cursors and the other slots alone.
proof fn lemma_slot_change(
    m1: Seq<u8>,
    m2: Seq<u8>,
    capacity: u32,
    sps: u32,
    ms: u32,
    idx: int,
)
    requires
        shaped(m1, capacity, sps, ms),
        0 <= idx < capacity,
        same_outside(
            m1,
            m2,
            slot_start(sps, ms, idx),
            slot_start(sps, ms, idx) + SLOT_OVERHEAD + sps,
        ),
    ensures
        shaped(m2, capacity, sps, ms),
        ring_view(m2, capacity, sps, ms) == (RingView {
            slots: ring_view(m1, capacity, sps, ms).slots.update(
                idx,
                slot_view(m2, slot_start(sps, ms, idx), sps),
            ),
            ..ring_view(m1, capacity, sps, ms)
        }),
{
    let v1 = ring_view(m1, capacity, sps, ms);
    let v2 = ring_view(m2, capacity, sps, ms);
    let a = slot_start(sps, ms, idx);
    let b = a + SLOT_OVERHEAD + sps;
    lemma_slot_bounds(sps, ms, 0, idx);
    lemma_slot_bounds(sps, ms, idx, capacity as int);
    lemma_same_range(m1, m2, a, b, 0, 8);
    lemma_same_range(m1, m2, a, b, 12, 16);
    lemma_same_range(m1, m2, a, b, 16, 20);
    lemma_same_range(m1, m2, a, b, 20, 24);
    lemma_same_range(m1, m2, a, b, 24, 32);
    lemma_same_range(m1, m2, a, b, 32, 40);
    assert forall|i: int| 0 <= i < ms implies v1.cursors[i] == #[trigger] v2.cursors[i] by {
        lemma_same_range(m1, m2, a, b, OFF_CURSORS + 8 * i, OFF_CURSORS + 8 * i + 8);
    }
    assert(v1.cursors =~= v2.cursors);
    assert forall|i: int| 0 <= i < capacity && i != idx implies v1.slots[i]
        == #[trigger] v2.slots[i] by {
        let at = slot_start(sps, ms, i);
        lemma_slot_bounds(sps, ms, 0, i);
        lemma_slot_bounds(sps, ms, i, capacity as int);
        if i < idx {
            lemma_slot_bounds(sps, ms, i, idx);
        } else {
            lemma_slot_bounds(sps, ms, idx, i);
        }
        lemma_same_range(m1, m2, a, b, at, at + 8);
        lemma_same_range(m1, m2, a, b, at + 8, at + 12);
        lemma_same_range(m1, m2, a, b, at + 12, at + 12 + sps);
    }
    assert(v2.slots =~= v1.slots.update(idx, slot_view(m2, a, sps)));
}

/// A change inside the header word at `at`, or inside one cursor, leaves the slots alone.
proof fn lemma_word_change(m1: Seq<u8>, at: int, x: u64, capacity: u32, sps: u32, ms: u32)
    requires
        shaped(m1, capacity, sps, ms),
        24 <= at,
        at + 8 <= OFF_CURSORS + 8 * ms,
    ensures
        ({
            let m2 = codec::patch(m1, at, codec::le_bytes(x as nat, 8));
            let v1 = ring_view(m1, capacity, sps, ms);
            let v2 = ring_view(m2, capacity, sps, ms);
            &&& m2.len() == m1.len()
            &&& shaped(m2, capacity, sps, ms)
            &&& v2.slots == v1.slots
            &&& codec::le_at(m2, at, 8) == x
            &&& forall|i: int|
                0 <= i < ms && (OFF_CURSORS + 8 * i + 8 <= at || at + 8 <= OFF_CURSORS + 8 * i)
                    ==> #[trigger] v2.cursors[i] == v1.cursors[i]
            &&& (at != OFF_GENERATION && at >= 32) ==> v2.generation == v1.generation
            &&& (at == OFF_GENERATION || at >= 40) ==> v2.tail == v1.tail
        }),
{
    let d = codec::le_bytes(x as nat, 8);
    let m2 = codec::patch(m1, at, d);
    let v1 = ring_view(m1, capacity, sps, ms);
    let v2 = ring_view(m2, capacity, sps, ms);
    codec::lemma_pow256();
    codec::lemma_le_value_of_bytes(x as nat, 8);
    lemma_slot_bounds(sps, ms, 0, capacity as int);
    codec::lemma_patch(m1, at, d);
    let b = at + 8;
    assert(same_outside(m1, m2, at, b));
    lemma_same_range(m1, m2, at, b, 0, 8);
    lemma_same_range(m1, m2, at, b, 12, 16);
    lemma_same_range(m1, m2, at, b, 16, 20);
    lemma_same_range(m1, m2, at, b, 20, 24);
    if at >= 32 {
        lemma_same_range(m1, m2, at, b, 24, 32);
    }
    if at >= 40 || at == OFF_GENERATION {
        lemma_same_range(m1, m2, at, b, 32, 40);
    }
    assert forall|i: int|
        0 <= i < ms && (OFF_CURSORS + 8 * i + 8 <= at || at + 8 <= OFF_CURSORS + 8 * i) implies
        #[trigger] v2.cursors[i] == v1.cursors[i] by {
        lemma_same_range(m1, m2, at, b, OFF_CURSORS + 8 * i, OFF_CURSORS + 8 * i + 8);
    }
    assert forall|i: int| 0 <= i < capacity implies v1.slots[i] == #[trigger] v2.slots[i] by {
        let s = slot_start(sps, ms, i);
        lemma_slot_bounds(sps, ms, 0, i);
        lemma_slot_bounds(sps, ms, i, capacity as int);
        lemma_same_range(m1, m2, at, b, s, s + 8);
        lemma_same_range(m1, m2, at, b, s + 8, s + 12);
        lemma_same_range(m1, m2, at, b, s + 12, s + 12 + sps);
    }
    assert(v1.slots =~= v2.slots);
}

// ── What the operations do to a ring ─────────────────────────────────────────

/// Whether a slot of the cursor table belongs to a subscriber.
pub open spec fn claimed(cursor: u64) -> bool {
    cursor != CURSOR_UNCLAIMED
}

/// The smallest claimed cursor.
pub open spec fn min_claimed(cursors: Seq<u64>) -> Option<u64>
    decreases cursors.len(),
{
    if cursors.len() == 0 {
        None
    } else {
        let rest = min_claimed(cursors.drop_last());
        let c = cursors.last();
        if !claimed(c) {
            rest
        } else {
            match rest {
                Some(m) => Some(if c < m {
                    c
                } else {
                    m
                }),
                None => Some(c),
            }
        }
    }
}

/// `a - b` in the arithmetic of `u64`, which wraps around.
pub open spec fn wrapping_distance(a: u64, b: u64) -> int {
    if a >= b {
        a - b
    } else {
        a - b + 0x1_0000_0000_0000_0000
    }
}

/// Whether a ring has no room for one more message.
pub open spec fn full_at(tail: u64, cursors: Seq<u64>, capacity: u32) -> bool {
    wrapping_distance(
        tail,
        match min_claimed(cursors) {
            Some(m) => m,
            None => tail,
        },
    ) >= capacity
}

/// The slot of a position.
pub open spec fn slot_of(position: u64, capacity: nat) -> int {
    (position as nat % capacity) as int
}

/// A ring after one more message.
pub open spec fn published(v: RingView, data: Seq<u8>) -> RingView {
    let i = slot_of(v.tail, v.slots.len());
    RingView {
        tail: (v.tail + 1) as u64,
        slots: v.slots.update(
            i,
            SlotView {
                seq: v.tail,
                len: data.len() as u32,
                area: codec::patch(v.slots[i].area, 0, data),
            },
        ),
        ..v
    }
}

/// The position that a subscriber at `position` gets to read with `tries` tries: it
/// follows the sequence number in its slot when the publisher is ahead of it.
pub open spec fn resolved(slots: Seq<SlotView>, slot_payload_size: u32, position: u64, tries: nat) -> Option<
    u64,
>
    decreases tries,
{
    let s = slots[slot_of(position, slots.len())];
    if tries == 0 {
        None
    } else if s.seq > position {
        resolved(slots, slot_payload_size, s.seq, (tries - 1) as nat)
    } else if s.seq < position || s.len > slot_payload_size {
        None
    } else {
        Some(position)
    }
}

/// The position that a subscriber whose cursor is `cursor` reads next.
pub open spec fn readable_at(v: RingView, slot_payload_size: u32, cursor: u64) -> Option<u64> {
    if cursor >= v.tail {
        None
    } else {
        resolved(v.slots, slot_payload_size, cursor, MAX_RETRIES as nat)
    }
}

/// The first free slot of the cursor table.
pub open spec fn first_free(cursors: Seq<u64>) -> Option<int>
    decreases cursors.len(),
{
    if cursors.len() == 0 {
        None
    } else {
        match first_free(cursors.drop_last()) {
            Some(i) => Some(i),
            None => if claimed(cursors.last()) {
                None
            } else {
                Some(cursors.len() - 1)
            },
        }
    }
}

/// How far behind a cursor is.
pub open spec fn lag_of(tail: u64, cursor: u64) -> u64 {
    if tail >= cursor {
        (tail - cursor) as u64
    } else {
        0
    }
}

/// The lags of the claimed cursors, with their places in the cursor table.
pub open spec fn lags_at(tail: u64, cursors: Seq<u64>) -> Seq<(usize, u64)>
    decreases cursors.len(),
{
    if cursors.len() == 0 {
        Seq::empty()
    } else {
        let rest = lags_at(tail, cursors.drop_last());
        if claimed(cursors.last()) {
            rest.push(((cursors.len() - 1) as usize, lag_of(tail, cursors.last())))
        } else {
            rest
        }
    }
}

// ── Decisions over loaded values ─────────────────────────────────────────────

/// The smallest claimed cursor of a snapshot of the cursor table.
pub fn min_of(cursors: &Vec<u64>) -> (r: Option<u64>)
    ensures
        r == min_claimed(cursors@),
{
    let mut min: Option<u64> = None;
    let mut i: usize = 0;
    while i < cursors.len()
        invariant
            i <= cursors@.len(),
            min == min_claimed(cursors@.take(i as int)),
        decreases cursors@.len() - i,
    {
        let c: u64 = cursors[i];
        assert(cursors@.take(i + 1).drop_last() =~= cursors@.take(i as int));
        if c != CURSOR_UNCLAIMED {
            min = match min {
                Some(m) => Some(if c < m {
                    c
                } else {
                    m
                }),
                None => Some(c),
            };
        }
        i = i + 1;
    }
    assert(cursors@.take(i as int) =~= cursors@);
    min
}

/// Whether a ring with this tail and these cursors is full.
pub fn is_full_at(tail: u64, cursors: &Vec<u64>, capacity: u32) -> (full: bool)
    ensures
        full == full_at(tail, cursors@, capacity),
{
    let effective_min: u64 = match min_of(cursors) {
        Some(m) => m,
        None => tail,
    };
    tail.wrapping_sub(effective_min) >= capacity as u64
}

/// The lags of the claimed cursors of a snapshot, with their places.
pub fn lags_of(tail: u64, cursors: &Vec<u64>) -> (lags: Vec<(usize, u64)>)
    ensures
        lags@ == lags_at(tail, cursors@),
{
    let mut lags: Vec<(usize, u64)> = Vec::new();
    let mut i: usize = 0;
    while i < cursors.len()
        invariant
            i <= cursors@.len(),
            lags@ == lags_at(tail, cursors@.take(i as int)),
        decreases cursors@.len() - i,
    {
        let c: u64 = cursors[i];
        assert(cursors@.take(i + 1).drop_last() =~= cursors@.take(i as int));
        if c != CURSOR_UNCLAIMED {
            lags.push((i, tail.saturating_sub(c)));
        }
        i = i + 1;
    }
    assert(cursors@.take(i as int) =~= cursors@);
    lags
}

/// Snapshot of a ring's cursors for monitoring.
#[derive(Debug, Clone, PartialEq, Eq)]
pub struct RingStats {
    /// Next position the producer will write.
    pub tail: u64,
    /// Number of claimed slots of the cursor table.
    pub active_subscribers: usize,
    /// Lag in messages, one entry per active subscriber.
    pub lags: Vec<u64>,
}

/// The statistics of a ring with this tail and these cursors.
pub open spec fn stats_are(s: RingStats, tail: u64, cursors: Seq<u64>) -> bool {
    &&& s.tail == tail
    &&& s.lags@ == lags_at(tail, cursors).map_values(|p: (usize, u64)| p.1)
    &&& s.active_subscribers == s.lags@.len()
}

/// The statistics of a ring, from a snapshot of its tail and its cursors.
pub fn stats_of(tail: u64, cursors: &Vec<u64>) -> (s: RingStats)
    ensures
        stats_are(s, tail, cursors@),
{
    let pairs: Vec<(usize, u64)> = lags_of(tail, cursors);
    let mut lags: Vec<u64> = Vec::new();
    let mut i: usize = 0;
    while i < pairs.len()
        invariant
            i <= pairs@.len(),
            lags@ == pairs@.take(i as int).map_values(|p: (usize, u64)| p.1),
        decreases pairs@.len() - i,
    {
        lags.push(pairs[i].1);
        i = i + 1;
        assert(lags@ =~= pairs@.take(i as int).map_values(|p: (usize, u64)| p.1));
    }
    assert(pairs@.take(i as int) =~= pairs@);
    RingStats { tail, active_subscribers: lags.len(), lags }
}

/// What the sequence number loaded before the copy means.
#[derive(Debug, Clone, Copy, PartialEq, Eq, Structural)]
pub enum SeqBefore {
    /// The publisher is ahead: go on at the position it wrote.
    Skipped,
    /// The slot does not hold the position yet: there is no message.
    Missing,
    /// The slot holds the position: read length and payload.
    Present,
}

/// One read of a subscriber: the position it tries to read, and how many tries are left.
#[derive(Debug, Clone, Copy, PartialEq, Eq, Structural)]
pub struct SlotReader {
    pub position: u64,
    pub tries: u32,
}

impl SlotReader {
    /// Starts a read at `cursor`: `None` if the tail says that there is no message.
    pub fn start(cursor: u64, tail: u64) -> (r: Option<SlotReader>)
        ensures
            r == (if cursor >= tail {
                None
            } else {
                Some(SlotReader { position: cursor, tries: MAX_RETRIES })
            }),
    {
        if cursor >= tail {
            return None;
        }
        Some(SlotReader { position: cursor, tries: MAX_RETRIES })
    }

    /// Takes one of the tries: `false` when there is none left.
    pub fn next_try(&mut self) -> (more: bool)
        ensures
            more == (old(self).tries > 0),
            *final(self) == (SlotReader {
                tries: if more {
                    (old(self).tries - 1) as u32
                } else {
                    0
                },
                ..*old(self)
            }),
    {
        if self.tries == 0 {
            return false;
        }
        self.tries = self.tries - 1;
        true
    }

    /// Looks at the sequence number of the slot before its payload is copied.
    pub fn before_copy(&mut self, seq: u64) -> (r: SeqBefore)
        ensures
            final(self).tries == old(self).tries,
            if seq > old(self).position {
                r == SeqBefore::Skipped && final(self).position == seq
            } else if seq < old(self).position {
                r == SeqBefore::Missing && final(self).position == old(self).position
            } else {
                r == SeqBefore::Present && final(self).position == old(self).position
            },
    {
        if seq > self.position {
            self.position = seq;
            return SeqBefore::Skipped;
        }
        if seq < self.position {
            return SeqBefore::Missing;
        }
        SeqBefore::Present
    }

    /// Looks at the sequence number again after the copy: the new cursor if the slot did
    /// not change meanwhile, `None` to try again.
    pub fn after_copy(&mut self, seq: u64) -> (r: Option<u64>)
        requires
            old(self).position < u64::MAX,
        ensures
            final(self).tries == old(self).tries,
            if seq == old(self).position {
                r == Some((old(self).position + 1) as u64) && final(self).position
                    == old(self).position
            } else {
                r is None && final(self).position == (if seq > old(self).position {
                    seq
                } else {
                    old(self).position
                })
            },
    {
        if seq != self.position {
            if seq > self.position {
                self.position = seq;
            }
            return None;
        }
        Some(self.position + 1)
    }
}

// ── The ring ─────────────────────────────────────────────────────────────────

/// A ring buffer and its memory, whose header agrees with the shape in the other fields.
pub struct RingBuffer {
    pub mem: Vec<u8>,
    pub capacity: u32,
    pub slot_payload_size: u32,
    pub max_subscribers: u32,
}

impl View for RingBuffer {
    type V = RingView;

    open spec fn view(&self) -> RingView {
        ring_view(self.mem@, self.capacity, self.slot_payload_size, self.max_subscribers)
    }
}

/// Memory of at least `n` bytes: what a file that is too short lacks reads as zeros.
pub open spec fn padded(mem: Seq<u8>, n: int) -> Seq<u8> {
    if mem.len() >= n {
        mem
    } else {
        mem + Seq::new((n - mem.len()) as nat, |i: int| 0u8)
    }
}

/// The header of a ring.
pub open spec fn header_in(mem: Seq<u8>) -> Seq<u8> {
    padded(mem, OFF_CURSORS as int).take(OFF_CURSORS as int)
}

/// The shape in the header of a ring: capacity, slot size and number of subscribers.
pub open spec fn shape_in(mem: Seq<u8>) -> Result<(u32, u32, u32), IoKind> {
    let h = header_in(mem);
    if codec::le_at(h, OFF_MAGIC as int, 8) != MAGIC {
        Err(IoKind::InvalidData)
    } else {
        Ok(
            (
                codec::le_at(h, OFF_CAPACITY as int, 4) as u32,
                codec::le_at(h, OFF_SLOT_SIZE as int, 4) as u32,
                codec::le_at(h, OFF_MAX_SUBS as int, 4) as u32,
            ),
        )
    }
}

/// Reads the shape off the first bytes of a ring: refuses what does not start with the magic
/// number.
pub fn read_shape(start: &[u8]) -> (r: Result<(u32, u32, u32), IoKind>)
    ensures
        r == shape_in(start@),
{
    let mut h: Vec<u8> = Vec::new();
    let mut i: usize = 0;
    while i < OFF_CURSORS
        invariant
            i <= OFF_CURSORS,
            h@ == header_in(start@).take(i as int),
        decreases OFF_CURSORS - i,
    {
        h.push(
            if i < start.len() {
                start[i]
            } else {
                0
            },
        );
        i = i + 1;
        assert(h@ =~= header_in(start@).take(i as int));
    }
    assert(h@ =~= header_in(start@));
    if codec::read_u64(&h, OFF_MAGIC) != MAGIC {
        return Err(IoKind::InvalidData);
    }
    Ok(
        (
            codec::read_u32(&h, OFF_CAPACITY),
            codec::read_u32(&h, OFF_SLOT_SIZE),
            codec::read_u32(&h, OFF_MAX_SUBS),
        ),
    )
}

/// A ring of this shape fits into memory.
pub open spec fn addressable(shape: (u32, u32, u32)) -> bool {
    &&& ring_size(shape.0, shape.1, shape.2) <= usize::MAX
    &&& slots_start(shape.2) + 63 <= usize::MAX
    &&& SLOT_OVERHEAD + shape.1 + 7 <= usize::MAX
}

/// Padded memory has the header that the memory has.
proof fn lemma_padded(mem: Seq<u8>, n: int)
    requires
        n >= OFF_CURSORS,
    ensures
        ({
            let h = header_in(mem);
            let m = padded(mem, n);
            &&& m.len() >= n
            &&& codec::le_at(m, OFF_MAGIC as int, 8) == codec::le_at(h, OFF_MAGIC as int, 8)
            &&& codec::le_at(m, OFF_CAPACITY as int, 4) == codec::le_at(h, OFF_CAPACITY as int, 4)
            &&& codec::le_at(m, OFF_SLOT_SIZE as int, 4) == codec::le_at(h, OFF_SLOT_SIZE as int, 4)
            &&& codec::le_at(m, OFF_MAX_SUBS as int, 4) == codec::le_at(h, OFF_MAX_SUBS as int, 4)
            &&& codec::le_at(h, OFF_CAPACITY as int, 4) <= u32::MAX
            &&& codec::le_at(h, OFF_SLOT_SIZE as int, 4) <= u32::MAX
            &&& codec::le_at(h, OFF_MAX_SUBS as int, 4) <= u32::MAX
        }),
{
    let h = header_in(mem);
    let m = padded(mem, n);
    codec::lemma_pow256();
    codec::lemma_le_bytes_of_value(h.subrange(OFF_CAPACITY as int, OFF_CAPACITY + 4));
    codec::lemma_le_bytes_of_value(h.subrange(OFF_SLOT_SIZE as int, OFF_SLOT_SIZE + 4));
    codec::lemma_le_bytes_of_value(h.subrange(OFF_MAX_SUBS as int, OFF_MAX_SUBS + 4));
    assert(m.subrange(OFF_MAGIC as int, OFF_MAGIC + 8) =~= h.subrange(
        OFF_MAGIC as int,
        OFF_MAGIC + 8,
    ));
    assert(m.subrange(OFF_CAPACITY as int, OFF_CAPACITY + 4) =~= h.subrange(
        OFF_CAPACITY as int,
        OFF_CAPACITY + 4,
    ));
    assert(m.subrange(OFF_SLOT_SIZE as int, OFF_SLOT_SIZE + 4) =~= h.subrange(
        OFF_SLOT_SIZE as int,
        OFF_SLOT_SIZE + 4,
    ));
    assert(m.subrange(OFF_MAX_SUBS as int, OFF_MAX_SUBS + 4) =~= h.subrange(
        OFF_MAX_SUBS as int,
        OFF_MAX_SUBS + 4,
    ));
}

/// The ring of this shape that memory holds.
pub open spec fn ring_in(mem: Seq<u8>, shape: (u32, u32, u32)) -> RingView {
    ring_view(
        padded(mem, ring_size(shape.0, shape.1, shape.2) as int),
        shape.0,
        shape.1,
        shape.2,
    )
}

/// A ring that was never used.
pub open spec fn fresh(capacity: u32, slot_payload_size: u32, max_subscribers: u32) -> RingView {
    RingView {
        generation: 1,
        tail: 0,
        cursors: Seq::new(max_subscribers as nat, |i: int| CURSOR_UNCLAIMED),
        slots: Seq::new(
            capacity as nat,
            |i: int|
                SlotView { seq: 0, len: 0, area: Seq::new(slot_payload_size as nat, |j: int| 0u8) },
        ),
    }
}

/// A used ring in the hands of the next publisher.
pub open spec fn reused(v: RingView) -> RingView {
    RingView {
        generation: if v.generation == u64::MAX {
            0
        } else {
            (v.generation + 1) as u64
        },
        tail: 0,
        ..v
    }
}

/// The part of a fresh ring in front of its slots.
pub open spec fn is_fresh_prefix(b: Seq<u8>, capacity: u32, sps: u32, ms: u32) -> bool {
    &&& b.len() == slots_start(ms)
    &&& codec::le_at(b, 0, 8) == MAGIC
    &&& codec::le_at(b, 8, 4) == RING_VERSION
    &&& codec::le_at(b, 12, 4) == capacity
    &&& codec::le_at(b, 16, 4) == sps
    &&& codec::le_at(b, 20, 4) == ms
    &&& codec::le_at(b, 24, 8) == 1
    &&& codec::le_at(b, 32, 8) == 0
    &&& forall|i: int| 0 <= i < ms ==> codec::le_at(b, #[trigger] (OFF_CURSORS + 8 * i), 8)
        == CURSOR_UNCLAIMED
}

/// Zero bytes read as zero.
proof fn lemma_zero_value(s: Seq<u8>)
    requires
        forall|i: int| 0 <= i < s.len() ==> s[i] == 0,
    ensures
        codec::le_value(s) == 0,
    decreases s.len(),
{
    if s.len() > 0 {
        assert forall|i: int| 0 <= i < s.skip(1).len() implies s.skip(1)[i] == 0 by {
            assert(s.skip(1)[i] == s[i + 1]);
        }
        lemma_zero_value(s.skip(1));
    }
}

/// Appends `n` zero bytes.
fn push_zeros(out: &mut Vec<u8>, n: usize)
    ensures
        final(out)@ == old(out)@ + Seq::new(n as nat, |i: int| 0u8),
{
    let ghost before = out@;
    let mut i: usize = 0;
    assert(out@ =~= before + Seq::new(0, |i: int| 0u8));
    while i < n
        invariant
            i <= n,
            out@ == before + Seq::new(i as nat, |i: int| 0u8),
        decreases n - i,
    {
        out.push(0);
        i = i + 1;
        assert(out@ =~= before + Seq::new(i as nat, |i: int| 0u8));
    }
}

/// The header and the cursor table of a fresh ring: everything in front of its slots.
pub fn fresh_prefix(capacity: u32, slot_payload_size: u32, max_subscribers: u32) -> (b: Vec<u8>)
    requires
        slots_start(max_subscribers) + 63 <= usize::MAX,
    ensures
        is_fresh_prefix(b@, capacity, slot_payload_size, max_subscribers),
{
    let mut b: Vec<u8> = Vec::new();
    let start: usize = slots_offset(max_subscribers);
    codec::push_u64(&mut b, MAGIC);
    codec::push_u32(&mut b, RING_VERSION);
    codec::push_u32(&mut b, capacity);
    codec::push_u32(&mut b, slot_payload_size);
    codec::push_u32(&mut b, max_subscribers);
    codec::push_u64(&mut b, 1);
    codec::push_u64(&mut b, 0);
    codec::push_u64(&mut b, 0);
    codec::push_u64(&mut b, 0);
    codec::push_u64(&mut b, 0);
    let ghost head = b@;
    proof {
        codec::lemma_pow256();
        codec::lemma_le_value_of_bytes(MAGIC as nat, 8);
        codec::lemma_le_value_of_bytes(RING_VERSION as nat, 4);
        codec::lemma_le_value_of_bytes(capacity as nat, 4);
        codec::lemma_le_value_of_bytes(slot_payload_size as nat, 4);
        codec::lemma_le_value_of_bytes(max_subscribers as nat, 4);
        codec::lemma_le_value_of_bytes(1, 8);
        codec::lemma_le_value_of_bytes(0, 8);
        codec::lemma_le_value_of_bytes(CURSOR_UNCLAIMED as nat, 8);
        assert(head.len() == OFF_CURSORS);
        assert(head.subrange(0, 8) =~= codec::le_bytes(MAGIC as nat, 8));
        assert(head.subrange(8, 12) =~= codec::le_bytes(RING_VERSION as nat, 4));
        assert(head.subrange(12, 16) =~= codec::le_bytes(capacity as nat, 4));
        assert(head.subrange(16, 20) =~= codec::le_bytes(slot_payload_size as nat, 4));
        assert(head.subrange(20, 24) =~= codec::le_bytes(max_subscribers as nat, 4));
        assert(head.subrange(24, 32) =~= codec::le_bytes(1, 8));
        assert(head.subrange(32, 40) =~= codec::le_bytes(0, 8));
    }
    let mut i: u32 = 0;
    while i < max_subscribers
        invariant
            i <= max_subscribers,
            head.len() == OFF_CURSORS,
            b@.len() == OFF_CURSORS + 8 * i,
            b@.take(OFF_CURSORS as int) == head,
            codec::le_bytes(CURSOR_UNCLAIMED as nat, 8).len() == 8,
            codec::le_value(codec::le_bytes(CURSOR_UNCLAIMED as nat, 8)) == CURSOR_UNCLAIMED,
            forall|j: int| 0 <= j < i ==> codec::le_at(b@, #[trigger] (OFF_CURSORS + 8 * j), 8)
                == CURSOR_UNCLAIMED,
        decreases max_subscribers - i,
    {
        let ghost prev = b@;
        codec::push_u64(&mut b, CURSOR_UNCLAIMED);
        proof {
            assert(b@.take(OFF_CURSORS as int) =~= prev.take(OFF_CURSORS as int));
            assert forall|j: int| 0 <= j < i + 1 implies codec::le_at(
                b@,
                #[trigger] (OFF_CURSORS + 8 * j),
                8,
            ) == CURSOR_UNCLAIMED by {
                let at = OFF_CURSORS + 8 * j;
                if j < i {
                    assert(b@.subrange(at, at + 8) =~= prev.subrange(at, at + 8));
                } else {
                    assert(b@.subrange(at, at + 8) =~= codec::le_bytes(
                        CURSOR_UNCLAIMED as nat,
                        8,
                    ));
                }
            }
        }
        i = i + 1;
    }
    let ghost table = b@;
    let used: usize = b.len();
    push_zeros(&mut b, start - used);
    proof {
        assert forall|j: int| 0 <= j < max_subscribers implies codec::le_at(
            b@,
            #[trigger] (OFF_CURSORS + 8 * j),
            8,
        ) == CURSOR_UNCLAIMED by {
            let at = OFF_CURSORS + 8 * j;
            assert(b@.subrange(at, at + 8) =~= table.subrange(at, at + 8));
        }
        assert(b@.take(OFF_CURSORS as int) =~= head);
        assert(b@.subrange(0, 8) =~= head.subrange(0, 8));
        assert(b@.subrange(8, 12) =~= head.subrange(8, 12));
        assert(b@.subrange(12, 16) =~= head.subrange(12, 16));
        assert(b@.subrange(16, 20) =~= head.subrange(16, 20));
        assert(b@.subrange(20, 24) =~= head.subrange(20, 24));
        assert(b@.subrange(24, 32) =~= head.subrange(24, 32));
        assert(b@.subrange(32, 40) =~= head.subrange(32, 40));
    }
    b
}

/// A fresh prefix in front of zeros is a fresh ring.
proof fn lemma_fresh(b: Seq<u8>, mem: Seq<u8>, capacity: u32, sps: u32, ms: u32)
    requires
        is_fresh_prefix(b, capacity, sps, ms),
        mem.len() == ring_size(capacity, sps, ms),
        mem.take(b.len() as int) == b,
        forall|i: int| b.len() <= i < mem.len() ==> mem[i] == 0,
    ensures
        shaped(mem, capacity, sps, ms),
        ring_view(mem, capacity, sps, ms) == fresh(capacity, sps, ms),
{
    lemma_slot_bounds(sps, ms, 0, capacity as int);
    let v = ring_view(mem, capacity, sps, ms);
    let f = fresh(capacity, sps, ms);
    assert(mem.subrange(0, 8) =~= b.subrange(0, 8));
    assert(mem.subrange(12, 16) =~= b.subrange(12, 16));
    assert(mem.subrange(16, 20) =~= b.subrange(16, 20));
    assert(mem.subrange(20, 24) =~= b.subrange(20, 24));
    assert(mem.subrange(24, 32) =~= b.subrange(24, 32));
    assert(mem.subrange(32, 40) =~= b.subrange(32, 40));
    assert forall|i: int| 0 <= i < ms implies v.cursors[i] == f.cursors[i] by {
        let at = OFF_CURSORS + 8 * i;
        assert(mem.subrange(at, at + 8) =~= b.subrange(at, at + 8));
        assert(codec::le_at(b, OFF_CURSORS + 8 * i, 8) == CURSOR_UNCLAIMED);
    }
    assert(v.cursors =~= f.cursors);
    assert forall|i: int| 0 <= i < capacity implies v.slots[i] == f.slots[i] by {
        let at = slot_start(sps, ms, i);
        lemma_slot_bounds(sps, ms, 0, i);
        lemma_slot_bounds(sps, ms, i, capacity as int);
        lemma_zero_value(mem.subrange(at, at + 8));
        lemma_zero_value(mem.subrange(at + 8, at + 12));
        assert(v.slots[i].area =~= f.slots[i].area);
    }
    assert(v.slots =~= f.slots);
}

impl RingBuffer {
    /// The memory is that of a ring of this shape.
    pub open spec fn wf(&self) -> bool {
        shaped(self.mem@, self.capacity, self.slot_payload_size, self.max_subscribers)
    }

    /// What the parts of a ring have to do with each other.
    pub proof fn lemma_wf(&self)
        requires
            self.wf(),
        ensures
            self@.slots.len() == self.capacity,
            self@.cursors.len() == self.max_subscribers,
            forall|i: int|
                0 <= i < self.capacity ==> (#[trigger] self@.slots[i]).area.len()
                    == self.slot_payload_size,
    {
        assert forall|i: int| 0 <= i < self.capacity implies (#[trigger] self@.slots[i]).area.len()
            == self.slot_payload_size by {
            lemma_slot_bounds(self.slot_payload_size, self.max_subscribers, 0, i);
            lemma_slot_bounds(
                self.slot_payload_size,
                self.max_subscribers,
                i,
                self.capacity as int,
            );
        }
    }

    /// Creates a fresh ring.
    pub fn create(capacity: u32, slot_payload_size: u32, max_subscribers: u32) -> (r: RingBuffer)
        requires
            ring_size(capacity, slot_payload_size, max_subscribers) <= usize::MAX,
            slots_start(max_subscribers) + 63 <= usize::MAX,
            SLOT_OVERHEAD + slot_payload_size + 7 <= usize::MAX,
        ensures
            r.wf(),
            r.capacity == capacity,
            r.slot_payload_size == slot_payload_size,
            r.max_subscribers == max_subscribers,
            r.mem@.len() == ring_size(capacity, slot_payload_size, max_subscribers),
            codec::le_at(r.mem@, 8, 4) == RING_VERSION,
            r@ == fresh(capacity, slot_payload_size, max_subscribers),
    {
        let total: usize = mmap_size(capacity, slot_payload_size, max_subscribers);
        let mut mem: Vec<u8> = fresh_prefix(capacity, slot_payload_size, max_subscribers);
        let ghost prefix = mem@;
        let used: usize = mem.len();
        proof {
            lemma_slot_bounds(slot_payload_size, max_subscribers, 0, capacity as int);
        }
        push_zeros(&mut mem, total - used);
        proof {
            assert(mem@.take(prefix.len() as int) =~= prefix);
            assert(mem@.subrange(8, 12) =~= prefix.subrange(8, 12));
            lemma_fresh(prefix, mem@, capacity, slot_payload_size, max_subscribers);
        }
        RingBuffer { mem, capacity, slot_payload_size, max_subscribers }
    }

    /// The memory as a ring of the shape in its header.
    fn around(mem: Vec<u8>, shape: (u32, u32, u32)) -> (ring: RingBuffer)
        requires
            shape_in(mem@) == Ok::<(u32, u32, u32), IoKind>(shape),
            addressable(shape),
        ensures
            ring.wf(),
            (ring.capacity, ring.slot_payload_size, ring.max_subscribers) == shape,
            ring.mem@ == padded(mem@, ring_size(shape.0, shape.1, shape.2) as int),
            ring@ == ring_in(mem@, shape),
    {
        let (capacity, slot_payload_size, max_subscribers) = shape;
        let total: usize = mmap_size(capacity, slot_payload_size, max_subscribers);
        let len: usize = mem.len();
        let ghost before = mem@;
        let mut mem = mem;
        if len < total {
            push_zeros(&mut mem, total - len);
        }
        proof {
            lemma_slot_bounds(slot_payload_size, max_subscribers, 0, capacity as int);
            lemma_padded(before, total as int);
        }
        RingBuffer { mem, capacity, slot_payload_size, max_subscribers }
    }

    /// Takes memory for a ring: refuses what does not start with the magic number. What it
    /// lacks of the shape in its header counts as zeros.
    pub fn open(mem: Vec<u8>) -> (r: Result<RingBuffer, IoKind>)
        requires
            shape_in(mem@) matches Ok(shape) ==> addressable(shape),
        ensures
            match shape_in(mem@) {
                Err(kind) => r == Err::<RingBuffer, IoKind>(kind),
                Ok(shape) => {
                    &&& r matches Ok(ring)
                    &&& ring.wf()
                    &&& (ring.capacity, ring.slot_payload_size, ring.max_subscribers) == shape
                    &&& ring.mem@ == padded(mem@, ring_size(shape.0, shape.1, shape.2) as int)
                    &&& ring@ == ring_in(mem@, shape)
                },
            },
    {
        match read_shape(mem.as_slice()) {
            Err(kind) => Err(kind),
            Ok(shape) => Ok(RingBuffer::around(mem, shape)),
        }
    }

    /// What a publisher starts with: the ring that is there, if it has the wanted shape,
    /// with its generation moved on; a fresh one otherwise. The cursors of a ring that is
    /// used again stay claimed until their subscribers notice the new generation and let
    /// go of them.
    pub fn create_or_reuse(
        existing: Option<Vec<u8>>,
        capacity: u32,
        slot_payload_size: u32,
        max_subscribers: u32,
    ) -> (r: RingBuffer)
        requires
            ring_size(capacity, slot_payload_size, max_subscribers) <= usize::MAX,
            slots_start(max_subscribers) + 63 <= usize::MAX,
            SLOT_OVERHEAD + slot_payload_size + 7 <= usize::MAX,
        ensures
            r.wf(),
            r.capacity == capacity,
            r.slot_payload_size == slot_payload_size,
            r.max_subscribers == max_subscribers,
            r@ == (match existing {
                Some(mem) => if reusable(mem@, capacity, slot_payload_size, max_subscribers) {
                    reused(ring_in(mem@, (capacity, slot_payload_size, max_subscribers)))
                } else {
                    fresh(capacity, slot_payload_size, max_subscribers)
                },
                None => fresh(capacity, slot_payload_size, max_subscribers),
            }),
    {
        match existing {
            Some(mem) => match read_shape(mem.as_slice()) {
                Ok(shape) => {
                    if shape.0 == capacity && shape.1 == slot_payload_size && shape.2
                        == max_subscribers {
                        let mut ring: RingBuffer = RingBuffer::around(mem, shape);
                        let generation: u64 = ring.generation().wrapping_add(1);
                        ring.set_word(OFF_GENERATION, generation);
                        ring.set_tail(0);
                        return ring;
                    }
                },
                Err(_) => {},
            },
            None => {},
        }
        RingBuffer::create(capacity, slot_payload_size, max_subscribers)
    }

    /// The generation of the publisher: moves on whenever another one takes the ring.
    pub fn generation(&self) -> (g: u64)
        requires
            self.wf(),
        ensures
            g == self@.generation,
    {
        proof {
            lemma_slot_bounds(
                self.slot_payload_size,
                self.max_subscribers,
                0,
                self.capacity as int,
            );
        }
        codec::read_u64(self.mem.as_slice(), OFF_GENERATION)
    }

    /// The next position the producer will write.
    pub fn current_tail(&self) -> (t: u64)
        requires
            self.wf(),
        ensures
            t == self@.tail,
    {
        proof {
            lemma_slot_bounds(
                self.slot_payload_size,
                self.max_subscribers,
                0,
                self.capacity as int,
            );
        }
        codec::read_u64(self.mem.as_slice(), OFF_TAIL)
    }

    /// Overwrites a word in front of the slots: the generation, the tail or a cursor.
    fn set_word(&mut self, at: usize, x: u64)
        requires
            old(self).wf(),
            24 <= at,
            at + 8 <= OFF_CURSORS + 8 * old(self).max_subscribers,
        ensures
            final(self).wf(),
            final(self).capacity == old(self).capacity,
            final(self).slot_payload_size == old(self).slot_payload_size,
            final(self).max_subscribers == old(self).max_subscribers,
            final(self).mem@ == codec::patch(
                old(self).mem@,
                at as int,
                codec::le_bytes(x as nat, 8),
            ),
            final(self)@.slots == old(self)@.slots,
            at == OFF_GENERATION ==> final(self)@ == (RingView { generation: x, ..old(self)@ }),
            at == OFF_TAIL ==> final(self)@ == (RingView { tail: x, ..old(self)@ }),
            forall|i: int|
                at == OFF_CURSORS + 8 * i && 0 <= i < old(self).max_subscribers ==> final(self)@
                    == (RingView {
                    cursors: #[trigger] old(self)@.cursors.update(i, x),
                    ..old(self)@
                }),
    {
        proof {
            lemma_slot_bounds(
                self.slot_payload_size,
                self.max_subscribers,
                0,
                self.capacity as int,
            );
            lemma_word_change(
                self.mem@,
                at as int,
                x,
                self.capacity,
                self.slot_payload_size,
                self.max_subscribers,
            );
        }
        let ghost v1 = self@;
        let total: usize = self.mem.len();
        codec::write_u64(&mut self.mem, at, x);
        proof {
            let v2 = self@;
            if at == OFF_GENERATION || at == OFF_TAIL {
                assert(v2.cursors =~= v1.cursors);
            }
            assert forall|i: int|
                at == OFF_CURSORS + 8 * i && 0 <= i < self.max_subscribers implies v2 == (
            RingView { cursors: #[trigger] v1.cursors.update(i, x), ..v1 }) by {
                assert(v2.cursors =~= v1.cursors.update(i, x));
            }
        }
    }

    /// Moves the tail: used to align a ring with the log that backs it.
    pub fn set_tail(&mut self, tail: u64)
        requires
            old(self).wf(),
        ensures
            final(self).wf(),
            final(self).capacity == old(self).capacity,
            final(self).slot_payload_size == old(self).slot_payload_size,
            final(self).max_subscribers == old(self).max_subscribers,
            final(self)@ == (RingView { tail, ..old(self)@ }),
    {
        self.set_word(OFF_TAIL, tail);
    }

    /// One cursor of the cursor table.
    fn cursor_at(&self, i: usize) -> (c: u64)
        requires
            self.wf(),
            i < self.max_subscribers,
        ensures
            c == self@.cursors[i as int],
    {
        proof {
            lemma_slot_bounds(
                self.slot_payload_size,
                self.max_subscribers,
                0,
                self.capacity as int,
            );
        }
        let total: usize = self.mem.len();
        codec::read_u64(self.mem.as_slice(), OFF_CURSORS + 8 * i)
    }

    /// A snapshot of the cursor table.
    pub fn cursors(&self) -> (cs: Vec<u64>)
        requires
            self.wf(),
        ensures
            cs@ == self@.cursors,
    {
        let mut cs: Vec<u64> = Vec::new();
        let mut i: usize = 0;
        while i < self.max_subscribers as usize
            invariant
                self.wf(),
                i <= self.max_subscribers,
                self@.cursors.len() == self.max_subscribers,
                cs@ == self@.cursors.take(i as int),
            decreases self.max_subscribers - i,
        {
            cs.push(self.cursor_at(i));
            i = i + 1;
            assert(cs@ =~= self@.cursors.take(i as int));
        }
        assert(cs@ =~= self@.cursors);
        cs
    }

    /// Claims a free slot of the cursor table, starting it at `initial_cursor`. Returns
    /// its place, or `None` if all of them are taken.
    pub fn claim_cursor(&mut self, initial_cursor: u64) -> (r: Option<usize>)
        requires
            old(self).wf(),
        ensures
            final(self).wf(),
            final(self).capacity == old(self).capacity,
            final(self).slot_payload_size == old(self).slot_payload_size,
            final(self).max_subscribers == old(self).max_subscribers,
            match first_free(old(self)@.cursors) {
                None => r is None && final(self)@ == old(self)@,
                Some(i) => {
                    &&& r matches Some(j)
                    &&& j == i
                    &&& 0 <= i < old(self)@.cursors.len()
                    &&& final(self)@ == (RingView {
                        cursors: old(self)@.cursors.update(i, initial_cursor),
                        ..old(self)@
                    })
                },
            },
    {
        let mut i: usize = 0;
        while i < self.max_subscribers as usize
            invariant
                self.wf(),
                i <= self.max_subscribers,
                self@.cursors.len() == self.max_subscribers,
                *self == *old(self),
                first_free(self@.cursors.take(i as int)) is None,
            decreases self.max_subscribers - i,
        {
            let c: u64 = self.cursor_at(i);
            assert(self@.cursors.take(i + 1).drop_last() =~= self@.cursors.take(i as int));
            if c == CURSOR_UNCLAIMED {
                proof {
                    lemma_first_free_prefix(self@.cursors, i + 1);
                }
                assert(self@.cursors.update(i as int, initial_cursor).len() == self.max_subscribers);
                let total: usize = self.mem.len();
                proof {
                    lemma_slot_bounds(
                        self.slot_payload_size,
                        self.max_subscribers,
                        0,
                        self.capacity as int,
                    );
                }
                self.set_word(OFF_CURSORS + 8 * i, initial_cursor);
                return Some(i);
            }
            i = i + 1;
        }
        assert(self@.cursors.take(i as int) =~= self@.cursors);
        None
    }

    /// Overwrites the cursor of a claimed slot.
    pub fn set_cursor(&mut self, idx: usize, value: u64)
        requires
            old(self).wf(),
            idx < old(self).max_subscribers,
        ensures
            final(self).wf(),
            final(self).capacity == old(self).capacity,
            final(self).slot_payload_size == old(self).slot_payload_size,
            final(self).max_subscribers == old(self).max_subscribers,
            final(self)@ == (RingView {
                cursors: old(self)@.cursors.update(idx as int, value),
                ..old(self)@
            }),
    {
        let total: usize = self.mem.len();
        proof {
            lemma_slot_bounds(
                self.slot_payload_size,
                self.max_subscribers,
                0,
                self.capacity as int,
            );
        }
        assert(self@.cursors.update(idx as int, value).len() == self.max_subscribers);
        self.set_word(OFF_CURSORS + 8 * idx, value);
    }

    /// Gives a slot of the cursor table back.
    pub fn release_cursor(&mut self, idx: usize)
        requires
            old(self).wf(),
            idx < old(self).max_subscribers,
        ensures
            final(self).wf(),
            final(self).capacity == old(self).capacity,
            final(self).slot_payload_size == old(self).slot_payload_size,
            final(self).max_subscribers == old(self).max_subscribers,
            final(self)@ == (RingView {
                cursors: old(self)@.cursors.update(idx as int, CURSOR_UNCLAIMED),
                ..old(self)@
            }),
    {
        self.set_cursor(idx, CURSOR_UNCLAIMED);
    }

    /// The smallest claimed cursor, or `None` if there are no subscribers.
    pub fn min_active_cursor(&self) -> (r: Option<u64>)
        requires
            self.wf(),
        ensures
            r == min_claimed(self@.cursors),
    {
        min_of(&self.cursors())
    }

    /// Whether the slowest subscriber is too far behind for one more message.
    pub fn is_full(&self) -> (full: bool)
        requires
            self.wf(),
        ensures
            full == full_at(self@.tail, self@.cursors, self.capacity),
    {
        is_full_at(self.current_tail(), &self.cursors(), self.capacity)
    }

    /// Where the slot of a position starts.
    fn slot_offset(&self, position: u64) -> (at: usize)
        requires
            self.wf(),
            self.capacity > 0,
        ensures
            at == slot_start(
                self.slot_payload_size,
                self.max_subscribers,
                slot_of(position, self.capacity as nat),
            ),
            at + stride_of(self.slot_payload_size) <= self.mem@.len() <= usize::MAX,
            SLOT_OVERHEAD + self.slot_payload_size <= stride_of(self.slot_payload_size),
    {
        let total: usize = self.mem.len();
        let idx: usize = (position % self.capacity as u64) as usize;
        proof {
            lemma_slot_bounds(self.slot_payload_size, self.max_subscribers, 0, idx as int);
            lemma_slot_bounds(
                self.slot_payload_size,
                self.max_subscribers,
                idx as int,
                self.capacity as int,
            );
            lemma_slot_bounds(self.slot_payload_size, self.max_subscribers, 0, 1);
            lemma_slot_bounds(
                self.slot_payload_size,
                self.max_subscribers,
                1,
                self.capacity as int,
            );
            let stride = stride_of(self.slot_payload_size);
            assert(stride * idx >= 0) by (nonlinear_arith)
                requires
                    stride >= 0,
            ;
        }
        let raw: usize = OFF_CURSORS + 8 * self.max_subscribers as usize;
        slots_offset_within(raw, total) + slot_stride_within(self.slot_payload_size, total) * idx
    }

    /// Writes `data` into the slot for `tail` and stamps it. The sequence number comes
    /// last, so that whoever sees it sees the message.
    fn write_slot(&mut self, tail: u64, data: &[u8])
        requires
            old(self).wf(),
            old(self).capacity > 0,
            data@.len() <= old(self).slot_payload_size,
        ensures
            final(self).wf(),
            final(self).capacity == old(self).capacity,
            final(self).slot_payload_size == old(self).slot_payload_size,
            final(self).max_subscribers == old(self).max_subscribers,
            ({
                let i = slot_of(tail, old(self).capacity as nat);
                final(self)@ == (RingView {
                    slots: old(self)@.slots.update(
                        i,
                        SlotView {
                            seq: tail,
                            len: data@.len() as u32,
                            area: codec::patch(old(self)@.slots[i].area, 0, data@),
                        },
                    ),
                    ..old(self)@
                })
            }),
    {
        let at: usize = self.slot_offset(tail);
        let ghost m0 = self.mem@;
        let ghost i = slot_of(tail, self.capacity as nat);
        let ghost n = data@.len() as int;
        let ghost sps = self.slot_payload_size as int;
        codec::write_u32(&mut self.mem, at + 8, data.len() as u32);
        codec::write_bytes(&mut self.mem, at + 12, data);
        codec::write_u64(&mut self.mem, at, tail);
        proof {
            let m = self.mem@;
            codec::lemma_pow256();
            codec::lemma_le_value_of_bytes(tail as nat, 8);
            codec::lemma_le_value_of_bytes(n as nat, 4);
            assert(same_outside(m0, m, at as int, at + SLOT_OVERHEAD + sps));
            lemma_slot_change(
                m0,
                m,
                self.capacity,
                self.slot_payload_size,
                self.max_subscribers,
                i,
            );
            assert(m.subrange(at as int, at + 8) =~= codec::le_bytes(tail as nat, 8));
            assert(m.subrange(at + 8, at + 8 + 4) =~= codec::le_bytes(n as nat, 4));
            assert(m.subrange(at + 12, at + 12 + sps) =~= codec::patch(
                m0.subrange(at + 12, at + 12 + sps),
                0,
                data@,
            ));
        }
    }

    /// Writes `data` to the next slot. Returns `false` if the ring is full: the slowest
    /// subscriber is too far behind.
    pub fn try_publish(&mut self, data: &[u8]) -> (ok: bool)
        requires
            old(self).wf(),
            data@.len() <= old(self).slot_payload_size,
            old(self)@.tail < u64::MAX,
        ensures
            final(self).wf(),
            final(self).capacity == old(self).capacity,
            final(self).slot_payload_size == old(self).slot_payload_size,
            final(self).max_subscribers == old(self).max_subscribers,
            ok == !full_at(old(self)@.tail, old(self)@.cursors, old(self).capacity),
            final(self)@ == (if ok {
                published(old(self)@, data@)
            } else {
                old(self)@
            }),
    {
        let tail: u64 = self.current_tail();
        if self.is_full() {
            return false;
        }
        self.write_slot(tail, data);
        self.set_tail(tail + 1);
        true
    }

    /// Writes `data` to the next slot, whatever it held: subscribers see from the
    /// sequence number that they were overtaken, and skip forward.
    pub fn publish_drop_oldest(&mut self, data: &[u8]) -> (ok: bool)
        requires
            old(self).wf(),
            old(self).capacity > 0,
            data@.len() <= old(self).slot_payload_size,
            old(self)@.tail < u64::MAX,
        ensures
            ok,
            final(self).wf(),
            final(self).capacity == old(self).capacity,
            final(self).slot_payload_size == old(self).slot_payload_size,
            final(self).max_subscribers == old(self).max_subscribers,
            final(self)@ == published(old(self)@, data@),
    {
        let tail: u64 = self.current_tail();
        self.write_slot(tail, data);
        self.set_tail(tail + 1);
        true
    }

    /// Reads the message at `local_cursor` for the subscriber at `cursor_idx`: copies it
    /// into `out`, moves the subscriber's cursor and returns it. A subscriber that was
    /// overtaken skips forward to the message that stands in its slot now. `None` if there
    /// is no message.
    pub fn try_receive(&mut self, cursor_idx: usize, local_cursor: u64, out: &mut Vec<u8>) -> (r:
        Option<u64>)
        requires
            old(self).wf(),
            old(self).capacity > 0 || local_cursor >= old(self)@.tail,
            cursor_idx < old(self).max_subscribers,
            forall|i: int|
                0 <= i < old(self)@.slots.len() ==> (#[trigger] old(self)@.slots[i]).seq < u64::MAX,
        ensures
            final(self).wf(),
            final(self).capacity == old(self).capacity,
            final(self).slot_payload_size == old(self).slot_payload_size,
            final(self).max_subscribers == old(self).max_subscribers,
            match readable_at(old(self)@, old(self).slot_payload_size, local_cursor) {
                None => r is None && final(self)@ == old(self)@ && final(out)@ == old(out)@,
                Some(p) => {
                    &&& p < u64::MAX
                    &&& r == Some((p + 1) as u64)
                    &&& final(out)@ == old(self)@.slots[slot_of(
                        p,
                        old(self)@.slots.len(),
                    )].payload()
                    &&& final(self)@ == (RingView {
                        cursors: old(self)@.cursors.update(cursor_idx as int, (p + 1) as u64),
                        ..old(self)@
                    })
                },
            },
    {
        let tail: u64 = self.current_tail();
        let mut reader: SlotReader = match SlotReader::start(local_cursor, tail) {
            Some(r) => r,
            None => {
                return None;
            },
        };
        let ghost v = self@;
        let ghost want = readable_at(v, self.slot_payload_size, local_cursor);
        proof {
            self.lemma_wf();
        }
        loop
            invariant
                self.wf(),
                *self == *old(self),
                self@ == v,
                v.slots.len() == self.capacity,
                self.capacity > 0,
                cursor_idx < self.max_subscribers,
                out@ == old(out)@,
                reader.position < u64::MAX,
                forall|i: int| 0 <= i < v.slots.len() ==> (#[trigger] v.slots[i]).seq < u64::MAX,
                want == readable_at(v, self.slot_payload_size, local_cursor),
                want == resolved(
                    v.slots,
                    self.slot_payload_size,
                    reader.position,
                    reader.tries as nat,
                ),
            decreases reader.tries,
        {
            if !reader.next_try() {
                return None;
            }
            let at: usize = self.slot_offset(reader.position);
            let seq_before: u64 = codec::read_u64(self.mem.as_slice(), at);
            let ghost slot = v.slots[slot_of(reader.position, v.slots.len())];
            assert(slot.seq == seq_before);
            match reader.before_copy(seq_before) {
                SeqBefore::Skipped => {
                    continue;
                },
                SeqBefore::Missing => {
                    return None;
                },
                SeqBefore::Present => {},
            }
            let len: u32 = codec::read_u32(self.mem.as_slice(), at + 8);
            if len > self.slot_payload_size {
                assert(resolved(
                    v.slots,
                    self.slot_payload_size,
                    reader.position,
                    reader.tries as nat,
                ) is None);
                continue;
            }
            let copy: Vec<u8> = codec::copy_range(
                self.mem.as_slice(),
                at + 12,
                at + 12 + len as usize,
            );
            assert(copy@ =~= slot.payload());
            let seq_after: u64 = codec::read_u64(self.mem.as_slice(), at);
            match reader.after_copy(seq_after) {
                Some(new_cursor) => {
                    out.clear();
                    codec::push_bytes(out, copy.as_slice());
                    assert(out@ =~= copy@);
                    self.set_cursor(cursor_idx, new_cursor);
                    return Some(new_cursor);
                },
                None => {
                    continue;
                },
            }
        }
    }

    /// Snapshot of the ring's backpressure state.
    pub fn stats(&self) -> (s: RingStats)
        requires
            self.wf(),
        ensures
            stats_are(s, self@.tail, self@.cursors),
    {
        stats_of(self.current_tail(), &self.cursors())
    }

    /// The lags of the active subscribers, with their places in the cursor table.
    pub fn lags_with_idx(&self) -> (lags: Vec<(usize, u64)>)
        requires
            self.wf(),
        ensures
            lags@ == lags_at(self@.tail, self@.cursors),
    {
        lags_of(self.current_tail(), &self.cursors())
    }
}

/// Memory that a publisher can take over: a ring of the wanted shape.
pub open spec fn reusable(mem: Seq<u8>, capacity: u32, sps: u32, ms: u32) -> bool {
    shape_in(mem) == Ok::<(u32, u32, u32), IoKind>((capacity, sps, ms))
}

proof fn lemma_first_free_prefix(cursors: Seq<u64>, k: int)
    requires
        0 <= k <= cursors.len(),
        first_free(cursors.take(k)) is Some,
    ensures
        first_free(cursors) == first_free(cursors.take(k)),
    decreases cursors.len() - k,
{
    if k == cursors.len() {
        assert(cursors.take(k) =~= cursors);
    } else {
        assert(cursors.take(k + 1).drop_last() =~= cursors.take(k));
        lemma_first_free_prefix(cursors, k + 1);
    }
}

/// Where the slots start, when it lies within `total` bytes.
fn slots_offset_within(raw: usize, total: usize) -> (n: usize)
    requires
        align_up(raw as int, 64) <= total,
    ensures
        n == align_up(raw as int, 64),
{
    let q: usize = raw / 64;
    let r: usize = raw % 64;
    assert(raw == 64 * q + r && r < 64);
    if r == 0 {
        assert((64 * q + 63) / 64 == q);
        raw
    } else {
        assert((64 * q + r + 63) / 64 == q + 1);
        raw - r + 64
    }
}

/// The slot stride, when it is at most `total` bytes.
fn slot_stride_within(slot_payload_size: u32, total: usize) -> (n: usize)
    requires
        stride_of(slot_payload_size) <= total,
    ensures
        n == stride_of(slot_payload_size),
{
    let raw: usize = SLOT_OVERHEAD + slot_payload_size as usize;
    let q: usize = raw / 8;
    let r: usize = raw % 8;
    assert(raw == 8 * q + r && r < 8);
    if r == 0 {
        assert((8 * q + 7) / 8 == q);
        raw
    } else {
        assert((8 * q + r + 7) / 8 == q + 1);
        raw - r + 8
    }
}

/// Whether `total` bytes hold a ring of this shape.
pub fn holds_shape(total: usize, capacity: u32, slot_payload_size: u32, max_subscribers: u32) -> (ok:
    bool)
    ensures
        ok == (total >= ring_size(capacity, slot_payload_size, max_subscribers)),
{
    let start: u128 = (64u128 + 8 * max_subscribers as u128 + 63) / 64 * 64;
    let stride: u128 = (12u128 + slot_payload_size as u128 + 7) / 8 * 8;
    assert(stride * capacity <= 0x1_0000_0010 * 0xFFFF_FFFF) by (nonlinear_arith)
        requires
            stride <= 0x1_0000_0010,
            capacity <= 0xFFFF_FFFF,
    ;
    assert(stride * capacity >= 0) by (nonlinear_arith)
        requires
            stride >= 0,
    ;
    total as u128 >= start + stride * capacity as u128
}

} // verus!

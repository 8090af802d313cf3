//! What publishers and subscribers of a ring can rely on.

use crate::codec;
use crate::ring;
use crate::ring::{RingView, SlotView, CURSOR_UNCLAIMED, MAX_RETRIES};
use vstd::prelude::*;

verus! {

/// The ring carries `msgs`, published one after the other from position `base` on: the
/// last `capacity` of them stand in their slots.
pub open spec fn carries(v: RingView, slot_payload_size: u32, base: u64, msgs: Seq<Seq<u8>>) -> bool {
    let capacity = v.slots.len();
    &&& capacity > 0
    &&& v.tail == base + msgs.len()
    &&& forall|i: int| 0 <= i < capacity ==> (#[trigger] v.slots[i]).area.len() == slot_payload_size
    &&& forall|p: u64|
        base <= p < v.tail && v.tail - p <= capacity ==> #[trigger] in_slot(
            v,
            slot_payload_size,
            p,
            msgs[p - base],
        )
}

/// The slot of position `p` holds the message `msg` for it.
pub open spec fn in_slot(v: RingView, slot_payload_size: u32, p: u64, msg: Seq<u8>) -> bool {
    let s = v.slots[ring::slot_of(p, v.slots.len())];
    &&& s.seq == p
    &&& s.len <= slot_payload_size
    &&& s.payload() == msg
}

/// Every claimed cursor is at most `capacity` messages behind the tail, and not ahead.
pub open spec fn cursors_within(v: RingView) -> bool {
    forall|i: int|
        0 <= i < v.cursors.len() && ring::claimed(#[trigger] v.cursors[i]) ==> v.cursors[i]
            <= v.tail && v.tail - v.cursors[i] <= v.slots.len()
}

/// Positions less than `n` apart have different slots.
proof fn lemma_slots_differ(p: u64, q: u64, n: nat)
    requires
        n > 0,
        p < q,
        q - p < n,
    ensures
        ring::slot_of(p, n) != ring::slot_of(q, n),
{
    let a = p as int / n as int;
    let b = q as int / n as int;
    vstd::arithmetic::div_mod::lemma_fundamental_div_mod(p as int, n as int);
    vstd::arithmetic::div_mod::lemma_fundamental_div_mod(q as int, n as int);
    if ring::slot_of(p, n) == ring::slot_of(q, n) {
        assert(n * b - n * a == q - p);
        assert(n * b - n * a == n * (b - a)) by (nonlinear_arith);
        assert(false) by (nonlinear_arith)
            requires
                0 < n * (b - a) < n,
                n > 0,
        ;
    }
}

/// The smallest claimed cursor is one of them, and none is below it.
pub proof fn lemma_min_claimed(cursors: Seq<u64>)
    ensures
        match ring::min_claimed(cursors) {
            None => forall|i: int| 0 <= i < cursors.len() ==> !ring::claimed(#[trigger] cursors[i]),
            Some(m) => {
                &&& exists|i: int|
                    0 <= i < cursors.len() && ring::claimed(#[trigger] cursors[i]) && cursors[i]
                        == m
                &&& forall|i: int|
                    0 <= i < cursors.len() && ring::claimed(#[trigger] cursors[i]) ==> m
                        <= cursors[i]
            },
        },
    decreases cursors.len(),
{
    if cursors.len() > 0 {
        let rest = cursors.drop_last();
        lemma_min_claimed(rest);
        let n = cursors.len() - 1;
        assert(forall|i: int| 0 <= i < n ==> rest[i] == cursors[i]);
        match ring::min_claimed(cursors) {
            Some(m) => {
                if ring::claimed(cursors[n]) && cursors[n] == m {
                } else {
                    let i = choose|i: int|
                        0 <= i < rest.len() && ring::claimed(#[trigger] rest[i]) && rest[i] == m;
                    assert(cursors[i] == m);
                }
            },
            None => {},
        }
    }
}

/// A ring in use is full exactly when one of its subscribers is a whole capacity behind.
pub proof fn law_full_means_a_slow_subscriber(v: RingView, capacity: u32)
    requires
        capacity == v.slots.len(),
        capacity > 0,
        cursors_within(v),
    ensures
        ring::full_at(v.tail, v.cursors, capacity) <==> exists|i: int|
            0 <= i < v.cursors.len() && ring::claimed(#[trigger] v.cursors[i]) && v.tail
                - v.cursors[i] == capacity,
{
    lemma_min_claimed(v.cursors);
    if ring::full_at(v.tail, v.cursors, capacity) {
        let m = ring::min_claimed(v.cursors)->Some_0;
        let i = choose|i: int|
            0 <= i < v.cursors.len() && ring::claimed(#[trigger] v.cursors[i]) && v.cursors[i] == m;
        assert(v.cursors[i] == m);
    }
}

/// Without subscribers a ring is never full.
pub proof fn law_never_full_without_subscribers(v: RingView, capacity: u32)
    requires
        capacity > 0,
        forall|i: int| 0 <= i < v.cursors.len() ==> !ring::claimed(#[trigger] v.cursors[i]),
    ensures
        !ring::full_at(v.tail, v.cursors, capacity),
{
    lemma_min_claimed(v.cursors);
}

/// Publishing adds the message to those that the ring carries, whether or not the ring
/// was full.
pub proof fn law_publish_adds_message(
    v: RingView,
    slot_payload_size: u32,
    base: u64,
    msgs: Seq<Seq<u8>>,
    data: Seq<u8>,
)
    requires
        carries(v, slot_payload_size, base, msgs),
        data.len() <= slot_payload_size,
        v.tail < u64::MAX,
    ensures
        carries(ring::published(v, data), slot_payload_size, base, msgs.push(data)),
{
    let w = ring::published(v, data);
    let n = v.slots.len();
    let t = ring::slot_of(v.tail, n);
    let all = msgs.push(data);
    assert(w.slots[t].area.take(data.len() as int) =~= data);
    assert forall|i: int| 0 <= i < n implies (#[trigger] w.slots[i]).area.len()
        == slot_payload_size by {
        assert(v.slots[i].area.len() == slot_payload_size);
        assert(v.slots[t].area.len() == slot_payload_size);
    }
    assert forall|p: u64| base <= p < w.tail && w.tail - p <= n implies #[trigger] in_slot(
        w,
        slot_payload_size,
        p,
        all[p - base],
    ) by {
        if p == v.tail {
            assert(all[p - base] == data);
        } else {
            lemma_slots_differ(p, v.tail, n);
            assert(in_slot(v, slot_payload_size, p, msgs[p - base]));
            assert(all[p - base] == msgs[p - base]);
        }
    }
}

/// Under the policy that refuses messages when the ring is full, no subscriber is ever
/// more than a capacity behind: nothing that it has not read is overwritten.
pub proof fn law_unread_messages_survive(v: RingView, capacity: u32, data: Seq<u8>)
    requires
        capacity == v.slots.len(),
        capacity > 0,
        cursors_within(v),
        v.tail < u64::MAX,
        !ring::full_at(v.tail, v.cursors, capacity),
    ensures
        cursors_within(ring::published(v, data)),
{
    lemma_min_claimed(v.cursors);
    let w = ring::published(v, data);
    assert forall|i: int| 0 <= i < w.cursors.len() && ring::claimed(#[trigger] w.cursors[i]) implies
        w.cursors[i] <= w.tail && w.tail - w.cursors[i] <= w.slots.len() by {
        assert(v.cursors[i] == w.cursors[i]);
        assert(v.cursors[i] <= v.tail);
    }
}

/// A subscriber that is at most a capacity behind reads the message at its cursor: every
/// message, once, in the order in which they were published.
pub proof fn law_subscriber_reads_in_order(
    v: RingView,
    slot_payload_size: u32,
    base: u64,
    msgs: Seq<Seq<u8>>,
    cursor: u64,
)
    requires
        carries(v, slot_payload_size, base, msgs),
        base <= cursor < v.tail,
        v.tail - cursor <= v.slots.len(),
    ensures
        ring::readable_at(v, slot_payload_size, cursor) == Some(cursor),
        v.slots[ring::slot_of(cursor, v.slots.len())].payload() == msgs[cursor - base],
{
    assert(in_slot(v, slot_payload_size, cursor, msgs[cursor - base]));
    assert(ring::resolved(v.slots, slot_payload_size, cursor, MAX_RETRIES as nat) == Some(cursor));
}

/// A subscriber at the tail, or ahead of it, has nothing to read.
pub proof fn law_nothing_past_the_tail(v: RingView, slot_payload_size: u32, cursor: u64)
    requires
        cursor >= v.tail,
    ensures
        ring::readable_at(v, slot_payload_size, cursor) is None,
{
}

/// A subscriber that was overtaken skips forward to a message that is still there: the one
/// in its slot, which is among the last `capacity`.
pub proof fn law_overtaken_subscriber_skips(
    v: RingView,
    slot_payload_size: u32,
    base: u64,
    msgs: Seq<Seq<u8>>,
    cursor: u64,
)
    requires
        carries(v, slot_payload_size, base, msgs),
        base <= cursor,
        v.tail - cursor > v.slots.len(),
    ensures
        ({
            let r = ring::readable_at(v, slot_payload_size, cursor);
            let q = r->Some_0;
            &&& r is Some
            &&& cursor < q < v.tail
            &&& v.tail - q <= v.slots.len()
            &&& ring::slot_of(q, v.slots.len()) == ring::slot_of(cursor, v.slots.len())
            &&& v.slots[ring::slot_of(q, v.slots.len())].payload() == msgs[q - base]
        }),
{
    let n = v.slots.len() as int;
    let first = v.tail - n;
    // The position in first..tail that shares the slot of `cursor`.
    let gap = (first - cursor) + (n - 1);
    let k = gap / n;
    vstd::arithmetic::div_mod::lemma_fundamental_div_mod(gap, n);
    vstd::arithmetic::div_mod::lemma_mod_bound(gap, n);
    let q = cursor + n * k;
    assert(first <= q < v.tail);
    assert(q as u64 as int == q);
    let qq = q as u64;
    assert(q % n == cursor as int % n) by {
        vstd::arithmetic::div_mod::lemma_mod_multiples_vanish(k, cursor as int, n);
        assert(n * k + cursor == q);
    }
    assert(ring::slot_of(qq, v.slots.len()) == ring::slot_of(cursor, v.slots.len()));
    assert(in_slot(v, slot_payload_size, qq, msgs[q - base]));
    reveal_with_fuel(ring::resolved, 3);
    assert(ring::resolved(v.slots, slot_payload_size, cursor, MAX_RETRIES as nat) == Some(qq));
}

/// Reading moves the cursor of the reader alone, and keeps all that the ring carries.
pub proof fn law_receive_keeps_messages(
    v: RingView,
    slot_payload_size: u32,
    base: u64,
    msgs: Seq<Seq<u8>>,
    idx: int,
    cursor: u64,
)
    requires
        carries(v, slot_payload_size, base, msgs),
        0 <= idx < v.cursors.len(),
    ensures
        carries(
            RingView { cursors: v.cursors.update(idx, cursor), ..v },
            slot_payload_size,
            base,
            msgs,
        ),
{
    let w = RingView { cursors: v.cursors.update(idx, cursor), ..v };
    assert forall|p: u64| base <= p < w.tail && w.tail - p <= w.slots.len() implies #[trigger] in_slot(
        w,
        slot_payload_size,
        p,
        msgs[p - base],
    ) by {
        assert(in_slot(v, slot_payload_size, p, msgs[p - base]));
    }
}

/// The first free slot is free, and those before it are claimed.
pub proof fn lemma_first_free(cursors: Seq<u64>)
    ensures
        match ring::first_free(cursors) {
            None => forall|i: int| 0 <= i < cursors.len() ==> ring::claimed(#[trigger] cursors[i]),
            Some(i) => {
                &&& 0 <= i < cursors.len()
                &&& !ring::claimed(cursors[i])
                &&& forall|j: int| 0 <= j < i ==> ring::claimed(#[trigger] cursors[j])
            },
        },
    decreases cursors.len(),
{
    if cursors.len() > 0 {
        let rest = cursors.drop_last();
        lemma_first_free(rest);
        assert(forall|i: int| 0 <= i < rest.len() ==> rest[i] == cursors[i]);
    }
}

/// A claim takes a slot that belongs to nobody and leaves the claims of the others alone.
/// It fails exactly when every slot is taken.
pub proof fn law_claim_disturbs_nobody(cursors: Seq<u64>, initial: u64)
    ensures
        ring::first_free(cursors) is None <==> forall|i: int|
            0 <= i < cursors.len() ==> ring::claimed(#[trigger] cursors[i]),
        ring::first_free(cursors) matches Some(i) ==> {
            &&& 0 <= i < cursors.len()
            &&& !ring::claimed(cursors[i])
            &&& forall|j: int|
                0 <= j < cursors.len() && ring::claimed(#[trigger] cursors[j])
                    ==> cursors.update(i, initial)[j] == cursors[j]
        },
{
    lemma_first_free(cursors);
}

/// A slot that is given back can be claimed again.
pub proof fn law_released_slot_is_free(cursors: Seq<u64>, idx: int)
    requires
        0 <= idx < cursors.len(),
    ensures
        ring::first_free(cursors.update(idx, CURSOR_UNCLAIMED)) is Some,
{
    let after = cursors.update(idx, CURSOR_UNCLAIMED);
    lemma_first_free(after);
    assert(!ring::claimed(after[idx]));
}

/// A publisher that takes over a ring starts at position zero, shows a new generation to
/// the subscribers of the one before, and leaves their cursors claimed.
pub proof fn law_takeover_is_visible(v: RingView)
    ensures
        ring::reused(v).generation != v.generation,
        ring::reused(v).tail == 0,
        ring::reused(v).cursors == v.cursors,
{
}

/// A fresh ring carries no messages, whatever its tail is set to.
pub proof fn law_fresh_ring_is_empty(capacity: u32, slot_payload_size: u32, max_subscribers: u32, tail: u64)
    requires
        capacity > 0,
    ensures
        carries(
            RingView { tail, ..ring::fresh(capacity, slot_payload_size, max_subscribers) },
            slot_payload_size,
            tail,
            Seq::empty(),
        ),
{
}

// ── Reading while the publisher writes ───────────────────────────────────────

/// A slot after the first `n` of the three stores that put a message into it: the length,
/// then the payload, then the sequence number.
pub open spec fn slot_staged(s: SlotView, position: u64, data: Seq<u8>, n: int) -> SlotView {
    SlotView {
        len: if n >= 1 {
            data.len() as u32
        } else {
            s.len
        },
        area: if n >= 2 {
            codec::patch(s.area, 0, data)
        } else {
            s.area
        },
        seq: if n >= 3 {
            position
        } else {
            s.seq
        },
    }
}

/// The three stores are what publishing does to the slot.
pub proof fn law_publish_makes_three_stores(v: RingView, data: Seq<u8>)
    requires
        v.slots.len() > 0,
    ensures
        ({
            let i = ring::slot_of(v.tail, v.slots.len());
            ring::published(v, data).slots[i] == slot_staged(v.slots[i], v.tail, data, 3)
        }),
{
}

/// A subscriber that reads a slot while the publisher overwrites it: it loads the sequence
/// number after `a` of the stores, copies after `b` of them, and loads the sequence number
/// again after `c`. If the overwrite is complete by then and was not before, the two
/// numbers differ, and the read is tried again at the new position. If they agree, the
/// copy is the whole message of that position, provided that it was not made between two
/// of the stores.
pub proof fn law_overwrite_is_noticed(
    s: SlotView,
    position: u64,
    data: Seq<u8>,
    a: int,
    b: int,
    c: int,
)
    requires
        0 <= a <= b <= c <= 3,
        s.seq < position,
        data.len() <= s.area.len() <= u32::MAX,
    ensures
        ({
            let before = slot_staged(s, position, data, a).seq;
            let copied = slot_staged(s, position, data, b).payload();
            let after = slot_staged(s, position, data, c).seq;
            &&& a < 3 && c == 3 ==> before < after && after == position
            &&& before == after && (b == 0 || b == 3) ==> copied == (if after == position {
                data
            } else {
                s.payload()
            })
        }),
{
    if b == 3 {
        codec::lemma_patch(s.area, 0, data);
        assert(codec::patch(s.area, 0, data).take(data.len() as int) =~= data);
    }
}

// ── What each operation does to the ring ─────────────────────────────────────

/// A published message stands whole in the slot of its position, with the position as its
/// number, and the tail is one further. Nothing else changes: no other slot, no cursor, not
/// the generation.
pub proof fn law_published_message_stands_in_its_slot(v: RingView, data: Seq<u8>, j: int)
    requires
        v.slots.len() > 0,
        v.tail < u64::MAX,
        0 <= j < v.slots.len(),
        data.len() <= v.slots[v.tail as int % v.slots.len() as int].area.len() <= u32::MAX,
    ensures
        ({
            let w = ring::published(v, data);
            let at = v.tail as int % v.slots.len() as int;
            let old_area = v.slots[at].area;
            &&& w.tail == v.tail + 1
            &&& w.generation == v.generation
            &&& w.cursors == v.cursors
            &&& w.slots.len() == v.slots.len()
            &&& w.slots[at].seq == v.tail
            &&& w.slots[at].len == data.len()
            &&& w.slots[at].area == data + old_area.skip(data.len() as int)
            &&& w.slots[at].payload() == data
            &&& j != at ==> w.slots[j] == v.slots[j]
        }),
{
    let w = ring::published(v, data);
    let at = v.tail as int % v.slots.len() as int;
    let old_area = v.slots[at].area;
    assert(0 <= at < v.slots.len());
    assert(w.slots[at].area =~= data + old_area.skip(data.len() as int));
    assert(w.slots[at].payload() =~= data);
}

/// A ring with subscribers is full exactly when the tail is a capacity or more past the
/// slowest of them. A cursor ahead of the tail, left over from an earlier publisher, counts
/// as far behind. Without subscribers only a ring without slots is full.
pub proof fn law_slowest_subscriber_fills_the_ring(
    tail: u64,
    cursors: Seq<u64>,
    capacity: u32,
    slowest: int,
)
    ensures
        (forall|i: int| 0 <= i < cursors.len() ==> #[trigger] cursors[i] == u64::MAX) ==> (
        ring::full_at(tail, cursors, capacity) <==> capacity == 0),
        0 <= slowest < cursors.len() && cursors[slowest] != u64::MAX && (forall|i: int|
            0 <= i < cursors.len() ==> cursors[slowest] <= #[trigger] cursors[i]) ==> (
        ring::full_at(tail, cursors, capacity) <==> (tail - cursors[slowest]) % 0x1_0000_0000_0000_0000
            >= capacity),
{
    lemma_min_claimed(cursors);
    if 0 <= slowest < cursors.len() && cursors[slowest] != u64::MAX && (forall|i: int|
        0 <= i < cursors.len() ==> cursors[slowest] <= #[trigger] cursors[i]) {
        let m = ring::min_claimed(cursors)->Some_0;
        assert(ring::claimed(cursors[slowest]));
        assert(m == cursors[slowest]);
        if tail < m {
            vstd::arithmetic::div_mod::lemma_mod_multiples_vanish(
                1,
                tail - m,
                0x1_0000_0000_0000_0000,
            );
        }
    }
}

/// A read gives the message in the slot of the cursor if its number is the cursor's. If the
/// number is larger, the subscriber was overtaken, and the read goes on at that number. If it
/// is smaller, or the length is more than a slot holds, there is nothing to read, and neither
/// is there at the tail or past it.
pub proof fn law_slot_number_decides_the_read(v: RingView, slot_payload_size: u32, cursor: u64)
    requires
        v.slots.len() > 0,
    ensures
        ({
            let s = v.slots[cursor as int % v.slots.len() as int];
            let t = v.slots[s.seq as int % v.slots.len() as int];
            let r = ring::readable_at(v, slot_payload_size, cursor);
            &&& cursor >= v.tail ==> r is None
            &&& cursor < v.tail && s.seq == cursor && s.len <= slot_payload_size ==> r == Some(
                cursor,
            )
            &&& cursor < v.tail && s.seq == cursor && s.len > slot_payload_size ==> r is None
            &&& cursor < v.tail && s.seq < cursor ==> r is None
            &&& cursor < v.tail && s.seq > cursor && t.seq == s.seq && t.len <= slot_payload_size
                ==> r == Some(s.seq)
            &&& r matches Some(p) ==> cursor <= p && v.slots[p as int % v.slots.len() as int].seq
                == p && v.slots[p as int % v.slots.len() as int].len <= slot_payload_size
        }),
{
    reveal_with_fuel(ring::resolved, 3);
    lemma_resolved(v.slots, slot_payload_size, cursor, MAX_RETRIES as nat);
}

/// What is found is at the position or behind it, and stands in its slot.
proof fn lemma_resolved(slots: Seq<SlotView>, slot_payload_size: u32, position: u64, tries: nat)
    requires
        slots.len() > 0,
    ensures
        ring::resolved(slots, slot_payload_size, position, tries) matches Some(p) ==> {
            &&& position <= p
            &&& slots[p as int % slots.len() as int].seq == p
            &&& slots[p as int % slots.len() as int].len <= slot_payload_size
        },
    decreases tries,
{
    let s = slots[position as int % slots.len() as int];
    if tries > 0 && s.seq > position {
        lemma_resolved(slots, slot_payload_size, s.seq, (tries - 1) as nat);
    }
}

/// The slot that a subscriber gets is the first one without a cursor.
pub proof fn law_first_free_slot_is_taken(cursors: Seq<u64>, k: int)
    requires
        0 <= k < cursors.len(),
        cursors[k] == u64::MAX,
        forall|j: int| 0 <= j < k ==> #[trigger] cursors[j] != u64::MAX,
    ensures
        ring::first_free(cursors) == Some(k),
{
    lemma_first_free(cursors);
    assert(!ring::claimed(cursors[k]));
    let i = ring::first_free(cursors)->Some_0;
    if i < k {
        assert(cursors[i] != u64::MAX);
    }
    if k < i {
        assert(ring::claimed(cursors[k]));
    }
}

/// The lags list every subscriber once, in the order of the slots, with the number of
/// messages that it is behind the tail: zero for one that is ahead of it.
pub proof fn law_lags_list_every_subscriber(tail: u64, cursors: Seq<u64>, k: int)
    requires
        0 <= k < cursors.len() <= usize::MAX,
    ensures
        ({
            let all = ring::lags_at(tail, cursors);
            let before = ring::lags_at(tail, cursors.take(k));
            let after = ring::lags_at(tail, cursors.take(k + 1));
            &&& all.len() <= cursors.len()
            &&& before.len() <= after.len() <= all.len()
            &&& all.take(after.len() as int) == after
            &&& ring::lags_at(tail, cursors.take(0)).len() == 0
            &&& cursors[k] == u64::MAX ==> after == before
            &&& cursors[k] != u64::MAX ==> after == before.push(
                (
                    k as usize,
                    if cursors[k] <= tail {
                        (tail - cursors[k]) as u64
                    } else {
                        0
                    },
                ),
            )
        }),
    decreases cursors.len(),
{
    let n = cursors.len() - 1;
    assert(cursors.take(k + 1).drop_last() =~= cursors.take(k));
    if k == n {
        assert(cursors.take(k + 1) =~= cursors);
        lemma_lags_len(tail, cursors);
        lemma_lags_len(tail, cursors.take(k));
        let all = ring::lags_at(tail, cursors);
        assert(all.take(all.len() as int) =~= all);
    } else {
        let rest = cursors.drop_last();
        assert(rest.take(k + 1) =~= cursors.take(k + 1));
        assert(rest.take(k) =~= cursors.take(k));
        law_lags_list_every_subscriber(tail, rest, k);
        let after = ring::lags_at(tail, cursors.take(k + 1));
        let all = ring::lags_at(tail, cursors);
        assert(all.take(after.len() as int) =~= ring::lags_at(tail, rest).take(
            after.len() as int,
        ));
    }
}

proof fn lemma_lags_len(tail: u64, cursors: Seq<u64>)
    ensures
        ring::lags_at(tail, cursors).len() <= cursors.len(),
    decreases cursors.len(),
{
    if cursors.len() > 0 {
        lemma_lags_len(tail, cursors.drop_last());
    }
}

/// The ring that a publisher takes over keeps its slots and its cursors; its generation is
/// the next one, and its tail is zero.
pub proof fn law_takeover_keeps_slots_and_cursors(v: RingView)
    ensures
        ring::reused(v).slots == v.slots,
        ring::reused(v).cursors == v.cursors,
        ring::reused(v).tail == 0,
        v.generation < u64::MAX ==> ring::reused(v).generation == v.generation + 1,
        v.generation == u64::MAX ==> ring::reused(v).generation == 0,
{
}

/// A fresh ring has the wanted number of slots, all empty and of the wanted size, no
/// subscriber, generation one and tail zero.
pub proof fn law_fresh_ring_has_its_shape(
    capacity: u32,
    slot_payload_size: u32,
    max_subscribers: u32,
    i: int,
    k: int,
)
    requires
        0 <= i < capacity,
        0 <= k < max_subscribers,
    ensures
        ({
            let f = ring::fresh(capacity, slot_payload_size, max_subscribers);
            &&& f.generation == 1
            &&& f.tail == 0
            &&& f.slots.len() == capacity
            &&& f.cursors.len() == max_subscribers
            &&& f.slots[i].area.len() == slot_payload_size
            &&& f.slots[i].len == 0
            &&& f.slots[i].seq == 0
            &&& f.cursors[k] == u64::MAX
        }),
{
}

/// Slots stand one behind the other, behind the cursor table: each is large enough for its
/// number, its length and its payload, and starts at a multiple of eight. The table starts
/// behind the header, and the slots at a multiple of 64.
pub proof fn law_slots_do_not_overlap(slot_payload_size: u32, max_subscribers: u32, i: int)
    requires
        0 <= i,
    ensures
        ({
            let at = ring::slot_start(slot_payload_size, max_subscribers, i);
            let next = ring::slot_start(slot_payload_size, max_subscribers, i + 1);
            let first = ring::slot_start(slot_payload_size, max_subscribers, 0);
            &&& 64 + 8 * max_subscribers <= first < 64 + 8 * max_subscribers + 64
            &&& first % 64 == 0
            &&& at + 12 + slot_payload_size <= next < at + 12 + slot_payload_size + 8
            &&& (next - at) % 8 == 0
        }),
{
    let stride = ring::stride_of(slot_payload_size);
    assert(stride * (i + 1) == stride * i + stride) by (nonlinear_arith);
    assert(stride * 0 == 0);
}

/// Memory is a ring if it starts with the magic number, and its shape stands behind that:
/// capacity, slot size and subscribers at 12, 16 and 20. Bytes that are missing are zeros.
pub proof fn law_shape_stands_in_the_header(mem: Seq<u8>)
    requires
        mem.len() >= 64,
    ensures
        match ring::shape_in(mem) {
            Err(kind) => {
                &&& codec::le_value(mem.subrange(0, 8)) != 0x6D6D_6275_7300_0004
                &&& kind == crate::error::IoKind::InvalidData
            },
            Ok(shape) => {
                &&& codec::le_value(mem.subrange(0, 8)) == 0x6D6D_6275_7300_0004
                &&& shape.0 == codec::le_value(mem.subrange(12, 16))
                &&& shape.1 == codec::le_value(mem.subrange(16, 20))
                &&& shape.2 == codec::le_value(mem.subrange(20, 24))
            },
        },
        forall|n: int|
            64 <= n <= mem.len() && (forall|i: int| n <= i < mem.len() ==> mem[i] == 0)
                ==> ring::shape_in(#[trigger] mem.take(n)) == ring::shape_in(mem),
{
    let h = ring::header_in(mem);
    codec::lemma_pow256();
    codec::lemma_le_bytes_of_value(mem.subrange(12, 16));
    codec::lemma_le_bytes_of_value(mem.subrange(16, 20));
    codec::lemma_le_bytes_of_value(mem.subrange(20, 24));
    assert(h.subrange(0, 8) =~= mem.subrange(0, 8));
    assert(h.subrange(12, 16) =~= mem.subrange(12, 16));
    assert(h.subrange(16, 20) =~= mem.subrange(16, 20));
    assert(h.subrange(20, 24) =~= mem.subrange(20, 24));
    assert forall|n: int|
        64 <= n <= mem.len() && (forall|i: int| n <= i < mem.len() ==> mem[i] == 0) implies
        ring::shape_in(#[trigger] mem.take(n)) == ring::shape_in(mem) by {
        assert(ring::header_in(mem.take(n)) =~= h);
    }
}

/// What a ring shows of its memory: generation and tail at 24 and 32, the cursors from 64 on,
/// and in each slot its number, its length and its payload.
pub proof fn law_view_reads_the_memory(
    mem: Seq<u8>,
    capacity: u32,
    slot_payload_size: u32,
    max_subscribers: u32,
    i: int,
    k: int,
)
    requires
        0 <= i < capacity,
        0 <= k < max_subscribers,
    ensures
        ({
            let v = ring::ring_view(mem, capacity, slot_payload_size, max_subscribers);
            let at = ring::slot_start(slot_payload_size, max_subscribers, i);
            &&& v.generation == codec::le_value(mem.subrange(24, 32)) as u64
            &&& v.tail == codec::le_value(mem.subrange(32, 40)) as u64
            &&& v.cursors.len() == max_subscribers
            &&& v.cursors[k] == codec::le_value(mem.subrange(64 + 8 * k, 72 + 8 * k)) as u64
            &&& v.slots.len() == capacity
            &&& v.slots[i].seq == codec::le_value(mem.subrange(at, at + 8)) as u64
            &&& v.slots[i].len == codec::le_value(mem.subrange(at + 8, at + 12)) as u32
            &&& v.slots[i].area == mem.subrange(at + 12, at + 12 + slot_payload_size)
        }),
{
    let at = ring::slot_start(slot_payload_size, max_subscribers, i);
    assert(mem.subrange(64 + 8 * k, 64 + 8 * k + 8) == mem.subrange(64 + 8 * k, 72 + 8 * k));
    assert(at + 8 + 4 == at + 12);
}

/// Memory that is too short for a ring is read as if zeros followed it.
pub proof fn law_short_memory_ends_in_zeros(mem: Seq<u8>, n: int, i: int)
    requires
        0 <= n,
        0 <= i < n,
    ensures
        mem.len() >= n ==> ring::padded(mem, n) == mem,
        mem.len() < n ==> ring::padded(mem, n).len() == n,
        ring::padded(mem, n)[i] == if i < mem.len() {
            mem[i]
        } else {
            0u8
        },
        ring::header_in(mem).len() == 64,
        i < 64 ==> ring::header_in(mem)[i] == if i < mem.len() {
            mem[i]
        } else {
            0u8
        },
{
}

/// A ring in memory is what the memory holds, with zeros behind it where it is too short.
pub proof fn law_ring_in_memory_is_read_whole(mem: Seq<u8>, shape: (u32, u32, u32))
    ensures
        ring::ring_in(mem, shape) == ring::ring_view(
            ring::padded(mem, ring::ring_size(shape.0, shape.1, shape.2) as int),
            shape.0,
            shape.1,
            shape.2,
        ),
{
}

/// The memory of a fresh ring starts with the magic, version 4, the shape, generation 1 and a
/// tail of zero, and every slot of its cursor table is free.
pub proof fn law_fresh_memory_holds_its_header(
    b: Seq<u8>,
    capacity: u32,
    slot_payload_size: u32,
    max_subscribers: u32,
    i: int,
)
    requires
        ring::is_fresh_prefix(b, capacity, slot_payload_size, max_subscribers),
        0 <= i < max_subscribers,
    ensures
        b.len() == ring::slots_start(max_subscribers),
        codec::le_at(b, 0, 8) == 0x6D6D_6275_7300_0004,
        codec::le_at(b, 8, 4) == 4,
        codec::le_at(b, 12, 4) == capacity,
        codec::le_at(b, 16, 4) == slot_payload_size,
        codec::le_at(b, 20, 4) == max_subscribers,
        codec::le_at(b, 24, 8) == 1,
        codec::le_at(b, 32, 8) == 0,
        codec::le_at(b, 64 + 8 * i, 8) == 0xFFFF_FFFF_FFFF_FFFF,
{
    assert(codec::le_at(b, ring::OFF_CURSORS + 8 * i, 8) == ring::CURSOR_UNCLAIMED);
}

/// The statistics of a ring are its tail, the lags of its subscribers in the order of the
/// cursor table, and how many they are.
pub proof fn law_statistics_are_those_of_the_ring(
    s: ring::RingStats,
    tail: u64,
    cursors: Seq<u64>,
    i: int,
)
    requires
        ring::stats_are(s, tail, cursors),
    ensures
        s.tail == tail,
        s.lags@.len() == ring::lags_at(tail, cursors).len(),
        s.active_subscribers == s.lags@.len(),
        0 <= i < s.lags@.len() ==> s.lags@[i] == ring::lags_at(tail, cursors)[i].1,
{
}

/// The slowest subscriber is the smallest cursor of the table that is taken; without any there
/// is none.
pub proof fn law_slowest_is_the_smallest_cursor(cursors: Seq<u64>, i: int)
    requires
        0 <= i < cursors.len(),
    ensures
        cursors[i] != 0xFFFF_FFFF_FFFF_FFFF ==> ring::min_claimed(cursors) is Some
            && ring::min_claimed(cursors)->Some_0 <= cursors[i],
        ring::min_claimed(cursors) is Some ==> ring::min_claimed(cursors)->Some_0
            != 0xFFFF_FFFF_FFFF_FFFF && cursors.contains(ring::min_claimed(cursors)->Some_0),
{
    lemma_min_claimed(cursors);
}

/// A shape is one that a machine can address when its ring fits into its memory.
pub proof fn law_ring_that_fits_is_addressable(shape: (u32, u32, u32))
    requires
        ring::ring_size(shape.0, shape.1, shape.2) <= usize::MAX,
        64 + 8 * shape.2 + 127 <= usize::MAX,
        12 + shape.1 + 7 <= usize::MAX,
    ensures
        ring::addressable(shape),
{
    let n = 64 + 8 * shape.2;
    assert((n + 63) / 64 * 64 <= n + 63);
}

/// A reader follows the numbers in the slots: a higher one takes it to the slot of that number,
/// its own number is what it reads if the length is one that fits, and a lower one is nothing
/// yet. It gives up after sixteen slots.
pub proof fn law_reader_follows_the_numbers(
    v: RingView,
    slot_payload_size: u32,
    position: u64,
    tries: nat,
)
    requires
        v.slots.len() > 0,
    ensures
        position < v.tail ==> ring::readable_at(v, slot_payload_size, position) == ring::resolved(
            v.slots,
            slot_payload_size,
            position,
            16,
        ),
        ring::resolved(v.slots, slot_payload_size, position, 0) is None,
        ({
            let s = v.slots[position as int % v.slots.len() as int];
            let r = ring::resolved(v.slots, slot_payload_size, position, tries + 1);
            if s.seq > position {
                r == ring::resolved(v.slots, slot_payload_size, s.seq, tries)
            } else if s.seq == position && s.len <= slot_payload_size {
                r == Some(position)
            } else {
                r is None
            }
        }),
{
    reveal_with_fuel(ring::resolved, 2);
}

/// Where everything stands in the memory of a ring.
pub proof fn law_layout_of_a_ring()
    ensures
        ring::MAGIC == 0x6D6D_6275_7300_0004,
        ring::RING_VERSION == 4,
        ring::CURSOR_UNCLAIMED == 0xFFFF_FFFF_FFFF_FFFF,
        ring::MAX_SUBSCRIBERS_DEFAULT == 16,
        ring::MAX_RETRIES == 16,
        ring::SLOT_OVERHEAD == 12,
        ring::OFF_MAGIC == 0,
        ring::OFF_VERSION == 8,
        ring::OFF_CAPACITY == 12,
        ring::OFF_SLOT_SIZE == 16,
        ring::OFF_MAX_SUBS == 20,
        ring::OFF_GENERATION == 24,
        ring::OFF_TAIL == 32,
        ring::OFF_CURSORS == 64,
{
}

} // verus!

//! What subscribers can rely on.

use crate::codec;
use crate::error::{Error, IoKind};
use crate::ring;
use crate::ring::{RingBuffer, RingView};
use crate::ring_laws;
use crate::rows;
use crate::rows::RowError;
use crate::subscriber;
use crate::subscriber::{StartPos, SubscriberView};
use vstd::prelude::*;

verus! {

/// Draining gives the messages from the cursor on, each once and in the order in which
/// they were published: all of them, or the first `n`. The ring keeps what it carries.
pub proof fn law_drain_reads_in_order(
    v: RingView,
    slot_payload_size: u32,
    base: u64,
    msgs: Seq<Seq<u8>>,
    s: SubscriberView,
    n: nat,
)
    requires
        ring_laws::carries(v, slot_payload_size, base, msgs),
        base <= s.cursor <= v.tail,
        v.tail - s.cursor <= v.slots.len(),
        s.idx < v.cursors.len(),
    ensures
        ({
            let d = subscriber::drained(v, slot_payload_size, s, n);
            let from = s.cursor - base;
            let count = if n <= v.tail - s.cursor {
                n as int
            } else {
                v.tail - s.cursor
            };
            &&& d.msgs == msgs.subrange(from, from + count)
            &&& d.sub.cursor == s.cursor + count
            &&& d.sub.idx == s.idx
            &&& d.sub.generation == s.generation
            &&& ring_laws::carries(d.rb, slot_payload_size, base, msgs)
        }),
    decreases n,
{
    let d = subscriber::drained(v, slot_payload_size, s, n);
    let from = s.cursor - base;
    if n == 0 || s.cursor == v.tail {
        assert(d.msgs =~= msgs.subrange(from, from));
    } else {
        ring_laws::law_subscriber_reads_in_order(v, slot_payload_size, base, msgs, s.cursor);
        let next = subscriber::read_next(v, slot_payload_size, s);
        ring_laws::law_receive_keeps_messages(
            v,
            slot_payload_size,
            base,
            msgs,
            s.idx as int,
            (s.cursor + 1) as u64,
        );
        law_drain_reads_in_order(
            next.rb,
            slot_payload_size,
            base,
            msgs,
            next.sub,
            (n - 1) as nat,
        );
        let count = if n <= v.tail - s.cursor {
            n as int
        } else {
            v.tail - s.cursor
        };
        assert(d.msgs =~= msgs.subrange(from, from + count));
    }
}

/// How many of the messages a ring with this capacity gives a subscriber that asks for the
/// last `n`.
pub open spec fn replayable(n: u64, capacity: u32, published: nat) -> nat {
    let held = if n <= capacity {
        n as nat
    } else {
        capacity as nat
    };
    if held <= published {
        held
    } else {
        published
    }
}

/// A subscriber that starts `n` messages back reads exactly the last `n` messages, or as
/// many as the ring holds, if that is fewer, and nothing before them.
pub proof fn law_history_is_replayed(
    v: RingView,
    capacity: u32,
    slot_payload_size: u32,
    base: u64,
    msgs: Seq<Seq<u8>>,
    s: SubscriberView,
    n: u64,
)
    requires
        ring_laws::carries(v, slot_payload_size, base, msgs),
        capacity == v.slots.len(),
        base == 0 || n <= msgs.len() || capacity <= msgs.len(),
        s.idx < v.cursors.len(),
        subscriber::started_at(StartPos::HistoryBack(n), v.tail, capacity) == Ok::<u64, Error>(
            s.cursor,
        ),
    ensures
        ({
            let k = replayable(n, capacity, msgs.len());
            &&& s.cursor == v.tail - k
            &&& subscriber::drained(v, slot_payload_size, s, k).msgs == msgs.skip(msgs.len() - k)
        }),
{
    let k = replayable(n, capacity, msgs.len());
    law_drain_reads_in_order(v, slot_payload_size, base, msgs, s, k);
    assert(msgs.subrange(msgs.len() - k, msgs.len() as int) =~= msgs.skip(msgs.len() - k));
}

/// A subscriber that starts at the tail reads nothing of what was published before, and
/// the first message that is published after.
pub proof fn law_late_subscriber_reads_the_new(
    v: RingView,
    capacity: u32,
    slot_payload_size: u32,
    base: u64,
    msgs: Seq<Seq<u8>>,
    s: SubscriberView,
    data: Seq<u8>,
)
    requires
        ring_laws::carries(v, slot_payload_size, base, msgs),
        data.len() <= slot_payload_size,
        v.tail < u64::MAX,
        s.idx < v.cursors.len(),
        subscriber::started_at(StartPos::Now, v.tail, capacity) == Ok::<u64, Error>(s.cursor),
    ensures
        subscriber::read_next(v, slot_payload_size, s).msg is None,
        subscriber::read_next(ring::published(v, data), slot_payload_size, s).msg == Some(data),
{
    ring_laws::law_publish_adds_message(v, slot_payload_size, base, msgs, data);
    ring_laws::law_subscriber_reads_in_order(
        ring::published(v, data),
        slot_payload_size,
        base,
        msgs.push(data),
        s.cursor,
    );
}

/// A subscriber that takes up a cursor which is not too old reads on from exactly there,
/// up to the tail.
pub proof fn law_checkpoint_resumes(
    v: RingView,
    capacity: u32,
    slot_payload_size: u32,
    base: u64,
    msgs: Seq<Seq<u8>>,
    s: SubscriberView,
    cursor: u64,
)
    requires
        ring_laws::carries(v, slot_payload_size, base, msgs),
        capacity == v.slots.len(),
        base <= cursor <= v.tail,
        s.idx < v.cursors.len(),
        subscriber::started_at(StartPos::Explicit(cursor), v.tail, capacity) == Ok::<u64, Error>(
            s.cursor,
        ),
    ensures
        s.cursor == cursor,
        subscriber::drained(v, slot_payload_size, s, (v.tail - cursor) as nat).msgs == msgs.skip(
            cursor - base,
        ),
{
    law_drain_reads_in_order(
        v,
        slot_payload_size,
        base,
        msgs,
        s,
        (v.tail - cursor) as nat,
    );
    assert(msgs.subrange(cursor - base, msgs.len() as int) =~= msgs.skip(cursor - base));
}

/// A cursor is refused if and only if the ring no longer holds its message, and the error
/// names the oldest that it holds.
pub proof fn law_stale_cursor_is_refused(cursor: u64, tail: u64, capacity: u32)
    ensures
        ({
            let r = subscriber::started_at(StartPos::Explicit(cursor), tail, capacity);
            if cursor + capacity < tail {
                r == Err::<u64, Error>(
                    Error::CursorTooOld { requested: cursor, oldest: (tail - capacity) as u64 },
                )
            } else {
                r == Ok::<u64, Error>(cursor)
            }
        }),
{
}

/// A publisher that takes the ring over ends the streams of the subscribers before it.
pub proof fn law_restart_ends_the_stream(v: RingView, s: SubscriberView)
    requires
        s.generation == v.generation,
    ensures
        subscriber::wait_outcome(Ok(()), ring::reused(v).generation == s.generation) == Err::<
            (),
            IoKind,
        >(IoKind::UnexpectedEof),
{
}

/// A batch holds the message that was waited for and those that follow it.
pub proof fn law_batch_is_consecutive(
    v: RingView,
    slot_payload_size: u32,
    base: u64,
    msgs: Seq<Seq<u8>>,
    s: SubscriberView,
    n: usize,
)
    requires
        ring_laws::carries(v, slot_payload_size, base, msgs),
        base <= s.cursor <= v.tail,
        v.tail - s.cursor <= v.slots.len(),
        s.idx < v.cursors.len(),
    ensures
        ({
            let first = subscriber::read_next(v, slot_payload_size, s);
            let b = subscriber::batch_of(first.rb, slot_payload_size, first.sub, n, first.msg);
            let from = s.cursor - base;
            let count = if n <= v.tail - s.cursor {
                n as int
            } else {
                v.tail - s.cursor
            };
            b.msgs == msgs.subrange(from, from + count)
        }),
{
    let first = subscriber::read_next(v, slot_payload_size, s);
    let from = s.cursor - base;
    let b = subscriber::batch_of(first.rb, slot_payload_size, first.sub, n, first.msg);
    if n == 0 || s.cursor == v.tail {
        assert(b.msgs =~= msgs.subrange(from, from));
    } else {
        law_drain_reads_in_order(v, slot_payload_size, base, msgs, s, n as nat);
    }
}

// ── What each operation gives ────────────────────────────────────────────────

/// A start at the tail is always there. Starting `n` messages back never fails: it is as many
/// messages behind the tail as were asked for, as the ring has slots, or as were published,
/// whichever is the fewest.
pub proof fn law_history_never_fails(n: u64, tail: u64, capacity: u32)
    ensures
        subscriber::started_at(StartPos::Now, tail, capacity) == Ok::<u64, Error>(tail),
        ({
            let r = subscriber::started_at(StartPos::HistoryBack(n), tail, capacity);
            let back = tail - r->Ok_0;
            &&& r is Ok
            &&& 0 <= back <= n
            &&& back <= capacity
            &&& back == n || back == capacity || back == tail
        }),
{
}

/// More history never starts later, and a history of nothing starts at the tail.
pub proof fn law_more_history_starts_earlier(n: u64, m: u64, tail: u64, capacity: u32)
    requires
        n <= m,
    ensures
        subscriber::started_at(StartPos::HistoryBack(0), tail, capacity) == Ok::<u64, Error>(tail),
        subscriber::started_at(StartPos::HistoryBack(m), tail, capacity)->Ok_0
            <= subscriber::started_at(StartPos::HistoryBack(n), tail, capacity)->Ok_0,
{
}

/// A read gives the message at the position that the ring resolves the cursor to, whole, and
/// moves the subscriber right behind it, here and in the cursor table. Nothing else changes.
/// Without a message nothing changes at all.
pub proof fn law_read_moves_one_behind_the_message(
    v: RingView,
    slot_payload_size: u32,
    s: SubscriberView,
    k: int,
)
    requires
        v.slots.len() > 0,
        s.idx < v.cursors.len(),
        0 <= k < v.cursors.len(),
    ensures
        ({
            let r = subscriber::read_next(v, slot_payload_size, s);
            match ring::readable_at(v, slot_payload_size, s.cursor) {
                None => r.msg is None && r.rb == v && r.sub == s,
                Some(p) => {
                    let slot = v.slots[p as int % v.slots.len() as int];
                    &&& r.msg == Some(slot.area.take(slot.len as int))
                    &&& p < u64::MAX ==> r.sub.cursor == p + 1
                    &&& r.sub.idx == s.idx
                    &&& r.sub.generation == s.generation
                    &&& r.rb.cursors.len() == v.cursors.len()
                    &&& r.rb.cursors[s.idx as int] == r.sub.cursor
                    &&& k != s.idx ==> r.rb.cursors[k] == v.cursors[k]
                    &&& r.rb.tail == v.tail
                    &&& r.rb.generation == v.generation
                    &&& r.rb.slots == v.slots
                },
            }
        }),
{
}

/// Draining reads one message after the other, and ends only when there are enough or there
/// is none left.
pub proof fn law_drain_stops_only_at_the_end(
    v: RingView,
    slot_payload_size: u32,
    s: SubscriberView,
    n: nat,
)
    ensures
        ({
            let d = subscriber::drained(v, slot_payload_size, s, n);
            let one = subscriber::read_next(v, slot_payload_size, s);
            &&& d.msgs.len() <= n
            &&& d.msgs.len() < n ==> subscriber::read_next(d.rb, slot_payload_size, d.sub).msg is None
            &&& n == 0 || one.msg is None ==> d.msgs.len() == 0 && d.rb == v && d.sub == s
            &&& n > 0 && one.msg is Some ==> {
                let rest = subscriber::drained(one.rb, slot_payload_size, one.sub, (n - 1) as nat);
                &&& d.msgs == seq![one.msg->Some_0] + rest.msgs
                &&& d.rb == rest.rb
                &&& d.sub == rest.sub
            }
        }),
    decreases n,
{
    let one = subscriber::read_next(v, slot_payload_size, s);
    if n > 0 && one.msg is Some {
        law_drain_stops_only_at_the_end(one.rb, slot_payload_size, one.sub, (n - 1) as nat);
    }
}

/// A batch is the message that was waited for and those that are there already, up to `n` in
/// all. Nothing is read if none was waited for, or none was asked for.
pub proof fn law_batch_starts_with_the_awaited(
    v: RingView,
    slot_payload_size: u32,
    s: SubscriberView,
    n: usize,
    first: Option<Seq<u8>>,
)
    ensures
        ({
            let b = subscriber::batch_of(v, slot_payload_size, s, n, first);
            if n == 0 || first is None {
                b.msgs.len() == 0 && b.rb == v && b.sub == s
            } else {
                let d = subscriber::drained(v, slot_payload_size, s, (n - 1) as nat);
                &&& b.msgs.len() == 1 + d.msgs.len()
                &&& b.msgs.len() <= n
                &&& b.msgs[0] == first->Some_0
                &&& b.msgs.skip(1) == d.msgs
                &&& b.rb == d.rb
                &&& b.sub == d.sub
            }
        }),
{
    law_drain_stops_only_at_the_end(v, slot_payload_size, s, (n - 1) as nat);
    let b = subscriber::batch_of(v, slot_payload_size, s, n, first);
    if n > 0 && first is Some {
        assert(b.msgs.skip(1) =~= subscriber::drained(
            v,
            slot_payload_size,
            s,
            (n - 1) as nat,
        ).msgs);
    }
}

/// Rows from `count` on hold these messages, and the other bytes are as they were.
pub open spec fn rows_hold(
    before: Seq<u8>,
    after: Seq<u8>,
    payload_size: usize,
    count: int,
    msgs: Seq<Seq<u8>>,
) -> bool {
    &&& after.len() == before.len()
    &&& forall|i: int|
        0 <= i < msgs.len() ==> (#[trigger] msgs[i]).len() == payload_size && after.subrange(
            (count + i) * payload_size,
            (count + i + 1) * payload_size,
        ) == msgs[i]
    &&& forall|b: int|
        0 <= b < before.len() && !(count * payload_size <= b < (count + msgs.len()) * payload_size)
            ==> #[trigger] after[b] == before[b]
}

/// One more message at the front of the rows.
proof fn lemma_rows_hold_first(
    before: Seq<u8>,
    mid: Seq<u8>,
    after: Seq<u8>,
    payload_size: usize,
    count: usize,
    msg: Seq<u8>,
    rest: Seq<Seq<u8>>,
)
    requires
        (count + 1) * payload_size <= before.len(),
        mid == rows::with_row(before, count, msg, payload_size),
        msg.len() == payload_size,
        rows_hold(mid, after, payload_size, count + 1, rest),
    ensures
        rows_hold(before, after, payload_size, count as int, seq![msg] + rest),
{
    let msgs = seq![msg] + rest;
    let ps = payload_size as int;
    assert((count + 1) * ps == count * ps + ps) by (nonlinear_arith);
    assert(count * ps >= 0) by (nonlinear_arith)
        requires
            ps >= 0,
            count >= 0,
    ;
    assert((count + 1 + rest.len()) * ps >= (count + 1) * ps) by (nonlinear_arith)
        requires
            ps >= 0,
            rest.len() >= 0,
    ;
    assert(count + 1 + rest.len() == count + msgs.len());
    assert forall|i: int| 0 <= i < msgs.len() implies (#[trigger] msgs[i]).len() == payload_size
        && after.subrange((count + i) * payload_size, (count + i + 1) * payload_size) == msgs[i] by {
        if i == 0 {
            let at = count * ps;
            assert forall|b: int| at <= b < at + ps implies #[trigger] after[b] == msg[b - at] by {
                assert(after[b] == mid[b]);
            }
            assert(after.subrange(at, at + ps) =~= msg);
        } else {
            assert(msgs[i] == rest[i - 1]);
            assert(count + 1 + (i - 1) == count + i);
        }
    }
    assert forall|b: int|
        0 <= b < before.len() && !(count * payload_size <= b < (count + msgs.len()) * payload_size)
        implies #[trigger] after[b] == before[b] by {
        assert(after[b] == mid[b]);
    }
}

/// What filling rows from `count` on comes to: `n` messages become rows, and then the buffer
/// is full, nothing is left to read, or the next message has another size.
proof fn lemma_filled(
    v: RingView,
    slot_payload_size: u32,
    s: SubscriberView,
    buf: Seq<u8>,
    payload_size: usize,
    count: usize,
    capacity: usize,
) -> (n: nat)
    requires
        1 <= count <= capacity,
        capacity * payload_size <= buf.len(),
    ensures
        ({
            let f = subscriber::filled(
                v,
                slot_payload_size,
                s,
                buf,
                payload_size,
                count,
                capacity,
            );
            let d = subscriber::drained(v, slot_payload_size, s, n);
            let next = subscriber::read_next(d.rb, slot_payload_size, d.sub);
            &&& d.msgs.len() == n
            &&& count + n <= capacity
            &&& match f.result {
                Ok(k) => {
                    &&& k == count + n
                    &&& k == capacity || next.msg is None
                    &&& rows_hold(buf, f.buf, payload_size, count as int, d.msgs)
                    &&& f.rb == d.rb
                    &&& f.sub == d.sub
                },
                Err(e) => {
                    let index = (count + n) as usize;
                    &&& index < capacity
                    &&& next.msg is Some
                    &&& next.msg->Some_0.len() != payload_size
                    &&& f.rb == next.rb
                    &&& f.sub == next.sub
                    &&& row_refused(e, index, next.msg->Some_0, payload_size)
                    &&& exists|mid: Seq<u8>|
                        #![trigger rows_hold(buf, mid, payload_size, count as int, d.msgs)]
                        rows_hold(buf, mid, payload_size, count as int, d.msgs) && f.buf
                            == rows::with_row(mid, index, next.msg->Some_0, payload_size)
                },
            }
        }),
    decreases capacity - count,
{
    let f = subscriber::filled(v, slot_payload_size, s, buf, payload_size, count, capacity);
    let one = subscriber::read_next(v, slot_payload_size, s);
    if count >= capacity || one.msg is None {
        let d = subscriber::drained(v, slot_payload_size, s, 0);
        assert(rows_hold(buf, f.buf, payload_size, count as int, d.msgs));
        0
    } else {
        let msg = one.msg->Some_0;
        let mid = rows::with_row(buf, count, msg, payload_size);
        assert((count + 1) * payload_size <= capacity * payload_size) by (nonlinear_arith)
            requires
                count + 1 <= capacity,
                payload_size >= 0,
        ;
        if msg.len() == payload_size {
            rows::law_row_holds_the_message(buf, count, msg, payload_size);
            let n = lemma_filled(
                one.rb,
                slot_payload_size,
                one.sub,
                mid,
                payload_size,
                (count + 1) as usize,
                capacity,
            );
            let d = subscriber::drained(one.rb, slot_payload_size, one.sub, n);
            let all = subscriber::drained(v, slot_payload_size, s, n + 1);
            assert(all.msgs == seq![msg] + d.msgs);
            let next = subscriber::read_next(d.rb, slot_payload_size, d.sub);
            if f.result is Ok {
                lemma_rows_hold_first(buf, mid, f.buf, payload_size, count, msg, d.msgs);
            } else {
                let index = (count + 1 + n) as usize;
                let end = choose|end: Seq<u8>|
                    #![trigger rows_hold(mid, end, payload_size, count + 1, d.msgs)]
                    rows_hold(mid, end, payload_size, count + 1, d.msgs) && f.buf
                        == rows::with_row(end, index, next.msg->Some_0, payload_size);
                lemma_rows_hold_first(buf, mid, end, payload_size, count, msg, d.msgs);
            }
            n + 1
        } else {
            let d = subscriber::drained(v, slot_payload_size, s, 0);
            assert(rows_hold(buf, buf, payload_size, count as int, d.msgs));
            0
        }
    }
}

/// The error for a message that is no row.
pub open spec fn row_refused(e: RowError, index: usize, msg: Seq<u8>, payload_size: usize) -> bool {
    if index > 0 && msg.len() > payload_size {
        e == (RowError::TooLarge { index, payload_size })
    } else {
        e == (RowError::Mismatch { index, len: msg.len() as usize, payload_size })
    }
}

/// Receiving into a buffer gives rows that are exactly the messages: the one that was waited
/// for first, and then those from the cursor on, in order. The bytes behind the last row are
/// as they were. It takes as many as there are, up to a full buffer. It fails only for rows
/// of no size and for a message of another size, and then names the row.
pub proof fn law_rows_are_the_messages(
    v: RingView,
    slot_payload_size: u32,
    s: SubscriberView,
    buf: Seq<u8>,
    payload_size: usize,
    first: Option<Seq<u8>>,
)
    requires
        buf.len() <= usize::MAX,
    ensures
        ({
            let f = subscriber::filled_from(v, slot_payload_size, s, buf, payload_size, first);
            &&& payload_size == 0 <==> f.result == Err::<usize, RowError>(RowError::ZeroSize)
            &&& f.result == Ok::<usize, RowError>(0) <==> payload_size > 0 && (buf.len()
                < payload_size || first is None)
            &&& payload_size == 0 || buf.len() < payload_size || first is None ==> f.rb == v
                && f.sub == s && f.buf == buf
            &&& payload_size > 0 && buf.len() >= payload_size && first is Some ==> {
                let m = first->Some_0;
                match f.result {
                    Ok(k) => {
                        let d = subscriber::drained(v, slot_payload_size, s, (k - 1) as nat);
                        &&& k > 0
                        &&& k * payload_size <= buf.len()
                        &&& (k + 1) * payload_size > buf.len() || subscriber::read_next(
                            d.rb,
                            slot_payload_size,
                            d.sub,
                        ).msg is None
                        &&& d.msgs.len() == k - 1
                        &&& rows_hold(buf, f.buf, payload_size, 0, seq![m] + d.msgs)
                        &&& f.rb == d.rb
                        &&& f.sub == d.sub
                    },
                    Err(RowError::ZeroSize) => false,
                    Err(RowError::TooLarge { index, payload_size: size }) => {
                        let d = subscriber::drained(v, slot_payload_size, s, (index - 1) as nat);
                        let next = subscriber::read_next(d.rb, slot_payload_size, d.sub);
                        &&& index > 0
                        &&& size == payload_size
                        &&& d.msgs.len() == index - 1
                        &&& next.msg is Some
                        &&& next.msg->Some_0.len() > payload_size
                        &&& rows_hold(buf, f.buf, payload_size, 0, seq![m] + d.msgs)
                        &&& f.rb == next.rb
                        &&& f.sub == next.sub
                    },
                    Err(RowError::Mismatch { index, len, payload_size: size }) => {
                        &&& size == payload_size
                        &&& index == 0 ==> m.len() != payload_size && len == m.len() as usize
                            && f.rb == v && f.sub == s && f.buf == buf
                        &&& index > 0 ==> {
                            let d = subscriber::drained(
                                v,
                                slot_payload_size,
                                s,
                                (index - 1) as nat,
                            );
                            let next = subscriber::read_next(d.rb, slot_payload_size, d.sub);
                            &&& d.msgs.len() == index - 1
                            &&& next.msg is Some
                            &&& len == next.msg->Some_0.len() < payload_size
                            &&& (index + 1) * payload_size <= buf.len()
                            &&& rows_hold(
                                buf,
                                codec::patch(
                                    f.buf,
                                    index * payload_size,
                                    buf.subrange(
                                        index * payload_size,
                                        (index + 1) * payload_size,
                                    ),
                                ),
                                payload_size,
                                0,
                                seq![m] + d.msgs,
                            )
                            &&& f.buf.subrange(
                                index * payload_size,
                                index * payload_size + len,
                            ) == next.msg->Some_0
                            &&& f.rb == next.rb
                            &&& f.sub == next.sub
                        }
                    },
                }
            }
        }),
{
    let f = subscriber::filled_from(v, slot_payload_size, s, buf, payload_size, first);
    if payload_size > 0 && buf.len() >= payload_size && first is Some {
        let m = first->Some_0;
        let ps = payload_size as int;
        let capacity = (buf.len() / payload_size as nat) as usize;
        lemma_row_count(buf.len(), payload_size as nat);
        let more = rows::with_row(buf, 0, m, payload_size);
        assert((0 + 1) * ps == ps) by (nonlinear_arith);
        assert(0 * ps == 0) by (nonlinear_arith);
        if m.len() == payload_size {
            rows::law_row_holds_the_message(buf, 0, m, payload_size);
            let n = lemma_filled(v, slot_payload_size, s, more, payload_size, 1, capacity);
            let d = subscriber::drained(v, slot_payload_size, s, n);
            let next = subscriber::read_next(d.rb, slot_payload_size, d.sub);
            if f.result is Ok {
                lemma_rows_hold_first(buf, more, f.buf, payload_size, 0, m, d.msgs);
                let k = f.result->Ok_0;
                assert(k * ps <= capacity * ps) by (nonlinear_arith)
                    requires
                        k <= capacity,
                        ps >= 0,
                ;
            } else {
                let index = (1 + n) as usize;
                let msg = next.msg->Some_0;
                let end = choose|end: Seq<u8>|
                    #![trigger rows_hold(more, end, payload_size, 1, d.msgs)]
                    rows_hold(more, end, payload_size, 1, d.msgs) && f.buf == rows::with_row(
                        end,
                        index,
                        msg,
                        payload_size,
                    );
                lemma_rows_hold_first(buf, more, end, payload_size, 0, m, d.msgs);
                if msg.len() < payload_size {
                    assert((index + 1) * ps <= capacity * ps) by (nonlinear_arith)
                        requires
                            index + 1 <= capacity,
                            ps >= 0,
                    ;
                    assert((index + 1) * ps == index * ps + ps) by (nonlinear_arith);
                    assert(index * ps >= 0) by (nonlinear_arith)
                        requires
                            ps >= 0,
                            index >= 0,
                    ;
                    rows::law_row_holds_the_message(end, index, msg, payload_size);
                    let msgs = seq![m] + d.msgs;
                    assert(msgs.len() == index);
                    assert forall|b: int|
                        index * ps <= b < index * ps + ps implies #[trigger] end[b] == buf[b] by {
                        assert(!(0 * payload_size <= b < (0 + msgs.len()) * payload_size));
                    }
                    assert(codec::patch(
                        f.buf,
                        index * ps,
                        buf.subrange(index * ps, (index + 1) * ps),
                    ) =~= end);
                }
            }
        }
    }
}

/// How many rows fit into a buffer.
proof fn lemma_row_count(len: nat, size: nat)
    by (nonlinear_arith)
    requires
        0 < size <= len,
    ensures
        1 <= len / size <= len,
        (len / size) * size <= len,
        (len / size + 1) * size > len,
{
}

/// On a ring that carries `msgs` of one size, the rows are the messages from the cursor on:
/// as many as are there, or as fit into the buffer.
pub proof fn law_rows_are_consecutive(
    v: RingView,
    slot_payload_size: u32,
    base: u64,
    msgs: Seq<Seq<u8>>,
    s: SubscriberView,
    buf: Seq<u8>,
    payload_size: usize,
)
    requires
        ring_laws::carries(v, slot_payload_size, base, msgs),
        base <= s.cursor < v.tail,
        v.tail - s.cursor <= v.slots.len(),
        s.idx < v.cursors.len(),
        0 < payload_size <= buf.len() <= usize::MAX,
        forall|i: int| 0 <= i < msgs.len() ==> (#[trigger] msgs[i]).len() == payload_size,
    ensures
        ({
            let first = subscriber::read_next(v, slot_payload_size, s);
            let f = subscriber::filled_from(
                first.rb,
                slot_payload_size,
                first.sub,
                buf,
                payload_size,
                first.msg,
            );
            let from = s.cursor - base;
            &&& f.result is Ok
            &&& ({
                let k = f.result->Ok_0;
                &&& 0 < k <= v.tail - s.cursor
                &&& k * payload_size <= buf.len()
                &&& k == v.tail - s.cursor || (k + 1) * payload_size > buf.len()
                &&& f.sub.cursor == s.cursor + k
                &&& rows_hold(buf, f.buf, payload_size, 0, msgs.subrange(from, from + k))
            })
        }),
{
    let one = subscriber::read_next(v, slot_payload_size, s);
    let f = subscriber::filled_from(
        one.rb,
        slot_payload_size,
        one.sub,
        buf,
        payload_size,
        one.msg,
    );
    let from = s.cursor - base;
    law_drain_reads_in_order(v, slot_payload_size, base, msgs, s, 1);
    assert(subscriber::drained(v, slot_payload_size, s, 1).msgs[0] == one.msg->Some_0);
    law_rows_are_the_messages(one.rb, slot_payload_size, one.sub, buf, payload_size, one.msg);
    let index: nat = match f.result {
        Ok(k) => k as nat,
        Err(RowError::ZeroSize) => 0,
        Err(RowError::TooLarge { index, payload_size: _ }) => index as nat,
        Err(RowError::Mismatch { index, len: _, payload_size: _ }) => index as nat,
    };
    if index > 0 {
        law_drain_reads_in_order(v, slot_payload_size, base, msgs, s, index);
        law_drain_reads_in_order(v, slot_payload_size, base, msgs, s, index + 1);
        lemma_drain_one_more(v, slot_payload_size, s, index);
        let d = subscriber::drained(v, slot_payload_size, s, index);
        let e = subscriber::drained(v, slot_payload_size, s, index + 1);
        let rest = subscriber::drained(
            one.rb,
            slot_payload_size,
            one.sub,
            (index - 1) as nat,
        );
        let next = subscriber::read_next(d.rb, slot_payload_size, d.sub);
        assert(d.msgs == seq![one.msg->Some_0] + rest.msgs);
        assert(d.rb == rest.rb && d.sub == rest.sub);
        if rest.msgs.len() == index - 1 {
            assert(d.msgs.len() == index);
            assert(next.msg is Some ==> e.msgs.last() == next.msg->Some_0);
        }
    } else {
        assert(one.msg->Some_0 == msgs[from]);
    }
}

/// The last message of a drain is the next one after the drain before it.
proof fn lemma_drain_one_more(v: RingView, slot_payload_size: u32, s: SubscriberView, n: nat)
    ensures
        ({
            let d = subscriber::drained(v, slot_payload_size, s, n);
            let e = subscriber::drained(v, slot_payload_size, s, n + 1);
            let next = subscriber::read_next(d.rb, slot_payload_size, d.sub);
            d.msgs.len() == n ==> if next.msg is Some {
                e.msgs == d.msgs.push(next.msg->Some_0) && e.rb == next.rb && e.sub == next.sub
            } else {
                e == d
            }
        }),
    decreases n,
{
    let d = subscriber::drained(v, slot_payload_size, s, n);
    let e = subscriber::drained(v, slot_payload_size, s, n + 1);
    let one = subscriber::read_next(v, slot_payload_size, s);
    if n == 0 {
        if one.msg is Some {
            assert(subscriber::drained(one.rb, slot_payload_size, one.sub, 0).msgs.len() == 0);
            assert(e.msgs =~= d.msgs.push(one.msg->Some_0));
        }
    } else if one.msg is Some {
        lemma_drain_one_more(one.rb, slot_payload_size, one.sub, (n - 1) as nat);
        let d1 = subscriber::drained(one.rb, slot_payload_size, one.sub, (n - 1) as nat);
        let next = subscriber::read_next(d1.rb, slot_payload_size, d1.sub);
        if d.msgs.len() == n && next.msg is Some {
            assert(e.msgs =~= d.msgs.push(next.msg->Some_0));
        }
    }
}

/// Time that is left is waited for in whole milliseconds, up to the longest wait there is.
/// Without any left there is no wait.
pub proof fn law_wait_is_the_time_left(nanos: u128)
    ensures
        subscriber::wait_limit(nanos) is None <==> nanos == 0,
        nanos > 0 ==> ({
            let ms = subscriber::wait_limit(nanos)->Some_0 as int;
            &&& 0 <= ms <= 0x7FFF_FFFF
            &&& ms * 1_000_000 <= nanos
            &&& ms == 0x7FFF_FFFF || nanos < (ms + 1) * 1_000_000
        }),
{
}

/// A wait succeeds exactly when the wake-up came and the ring is still of the same
/// generation; otherwise the stream has ended, or the error is handed on.
pub proof fn law_wait_ends_as_it_went(
    waited: Result<(), IoKind>,
    same_generation: bool,
    kind: IoKind,
)
    ensures
        subscriber::wait_outcome(waited, same_generation) is Ok <==> waited is Ok
            && same_generation,
        subscriber::wait_outcome(Err(kind), same_generation) == Err::<(), IoKind>(kind),
        subscriber::wait_outcome(Ok(()), false) == Err::<(), IoKind>(IoKind::UnexpectedEof),
{
}

/// A timed wait that runs out is no error; every other failure is.
pub proof fn law_timeout_is_no_error(waited: Result<(), IoKind>)
    ensures
        subscriber::timed_outcome(waited) == Ok::<bool, Error>(true) <==> waited is Ok,
        subscriber::timed_outcome(waited) == Ok::<bool, Error>(false) <==> waited == Err::<
            (),
            IoKind,
        >(IoKind::WouldBlock) || waited == Err::<(), IoKind>(IoKind::TimedOut),
        subscriber::timed_outcome(waited) is Err ==> waited is Err && subscriber::timed_outcome(
            waited,
        ) == Err::<bool, Error>(Error::Io(waited->Err_0)),
{
}

/// Letting go of a cursor frees its slot of the table and nothing else.
pub proof fn law_letting_go_frees_one_slot(v: RingView, idx: usize, k: int)
    requires
        idx < v.cursors.len(),
        0 <= k < v.cursors.len(),
    ensures
        ({
            let after = subscriber::let_go(v, idx);
            &&& after.cursors.len() == v.cursors.len()
            &&& after.cursors[idx as int] == 0xFFFF_FFFF_FFFF_FFFF
            &&& k != idx ==> after.cursors[k] == v.cursors[k]
            &&& after.generation == v.generation
            &&& after.tail == v.tail
            &&& after.slots == v.slots
        }),
{
}

/// A handshake succeeds exactly when each of its steps did, and fails with the first that
/// did not.
pub proof fn law_handshake_needs_every_step(
    r: Result<(), Error>,
    name: Seq<char>,
    io: subscriber::ConnectIo,
)
    requires
        subscriber::handshake_is(r, name, io),
    ensures
        r is Ok <==> io.eventfd is Ok && io.connected && io.passed is Ok,
        io.eventfd is Err ==> r == Err::<(), Error>(Error::Io(io.eventfd->Err_0)),
        io.eventfd is Ok && !io.connected ==> r is Err && r->Err_0 is Timeout
            && r->Err_0->Timeout_0@ == name,
        io.eventfd is Ok && io.connected && io.passed is Err ==> r == Err::<(), Error>(
            Error::Io(io.passed->Err_0),
        ),
{
}

/// A message that was handed over is its bytes.
pub proof fn law_message_is_its_bytes(msg: Option<Vec<u8>>)
    ensures
        subscriber::bytes_of(msg) is Some <==> msg is Some,
        msg is Some ==> subscriber::bytes_of(msg)->Some_0 == msg->Some_0@,
{
}

/// A ring with slots serves every subscriber that its cursor table has a slot for, wherever
/// its cursor stands, as long as no slot carries the last number there is.
pub proof fn law_ring_serves_its_subscribers(rb: RingBuffer, s: SubscriberView)
    requires
        rb.wf(),
        rb.capacity > 0,
        s.idx < rb.max_subscribers,
        forall|i: int|
            0 <= i < rb@.slots.len() ==> (#[trigger] rb@.slots[i]).seq < 0xFFFF_FFFF_FFFF_FFFF,
    ensures
        subscriber::serves(rb, s),
        subscriber::same_shape(rb, rb),
{
}

/// A subscriber lags by the messages between its cursor and the tail.
pub proof fn law_lag_is_the_way_to_the_tail(tail: u64, cursor: u64)
    ensures
        cursor <= tail ==> cursor + ring::lag_of(tail, cursor) == tail,
        cursor > tail ==> ring::lag_of(tail, cursor) == 0,
{
}

/// At the tail, or behind it, there is nothing to read, whatever the ring holds.
pub proof fn law_nothing_is_read_at_the_tail(
    v: RingView,
    slot_payload_size: u32,
    s: SubscriberView,
)
    requires
        s.cursor >= v.tail,
    ensures
        ring::readable_at(v, slot_payload_size, s.cursor) is None,
        subscriber::read_next(v, slot_payload_size, s).msg is None,
        subscriber::read_next(v, slot_payload_size, s).rb == v,
        subscriber::read_next(v, slot_payload_size, s).sub == s,
{
}

} // verus!

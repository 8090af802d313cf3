//! What a caller of the operations can rely on, stated of the calls themselves: what goes in,
//! what comes out, and what is there afterwards.

use crate::bus;
use crate::config::{BackpressurePolicy, BusConfig};
use crate::error::{Error, IoKind};
use crate::exporter;
use crate::exporter::Route;
use crate::producer_lock;
use crate::producer_lock::LockTable;
use crate::prometheus;
use crate::prometheus_laws;
use crate::publisher;
use crate::publisher::{PublishIo, Publisher};
use crate::publisher_laws;
use crate::ring;
use crate::ring::{RingBuffer, RingStats, SeqBefore, SlotReader};
use crate::ring_laws;
use crate::rows;
use crate::rows::RowError;
use crate::stats::TopicStats;
use crate::subscriber;
use crate::subscriber::{ConnectStep, StartPos, Subscriber};
use crate::subscriber_laws;
use crate::subscription::Subscription;
use crate::text;
use crate::wal::clock;
use crate::wal::config::WalConfig;
use crate::wal::flusher;
use crate::wal::flusher::{Flusher, FlusherStep};
use crate::wal::index;
use crate::wal::record;
use crate::wal::segment_reader;
use crate::wal::segment_reader::RecoveryReport;
use crate::wal::segment_writer::{SegmentWriter, WriterError};
use crate::wal::stats::WalStats;
use crate::wal::step_laws;
use crate::wal::v2::mmap_segment_writer;
use crate::wal::v2::mmap_segment_writer::{AppendOutcome, Entry, MmapSegmentWriter};
use crate::wal::v2::rotation;
use crate::wal::v2::step_laws as mapped_step_laws;
use crate::wal::v2::wal as mapped_wal;
use crate::wal::wal;
use crate::wal::wal::{
    AppendIo, ReplayStep, Wal, WalError, WalRecovery, WalReplayer, WalView,
};
use vstd::prelude::*;

verus! {

// ── The log ──────────────────────────────────────────────────────────────────

/// The end of an append deletes nothing from a log whose segments add up to no more than its
/// retention limit, and leaves its index as it is. What it deletes are the oldest segments,
/// and before the last deletion the log was above the limit.
pub proof fn law_finish_append_keeps_to_the_limit(
    w: &mut Wal,
    len: usize,
    synced: Result<(), IoKind>,
    r: Result<Vec<u64>, WalError>,
)
    requires
        old(w).wf(),
        old(w)@.cfg.enabled,
        call_ensures(Wal::finish_append, (w, len, synced), r),
    ensures
        ({
            let s = old(w)@.segments;
            let limit = old(w)@.cfg.retention_bytes;
            let a = old(w)@.active;
            &&& r is Err <==> old(w)@.cfg.fsync_policy is Each && synced is Err
            &&& r is Err ==> final(w)@ == old(w)@
            &&& index::total_size(s) <= limit ==> final(w)@.segments == s
            &&& r is Ok && index::total_size(s) <= limit ==> r->Ok_0@.len() == 0
            &&& r is Ok && index::ascending(s) && (a is Some ==> s.len() > 0 && s.last().0
                == a->Some_0.first) ==> {
                let n = r->Ok_0@.len() as int;
                &&& n <= s.len()
                &&& final(w)@.segments == s.skip(n)
                &&& r->Ok_0@ == index::keys(s).take(n)
                &&& n > 0 ==> index::total_size(s.skip(n - 1)) > limit
                &&& index::total_size(s.skip(n)) <= limit || n == s.len() || (n == s.len() - 1
                    && a is Some)
            }
        }),
{
    let v = old(w)@;
    step_laws::law_log_within_its_limit_stays(v, len as nat, synced);
    step_laws::law_end_of_append_is_counted(v, len as nat, synced);
    if wal::finished(v, len as nat, synced).1 is Ok && index::ascending(v.segments) && (v.active
        is Some ==> v.segments.len() > 0 && v.segments.last().0 == v.active->Some_0.first) {
        step_laws::law_end_of_append_keeps_to_the_limit(v, len as nat, synced);
    }
}

/// The same of the log over memory-mapped segments, in the bytes that it counts.
pub proof fn law_mapped_finish_append_keeps_to_the_limit(
    w: &mut mapped_wal::Wal,
    len: usize,
    flushed: Result<(), IoKind>,
    r: Result<Vec<u64>, mapped_wal::WalError>,
)
    requires
        old(w).wf(),
        old(w)@.cfg.enabled,
        call_ensures(mapped_wal::Wal::finish_append, (w, len, flushed), r),
    ensures
        ({
            let s = old(w)@.segments;
            let limit = old(w)@.cfg.retention_bytes;
            let a = old(w)@.active;
            let within = old(w)@.retained_bytes + old(w)@.active_bytes <= limit;
            &&& r is Err <==> old(w)@.cfg.fsync_policy is Each && a is Some && flushed is Err
            &&& r is Err ==> final(w)@ == old(w)@
            &&& within && index::ascending(s) && (a is Some ==> s.len() > 0 && s.last().0
                == a->Some_0.first) ==> final(w)@.segments == s && (r is Ok ==> r->Ok_0@.len() == 0)
            &&& r is Ok && index::ascending(s) && (a is Some ==> s.len() > 0 && s.last().0
                == a->Some_0.first) ==> {
                let n = r->Ok_0@.len() as int;
                &&& n <= s.len()
                &&& final(w)@.segments == s.skip(n)
                &&& r->Ok_0@ == index::keys(s).take(n)
                &&& n > 0 ==> mapped_step_laws::without(
                    old(w)@.retained_bytes as int,
                    index::total_size(s.take(n - 1)) as int,
                ) + old(w)@.active_bytes > limit
            }
        }),
{
    let v = old(w)@;
    mapped_step_laws::law_end_of_append_is_counted(v, len as nat, flushed);
    if mapped_wal::finished(v, len as nat, flushed).1 is Ok && index::ascending(v.segments) && (
    v.active is Some ==> v.segments.len() > 0 && v.segments.last().0 == v.active->Some_0.first) {
        mapped_step_laws::law_end_of_append_keeps_to_the_limit(v, len as nat, flushed);
    }
}

/// An append to an active segment with room puts the record of the next cursor at its end, and
/// nothing is refused that fits.
pub proof fn law_append_takes_the_next_record(
    w: &mut Wal,
    cursor: u64,
    ts_unix_nanos: u64,
    payload: &[u8],
    io: AppendIo,
    r: Result<(), WalError>,
)
    requires
        old(w).wf(),
        old(w)@.cfg.enabled,
        !old(w)@.poisoned,
        cursor < u64::MAX,
        payload@.len() <= 16_777_188,
        old(w)@.active is Some,
        old(w)@.active->Some_0.size() + 28 + payload@.len() <= old(w)@.cfg.segment_size_max,
        call_ensures(Wal::append, (w, cursor, ts_unix_nanos, payload, io), r),
    ensures
        ({
            let a = old(w)@.active->Some_0;
            let next = a.first + a.log.len();
            &&& r is Ok <==> cursor == next && io.written is Ok
            &&& r is Err ==> final(w)@ == old(w)@
            &&& r is Ok ==> {
                let b = final(w)@.active;
                &&& b is Some
                &&& b->Some_0.first == a.first
                &&& b->Some_0.log == a.log.push(
                    record::RecordView { cursor, ts_unix_nanos, payload: payload@ },
                )
                &&& final(w)@.durable == old(w)@.durable
            }
        }),
{
    step_laws::law_record_goes_into_the_active_segment(
        old(w)@,
        record::RecordView { cursor, ts_unix_nanos, payload: payload@ },
        io,
    );
}

/// The statistics of a log are what it has counted and holds.
pub proof fn law_log_statistics(w: &Wal, s: WalStats)
    requires
        w.wf(),
        call_ensures(Wal::stats, (w,), s),
        index::total_size(w@.segments) <= u64::MAX,
        w@.segments.len() <= usize::MAX,
    ensures
        s.pending_cursor == w@.pending() as u64,
        s.durable_cursor == w@.durable,
        s.appends_total == w@.appends,
        s.append_bytes_total == w@.append_bytes,
        s.flushes_total == w@.flushes,
        s.total_wal_bytes == index::total_size(w@.segments),
        s.segments == w@.segments.len(),
        w@.segments.len() > 0 ==> s.oldest_cursor == w@.segments[0].0,
        w@.segments.len() == 0 ==> s.oldest_cursor == 0,
        w@.active is Some ==> s.active_segment_bytes == w@.active->Some_0.size() as u64,
        w@.active is None ==> s.active_segment_bytes == 0,
{
}

/// A flusher stops when it is told to, flushes when that is due, and otherwise sleeps until its
/// tick, fifty milliseconds at a time.
pub proof fn law_flusher_waits_for_its_tick(
    f: &mut Flusher,
    shutdown: bool,
    now: u128,
    appended: u64,
    s: FlusherStep,
)
    requires
        call_ensures(Flusher::step, (f, shutdown, now, appended), s),
    ensures
        ({
            let v = old(f)@;
            let due = now >= v.next_tick || flusher::pending_bytes(v, appended) > v.batch_bytes;
            &&& s is Stop <==> shutdown
            &&& s is Flush <==> !shutdown && due
            &&& s is Sleep <==> !shutdown && !due
            &&& s is Flush ==> final(f)@.flushed == appended && final(f)@.next_tick
                == flusher::tick_after(now, v.interval)
            &&& s is Flush ==> final(f)@.interval == v.interval && final(f)@.batch_bytes
                == v.batch_bytes
            &&& !(s is Flush) ==> final(f)@ == v
            &&& s is Sleep ==> s->Sleep_0 <= 50_000_000 && s->Sleep_0 <= v.next_tick - now && (
            s->Sleep_0 == 50_000_000 || s->Sleep_0 == v.next_tick - now)
        }),
{
}

/// A clock that is anchored adds what has elapsed to its base, as far as the numbers go.
pub proof fn law_anchored_clock_adds(base: u64, elapsed: u128, n: u64)
    requires
        call_ensures(clock::anchored_nanos, (base, elapsed), n),
    ensures
        n >= base,
        base + elapsed <= u64::MAX ==> n == base + elapsed,
{
}

// ── Publishing ───────────────────────────────────────────────────────────────

/// A publish is refused as too large exactly when the message is longer than a slot. It
/// succeeds whenever it has no reason to fail, and then the tail has moved by one, the message
/// stands whole in the slot of the old tail, and the message is counted. Where it fails the
/// ring is as it was.
pub proof fn law_publish_delivers(
    p: &mut Publisher,
    rb: &mut RingBuffer,
    data: &[u8],
    io: PublishIo,
    r: Result<(), Error>,
    j: int,
)
    requires
        old(rb).wf(),
        old(rb).capacity > 0,
        old(rb).slot_payload_size == old(p)@.slot_size,
        old(rb)@.tail < u64::MAX,
        0 <= j < old(rb).capacity,
        call_ensures(Publisher::publish, (p, rb, data, io), r),
    ensures
        ({
            let was = old(rb)@;
            let now = final(rb)@;
            let at = was.tail as int % old(rb).capacity as int;
            let refused = ring::full_at(was.tail, was.cursors, old(rb).capacity)
                && old(p)@.backpressure == BackpressurePolicy::Error;
            &&& r is Err && r->Err_0 is TooLarge && (io.logged is Err ==> !(
            io.logged->Err_0 is TooLarge)) ==> data@.len() > old(p)@.slot_size
            &&& data@.len() > old(p)@.slot_size ==> r == Err::<(), Error>(
                Error::TooLarge { size: data@.len() as usize, max: old(p)@.slot_size as usize },
            )
            &&& r is Ok <==> data@.len() <= old(p)@.slot_size && io.accept_error is None
                && !refused && (old(p)@.wal ==> io.logged is Ok)
            &&& r is Err ==> now == was && final(p)@.published == old(p)@.published
            &&& r is Ok ==> {
                &&& now.tail == was.tail + 1
                &&& now.cursors == was.cursors
                &&& now.generation == was.generation
                &&& now.slots[at].seq == was.tail
                &&& now.slots[at].payload() == data@
                &&& j != at ==> now.slots[j] == was.slots[j]
                &&& final(p)@.published == publisher_laws::one_more(old(p)@.published)
            }
        }),
{
    old(rb).lemma_wf();
    let v = old(p)@;
    let was = old(rb)@;
    publisher_laws::law_publish_fails_for_a_reason(v, was, data@, io);
    if publisher::publishing(v, was, data@, io).2 is Ok {
        publisher_laws::law_publish_succeeds(v, was, data@, io, j);
    }
}

/// The subscribers that lag are exactly those whose lag reaches the threshold.
pub proof fn law_slow_are_those_at_the_threshold(
    lags: &Vec<(usize, u64)>,
    threshold: u64,
    slow: Vec<(usize, u64)>,
    i: int,
)
    requires
        call_ensures(publisher::lagging, (lags, threshold), slow),
    ensures
        0 <= i < lags@.len() && lags@[i].1 >= threshold ==> slow@.contains(lags@[i]),
        0 <= i < slow@.len() ==> slow@[i].1 >= threshold && lags@.contains(slow@[i]),
        slow@.len() <= lags@.len(),
        threshold == 0 ==> slow@ == lags@,
{
    let pred = |p: (usize, u64)| p.1 >= threshold;
    lags@.lemma_filter_len(pred);
    lemma_filtered(lags@, threshold);
    if 0 <= i < lags@.len() && lags@[i].1 >= threshold {
        lags@.lemma_filter_contains(pred, i);
    }
}

/// What is filtered was there, and a threshold of zero keeps everything.
proof fn lemma_filtered(s: Seq<(usize, u64)>, threshold: u64)
    ensures
        ({
            let f = s.filter(|p: (usize, u64)| p.1 >= threshold);
            &&& forall|i: int| 0 <= i < f.len() ==> (#[trigger] f[i]).1 >= threshold && s.contains(
                f[i],
            )
            &&& threshold == 0 ==> f == s
        }),
    decreases s.len(),
{
    reveal(Seq::filter);
    let pred = |p: (usize, u64)| p.1 >= threshold;
    let f = s.filter(pred);
    if s.len() > 0 {
        let rest = s.drop_last();
        lemma_filtered(rest, threshold);
        let g = rest.filter(pred);
        assert forall|i: int| 0 <= i < f.len() implies (#[trigger] f[i]).1 >= threshold
            && s.contains(f[i]) by {
            if i < g.len() {
                assert(f[i] == g[i]);
                let k = choose|k: int| 0 <= k < rest.len() && rest[k] == g[i];
                assert(s[k] == f[i]);
            } else {
                assert(f[i] == s[s.len() - 1]);
            }
        }
        if threshold == 0 {
            assert(f =~= s);
        }
    } else {
        assert(f =~= s);
    }
}

/// The statistics of a topic are those of its ring, its log and its publisher.
pub proof fn law_topic_statistics(
    p: &Publisher,
    ring_stats: RingStats,
    wal_stats: Option<WalStats>,
    s: TopicStats,
)
    requires
        call_ensures(Publisher::stats, (p, ring_stats, wal_stats), s),
    ensures
        s.ring == ring_stats,
        s.wal == wal_stats,
        s.connected_sockets == p@.clients.len(),
        s.published_total == p@.published,
        s.full_rejected_total == p@.full_rejected,
        s.subscribers_dropped_total == p@.dropped,
        s.wakeups_sent_total == p@.wakeups,
{
}

/// A ring that is behind its log catches up with it, and no other.
pub proof fn law_tail_catches_up(tail: u64, next: u64, r: Option<u64>)
    requires
        call_ensures(publisher::aligned_tail, (tail, next), r),
    ensures
        r is Some <==> next > tail,
        r is Some ==> r->Some_0 == next,
{
}

// ── Subscribing ──────────────────────────────────────────────────────────────

/// Starting at the tail and starting any number of messages back never fail. The start lies as
/// many messages behind the tail as were asked for, as the ring has slots, or as were
/// published, whichever is the fewest. A cursor is taken as it is, unless the ring no longer
/// holds its message.
pub proof fn law_start_cursor_is_found(
    start: StartPos,
    tail: u64,
    capacity: u32,
    r: Result<u64, Error>,
)
    requires
        call_ensures(subscriber::start_cursor, (start, tail, capacity), r),
    ensures
        start is Now ==> r == Ok::<u64, Error>(tail),
        start is HistoryBack ==> r is Ok && 0 <= tail - r->Ok_0 <= start->HistoryBack_0 && tail
            - r->Ok_0 <= capacity && (tail - r->Ok_0 == start->HistoryBack_0 || tail - r->Ok_0
            == capacity || r->Ok_0 == 0),
        start is Explicit && start->Explicit_0 + capacity >= tail ==> r == Ok::<u64, Error>(
            start->Explicit_0,
        ),
        start is Explicit && start->Explicit_0 + capacity < tail ==> r == Err::<u64, Error>(
            Error::CursorTooOld {
                requested: start->Explicit_0,
                oldest: (tail - capacity) as u64,
            },
        ),
{
}

/// Connecting is done when it succeeded, fails when the time is up, and is tried again
/// otherwise.
pub proof fn law_connecting_is_tried_again(
    name: &str,
    succeeded: bool,
    expired: bool,
    s: ConnectStep,
)
    requires
        call_ensures(subscriber::connect_step, (name, succeeded, expired), s),
    ensures
        s is Connected <==> succeeded,
        s is Again <==> !succeeded && !expired,
        s is Fail ==> s->Fail_0 is Timeout && s->Fail_0->Timeout_0@ == name@,
{
}

/// A subscriber reads the messages that a ring carries in their order: the one at its cursor,
/// whole, and nothing at the tail.
pub proof fn law_receive_gives_the_next_message(
    s: &mut Subscriber,
    rb: &mut RingBuffer,
    r: Option<Vec<u8>>,
    base: u64,
    msgs: Seq<Seq<u8>>,
)
    requires
        subscriber::serves(*old(rb), old(s)@),
        ring_laws::carries(old(rb)@, old(rb).slot_payload_size, base, msgs),
        base <= old(s)@.cursor <= old(rb)@.tail,
        old(rb)@.tail - old(s)@.cursor <= old(rb)@.slots.len(),
        old(s)@.idx < old(rb)@.cursors.len(),
        call_ensures(Subscriber::try_receive, (s, rb), r),
    ensures
        r is Some <==> old(s)@.cursor < old(rb)@.tail,
        r is Some ==> r->Some_0@ == msgs[old(s)@.cursor - base] && final(s)@.cursor
            == old(s)@.cursor + 1,
        r is None ==> final(s)@ == old(s)@ && final(rb)@ == old(rb)@,
{
    let v = old(rb)@;
    let sub = old(s)@;
    let sps = old(rb).slot_payload_size;
    subscriber_laws::law_drain_reads_in_order(v, sps, base, msgs, sub, 1);
    let one = subscriber::read_next(v, sps, sub);
    let d = subscriber::drained(v, sps, sub, 1);
    if one.msg is Some {
        assert(subscriber::drained(one.rb, sps, one.sub, 0).msgs.len() == 0);
        assert(d.msgs.len() == 1);
        assert(d.msgs[0] == one.msg->Some_0);
    } else {
        assert(d.msgs.len() == 0);
    }
}

/// A row takes the whole message, and every byte outside the row stays. It is refused exactly
/// when the message has another size.
pub proof fn law_store_row_keeps_the_message(
    buf: &mut [u8],
    index: usize,
    payload: &[u8],
    payload_size: usize,
    r: Result<(), RowError>,
)
    requires
        (index + 1) * payload_size <= old(buf)@.len(),
        call_ensures(rows::store_row, (buf, index, payload, payload_size), r),
    ensures
        r is Ok <==> payload@.len() == payload_size,
        final(buf)@.len() == old(buf)@.len(),
        r is Ok ==> final(buf)@.subrange(
            index * payload_size,
            (index + 1) * payload_size,
        ) == payload@,
        forall|i: int|
            0 <= i < old(buf)@.len() && !(index * payload_size <= i < (index + 1) * payload_size)
                ==> #[trigger] final(buf)@[i] == old(buf)@[i],
{
    assert((index + 1) * payload_size == index * payload_size + payload_size) by (nonlinear_arith);
    rows::law_row_holds_the_message(old(buf)@, index, payload@, payload_size);
}

/// Receiving into a buffer of rows gives `k` rows that are exactly the message that was waited
/// for and those from the cursor on, and leaves the bytes behind them alone.
pub proof fn law_recv_into_buffer_gives_whole_messages(
    s: &mut Subscriber,
    rb: &mut RingBuffer,
    buf: &mut [u8],
    payload_size: usize,
    first: Option<Vec<u8>>,
    r: Result<usize, RowError>,
)
    requires
        subscriber::serves(*old(rb), old(s)@),
        old(buf)@.len() <= usize::MAX,
        call_ensures(Subscriber::recv_into_buffer, (s, rb, buf, payload_size, first), r),
    ensures
        final(buf)@.len() == old(buf)@.len(),
        r is Ok && r->Ok_0 == 0 ==> final(buf)@ == old(buf)@,
        r is Ok && r->Ok_0 > 0 ==> ({
            let k = r->Ok_0;
            let d = subscriber::drained(
                old(rb)@,
                old(rb).slot_payload_size,
                old(s)@,
                (k - 1) as nat,
            );
            &&& first is Some
            &&& d.msgs.len() == k - 1
            &&& subscriber_laws::rows_hold(
                old(buf)@,
                final(buf)@,
                payload_size,
                0,
                seq![first->Some_0@] + d.msgs,
            )
        }),
{
    subscriber_laws::law_rows_are_the_messages(
        old(rb)@,
        old(rb).slot_payload_size,
        old(s)@,
        old(buf)@,
        payload_size,
        subscriber::bytes_of(first),
    );
}

// ── Settings and metrics ─────────────────────────────────────────────────────

/// A setting that is given is taken, and one that is not has its default.
pub proof fn law_settings_have_defaults(
    base_dir: Option<String>,
    capacity: Option<u32>,
    slot_size: Option<u32>,
    max_subscribers: Option<u32>,
    c: BusConfig,
)
    requires
        call_ensures(bus::config_from, (base_dir, capacity, slot_size, max_subscribers), c),
    ensures
        base_dir is Some ==> c.base_dir@ == base_dir->Some_0@,
        base_dir is None ==> c.base_dir@ == "/tmp/mmbus"@,
        capacity is Some ==> c.capacity == capacity->Some_0,
        capacity is None ==> c.capacity == 256,
        slot_size is Some ==> c.slot_size == slot_size->Some_0,
        slot_size is None ==> c.slot_size == 0x1_0000,
        max_subscribers is Some ==> c.max_subscribers == max_subscribers->Some_0,
        max_subscribers is None ==> c.max_subscribers == 16,
        c.backpressure == BackpressurePolicy::Error,
        !c.wal.enabled,
{
}

/// What is rendered of a topic has each of its metrics once, with the statistic that it is
/// named after as its value.
pub proof fn law_render_shows_the_statistics(topic: &str, s: &TopicStats, out: String, i: int)
    requires
        call_ensures(prometheus::render, (topic, s), out),
        0 <= i < prometheus::metrics_of(*s).len(),
    ensures
        ({
            let ms = prometheus::metrics_of(*s);
            let label = prometheus::escaped(topic@);
            let m = ms[i];
            &&& out@ == prometheus::written(label, ms.take(i)) + (("# HELP "@ + m.name + " "@
                + m.help).push('\n') + ("# TYPE "@ + m.name + " "@ + m.kind).push('\n') + (m.name
                + "{topic=\""@ + label + "\"} "@ + text::decimal(m.value)).push('\n'))
                + prometheus::written(label, ms.skip(i + 1))
            &&& prometheus_laws::shows(ms, m.name, m.help, m.kind, m.value as int)
            &&& m.name == "mmbus_published_total"@ ==> m.value == s.published_total
            &&& m.name == "mmbus_wal_append_bytes_total"@ && s.wal is Some ==> m.value
                == s.wal->Some_0.append_bytes_total
        }),
{
    prometheus_laws::law_topic_is_rendered_in_order(topic@, *s, i);
    prometheus_laws::law_metric_is_three_lines(
        prometheus::escaped(topic@),
        prometheus::metrics_of(*s)[i],
    );
    prometheus_laws::lemma_shown(*s, i);
    prometheus_laws::law_metrics_show_their_statistics(*s);
    if s.wal is Some {
        prometheus_laws::law_log_metrics_show_their_statistics(*s);
    }
}

/// Headers end with an empty line, however it is ended.
pub proof fn law_headers_end_with_an_empty_line(line: &str, r: bool)
    requires
        call_ensures(exporter::ends_headers, (line,), r),
    ensures
        r <==> line@.len() == 0 || line@ == "\n"@ || line@ == "\r\n"@,
{
}

/// Only the metrics have a body.
pub proof fn law_only_metrics_have_a_body(route: Route, scraped: &str, out: String)
    requires
        call_ensures(exporter::response, (route, scraped), out),
    ensures
        route is Metrics ==> out@ == exporter::answer(route, scraped@),
        !(route is Metrics) ==> out@ == exporter::answer(route, Seq::empty()),
{
    reveal_strlit("");
    assert(""@ =~= Seq::<char>::empty());
}

/// A topic keeps its files under these names.
pub proof fn law_files_of_a_topic(dir: &str, ring_at: String, sock: String, lock: String, log: String)
    requires
        call_ensures(bus::ring_path, (dir,), ring_at),
        call_ensures(bus::sock_path, (dir,), sock),
        call_ensures(bus::lock_path, (dir,), lock),
        call_ensures(bus::wal_path, (dir,), log),
    ensures
        ring_at@ == text::joined(dir@, "ring.mmap"@),
        sock@ == text::joined(dir@, "signal.sock"@),
        lock@ == text::joined(dir@, "producer.lock"@),
        log@ == text::joined(dir@, "wal"@),
{
}

// ── Reading a slot that is being written ─────────────────────────────────────

/// A read of a slot starts at the cursor with sixteen tries, unless the cursor is at the tail;
/// each try uses one up.
pub proof fn law_slot_read_has_sixteen_tries(
    cursor: u64,
    tail: u64,
    r: Option<SlotReader>,
    reader: &mut SlotReader,
    more: bool,
)
    requires
        call_ensures(SlotReader::start, (cursor, tail), r),
        call_ensures(SlotReader::next_try, (reader,), more),
    ensures
        r is Some <==> cursor < tail,
        r is Some ==> r->Some_0.position == cursor && r->Some_0.tries == 16,
        more <==> old(reader).tries > 0,
        more ==> final(reader).tries + 1 == old(reader).tries,
        !more ==> final(reader).tries == 0,
        final(reader).position == old(reader).position,
{
}

/// Before it copies, a reader compares the number of the slot: its own is there, a lower one is
/// not there yet, and a higher one takes it along. After it copied, only its own number still
/// being there makes the copy good.
pub proof fn law_copy_is_good_if_the_number_stayed(
    before: &mut SlotReader,
    after: &mut SlotReader,
    seq: u64,
    b: SeqBefore,
    a: Option<u64>,
)
    requires
        old(after).position < u64::MAX,
        call_ensures(SlotReader::before_copy, (before, seq), b),
        call_ensures(SlotReader::after_copy, (after, seq), a),
    ensures
        b is Present <==> seq == old(before).position,
        b is Missing <==> seq < old(before).position,
        b is Skipped <==> seq > old(before).position,
        b is Skipped ==> final(before).position == seq,
        !(b is Skipped) ==> final(before).position == old(before).position,
        a is Some <==> seq == old(after).position,
        a is Some ==> a->Some_0 == old(after).position + 1,
        seq > old(after).position ==> final(after).position == seq,
        seq <= old(after).position ==> final(after).position == old(after).position,
        final(before).tries == old(before).tries,
        final(after).tries == old(after).tries,
{
}

// ── Receiving ────────────────────────────────────────────────────────────────

/// A subscriber of durable messages reads nothing that is not durable yet, and everything that
/// is as it would otherwise.
pub proof fn law_durable_reads_wait_for_the_log(
    s: &mut Subscriber,
    rb: &mut RingBuffer,
    durable: u64,
    r: Option<Vec<u8>>,
)
    requires
        subscriber::serves(*old(rb), old(s)@),
        call_ensures(Subscriber::try_receive_durable, (s, rb, durable), r),
    ensures
        old(s)@.cursor >= durable ==> r is None && final(s)@ == old(s)@ && final(rb)@ == old(rb)@,
        old(s)@.cursor < durable ==> ({
            let want = subscriber::read_next(old(rb)@, old(rb).slot_payload_size, old(s)@);
            &&& r is Some <==> want.msg is Some
            &&& r is Some ==> r->Some_0@ == want.msg->Some_0
            &&& final(s)@ == want.sub
            &&& final(rb)@ == want.rb
        }),
{
}

/// A message that is received into a slice stands at its front, and the rest of the slice stays.
/// One that is longer than the slice is reported, and the slice stays whole.
pub proof fn law_slice_takes_the_message(
    s: &mut Subscriber,
    rb: &mut RingBuffer,
    out: &mut [u8],
    r: Result<Option<usize>, Error>,
)
    requires
        subscriber::serves(*old(rb), old(s)@),
        call_ensures(Subscriber::try_receive_one_into_slice, (s, rb, out), r),
    ensures
        ({
            let msg = subscriber::read_next(old(rb)@, old(rb).slot_payload_size, old(s)@).msg;
            let n = old(out)@.len();
            &&& final(out)@.len() == n
            &&& msg is None ==> r == Ok::<Option<usize>, Error>(None) && final(out)@ == old(out)@
            &&& msg is Some && msg->Some_0.len() <= n ==> r == Ok::<Option<usize>, Error>(
                Some(msg->Some_0.len() as usize),
            ) && final(out)@.take(msg->Some_0.len() as int) == msg->Some_0 && final(out)@.skip(
                msg->Some_0.len() as int,
            ) == old(out)@.skip(msg->Some_0.len() as int)
            &&& msg is Some && msg->Some_0.len() > n ==> r == Err::<Option<usize>, Error>(
                Error::TooLarge { size: msg->Some_0.len() as usize, max: n as usize },
            ) && final(out)@ == old(out)@
        }),
{
    let msg = subscriber::read_next(old(rb)@, old(rb).slot_payload_size, old(s)@).msg;
    if msg is Some && msg->Some_0.len() <= old(out)@.len() {
        let k = msg->Some_0.len() as int;
        assert(final(out)@.take(k) =~= msg->Some_0);
        assert(final(out)@.skip(k) =~= old(out)@.skip(k));
    }
}

/// A stream yields every result but the two that end it.
pub proof fn law_stream_yields_what_it_receives(
    received: Result<Vec<u8>, Error>,
    item: Option<Result<Vec<u8>, Error>>,
)
    requires
        call_ensures(Subscription::next, (received,), item),
    ensures
        received is Ok ==> item == Some(received),
        item is None <==> received is Err && (received->Err_0 == Error::Io(IoKind::UnexpectedEof)
            || received->Err_0 == Error::Io(IoKind::ConnectionReset)),
        item is Some ==> item->Some_0 == received,
{
}

/// A wakeup is needed exactly when there is nothing to read yet.
pub proof fn law_wakeup_is_armed_at_the_tail(s: &Subscriber, tail: u64, ready: bool)
    requires
        call_ensures(Subscriber::arm_wakeup, (s, tail), ready),
    ensures
        ready <==> s@.cursor < tail,
{
}

// ── Flushing, opening and replaying ──────────────────────────────────────────

/// A tick of the flusher makes everything appended durable and goes on; where it fails the log
/// is poisoned, nothing else changes, and the flusher stops.
pub proof fn law_failed_tick_poisons(w: &mut Wal, synced: Result<(), IoKind>, go_on: bool)
    requires
        old(w).wf(),
        old(w)@.pending() <= u64::MAX,
        call_ensures(Wal::flush_tick, (w, synced), go_on),
    ensures
        go_on <==> old(w)@.active is None || synced is Ok,
        !go_on ==> final(w)@ == (WalView { poisoned: true, ..old(w)@ }),
        go_on ==> final(w)@.poisoned == old(w)@.poisoned && final(w)@.segments
            == old(w)@.segments,
        go_on && old(w)@.active is Some ==> final(w)@.durable == old(w)@.pending(),
        go_on && old(w)@.active is None ==> final(w)@ == old(w)@,
{
}

/// The same of the log over memory-mapped segments, up to the cursor that was pending when the
/// flush began.
pub proof fn law_failed_mapped_tick_poisons(
    w: &mut mapped_wal::Wal,
    snapshot: u64,
    flushed: Result<(), IoKind>,
    go_on: bool,
)
    requires
        old(w).wf(),
        call_ensures(mapped_wal::Wal::flush_tick, (w, snapshot, flushed), go_on),
    ensures
        go_on <==> old(w)@.active is None || flushed is Ok,
        !go_on ==> final(w)@ == (mapped_wal::WalView { poisoned: true, ..old(w)@ }),
        go_on ==> final(w)@.durable == snapshot && final(w)@.poisoned == old(w)@.poisoned
            && final(w)@.segments == old(w)@.segments && final(w)@.pending == old(w)@.pending,
{
}

/// A replay goes through its segments in order: what the open one yields is yielded, and at its
/// end the next segment is asked for. It ends when there is none.
pub proof fn law_replay_goes_on_with_the_next_segment(p: &mut WalReplayer, step: ReplayStep)
    requires
        old(p).wf(),
        call_ensures(WalReplayer::next, (p,), step),
    ensures
        final(p).floor() == old(p).floor(),
        old(p).reading() is None ==> (step is End <==> old(p).ahead().len() == 0),
        old(p).reading() is None && old(p).ahead().len() > 0 ==> step == ReplayStep::Open(
            old(p).ahead()[0],
        ) && final(p).ahead() == old(p).ahead().skip(1),
        old(p).reading() is Some ==> ({
            let got = wal::read_on(old(p).reading()->Some_0, old(p).floor());
            &&& got.0 is Some && got.0->Some_0 is Ok ==> step is Yield && step->Yield_0 is Ok
                && step->Yield_0->Ok_0@ == got.0->Some_0->Ok_0 && final(p).ahead()
                == old(p).ahead() && final(p).reading() == Some(got.1)
            &&& got.0 is Some && got.0->Some_0 is Err ==> step is Yield && step->Yield_0 is Err
                && final(p).ahead() == old(p).ahead()
            &&& got.0 is None && old(p).ahead().len() > 0 ==> step == ReplayStep::Open(
                old(p).ahead()[0],
            ) && final(p).ahead() == old(p).ahead().skip(1)
            &&& got.0 is None && old(p).ahead().len() == 0 ==> step is End
        }),
{
}

/// What a file tells recovery: one that is no segment is passed over, one that cannot be read
/// stops it, and a segment is listed with the bytes that were kept of it. The newest segment is
/// the one with the highest first cursor.
pub proof fn law_recovery_lists_the_segments(
    found: &mut WalRecovery,
    name: &str,
    contents: Result<Vec<u8>, IoKind>,
    r: Result<Option<RecoveryReport>, WalError>,
)
    requires
        old(found).wf(),
        call_ensures(WalRecovery::add_file, (found, name, contents), r),
    ensures
        ({
            let first = rotation::cursor_of_name(name@);
            let header = record::parsed_header(contents->Ok_0@);
            &&& first is None ==> r == Ok::<Option<RecoveryReport>, WalError>(None)
            &&& first is Some && contents is Err ==> r is Err
            &&& first is Some && contents is Ok ==> (r is Ok <==> header is Ok)
            &&& r is Err || first is None ==> final(found).segments() == old(found).segments()
                && final(found).newest() == old(found).newest()
            &&& first is Some && r is Ok ==> {
                let report = segment_reader::recovered(contents->Ok_0@);
                &&& r->Ok_0 == Some(report)
                &&& final(found).segments() == index::with_entry(
                    old(found).segments(),
                    first->Some_0,
                    report.final_len,
                )
                &&& final(found).newest() is Some
                &&& final(found).newest()->Some_0.0 >= first->Some_0
                &&& old(found).newest() is Some && old(found).newest()->Some_0.0 > first->Some_0
                    ==> final(found).newest() == old(found).newest()
                &&& old(found).newest() is None || old(found).newest()->Some_0.0 <= first->Some_0
                    ==> final(found).newest()->Some_0.0 == first->Some_0
            }
        }),
{
}

/// A reservation is given exactly when nobody has it, and giving it up frees it alone.
pub proof fn law_reservation_is_exclusive(
    t: &mut LockTable,
    path: String,
    ok: bool,
    u: &mut LockTable,
    other: &String,
)
    requires
        old(t).wf(),
        old(u).wf(),
        call_ensures(LockTable::reserve, (t, path), ok),
        call_ensures(LockTable::release, (u, other), ()),
    ensures
        ok <==> !old(t)@.contains(path@),
        ok ==> final(t)@ == old(t)@.push(path@),
        !ok ==> final(t)@ == old(t)@,
        !final(u)@.contains(other@),
        forall|p: Seq<char>|
            p != other@ ==> (#[trigger] final(u)@.contains(p) <==> old(u)@.contains(p)),
{
    assert(producer_lock::held(old(t)@, path@) <==> old(t)@.contains(path@));
    assert(producer_lock::held(final(u)@, other@) <==> final(u)@.contains(other@));
    assert forall|p: Seq<char>| p != other@ implies (#[trigger] final(u)@.contains(p) <==> old(
        u,
    )@.contains(p)) by {
        assert(producer_lock::held(final(u)@, p) <==> final(u)@.contains(p));
        assert(producer_lock::held(old(u)@, p) <==> old(u)@.contains(p));
    }
}

/// A segment takes exactly the record of its next cursor, if its payload is not too large: it is
/// then its last one, and what is buffered for the file has grown by its bytes. Otherwise
/// nothing changes.
pub proof fn law_segment_takes_its_next_record(
    w: &mut SegmentWriter,
    cursor: u64,
    ts_unix_nanos: u64,
    payload: &[u8],
    r: Result<(), WriterError>,
)
    requires
        old(w).wf(),
        old(w).pending() < u64::MAX,
        old(w).content().len() + 28 + payload@.len() <= u64::MAX,
        call_ensures(SegmentWriter::append, (w, cursor, ts_unix_nanos, payload), r),
    ensures
        r is Ok <==> payload@.len() <= 16_777_188 && cursor == old(w).pending(),
        r is Err ==> *final(w) == *old(w),
        payload@.len() > 16_777_188 ==> r == Err::<(), WriterError>(
            WriterError::PayloadTooLarge { payload_len: payload@.len() as usize },
        ),
        payload@.len() <= 16_777_188 && cursor != old(w).pending() ==> r == Err::<
            (),
            WriterError,
        >(WriterError::CursorRegressed { got: cursor, expected: old(w).pending() }),
        r is Ok ==> ({
            let rec = record::RecordView { cursor, ts_unix_nanos, payload: payload@ };
            &&& final(w).log() == old(w).log().push(rec)
            &&& final(w).first() == old(w).first()
            &&& final(w).durable() == old(w).durable()
            &&& final(w).in_file() == old(w).in_file()
            &&& final(w).buffered() == old(w).buffered() + record::encoded_record(rec)
        }),
{
}

/// A mapped segment takes a record that it has room for: it is then its last entry, right behind
/// the others, and the stores put its bytes there. One without room is left to the next segment,
/// and a payload that is too large is refused; nothing changes then.
pub proof fn law_mapped_segment_takes_what_fits(
    w: &mut MmapSegmentWriter,
    cursor: u64,
    ts_unix_nanos: u64,
    payload: &[u8],
    r: Result<AppendOutcome, mmap_segment_writer::WriterError>,
)
    requires
        old(w).wf(),
        cursor < u64::MAX,
        call_ensures(MmapSegmentWriter::append, (w, cursor, ts_unix_nanos, payload), r),
    ensures
        ({
            let rec = record::RecordView { cursor, ts_unix_nanos, payload: payload@ };
            let len = mmap_segment_writer::padded_len(rec);
            let room = old(w).end() + len <= old(w).size();
            &&& r is Err <==> payload@.len() > 16_777_188
            &&& r is Ok && r->Ok_0 is SegmentFull <==> payload@.len() <= 16_777_188 && !room
            &&& r is Err || r->Ok_0 is SegmentFull ==> *final(w) == *old(w)
            &&& payload@.len() <= 16_777_188 && room ==> {
                &&& r is Ok
                &&& r->Ok_0 is Appended
                &&& final(w).log() == old(w).log().push(Entry::Record(rec))
                &&& final(w).end() == old(w).end() + len
                &&& r->Ok_0->byte_offset == old(w).end()
                &&& r->Ok_0->next_cursor == cursor + 1
                &&& r->Ok_0->write.at == old(w).end()
                &&& r->Ok_0->write.tail == old(w).end() + len
                &&& r->Ok_0->write.commit == len
                &&& r->Ok_0->write.claim == len + 0x8000_0000
                &&& r->Ok_0->write.body@ == mmap_segment_writer::record_tail(rec)
            }
        }),
{
}

/// A log is opened where what was found goes on: with its segments, not poisoned, everything
/// durable, and nothing counted yet. Where the next record needs a segment of its own that is
/// started, and where that fails there is no log.
pub proof fn law_log_opens_where_it_ended(
    cfg: WalConfig,
    found: WalRecovery,
    created: Result<(), IoKind>,
    r: Result<Wal, WalError>,
)
    requires
        found.wf(),
        found.next_cursor_is() <= u64::MAX,
        call_ensures(Wal::open, (cfg, found, created), r),
    ensures
        r is Err <==> found.needs_segment_is() && created is Err,
        r is Ok ==> ({
            let v = r->Ok_0@;
            &&& r->Ok_0.wf()
            &&& v.cfg == cfg
            &&& v.pending() == found.next_cursor_is()
            &&& v.durable == found.next_cursor_is()
            &&& !v.poisoned
            &&& v.appends == 0
            &&& v.append_bytes == 0
            &&& v.flushes == 0
            &&& v.active is Some <==> found.needs_segment_is()
            &&& v.active is None ==> v.segments == found.segments()
            &&& v.active is Some ==> v.active->Some_0.log.len() == 0 && v.segments
                == index::with_entry(found.segments(), found.next_cursor_is() as u64, 32)
        }),
{
}

} // verus!

//! What a scrape can rely on.

use crate::prometheus;
use crate::prometheus::Metric;
use crate::stats::TopicStats;
use crate::text;
use crate::text_laws;
use crate::wal::stats::WalStats;
use vstd::prelude::*;

verus! {

// ── Labels ───────────────────────────────────────────────────────────────────

/// A label value is written character by character: a backslash or a quote behind a
/// backslash, the end of a line as a backslash and an `n`, any other control character as an
/// underscore, and everything else as it is.
pub proof fn law_label_is_written_by_character(a: Seq<char>, b: Seq<char>, c: char)
    ensures
        prometheus::escaped(a + b) == prometheus::escaped(a) + prometheus::escaped(b),
        ({
            let e = prometheus::escaped(seq![c]);
            if c == '\\' || c == '"' {
                e == seq!['\\', c]
            } else if c as u32 == 10 {
                e == seq!['\\', 'n']
            } else if c as u32 <= 31 || c as u32 == 127 {
                e == seq!['_']
            } else {
                e == seq![c]
            }
        }),
    decreases b.len(),
{
    let one = seq![c];
    assert(one.drop_last() =~= Seq::<char>::empty());
    assert(one.last() == c);
    assert(prometheus::escaped(one.drop_last()) =~= Seq::<char>::empty());
    assert(prometheus::escaped(one) =~= prometheus::escaped_char(c));
    if b.len() == 0 {
        assert(a + b =~= a);
        assert(prometheus::escaped(a) + prometheus::escaped(b) =~= prometheus::escaped(a));
    } else {
        law_label_is_written_by_character(a, b.drop_last(), c);
        assert((a + b).drop_last() =~= a + b.drop_last());
        assert(prometheus::escaped(a + b) =~= prometheus::escaped(a) + prometheus::escaped(b));
    }
}

// ── Metrics ──────────────────────────────────────────────────────────────────

/// Whether exactly one of the metrics has this name, and it has this explanation, kind and
/// value.
pub open spec fn shows(
    ms: Seq<Metric>,
    name: Seq<char>,
    help: Seq<char>,
    kind: Seq<char>,
    value: int,
) -> bool {
    exists|i: int|
        {
            &&& 0 <= i < ms.len()
            &&& (#[trigger] ms[i]).name == name
            &&& ms[i].help == help
            &&& ms[i].kind == kind
            &&& ms[i].value == value
            &&& forall|j: int| 0 <= j < ms.len() && (#[trigger] ms[j]).name == name ==> j == i
        }
}

/// Every metric shows the statistic that it is named after, and stands there exactly once.
/// There are no other metrics.
pub proof fn law_metrics_show_their_statistics(s: TopicStats)
    ensures
        ({
            let ms = prometheus::metrics_of(s);
            let lags = s.ring.lags@;
            &&& ms.len() == if s.wal is Some {
                16nat
            } else {
                8nat
            }
            &&& shows(
                ms,
                "mmbus_published_total"@,
                "Successful publishes since publisher creation."@,
                "counter"@,
                s.published_total as int,
            )
            &&& shows(
                ms,
                "mmbus_full_rejected_total"@,
                "Publishes rejected with Error::Full under BackpressurePolicy::Error."@,
                "counter"@,
                s.full_rejected_total as int,
            )
            &&& shows(
                ms,
                "mmbus_subscribers_dropped_total"@,
                "Subscribers dropped by the publisher because their wakeup call failed."@,
                "counter"@,
                s.subscribers_dropped_total as int,
            )
            &&& shows(
                ms,
                "mmbus_wakeups_sent_total"@,
                "Wakeup syscalls fired (coalesced; below published_total under bursts)."@,
                "counter"@,
                s.wakeups_sent_total as int,
            )
            &&& shows(
                ms,
                "mmbus_connected_sockets"@,
                "Subscriber sockets currently accepted."@,
                "gauge"@,
                s.connected_sockets as int,
            )
            &&& shows(
                ms,
                "mmbus_ring_tail"@,
                "Next slot the producer will write (monotonic during a publisher's lifetime)."@,
                "gauge"@,
                s.ring.tail as int,
            )
            &&& shows(
                ms,
                "mmbus_active_subscribers"@,
                "Number of subscribers with a claimed cursor slot."@,
                "gauge"@,
                s.ring.active_subscribers as int,
            )
            &&& exists|lag: u64|
                {
                    &&& #[trigger] shows(
                        ms,
                        "mmbus_max_subscriber_lag"@,
                        "Highest per-subscriber lag (tail − cursor) across all active subscribers."@,
                        "gauge"@,
                        lag as int,
                    )
                    &&& forall|i: int| 0 <= i < lags.len() ==> #[trigger] lags[i] <= lag
                    &&& lag == 0 || lags.contains(lag)
                }
        }),
{
    lemma_metrics(s);
    let ms = prometheus::metrics_of(s);
    prometheus::law_max_lag_is_the_max(s.ring.lags@);
    lemma_shown(s, 0);
    lemma_shown(s, 1);
    lemma_shown(s, 2);
    lemma_shown(s, 3);
    lemma_shown(s, 4);
    lemma_shown(s, 5);
    lemma_shown(s, 6);
    lemma_shown(s, 7);
    assert(shows(
        ms,
        "mmbus_max_subscriber_lag"@,
        "Highest per-subscriber lag (tail − cursor) across all active subscribers."@,
        "gauge"@,
        prometheus::max_lag(s.ring.lags@) as int,
    ));
}

/// The metrics of a log show the statistics of the log that they are named after, each
/// exactly once.
pub proof fn law_log_metrics_show_their_statistics(s: TopicStats)
    requires
        s.wal is Some,
    ensures
        ({
            let ms = prometheus::metrics_of(s);
            let w = s.wal->Some_0;
            let lag = if w.pending_cursor >= w.durable_cursor {
                w.pending_cursor - w.durable_cursor
            } else {
                0
            };
            &&& shows(
                ms,
                "mmbus_wal_appends_total"@,
                "Successful WAL appends."@,
                "counter"@,
                w.appends_total as int,
            )
            &&& shows(
                ms,
                "mmbus_wal_append_bytes_total"@,
                "Payload bytes appended to the WAL."@,
                "counter"@,
                w.append_bytes_total as int,
            )
            &&& shows(
                ms,
                "mmbus_wal_flushes_total"@,
                "Completed flush_sync calls."@,
                "counter"@,
                w.flushes_total as int,
            )
            &&& shows(
                ms,
                "mmbus_wal_pending_cursor"@,
                "Highest cursor appended."@,
                "gauge"@,
                w.pending_cursor as int,
            )
            &&& shows(
                ms,
                "mmbus_wal_durable_cursor"@,
                "Highest cursor fsynced to disk."@,
                "gauge"@,
                w.durable_cursor as int,
            )
            &&& shows(
                ms,
                "mmbus_wal_replay_lag"@,
                "pending_cursor − durable_cursor; how many records aren't yet durable."@,
                "gauge"@,
                lag,
            )
            &&& shows(
                ms,
                "mmbus_wal_total_bytes"@,
                "Total on-disk bytes across all segments."@,
                "gauge"@,
                w.total_wal_bytes as int,
            )
            &&& shows(
                ms,
                "mmbus_wal_segments"@,
                "Number of segment files on disk."@,
                "gauge"@,
                w.segments as int,
            )
        }),
{
    lemma_metrics(s);
    lemma_shown(s, 8);
    lemma_shown(s, 9);
    lemma_shown(s, 10);
    lemma_shown(s, 11);
    lemma_shown(s, 12);
    lemma_shown(s, 13);
    lemma_shown(s, 14);
    lemma_shown(s, 15);
}

/// The metrics stand in this order, those of a log behind those of the topic.
pub proof fn law_metrics_stand_in_order(s: TopicStats)
    ensures
        ({
            let ms = prometheus::metrics_of(s);
            &&& ms[0].name == "mmbus_published_total"@
            &&& ms[1].name == "mmbus_full_rejected_total"@
            &&& ms[2].name == "mmbus_subscribers_dropped_total"@
            &&& ms[3].name == "mmbus_wakeups_sent_total"@
            &&& ms[4].name == "mmbus_connected_sockets"@
            &&& ms[5].name == "mmbus_ring_tail"@
            &&& ms[6].name == "mmbus_active_subscribers"@
            &&& ms[7].name == "mmbus_max_subscriber_lag"@
            &&& s.wal is Some ==> {
                &&& ms[8].name == "mmbus_wal_appends_total"@
                &&& ms[9].name == "mmbus_wal_append_bytes_total"@
                &&& ms[10].name == "mmbus_wal_flushes_total"@
                &&& ms[11].name == "mmbus_wal_pending_cursor"@
                &&& ms[12].name == "mmbus_wal_durable_cursor"@
                &&& ms[13].name == "mmbus_wal_replay_lag"@
                &&& ms[14].name == "mmbus_wal_total_bytes"@
                &&& ms[15].name == "mmbus_wal_segments"@
            }
        }),
{
    lemma_metrics(s);
}

/// The metrics one by one.
proof fn lemma_metrics(s: TopicStats)
    ensures
        ({
            let ms = prometheus::metrics_of(s);
            let a = prometheus::counters_of(s);
            let b = prometheus::gauges_of(s);
            &&& ms.len() == if s.wal is Some {
                16nat
            } else {
                8nat
            }
            &&& ms[0] == a[0]
            &&& ms[1] == a[1]
            &&& ms[2] == a[2]
            &&& ms[3] == a[3]
            &&& ms[4] == b[0]
            &&& ms[5] == b[1]
            &&& ms[6] == b[2]
            &&& ms[7] == b[3]
            &&& s.wal is Some ==> {
                let c = prometheus::wal_counters_of(s.wal->Some_0);
                let d = prometheus::wal_gauges_of(s.wal->Some_0);
                &&& ms[8] == c[0]
                &&& ms[9] == c[1]
                &&& ms[10] == c[2]
                &&& ms[11] == d[0]
                &&& ms[12] == d[1]
                &&& ms[13] == d[2]
                &&& ms[14] == d[3]
                &&& ms[15] == d[4]
            }
        }),
{
    let ms = prometheus::metrics_of(s);
    if s.wal is Some {
        let c = prometheus::wal_counters_of(s.wal->Some_0);
        let d = prometheus::wal_gauges_of(s.wal->Some_0);
        assert(ms.len() == 16);
        assert(ms.skip(8) =~= c + d);
        assert(ms[8] == (c + d)[0]);
        assert(ms[9] == (c + d)[1]);
        assert(ms[10] == (c + d)[2]);
        assert(ms[11] == (c + d)[3]);
        assert(ms[12] == (c + d)[4]);
        assert(ms[13] == (c + d)[5]);
        assert(ms[14] == (c + d)[6]);
        assert(ms[15] == (c + d)[7]);
    }
}

/// What tells the names apart: their lengths and three of their characters.
proof fn lemma_names()
    ensures
        "mmbus_published_total"@.len() == 21 && "mmbus_published_total"@[6] == 'p',
        "mmbus_full_rejected_total"@.len() == 25 && "mmbus_full_rejected_total"@[6] == 'f',
        "mmbus_subscribers_dropped_total"@.len() == 31,
        "mmbus_wakeups_sent_total"@.len() == 24 && "mmbus_wakeups_sent_total"@[6] == 'w'
            && "mmbus_wakeups_sent_total"@[8] == 'k',
        "mmbus_connected_sockets"@.len() == 23 && "mmbus_connected_sockets"@[6] == 'c',
        "mmbus_ring_tail"@.len() == 15,
        "mmbus_active_subscribers"@.len() == 24 && "mmbus_active_subscribers"@[6] == 'a',
        "mmbus_max_subscriber_lag"@.len() == 24 && "mmbus_max_subscriber_lag"@[6] == 'm',
        "mmbus_wal_appends_total"@.len() == 23 && "mmbus_wal_appends_total"@[6] == 'w'
            && "mmbus_wal_appends_total"@[10] == 'a',
        "mmbus_wal_append_bytes_total"@.len() == 28,
        "mmbus_wal_flushes_total"@.len() == 23 && "mmbus_wal_flushes_total"@[6] == 'w'
            && "mmbus_wal_flushes_total"@[10] == 'f',
        "mmbus_wal_pending_cursor"@.len() == 24 && "mmbus_wal_pending_cursor"@[6] == 'w'
            && "mmbus_wal_pending_cursor"@[8] == 'l' && "mmbus_wal_pending_cursor"@[10] == 'p',
        "mmbus_wal_durable_cursor"@.len() == 24 && "mmbus_wal_durable_cursor"@[6] == 'w'
            && "mmbus_wal_durable_cursor"@[8] == 'l' && "mmbus_wal_durable_cursor"@[10] == 'd',
        "mmbus_wal_replay_lag"@.len() == 20,
        "mmbus_wal_total_bytes"@.len() == 21 && "mmbus_wal_total_bytes"@[6] == 'w',
        "mmbus_wal_segments"@.len() == 18,
{
    reveal_strlit("mmbus_published_total");
    reveal_strlit("mmbus_full_rejected_total");
    reveal_strlit("mmbus_subscribers_dropped_total");
    reveal_strlit("mmbus_wakeups_sent_total");
    reveal_strlit("mmbus_connected_sockets");
    reveal_strlit("mmbus_ring_tail");
    reveal_strlit("mmbus_active_subscribers");
    reveal_strlit("mmbus_max_subscriber_lag");
    reveal_strlit("mmbus_wal_appends_total");
    reveal_strlit("mmbus_wal_append_bytes_total");
    reveal_strlit("mmbus_wal_flushes_total");
    reveal_strlit("mmbus_wal_pending_cursor");
    reveal_strlit("mmbus_wal_durable_cursor");
    reveal_strlit("mmbus_wal_replay_lag");
    reveal_strlit("mmbus_wal_total_bytes");
    reveal_strlit("mmbus_wal_segments");
}

/// Metric `i` is the only one of its name.
pub proof fn lemma_shown(s: TopicStats, i: int)
    requires
        0 <= i < prometheus::metrics_of(s).len(),
    ensures
        ({
            let ms = prometheus::metrics_of(s);
            shows(ms, ms[i].name, ms[i].help, ms[i].kind, ms[i].value as int)
        }),
{
    lemma_metrics(s);
    lemma_names();
    let ms = prometheus::metrics_of(s);
    assert forall|j: int|
        0 <= j < ms.len() && (#[trigger] ms[j]).name == ms[i].name implies j == i by {
        assert(j == 0 || j == 1 || j == 2 || j == 3 || j == 4 || j == 5 || j == 6 || j == 7 || j
            == 8 || j == 9 || j == 10 || j == 11 || j == 12 || j == 13 || j == 14 || j == 15);
        assert(i == 0 || i == 1 || i == 2 || i == 3 || i == 4 || i == 5 || i == 6 || i == 7 || i
            == 8 || i == 9 || i == 10 || i == 11 || i == 12 || i == 13 || i == 14 || i == 15);
    }
}

// ── Text ─────────────────────────────────────────────────────────────────────

/// A metric is written as three lines: what it is about, what kind it is, and its sample with
/// the label and the value in decimal.
pub proof fn law_metric_is_three_lines(label: Seq<char>, m: Metric)
    ensures
        prometheus::lines_of(label, m) == ("# HELP "@ + m.name + " "@ + m.help).push('\n') + (
        "# TYPE "@ + m.name + " "@ + m.kind).push('\n') + (m.name + "{topic=\""@ + label
            + "\"} "@ + text::decimal(m.value)).push('\n'),
{
    reveal(prometheus::lines_of);
    reveal_strlit("\n");
    reveal_strlit("# TYPE ");
    reveal_strlit("\n# TYPE ");
    let nl = seq!['\n'];
    assert("\n"@ =~= nl);
    assert("\n# TYPE "@ =~= nl + "# TYPE "@);
    assert(prometheus::lines_of(label, m) =~= ("# HELP "@ + m.name + " "@ + m.help).push('\n') + (
    "# TYPE "@ + m.name + " "@ + m.kind).push('\n') + (m.name + "{topic=\""@ + label + "\"} "@
        + text::decimal(m.value)).push('\n'));
}

/// What is rendered of a topic is its metrics in order, each with the topic as its label,
/// and nothing else.
pub proof fn law_topic_is_rendered_in_order(topic: Seq<char>, s: TopicStats, i: int)
    requires
        0 <= i < prometheus::metrics_of(s).len(),
    ensures
        ({
            let ms = prometheus::metrics_of(s);
            let label = prometheus::escaped(topic);
            prometheus::rendered(topic, s) == prometheus::written(label, ms.take(i))
                + prometheus::lines_of(label, ms[i]) + prometheus::written(label, ms.skip(i + 1))
        }),
{
    let ms = prometheus::metrics_of(s);
    lemma_split(prometheus::escaped(topic), ms, i);
}

/// Metrics are written one after the other.
pub proof fn law_metrics_are_written_in_order(
    label: Seq<char>,
    a: Seq<Metric>,
    b: Seq<Metric>,
    m: Metric,
)
    ensures
        prometheus::written(label, Seq::empty()) == Seq::<char>::empty(),
        prometheus::written(label, seq![m]) == prometheus::lines_of(label, m),
        prometheus::written(label, a + b) == prometheus::written(label, a) + prometheus::written(
            label,
            b,
        ),
    decreases b.len(),
{
    let one = seq![m];
    assert(one.drop_last() =~= Seq::<Metric>::empty());
    assert(one.last() == m);
    assert(prometheus::written(label, one.drop_last()) =~= Seq::<char>::empty());
    assert(prometheus::written(label, one) =~= prometheus::lines_of(label, m));
    if b.len() == 0 {
        assert(a + b =~= a);
        assert(prometheus::written(label, a) + prometheus::written(label, b)
            =~= prometheus::written(label, a));
    } else {
        law_metrics_are_written_in_order(label, a, b.drop_last(), m);
        assert((a + b).drop_last() =~= a + b.drop_last());
        assert(prometheus::written(label, a + b) =~= prometheus::written(label, a)
            + prometheus::written(label, b));
    }
}

/// Metrics before, at and behind `i`.
proof fn lemma_split(label: Seq<char>, ms: Seq<Metric>, i: int)
    requires
        0 <= i < ms.len(),
    ensures
        prometheus::written(label, ms) == prometheus::written(label, ms.take(i))
            + prometheus::lines_of(label, ms[i]) + prometheus::written(label, ms.skip(i + 1)),
{
    let one = seq![ms[i]];
    assert(ms =~= ms.take(i) + one + ms.skip(i + 1));
    law_metrics_are_written_in_order(label, ms.take(i) + one, ms.skip(i + 1), ms[i]);
    law_metrics_are_written_in_order(label, ms.take(i), one, ms[i]);
}

/// A value that changes changes its own sample and no other: what stands before and behind
/// it stays, and the sample tells the two values apart.
pub proof fn law_value_changes_its_sample_alone(
    label: Seq<char>,
    ms: Seq<Metric>,
    i: int,
    value: nat,
)
    requires
        0 <= i < ms.len(),
    ensures
        ({
            let m = Metric { value, ..ms[i] };
            let before = prometheus::written(label, ms.take(i));
            let behind = prometheus::written(label, ms.skip(i + 1));
            &&& prometheus::written(label, ms) == before + prometheus::lines_of(label, ms[i])
                + behind
            &&& prometheus::written(label, ms.update(i, m)) == before + prometheus::lines_of(
                label,
                m,
            ) + behind
            &&& value != ms[i].value ==> prometheus::written(label, ms.update(i, m))
                != prometheus::written(label, ms)
        }),
{
    let m = Metric { value, ..ms[i] };
    let other = ms.update(i, m);
    let before = prometheus::written(label, ms.take(i));
    let behind = prometheus::written(label, ms.skip(i + 1));
    lemma_split(label, ms, i);
    lemma_split(label, other, i);
    assert(other.take(i) =~= ms.take(i));
    assert(other.skip(i + 1) =~= ms.skip(i + 1));
    if value != ms[i].value {
        lemma_sample_differs(label, ms[i], m);
        lemma_between(
            before,
            prometheus::lines_of(label, ms[i]),
            prometheus::lines_of(label, m),
            behind,
        );
    }
}

/// Samples of one metric with two values differ.
proof fn lemma_sample_differs(label: Seq<char>, a: Metric, b: Metric)
    requires
        a.name == b.name,
        a.help == b.help,
        a.kind == b.kind,
        a.value != b.value,
    ensures
        prometheus::lines_of(label, a) != prometheus::lines_of(label, b),
{
    reveal(prometheus::lines_of);
    let front = "# HELP "@ + a.name + " "@ + a.help + "\n# TYPE "@ + a.name + " "@ + a.kind
        + "\n"@ + a.name + "{topic=\""@ + label + "\"} "@;
    text_laws::law_decimal_reads_back(a.value);
    text_laws::law_decimal_reads_back(b.value);
    lemma_between(front, text::decimal(a.value), text::decimal(b.value), "\n"@);
    assert(prometheus::lines_of(label, a) == front + text::decimal(a.value) + "\n"@);
    assert(prometheus::lines_of(label, b) == front + text::decimal(b.value) + "\n"@);
}

/// Texts that differ in their middle differ.
proof fn lemma_between(front: Seq<char>, a: Seq<char>, b: Seq<char>, behind: Seq<char>)
    requires
        a != b,
    ensures
        front + a + behind != front + b + behind,
{
    let x = front + a + behind;
    let y = front + b + behind;
    assert(x.len() == front.len() + a.len() + behind.len());
    assert(y.len() == front.len() + b.len() + behind.len());
    if x == y {
        assert(a.len() == b.len());
        assert(a =~= x.subrange(front.len() as int, (front.len() + a.len()) as int));
        assert(b =~= y.subrange(front.len() as int, (front.len() + b.len()) as int));
    }
}

/// Two snapshots that differ in the bytes appended to the log alone render differently, in
/// the sample of those bytes alone.
pub proof fn law_appended_bytes_change_their_sample(topic: Seq<char>, s: TopicStats, t: TopicStats)
    requires
        s.wal is Some,
        t.wal is Some,
        t.wal->Some_0 == (WalStats {
            append_bytes_total: t.wal->Some_0.append_bytes_total,
            ..s.wal->Some_0
        }),
        t == (TopicStats { wal: t.wal, ..s }),
    ensures
        ({
            let ms = prometheus::metrics_of(s);
            let label = prometheus::escaped(topic);
            let before = prometheus::written(label, ms.take(9));
            let behind = prometheus::written(label, ms.skip(10));
            let m = Metric { value: t.wal->Some_0.append_bytes_total as nat, ..ms[9] };
            &&& ms[9].name == "mmbus_wal_append_bytes_total"@
            &&& ms[9].value == s.wal->Some_0.append_bytes_total
            &&& prometheus::rendered(topic, s) == before + prometheus::lines_of(label, ms[9])
                + behind
            &&& prometheus::rendered(topic, t) == before + prometheus::lines_of(label, m) + behind
            &&& s.wal->Some_0.append_bytes_total != t.wal->Some_0.append_bytes_total
                ==> prometheus::rendered(topic, s) != prometheus::rendered(topic, t)
        }),
{
    let ms = prometheus::metrics_of(s);
    let label = prometheus::escaped(topic);
    lemma_metrics(s);
    lemma_metrics(t);
    law_value_changes_its_sample_alone(
        label,
        ms,
        9,
        t.wal->Some_0.append_bytes_total as nat,
    );
    let m = Metric { value: t.wal->Some_0.append_bytes_total as nat, ..ms[9] };
    assert(prometheus::metrics_of(t) =~= ms.update(9, m));
}

/// Several topics are rendered one after the other, each as it would be alone.
pub proof fn law_topics_are_rendered_in_order(
    a: Seq<(&str, &TopicStats)>,
    b: Seq<(&str, &TopicStats)>,
    topic: &str,
    s: &TopicStats,
)
    ensures
        prometheus::rendered_all(Seq::empty()) == Seq::<char>::empty(),
        prometheus::rendered_all(seq![(topic, s)]) == prometheus::rendered(topic@, *s),
        prometheus::rendered_all(a + b) == prometheus::rendered_all(a) + prometheus::rendered_all(
            b,
        ),
    decreases b.len(),
{
    let one = seq![(topic, s)];
    assert(one.drop_last() =~= Seq::<(&str, &TopicStats)>::empty());
    assert(one.last() == (topic, s));
    assert(prometheus::rendered_all(one.drop_last()) =~= Seq::<char>::empty());
    assert(prometheus::rendered_all(one) =~= prometheus::rendered(topic@, *s));
    if b.len() == 0 {
        assert(a + b =~= a);
        assert(prometheus::rendered_all(a) + prometheus::rendered_all(b)
            =~= prometheus::rendered_all(a));
    } else {
        law_topics_are_rendered_in_order(a, b.drop_last(), topic, s);
        assert((a + b).drop_last() =~= a + b.drop_last());
        assert(prometheus::rendered_all(a + b) =~= prometheus::rendered_all(a)
            + prometheus::rendered_all(b));
    }
}

} // verus!

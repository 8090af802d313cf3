//! Prometheus text-format exporter.
//!
//! [`render`] and [`render_all`] turn statistics into the lines that a scrape ingests. What
//! a server of `GET /metrics` has to decide stands in [`crate::exporter`].

use crate::ring::RingStats;
use crate::stats::TopicStats;
use crate::text;
use crate::wal::stats::WalStats;
use vstd::prelude::*;

verus! {

// ── Labels ───────────────────────────────────────────────────────────────────

/// Whether a character is an ASCII control character.
pub open spec fn is_control(c: char) -> bool {
    (c as u32) < 0x20 || (c as u32) == 0x7F
}

/// How one character of a label value is written.
pub open spec fn escaped_char(c: char) -> Seq<char> {
    if c == '\\' {
        seq!['\\', '\\']
    } else if c == '"' {
        seq!['\\', '"']
    } else if c == '\n' {
        seq!['\\', 'n']
    } else if is_control(c) {
        seq!['_']
    } else {
        seq![c]
    }
}

/// A label value as it is written.
pub open spec fn escaped(raw: Seq<char>) -> Seq<char>
    decreases raw.len(),
{
    if raw.len() == 0 {
        Seq::empty()
    } else {
        escaped(raw.drop_last()) + escaped_char(raw.last())
    }
}

/// Escapes a label value: backslash, quote and newline get a backslash, other ASCII control
/// characters become an underscore.
pub fn escape_label(raw: &str) -> (out: String)
    ensures
        out@ == escaped(raw@),
{
    let chars: Vec<char> = text::chars_of(raw);
    let mut out: String = String::new();
    let mut i: usize = 0;
    while i < chars.len()
        invariant
            i <= chars@.len(),
            out@ == escaped(chars@.take(i as int)),
        decreases chars@.len() - i,
    {
        let c: char = chars[i];
        let ghost before = out@;
        assert(chars@.take(i + 1).drop_last() =~= chars@.take(i as int));
        if c == '\\' {
            out.push('\\');
            out.push('\\');
        } else if c == '"' {
            out.push('\\');
            out.push('"');
        } else if c == '\n' {
            out.push('\\');
            out.push('n');
        } else if (c as u32) < 0x20 || (c as u32) == 0x7F {
            out.push('_');
        } else {
            out.push(c);
        }
        assert(out@ =~= before + escaped_char(c));
        i = i + 1;
    }
    assert(chars@.take(i as int) =~= chars@);
    out
}

/// An escaped label stays on one line: it holds no ASCII control characters.
pub proof fn law_label_stays_on_its_line(raw: Seq<char>)
    ensures
        forall|i: int| 0 <= i < escaped(raw).len() ==> !is_control(#[trigger] escaped(raw)[i]),
    decreases raw.len(),
{
    if raw.len() > 0 {
        law_label_stays_on_its_line(raw.drop_last());
        let a = escaped(raw.drop_last());
        let b = escaped_char(raw.last());
        assert forall|i: int| 0 <= i < escaped(raw).len() implies !is_control(
            #[trigger] escaped(raw)[i],
        ) by {
            if i < a.len() {
                assert(escaped(raw)[i] == a[i]);
            } else {
                assert(escaped(raw)[i] == b[i - a.len()]);
            }
        }
    }
}

/// An escaped label cannot end the quotes around it: every quote in it has a backslash in
/// front.
pub proof fn law_label_stays_in_its_quotes(raw: Seq<char>)
    ensures
        forall|i: int|
            0 <= i < escaped(raw).len() && #[trigger] escaped(raw)[i] == '"' ==> i > 0 && escaped(
                raw,
            )[i - 1] == '\\',
    decreases raw.len(),
{
    if raw.len() > 0 {
        law_label_stays_in_its_quotes(raw.drop_last());
        let a = escaped(raw.drop_last());
        let b = escaped_char(raw.last());
        assert forall|i: int|
            0 <= i < escaped(raw).len() && #[trigger] escaped(raw)[i] == '"' implies i > 0
            && escaped(raw)[i - 1] == '\\' by {
            if i < a.len() {
                assert(escaped(raw)[i] == a[i]);
                assert(escaped(raw)[i - 1] == a[i - 1]);
            } else {
                assert(escaped(raw)[i] == b[i - a.len()]);
                assert(b[1] == '"');
                assert(escaped(raw)[i - 1] == b[0]);
            }
        }
    }
}

/// A label without special characters is written as it is.
pub proof fn law_plain_label_is_kept(raw: Seq<char>)
    requires
        forall|i: int|
            0 <= i < raw.len() ==> (#[trigger] raw[i]) != '\\' && raw[i] != '"' && !is_control(
                raw[i],
            ),
    ensures
        escaped(raw) == raw,
    decreases raw.len(),
{
    if raw.len() > 0 {
        let rest = raw.drop_last();
        assert forall|i: int| 0 <= i < rest.len() implies (#[trigger] rest[i]) != '\\' && rest[i]
            != '"' && !is_control(rest[i]) by {
            assert(rest[i] == raw[i]);
        }
        law_plain_label_is_kept(rest);
        assert(raw[raw.len() - 1] != '\n');
        assert(rest + seq![raw.last()] =~= raw);
    } else {
        assert(escaped(raw) =~= raw);
    }
}

// ── Metrics ──────────────────────────────────────────────────────────────────

/// One metric.
pub struct Metric {
    pub name: Seq<char>,
    pub help: Seq<char>,
    /// `counter` or `gauge`.
    pub kind: Seq<char>,
    pub value: nat,
}

/// The lines of a metric: its help, its type, and its value for a topic whose label is
/// escaped already.
#[verifier::opaque]
pub open spec fn lines_of(label: Seq<char>, m: Metric) -> Seq<char> {
    "# HELP "@ + m.name + " "@ + m.help + "\n# TYPE "@ + m.name + " "@ + m.kind + "\n"@ + m.name
        + "{topic=\""@ + label + "\"} "@ + text::decimal(m.value) + "\n"@
}

/// The lines of several metrics, one after the other.
pub open spec fn written(label: Seq<char>, ms: Seq<Metric>) -> Seq<char>
    decreases ms.len(),
{
    if ms.len() == 0 {
        Seq::empty()
    } else {
        written(label, ms.drop_last()) + lines_of(label, ms.last())
    }
}

/// One more metric appends its lines.
proof fn lemma_written_push(label: Seq<char>, ms: Seq<Metric>, m: Metric)
    ensures
        written(label, ms.push(m)) == written(label, ms) + lines_of(label, m),
{
    assert(ms.push(m).drop_last() =~= ms);
}

/// More metrics append their lines.
proof fn lemma_written_append(label: Seq<char>, a: Seq<Metric>, b: Seq<Metric>)
    ensures
        written(label, a + b) == written(label, a) + written(label, b),
    decreases b.len(),
{
    if b.len() == 0 {
        assert(a + b =~= a);
        assert(written(label, a) + written(label, b) =~= written(label, a));
    } else {
        lemma_written_append(label, a, b.drop_last());
        assert((a + b).drop_last() =~= a + b.drop_last());
        assert(written(label, a + b) =~= written(label, a) + written(label, b));
    }
}

/// Appends one metric.
fn push_metric(out: &mut String, name: &str, help: &str, kind: &str, label: &str, value: u64)
    ensures
        final(out)@ == old(out)@ + lines_of(
            label@,
            Metric { name: name@, help: help@, kind: kind@, value: value as nat },
        ),
{
    let ghost before = out@;
    out.append("# HELP ");
    out.append(name);
    out.append(" ");
    out.append(help);
    out.append("\n# TYPE ");
    out.append(name);
    out.append(" ");
    out.append(kind);
    out.append("\n");
    out.append(name);
    out.append("{topic=\"");
    out.append(label);
    out.append("\"} ");
    text::push_decimal(out, value);
    out.append("\n");
    reveal(lines_of);
    assert(out@ =~= before + lines_of(
        label@,
        Metric { name: name@, help: help@, kind: kind@, value: value as nat },
    ));
}

/// The largest of the lags: 0 if there are none.
pub open spec fn max_lag(lags: Seq<u64>) -> u64
    decreases lags.len(),
{
    if lags.len() == 0 {
        0
    } else {
        let rest = max_lag(lags.drop_last());
        if lags.last() > rest {
            lags.last()
        } else {
            rest
        }
    }
}

/// The largest of the lags.
fn largest_lag(lags: &Vec<u64>) -> (m: u64)
    ensures
        m == max_lag(lags@),
{
    let mut m: u64 = 0;
    let mut i: usize = 0;
    while i < lags.len()
        invariant
            i <= lags@.len(),
            m == max_lag(lags@.take(i as int)),
        decreases lags@.len() - i,
    {
        assert(lags@.take(i + 1).drop_last() =~= lags@.take(i as int));
        if lags[i] > m {
            m = lags[i];
        }
        i = i + 1;
    }
    assert(lags@.take(i as int) =~= lags@);
    m
}

/// The largest lag is one of the lags, and no lag is larger.
pub proof fn law_max_lag_is_the_max(lags: Seq<u64>)
    ensures
        forall|i: int| 0 <= i < lags.len() ==> #[trigger] lags[i] <= max_lag(lags),
        lags.len() > 0 ==> lags.contains(max_lag(lags)),
    decreases lags.len(),
{
    if lags.len() > 0 {
        let rest = lags.drop_last();
        law_max_lag_is_the_max(rest);
        assert forall|i: int| 0 <= i < lags.len() implies #[trigger] lags[i] <= max_lag(lags) by {
            if i < rest.len() {
                assert(rest[i] == lags[i]);
            }
        }
        if max_lag(lags) == lags.last() {
            assert(lags[lags.len() - 1] == max_lag(lags));
        } else if rest.len() > 0 {
            let i = choose|i: int| 0 <= i < rest.len() && rest[i] == max_lag(rest);
            assert(lags[i] == max_lag(lags));
        }
    }
}

/// The counters of a topic.
pub open spec fn counters_of(s: TopicStats) -> Seq<Metric> {
    seq![
        Metric {
            name: "mmbus_published_total"@,
            help: "Successful publishes since publisher creation."@,
            kind: "counter"@,
            value: s.published_total as nat,
        },
        Metric {
            name: "mmbus_full_rejected_total"@,
            help: "Publishes rejected with Error::Full under BackpressurePolicy::Error."@,
            kind: "counter"@,
            value: s.full_rejected_total as nat,
        },
        Metric {
            name: "mmbus_subscribers_dropped_total"@,
            help: "Subscribers dropped by the publisher because their wakeup call failed."@,
            kind: "counter"@,
            value: s.subscribers_dropped_total as nat,
        },
        Metric {
            name: "mmbus_wakeups_sent_total"@,
            help: "Wakeup syscalls fired (coalesced; below published_total under bursts)."@,
            kind: "counter"@,
            value: s.wakeups_sent_total as nat,
        },
    ]
}

/// The current state of a topic.
pub open spec fn gauges_of(s: TopicStats) -> Seq<Metric> {
    seq![
        Metric {
            name: "mmbus_connected_sockets"@,
            help: "Subscriber sockets currently accepted."@,
            kind: "gauge"@,
            value: s.connected_sockets as nat,
        },
        Metric {
            name: "mmbus_ring_tail"@,
            help: "Next slot the producer will write (monotonic during a publisher's lifetime)."@,
            kind: "gauge"@,
            value: s.ring.tail as nat,
        },
        Metric {
            name: "mmbus_active_subscribers"@,
            help: "Number of subscribers with a claimed cursor slot."@,
            kind: "gauge"@,
            value: s.ring.active_subscribers as nat,
        },
        Metric {
            name: "mmbus_max_subscriber_lag"@,
            help: "Highest per-subscriber lag (tail − cursor) across all active subscribers."@,
            kind: "gauge"@,
            value: max_lag(s.ring.lags@) as nat,
        },
    ]
}

/// How many records are not durable yet.
pub open spec fn replay_lag(w: WalStats) -> nat {
    if w.pending_cursor >= w.durable_cursor {
        (w.pending_cursor - w.durable_cursor) as nat
    } else {
        0
    }
}

/// The log of a topic: counters.
pub open spec fn wal_counters_of(w: WalStats) -> Seq<Metric> {
    seq![
        Metric {
            name: "mmbus_wal_appends_total"@,
            help: "Successful WAL appends."@,
            kind: "counter"@,
            value: w.appends_total as nat,
        },
        Metric {
            name: "mmbus_wal_append_bytes_total"@,
            help: "Payload bytes appended to the WAL."@,
            kind: "counter"@,
            value: w.append_bytes_total as nat,
        },
        Metric {
            name: "mmbus_wal_flushes_total"@,
            help: "Completed flush_sync calls."@,
            kind: "counter"@,
            value: w.flushes_total as nat,
        },
    ]
}

/// The log of a topic: current state.
pub open spec fn wal_gauges_of(w: WalStats) -> Seq<Metric> {
    seq![
        Metric {
            name: "mmbus_wal_pending_cursor"@,
            help: "Highest cursor appended."@,
            kind: "gauge"@,
            value: w.pending_cursor as nat,
        },
        Metric {
            name: "mmbus_wal_durable_cursor"@,
            help: "Highest cursor fsynced to disk."@,
            kind: "gauge"@,
            value: w.durable_cursor as nat,
        },
        Metric {
            name: "mmbus_wal_replay_lag"@,
            help: "pending_cursor − durable_cursor; how many records aren't yet durable."@,
            kind: "gauge"@,
            value: replay_lag(w),
        },
        Metric {
            name: "mmbus_wal_total_bytes"@,
            help: "Total on-disk bytes across all segments."@,
            kind: "gauge"@,
            value: w.total_wal_bytes as nat,
        },
        Metric {
            name: "mmbus_wal_segments"@,
            help: "Number of segment files on disk."@,
            kind: "gauge"@,
            value: w.segments as nat,
        },
    ]
}

/// The metrics of a topic. Those of the log appear only if there is one.
pub open spec fn metrics_of(s: TopicStats) -> Seq<Metric> {
    counters_of(s) + gauges_of(s) + match s.wal {
        Some(w) => wal_counters_of(w) + wal_gauges_of(w),
        None => Seq::empty(),
    }
}

/// The statistics of a topic in the text format.
pub open spec fn rendered(topic: Seq<char>, s: TopicStats) -> Seq<char> {
    written(escaped(topic), metrics_of(s))
}

/// Whether a name ends with `_total`.
pub open spec fn is_total(name: Seq<char>) -> bool {
    name.len() >= 6 && name.skip(name.len() - 6) == "_total"@
}

proof fn lemma_kinds_differ()
    ensures
        "counter"@ != "gauge"@,
{
    reveal_strlit("counter");
    reveal_strlit("gauge");
    assert("counter"@.len() != "gauge"@.len());
}

proof fn lemma_counters_are_total(s: TopicStats, i: int)
    requires
        0 <= i < counters_of(s).len(),
    ensures
        counters_of(s)[i].kind == "counter"@,
        is_total(counters_of(s)[i].name),
{
    reveal_strlit("_total");
    reveal_strlit("mmbus_published_total");
    reveal_strlit("mmbus_full_rejected_total");
    reveal_strlit("mmbus_subscribers_dropped_total");
    reveal_strlit("mmbus_wakeups_sent_total");
    let name = counters_of(s)[i].name;
    let end = name.skip(name.len() - 6);
    assert(end =~= "_total"@);
}

proof fn lemma_gauges_are_not_total(s: TopicStats, i: int)
    requires
        0 <= i < gauges_of(s).len(),
    ensures
        gauges_of(s)[i].kind == "gauge"@,
        !is_total(gauges_of(s)[i].name),
{
    reveal_strlit("_total");
    reveal_strlit("mmbus_connected_sockets");
    reveal_strlit("mmbus_ring_tail");
    reveal_strlit("mmbus_active_subscribers");
    reveal_strlit("mmbus_max_subscriber_lag");
    let name = gauges_of(s)[i].name;
    let end = name.skip(name.len() - 6);
    assert(end[5] != 'l' || end[0] != '_');
}

proof fn lemma_wal_counters_are_total(w: WalStats, i: int)
    requires
        0 <= i < wal_counters_of(w).len(),
    ensures
        wal_counters_of(w)[i].kind == "counter"@,
        is_total(wal_counters_of(w)[i].name),
{
    reveal_strlit("_total");
    reveal_strlit("mmbus_wal_appends_total");
    reveal_strlit("mmbus_wal_append_bytes_total");
    reveal_strlit("mmbus_wal_flushes_total");
    let name = wal_counters_of(w)[i].name;
    let end = name.skip(name.len() - 6);
    assert(end =~= "_total"@);
}

proof fn lemma_wal_gauges_are_not_total(w: WalStats, i: int)
    requires
        0 <= i < wal_gauges_of(w).len(),
    ensures
        wal_gauges_of(w)[i].kind == "gauge"@,
        !is_total(wal_gauges_of(w)[i].name),
{
    reveal_strlit("_total");
    reveal_strlit("mmbus_wal_pending_cursor");
    reveal_strlit("mmbus_wal_durable_cursor");
    reveal_strlit("mmbus_wal_replay_lag");
    reveal_strlit("mmbus_wal_total_bytes");
    reveal_strlit("mmbus_wal_segments");
    let name = wal_gauges_of(w)[i].name;
    let end = name.skip(name.len() - 6);
    assert(end[5] != 'l' || end[0] != '_');
}

proof fn lemma_wal_metrics(w: WalStats, i: int)
    requires
        0 <= i < (wal_counters_of(w) + wal_gauges_of(w)).len(),
    ensures
        ({
            let m = (wal_counters_of(w) + wal_gauges_of(w))[i];
            if is_total(m.name) {
                m.kind == "counter"@
            } else {
                m.kind == "gauge"@
            }
        }),
{
    if i < 3 {
        lemma_wal_counters_are_total(w, i);
    } else {
        lemma_wal_gauges_are_not_total(w, i - 3);
    }
}

/// The suffix `_total` marks the counters: a metric is typed `counter` if and only if its
/// name ends with it, and every other metric is typed `gauge`.
pub proof fn law_total_marks_the_counters(s: TopicStats, i: int)
    requires
        0 <= i < metrics_of(s).len(),
    ensures
        metrics_of(s)[i].kind == "counter"@ <==> is_total(metrics_of(s)[i].name),
        metrics_of(s)[i].kind == "gauge"@ <==> !is_total(metrics_of(s)[i].name),
{
    lemma_kinds_differ();
    let a = counters_of(s);
    let b = gauges_of(s);
    if i < a.len() {
        lemma_counters_are_total(s, i);
    } else if i < a.len() + b.len() {
        assert(metrics_of(s)[i] == b[i - 4]);
        lemma_gauges_are_not_total(s, i - 4);
    } else {
        let w = s.wal->Some_0;
        assert(metrics_of(s)[i] == (wal_counters_of(w) + wal_gauges_of(w))[i - 8]);
        lemma_wal_metrics(w, i - 8);
    }
}

fn push_counters(out: &mut String, label: &str, s: &TopicStats)
    ensures
        final(out)@ == old(out)@ + written(label@, counters_of(*s)),
{
    let ghost before = out@;
    push_metric(
        out,
        "mmbus_published_total",
        "Successful publishes since publisher creation.",
        "counter",
        label,
        s.published_total,
    );
    push_metric(
        out,
        "mmbus_full_rejected_total",
        "Publishes rejected with Error::Full under BackpressurePolicy::Error.",
        "counter",
        label,
        s.full_rejected_total,
    );
    push_metric(
        out,
        "mmbus_subscribers_dropped_total",
        "Subscribers dropped by the publisher because their wakeup call failed.",
        "counter",
        label,
        s.subscribers_dropped_total,
    );
    push_metric(
        out,
        "mmbus_wakeups_sent_total",
        "Wakeup syscalls fired (coalesced; below published_total under bursts).",
        "counter",
        label,
        s.wakeups_sent_total,
    );
    proof {
        let ms = counters_of(*s);
        lemma_written_push(label@, ms.take(0), ms[0]);
        assert(ms.take(0).push(ms[0]) =~= ms.take(1));
        lemma_written_push(label@, ms.take(1), ms[1]);
        assert(ms.take(1).push(ms[1]) =~= ms.take(2));
        lemma_written_push(label@, ms.take(2), ms[2]);
        assert(ms.take(2).push(ms[2]) =~= ms.take(3));
        lemma_written_push(label@, ms.take(3), ms[3]);
        assert(ms.take(3).push(ms[3]) =~= ms.take(4));
        assert(ms.take(4) =~= ms);
        assert(out@ =~= before + written(label@, ms));
    }
}

fn push_gauges(out: &mut String, label: &str, s: &TopicStats)
    ensures
        final(out)@ == old(out)@ + written(label@, gauges_of(*s)),
{
    let ghost before = out@;
    let ring: &RingStats = &s.ring;
    push_metric(
        out,
        "mmbus_connected_sockets",
        "Subscriber sockets currently accepted.",
        "gauge",
        label,
        s.connected_sockets as u64,
    );
    push_metric(
        out,
        "mmbus_ring_tail",
        "Next slot the producer will write (monotonic during a publisher's lifetime).",
        "gauge",
        label,
        ring.tail,
    );
    push_metric(
        out,
        "mmbus_active_subscribers",
        "Number of subscribers with a claimed cursor slot.",
        "gauge",
        label,
        ring.active_subscribers as u64,
    );
    push_metric(
        out,
        "mmbus_max_subscriber_lag",
        "Highest per-subscriber lag (tail − cursor) across all active subscribers.",
        "gauge",
        label,
        largest_lag(&ring.lags),
    );
    proof {
        let ms = gauges_of(*s);
        lemma_written_push(label@, ms.take(0), ms[0]);
        assert(ms.take(0).push(ms[0]) =~= ms.take(1));
        lemma_written_push(label@, ms.take(1), ms[1]);
        assert(ms.take(1).push(ms[1]) =~= ms.take(2));
        lemma_written_push(label@, ms.take(2), ms[2]);
        assert(ms.take(2).push(ms[2]) =~= ms.take(3));
        lemma_written_push(label@, ms.take(3), ms[3]);
        assert(ms.take(3).push(ms[3]) =~= ms.take(4));
        assert(ms.take(4) =~= ms);
        assert(out@ =~= before + written(label@, ms));
    }
}

fn push_wal_counters(out: &mut String, label: &str, w: &WalStats)
    ensures
        final(out)@ == old(out)@ + written(label@, wal_counters_of(*w)),
{
    let ghost before = out@;
    push_metric(
        out,
        "mmbus_wal_appends_total",
        "Successful WAL appends.",
        "counter",
        label,
        w.appends_total,
    );
    push_metric(
        out,
        "mmbus_wal_append_bytes_total",
        "Payload bytes appended to the WAL.",
        "counter",
        label,
        w.append_bytes_total,
    );
    push_metric(
        out,
        "mmbus_wal_flushes_total",
        "Completed flush_sync calls.",
        "counter",
        label,
        w.flushes_total,
    );
    proof {
        let ms = wal_counters_of(*w);
        lemma_written_push(label@, ms.take(0), ms[0]);
        assert(ms.take(0).push(ms[0]) =~= ms.take(1));
        lemma_written_push(label@, ms.take(1), ms[1]);
        assert(ms.take(1).push(ms[1]) =~= ms.take(2));
        lemma_written_push(label@, ms.take(2), ms[2]);
        assert(ms.take(2).push(ms[2]) =~= ms.take(3));
        assert(ms.take(3) =~= ms);
        assert(out@ =~= before + written(label@, ms));
    }
}

fn push_wal_gauges(out: &mut String, label: &str, w: &WalStats)
    ensures
        final(out)@ == old(out)@ + written(label@, wal_gauges_of(*w)),
{
    let ghost before = out@;
    let lag: u64 = w.pending_cursor.saturating_sub(w.durable_cursor);
    push_metric(
        out,
        "mmbus_wal_pending_cursor",
        "Highest cursor appended.",
        "gauge",
        label,
        w.pending_cursor,
    );
    push_metric(
        out,
        "mmbus_wal_durable_cursor",
        "Highest cursor fsynced to disk.",
        "gauge",
        label,
        w.durable_cursor,
    );
    push_metric(
        out,
        "mmbus_wal_replay_lag",
        "pending_cursor − durable_cursor; how many records aren't yet durable.",
        "gauge",
        label,
        lag,
    );
    push_metric(
        out,
        "mmbus_wal_total_bytes",
        "Total on-disk bytes across all segments.",
        "gauge",
        label,
        w.total_wal_bytes,
    );
    push_metric(
        out,
        "mmbus_wal_segments",
        "Number of segment files on disk.",
        "gauge",
        label,
        w.segments as u64,
    );
    proof {
        let ms = wal_gauges_of(*w);
        lemma_written_push(label@, ms.take(0), ms[0]);
        assert(ms.take(0).push(ms[0]) =~= ms.take(1));
        lemma_written_push(label@, ms.take(1), ms[1]);
        assert(ms.take(1).push(ms[1]) =~= ms.take(2));
        lemma_written_push(label@, ms.take(2), ms[2]);
        assert(ms.take(2).push(ms[2]) =~= ms.take(3));
        lemma_written_push(label@, ms.take(3), ms[3]);
        assert(ms.take(3).push(ms[3]) =~= ms.take(4));
        lemma_written_push(label@, ms.take(4), ms[4]);
        assert(ms.take(4).push(ms[4]) =~= ms.take(5));
        assert(ms.take(5) =~= ms);
        assert(out@ =~= before + written(label@, ms));
    }
}

/// Appends the statistics of one topic.
pub fn render_into(out: &mut String, topic: &str, s: &TopicStats)
    ensures
        final(out)@ == old(out)@ + rendered(topic@, *s),
{
    let ghost before = out@;
    let escaped_topic: String = escape_label(topic);
    let label: &str = escaped_topic.as_str();
    push_counters(out, label, s);
    push_gauges(out, label, s);
    let ghost known = counters_of(*s) + gauges_of(*s);
    proof {
        lemma_written_append(label@, counters_of(*s), gauges_of(*s));
        assert(out@ =~= before + written(label@, known));
    }
    match &s.wal {
        Some(w) => {
            push_wal_counters(out, label, w);
            push_wal_gauges(out, label, w);
            proof {
                let log = wal_counters_of(*w) + wal_gauges_of(*w);
                lemma_written_append(label@, wal_counters_of(*w), wal_gauges_of(*w));
                lemma_written_append(label@, known, log);
                assert(out@ =~= before + written(label@, known + log));
            }
        },
        None => {
            assert(known + Seq::empty() =~= known);
        },
    }
}

/// Renders the statistics of one topic. The names follow
/// `mmbus_<scope>_<metric>{topic="..."}`. The suffix `_total` marks the counters, which only
/// grow; the remaining metrics are gauges.
pub fn render(topic: &str, s: &TopicStats) -> (out: String)
    ensures
        out@ == rendered(topic@, *s),
{
    let mut out: String = String::new();
    render_into(&mut out, topic, s);
    assert(out@ =~= rendered(topic@, *s));
    out
}

/// The statistics of several topics, one after the other.
pub open spec fn rendered_all(topics: Seq<(&str, &TopicStats)>) -> Seq<char>
    decreases topics.len(),
{
    if topics.len() == 0 {
        Seq::empty()
    } else {
        rendered_all(topics.drop_last()) + rendered(topics.last().0@, *topics.last().1)
    }
}

/// Renders the statistics of several topics into one output.
pub fn render_all(topics: &[(&str, &TopicStats)]) -> (out: String)
    ensures
        out@ == rendered_all(topics@),
{
    let mut out: String = String::new();
    let mut i: usize = 0;
    while i < topics.len()
        invariant
            i <= topics@.len(),
            out@ == rendered_all(topics@.take(i as int)),
        decreases topics@.len() - i,
    {
        assert(topics@.take(i + 1).drop_last() =~= topics@.take(i as int));
        let (name, s): (&str, &TopicStats) = topics[i];
        render_into(&mut out, name, s);
        i = i + 1;
    }
    assert(topics@.take(i as int) =~= topics@);
    out
}

} // verus!

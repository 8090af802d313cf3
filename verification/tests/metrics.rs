use mmbus::exporter::{ends_headers, response, route, Route, MAX_HEADERS};
use mmbus::prometheus::{escape_label, render, render_all, render_into};
use mmbus::ring::RingStats;
use mmbus::stats::TopicStats;
use mmbus::wal::stats::WalStats;

fn sample_stats(with_wal: bool) -> TopicStats {
    TopicStats {
        ring: RingStats { tail: 100, active_subscribers: 2, lags: vec![3, 7] },
        connected_sockets: 2,
        wal: if with_wal {
            Some(WalStats {
                pending_cursor: 100,
                durable_cursor: 95,
                oldest_cursor: 0,
                active_segment_bytes: 4096,
                total_wal_bytes: 4096,
                segments: 1,
                appends_total: 100,
                append_bytes_total: 3200,
                flushes_total: 20,
            })
        } else {
            None
        },
        published_total: 100,
        full_rejected_total: 3,
        subscribers_dropped_total: 1,
        wakeups_sent_total: 42,
    }
}

#[test]
fn renders_counters_in_prom_format() {
    let s = sample_stats(false);
    let out = render("orders", &s);
    assert!(out.contains("mmbus_published_total{topic=\"orders\"} 100"));
    assert!(out.contains("mmbus_full_rejected_total{topic=\"orders\"} 3"));
    assert!(out.contains("mmbus_subscribers_dropped_total{topic=\"orders\"} 1"));
    assert!(out.contains("# TYPE mmbus_published_total counter"));
}

#[test]
fn omits_wal_block_when_wal_disabled() {
    let s = sample_stats(false);
    let out = render("orders", &s);
    assert!(!out.contains("mmbus_wal_"));
}

#[test]
fn emits_wal_block_when_wal_enabled() {
    let s = sample_stats(true);
    let out = render("orders", &s);
    assert!(out.contains("mmbus_wal_appends_total{topic=\"orders\"} 100"));
    assert!(out.contains("mmbus_wal_replay_lag{topic=\"orders\"} 5"));
    assert!(out.contains("mmbus_wal_pending_cursor{topic=\"orders\"} 100"));
    assert!(out.contains("mmbus_wal_durable_cursor{topic=\"orders\"} 95"));
}

#[test]
fn max_subscriber_lag_is_the_max() {
    let s = sample_stats(false);
    let out = render("orders", &s);
    // lags = [3, 7] → max = 7
    assert!(out.contains("mmbus_max_subscriber_lag{topic=\"orders\"} 7"));
}

#[test]
fn render_all_concatenates_topics() {
    let a = sample_stats(false);
    let b = sample_stats(true);
    let out = render_all(&[("a", &a), ("b", &b)]);
    assert!(out.contains("topic=\"a\""));
    assert!(out.contains("topic=\"b\""));
    // WAL metrics from topic b but not topic a.
    assert!(out.contains("mmbus_wal_appends_total{topic=\"b\"} 100"));
}

#[test]
fn escape_label_handles_special_chars() {
    assert_eq!(escape_label("plain"), "plain");
    assert_eq!(escape_label("a\\b"), "a\\\\b");
    assert_eq!(escape_label("a\"b"), "a\\\"b");
    assert_eq!(escape_label("a\nb"), "a\\nb");
    assert_eq!(escape_label("a\x07b"), "a_b"); // bell char → '_'
    assert_eq!(escape_label("a\x7fb\x1f\x00"), "a_b__");
    assert_eq!(escape_label("\u{80}\u{e9}~ "), "\u{80}\u{e9}~ ");
}

#[test]
fn total_marks_the_counters() {
    let out = render("t", &sample_stats(true));
    let mut types = 0;
    for line in out.lines().filter(|l| l.starts_with("# TYPE ")) {
        let words: Vec<&str> = line.split(' ').collect();
        let kind = if words[2].ends_with("_total") { "counter" } else { "gauge" };
        assert_eq!(words[3], kind, "{line}");
        types += 1;
    }
    assert_eq!(types, 16);
    assert!(out.contains("# TYPE mmbus_ring_tail gauge\n"));
    assert!(out.contains("# TYPE mmbus_wal_pending_cursor gauge\n"));
    assert!(out.contains("# TYPE mmbus_wal_durable_cursor gauge\n"));
}

#[test]
fn server_responds_404_for_other_paths() {
    // The request line, then the headers up to the empty line.
    let request = ["GET / HTTP/1.1\r\n", "Host: x\r\n", "\r\n"];
    let r = route(request[0]);
    assert!(!ends_headers(request[1]));
    assert!(ends_headers(request[2]));
    let resp = response(r, "ignored");
    assert!(resp.contains("404"));
    assert!(!resp.contains("ignored"));
}

#[test]
fn topic_without_log_renders_exactly() {
    let s = TopicStats {
        ring: RingStats { tail: 7, active_subscribers: 0, lags: vec![] },
        connected_sockets: 0,
        wal: None,
        published_total: 18446744073709551615,
        full_rejected_total: 0,
        subscribers_dropped_total: 0,
        wakeups_sent_total: 10,
    };
    let out = render("t", &s);
    assert!(out.contains("mmbus_published_total{topic=\"t\"} 18446744073709551615\n"));
    assert!(out.contains("mmbus_full_rejected_total{topic=\"t\"} 0\n"));
    assert!(out.contains("mmbus_wakeups_sent_total{topic=\"t\"} 10\n"));
    assert!(out.contains("mmbus_ring_tail{topic=\"t\"} 7\n"));
    // Nobody lags behind.
    assert!(out.contains("mmbus_max_subscriber_lag{topic=\"t\"} 0\n"));
    let mut more = String::from("# head\n");
    render_into(&mut more, "t", &s);
    assert_eq!(more, format!("# head\n{out}"));
}

#[test]
fn every_line_is_a_comment_or_a_sample() {
    let s = sample_stats(true);
    let out = render("a\nb\"c", &s);
    for line in out.lines() {
        assert!(line.starts_with("# ") || line.starts_with("mmbus_"), "{line}");
        if line.starts_with("mmbus_") {
            assert!(line.contains("{topic=\"a\\nb\\\"c\"} "), "{line}");
        }
    }
}

#[test]
fn requests_are_routed_by_verb_and_path() {
    assert_eq!(route("GET /metrics HTTP/1.1\r\n"), Route::Metrics);
    assert_eq!(route("GET  /metrics\r\n"), Route::Metrics);
    assert_eq!(route("GET /metric HTTP/1.1\r\n"), Route::NotFound);
    assert_eq!(route("GET\r\n"), Route::NotFound);
    assert_eq!(route("POST /metrics HTTP/1.1\r\n"), Route::MethodNotAllowed);
    assert_eq!(route("get /metrics HTTP/1.1\r\n"), Route::MethodNotAllowed);
    assert_eq!(route(""), Route::MethodNotAllowed);
}

#[test]
fn responses_carry_their_length() {
    let ok = response(Route::Metrics, "a 1\n");
    assert!(ok.starts_with("HTTP/1.1 200 OK\r\n"));
    assert!(ok.contains("Content-Length: 4\r\n"));
    assert!(ok.contains("Connection: close\r\n"));
    assert!(ok.ends_with("\r\n\r\na 1\n"));
    // The length counts bytes.
    let wide = response(Route::Metrics, "\u{e9}");
    assert!(wide.contains("Content-Length: 2\r\n"));
    let refused = response(Route::MethodNotAllowed, "a 1\n");
    assert!(refused.starts_with("HTTP/1.1 405 "));
    assert!(refused.contains("Content-Length: 0\r\n"));
}

#[test]
fn headers_end_at_an_empty_line() {
    assert!(ends_headers(""));
    assert!(ends_headers("\n"));
    assert!(ends_headers("\r\n"));
    assert!(!ends_headers("\r"));
    assert!(!ends_headers("Accept: */*\r\n"));
    assert_eq!(MAX_HEADERS, 64);
}

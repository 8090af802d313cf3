use mmbus::bus::{
    config_from, lock_path, ring_path, sock_path, wal_path, Bus, CleanIo, SubscribePlan,
    DEFAULT_TIMEOUT,
};
use mmbus::config::{BackpressurePolicy, BusConfig};
use mmbus::error::{Error, IoKind};
use mmbus::producer_lock::{acquire_producer_lock, LockTable};
use mmbus::publisher::{CreateIo, PublishIo, WaitStep};
use mmbus::ring::RingBuffer;
use mmbus::subscriber::{ConnectIo, ReceiveIntoStep, ReceiveStep, StartPos};
use mmbus::subscription::Subscription;
use std::time::Duration;

fn bus_cfg(capacity: u32, slot_size: u32) -> BusConfig {
    BusConfig { capacity, slot_size, base_dir: "/tmp/t".to_string(), ..Default::default() }
}

fn set_up() -> CreateIo {
    CreateIo { dir: Ok(()), lock: Ok(()), ring: Ok(None), log: Ok(0), socket: Ok(()) }
}

fn publish(bus: &mut Bus, topic: &str, data: &[u8]) -> Result<(), Error> {
    let io = PublishIo { accepted: vec![], accept_error: None, logged: Ok(()), dead: vec![] };
    bus.publish(topic, data, set_up(), io)
}

/// What a subscriber process sees of a topic.
fn mapped(bus: &Bus, topic: &str) -> RingBuffer {
    RingBuffer::open(bus.ring(topic).expect("no publisher").mem.clone()).unwrap()
}

fn connect(plan: &SubscribePlan, ring: &mut RingBuffer) -> Result<Subscription, Error> {
    plan.connect(ring, ConnectIo { eventfd: Ok(()), connected: true, passed: Ok(()) })
}

fn recv(sub: &mut Subscription, ring: &mut RingBuffer) -> Vec<u8> {
    match sub.recv(ring) {
        ReceiveStep::Message(msg) => msg,
        other => panic!("expected a message, got {other:?}"),
    }
}

fn number(bytes: Vec<u8>) -> u64 {
    u64::from_le_bytes(bytes.try_into().unwrap())
}

/// A bus that has published the numbers below `n` on "ch".
fn numbered(n: u64) -> Bus {
    let mut bus = Bus::with_config("bus".to_string(), bus_cfg(32, 16));
    for i in 0..n {
        // No subscribers yet → publish always succeeds (no pinning cursor).
        publish(&mut bus, "ch", &i.to_le_bytes()).unwrap();
    }
    bus
}

#[test]
fn bus_api_single_topic_roundtrip() {
    let mut bus = Bus::with_config("app".to_string(), bus_cfg(32, 256));
    // Create the publisher and wait for subscriber to connect before publishing.
    let step = bus.wait_for_subscribers("events", set_up(), &vec![1], None, 1, false);
    assert_eq!(step, WaitStep::Ready);
    let mut before = mapped(&bus, "events");
    let mut sub = connect(&bus.subscribe("events"), &mut before).unwrap();
    publish(&mut bus, "events", b"hello bus").unwrap();
    let mut ring = mapped(&bus, "events");
    assert_eq!(recv(&mut sub, &mut ring), b"hello bus");
}

#[test]
fn bus_api_two_topics_independent() {
    // Messages on "topic-a" must not appear on "topic-b" and vice versa.
    let mut bus = Bus::with_config("app".to_string(), bus_cfg(32, 256));
    publish(&mut bus, "topic-a", b"for-a").unwrap();
    publish(&mut bus, "topic-b", b"for-b").unwrap();
    let (mut a, mut b) = (mapped(&bus, "topic-a"), mapped(&bus, "topic-b"));
    let mut sub_a = connect(&bus.subscribe_from("topic-a", 0), &mut a).unwrap();
    let mut sub_b = connect(&bus.subscribe_from("topic-b", 0), &mut b).unwrap();
    assert_eq!(recv(&mut sub_a, &mut a), b"for-a");
    assert_eq!(recv(&mut sub_b, &mut b), b"for-b");
    assert_eq!(sub_a.try_recv(&mut a), None);
    assert_eq!(sub_b.try_recv(&mut b), None);
    assert_eq!(bus.stats("topic-a", None).unwrap().published_total, 1);
    assert_eq!(bus.stats("topic-b", None).unwrap().published_total, 1);
}

#[test]
fn bus_api_recv_timeout_returns_none() {
    let mut bus = Bus::with_config("app".to_string(), bus_cfg(32, 256));
    // Force publisher creation by publishing a dummy (no subscriber yet).
    let _ = publish(&mut bus, "ch", b"ignored");
    let mut ring = mapped(&bus, "ch");
    let plan = bus.subscribe_timeout("ch", Duration::from_secs(5).as_nanos());
    let mut sub = connect(&plan, &mut ring).unwrap();
    let timeout = Duration::from_millis(100).as_nanos();
    assert_eq!(sub.recv_timeout(&mut ring, timeout), ReceiveStep::Wait(100));
    assert_eq!(sub.wait_readable(Err(IoKind::WouldBlock), 1), Ok(false));
    assert_eq!(sub.recv_timeout(&mut ring, 0), ReceiveStep::GaveUp);
}

#[test]
fn bus_api_iterator() {
    let n = 50usize;
    let mut bus = Bus::with_config("app".to_string(), bus_cfg(64, 256));
    publish(&mut bus, "stream", b"before").unwrap();
    let mut before = mapped(&bus, "stream");
    let mut sub = connect(&bus.subscribe("stream"), &mut before).unwrap();
    for i in 0..n {
        publish(&mut bus, "stream", format!("{i:03}").as_bytes()).unwrap();
    }
    let mut ring = mapped(&bus, "stream");
    let mut received = Vec::new();
    for _ in 0..n {
        match Subscription::next(Ok(recv(&mut sub, &mut ring))) {
            Some(Ok(msg)) => received.push(msg),
            other => panic!("expected a message, got {other:?}"),
        }
    }
    assert_eq!(received.len(), n);
    for (i, msg) in received.iter().enumerate() {
        assert_eq!(msg.as_slice(), format!("{i:03}").as_bytes(), "message {i}");
    }
    // A publisher that is gone ends the stream; other failures are handed out.
    assert_eq!(Subscription::next(Err(Error::Io(IoKind::UnexpectedEof))), None);
    assert_eq!(Subscription::next(Err(Error::Io(IoKind::ConnectionReset))), None);
    let broken = Err(Error::Io(IoKind::BrokenPipe));
    assert_eq!(Subscription::next(broken.clone()), Some(broken));
    assert_eq!(Subscription::next(Err(Error::Full)), Some(Err(Error::Full)));
}

#[test]
fn bus_api_recv_into_slice_variable_size() {
    // The zero-alloc receive path (M1): write messages of differing sizes
    // straight into a caller buffer, returning the actual byte count.
    let mut bus = Bus::with_config("app".to_string(), bus_cfg(32, 256));
    publish(&mut bus, "ch", b"a").unwrap();
    publish(&mut bus, "ch", b"bcde").unwrap();
    publish(&mut bus, "ch", &[0x7u8; 200]).unwrap();
    let mut ring = mapped(&bus, "ch");
    let mut sub = connect(&bus.subscribe_from("ch", 0), &mut ring).unwrap();
    assert_eq!(sub.slot_size(&ring), 256, "slot_size accessor");
    let mut buf = vec![0u8; sub.slot_size(&ring) as usize];
    let mut got = Vec::new();
    while let Some(len) = sub.try_recv_one_into_slice(&mut ring, &mut buf).unwrap() {
        got.push(buf[..len].to_vec());
    }
    assert_eq!(got.len(), 3);
    assert_eq!(got[0], b"a");
    assert_eq!(got[1], b"bcde");
    assert_eq!(got[2], [0x7u8; 200]);
}

#[test]
fn bus_api_recv_into_slice_too_large_errors() {
    // A buffer smaller than the live-ring payload yields Error::TooLarge.
    let mut bus = Bus::with_config("app".to_string(), bus_cfg(32, 256));
    publish(&mut bus, "ch", b"this payload is longer than four bytes").unwrap();
    let mut ring = mapped(&bus, "ch");
    let mut sub = connect(&bus.subscribe_from("ch", 0), &mut ring).unwrap();
    let mut tiny = [0u8; 4];
    match sub.try_recv_one_into_slice(&mut ring, &mut tiny) {
        Err(Error::TooLarge { max, .. }) => assert_eq!(max, 4),
        other => panic!("expected TooLarge, got {other:?}"),
    }
    assert_eq!(sub.try_recv_into_slice(&mut ring, &mut tiny), None);
}

#[test]
fn subscribe_with_history_replays_recent_messages() {
    const N: u64 = 16; // less than capacity (32) so no overrun
    let bus = numbered(N);
    let mut ring = mapped(&bus, "ch");
    let mut sub = connect(&bus.subscribe_with_history("ch", N / 2), &mut ring).unwrap();
    let mut got = Vec::new();
    for _ in 0..(N / 2) {
        got.push(number(recv(&mut sub, &mut ring)));
    }
    assert_eq!(got.len(), (N / 2) as usize);
    for (i, &v) in got.iter().enumerate() {
        let expected = N / 2 + i as u64;
        assert_eq!(v, expected, "msg {i}: expected {expected} got {v}");
    }
}

#[test]
fn subscribe_with_history_beyond_capacity_is_best_effort() {
    const N: u64 = 200; // 6.25x capacity; first ~168 messages already overwritten
    const CAPACITY: u64 = 32;
    let bus = numbered(N);
    let mut ring = mapped(&bus, "ch");
    // Ask for 5x capacity worth.  Only ~capacity is available.
    let mut sub = connect(&bus.subscribe_with_history("ch", 5 * CAPACITY), &mut ring).unwrap();
    let mut got = Vec::new();
    // Read what's available.
    while let Some(bytes) = sub.try_recv(&mut ring) {
        got.push(number(bytes));
    }
    assert!(
        !got.is_empty() && got.len() <= CAPACITY as usize,
        "expected 1..{} messages, got {}",
        CAPACITY,
        got.len()
    );
    // Strictly monotonic.
    for w in got.windows(2) {
        assert!(w[1] > w[0], "out of order: {} after {}", w[1], w[0]);
    }
    // All values are in the post-(N-capacity) tail (allowing for skip-ahead).
    let first_possible = N - CAPACITY;
    assert!(got[0] >= first_possible, "msg {} predates the ring", got[0]);
    assert_eq!(got, (first_possible..N).collect::<Vec<_>>());
    assert!(*got.last().unwrap() < N, "msg from the future");
}

#[test]
fn subscribe_from_zero_when_unwrapped_replays_all() {
    const N: u64 = 10; // well under capacity
    let bus = numbered(N);
    let mut ring = mapped(&bus, "ch");
    let mut sub = connect(&bus.subscribe_from("ch", 0), &mut ring).unwrap();
    let got: Vec<u64> = (0..N).map(|_| number(recv(&mut sub, &mut ring))).collect();
    assert_eq!(got, (0..N).collect::<Vec<_>>());
}

#[test]
fn subscribe_from_predating_ring_returns_cursor_too_old() {
    const CAPACITY: u64 = 32;
    const N: u64 = 200;
    let bus = numbered(N);
    let mut ring = mapped(&bus, "ch");
    // Tail is now N; oldest in-ring slot is N - CAPACITY.  Request cursor=10
    // which is way older.
    match connect(&bus.subscribe_from("ch", 10), &mut ring) {
        Err(Error::CursorTooOld { requested, oldest }) => {
            assert_eq!(requested, 10);
            assert_eq!(oldest, N - CAPACITY);
        }
        Err(e) => panic!("expected CursorTooOld, got error {e:?}"),
        Ok(_) => panic!("expected CursorTooOld, got Ok(subscription)"),
    }
}

#[test]
fn cursor_checkpoint_round_trip() {
    const FIRST: u64 = 5;
    const SECOND: u64 = 5;
    const TOTAL: u64 = FIRST + SECOND;
    let bus = numbered(TOTAL);
    let mut ring = mapped(&bus, "ch");

    // First subscriber consumes FIRST messages, records its cursor.
    let checkpoint = {
        let mut sub = connect(&bus.subscribe_with_history("ch", TOTAL), &mut ring).unwrap();
        for _ in 0..FIRST {
            recv(&mut sub, &mut ring);
        }
        sub.cursor()
    };
    assert_eq!(checkpoint, FIRST, "should have consumed exactly {FIRST}");

    // Second subscriber resumes from the checkpoint.
    let mut sub = connect(&bus.subscribe_from("ch", checkpoint), &mut ring).unwrap();
    let mut got = Vec::new();
    for _ in 0..SECOND {
        got.push(number(recv(&mut sub, &mut ring)));
    }
    assert_eq!(got, (FIRST..TOTAL).collect::<Vec<_>>());
}

#[test]
fn topics_live_below_their_bus() {
    let bus = Bus::new("app".to_string());
    let c = bus.topic_config();
    assert_eq!(c.base_dir, "/tmp/mmbus/app");
    assert_eq!((c.capacity, c.slot_size, c.max_subscribers), (256, 65536, 16));
    assert_eq!(c.backpressure, BackpressurePolicy::Error);
    assert!(!c.wal.enabled);
    let dir = bus.topic_dir("events");
    assert_eq!(dir, "/tmp/mmbus/app/events");
    assert_eq!(ring_path(&dir), "/tmp/mmbus/app/events/ring.mmap");
    assert_eq!(sock_path(&dir), "/tmp/mmbus/app/events/signal.sock");
    assert_eq!(lock_path(&dir), "/tmp/mmbus/app/events/producer.lock");
    assert_eq!(wal_path(&dir), "/tmp/mmbus/app/events/wal");
    // An absolute name stands for itself.
    assert_eq!(bus.topic_dir("/elsewhere"), "/elsewhere");
}

#[test]
fn plans_say_where_and_how() {
    let bus = Bus::new("app".to_string());
    let p = bus.subscribe("t");
    assert_eq!((p.topic.as_str(), p.timeout, p.start), ("t", DEFAULT_TIMEOUT, StartPos::Now));
    assert_eq!(p.timeout, Duration::from_secs(30).as_nanos());
    assert_eq!(p.ring_path, "/tmp/mmbus/app/t/ring.mmap");
    assert_eq!(p.sock_path, "/tmp/mmbus/app/t/signal.sock");
    let p = bus.subscribe_with_history_timeout("t", 3, 9);
    assert_eq!((p.timeout, p.start), (9, StartPos::HistoryBack(3)));
    let p = bus.subscribe_from_timeout("t", 3, 9);
    assert_eq!((p.timeout, p.start), (9, StartPos::Explicit(3)));
}

#[test]
fn unknown_topics_have_no_stats() {
    let mut bus = numbered(3);
    assert!(bus.has_publisher("ch") && !bus.has_publisher("other"));
    assert!(bus.stats("other", None).is_none());
    assert!(bus.slow_subscribers("other", 0).is_empty());
    assert!(bus.ring("other").is_none());
    assert_eq!(bus.stats("ch", None).unwrap().ring.tail, 3);
    assert!(bus.slow_subscribers("ch", 0).is_empty());
    // A publisher that cannot be set up is not kept.
    let io = PublishIo { accepted: vec![], accept_error: None, logged: Ok(()), dead: vec![] };
    let create = CreateIo { dir: Err(IoKind::PermissionDenied), ..set_up() };
    assert_eq!(
        bus.publish("other", b"x", create, io),
        Err(Error::Io(IoKind::PermissionDenied))
    );
    assert!(!bus.has_publisher("other"));
    let create = CreateIo { socket: Err(IoKind::Other), ..set_up() };
    assert_eq!(
        bus.wait_for_subscribers("other", create, &vec![], None, 0, false),
        WaitStep::Fail(Error::Io(IoKind::Other))
    );
}

#[test]
fn clean_topic_spares_topics_in_use() {
    let done = || CleanIo { exists: true, opened: Ok(()), locked: true, removed: Ok(()) };
    let mut bus = numbered(3);
    publish(&mut bus, "kept", b"x").unwrap();
    let path = lock_path(&bus.topic_dir("ch"));
    let mut locks = LockTable::new();
    acquire_producer_lock(&mut locks, "ch", &path, Ok(()), true).unwrap();
    // This bus publishes the topic, whether or not there is anything on disk.
    for io in [done(), CleanIo { exists: false, ..done() }] {
        assert_eq!(
            bus.clean_topic("ch", &mut locks, io),
            Err(Error::AlreadyPublishing("ch".to_string()))
        );
    }
    assert!(bus.has_publisher("ch") && bus.has_publisher("kept"));
    assert!(!locks.reserve(path.clone()));
    // Another bus does not, but somebody else in this process holds the lock.
    let mut bus = Bus::with_config("bus".to_string(), bus_cfg(32, 16));
    assert_eq!(
        bus.clean_topic("ch", &mut locks, done()),
        Err(Error::AlreadyPublishing("ch".to_string()))
    );
    locks.release(&path);
    assert_eq!(bus.clean_topic("ch", &mut locks, done()), Ok(()));
    // Another process does.
    assert_eq!(
        bus.clean_topic("ch", &mut locks, CleanIo { locked: false, ..done() }),
        Err(Error::AlreadyPublishing("ch".to_string()))
    );
    assert_eq!(
        bus.clean_topic("ch", &mut locks, CleanIo { opened: Err(IoKind::Other), ..done() }),
        Err(Error::Io(IoKind::Other))
    );
    assert_eq!(
        bus.clean_topic("ch", &mut locks, CleanIo { removed: Err(IoKind::Other), ..done() }),
        Err(Error::Io(IoKind::Other))
    );
    // A topic that was never there.
    assert_eq!(bus.clean_topic("no", &mut locks, CleanIo { exists: false, ..done() }), Ok(()));
    assert!(locks.reserve(path));
}

#[test]
fn given_values_replace_the_defaults() {
    let c = config_from(None, None, None, None);
    assert_eq!(c.base_dir, "/tmp/mmbus");
    assert_eq!((c.capacity, c.slot_size, c.max_subscribers), (256, 65536, 16));
    let c = config_from(Some("/data".to_string()), Some(8), Some(64), Some(2));
    assert_eq!(c.base_dir, "/data");
    assert_eq!((c.capacity, c.slot_size, c.max_subscribers), (8, 64, 2));
    assert!(!c.wal.enabled);
}

#[test]
fn subscription_reads_like_its_subscriber() {
    let bus = numbered(4);
    let mut ring = mapped(&bus, "ch");
    let mut sub = connect(&bus.subscribe_from("ch", 0), &mut ring).unwrap();
    assert_eq!(sub.lag(ring.current_tail()), 4);
    assert!(sub.arm_wakeup(ring.current_tail()));
    let mut out = vec![1, 2, 3];
    assert_eq!(sub.recv_into(&mut ring, &mut out), ReceiveIntoStep::Filled);
    assert_eq!(number(out.clone()), 0);
    assert_eq!(sub.recv_timeout_into(&mut ring, 5, &mut out), ReceiveIntoStep::Filled);
    assert_eq!(number(out.clone()), 1);
    assert!(sub.try_recv_into(&mut ring, &mut out));
    assert_eq!(number(out.clone()), 2);
    assert_eq!(sub.poll_recv(&mut ring, Ok(true)).unwrap().map(number), Some(3));
    assert_eq!(sub.drain_wakeup(Ok(true)), Ok(true));
    assert_eq!(sub.recv_into(&mut ring, &mut out), ReceiveIntoStep::Wait(-1));
    assert!(out.is_empty());
    assert_eq!((sub.cursor(), sub.lag(4)), (4, 0));
}

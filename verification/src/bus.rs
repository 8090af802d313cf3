//! A named set of topics.
//!
//! Topics are independent channels; each has its own directory below that of the bus. A
//! publisher is set up on the first use of its topic and kept.

use crate::config;
use crate::config::BusConfig;
use crate::error::{Error, IoKind};
use crate::producer_lock;
use crate::producer_lock::{acquire_producer_lock, LockTable};
use crate::publisher;
use crate::publisher::{CreateIo, PublishIo, Publisher, PublisherView, WaitStep};
use crate::ring;
use crate::ring::{RingBuffer, RingStats, RingView};
use crate::stats::TopicStats;
use crate::subscriber;
use crate::subscriber::{ConnectIo, StartPos, Subscriber, SubscriberView};
use crate::subscription::Subscription;
use crate::text;
use crate::text::join_path;
use crate::wal::config as wal_config;
use crate::wal::stats::WalStats;
use vstd::prelude::*;

verus! {

/// How long a subscription waits for the publisher unless it is told otherwise, in
/// nanoseconds.
pub const DEFAULT_TIMEOUT: u128 = 30_000_000_000;

/// The ring file in the directory of a topic.
pub fn ring_path(dir: &str) -> (p: String)
    ensures
        p@ == text::joined(dir@, "ring.mmap"@),
{
    join_path(dir, "ring.mmap")
}

/// The signal socket in the directory of a topic.
pub fn sock_path(dir: &str) -> (p: String)
    ensures
        p@ == text::joined(dir@, "signal.sock"@),
{
    join_path(dir, "signal.sock")
}

/// The lock file in the directory of a topic.
pub fn lock_path(dir: &str) -> (p: String)
    ensures
        p@ == text::joined(dir@, "producer.lock"@),
{
    join_path(dir, "producer.lock")
}

/// The directory of the log in the directory of a topic.
pub fn wal_path(dir: &str) -> (p: String)
    ensures
        p@ == text::joined(dir@, "wal"@),
{
    join_path(dir, "wal")
}

/// A topic that this process publishes.
struct Topic {
    name: String,
    publisher: Publisher,
    ring: RingBuffer,
}

/// A topic that this process publishes.
#[verifier::ext_equal]
pub struct TopicView {
    pub name: Seq<char>,
    pub publisher: PublisherView,
    pub ring: RingView,
}

/// A named bus.
pub struct Bus {
    name: String,
    config: BusConfig,
    topics: Vec<Topic>,
}

/// What a bus knows.
#[verifier::ext_equal]
pub struct BusView {
    pub name: Seq<char>,
    pub config: BusConfig,
    /// The topics that this process publishes.
    pub topics: Seq<TopicView>,
}

closed spec fn topic_view(t: Topic) -> TopicView {
    TopicView { name: t.name@, publisher: t.publisher@, ring: t.ring@ }
}

impl View for Bus {
    type V = BusView;

    closed spec fn view(&self) -> BusView {
        BusView {
            name: self.name@,
            config: self.config,
            topics: self.topics@.map_values(|t: Topic| topic_view(t)),
        }
    }
}

/// The place of a topic.
pub open spec fn place_of(topics: Seq<TopicView>, name: Seq<char>) -> Option<int>
    decreases topics.len(),
{
    if topics.len() == 0 {
        None
    } else {
        match place_of(topics.drop_last(), name) {
            Some(i) => Some(i),
            None => if topics.last().name == name {
                Some(topics.len() - 1)
            } else {
                None
            },
        }
    }
}

/// No topic occurs twice.
pub open spec fn distinct(topics: Seq<TopicView>) -> bool {
    forall|i: int, j: int|
        0 <= i < j < topics.len() ==> #[trigger] topics[i].name != #[trigger] topics[j].name
}

/// The place of a topic holds it, and no other does.
pub proof fn lemma_place_of(topics: Seq<TopicView>, name: Seq<char>)
    ensures
        match place_of(topics, name) {
            None => forall|i: int| 0 <= i < topics.len() ==> #[trigger] topics[i].name != name,
            Some(i) => 0 <= i < topics.len() && topics[i].name == name && forall|j: int|
                0 <= j < i ==> #[trigger] topics[j].name != name,
        },
    decreases topics.len(),
{
    if topics.len() > 0 {
        let front = topics.drop_last();
        lemma_place_of(front, name);
        assert forall|i: int| 0 <= i < front.len() implies #[trigger] topics[i] == front[i] by {}
        match place_of(front, name) {
            Some(k) => {
                assert(topics[k] == front[k]);
                assert forall|j: int| 0 <= j < k implies #[trigger] topics[j].name != name by {
                    assert(front[j].name != name);
                }
            },
            None => {
                assert forall|j: int| 0 <= j < topics.len() - 1 implies #[trigger] topics[j].name
                    != name by {
                    assert(front[j].name != name);
                }
            },
        }
    }
}

/// The topics once there is a publisher for `name`, or what kept it from being set up.
pub open spec fn ensured(v: BusView, name: Seq<char>, io: CreateIo) -> Result<
    Seq<TopicView>,
    Error,
> {
    if place_of(v.topics, name) is Some {
        Ok(v.topics)
    } else {
        match publisher::created(v.config, io) {
            Err(e) => Err(e),
            Ok((p, r)) => Ok(v.topics.push(TopicView { name, publisher: p, ring: r })),
        }
    }
}

/// A publish to a topic: the bus after it, and what it returns.
pub open spec fn publishing_to(
    v: BusView,
    topic: Seq<char>,
    data: Seq<u8>,
    create: CreateIo,
    io: PublishIo,
) -> (BusView, Result<(), Error>) {
    match ensured(v, topic, create) {
        Err(e) => (v, Err(e)),
        Ok(topics) => {
            let i = place_of(topics, topic)->Some_0;
            let t = topics[i];
            let done = publisher::publishing(t.publisher, t.ring, data, io);
            (
                BusView {
                    topics: topics.update(i, TopicView { publisher: done.0, ring: done.1, ..t }),
                    ..v
                },
                done.2,
            )
        },
    }
}

/// Topics are independent: publishing to one leaves publisher and ring of every other as
/// they are.
pub proof fn law_topics_are_independent(
    v: BusView,
    topic: Seq<char>,
    data: Seq<u8>,
    create: CreateIo,
    io: PublishIo,
    other: Seq<char>,
)
    requires
        distinct(v.topics),
        other != topic,
    ensures
        ({
            let after = publishing_to(v, topic, data, create, io).0;
            &&& place_of(after.topics, other) == place_of(v.topics, other)
            &&& place_of(v.topics, other) matches Some(i) ==> after.topics[i] == v.topics[i]
        }),
{
    let after = publishing_to(v, topic, data, create, io).0.topics;
    lemma_place_of(v.topics, topic);
    lemma_place_of(v.topics, other);
    lemma_place_of(after, other);
    match ensured(v, topic, create) {
        Err(_) => {},
        Ok(topics) => {
            lemma_place_of(topics, topic);
            let at = place_of(topics, topic)->Some_0;
            if place_of(v.topics, topic) is None {
                assert(topics.drop_last() =~= v.topics);
                assert(topics.last().name == topic);
            }
            assert forall|k: int| 0 <= k < v.topics.len() && k != at implies #[trigger] after[k]
                == v.topics[k] by {}
            if place_of(after, other) is Some {
                let k = place_of(after, other)->Some_0;
                assert(after[at].name == topic);
                assert(k != at && k < v.topics.len());
                assert(v.topics[k].name == other);
                let i = place_of(v.topics, other)->Some_0;
                assert(after[i].name == v.topics[i].name);
            } else if place_of(v.topics, other) is Some {
                let i = place_of(v.topics, other)->Some_0;
                assert(after[i].name == v.topics[i].name);
            }
        },
    }
}

/// The configuration of the topics: their directories are below that of the bus.
pub open spec fn is_topic_config(c: BusConfig, v: BusView) -> bool {
    &&& c.slot_size == v.config.slot_size
    &&& c.capacity == v.config.capacity
    &&& c.base_dir@ == text::joined(v.config.base_dir@, v.name)
    &&& c.max_subscribers == v.config.max_subscribers
    &&& c.backpressure == v.config.backpressure
    &&& c.wal == v.config.wal
}

/// The directory of a topic.
pub open spec fn dir_of(v: BusView, topic: Seq<char>) -> Seq<char> {
    text::joined(text::joined(v.config.base_dir@, v.name), topic)
}

/// Where and how to subscribe.
pub struct SubscribePlan {
    pub topic: String,
    pub ring_path: String,
    pub sock_path: String,
    /// In nanoseconds.
    pub timeout: u128,
    pub start: StartPos,
}

/// The plan for a subscription to `topic`.
pub open spec fn is_plan(
    p: SubscribePlan,
    v: BusView,
    topic: Seq<char>,
    timeout: u128,
    start: StartPos,
) -> bool {
    &&& p.topic@ == topic
    &&& p.ring_path@ == text::joined(dir_of(v, topic), "ring.mmap"@)
    &&& p.sock_path@ == text::joined(dir_of(v, topic), "signal.sock"@)
    &&& p.timeout == timeout
    &&& p.start == start
}

impl SubscribePlan {
    /// Subscribes according to the plan, to a ring that was opened in time.
    pub fn connect(&self, rb: &mut RingBuffer, io: ConnectIo) -> (r: Result<Subscription, Error>)
        requires
            old(rb).wf(),
        ensures
            final(rb).wf(),
            subscriber::same_shape(*final(rb), *old(rb)),
            match ring::first_free(old(rb)@.cursors) {
                None => {
                    &&& r == Err::<Subscription, Error>(
                        Error::TooManySubscribers(old(rb).max_subscribers),
                    )
                    &&& final(rb)@ == old(rb)@
                },
                Some(i) => exists|h: Result<(), Error>| #[trigger]
                    subscriber::handshake_is(h, self.topic@, io) && match (
                        h,
                        subscriber::started_at(self.start, old(rb)@.tail, old(rb).capacity),
                    ) {
                        (Err(e), _) => {
                            &&& r == Err::<Subscription, Error>(e)
                            &&& final(rb)@ == old(rb)@
                        },
                        (Ok(_), Err(e)) => {
                            &&& r == Err::<Subscription, Error>(e)
                            &&& final(rb)@ == old(rb)@
                        },
                        (Ok(_), Ok(cursor)) => {
                            &&& r matches Ok(s)
                            &&& s@ == (SubscriberView {
                                cursor,
                                idx: i as usize,
                                generation: old(rb)@.generation,
                            })
                            &&& final(rb)@ == (RingView {
                                cursors: old(rb)@.cursors.update(i, cursor),
                                ..old(rb)@
                            })
                        },
                    },
            },
    {
        match Subscriber::connect_with(rb, self.topic.as_str(), self.start, io) {
            Err(e) => Err(e),
            Ok(sub) => Ok(Subscription::new(sub)),
        }
    }
}

/// What the operations of a clean-up gave, in the order in which they are made.
pub struct CleanIo {
    /// Whether the directory of the topic exists.
    pub exists: bool,
    /// Opening the lock file.
    pub opened: Result<(), IoKind>,
    /// Locking it.
    pub locked: bool,
    /// Removing the directory.
    pub removed: Result<(), IoKind>,
}

/// Whether a clean-up returns `r`: `busy` if another publisher of this process holds the
/// lock of the topic.
pub open spec fn cleaned(r: Result<(), Error>, topic: Seq<char>, busy: bool, io: CleanIo) -> bool {
    if !io.exists {
        r == Ok::<(), Error>(())
    } else if busy {
        r matches Err(Error::AlreadyPublishing(who)) && who@ == topic
    } else {
        match io.opened {
            Err(kind) => r == Err::<(), Error>(Error::Io(kind)),
            Ok(_) => if !io.locked {
                r matches Err(Error::AlreadyPublishing(who)) && who@ == topic
            } else {
                match io.removed {
                    Err(kind) => r == Err::<(), Error>(Error::Io(kind)),
                    Ok(_) => r == Ok::<(), Error>(()),
                }
            },
        }
    }
}

/// A configuration with some of its values replaced by those that were given.
pub fn config_from(
    base_dir: Option<String>,
    capacity: Option<u32>,
    slot_size: Option<u32>,
    max_subscribers: Option<u32>,
) -> (c: BusConfig)
    ensures
        c.base_dir@ == (match base_dir {
            Some(d) => d@,
            None => "/tmp/mmbus"@,
        }),
        c.capacity == (match capacity {
            Some(n) => n,
            None => 256u32,
        }),
        c.slot_size == (match slot_size {
            Some(n) => n,
            None => 65536u32,
        }),
        c.max_subscribers == (match max_subscribers {
            Some(n) => n,
            None => 16u32,
        }),
        c.backpressure == config::BackpressurePolicy::Error,
        c.wal == wal_config::default_config(false),
{
    let mut c: BusConfig = BusConfig::default();
    match base_dir {
        Some(d) => {
            c.base_dir = d;
        },
        None => {},
    }
    match capacity {
        Some(n) => {
            c.capacity = n;
        },
        None => {},
    }
    match slot_size {
        Some(n) => {
            c.slot_size = n;
        },
        None => {},
    }
    match max_subscribers {
        Some(n) => {
            c.max_subscribers = n;
        },
        None => {},
    }
    c
}

impl Bus {
    pub closed spec fn wf(&self) -> bool {
        &&& distinct(self@.topics)
        &&& forall|i: int|
            0 <= i < self.topics@.len() ==> {
                let t = #[trigger] self.topics@[i];
                &&& t.ring.wf()
                &&& t.ring.capacity == self.config.capacity
                &&& t.ring.slot_payload_size == self.config.slot_size
                &&& t.ring.max_subscribers == self.config.max_subscribers
                &&& t.publisher@.slot_size == self.config.slot_size
            }
    }

    /// No topic occurs twice.
    pub proof fn lemma_wf(&self)
        requires
            self.wf(),
        ensures
            distinct(self@.topics),
    {
    }

    /// A bus with the default configuration.
    pub fn new(name: String) -> (b: Bus)
        ensures
            b.wf(),
            b@.name == name@,
            b@.topics == Seq::<TopicView>::empty(),
            b@.config.slot_size == 65536,
            b@.config.capacity == 256,
            b@.config.base_dir@ == "/tmp/mmbus"@,
            b@.config.max_subscribers == 16,
            b@.config.backpressure == config::BackpressurePolicy::Error,
            b@.config.wal == wal_config::default_config(false),
    {
        Bus::with_config(name, BusConfig::default())
    }

    /// A bus with this configuration.
    pub fn with_config(name: String, config: BusConfig) -> (b: Bus)
        ensures
            b.wf(),
            b@ == (BusView { name: name@, config, topics: Seq::empty() }),
    {
        let b = Bus { name, config, topics: Vec::new() };
        assert(b@ =~= BusView { name: name@, config, topics: Seq::empty() });
        b
    }

    /// The configuration of the topics.
    pub fn topic_config(&self) -> (c: BusConfig)
        ensures
            is_topic_config(c, self@),
    {
        BusConfig {
            slot_size: self.config.slot_size,
            capacity: self.config.capacity,
            base_dir: join_path(self.config.base_dir.as_str(), self.name.as_str()),
            max_subscribers: self.config.max_subscribers,
            backpressure: self.config.backpressure,
            wal: self.config.wal,
        }
    }

    /// The directory of a topic.
    pub fn topic_dir(&self, topic: &str) -> (d: String)
        ensures
            d@ == dir_of(self@, topic@),
    {
        let base: String = join_path(self.config.base_dir.as_str(), self.name.as_str());
        join_path(base.as_str(), topic)
    }

    /// The place of a topic.
    fn find(&self, topic: &str) -> (r: Option<usize>)
        ensures
            match r {
                None => place_of(self@.topics, topic@) is None,
                Some(i) => {
                    &&& i < self.topics@.len()
                    &&& place_of(self@.topics, topic@) == Some(i as int)
                },
            },
    {
        let name: String = topic.to_owned();
        let mut i: usize = 0;
        proof {
            lemma_place_of(self@.topics, topic@);
        }
        while i < self.topics.len()
            invariant
                i <= self.topics@.len(),
                name@ == topic@,
                self@.topics.len() == self.topics@.len(),
                forall|j: int| 0 <= j < i ==> #[trigger] self@.topics[j].name != topic@,
            decreases self.topics@.len() - i,
        {
            assert(self@.topics[i as int] == topic_view(self.topics@[i as int]));
            if self.topics[i].name == name {
                proof {
                    assert(self@.topics[i as int].name == topic@);
                    lemma_place_of(self@.topics, topic@);
                }
                return Some(i);
            }
            i = i + 1;
        }
        None
    }

    /// Whether this process publishes a topic.
    pub fn has_publisher(&self, topic: &str) -> (b: bool)
        ensures
            b == (place_of(self@.topics, topic@) is Some),
    {
        self.find(topic).is_some()
    }

    /// The ring of a topic that this process publishes.
    pub fn ring(&self, topic: &str) -> (r: Option<&RingBuffer>)
        requires
            self.wf(),
        ensures
            match place_of(self@.topics, topic@) {
                None => r is None,
                Some(i) => {
                    &&& r matches Some(rb)
                    &&& rb@ == self@.topics[i].ring
                    &&& rb.wf()
                    &&& rb.capacity == self@.config.capacity
                    &&& rb.slot_payload_size == self@.config.slot_size
                    &&& rb.max_subscribers == self@.config.max_subscribers
                },
            },
    {
        match self.find(topic) {
            None => None,
            Some(i) => {
                assert(self@.topics[i as int] == topic_view(self.topics@[i as int]));
                Some(&self.topics[i].ring)
            },
        }
    }

    /// Sets a publisher for `topic` up if there is none, and gives its place.
    fn ensure_publisher(&mut self, topic: &str, io: CreateIo) -> (r: Result<usize, Error>)
        requires
            old(self).wf(),
            fits(old(self)@.config),
        ensures
            final(self).wf(),
            match ensured(old(self)@, topic@, io) {
                Err(e) => r == Err::<usize, Error>(e) && final(self)@ == old(self)@,
                Ok(topics) => {
                    &&& r matches Ok(i)
                    &&& i < final(self).topics@.len()
                    &&& place_of(topics, topic@) == Some(i as int)
                    &&& final(self)@ == (BusView { topics, ..old(self)@ })
                },
            },
    {
        match self.find(topic) {
            Some(i) => Ok(i),
            None => {
                let ghost before = self@;
                let cfg: BusConfig = self.topic_config();
                proof {
                    lemma_same_creation(cfg, before.config, io);
                }
                match Publisher::create(&cfg, io) {
                    Err(e) => Err(e),
                    Ok((publisher, ring)) => {
                        let at: usize = self.topics.len();
                        let ghost old_topics = self.topics@;
                        let t = Topic { name: topic.to_owned(), publisher, ring };
                        let ghost tv = topic_view(t);
                        self.topics.push(t);
                        proof {
                            let topics = before.topics.push(tv);
                            assert(self@.topics =~= topics);
                            assert(self@ =~= BusView { topics, ..before });
                            lemma_place_of(before.topics, topic@);
                            assert(topics.drop_last() =~= before.topics);
                            assert forall|i: int, j: int|
                                0 <= i < j < self@.topics.len() implies #[trigger] self@.topics[i].name
                                != #[trigger] self@.topics[j].name by {
                                assert(before.topics[i].name == self@.topics[i].name);
                                if j < before.topics.len() {
                                    assert(before.topics[j].name == self@.topics[j].name);
                                }
                            }
                            assert forall|i: int| 0 <= i < self.topics@.len() implies {
                                let t = #[trigger] self.topics@[i];
                                &&& t.ring.wf()
                                &&& t.ring.capacity == self.config.capacity
                                &&& t.ring.slot_payload_size == self.config.slot_size
                                &&& t.ring.max_subscribers == self.config.max_subscribers
                                &&& t.publisher@.slot_size == self.config.slot_size
                            } by {
                                if i < old_topics.len() {
                                    assert(self.topics@[i] == old_topics[i]);
                                }
                            }
                        }
                        Ok(at)
                    },
                }
            },
        }
    }

    /// Publishes `data` to `topic`. The publisher is set up on the first call.
    pub fn publish(&mut self, topic: &str, data: &[u8], create: CreateIo, io: PublishIo) -> (r:
        Result<(), Error>)
        requires
            old(self).wf(),
            fits(old(self)@.config),
            old(self)@.config.capacity > 0,
            ensured(old(self)@, topic@, create) matches Ok(topics)
                ==> topics[place_of(topics, topic@)->Some_0].ring.tail < u64::MAX,
        ensures
            final(self).wf(),
            (final(self)@, r) == publishing_to(old(self)@, topic@, data@, create, io),
    {
        let i: usize = match self.ensure_publisher(topic, create) {
            Err(e) => {
                return Err(e);
            },
            Ok(i) => i,
        };
        let ghost mid = self@;
        let ghost mid_topics = self.topics@;
        proof {
            lemma_place_of(mid.topics, topic@);
            assert(mid.topics[i as int] == topic_view(mid_topics[i as int]));
        }
        let t: &mut Topic = &mut self.topics[i];
        let r: Result<(), Error> = t.publisher.publish(&mut t.ring, data, io);
        proof {
            publisher::lemma_publish_keeps_size(
                mid.topics[i as int].publisher,
                mid.topics[i as int].ring,
                data@,
                io,
            );
            self.lemma_one_changed(mid, mid_topics, i as int);
        }
        r
    }

    /// One topic changed, and neither its name nor the shape of its ring.
    proof fn lemma_one_changed(&self, before: BusView, topics: Seq<Topic>, i: int)
        requires
            before.topics == topics.map_values(|t: Topic| topic_view(t)),
            before.name == self.name@,
            before.config == self.config,
            distinct(before.topics),
            0 <= i < topics.len(),
            self.topics@.len() == topics.len(),
            self.topics@ == topics.update(i, self.topics@[i]),
            self.topics@[i].name@ == topics[i].name@,
            forall|k: int|
                0 <= k < self.topics@.len() ==> {
                    let t = #[trigger] self.topics@[k];
                    &&& t.ring.wf()
                    &&& t.ring.capacity == self.config.capacity
                    &&& t.ring.slot_payload_size == self.config.slot_size
                    &&& t.ring.max_subscribers == self.config.max_subscribers
                    &&& t.publisher@.slot_size == self.config.slot_size
                },
        ensures
            self.wf(),
            self@ == (BusView {
                topics: before.topics.update(i, topic_view(self.topics@[i])),
                ..before
            }),
    {
        assert(self@.topics =~= before.topics.update(i, topic_view(self.topics@[i])));
        assert(self@ =~= BusView {
            topics: before.topics.update(i, topic_view(self.topics@[i])),
            ..before
        });
        assert forall|a: int, b: int| 0 <= a < b < self@.topics.len() implies #[trigger] self@.topics[a].name
            != #[trigger] self@.topics[b].name by {
            assert(self@.topics[a].name == before.topics[a].name);
            assert(self@.topics[b].name == before.topics[b].name);
        }
    }

    /// A step of a wait until `n` subscribers of `topic` are connected. The publisher is set
    /// up on the first call.
    pub fn wait_for_subscribers(
        &mut self,
        topic: &str,
        create: CreateIo,
        accepted: &Vec<u64>,
        accept_error: Option<IoKind>,
        n: usize,
        expired: bool,
    ) -> (s: WaitStep)
        requires
            old(self).wf(),
            fits(old(self)@.config),
        ensures
            final(self).wf(),
            match ensured(old(self)@, topic@, create) {
                Err(e) => s == WaitStep::Fail(e) && final(self)@ == old(self)@,
                Ok(topics) => {
                    let i = place_of(topics, topic@)->Some_0;
                    let t = topics[i];
                    let p = publisher::accepting(t.publisher, accepted@);
                    &&& place_of(topics, topic@) is Some
                    &&& publisher::wait_is(s, p.clients.len(), accept_error, n, expired)
                    &&& final(self)@ == (BusView {
                        topics: topics.update(i, TopicView { publisher: p, ..t }),
                        ..old(self)@
                    })
                },
            },
    {
        let i: usize = match self.ensure_publisher(topic, create) {
            Err(e) => {
                return WaitStep::Fail(e);
            },
            Ok(i) => i,
        };
        let ghost mid = self@;
        let ghost mid_topics = self.topics@;
        proof {
            lemma_place_of(mid.topics, topic@);
            assert(mid.topics[i as int] == topic_view(mid_topics[i as int]));
        }
        let t: &mut Topic = &mut self.topics[i];
        let s: WaitStep = t.publisher.wait_for_subscribers(accepted, accept_error, n, expired);
        proof {
            self.lemma_one_changed(mid, mid_topics, i as int);
        }
        s
    }

    /// Snapshot of `topic`: `None` if this process does not publish it.
    pub fn stats(&self, topic: &str, wal_stats: Option<WalStats>) -> (r: Option<TopicStats>)
        requires
            self.wf(),
        ensures
            match place_of(self@.topics, topic@) {
                None => r is None,
                Some(i) => {
                    let t = self@.topics[i];
                    &&& r matches Some(s)
                    &&& ring::stats_are(s.ring, t.ring.tail, t.ring.cursors)
                    &&& s.connected_sockets == t.publisher.clients.len()
                    &&& s.wal == wal_stats
                    &&& s.published_total == t.publisher.published
                    &&& s.full_rejected_total == t.publisher.full_rejected
                    &&& s.subscribers_dropped_total == t.publisher.dropped
                    &&& s.wakeups_sent_total == t.publisher.wakeups
                },
            },
    {
        match self.find(topic) {
            None => None,
            Some(i) => {
                assert(self@.topics[i as int] == topic_view(self.topics@[i as int]));
                let ring_stats: RingStats = self.topics[i].ring.stats();
                Some(self.topics[i].publisher.stats(ring_stats, wal_stats))
            },
        }
    }

    /// The place in the cursor table and the lag of every subscriber of `topic` that is
    /// `threshold` messages or more behind; nothing if this process does not publish it.
    pub fn slow_subscribers(&self, topic: &str, threshold: u64) -> (slow: Vec<(usize, u64)>)
        requires
            self.wf(),
        ensures
            slow@ == (match place_of(self@.topics, topic@) {
                None => Seq::<(usize, u64)>::empty(),
                Some(i) => ring::lags_at(
                    self@.topics[i].ring.tail,
                    self@.topics[i].ring.cursors,
                ).filter(|p: (usize, u64)| p.1 >= threshold),
            }),
    {
        match self.find(topic) {
            None => Vec::new(),
            Some(i) => {
                assert(self@.topics[i as int] == topic_view(self.topics@[i as int]));
                self.topics[i].publisher.slow_subscribers(&self.topics[i].ring, threshold)
            },
        }
    }

    fn plan(&self, topic: &str, timeout: u128, start: StartPos) -> (p: SubscribePlan)
        ensures
            is_plan(p, self@, topic@, timeout, start),
    {
        let dir: String = self.topic_dir(topic);
        SubscribePlan {
            topic: topic.to_owned(),
            ring_path: ring_path(dir.as_str()),
            sock_path: sock_path(dir.as_str()),
            timeout,
            start,
        }
    }

    /// Subscribes to what is published from now on.
    pub fn subscribe(&self, topic: &str) -> (p: SubscribePlan)
        ensures
            is_plan(p, self@, topic@, DEFAULT_TIMEOUT, StartPos::Now),
    {
        self.plan(topic, DEFAULT_TIMEOUT, StartPos::Now)
    }

    /// Subscribes to what is published from now on, waiting at most `timeout` nanoseconds.
    pub fn subscribe_timeout(&self, topic: &str, timeout: u128) -> (p: SubscribePlan)
        ensures
            is_plan(p, self@, topic@, timeout, StartPos::Now),
    {
        self.plan(topic, timeout, StartPos::Now)
    }

    /// Subscribes from `n_messages_back` messages behind the tail on.
    pub fn subscribe_with_history(&self, topic: &str, n_messages_back: u64) -> (p: SubscribePlan)
        ensures
            is_plan(
                p,
                self@,
                topic@,
                DEFAULT_TIMEOUT,
                StartPos::HistoryBack(n_messages_back),
            ),
    {
        self.plan(topic, DEFAULT_TIMEOUT, StartPos::HistoryBack(n_messages_back))
    }

    /// Subscribes from `n_messages_back` messages behind the tail on, waiting at most
    /// `timeout` nanoseconds.
    pub fn subscribe_with_history_timeout(
        &self,
        topic: &str,
        n_messages_back: u64,
        timeout: u128,
    ) -> (p: SubscribePlan)
        ensures
            is_plan(p, self@, topic@, timeout, StartPos::HistoryBack(n_messages_back)),
    {
        self.plan(topic, timeout, StartPos::HistoryBack(n_messages_back))
    }

    /// Subscribes from `cursor` on.
    pub fn subscribe_from(&self, topic: &str, cursor: u64) -> (p: SubscribePlan)
        ensures
            is_plan(p, self@, topic@, DEFAULT_TIMEOUT, StartPos::Explicit(cursor)),
    {
        self.plan(topic, DEFAULT_TIMEOUT, StartPos::Explicit(cursor))
    }

    /// Subscribes from `cursor` on, waiting at most `timeout` nanoseconds.
    pub fn subscribe_from_timeout(&self, topic: &str, cursor: u64, timeout: u128) -> (p:
        SubscribePlan)
        ensures
            is_plan(p, self@, topic@, timeout, StartPos::Explicit(cursor)),
    {
        self.plan(topic, timeout, StartPos::Explicit(cursor))
    }

    /// Removes what is on disk of `topic`. Refuses if anybody publishes it: this bus, another
    /// publisher of this process, or another process. The lock of the topic is held while
    /// the directory goes, and let go after that.
    pub fn clean_topic(&mut self, topic: &str, locks: &mut LockTable, io: CleanIo) -> (r: Result<
        (),
        Error,
    >)
        requires
            old(self).wf(),
            old(locks).wf(),
        ensures
            final(self).wf(),
            final(locks).wf(),
            final(self)@ == old(self)@,
            forall|p: Seq<char>| #[trigger]
                producer_lock::held(final(locks)@, p) <==> producer_lock::held(old(locks)@, p),
            if place_of(old(self)@.topics, topic@) is Some {
                &&& r matches Err(Error::AlreadyPublishing(who))
                &&& who@ == topic@
                &&& final(locks)@ == old(locks)@
            } else {
                let path = text::joined(dir_of(old(self)@, topic@), "producer.lock"@);
                cleaned(r, topic@, producer_lock::held(old(locks)@, path), io)
            },
    {
        if self.has_publisher(topic) {
            return Err(Error::AlreadyPublishing(topic.to_owned()));
        }
        let dir: String = self.topic_dir(topic);
        let path: String = lock_path(dir.as_str());
        if !io.exists {
            return Ok(());
        }
        match acquire_producer_lock(locks, topic, &path, io.opened, io.locked) {
            Err(e) => {
                return Err(e);
            },
            Ok(_) => {},
        }
        locks.release(&path);
        match io.removed {
            Err(kind) => Err(Error::Io(kind)),
            Ok(_) => Ok(()),
        }
    }
}

/// The rings of this configuration fit into memory.
pub open spec fn fits(cfg: BusConfig) -> bool {
    &&& ring::ring_size(cfg.capacity, cfg.slot_size, cfg.max_subscribers) <= usize::MAX
    &&& ring::slots_start(cfg.max_subscribers) + 63 <= usize::MAX
    &&& ring::SLOT_OVERHEAD + cfg.slot_size + 7 <= usize::MAX
}

/// The directory plays no part in setting a publisher up.
proof fn lemma_same_creation(a: BusConfig, b: BusConfig, io: CreateIo)
    requires
        a.slot_size == b.slot_size,
        a.capacity == b.capacity,
        a.max_subscribers == b.max_subscribers,
        a.backpressure == b.backpressure,
        a.wal == b.wal,
    ensures
        publisher::created(a, io) == publisher::created(b, io),
{
}

// ── What each operation gives ────────────────────────────────────────────────

/// A topic is set up by its first publish and kept from then on: one that is there is left as
/// it is, and a new one stands behind the others. Where it cannot be set up nothing changes.
pub proof fn law_topic_is_set_up_once(v: BusView, name: Seq<char>, io: CreateIo)
    ensures
        ({
            let r = ensured(v, name, io);
            let there = exists|i: int| 0 <= i < v.topics.len() && #[trigger] v.topics[i].name == name;
            let made = publisher::created(v.config, io);
            &&& there ==> r == Ok::<Seq<TopicView>, Error>(v.topics)
            &&& !there && made is Err ==> r == Err::<Seq<TopicView>, Error>(made->Err_0)
            &&& !there && made is Ok ==> r == Ok::<Seq<TopicView>, Error>(
                v.topics.push(
                    TopicView { name, publisher: made->Ok_0.0, ring: made->Ok_0.1 },
                ),
            )
        }),
{
    lemma_place_of(v.topics, name);
}

/// Publishing to a topic is a publish on its publisher and its ring, and on no other. The name
/// and the settings of the bus stay.
pub proof fn law_publish_goes_to_its_topic(
    v: BusView,
    topic: Seq<char>,
    data: Seq<u8>,
    create: CreateIo,
    io: PublishIo,
    i: int,
)
    requires
        distinct(v.topics),
        ensured(v, topic, create) is Ok,
        0 <= i < ensured(v, topic, create)->Ok_0.len(),
    ensures
        ({
            let r = publishing_to(v, topic, data, create, io);
            let was = ensured(v, topic, create)->Ok_0[i];
            let p = publisher::publishing(was.publisher, was.ring, data, io);
            &&& r.0.name == v.name
            &&& r.0.config == v.config
            &&& r.0.topics.len() == ensured(v, topic, create)->Ok_0.len()
            &&& was.name == topic ==> r.1 == p.2 && r.0.topics[i] == (TopicView {
                name: topic,
                publisher: p.0,
                ring: p.1,
            })
            &&& was.name != topic ==> r.0.topics[i] == was
        }),
{
    let topics = ensured(v, topic, create)->Ok_0;
    lemma_place_of(v.topics, topic);
    lemma_place_of(topics, topic);
    if place_of(v.topics, topic) is None {
        assert(topics.last().name == topic);
    }
    let at = place_of(topics, topic)->Some_0;
    if topics[i].name == topic && at != i {
        assert(at < i);
        assert(v.topics[at].name != topics[i].name || i == v.topics.len());
    }
}

/// Where a topic cannot be set up, the publish fails with that and the bus stays.
pub proof fn law_publish_needs_its_topic(
    v: BusView,
    topic: Seq<char>,
    data: Seq<u8>,
    create: CreateIo,
    io: PublishIo,
)
    requires
        ensured(v, topic, create) is Err,
    ensures
        publishing_to(v, topic, data, create, io) == (
            v,
            Err::<(), Error>(ensured(v, topic, create)->Err_0),
        ),
{
}

/// A topic is set up with the settings of its bus, in a directory of its own below that of the
/// bus. A subscriber looks for its ring and its socket there, and carries on what it was asked.
pub proof fn law_topic_lives_in_its_directory(
    v: BusView,
    c: BusConfig,
    p: SubscribePlan,
    topic: Seq<char>,
    timeout: u128,
    start: StartPos,
)
    requires
        is_topic_config(c, v),
        is_plan(p, v, topic, timeout, start),
    ensures
        ({
            let bus = text::joined(v.config.base_dir@, v.name);
            let dir = text::joined(bus, topic);
            &&& dir_of(v, topic) == dir
            &&& c.base_dir@ == bus
            &&& c.capacity == v.config.capacity
            &&& c.slot_size == v.config.slot_size
            &&& c.max_subscribers == v.config.max_subscribers
            &&& c.backpressure == v.config.backpressure
            &&& c.wal == v.config.wal
            &&& p.ring_path@ == text::joined(dir, "ring.mmap"@)
            &&& p.sock_path@ == text::joined(dir, "signal.sock"@)
            &&& p.topic@ == topic
            &&& p.timeout == timeout
            &&& p.start == start
        }),
{
}

/// A topic is cleaned up exactly when it is not there, or nobody publishes it and its directory
/// could be removed. Whoever publishes it, here or elsewhere, keeps it.
pub proof fn law_cleaning_spares_the_published(
    r: Result<(), Error>,
    topic: Seq<char>,
    busy: bool,
    io: CleanIo,
)
    requires
        cleaned(r, topic, busy, io),
    ensures
        r is Ok <==> !io.exists || (!busy && io.opened is Ok && io.locked && io.removed is Ok),
        io.exists && (busy || (io.opened is Ok && !io.locked)) ==> r is Err
            && r->Err_0 is AlreadyPublishing && r->Err_0->AlreadyPublishing_0@ == topic,
        io.exists && !busy && io.opened is Err ==> r == Err::<(), Error>(
            Error::Io(io.opened->Err_0),
        ),
        io.exists && !busy && io.opened is Ok && io.locked && io.removed is Err ==> r == Err::<
            (),
            Error,
        >(Error::Io(io.removed->Err_0)),
{
}

/// A subscriber waits thirty seconds for its topic, unless it says otherwise.
pub proof fn law_default_wait_is_thirty_seconds()
    ensures
        DEFAULT_TIMEOUT == 30 * 1_000_000_000,
{
}

} // verus!

//! The producer: what it is configured with, and what it does at each event of a
//! logical replication stream.

use crate::event::Change;
use crate::layout::law_frame_only_appends;
use crate::redis_producer::{RedisStreamProducer, Routing, StreamEntry};
use crate::settings::{number_or, number_setting, text_or, text_setting, variables_of};
use crate::text::{digit_value, hex_text, lemma_radix_text_reads_back, unsigned_value};
use crate::wal::{frame_run, PgoutputParser, Replica};
use crate::wire::FrameError;
use vstd::prelude::*;
use vstd::string::*;

verus! {

/// What a producer is configured with.
pub struct ProducerConfig {
    pub pg_host: String,
    pub pg_port: u16,
    pub pg_user: String,
    pub pg_password: String,
    pub pg_database: String,
    pub pg_slot: String,
    pub pg_publication: String,
    pub start_lsn: String,
    pub redis_url: String,
    pub redis_stream_prefix: String,
    pub partitions: usize,
    pub producer_name: String,
}

impl ProducerConfig {
    /// Build configuration from environment variables, falling back to defaults.
    pub fn from_env(vars: &Vec<(String, String)>) -> (cfg: Self)
        ensures
            ({
                let all = variables_of(vars@);
                &&& cfg.pg_host@ == text_or(all, "PGHOST"@, "127.0.0.1"@)
                &&& cfg.pg_port == number_or(all, "PGPORT"@, 5432, u16::MAX as nat)
                &&& cfg.pg_user@ == text_or(all, "PGUSER"@, "postgres"@)
                &&& cfg.pg_password@ == text_or(all, "PGPASSWORD"@, "password"@)
                &&& cfg.pg_database@ == text_or(all, "PGDATABASE"@, "cdc_db"@)
                &&& cfg.pg_slot@ == text_or(all, "PGSLOT"@, "my_slot"@)
                &&& cfg.pg_publication@ == text_or(all, "PGPUBLICATION"@, "users_pub"@)
                &&& cfg.start_lsn@ == text_or(all, "START_LSN"@, "0/0"@)
                &&& cfg.redis_url@ == text_or(all, "REDIS_URL"@, "redis://127.0.0.1:6379"@)
                &&& cfg.redis_stream_prefix@ == text_or(all, "REDIS_STREAM_PREFIX"@, "events:"@)
                &&& cfg.partitions == number_or(all, "PARTITIONS"@, 16, usize::MAX as nat)
                &&& cfg.producer_name@ == text_or(all, "PRODUCER_NAME"@, "cdc-producer-1"@)
            }),
    {
        ProducerConfig {
            pg_host: text_setting(vars, "PGHOST", "127.0.0.1"),
            pg_port: number_setting(vars, "PGPORT", 5432, u16::MAX as u64) as u16,
            pg_user: text_setting(vars, "PGUSER", "postgres"),
            pg_password: text_setting(vars, "PGPASSWORD", "password"),
            pg_database: text_setting(vars, "PGDATABASE", "cdc_db"),
            pg_slot: text_setting(vars, "PGSLOT", "my_slot"),
            pg_publication: text_setting(vars, "PGPUBLICATION", "users_pub"),
            start_lsn: text_setting(vars, "START_LSN", "0/0"),
            redis_url: text_setting(vars, "REDIS_URL", "redis://127.0.0.1:6379"),
            redis_stream_prefix: text_setting(vars, "REDIS_STREAM_PREFIX", "events:"),
            partitions: number_setting(vars, "PARTITIONS", 16, usize::MAX as u64) as usize,
            producer_name: text_setting(vars, "PRODUCER_NAME", "cdc-producer-1"),
        }
    }
}

/// What stands before and behind the first `separator` of a text.
pub open spec fn split_once(text: Seq<char>, separator: char) -> Option<(Seq<char>, Seq<char>)>
    decreases text.len(),
{
    if text.len() == 0 {
        None
    } else if text[0] == separator {
        Some((Seq::empty(), text.skip(1)))
    } else {
        match split_once(text.skip(1), separator) {
            Some((before, behind)) => Some((seq![text[0]] + before, behind)),
            None => None,
        }
    }
}

/// A position in the log as one number: `high` above 32 bits of `low`.
pub open spec fn lsn_number(high: u64, low: u64) -> u64 {
    (high << 32) | low
}

/// The position that a text `high/low` in hexadecimal stands for.
pub open spec fn lsn_value(text: Seq<char>) -> Option<u64> {
    match split_once(text, '/') {
        Some((high, low)) => match (
            unsigned_value(high, 16, u64::MAX as nat),
            unsigned_value(low, 16, u64::MAX as nat),
        ) {
            (Some(h), Some(l)) => Some(lsn_number(h as u64, l as u64)),
            _ => None,
        },
        None => None,
    }
}

/// `pgwire_replication::Lsn::parse`: two hexadecimal numbers of 64 bits around the
/// first slash, the first shifted up by 32 bits and joined to the second; an error
/// where the text is anything else.
#[verifier::external_body]
fn lsn_parse(text: &str) -> (lsn: Option<u64>)
    ensures
        lsn == lsn_value(text@),
{
    pgwire_replication::Lsn::parse(text).ok().map(u64::from)
}

impl ProducerConfig {
    /// The position in the log to start from; `None` where the setting is none.
    pub fn start_position(&self) -> (lsn: Option<u64>)
        ensures
            lsn == lsn_value(self.start_lsn@),
    {
        lsn_parse(self.start_lsn.as_str())
    }
}

/// An event of a replication stream, or the outcome of publishing.
pub ghost enum Event {
    Begin { xid: u32, final_lsn: u64 },
    Frame { data: Seq<u8> },
    Commit { lsn: u64 },
    KeepAlive,
    Message,
    StoppedAt,
    Ended,
    Failed,
    Published,
    PublishFailed,
}

/// An event of a replication stream, or the outcome of publishing.
#[derive(Debug)]
pub enum Input {
    /// A transaction begins.
    Begin { xid: u32, final_lsn: u64 },
    /// A frame of row-level messages.
    Frame { data: Vec<u8> },
    /// A transaction is committed.
    Commit { lsn: u64 },
    KeepAlive,
    Message,
    /// The stream reached the position to stop at.
    StoppedAt,
    /// The stream ended cleanly.
    Ended,
    /// The stream broke.
    Failed,
    /// All entries of the last transaction were appended.
    Published,
    /// An entry of the last transaction could not be appended.
    PublishFailed,
}

impl View for Input {
    type V = Event;

    open spec fn view(&self) -> Event {
        match self {
            Input::Begin { xid, final_lsn } => Event::Begin { xid: *xid, final_lsn: *final_lsn },
            Input::Frame { data } => Event::Frame { data: data@ },
            Input::Commit { lsn } => Event::Commit { lsn: *lsn },
            Input::KeepAlive => Event::KeepAlive,
            Input::Message => Event::Message,
            Input::StoppedAt => Event::StoppedAt,
            Input::Ended => Event::Ended,
            Input::Failed => Event::Failed,
            Input::Published => Event::Published,
            Input::PublishFailed => Event::PublishFailed,
        }
    }
}

/// What an event asks for.
pub ghost enum Act {
    Receive,
    Publish { commit_lsn: u64, changes: Seq<Change> },
    Acknowledge { lsn: u64 },
    Finish,
    Fail,
    Broken(FrameError),
    OutOfVersions,
}

/// What to do next.
#[derive(Debug)]
pub enum Action {
    /// Wait for the next event of the stream.
    Receive,
    /// Append the entries in order, and tell how that went.
    Publish(Vec<StreamEntry>),
    /// Tell the server that everything up to this position is kept, and go on.
    Acknowledge { lsn: u64 },
    /// Stop; the stream is done.
    Finish,
    /// Stop with an error.
    Fail,
    /// Stop; a frame cannot be read.
    Broken(FrameError),
    /// Stop; the versions of a transaction do not fit in 64 bits.
    OutOfVersions,
}

impl Action {
    /// Whether the action carries out what was asked for.
    pub open spec fn carries_out(self, routing: Routing, act: Act) -> bool {
        match (self, act) {
            (Action::Receive, Act::Receive) => true,
            (Action::Publish(entries), Act::Publish { commit_lsn, changes }) => routing.publishes(
                commit_lsn,
                changes,
                entries@,
            ),
            (Action::Acknowledge { lsn }, Act::Acknowledge { lsn: asked }) => lsn == asked,
            (Action::Finish, Act::Finish) => true,
            (Action::Fail, Act::Fail) => true,
            (Action::Broken(e), Act::Broken(asked)) => e == asked,
            (Action::OutOfVersions, Act::OutOfVersions) => true,
            _ => false,
        }
    }
}

/// Where a producer stands: what the stream told, and the position of the
/// transaction that is being published.
#[verifier::ext_equal]
pub ghost struct Feed {
    pub replica: Replica,
    pub publishing: Option<u64>,
}

/// What an event changes, and what it asks for.
pub open spec fn feed_step(feed: Feed, event: Event) -> (Feed, Act) {
    let idle = Feed { publishing: None, ..feed };
    let settled = Replica { changes: Seq::empty(), ..feed.replica };
    match event {
        Event::Begin { .. } => (Feed { replica: settled, ..idle }, Act::Receive),
        Event::Frame { data } => {
            let (replica, failure) = frame_run(feed.replica, data);
            let act = match failure {
                Some(e) => Act::Broken(e),
                None => Act::Receive,
            };
            (Feed { replica, ..idle }, act)
        },
        Event::Commit { lsn } => {
            let changes = feed.replica.changes;
            if lsn + changes.len() <= u64::MAX + 1 {
                (
                    Feed { replica: settled, publishing: Some(lsn) },
                    Act::Publish { commit_lsn: lsn, changes },
                )
            } else {
                (Feed { replica: settled, ..idle }, Act::OutOfVersions)
            }
        },
        Event::KeepAlive => (idle, Act::Receive),
        Event::Message => (idle, Act::Receive),
        Event::StoppedAt => (idle, Act::Finish),
        Event::Ended => (idle, Act::Finish),
        Event::Failed => (idle, Act::Fail),
        Event::Published => match feed.publishing {
            Some(lsn) => (idle, Act::Acknowledge { lsn }),
            None => (idle, Act::Receive),
        },
        Event::PublishFailed => (idle, Act::Fail),
    }
}

/// The events of a stream, one after the other: where they lead, and what each
/// asked for.
pub open spec fn feed_run(feed: Feed, events: Seq<Event>) -> (Feed, Seq<Act>)
    decreases events.len(),
{
    if events.len() == 0 {
        (feed, Seq::empty())
    } else {
        let (before, acts) = feed_run(feed, events.drop_last());
        let (next, act) = feed_step(before, events.last());
        (next, acts.push(act))
    }
}

/// Follows a replication stream and publishes its transactions.
pub struct Producer {
    parser: PgoutputParser,
    streams: RedisStreamProducer,
    publishing: Option<u64>,
}

impl View for Producer {
    type V = Feed;

    closed spec fn view(&self) -> Feed {
        Feed { replica: self.parser@, publishing: self.publishing }
    }
}

impl Producer {
    /// How the producer publishes.
    pub closed spec fn routing(self) -> Routing {
        self.streams@
    }

    /// A producer at the start of a stream.
    pub fn new(streams: RedisStreamProducer) -> (producer: Producer)
        ensures
            producer@ == (Feed {
                replica: Replica { relations: Map::empty(), changes: Seq::empty() },
                publishing: None,
            }),
            producer.routing() == streams@,
    {
        Producer { parser: PgoutputParser::new(), streams, publishing: None }
    }

    /// Takes in one event and tells what to do next. A position is acknowledged
    /// only after the entries of its transaction were appended.
    pub fn step(&mut self, input: Input) -> (action: Action)
        ensures
            final(self)@ == feed_step(old(self)@, input@).0,
            final(self).routing() == old(self).routing(),
            action.carries_out(old(self).routing(), feed_step(old(self)@, input@).1),
    {
        let publishing = self.publishing;
        self.publishing = None;
        match input {
            Input::Begin { xid, final_lsn } => {
                self.parser.begin(xid, final_lsn);
                Action::Receive
            },
            Input::Frame { data } => match self.parser.try_parse_frame(data.as_slice()) {
                Ok(()) => Action::Receive,
                Err(e) => Action::Broken(e),
            },
            Input::Commit { lsn } => {
                let txn = self.parser.commit(lsn);
                let n = txn.events.len() as u64;
                if n > 0 && lsn > u64::MAX - (n - 1) {
                    return Action::OutOfVersions;
                }
                let entries = self.streams.publish(&txn);
                self.publishing = Some(lsn);
                Action::Publish(entries)
            },
            Input::KeepAlive => Action::Receive,
            Input::Message => Action::Receive,
            Input::StoppedAt => Action::Finish,
            Input::Ended => Action::Finish,
            Input::Failed => Action::Fail,
            Input::Published => match publishing {
                Some(lsn) => Action::Acknowledge { lsn },
                None => Action::Receive,
            },
            Input::PublishFailed => Action::Fail,
        }
    }
}

proof fn lemma_split_at_separator(before: Seq<char>, separator: char, behind: Seq<char>)
    requires
        !before.contains(separator),
    ensures
        split_once(before.push(separator) + behind, separator) == Some((before, behind)),
    decreases before.len(),
{
    let text = before.push(separator) + behind;
    if before.len() == 0 {
        assert(text.skip(1) =~= behind);
        assert(before =~= Seq::<char>::empty());
    } else {
        assert(before[0] != separator) by {
            assert(before.contains(before[0]));
        }
        let tail = before.skip(1);
        assert(!tail.contains(separator)) by {
            if tail.contains(separator) {
                let i = choose|i: int| 0 <= i < tail.len() && tail[i] == separator;
                assert(before[i + 1] == separator);
            }
        }
        lemma_split_at_separator(tail, separator, behind);
        assert(text.skip(1) =~= tail.push(separator) + behind);
        assert(seq![text[0]] + tail =~= before);
    }
}

proof fn lemma_hex_reads_back(n: nat)
    requires
        n <= u64::MAX,
    ensures
        unsigned_value(hex_text(n), 16, u64::MAX as nat) == Some(n),
        !hex_text(n).contains('/'),
{
    lemma_radix_text_reads_back(n, 16);
    let text = hex_text(n);
    if text.contains('/') {
        let i = choose|i: int| 0 <= i < text.len() && text[i] == '/';
        assert(digit_value(text[i], 16) is Some);
    }
}

/// A position written as PostgreSQL writes it, two hexadecimal halves around a
/// slash, is read as the number that has the first half in its upper 32 bits and
/// the second in its lower ones.
pub proof fn law_position_is_read(high: u32, low: u32)
    ensures
        lsn_value(hex_text(high as nat).push('/') + hex_text(low as nat)) == Some(
            lsn_number(high as u64, low as u64),
        ),
        lsn_number(high as u64, low as u64) == high * 0x1_0000_0000 + low,
{
    lemma_hex_reads_back(high as nat);
    lemma_hex_reads_back(low as nat);
    lemma_split_at_separator(hex_text(high as nat), '/', hex_text(low as nat));
    lemma_lsn_number_is_a_sum(high, low);
}

proof fn lemma_lsn_number_is_a_sum(high: u32, low: u32)
    ensures
        lsn_number(high as u64, low as u64) == high * 0x1_0000_0000 + low,
{
    let h = high as u64;
    let l = low as u64;
    assert((h << 32) | l == h * 0x1_0000_0000 + l) by (bit_vector)
        requires
            h <= 0xffff_ffff,
            l <= 0xffff_ffff,
    ;
}

/// Later positions have greater numbers.
pub proof fn law_positions_keep_their_order(high: u32, low: u32, other_high: u32, other_low: u32)
    ensures
        lsn_number(high as u64, low as u64) < lsn_number(other_high as u64, other_low as u64)
            <==> high < other_high || (high == other_high && low < other_low),
{
    lemma_lsn_number_is_a_sum(high, low);
    lemma_lsn_number_is_a_sum(other_high, other_low);
}

proof fn lemma_run_of_prefix(feed: Feed, events: Seq<Event>, k: int)
    requires
        0 <= k < events.len(),
    ensures
        feed_run(feed, events).1.len() == events.len(),
        feed_run(feed, events).1[k] == feed_step(feed_run(feed, events.take(k)).0, events[k]).1,
        feed_run(feed, events.take(k + 1)).0 == feed_step(
            feed_run(feed, events.take(k)).0,
            events[k],
        ).0,
    decreases events.len(),
{
    let head = events.drop_last();
    let longer = events.take(k + 1);
    assert(longer.drop_last() =~= events.take(k));
    if k == events.len() - 1 {
        assert(head =~= events.take(k));
        assert(longer =~= events);
        if k > 0 {
            lemma_run_of_prefix(feed, head, k - 1);
        } else {
            assert(feed_run(feed, head).1.len() == 0);
        }
    } else {
        lemma_run_of_prefix(feed, head, k);
        assert(head.take(k) =~= events.take(k));
    }
}

/// A position is acknowledged only after the transaction that was committed there
/// has been published: the events before the acknowledgement are its commit, which
/// asked for its changes to be published, and the news that they were.
pub proof fn law_acknowledged_only_after_publish(feed: Feed, events: Seq<Event>, k: int, lsn: u64)
    requires
        feed.publishing is None,
        0 <= k < events.len(),
        feed_run(feed, events).1[k] == (Act::Acknowledge { lsn }),
    ensures
        k > 0,
        events[k] == Event::Published,
        events[k - 1] == (Event::Commit { lsn }),
        feed_run(feed, events).1[k - 1] == (Act::Publish {
            commit_lsn: lsn,
            changes: feed_run(feed, events.take(k - 1)).0.replica.changes,
        }),
{
    lemma_run_of_prefix(feed, events, k);
    if k == 0 {
        assert(events.take(0) =~= Seq::<Event>::empty());
    } else {
        lemma_run_of_prefix(feed, events, k - 1);
    }
}

/// A published transaction is acknowledged at its commit position, and one that
/// could not be published ends the run without an acknowledgement.
pub proof fn law_publish_decides(feed: Feed, events: Seq<Event>, k: int, lsn: u64)
    requires
        0 <= k < events.len() - 1,
        events[k] == (Event::Commit { lsn }),
        feed_run(feed, events).1[k] is Publish,
    ensures
        events[k + 1] == Event::Published ==> feed_run(feed, events).1[k + 1]
            == (Act::Acknowledge { lsn }),
        events[k + 1] == Event::PublishFailed ==> feed_run(feed, events).1[k + 1] == Act::Fail,
{
    lemma_run_of_prefix(feed, events, k);
    lemma_run_of_prefix(feed, events, k + 1);
}

/// What frames tell, one after the other.
pub open spec fn frames_run(replica: Replica, frames: Seq<Seq<u8>>) -> Replica
    decreases frames.len(),
{
    if frames.len() == 0 {
        replica
    } else {
        frame_run(frames_run(replica, frames.drop_last()), frames.last()).0
    }
}

/// The events of a transaction up to its commit.
pub open spec fn transaction_events(xid: u32, final_lsn: u64, frames: Seq<Seq<u8>>) -> Seq<Event> {
    seq![Event::Begin { xid, final_lsn }] + frames.map_values(
        |data: Seq<u8>| Event::Frame { data },
    )
}

proof fn lemma_frames_are_taken_in(feed: Feed, xid: u32, final_lsn: u64, frames: Seq<Seq<u8>>)
    ensures
        feed_run(feed, transaction_events(xid, final_lsn, frames)).0 == (Feed {
            replica: frames_run(Replica { changes: Seq::empty(), ..feed.replica }, frames),
            publishing: None,
        }),
    decreases frames.len(),
{
    let events = transaction_events(xid, final_lsn, frames);
    if frames.len() == 0 {
        assert(events.drop_last() =~= Seq::<Event>::empty());
        assert(events.last() == (Event::Begin { xid, final_lsn }));
        assert(feed_run(feed, events.drop_last()).0 == feed);
    } else {
        lemma_frames_are_taken_in(feed, xid, final_lsn, frames.drop_last());
        assert(events.drop_last() =~= transaction_events(xid, final_lsn, frames.drop_last()));
        assert(events.last() == (Event::Frame { data: frames.last() }));
    }
}

/// A transaction is published whole and alone: its commit asks for exactly the
/// changes that its frames told, whatever came before it.
pub proof fn law_transaction_is_published(
    feed: Feed,
    xid: u32,
    final_lsn: u64,
    frames: Seq<Seq<u8>>,
    lsn: u64,
)
    requires
        lsn + frames_run(Replica { changes: Seq::empty(), ..feed.replica }, frames).changes.len()
            <= u64::MAX + 1,
    ensures
        feed_run(
            feed,
            transaction_events(xid, final_lsn, frames).push(Event::Commit { lsn }),
        ).1.last() == (Act::Publish {
            commit_lsn: lsn,
            changes: frames_run(
                Replica { changes: Seq::empty(), ..feed.replica },
                frames,
            ).changes,
        }),
{
    let events = transaction_events(xid, final_lsn, frames).push(Event::Commit { lsn });
    lemma_frames_are_taken_in(feed, xid, final_lsn, frames);
    assert(events.drop_last() =~= transaction_events(xid, final_lsn, frames));
}

/// The frames among events, in order.
pub open spec fn frames_in(events: Seq<Event>) -> Seq<Seq<u8>>
    decreases events.len(),
{
    if events.len() == 0 {
        Seq::empty()
    } else {
        match events.last() {
            Event::Frame { data } => frames_in(events.drop_last()).push(data),
            _ => frames_in(events.drop_last()),
        }
    }
}

/// A relation stays known: no event but a frame changes what is known of the
/// relations, and no event but a begin, a frame or a commit changes what stands in
/// the open transaction.
pub proof fn law_relations_stay_known(feed: Feed, event: Event)
    ensures
        event !is Frame ==> feed_step(feed, event).0.replica.relations == feed.replica.relations,
        event !is Frame && event !is Begin && event !is Commit ==> feed_step(
            feed,
            event,
        ).0.replica.changes == feed.replica.changes,
        event matches Event::Frame { data } ==> feed_step(feed, event).0.replica == frame_run(
            feed.replica,
            data,
        ).0,
        event is Begin || event is Commit ==> feed_step(feed, event).0.replica.changes.len() == 0,
{
}

/// What each event asks for: frames, begins, keep-alives and messages ask for the
/// next event, unless a frame cannot be read; a commit asks for everything that
/// stands in the open transaction to be published at its position, whenever the
/// versions fit; a stream that ends or stops finishes the run, and one that breaks
/// fails it.
pub proof fn law_events_ask_for_one_thing(feed: Feed, event: Event)
    ensures
        event is Begin || event is KeepAlive || event is Message ==> feed_step(feed, event).1
            == Act::Receive,
        event matches Event::Frame { data } ==> (frame_run(feed.replica, data).1 matches Some(e)
            ==> feed_step(feed, event).1 == Act::Broken(e)),
        event matches Event::Frame { data } ==> (frame_run(feed.replica, data).1 is None
            ==> feed_step(feed, event).1 == Act::Receive),
        event matches Event::Commit { lsn } ==> (lsn + feed.replica.changes.len() - 1 <= u64::MAX
            ==> feed_step(feed, event).1 == (Act::Publish {
            commit_lsn: lsn,
            changes: feed.replica.changes,
        })),
        event matches Event::Commit { lsn } ==> (lsn + feed.replica.changes.len() - 1 > u64::MAX
            ==> feed_step(feed, event).1 == Act::OutOfVersions),
        event is StoppedAt || event is Ended ==> feed_step(feed, event).1 == Act::Finish,
        event is Failed || event is PublishFailed ==> feed_step(feed, event).1 == Act::Fail,
{
}

/// Frames tell relations regardless of the changes before them.
proof fn lemma_frames_tell_relations(first: Replica, second: Replica, frames: Seq<Seq<u8>>)
    requires
        first.relations == second.relations,
    ensures
        frames_run(first, frames).relations == frames_run(second, frames).relations,
    decreases frames.len(),
{
    if frames.len() > 0 {
        lemma_frames_tell_relations(first, second, frames.drop_last());
        law_frame_only_appends(frames_run(first, frames.drop_last()), frames.last());
        law_frame_only_appends(frames_run(second, frames.drop_last()), frames.last());
    }
}

/// The relations that are known after any events are those that the frames among
/// them told: commits, acknowledgements and everything else forget none.
pub proof fn law_relations_come_from_every_frame(feed: Feed, events: Seq<Event>)
    ensures
        feed_run(feed, events).0.replica.relations == frames_run(
            feed.replica,
            frames_in(events),
        ).relations,
    decreases events.len(),
{
    if events.len() > 0 {
        let head = events.drop_last();
        let before = feed_run(feed, head).0;
        law_relations_come_from_every_frame(feed, head);
        law_relations_stay_known(before, events.last());
        if let Event::Frame { data } = events.last() {
            let told = frames_run(feed.replica, frames_in(head));
            law_frame_only_appends(before.replica, data);
            law_frame_only_appends(told, data);
            let frames = frames_in(events);
            assert(frames.drop_last() =~= frames_in(head));
            assert(frames.last() == data);
        }
    }
}

/// Events that neither begin nor commit gather what their frames tell.
proof fn lemma_events_gather_frames(feed: Feed, events: Seq<Event>)
    requires
        forall|k: int|
            0 <= k < events.len() ==> (#[trigger] events[k]) !is Begin && events[k] !is Commit,
    ensures
        feed_run(feed, events).0.replica == frames_run(feed.replica, frames_in(events)),
    decreases events.len(),
{
    if events.len() > 0 {
        let head = events.drop_last();
        assert forall|k: int| 0 <= k < head.len() implies (#[trigger] head[k]) !is Begin
            && head[k] !is Commit by {
            assert(head[k] == events[k]);
        }
        assert(events[events.len() - 1] == events.last());
        let before = feed_run(feed, head).0;
        lemma_events_gather_frames(feed, head);
        law_relations_stay_known(before, events.last());
        if let Event::Frame { data } = events.last() {
            let frames = frames_in(events);
            assert(frames.drop_last() =~= frames_in(head));
            assert(frames.last() == data);
        } else {
            let after = feed_run(feed, events).0.replica;
            assert(after.relations == before.replica.relations);
            assert(after.changes == before.replica.changes);
            assert(after =~= before.replica);
        }
    }
}

proof fn lemma_run_goes_on(feed: Feed, first: Seq<Event>, second: Seq<Event>)
    ensures
        feed_run(feed, first + second).0 == feed_run(feed_run(feed, first).0, second).0,
    decreases second.len(),
{
    if second.len() == 0 {
        assert(first + second =~= first);
    } else {
        lemma_run_goes_on(feed, first, second.drop_last());
        assert((first + second).drop_last() =~= first + second.drop_last());
        assert((first + second).last() == second.last());
    }
}

/// A transaction is published whole, alone, and with every relation that was ever
/// announced: whatever events came before its begin, and whatever keep-alives,
/// messages and other news stand among its frames, its commit asks for exactly what
/// its frames tell to one who knows the relations of all earlier frames.
pub proof fn law_later_transaction_knows_earlier_relations(
    feed: Feed,
    earlier: Seq<Event>,
    xid: u32,
    final_lsn: u64,
    body: Seq<Event>,
    lsn: u64,
)
    requires
        forall|k: int|
            0 <= k < body.len() ==> (#[trigger] body[k]) !is Begin && body[k] !is Commit,
        lsn + frames_run(
            Replica {
                relations: frames_run(feed.replica, frames_in(earlier)).relations,
                changes: Seq::empty(),
            },
            frames_in(body),
        ).changes.len() <= u64::MAX + 1,
    ensures
        feed_step(
            feed_run(feed, earlier.push(Event::Begin { xid, final_lsn }) + body).0,
            Event::Commit { lsn },
        ).1 == (Act::Publish {
            commit_lsn: lsn,
            changes: frames_run(
                Replica {
                    relations: frames_run(feed.replica, frames_in(earlier)).relations,
                    changes: Seq::empty(),
                },
                frames_in(body),
            ).changes,
        }),
{
    let opened = earlier.push(Event::Begin { xid, final_lsn });
    let before = feed_run(feed, earlier).0;
    let start = feed_run(feed, opened).0;
    assert(opened.drop_last() =~= earlier);
    assert(opened.last() == (Event::Begin { xid, final_lsn }));
    law_relations_come_from_every_frame(feed, earlier);
    law_relations_stay_known(before, opened.last());
    assert(start.replica =~= (Replica {
        relations: frames_run(feed.replica, frames_in(earlier)).relations,
        changes: Seq::empty(),
    }));
    lemma_run_goes_on(feed, opened, body);
    lemma_events_gather_frames(start, body);
    law_events_ask_for_one_thing(feed_run(feed, opened + body).0, Event::Commit { lsn });
}

/// Nothing is published twice: behind a commit, without new frames, the next commit
/// asks for nothing to be published.
pub proof fn law_changes_are_published_once(feed: Feed, first: u64, body: Seq<Event>, second: u64)
    requires
        forall|k: int|
            0 <= k < body.len() ==> (#[trigger] body[k]) !is Frame && body[k] !is Commit,
    ensures
        ({
            let after = feed_step(feed, Event::Commit { lsn: first }).0;
            feed_step(feed_run(after, body).0, Event::Commit { lsn: second }).1 == (Act::Publish {
                commit_lsn: second,
                changes: Seq::empty(),
            })
        }),
{
    let after = feed_step(feed, Event::Commit { lsn: first }).0;
    law_relations_stay_known(feed, Event::Commit { lsn: first });
    lemma_no_frame_no_change(after, body);
    let end = feed_run(after, body).0;
    assert(end.replica.changes =~= Seq::<Change>::empty());
    law_events_ask_for_one_thing(end, Event::Commit { lsn: second });
}

proof fn lemma_no_frame_no_change(feed: Feed, events: Seq<Event>)
    requires
        feed.replica.changes.len() == 0,
        forall|k: int|
            0 <= k < events.len() ==> (#[trigger] events[k]) !is Frame && events[k] !is Commit,
    ensures
        feed_run(feed, events).0.replica.changes.len() == 0,
    decreases events.len(),
{
    if events.len() > 0 {
        let head = events.drop_last();
        assert forall|k: int| 0 <= k < head.len() implies (#[trigger] head[k]) !is Frame
            && head[k] !is Commit by {
            assert(head[k] == events[k]);
        }
        assert(events[events.len() - 1] == events.last());
        lemma_no_frame_no_change(feed, head);
        law_relations_stay_known(feed_run(feed, head).0, events.last());
    }
}

/// An action that carries out what was asked for is of the same kind, with the same
/// position or error, and publishes one entry for each change that was asked for.
pub proof fn law_action_is_what_was_asked(action: Action, routing: Routing, act: Act)
    requires
        action.carries_out(routing, act),
    ensures
        act == Act::Receive <==> action is Receive,
        act == Act::Finish <==> action is Finish,
        act == Act::Fail <==> action is Fail,
        act == Act::OutOfVersions <==> action is OutOfVersions,
        act is Acknowledge <==> action is Acknowledge,
        action matches Action::Acknowledge { lsn } ==> act == (Act::Acknowledge { lsn }),
        act is Broken <==> action is Broken,
        action matches Action::Broken(error) ==> act == Act::Broken(error),
        act is Publish <==> action is Publish,
        action matches Action::Publish(entries) ==> (act matches Act::Publish {
            commit_lsn,
            changes,
        } ==> entries@.len() == changes.len() && forall|i: int|
            0 <= i < changes.len() ==> (#[trigger] entries@[i]).key@ == routing.stream_of(
                changes[i],
            )),
{
}

}

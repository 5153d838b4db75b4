//! A worker of the consumer fleet: it is pinned to one partition, turns the change
//! events of its stream into bulk operations, and decides by their outcomes which
//! messages to acknowledge, to try again, or to give to the dead-letter queue.

use crate::config::{clone_cfg, ConsumerConfig, Consumption};
use crate::document::document_id_of;
use crate::envelope::{fields_in, law_fields_are_read_back, Envelope, Sealed};
use crate::event::{Change, Fields, TxnEvent};
use crate::json::{fields_json, fields_tree, law_every_field_is_found, Tree};
use crate::opensearch::{
    bulk_outcomes, operations_of, outcomes_given, reply_tree, texts_of, BulkItem, BulkOp, BulkReply,
    ItemOutcome, Operation,
};
use crate::redis_producer::{law_partitions_have_their_own_streams, Routing};
use crate::reply::{messages_of, Message};
use crate::text::{contains_text, decimal_text, joined, occurs_in, to_decimal};
use vstd::hash_map::StringHashMap;
use vstd::prelude::*;
use vstd::string::*;

verus! {

/// A message as it was delivered, with what its payload says; without where the
/// payload is malformed.
#[derive(Debug)]
pub struct Delivery {
    pub id: String,
    pub payload: String,
    pub envelope: Option<Envelope>,
}

/// A message with what its payload says.
pub ghost struct Delivered {
    pub message: Message,
    pub sealed: Option<Sealed>,
}

impl View for Delivery {
    type V = Delivered;

    open spec fn view(&self) -> Delivered {
        Delivered {
            message: Message { id: self.id@, payload: self.payload@ },
            sealed: match self.envelope {
                Some(envelope) => Some(envelope@),
                None => None,
            },
        }
    }
}

/// The messages that deliveries stand for.
pub open spec fn delivered_by(deliveries: Seq<Delivery>) -> Seq<Delivered> {
    deliveries.map_values(|delivery: Delivery| delivery@)
}

/// What is done to a message.
pub ghost enum Deed {
    /// The payload goes to the dead-letter queue.
    DeadLetter { payload: Seq<char> },
    /// The message is acknowledged.
    Ack { id: Seq<char> },
}

/// Something to do to a message.
#[derive(Debug)]
pub enum Effect {
    /// Append the payload to the dead-letter queue.
    DeadLetter { payload: String },
    /// Acknowledge the message.
    Ack { id: String },
}

impl View for Effect {
    type V = Deed;

    open spec fn view(&self) -> Deed {
        match self {
            Effect::DeadLetter { payload } => Deed::DeadLetter { payload: payload@ },
            Effect::Ack { id } => Deed::Ack { id: id@ },
        }
    }
}

/// The deeds that effects stand for.
pub open spec fn deeds_of(effects: Seq<Effect>) -> Seq<Deed> {
    effects.map_values(|effect: Effect| effect@)
}

/// Counts of mapping failures by message id.
pub type Attempts = Map<Seq<char>, u8>;

/// Giving a message up: its payload is dead-lettered, then it is acknowledged.
pub open spec fn give_up(message: Message) -> Seq<Deed> {
    seq![Deed::DeadLetter { payload: message.payload }, Deed::Ack { id: message.id }]
}

/// What is done to a batch before anything is sent: each malformed message is
/// given up, in order.
pub open spec fn malformed_deeds(batch: Seq<Delivered>) -> Seq<Deed>
    decreases batch.len(),
{
    if batch.len() == 0 {
        Seq::empty()
    } else {
        let before = malformed_deeds(batch.drop_last());
        match batch.last().sealed {
            Some(_) => before,
            None => before + give_up(batch.last().message),
        }
    }
}

/// The counts once the malformed messages of a batch are forgotten.
pub open spec fn without_malformed(attempts: Attempts, batch: Seq<Delivered>) -> Attempts
    decreases batch.len(),
{
    if batch.len() == 0 {
        attempts
    } else {
        let before = without_malformed(attempts, batch.drop_last());
        match batch.last().sealed {
            Some(_) => before,
            None => before.remove(batch.last().message.id),
        }
    }
}

/// The places of the messages of a batch that are well formed.
pub open spec fn sound_places(batch: Seq<Delivered>) -> Seq<int>
    decreases batch.len(),
{
    if batch.len() == 0 {
        Seq::empty()
    } else {
        let before = sound_places(batch.drop_last());
        match batch.last().sealed {
            Some(_) => before.push(batch.len() - 1),
            None => before,
        }
    }
}

/// The bulk operation of a change: an insert or an update indexes the document of
/// its row, and a delete deletes it.
pub open spec fn operation_for(cfg: Consumption, sealed: Sealed) -> Operation {
    let change = sealed.change;
    Operation {
        op: match change {
            Change::Delete { .. } => BulkOp::Delete,
            _ => BulkOp::Index,
        },
        index: cfg.index_for(change.table()),
        doc_id: change.document_id(),
        version: sealed.version,
        source: match change {
            Change::Insert { data, .. } => Some(fields_tree(data)),
            Change::Update { data, .. } => Some(fields_tree(data)),
            Change::Delete { .. } => None,
        },
    }
}

/// The operations of the well-formed messages of a batch, in order.
pub open spec fn batch_operations(cfg: Consumption, batch: Seq<Delivered>) -> Seq<Operation> {
    sound_places(batch).map_values(|i: int| operation_for(cfg, batch[i].sealed->0))
}

/// The well-formed messages of a batch, in order.
pub open spec fn sound_messages(batch: Seq<Delivered>) -> Seq<Message> {
    sound_places(batch).map_values(|i: int| batch[i].message)
}

/// What settling a batch has led to so far.
#[verifier::ext_equal]
pub ghost struct Settled {
    pub attempts: Attempts,
    pub deeds: Seq<Deed>,
    pub transient: bool,
}

/// One more mapping failure of a message.
pub open spec fn failures(attempts: Attempts, id: Seq<char>) -> int {
    1 + if attempts.contains_key(id) {
        attempts[id] as int
    } else {
        0
    }
}

/// Settles one message by the outcome of its operation, `None` where there is none.
pub open spec fn settle_one(
    settled: Settled,
    limit: u8,
    message: Message,
    outcome: Option<ItemOutcome>,
) -> Settled {
    let id = message.id;
    match outcome {
        Some(ItemOutcome::Ack) | Some(ItemOutcome::Stale) => Settled {
            attempts: settled.attempts.remove(id),
            deeds: settled.deeds.push(Deed::Ack { id }),
            ..settled
        },
        Some(ItemOutcome::Poison) => {
            let count = failures(settled.attempts, id);
            if count >= limit {
                Settled {
                    attempts: settled.attempts.remove(id),
                    deeds: settled.deeds + give_up(message),
                    ..settled
                }
            } else {
                Settled { attempts: settled.attempts.insert(id, count as u8), ..settled }
            }
        },
        Some(ItemOutcome::Transient) | None => Settled { transient: true, ..settled },
    }
}

/// The outcome at a place, `None` where there are fewer.
pub open spec fn outcome_at(outcomes: Seq<ItemOutcome>, i: int) -> Option<ItemOutcome> {
    if 0 <= i < outcomes.len() {
        Some(outcomes[i])
    } else {
        None
    }
}

/// Settles messages in order, each by the outcome of its own operation.
pub open spec fn settle_all(
    attempts: Attempts,
    limit: u8,
    messages: Seq<Message>,
    outcomes: Seq<ItemOutcome>,
) -> Settled
    decreases messages.len(),
{
    if messages.len() == 0 {
        Settled { attempts, deeds: Seq::empty(), transient: false }
    } else {
        settle_one(
            settle_all(attempts, limit, messages.drop_last(), outcomes),
            limit,
            messages.last(),
            outcome_at(outcomes, messages.len() - 1),
        )
    }
}

/// Whether every count is at least one and below the limit.
pub open spec fn bounded(attempts: Attempts, limit: u8) -> bool {
    forall|id: Seq<char>| #[trigger]
        attempts.contains_key(id) ==> 1 <= attempts[id] < limit
}

/// The well-formed messages of a batch with their operations.
#[derive(Debug)]
pub struct Batch {
    messages: Vec<(String, String)>,
    items: Vec<BulkItem>,
}

/// Messages with their operations.
#[verifier::ext_equal]
pub ghost struct Batched {
    pub messages: Seq<Message>,
    pub operations: Seq<Operation>,
}

impl View for Batch {
    type V = Batched;

    closed spec fn view(&self) -> Batched {
        Batched {
            messages: messages_of(self.messages@),
            operations: operations_of(self.items@),
        }
    }
}

impl Batch {
    #[verifier::type_invariant]
    spec fn is_paired(self) -> bool {
        &&& self.messages@.len() == self.items@.len()
        &&& forall|i: int| 0 <= i < self.items@.len() ==> (#[trigger] self.items@[i])@.is_writable()
    }

    /// The operations to send, one for each message.
    pub fn items(&self) -> (items: &Vec<BulkItem>)
        ensures
            operations_of(items@) == self@.operations,
            items@.len() == self@.messages.len(),
            forall|i: int| 0 <= i < items@.len() ==> (#[trigger] items@[i])@.is_writable(),
    {
        proof {
            use_type_invariant(self);
        }
        &self.items
    }

    /// Whether there is nothing to send.
    pub fn is_empty(&self) -> (empty: bool)
        ensures
            empty == (self@.operations.len() == 0),
    {
        self.items.len() == 0
    }
}

/// What settling a batch leads to.
#[derive(Debug)]
pub struct Settlement {
    /// What to do, in order.
    pub effects: Vec<Effect>,
    /// Whether an operation failed for a passing reason, so that the worker should
    /// back off before fetching again.
    pub transient: bool,
}

/// Where a worker stands.
#[verifier::ext_equal]
pub ghost struct Duty {
    pub cfg: Consumption,
    pub partition: usize,
    pub consumer: Seq<char>,
    pub attempts: Attempts,
}

/// The worker of one partition.
pub struct PartitionWorker {
    cfg: ConsumerConfig,
    partition: usize,
    consumer: String,
    /// Per-message retry counter for mapping (poison-pill) failures.
    attempts: StringHashMap<u8>,
}

impl View for PartitionWorker {
    type V = Duty;

    closed spec fn view(&self) -> Duty {
        Duty {
            cfg: self.cfg@,
            partition: self.partition,
            consumer: self.consumer@,
            attempts: self.attempts@,
        }
    }
}

fn bulk_item(cfg: &ConsumerConfig, envelope: &Envelope) -> (item: BulkItem)
    ensures
        item@ == operation_for(cfg@, envelope@),
        item@.is_writable(),
{
    let index = cfg.index_for(envelope.event.table());
    let doc_id = envelope.event.document_id();
    let version = envelope.version;
    match &envelope.event {
        TxnEvent::Insert { data, .. } => BulkItem {
            op: BulkOp::Index,
            index,
            doc_id,
            version,
            source: Some(fields_json(data)),
        },
        TxnEvent::Update { data, .. } => BulkItem {
            op: BulkOp::Index,
            index,
            doc_id,
            version,
            source: Some(fields_json(data)),
        },
        TxnEvent::Delete { .. } => BulkItem {
            op: BulkOp::Delete,
            index,
            doc_id,
            version,
            source: None,
        },
    }
}

fn push_give_up(effects: &mut Vec<Effect>, id: String, payload: String)
    ensures
        deeds_of(final(effects)@) == deeds_of(old(effects)@) + give_up(
            Message { id: id@, payload: payload@ },
        ),
{
    let ghost start = effects@;
    effects.push(Effect::DeadLetter { payload });
    effects.push(Effect::Ack { id });
    assert(deeds_of(effects@) =~= deeds_of(start) + give_up(
        Message { id: id@, payload: payload@ },
    ));
}

impl PartitionWorker {
    #[verifier::type_invariant]
    spec fn counts_are_bounded(self) -> bool {
        bounded(self.attempts@, self.cfg.poison_max_retries)
    }

    /// The worker of a partition, before any message.
    pub fn new(cfg: ConsumerConfig, partition: usize) -> (worker: PartitionWorker)
        ensures
            worker@ == (Duty {
                cfg: cfg@,
                partition,
                consumer: "worker-"@ + decimal_text(partition as nat),
                attempts: Map::empty(),
            }),
    {
        let number = to_decimal(partition as u64);
        let consumer = joined("worker-", number.as_str());
        PartitionWorker { cfg, partition, consumer, attempts: StringHashMap::new() }
    }

    /// Plans a batch of messages: malformed ones are given up at once, and the
    /// others are turned into operations. Returns the operations to send, and what
    /// to do before they are sent.
    pub fn plan_batch(&mut self, deliveries: Vec<Delivery>) -> (plan: (Batch, Vec<Effect>))
        ensures
            plan.0@.messages == sound_messages(delivered_by(deliveries@)),
            plan.0@.operations == batch_operations(old(self)@.cfg, delivered_by(deliveries@)),
            deeds_of(plan.1@) == malformed_deeds(delivered_by(deliveries@)),
            final(self)@ == (Duty {
                attempts: without_malformed(old(self)@.attempts, delivered_by(deliveries@)),
                ..old(self)@
            }),
    {
        proof {
            use_type_invariant(&*self);
        }
        let mut attempts: StringHashMap<u8> = StringHashMap::new();
        std::mem::swap(&mut attempts, &mut self.attempts);
        let ghost start = attempts@;
        let ghost cfg = self.cfg@;
        let ghost limit = self.cfg.poison_max_retries;
        let ghost given = deliveries@;
        let ghost batch = delivered_by(given);
        let mut messages: Vec<(String, String)> = Vec::new();
        let mut items: Vec<BulkItem> = Vec::new();
        let mut effects: Vec<Effect> = Vec::new();
        assert(batch.take(0) =~= Seq::<Delivered>::empty());
        for delivery in iter: deliveries
            invariant
                iter.seq() == given,
                batch == delivered_by(given),
                cfg == self.cfg@,
                limit == self.cfg.poison_max_retries,
                bounded(attempts@, limit),
                attempts@ == without_malformed(start, batch.take(iter.index() as int)),
                deeds_of(effects@) == malformed_deeds(batch.take(iter.index() as int)),
                messages_of(messages@) == sound_messages(batch.take(iter.index() as int)),
                operations_of(items@) == batch_operations(cfg, batch.take(iter.index() as int)),
                messages@.len() == items@.len(),
                forall|i: int| 0 <= i < items@.len() ==> (#[trigger] items@[i])@.is_writable(),
        {
            let ghost i = iter.index() as int;
            let ghost longer = batch.take(i + 1);
            let ghost m0 = messages@;
            let ghost i0 = items@;
            assert(longer.drop_last() =~= batch.take(i));
            assert(longer.last() == delivery@);
            proof {
                lemma_places_are_sound(batch.take(i));
                lemma_more_deliveries(cfg, batch, i);
            }
            match delivery.envelope {
                None => {
                    attempts.remove(delivery.id.as_str());
                    push_give_up(&mut effects, delivery.id, delivery.payload);
                },
                Some(envelope) => {
                    items.push(bulk_item(&self.cfg, &envelope));
                    messages.push((delivery.id, delivery.payload));
                    assert(messages_of(messages@) =~= messages_of(m0).push(longer.last().message));
                    assert(operations_of(items@) =~= operations_of(i0).push(
                        operation_for(cfg, longer.last().sealed->0),
                    ));
                },
            }
        }
        assert(batch.take(given.len() as int) =~= batch);
        self.attempts = attempts;
        assert(self@ =~= (Duty { attempts: without_malformed(old(self)@.attempts, batch), ..old(
            self,
        )@ }));
        (Batch { messages, items }, effects)
    }
}

/// Every place that is listed is a place of a well-formed message.
proof fn lemma_places_are_sound(batch: Seq<Delivered>)
    ensures
        forall|k: int|
            0 <= k < sound_places(batch).len() ==> 0 <= #[trigger] sound_places(batch)[k]
                < batch.len() && batch[sound_places(batch)[k]].sealed is Some,
    decreases batch.len(),
{
    if batch.len() > 0 {
        lemma_places_are_sound(batch.drop_last());
        let places = sound_places(batch.drop_last());
        assert forall|k: int| 0 <= k < sound_places(batch).len() implies 0
            <= #[trigger] sound_places(batch)[k] < batch.len()
            && batch[sound_places(batch)[k]].sealed is Some by {
            if k < places.len() {
                assert(sound_places(batch)[k] == places[k]);
                assert(batch.drop_last()[places[k]] == batch[places[k]]);
            }
        }
    }
}

/// One more delivery adds its message and its operation where it is well formed,
/// and nothing otherwise.
proof fn lemma_more_deliveries(cfg: Consumption, batch: Seq<Delivered>, i: int)
    requires
        0 <= i < batch.len(),
    ensures
        batch[i].sealed is None ==> {
            &&& sound_messages(batch.take(i + 1)) == sound_messages(batch.take(i))
            &&& batch_operations(cfg, batch.take(i + 1)) == batch_operations(cfg, batch.take(i))
        },
        batch[i].sealed matches Some(sealed) ==> {
            &&& sound_messages(batch.take(i + 1)) == sound_messages(batch.take(i)).push(
                batch[i].message,
            )
            &&& batch_operations(cfg, batch.take(i + 1)) == batch_operations(
                cfg,
                batch.take(i),
            ).push(operation_for(cfg, sealed))
        },
{
    let longer = batch.take(i + 1);
    let shorter = batch.take(i);
    assert(longer.drop_last() =~= shorter);
    lemma_places_are_sound(shorter);
    let places = sound_places(shorter);
    assert forall|k: int| 0 <= k < places.len() implies longer[#[trigger] places[k]]
        == shorter[places[k]] by {}
    if batch[i].sealed is None {
        assert(sound_messages(longer) =~= sound_messages(shorter));
        assert(batch_operations(cfg, longer) =~= batch_operations(cfg, shorter));
    } else {
        assert(sound_messages(longer) =~= sound_messages(shorter).push(batch[i].message));
        assert(batch_operations(cfg, longer) =~= batch_operations(cfg, shorter).push(
            operation_for(cfg, batch[i].sealed->0),
        ));
    }
}

/// A count that is not yet at the limit stays below it, one message after the other.
proof fn lemma_settling_keeps_counts_bounded(
    settled: Settled,
    limit: u8,
    message: Message,
    outcome: Option<ItemOutcome>,
)
    requires
        bounded(settled.attempts, limit),
    ensures
        bounded(settle_one(settled, limit, message, outcome).attempts, limit),
        settled.attempts.contains_key(message.id) ==> failures(settled.attempts, message.id)
            <= limit,
{
}

impl PartitionWorker {
    /// Settles a batch, each message by the outcome of its own operation. Done or
    /// stale ones are acknowledged; a mapping failure is counted, and gives the
    /// message up once the limit is reached; the others stay as they are, to be
    /// delivered again.
    pub fn settle(&mut self, batch: Batch, outcomes: &Vec<ItemOutcome>) -> (settlement: Settlement)
        ensures
            ({
                let end = settle_all(
                    old(self)@.attempts,
                    old(self)@.cfg.poison_max_retries,
                    batch@.messages,
                    outcomes@,
                );
                &&& deeds_of(settlement.effects@) == end.deeds
                &&& settlement.transient == end.transient
                &&& final(self)@ == (Duty { attempts: end.attempts, ..old(self)@ })
            }),
    {
        proof {
            use_type_invariant(&*self);
        }
        let mut attempts: StringHashMap<u8> = StringHashMap::new();
        std::mem::swap(&mut attempts, &mut self.attempts);
        let limit = self.cfg.poison_max_retries;
        let ghost start = attempts@;
        let ghost told = outcomes@;
        let ghost given = batch.messages@;
        let ghost all = messages_of(given);
        let mut effects: Vec<Effect> = Vec::new();
        let mut transient = false;
        let mut slot: usize = 0;
        assert(given.len() == batch.messages.len());
        assert(all.take(0) =~= Seq::<Message>::empty());
        assert(deeds_of(effects@) =~= Seq::<Deed>::empty());
        for pair in iter: batch.messages
            invariant
                iter.seq() == given,
                slot == iter.index(),
                given.len() <= usize::MAX,
                all == messages_of(given),
                told == outcomes@,
                limit == self.cfg.poison_max_retries,
                bounded(attempts@, limit),
                attempts@ == settle_all(start, limit, all.take(slot as int), told).attempts,
                deeds_of(effects@) == settle_all(start, limit, all.take(slot as int), told).deeds,
                transient == settle_all(start, limit, all.take(slot as int), told).transient,
        {
            let ghost before = settle_all(start, limit, all.take(slot as int), told);
            let ghost done = effects@;
            let ghost longer = all.take(slot + 1);
            let ghost message = Message { id: pair.0@, payload: pair.1@ };
            assert(longer.drop_last() =~= all.take(slot as int));
            assert(longer.last() == message);
            proof {
                lemma_settling_keeps_counts_bounded(
                    before,
                    limit,
                    message,
                    outcome_at(told, slot as int),
                );
            }
            let outcome = if slot < outcomes.len() {
                outcomes[slot]
            } else {
                ItemOutcome::Transient
            };
            let (id, payload) = pair;
            match outcome {
                ItemOutcome::Ack | ItemOutcome::Stale => {
                    attempts.remove(id.as_str());
                    effects.push(Effect::Ack { id });
                    assert(deeds_of(effects@) =~= deeds_of(done).push(Deed::Ack { id: message.id }));
                },
                ItemOutcome::Poison => {
                    let seen: u8 = match attempts.get(id.as_str()) {
                        Some(n) => *n,
                        None => 0,
                    };
                    if seen as u16 + 1 >= limit as u16 {
                        attempts.remove(id.as_str());
                        push_give_up(&mut effects, id, payload);
                    } else {
                        attempts.insert(id, seen + 1);
                    }
                },
                ItemOutcome::Transient => {
                    transient = true;
                },
            }
            slot = slot + 1;
        }
        assert(all.take(given.len() as int) =~= all);
        self.attempts = attempts;
        assert(self@ =~= (Duty { attempts: attempts@, ..old(self)@ }));
        Settlement { effects, transient }
    }

    /// Settles a batch by what became of its request.
    pub fn finish_batch(&mut self, batch: Batch, reply: &BulkReply) -> (settlement: Settlement)
        ensures
            ({
                let end = settle_all(
                    old(self)@.attempts,
                    old(self)@.cfg.poison_max_retries,
                    batch@.messages,
                    outcomes_given(reply_tree(*reply), batch@.operations.len()),
                );
                &&& deeds_of(settlement.effects@) == end.deeds
                &&& settlement.transient == end.transient
                &&& final(self)@ == (Duty { attempts: end.attempts, ..old(self)@ })
            }),
    {
        let outcomes = bulk_outcomes(reply, batch.items.len());
        self.settle(batch, &outcomes)
    }

    /// The key of the stream that the worker reads.
    pub fn stream(&self) -> (key: String)
        ensures
            key@ == self@.cfg.stream_key(self@.partition as nat),
    {
        self.cfg.stream_key(self.partition)
    }

    /// The partition that the worker is pinned to.
    pub fn partition(&self) -> (partition: usize)
        ensures
            partition == self@.partition,
    {
        self.partition
    }

    /// The name under which the worker reads in its consumer group.
    pub fn consumer(&self) -> (consumer: &str)
        ensures
            consumer@ == self@.consumer,
    {
        self.consumer.as_str()
    }

    /// The configuration of the worker.
    pub fn config(&self) -> (cfg: &ConsumerConfig)
        ensures
            cfg@ == self@.cfg,
    {
        &self.cfg
    }

    /// The arguments of the `XAUTOCLAIM` that takes over messages which have been
    /// idle for long enough.
    pub fn claim_args(&self) -> (args: Vec<String>)
        ensures
            texts_of(args@) == claim_texts(self@),
            args@.len() == 7,
            args@[0]@ == self@.cfg.stream_prefix + decimal_text(self@.partition as nat),
            args@[1]@ == self@.cfg.group_name,
            args@[2]@ == self@.consumer,
            args@[3]@ == decimal_text(self@.cfg.claim_idle_ms as nat),
            args@[4]@ == "0"@,
            args@[5]@ == "COUNT"@,
            args@[6]@ == decimal_text(self@.cfg.batch_size as nat),
    {
        let mut args: Vec<String> = Vec::new();
        args.push(self.stream());
        args.push(self.cfg.group_name.clone());
        args.push(self.consumer.clone());
        args.push(to_decimal(self.cfg.claim_idle_ms));
        args.push("0".to_owned());
        args.push("COUNT".to_owned());
        args.push(to_decimal(self.cfg.batch_size as u64));
        assert(texts_of(args@) =~= claim_texts(self@));
        args
    }
}

/// The arguments of an `XAUTOCLAIM`: stream, group, consumer, idle threshold, the
/// cursor to start from, and how many messages to take over.
pub open spec fn claim_texts(duty: Duty) -> Seq<Seq<char>> {
    seq![
        duty.cfg.stream_key(duty.partition as nat),
        duty.cfg.group_name,
        duty.consumer,
        decimal_text(duty.cfg.claim_idle_ms as nat),
        "0"@,
        "COUNT"@,
        decimal_text(duty.cfg.batch_size as nat),
    ]
}

/// The arguments of the `XGROUP` that makes the consumer group of a partition: it
/// starts at the end of the stream, which is made where there is none.
pub open spec fn group_texts(cfg: Consumption, partition: nat) -> Seq<Seq<char>> {
    seq!["CREATE"@, cfg.stream_key(partition), cfg.group_name, "$"@, "MKSTREAM"@]
}

/// The arguments of the `XGROUP` that makes the consumer group of a partition.
pub fn group_args(cfg: &ConsumerConfig, partition: usize) -> (args: Vec<String>)
    ensures
        texts_of(args@) == group_texts(cfg@, partition as nat),
        args@.len() == 5,
        args@[0]@ == "CREATE"@,
        args@[1]@ == cfg@.stream_prefix + decimal_text(partition as nat),
        args@[2]@ == cfg@.group_name,
        args@[3]@ == "$"@,
        args@[4]@ == "MKSTREAM"@,
{
    let mut args: Vec<String> = Vec::new();
    args.push("CREATE".to_owned());
    args.push(cfg.stream_key(partition));
    args.push(cfg.group_name.clone());
    args.push("$".to_owned());
    args.push("MKSTREAM".to_owned());
    assert(texts_of(args@) =~= group_texts(cfg@, partition as nat));
    args
}

/// Whether the error of an `XGROUP` only says that the group is there already.
pub fn group_exists(error: &str) -> (exists_already: bool)
    ensures
        exists_already == occurs_in("BUSYGROUP"@, error@),
{
    contains_text(error, "BUSYGROUP")
}

/// What to do next before a fleet starts.
#[derive(Debug, Clone, Copy, PartialEq, Eq, Structural)]
pub enum GroupTask {
    /// Make the consumer group of this partition.
    Create { partition: usize },
    /// Start the fleet; every partition has its group.
    Start,
    /// Stop with the error.
    Fail,
}

/// What follows once the groups of `made` partitions were asked for, the last of them
/// with this error: an error stops, unless it only says that the group is there.
pub open spec fn group_task(partitions: usize, made: usize, error: Option<Seq<char>>) -> GroupTask {
    if error matches Some(text) && !occurs_in("BUSYGROUP"@, text) {
        GroupTask::Fail
    } else if made < partitions {
        GroupTask::Create { partition: made }
    } else {
        GroupTask::Start
    }
}

/// Decides what to do next before a fleet starts: the groups of `made` partitions
/// were asked for, and `error` is what the last of them brought.
pub fn next_group(partitions: usize, made: usize, error: Option<&str>) -> (task: GroupTask)
    ensures
        task == group_task(
            partitions,
            made,
            match error {
                Some(text) => Some(text@),
                None => None,
            },
        ),
{
    if let Some(text) = error {
        if !group_exists(text) {
            return GroupTask::Fail;
        }
    }
    if made < partitions {
        GroupTask::Create { partition: made }
    } else {
        GroupTask::Start
    }
}

/// Whether groups were asked for partition by partition, with these errors.
pub open spec fn is_group_run(partitions: usize, errors: Seq<Option<Seq<char>>>) -> bool {
    forall|k: int|
        0 <= k < errors.len() ==> #[trigger] group_task_at(partitions, errors, k) == (
        GroupTask::Create { partition: k as usize })
}

/// What follows the first `k` errors.
pub open spec fn group_task_at(
    partitions: usize,
    errors: Seq<Option<Seq<char>>>,
    k: int,
) -> GroupTask {
    group_task(
        partitions,
        k as usize,
        if k == 0 {
            None
        } else {
            errors[k - 1]
        },
    )
}

/// A fleet starts only when every partition was asked for, and no error came but
/// that a group was there already.
pub proof fn law_fleet_starts_with_every_group(
    partitions: usize,
    errors: Seq<Option<Seq<char>>>,
    k: int,
)
    requires
        errors.len() <= usize::MAX,
        is_group_run(partitions, errors),
        group_task_at(partitions, errors, errors.len() as int) == GroupTask::Start,
        0 <= k < errors.len(),
    ensures
        errors.len() == partitions,
        errors[k] matches Some(text) ==> occurs_in("BUSYGROUP"@, text),
{
    assert(group_task_at(partitions, errors, errors.len() - 1) is Create);
    if k + 1 < errors.len() {
        assert(group_task_at(partitions, errors, k + 1) is Create);
    }
}

/// The workers of a fleet: one for each partition, in order.
pub fn fleet(cfg: &ConsumerConfig) -> (workers: Vec<PartitionWorker>)
    ensures
        workers@.len() == cfg.partitions,
        forall|p: int|
            0 <= p < workers@.len() ==> (#[trigger] workers@[p])@ == (Duty {
                cfg: cfg@,
                partition: p as usize,
                consumer: "worker-"@ + decimal_text(p as nat),
                attempts: Map::empty(),
            }),
{
    let mut workers: Vec<PartitionWorker> = Vec::new();
    for p in 0..cfg.partitions
        invariant
            workers@.len() == p,
            forall|k: int|
                0 <= k < p ==> (#[trigger] workers@[k])@ == (Duty {
                    cfg: cfg@,
                    partition: k as usize,
                    consumer: "worker-"@ + decimal_text(k as nat),
                    attempts: Map::empty(),
                }),
    {
        workers.push(PartitionWorker::new(clone_cfg(cfg), p));
    }
    workers
}

/// Whether to back off after a batch: an operation failed for a passing reason, or
/// Redis did not take a dead letter or an acknowledgement.
pub fn backs_off(transient: bool, redis_failed: bool) -> (back_off: bool)
    ensures
        back_off == (transient || redis_failed),
{
    transient || redis_failed
}

/// How long a worker waits between fetches, in milliseconds.
pub const IDLE_POLL: u64 = 200;

/// How long a worker backs off after a failure, in milliseconds.
pub const BACKOFF: u64 = 1000;

/// What a worker has come to in its loop.
#[derive(Debug, Clone, Copy, PartialEq, Eq, Structural)]
pub enum News {
    /// A round begins: whether shutdown was asked for, and how many whole seconds
    /// have passed since messages were last reclaimed.
    Round { cancelled: bool, since_claim: u64 },
    /// Idle messages were taken over.
    Claimed,
    /// Idle messages could not be taken over.
    ClaimFailed,
    /// The messages that were taken over are processed: whether to back off.
    ClaimProcessed { transient: bool },
    /// The claim clock was restarted: whether to back off.
    ClockRestarted { transient: bool },
    /// New messages were fetched.
    Fetched,
    /// The messages that were fetched are processed: whether to back off.
    FetchProcessed { transient: bool },
    /// New messages could not be fetched.
    FetchFailed { cancelled: bool },
    /// The wait is over.
    Slept,
}

/// What a worker does next in its loop.
#[derive(Debug, Clone, Copy, PartialEq, Eq, Structural)]
pub enum Task {
    /// Leave the loop.
    Exit,
    /// Take over messages that have been idle for too long.
    Reclaim,
    /// Process the messages that came back.
    Process,
    /// Note that messages were reclaimed just now, and pass the flag on.
    RestartClaimClock { transient: bool },
    /// Fetch new messages.
    Fetch,
    /// Wait.
    Sleep { ms: u64 },
    /// Begin another round.
    NextRound,
}

/// What follows in the loop of a worker.
pub open spec fn task_after(claim_interval: u64, news: News) -> Task {
    match news {
        News::Round { cancelled, since_claim } => if cancelled {
            Task::Exit
        } else if since_claim >= claim_interval {
            Task::Reclaim
        } else {
            Task::Fetch
        },
        News::Claimed => Task::Process,
        News::ClaimFailed => Task::RestartClaimClock { transient: false },
        News::ClaimProcessed { transient } => Task::RestartClaimClock { transient },
        News::ClockRestarted { transient } => if transient {
            Task::Sleep { ms: BACKOFF }
        } else {
            Task::Fetch
        },
        News::Fetched => Task::Process,
        News::FetchProcessed { transient } => Task::Sleep {
            ms: if transient {
                BACKOFF
            } else {
                IDLE_POLL
            },
        },
        News::FetchFailed { cancelled } => if cancelled {
            Task::NextRound
        } else {
            Task::Sleep { ms: BACKOFF }
        },
        News::Slept => Task::NextRound,
    }
}

impl PartitionWorker {
    /// Decides what the worker does next in its loop.
    pub fn next_task(&self, news: News) -> (task: Task)
        ensures
            task == task_after(self@.cfg.claim_interval, news),
    {
        match news {
            News::Round { cancelled, since_claim } => if cancelled {
                Task::Exit
            } else if since_claim >= self.cfg.claim_interval {
                Task::Reclaim
            } else {
                Task::Fetch
            },
            News::Claimed => Task::Process,
            News::ClaimFailed => Task::RestartClaimClock { transient: false },
            News::ClaimProcessed { transient } => Task::RestartClaimClock { transient },
            News::ClockRestarted { transient } => if transient {
                Task::Sleep { ms: BACKOFF }
            } else {
                Task::Fetch
            },
            News::Fetched => Task::Process,
            News::FetchProcessed { transient } => Task::Sleep {
                ms: if transient {
                    BACKOFF
                } else {
                    IDLE_POLL
                },
            },
            News::FetchFailed { cancelled } => if cancelled {
                Task::NextRound
            } else {
                Task::Sleep { ms: BACKOFF }
            },
            News::Slept => Task::NextRound,
        }
    }
}

/// No message is tried without end: every count that is kept is at least one and
/// stays below the limit, whatever batches are planned and settled.
pub proof fn law_counts_stay_bounded(
    attempts: Attempts,
    limit: u8,
    batch: Seq<Delivered>,
    messages: Seq<Message>,
    outcomes: Seq<ItemOutcome>,
)
    requires
        bounded(attempts, limit),
    ensures
        bounded(without_malformed(attempts, batch), limit),
        bounded(settle_all(attempts, limit, messages, outcomes).attempts, limit),
    decreases batch.len() + messages.len(),
{
    if batch.len() > 0 {
        law_counts_stay_bounded(attempts, limit, batch.drop_last(), messages, outcomes);
    }
    if messages.len() > 0 {
        law_counts_stay_bounded(attempts, limit, batch, messages.drop_last(), outcomes);
        lemma_settling_keeps_counts_bounded(
            settle_all(attempts, limit, messages.drop_last(), outcomes),
            limit,
            messages.last(),
            outcome_at(outcomes, messages.len() - 1),
        );
    }
}

/// A stale message is treated as a done one: it is acknowledged, its count is
/// dropped, and nothing is backed off for.
pub proof fn law_stale_is_acknowledged(settled: Settled, limit: u8, message: Message)
    ensures
        settle_one(settled, limit, message, Some(ItemOutcome::Stale)) == settle_one(
            settled,
            limit,
            message,
            Some(ItemOutcome::Ack),
        ),
        settle_one(settled, limit, message, Some(ItemOutcome::Stale)) == (Settled {
            attempts: settled.attempts.remove(message.id),
            deeds: settled.deeds.push(Deed::Ack { id: message.id }),
            transient: settled.transient,
        }),
{
}

/// A message whose operation failed for a passing reason, or was never answered,
/// is left alone: nothing is done to it and its count stays, but the worker backs
/// off.
pub proof fn law_transient_is_left_alone(settled: Settled, limit: u8, message: Message)
    ensures
        settle_one(settled, limit, message, Some(ItemOutcome::Transient)) == (Settled {
            transient: true,
            ..settled
        }),
        settle_one(settled, limit, message, None) == (Settled { transient: true, ..settled }),
{
}

/// A message that keeps failing to map.
pub open spec fn poisoned(settled: Settled, limit: u8, message: Message, times: nat) -> Settled
    decreases times,
{
    if times == 0 {
        settled
    } else {
        settle_one(
            poisoned(settled, limit, message, (times - 1) as nat),
            limit,
            message,
            Some(ItemOutcome::Poison),
        )
    }
}

/// A message that keeps failing to map is given up at the failure that reaches the
/// limit, and no earlier: until then nothing is done to it, and its count grows by
/// one. A limit of zero gives it up at the first failure, as a limit of one does.
pub proof fn law_poison_is_given_up_at_the_limit(
    settled: Settled,
    limit: u8,
    message: Message,
    times: nat,
)
    requires
        !settled.attempts.contains_key(message.id),
        1 <= times,
        times <= limit || times == 1,
    ensures
        ({
            let after = poisoned(settled, limit, message, times);
            if times < limit {
                after == (Settled {
                    attempts: settled.attempts.insert(message.id, times as u8),
                    ..settled
                })
            } else {
                after == (Settled {
                    attempts: settled.attempts,
                    deeds: settled.deeds + give_up(message),
                    ..settled
                })
            }
        }),
    decreases times,
{
    let before = poisoned(settled, limit, message, (times - 1) as nat);
    let after = poisoned(settled, limit, message, times);
    if times > 1 {
        law_poison_is_given_up_at_the_limit(settled, limit, message, (times - 1) as nat);
    } else {
        assert(before == settled);
    }
    assert(failures(before.attempts, message.id) == times);
    if times < limit {
        assert(after.attempts =~= settled.attempts.insert(message.id, times as u8));
    } else {
        assert(after.attempts =~= settled.attempts);
    }
}

/// Whether the outcome of the message at a place has earned it the
/// acknowledgement at place `k` of the deeds: its operation is done or stale, or
/// its payload is to be dead-lettered just before.
pub open spec fn earned(
    deeds: Seq<Deed>,
    k: int,
    message: Message,
    outcome: Option<ItemOutcome>,
) -> bool {
    &&& deeds[k] == (Deed::Ack { id: message.id })
    &&& match outcome {
        Some(ItemOutcome::Ack) | Some(ItemOutcome::Stale) => true,
        Some(ItemOutcome::Poison) => k > 0 && deeds[k - 1] == (Deed::DeadLetter {
            payload: message.payload,
        }),
        _ => false,
    }
}

/// Acknowledgements are earned: whatever is to be acknowledged belongs to a message
/// of the batch whose operation is done or stale, or whose payload is to be
/// dead-lettered first.
pub proof fn law_acks_are_earned(
    attempts: Attempts,
    limit: u8,
    messages: Seq<Message>,
    outcomes: Seq<ItemOutcome>,
    k: int,
)
    requires
        0 <= k < settle_all(attempts, limit, messages, outcomes).deeds.len(),
        settle_all(attempts, limit, messages, outcomes).deeds[k] is Ack,
    ensures
        exists|j: int|
            0 <= j < messages.len() && earned(
                settle_all(attempts, limit, messages, outcomes).deeds,
                k,
                #[trigger] messages[j],
                outcome_at(outcomes, j),
            ),
    decreases messages.len(),
{
    let deeds = settle_all(attempts, limit, messages, outcomes).deeds;
    let head = messages.drop_last();
    let before = settle_all(attempts, limit, head, outcomes).deeds;
    let last = messages.len() - 1;
    if k < before.len() {
        law_acks_are_earned(attempts, limit, head, outcomes, k);
        let j = choose|j: int|
            0 <= j < head.len() && earned(before, k, #[trigger] head[j], outcome_at(outcomes, j));
        assert(messages[j] == head[j]);
        assert(deeds[k] == before[k]);
        if k > 0 {
            assert(deeds[k - 1] == before[k - 1]);
        }
        assert(earned(deeds, k, messages[j], outcome_at(outcomes, j)));
    } else {
        assert(earned(deeds, k, messages[last], outcome_at(outcomes, last)));
    }
}

/// Every message whose operation is done or stale is acknowledged.
pub proof fn law_done_is_acknowledged(
    attempts: Attempts,
    limit: u8,
    messages: Seq<Message>,
    outcomes: Seq<ItemOutcome>,
    j: int,
)
    requires
        0 <= j < messages.len(),
        outcome_at(outcomes, j) == Some(ItemOutcome::Ack) || outcome_at(outcomes, j) == Some(
            ItemOutcome::Stale,
        ),
    ensures
        settle_all(attempts, limit, messages, outcomes).deeds.contains(
            Deed::Ack { id: messages[j].id },
        ),
    decreases messages.len(),
{
    let deeds = settle_all(attempts, limit, messages, outcomes).deeds;
    let head = messages.drop_last();
    let before = settle_all(attempts, limit, head, outcomes).deeds;
    let ack = Deed::Ack { id: messages[j].id };
    if j < head.len() {
        law_done_is_acknowledged(attempts, limit, head, outcomes, j);
        assert(head[j] == messages[j]);
        let k = choose|k: int| 0 <= k < before.len() && before[k] == ack;
        assert(deeds[k] == ack);
    } else {
        assert(deeds[before.len() as int] == ack);
    }
}

/// A malformed message does not block its stream: it is dead-lettered and then
/// acknowledged, and it has no part in the request.
pub proof fn law_malformed_is_given_up(batch: Seq<Delivered>, i: int)
    requires
        0 <= i < batch.len(),
        batch[i].sealed is None,
    ensures
        !sound_places(batch).contains(i),
        exists|k: int|
            0 <= k < malformed_deeds(batch).len() - 1 && #[trigger] malformed_deeds(batch)[k]
                == (Deed::DeadLetter { payload: batch[i].message.payload }) && malformed_deeds(
                batch,
            )[k + 1] == (Deed::Ack { id: batch[i].message.id }),
    decreases batch.len(),
{
    let head = batch.drop_last();
    let before = malformed_deeds(head);
    let deeds = malformed_deeds(batch);
    lemma_places_are_sound(batch);
    assert(!sound_places(batch).contains(i)) by {
        if sound_places(batch).contains(i) {
            let k = choose|k: int| 0 <= k < sound_places(batch).len() && sound_places(batch)[k] == i;
            assert(batch[sound_places(batch)[k]].sealed is Some);
        }
    }
    if i < head.len() {
        law_malformed_is_given_up(head, i);
        assert(head[i] == batch[i]);
        let k = choose|k: int|
            0 <= k < before.len() - 1 && #[trigger] before[k] == (Deed::DeadLetter {
                payload: head[i].message.payload,
            }) && before[k + 1] == (Deed::Ack { id: head[i].message.id });
        assert(deeds[k] == before[k]);
        assert(deeds[k + 1] == before[k + 1]);
    } else {
        let k = before.len() as int;
        assert(deeds[k] == give_up(batch[i].message)[0]);
        assert(deeds[k + 1] == give_up(batch[i].message)[1]);
    }
}

/// Every well-formed message of a batch has its operation in the request, at the
/// place of the message among the well-formed ones.
pub proof fn law_sound_messages_are_sent(cfg: Consumption, batch: Seq<Delivered>, i: int)
    requires
        0 <= i < batch.len(),
        batch[i].sealed is Some,
    ensures
        exists|k: int|
            0 <= k < sound_messages(batch).len() && #[trigger] sound_messages(batch)[k]
                == batch[i].message && batch_operations(cfg, batch)[k] == operation_for(
                cfg,
                batch[i].sealed->0,
            ),
{
    lemma_sound_place_is_listed(batch, i);
    let places = sound_places(batch);
    let k = choose|k: int| 0 <= k < places.len() && places[k] == i;
    assert(sound_messages(batch)[k] == batch[i].message);
    assert(batch_operations(cfg, batch)[k] == operation_for(cfg, batch[i].sealed->0));
}

proof fn lemma_sound_place_is_listed(batch: Seq<Delivered>, i: int)
    requires
        0 <= i < batch.len(),
        batch[i].sealed is Some,
    ensures
        sound_places(batch).contains(i),
    decreases batch.len(),
{
    let head = batch.drop_last();
    let places = sound_places(head);
    if i < head.len() {
        lemma_sound_place_is_listed(head, i);
        assert(head[i] == batch[i]);
        let k = choose|k: int| 0 <= k < places.len() && places[k] == i;
        assert(sound_places(batch)[k] == i);
    } else {
        assert(sound_places(batch)[places.len() as int] == i);
    }
}

/// Every change reaches one worker: where producer and fleet agree on the prefix
/// and on the number of partitions, the stream of a change is read by the worker
/// of its partition and by no other.
pub proof fn law_every_change_reaches_one_worker(
    routing: Routing,
    cfg: Consumption,
    change: Change,
    partition: nat,
)
    requires
        routing.stream_prefix == cfg.stream_prefix,
        routing.partitions == cfg.partitions,
        routing.partitions >= 1,
    ensures
        routing.partition_of(change) < cfg.partitions,
        cfg.stream_key(partition) == routing.stream_of(change) <==> partition
            == routing.partition_of(change),
{
    if cfg.stream_key(partition) == routing.stream_of(change) {
        law_partitions_have_their_own_streams(
            cfg.stream_prefix,
            partition,
            routing.partition_of(change) as nat,
        );
    }
}

/// A worker leaves its loop at the start of a round, exactly when shutdown was
/// asked for.
pub proof fn law_worker_leaves_when_cancelled(claim_interval: u64, news: News)
    ensures
        task_after(claim_interval, news) == Task::Exit <==> (news matches News::Round {
            cancelled,
            ..
        } && cancelled),
{
}

/// Whether news can be what the task after other news leads to.
pub open spec fn follows(claim_interval: u64, before: News, news: News) -> bool {
    match task_after(claim_interval, before) {
        Task::Exit => false,
        Task::Reclaim => news == News::Claimed || news == News::ClaimFailed,
        Task::Process => if before == News::Claimed {
            news is ClaimProcessed
        } else {
            news is FetchProcessed
        },
        Task::RestartClaimClock { transient } => news == (News::ClockRestarted { transient }),
        Task::Fetch => news == News::Fetched || news is FetchFailed,
        Task::Sleep { .. } => news == News::Slept,
        Task::NextRound => news is Round,
    }
}

/// Whether the news at a place can follow those before it.
pub open spec fn is_step(claim_interval: u64, news: Seq<News>, k: int) -> bool {
    follows(claim_interval, news[k - 1], news[k])
}

/// Whether news follow one another in the loop of a worker.
pub open spec fn is_loop(claim_interval: u64, news: Seq<News>) -> bool {
    forall|k: int| 0 < k < news.len() ==> #[trigger] is_step(claim_interval, news, k)
}

/// A worker backs off: after a batch that calls for it, fetched or reclaimed, it
/// sleeps for the back-off time before it fetches or reclaims again.
pub proof fn law_backs_off_before_fetching(claim_interval: u64, news: Seq<News>, k: int)
    requires
        is_loop(claim_interval, news),
        0 <= k < news.len(),
        news[0] == (News::FetchProcessed { transient: true }) || news[0] == (
        News::ClaimProcessed { transient: true }),
        task_after(claim_interval, news[k]) == Task::Fetch || task_after(claim_interval, news[k])
            == Task::Reclaim,
    ensures
        exists|j: int|
            0 <= j < k && task_after(claim_interval, #[trigger] news[j]) == (Task::Sleep {
                ms: BACKOFF,
            }),
{
    if news[0] is FetchProcessed {
        assert(task_after(claim_interval, news[0]) == (Task::Sleep { ms: BACKOFF }));
    } else {
        assert(task_after(claim_interval, news[0]) == (Task::RestartClaimClock { transient: true }));
        assert(is_step(claim_interval, news, 1));
        assert(task_after(claim_interval, news[1]) == (Task::Sleep { ms: BACKOFF }));
    }
}

/// The claim clock is restarted after every sweep: between two sweeps stands a
/// restart.
pub proof fn law_sweeps_restart_the_claim_clock(
    claim_interval: u64,
    news: Seq<News>,
    i: int,
    k: int,
)
    requires
        is_loop(claim_interval, news),
        0 <= i < k < news.len(),
        task_after(claim_interval, news[i]) == Task::Reclaim,
        task_after(claim_interval, news[k]) == Task::Reclaim,
    ensures
        exists|j: int|
            i < j < k && task_after(claim_interval, #[trigger] news[j]) is RestartClaimClock,
{
    assert(is_step(claim_interval, news, i + 1));
    if news[i + 1] == News::Claimed {
        assert(is_step(claim_interval, news, i + 2));
        assert(task_after(claim_interval, news[i + 2]) is RestartClaimClock);
    } else {
        assert(task_after(claim_interval, news[i + 1]) is RestartClaimClock);
    }
}

/// A worker backs off exactly when some message of its batch failed for a passing
/// reason or has no outcome, wherever in the batch it stands and whatever comes behind
/// it.
pub proof fn law_passing_failure_is_never_forgotten(
    attempts: Attempts,
    limit: u8,
    messages: Seq<Message>,
    outcomes: Seq<ItemOutcome>,
)
    ensures
        settle_all(attempts, limit, messages, outcomes).transient <==> exists|j: int|
            0 <= j < messages.len() && (#[trigger] outcome_at(outcomes, j) is None || outcome_at(
                outcomes,
                j,
            ) == Some(ItemOutcome::Transient)),
        settle_all(attempts, limit, messages, outcomes).transient <==> messages.len()
            > outcomes.len() || exists|j: int|
            0 <= j < messages.len() && j < outcomes.len() && #[trigger] outcomes[j]
                == ItemOutcome::Transient,
    decreases messages.len(),
{
    if messages.len() > 0 {
        let head = messages.drop_last();
        let last = messages.len() - 1;
        law_passing_failure_is_never_forgotten(attempts, limit, head, outcomes);
        let before = settle_all(attempts, limit, head, outcomes).transient;
        let after = settle_all(attempts, limit, messages, outcomes).transient;
        let here = outcome_at(outcomes, last) is None || outcome_at(outcomes, last) == Some(
            ItemOutcome::Transient,
        );
        assert(after == (before || here));
        if before {
            let j = choose|j: int|
                0 <= j < head.len() && (#[trigger] outcome_at(outcomes, j) is None || outcome_at(
                    outcomes,
                    j,
                ) == Some(ItemOutcome::Transient));
            assert(outcome_at(outcomes, j) is None || outcomes[j] == ItemOutcome::Transient);
        }
        if here {
            assert(outcome_at(outcomes, last) is None || outcomes[last] == ItemOutcome::Transient);
        }
        if exists|j: int|
            0 <= j < messages.len() && j < outcomes.len() && #[trigger] outcomes[j]
                == ItemOutcome::Transient {
            let j = choose|j: int|
                0 <= j < messages.len() && j < outcomes.len() && #[trigger] outcomes[j]
                    == ItemOutcome::Transient;
            assert(outcome_at(outcomes, j) == Some(ItemOutcome::Transient));
        }
        if messages.len() > outcomes.len() {
            assert(outcome_at(outcomes, last) is None);
        }
    }
}

/// Messages are settled one by one. One whose operation is done or stale loses its
/// count and is acknowledged. One that could not be mapped is counted once more; when
/// the count reaches the limit it loses it, and is dead-lettered and then acknowledged.
/// Any other is left alone, and the worker is to back off. Nothing that was settled
/// before is changed by it.
pub proof fn law_messages_are_settled_one_by_one(
    attempts: Attempts,
    limit: u8,
    messages: Seq<Message>,
    outcomes: Seq<ItemOutcome>,
    message: Message,
)
    ensures
        settle_all(attempts, limit, Seq::empty(), outcomes) == (Settled {
            attempts,
            deeds: Seq::empty(),
            transient: false,
        }),
        ({
            let before = settle_all(attempts, limit, messages, outcomes);
            let after = settle_all(attempts, limit, messages.push(message), outcomes);
            let n = messages.len() as int;
            let count: int = if before.attempts.contains_key(message.id) {
                before.attempts[message.id] + 1
            } else {
                1
            };
            if n >= outcomes.len() || outcomes[n] == ItemOutcome::Transient {
                after.attempts == before.attempts && after.deeds == before.deeds && after.transient
            } else if outcomes[n] == ItemOutcome::Poison && count < limit {
                after.attempts == before.attempts.insert(message.id, count as u8) && after.deeds
                    == before.deeds && after.transient == before.transient
            } else if outcomes[n] == ItemOutcome::Poison {
                after.attempts == before.attempts.remove(message.id) && after.deeds
                    == before.deeds + seq![
                    Deed::DeadLetter { payload: message.payload },
                    Deed::Ack { id: message.id },
                ] && after.transient == before.transient
            } else {
                after.attempts == before.attempts.remove(message.id) && after.deeds
                    == before.deeds.push(Deed::Ack { id: message.id }) && after.transient
                    == before.transient
            }
        }),
{
    assert(messages.push(message).drop_last() =~= messages);
}

/// The count of a message changes only where the message is in the batch.
pub proof fn law_other_counts_stay(
    attempts: Attempts,
    limit: u8,
    messages: Seq<Message>,
    outcomes: Seq<ItemOutcome>,
    id: Seq<char>,
)
    requires
        forall|j: int| 0 <= j < messages.len() ==> (#[trigger] messages[j]).id != id,
    ensures
        ({
            let after = settle_all(attempts, limit, messages, outcomes).attempts;
            &&& after.contains_key(id) <==> attempts.contains_key(id)
            &&& attempts.contains_key(id) ==> after[id] == attempts[id]
        }),
    decreases messages.len(),
{
    if messages.len() > 0 {
        let head = messages.drop_last();
        assert forall|j: int| 0 <= j < head.len() implies (#[trigger] head[j]).id != id by {
            assert(head[j] == messages[j]);
        }
        law_other_counts_stay(attempts, limit, head, outcomes, id);
        assert(messages[messages.len() - 1].id != id);
    }
}

/// Planning a batch drops the counts of its malformed messages and keeps every other.
pub proof fn law_planning_drops_malformed_counts(
    attempts: Attempts,
    batch: Seq<Delivered>,
    id: Seq<char>,
)
    ensures
        without_malformed(attempts, batch).contains_key(id) <==> attempts.contains_key(id)
            && forall|i: int|
            0 <= i < batch.len() && (#[trigger] batch[i]).sealed is None ==> batch[i].message.id
                != id,
        without_malformed(attempts, batch).contains_key(id) ==> without_malformed(
            attempts,
            batch,
        )[id] == attempts[id],
    decreases batch.len(),
{
    if batch.len() > 0 {
        let head = batch.drop_last();
        law_planning_drops_malformed_counts(attempts, head, id);
        assert(forall|i: int| 0 <= i < head.len() ==> #[trigger] head[i] == batch[i]);
        let last = batch[batch.len() - 1];
        if without_malformed(attempts, batch).contains_key(id) {
            assert forall|i: int|
                0 <= i < batch.len() && (#[trigger] batch[i]).sealed is None implies batch[i].message.id
                != id by {
                if i < head.len() {
                    assert(head[i] == batch[i]);
                }
            }
        } else if without_malformed(attempts, head).contains_key(id) {
            assert(last.sealed is None && last.message.id == id);
        } else if attempts.contains_key(id) {
            let i = choose|i: int|
                0 <= i < head.len() && (#[trigger] head[i]).sealed is None && head[i].message.id
                    == id;
            assert(batch[i].sealed is None);
        }
    }
}

/// Deliveries are planned one by one: a malformed one is dead-lettered and then
/// acknowledged and sends nothing; a well-formed one is kept with its operation, and
/// nothing is done to it yet.
pub proof fn law_deliveries_are_planned_one_by_one(
    cfg: Consumption,
    batch: Seq<Delivered>,
    delivery: Delivered,
)
    ensures
        malformed_deeds(Seq::empty()).len() == 0,
        sound_messages(Seq::empty()).len() == 0,
        batch_operations(cfg, Seq::empty()).len() == 0,
        delivery.sealed is None ==> {
            &&& malformed_deeds(batch.push(delivery)) == malformed_deeds(batch) + seq![
                Deed::DeadLetter { payload: delivery.message.payload },
                Deed::Ack { id: delivery.message.id },
            ]
            &&& sound_messages(batch.push(delivery)) == sound_messages(batch)
            &&& batch_operations(cfg, batch.push(delivery)) == batch_operations(cfg, batch)
        },
        delivery.sealed matches Some(sealed) ==> {
            &&& malformed_deeds(batch.push(delivery)) == malformed_deeds(batch)
            &&& sound_messages(batch.push(delivery)) == sound_messages(batch).push(delivery.message)
            &&& batch_operations(cfg, batch.push(delivery)) == batch_operations(cfg, batch).push(
                operation_for(cfg, sealed),
            )
        },
{
    let longer = batch.push(delivery);
    assert(longer.drop_last() =~= batch);
    assert(longer.take(batch.len() as int) =~= batch);
    assert(longer.take(longer.len() as int) =~= longer);
    lemma_more_deliveries(cfg, longer, batch.len() as int);
}

/// The operation of a change is that of its row: it goes to the index of its table, for
/// the document of its key, with its version. A delete deletes the document and holds
/// no source; any other change indexes it, and the source reads back as every field of
/// the row, key columns as well as others.
pub proof fn law_operation_holds_the_whole_row(cfg: Consumption, sealed: Sealed)
    requires
        sealed.change.is_finite(),
    ensures
        ({
            let operation = operation_for(cfg, sealed);
            &&& operation.index == cfg.index_prefix + sealed.change.table()
            &&& operation.doc_id == document_id_of(sealed.change.table(), sealed.change.key())
            &&& operation.version == sealed.version
            &&& sealed.change is Delete ==> operation.op == BulkOp::Delete && operation.source
                is None
            &&& sealed.change !is Delete ==> {
                &&& operation.op == BulkOp::Index
                &&& operation.source is Some
                &&& fields_in(operation.source) == Some(sealed.change.data())
                &&& forall|name: Seq<char>|
                    sealed.change.data().contains_key(name) ==> #[trigger] operation.source->0.get(
                        name,
                    ) == Some(Tree::Text(sealed.change.data()[name]))
                &&& forall|name: Seq<char>|
                    !sealed.change.data().contains_key(name) ==> #[trigger] operation.source->0.get(
                        name,
                    ) is None
            }
        }),
{
    let data = sealed.change.data();
    let operation = operation_for(cfg, sealed);
    if sealed.change !is Delete {
        law_fields_are_read_back(data);
        assert forall|name: Seq<char>|
            (data.contains_key(name) ==> #[trigger] operation.source->0.get(name) == Some(
                Tree::Text(data[name]),
            )) && (!data.contains_key(name) ==> operation.source->0.get(name) is None) by {
            law_every_field_is_found(data, name);
        }
    }
}

/// An insert and an update of one row are one operation: with the same table, key,
/// fields and version, nothing tells them apart.
pub proof fn law_insert_and_update_are_one_operation(
    cfg: Consumption,
    table: Seq<char>,
    key: Fields,
    data: Fields,
    version: u64,
)
    ensures
        operation_for(cfg, Sealed { version, change: Change::Insert { table, key, data } })
            == operation_for(cfg, Sealed { version, change: Change::Update { table, key, data } }),
{
}

/// Insert, update and delete of one row are about one document, in one index.
pub proof fn law_changes_of_a_row_share_their_document(
    cfg: Consumption,
    one: Sealed,
    other: Sealed,
)
    requires
        one.change.table() == other.change.table(),
        one.change.key() == other.change.key(),
    ensures
        operation_for(cfg, one).doc_id == operation_for(cfg, other).doc_id,
        operation_for(cfg, one).index == operation_for(cfg, other).index,
{
}

/// A worker sweeps exactly at the start of a round that is not the last and that comes
/// at least the claim interval after the last sweep.
pub proof fn law_sweep_comes_when_it_is_due(claim_interval: u64, news: News)
    ensures
        task_after(claim_interval, news) == Task::Reclaim <==> (news matches News::Round {
            cancelled,
            since_claim,
        } && !cancelled && since_claim >= claim_interval),
{
}

/// A worker fetches exactly at the start of a round in which no sweep is due, and after
/// a sweep that does not call for a back-off.
pub proof fn law_fetch_follows_the_sweep(claim_interval: u64, news: News)
    ensures
        task_after(claim_interval, news) == Task::Fetch <==> (news == (News::ClockRestarted {
            transient: false,
        }) || (news matches News::Round { cancelled, since_claim } && !cancelled && since_claim
            < claim_interval)),
{
}

/// A worker sleeps for 200 milliseconds exactly after a batch that went well, and for
/// 1000 after one that did not, after a sweep that did not, and after a fetch that
/// failed while no shutdown was asked for. It never sleeps for another time.
pub proof fn law_worker_sleeps(claim_interval: u64, news: News, ms: u64)
    ensures
        task_after(claim_interval, news) == (Task::Sleep { ms }) <==> (ms == 200 && news == (
        News::FetchProcessed { transient: false })) || (ms == 1000 && (news == (
        News::FetchProcessed { transient: true }) || news == (News::ClockRestarted {
            transient: true,
        }) || news == (News::FetchFailed { cancelled: false }))),
{
}

/// A worker processes exactly what came back, and restarts its claim clock exactly when
/// a sweep is over, with the back-off that the sweep calls for.
pub proof fn law_worker_processes_what_came_back(
    claim_interval: u64,
    news: News,
    transient: bool,
)
    ensures
        task_after(claim_interval, news) == Task::Process <==> (news == News::Claimed || news
            == News::Fetched),
        task_after(claim_interval, news) == (Task::RestartClaimClock { transient }) <==> (news == (
        News::ClaimProcessed { transient }) || (news == News::ClaimFailed && !transient)),
{
}

/// A round ends exactly with its sleep, or with a fetch that shutdown cut short.
pub proof fn law_round_ends_with_its_sleep(claim_interval: u64, news: News)
    ensures
        task_after(claim_interval, news) == Task::NextRound <==> (news == News::Slept || news == (
        News::FetchFailed { cancelled: true })),
{
}

/// Groups are made partition by partition, from the first: the next one follows as long
/// as partitions are left and no error came but that a group is there; the fleet starts
/// once none is left; and any other error stops, however many are left.
pub proof fn law_groups_are_made_in_order(
    partitions: usize,
    made: usize,
    error: Option<Seq<char>>,
    partition: usize,
)
    ensures
        group_task(partitions, made, error) == GroupTask::Fail <==> (error matches Some(text)
            && !occurs_in("BUSYGROUP"@, text)),
        group_task(partitions, made, error) == (GroupTask::Create { partition }) <==> (made
            < partitions && partition == made && (error matches Some(text) ==> occurs_in(
            "BUSYGROUP"@,
            text,
        ))),
        group_task(partitions, made, error) == GroupTask::Start <==> (made >= partitions && (
        error matches Some(text) ==> occurs_in("BUSYGROUP"@, text))),
{
}

/// A worker claims from the stream of its own partition, for its group and in its name,
/// from the first message on, and as many as a batch holds. Its group reads the same
/// stream from its end on.
pub proof fn law_worker_claims_from_its_stream(duty: Duty)
    ensures
        claim_texts(duty).len() == 7,
        claim_texts(duty)[0] == duty.cfg.stream_prefix + decimal_text(duty.partition as nat),
        claim_texts(duty)[1] == duty.cfg.group_name,
        claim_texts(duty)[2] == duty.consumer,
        claim_texts(duty)[3] == decimal_text(duty.cfg.claim_idle_ms as nat),
        claim_texts(duty)[4] == "0"@,
        claim_texts(duty)[5] == "COUNT"@,
        claim_texts(duty)[6] == decimal_text(duty.cfg.batch_size as nat),
        group_texts(duty.cfg, duty.partition as nat).len() == 5,
        group_texts(duty.cfg, duty.partition as nat)[0] == "CREATE"@,
        group_texts(duty.cfg, duty.partition as nat)[3] == "$"@,
        group_texts(duty.cfg, duty.partition as nat)[4] == "MKSTREAM"@,
        claim_texts(duty)[0] == group_texts(duty.cfg, duty.partition as nat)[1],
        claim_texts(duty)[1] == group_texts(duty.cfg, duty.partition as nat)[2],
{
}

}

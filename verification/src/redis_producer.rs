//! The entries that a committed transaction makes in partitioned Redis streams.

use crate::document::document_id_of;
use crate::envelope::{law_fields_are_read_back, lemma_row_members_are_found, sealed_in, Sealed};
use crate::event::{changes_of, Change, Fields, ParsedTransaction, TxnEvent};
use crate::fields::{lemma_names_differ_at, name_before};
use crate::json::{
    fields_json, fields_tree, json_parsed, json_text, json_text_of, member_from, names_in_order,
    tree_of, Json, Tree, DEEPEST,
};
use crate::text::{
    decimal_text, digits_value, hex_text, joined, lemma_radix_text_reads_back, to_decimal, to_hex,
};
use vstd::prelude::*;
use vstd::string::*;
use vstd::utf8::encode_utf8;

verus! {

/// Where an FNV-1a hash starts.
pub const FNV_OFFSET: u64 = 0xcbf29ce484222325;

/// What an FNV-1a hash is multiplied by at each byte.
pub const FNV_PRIME: u64 = 0x100000001b3;

/// The FNV-1a hash of bytes.
pub open spec fn fnv1a(bytes: Seq<u8>) -> u64
    decreases bytes.len(),
{
    if bytes.len() == 0 {
        FNV_OFFSET
    } else {
        (fnv1a(bytes.drop_last()) ^ (bytes.last() as u64)).wrapping_mul(FNV_PRIME)
    }
}

/// The partition of a document among `partitions`.
pub open spec fn document_partition(document_id: Seq<char>, partitions: usize) -> usize {
    (fnv1a(encode_utf8(document_id)) as usize) % partitions
}

/// The key of the stream of a partition.
pub open spec fn stream_key_of(prefix: Seq<char>, partition: nat) -> Seq<char> {
    prefix + decimal_text(partition)
}

/// The operation that a change is announced as.
pub open spec fn op_text(change: Change) -> Seq<char> {
    match change {
        Change::Insert { .. } => "insert"@,
        Change::Update { .. } => "update"@,
        Change::Delete { .. } => "delete"@,
    }
}

/// A row with its data as members of an object.
pub open spec fn row_members(table: Seq<char>, key: Fields, data: Fields) -> Seq<
    (Seq<char>, Tree),
> {
    seq![
        ("data"@, fields_tree(data)),
        ("key"@, fields_tree(key)),
        ("table"@, Tree::Text(table)),
    ]
}

/// A row without its data as members of an object.
pub open spec fn bare_row_members(table: Seq<char>, key: Fields) -> Seq<(Seq<char>, Tree)> {
    seq![("key"@, fields_tree(key)), ("table"@, Tree::Text(table))]
}

/// A change as JSON: its kind, and under it the row.
pub open spec fn event_tree(change: Change) -> Tree {
    Tree::Object(
        match change {
            Change::Insert { table, key, data } => seq![
                ("Insert"@, Tree::Object(row_members(table, key, data))),
            ],
            Change::Update { table, key, data } => seq![
                ("Update"@, Tree::Object(row_members(table, key, data))),
            ],
            Change::Delete { table, key } => seq![
                ("Delete"@, Tree::Object(bare_row_members(table, key))),
            ],
        },
    )
}

/// The payload of a change: who published it, in which transaction, under which
/// version, and what it is.
pub open spec fn payload_tree(
    producer: Seq<char>,
    commit_lsn: u64,
    version: u64,
    change: Change,
) -> Tree {
    Tree::Object(
        seq![
            ("commit_lsn"@, Tree::Text(hex_text(commit_lsn as nat))),
            ("event"@, event_tree(change)),
            ("op"@, Tree::Text(op_text(change))),
            ("producer"@, Tree::Text(producer)),
            ("version"@, Tree::Unsigned(version)),
        ],
    )
}

/// FNV-1a 64-bit hash.
pub fn fnv1a_64(bytes: &[u8]) -> (hash: u64)
    ensures
        hash == fnv1a(bytes@),
{
    let mut hash: u64 = FNV_OFFSET;
    assert(bytes@.take(0) =~= Seq::<u8>::empty());
    for i in 0..bytes.len()
        invariant
            hash == fnv1a(bytes@.take(i as int)),
    {
        assert(bytes@.take(i + 1).drop_last() =~= bytes@.take(i as int));
        hash = (hash ^ (bytes[i] as u64)).wrapping_mul(FNV_PRIME);
    }
    assert(bytes@.take(bytes@.len() as int) =~= bytes@);
    hash
}

proof fn lemma_row_is_writable(table: Seq<char>, key: Fields, data: Fields)
    requires
        fields_tree(key).is_writable(),
        fields_tree(data).is_writable(),
        fields_tree(key).nests_within(1),
        fields_tree(data).nests_within(1),
    ensures
        Tree::Object(row_members(table, key, data)).is_writable(),
        Tree::Object(row_members(table, key, data)).nests_within(2),
{
    reveal_strlit("data");
    reveal_strlit("key");
    reveal_strlit("table");
    lemma_names_differ_at("data"@, "key"@, 0);
    lemma_names_differ_at("data"@, "table"@, 0);
    lemma_names_differ_at("key"@, "table"@, 0);
    let members = row_members(table, key, data);
    assert(names_in_order(members));
    assert(members[2].1.is_writable());
    assert(forall|i: int|
        0 <= i < members.len() ==> (#[trigger] members[i]).1.is_writable());
    assert(forall|i: int|
        0 <= i < members.len() ==> (#[trigger] members[i]).1.nests_within(1));
}

proof fn lemma_bare_row_is_writable(table: Seq<char>, key: Fields)
    requires
        fields_tree(key).is_writable(),
        fields_tree(key).nests_within(1),
    ensures
        Tree::Object(bare_row_members(table, key)).is_writable(),
        Tree::Object(bare_row_members(table, key)).nests_within(2),
{
    reveal_strlit("key");
    reveal_strlit("table");
    lemma_names_differ_at("key"@, "table"@, 0);
    let members = bare_row_members(table, key);
    assert(names_in_order(members));
    assert(forall|i: int|
        0 <= i < members.len() ==> (#[trigger] members[i]).1.is_writable());
    assert(forall|i: int|
        0 <= i < members.len() ==> (#[trigger] members[i]).1.nests_within(1));
}

fn row_json(table: &String, key: Json, data: Json) -> (json: Json)
    ensures
        json@->Object_0 == seq![("data"@, data@), ("key"@, key@), ("table"@, Tree::Text(table@))],
        json@ is Object,
{
    let mut row: Vec<(String, Json)> = Vec::new();
    row.push(("data".to_owned(), data));
    row.push(("key".to_owned(), key));
    row.push(("table".to_owned(), Json::Text(table.clone())));
    let json = Json::Object(row);
    proof {
        reveal_with_fuel(tree_of, 2);
        assert(json@->Object_0 =~= seq![
            ("data"@, data@),
            ("key"@, key@),
            ("table"@, Tree::Text(table@)),
        ]);
    }
    json
}

fn bare_row_json(table: &String, key: Json) -> (json: Json)
    ensures
        json@->Object_0 == seq![("key"@, key@), ("table"@, Tree::Text(table@))],
        json@ is Object,
{
    let mut row: Vec<(String, Json)> = Vec::new();
    row.push(("key".to_owned(), key));
    row.push(("table".to_owned(), Json::Text(table.clone())));
    let json = Json::Object(row);
    proof {
        reveal_with_fuel(tree_of, 2);
        assert(json@->Object_0 =~= seq![("key"@, key@), ("table"@, Tree::Text(table@))]);
    }
    json
}

/// A change as JSON.
pub fn event_json(event: &TxnEvent) -> (json: Json)
    ensures
        json@ == event_tree(event@),
        json@.is_writable(),
        json@.nests_within(3),
        event@.is_finite(),
{
    let (kind, row) = match event {
        TxnEvent::Insert { table, key, data } => {
            ("Insert".to_owned(), row_json(table, fields_json(key), fields_json(data)))
        },
        TxnEvent::Update { table, key, data } => {
            ("Update".to_owned(), row_json(table, fields_json(key), fields_json(data)))
        },
        TxnEvent::Delete { table, key } => {
            ("Delete".to_owned(), bare_row_json(table, fields_json(key)))
        },
    };
    proof {
        match event {
            TxnEvent::Insert { table, key, data } => lemma_row_is_writable(table@, key@, data@),
            TxnEvent::Update { table, key, data } => lemma_row_is_writable(table@, key@, data@),
            TxnEvent::Delete { table, key } => lemma_bare_row_is_writable(table@, key@),
        }
    }
    let ghost inner = row@;
    let mut members: Vec<(String, Json)> = Vec::new();
    members.push((kind, row));
    let json = Json::Object(members);
    assert(json@->Object_0 =~= seq![(kind@, inner)]);
    assert(json@->Object_0 =~= event_tree(event@)->Object_0);
    assert(json@->Object_0[0].1.is_writable());
    assert(json@->Object_0[0].1.nests_within(2));
    json
}

/// The payload of a change.
pub fn payload_json(producer: &str, commit_lsn: u64, version: u64, event: &TxnEvent) -> (json: Json)
    ensures
        json@ == payload_tree(producer@, commit_lsn, version, event@),
        json@.is_writable(),
        json@.nests_within(4),
        event@.is_finite(),
{
    let op = match event {
        TxnEvent::Insert { .. } => "insert",
        TxnEvent::Update { .. } => "update",
        TxnEvent::Delete { .. } => "delete",
    };
    let event_value = event_json(event);
    let ghost tree = event_value@;
    let mut members: Vec<(String, Json)> = Vec::new();
    members.push(("commit_lsn".to_owned(), Json::Text(to_hex(commit_lsn))));
    members.push(("event".to_owned(), event_value));
    members.push(("op".to_owned(), Json::Text(op.to_owned())));
    members.push(("producer".to_owned(), Json::Text(producer.to_owned())));
    members.push(("version".to_owned(), Json::Unsigned(version)));
    let json = Json::Object(members);
    proof {
        let listed = payload_tree(producer@, commit_lsn, version, event@)->Object_0;
        assert(json@->Object_0 =~= listed) by {
            reveal_with_fuel(tree_of, 2);
            assert(json@->Object_0[1] == ("event"@, tree));
        }
        lemma_payload_names_are_in_order(listed);
        assert(forall|i: int|
            0 <= i < listed.len() ==> (#[trigger] listed[i]).1.is_writable());
        assert(forall|i: int|
            0 <= i < listed.len() ==> (#[trigger] listed[i]).1.nests_within(3));
    }
    json
}

proof fn lemma_payload_names_are_in_order(members: Seq<(Seq<char>, Tree)>)
    requires
        members.len() == 5,
        members[0].0 == "commit_lsn"@,
        members[1].0 == "event"@,
        members[2].0 == "op"@,
        members[3].0 == "producer"@,
        members[4].0 == "version"@,
    ensures
        names_in_order(members),
{
    reveal_strlit("commit_lsn");
    reveal_strlit("event");
    reveal_strlit("op");
    reveal_strlit("producer");
    reveal_strlit("version");
    assert forall|i: int, j: int| 0 <= i < j < members.len() implies name_before(
        (#[trigger] members[i]).0,
        (#[trigger] members[j]).0,
    ) by {
        assert(i == 0 || i == 1 || i == 2 || i == 3);
        assert(j == 1 || j == 2 || j == 3 || j == 4);
        lemma_names_differ_at(members[i].0, members[j].0, 0);
    }
}

/// An entry to append to a stream: the key of the stream, and the text under
/// `payload`.
#[derive(Debug)]
pub struct StreamEntry {
    pub key: String,
    pub payload: String,
}

/// What to do next while entries are appended.
#[derive(Debug, Clone, Copy, PartialEq, Eq, Structural)]
pub enum AppendStep {
    /// Append the entry at this place.
    Append { at: usize },
    /// Every entry is appended.
    Done,
    /// Stop; an entry could not be appended.
    Fail,
}

/// What follows once `done` of the entries are appended, and whether the last try
/// failed.
pub open spec fn append_step(entries: usize, done: usize, failed: bool) -> AppendStep {
    if failed {
        AppendStep::Fail
    } else if done < entries {
        AppendStep::Append { at: done }
    } else {
        AppendStep::Done
    }
}

/// Decides what to do next while entries are appended: `done` of them are, and
/// `failed` tells whether the last try was in vain.
pub fn next_append(entries: usize, done: usize, failed: bool) -> (step: AppendStep)
    ensures
        step == append_step(entries, done, failed),
{
    if failed {
        AppendStep::Fail
    } else if done < entries {
        AppendStep::Append { at: done }
    } else {
        AppendStep::Done
    }
}

/// What follows the first `k` tries to append, given which of them failed.
pub open spec fn append_step_at(entries: usize, failures: Seq<bool>, k: int) -> AppendStep {
    append_step(entries, k as usize, k > 0 && failures[k - 1])
}

/// Whether entries were appended one after the other, with these failures.
pub open spec fn is_append_run(entries: usize, failures: Seq<bool>) -> bool {
    forall|k: int|
        0 <= k < failures.len() ==> #[trigger] append_step_at(entries, failures, k) == (
        AppendStep::Append { at: k as usize })
}

/// No append follows a failed one, and a run is done only when every entry was
/// appended without a failure.
pub proof fn law_no_append_follows_a_failed_one(entries: usize, failures: Seq<bool>, k: int)
    requires
        failures.len() <= usize::MAX,
        is_append_run(entries, failures),
        0 <= k < failures.len(),
    ensures
        failures[k] ==> k == failures.len() - 1 && append_step_at(
            entries,
            failures,
            failures.len() as int,
        ) == AppendStep::Fail,
        append_step_at(entries, failures, failures.len() as int) == AppendStep::Done ==> !failures[k]
            && failures.len() == entries,
{
    if k + 1 < failures.len() {
        assert(append_step_at(entries, failures, k + 1) is Append);
    }
    assert(append_step_at(entries, failures, failures.len() - 1) is Append);
}

/// Publishes transactions to partitioned streams.
#[derive(Debug)]
pub struct RedisStreamProducer {
    /// Prefix applied to every stream key, e.g. `events:` -> `events:0`.
    stream_prefix: String,
    /// Number of partitions. A row is routed to `hash(table+key) % partitions`.
    partitions: usize,
    /// Logical name attached to every event (useful for debugging).
    producer_name: String,
}

/// How a producer publishes.
pub ghost struct Routing {
    pub stream_prefix: Seq<char>,
    pub partitions: usize,
    pub producer_name: Seq<char>,
}

impl Routing {
    /// The partition of a change.
    pub open spec fn partition_of(self, change: Change) -> usize {
        document_partition(change.document_id(), self.partitions)
    }

    /// The stream of a change.
    pub open spec fn stream_of(self, change: Change) -> Seq<char> {
        stream_key_of(self.stream_prefix, self.partition_of(change) as nat)
    }

    /// The payload of a change at a place in its transaction. The version is the
    /// commit position plus that place.
    pub open spec fn payload_at(self, commit_lsn: u64, place: int, change: Change) -> Tree {
        payload_tree(self.producer_name, commit_lsn, (commit_lsn + place) as u64, change)
    }
}

impl Routing {
    /// Whether entries publish the changes of a transaction: one for each, in
    /// order, on the stream of its row, with a text that reads back as its payload,
    /// which says the version and the change.
    pub open spec fn publishes(
        self,
        commit_lsn: u64,
        changes: Seq<Change>,
        entries: Seq<StreamEntry>,
    ) -> bool {
        &&& entries.len() == changes.len()
        &&& forall|i: int|
            #![trigger entries[i]]
            0 <= i < entries.len() ==> {
                let payload = self.payload_at(commit_lsn, i, changes[i]);
                &&& entries[i].key@ == self.stream_of(changes[i])
                &&& entries[i].payload@ == json_text_of(payload)
                &&& json_parsed(encode_utf8(entries[i].payload@)) == Some(payload)
                &&& sealed_in(payload) == Some(
                    Sealed { version: (commit_lsn + i) as u64, change: changes[i] },
                )
            }
    }
}

impl View for RedisStreamProducer {
    type V = Routing;

    closed spec fn view(&self) -> Routing {
        Routing {
            stream_prefix: self.stream_prefix@,
            partitions: self.partitions,
            producer_name: self.producer_name@,
        }
    }
}

impl RedisStreamProducer {
    #[verifier::type_invariant]
    spec fn has_a_partition(self) -> bool {
        self.partitions >= 1
    }

    /// A producer for `partitions` streams, and for one where there would be none.
    pub fn new(stream_prefix: String, partitions: usize, producer_name: String) -> (producer: Self)
        ensures
            producer@ == (Routing {
                stream_prefix: stream_prefix@,
                partitions: if partitions < 1 {
                    1
                } else {
                    partitions
                },
                producer_name: producer_name@,
            }),
    {
        let partitions: usize = if partitions < 1 {
            1
        } else {
            partitions
        };
        RedisStreamProducer { stream_prefix, partitions, producer_name }
    }

    /// Partition for an event: stable FNV-1a over the document id, mod N.
    /// Stable across restarts so a row always lands on the same stream, preserving
    /// per-row ordering.
    pub fn partition_of(&self, event: &TxnEvent) -> (partition: usize)
        ensures
            partition == self@.partition_of(event@),
            partition < self@.partitions,
    {
        proof {
            use_type_invariant(self);
        }
        let id = event.document_id();
        (fnv1a_64(id.as_str().as_bytes()) as usize) % self.partitions
    }

    /// The key of the stream of a partition.
    pub fn stream_key(&self, partition: usize) -> (key: String)
        ensures
            key@ == stream_key_of(self@.stream_prefix, partition as nat),
    {
        let number = to_decimal(partition as u64);
        joined(self.stream_prefix.as_str(), number.as_str())
    }

    /// The entries that publish a transaction, to be appended in order. Each
    /// row-level event becomes one entry in the stream for its partition, and its
    /// payload reads back as the version and the change that it was written from.
    pub fn publish(&self, txn: &ParsedTransaction) -> (entries: Vec<StreamEntry>)
        requires
            txn.commit_lsn + txn.events@.len() <= u64::MAX + 1,
        ensures
            self@.publishes(txn.commit_lsn, changes_of(txn.events@), entries@),
    {
        let mut entries: Vec<StreamEntry> = Vec::new();
        for i in 0..txn.events.len()
            invariant
                txn.commit_lsn + txn.events@.len() <= u64::MAX + 1,
                entries@.len() == i,
                forall|k: int|
                    #![trigger entries@[k]]
                    0 <= k < i ==> {
                        let payload = self@.payload_at(txn.commit_lsn, k, txn.events@[k]@);
                        &&& entries@[k].key@ == self@.stream_of(txn.events@[k]@)
                        &&& entries@[k].payload@ == json_text_of(payload)
                        &&& json_parsed(encode_utf8(entries@[k].payload@)) == Some(payload)
                        &&& sealed_in(payload) == Some(
                            Sealed {
                                version: (txn.commit_lsn + k) as u64,
                                change: txn.events@[k]@,
                            },
                        )
                    },
        {
            let event = &txn.events[i];
            let version: u64 = txn.commit_lsn + i as u64;
            let payload = payload_json(
                self.producer_name.as_str(),
                txn.commit_lsn,
                version,
                event,
            );
            proof {
                lemma_deeper_still_nests(payload@, 4, DEEPEST as nat);
                law_payload_is_read_back(
                    self.producer_name@,
                    txn.commit_lsn,
                    version,
                    event@,
                );
            }
            let partition = self.partition_of(event);
            let entry = StreamEntry {
                key: self.stream_key(partition),
                payload: json_text(&payload),
            };
            entries.push(entry);
        }
        entries
    }
}

proof fn lemma_deeper_still_nests(tree: Tree, depth: nat, more: nat)
    requires
        tree.nests_within(depth),
        depth <= more,
    ensures
        tree.nests_within(more),
    decreases depth,
{
    match tree {
        Tree::Array(items) => {
            assert forall|i: int| 0 <= i < items.len() implies (
            #[trigger] items[i]).nests_within((more - 1) as nat) by {
                lemma_deeper_still_nests(items[i], (depth - 1) as nat, (more - 1) as nat);
            }
        },
        Tree::Object(members) => {
            assert forall|i: int| 0 <= i < members.len() implies (
            #[trigger] members[i]).1.nests_within((more - 1) as nat) by {
                lemma_deeper_still_nests(members[i].1, (depth - 1) as nat, (more - 1) as nat);
            }
        },
        _ => {},
    }
}

/// All changes of a row go to one stream, whatever kind of change they are: the
/// partition depends on the table and the key alone.
pub proof fn law_row_stays_on_its_stream(routing: Routing, change: Change, other: Change)
    requires
        change.table() == other.table(),
        change.key() == other.key(),
    ensures
        routing.partition_of(change) == routing.partition_of(other),
        routing.stream_of(change) == routing.stream_of(other),
{
}

/// Partitions do not share a stream.
pub proof fn law_partitions_have_their_own_streams(prefix: Seq<char>, p: nat, q: nat)
    requires
        stream_key_of(prefix, p) == stream_key_of(prefix, q),
    ensures
        p == q,
{
    let key = stream_key_of(prefix, p);
    assert(key.skip(prefix.len() as int) =~= decimal_text(p));
    assert(key.skip(prefix.len() as int) =~= decimal_text(q));
    lemma_radix_text_reads_back(p, 10);
    lemma_radix_text_reads_back(q, 10);
}

/// What a reader of a payload finds under each name.
pub proof fn law_payload_tells_its_parts(
    producer: Seq<char>,
    commit_lsn: u64,
    version: u64,
    change: Change,
)
    ensures
        ({
            let payload = payload_tree(producer, commit_lsn, version, change);
            &&& payload.get("version"@) == Some(Tree::Unsigned(version))
            &&& payload.get("event"@) == Some(event_tree(change))
            &&& payload.get("op"@) == Some(Tree::Text(op_text(change)))
            &&& payload.get("producer"@) == Some(Tree::Text(producer))
            &&& payload.get("commit_lsn"@) == Some(Tree::Text(hex_text(commit_lsn as nat)))
            &&& digits_value(hex_text(commit_lsn as nat), 16) == Some(commit_lsn as nat)
        }),
{
    reveal_strlit("commit_lsn");
    reveal_strlit("event");
    reveal_strlit("op");
    reveal_strlit("producer");
    reveal_strlit("version");
    assert("commit_lsn"@[0] == 'c');
    assert("event"@[0] == 'e');
    assert("op"@[0] == 'o');
    assert("producer"@[0] == 'p');
    assert("version"@[0] == 'v');
    reveal_with_fuel(member_from, 5);
    lemma_radix_text_reads_back(commit_lsn as nat, 16);
}

/// What a consumer reads out of a payload is what was published: the version, and
/// the change with its kind, table, key and data.
pub proof fn law_payload_is_read_back(
    producer: Seq<char>,
    commit_lsn: u64,
    version: u64,
    change: Change,
)
    requires
        change.is_finite(),
    ensures
        sealed_in(payload_tree(producer, commit_lsn, version, change)) == Some(
            Sealed { version, change },
        ),
{
    law_payload_tells_its_parts(producer, commit_lsn, version, change);
    reveal_strlit("Insert");
    reveal_strlit("Update");
    reveal_strlit("Delete");
    assert("Insert"@[0] == 'I');
    assert("Update"@[0] == 'U');
    assert("Delete"@[0] == 'D');
    lemma_row_members_are_found(
        Tree::Text(change.table()),
        fields_tree(change.key()),
        fields_tree(change.data()),
    );
    law_fields_are_read_back(change.key());
    law_fields_are_read_back(change.data());
}

/// Inside a transaction the versions rise strictly with the place of the change,
/// from the commit position on.
pub proof fn law_versions_rise(
    routing: Routing,
    commit_lsn: u64,
    changes: Seq<Change>,
    i: int,
    j: int,
)
    requires
        commit_lsn + changes.len() <= u64::MAX + 1,
        0 <= i < j < changes.len(),
    ensures
        routing.payload_at(commit_lsn, 0, changes[0]).get("version"@) == Some(
            Tree::Unsigned(commit_lsn),
        ),
        routing.payload_at(commit_lsn, i, changes[i]).get("version"@) == Some(
            Tree::Unsigned((commit_lsn + i) as u64),
        ),
        match (
            routing.payload_at(commit_lsn, i, changes[i]).get("version"@),
            routing.payload_at(commit_lsn, j, changes[j]).get("version"@),
        ) {
            (Some(Tree::Unsigned(first)), Some(Tree::Unsigned(second))) => first < second,
            _ => false,
        },
{
    let name = routing.producer_name;
    law_payload_tells_its_parts(name, commit_lsn, commit_lsn, changes[0]);
    law_payload_tells_its_parts(name, commit_lsn, (commit_lsn + i) as u64, changes[i]);
    law_payload_tells_its_parts(name, commit_lsn, (commit_lsn + j) as u64, changes[j]);
}

/// A change is kept by its JSON: no two changes look alike, neither in kind nor in
/// table, key or data.
pub proof fn law_event_is_kept(change: Change, other: Change)
    requires
        change.is_finite(),
        other.is_finite(),
        event_tree(change) == event_tree(other),
    ensures
        change == other,
{
    law_payload_is_read_back(Seq::empty(), 0, 0, change);
    law_payload_is_read_back(Seq::empty(), 0, 0, other);
    law_payload_tells_its_parts(Seq::empty(), 0, 0, change);
    law_payload_tells_its_parts(Seq::empty(), 0, 0, other);
}

/// The changes of a row inside a transaction keep their order: they are entries of
/// one stream, the earlier one first, and the version of the later one is greater.
pub proof fn law_row_changes_keep_their_order(
    routing: Routing,
    commit_lsn: u64,
    changes: Seq<Change>,
    entries: Seq<StreamEntry>,
    i: int,
    j: int,
)
    requires
        commit_lsn + changes.len() <= u64::MAX + 1,
        routing.publishes(commit_lsn, changes, entries),
        0 <= i < j < changes.len(),
        changes[i].table() == changes[j].table(),
        changes[i].key() == changes[j].key(),
    ensures
        entries[i].key@ == entries[j].key@,
        match (
            json_parsed(encode_utf8(entries[i].payload@)),
            json_parsed(encode_utf8(entries[j].payload@)),
        ) {
            (Some(first), Some(second)) => match (first.get("version"@), second.get("version"@)) {
                (Some(Tree::Unsigned(v)), Some(Tree::Unsigned(w))) => v < w,
                _ => false,
            },
            _ => false,
        },
{
    law_row_stays_on_its_stream(routing, changes[i], changes[j]);
    law_versions_rise(routing, commit_lsn, changes, i, j);
    assert(entries[i].key@ == routing.stream_of(changes[i]));
    assert(entries[j].key@ == routing.stream_of(changes[j]));
}

/// The FNV-1a hash, byte by byte: it starts at the offset basis, and each byte is
/// mixed in by an exclusive or, then a multiplication by the prime modulo 2^64.
pub proof fn law_hash_mixes_in_every_byte(bytes: Seq<u8>, byte: u8)
    ensures
        fnv1a(Seq::empty()) == 14695981039346656037,
        fnv1a(bytes.push(byte)) == ((fnv1a(bytes) ^ (byte as u64)) * 1099511628211)
            % 0x1_0000_0000_0000_0000,
{
    assert(bytes.push(byte).drop_last() =~= bytes);
    assert(bytes.push(byte).last() == byte);
}

/// The partition of a row is the remainder of the hash of its whole document id, and
/// one of the partitions there are.
pub proof fn law_partition_is_the_hash_of_the_id(routing: Routing, change: Change)
    requires
        routing.partitions >= 1,
    ensures
        routing.partition_of(change) < routing.partitions,
        routing.partition_of(change) == (fnv1a(
            encode_utf8(document_id_of(change.table(), change.key())),
        ) as usize) as int % routing.partitions as int,
{
}

/// The key of a stream is the prefix, then the number of its partition in decimal.
pub proof fn law_stream_key_tells_its_partition(prefix: Seq<char>, partition: nat)
    ensures
        stream_key_of(prefix, partition).len() > prefix.len(),
        stream_key_of(prefix, partition).take(prefix.len() as int) == prefix,
        stream_key_of(prefix, partition).skip(prefix.len() as int) == decimal_text(partition),
        digits_value(stream_key_of(prefix, partition).skip(prefix.len() as int), 10) == Some(
            partition,
        ),
{
    let key = stream_key_of(prefix, partition);
    lemma_radix_text_reads_back(partition, 10);
    assert(key.take(prefix.len() as int) =~= prefix);
    assert(key.skip(prefix.len() as int) =~= decimal_text(partition));
}

/// The JSON of a change has one member, named by its kind, and under it the row: the
/// table, the columns of the key, and the columns of the data, which a delete lacks.
pub proof fn law_event_tells_its_row(change: Change)
    ensures
        ({
            let kind = match change {
                Change::Insert { .. } => "Insert"@,
                Change::Update { .. } => "Update"@,
                Change::Delete { .. } => "Delete"@,
            };
            &&& event_tree(change) matches Tree::Object(members) && members.len() == 1
                && members[0].0 == kind && {
                let row = members[0].1;
                &&& row.get("table"@) == Some(Tree::Text(change.table()))
                &&& row.get("key"@) == Some(fields_tree(change.key()))
                &&& row.get("data"@) == if change is Delete {
                    None
                } else {
                    Some(fields_tree(change.data()))
                }
            }
        }),
{
    lemma_row_members_are_found(
        Tree::Text(change.table()),
        fields_tree(change.key()),
        fields_tree(change.data()),
    );
    reveal_strlit("data");
    reveal_strlit("key");
    reveal_strlit("table");
    assert("data"@[0] == 'd');
    assert("key"@[0] == 'k');
    assert("table"@[0] == 't');
    reveal_with_fuel(member_from, 3);
}

/// The operation under `op` names the kind of the change.
pub proof fn law_op_names_the_kind(
    producer: Seq<char>,
    commit_lsn: u64,
    version: u64,
    change: Change,
)
    ensures
        ({
            let op = payload_tree(producer, commit_lsn, version, change).get("op"@);
            &&& change is Insert ==> op == Some(Tree::Text("insert"@))
            &&& change is Update ==> op == Some(Tree::Text("update"@))
            &&& change is Delete ==> op == Some(Tree::Text("delete"@))
        }),
        payload_tree(producer, commit_lsn, version, change) matches Tree::Object(members)
            && members.len() == 5,
{
    law_payload_tells_its_parts(producer, commit_lsn, version, change);
}

/// Publishing covers every change of a transaction: the entry at a place goes to the
/// stream of the change at that place, and is read back as that change, under the
/// commit position plus the place, with the position and the name of the producer.
pub proof fn law_every_change_is_published(
    routing: Routing,
    commit_lsn: u64,
    changes: Seq<Change>,
    entries: Seq<StreamEntry>,
    i: int,
)
    requires
        commit_lsn + changes.len() <= u64::MAX + 1,
        routing.publishes(commit_lsn, changes, entries),
        0 <= i < changes.len(),
    ensures
        entries.len() == changes.len(),
        entries[i].key@ == routing.stream_prefix + decimal_text(
            document_partition(changes[i].document_id(), routing.partitions) as nat,
        ),
        json_parsed(encode_utf8(entries[i].payload@)) matches Some(payload) && {
            &&& sealed_in(payload) matches Some(sealed) && sealed.change == changes[i]
                && sealed.version == commit_lsn + i
            &&& payload.get("producer"@) == Some(Tree::Text(routing.producer_name))
            &&& payload.get("commit_lsn"@) == Some(Tree::Text(hex_text(commit_lsn as nat)))
        },
{
    assert(entries[i].key@ == routing.stream_of(changes[i]));
    law_payload_tells_its_parts(
        routing.producer_name,
        commit_lsn,
        (commit_lsn + i) as u64,
        changes[i],
    );
}

/// Entries are appended in order, from the first to the last.
pub proof fn law_appends_come_in_order(entries: usize, done: usize)
    ensures
        done < entries ==> append_step(entries, done, false) == (AppendStep::Append { at: done }),
        done >= entries ==> append_step(entries, done, false) == AppendStep::Done,
        append_step(entries, done, true) == AppendStep::Fail,
{
}

}

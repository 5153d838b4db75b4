//! Redis replies that carry stream entries, and the messages in them.

use crate::text::{from_utf8_lossy, same_text, shown_text};
use vstd::prelude::*;
use vstd::string::*;
use vstd::utf8::{encode_utf8, encode_utf8_decode_utf8, encode_utf8_valid_utf8};

verus! {

/// A Redis reply.
pub ghost enum Resp {
    Array(Seq<Resp>),
    BulkString(Seq<u8>),
    Other,
}

/// A Redis reply, as far as a stream entry is made of it.
#[derive(Debug)]
pub enum Reply {
    Array(Vec<Reply>),
    BulkString(Vec<u8>),
    /// A reply of any other kind.
    Other,
}

/// The reply that a `Reply` stands for.
pub open spec fn resp_of(reply: Reply) -> Resp
    decreases reply,
{
    match reply {
        Reply::Array(items) => Resp::Array(
            Seq::new(
                items@.len(),
                |i: int|
                    if 0 <= i < items@.len() {
                        resp_of(items@[i])
                    } else {
                        Resp::Other
                    },
            ),
        ),
        Reply::BulkString(bytes) => Resp::BulkString(bytes@),
        Reply::Other => Resp::Other,
    }
}

impl View for Reply {
    type V = Resp;

    open spec fn view(&self) -> Resp {
        resp_of(*self)
    }
}

/// The replies that a list stands for.
pub open spec fn resps_of(items: Seq<Reply>) -> Seq<Resp> {
    items.map_values(|item: Reply| item@)
}

/// A message of a stream: its id and its payload.
pub ghost struct Message {
    pub id: Seq<char>,
    pub payload: Seq<char>,
}

/// The messages that pairs of an id and a payload stand for.
pub open spec fn messages_of(pairs: Seq<(String, String)>) -> Seq<Message> {
    pairs.map_values(|pair: (String, String)| Message { id: pair.0@, payload: pair.1@ })
}

/// The value of the first field under `name` in a list that alternates names and
/// values. A pair that is not made of two bulk strings is passed over.
pub open spec fn field_in(fields: Seq<Resp>, name: Seq<char>) -> Option<Seq<char>>
    decreases fields.len(),
{
    if fields.len() < 2 {
        None
    } else {
        match (fields[0], fields[1]) {
            (Resp::BulkString(k), Resp::BulkString(v)) if shown_text(k) == name => Some(
                shown_text(v),
            ),
            _ => field_in(fields.skip(2), name),
        }
    }
}

/// The message of an entry `[id, [field, value, ...]]`; `None` where it has no payload.
pub open spec fn entry_message(entry: Resp) -> Option<Message> {
    match entry {
        Resp::Array(parts) if parts.len() == 2 => match (parts[0], parts[1]) {
            (Resp::BulkString(id), Resp::Array(fields)) => match field_in(fields, "payload"@) {
                Some(payload) => Some(Message { id: shown_text(id), payload }),
                None => None,
            },
            _ => None,
        },
        _ => None,
    }
}

/// The messages of entries, in order.
pub open spec fn entry_messages(entries: Seq<Resp>) -> Seq<Message>
    decreases entries.len(),
{
    if entries.len() == 0 {
        Seq::empty()
    } else {
        let before = entry_messages(entries.drop_last());
        match entry_message(entries.last()) {
            Some(message) => before.push(message),
            None => before,
        }
    }
}

/// The messages of a list of entries; none where the reply is no list.
pub open spec fn listed_messages(entries: Resp) -> Seq<Message> {
    match entries {
        Resp::Array(items) => entry_messages(items),
        _ => Seq::empty(),
    }
}

/// The messages of one stream of an `XREADGROUP` reply, `[stream, entries]`.
pub open spec fn stream_messages(stream: Resp) -> Seq<Message> {
    match stream {
        Resp::Array(pair) if pair.len() == 2 => listed_messages(pair[1]),
        _ => Seq::empty(),
    }
}

/// The messages of several streams, stream by stream.
pub open spec fn streams_messages(streams: Seq<Resp>) -> Seq<Message>
    decreases streams.len(),
{
    if streams.len() == 0 {
        Seq::empty()
    } else {
        streams_messages(streams.drop_last()) + stream_messages(streams.last())
    }
}

/// The messages of an `XREADGROUP` reply.
pub open spec fn fetched_messages(reply: Resp) -> Seq<Message> {
    match reply {
        Resp::Array(streams) => streams_messages(streams),
        _ => Seq::empty(),
    }
}

/// The messages of an `XAUTOCLAIM` reply, `[next-cursor, entries, ...]`.
pub open spec fn claimed_messages(reply: Resp) -> Seq<Message> {
    match reply {
        Resp::Array(parts) if parts.len() >= 2 => listed_messages(parts[1]),
        _ => Seq::empty(),
    }
}

fn bulk_text(bytes: &Vec<u8>) -> (text: String)
    ensures
        text@ == shown_text(bytes@),
{
    from_utf8_lossy(bytes.as_slice())
}

/// The value of the first field under `name` in a list that alternates names and
/// values.
pub fn field_value(fields: &Vec<Reply>, name: &str) -> (value: Option<String>)
    ensures
        match value {
            Some(v) => field_in(resps_of(fields@), name@) == Some(v@),
            None => field_in(resps_of(fields@), name@) is None,
        },
{
    let ghost all = resps_of(fields@);
    let mut i: usize = 0;
    assert(all.skip(0) =~= all);
    while fields.len() - i >= 2
        invariant
            i <= fields.len(),
            all == resps_of(fields@),
            field_in(all, name@) == field_in(all.skip(i as int), name@),
        decreases fields.len() - i,
    {
        let ghost rest = all.skip(i as int);
        assert(rest.skip(2) =~= all.skip(i + 2));
        assert(rest[0] == fields@[i as int]@);
        assert(rest[1] == fields@[i + 1]@);
        match (&fields[i], &fields[i + 1]) {
            (Reply::BulkString(k), Reply::BulkString(v)) => {
                let key = bulk_text(k);
                if same_text(key.as_str(), name) {
                    return Some(bulk_text(v));
                }
            },
            _ => {},
        }
        i = i + 2;
    }
    None
}

fn message_in(entry: &Reply) -> (message: Option<(String, String)>)
    ensures
        match message {
            Some(m) => entry_message(entry@) == Some(Message { id: m.0@, payload: m.1@ }),
            None => entry_message(entry@) is None,
        },
{
    if let Reply::Array(parts) = entry {
        if parts.len() == 2 {
            assert(entry@->Array_0[0] == parts@[0]@);
            assert(entry@->Array_0[1] == parts@[1]@);
            if let (Reply::BulkString(id), Reply::Array(fields)) = (&parts[0], &parts[1]) {
                assert(parts@[1]@->Array_0 =~= resps_of(fields@));
                return match field_value(fields, "payload") {
                    Some(payload) => Some((bulk_text(id), payload)),
                    None => None,
                };
            }
        }
    }
    None
}

fn push_entries(out: &mut Vec<(String, String)>, entries: &Reply)
    ensures
        messages_of(final(out)@) == messages_of(old(out)@) + listed_messages(entries@),
{
    let ghost start = messages_of(out@);
    if let Reply::Array(items) = entries {
        let ghost all = entries@->Array_0;
        assert(messages_of(out@) =~= start + entry_messages(all.take(0)));
        for i in 0..items.len()
            invariant
                *entries == Reply::Array(*items),
                all == entries@->Array_0,
                messages_of(out@) == start + entry_messages(all.take(i as int)),
        {
            let ghost before = out@;
            assert(all.take(i + 1).drop_last() =~= all.take(i as int));
            assert(all.take(i + 1).last() == items@[i as int]@);
            if let Some(message) = message_in(&items[i]) {
                out.push(message);
                assert(messages_of(out@) =~= messages_of(before).push(
                    Message { id: message.0@, payload: message.1@ },
                ));
            }
            assert(messages_of(out@) =~= start + entry_messages(all.take(i + 1)));
        }
        assert(all.take(items@.len() as int) =~= all);
    } else {
        assert(messages_of(out@) =~= start + listed_messages(entries@));
    }
}

/// Reads a list of entries `[[id, [field, value, ...]], ...]` as messages.
pub fn parse_entries_value(entries: &Reply) -> (messages: Vec<(String, String)>)
    ensures
        messages_of(messages@) == listed_messages(entries@),
{
    let mut out: Vec<(String, String)> = Vec::new();
    push_entries(&mut out, entries);
    assert(messages_of(out@) =~= listed_messages(entries@));
    out
}

/// Reads a full `XREADGROUP` reply `[[stream, entries], ...]` as messages.
pub fn parse_xreadgroup(value: &Reply) -> (messages: Vec<(String, String)>)
    ensures
        messages_of(messages@) == fetched_messages(value@),
{
    let mut out: Vec<(String, String)> = Vec::new();
    if let Reply::Array(streams) = value {
        let ghost all = value@->Array_0;
        assert(messages_of(out@) =~= streams_messages(all.take(0)));
        for i in 0..streams.len()
            invariant
                *value == Reply::Array(*streams),
                all == value@->Array_0,
                messages_of(out@) == streams_messages(all.take(i as int)),
        {
            let ghost before = messages_of(out@);
            assert(all.take(i + 1).drop_last() =~= all.take(i as int));
            assert(all.take(i + 1).last() == streams@[i as int]@);
            if let Reply::Array(pair) = &streams[i] {
                if pair.len() == 2 {
                    assert(streams@[i as int]@->Array_0[1] == pair@[1]@);
                    push_entries(&mut out, &pair[1]);
                }
            }
            assert(messages_of(out@) =~= before + stream_messages(streams@[i as int]@));
        }
        assert(all.take(streams@.len() as int) =~= all);
    } else {
        assert(messages_of(out@) =~= fetched_messages(value@));
    }
    out
}

/// Reads an `XAUTOCLAIM` reply `[next-cursor, entries, ...]` as messages.
pub fn parse_xautoclaim(value: &Reply) -> (messages: Vec<(String, String)>)
    ensures
        messages_of(messages@) == claimed_messages(value@),
{
    if let Reply::Array(parts) = value {
        if parts.len() >= 2 {
            assert(value@->Array_0[1] == parts@[1]@);
            return parse_entries_value(&parts[1]);
        }
    }
    let none: Vec<(String, String)> = Vec::new();
    assert(messages_of(none@) =~= claimed_messages(value@));
    none
}

/// The entry that Redis keeps of a message published under `payload`.
pub open spec fn entry_of(message: Message) -> Resp {
    Resp::Array(
        seq![
            Resp::BulkString(encode_utf8(message.id)),
            Resp::Array(
                seq![
                    Resp::BulkString(encode_utf8("payload"@)),
                    Resp::BulkString(encode_utf8(message.payload)),
                ],
            ),
        ],
    )
}

/// The entries that Redis keeps of messages.
pub open spec fn entries_of(messages: Seq<Message>) -> Seq<Resp> {
    messages.map_values(|message: Message| entry_of(message))
}

proof fn lemma_entry_is_read(message: Message)
    ensures
        entry_message(entry_of(message)) == Some(message),
{
    encode_utf8_valid_utf8(message.id);
    encode_utf8_valid_utf8(message.payload);
    encode_utf8_valid_utf8("payload"@);
    encode_utf8_decode_utf8(message.id);
    encode_utf8_decode_utf8(message.payload);
    encode_utf8_decode_utf8("payload"@);
}

/// Every message that was published comes back, in order and unchanged.
pub proof fn law_entries_are_read(messages: Seq<Message>)
    ensures
        entry_messages(entries_of(messages)) == messages,
    decreases messages.len(),
{
    let entries = entries_of(messages);
    if messages.len() == 0 {
        assert(entry_messages(entries) =~= messages);
    } else {
        law_entries_are_read(messages.drop_last());
        lemma_entry_is_read(messages.last());
        assert(entries.drop_last() =~= entries_of(messages.drop_last()));
        assert(entries.last() == entry_of(messages.last()));
        assert(entry_messages(entries) =~= messages);
    }
}

/// Fetching and reclaiming agree: the same entries give the same messages, whether
/// they come as the one stream of an `XREADGROUP` reply or in an `XAUTOCLAIM` reply.
pub proof fn law_fetch_and_reclaim_agree(stream: Resp, cursor: Resp, entries: Seq<Resp>)
    ensures
        fetched_messages(Resp::Array(seq![Resp::Array(seq![stream, Resp::Array(entries)])]))
            == entry_messages(entries),
        claimed_messages(Resp::Array(seq![cursor, Resp::Array(entries)])) == entry_messages(
            entries,
        ),
{
    let streams = seq![Resp::Array(seq![stream, Resp::Array(entries)])];
    assert(streams.drop_last() =~= Seq::<Resp>::empty());
    assert(streams_messages(streams.drop_last()) =~= Seq::<Message>::empty());
    assert(streams_messages(streams) =~= entry_messages(entries));
}

/// The value of a field is that of the first pair of bulk strings under its name,
/// whatever stands in the pairs before it; there is none where no pair has the name.
pub proof fn law_first_field_counts(fields: Seq<Resp>, name: Seq<char>, i: int)
    requires
        0 <= i,
        2 * i <= fields.len() + 1,
        forall|k: int|
            0 <= k < i && 2 * k + 1 < fields.len() ==> !(#[trigger] fields[2 * k] matches
                Resp::BulkString(other) && fields[2 * k + 1] is BulkString && shown_text(other)
                == name),
        2 * i + 1 < fields.len() ==> (fields[2 * i] matches Resp::BulkString(key) && shown_text(key)
            == name && fields[2 * i + 1] is BulkString),
    ensures
        2 * i + 1 < fields.len() ==> (fields[2 * i + 1] matches Resp::BulkString(value) && field_in(
            fields,
            name,
        ) == Some(shown_text(value))),
        2 * i + 1 >= fields.len() ==> field_in(fields, name) is None,
    decreases i,
{
    if i > 0 && fields.len() >= 2 {
        let rest = fields.skip(2);
        assert(!(fields[2 * 0int] matches Resp::BulkString(other) && fields[2 * 0int + 1] is BulkString
            && shown_text(other) == name));
        assert forall|k: int| 0 <= k < i - 1 && 2 * k + 1 < rest.len() implies !(
        #[trigger] rest[2 * k] matches Resp::BulkString(other) && rest[2 * k + 1] is BulkString
            && shown_text(other) == name) by {
            assert(rest[2 * k] == fields[2 * (k + 1)]);
            assert(rest[2 * k + 1] == fields[2 * (k + 1) + 1]);
        }
        assert(2 * (i - 1) + 1 < rest.len() ==> rest[2 * (i - 1)] == fields[2 * i] && rest[2 * (i
            - 1) + 1] == fields[2 * i + 1]);
        law_first_field_counts(rest, name, i - 1);
    }
}

/// Entries are read one by one: two lists in one give the messages of the first, then
/// those of the second, and an entry gives one message or none.
pub proof fn law_entries_are_read_one_by_one(first: Seq<Resp>, second: Seq<Resp>, entry: Resp)
    ensures
        entry_messages(first + second) == entry_messages(first) + entry_messages(second),
        entry_messages(seq![entry]) == match entry_message(entry) {
            Some(message) => seq![message],
            None => Seq::empty(),
        },
    decreases second.len(),
{
    if second.len() == 0 {
        assert(first + second =~= first);
        assert(entry_messages(first + second) =~= entry_messages(first) + entry_messages(second));
    } else {
        law_entries_are_read_one_by_one(first, second.drop_last(), entry);
        assert((first + second).drop_last() =~= first + second.drop_last());
        assert((first + second).last() == second.last());
        assert(entry_messages(first + second) =~= entry_messages(first) + entry_messages(second));
    }
    assert(seq![entry].drop_last() =~= Seq::<Resp>::empty());
    assert(entry_messages(seq![entry].drop_last()) =~= Seq::<Message>::empty());
    assert(entry_messages(seq![entry]) =~= match entry_message(entry) {
        Some(message) => seq![message],
        None => Seq::empty(),
    });
}

/// An entry is a message exactly where it is a pair of an id and a list of fields with
/// a payload among them: the message has that id and that payload.
pub proof fn law_entry_is_id_and_payload(
    id: Seq<u8>,
    fields: Seq<Resp>,
    parts: Seq<Resp>,
    other: Resp,
)
    ensures
        field_in(fields, "payload"@) matches Some(payload) ==> entry_message(
            Resp::Array(seq![Resp::BulkString(id), Resp::Array(fields)]),
        ) == Some(Message { id: shown_text(id), payload }),
        field_in(fields, "payload"@) is None ==> entry_message(
            Resp::Array(seq![Resp::BulkString(id), Resp::Array(fields)]),
        ) is None,
        parts.len() != 2 || parts[0] !is BulkString || parts[1] !is Array ==> entry_message(
            Resp::Array(parts),
        ) is None,
        other !is Array ==> entry_message(other) is None,
{
}

/// Streams are read one by one: the messages of an `XREADGROUP` reply are those of its
/// streams in order, and a stream that is no pair with a list of entries gives none.
pub proof fn law_streams_are_read_one_by_one(
    first: Seq<Resp>,
    second: Seq<Resp>,
    name: Resp,
    entries: Seq<Resp>,
    other: Resp,
)
    requires
        other matches Resp::Array(parts) ==> parts.len() != 2 || parts[1] !is Array,
    ensures
        fetched_messages(Resp::Array(first + second)) == fetched_messages(Resp::Array(first))
            + fetched_messages(Resp::Array(second)),
        fetched_messages(Resp::Array(seq![Resp::Array(seq![name, Resp::Array(entries)])]))
            == entry_messages(entries),
        fetched_messages(Resp::Array(seq![other])).len() == 0,
        other !is Array ==> fetched_messages(other).len() == 0,
    decreases second.len(),
{
    law_fetch_and_reclaim_agree(name, name, entries);
    assert(seq![other].drop_last() =~= Seq::<Resp>::empty());
    assert(streams_messages(seq![other].drop_last()) =~= Seq::<Message>::empty());
    if second.len() == 0 {
        assert(first + second =~= first);
        assert(streams_messages(first + second) =~= streams_messages(first) + streams_messages(
            second,
        ));
    } else {
        law_streams_are_read_one_by_one(first, second.drop_last(), name, entries, other);
        assert((first + second).drop_last() =~= first + second.drop_last());
        assert((first + second).last() == second.last());
        assert(streams_messages(first + second) =~= streams_messages(first) + streams_messages(
            second,
        ));
    }
}

/// An `XAUTOCLAIM` reply gives the entries of its second part, whatever follows, and
/// nothing where that is no list.
pub proof fn law_claimed_entries_are_the_second_part(parts: Seq<Resp>, other: Resp)
    ensures
        parts.len() >= 2 ==> (parts[1] matches Resp::Array(entries) ==> claimed_messages(
            Resp::Array(parts),
        ) == entry_messages(entries)),
        parts.len() < 2 || parts[1] !is Array ==> claimed_messages(Resp::Array(parts)).len() == 0,
        other !is Array ==> claimed_messages(other).len() == 0,
        other !is Array ==> listed_messages(other).len() == 0,
        listed_messages(Resp::Array(parts)) == entry_messages(parts),
{
}

}

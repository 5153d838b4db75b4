//! The OpenSearch `_bulk` protocol: the request that a list of operations makes,
//! with `version_type=external`, and the outcome of each operation as the reply
//! tells it.

use crate::fields::{lemma_names_differ_at, name_before};
use crate::json::{
    json_parsed, json_text, json_text_of, law_first_member_counts, member_from, names_in_order,
    parse_json, tree_of, Json, Tree,
};
use crate::text::{joined, trim_end, trimmed_end};
use vstd::prelude::*;
use vstd::string::*;
use vstd::utf8::encode_utf8;

verus! {

#[derive(Debug, Clone, Copy, PartialEq, Eq, Structural)]
pub enum BulkOp {
    Index,
    Delete,
}

/// One operation of a bulk request.
#[derive(Debug)]
pub struct BulkItem {
    pub op: BulkOp,
    pub index: String,
    pub doc_id: String,
    pub version: u64,
    /// Document body for index operations; `None` for deletes.
    pub source: Option<Json>,
}

/// One operation of a bulk request.
pub ghost struct Operation {
    pub op: BulkOp,
    pub index: Seq<char>,
    pub doc_id: Seq<char>,
    pub version: u64,
    pub source: Option<Tree>,
}

impl View for BulkItem {
    type V = Operation;

    open spec fn view(&self) -> Operation {
        Operation {
            op: self.op,
            index: self.index@,
            doc_id: self.doc_id@,
            version: self.version,
            source: match self.source {
                Some(source) => Some(source@),
                None => None,
            },
        }
    }
}

impl Operation {
    /// Whether the document, where there is one, can be written as JSON.
    pub open spec fn is_writable(self) -> bool {
        self.source matches Some(source) ==> source.is_writable()
    }
}

/// Outcome for a single bulk item, classified from the response.
#[derive(Debug, Clone, Copy, PartialEq, Eq, Structural)]
pub enum ItemOutcome {
    /// Successfully indexed/deleted.
    Ack,
    /// Version conflict (409): stale/out-of-order, safe to acknowledge.
    Stale,
    /// Mapping / parse failure (400): counts toward the poison-pill limit.
    Poison,
    /// Cluster/network/5xx failure: leave unacknowledged and retry later.
    Transient,
}

/// The name of an operation in its action line.
pub open spec fn op_name(op: BulkOp) -> Seq<char> {
    match op {
        BulkOp::Index => "index"@,
        BulkOp::Delete => "delete"@,
    }
}

/// What an action says of its document.
pub open spec fn target_members(index: Seq<char>, doc_id: Seq<char>, version: u64) -> Seq<
    (Seq<char>, Tree),
> {
    seq![
        ("_id"@, Tree::Text(doc_id)),
        ("_index"@, Tree::Text(index)),
        ("version"@, Tree::Unsigned(version)),
        ("version_type"@, Tree::Text("external"@)),
    ]
}

/// The action of an operation.
pub open spec fn action_tree(operation: Operation) -> Tree {
    Tree::Object(
        seq![
            (
                op_name(operation.op),
                Tree::Object(
                    target_members(operation.index, operation.doc_id, operation.version),
                ),
            ),
        ],
    )
}

/// The lines that an operation takes in a request.
pub open spec fn operation_lines(operation: Operation) -> Seq<Seq<char>> {
    match operation.source {
        Some(source) => seq![json_text_of(action_tree(operation)), json_text_of(source)],
        None => seq![json_text_of(action_tree(operation))],
    }
}

/// The lines that operations take in a request, in order.
pub open spec fn request_lines(operations: Seq<Operation>) -> Seq<Seq<char>>
    decreases operations.len(),
{
    if operations.len() == 0 {
        Seq::empty()
    } else {
        request_lines(operations.drop_last()) + operation_lines(operations.last())
    }
}

/// Lines, each with the newline that ends it.
pub open spec fn lines_text(lines: Seq<Seq<char>>) -> Seq<char>
    decreases lines.len(),
{
    if lines.len() == 0 {
        Seq::empty()
    } else {
        lines_text(lines.drop_last()) + lines.last().push('\n')
    }
}

/// The outcome that an HTTP status of one item stands for.
pub open spec fn outcome_of(status: u64) -> ItemOutcome {
    if status == 200 || status == 201 {
        ItemOutcome::Ack
    } else if status == 409 {
        ItemOutcome::Stale
    } else if status == 400 {
        ItemOutcome::Poison
    } else {
        ItemOutcome::Transient
    }
}

/// The status in one item of a reply: `status` of the object under its first
/// name, and zero where there is none.
pub open spec fn item_status(item: Tree) -> u64 {
    match item.first_value() {
        Some(result) => match result.get("status"@) {
            Some(Tree::Unsigned(status)) => status,
            _ => 0,
        },
        None => 0,
    }
}

/// The items of a reply.
pub open spec fn reply_items(reply: Tree) -> Seq<Tree> {
    match reply.get("items"@) {
        Some(Tree::Array(items)) => items,
        _ => Seq::empty(),
    }
}

/// The outcomes that a reply tells, one for each of its items, and transient ones
/// behind them until there are `n`.
pub open spec fn classified(reply: Tree, n: nat) -> Seq<ItemOutcome> {
    let items = reply_items(reply);
    Seq::new(
        if items.len() < n {
            n
        } else {
            items.len()
        },
        |i: int|
            if i < items.len() {
                outcome_of(item_status(items[i]))
            } else {
                ItemOutcome::Transient
            },
    )
}

/// The outcomes of `n` operations, given the JSON that came back.
pub open spec fn outcomes_given(reply: Option<Tree>, n: nat) -> Seq<ItemOutcome> {
    match reply {
        Some(tree) => classified(tree, n).take(n as int),
        None => Seq::new(n, |i: int| ItemOutcome::Transient),
    }
}

/// What became of a bulk request.
#[derive(Debug)]
pub enum BulkReply {
    /// No response came back whole.
    Failed,
    /// A response with its HTTP status and its body.
    Answered { status: u16, body: Vec<u8> },
}

/// The JSON that came back; `None` where the request did not succeed.
pub open spec fn reply_tree(reply: BulkReply) -> Option<Tree> {
    match reply {
        BulkReply::Answered { status, body } if 200 <= status < 300 => json_parsed(body@),
        _ => None,
    }
}

/// The character that stands for six bits in base64.
pub open spec fn base64_digit(n: int) -> char {
    if n < 26 {
        ('A' as u32 + n) as char
    } else if n < 52 {
        ('a' as u32 + (n - 26)) as char
    } else if n < 62 {
        ('0' as u32 + (n - 52)) as char
    } else if n == 62 {
        '+'
    } else {
        '/'
    }
}

/// Bytes in base64, padded to a multiple of four characters.
pub open spec fn base64_text(bytes: Seq<u8>) -> Seq<char>
    decreases bytes.len(),
{
    if bytes.len() == 0 {
        Seq::empty()
    } else if bytes.len() == 1 {
        seq![base64_digit((bytes[0] / 4) as int), base64_digit(bytes[0] % 4 * 16), '=', '=']
    } else if bytes.len() == 2 {
        seq![
            base64_digit((bytes[0] / 4) as int),
            base64_digit(bytes[0] % 4 * 16 + bytes[1] / 16),
            base64_digit(bytes[1] % 16 * 4),
            '=',
        ]
    } else {
        seq![
            base64_digit((bytes[0] / 4) as int),
            base64_digit(bytes[0] % 4 * 16 + bytes[1] / 16),
            base64_digit(bytes[1] % 16 * 4 + bytes[2] / 64),
            base64_digit((bytes[2] % 64) as int),
        ] + base64_text(bytes.skip(3))
    }
}

fn push_base64_digit(out: &mut String, n: u8)
    requires
        n < 64,
    ensures
        final(out)@ == old(out)@.push(base64_digit(n as int)),
{
    if n < 26 {
        out.push((0x41 + n) as char);
    } else if n < 52 {
        out.push((0x61 + (n - 26)) as char);
    } else if n < 62 {
        out.push((0x30 + (n - 52)) as char);
    } else if n == 62 {
        out.push('+');
    } else {
        out.push('/');
    }
}

/// Bytes in base64.
pub fn base64_encode(input: &[u8]) -> (text: String)
    ensures
        text@ == base64_text(input@),
{
    let mut out = String::new();
    let mut i: usize = 0;
    assert(input@.skip(0) =~= input@);
    while input.len() - i >= 3
        invariant
            i <= input.len(),
            base64_text(input@) == out@ + base64_text(input@.skip(i as int)),
        decreases input.len() - i,
    {
        let ghost before = out@;
        let ghost rest = input@.skip(i as int);
        assert(rest.skip(3) =~= input@.skip(i + 3));
        push_base64_digit(&mut out, input[i] / 4);
        push_base64_digit(&mut out, input[i] % 4 * 16 + input[i + 1] / 16);
        push_base64_digit(&mut out, input[i + 1] % 16 * 4 + input[i + 2] / 64);
        push_base64_digit(&mut out, input[i + 2] % 64);
        i = i + 3;
        assert(before + base64_text(rest) =~= out@ + base64_text(input@.skip(i as int)));
    }
    let ghost before = out@;
    let ghost rest = input@.skip(i as int);
    if input.len() - i == 1 {
        push_base64_digit(&mut out, input[i] / 4);
        push_base64_digit(&mut out, input[i] % 4 * 16);
        out.push('=');
        out.push('=');
    } else if input.len() - i == 2 {
        push_base64_digit(&mut out, input[i] / 4);
        push_base64_digit(&mut out, input[i] % 4 * 16 + input[i + 1] / 16);
        push_base64_digit(&mut out, input[i + 1] % 16 * 4);
        out.push('=');
    }
    assert(before + base64_text(rest) =~= out@);
    out
}

/// The names in an action stand in the order that an object needs.
pub proof fn lemma_action_is_writable(operation: Operation)
    ensures
        action_tree(operation).is_writable(),
        action_tree(operation).nests_within(2),
{
    reveal_strlit("_id");
    reveal_strlit("_index");
    reveal_strlit("version");
    reveal_strlit("version_type");
    let members = target_members(operation.index, operation.doc_id, operation.version);
    lemma_names_differ_at("_id"@, "_index"@, 2);
    lemma_names_differ_at("_id"@, "version"@, 0);
    lemma_names_differ_at("_id"@, "version_type"@, 0);
    lemma_names_differ_at("_index"@, "version"@, 0);
    lemma_names_differ_at("_index"@, "version_type"@, 0);
    lemma_names_differ_at("version"@, "version_type"@, 7);
    assert(names_in_order(members)) by {
        assert forall|i: int, j: int| 0 <= i < j < members.len() implies name_before(
            (#[trigger] members[i]).0,
            (#[trigger] members[j]).0,
        ) by {
            assert(i == 0 || i == 1 || i == 2);
            assert(j == 1 || j == 2 || j == 3);
        }
    }
    assert(Tree::Object(members).is_writable()) by {
        reveal_with_fuel(Tree::is_writable, 2);
    }
    assert(Tree::Object(members).nests_within(1)) by {
        reveal_with_fuel(Tree::nests_within, 2);
    }
    let outer = action_tree(operation)->Object_0;
    assert(names_in_order(outer));
    assert(outer[0].1.is_writable());
}

/// The action of an operation.
pub fn action_json(item: &BulkItem) -> (json: Json)
    ensures
        json@ == action_tree(item@),
{
    let mut target: Vec<(String, Json)> = Vec::new();
    target.push(("_id".to_owned(), Json::Text(item.doc_id.clone())));
    target.push(("_index".to_owned(), Json::Text(item.index.clone())));
    target.push(("version".to_owned(), Json::Unsigned(item.version)));
    target.push(("version_type".to_owned(), Json::Text("external".to_owned())));
    let inner = Json::Object(target);
    proof {
        reveal_with_fuel(tree_of, 2);
    }
    assert(inner@->Object_0 =~= target_members(item.index@, item.doc_id@, item.version));
    let name = match item.op {
        BulkOp::Index => "index".to_owned(),
        BulkOp::Delete => "delete".to_owned(),
    };
    let mut action: Vec<(String, Json)> = Vec::new();
    action.push((name, inner));
    let json = Json::Object(action);
    assert(json@->Object_0 =~= action_tree(item@)->Object_0);
    json
}

/// The operations that items stand for.
pub open spec fn operations_of(items: Seq<BulkItem>) -> Seq<Operation> {
    items.map_values(|item: BulkItem| item@)
}

/// The texts that a list of strings holds.
pub open spec fn texts_of(lines: Seq<String>) -> Seq<Seq<char>> {
    lines.map_values(|line: String| line@)
}

/// The lines of a bulk request: for each item its action, and behind it its
/// document where it has one.
pub fn bulk_lines(items: &[BulkItem]) -> (lines: Vec<String>)
    requires
        forall|i: int| 0 <= i < items@.len() ==> (#[trigger] items@[i])@.is_writable(),
    ensures
        texts_of(lines@) == request_lines(operations_of(items@)),
        forall|i: int| 0 <= i < lines@.len() ==> !(#[trigger] lines@[i])@.contains('\n'),
{
    let mut lines: Vec<String> = Vec::new();
    let ghost operations = operations_of(items@);
    assert(texts_of(lines@) =~= request_lines(operations.take(0)));
    for i in 0..items.len()
        invariant
            operations == operations_of(items@),
            forall|k: int| 0 <= k < items@.len() ==> (#[trigger] items@[k])@.is_writable(),
            texts_of(lines@) == request_lines(operations.take(i as int)),
            forall|k: int| 0 <= k < lines@.len() ==> !(#[trigger] lines@[k])@.contains('\n'),
    {
        let ghost before = lines@;
        let item = &items[i];
        assert(item@ == operations[i as int]);
        assert(items@[i as int]@.is_writable());
        proof {
            lemma_action_is_writable(item@);
        }
        let action = action_json(item);
        lines.push(json_text(&action));
        match &item.source {
            Some(source) => {
                lines.push(json_text(source));
            },
            None => {},
        }
        assert(operations.take(i + 1).drop_last() =~= operations.take(i as int));
        assert(operations.take(i + 1).last() == item@);
        assert(texts_of(lines@) =~= texts_of(before) + operation_lines(item@));
    }
    assert(operations.take(items@.len() as int) =~= operations);
    lines
}

/// Lines, each with the newline that ends it.
pub fn ndjson(lines: &[String]) -> (text: String)
    ensures
        text@ == lines_text(texts_of(lines@)),
{
    let mut text = String::new();
    let ghost texts = texts_of(lines@);
    assert(text@ =~= lines_text(texts.take(0)));
    for i in 0..lines.len()
        invariant
            texts == texts_of(lines@),
            text@ == lines_text(texts.take(i as int)),
    {
        let ghost before = text@;
        text.append(lines[i].as_str());
        text.push('\n');
        assert(texts.take(i + 1).drop_last() =~= texts.take(i as int));
        assert(texts.take(i + 1).last() == lines@[i as int]@);
        assert(text@ =~= before + lines@[i as int]@.push('\n'));
    }
    assert(texts.take(lines@.len() as int) =~= texts);
    text
}

/// The outcome that an HTTP status of one item stands for.
pub fn classify(status: u64) -> (outcome: ItemOutcome)
    ensures
        outcome == outcome_of(status),
{
    match status {
        200 | 201 => ItemOutcome::Ack,
        409 => ItemOutcome::Stale,
        400 => ItemOutcome::Poison,
        _ => ItemOutcome::Transient,
    }
}

fn status_in(item: &Json) -> (status: u64)
    ensures
        status == item_status(item@),
{
    match item.first_value() {
        Some(result) => match result.get("status") {
            Some(status) => match status.as_u64() {
                Some(n) => n,
                None => 0,
            },
            None => 0,
        },
        None => 0,
    }
}

/// The outcomes that a reply tells, one for each of its items, and transient ones
/// behind them until there are `n`.
pub fn classify_response(resp: &Json, n: usize) -> (outcomes: Vec<ItemOutcome>)
    ensures
        outcomes@ == classified(resp@, n as nat),
{
    let mut out: Vec<ItemOutcome> = Vec::new();
    let ghost told = reply_items(resp@);
    if let Some(member) = resp.get("items") {
        if let Some(items) = member.as_array() {
            assert(told == items@.map_values(|j: Json| j@));
            for i in 0..items.len()
                invariant
                    told == items@.map_values(|j: Json| j@),
                    out@.len() == i,
                    forall|k: int|
                        0 <= k < i ==> #[trigger] out@[k] == outcome_of(item_status(told[k])),
            {
                assert(told[i as int] == items@[i as int]@);
                out.push(classify(status_in(&items[i])));
            }
        }
    }
    assert(out@.len() == told.len());
    while out.len() < n
        invariant
            told.len() <= out@.len(),
            out@.len() <= n || out@.len() == told.len(),
            forall|k: int|
                0 <= k < out@.len() ==> #[trigger] out@[k] == if k < told.len() {
                    outcome_of(item_status(told[k]))
                } else {
                    ItemOutcome::Transient
                },
        decreases n - out.len(),
    {
        out.push(ItemOutcome::Transient);
    }
    assert(out@ =~= classified(resp@, n as nat));
    out
}

fn all_transient(n: usize) -> (outcomes: Vec<ItemOutcome>)
    ensures
        outcomes@ == Seq::new(n as nat, |i: int| ItemOutcome::Transient),
{
    let mut out: Vec<ItemOutcome> = Vec::new();
    for i in 0..n
        invariant
            out@ == Seq::new(i as nat, |k: int| ItemOutcome::Transient),
    {
        out.push(ItemOutcome::Transient);
    }
    out
}

/// The outcomes of `n` operations, in their order, given the JSON that came back;
/// all are transient where none did.
pub fn outcomes_from(reply: Option<Json>, n: usize) -> (outcomes: Vec<ItemOutcome>)
    ensures
        outcomes@ == outcomes_given(
            match reply {
                Some(json) => Some(json@),
                None => None,
            },
            n as nat,
        ),
        outcomes@.len() == n,
{
    match reply {
        Some(json) => {
            let mut out = classify_response(&json, n);
            out.truncate(n);
            assert(out@ =~= classified(json@, n as nat).take(n as int));
            out
        },
        None => all_transient(n),
    }
}

/// The outcomes of `n` operations, in their order, by what became of their request.
pub fn bulk_outcomes(reply: &BulkReply, n: usize) -> (outcomes: Vec<ItemOutcome>)
    ensures
        outcomes@ == outcomes_given(reply_tree(*reply), n as nat),
        outcomes@.len() == n,
{
    match reply {
        BulkReply::Failed => outcomes_from(None, n),
        BulkReply::Answered { status, body } => if *status < 200 || *status >= 300 {
            outcomes_from(None, n)
        } else {
            outcomes_from(parse_json(body.as_slice()), n)
        },
    }
}

/// Where to reach OpenSearch, and as whom.
#[derive(Clone)]
pub struct OpenSearchClient {
    base: String,
    authorization: Option<String>,
}

/// Where to reach OpenSearch, and as whom.
pub ghost struct Endpoint {
    pub base: Seq<char>,
    pub authorization: Option<Seq<char>>,
}

impl View for OpenSearchClient {
    type V = Endpoint;

    closed spec fn view(&self) -> Endpoint {
        Endpoint {
            base: self.base@,
            authorization: match self.authorization {
                Some(value) => Some(value@),
                None => None,
            },
        }
    }
}

/// HTTP basic authentication with a name and a password.
pub open spec fn basic_authorization(user: Seq<char>, password: Seq<char>) -> Seq<char> {
    "Basic "@ + base64_text(encode_utf8(user + ":"@ + password))
}

/// A bulk request: the URL to post to and the body to post.
#[derive(Debug)]
pub struct BulkRequest {
    pub url: String,
    pub body: String,
}

/// The content type of a bulk request.
pub open spec fn content_type() -> Seq<char> {
    "application/x-ndjson"@
}

impl OpenSearchClient {
    /// A client for the service at `url`; with credentials where both parts are given.
    pub fn new(url: &str, user: Option<String>, password: Option<String>) -> (client: Self)
        ensures
            client@.base == trimmed_end(url@, '/'),
            client@.authorization == match (user, password) {
                (Some(u), Some(p)) => Some(basic_authorization(u@, p@)),
                _ => None,
            },
    {
        let base = trim_end(url, '/');
        let authorization = match (user, password) {
            (Some(u), Some(p)) => {
                let mut credentials = joined(u.as_str(), ":");
                credentials.append(p.as_str());
                let encoded = base64_encode(credentials.as_str().as_bytes());
                Some(joined("Basic ", encoded.as_str()))
            },
            _ => None,
        };
        OpenSearchClient { base, authorization }
    }

    /// The headers of every request, by name.
    pub fn headers(&self) -> (headers: Vec<(String, String)>)
        ensures
            headers@.len() == if self@.authorization is Some {
                2nat
            } else {
                1nat
            },
            headers@[0].0@ == "content-type"@,
            headers@[0].1@ == content_type(),
            headers@[0].1@ == "application/x-ndjson"@,
            self@.authorization matches Some(value) ==> headers@[1].0@ == "authorization"@
                && headers@[1].1@ == value,
    {
        let mut headers: Vec<(String, String)> = Vec::new();
        headers.push(("content-type".to_owned(), "application/x-ndjson".to_owned()));
        match &self.authorization {
            Some(value) => {
                headers.push(("authorization".to_owned(), value.clone()));
            },
            None => {},
        }
        headers
    }

    /// The request that carries out `items` in order; `None` where there are none.
    pub fn bulk_request(&self, items: &[BulkItem]) -> (request: Option<BulkRequest>)
        requires
            forall|i: int| 0 <= i < items@.len() ==> (#[trigger] items@[i])@.is_writable(),
        ensures
            match request {
                Some(r) => items@.len() > 0 && r.url@ == self@.base + "/_bulk"@ && r.body@
                    == lines_text(request_lines(operations_of(items@))),
                None => items@.len() == 0,
            },
    {
        if items.len() == 0 {
            return None;
        }
        let lines = bulk_lines(items);
        Some(
            BulkRequest { url: joined(self.base.as_str(), "/_bulk"), body: ndjson(lines.as_slice()) },
        )
    }
}

proof fn lemma_lines_text_ends_a_line(lines: Seq<Seq<char>>)
    ensures
        lines.len() > 0 ==> lines_text(lines).len() > 0,
        lines_text(lines).len() > 0 ==> lines_text(lines).last() == '\n',
    decreases lines.len(),
{
}

/// The last lines of two equal texts end alike: the first is no shorter.
proof fn lemma_last_line_is_no_shorter(lines: Seq<Seq<char>>, others: Seq<Seq<char>>)
    requires
        lines.len() > 0,
        others.len() > 0,
        !others.last().contains('\n'),
        lines_text(lines) == lines_text(others),
    ensures
        lines.last().len() >= others.last().len(),
{
    let text = lines_text(lines);
    let head = lines_text(lines.drop_last());
    let other_head = lines_text(others.drop_last());
    assert(text == head + lines.last().push('\n'));
    assert(text == other_head + others.last().push('\n'));
    if lines.last().len() < others.last().len() {
        lemma_lines_text_ends_a_line(lines.drop_last());
        let at = head.len() - 1;
        assert(text[at] == head[at]);
        assert(text[at] == others.last()[at - other_head.len()]);
        assert(others.last().contains('\n'));
    }
}

/// A body gives back its lines: no two lists of lines, none with a newline in it,
/// make the same text.
pub proof fn law_lines_are_kept(lines: Seq<Seq<char>>, others: Seq<Seq<char>>)
    requires
        forall|i: int| 0 <= i < lines.len() ==> !(#[trigger] lines[i]).contains('\n'),
        forall|i: int| 0 <= i < others.len() ==> !(#[trigger] others[i]).contains('\n'),
        lines_text(lines) == lines_text(others),
    ensures
        lines == others,
    decreases lines.len(),
{
    lemma_lines_text_ends_a_line(lines);
    lemma_lines_text_ends_a_line(others);
    if lines.len() == 0 || others.len() == 0 {
        assert(lines =~= others);
    } else {
        assert(!lines.last().contains('\n'));
        assert(!others.last().contains('\n'));
        lemma_last_line_is_no_shorter(lines, others);
        lemma_last_line_is_no_shorter(others, lines);
        let text = lines_text(lines);
        let head = lines_text(lines.drop_last());
        let other_head = lines_text(others.drop_last());
        assert(text == head + lines.last().push('\n'));
        assert(text == other_head + others.last().push('\n'));
        assert(head =~= text.take(head.len() as int));
        assert(other_head =~= text.take(head.len() as int));
        assert(lines.last() =~= text.subrange(head.len() as int, text.len() - 1));
        assert(others.last() =~= text.subrange(head.len() as int, text.len() - 1));
        law_lines_are_kept(lines.drop_last(), others.drop_last());
        assert(lines =~= lines.drop_last().push(lines.last()));
        assert(others =~= others.drop_last().push(others.last()));
    }
}

proof fn lemma_base64_digits_differ(a: int, b: int)
    requires
        0 <= a < 64,
        0 <= b < 64,
    ensures
        base64_digit(a) == base64_digit(b) ==> a == b,
        base64_digit(a) != '=',
        ' ' <= base64_digit(a) <= '~',
{
}

/// Base64 gives back what it encodes: no two byte sequences have the same text.
pub proof fn law_base64_keeps_the_bytes(x: Seq<u8>, y: Seq<u8>)
    requires
        base64_text(x) == base64_text(y),
    ensures
        x == y,
    decreases x.len(),
{
    let text = base64_text(x);
    if x.len() == 0 || y.len() == 0 {
        assert(x.len() > 0 ==> base64_text(x).len() >= 4);
        assert(y.len() > 0 ==> base64_text(y).len() >= 4);
        assert(x =~= y);
    } else {
        let a = |s: Seq<u8>| (s[0] / 4) as int;
        let b = |s: Seq<u8>|
            s[0] % 4 * 16 + if s.len() > 1 {
                s[1] / 16
            } else {
                0
            };
        let c = |s: Seq<u8>|
            s[1] % 16 * 4 + if s.len() > 2 {
                s[2] / 64
            } else {
                0
            };
        let d = |s: Seq<u8>| (s[2] % 64) as int;
        lemma_base64_digits_differ(a(x), a(y));
        lemma_base64_digits_differ(b(x), b(y));
        assert(text[0] == base64_digit(a(x)) && text[0] == base64_digit(a(y)));
        assert(text[1] == base64_digit(b(x)) && text[1] == base64_digit(b(y)));
        if x.len() > 1 {
            lemma_base64_digits_differ(c(x), c(x));
        }
        if y.len() > 1 {
            lemma_base64_digits_differ(c(y), c(y));
        }
        assert(x.len() > 1 <==> text[2] != '=');
        assert(y.len() > 1 <==> text[2] != '=');
        if x.len() > 1 {
            lemma_base64_digits_differ(c(x), c(y));
            assert(text[2] == base64_digit(c(x)) && text[2] == base64_digit(c(y)));
            if x.len() > 2 {
                lemma_base64_digits_differ(d(x), d(x));
            }
            if y.len() > 2 {
                lemma_base64_digits_differ(d(y), d(y));
            }
            assert(x.len() > 2 <==> text[3] != '=');
            assert(y.len() > 2 <==> text[3] != '=');
            if x.len() > 2 {
                lemma_base64_digits_differ(d(x), d(y));
                assert(text[3] == base64_digit(d(x)) && text[3] == base64_digit(d(y)));
                assert(base64_text(x.skip(3)) =~= text.skip(4));
                assert(base64_text(y.skip(3)) =~= text.skip(4));
                law_base64_keeps_the_bytes(x.skip(3), y.skip(3));
                assert(x =~= seq![x[0], x[1], x[2]] + x.skip(3));
                assert(y =~= seq![y[0], y[1], y[2]] + y.skip(3));
            } else {
                assert(x =~= seq![x[0], x[1]]);
                assert(y =~= seq![y[0], y[1]]);
            }
        } else {
            assert(x =~= seq![x[0]]);
            assert(y =~= seq![y[0]]);
        }
    }
}

proof fn lemma_base64_is_printable(bytes: Seq<u8>)
    ensures
        forall|i: int|
            0 <= i < base64_text(bytes).len() ==> ' ' <= #[trigger] base64_text(bytes)[i] <= '~',
    decreases bytes.len(),
{
    if bytes.len() > 3 {
        lemma_base64_is_printable(bytes.skip(3));
    }
    assert forall|i: int| 0 <= i < base64_text(bytes).len() implies ' ' <= #[trigger] base64_text(
        bytes,
    )[i] <= '~' by {
        if i >= 4 {
            assert(base64_text(bytes)[i] == base64_text(bytes.skip(3))[i - 4]);
        }
    }
}

/// An authorization is always fit to stand in an HTTP header: whatever the
/// credentials, it is made of printable ASCII characters alone.
pub proof fn law_authorization_is_printable(user: Seq<char>, password: Seq<char>)
    ensures
        forall|i: int|
            0 <= i < basic_authorization(user, password).len() ==> ' '
                <= #[trigger] basic_authorization(user, password)[i] <= '~',
{
    reveal_strlit("Basic ");
    lemma_base64_is_printable(encode_utf8(user + ":"@ + password));
}

/// An operation is told by the status of its own item: where the reply lists its items
/// under `items`, and the first member of an item holds an object with an unsigned
/// `status`, that number alone decides, whatever else stands in the item. 200 and 201
/// are done, 409 is stale, 400 is poison, and any other number is transient.
pub proof fn law_item_is_told_by_its_status(
    reply: Seq<(Seq<char>, Tree)>,
    listed: int,
    items: Seq<Tree>,
    i: int,
    members: Seq<(Seq<char>, Tree)>,
    result: Seq<(Seq<char>, Tree)>,
    told: int,
    s: u64,
    n: nat,
)
    requires
        0 <= listed < reply.len(),
        reply[listed] == ("items"@, Tree::Array(items)),
        forall|k: int| 0 <= k < listed ==> (#[trigger] reply[k]).0 != "items"@,
        0 <= i < items.len(),
        items[i] == Tree::Object(members),
        members.len() > 0,
        members[0].1 == Tree::Object(result),
        0 <= told < result.len(),
        result[told] == ("status"@, Tree::Unsigned(s)),
        forall|k: int| 0 <= k < told ==> (#[trigger] result[k]).0 != "status"@,
    ensures
        s == 200 || s == 201 ==> classified(Tree::Object(reply), n)[i] == ItemOutcome::Ack,
        s == 409 ==> classified(Tree::Object(reply), n)[i] == ItemOutcome::Stale,
        s == 400 ==> classified(Tree::Object(reply), n)[i] == ItemOutcome::Poison,
        s != 200 && s != 201 && s != 409 && s != 400 ==> classified(Tree::Object(reply), n)[i]
            == ItemOutcome::Transient,
        i < n ==> outcomes_given(Some(Tree::Object(reply)), n)[i] == classified(
            Tree::Object(reply),
            n,
        )[i],
{
    law_first_member_counts(reply, "items"@, listed);
    law_first_member_counts(result, "status"@, told);
}

proof fn lemma_member_is_listed(members: Seq<(Seq<char>, Tree)>, name: Seq<char>, from: int)
    requires
        0 <= from,
        member_from(members, name, from) is Some,
    ensures
        exists|j: int|
            from <= j < members.len() && (#[trigger] members[j]).0 == name && member_from(
                members,
                name,
                from,
            ) == Some(members[j].1),
    decreases members.len() - from,
{
    if members[from].0 != name {
        lemma_member_is_listed(members, name, from + 1);
    }
}

/// An item without a status is transient: one that is no object, that has no member,
/// or whose first member holds no object with an unsigned `status`.
pub proof fn law_item_without_a_status_is_transient(
    reply: Seq<(Seq<char>, Tree)>,
    listed: int,
    items: Seq<Tree>,
    i: int,
    n: nat,
)
    requires
        0 <= listed < reply.len(),
        reply[listed] == ("items"@, Tree::Array(items)),
        forall|k: int| 0 <= k < listed ==> (#[trigger] reply[k]).0 != "items"@,
        0 <= i < items.len(),
        items[i] matches Tree::Object(members) ==> (members.len() > 0 ==> (
        members[0].1 matches Tree::Object(result) ==> (forall|j: int|
            0 <= j < result.len() && (#[trigger] result[j]).0 == "status"@
                ==> result[j].1 !is Unsigned))),
    ensures
        classified(Tree::Object(reply), n)[i] == ItemOutcome::Transient,
        i < n ==> outcomes_given(Some(Tree::Object(reply)), n)[i] == ItemOutcome::Transient,
{
    law_first_member_counts(reply, "items"@, listed);
    if let Tree::Object(members) = items[i] {
        if members.len() > 0 {
            if let Tree::Object(result) = members[0].1 {
                if member_from(result, "status"@, 0) is Some {
                    lemma_member_is_listed(result, "status"@, 0);
                }
            }
        }
    }
}

/// Every operation has an outcome, and none but its own: there are as many as were
/// asked for, those that the reply does not list are transient, and so are all where
/// it has no list.
pub proof fn law_unlisted_operations_are_transient(reply: Tree, n: nat, i: int)
    requires
        0 <= i < n,
        reply.get("items"@) matches Some(Tree::Array(items)) ==> i >= items.len(),
    ensures
        outcomes_given(Some(reply), n).len() == n,
        outcomes_given(Some(reply), n)[i] == ItemOutcome::Transient,
        classified(reply, n).len() == n || (reply.get("items"@) matches Some(Tree::Array(items))
            && classified(reply, n).len() == items.len() && items.len() > n),
        classified(reply, n)[i] == ItemOutcome::Transient,
{
}

/// A request that did not succeed leaves every operation to be tried again: where no
/// response came, where its HTTP status is outside 200 to 299, or where its body is no
/// JSON.
pub proof fn law_failed_request_is_transient(reply: BulkReply, n: nat, i: int)
    requires
        0 <= i < n,
        reply matches BulkReply::Answered { status, body } ==> status < 200 || status > 299
            || json_parsed(body@) is None,
    ensures
        outcomes_given(reply_tree(reply), n).len() == n,
        outcomes_given(reply_tree(reply), n)[i] == ItemOutcome::Transient,
{
}

/// A response with a status from 200 to 299 is read for what its body says.
pub proof fn law_answer_is_read(status: u16, body: Vec<u8>)
    requires
        200 <= status <= 299,
    ensures
        reply_tree(BulkReply::Answered { status, body }) == json_parsed(body@),
{
}

/// An action names its document: its one member is called by the operation, and holds
/// the id, the index and the version of the operation, the version as an external one.
pub proof fn law_action_names_its_document(operation: Operation)
    ensures
        action_tree(operation) matches Tree::Object(outer) && outer.len() == 1 && (operation.op
            == BulkOp::Index ==> outer[0].0 == "index"@) && (operation.op == BulkOp::Delete
            ==> outer[0].0 == "delete"@) && (outer[0].1 matches Tree::Object(inner) && inner.len()
            == 4 && outer[0].1.get("_id"@) == Some(Tree::Text(operation.doc_id))
            && outer[0].1.get("_index"@) == Some(Tree::Text(operation.index)) && outer[0].1.get(
            "version"@,
        ) == Some(Tree::Unsigned(operation.version)) && outer[0].1.get("version_type"@) == Some(
            Tree::Text("external"@),
        )),
{
    reveal_strlit("_id");
    reveal_strlit("_index");
    reveal_strlit("version");
    reveal_strlit("version_type");
    assert("_id"@.len() == 3);
    assert("_index"@.len() == 6);
    assert("version"@.len() == 7);
    assert("version_type"@.len() == 12);
    reveal_with_fuel(member_from, 5);
}

/// Operations take their lines one by one: two lists in one take the lines of the
/// first, then those of the second. An operation takes a line for its action and, where
/// it has a document, a second one for that.
pub proof fn law_operations_take_their_lines(
    first: Seq<Operation>,
    second: Seq<Operation>,
    operation: Operation,
)
    ensures
        request_lines(first + second) == request_lines(first) + request_lines(second),
        operation.source matches Some(source) ==> request_lines(seq![operation]) == seq![
            json_text_of(action_tree(operation)),
            json_text_of(source),
        ],
        operation.source is None ==> request_lines(seq![operation]) == seq![
            json_text_of(action_tree(operation)),
        ],
    decreases second.len(),
{
    if second.len() == 0 {
        assert(first + second =~= first);
        assert(request_lines(first + second) =~= request_lines(first) + request_lines(second));
    } else {
        law_operations_take_their_lines(first, second.drop_last(), operation);
        assert((first + second).drop_last() =~= first + second.drop_last());
        assert((first + second).last() == second.last());
        assert(request_lines(first + second) =~= request_lines(first) + request_lines(second));
    }
    let one = seq![operation];
    assert(one.drop_last() =~= Seq::<Operation>::empty());
    assert(request_lines(one.drop_last()) =~= Seq::<Seq<char>>::empty());
    assert(request_lines(one) =~= operation_lines(operation));
}

/// A text holds its lines one by one, each as it is with a newline behind it.
pub proof fn law_lines_are_ended(first: Seq<Seq<char>>, second: Seq<Seq<char>>, line: Seq<char>)
    ensures
        lines_text(first + second) == lines_text(first) + lines_text(second),
        lines_text(seq![line]) == line.push('\n'),
        lines_text(Seq::empty()).len() == 0,
    decreases second.len(),
{
    if second.len() == 0 {
        assert(first + second =~= first);
        assert(lines_text(first + second) =~= lines_text(first) + lines_text(second));
    } else {
        law_lines_are_ended(first, second.drop_last(), line);
        assert((first + second).drop_last() =~= first + second.drop_last());
        assert((first + second).last() == second.last());
        assert(lines_text(first + second) =~= lines_text(first) + lines_text(second));
    }
    let one = seq![line];
    assert(one.drop_last() =~= Seq::<Seq<char>>::empty());
    assert(lines_text(one.drop_last()) =~= Seq::<char>::empty());
    assert(lines_text(one) =~= line.push('\n'));
}

/// The digits of base64 are the characters of its alphabet.
pub proof fn law_base64_digits_are_its_alphabet(n: int)
    requires
        0 <= n < 64,
    ensures
        base64_digit(n) == "ABCDEFGHIJKLMNOPQRSTUVWXYZabcdefghijklmnopqrstuvwxyz0123456789+/"@[n],
{
    reveal_strlit("ABCDEFGHIJKLMNOPQRSTUVWXYZabcdefghijklmnopqrstuvwxyz0123456789+/");
}

/// Base64 writes the same number: three bytes, read as one number to the base 256, are
/// the four digits that stand for it to the base 64, and what follows is written behind
/// them. One or two bytes at the end are filled up with zero bits, and the missing
/// digits are `=`.
pub proof fn law_base64_writes_the_same_number(
    a: u8,
    b: u8,
    c: u8,
    rest: Seq<u8>,
    w: int,
    x: int,
    y: int,
    z: int,
)
    requires
        0 <= w < 64,
        0 <= x < 64,
        0 <= y < 64,
        0 <= z < 64,
    ensures
        a * 65536 + b * 256 + c == w * 262144 + x * 4096 + y * 64 + z ==> base64_text(
            seq![a, b, c] + rest,
        ) == seq![base64_digit(w), base64_digit(x), base64_digit(y), base64_digit(z)] + base64_text(
            rest,
        ),
        a * 1024 + b * 4 == w * 4096 + x * 64 + y ==> base64_text(seq![a, b]) == seq![
            base64_digit(w),
            base64_digit(x),
            base64_digit(y),
            '=',
        ],
        a * 16 == w * 64 + x ==> base64_text(seq![a]) == seq![
            base64_digit(w),
            base64_digit(x),
            '=',
            '=',
        ],
        base64_text(Seq::empty()).len() == 0,
{
    assert((seq![a, b, c] + rest).skip(3) =~= rest);
    let (d, e, f) = (a as int, b as int, c as int);
    if a * 65536 + b * 256 + c == w * 262144 + x * 4096 + y * 64 + z {
        lemma_digits_are_unique(d, e, f, w, x, y, z);
        assert(base64_text(seq![a, b, c] + rest) =~= seq![
            base64_digit(w),
            base64_digit(x),
            base64_digit(y),
            base64_digit(z),
        ] + base64_text(rest));
    }
    if a * 1024 + b * 4 == w * 4096 + x * 64 + y {
        lemma_digits_are_unique(d, e, 0, w, x, y, 0);
        assert(base64_text(seq![a, b]) =~= seq![
            base64_digit(w),
            base64_digit(x),
            base64_digit(y),
            '=',
        ]);
    }
    if a * 16 == w * 64 + x {
        lemma_digits_are_unique(d, 0, 0, w, x, 0, 0);
        assert(base64_text(seq![a]) =~= seq![base64_digit(w), base64_digit(x), '=', '=']);
    }
}

/// A number below 2^24 has one expansion to the base 64.
proof fn lemma_digits_are_unique(a: int, b: int, c: int, w: int, x: int, y: int, z: int)
    requires
        0 <= a < 256,
        0 <= b < 256,
        0 <= c < 256,
        0 <= w < 64,
        0 <= x < 64,
        0 <= y < 64,
        0 <= z < 64,
        a * 65536 + b * 256 + c == w * 262144 + x * 4096 + y * 64 + z,
    ensures
        w == a / 4,
        x == a % 4 * 16 + b / 16,
        y == b % 16 * 4 + c / 64,
        z == c % 64,
{
    let (a1, a0) = (a / 4, a % 4);
    let (b1, b0) = (b / 16, b % 16);
    let (c1, c0) = (c / 64, c % 64);
    assert(a == 4 * a1 + a0 && b == 16 * b1 + b0 && c == 64 * c1 + c0);
    let (x1, y1) = (a0 * 16 + b1, b0 * 4 + c1);
    assert(0 <= x1 < 64 && 0 <= y1 < 64 && 0 <= c0 < 64);
    assert(262144 * (w - a1) == 4096 * (x1 - x) + 64 * (y1 - y) + (c0 - z));
    assert(w == a1);
    assert(4096 * (x - x1) == 64 * (y1 - y) + (c0 - z));
    assert(x == x1);
    assert(64 * (y - y1) == c0 - z);
    assert(y == y1);
}

/// An authorization is the word `Basic`, a space, and the name and the password with a
/// colon between them in base64.
pub proof fn law_authorization_holds_the_credentials(user: Seq<char>, password: Seq<char>)
    ensures
        basic_authorization(user, password).take(6) == "Basic "@,
        basic_authorization(user, password).skip(6) == base64_text(
            encode_utf8(user.push(':') + password),
        ),
{
    reveal_strlit("Basic ");
    reveal_strlit(":");
    assert(user + ":"@ + password =~= user.push(':') + password);
    assert(basic_authorization(user, password).take(6) =~= "Basic "@);
    assert(basic_authorization(user, password).skip(6) =~= base64_text(
        encode_utf8(user.push(':') + password),
    ));
}

}

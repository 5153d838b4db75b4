use redis_connector::fields::FieldMap;
use redis_connector::json::{fields_json, json_text, parse_json, Json};
use redis_connector::opensearch::{
    action_json, base64_encode, bulk_lines, bulk_outcomes, classify, classify_response, ndjson,
    outcomes_from, BulkItem, BulkOp, BulkReply, ItemOutcome, OpenSearchClient,
};

fn object(members: Vec<(&str, Json)>) -> Json {
    Json::Object(members.into_iter().map(|(n, v)| (n.to_string(), v)).collect())
}

fn text(t: &str) -> Json {
    Json::Text(t.to_string())
}

fn index_item() -> BulkItem {
    let mut fields = FieldMap::new();
    fields.insert("name".to_string(), "al\"ice\n".to_string());
    fields.insert("email".to_string(), "a@x.com".to_string());
    BulkItem {
        op: BulkOp::Index,
        index: "cdc-users".to_string(),
        doc_id: "users:id=1".to_string(),
        version: 26834608,
        source: Some(fields_json(&fields)),
    }
}

fn delete_item() -> BulkItem {
    BulkItem {
        op: BulkOp::Delete,
        index: "cdc-users".to_string(),
        doc_id: "users:id=2".to_string(),
        version: u64::MAX,
        source: None,
    }
}

const INDEX_LINE: &str = "{\"index\":{\"_id\":\"users:id=1\",\"_index\":\"cdc-users\",\"version\":26834608,\"version_type\":\"external\"}}";
const SOURCE_LINE: &str = "{\"email\":\"a@x.com\",\"name\":\"al\\\"ice\\n\"}";
const DELETE_LINE: &str = "{\"delete\":{\"_id\":\"users:id=2\",\"_index\":\"cdc-users\",\"version\":18446744073709551615,\"version_type\":\"external\"}}";

#[test]
fn json_is_written_compactly() {
    let json = object(vec![
        ("a", Json::Array(vec![Json::Null, Json::Bool(true), Json::Unsigned(7), Json::Negative(-7)])),
        ("b", text("x")),
    ]);
    assert_eq!(json_text(&json), "{\"a\":[null,true,7,-7],\"b\":\"x\"}");
}

#[test]
fn json_reads_back_what_it_writes() {
    let json = object(vec![
        ("a", Json::Array(vec![Json::Null, Json::Bool(false), Json::Unsigned(u64::MAX)])),
        ("b", object(vec![("c", text("é\u{1F600}\\\t"))])),
        ("d", Json::Negative(i64::MIN)),
    ]);
    let written = json_text(&json);
    let read = parse_json(written.as_bytes()).unwrap();
    assert_eq!(format!("{read:?}"), format!("{json:?}"));
}

#[test]
fn json_that_is_none_is_refused() {
    assert!(parse_json(b"this is not valid json").is_none());
    assert!(parse_json(b"").is_none());
    assert!(parse_json(b"{} x").is_none());
    assert!(matches!(parse_json(b"1.5"), Some(Json::OtherNumber)));
    let deep = "[".repeat(128) + &"]".repeat(128);
    assert!(parse_json(deep.as_bytes()).is_none());
    let shallow = "[".repeat(127) + &"]".repeat(127);
    assert!(parse_json(shallow.as_bytes()).is_some());
}

#[test]
fn json_members_are_found_by_name() {
    let json = parse_json(b"{\"b\":2,\"a\":[\"x\"],\"c\":\"y\"}").unwrap();
    assert_eq!(json.get("b").and_then(Json::as_u64), Some(2));
    assert_eq!(json.get("c").and_then(Json::as_str), Some("y"));
    assert_eq!(json.get("a").and_then(Json::as_array).map(Vec::len), Some(1));
    assert!(json.get("d").is_none());
    assert!(json.first_value().and_then(Json::as_array).is_some());
    assert!(text("x").get("x").is_none());
    assert!(text("x").as_u64().is_none());
    assert!(Json::Unsigned(1).as_str().is_none());
    assert!(object(vec![]).first_value().is_none());
}

#[test]
fn bulk_request_lists_actions_and_documents() {
    let client = OpenSearchClient::new("http://localhost:9200//", None, None);
    let request = client.bulk_request(&[index_item(), delete_item()]).unwrap();
    assert_eq!(request.url, "http://localhost:9200/_bulk");
    assert_eq!(request.body, format!("{INDEX_LINE}\n{SOURCE_LINE}\n{DELETE_LINE}\n"));
}

#[test]
fn bulk_request_of_nothing_is_none() {
    assert!(OpenSearchClient::new("http://x", None, None).bulk_request(&[]).is_none());
}

#[test]
fn bulk_lines_stay_on_their_lines() {
    let lines = bulk_lines(&[index_item(), delete_item()]);
    assert_eq!(lines, vec![INDEX_LINE, SOURCE_LINE, DELETE_LINE]);
    let body = ndjson(&lines);
    let split: Vec<&str> = body.lines().collect();
    assert_eq!(split, vec![INDEX_LINE, SOURCE_LINE, DELETE_LINE]);
    assert_eq!(ndjson(&[]), "");
    assert_eq!(json_text(&action_json(&delete_item())), DELETE_LINE);
}

#[test]
fn credentials_need_both_parts() {
    let both = OpenSearchClient::new("http://x", Some("user".to_string()), Some("pass".to_string()));
    let expected = vec![
        ("content-type".to_string(), "application/x-ndjson".to_string()),
        ("authorization".to_string(), "Basic dXNlcjpwYXNz".to_string()),
    ];
    assert_eq!(both.headers(), expected);
    let one = OpenSearchClient::new("http://x", Some("user".to_string()), None);
    assert_eq!(one.headers(), expected[..1].to_vec());
    let other = OpenSearchClient::new("http://x", None, Some("pass".to_string()));
    assert_eq!(other.headers(), expected[..1].to_vec());
}

#[test]
fn base64_pads_to_four_characters() {
    for (input, output) in [
        ("", ""),
        ("f", "Zg=="),
        ("fo", "Zm8="),
        ("foo", "Zm9v"),
        ("foob", "Zm9vYg=="),
        ("fooba", "Zm9vYmE="),
        ("foobar", "Zm9vYmFy"),
    ] {
        assert_eq!(base64_encode(input.as_bytes()), output);
    }
    assert_eq!(base64_encode(&[0xfb, 0xff, 0xbf]), "+/+/");
    assert_eq!(base64_encode(&[0, 0, 0]), "AAAA");
}

#[test]
fn base64_is_printable_and_tells_inputs_apart() {
    let all: Vec<u8> = (0..=255).collect();
    let encoded = base64_encode(&all);
    assert_eq!(encoded.len(), 344);
    assert!(encoded.chars().all(|c| (' '..='~').contains(&c)));
    let mut other = all.clone();
    other[200] = 0;
    assert_ne!(encoded, base64_encode(&other));
}

#[test]
fn statuses_are_classified() {
    assert_eq!(classify(200), ItemOutcome::Ack);
    assert_eq!(classify(201), ItemOutcome::Ack);
    assert_eq!(classify(409), ItemOutcome::Stale);
    assert_eq!(classify(400), ItemOutcome::Poison);
    for status in [0, 202, 401, 404, 429, 500, 503, 599, 600, u64::MAX] {
        assert_eq!(classify(status), ItemOutcome::Transient);
    }
}

const REPLY: &[u8] = b"{\"errors\":true,\"items\":[{\"index\":{\"status\":201}},{\"delete\":{\"status\":409}},{\"index\":{\"status\":400,\"error\":{\"type\":\"mapper_parsing_exception\"}}},{\"index\":{}},{\"index\":3},{},7]}";

#[test]
fn items_of_a_reply_are_classified_in_order() {
    let reply = parse_json(REPLY).unwrap();
    let told = [
        ItemOutcome::Ack,
        ItemOutcome::Stale,
        ItemOutcome::Poison,
        ItemOutcome::Transient,
        ItemOutcome::Transient,
        ItemOutcome::Transient,
        ItemOutcome::Transient,
    ];
    assert_eq!(classify_response(&reply, 7), told);
    assert_eq!(classify_response(&reply, 2), told);
    let padded = classify_response(&reply, 9);
    assert_eq!(padded.len(), 9);
    assert_eq!(padded[..7], told);
    assert_eq!(padded[7..], [ItemOutcome::Transient; 2]);
}

#[test]
fn every_item_gets_one_outcome() {
    let answered = |status: u16, body: &[u8]| BulkReply::Answered { status, body: body.to_vec() };
    assert_eq!(
        bulk_outcomes(&answered(200, REPLY), 2),
        [ItemOutcome::Ack, ItemOutcome::Stale]
    );
    assert_eq!(bulk_outcomes(&answered(299, REPLY), 1), [ItemOutcome::Ack]);
    assert_eq!(bulk_outcomes(&answered(503, REPLY), 2), [ItemOutcome::Transient; 2]);
    assert_eq!(bulk_outcomes(&answered(199, REPLY), 2), [ItemOutcome::Transient; 2]);
    assert_eq!(bulk_outcomes(&answered(300, REPLY), 2), [ItemOutcome::Transient; 2]);
    assert_eq!(bulk_outcomes(&answered(200, b"oops"), 2), [ItemOutcome::Transient; 2]);
    assert_eq!(bulk_outcomes(&BulkReply::Failed, 3), [ItemOutcome::Transient; 3]);
    assert_eq!(outcomes_from(None, 0), []);
    assert_eq!(
        outcomes_from(Some(object(vec![("items", text("x"))])), 1),
        [ItemOutcome::Transient]
    );
}

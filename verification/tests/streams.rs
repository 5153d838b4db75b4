use redis_connector::reply::{
    field_value, parse_entries_value, parse_xautoclaim, parse_xreadgroup, Reply,
};

fn bulk(text: &str) -> Reply {
    Reply::BulkString(text.as_bytes().to_vec())
}

fn entry(id: &str, payload: &str) -> Reply {
    Reply::Array(vec![bulk(id), Reply::Array(vec![bulk("payload"), bulk(payload)])])
}

fn pair(id: &str, payload: &str) -> (String, String) {
    (id.to_string(), payload.to_string())
}

#[test]
fn fetched_entries_are_read_in_order() {
    let reply = Reply::Array(vec![
        Reply::Array(vec![bulk("events:0"), Reply::Array(vec![entry("1-0", "a"), entry("1-1", "b")])]),
        Reply::Array(vec![bulk("events:1"), Reply::Array(vec![entry("2-0", "c")])]),
    ]);
    assert_eq!(
        parse_xreadgroup(&reply),
        vec![pair("1-0", "a"), pair("1-1", "b"), pair("2-0", "c")]
    );
}

#[test]
fn claimed_entries_are_read_like_fetched_ones() {
    let entries = || Reply::Array(vec![entry("1-0", "a"), entry("1-1", "b")]);
    let claimed = Reply::Array(vec![bulk("0-0"), entries(), Reply::Array(vec![])]);
    let fetched = Reply::Array(vec![Reply::Array(vec![bulk("events:0"), entries()])]);
    assert_eq!(parse_xautoclaim(&claimed), vec![pair("1-0", "a"), pair("1-1", "b")]);
    assert_eq!(parse_xautoclaim(&claimed), parse_xreadgroup(&fetched));
}

#[test]
fn replies_of_another_shape_hold_no_messages() {
    assert!(parse_xreadgroup(&Reply::Other).is_empty());
    assert!(parse_xreadgroup(&Reply::Array(vec![Reply::Other, Reply::Array(vec![bulk("x")])])).is_empty());
    assert!(parse_xreadgroup(&Reply::Array(vec![Reply::Array(vec![bulk("x"), bulk("y")])])).is_empty());
    assert!(parse_xautoclaim(&Reply::Array(vec![bulk("0-0")])).is_empty());
    assert!(parse_xautoclaim(&bulk("x")).is_empty());
    assert!(parse_entries_value(&Reply::Other).is_empty());
}

#[test]
fn entries_of_another_shape_are_passed_over() {
    let entries = Reply::Array(vec![
        Reply::Other,
        Reply::Array(vec![bulk("1-0")]),
        Reply::Array(vec![Reply::Other, Reply::Array(vec![bulk("payload"), bulk("x")])]),
        Reply::Array(vec![bulk("1-1"), bulk("payload")]),
        Reply::Array(vec![bulk("1-2"), Reply::Array(vec![bulk("other"), bulk("x")])]),
        entry("1-3", "kept"),
    ]);
    assert_eq!(parse_entries_value(&entries), vec![pair("1-3", "kept")]);
}

#[test]
fn first_field_under_a_name_counts() {
    let fields = vec![
        bulk("other"),
        bulk("1"),
        bulk("payload"),
        Reply::Other,
        bulk("payload"),
        bulk("2"),
        bulk("payload"),
        bulk("3"),
    ];
    assert_eq!(field_value(&fields, "payload"), Some("2".to_string()));
    assert_eq!(field_value(&fields, "missing"), None);
    assert_eq!(field_value(&vec![bulk("x"), bulk("payload"), bulk("y")], "payload"), None);
}

#[test]
fn bytes_that_are_no_text_are_replaced() {
    let fields = vec![bulk("payload"), Reply::BulkString(vec![0x61, 0xff, 0x62])];
    assert_eq!(field_value(&fields, "payload"), Some("a\u{FFFD}b".to_string()));
}

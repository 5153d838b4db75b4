use redis_connector::event::{ColData, ColumnInfo, ParsedTransaction, TxnEvent};
use redis_connector::fields::{is_before, FieldMap};
use redis_connector::text::{
    contains_text, joined, parse_decimal, same_text, text_from_bytes, to_decimal, to_hex, trim_end,
};

fn fields(pairs: &[(&str, &str)]) -> FieldMap {
    let mut map = FieldMap::new();
    for (name, value) in pairs {
        map.insert(name.to_string(), value.to_string());
    }
    map
}

#[test]
fn only_text_cells_have_text() {
    assert_eq!(ColData::Null.as_str(), None);
    assert_eq!(ColData::UnchangedToast.as_str(), None);
    assert_eq!(ColData::Text("5".to_string()).as_str(), Some("5"));
}

#[test]
fn lowest_flag_bit_marks_a_key_column() {
    for (flags, key) in [(0u8, false), (1, true), (2, false), (3, true), (254, false), (255, true)] {
        let column = ColumnInfo { flags, name: "id".to_string(), type_oid: 23, type_modifier: -1 };
        assert_eq!(column.is_key(), key);
    }
}

#[test]
fn document_id_of_one_key_column() {
    let event = TxnEvent::Delete { table: "users".to_string(), key: fields(&[("id", "1")]) };
    assert_eq!(event.document_id(), "users:id=1");
}

#[test]
fn document_id_sorts_key_columns_by_name() {
    let key = fields(&[("id", "5"), ("email", "foo@bar.com")]);
    let event = TxnEvent::Insert { table: "users".to_string(), key, data: FieldMap::new() };
    assert_eq!(event.document_id(), "users:email=foo@bar.com:id=5");
    assert_eq!(event.table(), "users");
    assert_eq!(event.key().get("id").map(String::as_str), Some("5"));
}

#[test]
fn document_id_without_key_columns_keeps_the_colon() {
    let event = TxnEvent::Update {
        table: "logs".to_string(),
        key: FieldMap::new(),
        data: fields(&[("line", "x")]),
    };
    assert_eq!(event.document_id(), "logs:");
}

#[test]
fn rows_with_different_keys_have_different_ids() {
    let one = TxnEvent::Delete { table: "t".to_string(), key: fields(&[("a", "1"), ("b", "2")]) };
    let two = TxnEvent::Delete { table: "t".to_string(), key: fields(&[("a", "1"), ("b", "3")]) };
    let three = TxnEvent::Delete { table: "t".to_string(), key: fields(&[("a", "1")]) };
    assert_ne!(one.document_id(), two.document_id());
    assert_ne!(one.document_id(), three.document_id());
}

#[test]
fn fields_keep_one_value_under_each_name() {
    let mut map = fields(&[("b", "1"), ("a", "2"), ("ab", "3")]);
    map.insert("b".to_string(), "4".to_string());
    let listed: Vec<(&str, &str)> =
        map.entries().iter().map(|(n, v)| (n.as_str(), v.as_str())).collect();
    assert_eq!(listed, vec![("a", "2"), ("ab", "3"), ("b", "4")]);
    assert_eq!(map.get("c"), None);
    let copy = map.clone();
    assert_eq!(copy.get("ab").map(String::as_str), Some("3"));
}

#[test]
fn names_are_ordered_by_their_bytes() {
    assert!(is_before("Z", "a"));
    assert!(is_before("a", "ab"));
    assert!(is_before("z", "é"));
    assert!(!is_before("a", "a"));
    assert!(!is_before("b", "ab"));
}

#[test]
fn transaction_without_events_is_empty() {
    assert!(ParsedTransaction { commit_lsn: 7, events: vec![] }.is_empty());
    let event = TxnEvent::Delete { table: "users".to_string(), key: FieldMap::new() };
    assert!(!ParsedTransaction { commit_lsn: 7, events: vec![event] }.is_empty());
}

#[test]
fn numbers_are_written_without_leading_zeros() {
    assert_eq!(to_decimal(0), "0");
    assert_eq!(to_decimal(u64::MAX), "18446744073709551615");
    assert_eq!(to_hex(0), "0");
    assert_eq!(to_hex(0x19976B0), "19976B0");
    assert_eq!(to_hex(u64::MAX), "FFFFFFFFFFFFFFFF");
}

#[test]
fn numbers_are_read_up_to_a_maximum() {
    assert_eq!(parse_decimal("16", 255), Some(16));
    assert_eq!(parse_decimal("+16", 255), Some(16));
    assert_eq!(parse_decimal("007", 255), Some(7));
    assert_eq!(parse_decimal("255", 255), Some(255));
    assert_eq!(parse_decimal("256", 255), None);
    assert_eq!(parse_decimal("", 255), None);
    assert_eq!(parse_decimal("+", 255), None);
    assert_eq!(parse_decimal("-1", 255), None);
    assert_eq!(parse_decimal(" 1", 255), None);
    assert_eq!(parse_decimal("1x", 255), None);
    assert_eq!(parse_decimal("18446744073709551615", u64::MAX), Some(u64::MAX));
    assert_eq!(parse_decimal("18446744073709551616", u64::MAX), None);
    assert_eq!(parse_decimal("184467440737095516150", u64::MAX), None);
}

#[test]
fn bytes_that_are_no_text_are_marked() {
    assert_eq!(text_from_bytes("grüße".as_bytes()), "grüße");
    assert_eq!(text_from_bytes(&[]), "");
    assert_eq!(text_from_bytes(&[0x61, 0xff]), "<invalid utf8>");
}

#[test]
fn texts_are_compared_searched_joined_and_trimmed() {
    assert!(same_text("a", "a"));
    assert!(!same_text("a", "b"));
    assert!(!same_text("a", "ab"));
    assert!(contains_text("x BUSYGROUP y", "BUSYGROUP"));
    assert!(contains_text("aab", "ab"));
    assert!(contains_text("", ""));
    assert!(!contains_text("BUSYGROU", "BUSYGROUP"));
    assert_eq!(joined("a", "b"), "ab");
    assert_eq!(trim_end("http://x//", '/'), "http://x");
    assert_eq!(trim_end("//", '/'), "");
    assert_eq!(trim_end("/x", '/'), "/x");
}

fn id(table: &str, pairs: &[(&str, &str)]) -> String {
    TxnEvent::Delete { table: table.to_string(), key: fields(pairs) }.document_id()
}

#[test]
fn rows_that_can_be_told_apart_have_plain_ids() {
    assert_eq!(id("t", &[("a", "1"), ("b", "2")]), "t:a=1:b=2");
    assert_eq!(id("%", &[]), "%:");
    assert_eq!(id("a=b", &[]), "a=b:");
    assert_eq!(id("a=b", &[("id", "1")]), "a=b:id=1");
    assert_eq!(id("t", &[("a", "50%")]), "t:a=50%");
    assert_eq!(id("t", &[("a", "a=b")]), "t:a=a=b");
    assert_eq!(id("t", &[("at", "12:00")]), "t:at=12:00");
    assert_eq!(id("t", &[("ip", "::1"), ("port", "80")]), "t:ip=::1:port=80");
    assert_eq!(id("a:b", &[]), "a:b:");
    assert_eq!(id("t", &[("", "")]), "t:=");
}

#[test]
fn other_rows_have_marked_ids_behind_their_table() {
    assert_eq!(id("t", &[("a", "1:b=2")]), "t:a=1%3Ab%3D2:=1");
    assert_eq!(id("t", &[("a", "1:b=2"), ("b", "3%")]), "t:a=1%3Ab%3D2:b=3%25:=1");
    assert_eq!(id("t:a=1", &[("b", "2")]), "t:a=1:b=2:=5");
    assert_eq!(id("t:a=1", &[]), "t:a=1::=5");
    assert_eq!(id("tä:x", &[("id", "1")]), "tä:x:id=1:=4");
    assert_eq!(id("t", &[("a=b", "c")]), "t:a%3Db=c:=1");
    assert_eq!(id("t", &[("a:b", "c")]), "t:a%3Ab=c:=1");
}

#[test]
fn no_two_rows_share_an_id() {
    let rows: Vec<(&str, Vec<(&str, &str)>)> = vec![
        ("t", vec![("a", "1"), ("b", "2")]),
        ("t", vec![("a", "1:b=2")]),
        ("t:a=1", vec![("b", "2")]),
        ("t", vec![("a", "1:b=2"), ("b", "3")]),
        ("t", vec![("a", "1"), ("b", "2:b=3")]),
        ("t", vec![("a=1:b", "2")]),
        ("t:a=1:b=2", vec![]),
        ("t", vec![("a", "1:b=2:")]),
        ("t", vec![("a", "1::=5")]),
        ("t:a=1", vec![]),
        ("t", vec![("", "")]),
        ("t", vec![]),
        ("t", vec![("", "1")]),
        ("t:", vec![]),
        ("t", vec![("a", "%3A")]),
        ("t", vec![("a", ":")]),
    ];
    for (i, (table, pairs)) in rows.iter().enumerate() {
        assert!(id(table, pairs).starts_with(&format!("{table}:")));
        for (other_table, other_pairs) in &rows[i + 1..] {
            assert_ne!(id(table, pairs), id(other_table, other_pairs));
        }
    }
}

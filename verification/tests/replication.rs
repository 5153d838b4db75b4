use redis_connector::event::{ParsedTransaction, TxnEvent};
use redis_connector::wal::PgoutputParser;
use redis_connector::wire::FrameError;

fn cstring(text: &str) -> Vec<u8> {
    let mut bytes = text.as_bytes().to_vec();
    bytes.push(0);
    bytes
}

fn text_cell(text: &str) -> Vec<u8> {
    let mut bytes = vec![b't'];
    bytes.extend((text.len() as u32).to_be_bytes());
    bytes.extend(text.as_bytes());
    bytes
}

fn tuple(kind: u8, cells: &[Vec<u8>]) -> Vec<u8> {
    let mut bytes = vec![kind];
    bytes.extend((cells.len() as u16).to_be_bytes());
    for cell in cells {
        bytes.extend(cell);
    }
    bytes
}

fn relation() -> Vec<u8> {
    let mut bytes = vec![b'R'];
    bytes.extend(42u32.to_be_bytes());
    bytes.extend(cstring("public"));
    bytes.extend(cstring("users"));
    bytes.push(b'd');
    bytes.extend(2u16.to_be_bytes());
    for (flags, name) in [(1u8, "id"), (0, "email")] {
        bytes.push(flags);
        bytes.extend(cstring(name));
        bytes.extend(23u32.to_be_bytes());
        bytes.extend((-1i32).to_be_bytes());
    }
    bytes
}

fn message(tag: u8, id: u32, tuples: &[Vec<u8>]) -> Vec<u8> {
    let mut bytes = vec![tag];
    bytes.extend(id.to_be_bytes());
    for t in tuples {
        bytes.extend(t);
    }
    bytes
}

fn listed(event: &TxnEvent) -> (String, Vec<(String, String)>, Vec<(String, String)>) {
    match event {
        TxnEvent::Insert { table, key, data } => {
            (format!("insert {table}"), key.entries().clone(), data.entries().clone())
        }
        TxnEvent::Update { table, key, data } => {
            (format!("update {table}"), key.entries().clone(), data.entries().clone())
        }
        TxnEvent::Delete { table, key } => {
            (format!("delete {table}"), key.entries().clone(), vec![])
        }
    }
}

fn pairs(list: &[(&str, &str)]) -> Vec<(String, String)> {
    list.iter().map(|(n, v)| (n.to_string(), v.to_string())).collect()
}

fn after(frames: &[Vec<u8>]) -> ParsedTransaction {
    let mut parser = PgoutputParser::new();
    parser.begin(1, 100);
    for frame in frames {
        parser.try_parse_frame(frame).unwrap();
    }
    parser.commit(100)
}

#[test]
fn insert_carries_key_and_data() {
    let insert = message(b'I', 42, &[tuple(b'N', &[text_cell("1"), text_cell("a@x.com")])]);
    let txn = after(&[relation(), insert]);
    assert_eq!(txn.commit_lsn, 100);
    assert_eq!(txn.events.len(), 1);
    assert_eq!(
        listed(&txn.events[0]),
        (
            "insert users".to_string(),
            pairs(&[("id", "1")]),
            pairs(&[("email", "a@x.com"), ("id", "1")])
        )
    );
}

#[test]
fn null_cells_are_spelled_out_and_unchanged_ones_left_out() {
    let insert = message(b'I', 42, &[tuple(b'N', &[text_cell("1"), vec![b'n']])]);
    let txn = after(&[relation(), insert]);
    assert_eq!(listed(&txn.events[0]).2, pairs(&[("email", "NULL"), ("id", "1")]));
    let insert = message(b'I', 42, &[tuple(b'N', &[text_cell("1"), vec![b'u']])]);
    let txn = after(&[relation(), insert]);
    assert_eq!(listed(&txn.events[0]).2, pairs(&[("id", "1")]));
}

#[test]
fn update_takes_its_key_from_the_new_row_where_no_old_one_is_told() {
    let update = message(b'U', 42, &[tuple(b'N', &[text_cell("1"), text_cell("b@x.com")])]);
    let txn = after(&[relation(), update]);
    assert_eq!(
        listed(&txn.events[0]),
        (
            "update users".to_string(),
            pairs(&[("id", "1")]),
            pairs(&[("email", "b@x.com"), ("id", "1")])
        )
    );
}

#[test]
fn rekeying_update_carries_the_old_key() {
    for kind in [b'K', b'O'] {
        let update = message(
            b'U',
            42,
            &[
                tuple(kind, &[text_cell("1"), vec![b'n']]),
                tuple(b'N', &[text_cell("2"), text_cell("b@x.com")]),
            ],
        );
        let txn = after(&[relation(), update]);
        assert_eq!(
            listed(&txn.events[0]),
            (
                "update users".to_string(),
                pairs(&[("id", "1")]),
                pairs(&[("email", "b@x.com"), ("id", "2")])
            )
        );
    }
}

#[test]
fn delete_carries_the_key_alone() {
    for kind in [b'K', b'O'] {
        let delete = message(b'D', 42, &[tuple(kind, &[text_cell("1"), text_cell("a@x.com")])]);
        let txn = after(&[relation(), delete]);
        assert_eq!(
            listed(&txn.events[0]),
            ("delete users".to_string(), pairs(&[("id", "1")]), vec![])
        );
    }
}

#[test]
fn messages_of_a_frame_follow_one_another() {
    let mut frame = relation();
    frame.extend(message(b'I', 42, &[tuple(b'N', &[text_cell("1"), vec![b'n']])]));
    frame.extend(message(b'D', 42, &[tuple(b'K', &[text_cell("1"), vec![b'n']])]));
    let whole = after(&[frame]);
    let kinds: Vec<String> = whole.events.iter().map(|e| listed(e).0).collect();
    assert_eq!(kinds, vec!["insert users", "delete users"]);
}

#[test]
fn unknown_message_ends_the_frame() {
    let mut frame = relation();
    frame.push(b'X');
    frame.extend(message(b'I', 42, &[tuple(b'N', &[text_cell("1"), vec![b'n']])]));
    assert!(after(&[frame]).is_empty());
}

#[test]
fn begin_drops_changes_and_commit_hands_them_out_once() {
    let insert = message(b'I', 42, &[tuple(b'N', &[text_cell("1"), vec![b'n']])]);
    let mut parser = PgoutputParser::new();
    parser.try_parse_frame(&relation()).unwrap();
    parser.try_parse_frame(&insert).unwrap();
    parser.begin(2, 200);
    parser.parse_frame(&insert);
    let txn = parser.commit(200);
    assert_eq!((txn.commit_lsn, txn.events.len()), (200, 1));
    assert!(parser.commit(201).is_empty());
    parser.try_parse_frame(&insert).unwrap();
    assert_eq!(parser.commit(202).events.len(), 1);
}

#[test]
fn frames_that_cannot_be_read_are_told() {
    let mut parser = PgoutputParser::new();
    let insert = message(b'I', 42, &[tuple(b'N', &[text_cell("1"), vec![b'n']])]);
    assert_eq!(parser.try_parse_frame(&insert), Err(FrameError::UnknownRelation(42)));
    parser.try_parse_frame(&relation()).unwrap();
    assert_eq!(
        parser.try_parse_frame(&insert[..insert.len() - 1]),
        Err(FrameError::Truncated)
    );
    assert_eq!(
        parser.try_parse_frame(&message(b'I', 42, &[tuple(b'K', &[])])),
        Err(FrameError::UnexpectedTuple(b'K'))
    );
    assert_eq!(
        parser.try_parse_frame(&message(b'D', 42, &[tuple(b'N', &[])])),
        Err(FrameError::UnexpectedTuple(b'N'))
    );
    assert_eq!(
        parser.try_parse_frame(&message(b'I', 42, &[tuple(b'N', &[vec![b'b']])])),
        Err(FrameError::UnknownFormat(b'b'))
    );
    assert_eq!(
        parser.try_parse_frame(&message(b'U', 42, &[])),
        Err(FrameError::MissingNewTuple)
    );
    let unterminated = [b'R', 0, 0, 0, 1, b'p', b'u'];
    assert_eq!(parser.try_parse_frame(&unterminated), Err(FrameError::MissingTerminator));
}

#[test]
fn messages_behind_an_update_are_read() {
    let update = message(b'U', 42, &[tuple(b'N', &[text_cell("1"), vec![b'n']])]);
    let rekeying = message(
        b'U',
        42,
        &[
            tuple(b'K', &[text_cell("1"), vec![b'n']]),
            tuple(b'N', &[text_cell("2"), vec![b'n']]),
        ],
    );
    let delete = message(b'D', 42, &[tuple(b'K', &[text_cell("2"), vec![b'n']])]);
    let frame = [update, rekeying, delete].concat();
    let txn = after(&[relation(), frame.clone()]);
    let listed_events: Vec<_> = txn.events.iter().map(listed).collect();
    assert_eq!(
        listed_events,
        vec![
            (
                "update users".to_string(),
                pairs(&[("id", "1")]),
                pairs(&[("email", "NULL"), ("id", "1")])
            ),
            (
                "update users".to_string(),
                pairs(&[("id", "1")]),
                pairs(&[("email", "NULL"), ("id", "2")])
            ),
            ("delete users".to_string(), pairs(&[("id", "2")]), vec![]),
        ]
    );
    let unknown = [frame, vec![b'X'], relation()].concat();
    assert_eq!(after(&[relation(), unknown]).events.len(), 3);
}

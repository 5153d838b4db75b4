use redis_connector::handler::{PgoutputParser, TxnEvent};
use redis_connector::wire::FrameError;

fn begin() -> Vec<u8> {
    let mut bytes = vec![b'B'];
    bytes.extend(0x1122334455667788u64.to_be_bytes());
    bytes.extend(5u64.to_be_bytes());
    bytes.extend(777u32.to_be_bytes());
    bytes
}

fn commit() -> Vec<u8> {
    let mut bytes = vec![b'C', 0];
    bytes.extend(0xABCDu64.to_be_bytes());
    bytes.extend(0xABCEu64.to_be_bytes());
    bytes.extend(9u64.to_be_bytes());
    bytes
}

fn relation() -> Vec<u8> {
    let mut bytes = vec![b'R', 0, 0, 0, 7];
    bytes.extend(b"public\0users\0d");
    bytes.extend([0, 1, 1]);
    bytes.extend(b"id\0");
    bytes.extend([0, 0, 0, 23, 0xff, 0xff, 0xff, 0xff]);
    bytes
}

fn row(tag: u8, kind: u8) -> Vec<u8> {
    let mut bytes = vec![tag, 0, 0, 0, 7, kind, 0, 1, b't', 0, 0, 0, 1];
    bytes.push(b'9');
    bytes
}

#[test]
fn begin_is_remembered_and_clears_the_buffer() {
    let mut parser = PgoutputParser::new();
    parser.try_parse_message(&relation()).unwrap();
    parser.try_parse_message(&row(b'I', b'N')).unwrap();
    assert_eq!(parser.events().len(), 1);
    assert_eq!(parser.try_parse_message(&begin()), Ok(None));
    assert_eq!(parser.current_xid(), 777);
    assert_eq!(parser.current_final_lsn(), 0x1122334455667788);
    assert!(parser.events().is_empty());
}

#[test]
fn commit_tells_its_position_and_clears_the_buffer() {
    let mut parser = PgoutputParser::new();
    parser.try_parse_message(&relation()).unwrap();
    parser.try_parse_message(&row(b'D', b'K')).unwrap();
    assert_eq!(parser.try_parse_message(&commit()), Ok(Some(0xABCD)));
    assert!(parser.events().is_empty());
}

#[test]
fn row_messages_are_buffered() {
    let mut parser = PgoutputParser::new();
    parser.try_parse_message(&relation()).unwrap();
    parser.try_parse_message(&row(b'I', b'N')).unwrap();
    parser.try_parse_message(&row(b'U', b'N')).unwrap();
    assert_eq!(parser.parse_message(&row(b'D', b'O')), None);
    assert_eq!(parser.events().len(), 3);
    match &parser.events()[0] {
        TxnEvent::Insert { table, data } => {
            assert_eq!(table, "users");
            assert_eq!(data.get("id").map(String::as_str), Some("9"));
        }
        _ => panic!("an insert comes first"),
    }
    match &parser.events()[1] {
        TxnEvent::Update { table, data, .. } => {
            assert_eq!(table, "users");
            assert_eq!(data.get("id").map(String::as_str), Some("9"));
        }
        _ => panic!("an update comes second"),
    }
    match &parser.events()[2] {
        TxnEvent::Delete { old_key, .. } => {
            assert_eq!(old_key.get("id").map(String::as_str), Some("9"));
        }
        _ => panic!("a delete comes third"),
    }
}

#[test]
fn truncated_messages_are_told() {
    let mut parser = PgoutputParser::new();
    let bytes = commit();
    assert_eq!(
        parser.try_parse_message(&bytes[..bytes.len() - 1]),
        Err(FrameError::Truncated)
    );
    let bytes = begin();
    assert_eq!(
        parser.try_parse_message(&bytes[..bytes.len() - 1]),
        Err(FrameError::Truncated)
    );
    assert_eq!(parser.try_parse_message(&row(b'I', b'N')), Err(FrameError::UnknownRelation(7)));
}

#[test]
fn a_commit_behind_an_update_is_read() {
    let mut parser = PgoutputParser::new();
    let bytes = [begin(), relation(), row(b'U', b'N'), row(b'D', b'K'), commit()].concat();
    assert_eq!(parser.try_parse_message(&bytes), Ok(Some(0xABCD)));
    assert_eq!(parser.current_xid(), 777);
    let bytes = [row(b'U', b'N'), row(b'D', b'K')].concat();
    assert_eq!(parser.try_parse_message(&bytes), Ok(None));
    assert_eq!(parser.events().len(), 2);
}

use redis_connector::event::{ParsedTransaction, TxnEvent};
use redis_connector::fields::FieldMap;
use redis_connector::json::parse_json;
use redis_connector::producer::{Action, Input, Producer, ProducerConfig};
use redis_connector::redis_producer::{fnv1a_64, next_append, AppendStep, RedisStreamProducer};
use redis_connector::wire::FrameError;

fn fields(pairs: &[(&str, &str)]) -> FieldMap {
    let mut map = FieldMap::new();
    for (name, value) in pairs {
        map.insert(name.to_string(), value.to_string());
    }
    map
}

fn streams(partitions: usize) -> RedisStreamProducer {
    RedisStreamProducer::new("events:".to_string(), partitions, "cdc-producer-1".to_string())
}

fn vars(pairs: &[(&str, &str)]) -> Vec<(String, String)> {
    pairs.iter().map(|(n, v)| (n.to_string(), v.to_string())).collect()
}

fn insert_frame(id: &str) -> Vec<u8> {
    let mut bytes = b"R\0\0\0\x07public\0users\0d\0\x01\x01id\0\0\0\0\x17\xff\xff\xff\xff".to_vec();
    bytes.extend(b"I\0\0\0\x07N\0\x01t");
    bytes.extend((id.len() as u32).to_be_bytes());
    bytes.extend(id.as_bytes());
    bytes
}

#[test]
fn fnv1a_matches_its_published_values() {
    assert_eq!(fnv1a_64(b""), 0xcbf29ce484222325);
    assert_eq!(fnv1a_64(b"a"), 0xaf63dc4c8601ec8c);
    assert_eq!(fnv1a_64(b"foobar"), 0x85944171f73967e8);
}

#[test]
fn changes_of_a_row_share_a_partition() {
    let producer = streams(16);
    let key = || fields(&[("id", "2")]);
    let table = || "users".to_string();
    let insert = TxnEvent::Insert { table: table(), key: key(), data: fields(&[("name", "x")]) };
    let update = TxnEvent::Update { table: table(), key: key(), data: fields(&[("name", "y")]) };
    let delete = TxnEvent::Delete { table: table(), key: key() };
    assert_eq!(producer.partition_of(&insert), 9);
    assert_eq!(producer.partition_of(&update), 9);
    assert_eq!(producer.partition_of(&delete), 9);
    assert_eq!(producer.stream_key(9), "events:9");
    let other = TxnEvent::Delete { table: table(), key: fields(&[("id", "1")]) };
    assert_eq!(producer.partition_of(&other), 0);
}

#[test]
fn a_producer_has_at_least_one_partition() {
    let producer = streams(0);
    let event = TxnEvent::Delete { table: "users".to_string(), key: fields(&[("id", "2")]) };
    assert_eq!(producer.partition_of(&event), 0);
}

#[test]
fn transactions_become_stream_entries() {
    let key = || fields(&[("id", "2")]);
    let table = || "users".to_string();
    let data = || fields(&[("id", "2"), ("name", "x")]);
    let txn = ParsedTransaction {
        commit_lsn: 0x19976B0,
        events: vec![
            TxnEvent::Insert { table: table(), key: key(), data: data() },
            TxnEvent::Update { table: table(), key: key(), data: data() },
            TxnEvent::Delete { table: table(), key: key() },
        ],
    };
    let entries = streams(16).publish(&txn);
    let keys: Vec<&str> = entries.iter().map(|e| e.key.as_str()).collect();
    assert_eq!(keys, vec!["events:9"; 3]);
    assert_eq!(
        entries[0].payload,
        "{\"commit_lsn\":\"19976B0\",\"event\":{\"Insert\":{\"data\":{\"id\":\"2\",\"name\":\"x\"},\"key\":{\"id\":\"2\"},\"table\":\"users\"}},\"op\":\"insert\",\"producer\":\"cdc-producer-1\",\"version\":26834608}"
    );
    assert_eq!(
        entries[1].payload,
        "{\"commit_lsn\":\"19976B0\",\"event\":{\"Update\":{\"data\":{\"id\":\"2\",\"name\":\"x\"},\"key\":{\"id\":\"2\"},\"table\":\"users\"}},\"op\":\"update\",\"producer\":\"cdc-producer-1\",\"version\":26834609}"
    );
    assert_eq!(
        entries[2].payload,
        "{\"commit_lsn\":\"19976B0\",\"event\":{\"Delete\":{\"key\":{\"id\":\"2\"},\"table\":\"users\"}},\"op\":\"delete\",\"producer\":\"cdc-producer-1\",\"version\":26834610}"
    );
}

#[test]
fn versions_rise_inside_a_transaction() {
    let event = || TxnEvent::Delete { table: "t".to_string(), key: FieldMap::new() };
    let txn = ParsedTransaction { commit_lsn: 41, events: vec![event(), event(), event()] };
    let versions: Vec<Option<u64>> = streams(4)
        .publish(&txn)
        .iter()
        .map(|e| parse_json(e.payload.as_bytes()).unwrap().get("version").unwrap().as_u64())
        .collect();
    assert_eq!(versions, vec![Some(41), Some(42), Some(43)]);
}

#[test]
fn producer_settings_have_defaults() {
    let cfg = ProducerConfig::from_env(&vec![]);
    assert_eq!(cfg.pg_host, "127.0.0.1");
    assert_eq!(cfg.pg_port, 5432);
    assert_eq!(cfg.pg_user, "postgres");
    assert_eq!(cfg.pg_password, "password");
    assert_eq!(cfg.pg_database, "cdc_db");
    assert_eq!(cfg.pg_slot, "my_slot");
    assert_eq!(cfg.pg_publication, "users_pub");
    assert_eq!(cfg.start_lsn, "0/0");
    assert_eq!(cfg.redis_url, "redis://127.0.0.1:6379");
    assert_eq!(cfg.redis_stream_prefix, "events:");
    assert_eq!(cfg.partitions, 16);
    assert_eq!(cfg.producer_name, "cdc-producer-1");
    assert_eq!(cfg.start_position(), Some(0));
}

#[test]
fn producer_settings_are_read() {
    let cfg = ProducerConfig::from_env(&vars(&[
        ("PGHOST", "db"),
        ("PGPORT", "6543"),
        ("PARTITIONS", "4"),
        ("PRODUCER_NAME", ""),
        ("PGHOST", "second"),
    ]));
    assert_eq!(cfg.pg_host, "db");
    assert_eq!(cfg.pg_port, 6543);
    assert_eq!(cfg.partitions, 4);
    assert_eq!(cfg.producer_name, "");
    let cfg = ProducerConfig::from_env(&vars(&[("PGPORT", "65536"), ("PARTITIONS", "many")]));
    assert_eq!(cfg.pg_port, 5432);
    assert_eq!(cfg.partitions, 16);
}

#[test]
fn positions_are_two_hexadecimal_halves() {
    let position = |text: &str| ProducerConfig::from_env(&vars(&[("START_LSN", text)])).start_position();
    assert_eq!(position("16/B374D848"), Some(0x16B374D848));
    assert_eq!(position("16/b374d848"), Some(0x16B374D848));
    assert_eq!(position("FFFFFFFF/FFFFFFFF"), Some(u64::MAX));
    assert_eq!(position("1/0"), Some(1 << 32));
    assert!(position("0/FFFFFFFF") < position("1/0"));
    assert_eq!(position("100000001/2"), Some((1 << 32) | 2));
    assert_eq!(position("+1/+2"), Some((1 << 32) | 2));
    for bad in ["", "0", "/", "1/", "/1", "1/2/3", "x/0", "1/10000000000000000", "-1/0"] {
        assert_eq!(position(bad), None);
    }
}

#[test]
fn positions_are_acknowledged_after_publishing() {
    let mut producer = Producer::new(streams(16));
    let begin = producer.step(Input::Begin { xid: 1, final_lsn: 50 });
    assert!(matches!(begin, Action::Receive));
    let frame = producer.step(Input::Frame { data: insert_frame("2") });
    assert!(matches!(frame, Action::Receive));
    match producer.step(Input::Commit { lsn: 50 }) {
        Action::Publish(entries) => {
            assert_eq!(entries.len(), 1);
            assert_eq!(entries[0].key, "events:9");
        }
        other => panic!("{other:?}"),
    }
    assert!(matches!(producer.step(Input::Published), Action::Acknowledge { lsn: 50 }));
    assert!(matches!(producer.step(Input::Published), Action::Receive));
    assert!(matches!(producer.step(Input::KeepAlive), Action::Receive));
    assert!(matches!(producer.step(Input::Message), Action::Receive));
    assert!(matches!(producer.step(Input::Ended), Action::Finish));
}

#[test]
fn failed_publishing_is_never_acknowledged() {
    let mut producer = Producer::new(streams(16));
    producer.step(Input::Frame { data: insert_frame("2") });
    assert!(matches!(producer.step(Input::Commit { lsn: 50 }), Action::Publish(_)));
    assert!(matches!(producer.step(Input::PublishFailed), Action::Fail));
    assert!(matches!(producer.step(Input::Published), Action::Receive));
}

#[test]
fn an_unfinished_transaction_is_not_published() {
    let mut producer = Producer::new(streams(16));
    producer.step(Input::Frame { data: insert_frame("2") });
    producer.step(Input::Begin { xid: 2, final_lsn: 60 });
    match producer.step(Input::Commit { lsn: 60 }) {
        Action::Publish(entries) => assert!(entries.is_empty()),
        other => panic!("{other:?}"),
    }
    assert!(matches!(producer.step(Input::Published), Action::Acknowledge { lsn: 60 }));
}

#[test]
fn streams_end_in_one_of_three_ways() {
    assert!(matches!(Producer::new(streams(1)).step(Input::StoppedAt), Action::Finish));
    assert!(matches!(Producer::new(streams(1)).step(Input::Ended), Action::Finish));
    assert!(matches!(Producer::new(streams(1)).step(Input::Failed), Action::Fail));
}

#[test]
fn frames_and_versions_that_do_not_fit_stop_the_producer() {
    let mut producer = Producer::new(streams(1));
    let broken = producer.step(Input::Frame { data: b"I\0\0\0\x09N".to_vec() });
    assert!(matches!(broken, Action::Broken(FrameError::UnknownRelation(9))));
    producer.step(Input::Begin { xid: 1, final_lsn: 1 });
    producer.step(Input::Frame { data: insert_frame("1") });
    producer.step(Input::Frame { data: insert_frame("2") });
    let action = producer.step(Input::Commit { lsn: u64::MAX });
    assert!(matches!(action, Action::OutOfVersions));
    producer.step(Input::Frame { data: insert_frame("1") });
    assert!(matches!(producer.step(Input::Commit { lsn: u64::MAX }), Action::Publish(_)));
}

#[test]
fn appending_stops_at_the_first_failure() {
    assert_eq!(next_append(2, 0, false), AppendStep::Append { at: 0 });
    assert_eq!(next_append(2, 1, false), AppendStep::Append { at: 1 });
    assert_eq!(next_append(2, 2, false), AppendStep::Done);
    assert_eq!(next_append(0, 0, false), AppendStep::Done);
    assert_eq!(next_append(2, 1, true), AppendStep::Fail);
    assert_eq!(next_append(2, 0, true), AppendStep::Fail);
}

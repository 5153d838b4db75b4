use redis_connector::config::{clone_cfg, ConsumerConfig};
use redis_connector::envelope::Envelope;
use redis_connector::event::TxnEvent;
use redis_connector::fields::FieldMap;
use redis_connector::json::json_text;
use redis_connector::opensearch::{BulkOp, BulkReply, ItemOutcome};
use redis_connector::redis_producer::RedisStreamProducer;
use redis_connector::worker::{
    backs_off, fleet, group_args, group_exists, next_group, Delivery, Effect, GroupTask, News,
    PartitionWorker, Task,
};

fn vars(pairs: &[(&str, &str)]) -> Vec<(String, String)> {
    pairs.iter().map(|(n, v)| (n.to_string(), v.to_string())).collect()
}

fn worker(retries: &str) -> PartitionWorker {
    let cfg = ConsumerConfig::from_env(&vars(&[("POISON_MAX_RETRIES", retries)]));
    PartitionWorker::new(cfg, 3)
}

fn delivery(id: &str, version: u64) -> Delivery {
    let mut key = FieldMap::new();
    key.insert("id".to_string(), id.to_string());
    let mut data = FieldMap::new();
    data.insert("name".to_string(), format!("n{id}"));
    Delivery {
        id: id.to_string(),
        payload: format!("payload {id}"),
        envelope: Some(Envelope {
            version,
            event: TxnEvent::Insert { table: "users".to_string(), key, data },
        }),
    }
}

fn malformed(id: &str) -> Delivery {
    Delivery { id: id.to_string(), payload: format!("payload {id}"), envelope: None }
}

fn shown(effects: &[Effect]) -> Vec<String> {
    effects
        .iter()
        .map(|effect| match effect {
            Effect::DeadLetter { payload } => format!("dlq {payload}"),
            Effect::Ack { id } => format!("ack {id}"),
        })
        .collect()
}

fn none() -> Vec<String> {
    vec![]
}

#[test]
fn consumer_settings_have_defaults() {
    let cfg = ConsumerConfig::from_env(&vec![]);
    assert_eq!(cfg.redis_url, "redis://127.0.0.1:6379");
    assert_eq!(cfg.partitions, 16);
    assert_eq!(cfg.group_name, "os_indexer");
    assert_eq!(cfg.stream_prefix, "events:");
    assert_eq!(cfg.dlq_stream, "events:dlq");
    assert_eq!(cfg.opensearch_url, "http://127.0.0.1:9200");
    assert_eq!(cfg.opensearch_user, None);
    assert_eq!(cfg.opensearch_password, None);
    assert_eq!(cfg.index_prefix, "cdc-");
    assert_eq!(cfg.batch_size, 500);
    assert_eq!(cfg.claim_idle_ms, 30000);
    assert_eq!(cfg.claim_interval, 60);
    assert_eq!(cfg.poison_max_retries, 3);
}

#[test]
fn consumer_settings_are_read() {
    let cfg = ConsumerConfig::from_env(&vars(&[
        ("OPENSEARCH_USER", "admin"),
        ("OPENSEARCH_PASSWORD", ""),
        ("CLAIM_INTERVAL_S", "5"),
        ("POISON_MAX_RETRIES", "256"),
        ("CONSUMER_BATCH", "10"),
        ("OS_INDEX_PREFIX", "x-"),
    ]));
    assert_eq!(cfg.opensearch_user.as_deref(), Some("admin"));
    assert_eq!(cfg.opensearch_password, None);
    assert_eq!(cfg.claim_interval, 5);
    assert_eq!(cfg.poison_max_retries, 3);
    assert_eq!(cfg.batch_size, 10);
    assert_eq!(cfg.index_for("users"), "x-users");
    assert_eq!(cfg.stream_key(11), "events:11");
    let copy = clone_cfg(&cfg);
    assert_eq!(copy.opensearch_user.as_deref(), Some("admin"));
    assert_eq!(copy.index_prefix, "x-");
    assert_eq!(copy.claim_interval, 5);
}

#[test]
fn changes_become_operations() {
    let mut worker = worker("3");
    let mut update = delivery("7", 12);
    if let Some(envelope) = update.envelope.take() {
        if let TxnEvent::Insert { table, key, data } = envelope.event {
            update.envelope =
                Some(Envelope { version: 12, event: TxnEvent::Update { table, key, data } });
        }
    }
    let mut delete = delivery("8", 13);
    let mut key = FieldMap::new();
    key.insert("id".to_string(), "8".to_string());
    delete.envelope = Some(Envelope {
        version: 13,
        event: TxnEvent::Delete { table: "users".to_string(), key },
    });
    let (batch, effects) = worker.plan_batch(vec![delivery("6", 11), update, delete]);
    assert_eq!(shown(&effects), none());
    assert!(!batch.is_empty());
    let items = batch.items();
    let ops: Vec<BulkOp> = items.iter().map(|i| i.op).collect();
    assert_eq!(ops, vec![BulkOp::Index, BulkOp::Index, BulkOp::Delete]);
    let ids: Vec<&str> = items.iter().map(|i| i.doc_id.as_str()).collect();
    assert_eq!(ids, vec!["users:id=6", "users:id=7", "users:id=8"]);
    let versions: Vec<u64> = items.iter().map(|i| i.version).collect();
    assert_eq!(versions, vec![11, 12, 13]);
    assert_eq!(items[0].index, "cdc-users");
    assert_eq!(items[0].source.as_ref().map(json_text), Some("{\"name\":\"n6\"}".to_string()));
    assert_eq!(items[1].source.as_ref().map(json_text), Some("{\"name\":\"n7\"}".to_string()));
    assert!(items[2].source.is_none());
}

#[test]
fn malformed_messages_are_given_up_at_once() {
    let mut worker = worker("3");
    let (batch, effects) = worker.plan_batch(vec![malformed("1"), malformed("2")]);
    assert!(batch.is_empty());
    assert_eq!(shown(&effects), vec!["dlq payload 1", "ack 1", "dlq payload 2", "ack 2"]);
    let (batch, effects) = worker.plan_batch(vec![]);
    assert!(batch.is_empty());
    assert_eq!(shown(&effects), none());
}

#[test]
fn outcomes_belong_to_the_messages_that_were_sent() {
    let mut worker = worker("1");
    let (batch, effects) =
        worker.plan_batch(vec![malformed("1"), delivery("2", 5), malformed("3"), delivery("4", 6)]);
    assert_eq!(shown(&effects), vec!["dlq payload 1", "ack 1", "dlq payload 3", "ack 3"]);
    assert_eq!(batch.items().len(), 2);
    let settlement = worker.settle(batch, &vec![ItemOutcome::Ack, ItemOutcome::Poison]);
    assert_eq!(shown(&settlement.effects), vec!["ack 2", "dlq payload 4", "ack 4"]);
    assert!(!settlement.transient);
}

#[test]
fn done_and_stale_messages_are_acknowledged() {
    let mut worker = worker("3");
    let (batch, _) = worker.plan_batch(vec![delivery("1", 1), delivery("2", 1)]);
    let settlement = worker.settle(batch, &vec![ItemOutcome::Ack, ItemOutcome::Stale]);
    assert_eq!(shown(&settlement.effects), vec!["ack 1", "ack 2"]);
    assert!(!settlement.transient);
}

#[test]
fn transient_and_missing_outcomes_leave_messages_pending() {
    let mut worker = worker("3");
    let (batch, _) = worker.plan_batch(vec![delivery("1", 1), delivery("2", 1)]);
    let settlement = worker.settle(batch, &vec![ItemOutcome::Transient]);
    assert_eq!(shown(&settlement.effects), none());
    assert!(settlement.transient);
    let (batch, _) = worker.plan_batch(vec![delivery("1", 1), delivery("2", 1)]);
    let settlement = worker.settle(batch, &vec![ItemOutcome::Ack]);
    assert_eq!(shown(&settlement.effects), vec!["ack 1"]);
    assert!(settlement.transient);
}

fn fail_to_map(worker: &mut PartitionWorker, outcome: ItemOutcome) -> Vec<String> {
    let (batch, _) = worker.plan_batch(vec![delivery("9", 1)]);
    let settlement = worker.settle(batch, &vec![outcome]);
    shown(&settlement.effects)
}

#[test]
fn poison_is_given_up_at_the_third_failure() {
    let mut worker = worker("3");
    assert_eq!(fail_to_map(&mut worker, ItemOutcome::Poison), none());
    assert_eq!(fail_to_map(&mut worker, ItemOutcome::Transient), none());
    assert_eq!(fail_to_map(&mut worker, ItemOutcome::Poison), none());
    assert_eq!(fail_to_map(&mut worker, ItemOutcome::Poison), vec!["dlq payload 9", "ack 9"]);
    assert_eq!(fail_to_map(&mut worker, ItemOutcome::Poison), none());
}

#[test]
fn a_success_forgets_earlier_failures() {
    let mut worker = worker("2");
    assert_eq!(fail_to_map(&mut worker, ItemOutcome::Poison), none());
    assert_eq!(fail_to_map(&mut worker, ItemOutcome::Stale), vec!["ack 9"]);
    assert_eq!(fail_to_map(&mut worker, ItemOutcome::Poison), none());
    let (_, effects) = worker.plan_batch(vec![malformed("9")]);
    assert_eq!(shown(&effects), vec!["dlq payload 9", "ack 9"]);
    assert_eq!(fail_to_map(&mut worker, ItemOutcome::Poison), none());
    assert_eq!(fail_to_map(&mut worker, ItemOutcome::Poison), vec!["dlq payload 9", "ack 9"]);
}

#[test]
fn a_limit_of_zero_gives_poison_up_at_once() {
    for retries in ["0", "1"] {
        let mut worker = worker(retries);
        assert_eq!(fail_to_map(&mut worker, ItemOutcome::Poison), vec!["dlq payload 9", "ack 9"]);
    }
    let mut worker = worker("255");
    for _ in 0..254 {
        assert_eq!(fail_to_map(&mut worker, ItemOutcome::Poison), none());
    }
    assert_eq!(fail_to_map(&mut worker, ItemOutcome::Poison), vec!["dlq payload 9", "ack 9"]);
}

#[test]
fn batches_are_settled_by_the_reply() {
    let mut worker = worker("3");
    let (batch, _) = worker.plan_batch(vec![delivery("1", 1), delivery("2", 1)]);
    let body = b"{\"items\":[{\"index\":{\"status\":409}},{\"index\":{\"status\":200}}]}".to_vec();
    let settlement = worker.finish_batch(batch, &BulkReply::Answered { status: 200, body });
    assert_eq!(shown(&settlement.effects), vec!["ack 1", "ack 2"]);
    assert!(!settlement.transient);
    let (batch, _) = worker.plan_batch(vec![delivery("1", 1)]);
    let settlement = worker.finish_batch(batch, &BulkReply::Failed);
    assert_eq!(shown(&settlement.effects), none());
    assert!(settlement.transient);
}

#[test]
fn commands_name_stream_group_and_consumer() {
    let worker = worker("3");
    assert_eq!(worker.stream(), "events:3");
    assert_eq!(worker.partition(), 3);
    assert_eq!(worker.consumer(), "worker-3");
    assert_eq!(worker.config().group_name, "os_indexer");
    assert_eq!(
        worker.claim_args(),
        vec!["events:3", "os_indexer", "worker-3", "30000", "0", "COUNT", "500"]
    );
    assert_eq!(
        group_args(worker.config(), 5),
        vec!["CREATE", "events:5", "os_indexer", "$", "MKSTREAM"]
    );
    assert!(group_exists("BUSYGROUP Consumer Group name already exists"));
    assert!(!group_exists("NOAUTH Authentication required"));
}

#[test]
fn every_partition_has_one_worker() {
    let cfg = ConsumerConfig::from_env(&vars(&[("PARTITIONS", "12")]));
    let workers = fleet(&cfg);
    let streams: Vec<String> = workers.iter().map(PartitionWorker::stream).collect();
    assert_eq!(streams.len(), 12);
    assert_eq!(streams[0], "events:0");
    assert_eq!(streams[11], "events:11");
    let producer = RedisStreamProducer::new("events:".to_string(), 12, "p".to_string());
    let mut key = FieldMap::new();
    key.insert("id".to_string(), "1".to_string());
    let event = TxnEvent::Delete { table: "users".to_string(), key };
    let stream = producer.stream_key(producer.partition_of(&event));
    assert_eq!(streams.iter().filter(|s| **s == stream).count(), 1);
}

#[test]
fn rounds_exit_reclaim_or_fetch() {
    let worker = worker("3");
    let round = |cancelled, since_claim| worker.next_task(News::Round { cancelled, since_claim });
    assert_eq!(round(true, 100), Task::Exit);
    assert_eq!(round(false, 59), Task::Fetch);
    assert_eq!(round(false, 60), Task::Reclaim);
    assert_eq!(worker.next_task(News::Claimed), Task::Process);
    assert_eq!(
        worker.next_task(News::ClaimFailed),
        Task::RestartClaimClock { transient: false }
    );
    for transient in [false, true] {
        assert_eq!(
            worker.next_task(News::ClaimProcessed { transient }),
            Task::RestartClaimClock { transient }
        );
    }
    assert_eq!(worker.next_task(News::ClockRestarted { transient: false }), Task::Fetch);
    assert_eq!(worker.next_task(News::Fetched), Task::Process);
    assert_eq!(
        worker.next_task(News::FetchProcessed { transient: false }),
        Task::Sleep { ms: 200 }
    );
    assert_eq!(
        worker.next_task(News::FetchProcessed { transient: true }),
        Task::Sleep { ms: 1000 }
    );
    assert_eq!(
        worker.next_task(News::FetchFailed { cancelled: false }),
        Task::Sleep { ms: 1000 }
    );
    assert_eq!(worker.next_task(News::FetchFailed { cancelled: true }), Task::NextRound);
    assert_eq!(worker.next_task(News::Slept), Task::NextRound);
}

#[test]
fn a_reclaimed_batch_that_failed_is_backed_off_from() {
    let worker = worker("3");
    let restart = worker.next_task(News::ClaimProcessed { transient: true });
    assert_eq!(restart, Task::RestartClaimClock { transient: true });
    let sleep = worker.next_task(News::ClockRestarted { transient: true });
    assert_eq!(sleep, Task::Sleep { ms: 1000 });
    assert_eq!(worker.next_task(News::Slept), Task::NextRound);
}

#[test]
fn either_failure_makes_the_worker_back_off() {
    assert!(!backs_off(false, false));
    assert!(backs_off(true, false));
    assert!(backs_off(false, true));
    assert!(backs_off(true, true));
}

#[test]
fn groups_are_made_in_order_and_stop_at_an_error() {
    let busy = "BUSYGROUP Consumer Group name already exists";
    assert_eq!(next_group(2, 0, None), GroupTask::Create { partition: 0 });
    assert_eq!(next_group(2, 1, Some(busy)), GroupTask::Create { partition: 1 });
    assert_eq!(next_group(2, 2, None), GroupTask::Start);
    assert_eq!(next_group(2, 2, Some(busy)), GroupTask::Start);
    assert_eq!(next_group(2, 1, Some("NOAUTH")), GroupTask::Fail);
    assert_eq!(next_group(2, 2, Some("NOAUTH")), GroupTask::Fail);
    assert_eq!(next_group(0, 0, None), GroupTask::Start);
}

//! Consumer configuration, built from environment variables.

use crate::redis_producer::stream_key_of;
use crate::settings::{
    given, number_or, number_setting, optional_setting, text_or, text_setting, variables_of,
};
use crate::text::{joined, to_decimal};
use vstd::prelude::*;
use vstd::string::*;

verus! {

/// What a consumer is configured with.
pub struct ConsumerConfig {
    pub redis_url: String,
    /// Number of partitions. Must match the producer's `PARTITIONS`.
    pub partitions: usize,
    /// Consumer group name spanning all partitioned streams.
    pub group_name: String,
    /// Prefix for the partitioned stream keys, e.g. `events:` -> `events:0`.
    pub stream_prefix: String,
    /// Stream key used for the dead-letter queue.
    pub dlq_stream: String,
    /// OpenSearch base URL.
    pub opensearch_url: String,
    /// Optional HTTP basic-auth credentials for OpenSearch.
    pub opensearch_user: Option<String>,
    pub opensearch_password: Option<String>,
    /// Index name prefix, e.g. `cdc-` -> `cdc-users`.
    pub index_prefix: String,
    /// Max messages fetched per `XREADGROUP` call.
    pub batch_size: usize,
    /// Idle threshold (ms) after which `XAUTOCLAIM` reclaims a message.
    pub claim_idle_ms: u64,
    /// Interval between `XAUTOCLAIM` sweeps, in seconds.
    pub claim_interval: u64,
    /// Mapping failures tolerated before a message is sent to the DLQ.
    pub poison_max_retries: u8,
}

/// What a consumer is configured with.
#[verifier::ext_equal]
pub ghost struct Consumption {
    pub redis_url: Seq<char>,
    pub partitions: usize,
    pub group_name: Seq<char>,
    pub stream_prefix: Seq<char>,
    pub dlq_stream: Seq<char>,
    pub opensearch_url: Seq<char>,
    pub opensearch_user: Option<Seq<char>>,
    pub opensearch_password: Option<Seq<char>>,
    pub index_prefix: Seq<char>,
    pub batch_size: usize,
    pub claim_idle_ms: u64,
    pub claim_interval: u64,
    pub poison_max_retries: u8,
}

impl Consumption {
    /// The key of the stream of a partition.
    pub open spec fn stream_key(self, partition: nat) -> Seq<char> {
        stream_key_of(self.stream_prefix, partition)
    }

    /// The index of a table.
    pub open spec fn index_for(self, table: Seq<char>) -> Seq<char> {
        self.index_prefix + table
    }
}

/// The text that a string holds, where there is one.
pub open spec fn text_in(value: Option<String>) -> Option<Seq<char>> {
    match value {
        Some(text) => Some(text@),
        None => None,
    }
}

impl View for ConsumerConfig {
    type V = Consumption;

    open spec fn view(&self) -> Consumption {
        Consumption {
            redis_url: self.redis_url@,
            partitions: self.partitions,
            group_name: self.group_name@,
            stream_prefix: self.stream_prefix@,
            dlq_stream: self.dlq_stream@,
            opensearch_url: self.opensearch_url@,
            opensearch_user: text_in(self.opensearch_user),
            opensearch_password: text_in(self.opensearch_password),
            index_prefix: self.index_prefix@,
            batch_size: self.batch_size,
            claim_idle_ms: self.claim_idle_ms,
            claim_interval: self.claim_interval,
            poison_max_retries: self.poison_max_retries,
        }
    }
}

impl ConsumerConfig {
    /// Build configuration from environment variables, falling back to defaults.
    pub fn from_env(vars: &Vec<(String, String)>) -> (cfg: Self)
        ensures
            ({
                let all = variables_of(vars@);
                &&& cfg@.redis_url == text_or(all, "REDIS_URL"@, "redis://127.0.0.1:6379"@)
                &&& cfg@.partitions == number_or(all, "PARTITIONS"@, 16, usize::MAX as nat)
                &&& cfg@.group_name == text_or(all, "CONSUMER_GROUP"@, "os_indexer"@)
                &&& cfg@.stream_prefix == text_or(all, "CONSUMER_STREAM_PREFIX"@, "events:"@)
                &&& cfg@.dlq_stream == text_or(all, "CONSUMER_DLQ"@, "events:dlq"@)
                &&& cfg@.opensearch_url == text_or(
                    all,
                    "OPENSEARCH_URL"@,
                    "http://127.0.0.1:9200"@,
                )
                &&& cfg@.opensearch_user == given(all, "OPENSEARCH_USER"@)
                &&& cfg@.opensearch_password == given(all, "OPENSEARCH_PASSWORD"@)
                &&& cfg@.index_prefix == text_or(all, "OS_INDEX_PREFIX"@, "cdc-"@)
                &&& cfg@.batch_size == number_or(all, "CONSUMER_BATCH"@, 500, usize::MAX as nat)
                &&& cfg@.claim_idle_ms == number_or(
                    all,
                    "CLAIM_IDLE_MS"@,
                    30000,
                    u64::MAX as nat,
                )
                &&& cfg@.claim_interval == number_or(
                    all,
                    "CLAIM_INTERVAL_S"@,
                    60,
                    u64::MAX as nat,
                )
                &&& cfg@.poison_max_retries == number_or(
                    all,
                    "POISON_MAX_RETRIES"@,
                    3,
                    u8::MAX as nat,
                )
            }),
    {
        let user = optional_setting(vars, "OPENSEARCH_USER");
        let password = optional_setting(vars, "OPENSEARCH_PASSWORD");
        ConsumerConfig {
            redis_url: text_setting(vars, "REDIS_URL", "redis://127.0.0.1:6379"),
            partitions: number_setting(vars, "PARTITIONS", 16, usize::MAX as u64) as usize,
            group_name: text_setting(vars, "CONSUMER_GROUP", "os_indexer"),
            stream_prefix: text_setting(vars, "CONSUMER_STREAM_PREFIX", "events:"),
            dlq_stream: text_setting(vars, "CONSUMER_DLQ", "events:dlq"),
            opensearch_url: text_setting(vars, "OPENSEARCH_URL", "http://127.0.0.1:9200"),
            opensearch_user: user,
            opensearch_password: password,
            index_prefix: text_setting(vars, "OS_INDEX_PREFIX", "cdc-"),
            batch_size: number_setting(vars, "CONSUMER_BATCH", 500, usize::MAX as u64) as usize,
            claim_idle_ms: number_setting(vars, "CLAIM_IDLE_MS", 30000, u64::MAX),
            claim_interval: number_setting(vars, "CLAIM_INTERVAL_S", 60, u64::MAX),
            poison_max_retries: number_setting(vars, "POISON_MAX_RETRIES", 3, u8::MAX as u64) as u8,
        }
    }

    /// The key of the stream of a partition.
    pub fn stream_key(&self, partition: usize) -> (key: String)
        ensures
            key@ == self@.stream_key(partition as nat),
    {
        let number = to_decimal(partition as u64);
        joined(self.stream_prefix.as_str(), number.as_str())
    }

    /// The index that the documents of a table go to.
    pub fn index_for(&self, table: &str) -> (index: String)
        ensures
            index@ == self@.index_for(table@),
    {
        joined(self.index_prefix.as_str(), table)
    }
}

fn clone_text(value: &Option<String>) -> (copy: Option<String>)
    ensures
        text_in(copy) == text_in(*value),
{
    match value {
        Some(text) => Some(text.clone()),
        None => None,
    }
}

/// A copy of a configuration.
pub fn clone_cfg(cfg: &ConsumerConfig) -> (copy: ConsumerConfig)
    ensures
        copy@ == cfg@,
{
    ConsumerConfig {
        redis_url: cfg.redis_url.clone(),
        partitions: cfg.partitions,
        group_name: cfg.group_name.clone(),
        stream_prefix: cfg.stream_prefix.clone(),
        dlq_stream: cfg.dlq_stream.clone(),
        opensearch_url: cfg.opensearch_url.clone(),
        opensearch_user: clone_text(&cfg.opensearch_user),
        opensearch_password: clone_text(&cfg.opensearch_password),
        index_prefix: cfg.index_prefix.clone(),
        batch_size: cfg.batch_size,
        claim_idle_ms: cfg.claim_idle_ms,
        claim_interval: cfg.claim_interval,
        poison_max_retries: cfg.poison_max_retries,
    }
}

}

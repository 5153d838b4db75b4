//! A change-data-capture connector: it reads PostgreSQL logical replication,
//! publishes the changes to partitioned Redis streams, and indexes them in
//! OpenSearch.

pub mod config;
pub mod document;
pub mod envelope;
pub mod event;
pub mod fields;
pub mod handler;
pub mod json;
pub mod layout;
pub mod opensearch;
pub mod producer;
pub mod redis_producer;
pub mod reply;
pub mod settings;
pub mod text;
pub mod wal;
pub mod wire;
pub mod worker;

//! Node logic for distributed-systems workloads that speak a line-delimited
//! JSON protocol: the message envelope and its reply rules, broadcast by
//! gossip, a shared counter and a Kafka-style log kept in key-value services,
//! a Kafka-style log kept locally in one byte block, transactions, echo and
//! unique ids. Each node is a state machine: it takes one event and returns
//! the messages to send; the caller does the input and output.

pub mod broadcast;
pub mod counter;
pub mod echo;
pub mod kv;
pub mod log_storage;
pub mod message;
pub mod multi_kafka;
pub mod pending;
pub mod random;
pub mod segment;
pub mod single_kafka;
pub mod text;
pub mod txn;
pub mod unique_ids;

pub use message::{Body, Event, GanError, Init, InitPayload, Message};

//! Log, metric and crash-dump collection rules of the Spotflow daemon.

pub mod buffer;
pub mod cbor;
pub mod chunks;
pub mod config;
pub mod log_entry;
pub mod metrics;
pub mod mqtt;
pub mod number;
pub mod order;
pub mod orchestrator;
pub mod sources;
pub mod split;
pub mod spool;
pub mod string_map;
pub mod text;

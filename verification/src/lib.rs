//! A stateful edge runtime's core: an in-memory entity store with hash and
//! sorted indexes, partitioned collections, retention sweeping, bundle
//! configuration validation, runtime limits and request helpers.
//!
//! Its functions are proved against their contracts; the few calls into
//! dashmap, serde_json and std that they rest on carry stated contracts of
//! their own. The program around it (HTTP serving, Kafka, the JavaScript
//! engine, metrics) hands this library plain values and bytes.

pub mod config;
pub mod http;
pub mod ingestion;
pub mod json;
pub mod limits;
pub mod script;
pub mod store;
pub mod text;

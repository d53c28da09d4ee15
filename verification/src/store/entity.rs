//! Records, tombstones and the operations that scripts hand the store.

use vstd::prelude::*;

use crate::json::{json_same, JsonValue};

verus! {

/// A stored entity.
#[derive(Debug)]
pub struct EntityRecord {
    pub entity_type: String,
    pub key: String,
    pub value: JsonValue,
    pub updated_at_ms: u64,
    /// When retention evicts the record, if its entity type has a time to live.
    pub expires_at_ms: Option<u64>,
}

/// Two records agree in every field, their values holding the same document.
pub open spec fn record_same(a: EntityRecord, b: EntityRecord) -> bool {
    &&& a.entity_type == b.entity_type
    &&& a.key == b.key
    &&& json_same(a.value, b.value)
    &&& a.updated_at_ms == b.updated_at_ms
    &&& a.expires_at_ms == b.expires_at_ms
}

impl EntityRecord {
    /// A copy of the record.
    pub fn copy(&self) -> (r: EntityRecord)
        ensures
            record_same(r, *self),
    {
        EntityRecord {
            entity_type: self.entity_type.clone(),
            key: self.key.clone(),
            value: self.value.deep_copy(),
            updated_at_ms: self.updated_at_ms,
            expires_at_ms: self.expires_at_ms,
        }
    }
}

/// The trace that a delete leaves.
#[derive(Debug, Clone)]
pub struct Tombstone {
    pub entity_type: String,
    pub key: String,
    pub deleted_at_ms: u64,
}

/// An operation on the store, as an ingest, cron or lifecycle script
/// returns it.
#[derive(Debug)]
pub struct StoreOp {
    pub op: StoreOpKind,
    pub entity_type: String,
    pub key: String,
    pub item_id: Option<String>,
    pub value: Option<JsonValue>,
}

#[derive(Debug, Clone, Copy, PartialEq, Eq, Structural)]
pub enum StoreOpKind {
    Upsert,
    Delete,
    Push,
    RemoveItem,
}

} // verus!

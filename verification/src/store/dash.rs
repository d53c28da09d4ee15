//! The concurrent hash maps (`dashmap::DashMap`) that hold the store's
//! records, tombstones and collection partitions.
//!
//! What each map holds is named below; every call into dashmap goes through
//! one of the functions of this file, whose contract states what the call
//! does to that content, as dashmap's source shows it: a `DashMap` behaves
//! as a `HashMap` split into locked shards. The maps are only ever used
//! through `&mut` here, so no other thread changes them during a call.

use std::collections::VecDeque;

use dashmap::DashMap;
use vstd::prelude::*;

use crate::store::collection::{items_same, CollectionItem};
use crate::store::entity::{record_same, EntityRecord, Tombstone};
use crate::store::index::strings_view;

verus! {

/// The records of one entity type, by key.
pub type RecordMap = DashMap<String, EntityRecord>;

/// Tombstones, by tombstone key.
pub type TombstoneMap = DashMap<String, Tombstone>;

/// The partitions of one collection, by partition key.
pub type PartitionMap = DashMap<String, VecDeque<CollectionItem>>;

#[verifier::external_type_specification]
#[verifier::external_body]
#[verifier::reject_recursive_types(K)]
#[verifier::reject_recursive_types(V)]
#[verifier::reject_recursive_types(S)]
pub struct ExDashMap<K, V, S>(DashMap<K, V, S>);

/// The records that a map of one entity type holds, by key.
pub uninterp spec fn record_table(m: RecordMap) -> Map<Seq<char>, EntityRecord>;

/// The tombstones that a map holds, by tombstone key.
pub uninterp spec fn tombstone_table(m: TombstoneMap) -> Map<Seq<char>, Tombstone>;

/// The partitions that a map of one collection holds, by partition key.
pub uninterp spec fn partition_table(m: PartitionMap) -> Map<
    Seq<char>,
    Seq<CollectionItem>,
>;

/// `DashMap::new`: an empty map.
#[verifier::external_body]
pub(crate) fn records_new() -> (m: RecordMap)
    ensures
        record_table(m) =~= Map::empty(),
{
    DashMap::new()
}

/// `DashMap::insert`: the key now maps to the record.
#[verifier::external_body]
pub(crate) fn records_insert(m: &mut RecordMap, key: String, record: EntityRecord)
    ensures
        record_table(*final(m)) == record_table(*old(m)).insert(key@, record),
{
    m.insert(key, record);
}

/// `DashMap::remove`: the key no longer maps to anything; the record it
/// mapped to, if any, is handed back.
#[verifier::external_body]
pub(crate) fn records_remove(m: &mut RecordMap, key: &str) -> (r: Option<
    EntityRecord,
>)
    ensures
        record_table(*final(m)) == record_table(*old(m)).remove(key@),
        r is Some == record_table(*old(m)).contains_key(key@),
        r matches Some(v) ==> v == record_table(*old(m))[key@],
{
    m.remove(key).map(|(_, v)| v)
}

/// `DashMap::get`: a copy of the record the key maps to, if any.
#[verifier::external_body]
pub(crate) fn records_get(m: &RecordMap, key: &str) -> (r: Option<
    EntityRecord,
>)
    ensures
        r is Some == record_table(*m).contains_key(key@),
        r matches Some(v) ==> record_same(v, record_table(*m)[key@]),
{
    m.get(key).map(|entry| entry.copy())
}

/// `DashMap::len`: the number of records.
#[verifier::external_body]
pub(crate) fn records_len(m: &RecordMap) -> (r: usize)
    ensures
        r == record_table(*m).len(),
{
    m.len()
}

/// `DashMap::iter`: the keys, each once, in the map's own order.
#[verifier::external_body]
pub(crate) fn records_keys(m: &RecordMap) -> (r: Vec<String>)
    ensures
        strings_view(r@).no_duplicates(),
        strings_view(r@).to_set() == record_table(*m).dom(),
{
    m.iter().map(|entry| entry.key().clone()).collect()
}

/// `DashMap::new`: an empty map.
#[verifier::external_body]
pub(crate) fn tombstones_new() -> (m: TombstoneMap)
    ensures
        tombstone_table(m) =~= Map::empty(),
{
    DashMap::new()
}

/// `DashMap::insert`: the key now maps to the tombstone.
#[verifier::external_body]
pub(crate) fn tombstones_insert(m: &mut TombstoneMap, key: String, t: Tombstone)
    ensures
        tombstone_table(*final(m)) == tombstone_table(*old(m)).insert(key@, t),
{
    m.insert(key, t);
}

/// `DashMap::remove`: the key no longer maps to anything.
#[verifier::external_body]
pub(crate) fn tombstones_remove(m: &mut TombstoneMap, key: &str)
    ensures
        tombstone_table(*final(m)) == tombstone_table(*old(m)).remove(key@),
{
    m.remove(key);
}

/// `DashMap::iter`: every entry, each key once, in the map's own order.
#[verifier::external_body]
pub(crate) fn tombstones_entries(m: &TombstoneMap) -> (r: Vec<(String, Tombstone)>)
    ensures
        r@.map_values(|e: (String, Tombstone)| e.0@).no_duplicates(),
        r@.map_values(|e: (String, Tombstone)| e.0@).to_set() == tombstone_table(*m).dom(),
        forall|i: int|
            0 <= i < r@.len() ==> tombstone_table(*m)[(#[trigger] r@[i]).0@] == r@[i].1,
{
    m.iter().map(|entry| (entry.key().clone(), entry.value().clone())).collect()
}

/// `DashMap::new`: an empty map.
#[verifier::external_body]
pub(crate) fn partitions_new() -> (m: PartitionMap)
    ensures
        partition_table(m) =~= Map::empty(),
{
    DashMap::new()
}

/// `DashMap::insert`: the partition key now maps to the items.
#[verifier::external_body]
pub(crate) fn partitions_insert(
    m: &mut PartitionMap,
    key: String,
    items: VecDeque<CollectionItem>,
)
    ensures
        partition_table(*final(m)) == partition_table(*old(m)).insert(key@, items@),
{
    m.insert(key, items);
}

/// `DashMap::remove`: the partition key no longer maps to anything; its
/// items, if any, are handed back.
#[verifier::external_body]
pub(crate) fn partitions_remove(m: &mut PartitionMap, key: &str) -> (r:
    Option<VecDeque<CollectionItem>>)
    ensures
        partition_table(*final(m)) == partition_table(*old(m)).remove(key@),
        r is Some == partition_table(*old(m)).contains_key(key@),
        r matches Some(v) ==> v@ == partition_table(*old(m))[key@],
{
    m.remove(key).map(|(_, v)| v)
}

/// `DashMap::get`: a copy of the partition's items, if the key is present.
#[verifier::external_body]
pub(crate) fn partitions_get(m: &PartitionMap, key: &str) -> (r: Option<
    Vec<CollectionItem>,
>)
    ensures
        r is Some == partition_table(*m).contains_key(key@),
        r matches Some(v) ==> items_same(v@, partition_table(*m)[key@]),
{
    m.get(key).map(|entry| crate::store::collection::copy_items(entry.value()))
}

/// `DashMap::len`: the number of partitions.
#[verifier::external_body]
pub(crate) fn partitions_len(m: &PartitionMap) -> (r: usize)
    ensures
        r == partition_table(*m).len(),
{
    m.len()
}

/// `DashMap::iter`: the partition keys, each once, in the map's own order.
#[verifier::external_body]
pub(crate) fn partitions_keys(m: &PartitionMap) -> (r: Vec<String>)
    ensures
        strings_view(r@).no_duplicates(),
        strings_view(r@).to_set() == partition_table(*m).dom(),
{
    m.iter().map(|entry| entry.key().clone()).collect()
}

} // verus!

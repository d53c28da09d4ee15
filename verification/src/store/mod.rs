//! The in-memory entity store: records by entity type and key, hash and
//! sorted indexes on their fields, tombstones of deletes, a memory budget,
//! retention sweeping, and the collections of the schema.

pub mod collection;
pub mod dash;
pub mod entity;
pub mod index;

use vstd::prelude::*;

use crate::config::schema::{schema_same, schema_ttl, EntitySchema, EntityType, IndexKind, SchemaConfig};
use crate::json::{json_as_i64, json_as_str, json_byte_len, json_get, utf8_len, JsonValue};
use crate::store::collection::{
    collection_error_text,
    item_fits, last_collection_def, CollectionItem, CollectionStore, CollectionStoreError,
};
use crate::store::dash::{
    record_table, records_get, records_insert, records_keys, records_len, records_new,
    records_remove, tombstone_table, tombstones_entries, tombstones_insert, tombstones_new,
    tombstones_remove, RecordMap, TombstoneMap,
};
use crate::store::entity::{record_same, EntityRecord, StoreOp, StoreOpKind, Tombstone};
use crate::store::index::{index_key, index_value_to_key, IndexMeta, IndexPair, IndexSet};
use crate::text::{blank, dotted_suffix, has_dotted_suffix, i64_decimal, join3, opt_str, signed_decimal_seq, str_equal};
use crate::store::index::{in_range, keys_with, pairs_view, range_keys, strings_view};

verus! {

/// The name under which the store keeps an index of an entity type:
/// `entity.index`.
pub open spec fn internal_name(entity: Seq<char>, index: Seq<char>) -> Seq<char> {
    entity + seq!['.'] + index
}

/// The key of a tombstone: `entity:key`.
pub open spec fn tombstone_key_of(entity: Seq<char>, key: Seq<char>) -> Seq<char> {
    entity + seq![':'] + key
}

/// Hash and membership indexes are kept by value; sorted ones in order.
pub open spec fn is_hash_kind(k: IndexKind) -> bool {
    k != IndexKind::Sorted
}

/// The entries that a record gives the index named `name` among the hash
/// (`hash`) or sorted indexes, counting the entity's first `upto` indexes.
pub open spec fn entries_upto(
    entity: Seq<char>,
    schema: EntitySchema,
    key: Seq<char>,
    value: JsonValue,
    hash: bool,
    name: Seq<char>,
    upto: int,
) -> Set<IndexPair> {
    Set::new(
        |p: IndexPair|
            p.1 == key && exists|j: int|
                0 <= j < upto && j < schema.indexes@.len() && is_hash_kind(
                    #[trigger] schema.indexes@[j].kind,
                ) == hash && internal_name(entity, schema.indexes@[j].name@) == name && index_key(
                    json_get(value, schema.indexes@[j].field@),
                ) == Some(p.0),
    )
}

/// The entries that a record gives the index named `name`.
pub open spec fn record_entries(
    entity: Seq<char>,
    schema: EntitySchema,
    key: Seq<char>,
    value: JsonValue,
    hash: bool,
    name: Seq<char>,
) -> Set<IndexPair> {
    entries_upto(entity, schema, key, value, hash, name, schema.indexes@.len() as int)
}

/// The names of the indexes in which a record gets an entry, counting the
/// entity's first `upto` indexes.
pub open spec fn touched_upto(
    entity: Seq<char>,
    schema: EntitySchema,
    value: JsonValue,
    hash: bool,
    upto: int,
) -> Set<Seq<char>> {
    Set::new(
        |n: Seq<char>|
            exists|j: int|
                0 <= j < upto && j < schema.indexes@.len() && is_hash_kind(
                    #[trigger] schema.indexes@[j].kind,
                ) == hash && internal_name(entity, schema.indexes@[j].name@) == n && index_key(
                    json_get(value, schema.indexes@[j].field@),
                ) is Some,
    )
}

/// The names of the indexes in which a record gets an entry.
pub open spec fn record_touched(entity: Seq<char>, schema: EntitySchema, value: JsonValue, hash: bool) -> Set<
    Seq<char>,
> {
    touched_upto(entity, schema, value, hash, schema.indexes@.len() as int)
}

/// `entity.index`, the name under which the store keeps an index.
pub fn internal_index_name(entity_type: &str, index_name: &str) -> (r: String)
    ensures
        r@ == internal_name(entity_type@, index_name@),
{
    proof {
        reveal_strlit(".");
    }
    join3(entity_type, ".", index_name)
}

/// `entity:key`, the key under which the store keeps a tombstone.
pub fn tombstone_key(entity_type: &str, key: &str) -> (r: String)
    ensures
        r@ == tombstone_key_of(entity_type@, key@),
{
    proof {
        reveal_strlit(":");
    }
    join3(entity_type, ":", key)
}

/// Files a record in every index of its entity type that its value has a
/// key for.
pub fn add_to_indexes(
    hash: &mut IndexSet,
    sorted: &mut IndexSet,
    entity_type: &str,
    schema: &EntitySchema,
    key: &str,
    value: &JsonValue,
)
    requires
        old(hash).wf(),
        old(sorted).wf(),
    ensures
        final(hash).wf(),
        final(sorted).wf(),
        final(hash).view().names == old(hash).view().names + record_touched(
            entity_type@,
            *schema,
            *value,
            true,
        ),
        final(sorted).view().names == old(sorted).view().names + record_touched(
            entity_type@,
            *schema,
            *value,
            false,
        ),
        forall|n: Seq<char>|
            #[trigger] final(hash).rel(n) == old(hash).rel(n) + record_entries(
                entity_type@,
                *schema,
                key@,
                *value,
                true,
                n,
            ),
        forall|n: Seq<char>|
            #[trigger] final(sorted).rel(n) == old(sorted).rel(n) + record_entries(
                entity_type@,
                *schema,
                key@,
                *value,
                false,
                n,
            ),
{
    let ghost h0 = *hash;
    let ghost s0 = *sorted;
    let n = schema.indexes.len();
    let mut j: usize = 0;
    proof {
        assert forall|m: Seq<char>| #[trigger] hash.rel(m) == h0.rel(m) + entries_upto(entity_type@, *schema, key@, *value, true, m, 0) by {
            assert(h0.rel(m) + entries_upto(entity_type@, *schema, key@, *value, true, m, 0) =~= h0.rel(m));
        }
        assert forall|m: Seq<char>| #[trigger] sorted.rel(m) == s0.rel(m) + entries_upto(entity_type@, *schema, key@, *value, false, m, 0) by {
            assert(s0.rel(m) + entries_upto(entity_type@, *schema, key@, *value, false, m, 0) =~= s0.rel(m));
        }
        assert(h0.view().names + touched_upto(entity_type@, *schema, *value, true, 0) =~= h0.view().names);
        assert(s0.view().names + touched_upto(entity_type@, *schema, *value, false, 0) =~= s0.view().names);
    }
    while j < n
        invariant
            n == schema.indexes@.len(),
            j <= n,
            hash.wf(),
            sorted.wf(),
            hash.view().names == h0.view().names + touched_upto(entity_type@, *schema, *value, true, j as int),
            sorted.view().names == s0.view().names + touched_upto(entity_type@, *schema, *value, false, j as int),
            forall|m: Seq<char>| #[trigger] hash.rel(m) == h0.rel(m) + entries_upto(entity_type@, *schema, key@, *value, true, m, j as int),
            forall|m: Seq<char>| #[trigger] sorted.rel(m) == s0.rel(m) + entries_upto(entity_type@, *schema, key@, *value, false, m, j as int),
        decreases n - j,
    {
        let index = &schema.indexes[j];
        let name = internal_index_name(entity_type, index.name.as_str());
        let field_key = index_value_to_key(value.get(index.field.as_str()));
        let ghost hb = *hash;
        let ghost sb = *sorted;
        let ghost k = j as int;
        let ghost is_hash = is_hash_kind(index.kind);
        match field_key {
            None => {},
            Some(fk) => {
                match index.kind {
                    IndexKind::Sorted => {
                        sorted.add(name.as_str(), fk.as_str(), key);
                    },
                    _ => {
                        hash.add(name.as_str(), fk.as_str(), key);
                    },
                }
            },
        }
        proof {
            assert forall|m: Seq<char>| #[trigger] hash.rel(m) == h0.rel(m) + entries_upto(entity_type@, *schema, key@, *value, true, m, k + 1) by {
                assert(hb.rel(m) == h0.rel(m) + entries_upto(entity_type@, *schema, key@, *value, true, m, k));
                assert(h0.rel(m) + entries_upto(entity_type@, *schema, key@, *value, true, m, k + 1) =~= hash.rel(m)) by {
                    assert forall|p: IndexPair| entries_upto(entity_type@, *schema, key@, *value, true, m, k + 1).contains(p)
                        && !entries_upto(entity_type@, *schema, key@, *value, true, m, k).contains(p)
                        implies hash.rel(m).contains(p) by {
                        let jj = choose|jj: int| 0 <= jj < k + 1 && jj < schema.indexes@.len() && is_hash_kind(
                            #[trigger] schema.indexes@[jj].kind) == true && internal_name(entity_type@, schema.indexes@[jj].name@) == m && index_key(
                            json_get(*value, schema.indexes@[jj].field@)) == Some(p.0) && p.1 == key@;
                        assert(jj == k);
                    }
                }
            }
            assert forall|m: Seq<char>| #[trigger] sorted.rel(m) == s0.rel(m) + entries_upto(entity_type@, *schema, key@, *value, false, m, k + 1) by {
                assert(sb.rel(m) == s0.rel(m) + entries_upto(entity_type@, *schema, key@, *value, false, m, k));
                assert(s0.rel(m) + entries_upto(entity_type@, *schema, key@, *value, false, m, k + 1) =~= sorted.rel(m)) by {
                    assert forall|p: IndexPair| entries_upto(entity_type@, *schema, key@, *value, false, m, k + 1).contains(p)
                        && !entries_upto(entity_type@, *schema, key@, *value, false, m, k).contains(p)
                        implies sorted.rel(m).contains(p) by {
                        let jj = choose|jj: int| 0 <= jj < k + 1 && jj < schema.indexes@.len() && is_hash_kind(
                            #[trigger] schema.indexes@[jj].kind) == false && internal_name(entity_type@, schema.indexes@[jj].name@) == m && index_key(
                            json_get(*value, schema.indexes@[jj].field@)) == Some(p.0) && p.1 == key@;
                        assert(jj == k);
                    }
                }
            }
            assert(hash.view().names =~= h0.view().names + touched_upto(entity_type@, *schema, *value, true, k + 1));
            assert(sorted.view().names =~= s0.view().names + touched_upto(entity_type@, *schema, *value, false, k + 1));
        }
        j = j + 1;
    }
}


/// Unfiles a record from every index of its entity type that its value has
/// a key for.
pub fn remove_from_indexes(
    hash: &mut IndexSet,
    sorted: &mut IndexSet,
    entity_type: &str,
    schema: &EntitySchema,
    key: &str,
    value: &JsonValue,
)
    requires
        old(hash).wf(),
        old(sorted).wf(),
    ensures
        final(hash).wf(),
        final(sorted).wf(),
        final(hash).view().names == old(hash).view().names,
        final(sorted).view().names == old(sorted).view().names,
        forall|n: Seq<char>|
            #[trigger] final(hash).rel(n) == old(hash).rel(n) - record_entries(
                entity_type@,
                *schema,
                key@,
                *value,
                true,
                n,
            ),
        forall|n: Seq<char>|
            #[trigger] final(sorted).rel(n) == old(sorted).rel(n) - record_entries(
                entity_type@,
                *schema,
                key@,
                *value,
                false,
                n,
            ),
{
    let ghost h0 = *hash;
    let ghost s0 = *sorted;
    let n = schema.indexes.len();
    let mut j: usize = 0;
    proof {
        assert forall|m: Seq<char>| #[trigger] hash.rel(m) == h0.rel(m) - entries_upto(entity_type@, *schema, key@, *value, true, m, 0) by {
            assert(h0.rel(m) - entries_upto(entity_type@, *schema, key@, *value, true, m, 0) =~= h0.rel(m));
        }
        assert forall|m: Seq<char>| #[trigger] sorted.rel(m) == s0.rel(m) - entries_upto(entity_type@, *schema, key@, *value, false, m, 0) by {
            assert(s0.rel(m) - entries_upto(entity_type@, *schema, key@, *value, false, m, 0) =~= s0.rel(m));
        }
    }
    while j < n
        invariant
            n == schema.indexes@.len(),
            j <= n,
            hash.wf(),
            sorted.wf(),
            hash.view().names == h0.view().names,
            sorted.view().names == s0.view().names,
            forall|m: Seq<char>| #[trigger] hash.rel(m) == h0.rel(m) - entries_upto(entity_type@, *schema, key@, *value, true, m, j as int),
            forall|m: Seq<char>| #[trigger] sorted.rel(m) == s0.rel(m) - entries_upto(entity_type@, *schema, key@, *value, false, m, j as int),
        decreases n - j,
    {
        let index = &schema.indexes[j];
        let name = internal_index_name(entity_type, index.name.as_str());
        let field_key = index_value_to_key(value.get(index.field.as_str()));
        let ghost hb = *hash;
        let ghost sb = *sorted;
        let ghost k = j as int;
        match field_key {
            None => {},
            Some(fk) => {
                match index.kind {
                    IndexKind::Sorted => {
                        sorted.remove(name.as_str(), fk.as_str(), key);
                    },
                    _ => {
                        hash.remove(name.as_str(), fk.as_str(), key);
                    },
                }
            },
        }
        proof {
            assert forall|m: Seq<char>| #[trigger] hash.rel(m) == h0.rel(m) - entries_upto(entity_type@, *schema, key@, *value, true, m, k + 1) by {
                assert(hb.rel(m) == h0.rel(m) - entries_upto(entity_type@, *schema, key@, *value, true, m, k));
                assert(h0.rel(m) - entries_upto(entity_type@, *schema, key@, *value, true, m, k + 1) =~= hash.rel(m)) by {
                    assert forall|p: IndexPair| entries_upto(entity_type@, *schema, key@, *value, true, m, k + 1).contains(p)
                        && !entries_upto(entity_type@, *schema, key@, *value, true, m, k).contains(p)
                        implies !hash.rel(m).contains(p) by {
                        let jj = choose|jj: int| 0 <= jj < k + 1 && jj < schema.indexes@.len() && is_hash_kind(
                            #[trigger] schema.indexes@[jj].kind) == true && internal_name(entity_type@, schema.indexes@[jj].name@) == m && index_key(
                            json_get(*value, schema.indexes@[jj].field@)) == Some(p.0) && p.1 == key@;
                        assert(jj == k);
                    }
                }
            }
            assert forall|m: Seq<char>| #[trigger] sorted.rel(m) == s0.rel(m) - entries_upto(entity_type@, *schema, key@, *value, false, m, k + 1) by {
                assert(sb.rel(m) == s0.rel(m) - entries_upto(entity_type@, *schema, key@, *value, false, m, k));
                assert(s0.rel(m) - entries_upto(entity_type@, *schema, key@, *value, false, m, k + 1) =~= sorted.rel(m)) by {
                    assert forall|p: IndexPair| entries_upto(entity_type@, *schema, key@, *value, false, m, k + 1).contains(p)
                        && !entries_upto(entity_type@, *schema, key@, *value, false, m, k).contains(p)
                        implies !sorted.rel(m).contains(p) by {
                        let jj = choose|jj: int| 0 <= jj < k + 1 && jj < schema.indexes@.len() && is_hash_kind(
                            #[trigger] schema.indexes@[jj].kind) == false && internal_name(entity_type@, schema.indexes@[jj].name@) == m && index_key(
                            json_get(*value, schema.indexes@[jj].field@)) == Some(p.0) && p.1 == key@;
                        assert(jj == k);
                    }
                }
            }
        }
        j = j + 1;
    }
}


/// Why the store refused a write.
#[derive(Debug)]
pub enum StoreError {
    /// The schema has no entity type of that name.
    UnknownEntity(String),
    /// The record's estimate exceeds `max_entity_bytes`.
    EntityTooLarge,
    /// The store's estimate would exceed `max_bytes`.
    HardMemoryLimitExceeded,
}

/// The text of a store error.
pub open spec fn store_error_text(e: StoreError) -> Seq<char> {
    match e {
        StoreError::UnknownEntity(name) => "entity type '"@ + name@ + "' is not defined in schema"@,
        StoreError::EntityTooLarge => "entity payload exceeds max_entity_bytes"@,
        StoreError::HardMemoryLimitExceeded => "store hard memory limit exceeded"@,
    }
}

impl StoreError {
    /// The error's text.
    pub fn message(&self) -> (r: String)
        ensures
            r@ == store_error_text(*self),
    {
        match self {
            StoreError::UnknownEntity(name) => join3("entity type '", name.as_str(), "' is not defined in schema"),
            StoreError::EntityTooLarge => String::from_str("entity payload exceeds max_entity_bytes"),
            StoreError::HardMemoryLimitExceeded => String::from_str("store hard memory limit exceeded"),
        }
    }
}

/// What a retention sweep did.
#[derive(Debug, Default, Clone, Copy)]
pub struct RetentionSweepResult {
    pub evicted_entities: usize,
    pub cleaned_tombstones: usize,
    pub trimmed_collection_items: usize,
}

/// The estimated memory of a record.
pub open spec fn record_size(entity: Seq<char>, key: Seq<char>, value: JsonValue) -> int {
    utf8_len(entity) + utf8_len(key) + json_byte_len(value) + 64
}

/// Whether the estimate of a record fits in a `usize`.
pub open spec fn record_fits(entity: Seq<char>, key: Seq<char>, value: JsonValue) -> bool {
    record_size(entity, key, value) <= usize::MAX
}

/// The estimated memory of a record.
pub fn estimate_entity_size(entity_type: &str, key: &str, value: &JsonValue) -> (r: usize)
    requires
        record_fits(entity_type@, key@, *value),
    ensures
        r == record_size(entity_type@, key@, *value),
{
    entity_type.len() + key.len() + value.byte_len() + 64
}

/// The definition that the last non-collection entity named `name` gives.
pub open spec fn last_entity_def(entities: Seq<EntitySchema>, name: Seq<char>) -> Option<EntitySchema>
    decreases entities.len(),
{
    if entities.len() == 0 {
        None
    } else if entities.last().entity_type != EntityType::Collection && entities.last().name@
        == name {
        Some(entities.last())
    } else {
        last_entity_def(entities.drop_last(), name)
    }
}

/// The index definitions of an entity type, under their store names.
pub open spec fn entity_metas(e: EntitySchema) -> Seq<(Seq<char>, IndexMeta)> {
    if e.entity_type == EntityType::Collection {
        Seq::empty()
    } else {
        e.indexes@.map_values(
            |i: crate::config::schema::IndexConfig|
                (
                    internal_name(e.name@, i.name@),
                    IndexMeta {
                        entity_type: e.name,
                        index_name: i.name,
                        field_name: i.field,
                        kind: i.kind,
                    },
                ),
        )
    }
}

/// The index definitions of a schema, in order.
pub open spec fn schema_metas(entities: Seq<EntitySchema>) -> Seq<(Seq<char>, IndexMeta)>
    decreases entities.len(),
{
    if entities.len() == 0 {
        Seq::empty()
    } else {
        schema_metas(entities.drop_last()) + entity_metas(entities.last())
    }
}

/// The last definition filed under `name`.
pub open spec fn last_meta(metas: Seq<(Seq<char>, IndexMeta)>, name: Seq<char>) -> Option<IndexMeta>
    decreases metas.len(),
{
    if metas.len() == 0 {
        None
    } else if metas.last().0 == name {
        Some(metas.last().1)
    } else {
        last_meta(metas.drop_last(), name)
    }
}

/// The plain names of the hash (`hash`) or sorted indexes that a schema's
/// entity types declare; the store makes an empty index under each.
pub open spec fn declared_index_names(entities: Seq<EntitySchema>, hash: bool) -> Set<Seq<char>> {
    Set::new(
        |n: Seq<char>|
            exists|i: int, j: int|
                0 <= i < entities.len() && entities[i].entity_type != EntityType::Collection && 0
                    <= j < entities[i].indexes@.len() && is_hash_kind(
                    #[trigger] entities[i].indexes@[j].kind,
                ) == hash && entities[i].indexes@[j].name@ == n,
    )
}

/// One entity type: its name, its definition and its records.
pub struct EntityTable {
    name: String,
    schema: EntitySchema,
    records: RecordMap,
}

/// An index definition under its store name.
pub struct IndexDef {
    name: String,
    meta: IndexMeta,
}

/// The entity store.
pub struct Store {
    tables: Vec<EntityTable>,
    tombstones: TombstoneMap,
    hash_indexes: IndexSet,
    sorted_indexes: IndexSet,
    index_defs: Vec<IndexDef>,
    memory_bytes: usize,
    max_bytes: usize,
    max_entity_bytes: usize,
    collection_store: CollectionStore,
}

pub closed spec fn entity_table_at(tables: Seq<EntityTable>, name: Seq<char>) -> int {
    choose|i: int| 0 <= i < tables.len() && tables[i].name@ == name
}

pub closed spec fn index_def_at(defs: Seq<IndexDef>, name: Seq<char>) -> int {
    choose|i: int| 0 <= i < defs.len() && defs[i].name@ == name
}

/// A table whose records are filed under their own key and entity type,
/// and whose estimates fit.
pub closed spec fn table_ok(t: EntityTable) -> bool {
    &&& record_table(t.records).dom().finite()
    &&& forall|k: Seq<char>|
        #[trigger] record_table(t.records).contains_key(k) ==> {
            let r = record_table(t.records)[k];
            &&& r.entity_type@ == t.name@
            &&& r.key@ == k
            &&& record_fits(t.name@, k, r.value)
        }
}

impl Store {
    /// Whether the schema has an entity type of that name.
    pub closed spec fn has_entity(&self, t: Seq<char>) -> bool {
        exists|i: int| 0 <= i < self.tables@.len() && self.tables@[i].name@ == t
    }

    /// The definition of an entity type.
    pub closed spec fn schema_of(&self, t: Seq<char>) -> EntitySchema {
        if self.has_entity(t) {
            self.tables@[entity_table_at(self.tables@, t)].schema
        } else {
            arbitrary()
        }
    }

    /// The records of an entity type, by key.
    pub closed spec fn records(&self, t: Seq<char>) -> Map<Seq<char>, EntityRecord> {
        if self.has_entity(t) {
            record_table(self.tables@[entity_table_at(self.tables@, t)].records)
        } else {
            Map::empty()
        }
    }

    /// The record of that entity type and key, if any.
    pub open spec fn record(&self, t: Seq<char>, key: Seq<char>) -> Option<EntityRecord> {
        if self.has_entity(t) && self.records(t).contains_key(key) {
            Some(self.records(t)[key])
        } else {
            None
        }
    }

    /// The hash and membership indexes.
    pub closed spec fn hash_index(&self) -> IndexSet {
        self.hash_indexes
    }

    /// The sorted indexes.
    pub closed spec fn sorted_index(&self) -> IndexSet {
        self.sorted_indexes
    }

    /// Whether an index definition has that store name.
    pub closed spec fn has_meta(&self, name: Seq<char>) -> bool {
        exists|i: int| 0 <= i < self.index_defs@.len() && self.index_defs@[i].name@ == name
    }

    /// The index definition under a store name.
    pub closed spec fn meta(&self, name: Seq<char>) -> IndexMeta {
        self.index_defs@[index_def_at(self.index_defs@, name)].meta
    }

    /// The store names of the index definitions, in order.
    pub closed spec fn meta_names(&self) -> Seq<Seq<char>> {
        self.index_defs@.map_values(|d: IndexDef| d.name@)
    }

    /// The tombstones, by tombstone key.
    pub closed spec fn tombs(&self) -> Map<Seq<char>, Tombstone> {
        tombstone_table(self.tombstones)
    }

    /// The memory counter.
    pub closed spec fn memory(&self) -> usize {
        self.memory_bytes
    }

    /// The hard memory limit (zero: none).
    pub closed spec fn max_bytes(&self) -> usize {
        self.max_bytes
    }

    /// The limit on one record's estimate (zero: none).
    pub closed spec fn max_entity_bytes(&self) -> usize {
        self.max_entity_bytes
    }

    /// The collections.
    pub closed spec fn collections(&self) -> CollectionStore {
        self.collection_store
    }

    /// Everything but the collections is as in `other`.
    pub closed spec fn same_but_collections(&self, other: &Self) -> bool {
        &&& self.tables == other.tables
        &&& self.tombstones == other.tombstones
        &&& self.hash_indexes == other.hash_indexes
        &&& self.sorted_indexes == other.sorted_indexes
        &&& self.index_defs == other.index_defs
        &&& self.memory_bytes == other.memory_bytes
        &&& self.max_bytes == other.max_bytes
        &&& self.max_entity_bytes == other.max_entity_bytes
    }

    /// Names unique; tables, indexes and collections well kept.
    pub closed spec fn wf(&self) -> bool {
        &&& forall|i: int, j: int|
            0 <= i < j < self.tables@.len() ==> self.tables@[i].name@ != self.tables@[j].name@
        &&& forall|i: int| 0 <= i < self.tables@.len() ==> table_ok(#[trigger] self.tables@[i])
        &&& forall|i: int, j: int|
            0 <= i < j < self.index_defs@.len() ==> self.index_defs@[i].name@
                != self.index_defs@[j].name@
        &&& self.hash_indexes.wf()
        &&& self.sorted_indexes.wf()
        &&& tombstone_table(self.tombstones).dom().finite()
        &&& self.collection_store.wf()
    }

    proof fn lemma_table_at(&self, i: int)
        requires
            self.wf(),
            0 <= i < self.tables@.len(),
        ensures
            entity_table_at(self.tables@, self.tables@[i].name@) == i,
            self.has_entity(self.tables@[i].name@),
            table_ok(self.tables@[i]),
    {
        let n = self.tables@[i].name@;
        assert(0 <= i < self.tables@.len() && self.tables@[i].name@ == n);
        let j = entity_table_at(self.tables@, n);
        if j != i {
            if j < i {
                assert(self.tables@[j].name@ != self.tables@[i].name@);
            } else {
                assert(self.tables@[i].name@ != self.tables@[j].name@);
            }
        }
    }

    /// The table of an entity type.
    fn find_table(&self, name: &str) -> (r: Option<usize>)
        requires
            self.wf(),
        ensures
            r is Some == self.has_entity(name@),
            r matches Some(i) ==> i < self.tables@.len() && self.tables@[i as int].name@ == name@
                && entity_table_at(self.tables@, name@) == i,
    {
        let n = self.tables.len();
        let mut i: usize = 0;
        while i < n
            invariant
                self.wf(),
                n == self.tables@.len(),
                i <= n,
                forall|j: int| 0 <= j < i ==> self.tables@[j].name@ != name@,
            decreases n - i,
        {
            if str_equal(self.tables[i].name.as_str(), name) {
                proof {
                    self.lemma_table_at(i as int);
                }
                return Some(i);
            }
            i = i + 1;
        }
        None
    }

    /// The record of that entity type and key, if any.
    pub fn get(&self, entity_type: &str, key: &str) -> (r: Option<EntityRecord>)
        requires
            self.wf(),
        ensures
            r is Some == self.record(entity_type@, key@) is Some,
            r matches Some(x) ==> record_same(x, self.record(entity_type@, key@)->0),
    {
        match self.find_table(entity_type) {
            None => None,
            Some(i) => records_get(&self.tables[i].records, key),
        }
    }

    /// The records of one entity type for several keys, in the keys' order.
    pub fn batch_get(&self, entity_type: &str, keys: &Vec<String>) -> (r: Vec<Option<EntityRecord>>)
        requires
            self.wf(),
        ensures
            r@.len() == keys@.len(),
            forall|i: int|
                0 <= i < keys@.len() ==> ((#[trigger] r@[i]) is Some == self.record(
                    entity_type@,
                    keys@[i]@,
                ) is Some && (r@[i] matches Some(x) ==> record_same(
                    x,
                    self.record(entity_type@, keys@[i]@)->0,
                ))),
    {
        let n = keys.len();
        let mut out: Vec<Option<EntityRecord>> = Vec::new();
        let mut i: usize = 0;
        while i < n
            invariant
                self.wf(),
                n == keys@.len(),
                i <= n,
                out@.len() == i,
                forall|j: int|
                    0 <= j < i ==> ((#[trigger] out@[j]) is Some == self.record(
                        entity_type@,
                        keys@[j]@,
                    ) is Some && (out@[j] matches Some(x) ==> record_same(
                        x,
                        self.record(entity_type@, keys@[j]@)->0,
                    ))),
            decreases n - i,
        {
            out.push(self.get(entity_type, keys[i].as_str()));
            i = i + 1;
        }
        out
    }

    /// The memory counter: the estimated bytes that records hold.
    pub fn current_memory_bytes(&self) -> (r: usize)
        ensures
            r == self.memory(),
    {
        self.memory_bytes
    }

    /// The hard memory limit.
    pub fn max_memory_bytes(&self) -> (r: usize)
        ensures
            r == self.max_bytes(),
    {
        self.max_bytes
    }

    /// The collections of the schema.
    pub fn collection_store(&self) -> (r: &CollectionStore)
        ensures
            *r == self.collections(),
    {
        &self.collection_store
    }

    /// The collections of the schema, for writing.
    pub fn collection_store_mut(&mut self) -> (r: &mut CollectionStore)
        ensures
            *r == old(self).collections(),
            final(self).collections() == *final(r),
            final(self).same_but_collections(old(self)),
    {
        &mut self.collection_store
    }
}


/// The plain names of an entity's hash (`hash`) or sorted indexes, counting
/// its first `upto`.
pub open spec fn entity_index_names(e: EntitySchema, hash: bool, upto: int) -> Set<Seq<char>> {
    Set::new(
        |n: Seq<char>|
            exists|j: int|
                0 <= j < upto && j < e.indexes@.len() && is_hash_kind(#[trigger] e.indexes@[j].kind)
                    == hash && e.indexes@[j].name@ == n,
    )
}

/// Makes an empty index under the plain name of each of the entity's
/// indexes that has none yet.
pub fn ensure_entity_indexes(hash: &mut IndexSet, sorted: &mut IndexSet, entity: &EntitySchema)
    requires
        old(hash).wf(),
        old(sorted).wf(),
    ensures
        final(hash).wf(),
        final(sorted).wf(),
        final(hash).view().names == old(hash).view().names + entity_index_names(
            *entity,
            true,
            entity.indexes@.len() as int,
        ),
        final(sorted).view().names == old(sorted).view().names + entity_index_names(
            *entity,
            false,
            entity.indexes@.len() as int,
        ),
        forall|n: Seq<char>| #[trigger] final(hash).list(n) == old(hash).list(n),
        forall|n: Seq<char>| #[trigger] final(sorted).list(n) == old(sorted).list(n),
{
    let ghost h0 = *hash;
    let ghost s0 = *sorted;
    let n = entity.indexes.len();
    let mut j: usize = 0;
    assert(h0.view().names + entity_index_names(*entity, true, 0) =~= h0.view().names);
    assert(s0.view().names + entity_index_names(*entity, false, 0) =~= s0.view().names);
    while j < n
        invariant
            n == entity.indexes@.len(),
            j <= n,
            hash.wf(),
            sorted.wf(),
            hash.view().names == h0.view().names + entity_index_names(*entity, true, j as int),
            sorted.view().names == s0.view().names + entity_index_names(*entity, false, j as int),
            forall|m: Seq<char>| #[trigger] hash.list(m) == h0.list(m),
            forall|m: Seq<char>| #[trigger] sorted.list(m) == s0.list(m),
        decreases n - j,
    {
        let index = &entity.indexes[j];
        let ghost hb = *hash;
        let ghost sb = *sorted;
        match index.kind {
            IndexKind::Sorted => {
                sorted.ensure(index.name.as_str());
            },
            _ => {
                hash.ensure(index.name.as_str());
            },
        }
        proof {
            let k = j as int;
            assert forall|m: Seq<char>| #[trigger] hash.list(m) == h0.list(m) by {
                assert(hb.list(m) == h0.list(m));
            }
            assert forall|m: Seq<char>| #[trigger] sorted.list(m) == s0.list(m) by {
                assert(sb.list(m) == s0.list(m));
            }
            assert(hash.view().names =~= h0.view().names + entity_index_names(*entity, true, k + 1));
            assert(sorted.view().names =~= s0.view().names + entity_index_names(*entity, false, k + 1));
        }
        j = j + 1;
    }
}

/// Files each of the entity's index definitions under its store name,
/// replacing an earlier one of the same name.
fn upsert_index_defs(defs: &mut Vec<IndexDef>, entity: &EntitySchema, upto_meta: Ghost<Seq<(Seq<char>, IndexMeta)>>)
    requires
        entity.entity_type != EntityType::Collection,
        forall|i: int, j: int| 0 <= i < j < old(defs)@.len() ==> old(defs)@[i].name@ != old(defs)@[j].name@,
        forall|n: Seq<char>|
            #![trigger last_meta(upto_meta@, n)]
            (exists|i: int| 0 <= i < old(defs)@.len() && old(defs)@[i].name@ == n) == (last_meta(upto_meta@, n) is Some),
        forall|i: int|
            0 <= i < old(defs)@.len() ==> Some((#[trigger] old(defs)@[i]).meta) == last_meta(upto_meta@, old(defs)@[i].name@),
    ensures
        forall|i: int, j: int| 0 <= i < j < final(defs)@.len() ==> final(defs)@[i].name@ != final(defs)@[j].name@,
        forall|n: Seq<char>|
            #![trigger last_meta(upto_meta@ + entity_metas(*entity), n)]
            (exists|i: int| 0 <= i < final(defs)@.len() && final(defs)@[i].name@ == n) == (last_meta(upto_meta@ + entity_metas(*entity), n) is Some),
        forall|i: int|
            0 <= i < final(defs)@.len() ==> Some((#[trigger] final(defs)@[i]).meta) == last_meta(upto_meta@ + entity_metas(*entity), final(defs)@[i].name@),
{
    let ghost base = upto_meta@;
    let ghost all = entity_metas(*entity);
    let n = entity.indexes.len();
    let mut j: usize = 0;
    assert(base + all.take(0) =~= base);
    while j < n
        invariant
            n == entity.indexes@.len(),
            j <= n,
            all == entity_metas(*entity),
            all.len() == n,
            entity.entity_type != EntityType::Collection,
            forall|i: int, k: int| 0 <= i < k < defs@.len() ==> defs@[i].name@ != defs@[k].name@,
            forall|m: Seq<char>|
                #![trigger last_meta(base + all.take(j as int), m)]
                (exists|i: int| 0 <= i < defs@.len() && defs@[i].name@ == m) == (last_meta(base + all.take(j as int), m) is Some),
            forall|i: int|
                0 <= i < defs@.len() ==> Some((#[trigger] defs@[i]).meta) == last_meta(base + all.take(j as int), defs@[i].name@),
        decreases n - j,
    {
        let index = &entity.indexes[j];
        let name = internal_index_name(entity.name.as_str(), index.name.as_str());
        let meta = IndexMeta {
            entity_type: entity.name.clone(),
            index_name: index.name.clone(),
            field_name: index.field.clone(),
            kind: index.kind,
        };
        let ghost cur = base + all.take(j as int);
        let ghost next = base + all.take(j + 1);
        proof {
            assert(next.drop_last() =~= cur);
            assert(next.last() == all[j as int]);
            assert(all[j as int] == (name@, meta));
        }
        let ghost before = defs@;
        let m = defs.len();
        let mut k: usize = 0;
        let mut found: Option<usize> = None;
        while k < m
            invariant
                m == defs@.len(),
                k <= m,
                found is None ==> forall|q: int| 0 <= q < k ==> defs@[q].name@ != name@,
                found matches Some(f) ==> f < m && defs@[f as int].name@ == name@,
            decreases m - k,
        {
            if found.is_none() && str_equal(defs[k].name.as_str(), name.as_str()) {
                found = Some(k);
            }
            k = k + 1;
        }
        let def = IndexDef { name, meta };
        match found {
            Some(f) => {
                defs.set(f, def);
            },
            None => {
                defs.push(def);
            },
        }
        proof {
            let pos: int = match found {
                Some(f) => f as int,
                None => before.len() as int,
            };
            assert(defs@[pos].name@ == name@);
            assert forall|q: int| 0 <= q < defs@.len() && q != pos implies defs@[q] == before[q] by {}
            assert forall|mm: Seq<char>|
                #![trigger last_meta(next, mm)]
                (exists|i: int| 0 <= i < defs@.len() && defs@[i].name@ == mm) == (last_meta(next, mm) is Some) by {
                if mm == name@ {
                    assert(defs@[pos].name@ == mm);
                } else {
                    assert(last_meta(cur, mm) == last_meta(next, mm));
                    if exists|i: int| 0 <= i < defs@.len() && defs@[i].name@ == mm {
                        let i = choose|i: int| 0 <= i < defs@.len() && defs@[i].name@ == mm;
                        assert(before[i].name@ == mm);
                    }
                    if exists|i: int| 0 <= i < before.len() && before[i].name@ == mm {
                        let i = choose|i: int| 0 <= i < before.len() && before[i].name@ == mm;
                        assert(defs@[i].name@ == mm);
                    }
                }
            }
            assert forall|i: int| 0 <= i < defs@.len() implies Some((#[trigger] defs@[i]).meta) == last_meta(next, defs@[i].name@) by {
                if i != pos {
                    assert(defs@[i] == before[i]);
                    assert(last_meta(cur, defs@[i].name@) == last_meta(next, defs@[i].name@));
                }
            }
        }
        j = j + 1;
    }
    assert(all.take(n as int) =~= all);
}


proof fn lemma_declared_step(cur: Seq<EntitySchema>, entity: EntitySchema, hash: bool)
    ensures
        entity.entity_type != EntityType::Collection ==> declared_index_names(cur.push(entity), hash)
            == declared_index_names(cur, hash) + entity_index_names(entity, hash, entity.indexes@.len() as int),
        entity.entity_type == EntityType::Collection ==> declared_index_names(cur.push(entity), hash)
            == declared_index_names(cur, hash),
{
    let next = cur.push(entity);
    let e = cur.len() as int;
    assert forall|m: Seq<char>| declared_index_names(next, hash).contains(m) ==> (
        declared_index_names(cur, hash).contains(m) || (entity.entity_type != EntityType::Collection
            && entity_index_names(entity, hash, entity.indexes@.len() as int).contains(m))) by {
        if declared_index_names(next, hash).contains(m) {
            let (a, b) = choose|a: int, b: int|
                0 <= a < next.len() && next[a].entity_type != EntityType::Collection && 0
                    <= b < next[a].indexes@.len() && is_hash_kind(
                    #[trigger] next[a].indexes@[b].kind,
                ) == hash && next[a].indexes@[b].name@ == m;
            if a < e {
                assert(cur[a] == next[a]);
            } else {
                assert(next[a] == entity);
            }
        }
    }
    assert forall|m: Seq<char>| declared_index_names(cur, hash).contains(m) implies declared_index_names(next, hash).contains(m) by {
        let (a, b) = choose|a: int, b: int|
            0 <= a < cur.len() && cur[a].entity_type != EntityType::Collection && 0
                <= b < cur[a].indexes@.len() && is_hash_kind(
                #[trigger] cur[a].indexes@[b].kind,
            ) == hash && cur[a].indexes@[b].name@ == m;
        assert(next[a] == cur[a]);
    }
    assert forall|m: Seq<char>| entity.entity_type != EntityType::Collection && entity_index_names(entity, hash, entity.indexes@.len() as int).contains(m)
        implies declared_index_names(next, hash).contains(m) by {
        let b = choose|b: int| 0 <= b < entity.indexes@.len() && b < entity.indexes@.len()
            && is_hash_kind(#[trigger] entity.indexes@[b].kind) == hash && entity.indexes@[b].name@ == m;
        assert(next[e] == entity);
    }
    if entity.entity_type != EntityType::Collection {
        assert(declared_index_names(next, hash) =~= declared_index_names(cur, hash) + entity_index_names(entity, hash, entity.indexes@.len() as int));
    } else {
        assert(declared_index_names(next, hash) =~= declared_index_names(cur, hash));
    }
}

/// Files a definition for the entity type, replacing an earlier one of the
/// same name.
fn upsert_entity_table(tables: &mut Vec<EntityTable>, entity: &EntitySchema, cur: Ghost<Seq<EntitySchema>>)
    requires
        entity.entity_type != EntityType::Collection,
        forall|i: int, j: int| 0 <= i < j < old(tables)@.len() ==> old(tables)@[i].name@ != old(tables)@[j].name@,
        forall|i: int|
            0 <= i < old(tables)@.len() ==> record_table(#[trigger] old(tables)@[i].records)
                == Map::<Seq<char>, EntityRecord>::empty(),
        forall|t: Seq<char>|
            #![trigger last_entity_def(cur@, t)]
            (exists|i: int| 0 <= i < old(tables)@.len() && old(tables)@[i].name@ == t) == (
            last_entity_def(cur@, t) is Some),
        forall|i: int|
            0 <= i < old(tables)@.len() ==> last_entity_def(cur@, (#[trigger] old(tables)@[i]).name@) is Some
                && schema_same(old(tables)@[i].schema, last_entity_def(cur@, old(tables)@[i].name@)->0),
    ensures
        forall|i: int, j: int| 0 <= i < j < final(tables)@.len() ==> final(tables)@[i].name@ != final(tables)@[j].name@,
        forall|i: int|
            0 <= i < final(tables)@.len() ==> record_table(#[trigger] final(tables)@[i].records)
                == Map::<Seq<char>, EntityRecord>::empty(),
        forall|t: Seq<char>|
            #![trigger last_entity_def(cur@.push(*entity), t)]
            (exists|i: int| 0 <= i < final(tables)@.len() && final(tables)@[i].name@ == t) == (
            last_entity_def(cur@.push(*entity), t) is Some),
        forall|i: int|
            0 <= i < final(tables)@.len() ==> last_entity_def(cur@.push(*entity), (#[trigger] final(tables)@[i]).name@) is Some
                && schema_same(final(tables)@[i].schema, last_entity_def(cur@.push(*entity), final(tables)@[i].name@)->0),
{
    let ghost next = cur@.push(*entity);
    proof {
        assert(next.drop_last() =~= cur@);
    }
    let ghost before = tables@;
    let table = EntityTable {
        name: entity.name.clone(),
        schema: entity.copy(),
        records: records_new(),
    };
    let m = tables.len();
    let mut k: usize = 0;
    let mut found: Option<usize> = None;
    while k < m
        invariant
            m == tables@.len(),
            k <= m,
            found is None ==> forall|q: int| 0 <= q < k ==> tables@[q].name@ != entity.name@,
            found matches Some(f) ==> f < m && tables@[f as int].name@ == entity.name@,
        decreases m - k,
    {
        if found.is_none() && str_equal(tables[k].name.as_str(), entity.name.as_str()) {
            found = Some(k);
        }
        k = k + 1;
    }
    match found {
        Some(f) => {
            tables.set(f, table);
        },
        None => {
            tables.push(table);
        },
    }
    proof {
        let pos: int = match found {
            Some(f) => f as int,
            None => before.len() as int,
        };
        assert(tables@[pos].name@ == entity.name@);
        assert forall|q: int| 0 <= q < tables@.len() && q != pos implies tables@[q] == before[q] by {}
        assert forall|t: Seq<char>|
            #![trigger last_entity_def(next, t)]
            (exists|i: int| 0 <= i < tables@.len() && tables@[i].name@ == t) == (
            last_entity_def(next, t) is Some) by {
            if t == entity.name@ {
                assert(tables@[pos].name@ == t);
            } else {
                assert(last_entity_def(cur@, t) == last_entity_def(next, t));
                if exists|i: int| 0 <= i < tables@.len() && tables@[i].name@ == t {
                    let i = choose|i: int| 0 <= i < tables@.len() && tables@[i].name@ == t;
                    assert(before[i].name@ == t);
                }
                if exists|i: int| 0 <= i < before.len() && before[i].name@ == t {
                    let i = choose|i: int| 0 <= i < before.len() && before[i].name@ == t;
                    assert(tables@[i].name@ == t);
                }
            }
        }
        assert forall|i: int| 0 <= i < tables@.len() implies last_entity_def(next, (#[trigger] tables@[i]).name@) is Some
            && schema_same(tables@[i].schema, last_entity_def(next, tables@[i].name@)->0) by {
            if i != pos {
                assert(tables@[i] == before[i]);
                assert(last_entity_def(cur@, tables@[i].name@) == last_entity_def(next, tables@[i].name@));
            }
        }
    }
}

/// What building a store has reached after the first entity types of a
/// schema.
#[verifier::opaque]
spec fn build_inv(
    tables: Seq<EntityTable>,
    hash: IndexSet,
    sorted: IndexSet,
    defs: Seq<IndexDef>,
    es: Seq<EntitySchema>,
) -> bool {
    &&& forall|i: int, j: int| 0 <= i < j < tables.len() ==> tables[i].name@ != tables[j].name@
    &&& forall|i: int|
        0 <= i < tables.len() ==> record_table(#[trigger] tables[i].records)
            == Map::<Seq<char>, EntityRecord>::empty()
    &&& forall|t: Seq<char>|
        #![trigger last_entity_def(es, t)]
        (exists|i: int| 0 <= i < tables.len() && tables[i].name@ == t) == (last_entity_def(es, t) is Some)
    &&& forall|i: int|
        0 <= i < tables.len() ==> last_entity_def(es, (#[trigger] tables[i]).name@) is Some
            && schema_same(tables[i].schema, last_entity_def(es, tables[i].name@)->0)
    &&& hash.wf()
    &&& sorted.wf()
    &&& hash.view().names == declared_index_names(es, true)
    &&& sorted.view().names == declared_index_names(es, false)
    &&& forall|m: Seq<char>| #[trigger] hash.list(m) == Seq::<IndexPair>::empty()
    &&& forall|m: Seq<char>| #[trigger] sorted.list(m) == Seq::<IndexPair>::empty()
    &&& forall|i: int, j: int| 0 <= i < j < defs.len() ==> defs[i].name@ != defs[j].name@
    &&& forall|m: Seq<char>|
        #![trigger last_meta(schema_metas(es), m)]
        (exists|i: int| 0 <= i < defs.len() && defs[i].name@ == m) == (last_meta(schema_metas(es), m) is Some)
    &&& forall|i: int|
        0 <= i < defs.len() ==> Some((#[trigger] defs[i]).meta) == last_meta(schema_metas(es), defs[i].name@)
}

/// Takes in one more entity type of the schema.
fn absorb_entity(
    tables: &mut Vec<EntityTable>,
    hash: &mut IndexSet,
    sorted: &mut IndexSet,
    defs: &mut Vec<IndexDef>,
    entity: &EntitySchema,
    cur: Ghost<Seq<EntitySchema>>,
)
    requires
        build_inv(old(tables)@, *old(hash), *old(sorted), old(defs)@, cur@),
    ensures
        build_inv(final(tables)@, *final(hash), *final(sorted), final(defs)@, cur@.push(*entity)),
{
    reveal(build_inv);
    let ghost next = cur@.push(*entity);
    proof {
        assert(next.drop_last() =~= cur@);
        lemma_declared_step(cur@, *entity, true);
        lemma_declared_step(cur@, *entity, false);
    }
    if !entity.is_collection() {
        upsert_entity_table(tables, entity, cur);
        let ghost hb = *hash;
        let ghost sb = *sorted;
        ensure_entity_indexes(hash, sorted, entity);
        proof {
            assert forall|m: Seq<char>| #[trigger] hash.list(m) == Seq::<IndexPair>::empty() by {
                assert(hb.list(m) == Seq::<IndexPair>::empty());
            }
            assert forall|m: Seq<char>| #[trigger] sorted.list(m) == Seq::<IndexPair>::empty() by {
                assert(sb.list(m) == Seq::<IndexPair>::empty());
            }
        }
        upsert_index_defs(defs, entity, Ghost(schema_metas(cur@)));
        proof {
            assert(schema_metas(next) == schema_metas(cur@) + entity_metas(*entity));
        }
    } else {
        proof {
            assert forall|t: Seq<char>| #[trigger] last_entity_def(next, t) == last_entity_def(cur@, t) by {}
            assert(schema_metas(next) =~= schema_metas(cur@)) by {
                assert(entity_metas(*entity) =~= Seq::<(Seq<char>, IndexMeta)>::empty());
            }
        }
    }
}

impl Store {
    /// An empty store for the schema's entity types, with a hard memory
    /// limit and a limit per record (zero: none).
    pub fn new(schema: &SchemaConfig, max_bytes: usize, max_entity_bytes: usize) -> (r: Self)
        ensures
            r.wf(),
            r.kept(),
            r.memory() == 0,
            r.max_bytes() == max_bytes,
            r.max_entity_bytes() == max_entity_bytes,
            r.tombs() == Map::<Seq<char>, Tombstone>::empty(),
            forall|t: Seq<char>|
                #![trigger r.has_entity(t)]
                r.has_entity(t) == (last_entity_def(schema.entities@, t) is Some),
            forall|t: Seq<char>|
                #![trigger r.schema_of(t)]
                r.has_entity(t) ==> schema_same(
                    r.schema_of(t),
                    last_entity_def(schema.entities@, t)->0,
                ) && r.records(t) == Map::<Seq<char>, EntityRecord>::empty(),
            r.hash_index().view().names == declared_index_names(schema.entities@, true),
            r.sorted_index().view().names == declared_index_names(schema.entities@, false),
            forall|n: Seq<char>| #[trigger] r.hash_index().list(n) == Seq::<IndexPair>::empty(),
            forall|n: Seq<char>| #[trigger] r.sorted_index().list(n) == Seq::<IndexPair>::empty(),
            forall|n: Seq<char>|
                #![trigger r.has_meta(n)]
                r.has_meta(n) == (last_meta(schema_metas(schema.entities@), n) is Some),
            forall|n: Seq<char>|
                #![trigger r.meta(n)]
                r.has_meta(n) ==> Some(r.meta(n)) == last_meta(schema_metas(schema.entities@), n),
            forall|c: Seq<char>|
                #![trigger r.collections().has(c)]
                r.collections().has(c) == (last_collection_def(schema.entities@, c) is Some),
            forall|c: Seq<char>|
                #![trigger r.collections().def_of(c)]
                r.collections().has(c) ==> Some(r.collections().def_of(c)) == last_collection_def(
                    schema.entities@,
                    c,
                ) && r.collections().parts(c) == Map::<Seq<char>, Seq<CollectionItem>>::empty(),
            r.collections().memory() == 0,
    {
        let collection_store = CollectionStore::new(schema);
        let mut tables: Vec<EntityTable> = Vec::new();
        let mut hash = IndexSet::new();
        let mut sorted = IndexSet::new();
        let mut defs: Vec<IndexDef> = Vec::new();
        let ghost es = schema.entities@;
        let n = schema.entities.len();
        let mut e: usize = 0;
        proof {
            assert(es.take(0) =~= Seq::<EntitySchema>::empty());
            assert(declared_index_names(es.take(0), true) =~= Set::<Seq<char>>::empty());
            assert(declared_index_names(es.take(0), false) =~= Set::<Seq<char>>::empty());
        }
        proof {
            reveal(build_inv);
        }
        while e < n
            invariant
                n == es.len(),
                es == schema.entities@,
                e <= n,
                build_inv(tables@, hash, sorted, defs@, es.take(e as int)),
            decreases n - e,
        {
            let entity = &schema.entities[e];
            proof {
                assert(es.take(e + 1) =~= es.take(e as int).push(*entity));
            }
            absorb_entity(&mut tables, &mut hash, &mut sorted, &mut defs, entity, Ghost(es.take(e as int)));
            e = e + 1;
        }
        proof {
            reveal(build_inv);
        }
        proof {
            assert(es.take(n as int) =~= es);
        }
        let r = Store {
            tables,
            tombstones: tombstones_new(),
            hash_indexes: hash,
            sorted_indexes: sorted,
            index_defs: defs,
            memory_bytes: 0,
            max_bytes,
            max_entity_bytes,
            collection_store,
        };
        proof {
            assert forall|i: int| 0 <= i < r.tables@.len() implies table_ok(#[trigger] r.tables@[i]) by {
                assert(record_table(r.tables@[i].records) == Map::<Seq<char>, EntityRecord>::empty());
            }
            assert(r.wf());
            assert forall|t: Seq<char>| #![trigger r.schema_of(t)]
                r.has_entity(t) implies schema_same(r.schema_of(t), last_entity_def(schema.entities@, t)->0)
                    && r.records(t) == Map::<Seq<char>, EntityRecord>::empty() by {
                let i = choose|i: int| 0 <= i < r.tables@.len() && r.tables@[i].name@ == t;
                r.lemma_table_at(i);
            }
            assert forall|m: Seq<char>| #![trigger r.meta(m)]
                r.has_meta(m) implies Some(r.meta(m)) == last_meta(schema_metas(schema.entities@), m) by {
                let i = choose|i: int| 0 <= i < r.index_defs@.len() && r.index_defs@[i].name@ == m;
                let j = index_def_at(r.index_defs@, m);
                if i != j {
                    if i < j {
                        assert(r.index_defs@[i].name@ != r.index_defs@[j].name@);
                    } else {
                        assert(r.index_defs@[j].name@ != r.index_defs@[i].name@);
                    }
                }
            }
        }
        proof {
            assert forall|t: Seq<char>, k: Seq<char>| #[trigger] r.record(t, k) is None by {
                if r.has_entity(t) {
                    assert(r.records(t) == Map::<Seq<char>, EntityRecord>::empty());
                }
            }
            lemma_kept_fresh(r);
        }
        r
    }
}


/// `seconds * 1000`, stopping at `u64::MAX`.
pub open spec fn millis_of(seconds: u64) -> u64 {
    if seconds * 1000 > u64::MAX {
        u64::MAX
    } else {
        (seconds * 1000) as u64
    }
}

/// Seconds as milliseconds, stopping at `u64::MAX`.
pub fn seconds_to_millis(seconds: u64) -> (r: u64)
    ensures
        r == millis_of(seconds),
{
    match seconds.checked_mul(1000) {
        Some(m) => m,
        None => u64::MAX,
    }
}

/// When a record written at `now` expires, for a time to live in seconds.
pub open spec fn expiry(ttl: Option<u64>, now: u64) -> Option<u64> {
    match ttl {
        Some(t) => Some(now.saturating_add(millis_of(t))),
        None => None,
    }
}

/// The memory counter once a record of `added` bytes replaces one of
/// `prev`: the subtraction stops at zero, the addition at `usize::MAX`.
pub open spec fn projected_memory(memory: usize, prev: int, added: int) -> int {
    let rest: int = if memory >= prev {
        memory - prev
    } else {
        0
    };
    if rest + added > usize::MAX {
        usize::MAX as int
    } else {
        rest + added
    }
}

/// The index entries that the record under `key`, if any, gives the index
/// named `name`.
pub open spec fn held_entries(
    rec: Option<EntityRecord>,
    entity: Seq<char>,
    schema: EntitySchema,
    key: Seq<char>,
    hash: bool,
    name: Seq<char>,
) -> Set<IndexPair> {
    match rec {
        Some(r) => record_entries(entity, schema, key, r.value, hash, name),
        None => Set::empty(),
    }
}

impl Store {
    /// The estimate of the record held under `key`, zero when there is none.
    pub open spec fn held_size(&self, t: Seq<char>, key: Seq<char>) -> int {
        match self.record(t, key) {
            Some(r) => record_size(t, key, r.value),
            None => 0,
        }
    }

    /// Whether a record exceeds the limit per record.
    pub open spec fn too_large(&self, t: Seq<char>, key: Seq<char>, value: JsonValue) -> bool {
        self.max_entity_bytes() > 0 && record_size(t, key, value) > self.max_entity_bytes()
    }

    /// The memory counter after writing the record.
    pub open spec fn memory_after_write(&self, t: Seq<char>, key: Seq<char>, value: JsonValue) -> int {
        projected_memory(self.memory(), self.held_size(t, key), record_size(t, key, value))
    }

    /// Whether writing the record would exceed the hard memory limit.
    pub open spec fn over_limit(&self, t: Seq<char>, key: Seq<char>, value: JsonValue) -> bool {
        self.max_bytes() > 0 && self.memory_after_write(t, key, value) > self.max_bytes()
    }

    /// The entity types, their definitions, the index definitions, the
    /// limits and the collections are those of `other`.
    pub open spec fn same_shape(&self, other: &Self) -> bool {
        &&& forall|t: Seq<char>| #[trigger] self.has_entity(t) == other.has_entity(t)
        &&& forall|t: Seq<char>| #[trigger] self.schema_of(t) == other.schema_of(t)
        &&& forall|n: Seq<char>| #[trigger] self.has_meta(n) == other.has_meta(n)
        &&& forall|n: Seq<char>| #[trigger] self.meta(n) == other.meta(n)
        &&& self.meta_names() == other.meta_names()
        &&& self.max_bytes() == other.max_bytes()
        &&& self.max_entity_bytes() == other.max_entity_bytes()
        &&& self.collections() == other.collections()
    }

    /// Every record, tombstone, index entry and the counter are those of
    /// `other`, and so is the shape.
    pub open spec fn same_view(&self, other: &Self) -> bool {
        &&& self.same_shape(other)
        &&& forall|t: Seq<char>, k: Seq<char>| #[trigger] self.record(t, k) == other.record(t, k)
        &&& self.tombs() == other.tombs()
        &&& self.memory() == other.memory()
        &&& self.hash_index() == other.hash_index()
        &&& self.sorted_index() == other.sorted_index()
    }

    /// Records other than `key` of type `t` are those of `other`.
    pub open spec fn same_records_but(&self, other: &Self, t: Seq<char>, key: Seq<char>) -> bool {
        forall|t2: Seq<char>, k2: Seq<char>|
            !(t2 == t && k2 == key) ==> #[trigger] self.record(t2, k2) == other.record(t2, k2)
    }

    /// The indexes hold what they held, less the entries of the record that
    /// `key` held in `before`, plus those of `value`.
    pub open spec fn reindexed(&self, before: &Self, t: Seq<char>, key: Seq<char>, value: JsonValue) -> bool {
        let schema = before.schema_of(t);
        let held = before.record(t, key);
        &&& self.hash_index().view().names == before.hash_index().view().names + record_touched(
            t,
            schema,
            value,
            true,
        )
        &&& self.sorted_index().view().names == before.sorted_index().view().names
            + record_touched(t, schema, value, false)
        &&& forall|n: Seq<char>|
            #[trigger] self.hash_index().rel(n) == before.hash_index().rel(n) - held_entries(
                held,
                t,
                schema,
                key,
                true,
                n,
            ) + record_entries(t, schema, key, value, true, n)
        &&& forall|n: Seq<char>|
            #[trigger] self.sorted_index().rel(n) == before.sorted_index().rel(n) - held_entries(
                held,
                t,
                schema,
                key,
                false,
                n,
            ) + record_entries(t, schema, key, value, false, n)
    }

    /// What a successful write of `value` under `key` at time `now` leaves.
    pub open spec fn written(&self, before: &Self, t: Seq<char>, key: Seq<char>, value: JsonValue, now: u64) -> bool {
        &&& self.same_shape(before)
        &&& self.same_records_but(before, t, key)
        &&& self.record(t, key) == Some(
            EntityRecord {
                entity_type: self.record(t, key)->0.entity_type,
                key: self.record(t, key)->0.key,
                value,
                updated_at_ms: now,
                expires_at_ms: expiry(schema_ttl(before.schema_of(t)), now),
            },
        )
        &&& self.record(t, key)->0.entity_type@ == t
        &&& self.record(t, key)->0.key@ == key
        &&& self.tombs() == before.tombs().remove(tombstone_key_of(t, key))
        &&& self.memory() == before.memory_after_write(t, key, value)
        &&& self.reindexed(before, t, key, value)
    }
}


impl Store {
    proof fn lemma_update_table(&self, before: &Self, i: int, t: Seq<char>)
        requires
            before.wf(),
            0 <= i < before.tables@.len(),
            before.tables@[i].name@ == t,
            self.tables@.len() == before.tables@.len(),
            forall|j: int| 0 <= j < self.tables@.len() && j != i ==> self.tables@[j] == before.tables@[j],
            self.tables@[i].name == before.tables@[i].name,
            self.tables@[i].schema == before.tables@[i].schema,
            table_ok(self.tables@[i]),
            self.index_defs == before.index_defs,
            self.hash_indexes.wf(),
            self.sorted_indexes.wf(),
            tombstone_table(self.tombstones).dom().finite(),
            self.collection_store == before.collection_store,
            self.max_bytes == before.max_bytes,
            self.max_entity_bytes == before.max_entity_bytes,
        ensures
            self.wf(),
            self.same_shape(before),
            forall|t2: Seq<char>| t2 != t ==> #[trigger] self.records(t2) == before.records(t2),
            self.records(t) == record_table(self.tables@[i].records),
            entity_table_at(self.tables@, t) == i,
    {
        assert(self.wf());
        self.lemma_table_at(i);
        before.lemma_table_at(i);
        assert forall|t2: Seq<char>| #[trigger] self.has_entity(t2) == before.has_entity(t2) by {
            if self.has_entity(t2) {
                let j = choose|j: int| 0 <= j < self.tables@.len() && self.tables@[j].name@ == t2;
                assert(before.tables@[j].name@ == t2);
            }
            if before.has_entity(t2) {
                let j = choose|j: int| 0 <= j < before.tables@.len() && before.tables@[j].name@ == t2;
                assert(self.tables@[j].name@ == t2);
            }
        }
        assert forall|t2: Seq<char>| #[trigger] self.schema_of(t2) == before.schema_of(t2) && (t2 != t ==> self.records(t2) == before.records(t2)) by {
            if self.has_entity(t2) {
                let j = choose|j: int| 0 <= j < self.tables@.len() && self.tables@[j].name@ == t2;
                self.lemma_table_at(j);
                before.lemma_table_at(j);
            }
        }
        assert(self.meta_names() =~= before.meta_names());
        assert forall|n: Seq<char>| #[trigger] self.has_meta(n) == before.has_meta(n) by {}
        assert forall|n: Seq<char>| #[trigger] self.meta(n) == before.meta(n) by {}
    }
}


impl Store {
    /// Writes `value` under `key` at time `now_ms`: replaces the record and
    /// its index entries, lifts a tombstone of the key, and moves the memory
    /// counter by the difference of the estimates.
    pub fn upsert_at(&mut self, entity_type: &str, key: &str, value: JsonValue, now_ms: u64) -> (r:
        Result<(), StoreError>)
        requires
            old(self).wf(),
            record_fits(entity_type@, key@, value),
        ensures
            final(self).wf(),
            !old(self).has_entity(entity_type@) ==> (r matches Err(StoreError::UnknownEntity(n))
                && n@ == entity_type@ && *final(self) == *old(self)),
            old(self).has_entity(entity_type@) && old(self).too_large(entity_type@, key@, value) ==> (
            r matches Err(StoreError::EntityTooLarge) && *final(self) == *old(self)),
            old(self).has_entity(entity_type@) && !old(self).too_large(entity_type@, key@, value)
                && old(self).over_limit(entity_type@, key@, value) ==> (r matches Err(
                StoreError::HardMemoryLimitExceeded,
            ) && *final(self) == *old(self)),
            old(self).has_entity(entity_type@) && !old(self).too_large(entity_type@, key@, value)
                && !old(self).over_limit(entity_type@, key@, value) ==> r is Ok
                && final(self).written(old(self), entity_type@, key@, value, now_ms),
            old(self).kept() && (old(self).max_bytes() > 0 || old(self).write_fits(entity_type@, key@, value))
                ==> final(self).kept(),
            old(self).kept() && r is Ok ==> final(self).no_tomb_for(entity_type@, key@),
    {
        let ghost before = *self;
        let r = self.write_at(entity_type, key, value, now_ms);
        proof {
            if before.kept() && r is Ok {
                lemma_write_lifts_tombs(*self, before, entity_type@, key@, value, now_ms);
                if before.max_bytes() > 0 || before.write_fits(entity_type@, key@, value) {
                    lemma_kept_write(*self, before, entity_type@, key@, value, now_ms);
                }
            }
        }
        r
    }

    /// Writes the record; see `upsert_at`.
    fn write_at(&mut self, entity_type: &str, key: &str, value: JsonValue, now_ms: u64) -> (r:
        Result<(), StoreError>)
        requires
            old(self).wf(),
            record_fits(entity_type@, key@, value),
        ensures
            final(self).wf(),
            !old(self).has_entity(entity_type@) ==> (r matches Err(StoreError::UnknownEntity(n))
                && n@ == entity_type@ && *final(self) == *old(self)),
            old(self).has_entity(entity_type@) && old(self).too_large(entity_type@, key@, value) ==> (
            r matches Err(StoreError::EntityTooLarge) && *final(self) == *old(self)),
            old(self).has_entity(entity_type@) && !old(self).too_large(entity_type@, key@, value)
                && old(self).over_limit(entity_type@, key@, value) ==> (r matches Err(
                StoreError::HardMemoryLimitExceeded,
            ) && *final(self) == *old(self)),
            old(self).has_entity(entity_type@) && !old(self).too_large(entity_type@, key@, value)
                && !old(self).over_limit(entity_type@, key@, value) ==> r is Ok
                && final(self).written(old(self), entity_type@, key@, value, now_ms),
    {
        let i = match self.find_table(entity_type) {
            None => {
                return Err(StoreError::UnknownEntity(String::from_str(entity_type)));
            },
            Some(i) => i,
        };
        proof {
            self.lemma_table_at(i as int);
        }
        let approx = estimate_entity_size(entity_type, key, &value);
        if self.max_entity_bytes > 0 && approx > self.max_entity_bytes {
            return Err(StoreError::EntityTooLarge);
        }
        let previous = records_get(&self.tables[i].records, key);
        let prev_size: usize = match &previous {
            Some(p) => estimate_entity_size(entity_type, key, &p.value),
            None => 0,
        };
        let projected = self.memory_bytes.saturating_sub(prev_size).saturating_add(approx);
        assert(projected == old(self).memory_after_write(entity_type@, key@, value));
        if self.max_bytes > 0 && projected > self.max_bytes {
            return Err(StoreError::HardMemoryLimitExceeded);
        }
        let ghost before = *self;
        let ghost schema = self.tables@[i as int].schema;
        let held = records_remove(&mut self.tables[i].records, key);
        match &held {
            Some(o) => {
                remove_from_indexes(
                    &mut self.hash_indexes,
                    &mut self.sorted_indexes,
                    entity_type,
                    &self.tables[i].schema,
                    key,
                    &o.value,
                );
            },
            None => {},
        }
        let ghost mid_hash = self.hash_indexes;
        let ghost mid_sorted = self.sorted_indexes;
        add_to_indexes(
            &mut self.hash_indexes,
            &mut self.sorted_indexes,
            entity_type,
            &self.tables[i].schema,
            key,
            &value,
        );
        let expires_at_ms = match self.tables[i].schema.ttl_seconds() {
            Some(ttl) => Some(now_ms.saturating_add(seconds_to_millis(ttl))),
            None => None,
        };
        let record = EntityRecord {
            entity_type: String::from_str(entity_type),
            key: String::from_str(key),
            value,
            updated_at_ms: now_ms,
            expires_at_ms,
        };
        let ghost rec = record;
        records_insert(&mut self.tables[i].records, String::from_str(key), record);
        let tk = tombstone_key(entity_type, key);
        tombstones_remove(&mut self.tombstones, tk.as_str());
        self.memory_bytes = projected;
        proof {
            let t = entity_type@;
            let tab = self.tables@[i as int];
            assert forall|k: Seq<char>| #[trigger] record_table(tab.records).contains_key(k) implies {
                let r = record_table(tab.records)[k];
                &&& r.entity_type@ == tab.name@
                &&& r.key@ == k
                &&& record_fits(tab.name@, k, r.value)
            } by {
                if k != key@ {
                    assert(record_table(before.tables@[i as int].records).contains_key(k));
                }
            }
            assert(table_ok(tab));
            self.lemma_update_table(&before, i as int, t);
            assert(before.records(t) == record_table(before.tables@[i as int].records));
            assert forall|t2: Seq<char>, k2: Seq<char>| !(t2 == t && k2 == key@) implies #[trigger] self.record(t2, k2)
                == before.record(t2, k2) by {
                if t2 != t {
                    assert(self.records(t2) == before.records(t2));
                }
            }
            assert(self.record(t, key@) == Some(rec));
            assert(self.schema_of(t) == schema);
            assert(before.record(t, key@) == held);
            assert forall|n: Seq<char>| #[trigger] self.hash_index().rel(n) == before.hash_index().rel(n) - held_entries(
                held, t, schema, key@, true, n) + record_entries(t, schema, key@, value, true, n) by {
                if held is None {
                    assert(mid_hash.rel(n) == before.hash_indexes.rel(n));
                    assert(before.hash_index().rel(n) - held_entries(held, t, schema, key@, true, n) =~= before.hash_index().rel(n));
                }
            }
            assert forall|n: Seq<char>| #[trigger] self.sorted_index().rel(n) == before.sorted_index().rel(n) - held_entries(
                held, t, schema, key@, false, n) + record_entries(t, schema, key@, value, false, n) by {
                if held is None {
                    assert(mid_sorted.rel(n) == before.sorted_indexes.rel(n));
                    assert(before.sorted_index().rel(n) - held_entries(held, t, schema, key@, false, n) =~= before.sorted_index().rel(n));
                }
            }
            assert(self.reindexed(&before, t, key@, value));
        }
        Ok(())
    }
}


impl Store {
    /// What deleting the record under `key` at time `now`, when there is
    /// one, leaves: no record, a tombstone, its index entries gone and its
    /// estimate taken off the counter (wrapping, as an atomic subtraction).
    pub open spec fn removed(&self, before: &Self, t: Seq<char>, key: Seq<char>, now: u64) -> bool {
        let held = before.record(t, key)->0;
        let schema = before.schema_of(t);
        let tk = tombstone_key_of(t, key);
        &&& self.same_shape(before)
        &&& self.same_records_but(before, t, key)
        &&& self.record(t, key) is None
        &&& self.tombs().contains_key(tk)
        &&& self.tombs()[tk].entity_type@ == t
        &&& self.tombs()[tk].key@ == key
        &&& self.tombs()[tk].deleted_at_ms == now
        &&& self.tombs().remove(tk) == before.tombs().remove(tk)
        &&& self.memory() == before.memory().wrapping_sub(record_size(t, key, held.value) as usize)
        &&& self.hash_index().view().names == before.hash_index().view().names
        &&& self.sorted_index().view().names == before.sorted_index().view().names
        &&& forall|n: Seq<char>|
            #[trigger] self.hash_index().rel(n) == before.hash_index().rel(n) - record_entries(
                t,
                schema,
                key,
                held.value,
                true,
                n,
            )
        &&& forall|n: Seq<char>|
            #[trigger] self.sorted_index().rel(n) == before.sorted_index().rel(n) - record_entries(
                t,
                schema,
                key,
                held.value,
                false,
                n,
            )
    }

    /// Deletes the record under `key` at time `now_ms`, leaving a tombstone;
    /// nothing happens when there is no such record.
    pub fn delete_at(&mut self, entity_type: &str, key: &str, now_ms: u64) -> (r: Result<(), StoreError>)
        requires
            old(self).wf(),
        ensures
            final(self).wf(),
            !old(self).has_entity(entity_type@) ==> (r matches Err(StoreError::UnknownEntity(n))
                && n@ == entity_type@ && *final(self) == *old(self)),
            old(self).has_entity(entity_type@) ==> r is Ok,
            old(self).record(entity_type@, key@) is None ==> final(self).same_view(old(self)),
            old(self).record(entity_type@, key@) is Some ==> final(self).removed(
                old(self),
                entity_type@,
                key@,
                now_ms,
            ),
            old(self).kept() ==> final(self).kept(),
    {
        let ghost before = *self;
        let r = self.erase_at(entity_type, key, now_ms);
        proof {
            if before.kept() && before.has_entity(entity_type@) {
                if before.record(entity_type@, key@) is None {
                    lemma_kept_same(*self, before);
                } else {
                    lemma_kept_delete(*self, before, entity_type@, key@, now_ms);
                }
            }
        }
        r
    }

    /// Deletes the record; see `delete_at`.
    fn erase_at(&mut self, entity_type: &str, key: &str, now_ms: u64) -> (r: Result<(), StoreError>)
        requires
            old(self).wf(),
        ensures
            final(self).wf(),
            !old(self).has_entity(entity_type@) ==> (r matches Err(StoreError::UnknownEntity(n))
                && n@ == entity_type@ && *final(self) == *old(self)),
            old(self).has_entity(entity_type@) ==> r is Ok,
            old(self).record(entity_type@, key@) is None ==> final(self).same_view(old(self)),
            old(self).record(entity_type@, key@) is Some ==> final(self).removed(
                old(self),
                entity_type@,
                key@,
                now_ms,
            ),
    {
        let i = match self.find_table(entity_type) {
            None => {
                return Err(StoreError::UnknownEntity(String::from_str(entity_type)));
            },
            Some(i) => i,
        };
        proof {
            self.lemma_table_at(i as int);
        }
        let ghost before = *self;
        let ghost schema = self.tables@[i as int].schema;
        let held = records_remove(&mut self.tables[i].records, key);
        match held {
            None => {
                proof {
                    let t = entity_type@;
                    assert(record_table(self.tables@[i as int].records) =~= record_table(before.tables@[i as int].records));
                    assert(table_ok(self.tables@[i as int]));
                    self.lemma_update_table(&before, i as int, t);
                    assert(before.records(t) == record_table(before.tables@[i as int].records));
                    assert forall|t2: Seq<char>, k2: Seq<char>| #[trigger] self.record(t2, k2) == before.record(t2, k2) by {
                        if t2 != t {
                            assert(self.records(t2) == before.records(t2));
                        }
                    }
                }
                Ok(())
            },
            Some(o) => {
                proof {
                    assert(record_table(before.tables@[i as int].records).contains_key(key@));
                }
                remove_from_indexes(
                    &mut self.hash_indexes,
                    &mut self.sorted_indexes,
                    entity_type,
                    &self.tables[i].schema,
                    key,
                    &o.value,
                );
                let old_size = estimate_entity_size(entity_type, key, &o.value);
                self.memory_bytes = self.memory_bytes.wrapping_sub(old_size);
                let tk = tombstone_key(entity_type, key);
                let ghost tkv = tk@;
                tombstones_insert(
                    &mut self.tombstones,
                    tk,
                    Tombstone {
                        entity_type: String::from_str(entity_type),
                        key: String::from_str(key),
                        deleted_at_ms: now_ms,
                    },
                );
                proof {
                    let t = entity_type@;
                    let tab = self.tables@[i as int];
                    assert forall|k: Seq<char>| #[trigger] record_table(tab.records).contains_key(k) implies {
                        let r = record_table(tab.records)[k];
                        &&& r.entity_type@ == tab.name@
                        &&& r.key@ == k
                        &&& record_fits(tab.name@, k, r.value)
                    } by {
                        assert(record_table(before.tables@[i as int].records).contains_key(k));
                    }
                    assert(table_ok(tab));
                    self.lemma_update_table(&before, i as int, t);
                    assert(before.records(t) == record_table(before.tables@[i as int].records));
                    assert forall|t2: Seq<char>, k2: Seq<char>| !(t2 == t && k2 == key@) implies #[trigger] self.record(t2, k2)
                        == before.record(t2, k2) by {
                        if t2 != t {
                            assert(self.records(t2) == before.records(t2));
                        }
                    }
                    assert(self.schema_of(t) == schema);
                    assert(tkv == tombstone_key_of(t, key@));
                    assert(self.tombs().remove(tkv) =~= before.tombs().remove(tkv));
                }
                Ok(())
            },
        }
    }
}


/// The wall clock in milliseconds since the Unix epoch (zero for a clock
/// before it), through `std::time::SystemTime::now`. What the clock reads
/// is not stated: nothing is promised of the result.
#[verifier::external_body]
pub fn now_millis() -> u64 {
    match std::time::SystemTime::now().duration_since(std::time::UNIX_EPOCH) {
        Ok(d) => d.as_millis() as u64,
        Err(_) => 0,
    }
}

impl Store {
    /// Writes `value` under `key` at the current time (see `upsert_at`).
    pub fn upsert(&mut self, entity_type: &str, key: &str, value: JsonValue) -> (r: Result<(), StoreError>)
        requires
            old(self).wf(),
            record_fits(entity_type@, key@, value),
        ensures
            final(self).wf(),
            !old(self).has_entity(entity_type@) ==> (r matches Err(StoreError::UnknownEntity(n))
                && n@ == entity_type@ && *final(self) == *old(self)),
            old(self).has_entity(entity_type@) && old(self).too_large(entity_type@, key@, value) ==> (
            r matches Err(StoreError::EntityTooLarge) && *final(self) == *old(self)),
            old(self).has_entity(entity_type@) && !old(self).too_large(entity_type@, key@, value)
                && old(self).over_limit(entity_type@, key@, value) ==> (r matches Err(
                StoreError::HardMemoryLimitExceeded,
            ) && *final(self) == *old(self)),
            old(self).has_entity(entity_type@) && !old(self).too_large(entity_type@, key@, value)
                && !old(self).over_limit(entity_type@, key@, value) ==> r is Ok && exists|now: u64|
                final(self).written(old(self), entity_type@, key@, value, now),
            old(self).kept() && (old(self).max_bytes() > 0 || old(self).write_fits(entity_type@, key@, value))
                ==> final(self).kept(),
            old(self).kept() && r is Ok ==> final(self).no_tomb_for(entity_type@, key@),
    {
        let now = now_millis();
        self.upsert_at(entity_type, key, value, now)
    }

    /// Deletes the record under `key` at the current time (see `delete_at`).
    pub fn delete(&mut self, entity_type: &str, key: &str) -> (r: Result<(), StoreError>)
        requires
            old(self).wf(),
        ensures
            final(self).wf(),
            !old(self).has_entity(entity_type@) ==> (r matches Err(StoreError::UnknownEntity(n))
                && n@ == entity_type@ && *final(self) == *old(self)),
            old(self).has_entity(entity_type@) ==> r is Ok,
            old(self).record(entity_type@, key@) is None ==> final(self).same_view(old(self)),
            old(self).record(entity_type@, key@) is Some ==> exists|now: u64|
                final(self).removed(old(self), entity_type@, key@, now),
            old(self).kept() ==> final(self).kept(),
    {
        let now = now_millis();
        self.delete_at(entity_type, key, now)
    }
}


/// The names among `names` that end with a dot followed by `q`, in order.
pub open spec fn dotted_matches(names: Seq<Seq<char>>, q: Seq<char>) -> Seq<Seq<char>>
    decreases names.len(),
{
    if names.len() == 0 {
        Seq::empty()
    } else if dotted_suffix(names.last(), q) {
        dotted_matches(names.drop_last(), q).push(names.last())
    } else {
        dotted_matches(names.drop_last(), q)
    }
}

/// The index that a query names: the index of exactly that name, else the
/// one index whose name ends with `.q`, if there is exactly one.
pub open spec fn resolved_name(names: Seq<Seq<char>>, q: Seq<char>) -> Option<Seq<char>> {
    if names.contains(q) {
        Some(q)
    } else if dotted_matches(names, q).len() == 1 {
        Some(dotted_matches(names, q)[0])
    } else {
        None
    }
}

/// Every name that `dotted_matches` gives is among the names.
pub proof fn lemma_dotted_matches_within(names: Seq<Seq<char>>, q: Seq<char>)
    ensures
        forall|m: Seq<char>| #[trigger] dotted_matches(names, q).contains(m) ==> names.contains(m),
    decreases names.len(),
{
    if names.len() > 0 {
        lemma_dotted_matches_within(names.drop_last(), q);
        assert forall|m: Seq<char>| #[trigger] dotted_matches(names, q).contains(m) implies names.contains(m) by {
            if dotted_matches(names.drop_last(), q).contains(m) {
                let k = choose|k: int| 0 <= k < names.drop_last().len() && names.drop_last()[k] == m;
                assert(names[k] == m);
            } else {
                assert(names[names.len() - 1] == m);
            }
        }
    }
}

/// Two lists of records agree record by record.
pub open spec fn records_same(a: Seq<EntityRecord>, b: Seq<EntityRecord>) -> bool {
    &&& a.len() == b.len()
    &&& forall|i: int| 0 <= i < a.len() ==> record_same(#[trigger] a[i], b[i])
}

impl Store {
    /// The records of type `t` held under `keys`, in the keys' order,
    /// skipping keys without a record.
    pub open spec fn present_records(&self, t: Seq<char>, keys: Seq<Seq<char>>) -> Seq<EntityRecord>
        decreases keys.len(),
    {
        if keys.len() == 0 {
            Seq::empty()
        } else {
            let rest = self.present_records(t, keys.drop_last());
            match self.record(t, keys.last()) {
                Some(r) => rest.push(r),
                None => rest,
            }
        }
    }

    /// The index that a query names, among the index definitions.
    pub fn resolve_index_name(&self, index_name: &str) -> (r: Option<String>)
        requires
            self.wf(),
        ensures
            crate::text::opt_str_of(r) == resolved_name(self.meta_names(), index_name@),
    {
        let ghost names = self.meta_names();
        let n = self.index_defs.len();
        let mut i: usize = 0;
        while i < n
            invariant
                n == self.index_defs@.len(),
                names == self.meta_names(),
                names.len() == n,
                i <= n,
                forall|k: int| 0 <= k < i ==> names[k] != index_name@,
            decreases n - i,
        {
            if str_equal(self.index_defs[i].name.as_str(), index_name) {
                assert(names[i as int] == index_name@);
                return Some(String::from_str(index_name));
            }
            i = i + 1;
        }
        assert(!names.contains(index_name@));
        let mut count: usize = 0;
        let mut first: usize = 0;
        let mut j: usize = 0;
        assert(names.take(0) =~= Seq::<Seq<char>>::empty());
        while j < n
            invariant
                n == self.index_defs@.len(),
                names == self.meta_names(),
                names.len() == n,
                j <= n,
                count <= j,
                count == dotted_matches(names.take(j as int), index_name@).len(),
                count >= 1 ==> first < n && names[first as int] == dotted_matches(
                    names.take(j as int),
                    index_name@,
                )[0],
            decreases n - j,
        {
            proof {
                assert(names.take(j + 1).drop_last() =~= names.take(j as int));
                assert(names.take(j + 1).last() == names[j as int]);
            }
            if has_dotted_suffix(self.index_defs[j].name.as_str(), index_name) {
                if count == 0 {
                    first = j;
                }
                count = count + 1;
            }
            j = j + 1;
        }
        assert(names.take(n as int) =~= names);
        if count == 1 {
            Some(self.index_defs[first].name.clone())
        } else {
            None
        }
    }

    /// The keys filed under `value` in the hash index that `index_name`
    /// resolves to, in order; none when it resolves to no hash index.
    pub fn index_lookup_keys(&self, index_name: &str, value: &str) -> (r: Vec<String>)
        requires
            self.wf(),
        ensures
            strings_view(r@) == match resolved_name(self.meta_names(), index_name@) {
                Some(n) => keys_with(self.hash_index().list(n), value@),
                None => Seq::empty(),
            },
    {
        match self.resolve_index_name(index_name) {
            None => {
                let r: Vec<String> = Vec::new();
                assert(strings_view(r@) =~= Seq::<Seq<char>>::empty());
                r
            },
            Some(name) => self.hash_indexes.keys_for(name.as_str(), value),
        }
    }
}


/// The first `k` elements of `s` (all of them when there are fewer).
pub open spec fn first_n<A>(s: Seq<A>, k: int) -> Seq<A> {
    if s.len() <= k {
        s
    } else {
        s.take(k)
    }
}

impl Store {
    proof fn lemma_def_at(&self, i: int)
        requires
            self.wf(),
            0 <= i < self.index_defs@.len(),
        ensures
            index_def_at(self.index_defs@, self.index_defs@[i].name@) == i,
            self.has_meta(self.index_defs@[i].name@),
            self.meta(self.index_defs@[i].name@) == self.index_defs@[i].meta,
    {
        let n = self.index_defs@[i].name@;
        assert(0 <= i < self.index_defs@.len() && self.index_defs@[i].name@ == n);
        let j = index_def_at(self.index_defs@, n);
        if j != i {
            if j < i {
                assert(self.index_defs@[j].name@ != self.index_defs@[i].name@);
            } else {
                assert(self.index_defs@[i].name@ != self.index_defs@[j].name@);
            }
        }
    }

    /// The position of the index definition of that name.
    fn find_meta(&self, name: &str) -> (r: Option<usize>)
        requires
            self.wf(),
        ensures
            r is Some == self.meta_names().contains(name@),
            r is Some == self.has_meta(name@),
            r matches Some(i) ==> i < self.index_defs@.len() && self.meta(name@)
                == self.index_defs@[i as int].meta,
    {
        let n = self.index_defs.len();
        let mut i: usize = 0;
        while i < n
            invariant
                self.wf(),
                n == self.index_defs@.len(),
                i <= n,
                forall|j: int| 0 <= j < i ==> self.index_defs@[j].name@ != name@,
            decreases n - i,
        {
            if str_equal(self.index_defs[i].name.as_str(), name) {
                proof {
                    self.lemma_def_at(i as int);
                    assert(self.meta_names()[i as int] == name@);
                }
                return Some(i);
            }
            i = i + 1;
        }
        assert(!self.meta_names().contains(name@)) by {
            if self.meta_names().contains(name@) {
                let k = choose|k: int| 0 <= k < self.meta_names().len() && self.meta_names()[k] == name@;
                assert(self.index_defs@[k].name@ == name@);
            }
        }
        None
    }

    /// Copies of the records of type `t` under `keys`, in the keys' order,
    /// skipping keys without a record.
    fn records_for_keys(&self, entity_type: &str, keys: &Vec<String>) -> (r: Vec<EntityRecord>)
        requires
            self.wf(),
        ensures
            records_same(r@, self.present_records(entity_type@, strings_view(keys@))),
    {
        let n = keys.len();
        let mut out: Vec<EntityRecord> = Vec::new();
        let mut i: usize = 0;
        assert(strings_view(keys@).take(0) =~= Seq::<Seq<char>>::empty());
        while i < n
            invariant
                self.wf(),
                n == keys@.len(),
                i <= n,
                records_same(out@, self.present_records(entity_type@, strings_view(keys@).take(i as int))),
            decreases n - i,
        {
            let ghost ks = strings_view(keys@);
            proof {
                assert(ks.take(i + 1).drop_last() =~= ks.take(i as int));
                assert(ks.take(i + 1).last() == keys@[i as int]@);
            }
            match self.get(entity_type, keys[i].as_str()) {
                Some(rec) => {
                    out.push(rec);
                },
                None => {},
            }
            i = i + 1;
        }
        assert(strings_view(keys@).take(n as int) =~= strings_view(keys@));
        out
    }

    /// The records behind the first `max(limit, 1)` keys of an index lookup,
    /// skipping keys without a record.
    pub fn index_lookup_entities(&self, index_name: &str, value: &str, limit: usize) -> (r: Vec<
        EntityRecord,
    >)
        requires
            self.wf(),
        ensures
            match resolved_name(self.meta_names(), index_name@) {
                Some(n) => records_same(
                    r@,
                    self.present_records(
                        self.meta(n).entity_type@,
                        first_n(
                            keys_with(self.hash_index().list(n), value@),
                            if limit == 0 {
                                1
                            } else {
                                limit as int
                            },
                        ),
                    ),
                ),
                None => r@.len() == 0,
            },
    {
        let resolved = match self.resolve_index_name(index_name) {
            None => {
                return Vec::new();
            },
            Some(n) => n,
        };
        proof {
            lemma_dotted_matches_within(self.meta_names(), index_name@);
            if !self.meta_names().contains(index_name@) {
                assert(dotted_matches(self.meta_names(), index_name@).contains(resolved@));
            }
        }
        let m = self.find_meta(resolved.as_str()).unwrap();
        let keys = self.index_lookup_keys(index_name, value);
        let take: usize = if limit == 0 {
            1
        } else {
            limit
        };
        let mut first: Vec<String> = Vec::new();
        let mut i: usize = 0;
        while i < keys.len() && i < take
            invariant
                i <= keys@.len(),
                i <= take,
                first@.len() == i,
                forall|k: int| 0 <= k < i ==> (#[trigger] first@[k])@ == keys@[k]@,
            decreases keys@.len() - i,
        {
            first.push(keys[i].clone());
            i = i + 1;
        }
        assert(strings_view(first@) =~= strings_view(keys@).take(i as int));
        proof {
            if keys@.len() <= take {
                assert(strings_view(keys@).take(i as int) =~= strings_view(keys@));
            }
        }
        self.records_for_keys(self.index_defs[m].meta.entity_type.as_str(), &first)
    }

    /// The keys of a range lookup in the sorted index that `index_name`
    /// resolves to: values from `start` to `end` (each bound optional), in
    /// order, stopping after `limit` keys (zero: no limit).
    pub fn range_lookup_keys(
        &self,
        index_name: &str,
        start: Option<&str>,
        end: Option<&str>,
        limit: usize,
    ) -> (r: Vec<String>)
        requires
            self.wf(),
        ensures
            strings_view(r@) == match resolved_name(self.meta_names(), index_name@) {
                Some(n) => range_keys(self.sorted_index().list(n), opt_str(start), opt_str(end), limit),
                None => Seq::empty(),
            },
    {
        match self.resolve_index_name(index_name) {
            None => {
                let r: Vec<String> = Vec::new();
                assert(strings_view(r@) =~= Seq::<Seq<char>>::empty());
                r
            },
            Some(name) => self.sorted_indexes.range(name.as_str(), start, end, limit),
        }
    }

    /// The records behind the keys of a range lookup, skipping keys without
    /// a record.
    pub fn range_lookup_entities(
        &self,
        index_name: &str,
        start: Option<&str>,
        end: Option<&str>,
        limit: usize,
    ) -> (r: Vec<EntityRecord>)
        requires
            self.wf(),
        ensures
            match resolved_name(self.meta_names(), index_name@) {
                Some(n) => records_same(
                    r@,
                    self.present_records(
                        self.meta(n).entity_type@,
                        range_keys(self.sorted_index().list(n), opt_str(start), opt_str(end), limit),
                    ),
                ),
                None => r@.len() == 0,
            },
    {
        let resolved = match self.resolve_index_name(index_name) {
            None => {
                return Vec::new();
            },
            Some(n) => n,
        };
        proof {
            lemma_dotted_matches_within(self.meta_names(), index_name@);
            if !self.meta_names().contains(index_name@) {
                assert(dotted_matches(self.meta_names(), index_name@).contains(resolved@));
            }
        }
        let m = self.find_meta(resolved.as_str()).unwrap();
        let keys = self.range_lookup_keys(index_name, start, end, limit);
        self.records_for_keys(self.index_defs[m].meta.entity_type.as_str(), &keys)
    }
}


/// Whether a record has expired by `now`.
pub open spec fn is_expired(rec: Option<EntityRecord>, now: u64) -> bool {
    match rec {
        Some(r) => match r.expires_at_ms {
            Some(e) => e <= now,
            None => false,
        },
        None => false,
    }
}

impl Store {
    /// The entity types and keys of the records that have expired by `now`.
    pub open spec fn expired_keys(&self, now: u64) -> Set<IndexPair> {
        Set::new(|p: IndexPair| is_expired(self.record(p.0, p.1), now))
    }

    /// The expired records, each once: the tables in order, the keys of
    /// each in its map's order.
    fn collect_expired(&self, now_ms: u64) -> (r: Vec<(String, String)>)
        requires
            self.wf(),
        ensures
            pairs_view(r@).no_duplicates(),
            pairs_view(r@).to_set() == self.expired_keys(now_ms),
    {
        let mut out: Vec<(String, String)> = Vec::new();
        let n = self.tables.len();
        let mut i: usize = 0;
        while i < n
            invariant
                self.wf(),
                n == self.tables@.len(),
                i <= n,
                pairs_view(out@).no_duplicates(),
                forall|p: IndexPair|
                    #[trigger] pairs_view(out@).contains(p) <==> (is_expired(self.record(p.0, p.1), now_ms)
                        && exists|j: int| 0 <= j < i && self.tables@[j].name@ == p.0),
            decreases n - i,
        {
            proof {
                self.lemma_table_at(i as int);
            }
            let keys = records_keys(&self.tables[i].records);
            let ghost t = self.tables@[i as int].name@;
            let m = keys.len();
            let mut k: usize = 0;
            let ghost out0 = out@;
            while k < m
                invariant
                    self.wf(),
                    n == self.tables@.len(),
                    i < n,
                    t == self.tables@[i as int].name@,
                    self.has_entity(t),
                    entity_table_at(self.tables@, t) == i,
                    m == keys@.len(),
                    k <= m,
                    strings_view(keys@).no_duplicates(),
                    strings_view(keys@).to_set() == record_table(self.tables@[i as int].records).dom(),
                    pairs_view(out@).no_duplicates(),
                    forall|p: IndexPair|
                        #[trigger] pairs_view(out@).contains(p) <==> ((is_expired(self.record(p.0, p.1), now_ms)
                            && exists|j: int| 0 <= j < i && self.tables@[j].name@ == p.0) || (p.0 == t
                            && is_expired(self.record(p.0, p.1), now_ms) && exists|q: int| 0 <= q < k && keys@[q]@ == p.1)),
                decreases m - k,
            {
                let rec = records_get(&self.tables[i].records, keys[k].as_str());
                let ghost kk = keys@[k as int]@;
                proof {
                    assert(strings_view(keys@)[k as int] == kk);
                    assert(strings_view(keys@).to_set().contains(kk));
                }
                let expired = match &rec {
                    Some(r) => match r.expires_at_ms {
                        Some(e) => e <= now_ms,
                        None => false,
                    },
                    None => false,
                };
                let ghost before = out@;
                proof {
                    assert(self.records(t) == record_table(self.tables@[i as int].records));
                    assert(self.record(t, kk) is Some);
                    assert(is_expired(self.record(t, kk), now_ms) == expired);
                }
                if expired {
                    proof {
                        assert(!pairs_view(out@).contains((t, kk))) by {
                            if pairs_view(out@).contains((t, kk)) {
                                if exists|j: int| 0 <= j < i && self.tables@[j].name@ == t {
                                    let j = choose|j: int| 0 <= j < i && self.tables@[j].name@ == t;
                                    assert(self.tables@[j].name@ != self.tables@[i as int].name@);
                                } else {
                                    let q = choose|q: int| 0 <= q < k && keys@[q]@ == kk;
                                    assert(strings_view(keys@)[q] == strings_view(keys@)[k as int]);
                                }
                            }
                        }
                    }
                    out.push((String::from_str(self.tables[i].name.as_str()), keys[k].clone()));
                    proof {
                        assert(pairs_view(out@) =~= pairs_view(before).push((t, kk)));
                    }
                }
                proof {
                    assert forall|p: IndexPair|
                        #[trigger] pairs_view(out@).contains(p) <==> ((is_expired(self.record(p.0, p.1), now_ms)
                            && exists|j: int| 0 <= j < i && self.tables@[j].name@ == p.0) || (p.0 == t
                            && is_expired(self.record(p.0, p.1), now_ms) && exists|q: int| 0 <= q < k + 1 && keys@[q]@ == p.1)) by {
                        let in_before = pairs_view(before).contains(p);
                        assert(in_before <==> ((is_expired(self.record(p.0, p.1), now_ms)
                            && exists|j: int| 0 <= j < i && self.tables@[j].name@ == p.0) || (p.0 == t
                            && is_expired(self.record(p.0, p.1), now_ms) && exists|q: int| 0 <= q < k && keys@[q]@ == p.1)));
                        if expired {
                            if in_before {
                                let w = choose|w: int| 0 <= w < pairs_view(before).len() && pairs_view(before)[w] == p;
                                assert(pairs_view(out@)[w] == p);
                            }
                            if p == (t, kk) {
                                assert(pairs_view(out@)[before.len() as int] == p);
                            }
                            if pairs_view(out@).contains(p) {
                                let w = choose|w: int| 0 <= w < pairs_view(out@).len() && pairs_view(out@)[w] == p;
                                if w < before.len() {
                                    assert(pairs_view(before)[w] == p);
                                }
                            }
                            assert(pairs_view(out@).contains(p) <==> (in_before || p == (t, kk)));
                        } else {
                            assert(out@ == before);
                        }
                        if p.0 == t && p.1 == kk {
                            assert(keys@[k as int]@ == p.1);
                        }
                        if exists|q: int| 0 <= q < k + 1 && keys@[q]@ == p.1 {
                            let q = choose|q: int| 0 <= q < k + 1 && keys@[q]@ == p.1;
                            if q < k {
                                assert(exists|q2: int| 0 <= q2 < k && keys@[q2]@ == p.1);
                            } else {
                                assert(p.1 == kk);
                            }
                        }
                    }
                }
                k = k + 1;
            }
            proof {
                assert forall|p: IndexPair|
                    #[trigger] pairs_view(out@).contains(p) <==> (is_expired(self.record(p.0, p.1), now_ms)
                        && exists|j: int| 0 <= j < i + 1 && self.tables@[j].name@ == p.0) by {
                    if p.0 == t && is_expired(self.record(p.0, p.1), now_ms) {
                        assert(self.records(t).contains_key(p.1));
                        assert(strings_view(keys@).to_set().contains(p.1));
                        let q = choose|q: int| 0 <= q < strings_view(keys@).len() && strings_view(keys@)[q] == p.1;
                        assert(keys@[q]@ == p.1);
                    }
                    if exists|j: int| 0 <= j < i + 1 && self.tables@[j].name@ == p.0 {
                        let j = choose|j: int| 0 <= j < i + 1 && self.tables@[j].name@ == p.0;
                        if j == i {
                            assert(p.0 == t);
                        }
                    }
                }
            }
            i = i + 1;
        }
        proof {
            assert forall|p: IndexPair| pairs_view(out@).to_set().contains(p) <==> self.expired_keys(now_ms).contains(p) by {
                if is_expired(self.record(p.0, p.1), now_ms) {
                    assert(self.has_entity(p.0));
                }
            }
            assert(pairs_view(out@).to_set() =~= self.expired_keys(now_ms));
        }
        out
    }
}


/// The tombstone keys of a set of entity types and keys.
pub open spec fn tomb_keys(pairs: Set<IndexPair>) -> Set<Seq<char>> {
    pairs.map(|p: IndexPair| tombstone_key_of(p.0, p.1))
}

/// Whether a tombstone is due for removal: every one when the time to live
/// is zero, else those older than it.
pub open spec fn tomb_stale(t: Tombstone, now: u64, ttl_seconds: u64) -> bool {
    ttl_seconds == 0 || now.saturating_sub(t.deleted_at_ms) > millis_of(ttl_seconds)
}

/// The last entity type and key of `order` whose tombstone key is `tk`: the
/// one whose delete wrote that tombstone last.
pub open spec fn last_with_tomb_key(order: Seq<IndexPair>, tk: Seq<char>) -> IndexPair
    decreases order.len(),
{
    if order.len() == 0 {
        arbitrary()
    } else if tombstone_key_of(order.last().0, order.last().1) == tk {
        order.last()
    } else {
        last_with_tomb_key(order.drop_last(), tk)
    }
}

impl Store {
    /// The memory counter after deleting, in order, the records of `order`
    /// as this store holds them.
    pub open spec fn memory_after_evictions(&self, order: Seq<IndexPair>) -> usize
        decreases order.len(),
    {
        if order.len() == 0 {
            self.memory()
        } else {
            let p = order.last();
            self.memory_after_evictions(order.drop_last()).wrapping_sub(
                record_size(p.0, p.1, self.record(p.0, p.1)->0.value) as usize,
            )
        }
    }

    /// The index entries that the records of `order` give the index `n`.
    pub open spec fn entries_of(&self, order: Seq<IndexPair>, hash: bool, n: Seq<char>) -> Set<IndexPair>
        decreases order.len(),
    {
        if order.len() == 0 {
            Set::empty()
        } else {
            let p = order.last();
            self.entries_of(order.drop_last(), hash, n) + record_entries(
                p.0,
                self.schema_of(p.0),
                p.1,
                self.record(p.0, p.1)->0.value,
                hash,
                n,
            )
        }
    }

    /// Every tombstone that the deletes of `order` wrote is stamped `now`.
    pub open spec fn evictions_stamped(&self, order: Seq<IndexPair>, now: u64) -> bool {
        forall|tk: Seq<char>|
            #[trigger] tomb_keys(order.to_set()).contains(tk) ==> self.tombs()[tk].deleted_at_ms == now
    }

    /// What deleting the records of `order`, one after the other, leaves.
    pub open spec fn evicted_along(&self, before: &Self, order: Seq<IndexPair>) -> bool {
        &&& self.same_shape(before)
        &&& forall|t: Seq<char>, k: Seq<char>|
            #[trigger] self.record(t, k) == if order.contains((t, k)) {
                None
            } else {
                before.record(t, k)
            }
        &&& self.tombs().dom() == before.tombs().dom() + tomb_keys(order.to_set())
        &&& forall|tk: Seq<char>|
            #[trigger] self.tombs().contains_key(tk) && !tomb_keys(order.to_set()).contains(tk)
                ==> self.tombs()[tk] == before.tombs()[tk]
        &&& forall|tk: Seq<char>|
            #[trigger] tomb_keys(order.to_set()).contains(tk) ==> self.tombs()[tk].entity_type@
                == last_with_tomb_key(order, tk).0 && self.tombs()[tk].key@ == last_with_tomb_key(
                order,
                tk,
            ).1
        &&& self.memory() == before.memory_after_evictions(order)
        &&& self.hash_index().view().names == before.hash_index().view().names
        &&& self.sorted_index().view().names == before.sorted_index().view().names
        &&& forall|n: Seq<char>|
            #[trigger] self.hash_index().rel(n) == before.hash_index().rel(n) - before.entries_of(
                order,
                true,
                n,
            )
        &&& forall|n: Seq<char>|
            #[trigger] self.sorted_index().rel(n) == before.sorted_index().rel(n) - before.entries_of(
                order,
                false,
                n,
            )
    }

    /// The keys of the tombstones due for removal.
    pub open spec fn stale_tombs(&self, now: u64, ttl_seconds: u64) -> Set<Seq<char>> {
        Set::new(
            |tk: Seq<char>|
                self.tombs().contains_key(tk) && tomb_stale(self.tombs()[tk], now, ttl_seconds),
        )
    }

    /// What removing the stale tombstones leaves.
    pub open spec fn cleaned(&self, before: &Self, now: u64, ttl_seconds: u64) -> bool {
        &&& self.same_shape(before)
        &&& forall|t: Seq<char>, k: Seq<char>| #[trigger] self.record(t, k) == before.record(t, k)
        &&& self.memory() == before.memory()
        &&& self.hash_index() == before.hash_index()
        &&& self.sorted_index() == before.sorted_index()
        &&& self.tombs() == before.tombs().remove_keys(before.stale_tombs(now, ttl_seconds))
    }

    /// Deletes the records of `order`, which have expired, one after the
    /// other, each at time `now_ms`.
    fn evict_all(&mut self, order: &Vec<(String, String)>, now_ms: u64)
        requires
            old(self).wf(),
            pairs_view(order@).no_duplicates(),
            pairs_view(order@).to_set() == old(self).expired_keys(now_ms),
        ensures
            final(self).wf(),
            final(self).evicted_along(old(self), pairs_view(order@)),
            final(self).evictions_stamped(pairs_view(order@), now_ms),
    {
        let ghost s0 = *self;
        let ghost ps = pairs_view(order@);
        let n = order.len();
        let mut j: usize = 0;
        proof {
            assert(ps.take(0) =~= Seq::<IndexPair>::empty());
            assert(tomb_keys(ps.take(0).to_set()) =~= Set::<Seq<char>>::empty());
            assert(self.tombs().dom() =~= s0.tombs().dom() + tomb_keys(ps.take(0).to_set()));
            assert forall|nm: Seq<char>| #[trigger] self.hash_index().rel(nm) == s0.hash_index().rel(nm) - s0.entries_of(ps.take(0), true, nm) by {
                assert(s0.hash_index().rel(nm) - s0.entries_of(ps.take(0), true, nm) =~= s0.hash_index().rel(nm));
            }
            assert forall|nm: Seq<char>| #[trigger] self.sorted_index().rel(nm) == s0.sorted_index().rel(nm) - s0.entries_of(ps.take(0), false, nm) by {
                assert(s0.sorted_index().rel(nm) - s0.entries_of(ps.take(0), false, nm) =~= s0.sorted_index().rel(nm));
            }
        }
        while j < n
            invariant
                n == order@.len(),
                ps == pairs_view(order@),
                ps.no_duplicates(),
                ps.to_set() == s0.expired_keys(now_ms),
                s0.wf(),
                j <= n,
                self.wf(),
                self.evicted_along(&s0, ps.take(j as int)),
                self.evictions_stamped(ps.take(j as int), now_ms),
            decreases n - j,
        {
            let ghost cur = *self;
            let ghost p = ps[j as int];
            let ghost pre = ps.take(j as int);
            proof {
                assert(ps.take(j + 1) =~= pre.push(p));
                assert(ps.take(j + 1).drop_last() =~= pre);
                assert(ps.to_set().contains(p));
                assert(!pre.contains(p)) by {
                    if pre.contains(p) {
                        let w = choose|w: int| 0 <= w < pre.len() && pre[w] == p;
                        assert(ps[w] == ps[j as int]);
                    }
                }
                assert(cur.record(p.0, p.1) == s0.record(p.0, p.1));
                assert(s0.record(p.0, p.1) is Some);
            }
            let _ = self.delete_at(order[j].0.as_str(), order[j].1.as_str(), now_ms);
            proof {
                let next = pre.push(p);
                let now_d = now_ms;
                assert(self.removed(&cur, p.0, p.1, now_d));
                assert(forall|t: Seq<char>| #[trigger] cur.schema_of(t) == s0.schema_of(t));
                assert forall|t: Seq<char>, k: Seq<char>|
                    #[trigger] self.record(t, k) == if next.contains((t, k)) { None } else { s0.record(t, k) } by {
                    if (t, k) == p {
                        assert(next[next.len() - 1] == p);
                    } else {
                        assert(self.record(t, k) == cur.record(t, k));
                        if next.contains((t, k)) {
                            let w = choose|w: int| 0 <= w < next.len() && next[w] == (t, k);
                            assert(pre[w] == (t, k));
                        }
                        if pre.contains((t, k)) {
                            let w = choose|w: int| 0 <= w < pre.len() && pre[w] == (t, k);
                            assert(next[w] == (t, k));
                        }
                    }
                }
                let tk = tombstone_key_of(p.0, p.1);
                assert(next.to_set() =~= pre.to_set().insert(p));
                assert(tomb_keys(next.to_set()) =~= tomb_keys(pre.to_set()).insert(tk)) by {
                    assert forall|x: Seq<char>| tomb_keys(next.to_set()).contains(x) implies tomb_keys(pre.to_set()).insert(tk).contains(x) by {
                        let q = choose|q: IndexPair| next.to_set().contains(q) && tombstone_key_of(q.0, q.1) == x;
                        if q != p {
                            assert(pre.to_set().contains(q));
                        }
                    }
                    assert forall|x: Seq<char>| tomb_keys(pre.to_set()).insert(tk).contains(x) implies tomb_keys(next.to_set()).contains(x) by {
                        if x == tk {
                            assert(next.to_set().contains(p));
                        } else {
                            let q = choose|q: IndexPair| pre.to_set().contains(q) && tombstone_key_of(q.0, q.1) == x;
                            assert(next.to_set().contains(q));
                        }
                    }
                }
                assert(self.tombs().dom() =~= s0.tombs().dom() + tomb_keys(next.to_set())) by {
                    assert(self.tombs().dom() =~= cur.tombs().dom().insert(tk)) by {
                        assert forall|x: Seq<char>| self.tombs().dom().contains(x) <==> cur.tombs().dom().insert(tk).contains(x) by {
                            if x != tk {
                                assert(self.tombs().remove(tk).contains_key(x) == self.tombs().contains_key(x));
                                assert(cur.tombs().remove(tk).contains_key(x) == cur.tombs().contains_key(x));
                            }
                        }
                    }
                }
                assert forall|x: Seq<char>|
                    #[trigger] self.tombs().contains_key(x) && !tomb_keys(next.to_set()).contains(x)
                        implies self.tombs()[x] == s0.tombs()[x] by {
                    assert(x != tk);
                    assert(self.tombs().remove(tk)[x] == self.tombs()[x]);
                    assert(cur.tombs().remove(tk)[x] == cur.tombs()[x]);
                    assert(cur.tombs().contains_key(x)) by {
                        assert(self.tombs().remove(tk).contains_key(x));
                    }
                }
                assert forall|x: Seq<char>|
                    #[trigger] tomb_keys(next.to_set()).contains(x) implies self.tombs()[x].entity_type@
                        == last_with_tomb_key(next, x).0 && self.tombs()[x].key@ == last_with_tomb_key(next, x).1 by {
                    assert(next.drop_last() =~= pre);
                    assert(next.last() == p);
                    if x != tk {
                        assert(tomb_keys(pre.to_set()).insert(tk).contains(x));
                        assert(tomb_keys(pre.to_set()).contains(x));
                        assert(self.tombs().remove(tk)[x] == self.tombs()[x]);
                        assert(cur.tombs().remove(tk)[x] == cur.tombs()[x]);
                        assert(cur.tombs().contains_key(x)) by {
                            assert(self.tombs().dom().contains(x));
                            assert(self.tombs().remove(tk).contains_key(x));
                        }
                    }
                }
                assert forall|x: Seq<char>|
                    #[trigger] tomb_keys(next.to_set()).contains(x) implies self.tombs()[x].deleted_at_ms == now_ms by {
                    if x != tk {
                        assert(tomb_keys(pre.to_set()).insert(tk).contains(x));
                        assert(tomb_keys(pre.to_set()).contains(x));
                        assert(self.tombs().remove(tk)[x] == self.tombs()[x]);
                        assert(cur.tombs().remove(tk)[x] == cur.tombs()[x]);
                    }
                }
                assert(s0.memory_after_evictions(next) == s0.memory_after_evictions(pre).wrapping_sub(
                    record_size(p.0, p.1, s0.record(p.0, p.1)->0.value) as usize));
                assert forall|nm: Seq<char>| #[trigger] self.hash_index().rel(nm) == s0.hash_index().rel(nm) - s0.entries_of(next, true, nm) by {
                    assert(s0.entries_of(next, true, nm) == s0.entries_of(pre, true, nm) + record_entries(p.0, s0.schema_of(p.0), p.1, s0.record(p.0, p.1)->0.value, true, nm));
                    assert(self.hash_index().rel(nm) =~= s0.hash_index().rel(nm) - s0.entries_of(next, true, nm));
                }
                assert forall|nm: Seq<char>| #[trigger] self.sorted_index().rel(nm) == s0.sorted_index().rel(nm) - s0.entries_of(next, false, nm) by {
                    assert(s0.entries_of(next, false, nm) == s0.entries_of(pre, false, nm) + record_entries(p.0, s0.schema_of(p.0), p.1, s0.record(p.0, p.1)->0.value, false, nm));
                    assert(self.sorted_index().rel(nm) =~= s0.sorted_index().rel(nm) - s0.entries_of(next, false, nm));
                }
            }
            j = j + 1;
        }
        proof {
            assert(ps.take(n as int) =~= ps);
        }
    }
}


impl Store {
    /// Removes the tombstones due for removal; tells how many went.
    fn clean_tombstones(&mut self, now_ms: u64, tombstone_ttl_seconds: u64) -> (r: usize)
        requires
            old(self).wf(),
        ensures
            final(self).wf(),
            final(self).cleaned(old(self), now_ms, tombstone_ttl_seconds),
            r == old(self).stale_tombs(now_ms, tombstone_ttl_seconds).len(),
    {
        let ghost s0 = *self;
        let ghost stale = s0.stale_tombs(now_ms, tombstone_ttl_seconds);
        let entries = tombstones_entries(&self.tombstones);
        let ttl_ms = seconds_to_millis(tombstone_ttl_seconds);
        let ghost keys = entries@.map_values(|e: (String, Tombstone)| e.0@);
        let mut doomed: Vec<String> = Vec::new();
        let n = entries.len();
        let mut i: usize = 0;
        while i < n
            invariant
                n == entries@.len(),
                keys == entries@.map_values(|e: (String, Tombstone)| e.0@),
                keys.no_duplicates(),
                keys.to_set() == s0.tombs().dom(),
                forall|q: int| 0 <= q < entries@.len() ==> s0.tombs()[(#[trigger] entries@[q]).0@] == entries@[q].1,
                ttl_ms == millis_of(tombstone_ttl_seconds),
                stale == s0.stale_tombs(now_ms, tombstone_ttl_seconds),
                i <= n,
                strings_view(doomed@).no_duplicates(),
                forall|x: Seq<char>|
                    #[trigger] strings_view(doomed@).contains(x) <==> (stale.contains(x) && exists|q: int|
                        0 <= q < i && keys[q] == x),
            decreases n - i,
        {
            let ghost before = doomed@;
            let ghost x = keys[i as int];
            proof {
                assert(entries@[i as int].0@ == x);
                assert(keys.to_set().contains(x));
            }
            let t = &entries[i].1;
            let due = tombstone_ttl_seconds == 0 || now_ms.saturating_sub(t.deleted_at_ms) > ttl_ms;
            proof {
                assert(due == stale.contains(x));
            }
            if due {
                proof {
                    assert(!strings_view(doomed@).contains(x)) by {
                        if strings_view(doomed@).contains(x) {
                            let q = choose|q: int| 0 <= q < i && keys[q] == x;
                            assert(keys[q] == keys[i as int]);
                        }
                    }
                }
                doomed.push(entries[i].0.clone());
                proof {
                    assert(strings_view(doomed@) =~= strings_view(before).push(x));
                }
            }
            proof {
                assert forall|y: Seq<char>|
                    #[trigger] strings_view(doomed@).contains(y) <==> (stale.contains(y) && exists|q: int|
                        0 <= q < i + 1 && keys[q] == y) by {
                    let in_before = strings_view(before).contains(y);
                    if due {
                        if in_before {
                            let w = choose|w: int| 0 <= w < strings_view(before).len() && strings_view(before)[w] == y;
                            assert(strings_view(doomed@)[w] == y);
                        }
                        if y == x {
                            assert(strings_view(doomed@)[before.len() as int] == y);
                        }
                        if strings_view(doomed@).contains(y) {
                            let w = choose|w: int| 0 <= w < strings_view(doomed@).len() && strings_view(doomed@)[w] == y;
                            if w < before.len() {
                                assert(strings_view(before)[w] == y);
                            }
                        }
                    } else {
                        assert(doomed@ == before);
                    }
                    if y == x {
                        assert(keys[i as int] == y);
                    }
                    if exists|q: int| 0 <= q < i + 1 && keys[q] == y {
                        let q = choose|q: int| 0 <= q < i + 1 && keys[q] == y;
                        if q < i {
                            assert(exists|q2: int| 0 <= q2 < i && keys[q2] == y);
                        }
                    }
                }
            }
            i = i + 1;
        }
        proof {
            assert forall|x: Seq<char>| strings_view(doomed@).to_set().contains(x) <==> stale.contains(x) by {
                if stale.contains(x) {
                    assert(keys.to_set().contains(x));
                    let q = choose|q: int| 0 <= q < keys.len() && keys[q] == x;
                    assert(strings_view(doomed@).contains(x));
                }
            }
            assert(strings_view(doomed@).to_set() =~= stale);
            strings_view(doomed@).unique_seq_to_set();
        }
        let m = doomed.len();
        let mut k: usize = 0;
        while k < m
            invariant
                m == doomed@.len(),
                k <= m,
                s0.wf(),
                self.wf(),
                self.tables == s0.tables,
                self.hash_indexes == s0.hash_indexes,
                self.sorted_indexes == s0.sorted_indexes,
                self.index_defs == s0.index_defs,
                self.memory_bytes == s0.memory_bytes,
                self.max_bytes == s0.max_bytes,
                self.max_entity_bytes == s0.max_entity_bytes,
                self.collection_store == s0.collection_store,
                self.tombs() == s0.tombs().remove_keys(strings_view(doomed@).take(k as int).to_set()),
            decreases m - k,
        {
            let ghost before = self.tombs();
            tombstones_remove(&mut self.tombstones, doomed[k].as_str());
            proof {
                let dv = strings_view(doomed@);
                let d1 = dv.take(k + 1);
                let d0 = dv.take(k as int);
                assert forall|x: Seq<char>| d1.to_set().contains(x) <==> d0.to_set().insert(dv[k as int]).contains(x) by {
                    if d1.contains(x) {
                        let w = choose|w: int| 0 <= w < d1.len() && #[trigger] d1[w] == x;
                        if w < k {
                            assert(d0[w] == x);
                        }
                    }
                    if d0.contains(x) {
                        let w = choose|w: int| 0 <= w < d0.len() && #[trigger] d0[w] == x;
                        assert(d1[w] == x);
                    }
                    if x == dv[k as int] {
                        assert(d1[k as int] == x);
                    }
                }
                assert(d1.to_set() =~= d0.to_set().insert(dv[k as int]));
                assert(self.tombs() =~= s0.tombs().remove_keys(dv.take(k + 1).to_set()));
            }
            k = k + 1;
        }
        proof {
            assert(strings_view(doomed@).take(m as int) =~= strings_view(doomed@));
            assert(self.same_shape(&s0)) by {
                assert(self.meta_names() =~= s0.meta_names());
            }
        }
        m
    }

    /// What trimming, at `now`, the expired items of every collection with
    /// a time to live leaves, `total` items going; the rest is as in
    /// `before`.
    pub open spec fn collections_trimmed(&self, before: &Self, now: u64, total: int) -> bool {
        &&& self.same_but_collections(before)
        &&& self.collections().all_expired_trimmed_at(&before.collections(), now, total)
    }

    /// A retention pass at time `now_ms`: deletes every record that has
    /// expired (each delete stamping its tombstone with that time), removes
    /// the tombstones due for removal, then trims from every collection with
    /// a time to live the items older than it.
    pub fn sweep_retention(&mut self, now_ms: u64, tombstone_ttl_seconds: u64) -> (r: RetentionSweepResult)
        requires
            old(self).wf(),
        ensures
            final(self).wf(),
            r.evicted_entities == old(self).expired_keys(now_ms).len(),
            exists|mid: Store, swept: Store, order: Seq<IndexPair>|
                {
                    &&& order.no_duplicates()
                    &&& order.to_set() == old(self).expired_keys(now_ms)
                    &&& mid.evicted_along(old(self), order)
                    &&& mid.evictions_stamped(order, now_ms)
                    &&& swept.cleaned(&mid, now_ms, tombstone_ttl_seconds)
                    &&& r.cleaned_tombstones == mid.stale_tombs(now_ms, tombstone_ttl_seconds).len()
                    &&& final(self).collections_trimmed(&swept, now_ms, r.trimmed_collection_items as int)
                },            old(self).kept() ==> final(self).kept(),
    {
        let ghost start = *self;
        let expired = self.collect_expired(now_ms);
        proof {
            pairs_view(expired@).unique_seq_to_set();
        }
        self.evict_all(&expired, now_ms);
        let ghost mid = *self;
        let cleaned = self.clean_tombstones(now_ms, tombstone_ttl_seconds);
        let ghost swept = *self;
        let trimmed = self.collection_store.trim_all_expired_at(now_ms);
        proof {
            assert(pairs_view(expired@).no_duplicates());
            assert(self.collections_trimmed(&swept, now_ms, trimmed as int));
            if start.kept() {
                lemma_kept_sweep(*self, swept, mid, start, pairs_view(expired@), now_ms, tombstone_ttl_seconds, trimmed as int);
            }
        }
        RetentionSweepResult {
            evicted_entities: expired.len(),
            cleaned_tombstones: cleaned,
            trimmed_collection_items: trimmed,
        }
    }
}


/// Why a batch of operations stopped.
#[derive(Debug)]
pub enum ApplyOpsError {
    /// An entity write or delete was refused.
    Store(StoreError),
    /// A collection push or removal was refused.
    Collection(CollectionStoreError),
    /// A push came without a value.
    MissingPushValue,
    /// A push gave no item id, and its value none either.
    MissingPushItemId,
    /// An item removal gave no item id, and its value none either.
    MissingRemoveItemId,
}

/// The text of a batch's error.
pub open spec fn apply_error_text(e: ApplyOpsError) -> Seq<char> {
    match e {
        ApplyOpsError::Store(s) => store_error_text(s),
        ApplyOpsError::Collection(c) => collection_error_text(c),
        ApplyOpsError::MissingPushValue => "push op requires a value payload"@,
        ApplyOpsError::MissingPushItemId => "push op requires item_id or value.id"@,
        ApplyOpsError::MissingRemoveItemId => "remove_item op requires item_id"@,
    }
}

impl ApplyOpsError {
    /// The error's text.
    pub fn message(&self) -> (r: String)
        ensures
            r@ == apply_error_text(*self),
    {
        match self {
            ApplyOpsError::Store(s) => s.message(),
            ApplyOpsError::Collection(c) => c.message(),
            ApplyOpsError::MissingPushValue => String::from_str("push op requires a value payload"),
            ApplyOpsError::MissingPushItemId => String::from_str("push op requires item_id or value.id"),
            ApplyOpsError::MissingRemoveItemId => String::from_str("remove_item op requires item_id"),
        }
    }
}

/// The item id of a pushed value: the operation's `item_id` when not empty,
/// else the value's string `id` when not empty, else its integer `post_id`
/// in decimal.
pub open spec fn push_item_id(op_item_id: Option<String>, value: JsonValue) -> Option<Seq<char>> {
    if op_item_id is Some && op_item_id->0@.len() > 0 {
        Some(op_item_id->0@)
    } else if json_get(value, "id"@) is Some && json_as_str(json_get(value, "id"@)->0) is Some
        && json_as_str(json_get(value, "id"@)->0)->0.len() > 0 {
        json_as_str(json_get(value, "id"@)->0)
    } else if json_get(value, "post_id"@) is Some && json_as_i64(json_get(value, "post_id"@)->0) is Some {
        Some(signed_decimal_seq(json_as_i64(json_get(value, "post_id"@)->0)->0 as int))
    } else {
        None
    }
}

/// The item id of a removal: the operation's `item_id` (even empty), else
/// its value's string `id`.
pub open spec fn remove_item_id(op_item_id: Option<String>, value: Option<JsonValue>) -> Option<Seq<char>> {
    if op_item_id is Some {
        Some(op_item_id->0@)
    } else if value is Some && json_get(value->0, "id"@) is Some {
        json_as_str(json_get(value->0, "id"@)->0)
    } else {
        None
    }
}

/// The item id that a push uses (see `push_item_id`).
pub fn extract_collection_item_id(op: &StoreOp, value: &JsonValue) -> (r: Option<String>)
    ensures
        crate::text::opt_str_of(r) == push_item_id(op.item_id, *value),
{
    match &op.item_id {
        Some(id) => {
            if id.as_str().unicode_len() > 0 {
                return Some(id.clone());
            }
        },
        None => {},
    }
    match value.get("id") {
        Some(v) => match v.as_str() {
            Some(s) => {
                if s.as_str().unicode_len() > 0 {
                    return Some(s.clone());
                }
            },
            None => {},
        },
        None => {},
    }
    match value.get("post_id") {
        Some(v) => match v.as_i64() {
            Some(n) => Some(i64_decimal(n)),
            None => None,
        },
        None => None,
    }
}

/// The item id that a removal uses (see `remove_item_id`).
fn removal_item_id(op: &StoreOp) -> (r: Option<String>)
    ensures
        crate::text::opt_str_of(r) == remove_item_id(op.item_id, op.value),
{
    match &op.item_id {
        Some(id) => Some(id.clone()),
        None => match &op.value {
            Some(v) => match v.get("id") {
                Some(x) => match x.as_str() {
                    Some(s) => Some(s.clone()),
                    None => None,
                },
                None => None,
            },
            None => None,
        },
    }
}

/// What an entity write leaves and answers (see `Store::upsert_at`).
pub open spec fn upsert_effect(
    after: Store,
    before: Store,
    t: Seq<char>,
    key: Seq<char>,
    value: JsonValue,
    res: Result<(), ApplyOpsError>,
) -> bool {
    if !before.has_entity(t) {
        (res matches Err(ApplyOpsError::Store(StoreError::UnknownEntity(n))) && n@ == t) && after == before
    } else if before.too_large(t, key, value) {
        res matches Err(ApplyOpsError::Store(StoreError::EntityTooLarge)) && after == before
    } else if before.over_limit(t, key, value) {
        res matches Err(ApplyOpsError::Store(StoreError::HardMemoryLimitExceeded)) && after == before
    } else {
        res is Ok && exists|now: u64| after.written(&before, t, key, value, now)
    }
}

/// What an entity delete leaves and answers (see `Store::delete_at`).
pub open spec fn delete_effect(after: Store, before: Store, t: Seq<char>, key: Seq<char>, res: Result<
    (),
    ApplyOpsError,
>) -> bool {
    if !before.has_entity(t) {
        (res matches Err(ApplyOpsError::Store(StoreError::UnknownEntity(n))) && n@ == t) && after == before
    } else if before.record(t, key) is None {
        res is Ok && after.same_view(&before)
    } else {
        res is Ok && exists|now: u64| after.removed(&before, t, key, now)
    }
}

/// What a collection push leaves and answers (see `CollectionStore::push_at`).
pub open spec fn push_effect(
    after: Store,
    before: Store,
    name: Seq<char>,
    partition: Seq<char>,
    id: Seq<char>,
    value: JsonValue,
    res: Result<(), ApplyOpsError>,
) -> bool {
    if blank(id) {
        res matches Err(ApplyOpsError::Collection(CollectionStoreError::EmptyItemId)) && after == before
    } else if !before.collections().has(name) {
        (res matches Err(ApplyOpsError::Collection(CollectionStoreError::UnknownCollection(n))) && n@
            == name) && after == before
    } else {
        &&& res is Ok
        &&& after.same_but_collections(&before)
        &&& exists|now: u64|
            after.collections().pushed_into(&before.collections(), name, partition, id, value, now)
    }
}

/// What a collection item removal leaves and answers (see
/// `CollectionStore::remove`).
pub open spec fn remove_effect(
    after: Store,
    before: Store,
    name: Seq<char>,
    partition: Seq<char>,
    id: Seq<char>,
    res: Result<(), ApplyOpsError>,
) -> bool {
    if !before.collections().has(name) {
        (res matches Err(ApplyOpsError::Collection(CollectionStoreError::UnknownCollection(n))) && n@
            == name) && after == before
    } else {
        &&& res is Ok
        &&& after.same_but_collections(&before)
        &&& exists|found: bool|
            after.collections().removed_from(&before.collections(), name, partition, id, found)
    }
}

/// What one operation leaves and answers.
pub open spec fn op_effect(after: Store, before: Store, op: StoreOp, res: Result<(), ApplyOpsError>) -> bool {
    let t = op.entity_type@;
    let key = op.key@;
    match op.op {
        StoreOpKind::Upsert => match op.value {
            None => res is Ok && after == before,
            Some(v) => upsert_effect(after, before, t, key, v, res),
        },
        StoreOpKind::Delete => delete_effect(after, before, t, key, res),
        StoreOpKind::Push => match op.value {
            None => res matches Err(ApplyOpsError::MissingPushValue) && after == before,
            Some(v) => match push_item_id(op.item_id, v) {
                None => res matches Err(ApplyOpsError::MissingPushItemId) && after == before,
                Some(id) => push_effect(after, before, t, key, id, v, res),
            },
        },
        StoreOpKind::RemoveItem => match remove_item_id(op.item_id, op.value) {
            None => res matches Err(ApplyOpsError::MissingRemoveItemId) && after == before,
            Some(id) => remove_effect(after, before, t, key, id, res),
        },
    }
}

/// Whether the estimates of an operation's writes fit in a `usize`.
pub open spec fn op_fits(op: StoreOp) -> bool {
    match op.value {
        Some(v) => {
            &&& record_fits(op.entity_type@, op.key@, v)
            &&& (push_item_id(op.item_id, v) matches Some(id) ==> item_fits(op.key@, id, v))
        },
        None => true,
    }
}

/// Whether `states` traces a batch: each applied operation succeeded and
/// led from one state to the next; when `res` is an error, the operation
/// after the last state failed with it and changed nothing.
pub open spec fn ops_trace(states: Seq<Store>, ops: Seq<StoreOp>, res: Result<(), ApplyOpsError>) -> bool {
    let k = states.len() - 1;
    &&& 1 <= states.len() <= ops.len() + 1
    &&& forall|j: int| 0 <= j < states.len() ==> (#[trigger] states[j]).wf()
    &&& forall|j: int|
        0 <= j < k ==> op_effect(#[trigger] states[j + 1], states[j], ops[j], Ok(()))
    &&& res is Ok ==> k == ops.len()
    &&& res is Err ==> k < ops.len() && op_effect(states[k], states[k], ops[k], res)
}

impl Store {
    /// Whether the batch `ops` led from `before` to this store with outcome
    /// `res`.
    pub open spec fn applied(&self, before: &Self, ops: Seq<StoreOp>, res: Result<(), ApplyOpsError>) -> bool {
        exists|states: Seq<Store>|
            {
                &&& ops_trace(states, ops, res)
                &&& states[0] == *before
                &&& states.last() == *self
            }
    }

    /// Applies one operation.
    fn apply_op(&mut self, op: StoreOp) -> (r: Result<(), ApplyOpsError>)
        requires
            old(self).wf(),
            op_fits(op),
        ensures
            final(self).wf(),
            op_effect(*final(self), *old(self), op, r),
            r is Err ==> *final(self) == *old(self),
    {
        let ghost before = *self;
        let ghost op0 = op;
        let StoreOp { op: kind, entity_type, key, item_id, value } = op;
        let res = match kind {
            StoreOpKind::Upsert => match value {
                None => Ok(()),
                Some(v) => {
                    let r = self.upsert(entity_type.as_str(), key.as_str(), v);
                    let res = match r {
                        Ok(()) => Ok(()),
                        Err(e) => Err(ApplyOpsError::Store(e)),
                    };
                    assert(upsert_effect(*self, before, entity_type@, key@, op0.value->0, res));
                    res
                },
            },
            StoreOpKind::Delete => {
                let r = self.delete(entity_type.as_str(), key.as_str());
                let res = match r {
                    Ok(()) => Ok(()),
                    Err(e) => Err(ApplyOpsError::Store(e)),
                };
                assert(delete_effect(*self, before, entity_type@, key@, res));
                res
            },
            StoreOpKind::Push => match value {
                None => Err(ApplyOpsError::MissingPushValue),
                Some(v) => {
                    let probe = StoreOp {
                        op: kind,
                        entity_type: String::new(),
                        key: String::new(),
                        item_id,
                        value: None,
                    };
                    match extract_collection_item_id(&probe, &v) {
                        None => Err(ApplyOpsError::MissingPushItemId),
                        Some(id) => {
                            let r = self.collection_store.push(entity_type.as_str(), key.as_str(), id.as_str(), v);
                            let res = match r {
                                Ok(()) => Ok(()),
                                Err(e) => Err(ApplyOpsError::Collection(e)),
                            };
                            assert(self.same_but_collections(&before));
                            assert(self.collections() == self.collection_store);
                            assert(before.collections() == before.collection_store);
                            proof {
                                if blank(id@) {
                                    assert(self.collection_store == before.collection_store);
                                    assert(*self == before);
                                } else if !before.collections().has(entity_type@) {
                                    assert(*self == before);
                                } else {
                                    assert(res is Ok);
                                    assert(exists|now: u64| self.collections().pushed_into(&before.collections(), entity_type@, key@, id@, op0.value->0, now));
                                }
                            }
                            assert(push_effect(*self, before, entity_type@, key@, id@, op0.value->0, res));
                            res
                        },
                    }
                },
            },
            StoreOpKind::RemoveItem => {
                let probe = StoreOp { op: kind, entity_type: String::new(), key: String::new(), item_id, value };
                match removal_item_id(&probe) {
                    None => Err(ApplyOpsError::MissingRemoveItemId),
                    Some(id) => {
                        let r = self.collection_store.remove(entity_type.as_str(), key.as_str(), id.as_str());
                        proof {
                            assert(self.collections() == self.collection_store);
                            assert(before.collections() == before.collection_store);
                            if before.collections().has(entity_type@) {
                                let f = r->Ok_0;
                                assert(self.collections().removed_from(&before.collections(), entity_type@, key@, id@, f));
                            } else {
                                assert(*self == before);
                            }
                        }
                        let res = match r {
                            Ok(_) => Ok(()),
                            Err(e) => Err(ApplyOpsError::Collection(e)),
                        };
                        assert(self.same_but_collections(&before));
                        assert(remove_effect(*self, before, entity_type@, key@, id@, res));
                        res
                    },
                }
            },
        };
        res
    }
}


impl Store {
    /// Applies a batch of operations in order, stopping at the first that
    /// fails; the operations before it stay applied.
    pub fn apply_ops(&mut self, ops: Vec<StoreOp>) -> (r: Result<(), ApplyOpsError>)
        requires
            old(self).wf(),
            forall|i: int| 0 <= i < ops@.len() ==> op_fits(#[trigger] ops@[i]),
        ensures
            final(self).wf(),
            final(self).applied(old(self), ops@, r),
            old(self).kept() && (old(self).max_bytes() > 0 || old(self).memory() + ops_written_size(ops@)
                <= usize::MAX) ==> final(self).kept(),
    {
        let ghost start = *self;
        let ghost all = ops@;
        let ghost mut states: Seq<Store> = seq![*self];
        let mut rest = ops;
        let n = rest.len();
        let mut i: usize = 0;
        let mut result: Result<(), ApplyOpsError> = Ok(());
        while i < n && result.is_ok()
            invariant
                n == all.len(),
                i <= n,
                rest@ == all.skip(i as int),
                forall|q: int| 0 <= q < all.len() ==> op_fits(#[trigger] all[q]),
                self.wf(),
                states[0] == *old(self),
                states.last() == *self,
                forall|j: int| 0 <= j < states.len() ==> (#[trigger] states[j]).wf(),
                result is Ok ==> states.len() == i + 1,
                result is Ok ==> forall|j: int| 0 <= j < i ==> op_effect(#[trigger] states[j + 1], states[j], all[j], Ok(())),
                result is Err ==> ops_trace(states, all, result),
            decreases n - i,
        {
            assert(rest@[0] == all[i as int]);
            let op = rest.remove(0);
            let r = self.apply_op(op);
            if r.is_err() {
                proof {
                    assert(ops_trace(states, all, r));
                }
                result = r;
            } else {
                proof {
                    let prev = states;
                    states = states.push(*self);
                    assert forall|j: int| 0 <= j < i + 1 implies op_effect(#[trigger] states[j + 1], states[j], all[j], Ok(())) by {
                        if j < i {
                            assert(states[j + 1] == prev[j + 1]);
                            assert(states[j] == prev[j]);
                        }
                    }
                }
            }
            assert(rest@ =~= all.skip(i + 1));
            i = i + 1;
        }
        proof {
            if result is Ok {
                assert(ops_trace(states, all, result));
            }
            assert(self.applied(old(self), all, result));
            if start.kept() && (start.max_bytes() > 0 || start.memory() + ops_written_size(all) <= usize::MAX) {
                lemma_kept_batch(*self, start, all, result);
            }
        }
        result
    }
}


/// The names of a list of named counts, in order.
pub open spec fn entry_names(r: Seq<(String, usize)>) -> Seq<Seq<char>> {
    r.map_values(|e: (String, usize)| e.0@)
}

impl Store {
    /// The number of records of each entity type, each type once.
    pub fn snapshot_entity_counts(&self) -> (r: Vec<(String, usize)>)
        requires
            self.wf(),
        ensures
            entry_names(r@).no_duplicates(),
            forall|t: Seq<char>|
                #[trigger] entry_names(r@).contains(t) == self.has_entity(t),
            forall|i: int| 0 <= i < r@.len() ==> (#[trigger] r@[i]).1 == self.records(r@[i].0@).len(),
    {
        let n = self.tables.len();
        let mut out: Vec<(String, usize)> = Vec::new();
        let mut i: usize = 0;
        while i < n
            invariant
                self.wf(),
                n == self.tables@.len(),
                i <= n,
                out@.len() == i,
                forall|j: int| 0 <= j < i ==> (#[trigger] out@[j]).0@ == self.tables@[j].name@,
                forall|j: int| 0 <= j < i ==> (#[trigger] out@[j]).1 == self.records(out@[j].0@).len(),
            decreases n - i,
        {
            proof {
                self.lemma_table_at(i as int);
            }
            out.push((self.tables[i].name.clone(), records_len(&self.tables[i].records)));
            i = i + 1;
        }
        proof {
            let names = entry_names(out@);
            assert forall|a: int, b: int| 0 <= a < b < names.len() implies names[a] != names[b] by {
                assert(names[a] == self.tables@[a].name@);
                assert(names[b] == self.tables@[b].name@);
            }
            assert forall|t: Seq<char>| #[trigger] names.contains(t) == self.has_entity(t) by {
                if names.contains(t) {
                    let a = choose|a: int| 0 <= a < names.len() && names[a] == t;
                    assert(self.tables@[a].name@ == t);
                }
                if self.has_entity(t) {
                    let a = choose|a: int| 0 <= a < self.tables@.len() && self.tables@[a].name@ == t;
                    assert(names[a] == t);
                }
            }
        }
        out
    }

    /// The number of entries of each index, each name once; where a hash and
    /// a sorted index share a name, the sorted one's count stands.
    pub fn snapshot_index_sizes(&self) -> (r: Vec<(String, usize)>)
        requires
            self.wf(),
        ensures
            entry_names(r@).no_duplicates(),
            forall|n: Seq<char>|
                #[trigger] entry_names(r@).contains(n) == (
                self.hash_index().view().names.contains(n) || self.sorted_index().view().names.contains(
                    n,
                )),
            forall|i: int|
                0 <= i < r@.len() ==> (#[trigger] r@[i]).1 == if self.sorted_index().view().names.contains(
                    r@[i].0@,
                ) {
                    self.sorted_index().list(r@[i].0@).len()
                } else {
                    self.hash_index().list(r@[i].0@).len()
                },
    {
        let mut out = self.sorted_indexes.sizes();
        let hash = self.hash_indexes.sizes();
        let ghost sorted_part = out@;
        let n = hash.len();
        let mut i: usize = 0;
        let ghost hn = entry_names(hash@);
        proof {
            self.sorted_indexes.lemma_sorted(Seq::empty());
            assert forall|q: int| 0 <= q < out@.len() implies self.sorted_indexes.view().names.contains(#[trigger] out@[q].0@) by {
                assert(entry_names(out@)[q] == out@[q].0@);
                assert(entry_names(out@).to_set().contains(out@[q].0@));
            }
            assert forall|mm: Seq<char>| #[trigger] entry_names(out@).contains(mm) == self.sorted_indexes.view().names.contains(mm) by {
                assert(entry_names(out@).to_set().contains(mm) == entry_names(out@).contains(mm));
            }
        }
        while i < n
            invariant
                self.wf(),
                n == hash@.len(),
                hn == entry_names(hash@),
                hn.no_duplicates(),
                hn.to_set() == self.hash_indexes.view().names,
                forall|q: int| 0 <= q < hash@.len() ==> (#[trigger] hash@[q]).1 == self.hash_indexes.list(hash@[q].0@).len(),
                i <= n,
                entry_names(out@).no_duplicates(),
                forall|m: Seq<char>|
                    #[trigger] entry_names(out@).contains(m) == (
                    self.sorted_indexes.view().names.contains(m) || exists|q: int| 0 <= q < i && hn[q] == m),
                forall|q: int|
                    0 <= q < out@.len() ==> (#[trigger] out@[q]).1 == if self.sorted_indexes.view().names.contains(out@[q].0@) {
                        self.sorted_indexes.list(out@[q].0@).len()
                    } else {
                        self.hash_indexes.list(out@[q].0@).len()
                    },
            decreases n - i,
        {
            let ghost before = out@;
            let ghost bn = entry_names(before);
            let ghost name = hn[i as int];
            assert(hash@[i as int].0@ == name);
            let mut k: usize = 0;
            let m = out.len();
            let mut seen = false;
            while k < m
                invariant
                    m == out@.len(),
                    k <= m,
                    i < n,
                    n == hash@.len(),
                    hash@[i as int].0@ == name,
                    seen == exists|q: int| 0 <= q < k && out@[q].0@ == name,
                decreases m - k,
            {
                if str_equal(out[k].0.as_str(), hash[i].0.as_str()) {
                    seen = true;
                }
                k = k + 1;
            }
            assert(seen == bn.contains(name)) by {
                if seen {
                    let q = choose|q: int| 0 <= q < m && out@[q].0@ == name;
                    assert(bn[q] == name);
                }
                if bn.contains(name) {
                    let q = choose|q: int| 0 <= q < bn.len() && bn[q] == name;
                    assert(out@[q].0@ == name);
                }
            }
            if !seen {
                proof {
                    assert(!self.sorted_indexes.view().names.contains(name));
                }
                out.push((hash[i].0.clone(), hash[i].1));
                proof {
                    let an = entry_names(out@);
                    assert(an =~= bn.push(name));
                }
            }
            proof {
                let an = entry_names(out@);
                assert forall|mm: Seq<char>|
                    #[trigger] an.contains(mm) == (self.sorted_indexes.view().names.contains(mm) || exists|q: int|
                        0 <= q < i + 1 && hn[q] == mm) by {
                    if exists|q: int| 0 <= q < i + 1 && hn[q] == mm {
                        let q = choose|q: int| 0 <= q < i + 1 && hn[q] == mm;
                        if q == i {
                            if seen {
                                assert(bn.contains(mm));
                                let w = choose|w: int| 0 <= w < bn.len() && bn[w] == mm;
                                assert(an[w] == mm);
                            } else {
                                assert(an[bn.len() as int] == mm);
                            }
                        } else {
                            assert(exists|q2: int| 0 <= q2 < i && hn[q2] == mm);
                        }
                    }
                    if seen {
                        assert(an == bn);
                    } else {
                        if an.contains(mm) {
                            let w = choose|w: int| 0 <= w < an.len() && an[w] == mm;
                            if w < bn.len() {
                                assert(bn[w] == mm);
                            } else {
                                assert(hn[i as int] == mm);
                            }
                        }
                        if bn.contains(mm) {
                            let w = choose|w: int| 0 <= w < bn.len() && bn[w] == mm;
                            assert(an[w] == mm);
                        }
                    }
                }
            }
            i = i + 1;
        }
        proof {
            let an = entry_names(out@);
            assert forall|mm: Seq<char>|
                #[trigger] an.contains(mm) == (self.hash_index().view().names.contains(mm) || self.sorted_index().view().names.contains(mm)) by {
                if self.hash_indexes.view().names.contains(mm) {
                    assert(hn.to_set().contains(mm));
                    let q = choose|q: int| 0 <= q < hn.len() && hn[q] == mm;
                }
                if exists|q: int| 0 <= q < n && hn[q] == mm {
                    let q = choose|q: int| 0 <= q < n && hn[q] == mm;
                    assert(hn.contains(mm));
                    assert(hn.to_set().contains(mm));
                }
            }
        }
        out
    }

    /// Every tombstone, each once, in the map's own order.
    pub fn list_tombstones(&self) -> (r: Vec<Tombstone>)
        requires
            self.wf(),
        ensures
            exists|keys: Seq<Seq<char>>|
                {
                    &&& keys.no_duplicates()
                    &&& keys.to_set() == self.tombs().dom()
                    &&& keys.len() == r@.len()
                    &&& forall|i: int| 0 <= i < r@.len() ==> r@[i] == self.tombs()[#[trigger] keys[i]]
                },
    {
        let entries = tombstones_entries(&self.tombstones);
        let ghost keys = entries@.map_values(|e: (String, Tombstone)| e.0@);
        let n = entries.len();
        let mut out: Vec<Tombstone> = Vec::new();
        let mut i: usize = 0;
        while i < n
            invariant
                n == entries@.len(),
                keys == entries@.map_values(|e: (String, Tombstone)| e.0@),
                forall|q: int| 0 <= q < entries@.len() ==> self.tombs()[(#[trigger] entries@[q]).0@] == entries@[q].1,
                i <= n,
                out@.len() == i,
                forall|q: int| 0 <= q < i ==> out@[q] == self.tombs()[#[trigger] keys[q]],
            decreases n - i,
        {
            let t = Tombstone {
                entity_type: entries[i].1.entity_type.clone(),
                key: entries[i].1.key.clone(),
                deleted_at_ms: entries[i].1.deleted_at_ms,
            };
            assert(keys[i as int] == entries@[i as int].0@);
            out.push(t);
            i = i + 1;
        }
        out
    }
}


impl Store {
    /// The number of items of each collection (see
    /// `CollectionStore::snapshot_collection_sizes`).
    pub fn snapshot_collection_sizes(&self) -> (r: Vec<(String, usize)>)
        requires
            self.wf(),
        ensures
            entry_names(r@).no_duplicates(),
            forall|c: Seq<char>| #[trigger] entry_names(r@).contains(c) == self.collections().has(c),
            forall|i: int| 0 <= i < r@.len() ==> self.collections().counted((#[trigger] r@[i]).0@, r@[i].1 as int),
    {
        self.collection_store.snapshot_collection_sizes()
    }
}


impl Store {
    /// The entries that the stored records give the hash (`hash`) or sorted
    /// index named `n`.
    pub open spec fn stored_entries(&self, hash: bool, n: Seq<char>) -> Set<IndexPair> {
        Set::new(
            |p: IndexPair|
                exists|t: Seq<char>|
                    #[trigger] self.record(t, p.1) is Some && record_entries(
                        t,
                        self.schema_of(t),
                        p.1,
                        self.record(t, p.1)->0.value,
                        hash,
                        n,
                    ).contains(p),
        )
    }

    /// Every index holds exactly the entries of the stored records.
    pub open spec fn indexed(&self) -> bool {
        &&& forall|n: Seq<char>| #[trigger] self.hash_index().rel(n) == self.stored_entries(true, n)
        &&& forall|n: Seq<char>| #[trigger] self.sorted_index().rel(n) == self.stored_entries(false, n)
    }

    /// No two entity types keep an index under the same store name.
    pub open spec fn index_names_distinct(&self) -> bool {
        forall|t1: Seq<char>, t2: Seq<char>, j1: int, j2: int|
            self.has_entity(t1) && self.has_entity(t2) && t1 != t2 && 0 <= j1 < self.schema_of(
                t1,
            ).indexes@.len() && 0 <= j2 < self.schema_of(t2).indexes@.len() ==> #[trigger] internal_name(
                t1,
                self.schema_of(t1).indexes@[j1].name@,
            ) != #[trigger] internal_name(t2, self.schema_of(t2).indexes@[j2].name@)
    }

    /// A record's entry in an index names one of its entity's indexes.
    proof fn lemma_entry_names_index(&self, t: Seq<char>, k: Seq<char>, v: JsonValue, hash: bool, n: Seq<char>, p: IndexPair)
        requires
            record_entries(t, self.schema_of(t), k, v, hash, n).contains(p),
        ensures
            p.1 == k,
            exists|j: int|
                0 <= j < self.schema_of(t).indexes@.len() && #[trigger] internal_name(
                    t,
                    self.schema_of(t).indexes@[j].name@,
                ) == n,
    {
        let sch = self.schema_of(t);
        let j = choose|j: int|
            0 <= j < sch.indexes@.len() && j < sch.indexes@.len() && is_hash_kind(#[trigger] sch.indexes@[j].kind)
                == hash && internal_name(t, sch.indexes@[j].name@) == n && index_key(
                json_get(v, sch.indexes@[j].field@),
            ) == Some(p.0);
        assert(internal_name(t, self.schema_of(t).indexes@[j].name@) == n);
    }
}

/// A store made for a schema has empty indexes and no record, so its
/// indexes hold exactly the entries of its records.
pub proof fn law_fresh_store_indexed(s: Store)
    requires
        forall|t: Seq<char>, k: Seq<char>| #[trigger] s.record(t, k) is None,
        forall|n: Seq<char>| #[trigger] s.hash_index().list(n) == Seq::<IndexPair>::empty(),
        forall|n: Seq<char>| #[trigger] s.sorted_index().list(n) == Seq::<IndexPair>::empty(),
    ensures
        s.indexed(),
{
    assert forall|n: Seq<char>| #[trigger] s.hash_index().rel(n) == s.stored_entries(true, n) by {
        assert(s.hash_index().list(n).to_set() =~= Set::<IndexPair>::empty());
        assert(s.stored_entries(true, n) =~= Set::<IndexPair>::empty());
    }
    assert forall|n: Seq<char>| #[trigger] s.sorted_index().rel(n) == s.stored_entries(false, n) by {
        assert(s.sorted_index().list(n).to_set() =~= Set::<IndexPair>::empty());
        assert(s.stored_entries(false, n) =~= Set::<IndexPair>::empty());
    }
}

proof fn lemma_write_entries(s1: Store, s0: Store, t: Seq<char>, k: Seq<char>, v: JsonValue, now: u64, hash: bool, n: Seq<char>)
    requires
        s0.wf(),
        s0.index_names_distinct(),
        s1.written(&s0, t, k, v, now),
        (if hash { s0.hash_index().rel(n) } else { s0.sorted_index().rel(n) }) == s0.stored_entries(hash, n),
    ensures
        (if hash { s1.hash_index().rel(n) } else { s1.sorted_index().rel(n) }) == s1.stored_entries(hash, n),
{
    let rel0 = if hash { s0.hash_index().rel(n) } else { s0.sorted_index().rel(n) };
    let rel1 = if hash { s1.hash_index().rel(n) } else { s1.sorted_index().rel(n) };
    let sch = s0.schema_of(t);
    let held = s0.record(t, k);
    assert(rel1 == rel0 - held_entries(held, t, sch, k, hash, n) + record_entries(t, sch, k, v, hash, n));
    assert(s1.record(t, k) is Some && s1.record(t, k)->0.value == v);
    assert forall|p: IndexPair| rel1.contains(p) <==> s1.stored_entries(hash, n).contains(p) by {
        if record_entries(t, sch, k, v, hash, n).contains(p) {
            s0.lemma_entry_names_index(t, k, v, hash, n, p);
            assert(s1.record(t, p.1) is Some);
            assert(s1.schema_of(t) == sch);
        }
        if rel0.contains(p) && !held_entries(held, t, sch, k, hash, n).contains(p) {
            let t2 = choose|t2: Seq<char>|
                #[trigger] s0.record(t2, p.1) is Some && record_entries(t2, s0.schema_of(t2), p.1, s0.record(t2, p.1)->0.value, hash, n).contains(p);
            if t2 == t && p.1 == k {
                assert(held_entries(held, t, sch, k, hash, n).contains(p));
            } else {
                assert(s1.record(t2, p.1) == s0.record(t2, p.1));
                assert(s1.schema_of(t2) == s0.schema_of(t2));
            }
        }
        if s1.stored_entries(hash, n).contains(p) {
            let t2 = choose|t2: Seq<char>|
                #[trigger] s1.record(t2, p.1) is Some && record_entries(t2, s1.schema_of(t2), p.1, s1.record(t2, p.1)->0.value, hash, n).contains(p);
            assert(s1.schema_of(t2) == s0.schema_of(t2));
            if t2 == t && p.1 == k {
                assert(record_entries(t, sch, k, v, hash, n).contains(p));
            } else {
                assert(s1.record(t2, p.1) == s0.record(t2, p.1));
                assert(s0.stored_entries(hash, n).contains(p));
                if held_entries(held, t, sch, k, hash, n).contains(p) {
                    s0.lemma_entry_names_index(t, k, held->0.value, hash, n, p);
                    s0.lemma_entry_names_index(t2, p.1, s0.record(t2, p.1)->0.value, hash, n, p);
                    assert(t2 != t);
                    assert(s0.has_entity(t2));
                    assert(s0.has_entity(t));
                    let j1 = choose|j: int| 0 <= j < s0.schema_of(t).indexes@.len() && #[trigger] internal_name(t, s0.schema_of(t).indexes@[j].name@) == n;
                    let j2 = choose|j: int| 0 <= j < s0.schema_of(t2).indexes@.len() && #[trigger] internal_name(t2, s0.schema_of(t2).indexes@[j].name@) == n;
                    assert(internal_name(t, s0.schema_of(t).indexes@[j1].name@) != internal_name(t2, s0.schema_of(t2).indexes@[j2].name@));
                }
            }
        }
    }
    assert(rel1 =~= s1.stored_entries(hash, n));
}

/// A write keeps every index exactly in step with the records, where no
/// two entity types share an index's store name: the written record's old
/// entries leave, its new ones come in, nothing else moves.
pub proof fn law_write_keeps_indexes(s1: Store, s0: Store, t: Seq<char>, k: Seq<char>, v: JsonValue, now: u64)
    requires
        s0.wf(),
        s0.indexed(),
        s0.index_names_distinct(),
        s1.written(&s0, t, k, v, now),
    ensures
        s1.indexed(),
        s1.index_names_distinct(),
{
    assert forall|n: Seq<char>| #[trigger] s1.hash_index().rel(n) == s1.stored_entries(true, n) by {
        lemma_write_entries(s1, s0, t, k, v, now, true, n);
    }
    assert forall|n: Seq<char>| #[trigger] s1.sorted_index().rel(n) == s1.stored_entries(false, n) by {
        lemma_write_entries(s1, s0, t, k, v, now, false, n);
    }
}


proof fn lemma_names_clash(s0: Store, t: Seq<char>, t2: Seq<char>, k: Seq<char>, k2: Seq<char>, v: JsonValue, v2: JsonValue, hash: bool, n: Seq<char>, p: IndexPair)
    requires
        s0.index_names_distinct(),
        s0.has_entity(t),
        s0.has_entity(t2),
        record_entries(t, s0.schema_of(t), k, v, hash, n).contains(p),
        record_entries(t2, s0.schema_of(t2), k2, v2, hash, n).contains(p),
    ensures
        t == t2,
        k == k2,
{
    s0.lemma_entry_names_index(t, k, v, hash, n, p);
    s0.lemma_entry_names_index(t2, k2, v2, hash, n, p);
    if t != t2 {
        let j1 = choose|j: int| 0 <= j < s0.schema_of(t).indexes@.len() && #[trigger] internal_name(t, s0.schema_of(t).indexes@[j].name@) == n;
        let j2 = choose|j: int| 0 <= j < s0.schema_of(t2).indexes@.len() && #[trigger] internal_name(t2, s0.schema_of(t2).indexes@[j].name@) == n;
        assert(internal_name(t, s0.schema_of(t).indexes@[j1].name@) != internal_name(t2, s0.schema_of(t2).indexes@[j2].name@));
    }
}

proof fn lemma_delete_entries(s1: Store, s0: Store, t: Seq<char>, k: Seq<char>, now: u64, hash: bool, n: Seq<char>)
    requires
        s0.wf(),
        s0.index_names_distinct(),
        s0.record(t, k) is Some,
        s1.removed(&s0, t, k, now),
        (if hash { s0.hash_index().rel(n) } else { s0.sorted_index().rel(n) }) == s0.stored_entries(hash, n),
    ensures
        (if hash { s1.hash_index().rel(n) } else { s1.sorted_index().rel(n) }) == s1.stored_entries(hash, n),
{
    let rel0 = if hash { s0.hash_index().rel(n) } else { s0.sorted_index().rel(n) };
    let rel1 = if hash { s1.hash_index().rel(n) } else { s1.sorted_index().rel(n) };
    let sch = s0.schema_of(t);
    let held = s0.record(t, k)->0;
    let gone = record_entries(t, sch, k, held.value, hash, n);
    assert(rel1 == rel0 - gone);
    assert forall|p: IndexPair| rel1.contains(p) <==> s1.stored_entries(hash, n).contains(p) by {
        if rel0.contains(p) && !gone.contains(p) {
            let t2 = choose|t2: Seq<char>|
                #[trigger] s0.record(t2, p.1) is Some && record_entries(t2, s0.schema_of(t2), p.1, s0.record(t2, p.1)->0.value, hash, n).contains(p);
            assert(!(t2 == t && p.1 == k));
            assert(s1.record(t2, p.1) == s0.record(t2, p.1));
            assert(s1.schema_of(t2) == s0.schema_of(t2));
        }
        if s1.stored_entries(hash, n).contains(p) {
            let t2 = choose|t2: Seq<char>|
                #[trigger] s1.record(t2, p.1) is Some && record_entries(t2, s1.schema_of(t2), p.1, s1.record(t2, p.1)->0.value, hash, n).contains(p);
            assert(s1.schema_of(t2) == s0.schema_of(t2));
            assert(!(t2 == t && p.1 == k));
            assert(s1.record(t2, p.1) == s0.record(t2, p.1));
            assert(s0.stored_entries(hash, n).contains(p));
            if gone.contains(p) {
                lemma_names_clash(s0, t, t2, k, p.1, held.value, s0.record(t2, p.1)->0.value, hash, n, p);
            }
        }
    }
    assert(rel1 =~= s1.stored_entries(hash, n));
}

/// A delete keeps every index exactly in step with the records, where no
/// two entity types share an index's store name: the deleted record leaves
/// no entry behind.
pub proof fn law_delete_keeps_indexes(s1: Store, s0: Store, t: Seq<char>, k: Seq<char>, now: u64)
    requires
        s0.wf(),
        s0.indexed(),
        s0.index_names_distinct(),
        s0.record(t, k) is Some,
        s1.removed(&s0, t, k, now),
    ensures
        s1.indexed(),
        s1.index_names_distinct(),
{
    assert forall|n: Seq<char>| #[trigger] s1.hash_index().rel(n) == s1.stored_entries(true, n) by {
        lemma_delete_entries(s1, s0, t, k, now, true, n);
    }
    assert forall|n: Seq<char>| #[trigger] s1.sorted_index().rel(n) == s1.stored_entries(false, n) by {
        lemma_delete_entries(s1, s0, t, k, now, false, n);
    }
}

/// Where the indexes are in step with the records, every index entry names
/// a stored record: no index keeps a stale reference.
pub proof fn law_no_stale_index_entries(s: Store, n: Seq<char>, p: IndexPair)
    requires
        s.indexed(),
        s.hash_index().rel(n).contains(p) || s.sorted_index().rel(n).contains(p),
    ensures
        exists|t: Seq<char>| #[trigger] s.record(t, p.1) is Some,
{
    if s.hash_index().rel(n).contains(p) {
        assert(s.stored_entries(true, n).contains(p));
    } else {
        assert(s.stored_entries(false, n).contains(p));
    }
}

proof fn lemma_entries_of_member(s0: Store, order: Seq<IndexPair>, hash: bool, n: Seq<char>, p: IndexPair)
    requires
        s0.entries_of(order, hash, n).contains(p),
    ensures
        exists|j: int|
            0 <= j < order.len() && record_entries(
                (#[trigger] order[j]).0,
                s0.schema_of(order[j].0),
                order[j].1,
                s0.record(order[j].0, order[j].1)->0.value,
                hash,
                n,
            ).contains(p),
    decreases order.len(),
{
    let q = order.last();
    if record_entries(q.0, s0.schema_of(q.0), q.1, s0.record(q.0, q.1)->0.value, hash, n).contains(p) {
        assert(order[order.len() - 1] == q);
    } else {
        lemma_entries_of_member(s0, order.drop_last(), hash, n, p);
        let j = choose|j: int|
            0 <= j < order.drop_last().len() && record_entries(
                (#[trigger] order.drop_last()[j]).0,
                s0.schema_of(order.drop_last()[j].0),
                order.drop_last()[j].1,
                s0.record(order.drop_last()[j].0, order.drop_last()[j].1)->0.value,
                hash,
                n,
            ).contains(p);
        assert(order[j] == order.drop_last()[j]);
    }
}

proof fn lemma_entries_of_cover(s0: Store, order: Seq<IndexPair>, hash: bool, n: Seq<char>, j: int, p: IndexPair)
    requires
        0 <= j < order.len(),
        record_entries(
            order[j].0,
            s0.schema_of(order[j].0),
            order[j].1,
            s0.record(order[j].0, order[j].1)->0.value,
            hash,
            n,
        ).contains(p),
    ensures
        s0.entries_of(order, hash, n).contains(p),
    decreases order.len(),
{
    if j < order.len() - 1 {
        assert(order.drop_last()[j] == order[j]);
        lemma_entries_of_cover(s0, order.drop_last(), hash, n, j, p);
    }
}

proof fn lemma_evict_entries(s1: Store, s0: Store, order: Seq<IndexPair>, hash: bool, n: Seq<char>)
    requires
        s0.wf(),
        s0.index_names_distinct(),
        forall|j: int| 0 <= j < order.len() ==> s0.record((#[trigger] order[j]).0, order[j].1) is Some,
        s1.evicted_along(&s0, order),
        (if hash { s0.hash_index().rel(n) } else { s0.sorted_index().rel(n) }) == s0.stored_entries(hash, n),
    ensures
        (if hash { s1.hash_index().rel(n) } else { s1.sorted_index().rel(n) }) == s1.stored_entries(hash, n),
{
    let rel0 = if hash { s0.hash_index().rel(n) } else { s0.sorted_index().rel(n) };
    let rel1 = if hash { s1.hash_index().rel(n) } else { s1.sorted_index().rel(n) };
    let gone = s0.entries_of(order, hash, n);
    assert(rel1 == rel0 - gone);
    assert forall|p: IndexPair| rel1.contains(p) <==> s1.stored_entries(hash, n).contains(p) by {
        if rel0.contains(p) && !gone.contains(p) {
            let t2 = choose|t2: Seq<char>|
                #[trigger] s0.record(t2, p.1) is Some && record_entries(t2, s0.schema_of(t2), p.1, s0.record(t2, p.1)->0.value, hash, n).contains(p);
            if order.contains((t2, p.1)) {
                let j = choose|j: int| 0 <= j < order.len() && order[j] == (t2, p.1);
                lemma_entries_of_cover(s0, order, hash, n, j, p);
            }
            assert(s1.record(t2, p.1) == s0.record(t2, p.1));
            assert(s1.schema_of(t2) == s0.schema_of(t2));
        }
        if s1.stored_entries(hash, n).contains(p) {
            let t2 = choose|t2: Seq<char>|
                #[trigger] s1.record(t2, p.1) is Some && record_entries(t2, s1.schema_of(t2), p.1, s1.record(t2, p.1)->0.value, hash, n).contains(p);
            assert(s1.schema_of(t2) == s0.schema_of(t2));
            assert(!order.contains((t2, p.1)));
            assert(s1.record(t2, p.1) == s0.record(t2, p.1));
            assert(s0.stored_entries(hash, n).contains(p));
            if gone.contains(p) {
                lemma_entries_of_member(s0, order, hash, n, p);
                let j = choose|j: int|
                    0 <= j < order.len() && record_entries(
                        (#[trigger] order[j]).0,
                        s0.schema_of(order[j].0),
                        order[j].1,
                        s0.record(order[j].0, order[j].1)->0.value,
                        hash,
                        n,
                    ).contains(p);
                let q = order[j];
                lemma_names_clash(s0, q.0, t2, q.1, p.1, s0.record(q.0, q.1)->0.value, s0.record(t2, p.1)->0.value, hash, n, p);
                assert(order.contains((t2, p.1)));
            }
        }
    }
    assert(rel1 =~= s1.stored_entries(hash, n));
}

/// A retention sweep keeps every index exactly in step with the records,
/// where no two entity types share an index's store name: the evicted
/// records leave no entry behind, no expired record remains, and the
/// trimming of collections touches neither.
pub proof fn law_sweep_keeps_indexes(
    s3: Store,
    s2: Store,
    s1: Store,
    s0: Store,
    order: Seq<IndexPair>,
    now: u64,
    ttl: u64,
    trimmed: int,
)
    requires
        s0.wf(),
        s0.indexed(),
        s0.index_names_distinct(),
        order.to_set() == s0.expired_keys(now),
        s1.evicted_along(&s0, order),
        s2.cleaned(&s1, now, ttl),
        s3.collections_trimmed(&s2, now, trimmed),
    ensures
        s3.indexed(),
        s3.index_names_distinct(),
        forall|t: Seq<char>, k: Seq<char>| !is_expired(#[trigger] s3.record(t, k), now),
{
    assert forall|j: int| 0 <= j < order.len() implies s0.record((#[trigger] order[j]).0, order[j].1) is Some by {
        assert(order.to_set().contains(order[j]));
    }
    assert forall|n: Seq<char>| #[trigger] s1.hash_index().rel(n) == s1.stored_entries(true, n) by {
        lemma_evict_entries(s1, s0, order, true, n);
    }
    assert forall|n: Seq<char>| #[trigger] s1.sorted_index().rel(n) == s1.stored_entries(false, n) by {
        lemma_evict_entries(s1, s0, order, false, n);
    }
    assert forall|n: Seq<char>| #[trigger] s2.hash_index().rel(n) == s2.stored_entries(true, n) by {
        assert forall|p: IndexPair| s2.stored_entries(true, n).contains(p) <==> s1.stored_entries(true, n).contains(p) by {
            if s2.stored_entries(true, n).contains(p) {
                let t2 = choose|t2: Seq<char>|
                    #[trigger] s2.record(t2, p.1) is Some && record_entries(t2, s2.schema_of(t2), p.1, s2.record(t2, p.1)->0.value, true, n).contains(p);
                assert(s2.record(t2, p.1) == s1.record(t2, p.1));
                assert(s2.schema_of(t2) == s1.schema_of(t2));
            }
            if s1.stored_entries(true, n).contains(p) {
                let t2 = choose|t2: Seq<char>|
                    #[trigger] s1.record(t2, p.1) is Some && record_entries(t2, s1.schema_of(t2), p.1, s1.record(t2, p.1)->0.value, true, n).contains(p);
                assert(s2.record(t2, p.1) == s1.record(t2, p.1));
                assert(s2.schema_of(t2) == s1.schema_of(t2));
            }
        }
        assert(s2.stored_entries(true, n) =~= s1.stored_entries(true, n));
    }
    assert forall|n: Seq<char>| #[trigger] s2.sorted_index().rel(n) == s2.stored_entries(false, n) by {
        assert forall|p: IndexPair| s2.stored_entries(false, n).contains(p) <==> s1.stored_entries(false, n).contains(p) by {
            if s2.stored_entries(false, n).contains(p) {
                let t2 = choose|t2: Seq<char>|
                    #[trigger] s2.record(t2, p.1) is Some && record_entries(t2, s2.schema_of(t2), p.1, s2.record(t2, p.1)->0.value, false, n).contains(p);
                assert(s2.record(t2, p.1) == s1.record(t2, p.1));
                assert(s2.schema_of(t2) == s1.schema_of(t2));
            }
            if s1.stored_entries(false, n).contains(p) {
                let t2 = choose|t2: Seq<char>|
                    #[trigger] s1.record(t2, p.1) is Some && record_entries(t2, s1.schema_of(t2), p.1, s1.record(t2, p.1)->0.value, false, n).contains(p);
                assert(s2.record(t2, p.1) == s1.record(t2, p.1));
                assert(s2.schema_of(t2) == s1.schema_of(t2));
            }
        }
        assert(s2.stored_entries(false, n) =~= s1.stored_entries(false, n));
    }
    assert forall|t: Seq<char>, k: Seq<char>| !is_expired(#[trigger] s2.record(t, k), now) by {
        assert(s2.record(t, k) == s1.record(t, k));
        if !order.contains((t, k)) {
            assert(!order.to_set().contains((t, k)));
        }
    }
    assert(s2.indexed());
    assert(s2.index_names_distinct()) by {
        assert forall|t: Seq<char>| #[trigger] s2.has_entity(t) == s0.has_entity(t) by {}
    }
    lemma_collections_only(s3, s2);
    lemma_indexed_same_view(s3, s2);
}


/// A read after a write gives back what was written: the record under the
/// key holds the value, stamped with the write's time; every other record
/// is as before, and the key's tombstone is gone.
pub proof fn law_read_after_write(s1: Store, s0: Store, t: Seq<char>, k: Seq<char>, v: JsonValue, now: u64)
    requires
        s1.written(&s0, t, k, v, now),
    ensures
        s1.record(t, k) is Some,
        s1.record(t, k)->0.value == v,
        s1.record(t, k)->0.updated_at_ms == now,
        forall|t2: Seq<char>, k2: Seq<char>|
            !(t2 == t && k2 == k) ==> #[trigger] s1.record(t2, k2) == s0.record(t2, k2),
        !s1.tombs().contains_key(tombstone_key_of(t, k)),
{
}

/// After a delete, the key holds no record and its tombstone records the
/// deletion; a later write of the key lifts that tombstone.
pub proof fn law_delete_then_write(s2: Store, s1: Store, s0: Store, t: Seq<char>, k: Seq<char>, v: JsonValue, now1: u64, now2: u64)
    requires
        s1.removed(&s0, t, k, now1),
        s2.written(&s1, t, k, v, now2),
    ensures
        s1.record(t, k) is None,
        s1.tombs().contains_key(tombstone_key_of(t, k)),
        s1.tombs()[tombstone_key_of(t, k)].deleted_at_ms == now1,
        s2.record(t, k) is Some,
        !s2.tombs().contains_key(tombstone_key_of(t, k)),
{
}

/// Where nothing saturates, a write moves the memory counter by the
/// difference of the new and the replaced record's estimates, and a delete
/// takes the deleted record's estimate off it.
pub proof fn law_memory_follows_records(s1: Store, s0: Store, t: Seq<char>, k: Seq<char>, v: JsonValue, now: u64)
    requires
        s1.written(&s0, t, k, v, now),
        s0.memory() >= s0.held_size(t, k),
        s0.memory() - s0.held_size(t, k) + record_size(t, k, v) <= usize::MAX,
    ensures
        s1.memory() == s0.memory() - s0.held_size(t, k) + record_size(t, k, v),
{
}

/// Where the counter covers it, a delete takes the deleted record's
/// estimate off the memory counter.
pub proof fn law_delete_releases_memory(s1: Store, s0: Store, t: Seq<char>, k: Seq<char>, now: u64)
    requires
        s0.record(t, k) is Some,
        s1.removed(&s0, t, k, now),
        s0.memory() >= record_size(t, k, s0.record(t, k)->0.value),
    ensures
        s1.memory() == s0.memory() - record_size(t, k, s0.record(t, k)->0.value),
{
}

/// After the tombstone pass of a sweep, no tombstone left is due for
/// removal, and every tombstone that was not due is still there.
pub proof fn law_sweep_keeps_fresh_tombstones(s1: Store, s0: Store, now: u64, ttl: u64)
    requires
        s1.cleaned(&s0, now, ttl),
    ensures
        forall|tk: Seq<char>| #[trigger] s1.tombs().contains_key(tk) ==> !tomb_stale(s1.tombs()[tk], now, ttl),
        forall|tk: Seq<char>|
            #[trigger] s0.tombs().contains_key(tk) && !tomb_stale(s0.tombs()[tk], now, ttl) ==> s1.tombs().contains_key(tk)
                && s1.tombs()[tk] == s0.tombs()[tk],
{
}


impl Store {
    /// The estimates of the records of `order`, as this store holds them.
    pub open spec fn size_of_records(&self, order: Seq<IndexPair>) -> int
        decreases order.len(),
    {
        if order.len() == 0 {
            0
        } else {
            let p = order.last();
            self.size_of_records(order.drop_last()) + record_size(p.0, p.1, self.record(p.0, p.1)->0.value)
        }
    }
}

proof fn lemma_evictions_subtract(s0: Store, order: Seq<IndexPair>)
    requires
        s0.memory() >= s0.size_of_records(order),
    ensures
        s0.memory_after_evictions(order) == s0.memory() - s0.size_of_records(order),
        s0.size_of_records(order) >= 64 * order.len(),
    decreases order.len(),
{
    if order.len() > 0 {
        let p = order.last();
        let sz = record_size(p.0, p.1, s0.record(p.0, p.1)->0.value);
        assert(sz >= 64);
        lemma_evictions_subtract(s0, order.drop_last());
        let before = s0.memory_after_evictions(order.drop_last());
        assert(before >= sz);
        assert(sz <= usize::MAX);
        assert(before.wrapping_sub(sz as usize) == before - sz);
    }
}

/// Where the memory counter covers the evicted records' estimates, a
/// retention pass lowers it by exactly their sum: every evicted record
/// releases at least its 64 bytes of overhead.
pub proof fn law_eviction_releases_memory(s1: Store, s0: Store, order: Seq<IndexPair>)
    requires
        s1.evicted_along(&s0, order),
        s0.memory() >= s0.size_of_records(order),
    ensures
        s1.memory() == s0.memory() - s0.size_of_records(order),
        order.len() > 0 ==> s1.memory() < s0.memory(),
{
    lemma_evictions_subtract(s0, order);
}


/// Two stores with the same entity types, records and indexes agree on
/// whether their indexes are in step with their records.
proof fn lemma_indexed_same_view(s1: Store, s0: Store)
    requires
        forall|t: Seq<char>| #[trigger] s1.has_entity(t) == s0.has_entity(t),
        forall|t: Seq<char>| #[trigger] s1.schema_of(t) == s0.schema_of(t),
        forall|t: Seq<char>, k: Seq<char>| #[trigger] s1.record(t, k) == s0.record(t, k),
        s1.hash_index() == s0.hash_index(),
        s1.sorted_index() == s0.sorted_index(),
        s0.indexed(),
        s0.index_names_distinct(),
    ensures
        s1.indexed(),
        s1.index_names_distinct(),
{
    assert forall|n: Seq<char>, hash: bool| #[trigger] s1.stored_entries(hash, n) == s0.stored_entries(hash, n) by {
        assert forall|p: IndexPair| s1.stored_entries(hash, n).contains(p) <==> s0.stored_entries(hash, n).contains(p) by {
            if s1.stored_entries(hash, n).contains(p) {
                let t2 = choose|t2: Seq<char>|
                    #[trigger] s1.record(t2, p.1) is Some && record_entries(t2, s1.schema_of(t2), p.1, s1.record(t2, p.1)->0.value, hash, n).contains(p);
                assert(s1.record(t2, p.1) == s0.record(t2, p.1));
                assert(s1.schema_of(t2) == s0.schema_of(t2));
            }
            if s0.stored_entries(hash, n).contains(p) {
                let t2 = choose|t2: Seq<char>|
                    #[trigger] s0.record(t2, p.1) is Some && record_entries(t2, s0.schema_of(t2), p.1, s0.record(t2, p.1)->0.value, hash, n).contains(p);
                assert(s1.record(t2, p.1) == s0.record(t2, p.1));
                assert(s1.schema_of(t2) == s0.schema_of(t2));
            }
        }
        assert(s1.stored_entries(hash, n) =~= s0.stored_entries(hash, n));
    }
    assert forall|n: Seq<char>| #[trigger] s1.hash_index().rel(n) == s1.stored_entries(true, n) by {
        assert(s1.stored_entries(true, n) == s0.stored_entries(true, n));
    }
    assert forall|n: Seq<char>| #[trigger] s1.sorted_index().rel(n) == s1.stored_entries(false, n) by {
        assert(s1.stored_entries(false, n) == s0.stored_entries(false, n));
    }
}

/// A change to the collections alone leaves entity types, records and
/// indexes as they were.
proof fn lemma_collections_only(s1: Store, s0: Store)
    requires
        s1.same_but_collections(&s0),
    ensures
        forall|t: Seq<char>| #[trigger] s1.has_entity(t) == s0.has_entity(t),
        forall|t: Seq<char>| #[trigger] s1.schema_of(t) == s0.schema_of(t),
        forall|t: Seq<char>, k: Seq<char>| #[trigger] s1.record(t, k) == s0.record(t, k),
        s1.hash_index() == s0.hash_index(),
        s1.sorted_index() == s0.sorted_index(),
        s1.memory() == s0.memory(),
        s1.max_bytes() == s0.max_bytes(),
        s1.tombs() == s0.tombs(),
{
}

/// One operation that succeeds keeps the indexes in step with the records.
proof fn lemma_op_keeps_indexes(s1: Store, s0: Store, op: StoreOp)
    requires
        s0.wf(),
        s0.indexed(),
        s0.index_names_distinct(),
        op_effect(s1, s0, op, Ok(())),
    ensures
        s1.indexed(),
        s1.index_names_distinct(),
{
    let t = op.entity_type@;
    let k = op.key@;
    match op.op {
        StoreOpKind::Upsert => match op.value {
            None => {},
            Some(v) => {
                let now = choose|now: u64| s1.written(&s0, t, k, v, now);
                law_write_keeps_indexes(s1, s0, t, k, v, now);
            },
        },
        StoreOpKind::Delete => {
            if s0.record(t, k) is None {
                lemma_indexed_same_view(s1, s0);
            } else {
                let now = choose|now: u64| s1.removed(&s0, t, k, now);
                law_delete_keeps_indexes(s1, s0, t, k, now);
            }
        },
        StoreOpKind::Push => {
            lemma_collections_only(s1, s0);
            lemma_indexed_same_view(s1, s0);
        },
        StoreOpKind::RemoveItem => {
            lemma_collections_only(s1, s0);
            lemma_indexed_same_view(s1, s0);
        },
    }
}

/// Every state of a batch's trace from `j` on keeps the indexes in step
/// with the records, given that state `j` does.
proof fn lemma_trace_indexed(states: Seq<Store>, ops: Seq<StoreOp>, res: Result<(), ApplyOpsError>, j: int)
    requires
        ops_trace(states, ops, res),
        0 <= j < states.len(),
        states[j].indexed(),
        states[j].index_names_distinct(),
    ensures
        states.last().indexed(),
        states.last().index_names_distinct(),
    decreases states.len() - j,
{
    if j < states.len() - 1 {
        assert(states[j].wf());
        lemma_op_keeps_indexes(states[j + 1], states[j], ops[j]);
        lemma_trace_indexed(states, ops, res, j + 1);
    }
}

/// A batch of script operations keeps every index in step with the
/// records, where no two entity types share an index's store name, whether
/// it completes or stops at a failing operation.
pub proof fn law_batch_keeps_indexes(s1: Store, s0: Store, ops: Seq<StoreOp>, res: Result<(), ApplyOpsError>)
    requires
        s0.wf(),
        s0.indexed(),
        s0.index_names_distinct(),
        s1.applied(&s0, ops, res),
    ensures
        s1.indexed(),
        s1.index_names_distinct(),
{
    let states = choose|states: Seq<Store>|
        {
            &&& ops_trace(states, ops, res)
            &&& states[0] == s0
            &&& states.last() == s1
        };
    lemma_trace_indexed(states, ops, res, 0);
}

impl Store {
    /// Whether `order` lists every record of the store, each once.
    pub open spec fn lists_records(&self, order: Seq<IndexPair>) -> bool {
        &&& order.no_duplicates()
        &&& forall|p: IndexPair| #[trigger] order.contains(p) == (self.record(p.0, p.1) is Some)
    }

    /// The memory counter is the sum of the estimates of the live records.
    pub open spec fn memory_balanced(&self) -> bool {
        exists|order: Seq<IndexPair>| #[trigger] self.lists_records(order) && self.memory() == self.size_of_records(order)
    }

    /// The memory counter is within the hard limit, where one is set.
    pub open spec fn within_limit(&self) -> bool {
        self.max_bytes() == 0 || self.memory() <= self.max_bytes()
    }
}

/// A sum of record estimates is never negative.
proof fn lemma_size_nonneg(s: Store, order: Seq<IndexPair>)
    ensures
        s.size_of_records(order) >= 0,
    decreases order.len(),
{
    if order.len() > 0 {
        lemma_size_nonneg(s, order.drop_last());
    }
}

/// Records that read alike give the same sum.
proof fn lemma_size_frame(s1: Store, s0: Store, order: Seq<IndexPair>)
    requires
        forall|j: int| 0 <= j < order.len() ==> s1.record((#[trigger] order[j]).0, order[j].1) == s0.record(
            order[j].0,
            order[j].1,
        ),
    ensures
        s1.size_of_records(order) == s0.size_of_records(order),
    decreases order.len(),
{
    if order.len() > 0 {
        let last = order.len() - 1;
        assert(s1.record(order[last].0, order[last].1) == s0.record(order[last].0, order[last].1));
        assert forall|j: int| 0 <= j < order.drop_last().len() implies s1.record(
            (#[trigger] order.drop_last()[j]).0,
            order.drop_last()[j].1,
        ) == s0.record(order.drop_last()[j].0, order.drop_last()[j].1) by {
            assert(order.drop_last()[j] == order[j]);
        }
        lemma_size_frame(s1, s0, order.drop_last());
    }
}

/// Taking one entry out of a list takes its estimate off the sum.
proof fn lemma_size_remove(s: Store, order: Seq<IndexPair>, i: int)
    requires
        0 <= i < order.len(),
    ensures
        s.size_of_records(order) == s.size_of_records(order.remove(i)) + record_size(
            order[i].0,
            order[i].1,
            s.record(order[i].0, order[i].1)->0.value,
        ),
    decreases order.len(),
{
    if i == order.len() - 1 {
        assert(order.remove(i) =~= order.drop_last());
    } else {
        lemma_size_remove(s, order.drop_last(), i);
        assert(order.drop_last().remove(i) =~= order.remove(i).drop_last());
        assert(order.remove(i).last() == order.last());
        assert(order.drop_last()[i] == order[i]);
    }
}

/// Taking one entry out of a list without repetition leaves the others.
proof fn lemma_remove_contents(order: Seq<IndexPair>, i: int)
    requires
        order.no_duplicates(),
        0 <= i < order.len(),
    ensures
        order.remove(i).no_duplicates(),
        forall|q: IndexPair| #[trigger] order.remove(i).contains(q) == (order.contains(q) && q != order[i]),
{
    let r = order.remove(i);
    assert forall|a: int, b: int| 0 <= a < b < r.len() implies r[a] != r[b] by {
        let a0 = if a < i { a } else { a + 1 };
        let b0 = if b < i { b } else { b + 1 };
        assert(r[a] == order[a0]);
        assert(r[b] == order[b0]);
    }
    assert forall|q: IndexPair| #[trigger] r.contains(q) == (order.contains(q) && q != order[i]) by {
        if r.contains(q) {
            let a = choose|a: int| 0 <= a < r.len() && r[a] == q;
            let a0 = if a < i { a } else { a + 1 };
            assert(order[a0] == q);
        }
        if order.contains(q) && q != order[i] {
            let a0 = choose|a0: int| 0 <= a0 < order.len() && order[a0] == q;
            let a = if a0 < i { a0 } else { a0 - 1 };
            assert(r[a] == q);
        }
    }
}

/// Where `ev` lists, once each, some entries of `order`, the rest of
/// `order` is listed by a sequence whose sum, with that of `ev`, is the sum
/// of `order`.
proof fn lemma_size_split(s: Store, order: Seq<IndexPair>, ev: Seq<IndexPair>) -> (rest: Seq<IndexPair>)
    requires
        order.no_duplicates(),
        ev.no_duplicates(),
        forall|q: IndexPair| #[trigger] ev.contains(q) ==> order.contains(q),
    ensures
        rest.no_duplicates(),
        forall|q: IndexPair| #[trigger] rest.contains(q) == (order.contains(q) && !ev.contains(q)),
        s.size_of_records(order) == s.size_of_records(rest) + s.size_of_records(ev),
    decreases ev.len(),
{
    if ev.len() == 0 {
        order
    } else {
        let p = ev.last();
        let front = ev.drop_last();
        assert forall|q: IndexPair| #[trigger] front.contains(q) implies order.contains(q) by {
            let a = choose|a: int| 0 <= a < front.len() && front[a] == q;
            assert(ev[a] == q);
            assert(ev.contains(q));
        }
        let r0 = lemma_size_split(s, order, front);
        assert(ev[ev.len() - 1] == p);
        assert(!front.contains(p)) by {
            if front.contains(p) {
                let a = choose|a: int| 0 <= a < front.len() && front[a] == p;
                assert(ev[a] == ev[ev.len() - 1]);
            }
        }
        assert(ev.contains(p));
        assert(order.contains(p));
        assert(r0.contains(p));
        let i = choose|i: int| 0 <= i < r0.len() && r0[i] == p;
        lemma_size_remove(s, r0, i);
        lemma_remove_contents(r0, i);
        let rest = r0.remove(i);
        assert forall|q: IndexPair| #[trigger] rest.contains(q) == (order.contains(q) && !ev.contains(q)) by {
            if ev.contains(q) && q != p {
                let a = choose|a: int| 0 <= a < ev.len() && ev[a] == q;
                assert(front[a] == q);
            }
            if front.contains(q) {
                let a = choose|a: int| 0 <= a < front.len() && front[a] == q;
                assert(ev[a] == q);
            }
        }
        rest
    }
}

/// A balanced counter covers the estimate of any one record.
proof fn lemma_balanced_covers(s: Store, t: Seq<char>, k: Seq<char>)
    requires
        s.memory_balanced(),
    ensures
        s.memory() >= s.held_size(t, k),
{
    let order = choose|order: Seq<IndexPair>| #[trigger] s.lists_records(order) && s.memory() == s.size_of_records(order);
    if s.record(t, k) is Some {
        assert(order.contains((t, k)));
        let i = choose|i: int| 0 <= i < order.len() && order[i] == (t, k);
        lemma_size_remove(s, order, i);
        lemma_size_nonneg(s, order.remove(i));
    }
}

/// Records and counter alike: one store is balanced when the other is.
proof fn lemma_balanced_same(s1: Store, s0: Store)
    requires
        s0.memory_balanced(),
        forall|t: Seq<char>, k: Seq<char>| #[trigger] s1.record(t, k) == s0.record(t, k),
        s1.memory() == s0.memory(),
    ensures
        s1.memory_balanced(),
{
    let order = choose|order: Seq<IndexPair>| #[trigger] s0.lists_records(order) && s0.memory() == s0.size_of_records(order);
    assert forall|j: int| 0 <= j < order.len() implies s1.record((#[trigger] order[j]).0, order[j].1) == s0.record(
        order[j].0,
        order[j].1,
    ) by {}
    lemma_size_frame(s1, s0, order);
    assert(s1.lists_records(order));
}

/// A store with no record and a zero counter keeps the counter equal to the
/// sum of its records' estimates, and within any limit.
pub proof fn law_fresh_store_balanced(s: Store)
    requires
        forall|t: Seq<char>, k: Seq<char>| #[trigger] s.record(t, k) is None,
        s.memory() == 0,
    ensures
        s.memory_balanced(),
        s.within_limit(),
{
    let order = Seq::<IndexPair>::empty();
    assert(s.lists_records(order));
    assert(s.size_of_records(order) == 0);
}

/// Where nothing saturates, a write keeps the memory counter equal to the
/// sum of the estimates of the live records; a write that the hard limit
/// allows leaves the counter within it.
pub proof fn law_write_keeps_balance(s1: Store, s0: Store, t: Seq<char>, k: Seq<char>, v: JsonValue, now: u64)
    requires
        s0.memory_balanced(),
        s1.written(&s0, t, k, v, now),
        s0.memory() - s0.held_size(t, k) + record_size(t, k, v) <= usize::MAX,
    ensures
        s1.memory_balanced(),
        !s0.over_limit(t, k, v) ==> s1.within_limit(),
{
    let order0 = choose|order: Seq<IndexPair>| #[trigger] s0.lists_records(order) && s0.memory() == s0.size_of_records(order);
    let p: IndexPair = (t, k);
    let rest = if s0.record(t, k) is Some {
        assert(order0.contains(p));
        let i = choose|i: int| 0 <= i < order0.len() && order0[i] == p;
        lemma_size_remove(s0, order0, i);
        lemma_remove_contents(order0, i);
        order0.remove(i)
    } else {
        order0
    };
    assert(rest.no_duplicates());
    assert(forall|q: IndexPair| #[trigger] rest.contains(q) == (s0.record(q.0, q.1) is Some && q != p));
    assert(s0.size_of_records(order0) == s0.size_of_records(rest) + s0.held_size(t, k));
    lemma_size_nonneg(s0, rest);
    assert forall|j: int| 0 <= j < rest.len() implies s1.record((#[trigger] rest[j]).0, rest[j].1) == s0.record(
        rest[j].0,
        rest[j].1,
    ) by {
        assert(rest.contains(rest[j]));
    }
    lemma_size_frame(s1, s0, rest);
    let order1 = rest.push(p);
    assert(order1.drop_last() =~= rest);
    assert(order1.last() == p);
    assert(s1.size_of_records(order1) == s1.size_of_records(rest) + record_size(t, k, v));
    assert(s1.memory() == s1.size_of_records(order1));
    assert(!rest.contains(p));
    assert forall|a: int, b: int| 0 <= a < b < order1.len() implies order1[a] != order1[b] by {
        if b == rest.len() {
            assert(rest.contains(order1[a]));
        }
    }
    assert forall|q: IndexPair| #[trigger] order1.contains(q) == (s1.record(q.0, q.1) is Some) by {
        if order1.contains(q) && q != p {
            let a = choose|a: int| 0 <= a < order1.len() && order1[a] == q;
            assert(rest[a] == q);
            assert(rest.contains(q));
        }
        if q == p {
            assert(order1[rest.len() as int] == p);
        } else if s1.record(q.0, q.1) is Some {
            assert(rest.contains(q));
            let a = choose|a: int| 0 <= a < rest.len() && rest[a] == q;
            assert(order1[a] == q);
        }
    }
    assert(s1.lists_records(order1));
}

/// A delete keeps the memory counter equal to the sum of the estimates of
/// the live records, and within the hard limit where it was.
pub proof fn law_delete_keeps_balance(s1: Store, s0: Store, t: Seq<char>, k: Seq<char>, now: u64)
    requires
        s0.memory_balanced(),
        s0.record(t, k) is Some,
        s1.removed(&s0, t, k, now),
    ensures
        s1.memory_balanced(),
        s0.within_limit() ==> s1.within_limit(),
{
    let order0 = choose|order: Seq<IndexPair>| #[trigger] s0.lists_records(order) && s0.memory() == s0.size_of_records(order);
    let p: IndexPair = (t, k);
    assert(order0.contains(p));
    let i = choose|i: int| 0 <= i < order0.len() && order0[i] == p;
    lemma_size_remove(s0, order0, i);
    lemma_remove_contents(order0, i);
    let rest = order0.remove(i);
    lemma_size_nonneg(s0, rest);
    let held = record_size(t, k, s0.record(t, k)->0.value);
    assert(s0.memory() >= held);
    assert(s0.memory().wrapping_sub(held as usize) == s0.memory() - held);
    assert forall|j: int| 0 <= j < rest.len() implies s1.record((#[trigger] rest[j]).0, rest[j].1) == s0.record(
        rest[j].0,
        rest[j].1,
    ) by {
        assert(rest.contains(rest[j]));
    }
    lemma_size_frame(s1, s0, rest);
    assert forall|q: IndexPair| #[trigger] rest.contains(q) == (s1.record(q.0, q.1) is Some) by {}
    assert(s1.lists_records(rest));
}

/// A retention sweep keeps the memory counter equal to the sum of the
/// estimates of the live records, and within the hard limit where it was.
pub proof fn law_sweep_keeps_balance(
    s3: Store,
    s2: Store,
    s1: Store,
    s0: Store,
    order: Seq<IndexPair>,
    now: u64,
    ttl: u64,
    trimmed: int,
)
    requires
        s0.memory_balanced(),
        order.no_duplicates(),
        order.to_set() == s0.expired_keys(now),
        s1.evicted_along(&s0, order),
        s2.cleaned(&s1, now, ttl),
        s3.collections_trimmed(&s2, now, trimmed),
    ensures
        s3.memory_balanced(),
        s0.within_limit() ==> s3.within_limit(),
{
    let order0 = choose|o: Seq<IndexPair>| #[trigger] s0.lists_records(o) && s0.memory() == s0.size_of_records(o);
    assert forall|q: IndexPair| #[trigger] order.contains(q) implies order0.contains(q) by {
        assert(order.to_set().contains(q));
        assert(s0.record(q.0, q.1) is Some);
    }
    let rest = lemma_size_split(s0, order0, order);
    lemma_size_nonneg(s0, rest);
    lemma_evictions_subtract(s0, order);
    assert forall|j: int| 0 <= j < rest.len() implies s1.record((#[trigger] rest[j]).0, rest[j].1) == s0.record(
        rest[j].0,
        rest[j].1,
    ) by {
        assert(rest.contains(rest[j]));
    }
    lemma_size_frame(s1, s0, rest);
    assert forall|q: IndexPair| #[trigger] rest.contains(q) == (s1.record(q.0, q.1) is Some) by {}
    assert(s1.lists_records(rest));
    assert(s1.memory_balanced());
    lemma_balanced_same(s2, s1);
    lemma_collections_only(s3, s2);
    lemma_balanced_same(s3, s2);
}

/// One operation that succeeds, under a set hard limit below `usize::MAX`,
/// keeps the counter balanced and within the limit.
proof fn lemma_op_keeps_balance(s1: Store, s0: Store, op: StoreOp)
    requires
        s0.memory_balanced(),
        s0.within_limit(),
        0 < s0.max_bytes() < usize::MAX,
        op_effect(s1, s0, op, Ok(())),
    ensures
        s1.memory_balanced(),
        s1.within_limit(),
        s1.max_bytes() == s0.max_bytes(),
{
    let t = op.entity_type@;
    let k = op.key@;
    match op.op {
        StoreOpKind::Upsert => match op.value {
            None => {},
            Some(v) => {
                let now = choose|now: u64| s1.written(&s0, t, k, v, now);
                lemma_balanced_covers(s0, t, k);
                law_write_keeps_balance(s1, s0, t, k, v, now);
            },
        },
        StoreOpKind::Delete => {
            if s0.record(t, k) is None {
                lemma_balanced_same(s1, s0);
            } else {
                let now = choose|now: u64| s1.removed(&s0, t, k, now);
                law_delete_keeps_balance(s1, s0, t, k, now);
            }
        },
        StoreOpKind::Push => {
            lemma_collections_only(s1, s0);
            lemma_balanced_same(s1, s0);
        },
        StoreOpKind::RemoveItem => {
            lemma_collections_only(s1, s0);
            lemma_balanced_same(s1, s0);
        },
    }
}

proof fn lemma_trace_balanced(states: Seq<Store>, ops: Seq<StoreOp>, res: Result<(), ApplyOpsError>, j: int)
    requires
        ops_trace(states, ops, res),
        0 <= j < states.len(),
        states[j].memory_balanced(),
        states[j].within_limit(),
        0 < states[j].max_bytes() < usize::MAX,
    ensures
        states.last().memory_balanced(),
        states.last().within_limit(),
    decreases states.len() - j,
{
    if j < states.len() - 1 {
        lemma_op_keeps_balance(states[j + 1], states[j], ops[j]);
        lemma_trace_balanced(states, ops, res, j + 1);
    }
}

/// Under a set hard limit below `usize::MAX`, a batch of script operations
/// keeps the memory counter equal to the sum of the estimates of the live
/// records and within the limit, whether it completes or stops at a failing
/// operation.
pub proof fn law_batch_keeps_balance(s1: Store, s0: Store, ops: Seq<StoreOp>, res: Result<(), ApplyOpsError>)
    requires
        s0.memory_balanced(),
        s0.within_limit(),
        0 < s0.max_bytes() < usize::MAX,
        s1.applied(&s0, ops, res),
    ensures
        s1.memory_balanced(),
        s1.within_limit(),
{
    let states = choose|states: Seq<Store>|
        {
            &&& ops_trace(states, ops, res)
            &&& states[0] == s0
            &&& states.last() == s1
        };
    lemma_trace_balanced(states, ops, res, 0);
}

impl Store {
    /// Every tombstone is filed under the key of its own entity type and key.
    pub open spec fn tombs_filed(&self) -> bool {
        forall|tk: Seq<char>|
            #[trigger] self.tombs().contains_key(tk) ==> tk == tombstone_key_of(
                self.tombs()[tk].entity_type@,
                self.tombs()[tk].key@,
            )
    }

    /// No tombstone names the record `key` of type `t`.
    pub open spec fn no_tomb_for(&self, t: Seq<char>, key: Seq<char>) -> bool {
        forall|tk: Seq<char>|
            #[trigger] self.tombs().contains_key(tk) ==> !(self.tombs()[tk].entity_type@ == t
                && self.tombs()[tk].key@ == key)
    }

    /// What every operation of the store keeps: tombstones filed under their
    /// own keys; the indexes in step with the records wherever no two entity
    /// types share an index's store name; and, unless the hard limit is
    /// `usize::MAX`, the memory counter equal to the sum of the estimates of
    /// the live records and within the limit, where one is set. (Without a
    /// limit, a write keeps this where the new sum fits in a `usize`.)
    pub open spec fn kept(&self) -> bool {
        &&& self.tombs_filed()
        &&& self.index_names_distinct() ==> self.indexed()
        &&& self.max_bytes() < usize::MAX ==> self.memory_balanced() && self.within_limit()
    }

    /// The memory counter after writing the record fits in a `usize` without
    /// stopping at its end.
    pub open spec fn write_fits(&self, t: Seq<char>, key: Seq<char>, value: JsonValue) -> bool {
        self.memory() - self.held_size(t, key) + record_size(t, key, value) <= usize::MAX
    }
}

proof fn lemma_distinct_same_shape(s1: Store, s0: Store)
    requires
        forall|t: Seq<char>| #[trigger] s1.has_entity(t) == s0.has_entity(t),
        forall|t: Seq<char>| #[trigger] s1.schema_of(t) == s0.schema_of(t),
    ensures
        s1.index_names_distinct() == s0.index_names_distinct(),
{
    if s0.index_names_distinct() {
        lemma_distinct_from(s1, s0);
    }
    if s1.index_names_distinct() {
        lemma_distinct_from(s0, s1);
    }
}

proof fn lemma_distinct_from(s1: Store, s0: Store)
    requires
        forall|t: Seq<char>| #[trigger] s1.has_entity(t) == s0.has_entity(t),
        forall|t: Seq<char>| #[trigger] s1.schema_of(t) == s0.schema_of(t),
        s0.index_names_distinct(),
    ensures
        s1.index_names_distinct(),
{
    assert forall|t1: Seq<char>, t2: Seq<char>, j1: int, j2: int|
        s1.has_entity(t1) && s1.has_entity(t2) && t1 != t2 && 0 <= j1 < s1.schema_of(t1).indexes@.len() && 0 <= j2
            < s1.schema_of(t2).indexes@.len() implies #[trigger] internal_name(t1, s1.schema_of(t1).indexes@[j1].name@)
        != #[trigger] internal_name(t2, s1.schema_of(t2).indexes@[j2].name@) by {
        assert(s0.has_entity(t1) && s0.has_entity(t2));
        assert(s1.schema_of(t1) == s0.schema_of(t1));
        assert(s1.schema_of(t2) == s0.schema_of(t2));
        assert(internal_name(t1, s0.schema_of(t1).indexes@[j1].name@) != internal_name(
            t2,
            s0.schema_of(t2).indexes@[j2].name@,
        ));
    }
}

/// A store with no record, no tombstone, empty indexes and a zero counter
/// keeps what every operation keeps.
proof fn lemma_kept_fresh(s: Store)
    requires
        forall|t: Seq<char>, k: Seq<char>| #[trigger] s.record(t, k) is None,
        s.memory() == 0,
        s.tombs() == Map::<Seq<char>, Tombstone>::empty(),
        forall|n: Seq<char>| #[trigger] s.hash_index().list(n) == Seq::<IndexPair>::empty(),
        forall|n: Seq<char>| #[trigger] s.sorted_index().list(n) == Seq::<IndexPair>::empty(),
    ensures
        s.kept(),
{
    law_fresh_store_indexed(s);
    law_fresh_store_balanced(s);
}

/// A store that reads as another keeps what it keeps.
proof fn lemma_kept_same(s1: Store, s0: Store)
    requires
        s0.kept(),
        forall|t: Seq<char>| #[trigger] s1.has_entity(t) == s0.has_entity(t),
        forall|t: Seq<char>| #[trigger] s1.schema_of(t) == s0.schema_of(t),
        forall|t: Seq<char>, k: Seq<char>| #[trigger] s1.record(t, k) == s0.record(t, k),
        s1.hash_index() == s0.hash_index(),
        s1.sorted_index() == s0.sorted_index(),
        s1.memory() == s0.memory(),
        s1.max_bytes() == s0.max_bytes(),
        s1.tombs() == s0.tombs(),
    ensures
        s1.kept(),
{
    lemma_distinct_same_shape(s1, s0);
    if s0.index_names_distinct() {
        lemma_indexed_same_view(s1, s0);
    }
    if s0.max_bytes() < usize::MAX {
        lemma_balanced_same(s1, s0);
    }
}

/// A write keeps the tombstones filed under their own keys, and leaves none
/// of the record written.
proof fn lemma_write_lifts_tombs(s1: Store, s0: Store, t: Seq<char>, k: Seq<char>, v: JsonValue, now: u64)
    requires
        s0.tombs_filed(),
        s1.written(&s0, t, k, v, now),
    ensures
        s1.tombs_filed(),
        s1.no_tomb_for(t, k),
{
    let tk0 = tombstone_key_of(t, k);
    assert forall|tk: Seq<char>| #[trigger] s1.tombs().contains_key(tk) implies tk == tombstone_key_of(
        s1.tombs()[tk].entity_type@,
        s1.tombs()[tk].key@,
    ) && !(s1.tombs()[tk].entity_type@ == t && s1.tombs()[tk].key@ == k) by {
        assert(s0.tombs().remove(tk0).contains_key(tk));
        assert(s0.tombs().contains_key(tk));
        assert(s1.tombs()[tk] == s0.tombs()[tk]);
    }
}

/// A write that the limits allow, and whose new sum fits where no limit is
/// set, keeps what every operation keeps.
proof fn lemma_kept_write(s1: Store, s0: Store, t: Seq<char>, k: Seq<char>, v: JsonValue, now: u64)
    requires
        s0.wf(),
        s0.kept(),
        s1.written(&s0, t, k, v, now),
        !s0.over_limit(t, k, v),
        s0.max_bytes() > 0 || s0.write_fits(t, k, v),
    ensures
        s1.kept(),
        s1.no_tomb_for(t, k),
{
    lemma_write_lifts_tombs(s1, s0, t, k, v, now);
    lemma_distinct_same_shape(s1, s0);
    if s0.index_names_distinct() {
        law_write_keeps_indexes(s1, s0, t, k, v, now);
    }
    if s0.max_bytes() < usize::MAX {
        lemma_balanced_covers(s0, t, k);
        law_write_keeps_balance(s1, s0, t, k, v, now);
    }
}

/// A delete keeps what every operation keeps.
proof fn lemma_kept_delete(s1: Store, s0: Store, t: Seq<char>, k: Seq<char>, now: u64)
    requires
        s0.wf(),
        s0.kept(),
        s0.record(t, k) is Some,
        s1.removed(&s0, t, k, now),
    ensures
        s1.kept(),
{
    let tk0 = tombstone_key_of(t, k);
    assert forall|tk: Seq<char>| #[trigger] s1.tombs().contains_key(tk) implies tk == tombstone_key_of(
        s1.tombs()[tk].entity_type@,
        s1.tombs()[tk].key@,
    ) by {
        if tk != tk0 {
            assert(s1.tombs().remove(tk0).contains_key(tk));
            assert(s0.tombs().remove(tk0).contains_key(tk));
            assert(s1.tombs().remove(tk0)[tk] == s1.tombs()[tk]);
            assert(s0.tombs().remove(tk0)[tk] == s0.tombs()[tk]);
        }
    }
    lemma_distinct_same_shape(s1, s0);
    if s0.index_names_distinct() {
        law_delete_keeps_indexes(s1, s0, t, k, now);
    }
    if s0.max_bytes() < usize::MAX {
        law_delete_keeps_balance(s1, s0, t, k, now);
    }
}

/// The tombstone that the deletes of `order` leave last under `tk` is
/// filed under `tk`.
proof fn lemma_last_tomb_key(order: Seq<IndexPair>, tk: Seq<char>)
    requires
        tomb_keys(order.to_set()).contains(tk),
    ensures
        tombstone_key_of(last_with_tomb_key(order, tk).0, last_with_tomb_key(order, tk).1) == tk,
    decreases order.len(),
{
    let p = choose|p: IndexPair| order.to_set().contains(p) && tombstone_key_of(p.0, p.1) == tk;
    let last = order.last();
    if tombstone_key_of(last.0, last.1) != tk {
        let i = choose|i: int| 0 <= i < order.len() && order[i] == p;
        assert(i != order.len() - 1);
        assert(order.drop_last()[i] == p);
        assert(order.drop_last().to_set().contains(p));
        assert(tomb_keys(order.drop_last().to_set()).contains(tk));
        lemma_last_tomb_key(order.drop_last(), tk);
    }
}

/// A retention sweep keeps what every operation keeps.
proof fn lemma_kept_sweep(
    s3: Store,
    s2: Store,
    s1: Store,
    s0: Store,
    order: Seq<IndexPair>,
    now: u64,
    ttl: u64,
    trimmed: int,
)
    requires
        s0.wf(),
        s0.kept(),
        order.no_duplicates(),
        order.to_set() == s0.expired_keys(now),
        s1.evicted_along(&s0, order),
        s2.cleaned(&s1, now, ttl),
        s3.collections_trimmed(&s2, now, trimmed),
    ensures
        s3.kept(),
{
    assert forall|tk: Seq<char>| #[trigger] s1.tombs().contains_key(tk) implies tk == tombstone_key_of(
        s1.tombs()[tk].entity_type@,
        s1.tombs()[tk].key@,
    ) by {
        if tomb_keys(order.to_set()).contains(tk) {
            lemma_last_tomb_key(order, tk);
        } else {
            assert(s1.tombs().dom().contains(tk));
            assert(s0.tombs().dom().contains(tk));
        }
    }
    assert forall|tk: Seq<char>| #[trigger] s2.tombs().contains_key(tk) implies tk == tombstone_key_of(
        s2.tombs()[tk].entity_type@,
        s2.tombs()[tk].key@,
    ) by {
        assert(s1.tombs().remove_keys(s1.stale_tombs(now, ttl)).contains_key(tk));
        assert(s1.tombs().contains_key(tk));
    }
    lemma_collections_only(s3, s2);
    lemma_distinct_same_shape(s1, s0);
    lemma_distinct_same_shape(s2, s1);
    lemma_distinct_same_shape(s3, s2);
    if s0.index_names_distinct() {
        law_sweep_keeps_indexes(s3, s2, s1, s0, order, now, ttl, trimmed);
    }
    if s0.max_bytes() < usize::MAX {
        law_sweep_keeps_balance(s3, s2, s1, s0, order, now, ttl, trimmed);
    }
}

/// A change to the collections alone keeps what every operation keeps.
pub proof fn law_collections_keep_kept(s1: Store, s0: Store)
    requires
        s0.kept(),
        s1.same_but_collections(&s0),
    ensures
        s1.kept(),
{
    lemma_collections_only(s1, s0);
    lemma_kept_same(s1, s0);
}

/// The estimate of the record that an operation writes, if it writes one.
pub open spec fn op_written_size(op: StoreOp) -> int {
    match (op.op, op.value) {
        (StoreOpKind::Upsert, Some(v)) => record_size(op.entity_type@, op.key@, v),
        _ => 0,
    }
}

/// The estimates of the records that a batch's writes carry.
pub open spec fn ops_written_size(ops: Seq<StoreOp>) -> int
    decreases ops.len(),
{
    if ops.len() == 0 {
        0
    } else {
        op_written_size(ops[0]) + ops_written_size(ops.drop_first())
    }
}

proof fn lemma_ops_written_nonneg(ops: Seq<StoreOp>)
    ensures
        ops_written_size(ops) >= 0,
    decreases ops.len(),
{
    if ops.len() > 0 {
        lemma_ops_written_nonneg(ops.drop_first());
    }
}

/// One operation of a batch that succeeds keeps what every operation keeps,
/// given, where no limit is set, room for what it writes; it adds to the
/// counter at most the estimate it writes.
proof fn lemma_kept_op(s1: Store, s0: Store, op: StoreOp)
    requires
        s0.wf(),
        s0.kept(),
        op_effect(s1, s0, op, Ok(())),
        s0.max_bytes() > 0 || s0.memory() + op_written_size(op) <= usize::MAX,
    ensures
        s1.kept(),
        s1.max_bytes() == s0.max_bytes(),
        s0.max_bytes() == 0 ==> s1.memory() <= s0.memory() + op_written_size(op),
{
    let t = op.entity_type@;
    let k = op.key@;
    match op.op {
        StoreOpKind::Upsert => match op.value {
            None => {},
            Some(v) => {
                let now = choose|now: u64| s1.written(&s0, t, k, v, now);
                if s0.max_bytes() == 0 {
                    lemma_balanced_covers(s0, t, k);
                    assert(s0.held_size(t, k) >= 0);
                }
                lemma_kept_write(s1, s0, t, k, v, now);
            },
        },
        StoreOpKind::Delete => {
            if s0.record(t, k) is None {
                lemma_kept_same(s1, s0);
            } else {
                let now = choose|now: u64| s1.removed(&s0, t, k, now);
                if s0.max_bytes() == 0 {
                    lemma_balanced_covers(s0, t, k);
                    law_delete_releases_memory(s1, s0, t, k, now);
                }
                lemma_kept_delete(s1, s0, t, k, now);
            }
        },
        StoreOpKind::Push => {
            law_collections_keep_kept(s1, s0);
        },
        StoreOpKind::RemoveItem => {
            law_collections_keep_kept(s1, s0);
        },
    }
}

proof fn lemma_trace_kept(states: Seq<Store>, ops: Seq<StoreOp>, res: Result<(), ApplyOpsError>, j: int)
    requires
        ops_trace(states, ops, res),
        0 <= j < states.len(),
        states[j].kept(),
        states[j].max_bytes() > 0 || states[j].memory() + ops_written_size(ops.skip(j)) <= usize::MAX,
    ensures
        states.last().kept(),
    decreases states.len() - j,
{
    if j < states.len() - 1 {
        assert(states[j].wf());
        assert(ops.skip(j).drop_first() =~= ops.skip(j + 1));
        assert(ops.skip(j)[0] == ops[j]);
        lemma_ops_written_nonneg(ops.skip(j + 1));
        lemma_kept_op(states[j + 1], states[j], ops[j]);
        lemma_trace_kept(states, ops, res, j + 1);
    }
}

/// A batch keeps what every operation keeps, given, where no limit is set,
/// room for all that its writes carry.
proof fn lemma_kept_batch(s1: Store, s0: Store, ops: Seq<StoreOp>, res: Result<(), ApplyOpsError>)
    requires
        s0.kept(),
        s1.applied(&s0, ops, res),
        s0.max_bytes() > 0 || s0.memory() + ops_written_size(ops) <= usize::MAX,
    ensures
        s1.kept(),
{
    assert(ops.skip(0) =~= ops);
    let states = choose|states: Seq<Store>|
        {
            &&& ops_trace(states, ops, res)
            &&& states[0] == s0
            &&& states.last() == s1
        };
    lemma_trace_kept(states, ops, res, 0);
}

/// Within one entity type, the store name of an index tells its name.
proof fn lemma_internal_name_injective(t: Seq<char>, a: Seq<char>, b: Seq<char>)
    requires
        internal_name(t, a) == internal_name(t, b),
    ensures
        a == b,
{
    let na = internal_name(t, a);
    let nb = internal_name(t, b);
    assert(a =~= na.subrange(t.len() as int + 1, na.len() as int));
    assert(b =~= nb.subrange(t.len() as int + 1, nb.len() as int));
}

/// A key stands among the keys filed under `x` exactly when the pair is
/// listed.
proof fn lemma_keys_with_contains(s: Seq<IndexPair>, x: Seq<char>, k: Seq<char>)
    ensures
        keys_with(s, x).contains(k) == s.contains((x, k)),
    decreases s.len(),
{
    if s.len() > 0 {
        lemma_keys_with_contains(s.drop_last(), x, k);
        let r = keys_with(s.drop_last(), x);
        if s.contains((x, k)) {
            let i = choose|i: int| 0 <= i < s.len() && s[i] == (x, k);
            if i < s.len() - 1 {
                assert(s.drop_last()[i] == (x, k));
                assert(s.drop_last().contains((x, k)));
                let q = choose|q: int| 0 <= q < r.len() && r[q] == k;
                if s.last().0 == x {
                    assert(r.push(s.last().1)[q] == k);
                }
            } else {
                assert(s.last() == (x, k));
                assert(r.push(k)[r.len() as int] == k);
            }
        }
        if keys_with(s, x).contains(k) {
            let q = choose|q: int| 0 <= q < keys_with(s, x).len() && keys_with(s, x)[q] == k;
            if s.last().0 == x && q == r.len() {
                assert(s[s.len() - 1] == (x, k));
            } else {
                assert(r[q] == k);
                assert(r.contains(k));
                let i = choose|i: int| 0 <= i < s.drop_last().len() && s.drop_last()[i] == (x, k);
                assert(s[i] == (x, k));
            }
        }
    }
}

/// A range from `x` to `x` holds the keys filed under `x`.
proof fn lemma_range_point(s: Seq<IndexPair>, x: Seq<char>)
    ensures
        range_keys(s, Some(x), Some(x), 0) == keys_with(s, x),
    decreases s.len(),
{
    if s.len() > 0 {
        lemma_range_point(s.drop_last(), x);
        crate::text::lemma_seq_lt_total(s.last().0, x);
        crate::text::lemma_seq_lt_irreflexive(x);
        assert(in_range(s.last().0, Some(x), Some(x)) == (s.last().0 == x));
    }
}

/// After a write, where no two entity types share an index's store name
/// and the entity type names index `j` once, the key written stands in that
/// index exactly under the key of the value's indexed field, and under no
/// value when the value lacks the field; a hash or membership index's lookup
/// of that value lists it, and so does a sorted index's range lookup from
/// that value to itself, and no lookup of another value does.
pub proof fn law_write_files_key(
    s1: Store,
    s0: Store,
    t: Seq<char>,
    k: Seq<char>,
    v: JsonValue,
    now: u64,
    j: int,
    x: Seq<char>,
)
    requires
        s0.wf(),
        s0.kept(),
        s0.index_names_distinct(),
        s1.written(&s0, t, k, v, now),
        s0.has_entity(t),
        0 <= j < s0.schema_of(t).indexes@.len(),
        forall|j2: int|
            0 <= j2 < s0.schema_of(t).indexes@.len() && j2 != j ==> (#[trigger] s0.schema_of(t).indexes@[j2]).name@
                != s0.schema_of(t).indexes@[j].name@,
    ensures
        ({
            let idx = s0.schema_of(t).indexes@[j];
            let n = internal_name(t, idx.name@);
            let filed = index_key(json_get(v, idx.field@)) == Some(x);
            &&& is_hash_kind(idx.kind) ==> (s1.hash_index().rel(n).contains((x, k)) <==> filed)
            &&& is_hash_kind(idx.kind) ==> (keys_with(s1.hash_index().list(n), x).contains(k) <==> filed)
            &&& !is_hash_kind(idx.kind) ==> (s1.sorted_index().rel(n).contains((x, k)) <==> filed)
            &&& !is_hash_kind(idx.kind) ==> (range_keys(s1.sorted_index().list(n), Some(x), Some(x), 0).contains(k)
                <==> filed)
        }),
{
    let sch = s0.schema_of(t);
    let idx = sch.indexes@[j];
    let n = internal_name(t, idx.name@);
    let hash = is_hash_kind(idx.kind);
    let p: IndexPair = (x, k);
    let filed = index_key(json_get(v, idx.field@)) == Some(x);
    law_write_keeps_indexes(s1, s0, t, k, v, now);
    assert(s1.indexed());
    assert(s1.schema_of(t) == sch);
    assert(s1.record(t, k) is Some);
    assert(s1.record(t, k)->0.value == v);
    assert(record_entries(t, sch, k, v, hash, n).contains(p) == filed) by {
        if record_entries(t, sch, k, v, hash, n).contains(p) {
            let j1 = choose|j1: int|
                0 <= j1 < sch.indexes@.len() && j1 < sch.indexes@.len() && is_hash_kind(
                    #[trigger] sch.indexes@[j1].kind,
                ) == hash && internal_name(t, sch.indexes@[j1].name@) == n && index_key(
                    json_get(v, sch.indexes@[j1].field@),
                ) == Some(p.0);
            lemma_internal_name_injective(t, sch.indexes@[j1].name@, idx.name@);
            assert(j1 == j);
        }
        if filed {
            assert(is_hash_kind(sch.indexes@[j].kind) == hash);
            assert(entries_upto(t, sch, k, v, hash, n, sch.indexes@.len() as int).contains(p));
        }
    }
    assert(s1.stored_entries(hash, n).contains(p) == filed) by {
        if s1.stored_entries(hash, n).contains(p) {
            let t2 = choose|t2: Seq<char>|
                #[trigger] s1.record(t2, p.1) is Some && record_entries(
                    t2,
                    s1.schema_of(t2),
                    p.1,
                    s1.record(t2, p.1)->0.value,
                    hash,
                    n,
                ).contains(p);
            if t2 != t {
                s1.lemma_entry_names_index(t2, k, s1.record(t2, k)->0.value, hash, n, p);
                let j2 = choose|j2: int|
                    0 <= j2 < s1.schema_of(t2).indexes@.len() && #[trigger] internal_name(
                        t2,
                        s1.schema_of(t2).indexes@[j2].name@,
                    ) == n;
                assert(s1.has_entity(t2));
                assert(s1.has_entity(t));
                assert(internal_name(t2, s1.schema_of(t2).indexes@[j2].name@) != internal_name(
                    t,
                    s1.schema_of(t).indexes@[j].name@,
                ));
            }
        }
        if filed {
            assert(s1.record(t, p.1) is Some);
        }
    }
    if hash {
        assert(s1.hash_index().rel(n) == s1.stored_entries(true, n));
        lemma_keys_with_contains(s1.hash_index().list(n), x, k);
    } else {
        assert(s1.sorted_index().rel(n) == s1.stored_entries(false, n));
        lemma_range_point(s1.sorted_index().list(n), x);
        lemma_keys_with_contains(s1.sorted_index().list(n), x, k);
    }
}

/// A retention sweep at `now` with a positive tombstone time to live keeps
/// every tombstone that its own evictions wrote: each is stamped `now`, so
/// none of them is due for removal in that sweep, and each is still there,
/// naming the record evicted, once the stale ones are gone.
pub proof fn law_sweep_keeps_own_tombstones(
    s2: Store,
    s1: Store,
    s0: Store,
    order: Seq<IndexPair>,
    now: u64,
    ttl: u64,
)
    requires
        s1.evicted_along(&s0, order),
        s1.evictions_stamped(order, now),
        s2.cleaned(&s1, now, ttl),
        ttl > 0,
    ensures
        forall|tk: Seq<char>|
            #[trigger] tomb_keys(order.to_set()).contains(tk) ==> !s1.stale_tombs(now, ttl).contains(tk)
                && s2.tombs().contains_key(tk) && s2.tombs()[tk].deleted_at_ms == now,
        forall|p: IndexPair|
            #[trigger] order.contains(p) ==> s2.tombs().contains_key(tombstone_key_of(p.0, p.1)),
{
    assert forall|tk: Seq<char>|
        #[trigger] tomb_keys(order.to_set()).contains(tk) implies !s1.stale_tombs(now, ttl).contains(tk)
            && s2.tombs().contains_key(tk) && s2.tombs()[tk].deleted_at_ms == now by {
        assert(s1.tombs().dom().contains(tk));
        assert(s1.tombs()[tk].deleted_at_ms == now);
        assert(now.saturating_sub(now) == 0);
        assert(millis_of(ttl) > 0);
        assert(!tomb_stale(s1.tombs()[tk], now, ttl));
        assert(s1.tombs().remove_keys(s1.stale_tombs(now, ttl)).contains_key(tk));
    }
    assert forall|p: IndexPair| #[trigger] order.contains(p) implies s2.tombs().contains_key(tombstone_key_of(p.0, p.1)) by {
        assert(order.to_set().contains(p));
        assert(tomb_keys(order.to_set()).contains(tombstone_key_of(p.0, p.1)));
    }
}

/// A removal operation that names an item id removes the item of that id,
/// whatever value it carries: it is never refused for want of an id, and on
/// a collection of the schema it succeeds and takes that id out of the
/// partition named by its key.
pub proof fn law_removal_uses_item_id(after: Store, before: Store, op: StoreOp, res: Result<(), ApplyOpsError>)
    requires
        op.op == StoreOpKind::RemoveItem,
        op.item_id is Some,
        op_effect(after, before, op, res),
    ensures
        forall|id: String, v: Option<JsonValue>| #[trigger] remove_item_id(Some(id), v) == Some(id@),
        !(res matches Err(ApplyOpsError::MissingRemoveItemId)),
        before.collections().has(op.entity_type@) ==> res is Ok && exists|found: bool|
            after.collections().removed_from(
                &before.collections(),
                op.entity_type@,
                op.key@,
                op.item_id->0@,
                found,
            ),
        !before.collections().has(op.entity_type@) ==> after == before,
{
    assert(remove_item_id(op.item_id, op.value) == Some(op.item_id->0@));
}

} // verus!

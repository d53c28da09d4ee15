//! The data schema (`schema.yaml`): entities, their fields, indexes and
//! retention.

use vstd::prelude::*;

verus! {

/// Whether an entity is a keyed record type or a partitioned collection.
#[derive(Debug, Clone, Copy, PartialEq, Eq, Structural)]
pub enum EntityType {
    Entity,
    Collection,
}

/// How an index is kept: by exact value, or ordered for range lookups.
#[derive(Debug, Clone, Copy, PartialEq, Eq, Structural)]
pub enum IndexKind {
    Hash,
    Sorted,
    Membership,
}

#[derive(Debug, Clone)]
pub struct FieldConfig {
    pub name: String,
    /// `type` in the YAML file.
    pub field_type: String,
}

#[derive(Debug, Clone)]
pub struct IndexConfig {
    pub name: String,
    pub field: String,
    pub kind: IndexKind,
}

#[derive(Debug, Clone, Copy)]
pub struct RetentionConfig {
    pub ttl_seconds: Option<u64>,
}

#[derive(Debug, Clone)]
pub struct EntitySchema {
    pub name: String,
    /// `type` in the YAML file.
    pub entity_type: EntityType,
    pub primary_key: String,
    pub fields: Vec<FieldConfig>,
    pub indexes: Vec<IndexConfig>,
    pub retention: Option<RetentionConfig>,
    pub partition_key: Option<String>,
    pub order_by: Option<String>,
    pub max_per_partition: Option<usize>,
}

#[derive(Debug, Clone)]
pub struct SchemaConfig {
    pub entities: Vec<EntitySchema>,
}

/// The entity's time to live, if its retention sets one.
pub open spec fn schema_ttl(e: EntitySchema) -> Option<u64> {
    match e.retention {
        Some(r) => r.ttl_seconds,
        None => None,
    }
}

/// Two definitions agree field by field (lists by their elements).
pub open spec fn schema_same(a: EntitySchema, b: EntitySchema) -> bool {
    &&& a.name == b.name
    &&& a.entity_type == b.entity_type
    &&& a.primary_key == b.primary_key
    &&& a.fields@ == b.fields@
    &&& a.indexes@ == b.indexes@
    &&& a.retention == b.retention
    &&& a.partition_key == b.partition_key
    &&& a.order_by == b.order_by
    &&& a.max_per_partition == b.max_per_partition
}

impl FieldConfig {
    /// A copy of the field definition.
    pub fn copy(&self) -> (r: Self)
        ensures
            r == *self,
    {
        FieldConfig { name: self.name.clone(), field_type: self.field_type.clone() }
    }
}

impl IndexConfig {
    /// A copy of the index definition.
    pub fn copy(&self) -> (r: Self)
        ensures
            r == *self,
    {
        IndexConfig { name: self.name.clone(), field: self.field.clone(), kind: self.kind }
    }
}

fn copy_option_string(o: &Option<String>) -> (r: Option<String>)
    ensures
        r == *o,
{
    match o {
        Some(s) => Some(s.clone()),
        None => None,
    }
}

impl EntitySchema {
    /// A copy of the definition.
    pub fn copy(&self) -> (r: Self)
        ensures
            schema_same(r, *self),
    {
        let mut fields: Vec<FieldConfig> = Vec::new();
        let mut i: usize = 0;
        while i < self.fields.len()
            invariant
                i <= self.fields@.len(),
                fields@ == self.fields@.take(i as int),
            decreases self.fields@.len() - i,
        {
            fields.push(self.fields[i].copy());
            i = i + 1;
            assert(fields@ =~= self.fields@.take(i as int));
        }
        let mut indexes: Vec<IndexConfig> = Vec::new();
        let mut j: usize = 0;
        while j < self.indexes.len()
            invariant
                j <= self.indexes@.len(),
                indexes@ == self.indexes@.take(j as int),
            decreases self.indexes@.len() - j,
        {
            indexes.push(self.indexes[j].copy());
            j = j + 1;
            assert(indexes@ =~= self.indexes@.take(j as int));
        }
        assert(fields@ =~= self.fields@);
        assert(indexes@ =~= self.indexes@);
        EntitySchema {
            name: self.name.clone(),
            entity_type: self.entity_type,
            primary_key: self.primary_key.clone(),
            fields,
            indexes,
            retention: self.retention,
            partition_key: copy_option_string(&self.partition_key),
            order_by: copy_option_string(&self.order_by),
            max_per_partition: self.max_per_partition,
        }
    }

    /// The entity's time to live, if its retention sets one.
    pub fn ttl_seconds(&self) -> (r: Option<u64>)
        ensures
            r == schema_ttl(*self),
    {
        match &self.retention {
            Some(r) => r.ttl_seconds,
            None => None,
        }
    }

    /// Whether the entity is a collection.
    pub fn is_collection(&self) -> (r: bool)
        ensures
            r == (self.entity_type == EntityType::Collection),
    {
        match self.entity_type {
            EntityType::Collection => true,
            EntityType::Entity => false,
        }
    }
}

} // verus!

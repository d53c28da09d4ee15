//! Collections: per partition key, a bounded list of items kept in arrival
//! or `order_by` order, scanned newest first.

use std::collections::VecDeque;

use vstd::prelude::*;

use crate::config::schema::{schema_ttl, EntitySchema, EntityType, SchemaConfig};
use crate::json::{json_as_i64, json_as_str, json_as_u64, json_byte_len, json_get, json_same, utf8_len, JsonValue};
use crate::store::dash::{
    partition_table, PartitionMap, partitions_get, partitions_insert, partitions_keys, partitions_len,
    partitions_new, partitions_remove,
};
use crate::store::index::strings_view;
use crate::store::{millis_of, seconds_to_millis};
use crate::text::{blank, is_blank, parse_u64, parse_u64_spec, str_equal};

verus! {

/// An item of a collection partition.
#[derive(Debug)]
pub struct CollectionItem {
    pub id: String,
    pub value: JsonValue,
    pub created_at_ms: u64,
}

/// Two items agree in id and time, their values holding the same document.
pub open spec fn item_same(a: CollectionItem, b: CollectionItem) -> bool {
    &&& a.id == b.id
    &&& json_same(a.value, b.value)
    &&& a.created_at_ms == b.created_at_ms
}

/// Two lists of items agree item by item.
pub open spec fn items_same(a: Seq<CollectionItem>, b: Seq<CollectionItem>) -> bool {
    &&& a.len() == b.len()
    &&& forall|i: int| 0 <= i < a.len() ==> item_same(#[trigger] a[i], b[i])
}

impl CollectionItem {
    /// A copy of the item.
    pub fn copy(&self) -> (r: CollectionItem)
        ensures
            item_same(r, *self),
    {
        CollectionItem {
            id: self.id.clone(),
            value: self.value.deep_copy(),
            created_at_ms: self.created_at_ms,
        }
    }
}

/// Copies of the items of a partition, in order.
pub fn copy_items(items: &VecDeque<CollectionItem>) -> (r: Vec<CollectionItem>)
    ensures
        items_same(r@, items@),
{
    let n = items.len();
    let mut out: Vec<CollectionItem> = Vec::new();
    let mut i: usize = 0;
    while i < n
        invariant
            n == items@.len(),
            i <= n,
            out@.len() == i,
            forall|j: int| 0 <= j < i ==> item_same(#[trigger] out@[j], items@[j]),
        decreases n - i,
    {
        out.push(items[i].copy());
        i = i + 1;
    }
    out
}

/// How a collection is kept.
#[derive(Debug, Clone)]
pub struct CollectionDef {
    /// The field of an item's value that orders its partition.
    pub order_by: Option<String>,
    /// How many items a partition keeps; the oldest leave first.
    pub max_per_partition: Option<usize>,
    /// How long an item lives.
    pub ttl_seconds: Option<u64>,
}

/// Why a collection operation was refused.
#[derive(Debug)]
pub enum CollectionStoreError {
    UnknownCollection(String),
    EmptyItemId,
}

/// The text of a collection error.
pub open spec fn collection_error_text(e: CollectionStoreError) -> Seq<char> {
    match e {
        CollectionStoreError::UnknownCollection(name) => "collection '"@ + name@ + "' is not defined in schema"@,
        CollectionStoreError::EmptyItemId => "collection item id cannot be empty"@,
    }
}

impl CollectionStoreError {
    /// The error's text.
    pub fn message(&self) -> (r: String)
        ensures
            r@ == collection_error_text(*self),
    {
        match self {
            CollectionStoreError::UnknownCollection(name) => crate::text::join3(
                "collection '",
                name.as_str(),
                "' is not defined in schema",
            ),
            CollectionStoreError::EmptyItemId => String::from_str("collection item id cannot be empty"),
        }
    }
}

/// The refusal of an operation on a collection that the schema lacks.
pub open spec fn unknown_collection<T>(r: Result<T, CollectionStoreError>, name: Seq<char>) -> bool {
    r matches Err(CollectionStoreError::UnknownCollection(n)) && n@ == name
}

/// The definition of a collection entity.
pub open spec fn def_of_schema(e: EntitySchema) -> CollectionDef {
    CollectionDef {
        order_by: e.order_by,
        max_per_partition: e.max_per_partition,
        ttl_seconds: schema_ttl(e),
    }
}

/// The definition that the last collection entity named `name` gives, if any.
pub open spec fn last_collection_def(entities: Seq<EntitySchema>, name: Seq<char>) -> Option<
    CollectionDef,
>
    decreases entities.len(),
{
    if entities.len() == 0 {
        None
    } else if entities.last().entity_type == EntityType::Collection && entities.last().name@
        == name {
        Some(def_of_schema(entities.last()))
    } else {
        last_collection_def(entities.drop_last(), name)
    }
}

/// The estimated memory of a collection item.
pub open spec fn item_size(partition: Seq<char>, id: Seq<char>, value: JsonValue) -> int {
    utf8_len(partition) + utf8_len(id) + json_byte_len(value) + 64
}

/// Whether the estimate of an item fits in a `usize`.
pub open spec fn item_fits(partition: Seq<char>, id: Seq<char>, value: JsonValue) -> bool {
    item_size(partition, id, value) <= usize::MAX
}

/// The estimated memory of a list of items.
pub open spec fn items_total(partition: Seq<char>, items: Seq<CollectionItem>) -> int
    decreases items.len(),
{
    if items.len() == 0 {
        0
    } else {
        items_total(partition, items.drop_last()) + item_size(
            partition,
            items.last().id@,
            items.last().value,
        )
    }
}

/// A sum that stops at `usize::MAX`.
pub open spec fn capped(x: int) -> int {
    if x > usize::MAX {
        usize::MAX as int
    } else {
        x
    }
}

/// The memory counter after adding `added` bytes and releasing `removed`:
/// a net growth wraps around, a net release stops at zero.
pub open spec fn apply_delta(memory: usize, added: int, removed: int) -> usize {
    if added >= removed {
        memory.wrapping_add((added - removed) as usize)
    } else if memory >= removed - added {
        (memory - (removed - added)) as usize
    } else {
        0
    }
}

/// The position of the first item with the given id.
pub open spec fn find_id(items: Seq<CollectionItem>, id: Seq<char>) -> Option<int>
    decreases items.len(),
{
    if items.len() == 0 {
        None
    } else if items[0].id@ == id {
        Some(0)
    } else {
        match find_id(items.drop_first(), id) {
            Some(k) => Some(k + 1),
            None => None,
        }
    }
}

/// The items without the first one with the given id.
pub open spec fn without_id(items: Seq<CollectionItem>, id: Seq<char>) -> Seq<CollectionItem> {
    match find_id(items, id) {
        Some(k) => items.remove(k),
        None => items,
    }
}

/// The position of the first item created after `t`, or the end.
pub open spec fn first_after(items: Seq<CollectionItem>, t: u64) -> int
    decreases items.len(),
{
    if items.len() == 0 {
        0
    } else if items[0].created_at_ms > t {
        0
    } else {
        first_after(items.drop_first(), t) + 1
    }
}

/// The items with the oldest dropped beyond `max`.
pub open spec fn keep_newest(items: Seq<CollectionItem>, max: Option<usize>) -> Seq<CollectionItem> {
    match max {
        Some(m) => if items.len() > m {
            items.skip(items.len() - m)
        } else {
            items
        },
        None => items,
    }
}

/// The items that `keep_newest` drops.
pub open spec fn dropped_oldest(items: Seq<CollectionItem>, max: Option<usize>) -> Seq<
    CollectionItem,
> {
    match max {
        Some(m) => if items.len() > m {
            items.take(items.len() - m)
        } else {
            Seq::empty()
        },
        None => Seq::empty(),
    }
}

/// Items in non-decreasing creation time.
pub open spec fn sorted_by_created(items: Seq<CollectionItem>) -> bool {
    forall|i: int, j: int|
        0 <= i <= j < items.len() ==> items[i].created_at_ms <= items[j].created_at_ms
}

/// An item's time: the `order_by` field read as milliseconds when it can be
/// (a non-negative integer, a negative integer counting as zero, or a
/// decimal string), `now_ms` otherwise.
pub open spec fn order_millis(order_by: Option<Seq<char>>, value: JsonValue, now_ms: u64) -> u64 {
    match order_by {
        None => now_ms,
        Some(field) => match json_get(value, field) {
            None => now_ms,
            Some(raw) => if json_as_u64(raw) is Some {
                json_as_u64(raw)->0
            } else if json_as_i64(raw) is Some {
                if json_as_i64(raw)->0 < 0 {
                    0
                } else {
                    json_as_i64(raw)->0 as u64
                }
            } else if json_as_str(raw) is Some && parse_u64_spec(json_as_str(raw)->0) is Some {
                parse_u64_spec(json_as_str(raw)->0)->0
            } else {
                now_ms
            },
        },
    }
}

/// Reads an item's time from its value (see `order_millis`).
pub fn order_value_to_millis(order_by: Option<&str>, value: &JsonValue, now_ms: u64) -> (r: u64)
    ensures
        r == order_millis(crate::text::opt_str(order_by), *value, now_ms),
{
    let field = match order_by {
        None => {
            return now_ms;
        },
        Some(f) => f,
    };
    let raw = match value.get(field) {
        None => {
            return now_ms;
        },
        Some(v) => v,
    };
    if let Some(v) = raw.as_u64() {
        return v;
    }
    if let Some(v) = raw.as_i64() {
        return if v < 0 {
            0
        } else {
            v as u64
        };
    }
    if let Some(s) = raw.as_str() {
        if let Some(parsed) = parse_u64(s.as_str()) {
            return parsed;
        }
    }
    now_ms
}

/// The estimated memory of an item.
pub fn estimate_item_size(partition_key: &str, item_id: &str, value: &JsonValue) -> (r: usize)
    requires
        item_fits(partition_key@, item_id@, *value),
    ensures
        r == item_size(partition_key@, item_id@, *value),
{
    partition_key.len() + item_id.len() + value.byte_len() + 64
}


/// The partition after a push of `item`: an item with the same id leaves,
/// the new one goes at the end (or, in an ordered collection, after every
/// item not newer than it), and the oldest leave beyond the bound.
pub open spec fn pushed(items: Seq<CollectionItem>, def: CollectionDef, item: CollectionItem) -> Seq<
    CollectionItem,
> {
    keep_newest(placed(without_id(items, item.id@), def, item), def.max_per_partition)
}

/// The partition with the new item put in its place, before the bound applies.
pub open spec fn placed(kept: Seq<CollectionItem>, def: CollectionDef, item: CollectionItem) -> Seq<
    CollectionItem,
> {
    if def.order_by is Some {
        kept.insert(first_after(kept, item.created_at_ms), item)
    } else {
        kept.push(item)
    }
}

/// The bytes that a push releases: the replaced item and the evicted ones.
pub open spec fn push_released(
    partition: Seq<char>,
    items: Seq<CollectionItem>,
    def: CollectionDef,
    item: CollectionItem,
) -> int {
    let replaced = match find_id(items, item.id@) {
        Some(k) => item_size(partition, items[k].id@, items[k].value),
        None => 0,
    };
    capped(
        replaced + items_total(
            partition,
            dropped_oldest(placed(without_id(items, item.id@), def, item), def.max_per_partition),
        ),
    )
}

pub proof fn lemma_find_id(items: Seq<CollectionItem>, id: Seq<char>)
    ensures
        find_id(items, id) matches Some(k) ==> 0 <= k < items.len() && items[k].id@ == id && (
        forall|j: int| 0 <= j < k ==> items[j].id@ != id),
        find_id(items, id) is None ==> forall|j: int| 0 <= j < items.len() ==> items[j].id@ != id,
    decreases items.len(),
{
    if items.len() > 0 {
        lemma_find_id(items.drop_first(), id);
        if items[0].id@ != id {
            assert forall|j: int| 1 <= j < items.len() implies items[j].id@ == items.drop_first()[j
                - 1].id@ by {}
        }
    }
}

pub proof fn lemma_first_after(items: Seq<CollectionItem>, t: u64)
    ensures
        0 <= first_after(items, t) <= items.len(),
        forall|j: int| 0 <= j < first_after(items, t) ==> items[j].created_at_ms <= t,
        first_after(items, t) < items.len() ==> items[first_after(items, t)].created_at_ms > t,
    decreases items.len(),
{
    if items.len() > 0 && items[0].created_at_ms <= t {
        lemma_first_after(items.drop_first(), t);
        assert forall|j: int| 1 <= j < items.len() implies items[j] == items.drop_first()[j
            - 1] by {}
    }
}

proof fn lemma_items_total_step(partition: Seq<char>, items: Seq<CollectionItem>, k: int)
    requires
        0 <= k < items.len(),
    ensures
        items_total(partition, items.take(k + 1)) == items_total(partition, items.take(k))
            + item_size(partition, items[k].id@, items[k].value),
{
    assert(items.take(k + 1).drop_last() =~= items.take(k));
}

proof fn lemma_items_total_nonneg(partition: Seq<char>, items: Seq<CollectionItem>)
    ensures
        items_total(partition, items) >= 0,
    decreases items.len(),
{
    if items.len() > 0 {
        lemma_items_total_nonneg(partition, items.drop_last());
    }
}

/// How many items a scan returns: `limit` of them, or all when `limit` is
/// zero or larger than the partition.
pub open spec fn scan_count(len: nat, limit: usize) -> nat {
    if limit == 0 || limit > len {
        len
    } else {
        limit as nat
    }
}

/// The items that a scan of one partition takes: the newest first.
pub open spec fn scan_items(items: Seq<CollectionItem>, limit: usize) -> Seq<CollectionItem> {
    items.reverse().take(scan_count(items.len(), limit) as int)
}

/// The items that a scan over several partitions takes, partition by
/// partition, before they are ordered.
pub open spec fn multi_scan_items(
    parts: Map<Seq<char>, Seq<CollectionItem>>,
    keys: Seq<Seq<char>>,
    limit: usize,
) -> Seq<CollectionItem>
    decreases keys.len(),
{
    if keys.len() == 0 {
        Seq::empty()
    } else {
        let rest = multi_scan_items(parts, keys.drop_last(), limit);
        if parts.contains_key(keys.last()) {
            rest + scan_items(parts[keys.last()], limit)
        } else {
            rest
        }
    }
}

/// The position of the first item created before `t`, or the end.
pub open spec fn first_before(items: Seq<CollectionItem>, t: u64) -> int
    decreases items.len(),
{
    if items.len() == 0 {
        0
    } else if items[0].created_at_ms < t {
        0
    } else {
        first_before(items.drop_first(), t) + 1
    }
}

/// The items ordered newest first; items of the same time keep their order.
pub open spec fn newest_first(items: Seq<CollectionItem>) -> Seq<CollectionItem>
    decreases items.len(),
{
    if items.len() == 0 {
        Seq::empty()
    } else {
        let r = newest_first(items.drop_last());
        r.insert(first_before(r, items.last().created_at_ms), items.last())
    }
}

/// The values of a list of items.
pub open spec fn values_of(items: Seq<CollectionItem>) -> Seq<JsonValue> {
    items.map_values(|it: CollectionItem| it.value)
}

/// Two lists of values hold the same documents.
pub open spec fn values_same(a: Seq<JsonValue>, b: Seq<JsonValue>) -> bool {
    &&& a.len() == b.len()
    &&& forall|i: int| 0 <= i < a.len() ==> json_same(#[trigger] a[i], b[i])
}

/// The partitions after the first item with the given id leaves its
/// partition; a partition left empty goes too.
pub open spec fn removed_item(
    parts: Map<Seq<char>, Seq<CollectionItem>>,
    partition: Seq<char>,
    id: Seq<char>,
) -> Map<Seq<char>, Seq<CollectionItem>> {
    if !parts.contains_key(partition) {
        parts
    } else if without_id(parts[partition], id).len() == 0 {
        parts.remove(partition)
    } else {
        parts.insert(partition, without_id(parts[partition], id))
    }
}

pub proof fn lemma_first_before(items: Seq<CollectionItem>, t: u64)
    ensures
        0 <= first_before(items, t) <= items.len(),
        forall|j: int| 0 <= j < first_before(items, t) ==> items[j].created_at_ms >= t,
        first_before(items, t) < items.len() ==> items[first_before(items, t)].created_at_ms < t,
    decreases items.len(),
{
    if items.len() > 0 && items[0].created_at_ms >= t {
        lemma_first_before(items.drop_first(), t);
        assert forall|j: int| 1 <= j < items.len() implies items[j] == items.drop_first()[j
            - 1] by {}
    }
}

/// Items that agree one by one are ordered alike.
proof fn lemma_newest_first_same(a: Seq<CollectionItem>, b: Seq<CollectionItem>)
    requires
        items_same(a, b),
    ensures
        items_same(newest_first(a), newest_first(b)),
    decreases a.len(),
{
    if a.len() > 0 {
        assert(items_same(a.drop_last(), b.drop_last())) by {
            assert forall|i: int| 0 <= i < a.drop_last().len() implies item_same(
                #[trigger] a.drop_last()[i],
                b.drop_last()[i],
            ) by {
                assert(item_same(a[i], b[i]));
            }
        }
        lemma_newest_first_same(a.drop_last(), b.drop_last());
        let ra = newest_first(a.drop_last());
        let rb = newest_first(b.drop_last());
        let t = a.last().created_at_ms;
        assert(item_same(a[a.len() - 1], b[b.len() - 1]));
        lemma_first_before_same(ra, rb, t);
        let p = first_before(ra, t);
        lemma_first_before(ra, t);
        assert forall|i: int| 0 <= i < ra.len() + 1 implies item_same(
            #[trigger] ra.insert(p, a.last())[i],
            rb.insert(p, b.last())[i],
        ) by {
            if i < p {
                assert(item_same(ra[i], rb[i]));
            } else if i > p {
                assert(item_same(ra[i - 1], rb[i - 1]));
            }
        }
    }
}

proof fn lemma_first_before_same(a: Seq<CollectionItem>, b: Seq<CollectionItem>, t: u64)
    requires
        items_same(a, b),
    ensures
        first_before(a, t) == first_before(b, t),
    decreases a.len(),
{
    if a.len() > 0 {
        assert(item_same(a[0], b[0]));
        assert(items_same(a.drop_first(), b.drop_first())) by {
            assert forall|i: int| 0 <= i < a.drop_first().len() implies item_same(
                #[trigger] a.drop_first()[i],
                b.drop_first()[i],
            ) by {
                assert(item_same(a[i + 1], b[i + 1]));
            }
        }
        lemma_first_before_same(a.drop_first(), b.drop_first(), t);
    }
}

/// One collection: its name, definition and partitions.
pub struct CollectionTable {
    name: String,
    def: CollectionDef,
    partitions: PartitionMap,
}

/// The collections of a schema.
pub struct CollectionStore {
    tables: Vec<CollectionTable>,
    memory_bytes: usize,
}

/// The position of the table named `name`.
pub closed spec fn table_at(tables: Seq<CollectionTable>, name: Seq<char>) -> int {
    choose|i: int| 0 <= i < tables.len() && tables[i].name@ == name
}

/// Every item's estimate fits in a `usize`.
pub open spec fn partition_fits(partition: Seq<char>, items: Seq<CollectionItem>) -> bool {
    forall|k: int| 0 <= k < items.len() ==> item_fits(partition, #[trigger] items[k].id@, items[k].value)
}

/// A partition map whose partitions all fit, and are sorted when `ordered`.
pub open spec fn partitions_ok(parts: Map<Seq<char>, Seq<CollectionItem>>, ordered: bool) -> bool {
    &&& parts.dom().finite()
    &&& forall|p: Seq<char>| #[trigger] parts.contains_key(p) ==> partition_fits(p, parts[p])
    &&& ordered ==> forall|p: Seq<char>| #[trigger] parts.contains_key(p) ==> sorted_by_created(parts[p])
}

/// A collection table whose partitions are well kept.
pub closed spec fn table_ok(t: CollectionTable) -> bool {
    partitions_ok(partition_table(t.partitions), t.def.order_by is Some)
}

impl CollectionStore {
    /// Whether a collection of that name exists.
    pub closed spec fn has(&self, name: Seq<char>) -> bool {
        exists|i: int| 0 <= i < self.tables@.len() && self.tables@[i].name@ == name
    }

    /// The definition of a collection.
    pub closed spec fn def_of(&self, name: Seq<char>) -> CollectionDef {
        self.tables@[table_at(self.tables@, name)].def
    }

    /// The partitions of a collection, by partition key.
    pub closed spec fn parts(&self, name: Seq<char>) -> Map<Seq<char>, Seq<CollectionItem>> {
        partition_table(self.tables@[table_at(self.tables@, name)].partitions)
    }

    /// The memory counter.
    pub closed spec fn memory(&self) -> usize {
        self.memory_bytes
    }

    /// The items of a partition (none when it is absent).
    pub open spec fn items_of(&self, name: Seq<char>, partition: Seq<char>) -> Seq<CollectionItem> {
        if self.parts(name).contains_key(partition) {
            self.parts(name)[partition]
        } else {
            Seq::empty()
        }
    }

    /// Table names are unique; every stored item's estimate fits; partitions
    /// of an ordered collection are sorted by time.
    pub closed spec fn wf(&self) -> bool {
        &&& forall|i: int, j: int|
            0 <= i < j < self.tables@.len() ==> self.tables@[i].name@ != self.tables@[j].name@
        &&& forall|i: int| 0 <= i < self.tables@.len() ==> table_ok(#[trigger] self.tables@[i])
    }

    proof fn lemma_table_at(&self, i: int)
        requires
            self.wf(),
            0 <= i < self.tables@.len(),
        ensures
            table_at(self.tables@, self.tables@[i].name@) == i,
            self.has(self.tables@[i].name@),
    {
        let n = self.tables@[i].name@;
        assert(0 <= i < self.tables@.len() && self.tables@[i].name@ == n);
        let j = table_at(self.tables@, n);
        if j != i {
            if j < i {
                assert(self.tables@[j].name@ != self.tables@[i].name@);
            } else {
                assert(self.tables@[i].name@ != self.tables@[j].name@);
            }
        }
    }

    /// Finds the table of a collection.
    fn find(&self, name: &str) -> (r: Option<usize>)
        requires
            self.wf(),
        ensures
            r is Some == self.has(name@),
            r matches Some(i) ==> i < self.tables@.len() && table_at(self.tables@, name@) == i
                && self.tables@[i as int].name@ == name@,
    {
        let n = self.tables.len();
        let mut i: usize = 0;
        while i < n
            invariant
                self.wf(),
                n == self.tables@.len(),
                i <= n,
                forall|j: int| 0 <= j < i ==> self.tables@[j].name@ != name@,
            decreases n - i,
        {
            if str_equal(self.tables[i].name.as_str(), name) {
                proof {
                    self.lemma_table_at(i as int);
                }
                return Some(i);
            }
            i = i + 1;
        }
        None
    }

    /// The collections of a schema, with no items.
    pub fn new(schema: &SchemaConfig) -> (r: Self)
        ensures
            r.wf(),
            r.memory() == 0,
            forall|name: Seq<char>|
                #![trigger r.has(name)]
                r.has(name) == (last_collection_def(schema.entities@, name) is Some),
            forall|name: Seq<char>|
                #![trigger r.def_of(name)]
                r.has(name) ==> Some(r.def_of(name)) == last_collection_def(
                    schema.entities@,
                    name,
                ) && r.parts(name) == Map::<Seq<char>, Seq<CollectionItem>>::empty(),
    {
        let mut tables: Vec<CollectionTable> = Vec::new();
        let n = schema.entities.len();
        let mut e: usize = 0;
        while e < n
            invariant
                n == schema.entities@.len(),
                e <= n,
                forall|i: int, j: int|
                    0 <= i < j < tables@.len() ==> tables@[i].name@ != tables@[j].name@,
                forall|i: int|
                    0 <= i < tables@.len() ==> partition_table(#[trigger] tables@[i].partitions)
                        == Map::<Seq<char>, Seq<CollectionItem>>::empty(),
                forall|name: Seq<char>|
                    (exists|i: int| 0 <= i < tables@.len() && tables@[i].name@ == name) == (
                    last_collection_def(schema.entities@.take(e as int), name) is Some),
                forall|i: int|
                    0 <= i < tables@.len() ==> Some((#[trigger] tables@[i]).def)
                        == last_collection_def(schema.entities@.take(e as int), tables@[i].name@),
            decreases n - e,
        {
            proof {
                assert(schema.entities@.take(e + 1).drop_last() =~= schema.entities@.take(e as int));
            }
            let entity = &schema.entities[e];
            if entity.is_collection() {
                let def = CollectionDef {
                    order_by: entity.order_by.clone(),
                    max_per_partition: entity.max_per_partition,
                    ttl_seconds: entity.ttl_seconds(),
                };
                assert(def == def_of_schema(*entity));
                let table = CollectionTable {
                    name: entity.name.clone(),
                    def,
                    partitions: partitions_new(),
                };
                let mut k: usize = 0;
                let m = tables.len();
                let mut found: Option<usize> = None;
                while k < m
                    invariant
                        m == tables@.len(),
                        k <= m,
                        found is None ==> forall|j: int| 0 <= j < k ==> tables@[j].name@ != entity.name@,
                        found matches Some(f) ==> f < m && tables@[f as int].name@ == entity.name@,
                    decreases m - k,
                {
                    if found.is_none() && str_equal(tables[k].name.as_str(), entity.name.as_str()) {
                        found = Some(k);
                    }
                    k = k + 1;
                }
                let ghost before = tables@;
                match found {
                    Some(f) => {
                        tables.set(f, table);
                    },
                    None => {
                        tables.push(table);
                    },
                }
                proof {
                    let ghost pos: int = match found {
                        Some(f) => f as int,
                        None => before.len() as int,
                    };
                    assert(tables@[pos].name@ == entity.name@);
                    assert forall|j: int| 0 <= j < tables@.len() && j != pos implies tables@[j]
                        == before[j] by {}
                    assert forall|name: Seq<char>|
                        #![trigger last_collection_def(schema.entities@.take(e + 1), name)]
                        (exists|i: int| 0 <= i < tables@.len() && tables@[i].name@ == name) == (
                        last_collection_def(schema.entities@.take(e + 1), name) is Some) by {
                        assert(schema.entities@.take(e + 1).last() == schema.entities@[e as int]);
                        if name == entity.name@ {
                            assert(tables@[pos].name@ == name);
                            assert(last_collection_def(schema.entities@.take(e + 1), name) is Some);
                        } else {
                            assert(last_collection_def(schema.entities@.take(e as int), name)
                                == last_collection_def(schema.entities@.take(e + 1), name));
                            if exists|i: int| 0 <= i < tables@.len() && tables@[i].name@ == name {
                                let i = choose|i: int|
                                    0 <= i < tables@.len() && tables@[i].name@ == name;
                                assert(before[i].name@ == name);
                            }
                            if exists|i: int| 0 <= i < before.len() && before[i].name@ == name {
                                let i = choose|i: int|
                                    0 <= i < before.len() && before[i].name@ == name;
                                assert(tables@[i].name@ == name);
                            }
                        }
                    }
                }
            }
            e = e + 1;
        }
        assert(schema.entities@.take(n as int) =~= schema.entities@);
        let r = CollectionStore { tables, memory_bytes: 0 };
        assert forall|name: Seq<char>| #![trigger r.def_of(name)]
            r.has(name) implies Some(r.def_of(name)) == last_collection_def(
            schema.entities@,
            name,
        ) && r.parts(name) == Map::<Seq<char>, Seq<CollectionItem>>::empty() by {
            let i = choose|i: int| 0 <= i < r.tables@.len() && r.tables@[i].name@ == name;
            r.lemma_table_at(i);
        }
        r
    }

    /// The number of items in a partition.
    pub fn len(&self, collection_name: &str, partition_key: &str) -> (r: Result<
        usize,
        CollectionStoreError,
    >)
        requires
            self.wf(),
        ensures
            !self.has(collection_name@) ==> unknown_collection(r, collection_name@),
            self.has(collection_name@) ==> (r matches Ok(k) && k == self.items_of(
                collection_name@,
                partition_key@,
            ).len()),
    {
        match self.find(collection_name) {
            None => Err(CollectionStoreError::UnknownCollection(String::from_str(collection_name))),
            Some(i) => {
                let items = partitions_get(&self.tables[i].partitions, partition_key);
                match items {
                    Some(v) => Ok(v.len()),
                    None => Ok(0),
                }
            },
        }
    }

    /// The number of partitions of a collection.
    pub fn partition_count(&self, collection_name: &str) -> (r: Result<usize, CollectionStoreError>)
        requires
            self.wf(),
        ensures
            !self.has(collection_name@) ==> unknown_collection(r, collection_name@),
            self.has(collection_name@) ==> (r matches Ok(k) && k == self.parts(
                collection_name@,
            ).len()),
    {
        match self.find(collection_name) {
            None => Err(CollectionStoreError::UnknownCollection(String::from_str(collection_name))),
            Some(i) => Ok(partitions_len(&self.tables[i].partitions)),
        }
    }

    /// The memory counter: estimated bytes held by items.
    pub fn current_memory_bytes(&self) -> (r: usize)
        ensures
            r == self.memory(),
    {
        self.memory_bytes
    }
}


/// Removes the first item with the given id; hands back its estimated size
/// (zero when there is none).
fn remove_existing(items: &mut VecDeque<CollectionItem>, partition_key: &str, item_id: &str) -> (r:
    usize)
    requires
        partition_fits(partition_key@, old(items)@),
    ensures
        final(items)@ == without_id(old(items)@, item_id@),
        r == match find_id(old(items)@, item_id@) {
            Some(k) => item_size(partition_key@, old(items)@[k].id@, old(items)@[k].value),
            None => 0,
        },
{
    proof {
        lemma_find_id(items@, item_id@);
    }
    match CollectionStore::position_of(items, item_id) {
        Some(p) => {
            let existing = items.remove(p);
            match existing {
                Some(e) => estimate_item_size(partition_key, e.id.as_str(), &e.value),
                None => 0,
            }
        },
        None => 0,
    }
}

/// Puts the item at the end, or, when `ordered`, after every item not newer
/// than it.
fn put_item(items: &mut VecDeque<CollectionItem>, item: CollectionItem, def: &CollectionDef)
    ensures
        final(items)@ == placed(old(items)@, *def, item),
{
    if def.order_by.is_some() {
        let p = CollectionStore::position_after(items, item.created_at_ms);
        proof {
            lemma_first_after(items@, item.created_at_ms);
        }
        items.insert(p, item);
    } else {
        items.push_back(item);
    }
}

/// Drops the oldest items beyond `max`; hands back their estimated size,
/// added to `removed` without passing `usize::MAX`.
fn evict_oldest(
    items: &mut VecDeque<CollectionItem>,
    partition_key: &str,
    max: Option<usize>,
    removed: usize,
) -> (r: usize)
    requires
        partition_fits(partition_key@, old(items)@),
    ensures
        final(items)@ == keep_newest(old(items)@, max),
        r == capped(removed + items_total(partition_key@, dropped_oldest(old(items)@, max))),
{
    let ghost s = items@;
    let mut total = removed;
    match max {
        Some(m) => {
            if items.len() <= m {
                assert(dropped_oldest(s, max) =~= Seq::<CollectionItem>::empty());
                return total;
            }
            assert(s.take(0) =~= Seq::<CollectionItem>::empty());
            while items.len() > m
                invariant
                    s.len() > m,
                    items@.len() >= m,
                    items@.len() <= s.len(),
                    items@ == s.skip(s.len() - items@.len()),
                    total == capped(removed + items_total(partition_key@, s.take(s.len() - items@.len()))),
                    partition_fits(partition_key@, s),
                decreases items@.len(),
            {
                let ghost k = s.len() - items@.len();
                assert(items@[0] == s[k]);
                let evicted = items.pop_front();
                match evicted {
                    Some(ev) => {
                        proof {
                            lemma_items_total_step(partition_key@, s, k);
                            lemma_items_total_nonneg(partition_key@, s.take(k));
                        }
                        let size = estimate_item_size(partition_key, ev.id.as_str(), &ev.value);
                        total = total.saturating_add(size);
                        assert(items@ =~= s.skip(s.len() - items@.len()));
                    },
                    None => {},
                }
            }
            assert(items@ =~= s.skip(s.len() - m));
            total
        },
        None => {
            assert(dropped_oldest(s, max) =~= Seq::<CollectionItem>::empty());
            total
        },
    }
}

/// Pushes an item into a partition (see `pushed`); hands back the bytes
/// released.
fn place_item(
    items: &mut VecDeque<CollectionItem>,
    partition_key: &str,
    item: CollectionItem,
    def: &CollectionDef,
) -> (r: usize)
    requires
        partition_fits(partition_key@, old(items)@),
        item_fits(partition_key@, item.id@, item.value),
        def.order_by is Some ==> sorted_by_created(old(items)@),
    ensures
        final(items)@ == pushed(old(items)@, *def, item),
        r == push_released(partition_key@, old(items)@, *def, item),
        partition_fits(partition_key@, final(items)@),
        def.order_by is Some ==> sorted_by_created(final(items)@),
{
    let ghost s0 = items@;
    let replaced = remove_existing(items, partition_key, item.id.as_str());
    let ghost kept = items@;
    proof {
        lemma_find_id(s0, item.id@);
        assert(partition_fits(partition_key@, kept));
    }
    put_item(items, item, def);
    let ghost put = items@;
    proof {
        lemma_first_after(kept, item.created_at_ms);
        assert(partition_fits(partition_key@, put));
    }
    let r = evict_oldest(items, partition_key, def.max_per_partition, replaced);
    r
}

impl CollectionStore {
    /// The collections, their definitions and every partition of the other
    /// collections are as in `other`.
    pub open spec fn same_but(&self, other: &Self, name: Seq<char>) -> bool {
        &&& self.names() == other.names()
        &&& forall|c: Seq<char>| #[trigger] self.has(c) == other.has(c)
        &&& forall|c: Seq<char>| self.has(c) ==> #[trigger] self.def_of(c) == other.def_of(c)
        &&& forall|c: Seq<char>| c != name && self.has(c) ==> #[trigger] self.parts(c) == other.parts(
            c,
        )
    }

    fn apply_memory_delta(&mut self, added: usize, removed: usize)
        ensures
            final(self).memory() == apply_delta(old(self).memory(), added as int, removed as int),
            final(self).tables == old(self).tables,
    {
        if added >= removed {
            self.memory_bytes = self.memory_bytes.wrapping_add(added - removed);
        } else {
            let diff = removed - added;
            self.memory_bytes = self.memory_bytes.saturating_sub(diff);
        }
    }

    /// The position of the first item with the given id.
    fn position_of(items: &VecDeque<CollectionItem>, item_id: &str) -> (r: Option<usize>)
        ensures
            r matches Some(k) ==> find_id(items@, item_id@) == Some(k as int),
            r is None ==> find_id(items@, item_id@) is None,
    {
        proof {
            lemma_find_id(items@, item_id@);
        }
        let n = items.len();
        let mut i: usize = 0;
        while i < n
            invariant
                n == items@.len(),
                i <= n,
                forall|j: int| 0 <= j < i ==> items@[j].id@ != item_id@,
            decreases n - i,
        {
            if str_equal(items[i].id.as_str(), item_id) {
                proof {
                    lemma_find_id(items@, item_id@);
                    match find_id(items@, item_id@) {
                        Some(k) => {
                            if k < i {
                            } else if k > i {
                            }
                        },
                        None => {},
                    }
                }
                return Some(i);
            }
            i = i + 1;
        }
        proof {
            lemma_find_id(items@, item_id@);
        }
        None
    }

    /// The position of the first item created after `t`.
    fn position_after(items: &VecDeque<CollectionItem>, t: u64) -> (r: usize)
        ensures
            r == first_after(items@, t),
    {
        proof {
            lemma_first_after(items@, t);
        }
        let n = items.len();
        let mut i: usize = 0;
        while i < n
            invariant
                n == items@.len(),
                i <= n,
                i <= first_after(items@, t),
                forall|j: int| 0 <= j < i ==> items@[j].created_at_ms <= t,
                forall|j: int| 0 <= j < first_after(items@, t) ==> items@[j].created_at_ms <= t,
                0 <= first_after(items@, t) <= items@.len(),
                first_after(items@, t) < items@.len() ==> items@[first_after(
                    items@,
                    t,
                )].created_at_ms > t,
            decreases n - i,
        {
            if items[i].created_at_ms > t {
                return i;
            }
            i = i + 1;
        }
        i
    }

    /// What adding the item `id` with `value` to a partition at time `now`
    /// leaves: the partition as `pushed` makes it, the item stamped with the
    /// time its `order_by` field gives (else `now`), the counter moved by the
    /// item's estimate and what the push released.
    pub open spec fn pushed_into(
        &self,
        before: &Self,
        name: Seq<char>,
        partition: Seq<char>,
        id: Seq<char>,
        value: JsonValue,
        now: u64,
    ) -> bool {
        let def = before.def_of(name);
        let items = before.items_of(name, partition);
        &&& self.same_but(before, name)
        &&& exists|x: CollectionItem|
            {
                &&& x.id@ == id
                &&& x.value == value
                &&& x.created_at_ms == order_millis(crate::text::opt_str_of(def.order_by), value, now)
                &&& self.parts(name) == before.parts(name).insert(partition, pushed(items, def, x))
                &&& self.memory() == apply_delta(
                    before.memory(),
                    item_size(partition, id, value),
                    push_released(partition, items, def, x),
                )
            }
    }

    /// Adds an item to a partition at time `now_ms` (the time an item gets
    /// when its value does not give one).
    pub fn push_at(
        &mut self,
        collection_name: &str,
        partition_key: &str,
        item_id: &str,
        value: JsonValue,
        now_ms: u64,
    ) -> (r: Result<(), CollectionStoreError>)
        requires
            old(self).wf(),
            item_fits(partition_key@, item_id@, value),
        ensures
            final(self).wf(),
            blank(item_id@) ==> (r matches Err(CollectionStoreError::EmptyItemId) && *final(self)
                == *old(self)),
            !blank(item_id@) && !old(self).has(collection_name@) ==> unknown_collection(
                r,
                collection_name@,
            ) && *final(self) == *old(self),
            !blank(item_id@) && old(self).has(collection_name@) ==> r is Ok && final(self).pushed_into(
                old(self),
                collection_name@,
                partition_key@,
                item_id@,
                value,
                now_ms,
            ),
    {
        if is_blank(item_id) {
            return Err(CollectionStoreError::EmptyItemId);
        }
        let i = match self.find(collection_name) {
            None => {
                return Err(CollectionStoreError::UnknownCollection(String::from_str(collection_name)));
            },
            Some(i) => i,
        };
        let ghost def = self.tables@[i as int].def;
        let ghost items0 = self.items_of(collection_name@, partition_key@);
        proof {
            assert(table_ok(self.tables@[i as int]));
        }
        let created = match &self.tables[i].def.order_by {
            Some(field) => order_value_to_millis(Some(field.as_str()), &value, now_ms),
            None => order_value_to_millis(None, &value, now_ms),
        };
        let added = estimate_item_size(partition_key, item_id, &value);
        let mut items: VecDeque<CollectionItem> = match partitions_remove(
            &mut self.tables[i].partitions,
            partition_key,
        ) {
            Some(d) => d,
            None => VecDeque::new(),
        };
        assert(items@ == items0);
        let item = CollectionItem { id: String::from_str(item_id), value, created_at_ms: created };
        let ghost x = item;
        let ghost old_self = *old(self);
        proof {
            assert(partition_fits(partition_key@, items0));
        }
        let removed = place_item(&mut items, partition_key, item, &self.tables[i].def);
        let ghost new_items = items@;
        partitions_insert(&mut self.tables[i].partitions, String::from_str(partition_key), items);
        self.apply_memory_delta(added, removed);
        proof {
            assert forall|j: int| 0 <= j < self.tables@.len() && j != i implies self.tables@[j]
                == old_self.tables@[j] by {}
            assert(self.tables@[i as int].name == old_self.tables@[i as int].name);
            assert(self.tables@[i as int].def == old_self.tables@[i as int].def);
            assert(partition_table(self.tables@[i as int].partitions) == old_self.parts(
                collection_name@,
            ).insert(partition_key@, new_items));
            assert(table_ok(self.tables@[i as int]));
            self.lemma_table_at(i as int);
            assert(self.wf());
            assert(self.parts(collection_name@) == old_self.parts(collection_name@).insert(
                partition_key@,
                pushed(items0, def, x),
            ));
            assert forall|c: Seq<char>| #[trigger] self.has(c) == old_self.has(c) by {
                if self.has(c) {
                    let j = choose|j: int| 0 <= j < self.tables@.len() && self.tables@[j].name@ == c;
                    assert(old_self.tables@[j].name@ == c);
                }
                if old_self.has(c) {
                    let j = choose|j: int|
                        0 <= j < old_self.tables@.len() && old_self.tables@[j].name@ == c;
                    assert(self.tables@[j].name@ == c);
                }
            }
            assert forall|c: Seq<char>| self.has(c) implies #[trigger] self.def_of(c)
                == old_self.def_of(c) && (c != collection_name@ ==> self.parts(c)
                == old_self.parts(c)) by {
                let j = choose|j: int| 0 <= j < self.tables@.len() && self.tables@[j].name@ == c;
                self.lemma_table_at(j);
                old_self.lemma_table_at(j);
            }
            assert(self.names() =~= old_self.names());
            assert(self.same_but(&old_self, collection_name@));
        }
        Ok(())
    }
}


/// The values of the newest items of `items`, newest first, as many as a
/// scan takes.
fn newest_values(mut items: Vec<CollectionItem>, limit: usize) -> (r: Vec<JsonValue>)
    ensures
        r@ == values_of(items@.reverse().take(scan_count(items@.len(), limit) as int)),
{
    let ghost s = items@;
    let count: usize = if limit == 0 || limit > items.len() {
        items.len()
    } else {
        limit
    };
    let mut out: Vec<JsonValue> = Vec::new();
    while out.len() < count
        invariant
            count <= s.len(),
            count == scan_count(s.len(), limit),
            out@.len() <= count,
            items@ == s.take(s.len() - out@.len()),
            out@ == values_of(s.reverse().take(out@.len() as int)),
        decreases count - out@.len(),
    {
        let ghost k = out@.len();
        let it = items.pop().unwrap();
        assert(it == s[s.len() - 1 - k]);
        out.push(it.value);
        assert(items@ =~= s.take(s.len() - out@.len()));
        assert(out@ =~= values_of(s.reverse().take(out@.len() as int)));
    }
    out
}

/// Puts the item before the first older one.
fn insert_newest_first(sorted: &mut Vec<CollectionItem>, item: CollectionItem)
    ensures
        final(sorted)@ == old(sorted)@.insert(first_before(old(sorted)@, item.created_at_ms), item),
{
    proof {
        lemma_first_before(sorted@, item.created_at_ms);
    }
    let n = sorted.len();
    let mut i: usize = 0;
    while i < n && sorted[i].created_at_ms >= item.created_at_ms
        invariant
            n == sorted@.len(),
            i <= n,
            i <= first_before(sorted@, item.created_at_ms),
            forall|j: int| 0 <= j < first_before(sorted@, item.created_at_ms) ==> sorted@[j].created_at_ms
                >= item.created_at_ms,
            0 <= first_before(sorted@, item.created_at_ms) <= sorted@.len(),
            first_before(sorted@, item.created_at_ms) < sorted@.len() ==> sorted@[first_before(
                sorted@,
                item.created_at_ms,
            )].created_at_ms < item.created_at_ms,
        decreases n - i,
    {
        i = i + 1;
    }
    sorted.insert(i, item);
}

impl CollectionStore {
    /// The values of a partition's newest items, newest first: `limit` of
    /// them, all when `limit` is zero.
    pub fn scan(&self, collection_name: &str, partition_key: &str, limit: usize) -> (r: Result<
        Vec<JsonValue>,
        CollectionStoreError,
    >)
        requires
            self.wf(),
        ensures
            !self.has(collection_name@) ==> unknown_collection(r, collection_name@),
            self.has(collection_name@) ==> (r matches Ok(v) && values_same(
                v@,
                values_of(scan_items(self.items_of(collection_name@, partition_key@), limit)),
            )),
    {
        let i = match self.find(collection_name) {
            None => {
                return Err(CollectionStoreError::UnknownCollection(String::from_str(collection_name)));
            },
            Some(i) => i,
        };
        match partitions_get(&self.tables[i].partitions, partition_key) {
            None => {
                let out: Vec<JsonValue> = Vec::new();
                proof {
                    assert(scan_items(Seq::<CollectionItem>::empty(), limit) =~= Seq::<CollectionItem>::empty());
                }
                Ok(out)
            },
            Some(items) => {
                let ghost copies = items@;
                let ghost orig = self.items_of(collection_name@, partition_key@);
                let out = newest_values(items, limit);
                proof {
                    let k = scan_count(orig.len(), limit) as int;
                    assert forall|j: int| 0 <= j < out@.len() implies json_same(
                        #[trigger] out@[j],
                        values_of(scan_items(orig, limit))[j],
                    ) by {
                        assert(item_same(copies[orig.len() - 1 - j], orig[orig.len() - 1 - j]));
                    }
                }
                Ok(out)
            },
        }
    }

    /// The values of the newest items of several partitions, `limit` per
    /// partition (all when zero), newest first overall; items of the same
    /// time keep the order in which they were taken.
    pub fn multi_scan(
        &self,
        collection_name: &str,
        partition_keys: &Vec<String>,
        limit_per_partition: usize,
    ) -> (r: Result<Vec<JsonValue>, CollectionStoreError>)
        requires
            self.wf(),
        ensures
            !self.has(collection_name@) ==> unknown_collection(r, collection_name@),
            self.has(collection_name@) ==> (r matches Ok(v) && values_same(
                v@,
                values_of(
                    newest_first(
                        multi_scan_items(
                            self.parts(collection_name@),
                            strings_view(partition_keys@),
                            limit_per_partition,
                        ),
                    ),
                ),
            )),
    {
        let i = match self.find(collection_name) {
            None => {
                return Err(CollectionStoreError::UnknownCollection(String::from_str(collection_name)));
            },
            Some(i) => i,
        };
        let ghost parts = self.parts(collection_name@);
        let ghost keys = strings_view(partition_keys@);
        let mut sorted: Vec<CollectionItem> = Vec::new();
        let n = partition_keys.len();
        let mut k: usize = 0;
        while k < n
            invariant
                n == partition_keys@.len(),
                k <= n,
                i < self.tables@.len(),
                parts == partition_table(self.tables@[i as int].partitions),
                keys == strings_view(partition_keys@),
                items_same(sorted@, newest_first(multi_scan_items(parts, keys.take(k as int), limit_per_partition))),
            decreases n - k,
        {
            proof {
                assert(keys.take(k + 1).drop_last() =~= keys.take(k as int));
            }
            match partitions_get(&self.tables[i].partitions, partition_keys[k].as_str()) {
                None => {},
                Some(mut items) => {
                    let ghost copies = items@;
                    let count: usize = if limit_per_partition == 0 || limit_per_partition > items.len() {
                        items.len()
                    } else {
                        limit_per_partition
                    };
                    let mut taken: usize = 0;
                    let ghost base = multi_scan_items(parts, keys.take(k as int), limit_per_partition);
                    while taken < count
                        invariant
                            count <= copies.len(),
                            count == scan_count(copies.len(), limit_per_partition),
                            taken <= count,
                            items@ == copies.take(copies.len() - taken),
                            items_same(sorted@, newest_first(base + scan_items(copies, limit_per_partition).take(taken as int))),
                        decreases count - taken,
                    {
                        let it = items.pop().unwrap();
                        assert(it == copies[copies.len() - 1 - taken]);
                        let ghost prev = base + scan_items(copies, limit_per_partition).take(taken as int);
                        let ghost next = base + scan_items(copies, limit_per_partition).take(taken + 1);
                        assert(next.drop_last() =~= prev);
                        assert(next.last() == it);
                        proof {
                            lemma_first_before_same(sorted@, newest_first(prev), it.created_at_ms);
                        }
                        let ghost before = sorted@;
                        insert_newest_first(&mut sorted, it);
                        proof {
                            let p = first_before(before, copies[copies.len() - 1 - taken].created_at_ms);
                            lemma_first_before(before, copies[copies.len() - 1 - taken].created_at_ms);
                            let rs = newest_first(prev);
                            assert forall|j: int| 0 <= j < sorted@.len() implies item_same(
                                #[trigger] sorted@[j],
                                newest_first(next)[j],
                            ) by {
                                if j < p {
                                    assert(item_same(before[j], rs[j]));
                                } else if j > p {
                                    assert(item_same(before[j - 1], rs[j - 1]));
                                }
                            }
                        }
                        taken = taken + 1;
                        assert(items@ =~= copies.take(copies.len() - taken));
                    }
                    proof {
                        let orig = parts[keys[k as int]];
                        assert(keys[k as int] == partition_keys@[k as int]@);
                        assert(scan_items(copies, limit_per_partition).take(count as int) =~= scan_items(copies, limit_per_partition));
                        assert(items_same(copies, orig));
                        let ca = base + scan_items(copies, limit_per_partition);
                        let cb = base + scan_items(orig, limit_per_partition);
                        assert(items_same(ca, cb)) by {
                            assert forall|j: int| 0 <= j < ca.len() implies item_same(#[trigger] ca[j], cb[j]) by {
                                if j >= base.len() {
                                    let q = j - base.len();
                                    assert(item_same(copies[copies.len() - 1 - q], orig[orig.len() - 1 - q]));
                                }
                            }
                        }
                        lemma_newest_first_same(ca, cb);
                        lemma_items_same_trans(sorted@, newest_first(ca), newest_first(cb));
                    }
                },
            }
            k = k + 1;
        }
        proof {
            assert(keys.take(n as int) =~= keys);
        }
        let ghost final_items = sorted@;
        let mut out: Vec<JsonValue> = Vec::new();
        let mut rev: Vec<JsonValue> = Vec::new();
        while sorted.len() > 0
            invariant
                rev@.len() + sorted@.len() == final_items.len(),
                sorted@ == final_items.take(sorted@.len() as int),
                forall|j: int| 0 <= j < rev@.len() ==> rev@[j] == final_items[final_items.len() - 1 - j].value,
            decreases sorted@.len(),
        {
            let it = sorted.pop().unwrap();
            rev.push(it.value);
            assert(sorted@ =~= final_items.take(sorted@.len() as int));
        }
        while rev.len() > 0
            invariant
                out@.len() + rev@.len() == final_items.len(),
                forall|j: int| 0 <= j < rev@.len() ==> rev@[j] == final_items[final_items.len() - 1 - j].value,
                forall|j: int| 0 <= j < out@.len() ==> out@[j] == final_items[j].value,
            decreases rev@.len(),
        {
            let v = rev.pop().unwrap();
            out.push(v);
        }
        proof {
            let target = newest_first(multi_scan_items(parts, keys, limit_per_partition));
            assert forall|j: int| 0 <= j < out@.len() implies json_same(
                #[trigger] out@[j],
                values_of(target)[j],
            ) by {
                assert(item_same(final_items[j], target[j]));
            }
        }
        Ok(out)
    }
}

proof fn lemma_items_same_trans(a: Seq<CollectionItem>, b: Seq<CollectionItem>, c: Seq<CollectionItem>)
    requires
        items_same(a, b),
        items_same(b, c),
    ensures
        items_same(a, c),
{
    assert forall|i: int| 0 <= i < a.len() implies item_same(#[trigger] a[i], c[i]) by {
        assert(item_same(a[i], b[i]));
        assert(item_same(b[i], c[i]));
    }
}


impl CollectionStore {
    proof fn lemma_after_table_update(&self, old_self: &Self, i: int, name: Seq<char>)
        requires
            old_self.wf(),
            0 <= i < self.tables@.len(),
            self.tables@.len() == old_self.tables@.len(),
            old_self.tables@[i].name@ == name,
            self.tables@[i].name == old_self.tables@[i].name,
            self.tables@[i].def == old_self.tables@[i].def,
            table_ok(self.tables@[i]),
            forall|j: int| 0 <= j < self.tables@.len() && j != i ==> self.tables@[j] == old_self.tables@[j],
        ensures
            self.wf(),
            self.same_but(old_self, name),
            self.has(name),
            self.parts(name) == partition_table(self.tables@[i].partitions),
            self.def_of(name) == old_self.def_of(name),
    {
        old_self.lemma_table_at(i);
        assert(self.wf());
        self.lemma_table_at(i);
        assert(self.names() =~= old_self.names());
        assert forall|c: Seq<char>| #[trigger] self.has(c) == old_self.has(c) by {
            if self.has(c) {
                let j = choose|j: int| 0 <= j < self.tables@.len() && self.tables@[j].name@ == c;
                assert(old_self.tables@[j].name@ == c);
            }
            if old_self.has(c) {
                let j = choose|j: int| 0 <= j < old_self.tables@.len() && old_self.tables@[j].name@ == c;
                assert(self.tables@[j].name@ == c);
            }
        }
        assert forall|c: Seq<char>| self.has(c) implies #[trigger] self.def_of(c) == old_self.def_of(c)
            && (c != name ==> self.parts(c) == old_self.parts(c)) by {
            let j = choose|j: int| 0 <= j < self.tables@.len() && self.tables@[j].name@ == c;
            self.lemma_table_at(j);
            old_self.lemma_table_at(j);
        }
    }

    /// What removing the item `id` from a partition leaves: the first item
    /// of that id gone (`found` tells whether there was one), the partition
    /// gone when left empty, its estimate taken off the counter.
    pub open spec fn removed_from(
        &self,
        before: &Self,
        name: Seq<char>,
        partition: Seq<char>,
        id: Seq<char>,
        found: bool,
    ) -> bool {
        let parts = before.parts(name);
        &&& found == (parts.contains_key(partition) && find_id(parts[partition], id) is Some)
        &&& self.same_but(before, name)
        &&& self.parts(name) == removed_item(parts, partition, id)
        &&& self.memory() == apply_delta(
            before.memory(),
            0,
            if found {
                let k = find_id(parts[partition], id)->0;
                item_size(partition, parts[partition][k].id@, parts[partition][k].value)
            } else {
                0
            },
        )
    }

    /// Removes the first item with the given id from a partition; a
    /// partition left empty goes. Tells whether an item left.
    pub fn remove(&mut self, collection_name: &str, partition_key: &str, item_id: &str) -> (r: Result<
        bool,
        CollectionStoreError,
    >)
        requires
            old(self).wf(),
        ensures
            final(self).wf(),
            !old(self).has(collection_name@) ==> unknown_collection(r, collection_name@)
                && *final(self) == *old(self),
            old(self).has(collection_name@) ==> (r matches Ok(found) && final(self).removed_from(
                old(self),
                collection_name@,
                partition_key@,
                item_id@,
                found,
            )),
    {
        let i = match self.find(collection_name) {
            None => {
                return Err(CollectionStoreError::UnknownCollection(String::from_str(collection_name)));
            },
            Some(i) => i,
        };
        let ghost old_self = *self;
        let ghost parts = self.parts(collection_name@);
        proof {
            assert(table_ok(self.tables@[i as int]));
        }
        match partitions_remove(&mut self.tables[i].partitions, partition_key) {
            None => {
                proof {
                    assert(partition_table(self.tables@[i as int].partitions) =~= parts);
                    assert(table_ok(self.tables@[i as int]));
                    self.lemma_after_table_update(&old_self, i as int, collection_name@);
                }
                self.apply_memory_delta(0, 0);
                assert(!parts.contains_key(partition_key@));
                assert(self.same_but(&old_self, collection_name@));
                assert(self.parts(collection_name@) == removed_item(parts, partition_key@, item_id@));
                Ok(false)
            },
            Some(mut items) => {
                let ghost before = items@;
                let len_before = items.len();
                proof {
                    lemma_find_id(before, item_id@);
                    assert(partition_fits(partition_key@, before));
                }
                let size = remove_existing(&mut items, partition_key, item_id);
                let found = items.len() < len_before;
                proof {
                    if find_id(before, item_id@) is Some {
                        assert(items@.len() == before.len() - 1);
                    }
                }
                if items.len() > 0 {
                    partitions_insert(&mut self.tables[i].partitions, String::from_str(partition_key), items);
                }
                proof {
                    assert(partition_table(self.tables@[i as int].partitions) =~= removed_item(
                        parts,
                        partition_key@,
                        item_id@,
                    ));
                    assert forall|p: Seq<char>| #[trigger] partition_table(self.tables@[i as int].partitions).contains_key(p)
                        implies partition_fits(p, partition_table(self.tables@[i as int].partitions)[p]) by {
                        if p == partition_key@ {
                            let k = find_id(before, item_id@);
                            assert forall|q: int| 0 <= q < without_id(before, item_id@).len() implies item_fits(
                                p,
                                #[trigger] without_id(before, item_id@)[q].id@,
                                without_id(before, item_id@)[q].value,
                            ) by {
                                match k {
                                    Some(kk) => {
                                        if q >= kk {
                                            assert(without_id(before, item_id@)[q] == before[q + 1]);
                                        }
                                    },
                                    None => {},
                                }
                            }
                        }
                    }
                    assert(table_ok(self.tables@[i as int])) by {
                        if self.tables@[i as int].def.order_by is Some {
                            assert forall|p: Seq<char>| #[trigger] partition_table(self.tables@[i as int].partitions).contains_key(p)
                                implies sorted_by_created(partition_table(self.tables@[i as int].partitions)[p]) by {
                                if p == partition_key@ {
                                    assert(sorted_by_created(before));
                                    let w = without_id(before, item_id@);
                                    match find_id(before, item_id@) {
                                        Some(kk) => {
                                            assert forall|a: int, b: int| 0 <= a <= b < w.len() implies w[a].created_at_ms <= w[b].created_at_ms by {
                                                let a2 = if a >= kk { a + 1 } else { a };
                                                let b2 = if b >= kk { b + 1 } else { b };
                                                assert(w[a] == before[a2]);
                                                assert(w[b] == before[b2]);
                                            }
                                        },
                                        None => {},
                                    }
                                }
                            }
                        }
                    }
                }
                self.apply_memory_delta(0, size);
                proof {
                    self.lemma_after_table_update(&old_self, i as int, collection_name@);
                }
                assert(parts.contains_key(partition_key@));
                assert(before == parts[partition_key@]);
                assert(found == (find_id(before, item_id@) is Some));
                assert(self.same_but(&old_self, collection_name@));
                assert(self.parts(collection_name@) == removed_item(parts, partition_key@, item_id@));
                Ok(found)
            },
        }
    }
}


impl CollectionStore {
    /// Adds an item to a partition at the current time (see `push_at`).
    pub fn push(&mut self, collection_name: &str, partition_key: &str, item_id: &str, value: JsonValue) -> (r:
        Result<(), CollectionStoreError>)
        requires
            old(self).wf(),
            item_fits(partition_key@, item_id@, value),
        ensures
            final(self).wf(),
            blank(item_id@) ==> (r matches Err(CollectionStoreError::EmptyItemId) && *final(self)
                == *old(self)),
            !blank(item_id@) && !old(self).has(collection_name@) ==> unknown_collection(
                r,
                collection_name@,
            ) && *final(self) == *old(self),
            !blank(item_id@) && old(self).has(collection_name@) ==> r is Ok && exists|now: u64|
                final(self).pushed_into(old(self), collection_name@, partition_key@, item_id@, value, now),
    {
        let now = crate::store::now_millis();
        self.push_at(collection_name, partition_key, item_id, value, now)
    }
}


/// Whether an item is past the age limit at `now` (every item is when the
/// limit is zero).
pub open spec fn item_stale(it: CollectionItem, now: u64, max_age_seconds: u64) -> bool {
    max_age_seconds == 0 || now.saturating_sub(it.created_at_ms) > millis_of(max_age_seconds)
}

/// How many of the oldest items a trim removes: those at the front that are
/// past the age limit.
pub open spec fn stale_prefix(items: Seq<CollectionItem>, now: u64, max_age_seconds: u64) -> int
    decreases items.len(),
{
    if items.len() == 0 {
        0
    } else if item_stale(items[0], now, max_age_seconds) {
        1 + stale_prefix(items.drop_first(), now, max_age_seconds)
    } else {
        0
    }
}

/// The partitions after a trim: each loses its stale front; those left
/// empty go.
pub open spec fn trimmed_parts(
    parts: Map<Seq<char>, Seq<CollectionItem>>,
    now: u64,
    max_age_seconds: u64,
) -> Map<Seq<char>, Seq<CollectionItem>> {
    Map::new(
        |p: Seq<char>|
            parts.contains_key(p) && stale_prefix(parts[p], now, max_age_seconds) < parts[p].len(),
        |p: Seq<char>| parts[p].skip(stale_prefix(parts[p], now, max_age_seconds)),
    )
}

/// How many items a trim removes from the partitions `keys`.
pub open spec fn trim_count_along(
    parts: Map<Seq<char>, Seq<CollectionItem>>,
    keys: Seq<Seq<char>>,
    now: u64,
    max_age_seconds: u64,
) -> int
    decreases keys.len(),
{
    if keys.len() == 0 {
        0
    } else {
        trim_count_along(parts, keys.drop_last(), now, max_age_seconds) + stale_prefix(
            parts[keys.last()],
            now,
            max_age_seconds,
        )
    }
}

/// The estimate of what a trim removes from the partitions `keys`.
pub open spec fn trim_bytes_along(
    parts: Map<Seq<char>, Seq<CollectionItem>>,
    keys: Seq<Seq<char>>,
    now: u64,
    max_age_seconds: u64,
) -> int
    decreases keys.len(),
{
    if keys.len() == 0 {
        0
    } else {
        trim_bytes_along(parts, keys.drop_last(), now, max_age_seconds) + items_total(
            keys.last(),
            parts[keys.last()].take(stale_prefix(parts[keys.last()], now, max_age_seconds)),
        )
    }
}

pub proof fn lemma_stale_prefix(items: Seq<CollectionItem>, now: u64, max_age_seconds: u64)
    ensures
        0 <= stale_prefix(items, now, max_age_seconds) <= items.len(),
        forall|k: int|
            0 <= k < stale_prefix(items, now, max_age_seconds) ==> item_stale(
                #[trigger] items[k],
                now,
                max_age_seconds,
            ),
        stale_prefix(items, now, max_age_seconds) < items.len() ==> !item_stale(
            items[stale_prefix(items, now, max_age_seconds)],
            now,
            max_age_seconds,
        ),
    decreases items.len(),
{
    if items.len() > 0 {
        lemma_stale_prefix(items.drop_first(), now, max_age_seconds);
        if item_stale(items[0], now, max_age_seconds) {
            assert forall|k: int| 0 <= k < stale_prefix(items, now, max_age_seconds) implies item_stale(
                #[trigger] items[k],
                now,
                max_age_seconds,
            ) by {
                if k > 0 {
                    assert(items[k] == items.drop_first()[k - 1]);
                }
            }
        }
    }
}

/// Removes the stale front of a partition, adding to the running count and
/// byte total without passing `usize::MAX`.
fn trim_partition(
    items: &mut VecDeque<CollectionItem>,
    partition_key: &str,
    now_ms: u64,
    max_age_seconds: u64,
    count: usize,
    bytes: usize,
) -> (r: (usize, usize))
    requires
        partition_fits(partition_key@, old(items)@),
    ensures
        final(items)@ == old(items)@.skip(stale_prefix(old(items)@, now_ms, max_age_seconds)),
        r.0 == capped(count + stale_prefix(old(items)@, now_ms, max_age_seconds)),
        r.1 == capped(
            bytes + items_total(
                partition_key@,
                old(items)@.take(stale_prefix(old(items)@, now_ms, max_age_seconds)),
            ),
        ),
{
    let ghost s = items@;
    let ghost sp = stale_prefix(s, now_ms, max_age_seconds);
    proof {
        lemma_stale_prefix(s, now_ms, max_age_seconds);
        assert(s.skip(0) =~= s);
        assert(s.take(0) =~= Seq::<CollectionItem>::empty());
    }
    let max_ms = seconds_to_millis(max_age_seconds);
    let mut c = count;
    let mut b = bytes;
    while items.len() > 0 && (max_age_seconds == 0 || now_ms.saturating_sub(items[0].created_at_ms)
        > max_ms)
        invariant
            max_ms == millis_of(max_age_seconds),
            0 <= sp <= s.len(),
            forall|k: int| 0 <= k < sp ==> item_stale(#[trigger] s[k], now_ms, max_age_seconds),
            sp < s.len() ==> !item_stale(s[sp], now_ms, max_age_seconds),
            items@.len() <= s.len(),
            s.len() - items@.len() <= sp,
            items@ == s.skip(s.len() - items@.len()),
            c == capped(count + (s.len() - items@.len())),
            b == capped(bytes + items_total(partition_key@, s.take(s.len() - items@.len()))),
            partition_fits(partition_key@, s),
        decreases items@.len(),
    {
        let ghost k = s.len() - items@.len();
        assert(items@[0] == s[k]);
        assert(k < sp) by {
            if k >= sp {
                assert(k == sp);
            }
        }
        let evicted = items.pop_front();
        match evicted {
            Some(ev) => {
                proof {
                    lemma_items_total_step(partition_key@, s, k);
                    lemma_items_total_nonneg(partition_key@, s.take(k));
                }
                let size = estimate_item_size(partition_key, ev.id.as_str(), &ev.value);
                c = c.saturating_add(1);
                b = b.saturating_add(size);
                assert(items@ =~= s.skip(s.len() - items@.len()));
            },
            None => {},
        }
    }
    proof {
        let k = s.len() - items@.len();
        if k < sp {
            assert(items@[0] == s[k]);
            assert(item_stale(s[k], now_ms, max_age_seconds));
        }
        assert(k == sp);
    }
    (c, b)
}

impl CollectionStore {
    /// What trimming the collection `name` at `now` to items no older than
    /// `max_age_seconds` (zero: to nothing) leaves, with `count` items and
    /// `bytes` estimated bytes removed, partition by partition in the order
    /// of `keys`.
    pub open spec fn trimmed(
        &self,
        before: &Self,
        name: Seq<char>,
        now: u64,
        max_age_seconds: u64,
        keys: Seq<Seq<char>>,
        count: int,
    ) -> bool {
        let parts = before.parts(name);
        &&& keys.no_duplicates()
        &&& keys.to_set() == parts.dom()
        &&& count == capped(trim_count_along(parts, keys, now, max_age_seconds))
        &&& self.same_but(before, name)
        &&& self.parts(name) == trimmed_parts(parts, now, max_age_seconds)
        &&& self.memory() == apply_delta(
            before.memory(),
            0,
            capped(trim_bytes_along(parts, keys, now, max_age_seconds)),
        )
    }

    /// What trimming leaves, partition by partition in some order.
    pub open spec fn trimmed_from(
        &self,
        before: &Self,
        name: Seq<char>,
        now: u64,
        max_age_seconds: u64,
        count: int,
    ) -> bool {
        exists|keys: Seq<Seq<char>>| self.trimmed(before, name, now, max_age_seconds, keys, count)
    }

    /// Trims every partition of a collection at time `now_ms`: removes, from
    /// the oldest end, the items more than `max_age_seconds` old (all of
    /// them for zero), drops the partitions left empty, and tells how many
    /// items went.
    pub fn trim_collection_at(&mut self, collection_name: &str, max_age_seconds: u64, now_ms: u64) -> (r:
        Result<usize, CollectionStoreError>)
        requires
            old(self).wf(),
        ensures
            final(self).wf(),
            !old(self).has(collection_name@) ==> unknown_collection(r, collection_name@)
                && *final(self) == *old(self),
            old(self).has(collection_name@) ==> (r matches Ok(n) && final(self).trimmed_from(
                old(self),
                collection_name@,
                now_ms,
                max_age_seconds,
                n as int,
            )),
    {
        let i = match self.find(collection_name) {
            None => {
                return Err(CollectionStoreError::UnknownCollection(String::from_str(collection_name)));
            },
            Some(i) => i,
        };
        let ghost old_self = *self;
        let ghost parts = self.parts(collection_name@);
        let ghost ordered = self.tables@[i as int].def.order_by is Some;
        proof {
            assert(table_ok(self.tables@[i as int]));
        }
        let keys = partitions_keys(&self.tables[i].partitions);
        let ghost ks = strings_view(keys@);
        let n = keys.len();
        let mut count: usize = 0;
        let mut bytes: usize = 0;
        let mut j: usize = 0;
        proof {
            assert(ks.take(0) =~= Seq::<Seq<char>>::empty());
        }
        while j < n
            invariant
                n == keys@.len(),
                ks == strings_view(keys@),
                ks.no_duplicates(),
                ks.to_set() == parts.dom(),
                i < self.tables@.len(),
                self.tables@.len() == old_self.tables@.len(),
                self.tables@[i as int].name == old_self.tables@[i as int].name,
                self.tables@[i as int].def == old_self.tables@[i as int].def,
                ordered == (self.tables@[i as int].def.order_by is Some),
                forall|q: int| 0 <= q < self.tables@.len() && q != i ==> self.tables@[q] == old_self.tables@[q],
                self.memory_bytes == old_self.memory_bytes,
                parts == partition_table(old_self.tables@[i as int].partitions),
                partitions_ok(parts, ordered),
                j <= n,
                count == capped(trim_count_along(parts, ks.take(j as int), now_ms, max_age_seconds)),
                bytes == capped(trim_bytes_along(parts, ks.take(j as int), now_ms, max_age_seconds)),
                partition_table(self.tables@[i as int].partitions) == Map::new(
                    |p: Seq<char>|
                        if ks.take(j as int).contains(p) {
                            trimmed_parts(parts, now_ms, max_age_seconds).contains_key(p)
                        } else {
                            parts.contains_key(p)
                        },
                    |p: Seq<char>|
                        if ks.take(j as int).contains(p) {
                            trimmed_parts(parts, now_ms, max_age_seconds)[p]
                        } else {
                            parts[p]
                        },
                ),
            decreases n - j,
        {
            let ghost key = ks[j as int];
            let ghost cur = partition_table(self.tables@[i as int].partitions);
            proof {
                assert(ks.take(j + 1).drop_last() =~= ks.take(j as int));
                assert(ks.take(j + 1).last() == key);
                assert(keys@[j as int]@ == key);
                assert(ks.to_set().contains(key));
                assert(!ks.take(j as int).contains(key)) by {
                    if ks.take(j as int).contains(key) {
                        let w = choose|w: int| 0 <= w < j && ks.take(j as int)[w] == key;
                        assert(ks[w] == ks[j as int]);
                    }
                }
                assert(cur.contains_key(key) && cur[key] == parts[key]);
            }
            let removed = partitions_remove(&mut self.tables[i].partitions, keys[j].as_str());
            let mut items = removed.unwrap();
            proof {
                assert(partition_fits(key, parts[key]));
                lemma_stale_prefix(parts[key], now_ms, max_age_seconds);
                lemma_items_total_nonneg(key, parts[key].take(stale_prefix(parts[key], now_ms, max_age_seconds)));
            }
            let counts = trim_partition(&mut items, keys[j].as_str(), now_ms, max_age_seconds, count, bytes);
            count = counts.0;
            bytes = counts.1;
            proof {
                let a = trim_count_along(parts, ks.take(j as int), now_ms, max_age_seconds);
                let b = trim_bytes_along(parts, ks.take(j as int), now_ms, max_age_seconds);
                assert(trim_count_along(parts, ks.take(j + 1), now_ms, max_age_seconds) == a + stale_prefix(parts[key], now_ms, max_age_seconds));
                assert(trim_bytes_along(parts, ks.take(j + 1), now_ms, max_age_seconds) == b + items_total(key, parts[key].take(stale_prefix(parts[key], now_ms, max_age_seconds))));
            }
            if items.len() > 0 {
                partitions_insert(&mut self.tables[i].partitions, keys[j].clone(), items);
            }
            proof {
                let next = ks.take(j + 1);
                assert forall|p: Seq<char>| next.contains(p) <==> (ks.take(j as int).contains(p) || p == key) by {
                    if next.contains(p) {
                        let w = choose|w: int| 0 <= w < next.len() && next[w] == p;
                        if w < j {
                            assert(ks.take(j as int)[w] == p);
                        }
                    }
                    if ks.take(j as int).contains(p) {
                        let w = choose|w: int| 0 <= w < j && ks.take(j as int)[w] == p;
                        assert(next[w] == p);
                    }
                    if p == key {
                        assert(next[j as int] == p);
                    }
                }
                assert(partition_table(self.tables@[i as int].partitions) =~= Map::new(
                    |p: Seq<char>|
                        if next.contains(p) {
                            trimmed_parts(parts, now_ms, max_age_seconds).contains_key(p)
                        } else {
                            parts.contains_key(p)
                        },
                    |p: Seq<char>|
                        if next.contains(p) {
                            trimmed_parts(parts, now_ms, max_age_seconds)[p]
                        } else {
                            parts[p]
                        },
                ));
            }
            j = j + 1;
        }
        proof {
            assert(ks.take(n as int) =~= ks);
            assert forall|p: Seq<char>| ks.contains(p) <==> parts.contains_key(p) by {
                assert(ks.to_set().contains(p) == ks.contains(p));
            }
            assert(partition_table(self.tables@[i as int].partitions) =~= trimmed_parts(parts, now_ms, max_age_seconds));
            let t = partition_table(self.tables@[i as int].partitions);
            assert forall|p: Seq<char>| #[trigger] t.contains_key(p) implies partition_fits(p, t[p]) && (ordered ==> sorted_by_created(t[p])) by {
                let sp = stale_prefix(parts[p], now_ms, max_age_seconds);
                lemma_stale_prefix(parts[p], now_ms, max_age_seconds);
                assert(partition_fits(p, parts[p]));
                assert forall|q: int| 0 <= q < t[p].len() implies item_fits(p, #[trigger] t[p][q].id@, t[p][q].value) by {
                    assert(t[p][q] == parts[p][q + sp]);
                }
                if ordered {
                    assert(sorted_by_created(parts[p]));
                    assert forall|a: int, b: int| 0 <= a <= b < t[p].len() implies t[p][a].created_at_ms <= t[p][b].created_at_ms by {
                        assert(t[p][a] == parts[p][a + sp]);
                        assert(t[p][b] == parts[p][b + sp]);
                    }
                }
            }
            assert(t.dom().subset_of(parts.dom()));
            vstd::set_lib::lemma_set_subset_finite(parts.dom(), t.dom());
            assert(table_ok(self.tables@[i as int]));
            self.lemma_after_table_update(&old_self, i as int, collection_name@);
            lemma_trim_nonneg(parts, ks, now_ms, max_age_seconds);
        }
        let ghost mid = *self;
        self.apply_memory_delta(0, bytes);
        proof {
            assert(self.tables == mid.tables);
            assert forall|c: Seq<char>| #[trigger] self.has(c) == mid.has(c) by {}
            assert forall|c: Seq<char>| #[trigger] self.def_of(c) == mid.def_of(c) by {}
            assert forall|c: Seq<char>| #[trigger] self.parts(c) == mid.parts(c) by {}
            assert(self.same_but(&old_self, collection_name@));
            assert(old_self == *old(self));
            assert(self.trimmed(old(self), collection_name@, now_ms, max_age_seconds, ks, count as int));
            assert(self.trimmed_from(old(self), collection_name@, now_ms, max_age_seconds, count as int));
        }
        Ok(count)
    }
}

proof fn lemma_trim_nonneg(
    parts: Map<Seq<char>, Seq<CollectionItem>>,
    keys: Seq<Seq<char>>,
    now: u64,
    max_age_seconds: u64,
)
    ensures
        trim_count_along(parts, keys, now, max_age_seconds) >= 0,
        trim_bytes_along(parts, keys, now, max_age_seconds) >= 0,
    decreases keys.len(),
{
    if keys.len() > 0 {
        lemma_trim_nonneg(parts, keys.drop_last(), now, max_age_seconds);
        lemma_stale_prefix(parts[keys.last()], now, max_age_seconds);
        lemma_items_total_nonneg(
            keys.last(),
            parts[keys.last()].take(stale_prefix(parts[keys.last()], now, max_age_seconds)),
        );
    }
}


/// How many items the partitions `keys` hold.
pub open spec fn items_along(parts: Map<Seq<char>, Seq<CollectionItem>>, keys: Seq<Seq<char>>) -> int
    decreases keys.len(),
{
    if keys.len() == 0 {
        0
    } else {
        items_along(parts, keys.drop_last()) + parts[keys.last()].len()
    }
}

/// The sum of a list of counts.
pub open spec fn sum_of(counts: Seq<int>) -> int
    decreases counts.len(),
{
    if counts.len() == 0 {
        0
    } else {
        sum_of(counts.drop_last()) + counts.last()
    }
}

impl CollectionStore {
    /// The names of the collections, in order.
    pub closed spec fn names(&self) -> Seq<Seq<char>> {
        self.tables@.map_values(|t: CollectionTable| t.name@)
    }

    /// Whether `count` is the number of items of the collection, counted
    /// partition by partition in some order (stopping at `usize::MAX`).
    pub open spec fn counted(&self, name: Seq<char>, count: int) -> bool {
        exists|keys: Seq<Seq<char>>|
            {
                &&& keys.no_duplicates()
                &&& keys.to_set() == self.parts(name).dom()
                &&& count == capped(items_along(self.parts(name), keys))
            }
    }

    /// The number of items of each collection, each collection once.
    pub fn snapshot_collection_sizes(&self) -> (r: Vec<(String, usize)>)
        requires
            self.wf(),
        ensures
            crate::store::entry_names(r@).no_duplicates(),
            forall|c: Seq<char>| #[trigger] crate::store::entry_names(r@).contains(c) == self.has(c),
            forall|i: int| 0 <= i < r@.len() ==> self.counted((#[trigger] r@[i]).0@, r@[i].1 as int),
    {
        let n = self.tables.len();
        let mut out: Vec<(String, usize)> = Vec::new();
        let mut i: usize = 0;
        while i < n
            invariant
                self.wf(),
                n == self.tables@.len(),
                i <= n,
                out@.len() == i,
                forall|j: int| 0 <= j < i ==> (#[trigger] out@[j]).0@ == self.tables@[j].name@,
                forall|j: int| 0 <= j < i ==> self.counted((#[trigger] out@[j]).0@, out@[j].1 as int),
            decreases n - i,
        {
            proof {
                self.lemma_table_at(i as int);
            }
            let ghost name = self.tables@[i as int].name@;
            let ghost parts = self.parts(name);
            let keys = partitions_keys(&self.tables[i].partitions);
            let ghost ks = strings_view(keys@);
            let m = keys.len();
            let mut total: usize = 0;
            let mut k: usize = 0;
            assert(ks.take(0) =~= Seq::<Seq<char>>::empty());
            while k < m
                invariant
                    m == keys@.len(),
                    ks == strings_view(keys@),
                    ks.to_set() == parts.dom(),
                    i < n,
                    n == self.tables@.len(),
                    parts == partition_table(self.tables@[i as int].partitions),
                    k <= m,
                    total == capped(items_along(parts, ks.take(k as int))),
                decreases m - k,
            {
                proof {
                    assert(ks.take(k + 1).drop_last() =~= ks.take(k as int));
                    assert(ks.take(k + 1).last() == keys@[k as int]@);
                    assert(ks.to_set().contains(ks[k as int]));
                    lemma_items_along_nonneg(parts, ks.take(k as int));
                }
                match partitions_get(&self.tables[i].partitions, keys[k].as_str()) {
                    Some(items) => {
                        total = total.saturating_add(items.len());
                    },
                    None => {},
                }
                k = k + 1;
            }
            assert(ks.take(m as int) =~= ks);
            out.push((self.tables[i].name.clone(), total));
            i = i + 1;
        }
        proof {
            let names = crate::store::entry_names(out@);
            assert forall|a: int, b: int| 0 <= a < b < names.len() implies names[a] != names[b] by {
                assert(names[a] == self.tables@[a].name@);
                assert(names[b] == self.tables@[b].name@);
            }
            assert forall|c: Seq<char>| #[trigger] names.contains(c) == self.has(c) by {
                if names.contains(c) {
                    let a = choose|a: int| 0 <= a < names.len() && names[a] == c;
                    assert(self.tables@[a].name@ == c);
                }
                if self.has(c) {
                    let a = choose|a: int| 0 <= a < self.tables@.len() && self.tables@[a].name@ == c;
                    assert(names[a] == c);
                }
            }
        }
        out
    }
}

proof fn lemma_items_along_nonneg(parts: Map<Seq<char>, Seq<CollectionItem>>, keys: Seq<Seq<char>>)
    ensures
        items_along(parts, keys) >= 0,
    decreases keys.len(),
{
    if keys.len() > 0 {
        lemma_items_along_nonneg(parts, keys.drop_last());
    }
}


impl CollectionStore {
    /// Trims a collection at the current time (see `trim_collection_at`).
    pub fn trim_collection(&mut self, collection_name: &str, max_age_seconds: u64) -> (r: Result<
        usize,
        CollectionStoreError,
    >)
        requires
            old(self).wf(),
        ensures
            final(self).wf(),
            !old(self).has(collection_name@) ==> unknown_collection(r, collection_name@)
                && *final(self) == *old(self),
            old(self).has(collection_name@) ==> (r matches Ok(n) && final(self).trimmed_by_clock(
                old(self),
                collection_name@,
                max_age_seconds,
                n as int,
            )),
    {
        let now = crate::store::now_millis();
        self.trim_collection_at(collection_name, max_age_seconds, now)
    }

    /// What a trim at some time leaves.
    pub open spec fn trimmed_by_clock(&self, before: &Self, name: Seq<char>, max_age_seconds: u64, count: int) -> bool {
        exists|now: u64| self.trimmed_from(before, name, now, max_age_seconds, count)
    }

    /// What trimming a collection's expired items at time `now` leaves:
    /// nothing changes without a time to live; else a trim to that age.
    pub open spec fn expired_trimmed_at(&self, before: &Self, name: Seq<char>, now: u64, count: int) -> bool {
        match before.def_of(name).ttl_seconds {
            None => *self == *before && count == 0,
            Some(ttl) => self.trimmed_from(before, name, now, ttl, count),
        }
    }

    /// What trimming a collection's expired items leaves, at some time.
    pub open spec fn expired_trimmed(&self, before: &Self, name: Seq<char>, count: int) -> bool {
        exists|now: u64| self.expired_trimmed_at(before, name, now, count)
    }

    /// Trims, at time `now_ms`, the items of a collection older than its
    /// time to live, if it has one.
    pub fn trim_expired_at(&mut self, collection_name: &str, now_ms: u64) -> (r: Result<usize, CollectionStoreError>)
        requires
            old(self).wf(),
        ensures
            final(self).wf(),
            !old(self).has(collection_name@) ==> unknown_collection(r, collection_name@)
                && *final(self) == *old(self),
            old(self).has(collection_name@) ==> (r matches Ok(n) && final(self).expired_trimmed_at(
                old(self),
                collection_name@,
                now_ms,
                n as int,
            )),
    {
        let i = match self.find(collection_name) {
            None => {
                return Err(CollectionStoreError::UnknownCollection(String::from_str(collection_name)));
            },
            Some(i) => i,
        };
        match self.tables[i].def.ttl_seconds {
            Some(ttl) => self.trim_collection_at(collection_name, ttl, now_ms),
            None => Ok(0),
        }
    }

    /// Trims the items of a collection older than its time to live, if it
    /// has one, at the current time.
    pub fn trim_expired(&mut self, collection_name: &str) -> (r: Result<usize, CollectionStoreError>)
        requires
            old(self).wf(),
        ensures
            final(self).wf(),
            !old(self).has(collection_name@) ==> unknown_collection(r, collection_name@)
                && *final(self) == *old(self),
            old(self).has(collection_name@) ==> (r matches Ok(n) && final(self).expired_trimmed(
                old(self),
                collection_name@,
                n as int,
            )),
    {
        let now = crate::store::now_millis();
        self.trim_expired_at(collection_name, now)
    }

    /// Whether `states` and `counts` trace trimming, at time `now`, the
    /// expired items of each collection in turn.
    pub open spec fn expiry_trace(
        names: Seq<Seq<char>>,
        states: Seq<CollectionStore>,
        counts: Seq<int>,
        now: u64,
    ) -> bool {
        &&& states.len() == names.len() + 1
        &&& counts.len() == names.len()
        &&& forall|i: int|
            0 <= i < names.len() ==> (#[trigger] states[i + 1]).expired_trimmed_at(
                &states[i],
                names[i],
                now,
                counts[i],
            )
    }

    /// What trimming, at time `now`, every collection's expired items leaves,
    /// `total` being the number of items removed (stopping at `usize::MAX`).
    pub open spec fn all_expired_trimmed_at(&self, before: &Self, now: u64, total: int) -> bool {
        exists|states: Seq<CollectionStore>, counts: Seq<int>|
            {
                &&& Self::expiry_trace(before.names(), states, counts, now)
                &&& states[0] == *before
                &&& states.last() == *self
                &&& total == capped(sum_of(counts))
            }
    }

    /// What trimming every collection's expired items leaves, at some time.
    pub open spec fn all_expired_trimmed(&self, before: &Self, total: int) -> bool {
        exists|now: u64| self.all_expired_trimmed_at(before, now, total)
    }

    /// Trims, at time `now_ms`, the expired items of every collection; tells
    /// how many went.
    pub fn trim_all_expired_at(&mut self, now_ms: u64) -> (r: usize)
        requires
            old(self).wf(),
        ensures
            final(self).wf(),
            final(self).all_expired_trimmed_at(old(self), now_ms, r as int),
    {
        let ghost names = self.names();
        let ghost mut states: Seq<CollectionStore> = seq![*self];
        let ghost mut counts: Seq<int> = Seq::empty();
        let n = self.tables.len();
        let mut total: usize = 0;
        let mut i: usize = 0;
        while i < n
            invariant
                self.wf(),
                n == names.len(),
                names == old(self).names(),
                self.names() == names,
                i <= n,
                states.len() == i + 1,
                counts.len() == i,
                states[0] == *old(self),
                states.last() == *self,
                forall|j: int|
                    0 <= j < i ==> (#[trigger] states[j + 1]).expired_trimmed_at(
                        &states[j],
                        names[j],
                        now_ms,
                        counts[j],
                    ),
                forall|j: int| 0 <= j < i ==> #[trigger] counts[j] >= 0,
                total == capped(sum_of(counts)),
            decreases n - i,
        {
            let name = self.tables[i].name.clone();
            proof {
                self.lemma_table_at(i as int);
                assert(names[i as int] == name@);
                lemma_sum_nonneg(counts);
            }
            let ghost before = *self;
            let r = self.trim_expired_at(name.as_str(), now_ms);
            let c: usize = match r {
                Ok(c) => c,
                Err(_) => 0,
            };
            proof {
                let prev_states = states;
                let prev_counts = counts;
                states = states.push(*self);
                counts = counts.push(c as int);
                assert(counts.drop_last() =~= prev_counts);
                assert forall|j: int| 0 <= j < i + 1 implies (#[trigger] states[j + 1]).expired_trimmed_at(
                    &states[j],
                    names[j],
                    now_ms,
                    counts[j],
                ) by {
                    if j < i {
                        assert(states[j + 1] == prev_states[j + 1]);
                        assert(states[j] == prev_states[j]);
                        assert(counts[j] == prev_counts[j]);
                    }
                }
                assert(self.names() == names) by {
                    match before.def_of(name@).ttl_seconds {
                        None => {},
                        Some(ttl) => {
                            let keys = choose|keys: Seq<Seq<char>>| self.trimmed(&before, name@, now_ms, ttl, keys, c as int);
                            assert(self.same_but(&before, name@));
                        },
                    }
                }
            }
            total = total.saturating_add(c);
            i = i + 1;
        }
        proof {
            assert(Self::expiry_trace(names, states, counts, now_ms));
        }
        total
    }

    /// Trims the expired items of every collection at the current time;
    /// tells how many went.
    pub fn trim_all_expired(&mut self) -> (r: usize)
        requires
            old(self).wf(),
        ensures
            final(self).wf(),
            final(self).all_expired_trimmed(old(self), r as int),
    {
        let now = crate::store::now_millis();
        self.trim_all_expired_at(now)
    }
}

impl CollectionStore {
    /// The partitions of a collection once its items older than its time to
    /// live (if it has one) are trimmed at `now`.
    pub open spec fn expired_parts(&self, name: Seq<char>, now: u64) -> Map<Seq<char>, Seq<CollectionItem>> {
        match self.def_of(name).ttl_seconds {
            Some(ttl) => trimmed_parts(self.parts(name), now, ttl),
            None => self.parts(name),
        }
    }

    /// Along a trace of expiry trims, the first `i` collections are trimmed
    /// and the others are as they were.
    proof fn lemma_expiry_prefix(
        before: CollectionStore,
        states: Seq<CollectionStore>,
        counts: Seq<int>,
        now: u64,
        i: int,
    )
        requires
            before.wf(),
            Self::expiry_trace(before.names(), states, counts, now),
            states[0] == before,
            0 <= i <= before.names().len(),
        ensures
            forall|c: Seq<char>| #[trigger] states[i].has(c) == before.has(c),
            forall|c: Seq<char>|
                #[trigger] before.has(c) ==> states[i].def_of(c) == before.def_of(c) && states[i].parts(c)
                    == if before.names().take(i).contains(c) {
                    before.expired_parts(c, now)
                } else {
                    before.parts(c)
                },
        decreases i,
    {
        let names = before.names();
        if i == 0 {
            assert(names.take(0) =~= Seq::<Seq<char>>::empty());
        } else {
            Self::lemma_expiry_prefix(before, states, counts, now, i - 1);
            let a = states[i - 1];
            let b = states[i];
            let n = names[i - 1];
            let j = i - 1;
            assert(states[j + 1].expired_trimmed_at(&states[j], names[j], now, counts[j]));
            assert(b.expired_trimmed_at(&a, n, now, counts[i - 1]));
            assert(names.take(i) =~= names.take(i - 1).push(n));
            before.lemma_table_at(i - 1);
            assert(n == before.tables@[i - 1].name@);
            assert(!names.take(i - 1).contains(n)) by {
                if names.take(i - 1).contains(n) {
                    let k = choose|k: int| 0 <= k < i - 1 && #[trigger] names.take(i - 1)[k] == n;
                    assert(names[k] == before.tables@[k].name@);
                }
            }
            match a.def_of(n).ttl_seconds {
                None => {
                    assert(b == a);
                },
                Some(ttl) => {
                    let cnt = counts[i - 1];
                    let keys = choose|keys: Seq<Seq<char>>| b.trimmed(&a, n, now, ttl, keys, cnt);
                    assert(b.same_but(&a, n));
                    assert forall|c: Seq<char>| #[trigger] before.has(c) implies b.def_of(c) == before.def_of(c)
                        && b.parts(c) == if names.take(i).contains(c) {
                        before.expired_parts(c, now)
                    } else {
                        before.parts(c)
                    } by {
                        if c != n {
                            assert(names.take(i).contains(c) == names.take(i - 1).contains(c)) by {
                                if names.take(i).contains(c) {
                                    let k = choose|k: int| 0 <= k < i && #[trigger] names.take(i)[k] == c;
                                    assert(names.take(i - 1)[k] == c);
                                }
                                if names.take(i - 1).contains(c) {
                                    let k = choose|k: int| 0 <= k < i - 1 && #[trigger] names.take(i - 1)[k] == c;
                                    assert(names.take(i)[k] == c);
                                }
                            }
                        } else {
                            assert(names.take(i)[i - 1] == n);
                        }
                    }
                },
            }
        }
    }
}

/// Trimming, at `now`, the expired items of every collection trims each
/// collection that has a time to live to that age, and leaves the others,
/// and every definition, as they were.
pub proof fn law_expiry_trims_each_collection(after: CollectionStore, before: CollectionStore, now: u64, total: int)
    requires
        before.wf(),
        after.all_expired_trimmed_at(&before, now, total),
    ensures
        forall|c: Seq<char>| #[trigger] after.has(c) == before.has(c),
        forall|c: Seq<char>|
            #[trigger] before.has(c) ==> after.def_of(c) == before.def_of(c) && after.parts(c)
                == before.expired_parts(c, now),
{
    let (states, counts) = choose|states: Seq<CollectionStore>, counts: Seq<int>|
        {
            &&& CollectionStore::expiry_trace(before.names(), states, counts, now)
            &&& states[0] == before
            &&& states.last() == after
            &&& total == capped(sum_of(counts))
        };
    let k = before.names().len() as int;
    CollectionStore::lemma_expiry_prefix(before, states, counts, now, k);
    assert(before.names().take(k) =~= before.names());
    assert forall|c: Seq<char>| #[trigger] before.has(c) implies before.names().contains(c) by {
        let j = choose|j: int| 0 <= j < before.tables@.len() && before.tables@[j].name@ == c;
        assert(before.names()[j] == c);
    }
}

proof fn lemma_sum_nonneg(counts: Seq<int>)
    requires
        forall|j: int| 0 <= j < counts.len() ==> #[trigger] counts[j] >= 0,
    ensures
        sum_of(counts) >= 0,
    decreases counts.len(),
{
    if counts.len() > 0 {
        lemma_sum_nonneg(counts.drop_last());
    }
}


/// No two items share an id.
pub open spec fn ids_distinct(items: Seq<CollectionItem>) -> bool {
    forall|i: int, j: int| 0 <= i < j < items.len() ==> items[i].id@ != items[j].id@
}

/// A push never leaves more items in a partition than its bound.
pub proof fn law_push_bounded(items: Seq<CollectionItem>, def: CollectionDef, x: CollectionItem)
    ensures
        def.max_per_partition matches Some(m) ==> pushed(items, def, x).len() <= m,
{
}

/// In an ordered collection, a push keeps a partition sorted by time.
pub proof fn law_push_keeps_order(items: Seq<CollectionItem>, def: CollectionDef, x: CollectionItem)
    requires
        def.order_by is Some,
        sorted_by_created(items),
    ensures
        sorted_by_created(pushed(items, def, x)),
{
    let w = without_id(items, x.id@);
    lemma_find_id(items, x.id@);
    assert(sorted_by_created(w)) by {
        match find_id(items, x.id@) {
            Some(k) => {
                assert forall|a: int, b: int| 0 <= a <= b < w.len() implies w[a].created_at_ms <= w[b].created_at_ms by {
                    let a2 = if a >= k { a + 1 } else { a };
                    let b2 = if b >= k { b + 1 } else { b };
                    assert(w[a] == items[a2]);
                    assert(w[b] == items[b2]);
                }
            },
            None => {},
        }
    }
    let f = first_after(w, x.created_at_ms);
    lemma_first_after(w, x.created_at_ms);
    let pl = placed(w, def, x);
    assert(pl == w.insert(f, x));
    assert(sorted_by_created(pl)) by {
        assert forall|a: int, b: int| 0 <= a <= b < pl.len() implies pl[a].created_at_ms <= pl[b].created_at_ms by {
            if a < f && b < f {
                assert(pl[a] == w[a] && pl[b] == w[b]);
            } else if a < f && b == f {
                assert(pl[a] == w[a]);
            } else if a < f && b > f {
                assert(pl[a] == w[a] && pl[b] == w[b - 1]);
            } else if a == f && b == f {
            } else if a == f && b > f {
                assert(pl[b] == w[b - 1]);
                assert(w[f].created_at_ms > x.created_at_ms);
                assert(w[f].created_at_ms <= w[b - 1].created_at_ms);
            } else {
                assert(pl[a] == w[a - 1] && pl[b] == w[b - 1]);
            }
        }
    }
    let r = pushed(items, def, x);
    assert forall|a: int, b: int| 0 <= a <= b < r.len() implies r[a].created_at_ms <= r[b].created_at_ms by {
        match def.max_per_partition {
            Some(m) => {
                if pl.len() > m {
                    let off = pl.len() - m;
                    assert(r[a] == pl[a + off] && r[b] == pl[b + off]);
                }
            },
            None => {},
        }
    }
}

/// A push keeps the ids of a partition distinct: an item of the same id is
/// replaced, not repeated.
pub proof fn law_push_keeps_ids_distinct(items: Seq<CollectionItem>, def: CollectionDef, x: CollectionItem)
    requires
        ids_distinct(items),
    ensures
        ids_distinct(pushed(items, def, x)),
{
    let w = without_id(items, x.id@);
    lemma_find_id(items, x.id@);
    assert(ids_distinct(w) && forall|j: int| 0 <= j < w.len() ==> w[j].id@ != x.id@) by {
        match find_id(items, x.id@) {
            Some(k) => {
                assert forall|a: int| 0 <= a < w.len() implies w[a] == items[if a >= k { a + 1 } else { a }] by {}
                assert forall|a: int, b: int| 0 <= a < b < w.len() implies w[a].id@ != w[b].id@ by {
                    let a2 = if a >= k { a + 1 } else { a };
                    let b2 = if b >= k { b + 1 } else { b };
                    assert(w[a] == items[a2] && w[b] == items[b2]);
                }
                assert forall|j: int| 0 <= j < w.len() implies w[j].id@ != x.id@ by {
                    let j2 = if j >= k { j + 1 } else { j };
                    assert(w[j] == items[j2]);
                    if j2 > k {
                        assert(items[k].id@ != items[j2].id@);
                    }
                }
            },
            None => {},
        }
    }
    let pl = placed(w, def, x);
    assert(ids_distinct(pl)) by {
        if def.order_by is Some {
            let f = first_after(w, x.created_at_ms);
            lemma_first_after(w, x.created_at_ms);
            assert forall|a: int, b: int| 0 <= a < b < pl.len() implies pl[a].id@ != pl[b].id@ by {
                let ea = if a < f { w[a] } else if a == f { x } else { w[a - 1] };
                let eb = if b < f { w[b] } else if b == f { x } else { w[b - 1] };
                assert(pl[a] == ea && pl[b] == eb);
                if a != f && b != f {
                    let a2 = if a < f { a } else { a - 1 };
                    let b2 = if b < f { b } else { b - 1 };
                    assert(a2 < b2);
                }
            }
        } else {
            assert forall|a: int, b: int| 0 <= a < b < pl.len() implies pl[a].id@ != pl[b].id@ by {
                if b == w.len() {
                    assert(pl[b] == x);
                    assert(pl[a] == w[a]);
                } else {
                    assert(pl[a] == w[a] && pl[b] == w[b]);
                }
            }
        }
    }
    let r = pushed(items, def, x);
    assert forall|a: int, b: int| 0 <= a < b < r.len() implies r[a].id@ != r[b].id@ by {
        match def.max_per_partition {
            Some(m) => {
                if pl.len() > m {
                    let off = pl.len() - m;
                    assert(r[a] == pl[a + off] && r[b] == pl[b + off]);
                }
            },
            None => {},
        }
    }
}

/// In a collection kept in arrival order, a push makes the new item the
/// newest one (unless the bound is zero).
pub proof fn law_push_newest_last(items: Seq<CollectionItem>, def: CollectionDef, x: CollectionItem)
    requires
        def.order_by is None,
        def.max_per_partition matches Some(m) ==> m >= 1,
    ensures
        pushed(items, def, x).len() >= 1,
        pushed(items, def, x).last() == x,
{
    let pl = placed(without_id(items, x.id@), def, x);
    match def.max_per_partition {
        Some(m) => {
            if pl.len() > m {
                let off = pl.len() - m;
                assert(pushed(items, def, x)[m - 1] == pl[m - 1 + off]);
            }
        },
        None => {},
    }
}

/// A trim to a positive age leaves, in partitions sorted by time, no item
/// older than that age; a trim to age zero leaves no partition.
pub proof fn law_trim_leaves_fresh(parts: Map<Seq<char>, Seq<CollectionItem>>, now: u64, max_age_seconds: u64)
    requires
        forall|p: Seq<char>| #[trigger] parts.contains_key(p) ==> sorted_by_created(parts[p]),
    ensures
        max_age_seconds == 0 ==> trimmed_parts(parts, now, max_age_seconds).dom() == Set::<Seq<char>>::empty(),
        forall|p: Seq<char>, i: int|
            trimmed_parts(parts, now, max_age_seconds).contains_key(p) && 0 <= i < trimmed_parts(
                parts,
                now,
                max_age_seconds,
            )[p].len() ==> !item_stale(
                #[trigger] trimmed_parts(parts, now, max_age_seconds)[p][i],
                now,
                max_age_seconds,
            ),
{
    let t = trimmed_parts(parts, now, max_age_seconds);
    if max_age_seconds == 0 {
        assert forall|p: Seq<char>| !t.contains_key(p) by {
            if parts.contains_key(p) {
                lemma_stale_prefix(parts[p], now, max_age_seconds);
                lemma_stale_all(parts[p], now);
            }
        }
        assert(t.dom() =~= Set::<Seq<char>>::empty());
    }
    assert forall|p: Seq<char>, i: int|
        t.contains_key(p) && 0 <= i < t[p].len() implies !item_stale(#[trigger] t[p][i], now, max_age_seconds) by {
        let items = parts[p];
        let sp = stale_prefix(items, now, max_age_seconds);
        lemma_stale_prefix(items, now, max_age_seconds);
        assert(t[p][i] == items[sp + i]);
        assert(!item_stale(items[sp], now, max_age_seconds));
        assert(items[sp].created_at_ms <= items[sp + i].created_at_ms);
    }
}

proof fn lemma_stale_all(items: Seq<CollectionItem>, now: u64)
    ensures
        stale_prefix(items, now, 0) == items.len(),
    decreases items.len(),
{
    if items.len() > 0 {
        lemma_stale_all(items.drop_first(), now);
    }
}

/// A scan of one partition returns its items newest first: every one of
/// them when the limit is zero or no smaller than the partition, else
/// exactly `limit` of them.
pub proof fn law_scan_newest_first(items: Seq<CollectionItem>, limit: usize)
    ensures
        limit == 0 || limit >= items.len() ==> scan_items(items, limit) == items.reverse(),
        0 < limit < items.len() ==> scan_items(items, limit).len() == limit,
        scan_items(items, limit).len() <= items.len(),
        forall|i: int|
            0 <= i < scan_items(items, limit).len() ==> #[trigger] scan_items(items, limit)[i] == items[items.len()
                - 1 - i],
{
    let r = scan_items(items, limit);
    assert forall|i: int| 0 <= i < r.len() implies #[trigger] r[i] == items[items.len() - 1 - i] by {
        assert(r[i] == items.reverse()[i]);
    }
    if limit == 0 || limit >= items.len() {
        assert(r =~= items.reverse());
    }
}

/// A scan over several partitions, with a limit of zero or one no smaller
/// than any of them, takes every item of every listed partition.
pub proof fn law_multi_scan_takes_all(parts: Map<Seq<char>, Seq<CollectionItem>>, keys: Seq<Seq<char>>, limit: usize)
    requires
        forall|j: int| 0 <= j < keys.len() ==> parts.contains_key(#[trigger] keys[j]),
        forall|j: int| 0 <= j < keys.len() ==> limit == 0 || limit >= parts[#[trigger] keys[j]].len(),
    ensures
        multi_scan_items(parts, keys, limit).len() == items_along(parts, keys),
    decreases keys.len(),
{
    if keys.len() > 0 {
        let front = keys.drop_last();
        assert forall|j: int| 0 <= j < front.len() implies parts.contains_key(#[trigger] front[j]) by {
            assert(front[j] == keys[j]);
        }
        assert forall|j: int| 0 <= j < front.len() implies limit == 0 || limit >= parts[#[trigger] front[j]].len() by {
            assert(front[j] == keys[j]);
        }
        law_multi_scan_takes_all(parts, front, limit);
        let last = keys.len() - 1;
        assert(parts.contains_key(keys[last]));
        assert(limit == 0 || limit >= parts[keys[last]].len());
        law_scan_newest_first(parts[keys.last()], limit);
    }
}

} // verus!

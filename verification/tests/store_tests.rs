use stateful_runtime::config::schema::{
    EntitySchema, EntityType, FieldConfig, IndexConfig, IndexKind, RetentionConfig, SchemaConfig,
};
use stateful_runtime::json::{JsonKind, JsonNumber, JsonValue};
use stateful_runtime::store::collection::CollectionStoreError;
use stateful_runtime::store::entity::{StoreOp, StoreOpKind};
use stateful_runtime::store::{
    extract_collection_item_id, internal_index_name, tombstone_key, ApplyOpsError, Store, StoreError,
};

fn conv(v: &serde_json::Value) -> JsonValue {
    let text = serde_json::to_string(v).unwrap();
    let kind = match v {
        serde_json::Value::Null => JsonKind::Null,
        serde_json::Value::Bool(b) => JsonKind::Bool(*b),
        serde_json::Value::Number(n) => {
            if let Some(u) = n.as_u64() {
                JsonKind::Number(JsonNumber::PosInt(u))
            } else if let Some(i) = n.as_i64() {
                JsonKind::Number(JsonNumber::NegInt(i))
            } else {
                JsonKind::Number(JsonNumber::Float)
            }
        }
        serde_json::Value::String(s) => JsonKind::Str(s.clone()),
        serde_json::Value::Array(a) => JsonKind::Array(a.iter().map(conv).collect()),
        serde_json::Value::Object(o) => {
            JsonKind::Object(o.iter().map(|(k, v)| (k.clone(), conv(v))).collect())
        }
    };
    JsonValue { kind, text }
}

fn json(text: &str) -> JsonValue {
    conv(&serde_json::from_str(text).unwrap())
}

fn field(name: &str) -> FieldConfig {
    FieldConfig { name: name.to_string(), field_type: "string".to_string() }
}

fn index(name: &str, field: &str, kind: IndexKind) -> IndexConfig {
    IndexConfig { name: name.to_string(), field: field.to_string(), kind }
}

fn entity(name: &str, indexes: Vec<IndexConfig>, ttl: Option<u64>) -> EntitySchema {
    EntitySchema {
        name: name.to_string(),
        entity_type: EntityType::Entity,
        primary_key: "id".to_string(),
        fields: vec![field("email"), field("age"), field("team")],
        indexes,
        retention: ttl.map(|t| RetentionConfig { ttl_seconds: Some(t) }),
        partition_key: None,
        order_by: None,
        max_per_partition: None,
    }
}

fn posts() -> EntitySchema {
    EntitySchema {
        name: "posts".to_string(),
        entity_type: EntityType::Collection,
        primary_key: "id".to_string(),
        fields: vec![field("author")],
        indexes: vec![],
        retention: None,
        partition_key: Some("author".to_string()),
        order_by: None,
        max_per_partition: Some(2),
    }
}

fn schema() -> SchemaConfig {
    SchemaConfig {
        entities: vec![
            entity(
                "user",
                vec![
                    index("by_email", "email", IndexKind::Hash),
                    index("by_age", "age", IndexKind::Sorted),
                ],
                None,
            ),
            entity("session", vec![index("by_team", "team", IndexKind::Membership)], Some(60)),
            posts(),
        ],
    }
}

fn values(records: &[stateful_runtime::store::entity::EntityRecord]) -> Vec<String> {
    records.iter().map(|r| r.value.text.clone()).collect()
}

#[test]
fn read_after_write_gives_the_value() {
    let mut s = Store::new(&schema(), 0, 0);
    s.upsert_at("user", "u1", json(r#"{"email":"a@x","age":30}"#), 1000).unwrap();
    let r = s.get("user", "u1").unwrap();
    assert_eq!(r.value.text, r#"{"email":"a@x","age":30}"#);
    assert_eq!(r.updated_at_ms, 1000);
    assert_eq!(r.expires_at_ms, None);
    assert_eq!(r.entity_type, "user");
    assert_eq!(r.key, "u1");
    assert!(s.get("user", "u2").is_none());
    assert!(s.get("nobody", "u1").is_none());
}

#[test]
fn write_replaces_and_expiry_follows_ttl() {
    let mut s = Store::new(&schema(), 0, 0);
    s.upsert_at("session", "s1", json(r#"{"team":"red"}"#), 5000).unwrap();
    let r = s.get("session", "s1").unwrap();
    assert_eq!(r.expires_at_ms, Some(65000));
    s.upsert_at("session", "s1", json(r#"{"team":"blue"}"#), 7000).unwrap();
    let r = s.get("session", "s1").unwrap();
    assert_eq!(r.value.text, r#"{"team":"blue"}"#);
    assert_eq!(r.expires_at_ms, Some(67000));
}

#[test]
fn unknown_entity_is_refused() {
    let mut s = Store::new(&schema(), 0, 0);
    match s.upsert_at("ghost", "k", json("{}"), 1) {
        Err(StoreError::UnknownEntity(n)) => assert_eq!(n, "ghost"),
        other => panic!("unexpected {:?}", other),
    }
    match s.delete_at("ghost", "k", 1) {
        Err(StoreError::UnknownEntity(n)) => assert_eq!(n, "ghost"),
        other => panic!("unexpected {:?}", other),
    }
    // posts is a collection, not an entity type of the store
    assert!(matches!(s.upsert_at("posts", "k", json("{}"), 1), Err(StoreError::UnknownEntity(_))));
}

#[test]
fn record_estimate_and_limits() {
    // "user" (4) + "u1" (2) + {"a":1} (7) + 64 = 77 bytes
    let mut tight = Store::new(&schema(), 0, 76);
    assert!(matches!(tight.upsert_at("user", "u1", json(r#"{"a":1}"#), 1), Err(StoreError::EntityTooLarge)));
    let mut ok = Store::new(&schema(), 0, 77);
    ok.upsert_at("user", "u1", json(r#"{"a":1}"#), 1).unwrap();
    assert_eq!(ok.current_memory_bytes(), 77);

    let mut hard = Store::new(&schema(), 100, 0);
    hard.upsert_at("user", "u1", json(r#"{"a":1}"#), 1).unwrap();
    assert_eq!(hard.current_memory_bytes(), 77);
    assert!(matches!(
        hard.upsert_at("user", "u2", json(r#"{"a":1}"#), 1),
        Err(StoreError::HardMemoryLimitExceeded)
    ));
    // replacing the record only counts the difference
    hard.upsert_at("user", "u1", json(r#"{"a":12}"#), 2).unwrap();
    assert_eq!(hard.current_memory_bytes(), 78);
    assert_eq!(hard.max_memory_bytes(), 100);
}

#[test]
fn delete_leaves_a_tombstone_and_releases_memory() {
    let mut s = Store::new(&schema(), 0, 0);
    s.upsert_at("user", "u1", json(r#"{"email":"a@x"}"#), 1).unwrap();
    let before = s.current_memory_bytes();
    assert!(before > 0);
    s.delete_at("user", "u1", 42).unwrap();
    assert!(s.get("user", "u1").is_none());
    assert_eq!(s.current_memory_bytes(), 0);
    let t = s.list_tombstones();
    assert_eq!(t.len(), 1);
    assert_eq!(t[0].entity_type, "user");
    assert_eq!(t[0].key, "u1");
    assert_eq!(t[0].deleted_at_ms, 42);
    // deleting a missing key changes nothing
    s.delete_at("user", "u9", 43).unwrap();
    assert_eq!(s.list_tombstones().len(), 1);
    // writing again lifts the tombstone
    s.upsert_at("user", "u1", json(r#"{"email":"b@x"}"#), 50).unwrap();
    assert_eq!(s.list_tombstones().len(), 0);
}

#[test]
fn hash_index_follows_writes_and_deletes() {
    let mut s = Store::new(&schema(), 0, 0);
    s.upsert_at("user", "u1", json(r#"{"email":"a@x"}"#), 1).unwrap();
    s.upsert_at("user", "u2", json(r#"{"email":"a@x"}"#), 1).unwrap();
    s.upsert_at("user", "u3", json(r#"{"email":"c@x"}"#), 1).unwrap();
    assert_eq!(s.index_lookup_keys("by_email", "a@x"), vec!["u1".to_string(), "u2".to_string()]);
    assert_eq!(s.index_lookup_keys("user.by_email", "c@x"), vec!["u3".to_string()]);
    // moving u1 to another email removes its old entry
    s.upsert_at("user", "u1", json(r#"{"email":"c@x"}"#), 2).unwrap();
    assert_eq!(s.index_lookup_keys("by_email", "a@x"), vec!["u2".to_string()]);
    // deletion leaves no stale entry
    s.delete_at("user", "u2", 3).unwrap();
    assert!(s.index_lookup_keys("by_email", "a@x").is_empty());
    assert_eq!(s.index_lookup_keys("by_email", "c@x"), vec!["u1".to_string(), "u3".to_string()]);
    // unknown index
    assert!(s.index_lookup_keys("nope", "c@x").is_empty());
}

#[test]
fn index_keys_of_non_string_values() {
    let mut s = Store::new(&schema(), 0, 0);
    s.upsert_at("user", "u1", json(r#"{"email":7}"#), 1).unwrap();
    s.upsert_at("user", "u2", json(r#"{"email":true}"#), 1).unwrap();
    s.upsert_at("user", "u3", json(r#"{"email":null}"#), 1).unwrap();
    s.upsert_at("user", "u4", json(r#"{"other":1}"#), 1).unwrap();
    assert_eq!(s.index_lookup_keys("by_email", "7"), vec!["u1".to_string()]);
    assert_eq!(s.index_lookup_keys("by_email", "true"), vec!["u2".to_string()]);
    assert_eq!(s.index_lookup_keys("by_email", "null"), vec!["u3".to_string()]);
}

#[test]
fn index_lookup_entities_takes_at_least_one() {
    let mut s = Store::new(&schema(), 0, 0);
    s.upsert_at("user", "u1", json(r#"{"email":"a@x"}"#), 1).unwrap();
    s.upsert_at("user", "u2", json(r#"{"email":"a@x"}"#), 1).unwrap();
    let all = s.index_lookup_entities("by_email", "a@x", 10);
    assert_eq!(all.len(), 2);
    let one = s.index_lookup_entities("by_email", "a@x", 0);
    assert_eq!(one.len(), 1);
    assert_eq!(one[0].key, "u1");
    assert!(s.index_lookup_entities("missing", "a@x", 5).is_empty());
}

#[test]
fn range_lookup_in_value_order() {
    let mut s = Store::new(&schema(), 0, 0);
    s.upsert_at("user", "u1", json(r#"{"age":"30"}"#), 1).unwrap();
    s.upsert_at("user", "u2", json(r#"{"age":"25"}"#), 1).unwrap();
    s.upsert_at("user", "u3", json(r#"{"age":"40"}"#), 1).unwrap();
    s.upsert_at("user", "u4", json(r#"{"age":"30"}"#), 1).unwrap();
    assert_eq!(
        s.range_lookup_keys("by_age", None, None, 0),
        vec!["u2".to_string(), "u1".to_string(), "u4".to_string(), "u3".to_string()]
    );
    assert_eq!(
        s.range_lookup_keys("by_age", Some("26"), Some("30"), 0),
        vec!["u1".to_string(), "u4".to_string()]
    );
    assert_eq!(s.range_lookup_keys("by_age", Some("26"), None, 2), vec!["u1".to_string(), "u4".to_string()]);
    let recs = s.range_lookup_entities("user.by_age", Some("31"), None, 0);
    assert_eq!(values(&recs), vec![r#"{"age":"40"}"#.to_string()]);
    // a hash index has no range
    assert!(s.range_lookup_keys("by_email", None, None, 0).is_empty());
}

#[test]
fn index_names_resolve_exactly_or_by_unique_suffix() {
    let sc = SchemaConfig {
        entities: vec![
            entity("a", vec![index("by_x", "email", IndexKind::Hash)], None),
            entity("b", vec![index("by_x", "email", IndexKind::Hash)], None),
            entity("c", vec![index("by_y", "email", IndexKind::Hash)], None),
        ],
    };
    let s = Store::new(&sc, 0, 0);
    assert_eq!(s.resolve_index_name("a.by_x"), Some("a.by_x".to_string()));
    assert_eq!(s.resolve_index_name("by_x"), None);
    assert_eq!(s.resolve_index_name("by_y"), Some("c.by_y".to_string()));
    assert_eq!(s.resolve_index_name("y"), None);
}

#[test]
fn batch_get_keeps_the_keys_order() {
    let mut s = Store::new(&schema(), 0, 0);
    s.upsert_at("user", "u1", json(r#"{"a":1}"#), 1).unwrap();
    s.upsert_at("user", "u3", json(r#"{"a":3}"#), 1).unwrap();
    let got = s.batch_get("user", &vec!["u3".to_string(), "u2".to_string(), "u1".to_string()]);
    assert_eq!(got.len(), 3);
    assert_eq!(got[0].as_ref().unwrap().value.text, r#"{"a":3}"#);
    assert!(got[1].is_none());
    assert_eq!(got[2].as_ref().unwrap().value.text, r#"{"a":1}"#);
}

#[test]
fn sweep_evicts_expired_records_and_old_tombstones() {
    let mut s = Store::new(&schema(), 0, 0);
    s.upsert_at("session", "s1", json(r#"{"team":"red"}"#), 1000).unwrap(); // expires at 61000
    s.upsert_at("session", "s2", json(r#"{"team":"red"}"#), 50000).unwrap(); // expires at 110000
    s.upsert_at("user", "u1", json(r#"{"email":"a@x"}"#), 1000).unwrap(); // never expires
    s.upsert_at("user", "u2", json(r#"{"email":"b@x"}"#), 1000).unwrap();
    s.delete_at("user", "u2", 2000).unwrap();
    let before = s.current_memory_bytes();
    let r = s.sweep_retention(61000, 3600);
    assert_eq!(r.evicted_entities, 1);
    // "session" (7) + "s1" (2) + {"team":"red"} (14) + 64 bytes released
    assert_eq!(before - s.current_memory_bytes(), 87);
    assert_eq!(r.trimmed_collection_items, 0); // no collection has a time to live
    assert!(s.get("session", "s1").is_none());
    assert!(s.get("session", "s2").is_some());
    assert!(s.get("user", "u1").is_some());
    assert!(s.index_lookup_keys("by_team", "red") == vec!["s2".to_string()]);
    // the eviction's tombstone was stamped by the clock, so it is fresh; the
    // delete at 2000 is 59 s old, within the hour
    assert_eq!(r.cleaned_tombstones, 0);
    assert_eq!(s.list_tombstones().len(), 2);
    // a zero time to live cleans every tombstone
    let r2 = s.sweep_retention(61000, 0);
    assert_eq!(r2.evicted_entities, 0);
    assert_eq!(r2.cleaned_tombstones, 2);
    assert!(s.list_tombstones().is_empty());
}

#[test]
fn snapshots_count_records_and_index_entries() {
    let mut s = Store::new(&schema(), 0, 0);
    s.upsert_at("user", "u1", json(r#"{"email":"a@x","age":"3"}"#), 1).unwrap();
    s.upsert_at("user", "u2", json(r#"{"email":"b@x"}"#), 1).unwrap();
    let mut counts = s.snapshot_entity_counts();
    counts.sort();
    assert_eq!(counts, vec![("session".to_string(), 0), ("user".to_string(), 2)]);
    let sizes = s.snapshot_index_sizes();
    let get = |n: &str| sizes.iter().find(|(k, _)| k == n).map(|(_, c)| *c);
    assert_eq!(get("user.by_email"), Some(2));
    assert_eq!(get("user.by_age"), Some(1));
    assert_eq!(get("by_email"), Some(0));
    assert_eq!(get("by_team"), Some(0));
}

#[test]
fn names_of_indexes_and_tombstones() {
    assert_eq!(internal_index_name("user", "by_email"), "user.by_email");
    assert_eq!(tombstone_key("user", "u1"), "user:u1");
}

fn op(kind: StoreOpKind, t: &str, k: &str, item: Option<&str>, v: Option<&str>) -> StoreOp {
    StoreOp {
        op: kind,
        entity_type: t.to_string(),
        key: k.to_string(),
        item_id: item.map(|s| s.to_string()),
        value: v.map(json),
    }
}

#[test]
fn apply_ops_applies_in_order_and_stops_at_the_first_failure() {
    let mut s = Store::new(&schema(), 0, 0);
    let ops = vec![
        op(StoreOpKind::Upsert, "user", "u1", None, Some(r#"{"email":"a@x"}"#)),
        op(StoreOpKind::Push, "posts", "alice", None, Some(r#"{"id":"p1"}"#)),
        op(StoreOpKind::Push, "posts", "alice", None, Some(r#"{"post_id":7}"#)),
        op(StoreOpKind::Upsert, "user", "u2", None, None),
        op(StoreOpKind::Delete, "ghost", "x", None, None),
        op(StoreOpKind::Upsert, "user", "u3", None, Some("{}")),
    ];
    match s.apply_ops(ops) {
        Err(ApplyOpsError::Store(StoreError::UnknownEntity(n))) => assert_eq!(n, "ghost"),
        other => panic!("unexpected {:?}", other),
    }
    assert!(s.get("user", "u1").is_some());
    assert!(s.get("user", "u2").is_none());
    assert!(s.get("user", "u3").is_none());
    assert_eq!(s.collection_store().len("posts", "alice").unwrap(), 2);
    let items = s.collection_store().scan("posts", "alice", 0).unwrap();
    assert_eq!(items[0].text, r#"{"post_id":7}"#);
}

#[test]
fn apply_ops_error_variants() {
    let mut s = Store::new(&schema(), 0, 0);
    assert!(matches!(
        s.apply_ops(vec![op(StoreOpKind::Push, "posts", "a", None, None)]),
        Err(ApplyOpsError::MissingPushValue)
    ));
    assert!(matches!(
        s.apply_ops(vec![op(StoreOpKind::Push, "posts", "a", None, Some(r#"{"x":1}"#))]),
        Err(ApplyOpsError::MissingPushItemId)
    ));
    assert!(matches!(
        s.apply_ops(vec![op(StoreOpKind::RemoveItem, "posts", "a", None, None)]),
        Err(ApplyOpsError::MissingRemoveItemId)
    ));
    assert!(matches!(
        s.apply_ops(vec![op(StoreOpKind::Push, "posts", "a", Some("  "), Some(r#"{"x":1}"#))]),
        Err(ApplyOpsError::Collection(CollectionStoreError::EmptyItemId))
    ));
    assert!(matches!(
        s.apply_ops(vec![op(StoreOpKind::Push, "nope", "a", Some("i1"), Some(r#"{"x":1}"#))]),
        Err(ApplyOpsError::Collection(_))
    ));
    s.apply_ops(vec![op(StoreOpKind::Push, "posts", "a", Some("i1"), Some(r#"{"x":1}"#))]).unwrap();
    s.apply_ops(vec![op(StoreOpKind::RemoveItem, "posts", "a", None, Some(r#"{"id":"i1"}"#))]).unwrap();
    assert_eq!(s.collection_store().len("posts", "a").unwrap(), 0);
}

#[test]
fn push_item_id_precedence() {
    let v = json(r#"{"id":"from-value","post_id":-5}"#);
    assert_eq!(
        extract_collection_item_id(&op(StoreOpKind::Push, "p", "k", Some("given"), None), &v),
        Some("given".to_string())
    );
    assert_eq!(
        extract_collection_item_id(&op(StoreOpKind::Push, "p", "k", Some(""), None), &v),
        Some("from-value".to_string())
    );
    let w = json(r#"{"id":"","post_id":-5}"#);
    assert_eq!(
        extract_collection_item_id(&op(StoreOpKind::Push, "p", "k", None, None), &w),
        Some("-5".to_string())
    );
    let x = json(r#"{"id":3}"#);
    assert_eq!(extract_collection_item_id(&op(StoreOpKind::Push, "p", "k", None, None), &x), None);
}

#[test]
fn batch_keeps_indexes_in_step_with_records() {
    let mut s = Store::new(&schema(), 0, 0);
    let ops = vec![
        op(StoreOpKind::Upsert, "user", "u1", None, Some(r#"{"email":"a@x"}"#)),
        op(StoreOpKind::Upsert, "user", "u2", None, Some(r#"{"email":"a@x"}"#)),
        op(StoreOpKind::Upsert, "user", "u1", None, Some(r#"{"email":"b@x"}"#)),
        op(StoreOpKind::Delete, "user", "u2", None, None),
        op(StoreOpKind::Push, "posts", "alice", Some("p1"), Some(r#"{"x":1}"#)),
        op(StoreOpKind::Delete, "ghost", "x", None, None),
        op(StoreOpKind::Upsert, "user", "u3", None, Some(r#"{"email":"a@x"}"#)),
    ];
    assert!(s.apply_ops(ops).is_err());
    assert!(s.index_lookup_keys("by_email", "a@x").is_empty());
    assert_eq!(s.index_lookup_keys("by_email", "b@x"), vec!["u1".to_string()]);
}

#[test]
fn sweep_trims_collections_with_a_time_to_live() {
    let mut feed = posts();
    feed.name = "feed".to_string();
    feed.max_per_partition = None;
    feed.retention = Some(RetentionConfig { ttl_seconds: Some(60) });
    let schema = SchemaConfig { entities: vec![posts(), feed] };
    let mut s = Store::new(&schema, 0, 0);
    let c = s.collection_store_mut();
    c.push_at("feed", "alice", "i1", json(r#"{"x":1}"#), 1000).unwrap();
    c.push_at("feed", "alice", "i2", json(r#"{"x":2}"#), 100000).unwrap();
    c.push_at("feed", "bob", "i3", json(r#"{"x":3}"#), 2000).unwrap();
    c.push_at("posts", "alice", "p1", json(r#"{"x":4}"#), 1000).unwrap();
    let before = s.collection_store().current_memory_bytes();
    // at 120000 the items of 1000 and 2000 are more than 60 s old
    let r = s.sweep_retention(120000, 3600);
    assert_eq!(r.trimmed_collection_items, 2);
    assert!(s.collection_store().current_memory_bytes() < before);
    assert_eq!(s.collection_store().len("feed", "alice").unwrap(), 1);
    assert_eq!(s.collection_store().len("feed", "bob").unwrap(), 0);
    assert_eq!(s.collection_store().partition_count("feed").unwrap(), 1);
    // a collection without a time to live keeps its items
    assert_eq!(s.collection_store().len("posts", "alice").unwrap(), 1);
}

#[test]
fn error_texts() {
    assert_eq!(
        StoreError::UnknownEntity("ghost".to_string()).message(),
        "entity type 'ghost' is not defined in schema"
    );
    assert_eq!(StoreError::EntityTooLarge.message(), "entity payload exceeds max_entity_bytes");
    assert_eq!(StoreError::HardMemoryLimitExceeded.message(), "store hard memory limit exceeded");
    assert_eq!(
        CollectionStoreError::UnknownCollection("feed".to_string()).message(),
        "collection 'feed' is not defined in schema"
    );
    assert_eq!(CollectionStoreError::EmptyItemId.message(), "collection item id cannot be empty");
    assert_eq!(
        ApplyOpsError::Store(StoreError::EntityTooLarge).message(),
        "entity payload exceeds max_entity_bytes"
    );
    assert_eq!(
        ApplyOpsError::Collection(CollectionStoreError::EmptyItemId).message(),
        "collection item id cannot be empty"
    );
    assert_eq!(ApplyOpsError::MissingPushValue.message(), "push op requires a value payload");
    assert_eq!(ApplyOpsError::MissingPushItemId.message(), "push op requires item_id or value.id");
    assert_eq!(ApplyOpsError::MissingRemoveItemId.message(), "remove_item op requires item_id");
}

#[test]
fn memory_counter_is_the_sum_of_live_estimates() {
    let mut s = Store::new(&schema(), 0, 0);
    s.upsert_at("user", "u1", json(r#"{"email":"a@x"}"#), 1000).unwrap();
    s.upsert_at("user", "u2", json(r#"{"email":"b@x"}"#), 1000).unwrap();
    s.upsert_at("user", "u1", json(r#"{"email":"longer@x"}"#), 2000).unwrap();
    s.delete_at("user", "u2", 3000).unwrap();
    let expected = stateful_runtime::store::estimate_entity_size("user", "u1", &json(r#"{"email":"longer@x"}"#));
    assert_eq!(s.current_memory_bytes(), expected);
}

#[test]
fn memory_stays_within_the_hard_limit_along_a_sequence() {
    let mut s = Store::new(&schema(), 300, 0);
    let mut refused = 0;
    for i in 0..10 {
        let key = format!("u{i}");
        if s.upsert_at("user", &key, json(r#"{"email":"someone@example.com"}"#), 1000).is_err() {
            refused += 1;
        }
        assert!(s.current_memory_bytes() <= 300);
        if i % 3 == 0 {
            s.delete_at("user", &key, 2000).unwrap();
        }
        assert!(s.current_memory_bytes() <= 300);
    }
    assert!(refused > 0);
    let live: usize = (0..10)
        .filter_map(|i| s.get("user", &format!("u{i}")).map(|r| (i, r)))
        .map(|(i, r)| stateful_runtime::store::estimate_entity_size("user", &format!("u{i}"), &r.value))
        .sum();
    assert_eq!(s.current_memory_bytes(), live);
}

#[test]
fn a_write_lifts_every_tombstone_of_its_record() {
    let mut s = Store::new(&schema(), 0, 0);
    s.upsert_at("user", "u1", json(r#"{"email":"a@x"}"#), 1000).unwrap();
    s.delete_at("user", "u1", 2000).unwrap();
    assert_eq!(s.list_tombstones().len(), 1);
    s.upsert_at("user", "u1", json(r#"{"email":"b@x"}"#), 3000).unwrap();
    assert!(s.list_tombstones().iter().all(|t| !(t.entity_type == "user" && t.key == "u1")));
}

#[test]
fn a_write_files_its_key_under_exactly_its_values() {
    let mut s = Store::new(&schema(), 0, 0);
    s.upsert_at("user", "u1", json(r#"{"email":"a@x","age":30}"#), 1000).unwrap();
    s.upsert_at("user", "u1", json(r#"{"email":"b@x","age":31}"#), 2000).unwrap();
    assert_eq!(s.index_lookup_keys("user.by_email", "b@x"), vec!["u1".to_string()]);
    assert!(s.index_lookup_keys("user.by_email", "a@x").is_empty());
    assert_eq!(s.range_lookup_keys("user.by_age", Some("31"), Some("31"), 0), vec!["u1".to_string()]);
    assert!(s.range_lookup_keys("user.by_age", Some("30"), Some("30"), 0).is_empty());
    s.upsert_at("user", "u1", json(r#"{"name":"x"}"#), 3000).unwrap();
    assert!(s.index_lookup_keys("user.by_email", "b@x").is_empty());
    assert!(s.range_lookup_keys("user.by_age", Some("31"), Some("31"), 0).is_empty());
}

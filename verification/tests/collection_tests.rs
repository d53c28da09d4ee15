use stateful_runtime::config::schema::{
    EntitySchema, EntityType, FieldConfig, RetentionConfig, SchemaConfig,
};
use stateful_runtime::json::{JsonKind, JsonNumber, JsonValue};
use stateful_runtime::store::collection::{CollectionStore, CollectionStoreError};

fn conv(v: &serde_json::Value) -> JsonValue {
    let text = serde_json::to_string(v).unwrap();
    let kind = match v {
        serde_json::Value::Null => JsonKind::Null,
        serde_json::Value::Bool(b) => JsonKind::Bool(*b),
        serde_json::Value::Number(n) => {
            if let Some(u) = n.as_u64() {
                JsonKind::Number(JsonNumber::PosInt(u))
            } else if let Some(i) = n.as_i64() {
                JsonKind::Number(JsonNumber::NegInt(i))
            } else {
                JsonKind::Number(JsonNumber::Float)
            }
        }
        serde_json::Value::String(s) => JsonKind::Str(s.clone()),
        serde_json::Value::Array(a) => JsonKind::Array(a.iter().map(conv).collect()),
        serde_json::Value::Object(o) => {
            JsonKind::Object(o.iter().map(|(k, v)| (k.clone(), conv(v))).collect())
        }
    };
    JsonValue { kind, text }
}

fn json(text: &str) -> JsonValue {
    conv(&serde_json::from_str(text).unwrap())
}

fn collection(name: &str, order_by: Option<&str>, max: Option<usize>, ttl: Option<u64>) -> EntitySchema {
    EntitySchema {
        name: name.to_string(),
        entity_type: EntityType::Collection,
        primary_key: "id".to_string(),
        fields: vec![FieldConfig { name: "author".to_string(), field_type: "string".to_string() }],
        indexes: vec![],
        retention: ttl.map(|t| RetentionConfig { ttl_seconds: Some(t) }),
        partition_key: Some("author".to_string()),
        order_by: order_by.map(|s| s.to_string()),
        max_per_partition: max,
    }
}

fn store() -> CollectionStore {
    CollectionStore::new(&SchemaConfig {
        entities: vec![
            collection("feed", None, Some(3), Some(60)),
            collection("timeline", Some("ts"), None, None),
        ],
    })
}

fn texts(v: &[JsonValue]) -> Vec<String> {
    v.iter().map(|x| x.text.clone()).collect()
}

#[test]
fn scan_returns_newest_first() {
    let mut c = store();
    c.push_at("feed", "a", "1", json(r#"{"n":1}"#), 10).unwrap();
    c.push_at("feed", "a", "2", json(r#"{"n":2}"#), 20).unwrap();
    assert_eq!(texts(&c.scan("feed", "a", 0).unwrap()), vec![r#"{"n":2}"#, r#"{"n":1}"#]);
    assert_eq!(texts(&c.scan("feed", "a", 1).unwrap()), vec![r#"{"n":2}"#]);
    assert!(c.scan("feed", "nobody", 0).unwrap().is_empty());
}

#[test]
fn partition_keeps_at_most_its_bound() {
    let mut c = store();
    for i in 1..=5u64 {
        c.push_at("feed", "a", &i.to_string(), json(&format!(r#"{{"n":{i}}}"#)), i).unwrap();
    }
    assert_eq!(c.len("feed", "a").unwrap(), 3);
    assert_eq!(texts(&c.scan("feed", "a", 0).unwrap()), vec![r#"{"n":5}"#, r#"{"n":4}"#, r#"{"n":3}"#]);
}

#[test]
fn pushing_an_existing_id_replaces_it() {
    let mut c = store();
    c.push_at("feed", "a", "x", json(r#"{"v":1}"#), 1).unwrap();
    c.push_at("feed", "a", "y", json(r#"{"v":2}"#), 2).unwrap();
    c.push_at("feed", "a", "x", json(r#"{"v":3}"#), 3).unwrap();
    assert_eq!(c.len("feed", "a").unwrap(), 2);
    assert_eq!(texts(&c.scan("feed", "a", 0).unwrap()), vec![r#"{"v":3}"#, r#"{"v":2}"#]);
}

#[test]
fn ordered_collection_sorts_by_its_field() {
    let mut c = store();
    c.push_at("timeline", "a", "1", json(r#"{"ts":300}"#), 0).unwrap();
    c.push_at("timeline", "a", "2", json(r#"{"ts":"100"}"#), 0).unwrap();
    c.push_at("timeline", "a", "3", json(r#"{"ts":-4}"#), 0).unwrap();
    c.push_at("timeline", "a", "4", json(r#"{"ts":200}"#), 0).unwrap();
    c.push_at("timeline", "a", "5", json(r#"{"other":1}"#), 250).unwrap();
    assert_eq!(
        texts(&c.scan("timeline", "a", 0).unwrap()),
        vec![r#"{"ts":300}"#, r#"{"other":1}"#, r#"{"ts":200}"#, r#"{"ts":"100"}"#, r#"{"ts":-4}"#]
    );
}

#[test]
fn multi_scan_merges_newest_first() {
    let mut c = store();
    c.push_at("timeline", "a", "1", json(r#"{"ts":1}"#), 0).unwrap();
    c.push_at("timeline", "a", "2", json(r#"{"ts":5}"#), 0).unwrap();
    c.push_at("timeline", "b", "3", json(r#"{"ts":3}"#), 0).unwrap();
    c.push_at("timeline", "b", "4", json(r#"{"ts":7}"#), 0).unwrap();
    let keys = vec!["a".to_string(), "b".to_string(), "none".to_string()];
    assert_eq!(
        texts(&c.multi_scan("timeline", &keys, 0).unwrap()),
        vec![r#"{"ts":7}"#, r#"{"ts":5}"#, r#"{"ts":3}"#, r#"{"ts":1}"#]
    );
    assert_eq!(texts(&c.multi_scan("timeline", &keys, 1).unwrap()), vec![r#"{"ts":7}"#, r#"{"ts":5}"#]);
}

#[test]
fn remove_drops_an_item_and_empty_partitions() {
    let mut c = store();
    c.push_at("feed", "a", "x", json(r#"{"v":1}"#), 1).unwrap();
    assert_eq!(c.partition_count("feed").unwrap(), 1);
    assert_eq!(c.remove("feed", "a", "nope").unwrap(), false);
    assert_eq!(c.remove("feed", "a", "x").unwrap(), true);
    assert_eq!(c.partition_count("feed").unwrap(), 0);
    assert_eq!(c.current_memory_bytes(), 0);
}

#[test]
fn memory_counts_item_estimates() {
    let mut c = store();
    // "a" (1) + "x" (1) + {"v":1} (7) + 64 = 73
    c.push_at("feed", "a", "x", json(r#"{"v":1}"#), 1).unwrap();
    assert_eq!(c.current_memory_bytes(), 73);
    c.push_at("feed", "a", "x", json(r#"{"v":10}"#), 2).unwrap();
    assert_eq!(c.current_memory_bytes(), 74);
}

#[test]
fn collection_errors() {
    let mut c = store();
    assert!(matches!(c.push_at("feed", "a", " ", json("{}"), 1), Err(CollectionStoreError::EmptyItemId)));
    match c.push_at("nope", "a", "x", json("{}"), 1) {
        Err(CollectionStoreError::UnknownCollection(n)) => assert_eq!(n, "nope"),
        other => panic!("unexpected {:?}", other),
    }
    assert!(matches!(c.scan("nope", "a", 0), Err(CollectionStoreError::UnknownCollection(_))));
    assert!(matches!(c.len("nope", "a"), Err(CollectionStoreError::UnknownCollection(_))));
    assert!(matches!(c.remove("nope", "a", "x"), Err(CollectionStoreError::UnknownCollection(_))));
    assert!(matches!(c.trim_collection_at("nope", 1, 1), Err(CollectionStoreError::UnknownCollection(_))));
    assert!(matches!(c.trim_expired("nope"), Err(CollectionStoreError::UnknownCollection(_))));
}

#[test]
fn trim_removes_items_past_the_age() {
    let mut c = store();
    c.push_at("feed", "a", "1", json(r#"{"n":1}"#), 1000).unwrap();
    c.push_at("feed", "a", "2", json(r#"{"n":2}"#), 5000).unwrap();
    c.push_at("feed", "b", "3", json(r#"{"n":3}"#), 1000).unwrap();
    // at 10 s, items older than 6 s go: those created at 1 s
    assert_eq!(c.trim_collection_at("feed", 6, 10000).unwrap(), 2);
    assert_eq!(c.len("feed", "a").unwrap(), 1);
    assert_eq!(c.partition_count("feed").unwrap(), 1);
    // age zero empties the collection
    assert_eq!(c.trim_collection_at("feed", 0, 10000).unwrap(), 1);
    assert_eq!(c.partition_count("feed").unwrap(), 0);
    assert_eq!(c.current_memory_bytes(), 0);
}

#[test]
fn trim_expired_uses_the_ttl() {
    let mut c = store();
    c.push_at("feed", "a", "1", json(r#"{"n":1}"#), 0).unwrap();
    c.push_at("timeline", "a", "1", json(r#"{"ts":0}"#), 0).unwrap();
    // timeline has no ttl: nothing to trim
    assert_eq!(c.trim_expired("timeline").unwrap(), 0);
    // feed's items were created at the epoch: long past a minute
    assert_eq!(c.trim_expired("feed").unwrap(), 1);
    c.push_at("feed", "a", "2", json(r#"{"n":2}"#), 0).unwrap();
    assert_eq!(c.trim_all_expired(), 1);
    assert_eq!(c.len("timeline", "a").unwrap(), 1);
}

#[test]
fn snapshot_counts_items_per_collection() {
    let mut c = store();
    c.push_at("feed", "a", "1", json("{}"), 0).unwrap();
    c.push_at("feed", "b", "2", json("{}"), 0).unwrap();
    c.push_at("feed", "b", "3", json("{}"), 0).unwrap();
    let mut sizes = c.snapshot_collection_sizes();
    sizes.sort();
    assert_eq!(sizes, vec![("feed".to_string(), 3), ("timeline".to_string(), 0)]);
}

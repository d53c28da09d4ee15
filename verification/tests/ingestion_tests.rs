use stateful_runtime::ingestion::{read_payload, PayloadError};
use stateful_runtime::json::{JsonKind, JsonNumber};
use stateful_runtime::config::app::{AppMetadata, IngestionSource, IngestionTopicConfig};
use stateful_runtime::ingestion::{
    commit_offset_after, consumer_group_id, find_binding, max_in_flight, source_brokers, topic_bindings,
    IngestionHealth,
};

fn source(group: Option<&str>, brokers: &[&str]) -> IngestionSource {
    IngestionSource {
        source_type: "kafka".to_string(),
        group_id: group.map(|s| s.to_string()),
        brokers: brokers.iter().map(|s| s.to_string()).collect(),
        topics: vec![
            IngestionTopicConfig { name: "clicks".to_string(), entity: "click".to_string(), event_type: "".to_string() },
            IngestionTopicConfig { name: "views".to_string(), entity: "view".to_string(), event_type: "seen".to_string() },
        ],
    }
}

#[test]
fn bindings_default_the_event_type_to_the_topic() {
    let b = topic_bindings(&source(None, &[]));
    assert_eq!(b.len(), 2);
    assert_eq!(b[0].event_type, "clicks");
    assert_eq!(b[1].event_type, "seen");
    assert_eq!(b[1].entity, "view");
    assert_eq!(find_binding(&b, "views"), Some(1));
    assert_eq!(find_binding(&b, "other"), None);
}

#[test]
fn group_id_is_stable_per_app() {
    let app = AppMetadata { name: "ads".to_string(), version: "1.2".to_string() };
    assert_eq!(consumer_group_id(&source(None, &[]), &app), "ads-1.2");
    assert_eq!(consumer_group_id(&source(Some("g"), &[]), &app), "g");
}

#[test]
fn brokers_are_joined_with_commas() {
    assert_eq!(source_brokers(&source(None, &[])), None);
    assert_eq!(source_brokers(&source(None, &["a:1"])), Some("a:1".to_string()));
    assert_eq!(source_brokers(&source(None, &["a:1", "b:2", "c:3"])), Some("a:1,b:2,c:3".to_string()));
}

#[test]
fn offsets_and_concurrency() {
    assert_eq!(commit_offset_after(41), 42);
    assert_eq!(max_in_flight(0), 1);
    assert_eq!(max_in_flight(8), 8);
    let mut h = IngestionHealth::default();
    assert!(!h.is_ready());
    h.set_ready(true);
    assert!(h.is_ready());
}

#[test]
fn kafka_payloads_are_read_as_json() {
    let doc = read_payload(Some(br#"{"user":"u1","n":-3}"#)).unwrap();
    assert!(doc.text == r#"{"user":"u1","n":-3}"# || doc.text == r#"{"n":-3,"user":"u1"}"#);
    match doc.kind {
        JsonKind::Object(members) => {
            let n = members.iter().find(|(k, _)| k == "n").unwrap();
            assert!(matches!(n.1.kind, JsonKind::Number(JsonNumber::NegInt(-3))));
        }
        other => panic!("unexpected {:?}", other),
    }
    let e = read_payload(None).unwrap_err();
    assert!(matches!(e, PayloadError::Empty));
    assert_eq!(e.message(), "empty payload");
    let e = read_payload(Some(b"")).unwrap_err();
    assert!(matches!(e, PayloadError::NotJson));
    assert_eq!(e.message(), "failed to parse Kafka JSON payload");
}

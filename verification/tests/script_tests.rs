use stateful_runtime::json::{JsonKind, JsonNumber, JsonValue};
use stateful_runtime::script::{parse_store_ops, pool_slots, slot_for, OpsParseError};
use stateful_runtime::store::entity::StoreOpKind;

fn conv(v: &serde_json::Value) -> JsonValue {
    let text = serde_json::to_string(v).unwrap();
    let kind = match v {
        serde_json::Value::Null => JsonKind::Null,
        serde_json::Value::Bool(b) => JsonKind::Bool(*b),
        serde_json::Value::Number(n) => {
            if let Some(u) = n.as_u64() {
                JsonKind::Number(JsonNumber::PosInt(u))
            } else if let Some(i) = n.as_i64() {
                JsonKind::Number(JsonNumber::NegInt(i))
            } else {
                JsonKind::Number(JsonNumber::Float)
            }
        }
        serde_json::Value::String(s) => JsonKind::Str(s.clone()),
        serde_json::Value::Array(a) => JsonKind::Array(a.iter().map(conv).collect()),
        serde_json::Value::Object(o) => {
            JsonKind::Object(o.iter().map(|(k, v)| (k.clone(), conv(v))).collect())
        }
    };
    JsonValue { kind, text }
}

fn json(text: &str) -> JsonValue {
    conv(&serde_json::from_str(text).unwrap())
}

#[test]
fn script_results_become_store_ops() {
    let ops = parse_store_ops(&json(
        r#"[{"op":"upsert","entity_type":"user","key":"u1","value":{"a":1}},
            {"op":"push","entityType":"posts","key":"alice","itemId":"p1","value":{"b":2}},
            {"op":"delete","entity_type":"user","key":"u2"},
            {"op":"remove_item","entity_type":"posts","key":"alice","item_id":"p0"}]"#,
    ))
    .unwrap();
    assert_eq!(ops.len(), 4);
    assert_eq!(ops[0].op, StoreOpKind::Upsert);
    assert_eq!(ops[0].value.as_ref().unwrap().text, r#"{"a":1}"#);
    assert_eq!(ops[1].op, StoreOpKind::Push);
    assert_eq!(ops[1].entity_type, "posts");
    assert_eq!(ops[1].item_id, Some("p1".to_string()));
    assert_eq!(ops[2].op, StoreOpKind::Delete);
    assert!(ops[2].value.is_none());
    assert_eq!(ops[3].op, StoreOpKind::RemoveItem);
    assert_eq!(ops[3].item_id, Some("p0".to_string()));
    assert!(parse_store_ops(&json("null")).unwrap().is_empty());
}

#[test]
fn malformed_results_are_refused() {
    assert!(matches!(parse_store_ops(&json("{}")), Err(OpsParseError::NotArray)));
    assert!(matches!(parse_store_ops(&json("[1]")), Err(OpsParseError::NotObject(0))));
    assert!(matches!(
        parse_store_ops(&json(r#"[{"op":"delete","entity_type":"a","key":"k"},{"entity_type":"a","key":"k"}]"#)),
        Err(OpsParseError::MissingOp(1))
    ));
    assert!(matches!(parse_store_ops(&json(r#"[{"op":"delete","key":"k"}]"#)), Err(OpsParseError::MissingEntityType(0))));
    // a non-string entity_type hides entityType
    assert!(matches!(
        parse_store_ops(&json(r#"[{"op":"delete","entity_type":1,"entityType":"a","key":"k"}]"#)),
        Err(OpsParseError::MissingEntityType(0))
    ));
    assert!(matches!(parse_store_ops(&json(r#"[{"op":"delete","entity_type":"a"}]"#)), Err(OpsParseError::MissingKey(0))));
    match parse_store_ops(&json(r#"[{"op":"merge","entity_type":"a","key":"k"}]"#)) {
        Err(OpsParseError::UnsupportedOp(0, s)) => assert_eq!(s, "merge"),
        other => panic!("unexpected {:?}", other),
    }
}

#[test]
fn calls_go_round_the_pool() {
    assert_eq!(pool_slots(0), 1);
    assert_eq!(pool_slots(4), 4);
    assert_eq!(slot_for(9, 4), 1);
}

#[test]
fn parse_error_texts() {
    assert_eq!(OpsParseError::NotArray.message(), "on_ingest must return an array of ops");
    assert_eq!(OpsParseError::NotObject(0).message(), "each op must be a JSON object");
    assert_eq!(OpsParseError::MissingOp(1).message(), "op.op must be present");
    assert_eq!(OpsParseError::MissingEntityType(2).message(), "op.entity_type must be present");
    assert_eq!(OpsParseError::MissingKey(3).message(), "op.key must be present");
    assert_eq!(
        OpsParseError::UnsupportedOp(4, "merge".to_string()).message(),
        "unsupported store op 'merge'"
    );
}

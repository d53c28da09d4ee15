use stateful_runtime::json::JsonKind;
use stateful_runtime::http::edge::{edge_step, EdgeAction, EdgeEvent, EdgeStage};
use stateful_runtime::limits::LimitError;
use stateful_runtime::http::edge::{contains_text, response_fits, response_status, script_error_status};
use stateful_runtime::http::health::{health_payload, HealthState};
use stateful_runtime::http::router::{method_filter, parse_query_string, HttpMethod};

fn lookup(v: &[(String, String)], k: &str) -> Option<String> {
    v.iter().find(|(a, _)| a == k).map(|(_, b)| b.clone())
}

#[test]
fn query_string_last_value_wins() {
    let q = parse_query_string(Some("a=1&b=2&a=3&&c&d=x=y&=e"));
    assert_eq!(q.len(), 5);
    assert_eq!(lookup(&q, "a"), Some("3".to_string()));
    assert_eq!(lookup(&q, "b"), Some("2".to_string()));
    assert_eq!(lookup(&q, "c"), Some("".to_string()));
    assert_eq!(lookup(&q, "d"), Some("x=y".to_string()));
    assert_eq!(lookup(&q, ""), Some("e".to_string()));
    assert!(parse_query_string(None).is_empty());
    assert!(parse_query_string(Some("")).is_empty());
}

#[test]
fn methods_match_case_insensitively() {
    assert_eq!(method_filter("get").unwrap(), HttpMethod::Get);
    assert_eq!(method_filter("Post").unwrap(), HttpMethod::Post);
    assert_eq!(method_filter("DELETE").unwrap(), HttpMethod::Delete);
    assert_eq!(method_filter("options").unwrap(), HttpMethod::Options);
    let e = method_filter("trace").unwrap_err();
    assert_eq!(e.0, "TRACE");
}

#[test]
fn edge_statuses() {
    assert_eq!(response_status(201), 201);
    assert_eq!(response_status(99), 200);
    assert_eq!(response_status(1000), 200);
    assert_eq!(script_error_status("route execution exceeded CPU time budget"), 503);
    assert_eq!(script_error_status("boom"), 500);
    assert!(contains_text("abcabd", "abd"));
    assert!(!contains_text("ab", "abc"));
    assert!(response_fits(10, 10));
    assert!(!response_fits(11, 10));
}

#[test]
fn readiness_payload_reports_each_flag() {
    let mut h = HealthState::default();
    h.set_config_loaded(true);
    let p = h.readiness(false);
    assert!(!p.ready);
    assert!(p.config_loaded);
    assert!(!p.scripts_loaded);
    assert_eq!(health_payload().status, "ok");
}

#[test]
fn edge_steps_follow_the_checks_in_order() {
    assert!(matches!(
        edge_step(EdgeStage::CheckRate, EdgeEvent::Passed, 10),
        EdgeAction::Proceed(EdgeStage::AcquirePermit)
    ));
    assert!(matches!(
        edge_step(EdgeStage::AcquirePermit, EdgeEvent::Passed, 10),
        EdgeAction::Proceed(EdgeStage::CheckBudget)
    ));
    assert!(matches!(
        edge_step(EdgeStage::CheckBudget, EdgeEvent::Passed, 10),
        EdgeAction::Proceed(EdgeStage::ReadBody)
    ));
    assert!(matches!(
        edge_step(EdgeStage::ReadBody, EdgeEvent::Passed, 10),
        EdgeAction::Proceed(EdgeStage::RunScript)
    ));
    match edge_step(EdgeStage::CheckRate, EdgeEvent::Limited(LimitError::RequestRateExceeded), 10) {
        EdgeAction::Refuse { status, message, counted } => {
            assert_eq!(status, 429);
            assert_eq!(message, "request rate limit exceeded");
            assert!(counted);
        }
        other => panic!("unexpected {:?}", other),
    }
    match edge_step(EdgeStage::ReadBody, EdgeEvent::BodyNotJson, 10) {
        EdgeAction::Refuse { status, message, .. } => {
            assert_eq!(status, 400);
            assert_eq!(message, "request body must be valid JSON");
        }
        other => panic!("unexpected {:?}", other),
    }
    match edge_step(EdgeStage::RunScript, EdgeEvent::ScriptFailed("ran past its time budget".to_string()), 10) {
        EdgeAction::Refuse { status, message, .. } => {
            assert_eq!(status, 503);
            assert_eq!(message, "ran past its time budget");
        }
        other => panic!("unexpected {:?}", other),
    }
    match edge_step(EdgeStage::RunScript, EdgeEvent::ScriptAnswered(201, None), 10) {
        EdgeAction::Refuse { status, counted, .. } => {
            assert_eq!(status, 500);
            assert!(!counted);
        }
        other => panic!("unexpected {:?}", other),
    }
    match edge_step(EdgeStage::RunScript, EdgeEvent::ScriptAnswered(201, Some(11)), 10) {
        EdgeAction::Refuse { status, message, .. } => {
            assert_eq!(status, 503);
            assert_eq!(message, "response payload too large");
        }
        other => panic!("unexpected {:?}", other),
    }
    assert!(matches!(
        edge_step(EdgeStage::RunScript, EdgeEvent::ScriptAnswered(201, Some(10)), 10),
        EdgeAction::Respond(201)
    ));
    assert!(matches!(
        edge_step(EdgeStage::RunScript, EdgeEvent::ScriptAnswered(42, Some(3)), 10),
        EdgeAction::Respond(200)
    ));
}

#[test]
fn request_bodies_are_read_as_json() {
    let empty = stateful_runtime::http::edge::read_body(b"").unwrap();
    assert!(matches!(empty.kind, JsonKind::Null));
    assert_eq!(empty.text, "null");
    let doc = stateful_runtime::http::edge::read_body(br#"{ "a" : [1, "x"] }"#).unwrap();
    assert_eq!(doc.text, r#"{"a":[1,"x"]}"#);
    match doc.kind {
        JsonKind::Object(members) => {
            assert_eq!(members.len(), 1);
            assert_eq!(members[0].0, "a");
            assert_eq!(members[0].1.text, r#"[1,"x"]"#);
        }
        other => panic!("unexpected {:?}", other),
    }
    assert!(matches!(
        stateful_runtime::http::edge::read_body(b"{not json"),
        Err(EdgeEvent::BodyNotJson)
    ));
}

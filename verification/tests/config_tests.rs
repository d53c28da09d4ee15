use stateful_runtime::config::app::{
    default_http_request_encoding, default_js_memory_limit_bytes, default_kafka_encoding,
    default_max_cpu_ms_per_request, default_max_request_bytes, default_max_response_bytes,
    default_pool_size, AdminConfig, AppConfig, AppMetadata, CronConfig, EndpointConfig,
    FormatsConfig, IngestionSource, IngestionTopicConfig, JsLimitsConfig, LifecycleConfig,
    LimitsConfig, QueryConfig, RateLimitsConfig, StoreLimitsConfig,
};
use stateful_runtime::config::loaded::{load_bundle, ConfigError, LoadedConfig};
use stateful_runtime::config::schema::{
    EntitySchema, EntityType, FieldConfig, IndexConfig, IndexKind, SchemaConfig,
};

fn endpoint(name: &str, method: &str, path: &str) -> EndpointConfig {
    EndpointConfig {
        name: name.to_string(),
        method: method.to_string(),
        path: path.to_string(),
        handler: "scripts/routes/feed.js".to_string(),
        timeout_ms: None,
    }
}

fn user() -> EntitySchema {
    EntitySchema {
        name: "user".to_string(),
        entity_type: EntityType::Entity,
        primary_key: "id".to_string(),
        fields: vec![FieldConfig { name: "email".to_string(), field_type: "string".to_string() }],
        indexes: vec![IndexConfig { name: "by_email".to_string(), field: "email".to_string(), kind: IndexKind::Hash }],
        retention: None,
        partition_key: None,
        order_by: None,
        max_per_partition: None,
    }
}

fn posts() -> EntitySchema {
    EntitySchema {
        name: "posts".to_string(),
        entity_type: EntityType::Collection,
        primary_key: "id".to_string(),
        fields: vec![
            FieldConfig { name: "author".to_string(), field_type: "string".to_string() },
            FieldConfig { name: "ts".to_string(), field_type: "u64".to_string() },
        ],
        indexes: vec![],
        retention: None,
        partition_key: Some("author".to_string()),
        order_by: Some("ts".to_string()),
        max_per_partition: Some(10),
    }
}

fn base() -> LoadedConfig {
    LoadedConfig {
        app: AppConfig {
            app: AppMetadata { name: "feed".to_string(), version: "1".to_string() },
            limits: LimitsConfig {
                max_concurrent_requests: 8,
                rate_limits: RateLimitsConfig::default(),
                js: JsLimitsConfig {
                    pool_size: default_pool_size(),
                    memory_limit_bytes: default_js_memory_limit_bytes(),
                    max_cpu_ms_per_request: default_max_cpu_ms_per_request(),
                },
                store: StoreLimitsConfig {
                    max_bytes: 1000,
                    max_entity_bytes: 100,
                    tombstone_ttl_seconds: 3600,
                    soft_limit_percent: 80,
                },
                max_request_bytes: default_max_request_bytes(),
                max_response_bytes: default_max_response_bytes(),
            },
            formats: FormatsConfig::default(),
            ingestion: vec![IngestionSource {
                source_type: "kafka".to_string(),
                group_id: None,
                brokers: vec![],
                topics: vec![IngestionTopicConfig {
                    name: "users".to_string(),
                    entity: "user".to_string(),
                    event_type: "".to_string(),
                }],
            }],
            endpoints: vec![endpoint("feed", "get", "/feed"), endpoint("post", "POST", "/feed")],
            queries: vec![QueryConfig { name: "q".to_string(), handler: "scripts/q.js".to_string() }],
            crons: vec![CronConfig { name: "c".to_string(), interval_seconds: 5, handler: "scripts/c.js".to_string() }],
            lifecycle: Some(LifecycleConfig { on_init: Some("scripts/init.js".to_string()), on_shutdown: None }),
            admin: AdminConfig::default(),
        },
        schema: SchemaConfig { entities: vec![user(), posts()] },
        bundle_path: "/bundle".to_string(),
    }
}

fn existing() -> Vec<String> {
    vec![
        "scripts/routes/feed.js".to_string(),
        "scripts/q.js".to_string(),
        "scripts/c.js".to_string(),
        "scripts/init.js".to_string(),
    ]
}

fn check(c: &LoadedConfig) -> Result<(), ConfigError> {
    c.validate(&existing())
}

#[test]
fn defaults_are_as_documented() {
    assert_eq!(default_max_request_bytes(), 1048576);
    assert_eq!(default_max_response_bytes(), 1048576);
    assert_eq!(default_pool_size(), 4);
    assert_eq!(default_max_cpu_ms_per_request(), 5);
    assert_eq!(default_js_memory_limit_bytes(), 134217728);
    assert_eq!(default_kafka_encoding(), "json");
    assert_eq!(default_http_request_encoding(), "json");
}

#[test]
fn a_consistent_bundle_passes() {
    assert_eq!(check(&base()), Ok(()));
    let b = base();
    let loaded = load_bundle(b.app.clone(), b.schema.clone(), b.bundle_path.clone(), &existing()).unwrap();
    assert_eq!(loaded.bundle_path, "/bundle");
}

#[test]
fn limits_must_be_sane() {
    let mut c = base();
    c.app.app.name = "  ".to_string();
    assert_eq!(check(&c), Err(ConfigError::AppNameEmpty));
    let mut c = base();
    c.app.limits.max_concurrent_requests = 0;
    assert_eq!(check(&c), Err(ConfigError::MaxConcurrentRequestsZero));
    let mut c = base();
    c.app.limits.store.max_entity_bytes = 2000;
    assert_eq!(check(&c), Err(ConfigError::MaxEntityBytesAboveMaxBytes));
    let mut c = base();
    c.app.limits.store.soft_limit_percent = 101;
    assert_eq!(check(&c), Err(ConfigError::SoftLimitPercentAbove100));
    let mut c = base();
    c.app.limits.js.pool_size = 0;
    c.app.limits.store.max_bytes = 0;
    assert_eq!(check(&c), Err(ConfigError::JsPoolSizeZero));
}

#[test]
fn endpoints_must_be_unique_and_present() {
    let mut c = base();
    c.app.endpoints.push(endpoint("feed", "GET", "/other"));
    assert_eq!(check(&c), Err(ConfigError::DuplicateEndpointName(2)));
    let mut c = base();
    c.app.endpoints.push(endpoint("again", " Get ", "/feed"));
    assert_eq!(check(&c), Err(ConfigError::DuplicateEndpoint(2)));
    let mut c = base();
    c.app.endpoints[1].method = "  ".to_string();
    assert_eq!(check(&c), Err(ConfigError::EndpointMethodEmpty(1)));
    let mut c = base();
    c.app.endpoints[0].handler = "scripts/missing.js".to_string();
    assert_eq!(check(&c), Err(ConfigError::EndpointHandlerMissing(0)));
}

#[test]
fn scripts_and_sources_are_checked() {
    let mut c = base();
    c.app.crons[0].interval_seconds = 0;
    assert_eq!(check(&c), Err(ConfigError::CronIntervalZero(0)));
    let mut c = base();
    c.app.queries.push(QueryConfig { name: "q".to_string(), handler: "scripts/q.js".to_string() });
    assert_eq!(check(&c), Err(ConfigError::DuplicateQueryName(1)));
    let mut c = base();
    c.app.lifecycle = Some(LifecycleConfig { on_init: None, on_shutdown: Some("scripts/bye.js".to_string()) });
    assert_eq!(check(&c), Err(ConfigError::OnShutdownMissing));
    let mut c = base();
    c.app.ingestion[0].source_type = "amqp".to_string();
    assert_eq!(check(&c), Err(ConfigError::UnsupportedIngestionType(0)));
    let mut c = base();
    c.app.ingestion[0].topics.clear();
    assert_eq!(check(&c), Err(ConfigError::KafkaSourceWithoutTopics(0)));
}

#[test]
fn schema_must_be_consistent() {
    let mut c = base();
    c.schema.entities.clear();
    assert_eq!(check(&c), Err(ConfigError::NoEntities));
    let mut c = base();
    c.schema.entities.push(user());
    assert_eq!(check(&c), Err(ConfigError::DuplicateEntity(2)));
    let mut c = base();
    c.schema.entities[0].fields.push(FieldConfig { name: "email".to_string(), field_type: "x".to_string() });
    assert_eq!(check(&c), Err(ConfigError::DuplicateField(0, 1)));
    let mut c = base();
    c.schema.entities[0].indexes[0].field = "phone".to_string();
    assert_eq!(check(&c), Err(ConfigError::IndexFieldUnknown(0, 0)));
    let mut c = base();
    c.schema.entities[0].indexes[0].field = "id".to_string();
    assert_eq!(check(&c), Ok(()));
    let mut c = base();
    c.schema.entities[1].partition_key = None;
    assert_eq!(check(&c), Err(ConfigError::PartitionKeyMissing(1)));
    let mut c = base();
    c.schema.entities[1].order_by = Some("when".to_string());
    assert_eq!(check(&c), Err(ConfigError::OrderByUnknown(1)));
    let mut c = base();
    c.schema.entities[1].max_per_partition = Some(0);
    assert_eq!(check(&c), Err(ConfigError::MaxPerPartitionZero(1)));
}

#[test]
fn topics_must_feed_known_entities() {
    let mut c = base();
    c.app.ingestion[0].topics[0].entity = "ghost".to_string();
    assert_eq!(check(&c), Err(ConfigError::UnknownTopicEntity(0, 0)));
    assert_eq!(c.validate_app(&existing()), Ok(()));
    assert_eq!(c.validate_schema(), Ok(()));
    assert_eq!(c.validate_cross_references(), Err(ConfigError::UnknownTopicEntity(0, 0)));
}

#[test]
fn every_other_check_has_its_error() {
    let cases: Vec<(Box<dyn Fn(&mut LoadedConfig)>, ConfigError)> = vec![
        (Box::new(|c| c.app.app.version = "".to_string()), ConfigError::AppVersionEmpty),
        (Box::new(|c| c.app.limits.js.max_cpu_ms_per_request = 0), ConfigError::JsMaxCpuZero),
        (Box::new(|c| c.app.limits.store.max_bytes = 0), ConfigError::StoreMaxBytesZero),
        (Box::new(|c| c.app.limits.max_request_bytes = 0), ConfigError::MaxRequestBytesZero),
        (Box::new(|c| c.app.limits.max_response_bytes = 0), ConfigError::MaxResponseBytesZero),
        (Box::new(|c| c.app.endpoints[1].name = " ".to_string()), ConfigError::EndpointNameEmpty(1)),
        (Box::new(|c| c.app.endpoints[0].path = "".to_string()), ConfigError::EndpointPathEmpty(0)),
        (Box::new(|c| c.app.queries[0].name = "".to_string()), ConfigError::QueryNameEmpty(0)),
        (Box::new(|c| c.app.queries[0].handler = " ".to_string()), ConfigError::QueryHandlerEmpty(0)),
        (Box::new(|c| c.app.queries[0].handler = "scripts/none.js".to_string()), ConfigError::QueryHandlerMissing(0)),
        (Box::new(|c| c.app.crons[0].name = "".to_string()), ConfigError::CronNameEmpty(0)),
        (
            Box::new(|c| {
                let again = c.app.crons[0].clone();
                c.app.crons.push(again)
            }),
            ConfigError::DuplicateCronName(1),
        ),
        (Box::new(|c| c.app.crons[0].handler = "".to_string()), ConfigError::CronHandlerEmpty(0)),
        (Box::new(|c| c.app.crons[0].handler = "scripts/none.js".to_string()), ConfigError::CronHandlerMissing(0)),
        (
            Box::new(|c| c.app.lifecycle = Some(LifecycleConfig { on_init: Some(" ".to_string()), on_shutdown: None })),
            ConfigError::OnInitEmpty,
        ),
        (
            Box::new(|c| {
                c.app.lifecycle = Some(LifecycleConfig { on_init: Some("scripts/none.js".to_string()), on_shutdown: None })
            }),
            ConfigError::OnInitMissing,
        ),
        (
            Box::new(|c| c.app.lifecycle = Some(LifecycleConfig { on_init: None, on_shutdown: Some("".to_string()) })),
            ConfigError::OnShutdownEmpty,
        ),
        (Box::new(|c| c.schema.entities[1].name = "".to_string()), ConfigError::EntityNameEmpty(1)),
        (Box::new(|c| c.schema.entities[0].primary_key = " ".to_string()), ConfigError::PrimaryKeyEmpty(0)),
        (Box::new(|c| c.schema.entities[1].fields[1].name = "".to_string()), ConfigError::FieldNameEmpty(1, 1)),
        (Box::new(|c| c.schema.entities[1].partition_key = Some("".to_string())), ConfigError::PartitionKeyEmpty(1)),
        (Box::new(|c| c.schema.entities[1].partition_key = Some("who".to_string())), ConfigError::PartitionKeyUnknown(1)),
        (Box::new(|c| c.schema.entities[1].order_by = Some(" ".to_string())), ConfigError::OrderByEmpty(1)),
        (Box::new(|c| c.schema.entities[0].indexes[0].name = "".to_string()), ConfigError::IndexNameEmpty(0, 0)),
        (
            Box::new(|c| {
                let again = c.schema.entities[0].indexes[0].clone();
                c.schema.entities[0].indexes.push(again)
            }),
            ConfigError::DuplicateIndex(0, 1),
        ),
    ];
    for (change, expected) in cases {
        let mut c = base();
        change(&mut c);
        assert_eq!(check(&c), Err(expected));
    }
}

#[test]
fn error_texts_name_what_is_wrong() {
    let c = base();
    assert_eq!(ConfigError::AppNameEmpty.message(&c, ""), "app.name must not be empty");
    assert_eq!(
        ConfigError::DuplicateEndpointName(1).message(&c, ""),
        "duplicate endpoint name 'post'"
    );
    assert_eq!(
        ConfigError::DuplicateEndpoint(0).message(&c, ""),
        "duplicate endpoint definition 'GET /feed'"
    );
    assert_eq!(ConfigError::DuplicateQueryName(0).message(&c, ""), "duplicate query name 'q'");
    assert_eq!(
        ConfigError::CronIntervalZero(0).message(&c, ""),
        "cron 'c' interval_seconds must be > 0"
    );
    assert_eq!(
        ConfigError::DuplicateEntity(0).message(&c, ""),
        "duplicate entity 'user'"
    );
    assert_eq!(
        ConfigError::UnknownTopicEntity(0, 0).message(&c, ""),
        "topic 'users' references unknown entity 'user'"
    );
    assert_eq!(
        ConfigError::UnsupportedIngestionType(0).message(&c, ""),
        "unsupported ingestion type 'kafka'; expected 'kafka' or 'http'"
    );
    assert_eq!(
        ConfigError::PartitionKeyUnknown(1).message(&c, ""),
        "collection entity 'posts' partition_key 'author' references unknown field"
    );
}

#[test]
fn missing_scripts_are_named_with_their_path() {
    let c = base();
    assert_eq!(ConfigError::QueryHandlerMissing(0).missing_script(&c), Some("scripts/q.js".to_string()));
    assert_eq!(ConfigError::OnInitMissing.missing_script(&c), Some("scripts/init.js".to_string()));
    assert_eq!(ConfigError::OnShutdownMissing.missing_script(&c), Some(String::new()));
    assert_eq!(ConfigError::NoEntities.missing_script(&c), None);
    assert_eq!(
        ConfigError::QueryHandlerMissing(0).message(&c, "/bundle/scripts/q.js"),
        "query 'q' handler is missing: /bundle/scripts/q.js"
    );
    assert_eq!(
        ConfigError::OnInitMissing.message(&c, "/bundle/scripts/init.js"),
        "lifecycle on_init script is missing: /bundle/scripts/init.js"
    );
}

#[test]
fn entities_are_checked_each_on_its_own() {
    let mut alone = base();
    alone.schema.entities = vec![posts()];
    assert!(alone.validate_schema().is_ok());
    let mut both = base();
    both.schema.entities = vec![user(), posts()];
    assert!(both.validate_schema().is_ok());
    let mut twice = base();
    twice.schema.entities = vec![posts(), posts()];
    assert!(matches!(twice.validate_schema(), Err(ConfigError::DuplicateEntity(1))));
}

//! The application configuration (`app.yaml`).

use vstd::prelude::*;

verus! {

/// The default for `limits.max_request_bytes`: one mebibyte.
pub fn default_max_request_bytes() -> (r: usize)
    ensures
        r == 1048576,
{
    1024 * 1024
}

/// The default for `limits.max_response_bytes`: one mebibyte.
pub fn default_max_response_bytes() -> (r: usize)
    ensures
        r == 1048576,
{
    1024 * 1024
}

/// The default for `limits.js.pool_size`.
pub fn default_pool_size() -> (r: usize)
    ensures
        r == 4,
{
    4
}

/// The default for `limits.js.max_cpu_ms_per_request`.
pub fn default_max_cpu_ms_per_request() -> (r: u64)
    ensures
        r == 5,
{
    5
}

/// The default for `limits.js.memory_limit_bytes`: 128 mebibytes.
pub fn default_js_memory_limit_bytes() -> (r: usize)
    ensures
        r == 134217728,
{
    128 * 1024 * 1024
}

/// The default encoding of Kafka payloads and HTTP bodies.
pub open spec fn json_encoding() -> Seq<char> {
    seq!['j', 's', 'o', 'n']
}

/// The default for `formats.kafka.encoding`: `json`.
pub fn default_kafka_encoding() -> (r: String)
    ensures
        r@ == json_encoding(),
{
    proof {
        reveal_strlit("json");
    }
    String::from_str("json")
}

/// The default for `formats.http.request`: `json`.
pub fn default_http_request_encoding() -> (r: String)
    ensures
        r@ == json_encoding(),
{
    proof {
        reveal_strlit("json");
    }
    String::from_str("json")
}

/// The default for `formats.http.response`: `json`.
pub fn default_http_response_encoding() -> (r: String)
    ensures
        r@ == json_encoding(),
{
    proof {
        reveal_strlit("json");
    }
    String::from_str("json")
}

#[derive(Debug, Clone)]
pub struct AppConfig {
    pub app: AppMetadata,
    pub limits: LimitsConfig,
    pub formats: FormatsConfig,
    pub ingestion: Vec<IngestionSource>,
    pub endpoints: Vec<EndpointConfig>,
    pub queries: Vec<QueryConfig>,
    pub crons: Vec<CronConfig>,
    pub lifecycle: Option<LifecycleConfig>,
    pub admin: AdminConfig,
}

#[derive(Debug, Clone)]
pub struct AppMetadata {
    pub name: String,
    pub version: String,
}

#[derive(Debug, Clone)]
pub struct LimitsConfig {
    pub max_concurrent_requests: usize,
    pub rate_limits: RateLimitsConfig,
    pub js: JsLimitsConfig,
    pub store: StoreLimitsConfig,
    pub max_request_bytes: usize,
    pub max_response_bytes: usize,
}

#[derive(Debug, Clone, Copy)]
pub struct RateLimitsConfig {
    pub query_rps: usize,
    pub ingest_rps: usize,
}

impl Default for RateLimitsConfig {
    fn default() -> (r: Self)
        ensures
            r.query_rps == 0,
            r.ingest_rps == 0,
    {
        RateLimitsConfig { query_rps: 0, ingest_rps: 0 }
    }
}

#[derive(Debug, Clone, Copy)]
pub struct JsLimitsConfig {
    pub pool_size: usize,
    pub memory_limit_bytes: usize,
    pub max_cpu_ms_per_request: u64,
}

#[derive(Debug, Clone, Copy)]
pub struct StoreLimitsConfig {
    pub max_bytes: usize,
    pub max_entity_bytes: usize,
    pub tombstone_ttl_seconds: u64,
    pub soft_limit_percent: u8,
}

#[derive(Debug, Clone)]
pub struct FormatsConfig {
    pub kafka: KafkaFormatConfig,
    pub http: HttpFormatConfig,
}

impl Default for FormatsConfig {
    fn default() -> (r: Self)
        ensures
            r.kafka.encoding@ == json_encoding(),
            r.http.request@ == json_encoding(),
            r.http.response@ == json_encoding(),
    {
        FormatsConfig { kafka: KafkaFormatConfig::default(), http: HttpFormatConfig::default() }
    }
}

#[derive(Debug, Clone)]
pub struct KafkaFormatConfig {
    pub encoding: String,
}

impl Default for KafkaFormatConfig {
    fn default() -> (r: Self)
        ensures
            r.encoding@ == json_encoding(),
    {
        KafkaFormatConfig { encoding: default_kafka_encoding() }
    }
}

#[derive(Debug, Clone)]
pub struct HttpFormatConfig {
    pub request: String,
    pub response: String,
}

impl Default for HttpFormatConfig {
    fn default() -> (r: Self)
        ensures
            r.request@ == json_encoding(),
            r.response@ == json_encoding(),
    {
        HttpFormatConfig {
            request: default_http_request_encoding(),
            response: default_http_response_encoding(),
        }
    }
}

#[derive(Debug, Clone)]
pub struct IngestionSource {
    /// `type` in the YAML file: `kafka` or `http`.
    pub source_type: String,
    pub group_id: Option<String>,
    pub brokers: Vec<String>,
    pub topics: Vec<IngestionTopicConfig>,
}

#[derive(Debug, Clone)]
pub struct IngestionTopicConfig {
    pub name: String,
    pub entity: String,
    pub event_type: String,
}

#[derive(Debug, Clone)]
pub struct EndpointConfig {
    pub name: String,
    pub method: String,
    pub path: String,
    pub handler: String,
    pub timeout_ms: Option<u64>,
}

/// A named query handler script.
#[derive(Debug, Clone)]
pub struct QueryConfig {
    pub name: String,
    pub handler: String,
}

/// A handler script run every `interval_seconds`.
#[derive(Debug, Clone)]
pub struct CronConfig {
    pub name: String,
    pub interval_seconds: u64,
    pub handler: String,
}

/// Scripts run when the runtime starts and stops.
#[derive(Debug, Clone)]
pub struct LifecycleConfig {
    pub on_init: Option<String>,
    pub on_shutdown: Option<String>,
}

#[derive(Debug, Clone)]
pub struct AdminConfig {
    pub enable_grpc: bool,
    pub enable_execute: bool,
    pub bind: Option<String>,
}

impl Default for AdminConfig {
    fn default() -> (r: Self)
        ensures
            !r.enable_grpc,
            !r.enable_execute,
            r.bind is None,
    {
        AdminConfig { enable_grpc: false, enable_execute: false, bind: None }
    }
}

} // verus!

//! The texts of the validation errors of a bundle.

use vstd::prelude::*;

use crate::config::loaded::{ConfigError, LoadedConfig};
use crate::text::{to_upper, trim, trim_seq, uppercase};

verus! {

/// The name of endpoint `i` (empty when there is none).
pub open spec fn endpoint_name_of(c: LoadedConfig, i: int) -> Seq<char> {
    if 0 <= i < c.app.endpoints@.len() {
        c.app.endpoints@[i].name@
    } else {
        ""@
    }
}

fn endpoint_name(c: &LoadedConfig, i: usize) -> (r: &str)
    ensures
        r@ == endpoint_name_of(*c, i as int),
{
    if i < c.app.endpoints.len() {
        c.app.endpoints[i].name.as_str()
    } else {
        ""
    }
}

/// The method of endpoint `i` (empty when there is none).
pub open spec fn endpoint_method_of(c: LoadedConfig, i: int) -> Seq<char> {
    if 0 <= i < c.app.endpoints@.len() {
        c.app.endpoints@[i].method@
    } else {
        ""@
    }
}

fn endpoint_method(c: &LoadedConfig, i: usize) -> (r: &str)
    ensures
        r@ == endpoint_method_of(*c, i as int),
{
    if i < c.app.endpoints.len() {
        c.app.endpoints[i].method.as_str()
    } else {
        ""
    }
}

/// The path of endpoint `i` (empty when there is none).
pub open spec fn endpoint_path_of(c: LoadedConfig, i: int) -> Seq<char> {
    if 0 <= i < c.app.endpoints@.len() {
        c.app.endpoints@[i].path@
    } else {
        ""@
    }
}

fn endpoint_path(c: &LoadedConfig, i: usize) -> (r: &str)
    ensures
        r@ == endpoint_path_of(*c, i as int),
{
    if i < c.app.endpoints.len() {
        c.app.endpoints[i].path.as_str()
    } else {
        ""
    }
}

/// The handler of endpoint `i` (empty when there is none).
pub open spec fn endpoint_handler_of(c: LoadedConfig, i: int) -> Seq<char> {
    if 0 <= i < c.app.endpoints@.len() {
        c.app.endpoints@[i].handler@
    } else {
        ""@
    }
}

fn endpoint_handler(c: &LoadedConfig, i: usize) -> (r: &str)
    ensures
        r@ == endpoint_handler_of(*c, i as int),
{
    if i < c.app.endpoints.len() {
        c.app.endpoints[i].handler.as_str()
    } else {
        ""
    }
}

/// The name of query `i` (empty when there is none).
pub open spec fn query_name_of(c: LoadedConfig, i: int) -> Seq<char> {
    if 0 <= i < c.app.queries@.len() {
        c.app.queries@[i].name@
    } else {
        ""@
    }
}

fn query_name(c: &LoadedConfig, i: usize) -> (r: &str)
    ensures
        r@ == query_name_of(*c, i as int),
{
    if i < c.app.queries.len() {
        c.app.queries[i].name.as_str()
    } else {
        ""
    }
}

/// The handler of query `i` (empty when there is none).
pub open spec fn query_handler_of(c: LoadedConfig, i: int) -> Seq<char> {
    if 0 <= i < c.app.queries@.len() {
        c.app.queries@[i].handler@
    } else {
        ""@
    }
}

fn query_handler(c: &LoadedConfig, i: usize) -> (r: &str)
    ensures
        r@ == query_handler_of(*c, i as int),
{
    if i < c.app.queries.len() {
        c.app.queries[i].handler.as_str()
    } else {
        ""
    }
}

/// The name of cron `i` (empty when there is none).
pub open spec fn cron_name_of(c: LoadedConfig, i: int) -> Seq<char> {
    if 0 <= i < c.app.crons@.len() {
        c.app.crons@[i].name@
    } else {
        ""@
    }
}

fn cron_name(c: &LoadedConfig, i: usize) -> (r: &str)
    ensures
        r@ == cron_name_of(*c, i as int),
{
    if i < c.app.crons.len() {
        c.app.crons[i].name.as_str()
    } else {
        ""
    }
}

/// The handler of cron `i` (empty when there is none).
pub open spec fn cron_handler_of(c: LoadedConfig, i: int) -> Seq<char> {
    if 0 <= i < c.app.crons@.len() {
        c.app.crons@[i].handler@
    } else {
        ""@
    }
}

fn cron_handler(c: &LoadedConfig, i: usize) -> (r: &str)
    ensures
        r@ == cron_handler_of(*c, i as int),
{
    if i < c.app.crons.len() {
        c.app.crons[i].handler.as_str()
    } else {
        ""
    }
}

/// The type of ingestion source `i` (empty when there is none).
pub open spec fn source_type_of(c: LoadedConfig, i: int) -> Seq<char> {
    if 0 <= i < c.app.ingestion@.len() {
        c.app.ingestion@[i].source_type@
    } else {
        ""@
    }
}

fn source_type(c: &LoadedConfig, i: usize) -> (r: &str)
    ensures
        r@ == source_type_of(*c, i as int),
{
    if i < c.app.ingestion.len() {
        c.app.ingestion[i].source_type.as_str()
    } else {
        ""
    }
}

/// The name of entity `i` (empty when there is none).
pub open spec fn entity_name_of(c: LoadedConfig, i: int) -> Seq<char> {
    if 0 <= i < c.schema.entities@.len() {
        c.schema.entities@[i].name@
    } else {
        ""@
    }
}

fn entity_name(c: &LoadedConfig, i: usize) -> (r: &str)
    ensures
        r@ == entity_name_of(*c, i as int),
{
    if i < c.schema.entities.len() {
        c.schema.entities[i].name.as_str()
    } else {
        ""
    }
}

/// The name of field `j` of entity `i` (empty when there is none).
pub open spec fn field_name_of(c: LoadedConfig, i: int, j: int) -> Seq<char> {
    if 0 <= i < c.schema.entities@.len() && 0 <= j < c.schema.entities@[i].fields@.len() {
        c.schema.entities@[i].fields@[j].name@
    } else {
        ""@
    }
}

fn field_name(c: &LoadedConfig, i: usize, j: usize) -> (r: &str)
    ensures
        r@ == field_name_of(*c, i as int, j as int),
{
    if i < c.schema.entities.len() && j < c.schema.entities[i].fields.len() {
        c.schema.entities[i].fields[j].name.as_str()
    } else {
        ""
    }
}

/// The name of index `j` of entity `i` (empty when there is none).
pub open spec fn index_name_of(c: LoadedConfig, i: int, j: int) -> Seq<char> {
    if 0 <= i < c.schema.entities@.len() && 0 <= j < c.schema.entities@[i].indexes@.len() {
        c.schema.entities@[i].indexes@[j].name@
    } else {
        ""@
    }
}

fn index_name(c: &LoadedConfig, i: usize, j: usize) -> (r: &str)
    ensures
        r@ == index_name_of(*c, i as int, j as int),
{
    if i < c.schema.entities.len() && j < c.schema.entities[i].indexes.len() {
        c.schema.entities[i].indexes[j].name.as_str()
    } else {
        ""
    }
}

/// The field of index `j` of entity `i` (empty when there is none).
pub open spec fn index_field_of(c: LoadedConfig, i: int, j: int) -> Seq<char> {
    if 0 <= i < c.schema.entities@.len() && 0 <= j < c.schema.entities@[i].indexes@.len() {
        c.schema.entities@[i].indexes@[j].field@
    } else {
        ""@
    }
}

fn index_field(c: &LoadedConfig, i: usize, j: usize) -> (r: &str)
    ensures
        r@ == index_field_of(*c, i as int, j as int),
{
    if i < c.schema.entities.len() && j < c.schema.entities[i].indexes.len() {
        c.schema.entities[i].indexes[j].field.as_str()
    } else {
        ""
    }
}

/// The name of topic `j` of ingestion source `i` (empty when there is none).
pub open spec fn topic_name_of(c: LoadedConfig, i: int, j: int) -> Seq<char> {
    if 0 <= i < c.app.ingestion@.len() && 0 <= j < c.app.ingestion@[i].topics@.len() {
        c.app.ingestion@[i].topics@[j].name@
    } else {
        ""@
    }
}

fn topic_name(c: &LoadedConfig, i: usize, j: usize) -> (r: &str)
    ensures
        r@ == topic_name_of(*c, i as int, j as int),
{
    if i < c.app.ingestion.len() && j < c.app.ingestion[i].topics.len() {
        c.app.ingestion[i].topics[j].name.as_str()
    } else {
        ""
    }
}

/// The entity of topic `j` of ingestion source `i` (empty when there is none).
pub open spec fn topic_entity_of(c: LoadedConfig, i: int, j: int) -> Seq<char> {
    if 0 <= i < c.app.ingestion@.len() && 0 <= j < c.app.ingestion@[i].topics@.len() {
        c.app.ingestion@[i].topics@[j].entity@
    } else {
        ""@
    }
}

fn topic_entity(c: &LoadedConfig, i: usize, j: usize) -> (r: &str)
    ensures
        r@ == topic_entity_of(*c, i as int, j as int),
{
    if i < c.app.ingestion.len() && j < c.app.ingestion[i].topics.len() {
        c.app.ingestion[i].topics[j].entity.as_str()
    } else {
        ""
    }
}

/// The partition key of entity `i` (empty when there is none).
pub open spec fn partition_key_of(c: LoadedConfig, i: int) -> Seq<char> {
    if 0 <= i < c.schema.entities@.len() && c.schema.entities@[i].partition_key is Some {
        c.schema.entities@[i].partition_key->0@
    } else {
        ""@
    }
}

fn partition_key(c: &LoadedConfig, i: usize) -> (r: &str)
    ensures
        r@ == partition_key_of(*c, i as int),
{
    if i < c.schema.entities.len() {
        match &c.schema.entities[i].partition_key {
            Some(x) => x.as_str(),
            None => "",
        }
    } else {
        ""
    }
}

/// The `order_by` field of entity `i` (empty when there is none).
pub open spec fn order_by_of(c: LoadedConfig, i: int) -> Seq<char> {
    if 0 <= i < c.schema.entities@.len() && c.schema.entities@[i].order_by is Some {
        c.schema.entities@[i].order_by->0@
    } else {
        ""@
    }
}

fn order_by(c: &LoadedConfig, i: usize) -> (r: &str)
    ensures
        r@ == order_by_of(*c, i as int),
{
    if i < c.schema.entities.len() {
        match &c.schema.entities[i].order_by {
            Some(x) => x.as_str(),
            None => "",
        }
    } else {
        ""
    }
}

/// The `on_init` script of the lifecycle (empty when there is none).
pub open spec fn on_init_of(c: LoadedConfig) -> Seq<char> {
    if c.app.lifecycle is Some && c.app.lifecycle->0.on_init is Some {
        c.app.lifecycle->0.on_init->0@
    } else {
        ""@
    }
}

fn on_init(c: &LoadedConfig) -> (r: &str)
    ensures
        r@ == on_init_of(*c),
{
    match &c.app.lifecycle {
        Some(l) => match &l.on_init {
            Some(x) => x.as_str(),
            None => "",
        },
        None => "",
    }
}

/// The `on_shutdown` script of the lifecycle (empty when there is none).
pub open spec fn on_shutdown_of(c: LoadedConfig) -> Seq<char> {
    if c.app.lifecycle is Some && c.app.lifecycle->0.on_shutdown is Some {
        c.app.lifecycle->0.on_shutdown->0@
    } else {
        ""@
    }
}

fn on_shutdown(c: &LoadedConfig) -> (r: &str)
    ensures
        r@ == on_shutdown_of(*c),
{
    match &c.app.lifecycle {
        Some(l) => match &l.on_shutdown {
            Some(x) => x.as_str(),
            None => "",
        },
        None => "",
    }
}

/// The script that a "missing handler" error names, relative to the bundle.
pub open spec fn missing_script_of(e: ConfigError, c: LoadedConfig) -> Option<Seq<char>> {
    match e {
        ConfigError::EndpointHandlerMissing(i) => Some(endpoint_handler_of(c, i as int)),
        ConfigError::QueryHandlerMissing(i) => Some(query_handler_of(c, i as int)),
        ConfigError::CronHandlerMissing(i) => Some(cron_handler_of(c, i as int)),
        ConfigError::OnInitMissing => Some(on_init_of(c)),
        ConfigError::OnShutdownMissing => Some(on_shutdown_of(c)),
        _ => None,
    }
}

/// The text of a validation error of the bundle `c`; `script_path` is the
/// path of the missing script, where the error names one.
pub open spec fn config_error_text(e: ConfigError, c: LoadedConfig, script_path: Seq<char>) -> Seq<char> {
    match e {
        ConfigError::AppNameEmpty => "app.name must not be empty"@,
        ConfigError::AppVersionEmpty => "app.version must not be empty"@,
        ConfigError::MaxConcurrentRequestsZero => "limits.max_concurrent_requests must be > 0"@,
        ConfigError::JsPoolSizeZero => "limits.js.pool_size must be > 0"@,
        ConfigError::JsMaxCpuZero => "limits.js.max_cpu_ms_per_request must be > 0"@,
        ConfigError::StoreMaxBytesZero => "limits.store.max_bytes must be > 0"@,
        ConfigError::MaxRequestBytesZero => "limits.max_request_bytes must be > 0"@,
        ConfigError::MaxResponseBytesZero => "limits.max_response_bytes must be > 0"@,
        ConfigError::MaxEntityBytesAboveMaxBytes => "limits.store.max_entity_bytes cannot exceed limits.store.max_bytes"@,
        ConfigError::SoftLimitPercentAbove100 => "limits.store.soft_limit_percent must be within 0..=100"@,
        ConfigError::EndpointNameEmpty(_) => "endpoint name cannot be empty"@,
        ConfigError::QueryNameEmpty(_) => "query name cannot be empty"@,
        ConfigError::CronNameEmpty(_) => "cron name cannot be empty"@,
        ConfigError::OnInitEmpty => "lifecycle.on_init must not be empty when provided"@,
        ConfigError::OnShutdownEmpty => "lifecycle.on_shutdown must not be empty when provided"@,
        ConfigError::KafkaSourceWithoutTopics(_) => "kafka ingestion source must define at least one topic"@,
        ConfigError::NoEntities => "schema must define at least one entity"@,
        ConfigError::EntityNameEmpty(_) => "entity name cannot be empty"@,
        ConfigError::DuplicateEndpointName(i) => "duplicate endpoint name '"@ + endpoint_name_of(c, i as int) + "'"@,
        ConfigError::EndpointMethodEmpty(i) => "endpoint '"@ + endpoint_name_of(c, i as int) + "' has an empty method"@,
        ConfigError::EndpointPathEmpty(i) => "endpoint '"@ + endpoint_name_of(c, i as int) + "' has an empty path"@,
        ConfigError::DuplicateEndpoint(i) => "duplicate endpoint definition '"@ + uppercase(trim_seq(endpoint_method_of(c, i as int))) + " "@ + endpoint_path_of(c, i as int) + "'"@,
        ConfigError::EndpointHandlerMissing(i) => "endpoint '"@ + endpoint_name_of(c, i as int) + "' handler is missing: "@ + script_path,
        ConfigError::DuplicateQueryName(i) => "duplicate query name '"@ + query_name_of(c, i as int) + "'"@,
        ConfigError::QueryHandlerEmpty(i) => "query '"@ + query_name_of(c, i as int) + "' has an empty handler"@,
        ConfigError::QueryHandlerMissing(i) => "query '"@ + query_name_of(c, i as int) + "' handler is missing: "@ + script_path,
        ConfigError::DuplicateCronName(i) => "duplicate cron name '"@ + cron_name_of(c, i as int) + "'"@,
        ConfigError::CronIntervalZero(i) => "cron '"@ + cron_name_of(c, i as int) + "' interval_seconds must be > 0"@,
        ConfigError::CronHandlerEmpty(i) => "cron '"@ + cron_name_of(c, i as int) + "' has an empty handler"@,
        ConfigError::CronHandlerMissing(i) => "cron '"@ + cron_name_of(c, i as int) + "' handler is missing: "@ + script_path,
        ConfigError::OnInitMissing => "lifecycle on_init script is missing: "@ + script_path,
        ConfigError::OnShutdownMissing => "lifecycle on_shutdown script is missing: "@ + script_path,
        ConfigError::UnsupportedIngestionType(i) => "unsupported ingestion type '"@ + source_type_of(c, i as int) + "'; expected 'kafka' or 'http'"@,
        ConfigError::DuplicateEntity(i) => "duplicate entity '"@ + entity_name_of(c, i as int) + "'"@,
        ConfigError::PrimaryKeyEmpty(i) => "entity '"@ + entity_name_of(c, i as int) + "' primary_key cannot be empty"@,
        ConfigError::FieldNameEmpty(i, _) => "entity '"@ + entity_name_of(c, i as int) + "' contains a field with empty name"@,
        ConfigError::DuplicateField(i, j) => "entity '"@ + entity_name_of(c, i as int) + "' has duplicate field '"@ + field_name_of(c, i as int, j as int) + "'"@,
        ConfigError::PartitionKeyMissing(i) => "collection entity '"@ + entity_name_of(c, i as int) + "' must define partition_key"@,
        ConfigError::PartitionKeyEmpty(i) => "collection entity '"@ + entity_name_of(c, i as int) + "' partition_key cannot be empty"@,
        ConfigError::PartitionKeyUnknown(i) => "collection entity '"@ + entity_name_of(c, i as int) + "' partition_key '"@ + partition_key_of(c, i as int) + "' references unknown field"@,
        ConfigError::OrderByEmpty(i) => "collection entity '"@ + entity_name_of(c, i as int) + "' order_by cannot be empty"@,
        ConfigError::OrderByUnknown(i) => "collection entity '"@ + entity_name_of(c, i as int) + "' order_by '"@ + order_by_of(c, i as int) + "' references unknown field"@,
        ConfigError::MaxPerPartitionZero(i) => "collection entity '"@ + entity_name_of(c, i as int) + "' max_per_partition must be > 0"@,
        ConfigError::IndexNameEmpty(i, _) => "entity '"@ + entity_name_of(c, i as int) + "' has index with empty name"@,
        ConfigError::DuplicateIndex(i, k) => "entity '"@ + entity_name_of(c, i as int) + "' has duplicate index '"@ + index_name_of(c, i as int, k as int) + "'"@,
        ConfigError::IndexFieldUnknown(i, k) => "entity '"@ + entity_name_of(c, i as int) + "' index '"@ + index_name_of(c, i as int, k as int) + "' references unknown field '"@ + index_field_of(c, i as int, k as int) + "'"@,
        ConfigError::UnknownTopicEntity(src, t) => "topic '"@ + topic_name_of(c, src as int, t as int) + "' references unknown entity '"@ + topic_entity_of(c, src as int, t as int) + "'"@,
    }
}

impl ConfigError {
    /// The script that a "missing handler" error names, relative to the
    /// bundle; `None` for the other errors.
    pub fn missing_script(&self, c: &LoadedConfig) -> (r: Option<String>)
        ensures
            r is Some == missing_script_of(*self, *c) is Some,
            r matches Some(s) ==> s@ == missing_script_of(*self, *c)->0,
    {
        match *self {
            ConfigError::EndpointHandlerMissing(i) => Some(String::from_str(endpoint_handler(c, i))),
            ConfigError::QueryHandlerMissing(i) => Some(String::from_str(query_handler(c, i))),
            ConfigError::CronHandlerMissing(i) => Some(String::from_str(cron_handler(c, i))),
            ConfigError::OnInitMissing => Some(String::from_str(on_init(c))),
            ConfigError::OnShutdownMissing => Some(String::from_str(on_shutdown(c))),
            _ => None,
        }
    }

    /// The error's text; `script_path` is the path of the script that a
    /// "missing handler" error names.
    pub fn message(&self, c: &LoadedConfig, script_path: &str) -> (r: String)
        ensures
            r@ == config_error_text(*self, *c, script_path@),
    {
        match *self {
            ConfigError::AppNameEmpty => String::from_str("app.name must not be empty"),
            ConfigError::AppVersionEmpty => String::from_str("app.version must not be empty"),
            ConfigError::MaxConcurrentRequestsZero => String::from_str("limits.max_concurrent_requests must be > 0"),
            ConfigError::JsPoolSizeZero => String::from_str("limits.js.pool_size must be > 0"),
            ConfigError::JsMaxCpuZero => String::from_str("limits.js.max_cpu_ms_per_request must be > 0"),
            ConfigError::StoreMaxBytesZero => String::from_str("limits.store.max_bytes must be > 0"),
            ConfigError::MaxRequestBytesZero => String::from_str("limits.max_request_bytes must be > 0"),
            ConfigError::MaxResponseBytesZero => String::from_str("limits.max_response_bytes must be > 0"),
            ConfigError::MaxEntityBytesAboveMaxBytes => String::from_str("limits.store.max_entity_bytes cannot exceed limits.store.max_bytes"),
            ConfigError::SoftLimitPercentAbove100 => String::from_str("limits.store.soft_limit_percent must be within 0..=100"),
            ConfigError::EndpointNameEmpty(_) => String::from_str("endpoint name cannot be empty"),
            ConfigError::QueryNameEmpty(_) => String::from_str("query name cannot be empty"),
            ConfigError::CronNameEmpty(_) => String::from_str("cron name cannot be empty"),
            ConfigError::OnInitEmpty => String::from_str("lifecycle.on_init must not be empty when provided"),
            ConfigError::OnShutdownEmpty => String::from_str("lifecycle.on_shutdown must not be empty when provided"),
            ConfigError::KafkaSourceWithoutTopics(_) => String::from_str("kafka ingestion source must define at least one topic"),
            ConfigError::NoEntities => String::from_str("schema must define at least one entity"),
            ConfigError::EntityNameEmpty(_) => String::from_str("entity name cannot be empty"),
            ConfigError::DuplicateEndpointName(i) => {
                let mut s = String::from_str("duplicate endpoint name '");
                s.append(endpoint_name(c, i));
                s.append("'");
                s
            },
            ConfigError::EndpointMethodEmpty(i) => {
                let mut s = String::from_str("endpoint '");
                s.append(endpoint_name(c, i));
                s.append("' has an empty method");
                s
            },
            ConfigError::EndpointPathEmpty(i) => {
                let mut s = String::from_str("endpoint '");
                s.append(endpoint_name(c, i));
                s.append("' has an empty path");
                s
            },
            ConfigError::DuplicateEndpoint(i) => {
                let method = to_upper(trim(endpoint_method(c, i)).as_str());
                let mut s = String::from_str("duplicate endpoint definition '");
                s.append(method.as_str());
                s.append(" ");
                s.append(endpoint_path(c, i));
                s.append("'");
                s
            },
            ConfigError::EndpointHandlerMissing(i) => {
                let mut s = String::from_str("endpoint '");
                s.append(endpoint_name(c, i));
                s.append("' handler is missing: ");
                s.append(script_path);
                s
            },
            ConfigError::DuplicateQueryName(i) => {
                let mut s = String::from_str("duplicate query name '");
                s.append(query_name(c, i));
                s.append("'");
                s
            },
            ConfigError::QueryHandlerEmpty(i) => {
                let mut s = String::from_str("query '");
                s.append(query_name(c, i));
                s.append("' has an empty handler");
                s
            },
            ConfigError::QueryHandlerMissing(i) => {
                let mut s = String::from_str("query '");
                s.append(query_name(c, i));
                s.append("' handler is missing: ");
                s.append(script_path);
                s
            },
            ConfigError::DuplicateCronName(i) => {
                let mut s = String::from_str("duplicate cron name '");
                s.append(cron_name(c, i));
                s.append("'");
                s
            },
            ConfigError::CronIntervalZero(i) => {
                let mut s = String::from_str("cron '");
                s.append(cron_name(c, i));
                s.append("' interval_seconds must be > 0");
                s
            },
            ConfigError::CronHandlerEmpty(i) => {
                let mut s = String::from_str("cron '");
                s.append(cron_name(c, i));
                s.append("' has an empty handler");
                s
            },
            ConfigError::CronHandlerMissing(i) => {
                let mut s = String::from_str("cron '");
                s.append(cron_name(c, i));
                s.append("' handler is missing: ");
                s.append(script_path);
                s
            },
            ConfigError::OnInitMissing => {
                let mut s = String::from_str("lifecycle on_init script is missing: ");
                s.append(script_path);
                s
            },
            ConfigError::OnShutdownMissing => {
                let mut s = String::from_str("lifecycle on_shutdown script is missing: ");
                s.append(script_path);
                s
            },
            ConfigError::UnsupportedIngestionType(i) => {
                let mut s = String::from_str("unsupported ingestion type '");
                s.append(source_type(c, i));
                s.append("'; expected 'kafka' or 'http'");
                s
            },
            ConfigError::DuplicateEntity(i) => {
                let mut s = String::from_str("duplicate entity '");
                s.append(entity_name(c, i));
                s.append("'");
                s
            },
            ConfigError::PrimaryKeyEmpty(i) => {
                let mut s = String::from_str("entity '");
                s.append(entity_name(c, i));
                s.append("' primary_key cannot be empty");
                s
            },
            ConfigError::FieldNameEmpty(i, _) => {
                let mut s = String::from_str("entity '");
                s.append(entity_name(c, i));
                s.append("' contains a field with empty name");
                s
            },
            ConfigError::DuplicateField(i, j) => {
                let mut s = String::from_str("entity '");
                s.append(entity_name(c, i));
                s.append("' has duplicate field '");
                s.append(field_name(c, i, j));
                s.append("'");
                s
            },
            ConfigError::PartitionKeyMissing(i) => {
                let mut s = String::from_str("collection entity '");
                s.append(entity_name(c, i));
                s.append("' must define partition_key");
                s
            },
            ConfigError::PartitionKeyEmpty(i) => {
                let mut s = String::from_str("collection entity '");
                s.append(entity_name(c, i));
                s.append("' partition_key cannot be empty");
                s
            },
            ConfigError::PartitionKeyUnknown(i) => {
                let mut s = String::from_str("collection entity '");
                s.append(entity_name(c, i));
                s.append("' partition_key '");
                s.append(partition_key(c, i));
                s.append("' references unknown field");
                s
            },
            ConfigError::OrderByEmpty(i) => {
                let mut s = String::from_str("collection entity '");
                s.append(entity_name(c, i));
                s.append("' order_by cannot be empty");
                s
            },
            ConfigError::OrderByUnknown(i) => {
                let mut s = String::from_str("collection entity '");
                s.append(entity_name(c, i));
                s.append("' order_by '");
                s.append(order_by(c, i));
                s.append("' references unknown field");
                s
            },
            ConfigError::MaxPerPartitionZero(i) => {
                let mut s = String::from_str("collection entity '");
                s.append(entity_name(c, i));
                s.append("' max_per_partition must be > 0");
                s
            },
            ConfigError::IndexNameEmpty(i, _) => {
                let mut s = String::from_str("entity '");
                s.append(entity_name(c, i));
                s.append("' has index with empty name");
                s
            },
            ConfigError::DuplicateIndex(i, k) => {
                let mut s = String::from_str("entity '");
                s.append(entity_name(c, i));
                s.append("' has duplicate index '");
                s.append(index_name(c, i, k));
                s.append("'");
                s
            },
            ConfigError::IndexFieldUnknown(i, k) => {
                let mut s = String::from_str("entity '");
                s.append(entity_name(c, i));
                s.append("' index '");
                s.append(index_name(c, i, k));
                s.append("' references unknown field '");
                s.append(index_field(c, i, k));
                s.append("'");
                s
            },
            ConfigError::UnknownTopicEntity(src, t) => {
                let mut s = String::from_str("topic '");
                s.append(topic_name(c, src, t));
                s.append("' references unknown entity '");
                s.append(topic_entity(c, src, t));
                s.append("'");
                s
            },
        }
    }
}

} // verus!

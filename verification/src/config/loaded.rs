//! A loaded bundle (application file, schema and the bundle's location) and
//! its validation. Each check that the bundle can fail names the item at
//! fault by its position; the first failing check, in the order below, is
//! the one reported.

use vstd::prelude::*;

use crate::config::app::{AppConfig, CronConfig, EndpointConfig, IngestionSource, QueryConfig};
use crate::config::schema::{EntitySchema, EntityType, SchemaConfig};
use crate::store::index::strings_view;
use crate::text::{blank, is_blank, join3, str_equal, to_upper, trim, trim_seq, uppercase};

verus! {

/// A bundle as read from disk.
#[derive(Debug, Clone)]
pub struct LoadedConfig {
    pub app: AppConfig,
    pub schema: SchemaConfig,
    /// The bundle's directory.
    pub bundle_path: String,
}

/// The first problem found in a bundle; positions index the lists of the
/// configuration (endpoints, queries, crons, ingestion sources and their
/// topics, entities and their fields and indexes).
#[derive(Debug, Clone, Copy, PartialEq, Eq, Structural)]
pub enum ConfigError {
    AppNameEmpty,
    AppVersionEmpty,
    MaxConcurrentRequestsZero,
    JsPoolSizeZero,
    JsMaxCpuZero,
    StoreMaxBytesZero,
    MaxRequestBytesZero,
    MaxResponseBytesZero,
    MaxEntityBytesAboveMaxBytes,
    SoftLimitPercentAbove100,
    EndpointNameEmpty(usize),
    DuplicateEndpointName(usize),
    EndpointMethodEmpty(usize),
    EndpointPathEmpty(usize),
    DuplicateEndpoint(usize),
    EndpointHandlerMissing(usize),
    QueryNameEmpty(usize),
    DuplicateQueryName(usize),
    QueryHandlerEmpty(usize),
    QueryHandlerMissing(usize),
    CronNameEmpty(usize),
    DuplicateCronName(usize),
    CronIntervalZero(usize),
    CronHandlerEmpty(usize),
    CronHandlerMissing(usize),
    OnInitEmpty,
    OnInitMissing,
    OnShutdownEmpty,
    OnShutdownMissing,
    UnsupportedIngestionType(usize),
    KafkaSourceWithoutTopics(usize),
    NoEntities,
    EntityNameEmpty(usize),
    DuplicateEntity(usize),
    PrimaryKeyEmpty(usize),
    FieldNameEmpty(usize, usize),
    DuplicateField(usize, usize),
    PartitionKeyMissing(usize),
    PartitionKeyEmpty(usize),
    PartitionKeyUnknown(usize),
    OrderByEmpty(usize),
    OrderByUnknown(usize),
    MaxPerPartitionZero(usize),
    IndexNameEmpty(usize, usize),
    DuplicateIndex(usize, usize),
    IndexFieldUnknown(usize, usize),
    UnknownTopicEntity(usize, usize),
}

/// The outcome of a check: its first problem, if any.
pub open spec fn outcome(o: Option<ConfigError>) -> Result<(), ConfigError> {
    match o {
        Some(e) => Err(e),
        None => Ok(()),
    }
}

/// The first problem of two checks run in turn.
pub open spec fn first_of(a: Option<ConfigError>, b: Option<ConfigError>) -> Option<ConfigError> {
    match a {
        Some(e) => Some(e),
        None => b,
    }
}

/// Whether a handler path is among the files that exist in the bundle.
pub open spec fn present(existing: Seq<Seq<char>>, handler: Seq<char>) -> bool {
    existing.contains(handler)
}

/// The limits and metadata checks.
pub open spec fn scalar_error(app: AppConfig) -> Option<ConfigError> {
    let l = app.limits;
    if blank(app.app.name@) {
        Some(ConfigError::AppNameEmpty)
    } else if blank(app.app.version@) {
        Some(ConfigError::AppVersionEmpty)
    } else if l.max_concurrent_requests == 0 {
        Some(ConfigError::MaxConcurrentRequestsZero)
    } else if l.js.pool_size == 0 {
        Some(ConfigError::JsPoolSizeZero)
    } else if l.js.max_cpu_ms_per_request == 0 {
        Some(ConfigError::JsMaxCpuZero)
    } else if l.store.max_bytes == 0 {
        Some(ConfigError::StoreMaxBytesZero)
    } else if l.max_request_bytes == 0 {
        Some(ConfigError::MaxRequestBytesZero)
    } else if l.max_response_bytes == 0 {
        Some(ConfigError::MaxResponseBytesZero)
    } else if l.store.max_entity_bytes > 0 && l.store.max_entity_bytes > l.store.max_bytes {
        Some(ConfigError::MaxEntityBytesAboveMaxBytes)
    } else if l.store.soft_limit_percent > 100 {
        Some(ConfigError::SoftLimitPercentAbove100)
    } else {
        None
    }
}

/// The method and path that identify an endpoint: `METHOD path`.
pub open spec fn endpoint_key(e: EndpointConfig) -> Seq<char> {
    uppercase(trim_seq(e.method@)) + " "@ + e.path@
}

/// The problem of endpoint `i`, the earlier ones being fine.
pub open spec fn endpoint_error(eps: Seq<EndpointConfig>, i: int, existing: Seq<Seq<char>>) -> Option<
    ConfigError,
> {
    let e = eps[i];
    if blank(e.name@) {
        Some(ConfigError::EndpointNameEmpty(i as usize))
    } else if exists|j: int| 0 <= j < i && (#[trigger] eps[j]).name@ == e.name@ {
        Some(ConfigError::DuplicateEndpointName(i as usize))
    } else if uppercase(trim_seq(e.method@)).len() == 0 {
        Some(ConfigError::EndpointMethodEmpty(i as usize))
    } else if blank(e.path@) {
        Some(ConfigError::EndpointPathEmpty(i as usize))
    } else if exists|j: int| 0 <= j < i && endpoint_key(#[trigger] eps[j]) == endpoint_key(e) {
        Some(ConfigError::DuplicateEndpoint(i as usize))
    } else if !present(existing, e.handler@) {
        Some(ConfigError::EndpointHandlerMissing(i as usize))
    } else {
        None
    }
}

/// The first problem among the first `n` endpoints.
pub open spec fn endpoints_error(eps: Seq<EndpointConfig>, n: int, existing: Seq<Seq<char>>) -> Option<
    ConfigError,
>
    decreases n,
{
    if n <= 0 {
        None
    } else {
        first_of(endpoints_error(eps, n - 1, existing), endpoint_error(eps, n - 1, existing))
    }
}

/// The problem of query `i`, the earlier ones being fine.
pub open spec fn query_error(qs: Seq<QueryConfig>, i: int, existing: Seq<Seq<char>>) -> Option<ConfigError> {
    let q = qs[i];
    if blank(q.name@) {
        Some(ConfigError::QueryNameEmpty(i as usize))
    } else if exists|j: int| 0 <= j < i && (#[trigger] qs[j]).name@ == q.name@ {
        Some(ConfigError::DuplicateQueryName(i as usize))
    } else if blank(q.handler@) {
        Some(ConfigError::QueryHandlerEmpty(i as usize))
    } else if !present(existing, q.handler@) {
        Some(ConfigError::QueryHandlerMissing(i as usize))
    } else {
        None
    }
}

/// The first problem among the first `n` queries.
pub open spec fn queries_error(qs: Seq<QueryConfig>, n: int, existing: Seq<Seq<char>>) -> Option<ConfigError>
    decreases n,
{
    if n <= 0 {
        None
    } else {
        first_of(queries_error(qs, n - 1, existing), query_error(qs, n - 1, existing))
    }
}

/// The problem of cron `i`, the earlier ones being fine.
pub open spec fn cron_error(cs: Seq<CronConfig>, i: int, existing: Seq<Seq<char>>) -> Option<ConfigError> {
    let c = cs[i];
    if blank(c.name@) {
        Some(ConfigError::CronNameEmpty(i as usize))
    } else if exists|j: int| 0 <= j < i && (#[trigger] cs[j]).name@ == c.name@ {
        Some(ConfigError::DuplicateCronName(i as usize))
    } else if c.interval_seconds == 0 {
        Some(ConfigError::CronIntervalZero(i as usize))
    } else if blank(c.handler@) {
        Some(ConfigError::CronHandlerEmpty(i as usize))
    } else if !present(existing, c.handler@) {
        Some(ConfigError::CronHandlerMissing(i as usize))
    } else {
        None
    }
}

/// The first problem among the first `n` crons.
pub open spec fn crons_error(cs: Seq<CronConfig>, n: int, existing: Seq<Seq<char>>) -> Option<ConfigError>
    decreases n,
{
    if n <= 0 {
        None
    } else {
        first_of(crons_error(cs, n - 1, existing), cron_error(cs, n - 1, existing))
    }
}

/// The lifecycle hooks' problem: a hook given must be a present script.
pub open spec fn lifecycle_error(app: AppConfig, existing: Seq<Seq<char>>) -> Option<ConfigError> {
    match app.lifecycle {
        None => None,
        Some(l) => {
            let init = match l.on_init {
                None => None,
                Some(h) => if blank(h@) {
                    Some(ConfigError::OnInitEmpty)
                } else if !present(existing, h@) {
                    Some(ConfigError::OnInitMissing)
                } else {
                    None
                },
            };
            let shutdown = match l.on_shutdown {
                None => None,
                Some(h) => if blank(h@) {
                    Some(ConfigError::OnShutdownEmpty)
                } else if !present(existing, h@) {
                    Some(ConfigError::OnShutdownMissing)
                } else {
                    None
                },
            };
            first_of(init, shutdown)
        },
    }
}

/// The problem of ingestion source `i`.
pub open spec fn source_error(ss: Seq<IngestionSource>, i: int) -> Option<ConfigError> {
    let s = ss[i];
    if s.source_type@ != "kafka"@ && s.source_type@ != "http"@ {
        Some(ConfigError::UnsupportedIngestionType(i as usize))
    } else if s.source_type@ == "kafka"@ && s.topics@.len() == 0 {
        Some(ConfigError::KafkaSourceWithoutTopics(i as usize))
    } else {
        None
    }
}

/// The first problem among the first `n` ingestion sources.
pub open spec fn sources_error(ss: Seq<IngestionSource>, n: int) -> Option<ConfigError>
    decreases n,
{
    if n <= 0 {
        None
    } else {
        first_of(sources_error(ss, n - 1), source_error(ss, n - 1))
    }
}

/// The first problem of the application file.
pub open spec fn app_error(app: AppConfig, existing: Seq<Seq<char>>) -> Option<ConfigError> {
    first_of(
        scalar_error(app),
        first_of(
            endpoints_error(app.endpoints@, app.endpoints@.len() as int, existing),
            first_of(
                queries_error(app.queries@, app.queries@.len() as int, existing),
                first_of(
                    crons_error(app.crons@, app.crons@.len() as int, existing),
                    first_of(
                        lifecycle_error(app, existing),
                        sources_error(app.ingestion@, app.ingestion@.len() as int),
                    ),
                ),
            ),
        ),
    )
}


/// Whether a name is the entity's primary key or one of its fields.
pub open spec fn field_known(e: EntitySchema, n: Seq<char>) -> bool {
    e.primary_key@ == n || exists|j: int| 0 <= j < e.fields@.len() && (#[trigger] e.fields@[j]).name@ == n
}

/// The problem of field `j` of entity `ei`, the earlier fields being fine.
pub open spec fn field_error(e: EntitySchema, ei: int, j: int) -> Option<ConfigError> {
    if blank(e.fields@[j].name@) {
        Some(ConfigError::FieldNameEmpty(ei as usize, j as usize))
    } else if exists|k: int| 0 <= k < j && (#[trigger] e.fields@[k]).name@ == e.fields@[j].name@ {
        Some(ConfigError::DuplicateField(ei as usize, j as usize))
    } else {
        None
    }
}

/// The first problem among the first `n` fields of entity `ei`.
pub open spec fn fields_error(e: EntitySchema, ei: int, n: int) -> Option<ConfigError>
    decreases n,
{
    if n <= 0 {
        None
    } else {
        first_of(fields_error(e, ei, n - 1), field_error(e, ei, n - 1))
    }
}

/// The partitioning problem of a collection entity `ei`.
pub open spec fn collection_error(e: EntitySchema, ei: int) -> Option<ConfigError> {
    if e.entity_type != EntityType::Collection {
        None
    } else {
        match e.partition_key {
            None => Some(ConfigError::PartitionKeyMissing(ei as usize)),
            Some(pk) => if blank(pk@) {
                Some(ConfigError::PartitionKeyEmpty(ei as usize))
            } else if !field_known(e, pk@) {
                Some(ConfigError::PartitionKeyUnknown(ei as usize))
            } else {
                let order = match e.order_by {
                    None => None,
                    Some(ob) => if blank(ob@) {
                        Some(ConfigError::OrderByEmpty(ei as usize))
                    } else if !field_known(e, ob@) {
                        Some(ConfigError::OrderByUnknown(ei as usize))
                    } else {
                        None
                    },
                };
                let max = match e.max_per_partition {
                    Some(m) => if m == 0 {
                        Some(ConfigError::MaxPerPartitionZero(ei as usize))
                    } else {
                        None
                    },
                    None => None,
                };
                first_of(order, max)
            },
        }
    }
}

/// The problem of index `k` of entity `ei`, the earlier indexes being fine.
pub open spec fn index_error(e: EntitySchema, ei: int, k: int) -> Option<ConfigError> {
    if blank(e.indexes@[k].name@) {
        Some(ConfigError::IndexNameEmpty(ei as usize, k as usize))
    } else if exists|q: int| 0 <= q < k && (#[trigger] e.indexes@[q]).name@ == e.indexes@[k].name@ {
        Some(ConfigError::DuplicateIndex(ei as usize, k as usize))
    } else if !field_known(e, e.indexes@[k].field@) {
        Some(ConfigError::IndexFieldUnknown(ei as usize, k as usize))
    } else {
        None
    }
}

/// The first problem among the first `n` indexes of entity `ei`.
pub open spec fn indexes_error(e: EntitySchema, ei: int, n: int) -> Option<ConfigError>
    decreases n,
{
    if n <= 0 {
        None
    } else {
        first_of(indexes_error(e, ei, n - 1), index_error(e, ei, n - 1))
    }
}

/// The problem of entity `i`, the earlier ones being fine.
pub open spec fn entity_error(es: Seq<EntitySchema>, i: int) -> Option<ConfigError> {
    let e = es[i];
    if blank(e.name@) {
        Some(ConfigError::EntityNameEmpty(i as usize))
    } else if exists|j: int| 0 <= j < i && (#[trigger] es[j]).name@ == e.name@ {
        Some(ConfigError::DuplicateEntity(i as usize))
    } else if blank(e.primary_key@) {
        Some(ConfigError::PrimaryKeyEmpty(i as usize))
    } else {
        first_of(
            fields_error(e, i, e.fields@.len() as int),
            first_of(collection_error(e, i), indexes_error(e, i, e.indexes@.len() as int)),
        )
    }
}

/// The first problem among the first `n` entities.
pub open spec fn entities_error(es: Seq<EntitySchema>, n: int) -> Option<ConfigError>
    decreases n,
{
    if n <= 0 {
        None
    } else {
        first_of(entities_error(es, n - 1), entity_error(es, n - 1))
    }
}

/// The first problem of the schema.
pub open spec fn schema_error(s: SchemaConfig) -> Option<ConfigError> {
    if s.entities@.len() == 0 {
        Some(ConfigError::NoEntities)
    } else {
        entities_error(s.entities@, s.entities@.len() as int)
    }
}

/// Whether the schema names an entity so.
pub open spec fn entity_named(es: Seq<EntitySchema>, n: Seq<char>) -> bool {
    exists|k: int| 0 <= k < es.len() && (#[trigger] es[k]).name@ == n
}

/// The first unknown entity among the first `n` topics of source `i`.
pub open spec fn topics_error(ss: Seq<IngestionSource>, es: Seq<EntitySchema>, i: int, n: int) -> Option<
    ConfigError,
>
    decreases n,
{
    if n <= 0 {
        None
    } else {
        first_of(
            topics_error(ss, es, i, n - 1),
            if entity_named(es, ss[i].topics@[n - 1].entity@) {
                None
            } else {
                Some(ConfigError::UnknownTopicEntity(i as usize, (n - 1) as usize))
            },
        )
    }
}

/// The first topic, among the first `n` sources, that names no entity.
pub open spec fn sources_topics_error(ss: Seq<IngestionSource>, es: Seq<EntitySchema>, n: int) -> Option<
    ConfigError,
>
    decreases n,
{
    if n <= 0 {
        None
    } else {
        first_of(
            sources_topics_error(ss, es, n - 1),
            topics_error(ss, es, n - 1, ss[n - 1].topics@.len() as int),
        )
    }
}

/// The first problem of a bundle.
pub open spec fn config_error(c: LoadedConfig, existing: Seq<Seq<char>>) -> Option<ConfigError> {
    first_of(
        app_error(c.app, existing),
        first_of(
            schema_error(c.schema),
            sources_topics_error(
                c.app.ingestion@,
                c.schema.entities@,
                c.app.ingestion@.len() as int,
            ),
        ),
    )
}

/// Whether `s` is among the strings of `v`.
pub fn contains_str(v: &Vec<String>, s: &str) -> (r: bool)
    ensures
        r == strings_view(v@).contains(s@),
{
    let n = v.len();
    let mut i: usize = 0;
    while i < n
        invariant
            n == v@.len(),
            i <= n,
            forall|j: int| 0 <= j < i ==> v@[j]@ != s@,
        decreases n - i,
    {
        if str_equal(v[i].as_str(), s) {
            assert(strings_view(v@)[i as int] == s@);
            return true;
        }
        i = i + 1;
    }
    assert(!strings_view(v@).contains(s@)) by {
        if strings_view(v@).contains(s@) {
            let j = choose|j: int| 0 <= j < strings_view(v@).len() && strings_view(v@)[j] == s@;
            assert(v@[j]@ == s@);
        }
    }
    false
}

fn check_scalars(app: &AppConfig) -> (r: Option<ConfigError>)
    ensures
        r == scalar_error(*app),
{
    let l = &app.limits;
    if is_blank(app.app.name.as_str()) {
        Some(ConfigError::AppNameEmpty)
    } else if is_blank(app.app.version.as_str()) {
        Some(ConfigError::AppVersionEmpty)
    } else if l.max_concurrent_requests == 0 {
        Some(ConfigError::MaxConcurrentRequestsZero)
    } else if l.js.pool_size == 0 {
        Some(ConfigError::JsPoolSizeZero)
    } else if l.js.max_cpu_ms_per_request == 0 {
        Some(ConfigError::JsMaxCpuZero)
    } else if l.store.max_bytes == 0 {
        Some(ConfigError::StoreMaxBytesZero)
    } else if l.max_request_bytes == 0 {
        Some(ConfigError::MaxRequestBytesZero)
    } else if l.max_response_bytes == 0 {
        Some(ConfigError::MaxResponseBytesZero)
    } else if l.store.max_entity_bytes > 0 && l.store.max_entity_bytes > l.store.max_bytes {
        Some(ConfigError::MaxEntityBytesAboveMaxBytes)
    } else if l.store.soft_limit_percent > 100 {
        Some(ConfigError::SoftLimitPercentAbove100)
    } else {
        None
    }
}

fn check_endpoints(eps: &Vec<EndpointConfig>, existing: &Vec<String>) -> (r: Option<ConfigError>)
    ensures
        r == endpoints_error(eps@, eps@.len() as int, strings_view(existing@)),
{
    let ghost ex = strings_view(existing@);
    let n = eps.len();
    let mut names: Vec<String> = Vec::new();
    let mut keys: Vec<String> = Vec::new();
    let mut i: usize = 0;
    while i < n
        invariant
            n == eps@.len(),
            i <= n,
            ex == strings_view(existing@),
            endpoints_error(eps@, i as int, ex) is None,
            names@.len() == i,
            keys@.len() == i,
            forall|j: int| 0 <= j < i ==> (#[trigger] names@[j])@ == eps@[j].name@,
            forall|j: int| 0 <= j < i ==> (#[trigger] keys@[j])@ == endpoint_key(eps@[j]),
        decreases n - i,
    {
        let e = &eps[i];
        assert(endpoints_error(eps@, i + 1, ex) == endpoint_error(eps@, i as int, ex));
        proof {
            if endpoints_error(eps@, i + 1, ex) is Some {
                lemma_endpoints_stable(eps@, i + 1, n as int, ex);
            }
        }
        if is_blank(e.name.as_str()) {
            return Some(ConfigError::EndpointNameEmpty(i));
        }
        let seen = contains_str(&names, e.name.as_str());
        assert(seen == exists|j: int| 0 <= j < i && (#[trigger] eps@[j]).name@ == e.name@) by {
            if seen {
                let j = choose|j: int| 0 <= j < strings_view(names@).len() && strings_view(names@)[j] == e.name@;
                assert(names@[j]@ == e.name@);
            }
            if exists|j: int| 0 <= j < i && (#[trigger] eps@[j]).name@ == e.name@ {
                let j = choose|j: int| 0 <= j < i && (#[trigger] eps@[j]).name@ == e.name@;
                assert(strings_view(names@)[j] == e.name@);
            }
        }
        if seen {
            return Some(ConfigError::DuplicateEndpointName(i));
        }
        let method = to_upper(trim(e.method.as_str()).as_str());
        if method.as_str().unicode_len() == 0 {
            return Some(ConfigError::EndpointMethodEmpty(i));
        }
        if is_blank(e.path.as_str()) {
            return Some(ConfigError::EndpointPathEmpty(i));
        }
        let key = join3(method.as_str(), " ", e.path.as_str());
        let dup = contains_str(&keys, key.as_str());
        assert(dup == exists|j: int| 0 <= j < i && endpoint_key(#[trigger] eps@[j]) == endpoint_key(*e)) by {
            if dup {
                let j = choose|j: int| 0 <= j < strings_view(keys@).len() && strings_view(keys@)[j] == key@;
                assert(keys@[j]@ == key@);
            }
            if exists|j: int| 0 <= j < i && endpoint_key(#[trigger] eps@[j]) == endpoint_key(*e) {
                let j = choose|j: int| 0 <= j < i && endpoint_key(#[trigger] eps@[j]) == endpoint_key(*e);
                assert(strings_view(keys@)[j] == key@);
            }
        }
        if dup {
            return Some(ConfigError::DuplicateEndpoint(i));
        }
        if !contains_str(existing, e.handler.as_str()) {
            return Some(ConfigError::EndpointHandlerMissing(i));
        }
        names.push(e.name.clone());
        keys.push(key);
        i = i + 1;
    }
    None
}

fn check_queries(qs: &Vec<QueryConfig>, existing: &Vec<String>) -> (r: Option<ConfigError>)
    ensures
        r == queries_error(qs@, qs@.len() as int, strings_view(existing@)),
{
    let ghost ex = strings_view(existing@);
    let n = qs.len();
    let mut names: Vec<String> = Vec::new();
    let mut i: usize = 0;
    while i < n
        invariant
            n == qs@.len(),
            i <= n,
            ex == strings_view(existing@),
            queries_error(qs@, i as int, ex) is None,
            names@.len() == i,
            forall|j: int| 0 <= j < i ==> (#[trigger] names@[j])@ == qs@[j].name@,
        decreases n - i,
    {
        let q = &qs[i];
        assert(queries_error(qs@, i + 1, ex) == query_error(qs@, i as int, ex));
        proof {
            if queries_error(qs@, i + 1, ex) is Some {
                lemma_queries_stable(qs@, i + 1, n as int, ex);
            }
        }
        if is_blank(q.name.as_str()) {
            return Some(ConfigError::QueryNameEmpty(i));
        }
        let seen = contains_str(&names, q.name.as_str());
        assert(seen == exists|j: int| 0 <= j < i && (#[trigger] qs@[j]).name@ == q.name@) by {
            if seen {
                let j = choose|j: int| 0 <= j < strings_view(names@).len() && strings_view(names@)[j] == q.name@;
                assert(names@[j]@ == q.name@);
            }
            if exists|j: int| 0 <= j < i && (#[trigger] qs@[j]).name@ == q.name@ {
                let j = choose|j: int| 0 <= j < i && (#[trigger] qs@[j]).name@ == q.name@;
                assert(strings_view(names@)[j] == q.name@);
            }
        }
        if seen {
            return Some(ConfigError::DuplicateQueryName(i));
        }
        if is_blank(q.handler.as_str()) {
            return Some(ConfigError::QueryHandlerEmpty(i));
        }
        if !contains_str(existing, q.handler.as_str()) {
            return Some(ConfigError::QueryHandlerMissing(i));
        }
        names.push(q.name.clone());
        i = i + 1;
    }
    None
}

fn check_crons(cs: &Vec<CronConfig>, existing: &Vec<String>) -> (r: Option<ConfigError>)
    ensures
        r == crons_error(cs@, cs@.len() as int, strings_view(existing@)),
{
    let ghost ex = strings_view(existing@);
    let n = cs.len();
    let mut names: Vec<String> = Vec::new();
    let mut i: usize = 0;
    while i < n
        invariant
            n == cs@.len(),
            i <= n,
            ex == strings_view(existing@),
            crons_error(cs@, i as int, ex) is None,
            names@.len() == i,
            forall|j: int| 0 <= j < i ==> (#[trigger] names@[j])@ == cs@[j].name@,
        decreases n - i,
    {
        let c = &cs[i];
        assert(crons_error(cs@, i + 1, ex) == cron_error(cs@, i as int, ex));
        proof {
            if crons_error(cs@, i + 1, ex) is Some {
                lemma_crons_stable(cs@, i + 1, n as int, ex);
            }
        }
        if is_blank(c.name.as_str()) {
            return Some(ConfigError::CronNameEmpty(i));
        }
        let seen = contains_str(&names, c.name.as_str());
        assert(seen == exists|j: int| 0 <= j < i && (#[trigger] cs@[j]).name@ == c.name@) by {
            if seen {
                let j = choose|j: int| 0 <= j < strings_view(names@).len() && strings_view(names@)[j] == c.name@;
                assert(names@[j]@ == c.name@);
            }
            if exists|j: int| 0 <= j < i && (#[trigger] cs@[j]).name@ == c.name@ {
                let j = choose|j: int| 0 <= j < i && (#[trigger] cs@[j]).name@ == c.name@;
                assert(strings_view(names@)[j] == c.name@);
            }
        }
        if seen {
            return Some(ConfigError::DuplicateCronName(i));
        }
        if c.interval_seconds == 0 {
            return Some(ConfigError::CronIntervalZero(i));
        }
        if is_blank(c.handler.as_str()) {
            return Some(ConfigError::CronHandlerEmpty(i));
        }
        if !contains_str(existing, c.handler.as_str()) {
            return Some(ConfigError::CronHandlerMissing(i));
        }
        names.push(c.name.clone());
        i = i + 1;
    }
    None
}

fn check_lifecycle(app: &AppConfig, existing: &Vec<String>) -> (r: Option<ConfigError>)
    ensures
        r == lifecycle_error(*app, strings_view(existing@)),
{
    match &app.lifecycle {
        None => None,
        Some(l) => {
            match &l.on_init {
                Some(h) => {
                    if is_blank(h.as_str()) {
                        return Some(ConfigError::OnInitEmpty);
                    }
                    if !contains_str(existing, h.as_str()) {
                        return Some(ConfigError::OnInitMissing);
                    }
                },
                None => {},
            }
            match &l.on_shutdown {
                Some(h) => {
                    if is_blank(h.as_str()) {
                        return Some(ConfigError::OnShutdownEmpty);
                    }
                    if !contains_str(existing, h.as_str()) {
                        return Some(ConfigError::OnShutdownMissing);
                    }
                },
                None => {},
            }
            None
        },
    }
}

fn check_sources(ss: &Vec<IngestionSource>) -> (r: Option<ConfigError>)
    ensures
        r == sources_error(ss@, ss@.len() as int),
{
    let n = ss.len();
    let mut i: usize = 0;
    while i < n
        invariant
            n == ss@.len(),
            i <= n,
            sources_error(ss@, i as int) is None,
        decreases n - i,
    {
        assert(sources_error(ss@, i + 1) == source_error(ss@, i as int));
        proof {
            if sources_error(ss@, i + 1) is Some {
                lemma_sources_stable(ss@, i + 1, n as int);
            }
        }
        let kafka = str_equal(ss[i].source_type.as_str(), "kafka");
        let http = str_equal(ss[i].source_type.as_str(), "http");
        if !kafka && !http {
            return Some(ConfigError::UnsupportedIngestionType(i));
        }
        if kafka && ss[i].topics.len() == 0 {
            return Some(ConfigError::KafkaSourceWithoutTopics(i));
        }
        i = i + 1;
    }
    None
}


proof fn lemma_endpoints_stable(eps: Seq<EndpointConfig>, a: int, b: int, ex: Seq<Seq<char>>)
    requires
        0 <= a <= b,
        endpoints_error(eps, a, ex) is Some,
    ensures
        endpoints_error(eps, b, ex) == endpoints_error(eps, a, ex),
    decreases b - a,
{
    if a < b {
        lemma_endpoints_stable(eps, a, b - 1, ex);
    }
}

proof fn lemma_queries_stable(qs: Seq<QueryConfig>, a: int, b: int, ex: Seq<Seq<char>>)
    requires
        0 <= a <= b,
        queries_error(qs, a, ex) is Some,
    ensures
        queries_error(qs, b, ex) == queries_error(qs, a, ex),
    decreases b - a,
{
    if a < b {
        lemma_queries_stable(qs, a, b - 1, ex);
    }
}

proof fn lemma_crons_stable(cs: Seq<CronConfig>, a: int, b: int, ex: Seq<Seq<char>>)
    requires
        0 <= a <= b,
        crons_error(cs, a, ex) is Some,
    ensures
        crons_error(cs, b, ex) == crons_error(cs, a, ex),
    decreases b - a,
{
    if a < b {
        lemma_crons_stable(cs, a, b - 1, ex);
    }
}

proof fn lemma_sources_stable(ss: Seq<IngestionSource>, a: int, b: int)
    requires
        0 <= a <= b,
        sources_error(ss, a) is Some,
    ensures
        sources_error(ss, b) == sources_error(ss, a),
    decreases b - a,
{
    if a < b {
        lemma_sources_stable(ss, a, b - 1);
    }
}


proof fn lemma_fields_stable(e: EntitySchema, ei: int, a: int, b: int)
    requires
        0 <= a <= b,
        fields_error(e, ei, a) is Some,
    ensures
        fields_error(e, ei, b) == fields_error(e, ei, a),
    decreases b - a,
{
    if a < b {
        lemma_fields_stable(e, ei, a, b - 1);
    }
}

proof fn lemma_indexes_stable(e: EntitySchema, ei: int, a: int, b: int)
    requires
        0 <= a <= b,
        indexes_error(e, ei, a) is Some,
    ensures
        indexes_error(e, ei, b) == indexes_error(e, ei, a),
    decreases b - a,
{
    if a < b {
        lemma_indexes_stable(e, ei, a, b - 1);
    }
}

proof fn lemma_entities_stable(es: Seq<EntitySchema>, a: int, b: int)
    requires
        0 <= a <= b,
        entities_error(es, a) is Some,
    ensures
        entities_error(es, b) == entities_error(es, a),
    decreases b - a,
{
    if a < b {
        lemma_entities_stable(es, a, b - 1);
    }
}

proof fn lemma_topics_stable(ss: Seq<IngestionSource>, es: Seq<EntitySchema>, i: int, a: int, b: int)
    requires
        0 <= a <= b,
        topics_error(ss, es, i, a) is Some,
    ensures
        topics_error(ss, es, i, b) == topics_error(ss, es, i, a),
    decreases b - a,
{
    if a < b {
        lemma_topics_stable(ss, es, i, a, b - 1);
    }
}

proof fn lemma_sources_topics_stable(ss: Seq<IngestionSource>, es: Seq<EntitySchema>, a: int, b: int)
    requires
        0 <= a <= b,
        sources_topics_error(ss, es, a) is Some,
    ensures
        sources_topics_error(ss, es, b) == sources_topics_error(ss, es, a),
    decreases b - a,
{
    if a < b {
        lemma_sources_topics_stable(ss, es, a, b - 1);
    }
}

/// Whether `name` is the entity's primary key or one of its fields.
fn is_field_known(e: &EntitySchema, name: &str) -> (r: bool)
    ensures
        r == field_known(*e, name@),
{
    if str_equal(e.primary_key.as_str(), name) {
        return true;
    }
    let n = e.fields.len();
    let mut j: usize = 0;
    while j < n
        invariant
            n == e.fields@.len(),
            j <= n,
            e.primary_key@ != name@,
            forall|k: int| 0 <= k < j ==> e.fields@[k].name@ != name@,
        decreases n - j,
    {
        if str_equal(e.fields[j].name.as_str(), name) {
            return true;
        }
        j = j + 1;
    }
    false
}

fn check_fields(e: &EntitySchema, ei: usize) -> (r: Option<ConfigError>)
    ensures
        r == fields_error(*e, ei as int, e.fields@.len() as int),
{
    let n = e.fields.len();
    let mut names: Vec<String> = Vec::new();
    let mut j: usize = 0;
    while j < n
        invariant
            n == e.fields@.len(),
            j <= n,
            fields_error(*e, ei as int, j as int) is None,
            names@.len() == j,
            forall|k: int| 0 <= k < j ==> (#[trigger] names@[k])@ == e.fields@[k].name@,
        decreases n - j,
    {
        let f = &e.fields[j];
        assert(fields_error(*e, ei as int, j + 1) == field_error(*e, ei as int, j as int));
        proof {
            if fields_error(*e, ei as int, j + 1) is Some {
                lemma_fields_stable(*e, ei as int, j + 1, n as int);
            }
        }
        if is_blank(f.name.as_str()) {
            return Some(ConfigError::FieldNameEmpty(ei, j));
        }
        let seen = contains_str(&names, f.name.as_str());
        assert(seen == exists|k: int| 0 <= k < j && (#[trigger] e.fields@[k]).name@ == f.name@) by {
            if seen {
                let k = choose|k: int| 0 <= k < strings_view(names@).len() && strings_view(names@)[k] == f.name@;
                assert(names@[k]@ == f.name@);
            }
            if exists|k: int| 0 <= k < j && (#[trigger] e.fields@[k]).name@ == f.name@ {
                let k = choose|k: int| 0 <= k < j && (#[trigger] e.fields@[k]).name@ == f.name@;
                assert(strings_view(names@)[k] == f.name@);
            }
        }
        if seen {
            return Some(ConfigError::DuplicateField(ei, j));
        }
        names.push(f.name.clone());
        j = j + 1;
    }
    None
}

fn check_collection(e: &EntitySchema, ei: usize) -> (r: Option<ConfigError>)
    ensures
        r == collection_error(*e, ei as int),
{
    if !e.is_collection() {
        return None;
    }
    match &e.partition_key {
        None => Some(ConfigError::PartitionKeyMissing(ei)),
        Some(pk) => {
            if is_blank(pk.as_str()) {
                return Some(ConfigError::PartitionKeyEmpty(ei));
            }
            if !is_field_known(e, pk.as_str()) {
                return Some(ConfigError::PartitionKeyUnknown(ei));
            }
            match &e.order_by {
                Some(ob) => {
                    if is_blank(ob.as_str()) {
                        return Some(ConfigError::OrderByEmpty(ei));
                    }
                    if !is_field_known(e, ob.as_str()) {
                        return Some(ConfigError::OrderByUnknown(ei));
                    }
                },
                None => {},
            }
            match e.max_per_partition {
                Some(m) => {
                    if m == 0 {
                        return Some(ConfigError::MaxPerPartitionZero(ei));
                    }
                },
                None => {},
            }
            None
        },
    }
}

fn check_indexes(e: &EntitySchema, ei: usize) -> (r: Option<ConfigError>)
    ensures
        r == indexes_error(*e, ei as int, e.indexes@.len() as int),
{
    let n = e.indexes.len();
    let mut names: Vec<String> = Vec::new();
    let mut k: usize = 0;
    while k < n
        invariant
            n == e.indexes@.len(),
            k <= n,
            indexes_error(*e, ei as int, k as int) is None,
            names@.len() == k,
            forall|q: int| 0 <= q < k ==> (#[trigger] names@[q])@ == e.indexes@[q].name@,
        decreases n - k,
    {
        let ix = &e.indexes[k];
        assert(indexes_error(*e, ei as int, k + 1) == index_error(*e, ei as int, k as int));
        proof {
            if indexes_error(*e, ei as int, k + 1) is Some {
                lemma_indexes_stable(*e, ei as int, k + 1, n as int);
            }
        }
        if is_blank(ix.name.as_str()) {
            return Some(ConfigError::IndexNameEmpty(ei, k));
        }
        let seen = contains_str(&names, ix.name.as_str());
        assert(seen == exists|q: int| 0 <= q < k && (#[trigger] e.indexes@[q]).name@ == ix.name@) by {
            if seen {
                let q = choose|q: int| 0 <= q < strings_view(names@).len() && strings_view(names@)[q] == ix.name@;
                assert(names@[q]@ == ix.name@);
            }
            if exists|q: int| 0 <= q < k && (#[trigger] e.indexes@[q]).name@ == ix.name@ {
                let q = choose|q: int| 0 <= q < k && (#[trigger] e.indexes@[q]).name@ == ix.name@;
                assert(strings_view(names@)[q] == ix.name@);
            }
        }
        if seen {
            return Some(ConfigError::DuplicateIndex(ei, k));
        }
        if !is_field_known(e, ix.field.as_str()) {
            return Some(ConfigError::IndexFieldUnknown(ei, k));
        }
        names.push(ix.name.clone());
        k = k + 1;
    }
    None
}

fn check_entities(es: &Vec<EntitySchema>) -> (r: Option<ConfigError>)
    ensures
        r == entities_error(es@, es@.len() as int),
{
    let n = es.len();
    let mut names: Vec<String> = Vec::new();
    let mut i: usize = 0;
    while i < n
        invariant
            n == es@.len(),
            i <= n,
            entities_error(es@, i as int) is None,
            names@.len() == i,
            forall|j: int| 0 <= j < i ==> (#[trigger] names@[j])@ == es@[j].name@,
        decreases n - i,
    {
        let e = &es[i];
        assert(entities_error(es@, i + 1) == entity_error(es@, i as int));
        proof {
            if entities_error(es@, i + 1) is Some {
                lemma_entities_stable(es@, i + 1, n as int);
            }
        }
        if is_blank(e.name.as_str()) {
            return Some(ConfigError::EntityNameEmpty(i));
        }
        let seen = contains_str(&names, e.name.as_str());
        assert(seen == exists|j: int| 0 <= j < i && (#[trigger] es@[j]).name@ == e.name@) by {
            if seen {
                let j = choose|j: int| 0 <= j < strings_view(names@).len() && strings_view(names@)[j] == e.name@;
                assert(names@[j]@ == e.name@);
            }
            if exists|j: int| 0 <= j < i && (#[trigger] es@[j]).name@ == e.name@ {
                let j = choose|j: int| 0 <= j < i && (#[trigger] es@[j]).name@ == e.name@;
                assert(strings_view(names@)[j] == e.name@);
            }
        }
        if seen {
            return Some(ConfigError::DuplicateEntity(i));
        }
        if is_blank(e.primary_key.as_str()) {
            return Some(ConfigError::PrimaryKeyEmpty(i));
        }
        let f = check_fields(e, i);
        if f.is_some() {
            return f;
        }
        let c = check_collection(e, i);
        if c.is_some() {
            return c;
        }
        let x = check_indexes(e, i);
        if x.is_some() {
            return x;
        }
        names.push(e.name.clone());
        i = i + 1;
    }
    None
}

/// Whether the schema names an entity so.
fn is_entity_named(es: &Vec<EntitySchema>, name: &str) -> (r: bool)
    ensures
        r == entity_named(es@, name@),
{
    let n = es.len();
    let mut k: usize = 0;
    while k < n
        invariant
            n == es@.len(),
            k <= n,
            forall|q: int| 0 <= q < k ==> es@[q].name@ != name@,
        decreases n - k,
    {
        if str_equal(es[k].name.as_str(), name) {
            return true;
        }
        k = k + 1;
    }
    false
}

fn check_topics(ss: &Vec<IngestionSource>, es: &Vec<EntitySchema>) -> (r: Option<ConfigError>)
    ensures
        r == sources_topics_error(ss@, es@, ss@.len() as int),
{
    let n = ss.len();
    let mut i: usize = 0;
    while i < n
        invariant
            n == ss@.len(),
            i <= n,
            sources_topics_error(ss@, es@, i as int) is None,
        decreases n - i,
    {
        let m = ss[i].topics.len();
        assert(sources_topics_error(ss@, es@, i + 1) == topics_error(ss@, es@, i as int, m as int));
        proof {
            if sources_topics_error(ss@, es@, i + 1) is Some {
                lemma_sources_topics_stable(ss@, es@, i + 1, n as int);
            }
        }
        let mut j: usize = 0;
        while j < m
            invariant
                n == ss@.len(),
                i < n,
                m == ss@[i as int].topics@.len(),
                j <= m,
                topics_error(ss@, es@, i as int, j as int) is None,
                sources_topics_error(ss@, es@, i + 1) == topics_error(ss@, es@, i as int, m as int),
                sources_topics_error(ss@, es@, i + 1) is Some ==> sources_topics_error(ss@, es@, n as int)
                    == sources_topics_error(ss@, es@, i + 1),
            decreases m - j,
        {
            proof {
                if topics_error(ss@, es@, i as int, j + 1) is Some {
                    lemma_topics_stable(ss@, es@, i as int, j + 1, m as int);
                }
            }
            if !is_entity_named(es, ss[i].topics[j].entity.as_str()) {
                return Some(ConfigError::UnknownTopicEntity(i, j));
            }
            j = j + 1;
        }
        i = i + 1;
    }
    None
}

impl LoadedConfig {
    /// Checks the bundle: the application file, then the schema, then that
    /// every topic feeds a known entity. `existing` lists the script paths
    /// of the bundle that exist as files.
    pub fn validate(&self, existing: &Vec<String>) -> (r: Result<(), ConfigError>)
        ensures
            r == outcome(config_error(*self, strings_view(existing@))),
    {
        let a = self.validate_app(existing);
        if a.is_err() {
            return a;
        }
        let s = self.validate_schema();
        if s.is_err() {
            return s;
        }
        self.validate_cross_references()
    }

    /// Checks the application file.
    pub fn validate_app(&self, existing: &Vec<String>) -> (r: Result<(), ConfigError>)
        ensures
            r == outcome(app_error(self.app, strings_view(existing@))),
    {
        let mut e = check_scalars(&self.app);
        if e.is_none() {
            e = check_endpoints(&self.app.endpoints, existing);
        }
        if e.is_none() {
            e = check_queries(&self.app.queries, existing);
        }
        if e.is_none() {
            e = check_crons(&self.app.crons, existing);
        }
        if e.is_none() {
            e = check_lifecycle(&self.app, existing);
        }
        if e.is_none() {
            e = check_sources(&self.app.ingestion);
        }
        match e {
            Some(x) => Err(x),
            None => Ok(()),
        }
    }

    /// Checks the schema.
    pub fn validate_schema(&self) -> (r: Result<(), ConfigError>)
        ensures
            r == outcome(schema_error(self.schema)),
    {
        if self.schema.entities.len() == 0 {
            return Err(ConfigError::NoEntities);
        }
        match check_entities(&self.schema.entities) {
            Some(x) => Err(x),
            None => Ok(()),
        }
    }

    /// Checks that every topic of every source names an entity of the
    /// schema.
    pub fn validate_cross_references(&self) -> (r: Result<(), ConfigError>)
        ensures
            r == outcome(
                sources_topics_error(
                    self.app.ingestion@,
                    self.schema.entities@,
                    self.app.ingestion@.len() as int,
                ),
            ),
    {
        match check_topics(&self.app.ingestion, &self.schema.entities) {
            Some(x) => Err(x),
            None => Ok(()),
        }
    }
}


/// A bundle from its parsed files and location, once it passes validation
/// (`existing` lists the script paths of the bundle that exist as files).
pub fn load_bundle(
    app: AppConfig,
    schema: SchemaConfig,
    bundle_path: String,
    existing: &Vec<String>,
) -> (r: Result<LoadedConfig, ConfigError>)
    ensures
        config_error((LoadedConfig { app, schema, bundle_path }), strings_view(existing@)) matches Some(e)
            ==> r == Err::<LoadedConfig, ConfigError>(e),
        config_error((LoadedConfig { app, schema, bundle_path }), strings_view(existing@)) is None ==> r
            == Ok::<LoadedConfig, ConfigError>((LoadedConfig { app, schema, bundle_path })),
{
    let loaded = LoadedConfig { app, schema, bundle_path };
    match loaded.validate(existing) {
        Ok(()) => Ok(loaded),
        Err(e) => Err(e),
    }
}


proof fn lemma_endpoints_none(eps: Seq<EndpointConfig>, n: int, ex: Seq<Seq<char>>, i: int)
    requires
        0 <= i < n,
        endpoints_error(eps, n, ex) is None,
    ensures
        endpoint_error(eps, i, ex) is None,
    decreases n,
{
    if i < n - 1 {
        lemma_endpoints_none(eps, n - 1, ex, i);
    }
}

proof fn lemma_entities_none(es: Seq<EntitySchema>, n: int, i: int)
    requires
        0 <= i < n,
        entities_error(es, n) is None,
    ensures
        entity_error(es, i) is None,
    decreases n,
{
    if i < n - 1 {
        lemma_entities_none(es, n - 1, i);
    }
}

proof fn lemma_indexes_none(e: EntitySchema, ei: int, n: int, k: int)
    requires
        0 <= k < n,
        indexes_error(e, ei, n) is None,
    ensures
        index_error(e, ei, k) is None,
    decreases n,
{
    if k < n - 1 {
        lemma_indexes_none(e, ei, n - 1, k);
    }
}

proof fn lemma_topics_none(ss: Seq<IngestionSource>, es: Seq<EntitySchema>, i: int, n: int, j: int)
    requires
        0 <= j < n,
        topics_error(ss, es, i, n) is None,
    ensures
        entity_named(es, ss[i].topics@[j].entity@),
    decreases n,
{
    if j < n - 1 {
        lemma_topics_none(ss, es, i, n - 1, j);
    }
}

proof fn lemma_sources_topics_none(ss: Seq<IngestionSource>, es: Seq<EntitySchema>, n: int, i: int)
    requires
        0 <= i < n,
        sources_topics_error(ss, es, n) is None,
    ensures
        topics_error(ss, es, i, ss[i].topics@.len() as int) is None,
    decreases n,
{
    if i < n - 1 {
        lemma_sources_topics_none(ss, es, n - 1, i);
    }
}

/// A bundle that passes validation is consistent: its limits are sane, its
/// endpoints are distinct by name and by method and path and have their
/// scripts, its entities are distinct by name and index only known fields,
/// and every topic feeds a known entity.
pub proof fn law_valid_bundle_consistent(c: LoadedConfig, existing: Seq<Seq<char>>)
    requires
        config_error(c, existing) is None,
    ensures
        c.app.limits.max_concurrent_requests > 0,
        c.app.limits.store.max_bytes > 0,
        c.app.limits.store.max_entity_bytes <= c.app.limits.store.max_bytes,
        c.app.limits.store.soft_limit_percent <= 100,
        forall|i: int, j: int|
            0 <= i < j < c.app.endpoints@.len() ==> (#[trigger] c.app.endpoints@[i]).name@
                != (#[trigger] c.app.endpoints@[j]).name@ && endpoint_key(c.app.endpoints@[i])
                != endpoint_key(c.app.endpoints@[j]),
        forall|i: int|
            0 <= i < c.app.endpoints@.len() ==> present(existing, (#[trigger] c.app.endpoints@[i]).handler@),
        c.schema.entities@.len() > 0,
        forall|i: int, j: int|
            0 <= i < j < c.schema.entities@.len() ==> (#[trigger] c.schema.entities@[i]).name@
                != (#[trigger] c.schema.entities@[j]).name@,
        forall|i: int, k: int|
            0 <= i < c.schema.entities@.len() && 0 <= k < c.schema.entities@[i].indexes@.len()
                ==> field_known(
                c.schema.entities@[i],
                (#[trigger] c.schema.entities@[i].indexes@[k]).field@,
            ),
        forall|i: int, j: int|
            0 <= i < c.app.ingestion@.len() && 0 <= j < c.app.ingestion@[i].topics@.len() ==> entity_named(
                c.schema.entities@,
                (#[trigger] c.app.ingestion@[i].topics@[j]).entity@,
            ),
{
    let app = c.app;
    let eps = app.endpoints@;
    assert(scalar_error(app) is None);
    assert(endpoints_error(eps, eps.len() as int, existing) is None);
    assert forall|i: int, j: int|
        0 <= i < j < eps.len() implies (#[trigger] eps[i]).name@ != (#[trigger] eps[j]).name@
            && endpoint_key(eps[i]) != endpoint_key(eps[j]) by {
        lemma_endpoints_none(eps, eps.len() as int, existing, j);
    }
    assert forall|i: int| 0 <= i < eps.len() implies present(existing, (#[trigger] eps[i]).handler@) by {
        lemma_endpoints_none(eps, eps.len() as int, existing, i);
    }
    let es = c.schema.entities@;
    assert(schema_error(c.schema) is None);
    assert forall|i: int, j: int|
        0 <= i < j < es.len() implies (#[trigger] es[i]).name@ != (#[trigger] es[j]).name@ by {
        lemma_entities_none(es, es.len() as int, j);
    }
    assert forall|i: int, k: int|
        0 <= i < es.len() && 0 <= k < es[i].indexes@.len() implies field_known(
            es[i],
            (#[trigger] es[i].indexes@[k]).field@,
        ) by {
        lemma_entities_none(es, es.len() as int, i);
        lemma_indexes_none(es[i], i, es[i].indexes@.len() as int, k);
    }
    let ss = app.ingestion@;
    assert(sources_topics_error(ss, es, ss.len() as int) is None);
    assert forall|i: int, j: int|
        0 <= i < ss.len() && 0 <= j < ss[i].topics@.len() implies entity_named(
            es,
            (#[trigger] ss[i].topics@[j]).entity@,
        ) by {
        lemma_sources_topics_none(ss, es, ss.len() as int, i);
        lemma_topics_none(ss, es, i, ss[i].topics@.len() as int, j);
    }
}

/// Whether an entity passes its own checks, its name's uniqueness apart.
pub open spec fn entity_fine(e: EntitySchema) -> bool {
    &&& !blank(e.name@)
    &&& !blank(e.primary_key@)
    &&& fields_error(e, 0, e.fields@.len() as int) is None
    &&& collection_error(e, 0) is None
    &&& indexes_error(e, 0, e.indexes@.len() as int) is None
}

/// Whether the first `n` fields pass does not depend on the entity's position.
proof fn lemma_fields_error_position(e: EntitySchema, a: int, b: int, n: int)
    ensures
        (fields_error(e, a, n) is None) == (fields_error(e, b, n) is None),
    decreases n,
{
    if n > 0 {
        lemma_fields_error_position(e, a, b, n - 1);
    }
}

/// Whether the first `n` indexes pass does not depend on the entity's
/// position.
proof fn lemma_indexes_error_position(e: EntitySchema, a: int, b: int, n: int)
    ensures
        (indexes_error(e, a, n) is None) == (indexes_error(e, b, n) is None),
    decreases n,
{
    if n > 0 {
        lemma_indexes_error_position(e, a, b, n - 1);
    }
}

/// Entity `i` passes exactly when it passes its own checks and no earlier
/// entity has its name.
proof fn lemma_entity_error_fine(es: Seq<EntitySchema>, i: int)
    requires
        0 <= i < es.len(),
    ensures
        (entity_error(es, i) is None) == (entity_fine(es[i]) && !exists|j: int|
            0 <= j < i && (#[trigger] es[j]).name@ == es[i].name@),
{
    let e = es[i];
    lemma_fields_error_position(e, i, 0, e.fields@.len() as int);
    lemma_indexes_error_position(e, i, 0, e.indexes@.len() as int);
    assert((collection_error(e, i) is None) == (collection_error(e, 0) is None));
}

/// The first `n` entities pass exactly when each of them does.
proof fn lemma_entities_error_each(es: Seq<EntitySchema>, n: int)
    requires
        0 <= n <= es.len(),
    ensures
        (entities_error(es, n) is None) == (forall|i: int| 0 <= i < n ==> #[trigger] entity_error(es, i) is None),
    decreases n,
{
    if n > 0 {
        lemma_entities_error_each(es, n - 1);
    }
}

/// Entities are checked each on its own, apart from the uniqueness of their
/// names: a schema passes exactly when it has an entity, no two of its
/// entities share a name, and each entity passes its own checks, which are
/// those it meets as a schema's only entity: a schema of one entity passes
/// exactly when that entity passes them.
pub proof fn law_entities_checked_independently(s: SchemaConfig)
    ensures
        (schema_error(s) is None) == {
            &&& s.entities@.len() > 0
            &&& forall|i: int, j: int|
                0 <= i < j < s.entities@.len() ==> (#[trigger] s.entities@[i]).name@
                    != (#[trigger] s.entities@[j]).name@
            &&& forall|i: int| 0 <= i < s.entities@.len() ==> entity_fine(#[trigger] s.entities@[i])
        },
        forall|e: EntitySchema| #[trigger] entity_fine(e) == (entity_error(seq![e], 0) is None),
        s.entities@.len() == 1 ==> (schema_error(s) is None) == entity_fine(s.entities@[0]),
{
    let es = s.entities@;
    assert forall|e: EntitySchema| #[trigger] entity_fine(e) == (entity_error(seq![e], 0) is None) by {
        lemma_entity_error_fine(seq![e], 0);
    }
    if es.len() > 0 {
        lemma_entities_error_each(es, es.len() as int);
        if schema_error(s) is None {
            assert forall|i: int| 0 <= i < es.len() implies entity_fine(#[trigger] es[i]) by {
                assert(entity_error(es, i) is None);
                lemma_entity_error_fine(es, i);
            }
            assert forall|i: int, j: int| 0 <= i < j < es.len() implies (#[trigger] es[i]).name@
                != (#[trigger] es[j]).name@ by {
                assert(entity_error(es, j) is None);
                lemma_entity_error_fine(es, j);
            }
        } else {
            let i = choose|i: int| 0 <= i < es.len() && !(#[trigger] entity_error(es, i) is None);
            lemma_entity_error_fine(es, i);
            if entity_fine(es[i]) {
                let j = choose|j: int| 0 <= j < i && (#[trigger] es[j]).name@ == es[i].name@;
                assert(es[j].name@ == es[i].name@);
            }
        }
    }
}

/// The first `n` sources pass where every one of them passes.
proof fn lemma_sources_pass(ss: Seq<IngestionSource>, n: int)
    requires
        n <= ss.len(),
        forall|j: int| 0 <= j < n ==> #[trigger] source_error(ss, j) is None,
    ensures
        sources_error(ss, n) is None,
    decreases n,
{
    if n > 0 {
        lemma_sources_pass(ss, n - 1);
        assert(source_error(ss, n - 1) is None);
    }
}

/// Both kinds of ingestion source are supported: a source of type `http`
/// always passes, and so does one of type `kafka` with a topic; a list of
/// such sources passes; a source of any other type is refused as
/// unsupported.
pub proof fn law_ingestion_types(ss: Seq<IngestionSource>, i: int)
    requires
        0 <= i < ss.len(),
    ensures
        ss[i].source_type@ == "http"@ ==> source_error(ss, i) is None,
        ss[i].source_type@ == "kafka"@ && ss[i].topics@.len() > 0 ==> source_error(ss, i) is None,
        ss[i].source_type@ != "http"@ && ss[i].source_type@ != "kafka"@ ==> source_error(ss, i)
            == Some(ConfigError::UnsupportedIngestionType(i as usize)),
        (forall|j: int|
            0 <= j < ss.len() ==> (#[trigger] ss[j]).source_type@ == "http"@ || (ss[j].source_type@ == "kafka"@
                && ss[j].topics@.len() > 0)) ==> sources_error(ss, ss.len() as int) is None,
{
    reveal_strlit("http");
    reveal_strlit("kafka");
    assert("http"@.len() != "kafka"@.len());
    if forall|j: int|
        0 <= j < ss.len() ==> (#[trigger] ss[j]).source_type@ == "http"@ || (ss[j].source_type@ == "kafka"@
            && ss[j].topics@.len() > 0) {
        assert forall|j: int| 0 <= j < ss.len() implies #[trigger] source_error(ss, j) is None by {
            assert(ss[j].source_type@ == "http"@ || (ss[j].source_type@ == "kafka"@ && ss[j].topics@.len() > 0));
        }
        lemma_sources_pass(ss, ss.len() as int);
    }
}

} // verus!

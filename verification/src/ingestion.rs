//! Kafka ingestion: which sources consume, under which consumer group and
//! brokers, how topics bind to entities and event types, and where a
//! processed message commits. (Consuming and committing run in the
//! application around the library.)

use vstd::prelude::*;

use crate::config::app::{AppConfig, AppMetadata, IngestionSource, IngestionTopicConfig};
use crate::json::{json_document, parse_document, JsonValue};
use crate::text::{join3, str_equal};

verus! {

/// Whether the Kafka consumers are up.
#[derive(Debug, Clone, Copy, Default)]
pub struct IngestionHealth {
    pub kafka_ready: bool,
}

impl IngestionHealth {
    pub fn is_ready(&self) -> (r: bool)
        ensures
            r == self.kafka_ready,
    {
        self.kafka_ready
    }

    pub fn set_ready(&mut self, value: bool)
        ensures
            final(self).kafka_ready == value,
    {
        self.kafka_ready = value;
    }
}

/// Where an ingested message came from.
#[derive(Debug, Clone)]
pub struct IngestContext {
    pub topic: String,
    pub partition: i32,
    pub offset: i64,
}

/// A subscribed topic: the entity it feeds and the event type its messages
/// carry to the ingest script.
#[derive(Debug, Clone)]
pub struct KafkaTopicBinding {
    pub topic: String,
    pub entity: String,
    pub event_type: String,
}

/// The event type of a topic: its own, or the topic's name when empty.
pub open spec fn event_type_of(t: IngestionTopicConfig) -> Seq<char> {
    if t.event_type@.len() == 0 {
        t.name@
    } else {
        t.event_type@
    }
}

/// Whether a binding is the one of a topic's configuration.
pub open spec fn binds(b: KafkaTopicBinding, t: IngestionTopicConfig) -> bool {
    &&& b.topic@ == t.name@
    &&& b.entity@ == t.entity@
    &&& b.event_type@ == event_type_of(t)
}

/// The binding of a configured topic.
pub fn topic_binding(topic: &IngestionTopicConfig) -> (r: KafkaTopicBinding)
    ensures
        binds(r, *topic),
{
    let event_type = if topic.event_type.as_str().unicode_len() == 0 {
        topic.name.clone()
    } else {
        topic.event_type.clone()
    };
    KafkaTopicBinding { topic: topic.name.clone(), entity: topic.entity.clone(), event_type }
}

/// The bindings of a source's topics, in order.
pub fn topic_bindings(source: &IngestionSource) -> (r: Vec<KafkaTopicBinding>)
    ensures
        r@.len() == source.topics@.len(),
        forall|i: int| 0 <= i < r@.len() ==> binds(#[trigger] r@[i], source.topics@[i]),
{
    let n = source.topics.len();
    let mut out: Vec<KafkaTopicBinding> = Vec::new();
    let mut i: usize = 0;
    while i < n
        invariant
            n == source.topics@.len(),
            i <= n,
            out@.len() == i,
            forall|j: int| 0 <= j < i ==> binds(#[trigger] out@[j], source.topics@[j]),
        decreases n - i,
    {
        out.push(topic_binding(&source.topics[i]));
        i = i + 1;
    }
    out
}

/// The consumer group of a source: its own, or `name-version` of the app.
pub open spec fn group_id_of(source: IngestionSource, app: AppMetadata) -> Seq<char> {
    match source.group_id {
        Some(g) => g@,
        None => app.name@ + "-"@ + app.version@,
    }
}

/// The consumer group of a source.
pub fn consumer_group_id(source: &IngestionSource, app: &AppMetadata) -> (r: String)
    ensures
        r@ == group_id_of(*source, *app),
{
    match &source.group_id {
        Some(g) => g.clone(),
        None => join3(app.name.as_str(), "-", app.version.as_str()),
    }
}

/// `items` joined with `sep` between them.
pub open spec fn joined(items: Seq<Seq<char>>, sep: Seq<char>) -> Seq<char>
    decreases items.len(),
{
    if items.len() == 0 {
        Seq::empty()
    } else if items.len() == 1 {
        items[0]
    } else {
        joined(items.drop_last(), sep) + sep + items.last()
    }
}

/// The broker list of a source, comma-separated; none when the source names
/// no broker (the application then takes `KAFKA_BROKERS` or
/// `localhost:9092`).
pub fn source_brokers(source: &IngestionSource) -> (r: Option<String>)
    ensures
        source.brokers@.len() == 0 ==> r is None,
        source.brokers@.len() > 0 ==> (r matches Some(s) && s@ == joined(
            source.brokers@.map_values(|b: String| b@),
            ","@,
        )),
{
    let n = source.brokers.len();
    if n == 0 {
        return None;
    }
    let ghost bs = source.brokers@.map_values(|b: String| b@);
    let mut out = source.brokers[0].clone();
    let mut i: usize = 1;
    assert(bs.take(1).drop_last() =~= Seq::<Seq<char>>::empty());
    while i < n
        invariant
            n == source.brokers@.len(),
            bs == source.brokers@.map_values(|b: String| b@),
            1 <= i <= n,
            out@ == joined(bs.take(i as int), ","@),
        decreases n - i,
    {
        proof {
            assert(bs.take(i + 1).drop_last() =~= bs.take(i as int));
            assert(bs.take(i + 1).last() == source.brokers@[i as int]@);
        }
        out = join3(out.as_str(), ",", source.brokers[i].as_str());
        i = i + 1;
    }
    assert(bs.take(n as int) =~= bs);
    Some(out)
}

/// Whether a source consumes from Kafka.
pub open spec fn is_kafka(source: IngestionSource) -> bool {
    source.source_type@ == "kafka"@
}

/// The positions of the Kafka sources, in order.
pub fn kafka_sources(app: &AppConfig) -> (r: Vec<usize>)
    ensures
        forall|i: int| 0 <= i < r@.len() ==> (#[trigger] r@[i]) < app.ingestion@.len() && is_kafka(
            app.ingestion@[r@[i] as int],
        ),
        forall|i: int, j: int| 0 <= i < j < r@.len() ==> r@[i] < r@[j],
        forall|k: int|
            0 <= k < app.ingestion@.len() && is_kafka(#[trigger] app.ingestion@[k]) ==> r@.contains(
                k as usize,
            ),
{
    let n = app.ingestion.len();
    let mut out: Vec<usize> = Vec::new();
    let mut i: usize = 0;
    while i < n
        invariant
            n == app.ingestion@.len(),
            i <= n,
            forall|a: int| 0 <= a < out@.len() ==> (#[trigger] out@[a]) < i && is_kafka(
                app.ingestion@[out@[a] as int],
            ),
            forall|a: int, b: int| 0 <= a < b < out@.len() ==> out@[a] < out@[b],
            forall|k: int| 0 <= k < i && is_kafka(#[trigger] app.ingestion@[k]) ==> out@.contains(k as usize),
        decreases n - i,
    {
        if str_equal(app.ingestion[i].source_type.as_str(), "kafka") {
            let ghost before = out@;
            out.push(i);
            proof {
                assert forall|k: int| 0 <= k < i + 1 && is_kafka(#[trigger] app.ingestion@[k]) implies out@.contains(k as usize) by {
                    if k == i {
                        assert(out@[before.len() as int] == i);
                    } else {
                        let w = choose|w: int| 0 <= w < before.len() && before[w] == k as usize;
                        assert(out@[w] == k as usize);
                    }
                }
            }
        }
        i = i + 1;
    }
    out
}

/// Whether any source consumes from Kafka.
pub fn kafka_configured(app: &AppConfig) -> (r: bool)
    ensures
        r == exists|k: int| 0 <= k < app.ingestion@.len() && is_kafka(#[trigger] app.ingestion@[k]),
{
    let n = app.ingestion.len();
    let mut i: usize = 0;
    while i < n
        invariant
            n == app.ingestion@.len(),
            i <= n,
            forall|k: int| 0 <= k < i ==> !is_kafka(#[trigger] app.ingestion@[k]),
        decreases n - i,
    {
        if str_equal(app.ingestion[i].source_type.as_str(), "kafka") {
            return true;
        }
        i = i + 1;
    }
    false
}

/// The binding that a message's topic resolves to: the last one of that
/// topic, as a map built from the bindings keeps it.
pub fn find_binding(bindings: &Vec<KafkaTopicBinding>, topic: &str) -> (r: Option<usize>)
    ensures
        r matches Some(i) ==> i < bindings@.len() && bindings@[i as int].topic@ == topic@ && forall|
            j: int,
        | i < j < bindings@.len() ==> bindings@[j].topic@ != topic@,
        r is None ==> forall|j: int| 0 <= j < bindings@.len() ==> bindings@[j].topic@ != topic@,
{
    let n = bindings.len();
    let mut i: usize = n;
    while i > 0
        invariant
            n == bindings@.len(),
            i <= n,
            forall|j: int| i <= j < n ==> bindings@[j].topic@ != topic@,
        decreases i,
    {
        if str_equal(bindings[i - 1].topic.as_str(), topic) {
            return Some(i - 1);
        }
        i = i - 1;
    }
    None
}

/// The offset to commit once a message is processed: the next one.
pub fn commit_offset_after(offset: i64) -> (r: i64)
    requires
        offset < i64::MAX,
    ensures
        r == offset + 1,
{
    offset + 1
}

/// How many messages a consumer processes at once: the request
/// concurrency, at least one.
pub fn max_in_flight(max_concurrent_requests: usize) -> (r: usize)
    ensures
        r == if max_concurrent_requests == 0 {
            1
        } else {
            max_concurrent_requests
        },
{
    if max_concurrent_requests == 0 {
        1
    } else {
        max_concurrent_requests
    }
}

/// Why a Kafka message gives no document.
#[derive(Debug)]
pub enum PayloadError {
    /// The message has no payload.
    Empty,
    /// The payload holds no JSON document.
    NotJson,
}

/// The text of a payload error.
pub open spec fn payload_error_text(e: PayloadError) -> Seq<char> {
    match e {
        PayloadError::Empty => "empty payload"@,
        PayloadError::NotJson => "failed to parse Kafka JSON payload"@,
    }
}

impl PayloadError {
    /// The error's text.
    pub fn message(&self) -> (r: String)
        ensures
            r@ == payload_error_text(*self),
    {
        match self {
            PayloadError::Empty => String::from_str("empty payload"),
            PayloadError::NotJson => String::from_str("failed to parse Kafka JSON payload"),
        }
    }
}

/// The document that a Kafka message carries: refused when the message has
/// no payload or the payload holds no JSON document.
pub fn read_payload(payload: Option<&[u8]>) -> (r: Result<JsonValue, PayloadError>)
    ensures
        payload is None ==> r matches Err(PayloadError::Empty),
        payload matches Some(b) ==> match json_document(b@) {
            Some(v) => r == Ok::<JsonValue, PayloadError>(v),
            None => r matches Err(PayloadError::NotJson),
        },
{
    match payload {
        None => Err(PayloadError::Empty),
        Some(b) => match parse_document(b) {
            Some(v) => Ok(v),
            None => Err(PayloadError::NotJson),
        },
    }
}

} // verus!

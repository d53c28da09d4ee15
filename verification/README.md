# stateful_runtime

The verified core of a stateful edge runtime: bundles of `app.yaml` and
`schema.yaml` define endpoints, ingestion sources, entities, indexes and
retention; the runtime keeps entities and collections in memory, serves
HTTP routes through JavaScript handlers and ingests Kafka events.

Layout:

- `src/` — the library, verified with Verus:
  - `store/` — the entity store (records, hash and sorted indexes,
    tombstones, memory accounting, retention sweeps, batches of script
    operations) and the partitioned collections;
  - `config/` — the configuration types, their defaults and the
    validation of a bundle;
  - `http/` — readiness, method and query-string parsing, and the status
    decisions of the edge handler;
  - `ingestion.rs`, `limits.rs`, `script.rs` — Kafka bindings, the store
    memory budget, and the reading of scripts' store operations;
  - `json.rs`, `text.rs` — the JSON model, the reading of JSON bytes
    (through serde_json) and string helpers.
- `app/` — the program around it: CLI, file loading, HTTP serving (axum),
  Kafka (rdkafka), the JavaScript engine (deno_core), metrics
  (prometheus), rate limiting and background tasks.
- `tests/` — tests of the library.

[package]
name = "stateful_runtime"
version = "0.1.0"
edition = "2021"
publish = false

[dependencies]
anyhow = "1"
axum = "*"
clap = { version = "4", features = ["derive", "env"] }
dashmap = "*"
deno_core = "*"
deno_error = "*"
parking_lot = "*"
prometheus = "*"
rdkafka = "*"
serde = { version = "1", features = ["derive"] }
serde_json = "1"
serde_yaml = "*"
thiserror = "*"
tokio = { version = "1", features = ["full"] }
tracing = "*"
tracing-subscriber = { version = "*", features = ["env-filter"] }
uuid = { version = "*", features = ["v4"] }

//! Liveness and readiness.

use vstd::prelude::*;

verus! {

/// What the runtime has brought up so far.
#[derive(Debug, Clone, Copy, Default)]
pub struct HealthState {
    pub config_loaded: bool,
    pub scripts_loaded: bool,
    pub store_ready: bool,
    pub kafka_ready: bool,
}

/// The liveness answer.
#[derive(Debug, Clone)]
pub struct HealthPayload {
    pub status: String,
}

/// The readiness answer.
#[derive(Debug, Clone, Copy)]
pub struct ReadinessPayload {
    pub ready: bool,
    pub config_loaded: bool,
    pub scripts_loaded: bool,
    pub store_ready: bool,
    pub kafka_ready: bool,
}

/// Ready: configuration, scripts and store are up, and Kafka too when a
/// Kafka source is configured.
pub open spec fn ready(h: HealthState, kafka_configured: bool) -> bool {
    h.config_loaded && h.scripts_loaded && h.store_ready && (!kafka_configured || h.kafka_ready)
}

impl HealthState {
    pub fn set_config_loaded(&mut self, value: bool)
        ensures
            *final(self) == (HealthState { config_loaded: value, ..*old(self) }),
    {
        self.config_loaded = value;
    }

    pub fn set_scripts_loaded(&mut self, value: bool)
        ensures
            *final(self) == (HealthState { scripts_loaded: value, ..*old(self) }),
    {
        self.scripts_loaded = value;
    }

    pub fn set_store_ready(&mut self, value: bool)
        ensures
            *final(self) == (HealthState { store_ready: value, ..*old(self) }),
    {
        self.store_ready = value;
    }

    pub fn set_kafka_ready(&mut self, value: bool)
        ensures
            *final(self) == (HealthState { kafka_ready: value, ..*old(self) }),
    {
        self.kafka_ready = value;
    }

    /// Whether the runtime is ready to serve.
    pub fn is_ready(&self, kafka_configured: bool) -> (r: bool)
        ensures
            r == ready(*self, kafka_configured),
    {
        self.config_loaded && self.scripts_loaded && self.store_ready && (!kafka_configured
            || self.kafka_ready)
    }

    /// The readiness answer: whether ready, and each flag.
    pub fn readiness(&self, kafka_configured: bool) -> (r: ReadinessPayload)
        ensures
            r.ready == ready(*self, kafka_configured),
            r.config_loaded == self.config_loaded,
            r.scripts_loaded == self.scripts_loaded,
            r.store_ready == self.store_ready,
            r.kafka_ready == self.kafka_ready,
    {
        ReadinessPayload {
            ready: self.is_ready(kafka_configured),
            config_loaded: self.config_loaded,
            scripts_loaded: self.scripts_loaded,
            store_ready: self.store_ready,
            kafka_ready: self.kafka_ready,
        }
    }
}

/// The status of the readiness answer: 200 when ready, 503 otherwise.
pub fn readiness_status(ready: bool) -> (r: u16)
    ensures
        r == (if ready {
            200u16
        } else {
            503u16
        }),
{
    if ready {
        200
    } else {
        503
    }
}

/// The liveness answer: `{"status": "ok"}`.
pub fn health_payload() -> (r: HealthPayload)
    ensures
        r.status@ == "ok"@,
{
    HealthPayload { status: String::from_str("ok") }
}

} // verus!

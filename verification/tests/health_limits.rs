use stateful_runtime::http::health::{readiness_status, HealthState};
use stateful_runtime::limits::{LimitError, StoreBudget};

#[test]
fn ready_requires_config_scripts_and_store() {
    let mut h = HealthState::default();
    assert!(!h.is_ready(false));
    h.set_config_loaded(true);
    h.set_scripts_loaded(true);
    assert!(!h.is_ready(false));
    h.set_store_ready(true);
    assert!(h.is_ready(false));
    assert!(!h.is_ready(true));
    h.set_kafka_ready(true);
    assert!(h.is_ready(true));
    assert_eq!(readiness_status(true), 200);
    assert_eq!(readiness_status(false), 503);
}

#[test]
fn soft_limit_is_a_percentage_of_the_hard_limit() {
    let b = StoreBudget::from_hard_limit(1000, 80);
    assert_eq!(b.soft_limit_bytes, 800);
    assert_eq!(b.hard_limit_bytes, 1000);
    let whole = StoreBudget::from_hard_limit(1000, 0);
    assert_eq!(whole.soft_limit_bytes, 1000);
    let big = StoreBudget::from_hard_limit(usize::MAX, 50);
    assert_eq!(big.soft_limit_bytes, usize::MAX / 100);
    assert_eq!(b.check(900), Err(LimitError::StoreSoftLimitExceeded));
    assert_eq!(b.check(1001), Err(LimitError::StoreHardLimitExceeded));
    assert_eq!(b.check(800), Ok(()));
}

#[test]
fn limit_errors_answer_with_their_status_and_text() {
    assert_eq!(LimitError::RequestRateExceeded.status(), 429);
    assert_eq!(LimitError::RequestRateExceeded.message(), "request rate limit exceeded");
    assert_eq!(LimitError::IngestionRateExceeded.status(), 503);
    assert_eq!(LimitError::IngestionRateExceeded.message(), "ingestion rate limit exceeded");
    assert_eq!(LimitError::ConcurrencyExceeded.status(), 503);
    assert_eq!(LimitError::ConcurrencyExceeded.message(), "concurrency limit exceeded");
    assert_eq!(LimitError::StoreSoftLimitExceeded.status(), 503);
    assert_eq!(LimitError::StoreSoftLimitExceeded.message(), "store memory soft limit exceeded");
    assert_eq!(LimitError::StoreHardLimitExceeded.status(), 503);
    assert_eq!(LimitError::StoreHardLimitExceeded.message(), "store memory hard limit exceeded");
}

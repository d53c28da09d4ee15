//! Limits: the store's memory budget and the errors that limits raise.
//! (The per-key rate limiters and the concurrency semaphore run in the
//! application around the library.)

use vstd::prelude::*;

verus! {

/// Why a limit refused a request or an event.
#[derive(Debug, Clone, Copy, PartialEq, Eq, Structural)]
pub enum LimitError {
    RequestRateExceeded,
    IngestionRateExceeded,
    ConcurrencyExceeded,
    StoreSoftLimitExceeded,
    StoreHardLimitExceeded,
}

/// The text of each limit error.
pub open spec fn limit_message(e: LimitError) -> Seq<char> {
    match e {
        LimitError::RequestRateExceeded => "request rate limit exceeded"@,
        LimitError::IngestionRateExceeded => "ingestion rate limit exceeded"@,
        LimitError::ConcurrencyExceeded => "concurrency limit exceeded"@,
        LimitError::StoreSoftLimitExceeded => "store memory soft limit exceeded"@,
        LimitError::StoreHardLimitExceeded => "store memory hard limit exceeded"@,
    }
}

/// The HTTP status with which an edge request refused by a limit is
/// answered: 429 for the request rate, 503 otherwise.
pub open spec fn limit_status(e: LimitError) -> u16 {
    match e {
        LimitError::RequestRateExceeded => 429,
        _ => 503,
    }
}

impl LimitError {
    /// The error's text.
    pub fn message(&self) -> (r: String)
        ensures
            r@ == limit_message(*self),
    {
        match self {
            LimitError::RequestRateExceeded => String::from_str("request rate limit exceeded"),
            LimitError::IngestionRateExceeded => String::from_str("ingestion rate limit exceeded"),
            LimitError::ConcurrencyExceeded => String::from_str("concurrency limit exceeded"),
            LimitError::StoreSoftLimitExceeded => String::from_str("store memory soft limit exceeded"),
            LimitError::StoreHardLimitExceeded => String::from_str("store memory hard limit exceeded"),
        }
    }

    /// The HTTP status that answers an edge request refused by this limit.
    pub fn status(&self) -> (r: u16)
        ensures
            r == limit_status(*self),
    {
        match self {
            LimitError::RequestRateExceeded => 429,
            _ => 503,
        }
    }
}

/// The store's memory budget: a hard limit and a soft one below it.
#[derive(Debug, Clone, Copy)]
pub struct StoreBudget {
    pub soft_limit_bytes: usize,
    pub hard_limit_bytes: usize,
}

/// The soft limit for a hard limit and a percentage: the whole hard limit
/// for zero, else the percentage of it (the product stopping at
/// `usize::MAX`, then divided by 100).
pub open spec fn soft_limit(hard: usize, percent: u8) -> usize {
    if percent == 0 {
        hard
    } else if hard * percent > usize::MAX {
        (usize::MAX / 100) as usize
    } else {
        (hard * percent / 100) as usize
    }
}

impl StoreBudget {
    /// The budget for a hard limit, its soft limit a percentage of it.
    pub fn from_hard_limit(hard_limit_bytes: usize, soft_limit_percent: u8) -> (r: Self)
        ensures
            r.hard_limit_bytes == hard_limit_bytes,
            r.soft_limit_bytes == soft_limit(hard_limit_bytes, soft_limit_percent),
    {
        let soft_limit_bytes = if soft_limit_percent == 0 {
            hard_limit_bytes
        } else {
            match hard_limit_bytes.checked_mul(soft_limit_percent as usize) {
                Some(p) => p / 100,
                None => usize::MAX / 100,
            }
        };
        StoreBudget { soft_limit_bytes, hard_limit_bytes }
    }

    /// Whether the store's memory use is within the budget: above the hard
    /// limit is a hard refusal, above the soft one a soft refusal.
    pub fn check(&self, usage: usize) -> (r: Result<(), LimitError>)
        ensures
            usage > self.hard_limit_bytes ==> r == Err::<(), LimitError>(LimitError::StoreHardLimitExceeded),
            usage <= self.hard_limit_bytes && usage > self.soft_limit_bytes ==> r == Err::<(), LimitError>(
                LimitError::StoreSoftLimitExceeded,
            ),
            usage <= self.hard_limit_bytes && usage <= self.soft_limit_bytes ==> r is Ok,
    {
        if usage > self.hard_limit_bytes {
            return Err(LimitError::StoreHardLimitExceeded);
        }
        if usage > self.soft_limit_bytes {
            return Err(LimitError::StoreSoftLimitExceeded);
        }
        Ok(())
    }
}


/// The soft limit never exceeds the hard one for a percentage up to 100.
pub proof fn law_soft_limit_within_hard(hard: usize, percent: u8)
    requires
        percent <= 100,
    ensures
        soft_limit(hard, percent) <= hard,
{
    if percent > 0 && hard * percent <= usize::MAX {
        assert(hard * percent / 100 <= hard) by (nonlinear_arith)
            requires
                percent <= 100,
                hard >= 0,
        ;
    }
    if percent > 0 && hard * percent > usize::MAX {
        assert(hard * percent <= hard * 100) by (nonlinear_arith)
            requires
                percent <= 100,
                hard >= 0,
        ;
    }
}

} // verus!

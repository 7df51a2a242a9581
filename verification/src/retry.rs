//! The bounded retry policy wrapped around every generation-service call:
//! a fixed attempt budget with a linearly increasing delay. The caller
//! performs the call and the sleep; this module decides whether to retry
//! and for how long.

use vstd::prelude::*;

verus! {

/// What to do after a failed service call.
#[derive(Debug)]
pub enum RetryDecision {
    /// Try again after waiting this many seconds.
    Retry { delay_secs: u64 },
    /// The budget is exhausted; surface the failure.
    GiveUp,
}

/// A retry budget: how many retries are allowed, and the base delay that
/// grows linearly with the attempt number.
#[derive(Debug)]
pub struct RetryPolicy {
    pub max_retries: u32,
    pub base_delay_secs: u64,
}

impl RetryPolicy {
    pub fn new(max_retries: u32, base_delay_secs: u64) -> (r: Self)
        ensures
            r.max_retries == max_retries,
            r.base_delay_secs == base_delay_secs,
    {
        RetryPolicy { max_retries, base_delay_secs }
    }

    /// The decision after failed attempt number `attempt` (0-based):
    /// retry with delay `base * (attempt + 1)` while the budget lasts,
    /// give up afterwards. The delay product must fit the machine word.
    pub fn on_failure(&self, attempt: u32) -> (r: RetryDecision)
        requires
            (attempt + 1) * self.base_delay_secs <= u64::MAX,
        ensures
            attempt < self.max_retries ==> (r matches RetryDecision::Retry { delay_secs }
                && delay_secs == self.base_delay_secs * ((attempt + 1) as u64)),
            attempt >= self.max_retries ==> r is GiveUp,
    {
        if attempt < self.max_retries {
            let factor: u64 = (attempt as u64) + 1;
            proof {
                assert(self.base_delay_secs * factor <= u64::MAX) by (nonlinear_arith)
                    requires
                        factor == attempt + 1,
                        (attempt + 1) * self.base_delay_secs <= u64::MAX,
                ;
            }
            let delay = self.base_delay_secs * factor;
            RetryDecision::Retry { delay_secs: delay }
        } else {
            RetryDecision::GiveUp
        }
    }
}

} // verus!

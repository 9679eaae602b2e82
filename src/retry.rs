//! The retry policy of the candidate source: a bounded number of attempts
//! with a per-attempt timeout that grows linearly and a pause between tries.
use vstd::prelude::*;

verus! {

/// Attempts are numbered from 1.
#[derive(Clone, Copy, Debug, PartialEq, Eq)]
pub struct RetryPolicy {
    pub attempts: u32,
    pub base_timeout_secs: u64,
    pub timeout_step_secs: u64,
}

/// The timeout of attempt `attempt`: the base plus one step per earlier attempt.
pub open spec fn timeout_of(p: RetryPolicy, attempt: u32) -> int {
    p.base_timeout_secs + (attempt - 1) * p.timeout_step_secs
}

/// What the source does after a failed attempt.
#[derive(Clone, Copy, Debug, PartialEq, Eq)]
pub enum RetryDecision {
    /// Wait this many seconds, then make the next attempt.
    RetryAfter { delay_secs: u64, next_attempt: u32 },
    /// Attempts are exhausted: surface the last error.
    GiveUp,
}

impl RetryPolicy {
    /// Three attempts, with timeouts of 30, 45 and 60 seconds.
    pub fn certificate_log() -> (r: RetryPolicy)
        ensures
            r.attempts == 3 && r.base_timeout_secs == 30 && r.timeout_step_secs == 15,
    {
        RetryPolicy { attempts: 3, base_timeout_secs: 30, timeout_step_secs: 15 }
    }

    /// The timeout of attempt `attempt`, or `None` when it does not fit in 64 bits.
    pub fn timeout_secs(&self, attempt: u32) -> (r: Option<u64>)
        requires
            1 <= attempt,
        ensures
            r matches Some(t) ==> t == timeout_of(*self, attempt),
            r is None <==> timeout_of(*self, attempt) > u64::MAX,
    {
        let earlier = (attempt - 1) as u64;
        match earlier.checked_mul(self.timeout_step_secs) {
            Some(extra) => {
                assert(extra == (attempt - 1) * self.timeout_step_secs);
                self.base_timeout_secs.checked_add(extra)
            },
            None => {
                assert((attempt - 1) * self.timeout_step_secs > u64::MAX);
                assert(timeout_of(*self, attempt) > u64::MAX) by (nonlinear_arith)
                    requires
                        (attempt - 1) * self.timeout_step_secs > u64::MAX,
                        self.base_timeout_secs >= 0,
                        timeout_of(*self, attempt) == self.base_timeout_secs + (attempt - 1)
                            * self.timeout_step_secs,
                ;
                None
            },
        }
    }

    /// After attempt `attempt` failed: retry after `attempt` seconds while
    /// attempts remain, else give up.
    pub fn after_failure(&self, attempt: u32) -> (r: RetryDecision)
        requires
            1 <= attempt,
        ensures
            attempt < self.attempts ==> r == (RetryDecision::RetryAfter {
                delay_secs: attempt as u64,
                next_attempt: (attempt + 1) as u32,
            }),
            attempt >= self.attempts ==> r == RetryDecision::GiveUp,
    {
        if attempt < self.attempts {
            RetryDecision::RetryAfter { delay_secs: attempt as u64, next_attempt: attempt + 1 }
        } else {
            RetryDecision::GiveUp
        }
    }
}

} // verus!

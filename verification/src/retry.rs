//! The retry discipline of the data-source collaborator: a bounded number
//! of attempts with a fixed delay between them. The decisions live here;
//! performing a fetch and sleeping belong to the caller's driver loop.

use vstd::prelude::*;

verus! {

/// How many times a fetch is attempted before it is a hard failure.
pub const MAX_ATTEMPTS: u32 = 15;

/// Seconds to wait between two attempts.
pub const RETRY_DELAY_SECS: u64 = 5;

/// The state of one bounded retry loop.
pub struct RetryPolicy {
    pub attempts_left: u32,
}

impl RetryPolicy {
    pub fn new() -> (p: RetryPolicy)
        ensures
            p.attempts_left == MAX_ATTEMPTS,
    {
        RetryPolicy { attempts_left: MAX_ATTEMPTS }
    }

    /// Whether another attempt may be made; when this is false the failure
    /// is final and must be surfaced, not retried.
    pub fn should_attempt(&self) -> (r: bool)
        ensures
            r == (self.attempts_left > 0),
    {
        self.attempts_left > 0
    }

    /// Records a failed attempt and says how many seconds to wait before
    /// the next one.
    pub fn on_failure(&mut self) -> (delay: u64)
        requires
            old(self).attempts_left > 0,
        ensures
            final(self).attempts_left == old(self).attempts_left - 1,
            delay == RETRY_DELAY_SECS,
    {
        self.attempts_left = self.attempts_left - 1;
        RETRY_DELAY_SECS
    }
}

} // verus!

//! The record kept per client.

use vstd::prelude::*;
use crate::config::LimiterConfig;
use crate::time::Timestamp;

verus! {

/// One client's bucket as it is stored: the tokens left after the last
/// admitted request, and the instant of that request.
#[derive(Clone, Copy, Debug, PartialEq, Eq, Structural)]
pub struct BucketState {
    pub tokens: i64,
    pub last_refill: Timestamp,
}

impl BucketState {
    /// The token count lies between empty and full.
    pub open spec fn within(self, cfg: LimiterConfig) -> bool {
        0 <= self.tokens <= cfg.max_tokens
    }

    /// The bucket of a client that has no record yet: full, as of `now`.
    pub open spec fn fresh_spec(cfg: LimiterConfig, now: Timestamp) -> BucketState {
        BucketState { tokens: cfg.max_tokens as i64, last_refill: now }
    }

    pub fn fresh(cfg: &LimiterConfig, now: Timestamp) -> (s: BucketState)
        ensures
            s == Self::fresh_spec(*cfg, now),
            s.within(*cfg),
    {
        BucketState { tokens: cfg.max_tokens as i64, last_refill: now }
    }
}

} // verus!

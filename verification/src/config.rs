//! The limiter's settings, checked once when the process starts.

use vstd::prelude::*;

verus! {

/// Why a set of settings was turned down.
#[derive(Clone, Copy, Debug, PartialEq, Eq, Structural)]
pub enum ConfigError {
    /// The bucket size is not in `1..=u32::MAX`.
    MaxTokensOutOfRange,
    /// The hourly refill is not in `1..=u32::MAX`.
    RefillRateOutOfRange,
    /// The number of commit attempts is not in `1..=u32::MAX`.
    RetryBoundOutOfRange,
}

/// Settings of one limiter. They do not change while requests are served.
#[derive(Clone, Copy, Debug, PartialEq, Eq, Structural)]
pub struct LimiterConfig {
    /// Size of a full bucket.
    pub max_tokens: u32,
    /// Tokens that a bucket gains per whole hour.
    pub refill_rate_per_hour: u32,
    /// How many times one request may try to commit before it gives up.
    pub max_attempts: u32,
}

/// Whether a setting is at least one and fits in 32 bits.
pub open spec fn in_positive_range(v: int) -> bool {
    1 <= v <= u32::MAX
}

impl LimiterConfig {
    /// Settings that a running limiter may hold: nothing is zero.
    pub open spec fn valid(self) -> bool {
        &&& self.max_tokens >= 1
        &&& self.refill_rate_per_hour >= 1
        &&& self.max_attempts >= 1
    }

    /// What `new` answers: the first setting that is out of range decides
    /// the error, in the order bucket size, refill, attempts.
    pub open spec fn checked(max_tokens: int, refill_rate_per_hour: int, max_attempts: int)
        -> Result<LimiterConfig, ConfigError> {
        if !in_positive_range(max_tokens) {
            Err(ConfigError::MaxTokensOutOfRange)
        } else if !in_positive_range(refill_rate_per_hour) {
            Err(ConfigError::RefillRateOutOfRange)
        } else if !in_positive_range(max_attempts) {
            Err(ConfigError::RetryBoundOutOfRange)
        } else {
            Ok(
                LimiterConfig {
                    max_tokens: max_tokens as u32,
                    refill_rate_per_hour: refill_rate_per_hour as u32,
                    max_attempts: max_attempts as u32,
                },
            )
        }
    }

    /// Validates settings as they come from the environment. Zero and
    /// negative values are configuration errors, never clamped.
    pub fn new(max_tokens: i64, refill_rate_per_hour: i64, max_attempts: i64) -> (r: Result<
        LimiterConfig,
        ConfigError,
    >)
        ensures
            r == Self::checked(max_tokens as int, refill_rate_per_hour as int, max_attempts as int),
            r is Ok ==> r->Ok_0.valid(),
    {
        if max_tokens < 1 || max_tokens > u32::MAX as i64 {
            Err(ConfigError::MaxTokensOutOfRange)
        } else if refill_rate_per_hour < 1 || refill_rate_per_hour > u32::MAX as i64 {
            Err(ConfigError::RefillRateOutOfRange)
        } else if max_attempts < 1 || max_attempts > u32::MAX as i64 {
            Err(ConfigError::RetryBoundOutOfRange)
        } else {
            Ok(
                LimiterConfig {
                    max_tokens: max_tokens as u32,
                    refill_rate_per_hour: refill_rate_per_hour as u32,
                    max_attempts: max_attempts as u32,
                },
            )
        }
    }
}

impl Default for LimiterConfig {
    /// Ten tokens, one more per hour, three commit attempts.
    fn default() -> (c: LimiterConfig)
        ensures
            c == (LimiterConfig { max_tokens: 10, refill_rate_per_hour: 1, max_attempts: 3 }),
            c.valid(),
    {
        LimiterConfig { max_tokens: 10, refill_rate_per_hour: 1, max_attempts: 3 }
    }
}

} // verus!

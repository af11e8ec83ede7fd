//! The refill rule: how many tokens a bucket holds at a given instant, and
//! what it becomes when one of them is spent.

use vstd::prelude::*;
use crate::bucket::BucketState;
use crate::config::LimiterConfig;
use crate::time::{elapsed_hours, Timestamp};

verus! {

/// What the rule says of one request.
#[derive(Clone, Copy, Debug, PartialEq, Eq, Structural)]
pub struct Refill {
    /// Tokens in the bucket before this request takes one.
    pub available: i64,
    /// The record to persist if the request is let through; `None` when the
    /// bucket is empty, and then nothing may be written.
    pub new_state: Option<BucketState>,
}

/// The bucket that a request works on: the stored one, or a full one as of
/// `now` where the store holds none.
pub open spec fn effective(old: Option<BucketState>, now: Timestamp, cfg: LimiterConfig)
    -> BucketState {
    match old {
        Some(s) => s,
        None => BucketState::fresh_spec(cfg, now),
    }
}

/// Tokens in the bucket at `now`: the stored count plus the hourly refill
/// for every whole hour since the last admitted request, capped at a full
/// bucket.
pub open spec fn available_tokens(old: Option<BucketState>, now: Timestamp, cfg: LimiterConfig)
    -> int {
    let s = effective(old, now, cfg);
    let grown = s.tokens + elapsed_hours(s.last_refill, now) * cfg.refill_rate_per_hour;
    if grown < cfg.max_tokens {
        grown
    } else {
        cfg.max_tokens as int
    }
}

/// The record after one token is spent at `now`, where there is one to spend.
pub open spec fn consumed(old: Option<BucketState>, now: Timestamp, cfg: LimiterConfig)
    -> Option<BucketState> {
    let available = available_tokens(old, now, cfg);
    if available >= 1 {
        Some(BucketState { tokens: (available - 1) as i64, last_refill: now })
    } else {
        None
    }
}

/// Applies the refill rule to one request. Pure: the caller reads the old
/// record and writes the new one.
pub fn refill(old: Option<BucketState>, now: Timestamp, cfg: &LimiterConfig) -> (r: Refill)
    ensures
        r.available == available_tokens(old, now, *cfg),
        r.new_state == consumed(old, now, *cfg),
        r.new_state is Some <==> r.available >= 1,
        r.new_state matches Some(s) ==> 0 <= s.tokens < cfg.max_tokens && s.last_refill == now,
{
    let state = match old {
        Some(s) => s,
        None => BucketState::fresh(cfg, now),
    };
    let hours: i64 = now.hours_since(state.last_refill);
    let rate: i128 = cfg.refill_rate_per_hour as i128;
    assert(0 <= hours * rate <= 5_124_095 * 0xffff_ffff) by (nonlinear_arith)
        requires
            0 <= hours <= 5_124_095,
            0 <= rate <= 0xffff_ffff,
    ;
    let grown: i128 = state.tokens as i128 + hours as i128 * rate;
    let cap: i128 = cfg.max_tokens as i128;
    let available: i128 = if grown < cap {
        grown
    } else {
        cap
    };
    if available >= 1 {
        Refill {
            available: available as i64,
            new_state: Some(BucketState { tokens: (available - 1) as i64, last_refill: now }),
        }
    } else {
        Refill { available: available as i64, new_state: None }
    }
}

/// A client without a record is let through and leaves a bucket that lacks
/// exactly one token.
pub proof fn lemma_fresh_client_burst(now: Timestamp, cfg: LimiterConfig)
    requires
        cfg.valid(),
    ensures
        available_tokens(None, now, cfg) == cfg.max_tokens,
        consumed(None, now, cfg) == Some(
            BucketState { tokens: (cfg.max_tokens - 1) as i64, last_refill: now },
        ),
{
}

/// Every record that the rule hands out for writing holds between zero
/// tokens and one less than a full bucket, whatever was stored before.
pub proof fn lemma_written_tokens_in_range(
    old: Option<BucketState>,
    now: Timestamp,
    cfg: LimiterConfig,
)
    ensures
        consumed(old, now, cfg) matches Some(s) ==> 0 <= s.tokens < cfg.max_tokens && s.within(
            cfg,
        ) && s.last_refill == now,
{
}

/// While no whole hour has passed since the stored instant, a second look
/// at the same record finds the same number of tokens.
pub proof fn lemma_same_hour_same_tokens(
    s: BucketState,
    first: Timestamp,
    second: Timestamp,
    cfg: LimiterConfig,
)
    requires
        elapsed_hours(s.last_refill, first) == elapsed_hours(s.last_refill, second),
    ensures
        available_tokens(Some(s), first, cfg) == available_tokens(Some(s), second, cfg),
{
}

} // verus!

use leaky_bucket::bucket::BucketState;
use leaky_bucket::config::LimiterConfig;
use leaky_bucket::policy::{refill, Refill};
use leaky_bucket::time::{Timestamp, NANOS_PER_HOUR};

const NOON: i64 = 1_700_000_000_000_000_000;

fn settings() -> LimiterConfig {
    LimiterConfig::new(10, 1, 3).unwrap()
}

fn at(nanos: i64) -> Timestamp {
    Timestamp::from_nanos(nanos)
}

#[test]
fn absent_record_counts_as_a_full_bucket() {
    let now = at(NOON);
    let r = refill(None, now, &settings());
    assert_eq!(
        r,
        Refill { available: 10, new_state: Some(BucketState { tokens: 9, last_refill: now }) }
    );
}

#[test]
fn fresh_bucket_is_full_as_of_now() {
    let now = at(NOON);
    let s = BucketState::fresh(&settings(), now);
    assert_eq!(s, BucketState { tokens: 10, last_refill: now });
}

#[test]
fn empty_bucket_in_the_same_instant_is_rejected() {
    let now = at(NOON);
    let stored = BucketState { tokens: 0, last_refill: now };
    let r = refill(Some(stored), now, &settings());
    assert_eq!(r, Refill { available: 0, new_state: None });
}

#[test]
fn three_hours_refill_three_tokens() {
    let now = at(NOON);
    let stored = BucketState { tokens: 0, last_refill: at(NOON - 3 * NANOS_PER_HOUR) };
    let r = refill(Some(stored), now, &settings());
    assert_eq!(r.available, 3);
    assert_eq!(r.new_state, Some(BucketState { tokens: 2, last_refill: now }));
}

#[test]
fn less_than_an_hour_refills_nothing() {
    let now = at(NOON);
    let stored = BucketState { tokens: 0, last_refill: at(NOON - NANOS_PER_HOUR + 1) };
    let r = refill(Some(stored), now, &settings());
    assert_eq!(r, Refill { available: 0, new_state: None });
}

#[test]
fn exactly_one_hour_refills_one_token() {
    let now = at(NOON);
    let stored = BucketState { tokens: 0, last_refill: at(NOON - NANOS_PER_HOUR) };
    let r = refill(Some(stored), now, &settings());
    assert_eq!(r.available, 1);
    assert_eq!(r.new_state, Some(BucketState { tokens: 0, last_refill: now }));
}

#[test]
fn partial_hours_are_rounded_down() {
    let now = at(NOON);
    let stored = BucketState { tokens: 2, last_refill: at(NOON - 2 * NANOS_PER_HOUR - 1_000) };
    let r = refill(Some(stored), now, &settings());
    assert_eq!(r.available, 4);
    assert_eq!(r.new_state, Some(BucketState { tokens: 3, last_refill: now }));
}

#[test]
fn refill_rate_multiplies_the_hours() {
    let cfg = LimiterConfig::new(100, 7, 3).unwrap();
    let now = at(NOON);
    let stored = BucketState { tokens: 5, last_refill: at(NOON - 4 * NANOS_PER_HOUR) };
    let r = refill(Some(stored), now, &cfg);
    assert_eq!(r.available, 33);
    assert_eq!(r.new_state, Some(BucketState { tokens: 32, last_refill: now }));
}

#[test]
fn refill_is_capped_at_a_full_bucket() {
    let now = at(NOON);
    let stored = BucketState { tokens: 4, last_refill: at(NOON - 1000 * NANOS_PER_HOUR) };
    let r = refill(Some(stored), now, &settings());
    assert_eq!(r.available, 10);
    assert_eq!(r.new_state, Some(BucketState { tokens: 9, last_refill: now }));
}

#[test]
fn the_widest_gap_the_clock_can_show_is_tolerated() {
    let cfg = LimiterConfig::new(u32::MAX as i64, u32::MAX as i64, 3).unwrap();
    let now = at(i64::MAX);
    let stored = BucketState { tokens: i64::MAX, last_refill: at(i64::MIN) };
    let r = refill(Some(stored), now, &cfg);
    assert_eq!(r.available, u32::MAX as i64);
    assert_eq!(
        r.new_state,
        Some(BucketState { tokens: u32::MAX as i64 - 1, last_refill: now })
    );
}

#[test]
fn a_clock_that_ran_backwards_refills_nothing() {
    let now = at(NOON);
    let stored = BucketState { tokens: 0, last_refill: at(NOON + 5 * NANOS_PER_HOUR) };
    let r = refill(Some(stored), now, &settings());
    assert_eq!(r, Refill { available: 0, new_state: None });

    let stored = BucketState { tokens: 3, last_refill: at(NOON + 5 * NANOS_PER_HOUR) };
    let r = refill(Some(stored), now, &settings());
    assert_eq!(r.available, 3);
    assert_eq!(r.new_state, Some(BucketState { tokens: 2, last_refill: now }));
}

#[test]
fn a_stored_count_above_the_cap_is_cut_to_the_cap() {
    let now = at(NOON);
    let stored = BucketState { tokens: 50, last_refill: now };
    let r = refill(Some(stored), now, &settings());
    assert_eq!(r.available, 10);
    assert_eq!(r.new_state, Some(BucketState { tokens: 9, last_refill: now }));
}

#[test]
fn a_negative_stored_count_is_rejected_until_refilled() {
    let now = at(NOON);
    let stored = BucketState { tokens: -2, last_refill: at(NOON - 2 * NANOS_PER_HOUR) };
    let r = refill(Some(stored), now, &settings());
    assert_eq!(r, Refill { available: 0, new_state: None });

    let later = at(NOON + NANOS_PER_HOUR);
    let r = refill(Some(stored), later, &settings());
    assert_eq!(r.available, 1);
    assert_eq!(r.new_state, Some(BucketState { tokens: 0, last_refill: later }));
}

#[test]
fn written_tokens_stay_between_zero_and_the_cap() {
    let cfg = settings();
    for tokens in -3..15 {
        for hours in 0..15 {
            let now = at(NOON);
            let stored = BucketState { tokens, last_refill: at(NOON - hours * NANOS_PER_HOUR) };
            let r = refill(Some(stored), now, &cfg);
            assert!(r.available <= 10);
            match r.new_state {
                Some(s) => {
                    assert!(r.available >= 1);
                    assert!(0 <= s.tokens && s.tokens <= 9);
                    assert_eq!(s.tokens, r.available - 1);
                    assert_eq!(s.last_refill, now);
                }
                None => assert!(r.available < 1),
            }
        }
    }
}

#[test]
fn a_rejection_leaves_the_next_look_unchanged_within_the_hour() {
    let cfg = settings();
    let stamp = at(NOON);
    let stored = BucketState { tokens: 0, last_refill: stamp };
    let first = refill(Some(stored), at(NOON + 10), &cfg);
    assert_eq!(first.new_state, None);
    let second = refill(Some(stored), at(NOON + NANOS_PER_HOUR - 1), &cfg);
    assert_eq!(second.available, first.available);
    let third = refill(Some(stored), at(NOON + NANOS_PER_HOUR), &cfg);
    assert_eq!(third.available, 1);
}

#[test]
fn hours_since_counts_whole_hours() {
    let a = at(0);
    assert_eq!(at(0).hours_since(a), 0);
    assert_eq!(at(NANOS_PER_HOUR - 1).hours_since(a), 0);
    assert_eq!(at(NANOS_PER_HOUR).hours_since(a), 1);
    assert_eq!(at(25 * NANOS_PER_HOUR + 5).hours_since(a), 25);
    assert_eq!(at(-1).hours_since(a), 0);
    assert_eq!(at(i64::MAX).hours_since(at(i64::MIN)), 5_124_095);
    assert_eq!(at(i64::MIN).hours_since(at(i64::MAX)), 0);
    assert_eq!(at(77).as_nanos(), 77);
}

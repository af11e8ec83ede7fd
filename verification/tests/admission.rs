use leaky_bucket::bucket::BucketState;
use leaky_bucket::codec::encode;
use leaky_bucket::config::LimiterConfig;
use leaky_bucket::admission::{AdmissionGate, Entry, Rejection, StoreErrorPolicy, Verdict};
use leaky_bucket::key::generate_bucket_key;
use leaky_bucket::reply::StoreReply;
use leaky_bucket::time::Timestamp;
use leaky_bucket::transactor::{Action, Event, Outcome, Transactor};

const NOON: i64 = 1_700_000_000_000_000_000;

fn limiter() -> AdmissionGate {
    AdmissionGate::new(LimiterConfig::default(), StoreErrorPolicy::default())
}

/// Plays the answers of a store to one request and collects the commands
/// that were sent to it.
fn handle(
    gate: &AdmissionGate,
    identity: Option<&str>,
    answers: Vec<Event>,
    now: Timestamp,
) -> (Verdict, Vec<String>) {
    let mut sent: Vec<String> = Vec::new();
    let (key, mut machine) = match gate.enter(identity) {
        Entry::Rejected(rejection) => return (Verdict::Reject(rejection), sent),
        Entry::Attempt { key, transactor } => (key, transactor),
    };
    let mut answers = answers.into_iter();
    let mut action = machine.pending();
    loop {
        match &action {
            Action::Watch => sent.push(format!("WATCH {}", key)),
            Action::Read => sent.push(format!("GET {}", key)),
            Action::Commit(bytes) => {
                sent.push(String::from("MULTI"));
                sent.push(format!("SET {} {}", key, String::from_utf8(bytes.clone()).unwrap()));
                sent.push(String::from("EXEC"));
            }
            Action::Unwatch => sent.push(String::from("UNWATCH")),
            Action::Finish(outcome) => return (gate.conclude(*outcome), sent),
        }
        let event = answers.next().unwrap_or(Event::Failed);
        action = machine.step(&event, now).action;
    }
}

#[test]
fn test_rate_limiter_allows_request() {
    let now = Timestamp::from_nanos(NOON);
    let key = generate_bucket_key("127.0.0.1");
    let answers = vec![
        Event::Reply(StoreReply::Okay),
        Event::Reply(StoreReply::Nil),
        Event::Reply(StoreReply::Array(vec![StoreReply::Okay])),
    ];
    let (verdict, sent) = handle(&limiter(), Some("127.0.0.1"), answers, now);
    assert_eq!(verdict, Verdict::Forward);
    assert_eq!(
        sent,
        vec![
            format!("WATCH {}", key),
            format!("GET {}", key),
            String::from("MULTI"),
            format!("SET {} {{\"tokens\":9,\"last_refill\":1700000000000000000}}", key),
            String::from("EXEC"),
        ]
    );
}

#[test]
fn test_rate_limiter_denies_request() {
    let now = Timestamp::from_nanos(NOON);
    let key = generate_bucket_key("127.0.0.1");
    let starting = BucketState { tokens: 0, last_refill: now };
    let answers = vec![
        Event::Reply(StoreReply::Okay),
        Event::Reply(StoreReply::Bulk(encode(&starting))),
        Event::Reply(StoreReply::Okay),
    ];
    let (verdict, sent) = handle(&limiter(), Some("127.0.0.1"), answers, now);
    assert_eq!(verdict, Verdict::Reject(Rejection::RateLimited));
    assert_eq!(Rejection::RateLimited.status_code(), 429);
    assert_eq!(
        sent,
        vec![format!("WATCH {}", key), format!("GET {}", key), String::from("UNWATCH")]
    );
}

#[test]
fn a_request_without_identity_is_unauthenticated_and_touches_no_store() {
    let (verdict, sent) = handle(&limiter(), None, Vec::new(), Timestamp::from_nanos(NOON));
    assert_eq!(verdict, Verdict::Reject(Rejection::Unauthenticated));
    assert!(sent.is_empty());
    assert_eq!(limiter().enter(None), Entry::Rejected(Rejection::Unauthenticated));
}

#[test]
fn a_request_with_identity_gets_its_key_and_a_new_attempt() {
    let gate = limiter();
    assert_eq!(
        gate.enter(Some("127.0.0.1")),
        Entry::Attempt {
            key: String::from(
                "bucket:12ca17b49af2289436f303e0166030a21e525d266e209267433801a8fd4071a0"
            ),
            transactor: Transactor::new(LimiterConfig::default()),
        }
    );
    assert!(matches!(gate.enter(Some("")), Entry::Attempt { .. }));
}

#[test]
fn the_attempt_runs_under_the_settings_it_was_made_with() {
    let cfg = LimiterConfig::new(2, 5, 4).unwrap();
    let gate = AdmissionGate::new(cfg, StoreErrorPolicy::FailOpen);
    assert_eq!(gate.cfg, cfg);
    assert_eq!(gate.on_store_error, StoreErrorPolicy::FailOpen);
    match gate.enter(Some("x")) {
        Entry::Attempt { transactor, .. } => assert_eq!(transactor.cfg, cfg),
        Entry::Rejected(_) => panic!("an identity was given"),
    }
}

#[test]
fn outcomes_map_to_verdicts() {
    let gate = limiter();
    let left = BucketState { tokens: 9, last_refill: Timestamp::from_nanos(NOON) };
    assert_eq!(gate.conclude(Outcome::Admitted(left)), Verdict::Forward);
    assert_eq!(gate.conclude(Outcome::Denied), Verdict::Reject(Rejection::RateLimited));
    assert_eq!(gate.conclude(Outcome::StoreError), Verdict::Reject(Rejection::StoreUnavailable));
}

#[test]
fn store_errors_fail_closed_unless_told_otherwise() {
    assert_eq!(StoreErrorPolicy::default(), StoreErrorPolicy::FailClosed);
    let open = AdmissionGate::new(LimiterConfig::default(), StoreErrorPolicy::FailOpen);
    assert_eq!(open.conclude(Outcome::StoreError), Verdict::Forward);
    assert_eq!(open.conclude(Outcome::Denied), Verdict::Reject(Rejection::RateLimited));
}

#[test]
fn a_store_that_stops_answering_rejects_the_request() {
    let now = Timestamp::from_nanos(NOON);
    let answers = vec![Event::Reply(StoreReply::Okay), Event::TimedOut];
    let (verdict, _) = handle(&limiter(), Some("127.0.0.1"), answers, now);
    assert_eq!(verdict, Verdict::Reject(Rejection::StoreUnavailable));
}

#[test]
fn rejections_have_their_status_codes() {
    assert_eq!(Rejection::Unauthenticated.status_code(), 401);
    assert_eq!(Rejection::RateLimited.status_code(), 429);
    assert_eq!(Rejection::StoreUnavailable.status_code(), 503);
}

//! Admission in front of the downstream handler: who may try, and what the
//! end of an attempt means for the request.

use vstd::prelude::*;
use crate::config::LimiterConfig;
use crate::key::{bucket_key, generate_bucket_key};
use crate::transactor::{Outcome, Transactor};

verus! {

/// What to do with a request when the store cannot be asked.
#[derive(Clone, Copy, Debug, PartialEq, Eq, Structural)]
pub enum StoreErrorPolicy {
    /// Turn the request away. No outage of the store lets traffic through
    /// unmetered.
    FailClosed,
    /// Let the request through unmetered.
    FailOpen,
}

impl Default for StoreErrorPolicy {
    /// Fail closed.
    fn default() -> (p: StoreErrorPolicy)
        ensures
            p == StoreErrorPolicy::FailClosed,
    {
        StoreErrorPolicy::FailClosed
    }
}

/// Why a request does not reach the downstream handler.
#[derive(Clone, Copy, Debug, PartialEq, Eq, Structural)]
pub enum Rejection {
    /// The request names no client.
    Unauthenticated,
    /// The client's bucket is empty.
    RateLimited,
    /// The store failed and the policy is to fail closed.
    StoreUnavailable,
}

/// What is decided for a request.
#[derive(Clone, Copy, Debug, PartialEq, Eq, Structural)]
pub enum Verdict {
    /// Hand the request to the downstream handler and return its response
    /// unchanged.
    Forward,
    /// Answer with a rejection; the downstream handler is not called.
    Reject(Rejection),
}

/// The HTTP status that stands for a rejection.
pub open spec fn status_code_spec(rejection: Rejection) -> u16 {
    match rejection {
        Rejection::Unauthenticated => 401,
        Rejection::RateLimited => 429,
        Rejection::StoreUnavailable => 503,
    }
}

/// The verdict on an attempt that ended with `outcome`.
pub open spec fn verdict_spec(outcome: Outcome, on_store_error: StoreErrorPolicy) -> Verdict {
    match outcome {
        Outcome::Admitted(_) => Verdict::Forward,
        Outcome::Denied => Verdict::Reject(Rejection::RateLimited),
        Outcome::StoreError => match on_store_error {
            StoreErrorPolicy::FailClosed => Verdict::Reject(Rejection::StoreUnavailable),
            StoreErrorPolicy::FailOpen => Verdict::Forward,
        },
    }
}

impl Rejection {
    /// 401 for a request without identity, 429 for an empty bucket, 503 for
    /// a store that failed.
    pub fn status_code(&self) -> (code: u16)
        ensures
            code == status_code_spec(*self),
    {
        match self {
            Rejection::Unauthenticated => 401,
            Rejection::RateLimited => 429,
            Rejection::StoreUnavailable => 503,
        }
    }
}

/// How a request is received.
#[derive(Debug, PartialEq, Eq)]
pub enum Entry {
    /// It is turned away at once; the store is not touched.
    Rejected(Rejection),
    /// It may try for a token: the key of its bucket, and the attempt to
    /// run against the store.
    Attempt { key: String, transactor: Transactor },
}

/// Admission control under fixed settings.
#[derive(Clone, Copy, Debug, PartialEq, Eq, Structural)]
pub struct AdmissionGate {
    pub cfg: LimiterConfig,
    pub on_store_error: StoreErrorPolicy,
}

impl AdmissionGate {
    /// Admission under `cfg`, with `on_store_error` deciding what a failed
    /// store means for a request.
    pub fn new(cfg: LimiterConfig, on_store_error: StoreErrorPolicy) -> (gate: AdmissionGate)
        ensures
            gate.cfg == cfg,
            gate.on_store_error == on_store_error,
    {
        AdmissionGate { cfg, on_store_error }
    }

    /// Receives a request with the identity that the caller found on it. A
    /// request without one is `Unauthenticated`; any other gets the key of
    /// its client's bucket and a new attempt.
    pub fn enter(&self, identity: Option<&str>) -> (entry: Entry)
        ensures
            match identity {
                None => entry == Entry::Rejected(Rejection::Unauthenticated),
                Some(id) => entry matches Entry::Attempt { key, transactor } && key@ == bucket_key(
                    id@,
                ) && transactor == Transactor::initial(self.cfg),
            },
    {
        match identity {
            None => Entry::Rejected(Rejection::Unauthenticated),
            Some(id) => Entry::Attempt {
                key: generate_bucket_key(id),
                transactor: Transactor::new(self.cfg),
            },
        }
    }

    /// Turns the end of an attempt into the verdict on the request: an
    /// admitted request goes on, a denied one is rate limited, and a store
    /// error is settled by the policy chosen at start.
    pub fn conclude(&self, outcome: Outcome) -> (verdict: Verdict)
        ensures
            verdict == verdict_spec(outcome, self.on_store_error),
    {
        match outcome {
            Outcome::Admitted(_) => Verdict::Forward,
            Outcome::Denied => Verdict::Reject(Rejection::RateLimited),
            Outcome::StoreError => match self.on_store_error {
                StoreErrorPolicy::FailClosed => Verdict::Reject(Rejection::StoreUnavailable),
                StoreErrorPolicy::FailOpen => Verdict::Forward,
            },
        }
    }
}

} // verus!

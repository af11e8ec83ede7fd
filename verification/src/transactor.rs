//! One admission attempt against the store, as a state machine.
//!
//! The store offers no compare-and-swap on a record, so an attempt watches
//! the key, reads it, computes the new bucket and asks the store to write it
//! only if the key is still as it was read. The machine holds the decisions:
//! it says which command comes next, the caller sends it and reports what
//! came back.

use vstd::prelude::*;
use crate::bucket::BucketState;
use crate::codec::{encode, encode_spec, DecodeError};
use crate::config::LimiterConfig;
use crate::policy::{consumed, refill};
use crate::reply::{interpret, reading_of, Reading, StoreReply};
use crate::time::Timestamp;

verus! {

/// How an attempt ended.
#[derive(Clone, Copy, Debug, PartialEq, Eq, Structural)]
pub enum Outcome {
    /// A token was spent and the new bucket is in the store.
    Admitted(BucketState),
    /// No token was there to spend, or other requests of the same client
    /// won every commit that this one tried.
    Denied,
    /// The store could not be reached, timed out, or answered out of turn.
    StoreError,
}

/// Where an attempt stands: which answer it is waiting for.
#[derive(Clone, Copy, Debug, PartialEq, Eq, Structural)]
pub enum Phase {
    /// The watch on the key has been asked for.
    AwaitWatch,
    /// The key is watched and its value has been asked for.
    AwaitValue,
    /// The write of this bucket has been handed in, on condition that the
    /// key is unchanged since the watch.
    AwaitCommit(BucketState),
    /// The bucket was empty; the watch is being given up, nothing written.
    AwaitRelease,
    /// The attempt is over.
    Done(Outcome),
}

/// What the caller has to do next.
#[derive(Debug, PartialEq, Eq)]
pub enum Action {
    /// Watch the key.
    Watch,
    /// Read the key.
    Read,
    /// In one transaction, set the key to these bytes; the store applies it
    /// only if the key has not changed since it was watched.
    Commit(Vec<u8>),
    /// Give up the watch without writing.
    Unwatch,
    /// Stop: the attempt has ended this way.
    Finish(Outcome),
}

/// An `Action` as contracts see it.
pub enum ActionView {
    Watch,
    Read,
    Commit(Seq<u8>),
    Unwatch,
    Finish(Outcome),
}

impl View for Action {
    type V = ActionView;

    open spec fn view(&self) -> ActionView {
        match *self {
            Action::Watch => ActionView::Watch,
            Action::Read => ActionView::Read,
            Action::Commit(bytes) => ActionView::Commit(bytes@),
            Action::Unwatch => ActionView::Unwatch,
            Action::Finish(outcome) => ActionView::Finish(outcome),
        }
    }
}

/// What came back from the store after the last action.
#[derive(Debug, PartialEq, Eq)]
pub enum Event {
    /// The store answered.
    Reply(StoreReply),
    /// The command or its answer was lost on the way.
    Failed,
    /// The attempt ran out of time.
    TimedOut,
}

/// An event with its answer already read.
#[derive(Clone, Copy, Debug, PartialEq, Eq, Structural)]
pub enum Input {
    Reply(Reading),
    Failed,
    TimedOut,
}

/// The input that an event amounts to.
pub open spec fn input_of(event: Event) -> Input {
    match event {
        Event::Reply(reply) => Input::Reply(reading_of(reply)),
        Event::Failed => Input::Failed,
        Event::TimedOut => Input::TimedOut,
    }
}

/// The bucket that an answer to a read stands for: `Some(None)` where the
/// client has no usable record (none at all, or a corrupt one), and `None`
/// where the answer is no answer to a read.
pub open spec fn bucket_read(reading: Reading) -> Option<Option<BucketState>> {
    match reading {
        Reading::Nil => Some(None),
        Reading::Corrupt => Some(None),
        Reading::Record(s) => Some(Some(s)),
        Reading::Okay => None,
        Reading::Unexpected => None,
    }
}

/// One attempt. It starts by asking for the watch.
#[derive(Clone, Copy, Debug, PartialEq, Eq, Structural)]
pub struct Transactor {
    pub cfg: LimiterConfig,
    pub phase: Phase,
    /// The number of the current watch-read-commit cycle, from 1.
    pub attempt: u32,
}

/// What `step` hands back.
#[derive(Debug, PartialEq, Eq)]
pub struct Reaction {
    /// The next thing to do.
    pub action: Action,
    /// Set when the record just read was corrupt. The attempt goes on as if
    /// the client had no record; the caller should report the anomaly.
    pub anomaly: Option<DecodeError>,
}

impl Transactor {
    /// A new attempt: first cycle, the watch asked for.
    pub open spec fn initial(cfg: LimiterConfig) -> Transactor {
        Transactor { cfg, phase: Phase::AwaitWatch, attempt: 1 }
    }

    /// The same attempt in another phase.
    pub open spec fn moved(self, phase: Phase) -> Transactor {
        Transactor { phase, ..self }
    }

    /// The same attempt, over.
    pub open spec fn ended(self, outcome: Outcome) -> Transactor {
        Transactor { phase: Phase::Done(outcome), ..self }
    }

    /// After a commit that the store turned down because the key had
    /// changed: start over while attempts are left, else give up and deny.
    pub open spec fn after_conflict(self) -> Transactor {
        if self.attempt < self.cfg.max_attempts {
            Transactor { phase: Phase::AwaitWatch, attempt: (self.attempt + 1) as u32, ..self }
        } else {
            self.ended(Outcome::Denied)
        }
    }

    /// After the value of the watched key came in at `now`: write the
    /// bucket less one token if it holds one, else release the watch.
    pub open spec fn after_read(self, old: Option<BucketState>, now: Timestamp) -> Transactor {
        match consumed(old, now, self.cfg) {
            Some(s) => self.moved(Phase::AwaitCommit(s)),
            None => self.moved(Phase::AwaitRelease),
        }
    }

    /// The machine after `input` arrived at `now`.
    pub open spec fn step_spec(self, input: Input, now: Timestamp) -> Transactor {
        match (self.phase, input) {
            (Phase::Done(_), _) => self,
            (_, Input::Failed) => self.ended(Outcome::StoreError),
            (_, Input::TimedOut) => self.ended(Outcome::StoreError),
            (Phase::AwaitWatch, Input::Reply(reading)) => match reading {
                Reading::Okay => self.moved(Phase::AwaitValue),
                _ => self.ended(Outcome::StoreError),
            },
            (Phase::AwaitValue, Input::Reply(reading)) => match bucket_read(reading) {
                Some(old) => self.after_read(old, now),
                None => self.ended(Outcome::StoreError),
            },
            (Phase::AwaitCommit(s), Input::Reply(reading)) => match reading {
                Reading::Okay => self.ended(Outcome::Admitted(s)),
                Reading::Nil => self.after_conflict(),
                _ => self.ended(Outcome::StoreError),
            },
            (Phase::AwaitRelease, Input::Reply(reading)) => match reading {
                Reading::Okay => self.ended(Outcome::Denied),
                _ => self.ended(Outcome::StoreError),
            },
        }
    }

    /// The action that the machine is waiting on.
    pub open spec fn pending_spec(self) -> ActionView {
        match self.phase {
            Phase::AwaitWatch => ActionView::Watch,
            Phase::AwaitValue => ActionView::Read,
            Phase::AwaitCommit(s) => ActionView::Commit(encode_spec(s)),
            Phase::AwaitRelease => ActionView::Unwatch,
            Phase::Done(outcome) => ActionView::Finish(outcome),
        }
    }

    /// Whether `input` makes the machine report a corrupt record.
    pub open spec fn anomaly_spec(self, input: Input) -> Option<DecodeError> {
        if self.phase == Phase::AwaitValue && input == Input::Reply(Reading::Corrupt) {
            Some(DecodeError::CorruptState)
        } else {
            None
        }
    }

    /// The most answers that the attempt can still take in before it is
    /// over: three per cycle that may yet start, and those of the cycle
    /// under way.
    pub open spec fn steps_left(self) -> nat {
        let later_cycles: nat = if self.attempt < self.cfg.max_attempts {
            (self.cfg.max_attempts - self.attempt) as nat
        } else {
            0
        };
        match self.phase {
            Phase::AwaitWatch => 3 * later_cycles + 3,
            Phase::AwaitValue => 3 * later_cycles + 2,
            Phase::AwaitCommit(_) => 3 * later_cycles + 1,
            Phase::AwaitRelease => 1,
            Phase::Done(_) => 0,
        }
    }

    /// The outcome, once there is one.
    pub open spec fn outcome_spec(self) -> Option<Outcome> {
        match self.phase {
            Phase::Done(outcome) => Some(outcome),
            _ => None,
        }
    }

    /// A new attempt under these settings.
    pub fn new(cfg: LimiterConfig) -> (m: Transactor)
        ensures
            m == Self::initial(cfg),
    {
        Transactor { cfg, phase: Phase::AwaitWatch, attempt: 1 }
    }

    /// The action to perform now. The first one is `Watch`.
    pub fn pending(&self) -> (action: Action)
        ensures
            action@ == self.pending_spec(),
    {
        match self.phase {
            Phase::AwaitWatch => Action::Watch,
            Phase::AwaitValue => Action::Read,
            Phase::AwaitCommit(s) => Action::Commit(encode(&s)),
            Phase::AwaitRelease => Action::Unwatch,
            Phase::Done(outcome) => Action::Finish(outcome),
        }
    }

    /// How the attempt ended, or `None` while it is under way.
    pub fn outcome(&self) -> (o: Option<Outcome>)
        ensures
            o == self.outcome_spec(),
    {
        match self.phase {
            Phase::Done(outcome) => Some(outcome),
            _ => None,
        }
    }

    /// Takes in an input that the caller has read already; `now` is the
    /// caller's clock when it arrived.
    pub fn advance(&mut self, input: Input, now: Timestamp) -> (r: Reaction)
        ensures
            *final(self) == old(self).step_spec(input, now),
            r.action@ == final(self).pending_spec(),
            r.anomaly == old(self).anomaly_spec(input),
    {
        let mut anomaly: Option<DecodeError> = None;
        match self.phase {
            Phase::Done(_) => {},
            _ => match input {
                Input::Failed => {
                    self.phase = Phase::Done(Outcome::StoreError);
                },
                Input::TimedOut => {
                    self.phase = Phase::Done(Outcome::StoreError);
                },
                Input::Reply(reading) => match self.phase {
                    Phase::AwaitWatch => match reading {
                        Reading::Okay => {
                            self.phase = Phase::AwaitValue;
                        },
                        _ => {
                            self.phase = Phase::Done(Outcome::StoreError);
                        },
                    },
                    Phase::AwaitValue => {
                        let read: Option<Option<BucketState>> = match reading {
                            Reading::Nil => Some(None),
                            Reading::Corrupt => {
                                anomaly = Some(DecodeError::CorruptState);
                                Some(None)
                            },
                            Reading::Record(s) => Some(Some(s)),
                            _ => None,
                        };
                        match read {
                            Some(old_bucket) => match refill(old_bucket, now, &self.cfg).new_state {
                                Some(s) => {
                                    self.phase = Phase::AwaitCommit(s);
                                },
                                None => {
                                    self.phase = Phase::AwaitRelease;
                                },
                            },
                            None => {
                                self.phase = Phase::Done(Outcome::StoreError);
                            },
                        }
                    },
                    Phase::AwaitCommit(s) => match reading {
                        Reading::Okay => {
                            self.phase = Phase::Done(Outcome::Admitted(s));
                        },
                        Reading::Nil => {
                            if self.attempt < self.cfg.max_attempts {
                                self.attempt = self.attempt + 1;
                                self.phase = Phase::AwaitWatch;
                            } else {
                                self.phase = Phase::Done(Outcome::Denied);
                            }
                        },
                        _ => {
                            self.phase = Phase::Done(Outcome::StoreError);
                        },
                    },
                    Phase::AwaitRelease => match reading {
                        Reading::Okay => {
                            self.phase = Phase::Done(Outcome::Denied);
                        },
                        _ => {
                            self.phase = Phase::Done(Outcome::StoreError);
                        },
                    },
                    Phase::Done(_) => {},
                },
            },
        }
        Reaction { action: self.pending(), anomaly }
    }

    /// Takes in what came back from the store for the pending action and
    /// answers with the next action. `now` is the caller's clock at that
    /// moment; the refill is computed from it when the value of the key
    /// comes in, so every retry works with a fresh reading.
    pub fn step(&mut self, event: &Event, now: Timestamp) -> (r: Reaction)
        ensures
            *final(self) == old(self).step_spec(input_of(*event), now),
            r.action@ == final(self).pending_spec(),
            r.anomaly == old(self).anomaly_spec(input_of(*event)),
    {
        let input = match event {
            Event::Reply(reply) => Input::Reply(interpret(reply)),
            Event::Failed => Input::Failed,
            Event::TimedOut => Input::TimedOut,
        };
        self.advance(input, now)
    }
}


/// Retries are bounded. Whatever comes back from the store, every answer
/// brings an attempt closer to its end, and a new attempt is over after at
/// most three answers per permitted cycle: contention cannot keep it going.
pub proof fn law_attempt_ends(m: Transactor, input: Input, now: Timestamp)
    ensures
        !(m.phase is Done) ==> m.step_spec(input, now).steps_left() < m.steps_left(),
        m.phase is Done ==> m.step_spec(input, now) == m,
        m.steps_left() == 0 <==> m.phase is Done,
        m.cfg.valid() ==> Transactor::initial(m.cfg).steps_left() == 3 * m.cfg.max_attempts,
{
}

/// A commit that is turned down on the last permitted cycle ends the
/// attempt as `Denied`; on an earlier cycle it starts the next one.
pub proof fn law_conflict_retries_up_to_the_bound(m: Transactor, s: BucketState, now: Timestamp)
    requires
        m.phase == Phase::AwaitCommit(s),
    ensures
        ({
            let next = m.step_spec(Input::Reply(Reading::Nil), now);
            if m.attempt < m.cfg.max_attempts {
                next.phase == Phase::AwaitWatch && next.attempt == m.attempt + 1
            } else {
                next.phase == Phase::Done(Outcome::Denied)
            }
        }),
{
}

/// An empty bucket is never written back: when the value that comes in
/// leaves no token to spend, the next command gives up the watch, and the
/// answer to that ends the attempt as `Denied`.
pub proof fn law_rejection_writes_nothing(m: Transactor, reading: Reading, now: Timestamp)
    requires
        m.phase == Phase::AwaitValue,
        bucket_read(reading) matches Some(old) && consumed(old, now, m.cfg) is None,
    ensures
        m.step_spec(Input::Reply(reading), now).pending_spec() == ActionView::Unwatch,
        m.step_spec(Input::Reply(reading), now).step_spec(Input::Reply(Reading::Okay), now).phase
            == Phase::Done(Outcome::Denied),
{
}

} // verus!

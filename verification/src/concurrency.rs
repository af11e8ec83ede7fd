//! Many attempts at once on one key: a model of the store and of every way
//! in which the attempts can interleave, and what holds of all of them.
//!
//! The store keeps a version of the key. A watch remembers the version; a
//! commit is applied only while the version is still the one remembered,
//! and applying it makes a new version. Each attempt runs the transitions
//! of `Transactor`. A schedule picks, tick by tick, the attempt whose
//! pending command the store serves next, the reading of the clock that
//! goes with it, and whether the command or its answer is lost.

use vstd::prelude::*;
use crate::bucket::BucketState;
use crate::codec::{decode_spec, encode_spec, lemma_round_trip};
use crate::config::LimiterConfig;
use crate::policy::{available_tokens, consumed};
use crate::reply::Reading;
use crate::time::{
    elapsed_hours, lemma_elapsed_hours_monotone, lemma_elapsed_hours_split, Timestamp,
};
use crate::transactor::{ActionView, Input, Outcome, Phase, Transactor};

verus! {

/// One attempt and what the store knows of its connection.
pub struct Client {
    pub machine: Transactor,
    /// The version of the key that the connection's watch remembers, while
    /// a watch is set.
    pub watch: Option<nat>,
    /// Whether the store has applied a commit of this attempt.
    pub wrote: bool,
}

/// The key in the store, and the attempts on it.
pub struct World {
    /// The bytes under the key, if any.
    pub stored: Option<Seq<u8>>,
    /// Grows with every write to the key.
    pub version: nat,
    /// How many commits the store has applied.
    pub commits: nat,
    pub clients: Seq<Client>,
}

/// What goes wrong between an attempt and the store on one tick.
pub enum Fault {
    /// Nothing.
    Delivered,
    /// The command never reaches the store.
    RequestLost,
    /// The store carries the command out, the answer never arrives.
    ReplyLost,
}

/// One step of a schedule.
pub struct Tick {
    /// The attempt that is served.
    pub client: int,
    /// The clock as that attempt reads it.
    pub now: Timestamp,
    pub fault: Fault,
}

/// The bucket that the stored bytes stand for, if they stand for one.
pub open spec fn bucket_in(stored: Option<Seq<u8>>) -> Option<BucketState> {
    match stored {
        Some(bytes) => decode_spec(bytes),
        None => None,
    }
}

/// The store's answer to a read.
pub open spec fn reading_from(stored: Option<Seq<u8>>) -> Reading {
    match stored {
        None => Reading::Nil,
        Some(bytes) => match decode_spec(bytes) {
            Some(s) => Reading::Record(s),
            None => Reading::Corrupt,
        },
    }
}

impl World {
    /// The same world with attempt `i` replaced.
    pub open spec fn with_client(self, i: int, c: Client) -> World {
        World { clients: self.clients.update(i, c), ..self }
    }
}

/// The store serves the pending command of attempt `i`: the world after it,
/// and the answer. A commit is applied if the connection holds no watch or
/// the key still has the watched version; either way the watch is gone
/// afterwards.
pub open spec fn served(w: World, i: int) -> (World, Reading) {
    let c = w.clients[i];
    match c.machine.pending_spec() {
        ActionView::Watch => (
            w.with_client(i, Client { watch: Some(w.version), ..c }),
            Reading::Okay,
        ),
        ActionView::Read => (w, reading_from(w.stored)),
        ActionView::Commit(bytes) => if c.watch is None || c.watch == Some(w.version) {
            (
                World {
                    stored: Some(bytes),
                    version: w.version + 1,
                    commits: w.commits + 1,
                    clients: w.clients.update(i, Client { watch: None, wrote: true, ..c }),
                },
                Reading::Okay,
            )
        } else {
            (w.with_client(i, Client { watch: None, ..c }), Reading::Nil)
        },
        ActionView::Unwatch => (w.with_client(i, Client { watch: None, ..c }), Reading::Okay),
        ActionView::Finish(_) => (w, Reading::Unexpected),
    }
}

/// One tick: the chosen attempt, unless it is over, has its pending command
/// served and takes in what comes back.
pub open spec fn world_step(w: World, t: Tick) -> World {
    if 0 <= t.client < w.clients.len() && !(w.clients[t.client].machine.phase is Done) {
        let after = match t.fault {
            Fault::RequestLost => w,
            _ => served(w, t.client).0,
        };
        let input = match t.fault {
            Fault::Delivered => Input::Reply(served(w, t.client).1),
            _ => Input::Failed,
        };
        let c = after.clients[t.client];
        after.with_client(t.client, Client { machine: c.machine.step_spec(input, t.now), ..c })
    } else {
        w
    }
}

/// The world after a whole schedule.
pub open spec fn run(w: World, ticks: Seq<Tick>) -> World
    decreases ticks.len(),
{
    if ticks.len() == 0 {
        w
    } else {
        world_step(run(w, ticks.drop_last()), ticks.last())
    }
}

/// The clock never runs backwards along the schedule, and never shows less
/// than `from`.
pub open spec fn in_order(ticks: Seq<Tick>, from: Timestamp) -> bool {
    &&& forall|i: int| 0 <= i < ticks.len() ==> from.nanos <= (#[trigger] ticks[i]).now.nanos
    &&& forall|i: int, j: int|
        0 <= i <= j < ticks.len() ==> (#[trigger] ticks[i]).now.nanos <= (
        #[trigger] ticks[j]).now.nanos
}

/// The last reading of the clock in the schedule.
pub open spec fn clock_after(ticks: Seq<Tick>, from: Timestamp) -> Timestamp {
    if ticks.len() == 0 {
        from
    } else {
        ticks.last().now
    }
}

/// All attempts are new, under the same settings, and nothing has been
/// committed yet.
pub open spec fn starting(w: World, cfg: LimiterConfig) -> bool {
    &&& w.commits == 0
    &&& forall|i: int|
        0 <= i < w.clients.len() ==> (#[trigger] w.clients[i]) == (Client {
            machine: Transactor::initial(cfg),
            watch: None,
            wrote: false,
        })
}

/// Whether the attempt has ended `Admitted`.
pub open spec fn is_admitted(c: Client) -> bool {
    c.machine.phase matches Phase::Done(Outcome::Admitted(_))
}

/// How many of the attempts have ended `Admitted`.
pub open spec fn admitted_count(clients: Seq<Client>) -> nat
    decreases clients.len(),
{
    if clients.len() == 0 {
        0
    } else {
        admitted_count(clients.drop_last()) + if is_admitted(clients.last()) {
            1nat
        } else {
            0nat
        }
    }
}

proof fn lemma_admitted_count_update(clients: Seq<Client>, i: int, c: Client)
    requires
        0 <= i < clients.len(),
    ensures
        admitted_count(clients.update(i, c)) + (if is_admitted(clients[i]) {
            1int
        } else {
            0int
        }) == admitted_count(clients) + (if is_admitted(c) {
            1int
        } else {
            0int
        }),
    decreases clients.len(),
{
    let updated = clients.update(i, c);
    if i == clients.len() - 1 {
        assert(updated.drop_last() =~= clients.drop_last());
    } else {
        lemma_admitted_count_update(clients.drop_last(), i, c);
        assert(updated.drop_last() =~= clients.drop_last().update(i, c));
    }
}

/// What holds of one attempt however the clock behaves. Its watch is no
/// newer than the key. Until a commit of its own is applied it has written
/// nothing, and once one is applied it is over. The bucket it has handed in
/// is within range, and while its watch is still good, that bucket is the
/// stored one, refilled up to the new stamp, less one token.
spec fn attempt_ok(w: World, c: Client, cfg: LimiterConfig) -> bool {
    &&& c.machine.cfg == cfg
    &&& (c.watch matches Some(v) ==> v <= w.version)
    &&& match c.machine.phase {
        Phase::AwaitWatch => !c.wrote,
        Phase::AwaitValue => !c.wrote && c.watch is Some,
        Phase::AwaitCommit(s) => {
            &&& !c.wrote
            &&& c.watch is Some
            &&& 0 <= s.tokens < cfg.max_tokens
            &&& (c.watch == Some(w.version) ==> consumed(bucket_in(w.stored), s.last_refill, cfg)
                == Some(s))
        },
        Phase::AwaitRelease => !c.wrote,
        Phase::Done(Outcome::Denied) => !c.wrote,
        Phase::Done(_) => true,
    }
}

/// What holds of every world that attempts can lead to: each attempt is in
/// order, and the store holds what it held at the start or a bucket within
/// range.
spec fn attempts_ok(w: World, cfg: LimiterConfig, initial: Option<Seq<u8>>) -> bool {
    &&& forall|i: int| 0 <= i < w.clients.len() ==> attempt_ok(w, #[trigger] w.clients[i], cfg)
    &&& (w.stored == initial || (bucket_in(w.stored) matches Some(s) && 0 <= s.tokens
        < cfg.max_tokens))
}

/// Whether the tick makes the store apply a commit.
pub open spec fn commit_applied(w: World, t: Tick) -> bool {
    world_step(w, t).commits > w.commits
}

proof fn lemma_step_keeps_attempts_ok(
    w: World,
    t: Tick,
    cfg: LimiterConfig,
    initial: Option<Seq<u8>>,
)
    requires
        attempts_ok(w, cfg, initial),
    ensures
        attempts_ok(world_step(w, t), cfg, initial),
        world_step(w, t).clients.len() == w.clients.len(),
        world_step(w, t).version >= w.version,
        commit_applied(w, t) ==> {
            &&& 0 <= t.client < w.clients.len()
            &&& w.clients[t.client].machine.phase matches Phase::AwaitCommit(s)
            &&& consumed(bucket_in(w.stored), s.last_refill, cfg) == Some(s)
            &&& world_step(w, t).stored == Some(encode_spec(s))
            &&& bucket_in(world_step(w, t).stored) == Some(s)
            &&& world_step(w, t).commits == w.commits + 1
        },
        !commit_applied(w, t) ==> {
            &&& world_step(w, t).stored == w.stored
            &&& world_step(w, t).commits == w.commits
            &&& world_step(w, t).version == w.version
        },
{
    let w2 = world_step(w, t);
    let i = t.client;
    if 0 <= i < w.clients.len() && !(w.clients[i].machine.phase is Done) {
        let c = w.clients[i];
        assert(attempt_ok(w, c, cfg));
        let c2 = w2.clients[i];
        assert(w2.clients =~= w.clients.update(i, c2));
        if c.machine.phase is AwaitCommit {
            lemma_round_trip(c.machine.phase->AwaitCommit_0);
        }
        assert(attempt_ok(w2, c2, cfg));
        assert forall|j: int| 0 <= j < w2.clients.len() implies attempt_ok(
            w2,
            #[trigger] w2.clients[j],
            cfg,
        ) by {
            if j != i {
                assert(w2.clients[j] == w.clients[j]);
                assert(attempt_ok(w, w.clients[j], cfg));
            }
        }
    } else {
        assert(w2 == w);
    }
}

proof fn lemma_run_keeps_attempts_ok(w: World, ticks: Seq<Tick>, cfg: LimiterConfig)
    requires
        starting(w, cfg),
    ensures
        attempts_ok(run(w, ticks), cfg, w.stored),
        run(w, ticks).clients.len() == w.clients.len(),
    decreases ticks.len(),
{
    if ticks.len() == 0 {
        assert forall|i: int| 0 <= i < w.clients.len() implies attempt_ok(
            w,
            #[trigger] w.clients[i],
            cfg,
        ) by {}
    } else {
        lemma_run_keeps_attempts_ok(w, ticks.drop_last(), cfg);
        lemma_step_keeps_attempts_ok(run(w, ticks.drop_last()), ticks.last(), cfg, w.stored);
    }
}

/// No update is lost. Whenever the store applies a commit, in any
/// interleaving of attempts, the bucket it writes is the bucket it
/// overwrites, refilled up to the new stamp, less one token. An attempt that
/// read the key before another one wrote never gets its commit applied: it
/// has to start over from what the winner left.
pub proof fn law_commit_follows_the_stored_bucket(
    w: World,
    cfg: LimiterConfig,
    ticks: Seq<Tick>,
    t: Tick,
)
    requires
        starting(w, cfg),
    ensures
        commit_applied(run(w, ticks), t) ==> exists|s: BucketState|
            {
                &&& #[trigger] consumed(bucket_in(run(w, ticks).stored), s.last_refill, cfg)
                    == Some(s)
                &&& world_step(run(w, ticks), t).stored == Some(encode_spec(s))
            },
{
    let before = run(w, ticks);
    lemma_run_keeps_attempts_ok(w, ticks, cfg);
    lemma_step_keeps_attempts_ok(before, t, cfg, w.stored);
    if commit_applied(before, t) {
        let s = before.clients[t.client].machine.phase->AwaitCommit_0;
        assert(consumed(bucket_in(before.stored), s.last_refill, cfg) == Some(s));
    }
}

/// The token count in the store never leaves its range. Start from a store
/// that holds no bucket, or one with between zero and `max_tokens` tokens,
/// and let any attempts run in any interleaving: whatever bucket the store
/// holds afterwards has between zero and `max_tokens` tokens.
pub proof fn law_stored_tokens_stay_in_range(w: World, cfg: LimiterConfig, ticks: Seq<Tick>)
    requires
        starting(w, cfg),
        bucket_in(w.stored) matches Some(s) ==> s.within(cfg),
    ensures
        bucket_in(run(w, ticks).stored) matches Some(s) ==> s.within(cfg),
{
    lemma_run_keeps_attempts_ok(w, ticks, cfg);
}

/// Only an applied commit changes what is stored: where a tick leaves other
/// bytes under the key than it found, the attempt that it served was
/// waiting for its commit and has now written.
pub proof fn law_only_commits_write(w: World, t: Tick)
    ensures
        world_step(w, t).stored != w.stored ==> {
            &&& 0 <= t.client < w.clients.len()
            &&& w.clients[t.client].machine.phase is AwaitCommit
            &&& world_step(w, t).clients[t.client].wrote
        },
{
}

/// An attempt that is denied has written nothing, in any interleaving with
/// other attempts: neither the token count nor the stamp in the store is
/// its doing.
pub proof fn law_denied_attempt_wrote_nothing(
    w: World,
    cfg: LimiterConfig,
    ticks: Seq<Tick>,
    i: int,
)
    requires
        starting(w, cfg),
        0 <= i < w.clients.len(),
    ensures
        run(w, ticks).clients.len() == w.clients.len(),
        run(w, ticks).clients[i].machine.phase == Phase::Done(Outcome::Denied) ==> !run(
            w,
            ticks,
        ).clients[i].wrote,
{
    lemma_run_keeps_attempts_ok(w, ticks, cfg);
    assert(attempt_ok(run(w, ticks), run(w, ticks).clients[i], cfg));
}

/// Nothing is lost on any tick of the schedule.
pub open spec fn lossless(ticks: Seq<Tick>) -> bool {
    forall|k: int| 0 <= k < ticks.len() ==> (#[trigger] ticks[k]).fault is Delivered
}

proof fn lemma_lossless_run_counts(w: World, ticks: Seq<Tick>, cfg: LimiterConfig)
    requires
        starting(w, cfg),
        lossless(ticks),
    ensures
        admitted_count(run(w, ticks).clients) == run(w, ticks).commits,
    decreases ticks.len(),
{
    if ticks.len() == 0 {
        lemma_none_admitted_at_start(w.clients, cfg);
    } else {
        let head = ticks.drop_last();
        let t = ticks.last();
        assert forall|k: int| 0 <= k < head.len() implies (#[trigger] head[k]).fault
            is Delivered by {
            assert(head[k] == ticks[k]);
        }
        assert(t == ticks[ticks.len() - 1]);
        lemma_lossless_run_counts(w, head, cfg);
        let before = run(w, head);
        let after = world_step(before, t);
        lemma_run_keeps_attempts_ok(w, head, cfg);
        lemma_step_keeps_attempts_ok(before, t, cfg, w.stored);
        let i = t.client;
        if 0 <= i < before.clients.len() && !(before.clients[i].machine.phase is Done) {
            let c2 = after.clients[i];
            assert(attempt_ok(before, before.clients[i], cfg));
            assert(after.clients =~= before.clients.update(i, c2));
            lemma_admitted_count_update(before.clients, i, c2);
        }
    }
}

/// No token goes to waste. While nothing is lost between the attempts and
/// the store, every commit that the store applies admits the request that
/// made it: as many attempts end `Admitted` as tokens were taken.
pub proof fn law_every_commit_admits(w: World, cfg: LimiterConfig, ticks: Seq<Tick>)
    requires
        starting(w, cfg),
        lossless(ticks),
    ensures
        admitted_count(run(w, ticks).clients) == run(w, ticks).commits,
{
    lemma_lossless_run_counts(w, ticks, cfg);
}

/// The initial bucket is worth at most `budget` at `t_ref`, and at any
/// later instant at most `budget` and the refill since `t_ref`.
spec fn covers(initial: Option<Seq<u8>>, cfg: LimiterConfig, t_ref: Timestamp, budget: int)
    -> bool {
    &&& budget >= 0
    &&& forall|n: Timestamp|
        t_ref.nanos <= n.nanos ==> #[trigger] available_tokens(bucket_in(initial), n, cfg)
            <= budget + cfg.refill_rate_per_hour * elapsed_hours(t_ref, n)
}

/// What holds of the stamps while the clock runs in order: a bucket that
/// is handed in carries a reading between `t_ref` and the clock, and while
/// its watch is good, a stamp no older than the one in the store.
spec fn stamps_ok(w: World, c: Client, t_ref: Timestamp, clock: Timestamp) -> bool {
    c.machine.phase matches Phase::AwaitCommit(s) ==> {
        &&& t_ref.nanos <= s.last_refill.nanos <= clock.nanos
        &&& (c.watch == Some(w.version) && w.commits > 0 ==> (bucket_in(w.stored) matches Some(p)
            && p.last_refill.nanos <= s.last_refill.nanos))
    }
}

/// The books of the store: until the first commit it is as it was; from
/// then on the commits so far and the tokens left are paid for by the
/// budget and the refill up to the stored stamp.
spec fn ledger_ok(
    w: World,
    cfg: LimiterConfig,
    initial: Option<Seq<u8>>,
    t_ref: Timestamp,
    budget: int,
    clock: Timestamp,
) -> bool {
    if w.commits == 0 {
        w.stored == initial
    } else {
        &&& bucket_in(w.stored) matches Some(s)
        &&& 0 <= s.tokens < cfg.max_tokens
        &&& t_ref.nanos <= s.last_refill.nanos <= clock.nanos
        &&& w.commits + s.tokens <= budget + cfg.refill_rate_per_hour * elapsed_hours(
            t_ref,
            s.last_refill,
        )
    }
}

spec fn world_ok(
    w: World,
    cfg: LimiterConfig,
    initial: Option<Seq<u8>>,
    t_ref: Timestamp,
    budget: int,
    clock: Timestamp,
) -> bool {
    &&& attempts_ok(w, cfg, initial)
    &&& forall|i: int|
        0 <= i < w.clients.len() ==> stamps_ok(w, #[trigger] w.clients[i], t_ref, clock)
    &&& admitted_count(w.clients) <= w.commits
    &&& ledger_ok(w, cfg, initial, t_ref, budget, clock)
    &&& t_ref.nanos <= clock.nanos
}

/// A commit that the store applies keeps the books: the one more commit
/// and the tokens it leaves are paid for.
proof fn lemma_commit_keeps_ledger(
    w: World,
    c: Client,
    s: BucketState,
    cfg: LimiterConfig,
    initial: Option<Seq<u8>>,
    t_ref: Timestamp,
    budget: int,
    clock: Timestamp,
)
    requires
        covers(initial, cfg, t_ref, budget),
        ledger_ok(w, cfg, initial, t_ref, budget, clock),
        attempt_ok(w, c, cfg),
        stamps_ok(w, c, t_ref, clock),
        c.machine.phase == Phase::AwaitCommit(s),
        c.watch == Some(w.version),
    ensures
        w.commits + 1 + s.tokens <= budget + cfg.refill_rate_per_hour * elapsed_hours(
            t_ref,
            s.last_refill,
        ),
{
    let n = s.last_refill;
    let r = cfg.refill_rate_per_hour as int;
    let old = bucket_in(w.stored);
    assert(consumed(old, n, cfg) == Some(s));
    assert(s.tokens + 1 == available_tokens(old, n, cfg));
    if w.commits == 0 {
        assert(available_tokens(bucket_in(initial), n, cfg) <= budget + r * elapsed_hours(
            t_ref,
            n,
        ));
    } else {
        let p = old->Some_0;
        let a = p.last_refill;
        lemma_elapsed_hours_split(t_ref, a, n);
        let x = elapsed_hours(t_ref, a);
        let y = elapsed_hours(a, n);
        let z = elapsed_hours(t_ref, n);
        assert(available_tokens(old, n, cfg) <= p.tokens + y * r);
        assert(r * x + y * r <= r * z) by (nonlinear_arith)
            requires
                x + y <= z,
                r >= 0,
        ;
    }
}

/// One tick in order keeps the books.
proof fn lemma_step_keeps_world_ok(
    w: World,
    t: Tick,
    cfg: LimiterConfig,
    initial: Option<Seq<u8>>,
    t_ref: Timestamp,
    budget: int,
    clock: Timestamp,
)
    requires
        covers(initial, cfg, t_ref, budget),
        world_ok(w, cfg, initial, t_ref, budget, clock),
        clock.nanos <= t.now.nanos,
    ensures
        world_ok(world_step(w, t), cfg, initial, t_ref, budget, t.now),
{
    let w2 = world_step(w, t);
    let i = t.client;
    lemma_step_keeps_attempts_ok(w, t, cfg, initial);
    if 0 <= i < w.clients.len() && !(w.clients[i].machine.phase is Done) {
        let c = w.clients[i];
        assert(attempt_ok(w, c, cfg));
        assert(stamps_ok(w, c, t_ref, clock));
        let c2 = w2.clients[i];
        assert(w2.clients =~= w.clients.update(i, c2));
        lemma_admitted_count_update(w.clients, i, c2);
        if commit_applied(w, t) {
            let s = c.machine.phase->AwaitCommit_0;
            lemma_commit_keeps_ledger(w, c, s, cfg, initial, t_ref, budget, clock);
            assert(ledger_ok(w2, cfg, initial, t_ref, budget, t.now));
        } else {
            assert(!is_admitted(c2));
            assert(ledger_ok(w2, cfg, initial, t_ref, budget, t.now));
        }
        assert(stamps_ok(w2, c2, t_ref, t.now));
        assert forall|j: int| 0 <= j < w2.clients.len() implies stamps_ok(
            w2,
            #[trigger] w2.clients[j],
            t_ref,
            t.now,
        ) by {
            if j != i {
                assert(w2.clients[j] == w.clients[j]);
                assert(stamps_ok(w, w.clients[j], t_ref, clock));
                assert(attempt_ok(w, w.clients[j], cfg));
            }
        }
    } else {
        assert(w2 == w);
        assert forall|j: int| 0 <= j < w2.clients.len() implies stamps_ok(
            w2,
            #[trigger] w2.clients[j],
            t_ref,
            t.now,
        ) by {
            assert(stamps_ok(w, w.clients[j], t_ref, clock));
        }
    }
}

proof fn lemma_none_admitted_at_start(clients: Seq<Client>, cfg: LimiterConfig)
    requires
        forall|i: int|
            0 <= i < clients.len() ==> (#[trigger] clients[i]) == (Client {
                machine: Transactor::initial(cfg),
                watch: None,
                wrote: false,
            }),
    ensures
        admitted_count(clients) == 0,
    decreases clients.len(),
{
    if clients.len() > 0 {
        let head = clients.drop_last();
        assert forall|i: int| 0 <= i < head.len() implies (#[trigger] head[i]) == (Client {
            machine: Transactor::initial(cfg),
            watch: None,
            wrote: false,
        }) by {
            assert(head[i] == clients[i]);
        }
        lemma_none_admitted_at_start(head, cfg);
        assert(clients.last() == clients[clients.len() - 1]);
    }
}

/// Every world that a schedule in order leads to has its books in order.
proof fn lemma_run_keeps_world_ok(
    w: World,
    ticks: Seq<Tick>,
    cfg: LimiterConfig,
    t_ref: Timestamp,
    budget: int,
)
    requires
        starting(w, cfg),
        in_order(ticks, t_ref),
        covers(w.stored, cfg, t_ref, budget),
    ensures
        world_ok(run(w, ticks), cfg, w.stored, t_ref, budget, clock_after(ticks, t_ref)),
    decreases ticks.len(),
{
    if ticks.len() == 0 {
        lemma_run_keeps_attempts_ok(w, ticks, cfg);
        lemma_none_admitted_at_start(w.clients, cfg);
        assert forall|i: int| 0 <= i < w.clients.len() implies stamps_ok(
            w,
            #[trigger] w.clients[i],
            t_ref,
            t_ref,
        ) by {}
    } else {
        let head = ticks.drop_last();
        assert forall|i: int| 0 <= i < head.len() implies t_ref.nanos <= (
        #[trigger] head[i]).now.nanos by {
            assert(head[i] == ticks[i]);
        }
        assert forall|i: int, j: int| 0 <= i <= j < head.len() implies (
        #[trigger] head[i]).now.nanos <= (#[trigger] head[j]).now.nanos by {
            assert(head[i] == ticks[i]);
            assert(head[j] == ticks[j]);
        }
        lemma_run_keeps_world_ok(w, head, cfg, t_ref, budget);
        if head.len() > 0 {
            assert(head.last() == ticks[ticks.len() - 2]);
        }
        lemma_step_keeps_world_ok(
            run(w, head),
            ticks.last(),
            cfg,
            w.stored,
            t_ref,
            budget,
            clock_after(head, t_ref),
        );
    }
}

/// Where the books are in order, the admitted attempts are paid for by the
/// budget and the refill up to the clock.
proof fn lemma_admissions_within_budget(
    w: World,
    cfg: LimiterConfig,
    initial: Option<Seq<u8>>,
    t_ref: Timestamp,
    budget: int,
    clock: Timestamp,
)
    requires
        budget >= 0,
        world_ok(w, cfg, initial, t_ref, budget, clock),
    ensures
        admitted_count(w.clients) <= budget + cfg.refill_rate_per_hour * elapsed_hours(
            t_ref,
            clock,
        ),
{
    let r = cfg.refill_rate_per_hour as int;
    let z = elapsed_hours(t_ref, clock);
    if w.commits == 0 {
        assert(0 <= r * z) by (nonlinear_arith)
            requires
                r >= 0,
                z >= 0,
        ;
    } else {
        let s = bucket_in(w.stored)->Some_0;
        lemma_elapsed_hours_monotone(t_ref, s.last_refill, clock);
        let x = elapsed_hours(t_ref, s.last_refill);
        assert(r * x <= r * z) by (nonlinear_arith)
            requires
                r >= 0,
                x <= z,
        ;
    }
}

/// No token is spent twice. Let any number of attempts of one client run
/// against the store in any interleaving, with any losses on the way, while
/// the clock does not run backwards. Then the attempts that end `Admitted`
/// are never more than a full bucket and the refill for the whole hours
/// between the first and the last reading of the clock. Where the store held
/// a bucket at the start, stamped no later than the first reading, they are
/// also never more than the tokens in that bucket and the refill for the
/// whole hours since its stamp.
pub proof fn law_no_double_spend(w: World, cfg: LimiterConfig, ticks: Seq<Tick>, first: Timestamp)
    requires
        starting(w, cfg),
        in_order(ticks, first),
    ensures
        admitted_count(run(w, ticks).clients) <= cfg.max_tokens + cfg.refill_rate_per_hour
            * elapsed_hours(first, clock_after(ticks, first)),
        bucket_in(w.stored) matches Some(s) ==> (0 <= s.tokens && s.last_refill.nanos
            <= first.nanos ==> admitted_count(run(w, ticks).clients) <= s.tokens
            + cfg.refill_rate_per_hour * elapsed_hours(s.last_refill, clock_after(ticks, first))),
{
    let r = cfg.refill_rate_per_hour as int;
    let end = clock_after(ticks, first);
    assert(covers(w.stored, cfg, first, cfg.max_tokens as int)) by {
        assert forall|n: Timestamp| first.nanos <= n.nanos implies #[trigger] available_tokens(
            bucket_in(w.stored),
            n,
            cfg,
        ) <= cfg.max_tokens + r * elapsed_hours(first, n) by {
            let z = elapsed_hours(first, n);
            assert(0 <= r * z) by (nonlinear_arith)
                requires
                    r >= 0,
                    z >= 0,
            ;
        }
    }
    lemma_run_keeps_world_ok(w, ticks, cfg, first, cfg.max_tokens as int);
    lemma_admissions_within_budget(
        run(w, ticks),
        cfg,
        w.stored,
        first,
        cfg.max_tokens as int,
        end,
    );
    if bucket_in(w.stored) is Some && 0 <= bucket_in(w.stored)->Some_0.tokens && bucket_in(
        w.stored,
    )->Some_0.last_refill.nanos <= first.nanos {
        let s = bucket_in(w.stored)->Some_0;
        let stamp = s.last_refill;
        assert(in_order(ticks, stamp));
        assert(covers(w.stored, cfg, stamp, s.tokens as int)) by {
            assert forall|n: Timestamp| stamp.nanos <= n.nanos implies #[trigger] available_tokens(
                bucket_in(w.stored),
                n,
                cfg,
            ) <= s.tokens + r * elapsed_hours(stamp, n) by {
                let z = elapsed_hours(stamp, n);
                assert(z * r == r * z) by (nonlinear_arith);
            }
        }
        lemma_run_keeps_world_ok(w, ticks, cfg, stamp, s.tokens as int);
        lemma_admissions_within_budget(
            run(w, ticks),
            cfg,
            w.stored,
            stamp,
            s.tokens as int,
            clock_after(ticks, stamp),
        );
        if ticks.len() == 0 {
            lemma_elapsed_hours_monotone(stamp, stamp, first);
            let x = elapsed_hours(stamp, stamp);
            let z = elapsed_hours(stamp, first);
            assert(r * x <= r * z) by (nonlinear_arith)
                requires
                    r >= 0,
                    x <= z,
            ;
        }
    }
}

/// Every tick of the schedule serves attempt `i`.
pub open spec fn alone(ticks: Seq<Tick>, i: int) -> bool {
    forall|k: int| 0 <= k < ticks.len() ==> (#[trigger] ticks[k]).client == i
}

/// What holds while attempt `i` runs alone: the store is as it was at the
/// start unless the attempt has written, and it has written only if it
/// ended `Admitted` or lost the answer to its commit.
spec fn solo_ok(w: World, start: World, i: int) -> bool {
    &&& w.clients.len() == start.clients.len()
    &&& (w.stored == start.stored || w.clients[i].wrote)
    &&& match w.clients[i].machine.phase {
        Phase::Done(Outcome::Admitted(_)) => true,
        Phase::Done(Outcome::StoreError) => true,
        _ => !w.clients[i].wrote,
    }
}

proof fn lemma_run_keeps_solo_ok(start: World, ticks: Seq<Tick>, i: int)
    requires
        0 <= i < start.clients.len(),
        solo_ok(start, start, i),
        alone(ticks, i),
    ensures
        solo_ok(run(start, ticks), start, i),
    decreases ticks.len(),
{
    if ticks.len() > 0 {
        let head = ticks.drop_last();
        assert forall|k: int| 0 <= k < head.len() implies (#[trigger] head[k]).client == i by {
            assert(head[k] == ticks[k]);
        }
        lemma_run_keeps_solo_ok(start, head, i);
        assert(ticks.last() == ticks[ticks.len() - 1]);
    }
}

/// A rejection keeps the refill anchor. While one attempt runs with no
/// other attempt served in between, from its first command to the end, and
/// ends `Denied`, the bytes under the key are those it found: the stamp from
/// which the next attempt counts its hours has not moved, and within the
/// same hour that attempt finds the same number of tokens.
pub proof fn law_denied_attempt_leaves_store_unchanged(w: World, ticks: Seq<Tick>, i: int)
    requires
        0 <= i < w.clients.len(),
        w.clients[i].machine.phase == Phase::AwaitWatch,
        !w.clients[i].wrote,
        alone(ticks, i),
    ensures
        run(w, ticks).clients[i].machine.phase == Phase::Done(Outcome::Denied) ==> run(
            w,
            ticks,
        ).stored == w.stored,
{
    lemma_run_keeps_solo_ok(w, ticks, i);
}

/// A new client is let through at once. Where the store holds nothing under
/// the key and one new attempt has its three commands served, with no other
/// attempt in between and nothing lost, it ends `Admitted`, and the bucket
/// that it leaves in the store lacks one token of a full one and is stamped
/// with the clock at its read.
pub proof fn law_fresh_client_is_admitted(
    w: World,
    cfg: LimiterConfig,
    i: int,
    at_watch: Timestamp,
    at_read: Timestamp,
    at_commit: Timestamp,
)
    requires
        cfg.valid(),
        0 <= i < w.clients.len(),
        w.clients[i] == (Client {
            machine: Transactor::initial(cfg),
            watch: None,
            wrote: false,
        }),
        w.stored is None,
    ensures
        ({
            let ticks = seq![
                Tick { client: i, now: at_watch, fault: Fault::Delivered },
                Tick { client: i, now: at_read, fault: Fault::Delivered },
                Tick { client: i, now: at_commit, fault: Fault::Delivered },
            ];
            let left = BucketState { tokens: (cfg.max_tokens - 1) as i64, last_refill: at_read };
            &&& run(w, ticks).clients[i].machine.phase == Phase::Done(Outcome::Admitted(left))
            &&& run(w, ticks).stored == Some(encode_spec(left))
        }),
{
    let t1 = Tick { client: i, now: at_watch, fault: Fault::Delivered };
    let t2 = Tick { client: i, now: at_read, fault: Fault::Delivered };
    let t3 = Tick { client: i, now: at_commit, fault: Fault::Delivered };
    let ticks = seq![t1, t2, t3];
    let w1 = world_step(w, t1);
    let w2 = world_step(w1, t2);
    let w3 = world_step(w2, t3);
    assert(ticks.drop_last() =~= seq![t1, t2]);
    assert(seq![t1, t2].drop_last() =~= seq![t1]);
    assert(seq![t1].drop_last() =~= Seq::<Tick>::empty());
    assert(run(w, Seq::<Tick>::empty()) == w);
    assert(run(w, seq![t1]) == w1);
    assert(run(w, seq![t1, t2]) == w2);
    assert(run(w, ticks) == w3);
    assert(w1.clients[i].machine.phase == Phase::AwaitValue);
    assert(w1.clients[i].watch == Some(w.version));
    assert(w2.clients[i].machine.phase is AwaitCommit);
}

} // verus!

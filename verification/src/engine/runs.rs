//! Runs of the engine: what holds however often, and in whatever order, players
//! join and leave, workers attempt matches and the Reaper recovers claims.
//!
//! A run is a sequence of states, each of which comes from the one before by a
//! single step. The phases of match attempts are steps of their own, so that those
//! of different workers may alternate.

use vstd::prelude::*;

use crate::engine;
use crate::engine::balancer::MATCH_SIZE;
use crate::engine::matcher::{Discovery, MatchAttemptResult, WorkerContext, WorkerState};
use crate::engine::record::MatchStamp;
use crate::engine::{bucket, claims, matcher, record};
use crate::engine::{CancelError, EnqueueError};
use crate::metrics::{Metrics, MetricsSnapshot};
use crate::models;
use crate::models::Player;
use crate::workers;

verus! {

/// A player tries to join the queue.
pub open spec fn joins(before: engine::CoreView, after: engine::CoreView) -> bool {
    exists|id: u128, skill_rating: u32, now: u64, outcome: Result<usize, EnqueueError>| #[trigger]
        engine::enqueued(before, id, skill_rating, now, after, outcome)
}

/// A player tries to leave the queue.
pub open spec fn leaves(before: engine::CoreView, after: engine::CoreView) -> bool {
    exists|id: u128, outcome: Result<(), CancelError>| #[trigger]
        engine::cancelled(before, id, after, outcome)
}

/// A worker runs a whole attempt.
pub open spec fn attempts(before: matcher::SharedView, after: matcher::SharedView) -> bool {
    exists|
        ctx: WorkerContext,
        now: u64,
        now_ms: u64,
        stamp: MatchStamp,
        state: WorkerState,
        next: WorkerState,
        outcome: MatchAttemptResult,
    | #[trigger]
        matcher::attempted(ctx, now, now_ms, stamp, before, state, after, next, outcome)
}

/// A worker counts an attempt that it runs phase by phase.
pub open spec fn counts(before: matcher::SharedView, after: matcher::SharedView) -> bool {
    after == (matcher::SharedView { metrics: matcher::cycle_counted(before.metrics), ..before })
}

/// A worker runs the second phase of an attempt, with candidates found earlier.
pub open spec fn claims_players(before: matcher::SharedView, after: matcher::SharedView) -> bool {
    exists|
        ctx: WorkerContext,
        discovery: Discovery,
        now_ms: u64,
        state: WorkerState,
        next: WorkerState,
        outcome: Result<Vec<Player>, MatchAttemptResult>,
    |
        claims::distinct(discovery.candidates@) && claims::all_waiting(discovery.candidates@)
            && #[trigger] matcher::claim_made(
            ctx,
            discovery,
            now_ms,
            before,
            state,
            after,
            next,
            outcome,
        )
}

/// A worker runs the third phase of an attempt, with ten players claimed earlier.
pub open spec fn completes(before: matcher::SharedView, after: matcher::SharedView) -> bool {
    exists|
        ctx: WorkerContext,
        seed_id: u128,
        claimed: Seq<Player>,
        stamp: MatchStamp,
        state: WorkerState,
        next: WorkerState,
        outcome: MatchAttemptResult,
    |
        claimed.len() == MATCH_SIZE && claims::distinct(claimed)
            && #[trigger] matcher::completed_with(
            ctx,
            seed_id,
            claimed,
            stamp,
            before,
            state,
            after,
            next,
            outcome,
        )
}

/// The Reaper recovers stale claims.
pub open spec fn reaps(before: matcher::SharedView, after: matcher::SharedView) -> bool {
    exists|now_ms: u64, timeout_ms: u64|
        after == #[trigger] workers::after_reaping(before, now_ms, timeout_ms)
}

/// One step of the engine.
pub open spec fn step(before: engine::CoreView, after: engine::CoreView) -> bool {
    ||| joins(before, after)
    ||| leaves(before, after)
    ||| {
        &&& after == (engine::CoreView { shared: after.shared, ..before })
        &&& {
            ||| attempts(before.shared, after.shared)
            ||| counts(before.shared, after.shared)
            ||| claims_players(before.shared, after.shared)
            ||| completes(before.shared, after.shared)
            ||| reaps(before.shared, after.shared)
        }
    }
}

/// A sequence of states, each of which comes from the one before by a step.
pub open spec fn is_run(states: Seq<engine::CoreView>) -> bool {
    forall|k: int| 0 < k < states.len() ==> step(states[k - 1], #[trigger] states[k])
}

/// How many distinct values a 64-bit counter has.
pub const COUNTER_RANGE: u128 = 0x1_0000_0000_0000_0000;

/// How many players have ever joined and left the queue, and how many matches
/// have been formed: true numbers, of any size.
pub struct Tally {
    /// Players who have joined.
    pub joined: nat,
    /// Players who have left.
    pub left: nat,
    /// Matches formed, of ten players each.
    pub matches: nat,
}

/// The books agree with a tally: everyone who ever joined has left, been matched
/// or is in the pool, and each counter shows the true number, reduced to 64 bits.
pub open spec fn agrees(shared: matcher::SharedView, tally: Tally) -> bool {
    let metrics = shared.metrics;
    let queued = shared.players.dom().len();
    &&& shared.players.dom().finite()
    &&& tally.joined == tally.left + MATCH_SIZE * tally.matches + queued
    &&& metrics.total_players_enqueued == tally.joined % COUNTER_RANGE as nat
    &&& metrics.total_players_cancelled == tally.left % COUNTER_RANGE as nat
    &&& metrics.total_matches_created == tally.matches % COUNTER_RANGE as nat
    &&& metrics.total_players_matched == (MATCH_SIZE * tally.matches) % COUNTER_RANGE as int
    &&& (metrics.current_queue_size - queued) % COUNTER_RANGE as int == 0
}

/// The books are in order: they agree with some tally.
pub open spec fn books_balance(shared: matcher::SharedView) -> bool {
    exists|tally: Tally| agrees(shared, tally)
}

/// The books of a new engine are in order, with nobody in the tally.
pub proof fn law_books_of_a_new_engine_balance(history: Seq<models::MatchView>)
    ensures
        agrees(
            matcher::SharedView {
                players: Map::<u128, Player>::empty(),
                metrics: Metrics::zero(),
                history,
            },
            Tally { joined: 0, left: 0, matches: 0 },
        ),
{
}

/// Joining and leaving the queue, refused or not, keep the books in order: who
/// joined and who left is in the tally.
pub proof fn law_joins_and_leaves_keep_the_books(
    before: engine::CoreView,
    tally: Tally,
    id: u128,
    skill_rating: u32,
    now: u64,
    joined: engine::CoreView,
    join: Result<usize, EnqueueError>,
    left: engine::CoreView,
    leave: Result<(), CancelError>,
)
    requires
        agrees(before.shared, tally),
        engine::enqueued(before, id, skill_rating, now, joined, join),
        engine::cancelled(before, id, left, leave),
    ensures
        agrees(
            joined.shared,
            if join is Ok {
                Tally { joined: tally.joined + 1, ..tally }
            } else {
                tally
            },
        ),
        agrees(
            left.shared,
            if leave is Ok {
                Tally { left: tally.left + 1, ..tally }
            } else {
                tally
            },
        ),
{
    lemma_join(before, tally, id, skill_rating, now, joined, join);
    lemma_leave(before, tally, id, left, leave);
}

proof fn lemma_join(
    before: engine::CoreView,
    tally: Tally,
    id: u128,
    skill_rating: u32,
    now: u64,
    after: engine::CoreView,
    outcome: Result<usize, EnqueueError>,
)
    requires
        agrees(before.shared, tally),
        engine::enqueued(before, id, skill_rating, now, after, outcome),
    ensures
        bucket::consistent(before.shared.players) ==> bucket::consistent(after.shared.players),
        agrees(
            after.shared,
            if outcome is Ok {
                Tally { joined: tally.joined + 1, ..tally }
            } else {
                tally
            },
        ),
{
    if outcome is Ok {
        let players = before.shared.players;
        assert(after.shared.players.dom() =~= players.dom().insert(id));
        if bucket::consistent(players) {
            assert forall|other: u128| #[trigger]
                after.shared.players.contains_key(other) implies after.shared.players[other].id
                == other && after.shared.players[other].wf() by {
                if other != id {
                    assert(players.contains_key(other));
                }
            }
        }
    }
}

proof fn lemma_leave(
    before: engine::CoreView,
    tally: Tally,
    id: u128,
    after: engine::CoreView,
    outcome: Result<(), CancelError>,
)
    requires
        agrees(before.shared, tally),
        engine::cancelled(before, id, after, outcome),
    ensures
        bucket::consistent(before.shared.players) ==> bucket::consistent(after.shared.players),
        agrees(
            after.shared,
            if outcome is Ok {
                Tally { left: tally.left + 1, ..tally }
            } else {
                tally
            },
        ),
{
    if outcome is Ok {
        let players = before.shared.players;
        assert(after.shared.players.dom() =~= players.dom().remove(id));
        if bucket::consistent(players) {
            assert forall|other: u128| #[trigger]
                after.shared.players.contains_key(other) implies after.shared.players[other].id
                == other && after.shared.players[other].wf() by {
                assert(players.contains_key(other));
            }
        }
    }
}

/// The tally after a match attempt or its last phase.
pub open spec fn tally_after(tally: Tally, outcome: MatchAttemptResult) -> Tally {
    if outcome is Success {
        Tally { matches: tally.matches + 1, ..tally }
    } else {
        tally
    }
}

/// A whole attempt, successful or not, keeps the books in order.
pub proof fn law_attempts_keep_the_books(
    ctx: WorkerContext,
    now: u64,
    now_ms: u64,
    stamp: MatchStamp,
    before: matcher::SharedView,
    tally: Tally,
    state: WorkerState,
    after: matcher::SharedView,
    next: WorkerState,
    outcome: MatchAttemptResult,
)
    requires
        bucket::consistent(before.players),
        agrees(before, tally),
        matcher::attempted(ctx, now, now_ms, stamp, before, state, after, next, outcome),
    ensures
        bucket::consistent(after.players),
        agrees(after, tally_after(tally, outcome)),
{
    if outcome is Success {
        matcher::law_attempt_takes_ten_waiting_players(
            ctx,
            now,
            now_ms,
            stamp,
            before,
            state,
            after,
            next,
            outcome,
        );
        assert forall|id: u128| #[trigger] after.players.contains_key(id) implies before.players.contains_key(
            id,
        ) && after.players[id] == before.players[id] by {
            assert(!outcome->Success_0@.involves(id));
        }
        assert(after.players.dom().subset_of(before.players.dom()));
        vstd::set_lib::lemma_len_subset(after.players.dom(), before.players.dom());
    }
}

/// Storing well-formed players that are in the pool keeps the pool consistent.
proof fn lemma_stored_is_consistent(players: Map<u128, Player>, list: Seq<Player>)
    requires
        bucket::consistent(players),
        forall|i: int|
            0 <= i < list.len() ==> players.contains_key((#[trigger] list[i]).id) && list[i].wf(),
    ensures
        bucket::consistent(claims::stored(players, list)),
        claims::stored(players, list).dom() == players.dom(),
    decreases list.len(),
{
    claims::lemma_stored_keeps_ids(players, list);
    if list.len() > 0 {
        let before = list.drop_last();
        let last = list[list.len() - 1];
        assert forall|i: int| 0 <= i < before.len() implies players.contains_key(
            (#[trigger] before[i]).id,
        ) && before[i].wf() by {
            assert(players.contains_key(list[i].id));
        }
        lemma_stored_is_consistent(players, before);
        assert(last.wf());
        assert forall|id: u128| #[trigger]
            claims::stored(players, list).contains_key(id) implies claims::stored(
            players,
            list,
        )[id].id == id && claims::stored(players, list)[id].wf() by {
            if id != last.id {
                assert(claims::stored(players, before).contains_key(id));
            }
        }
    }
}

/// The second phase of an attempt keeps the books in order.
pub proof fn law_claims_keep_the_books(
    ctx: WorkerContext,
    discovery: Discovery,
    now_ms: u64,
    before: matcher::SharedView,
    tally: Tally,
    state: WorkerState,
    after: matcher::SharedView,
    next: WorkerState,
    outcome: Result<Vec<Player>, MatchAttemptResult>,
)
    requires
        bucket::consistent(before.players),
        agrees(before, tally),
        claims::distinct(discovery.candidates@),
        claims::all_waiting(discovery.candidates@),
        matcher::claim_made(ctx, discovery, now_ms, before, state, after, next, outcome),
    ensures
        bucket::consistent(after.players),
        agrees(after, tally),
{
    if outcome is Ok {
        let free = claims::present(before.players, discovery.candidates@);
        let claimed = claims::all_claimed(claims::first_ten(free), ctx.worker_id, now_ms);
        claims::lemma_claims(before.players, discovery.candidates@, ctx.worker_id, now_ms);
        assert forall|i: int| 0 <= i < claimed.len() implies before.players.contains_key(
            (#[trigger] claimed[i]).id,
        ) && claimed[i].wf() by {
            assert(claims::holds(before.players, free[i]));
            assert(before.players.contains_key(free[i].id));
            assert(free[i].waiting());
        }
        lemma_stored_is_consistent(before.players, claimed);
    }
}

/// The third phase of an attempt keeps the books in order.
#[verifier::spinoff_prover]
#[verifier::rlimit(40)]
pub proof fn law_completions_keep_the_books(
    ctx: WorkerContext,
    seed_id: u128,
    claimed: Seq<Player>,
    stamp: MatchStamp,
    before: matcher::SharedView,
    tally: Tally,
    state: WorkerState,
    after: matcher::SharedView,
    next: WorkerState,
    outcome: MatchAttemptResult,
)
    requires
        bucket::consistent(before.players),
        agrees(before, tally),
        claimed.len() == MATCH_SIZE,
        claims::distinct(claimed),
        matcher::completed_with(ctx, seed_id, claimed, stamp, before, state, after, next, outcome),
    ensures
        bucket::consistent(after.players),
        agrees(after, tally_after(tally, outcome)),
{
    if outcome is Success {
        claims::law_match_shrinks_the_pool_by_ten(before.players, claimed);
        assert forall|id: u128| #[trigger] after.players.contains_key(id) implies after.players[id].id
            == id && after.players[id].wf() by {
            assert(before.players.contains_key(id));
        }
    } else {
        let held = claims::present(before.players, claimed);
        let released = claims::all_released(held);
        claims::lemma_present_members(before.players, claimed);
        assert forall|i: int| 0 <= i < released.len() implies before.players.contains_key(
            (#[trigger] released[i]).id,
        ) && released[i].wf() by {
            assert(claims::holds(before.players, held[i]));
            assert(before.players.contains_key(held[i].id));
        }
        lemma_stored_is_consistent(before.players, released);
    }
}

/// The Reaper keeps the books in order.
pub proof fn law_reaper_keeps_the_books(
    before: matcher::SharedView,
    tally: Tally,
    after: matcher::SharedView,
)
    requires
        bucket::consistent(before.players),
        agrees(before, tally),
        reaps(before, after),
    ensures
        bucket::consistent(after.players),
        agrees(after, tally),
{
    assert(after.players.dom() =~= before.players.dom());
    assert forall|id: u128| #[trigger] after.players.contains_key(id) implies after.players[id].id
        == id && after.players[id].wf() by {
        assert(before.players.contains_key(id));
    }
}

/// Every step keeps the books in order, and lets at most one player in.
proof fn lemma_step_keeps_the_books(
    before: engine::CoreView,
    tally: Tally,
    after: engine::CoreView,
) -> (next_tally: Tally)
    requires
        bucket::consistent(before.shared.players),
        agrees(before.shared, tally),
        step(before, after),
    ensures
        bucket::consistent(after.shared.players),
        agrees(after.shared, next_tally),
        tally.joined <= next_tally.joined <= tally.joined + 1,
        after.signals - before.signals == next_tally.joined - tally.joined,
{
    let a = before.shared;
    let b = after.shared;
    if joins(before, after) {
        let (id, skill_rating, now, outcome) = choose|
            id: u128,
            skill_rating: u32,
            now: u64,
            outcome: Result<usize, EnqueueError>,
        | #[trigger]
            engine::enqueued(before, id, skill_rating, now, after, outcome);
        lemma_join(before, tally, id, skill_rating, now, after, outcome);
        if outcome is Ok {
            Tally { joined: tally.joined + 1, ..tally }
        } else {
            tally
        }
    } else if leaves(before, after) {
        let (id, outcome) = choose|id: u128, outcome: Result<(), CancelError>| #[trigger]
            engine::cancelled(before, id, after, outcome);
        lemma_leave(before, tally, id, after, outcome);
        if outcome is Ok {
            Tally { left: tally.left + 1, ..tally }
        } else {
            tally
        }
    } else if attempts(a, b) {
        let (ctx, now, now_ms, stamp, state, next, outcome) = choose|
            ctx: WorkerContext,
            now: u64,
            now_ms: u64,
            stamp: MatchStamp,
            state: WorkerState,
            next: WorkerState,
            outcome: MatchAttemptResult,
        | #[trigger]
            matcher::attempted(ctx, now, now_ms, stamp, a, state, b, next, outcome);
        law_attempts_keep_the_books(ctx, now, now_ms, stamp, a, tally, state, b, next, outcome);
        tally_after(tally, outcome)
    } else if claims_players(a, b) {
        let (ctx, discovery, now_ms, state, next, outcome) = choose|
            ctx: WorkerContext,
            discovery: Discovery,
            now_ms: u64,
            state: WorkerState,
            next: WorkerState,
            outcome: Result<Vec<Player>, MatchAttemptResult>,
        |
            claims::distinct(discovery.candidates@) && claims::all_waiting(discovery.candidates@)
                && #[trigger] matcher::claim_made(
                ctx,
                discovery,
                now_ms,
                a,
                state,
                b,
                next,
                outcome,
            );
        law_claims_keep_the_books(ctx, discovery, now_ms, a, tally, state, b, next, outcome);
        tally
    } else if completes(a, b) {
        let (ctx, seed_id, claimed, stamp, state, next, outcome) = choose|
            ctx: WorkerContext,
            seed_id: u128,
            claimed: Seq<Player>,
            stamp: MatchStamp,
            state: WorkerState,
            next: WorkerState,
            outcome: MatchAttemptResult,
        |
            claimed.len() == MATCH_SIZE && claims::distinct(claimed)
                && #[trigger] matcher::completed_with(
                ctx,
                seed_id,
                claimed,
                stamp,
                a,
                state,
                b,
                next,
                outcome,
            );
        law_completions_keep_the_books(
            ctx,
            seed_id,
            claimed,
            stamp,
            a,
            tally,
            state,
            b,
            next,
            outcome,
        );
        tally_after(tally, outcome)
    } else if reaps(a, b) {
        law_reaper_keeps_the_books(a, tally, b);
        tally
    } else {
        tally
    }
}

proof fn lemma_books_of_a_run(states: Seq<engine::CoreView>, tally: Tally, k: int) -> (later: Tally)
    requires
        is_run(states),
        0 <= k < states.len(),
        bucket::consistent(states[0].shared.players),
        agrees(states[0].shared, tally),
    ensures
        bucket::consistent(states[k].shared.players),
        agrees(states[k].shared, later),
        later.joined <= tally.joined + k,
        states[k].signals - states[0].signals == later.joined - tally.joined,
    decreases k,
{
    if k > 0 {
        let earlier = lemma_books_of_a_run(states, tally, k - 1);
        assert(step(states[k - 1], states[k]));
        lemma_step_keeps_the_books(states[k - 1], earlier, states[k])
    } else {
        tally
    }
}

/// The books stay in order in every run, however long and whatever its steps.
pub proof fn law_books_balance_throughout_a_run(states: Seq<engine::CoreView>, k: int)
    requires
        is_run(states),
        0 <= k < states.len(),
        bucket::consistent(states[0].shared.players),
        books_balance(states[0].shared),
    ensures
        bucket::consistent(states[k].shared.players),
        books_balance(states[k].shared),
{
    let tally = choose|tally: Tally| agrees(states[0].shared, tally);
    let _later = lemma_books_of_a_run(states, tally, k);
}

/// What the metrics say adds up: ten players per match, nobody lost, and a queue
/// size that is the number of players in the pool, so never negative.
pub open spec fn adds_up(reported: MetricsSnapshot, queued: nat) -> bool {
    &&& reported.total_players_matched == MATCH_SIZE * reported.total_matches_created
    &&& reported.total_players_enqueued - reported.total_players_cancelled
        - reported.total_players_matched == queued
    &&& reported.current_queue_size == queued
}

/// What a snapshot reports adds up while the books are in order, the joins fit a
/// 64-bit counter and the pool's size fits the gauge. Beyond that the same holds
/// of the 64-bit remainders.
pub proof fn law_reported_numbers_add_up(shared: matcher::SharedView, tally: Tally)
    requires
        agrees(shared, tally),
    ensures
        shared.players.dom().len() <= i64::MAX ==> shared.metrics.reported().current_queue_size
            == shared.players.dom().len(),
        shared.players.dom().len() <= i64::MAX && tally.joined < COUNTER_RANGE ==> adds_up(
            shared.metrics.reported(),
            shared.players.dom().len(),
        ),
        ({
            let reported = shared.metrics.reported();
            let queued = shared.players.dom().len();
            &&& (reported.total_players_matched - MATCH_SIZE * reported.total_matches_created)
                % COUNTER_RANGE as int == 0
            &&& (reported.total_players_enqueued - reported.total_players_cancelled
                - reported.total_players_matched - queued) % COUNTER_RANGE as int == 0
            &&& (reported.current_queue_size - queued) % COUNTER_RANGE as int == 0
        }),
{
    let r: int = COUNTER_RANGE as int;
    let joined = tally.joined as int;
    let left = tally.left as int;
    let matches = tally.matches as int;
    assert(joined == r * (joined / r) + joined % r);
    assert(left == r * (left / r) + left % r);
    assert(matches == r * (matches / r) + matches % r);
    assert(10 * matches == r * ((10 * matches) / r) + (10 * matches) % r);
}

/// In a run of a new engine the numbers add up at every state, as long as the
/// steps so far fit a 64-bit counter and the pool's size fits the gauge.
pub proof fn law_numbers_add_up_throughout_a_run(states: Seq<engine::CoreView>, k: int)
    requires
        is_run(states),
        0 <= k < states.len(),
        states[0].shared.players == Map::<u128, Player>::empty(),
        states[0].shared.metrics == Metrics::zero(),
        k < COUNTER_RANGE,
        states[k].shared.players.dom().len() <= i64::MAX,
    ensures
        adds_up(
            states[k].shared.metrics.reported(),
            states[k].shared.players.dom().len(),
        ),
{
    law_books_of_a_new_engine_balance(states[0].shared.history);
    let later = lemma_books_of_a_run(states, Tally { joined: 0, left: 0, matches: 0 }, k);
    law_reported_numbers_add_up(states[k].shared, later);
}

/// In a run of a new engine the workers have been signalled exactly as often as
/// players have joined: what the counter of joins shows, up to its width.
pub proof fn law_signals_count_the_joins(states: Seq<engine::CoreView>, k: int)
    requires
        is_run(states),
        0 <= k < states.len(),
        states[0].shared.players == Map::<u128, Player>::empty(),
        states[0].shared.metrics == Metrics::zero(),
        states[0].signals == 0,
    ensures
        states[k].shared.metrics.total_players_enqueued == states[k].signals
            % COUNTER_RANGE as nat,
{
    law_books_of_a_new_engine_balance(states[0].shared.history);
    let _later = lemma_books_of_a_run(states, Tally { joined: 0, left: 0, matches: 0 }, k);
}

/// A step forms a match, in a whole attempt or in a third phase.
pub open spec fn forms(
    before: matcher::SharedView,
    after: matcher::SharedView,
    formed: models::MatchView,
) -> bool {
    ||| exists|
        ctx: WorkerContext,
        now: u64,
        now_ms: u64,
        stamp: MatchStamp,
        state: WorkerState,
        next: WorkerState,
        outcome: MatchAttemptResult,
    | #[trigger]
        matcher::attempted(ctx, now, now_ms, stamp, before, state, after, next, outcome)
            && outcome is Success && outcome->Success_0@ == formed
    ||| exists|
        ctx: WorkerContext,
        seed_id: u128,
        claimed: Seq<Player>,
        stamp: MatchStamp,
        state: WorkerState,
        next: WorkerState,
        outcome: MatchAttemptResult,
    |
        claimed.len() == MATCH_SIZE && claims::distinct(claimed)
            && #[trigger] matcher::completed_with(
            ctx,
            seed_id,
            claimed,
            stamp,
            before,
            state,
            after,
            next,
            outcome,
        ) && outcome is Success && outcome->Success_0@ == formed
}

/// A match is made of ten different players, all of whom were in the pool before
/// it was formed and none of whom is in the pool after.
pub proof fn law_match_takes_ten_different_players(
    before: matcher::SharedView,
    after: matcher::SharedView,
    formed: models::MatchView,
)
    requires
        bucket::consistent(before.players),
        forms(before, after, formed),
    ensures
        formed.ids().len() == MATCH_SIZE,
        formed.ids().no_duplicates(),
        forall|id: u128| #[trigger]
            formed.involves(id) ==> before.players.contains_key(id) && !after.players.contains_key(
                id,
            ),
{
    if exists|
        ctx: WorkerContext,
        now: u64,
        now_ms: u64,
        stamp: MatchStamp,
        state: WorkerState,
        next: WorkerState,
        outcome: MatchAttemptResult,
    | #[trigger]
        matcher::attempted(ctx, now, now_ms, stamp, before, state, after, next, outcome)
            && outcome is Success && outcome->Success_0@ == formed {
        let (ctx, now, now_ms, stamp, state, next, outcome) = choose|
            ctx: WorkerContext,
            now: u64,
            now_ms: u64,
            stamp: MatchStamp,
            state: WorkerState,
            next: WorkerState,
            outcome: MatchAttemptResult,
        | #[trigger]
            matcher::attempted(ctx, now, now_ms, stamp, before, state, after, next, outcome)
                && outcome is Success && outcome->Success_0@ == formed;
        matcher::law_attempt_takes_ten_waiting_players(
            ctx,
            now,
            now_ms,
            stamp,
            before,
            state,
            after,
            next,
            outcome,
        );
    } else {
        let (ctx, seed_id, claimed, stamp, state, next, outcome) = choose|
            ctx: WorkerContext,
            seed_id: u128,
            claimed: Seq<Player>,
            stamp: MatchStamp,
            state: WorkerState,
            next: WorkerState,
            outcome: MatchAttemptResult,
        |
            claimed.len() == MATCH_SIZE && claims::distinct(claimed)
                && #[trigger] matcher::completed_with(
                ctx,
                seed_id,
                claimed,
                stamp,
                before,
                state,
                after,
                next,
                outcome,
            ) && outcome is Success && outcome->Success_0@ == formed;
        record::law_players_of_a_match_differ(claimed, stamp);
        assert forall|id: u128| #[trigger] formed.involves(id) implies before.players.contains_key(id)
            && !after.players.contains_key(id) by {
            matcher::law_match_takes_its_players_out(before.players, claimed, stamp, id);
        }
    }
}

/// Nobody joins a second time: whoever comes into the pool has not been in it
/// earlier.
pub open spec fn nobody_returns(states: Seq<engine::CoreView>) -> bool {
    forall|earlier: int, k: int, id: u128|
        #![trigger states[earlier].shared.players.contains_key(id), states[k].shared.players.contains_key(id)]
        0 <= earlier < k < states.len() && states[earlier].shared.players.contains_key(id)
            && states[k].shared.players.contains_key(id) ==> states[k
            - 1].shared.players.contains_key(id)
}

proof fn lemma_gone_for_good(
    states: Seq<engine::CoreView>,
    earlier: int,
    gone: int,
    k: int,
    id: u128,
)
    requires
        nobody_returns(states),
        0 <= earlier < gone <= k < states.len(),
        states[earlier].shared.players.contains_key(id),
        !states[gone].shared.players.contains_key(id),
    ensures
        !states[k].shared.players.contains_key(id),
    decreases k,
{
    if k > gone {
        lemma_gone_for_good(states, earlier, gone, k - 1, id);
    }
}

/// No player is ever in two matches: if nobody joins a second time, the matches of
/// a run, whichever workers form them and whatever else happens in between, have no
/// player in common.
pub proof fn law_no_player_is_matched_twice(
    states: Seq<engine::CoreView>,
    first: int,
    second: int,
    first_match: models::MatchView,
    second_match: models::MatchView,
    id: u128,
)
    requires
        nobody_returns(states),
        0 < first < second < states.len(),
        bucket::consistent(states[first - 1].shared.players),
        bucket::consistent(states[second - 1].shared.players),
        forms(states[first - 1].shared, states[first].shared, first_match),
        forms(states[second - 1].shared, states[second].shared, second_match),
    ensures
        !(first_match.involves(id) && second_match.involves(id)),
{
    law_match_takes_ten_different_players(
        states[first - 1].shared,
        states[first].shared,
        first_match,
    );
    law_match_takes_ten_different_players(
        states[second - 1].shared,
        states[second].shared,
        second_match,
    );
    if first_match.involves(id) {
        lemma_gone_for_good(states, first - 1, first, second - 1, id);
    }
}

} // verus!

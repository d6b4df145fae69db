//! Match formation: one complete attempt.
//!
//! An attempt is counted by [`count_cycle`] and then has three phases, each a
//! function of its own:
//!
//! 1. [`discover`] selects a seed (the longest-waiting player, unless it has
//!    failed too often) and scans for players rated within the seed's window.
//! 2. [`claim`] claims ten of the candidates for the worker, or none: if fewer
//!    than ten can be claimed, the claims made are rolled back.
//! 3. [`complete`] balances the ten into two teams, takes them out of the pool
//!    and records the match, or, if any claim has been lost in the meantime,
//!    releases the others.
//!
//! Other workers, the Reaper and the request handlers may act between the
//! phases. [`attempt_match`] counts and runs all three at once.

use std::collections::VecDeque;

use vstd::prelude::*;

use crate::clock;
use crate::clock::{millis_between, Clock};
use crate::config::Config;
use crate::engine::balancer::MATCH_SIZE;
use crate::engine::bucket::PlayerPool;
use crate::engine::record::MatchStamp;
use crate::engine::relaxation::{relaxation_stage_after, scan_bounds_after};
use crate::engine::scan::include_seed;
use crate::engine::{bucket, claims, record, relaxation, scan};
use crate::metrics::Metrics;
use crate::models;
use crate::models::{Match, Player};
use crate::utils;
use crate::utils::{now_unix_ms, total_u64};

verus! {

/// Consecutive failures before a worker tries an alternate seed.
pub const SEED_RETRY_LIMIT: u32 = 3;

/// Maximum number of matches kept in the history.
pub const MATCH_HISTORY_LIMIT: usize = 10_000;

/// What a worker needs besides the shared state.
#[derive(Debug, Clone, Copy)]
pub struct WorkerContext {
    /// Unique identifier of the worker, counted from 1.
    pub worker_id: u64,
    /// The configuration.
    pub config: Config,
    /// Maximum number of matches to keep in the history.
    pub match_history_limit: usize,
    /// The engine's clock.
    pub clock: Clock,
}

/// The state that workers, the Reaper and the request handlers share.
pub struct SharedState {
    /// The players in the queue.
    pub pool: PlayerPool,
    /// The counters.
    pub metrics: Metrics,
    /// The most recent matches, oldest first.
    pub match_history: VecDeque<Match>,
}

/// What a [`SharedState`] holds.
#[verifier::ext_equal]
pub struct SharedView {
    /// The players in the queue, by identifier.
    pub players: Map<u128, Player>,
    /// The counters.
    pub metrics: Metrics,
    /// The most recent matches, oldest first.
    pub history: Seq<models::MatchView>,
}

impl View for SharedState {
    type V = SharedView;

    open spec fn view(&self) -> SharedView {
        SharedView {
            players: self.pool@,
            metrics: self.metrics,
            history: self.match_history@.map_values(|m: Match| m@),
        }
    }
}

/// No player is rated above [`bucket::MAX_SKILL_RATING`].
pub open spec fn ratings_valid(players: Map<u128, Player>) -> bool {
    forall|id: u128| #[trigger]
        players.contains_key(id) ==> players[id].skill_rating
            <= bucket::MAX_SKILL_RATING
}

impl SharedState {
    /// The pool is well-formed and holds only validly rated players.
    pub open spec fn wf(self) -> bool {
        self.pool.wf() && ratings_valid(self.pool@)
    }

    /// A state with no players, no matches and all counters at zero.
    pub fn new() -> (shared: Self)
        ensures
            shared.wf(),
            shared@ == (SharedView {
                players: Map::<u128, Player>::empty(),
                metrics: Metrics::zero(),
                history: Seq::<models::MatchView>::empty(),
            }),
    {
        let shared = SharedState {
            pool: PlayerPool::new(),
            metrics: Metrics::new(),
            match_history: VecDeque::new(),
        };
        assert(shared@.history =~= Seq::<models::MatchView>::empty());
        shared
    }
}

/// The outcome of a match attempt.
#[derive(Debug)]
pub enum MatchAttemptResult {
    /// A match was formed.
    Success(Match),
    /// No player is waiting.
    PoolEmpty,
    /// Fewer than ten compatible players were found in the seed's window.
    InsufficientCandidates {
        /// How many were found.
        found: usize,
        /// The width of the scanned range.
        window: u32,
        /// The rating of the seed.
        seed_mmr: u32,
        /// The relaxation stage of the seed.
        stage: u8,
    },
    /// Enough candidates were found, but ten of them could not be claimed and
    /// kept. The claims have been rolled back.
    ClaimFailed {
        /// How many were claimed.
        claimed: usize,
        /// How many were needed.
        needed: usize,
    },
}

/// A worker's record of failed attempts with its current seed.
#[derive(Debug, Clone, Copy, PartialEq, Eq)]
pub struct WorkerState {
    /// Consecutive failed attempts with the current seed.
    pub consecutive_failures: u32,
    /// The seed that has been failing.
    pub current_seed_id: Option<u128>,
}

impl WorkerState {
    /// No failures recorded.
    pub open spec fn fresh() -> WorkerState {
        WorkerState { consecutive_failures: 0, current_seed_id: None }
    }

    /// This record after one more failure with a seed.
    pub open spec fn after_failure(self, seed_id: u128) -> WorkerState {
        WorkerState {
            consecutive_failures: if self.current_seed_id == Some(seed_id) {
                (self.consecutive_failures + 1) as u32
            } else {
                1
            },
            current_seed_id: Some(seed_id),
        }
    }

    /// Whether one more failure with a seed can be counted.
    pub open spec fn can_count(self, seed_id: u128) -> bool {
        self.current_seed_id == Some(seed_id) ==> self.consecutive_failures < u32::MAX
    }

    /// No failures recorded.
    pub fn new() -> (state: Self)
        ensures
            state == WorkerState::fresh(),
    {
        WorkerState { consecutive_failures: 0, current_seed_id: None }
    }

    /// Forget all failures.
    pub fn reset(&mut self)
        ensures
            *final(self) == WorkerState::fresh(),
    {
        self.consecutive_failures = 0;
        self.current_seed_id = None;
    }

    /// Record a failure with a seed. The count starts over with a new seed.
    pub fn record_failure(&mut self, seed_id: u128)
        requires
            old(self).can_count(seed_id),
        ensures
            *final(self) == old(self).after_failure(seed_id),
    {
        let same: bool = match self.current_seed_id {
            Some(current) => current == seed_id,
            None => false,
        };
        if same {
            self.consecutive_failures = self.consecutive_failures + 1;
        } else {
            self.consecutive_failures = 1;
            self.current_seed_id = Some(seed_id);
        }
    }
}

impl Default for WorkerState {
    /// No failures recorded.
    fn default() -> (state: Self)
        ensures
            state == WorkerState::fresh(),
    {
        WorkerState::new()
    }
}

/// What the first phase found.
#[derive(Debug)]
pub struct Discovery {
    /// The player that anchors the attempt.
    pub seed: Player,
    /// Lower bound of the scanned range.
    pub min_rating: u32,
    /// Upper bound of the scanned range.
    pub max_rating: u32,
    /// The relaxation stage of the seed.
    pub stage: u8,
    /// The waiting players in the range and the seed, most senior first.
    pub candidates: Vec<Player>,
}

/// The scan bounds of a player at `now`.
pub open spec fn bounds_of(player: Player, config: Config, now: u64) -> (u32, u32) {
    relaxation::bounds_around(
        player.skill_rating,
        relaxation::window_after(
            millis_between(player.join_timestamp, now),
            config,
        ),
    )
}

/// Whether a worker has failed with a player so often in a row that it tries an
/// alternate.
pub open spec fn has_given_up_on(state: WorkerState, player: Player) -> bool {
    state.current_seed_id == Some(player.id) && state.consecutive_failures >= SEED_RETRY_LIMIT
}

/// The seed of an attempt at `now`: the longest-waiting player; but if that one
/// has failed [`SEED_RETRY_LIMIT`] times in a row, the longest-waiting player
/// outside its window, if there is one.
pub open spec fn seed_of(
    players: Map<u128, Player>,
    config: Config,
    state: WorkerState,
    now: u64,
) -> Option<Player> {
    match scan::oldest_of(players, None) {
        None => None,
        Some(oldest) => if has_given_up_on(state, oldest) {
            match scan::oldest_of(players, Some(bounds_of(oldest, config, now))) {
                Some(alternate) => Some(alternate),
                None => Some(oldest),
            }
        } else {
            Some(oldest)
        },
    }
}

/// The candidates around a seed at `now`: what a scan of its window finds, and
/// the seed itself.
pub open spec fn candidates_of(
    players: Map<u128, Player>,
    config: Config,
    seed: Player,
    now: u64,
) -> Seq<Player> {
    let bounds = bounds_of(seed, config, now);
    scan::with_seed(scan::scan_of(players, bounds.0, bounds.1), seed)
}

/// Select the seed of an attempt at `now`; see [`seed_of`].
pub fn select_seed(ctx: &WorkerContext, pool: &PlayerPool, state: &WorkerState, now: u64) -> (seed:
    Option<Player>)
    requires
        pool.wf(),
    ensures
        seed == seed_of(pool@, ctx.config, *state, now),
        seed matches Some(player) ==> pool@.contains_key(player.id) && pool@[player.id] == player
            && player.waiting(),
        seed is None <==> forall|id: u128| #[trigger]
            pool@.contains_key(id) ==> !pool@[id].waiting(),
{
    match pool.oldest_waiting() {
        None => None,
        Some(oldest) => {
            let failing: bool = match state.current_seed_id {
                Some(current) => current == oldest.id,
                None => false,
            };
            if failing && state.consecutive_failures >= SEED_RETRY_LIMIT {
                let elapsed_ms: u64 = millis_between(oldest.join_timestamp, now);
                let bounds = scan_bounds_after(oldest.skill_rating, elapsed_ms, &ctx.config);
                match pool.oldest_waiting_excluding_range(bounds.0, bounds.1) {
                    Some(alternate) => Some(alternate),
                    None => Some(oldest),
                }
            } else {
                Some(oldest)
            }
        },
    }
}

/// First phase: select a seed and scan for candidates, at `now`.
///
/// Returns `None` exactly if no player is waiting.
pub fn discover(ctx: &WorkerContext, pool: &PlayerPool, state: &WorkerState, now: u64) -> (found:
    Option<Discovery>)
    requires
        pool.wf(),
        ratings_valid(pool@),
    ensures
        match found {
            None => seed_of(pool@, ctx.config, *state, now) is None && forall|id: u128| #[trigger]
                pool@.contains_key(id) ==> !pool@[id].waiting(),
            Some(discovery) => {
                &&& seed_of(pool@, ctx.config, *state, now) == Some(discovery.seed)
                &&& claims::holds(pool@, discovery.seed)
                &&& discovery.seed.waiting()
                &&& (discovery.min_rating, discovery.max_rating) == bounds_of(
                    discovery.seed,
                    ctx.config,
                    now,
                )
                &&& discovery.stage == relaxation::stage_after(
                    millis_between(discovery.seed.join_timestamp, now),
                    ctx.config,
                )
                &&& discovery.candidates@ == candidates_of(
                    pool@,
                    ctx.config,
                    discovery.seed,
                    now,
                )
                &&& discovery.candidates@.contains(discovery.seed)
                &&& discovery.candidates@.len() <= bucket::MAX_CANDIDATES_PER_SCAN
                &&& scan::by_seniority(discovery.candidates@)
                &&& forall|i: int|
                    0 <= i < discovery.candidates@.len() ==> scan::in_range(
                        pool@,
                        #[trigger] discovery.candidates@[i],
                        discovery.min_rating,
                        discovery.max_rating,
                    )
                &&& discovery.min_rating <= discovery.max_rating
                &&& claims::distinct(discovery.candidates@)
                &&& claims::all_waiting(discovery.candidates@)
            },
        },
{
    match select_seed(ctx, pool, state, now) {
        None => None,
        Some(seed) => {
            assert(pool@.contains_key(seed.id));
            let elapsed_ms: u64 = millis_between(seed.join_timestamp, now);
            let bounds = scan_bounds_after(seed.skill_rating, elapsed_ms, &ctx.config);
            let stage: u8 = relaxation_stage_after(elapsed_ms, &ctx.config);
            let found = pool.range_scan(bounds.0, bounds.1);
            let candidates = include_seed(found, &seed);
            proof {
                pool.lemma_wf_is_consistent();
                lemma_candidates(pool@, ctx.config, seed, now);
            }
            Some(
                Discovery { seed, min_rating: bounds.0, max_rating: bounds.1, stage, candidates },
            )
        },
    }
}

/// The candidates of an attempt hold the seed, are in the pool, waiting, all
/// different, in order of seniority, and, if the ratings are valid, rated within
/// the seed's bounds.
proof fn lemma_candidates(players: Map<u128, Player>, config: Config, seed: Player, now: u64)
    requires
        bucket::consistent(players),
        claims::holds(players, seed),
        seed.waiting(),
    ensures
        ({
            let found = candidates_of(players, config, seed, now);
            let bounds = bounds_of(seed, config, now);
            &&& found.contains(seed)
            &&& found.len() <= bucket::MAX_CANDIDATES_PER_SCAN
            &&& scan::by_seniority(found)
            &&& claims::distinct(found)
            &&& claims::all_waiting(found)
            &&& claims::present(players, found) == found
            &&& ratings_valid(players) ==> forall|i: int|
                0 <= i < found.len() ==> scan::in_range(
                    players,
                    #[trigger] found[i],
                    bounds.0,
                    bounds.1,
                )
        }),
{
    let found = candidates_of(players, config, seed, now);
    let bounds = bounds_of(seed, config, now);
    let scanned = scan::scan_of(players, bounds.0, bounds.1);
    scan::law_scan_is_defined(players, bounds.0, bounds.1);
    scan::lemma_with_seed(players, bounds.0, bounds.1, scanned, seed);
    assert forall|i: int| 0 <= i < found.len() implies claims::holds(players, #[trigger] found[i])
        && found[i].waiting() && (ratings_valid(players) ==> scan::in_range(
        players,
        found[i],
        bounds.0,
        bounds.1,
    )) by {
        assert(found.contains(found[i]));
        if found[i] != seed {
            let k = choose|k: int| 0 <= k < scanned.len() && scanned[k] == found[i];
            assert(scan::in_range(players, scanned[k], bounds.0, bounds.1));
        } else {
            assert(players.contains_key(seed.id));
        }
    }
    assert forall|i: int, j: int| 0 <= i < j < found.len() implies (#[trigger] found[i]).id != (
    #[trigger] found[j]).id by {
        assert(scan::senior(found[i], found[j]));
        assert(claims::holds(players, found[i]));
        assert(claims::holds(players, found[j]));
    }
    claims::lemma_all_present(players, found);
}

/// The counters after one more attempt has begun.
pub open spec fn cycle_counted(metrics: Metrics) -> Metrics {
    Metrics { worker_cycles_total: metrics.worker_cycles_total.wrapping_add(1), ..metrics }
}

/// Count an attempt. Every attempt is counted when it begins, whatever comes of
/// it.
pub fn count_cycle(metrics: &mut Metrics)
    ensures
        *final(metrics) == cycle_counted(*old(metrics)),
{
    metrics.worker_cycles_total = metrics.worker_cycles_total.wrapping_add(1);
}

/// The counters after one more attempt has found too few candidates.
pub open spec fn shortage_counted(metrics: Metrics) -> Metrics {
    Metrics {
        match_attempts_insufficient: metrics.match_attempts_insufficient.wrapping_add(1),
        ..metrics
    }
}

/// The counters after one more attempt could not claim or keep ten players.
pub open spec fn claim_failure_counted(metrics: Metrics) -> Metrics {
    Metrics {
        match_attempts_claim_failed: metrics.match_attempts_claim_failed.wrapping_add(1),
        ..metrics
    }
}

/// Claiming or releasing players of the pool does not change any rating.
proof fn lemma_ratings_stay_valid(players: Map<u128, Player>, list: Seq<Player>)
    requires
        ratings_valid(players),
        forall|i: int|
            0 <= i < list.len() ==> players.contains_key((#[trigger] list[i]).id)
                && players[list[i].id].skill_rating == list[i].skill_rating,
    ensures
        ratings_valid(claims::stored(players, list)),
    decreases list.len(),
{
    if list.len() > 0 {
        let before = list.drop_last();
        assert forall|i: int| 0 <= i < before.len() implies players.contains_key(
            (#[trigger] before[i]).id,
        ) && players[before[i].id].skill_rating == before[i].skill_rating by {
            assert(before[i] == list[i]);
        }
        lemma_ratings_stay_valid(players, before);
        let last = list[list.len() - 1];
        assert(players.contains_key(last.id));
        assert forall|id: u128| #[trigger] claims::stored(players, list).contains_key(id) implies claims::stored(
            players,
            list,
        )[id].skill_rating <= bucket::MAX_SKILL_RATING by {
            if id != last.id {
                assert(claims::stored(players, before).contains_key(id));
            }
        }
    }
}

/// What the second phase does at `now_ms`: the first ten candidates that are
/// still as they were seen are claimed, if there are ten; otherwise only the
/// failure is recorded.
pub open spec fn claim_made(
    ctx: WorkerContext,
    discovery: Discovery,
    now_ms: u64,
    before: SharedView,
    state: WorkerState,
    after: SharedView,
    next: WorkerState,
    outcome: Result<Vec<Player>, MatchAttemptResult>,
) -> bool {
    let free = claims::present(before.players, discovery.candidates@);
    match outcome {
        Ok(claimed) => {
            &&& discovery.candidates@.len() >= MATCH_SIZE
            &&& free.len() >= MATCH_SIZE
            &&& claimed@ == claims::all_claimed(claims::first_ten(free), ctx.worker_id, now_ms)
            &&& after == (SharedView { players: claims::stored(before.players, claimed@), ..before })
            &&& next == state
        },
        Err(MatchAttemptResult::InsufficientCandidates { found, window, seed_mmr, stage }) => {
            &&& discovery.candidates@.len() < MATCH_SIZE
            &&& found == discovery.candidates@.len()
            &&& window == discovery.max_rating - discovery.min_rating
            &&& seed_mmr == discovery.seed.skill_rating
            &&& stage == discovery.stage
            &&& after == (SharedView { metrics: shortage_counted(before.metrics), ..before })
            &&& next == state.after_failure(discovery.seed.id)
        },
        Err(MatchAttemptResult::ClaimFailed { claimed, needed }) => {
            &&& discovery.candidates@.len() >= MATCH_SIZE
            &&& free.len() < MATCH_SIZE
            &&& claimed == free.len()
            &&& needed == MATCH_SIZE
            &&& after == (SharedView { metrics: claim_failure_counted(before.metrics), ..before })
            &&& next == state.after_failure(discovery.seed.id)
        },
        Err(_) => false,
    }
}

/// Second phase: claim ten of the candidates for the worker, at `now_ms`; see
/// [`claim_made`].
///
/// If there are fewer than ten candidates, or fewer than ten of them are still
/// as they were seen, the pool stays as it was and the failure is recorded.
pub fn claim(
    ctx: &WorkerContext,
    shared: &mut SharedState,
    state: &mut WorkerState,
    discovery: &Discovery,
    now_ms: u64,
) -> (outcome: Result<Vec<Player>, MatchAttemptResult>)
    requires
        old(shared).wf(),
        old(state).can_count(discovery.seed.id),
        claims::distinct(discovery.candidates@),
        claims::all_waiting(discovery.candidates@),
        discovery.min_rating <= discovery.max_rating,
    ensures
        final(shared).wf(),
        claim_made(
            *ctx,
            *discovery,
            now_ms,
            old(shared)@,
            *old(state),
            final(shared)@,
            *final(state),
            outcome,
        ),
{
    let ghost players = shared.pool@;
    let ghost free = claims::present(players, discovery.candidates@);
    if discovery.candidates.len() < MATCH_SIZE {
        state.record_failure(discovery.seed.id);
        shared.metrics.match_attempts_insufficient =
        shared.metrics.match_attempts_insufficient.wrapping_add(1);
        return Err(
            MatchAttemptResult::InsufficientCandidates {
                found: discovery.candidates.len(),
                window: discovery.max_rating - discovery.min_rating,
                seed_mmr: discovery.seed.skill_rating,
                stage: discovery.stage,
            },
        );
    }
    let claimed = claims::claim_candidates(
        &mut shared.pool,
        &discovery.candidates,
        ctx.worker_id,
        now_ms,
    );
    proof {
        claims::lemma_present_members(players, discovery.candidates@);
        claims::lemma_claims(players, discovery.candidates@, ctx.worker_id, now_ms);
    }
    if claimed.len() < MATCH_SIZE {
        let count: usize = claims::roll_back(&mut shared.pool, &claimed);
        proof {
            old(shared).pool.lemma_wf_is_consistent();
            claims::lemma_all_present(players, free);
            claims::law_roll_back_restores_the_pool(players, free, ctx.worker_id, now_ms);
        }
        state.record_failure(discovery.seed.id);
        shared.metrics.match_attempts_claim_failed =
        shared.metrics.match_attempts_claim_failed.wrapping_add(1);
        return Err(MatchAttemptResult::ClaimFailed { claimed: count, needed: MATCH_SIZE });
    }
    proof {
        lemma_ratings_stay_valid(players, claimed@);
    }
    Ok(claimed)
}

/// The counters after a match of ten players.
pub open spec fn match_counted(
    metrics: Metrics,
    team_delta: u32,
    total_wait_ms: u64,
    skill_spread: u32,
) -> Metrics {
    Metrics {
        total_matches_created: metrics.total_matches_created.wrapping_add(1),
        total_players_matched: metrics.total_players_matched.wrapping_add(MATCH_SIZE as u64),
        current_queue_size: metrics.current_queue_size.wrapping_sub(MATCH_SIZE as i64),
        total_wait_time_ms: metrics.total_wait_time_ms.wrapping_add(total_wait_ms),
        skill_spread_sum: metrics.skill_spread_sum.wrapping_add(skill_spread as u64),
        skill_spread_count: metrics.skill_spread_count.wrapping_add(1),
        team_delta_sum: metrics.team_delta_sum.wrapping_add(team_delta as u64),
        team_delta_count: metrics.team_delta_count.wrapping_add(1),
        ..metrics
    }
}

/// Update the counters after a match of ten players. The waits have to add up
/// to no more than a `u64` can hold.
pub fn update_metrics_on_success(
    metrics: &mut Metrics,
    completed_match: &Match,
    wait_times_ms: &[u64],
    skill_spread: u32,
)
    requires
        utils::sum_u64(wait_times_ms@) <= u64::MAX,
    ensures
        *final(metrics) == match_counted(
            *old(metrics),
            completed_match.team_delta,
            utils::sum_u64(wait_times_ms@) as u64,
            skill_spread,
        ),
{
    let total_wait: u64 = total_u64(wait_times_ms);
    metrics.total_matches_created = metrics.total_matches_created.wrapping_add(1);
    metrics.total_players_matched = metrics.total_players_matched.wrapping_add(MATCH_SIZE as u64);
    metrics.current_queue_size = metrics.current_queue_size.wrapping_sub(MATCH_SIZE as i64);
    metrics.total_wait_time_ms = metrics.total_wait_time_ms.wrapping_add(total_wait);
    metrics.skill_spread_sum = metrics.skill_spread_sum.wrapping_add(skill_spread as u64);
    metrics.skill_spread_count = metrics.skill_spread_count.wrapping_add(1);
    metrics.team_delta_sum =
    metrics.team_delta_sum.wrapping_add(completed_match.team_delta as u64);
    metrics.team_delta_count = metrics.team_delta_count.wrapping_add(1);
}

/// What the third phase does with ten claimed players: if the pool still holds
/// them all as they were claimed, they become a match; otherwise those still held
/// are released and the failure is recorded.
pub open spec fn completed_with(
    ctx: WorkerContext,
    seed_id: u128,
    claimed: Seq<Player>,
    stamp: MatchStamp,
    before: SharedView,
    state: WorkerState,
    after: SharedView,
    next: WorkerState,
    outcome: MatchAttemptResult,
) -> bool {
    let held = claims::present(before.players, claimed);
    match outcome {
        MatchAttemptResult::Success(completed) => {
            &&& held == claimed
            &&& completed@ == record::match_of(claimed, stamp)
            &&& after == (SharedView {
                players: claims::without(before.players, claimed),
                metrics: match_counted(
                    before.metrics,
                    completed@.team_delta,
                    utils::sum_u64(record::waits_of(claimed, stamp.matched_at)) as u64,
                    completed@.skill_spread,
                ),
                history: record::recorded(
                    before.history,
                    completed@,
                    ctx.match_history_limit as nat,
                ),
            })
            &&& next == WorkerState::fresh()
        },
        MatchAttemptResult::ClaimFailed { claimed: kept, needed } => {
            &&& held.len() < MATCH_SIZE
            &&& kept == held.len()
            &&& needed == MATCH_SIZE
            &&& after == (SharedView {
                players: claims::stored(before.players, claims::all_released(held)),
                metrics: claim_failure_counted(before.metrics),
                history: before.history,
            })
            &&& next == state.after_failure(seed_id)
        },
        _ => false,
    }
}

/// Third phase: turn ten claimed players into a match; see [`completed_with`].
///
/// If the pool still holds all ten as they were claimed, they are balanced into
/// two teams and taken out of the pool, and the match is recorded. Otherwise
/// those still held are released and the failure is recorded.
pub fn complete(
    ctx: &WorkerContext,
    shared: &mut SharedState,
    state: &mut WorkerState,
    seed_id: u128,
    claimed: &Vec<Player>,
    stamp: &MatchStamp,
) -> (outcome: MatchAttemptResult)
    requires
        old(shared).wf(),
        old(state).can_count(seed_id),
        claimed@.len() == MATCH_SIZE,
        claims::distinct(claimed@),
    ensures
        final(shared).wf(),
        completed_with(
            *ctx,
            seed_id,
            claimed@,
            *stamp,
            old(shared)@,
            *old(state),
            final(shared)@,
            *final(state),
            outcome,
        ),
{
    let ghost players = shared.pool@;
    if !claims::all_held(&shared.pool, claimed) {
        let kept: usize = claims::roll_back(&mut shared.pool, claimed);
        proof {
            let held = claims::present(players, claimed@);
            claims::lemma_present_members(players, claimed@);
            claims::lemma_present_is_shorter(players, claimed@);
            assert forall|i: int| 0 <= i < claims::all_released(held).len() implies players.contains_key(
                (#[trigger] claims::all_released(held)[i]).id,
            ) && players[claims::all_released(held)[i].id].skill_rating == claims::all_released(
                held,
            )[i].skill_rating by {
                assert(claims::holds(players, held[i]));
            }
            lemma_ratings_stay_valid(players, claims::all_released(held));
        }
        state.record_failure(seed_id);
        shared.metrics.match_attempts_claim_failed =
        shared.metrics.match_attempts_claim_failed.wrapping_add(1);
        return MatchAttemptResult::ClaimFailed { claimed: kept, needed: MATCH_SIZE };
    }
    proof {
        claims::lemma_present_members(players, claimed@);
        assert forall|i: int| 0 <= i < claimed@.len() implies (#[trigger] claimed@[i]).skill_rating
            <= bucket::MAX_SKILL_RATING by {
            assert(claims::holds(players, claims::present(players, claimed@)[i]));
            assert(players.contains_key(claimed@[i].id));
        }
        record::lemma_ratings_fit(claimed@);
        record::lemma_waits_fit(claimed@, stamp.matched_at);
    }
    let waits = record::measure_waits(claimed, stamp.matched_at);
    let completed = record::form_match(claimed, &waits, stamp);
    let _matched = claims::take_out(&mut shared.pool, claimed, stamp.matched_at);
    record::record_match(&mut shared.match_history, completed.clone(), ctx.match_history_limit);
    let skill_spread: u32 = completed.skill_spread;
    update_metrics_on_success(&mut shared.metrics, &completed, waits.as_slice(), skill_spread);
    state.reset();
    MatchAttemptResult::Success(completed)
}

/// What an attempt does that runs all three phases at once: at `now` on the
/// engine's clock for discovery, at `now_ms` for the claims, and with `stamp`
/// for the match.
pub open spec fn attempted(
    ctx: WorkerContext,
    now: u64,
    now_ms: u64,
    stamp: MatchStamp,
    before: SharedView,
    state: WorkerState,
    after: SharedView,
    next: WorkerState,
    outcome: MatchAttemptResult,
) -> bool {
    match seed_of(before.players, ctx.config, state, now) {
        None => {
            &&& outcome is PoolEmpty
            &&& after == (SharedView { metrics: cycle_counted(before.metrics), ..before })
            &&& next == state
        },
        Some(seed) => {
            let bounds = bounds_of(seed, ctx.config, now);
            let found = candidates_of(before.players, ctx.config, seed, now);
            let ten = claims::all_claimed(found.take(MATCH_SIZE as int), ctx.worker_id, now_ms);
            if found.len() < MATCH_SIZE {
                &&& outcome matches MatchAttemptResult::InsufficientCandidates {
                    found: count,
                    window,
                    seed_mmr,
                    stage,
                }
                &&& count == found.len()
                &&& window == bounds.1 - bounds.0
                &&& seed_mmr == seed.skill_rating
                &&& stage == relaxation::stage_after(
                    millis_between(seed.join_timestamp, now),
                    ctx.config,
                )
                &&& after == (SharedView {
                    metrics: shortage_counted(cycle_counted(before.metrics)),
                    ..before
                })
                &&& next == state.after_failure(seed.id)
            } else {
                &&& outcome matches MatchAttemptResult::Success(completed)
                &&& completed@ == record::match_of(ten, stamp)
                &&& after == (SharedView {
                    players: claims::without(before.players, ten),
                    metrics: match_counted(
                        cycle_counted(before.metrics),
                        completed@.team_delta,
                        utils::sum_u64(record::waits_of(ten, stamp.matched_at)) as u64,
                        completed@.skill_spread,
                    ),
                    history: record::recorded(
                        before.history,
                        completed@,
                        ctx.match_history_limit as nat,
                    ),
                })
                &&& next == WorkerState::fresh()
            }
        },
    }
}

/// Everyone in a match was waiting in the pool before and is gone after.
proof fn lemma_matched_players_leave(
    players: Map<u128, Player>,
    found: Seq<Player>,
    ctx: WorkerContext,
    now_ms: u64,
    stamp: MatchStamp,
)
    requires
        claims::present(players, found) == found,
        claims::all_waiting(found),
    ensures
        ({
            let ten = claims::all_claimed(claims::first_ten(found), ctx.worker_id, now_ms);
            forall|id: u128| #[trigger]
                record::match_of(ten, stamp).involves(id) ==> players.contains_key(id)
                    && players[id].waiting() && !claims::without(players, ten).contains_key(id)
        }),
{
    let ten = claims::all_claimed(claims::first_ten(found), ctx.worker_id, now_ms);
    claims::lemma_present_members(players, found);
    assert forall|id: u128| #[trigger]
        record::match_of(ten, stamp).involves(id) implies players.contains_key(id)
        && players[id].waiting() && !claims::without(players, ten).contains_key(id) by {
        record::law_match_involves_its_players(ten, stamp, id);
        let i = choose|i: int| 0 <= i < ten.len() && (#[trigger] ten[i]).id == id;
        assert(claims::holds(players, claims::present(players, found)[i]));
        assert(found[i].waiting());
    }
}

/// Perform one complete match attempt with the given readings; see
/// [`attempted`].
pub fn attempt_match_at(
    ctx: &WorkerContext,
    shared: &mut SharedState,
    state: &mut WorkerState,
    now: u64,
    now_ms: u64,
    stamp: &MatchStamp,
) -> (outcome: MatchAttemptResult)
    requires
        old(shared).wf(),
        forall|id: u128| #[trigger]
            old(shared)@.players.contains_key(id) ==> old(state).can_count(id),
    ensures
        final(shared).wf(),
        attempted(
            *ctx,
            now,
            now_ms,
            *stamp,
            old(shared)@,
            *old(state),
            final(shared)@,
            *final(state),
            outcome,
        ),
        outcome is PoolEmpty <==> forall|id: u128| #[trigger]
            old(shared)@.players.contains_key(id) ==> !old(shared)@.players[id].waiting(),
        outcome matches MatchAttemptResult::Success(completed) ==> forall|id: u128| #[trigger]
            completed@.involves(id) ==> old(shared)@.players.contains_key(id) && old(
                shared,
            )@.players[id].waiting() && !final(shared)@.players.contains_key(id),
        outcome matches MatchAttemptResult::Success(completed) ==> {
            &&& completed@.ids().len() == MATCH_SIZE
            &&& completed@.ids().no_duplicates()
            &&& scan::oldest_of(old(shared)@.players, None) matches Some(oldest) && (
            !has_given_up_on(*old(state), oldest) ==> completed@.involves(oldest.id))
        },
{
    let ghost before = shared@;
    count_cycle(&mut shared.metrics);
    match discover(ctx, &shared.pool, state, now) {
        None => MatchAttemptResult::PoolEmpty,
        Some(discovery) => {
            let ghost found = discovery.candidates@;
            proof {
                assert forall|i: int| 0 <= i < found.len() implies claims::holds(
                    before.players,
                    #[trigger] found[i],
                ) by {
                    assert(scan::in_range(
                        before.players,
                        found[i],
                        discovery.min_rating,
                        discovery.max_rating,
                    ));
                }
                claims::lemma_all_present(before.players, found);
                claims::lemma_claims(before.players, found, ctx.worker_id, now_ms);
            }
            match claim(ctx, shared, state, &discovery, now_ms) {
                Err(failure) => failure,
                Ok(claimed) => {
                    proof {
                        assert(claims::first_ten(found) =~= found.take(MATCH_SIZE as int));
                        claims::lemma_stored(before.players, claimed@);
                        claims::lemma_all_present(shared@.players, claimed@);
                        assert(claims::without(shared@.players, claimed@) =~= claims::without(
                            before.players,
                            claimed@,
                        ));
                    }
                    let outcome = complete(
                        ctx,
                        shared,
                        state,
                        discovery.seed.id,
                        &claimed,
                        stamp,
                    );
                    proof {
                        lemma_matched_players_leave(before.players, found, *ctx, now_ms, *stamp);
                        record::law_players_of_a_match_differ(claimed@, *stamp);
                        let oldest = scan::oldest_of(before.players, None)->0;
                        if !has_given_up_on(*old(state), oldest) {
                            old(shared).pool.lemma_wf_is_consistent();
                            law_seed_leads_its_candidates(
                                before.players,
                                ctx.config,
                                *old(state),
                                now,
                                oldest,
                            );
                            assert(claimed@[0].id == oldest.id);
                            record::law_match_involves_its_players(claimed@, *stamp, oldest.id);
                        }
                    }
                    outcome
                },
            }
        },
    }
}

/// Perform one complete match attempt now.
///
/// The readings are whatever the clocks and the random number generator give;
/// [`attempt_match_at`] takes them as arguments.
pub fn attempt_match(ctx: &WorkerContext, shared: &mut SharedState, state: &mut WorkerState) -> (outcome:
    MatchAttemptResult)
    requires
        old(shared).wf(),
        forall|id: u128| #[trigger]
            old(shared)@.players.contains_key(id) ==> old(state).can_count(id),
    ensures
        final(shared).wf(),
        exists|now: u64, now_ms: u64, stamp: MatchStamp| #[trigger]
            attempted(
                *ctx,
                now,
                now_ms,
                stamp,
                old(shared)@,
                *old(state),
                final(shared)@,
                *final(state),
                outcome,
            ) && record::is_random_uuid(stamp.match_id),
        outcome is PoolEmpty <==> forall|id: u128| #[trigger]
            old(shared)@.players.contains_key(id) ==> !old(shared)@.players[id].waiting(),
        outcome matches MatchAttemptResult::Success(completed) ==> forall|id: u128| #[trigger]
            completed@.involves(id) ==> old(shared)@.players.contains_key(id) && old(
                shared,
            )@.players[id].waiting() && !final(shared)@.players.contains_key(id),
        outcome matches MatchAttemptResult::Success(completed) ==> {
            &&& completed@.ids().len() == MATCH_SIZE
            &&& completed@.ids().no_duplicates()
            &&& scan::oldest_of(old(shared)@.players, None) matches Some(oldest) && (
            !has_given_up_on(*old(state), oldest) ==> completed@.involves(oldest.id))
        },
{
    let now: u64 = ctx.clock.now();
    let now_ms: u64 = unix_ms();
    let stamp = MatchStamp::take(&ctx.clock);
    attempt_match_at(ctx, shared, state, now, now_ms, &stamp)
}

/// The current Unix time in milliseconds; `0` if the system clock stands before
/// the epoch.
pub fn unix_ms() -> (millis: u64)
    ensures
        exists|reading: Option<(u64, u32)>| millis == #[trigger] utils::unix_ms_spec(reading),
{
    now_unix_ms()
}

/// Everyone in a match was in the pool before it was formed and is not in the
/// pool after; everyone else is where they were.
pub proof fn law_match_takes_its_players_out(
    players: Map<u128, Player>,
    claimed: Seq<Player>,
    stamp: MatchStamp,
    id: u128,
)
    requires
        claims::present(players, claimed) == claimed,
    ensures
        record::match_of(claimed, stamp).involves(id) ==> players.contains_key(id) && !claims::without(
            players,
            claimed,
        ).contains_key(id),
        !record::match_of(claimed, stamp).involves(id) ==> (claims::without(players, claimed).contains_key(id)
            <==> players.contains_key(id)),
        !record::match_of(claimed, stamp).involves(id) && players.contains_key(id) ==> claims::without(
            players,
            claimed,
        )[id] == players[id],
{
    record::law_match_involves_its_players(claimed, stamp, id);
    claims::lemma_present_members(players, claimed);
    if claims::listed(claimed, id) {
        let k = choose|k: int| 0 <= k < claimed.len() && (#[trigger] claimed[k]).id == id;
        assert(claims::holds(players, claims::present(players, claimed)[k]));
    }
}

/// Completed matches share no player, whatever happened in between, unless the
/// player joined the queue again: of the players that the pool held at the first
/// match, the later pool has only such as the first match left in it, besides any
/// newcomers.
pub proof fn law_completed_matches_share_no_player(
    players: Map<u128, Player>,
    first: Seq<Player>,
    first_stamp: MatchStamp,
    later: Map<u128, Player>,
    second: Seq<Player>,
    second_stamp: MatchStamp,
    id: u128,
)
    requires
        claims::present(players, first) == first,
        forall|x: u128| #[trigger]
            later.contains_key(x) && players.contains_key(x) ==> claims::without(
                players,
                first,
            ).contains_key(x),
        claims::present(later, second) == second,
    ensures
        !(record::match_of(first, first_stamp).involves(id) && record::match_of(
            second,
            second_stamp,
        ).involves(id)),
{
    law_match_takes_its_players_out(players, first, first_stamp, id);
    law_match_takes_its_players_out(later, second, second_stamp, id);
}

/// A match takes ten different players out of the pool, all of whom were waiting
/// there and rated within the seed's window, and nobody else is affected.
pub proof fn law_attempt_takes_ten_waiting_players(
    ctx: WorkerContext,
    now: u64,
    now_ms: u64,
    stamp: MatchStamp,
    before: SharedView,
    state: WorkerState,
    after: SharedView,
    next: WorkerState,
    outcome: MatchAttemptResult,
)
    requires
        bucket::consistent(before.players),
        attempted(ctx, now, now_ms, stamp, before, state, after, next, outcome),
        outcome is Success,
    ensures
        ({
            let completed = outcome->Success_0@;
            &&& forall|id: u128| #[trigger]
                completed.involves(id) ==> before.players.contains_key(id)
                    && before.players[id].waiting() && !after.players.contains_key(id)
            &&& forall|id: u128|
                !#[trigger] completed.involves(id) ==> (after.players.contains_key(id)
                    <==> before.players.contains_key(id)) && (before.players.contains_key(id)
                    ==> after.players[id] == before.players[id])
            &&& completed.ids().len() == MATCH_SIZE
            &&& completed.ids().no_duplicates()
            &&& after.players.dom().len() + MATCH_SIZE == before.players.dom().len()
            &&& seed_of(before.players, ctx.config, state, now) matches Some(seed) && (
            ratings_valid(before.players) ==> completed.skill_spread <= bounds_of(
                seed,
                ctx.config,
                now,
            ).1 - bounds_of(seed, ctx.config, now).0)
        }),
{
    let completed = outcome->Success_0@;
    let seed = seed_of(before.players, ctx.config, state, now)->0;
    let found = candidates_of(before.players, ctx.config, seed, now);
    let bounds = bounds_of(seed, ctx.config, now);
    let ten = claims::all_claimed(found.take(MATCH_SIZE as int), ctx.worker_id, now_ms);
    lemma_seed_is_in_the_pool(before.players, ctx.config, state, now, seed);
    lemma_candidates(before.players, ctx.config, seed, now);
    assert(claims::first_ten(found) =~= found.take(MATCH_SIZE as int));
    lemma_matched_players_leave(before.players, found, ctx, now_ms, stamp);
    assert forall|id: u128| !#[trigger] completed.involves(id) implies (after.players.contains_key(
        id,
    ) <==> before.players.contains_key(id)) && (before.players.contains_key(id)
        ==> after.players[id] == before.players[id]) by {
        record::law_match_involves_its_players(ten, stamp, id);
    }
    let taken = found.take(MATCH_SIZE as int);
    claims::lemma_present_members(before.players, found);
    assert forall|i: int| 0 <= i < taken.len() implies claims::holds(
        before.players,
        #[trigger] taken[i],
    ) by {
        assert(claims::holds(before.players, claims::present(before.players, found)[i]));
    }
    claims::lemma_all_present(before.players, taken);
    assert forall|i: int, j: int| 0 <= i < j < taken.len() implies (#[trigger] taken[i]).id != (
    #[trigger] taken[j]).id by {
        assert(found[i].id != found[j].id);
    }
    claims::law_match_shrinks_the_pool_by_ten(before.players, taken);
    assert forall|id: u128| claims::listed(taken, id) <==> claims::listed(ten, id) by {
        if claims::listed(taken, id) {
            let i = choose|i: int| 0 <= i < taken.len() && (#[trigger] taken[i]).id == id;
            assert(ten[i].id == id);
        }
        if claims::listed(ten, id) {
            let i = choose|i: int| 0 <= i < ten.len() && (#[trigger] ten[i]).id == id;
            assert(taken[i].id == id);
        }
    }
    assert(after.players.dom() =~= claims::without(before.players, taken).dom());
    assert forall|i: int, j: int| 0 <= i < j < ten.len() implies (#[trigger] ten[i]).id != (
    #[trigger] ten[j]).id by {
        assert(taken[i].id != taken[j].id);
    }
    record::law_players_of_a_match_differ(ten, stamp);
    if ratings_valid(before.players) {
        assert forall|i: int| 0 <= i < ten.len() implies bounds.0 <= (
        #[trigger] ten[i]).skill_rating <= bounds.1 by {
            assert(scan::in_range(before.players, found[i], bounds.0, bounds.1));
        }
        record::law_spread_is_within_the_window(ten, bounds.0, bounds.1);
    }
}

/// No player appears in two matches, unless it joined the queue again in
/// between: if of the players that the pool held before the first match, the
/// later pool has only such as that match left in it, besides any newcomers, the
/// two matches have no player in common.
pub proof fn law_no_player_is_in_two_matches(
    ctx: WorkerContext,
    now: u64,
    now_ms: u64,
    stamp: MatchStamp,
    before: SharedView,
    state: WorkerState,
    after: SharedView,
    next: WorkerState,
    outcome: MatchAttemptResult,
    later_ctx: WorkerContext,
    later_now: u64,
    later_ms: u64,
    later_stamp: MatchStamp,
    later: SharedView,
    later_state: WorkerState,
    last: SharedView,
    last_state: WorkerState,
    later_outcome: MatchAttemptResult,
    id: u128,
)
    requires
        bucket::consistent(before.players),
        attempted(ctx, now, now_ms, stamp, before, state, after, next, outcome),
        outcome is Success,
        bucket::consistent(later.players),
        forall|x: u128| #[trigger]
            later.players.contains_key(x) && before.players.contains_key(x)
                ==> after.players.contains_key(x),
        attempted(
            later_ctx,
            later_now,
            later_ms,
            later_stamp,
            later,
            later_state,
            last,
            last_state,
            later_outcome,
        ),
        later_outcome is Success,
    ensures
        !(outcome->Success_0@.involves(id) && later_outcome->Success_0@.involves(id)),
{
    law_attempt_takes_ten_waiting_players(
        ctx,
        now,
        now_ms,
        stamp,
        before,
        state,
        after,
        next,
        outcome,
    );
    law_attempt_takes_ten_waiting_players(
        later_ctx,
        later_now,
        later_ms,
        later_stamp,
        later,
        later_state,
        last,
        last_state,
        later_outcome,
    );
}

/// Nobody starves: once the seed has passed the last threshold, and the last
/// window covers all ratings, an attempt succeeds whenever ten players wait.
pub proof fn law_seed_past_the_last_threshold_is_matched(
    ctx: WorkerContext,
    now: u64,
    now_ms: u64,
    stamp: MatchStamp,
    before: SharedView,
    state: WorkerState,
    after: SharedView,
    next: WorkerState,
    outcome: MatchAttemptResult,
    seed: Player,
    ten: Seq<Player>,
)
    requires
        bucket::consistent(before.players),
        ratings_valid(before.players),
        ctx.config.valid(),
        ctx.config.relaxation_stage_5_delta >= bucket::MAX_SKILL_RATING,
        seed_of(before.players, ctx.config, state, now) == Some(seed),
        millis_between(seed.join_timestamp, now) >= ctx.config.relaxation_stage_4_ms,
        ten.len() == MATCH_SIZE,
        claims::distinct(ten),
        claims::all_waiting(ten),
        claims::present(before.players, ten) == ten,
        attempted(ctx, now, now_ms, stamp, before, state, after, next, outcome),
    ensures
        outcome is Success,
{
    let found = candidates_of(before.players, ctx.config, seed, now);
    let bounds = bounds_of(seed, ctx.config, now);
    let scanned = scan::scan_of(before.players, bounds.0, bounds.1);
    lemma_seed_is_in_the_pool(before.players, ctx.config, state, now, seed);
    scan::law_scan_is_defined(before.players, bounds.0, bounds.1);
    scan::lemma_with_seed(before.players, bounds.0, bounds.1, scanned, seed);
    relaxation::law_last_stage_admits_everyone(
        seed.skill_rating,
        millis_between(seed.join_timestamp, now),
        ctx.config,
    );
    claims::lemma_present_members(before.players, ten);
    if found.len() < MATCH_SIZE {
        assert forall|player: Player| ten.to_set().contains(player) implies found.to_set().contains(
            player,
        ) by {
            let i = choose|i: int| 0 <= i < ten.len() && ten[i] == player;
            assert(claims::holds(
                before.players,
                claims::present(before.players, ten)[i],
            ));
            assert(before.players.contains_key(ten[i].id));
            scan::law_scan_is_complete(
                before.players,
                0,
                bucket::MAX_SKILL_RATING,
                found,
                ten[i].id,
            );
        }
        assert forall|i: int, j: int| 0 <= i < ten.len() && 0 <= j < ten.len() && i != j implies ten[i]
            != ten[j] by {
            if i < j {
                assert(ten[i].id != ten[j].id);
            } else {
                assert(ten[j].id != ten[i].id);
            }
        }
        ten.unique_seq_to_set();
        found.lemma_cardinality_of_set();
        vstd::set_lib::lemma_len_subset(ten.to_set(), found.to_set());
    }
}

/// The seed of an attempt is in the pool and waiting.
proof fn lemma_seed_is_in_the_pool(
    players: Map<u128, Player>,
    config: Config,
    state: WorkerState,
    now: u64,
    seed: Player,
)
    requires
        bucket::consistent(players),
        seed_of(players, config, state, now) == Some(seed),
    ensures
        claims::holds(players, seed),
        seed.waiting(),
{
    scan::law_oldest_is_defined(players, None);
    let oldest = scan::oldest_of(players, None)->0;
    scan::law_oldest_is_defined(players, Some(bounds_of(oldest, config, now)));
}

/// Every attempt is counted once, whatever comes of it.
pub proof fn law_every_attempt_is_counted(
    ctx: WorkerContext,
    now: u64,
    now_ms: u64,
    stamp: MatchStamp,
    before: SharedView,
    state: WorkerState,
    after: SharedView,
    next: WorkerState,
    outcome: MatchAttemptResult,
)
    requires
        attempted(ctx, now, now_ms, stamp, before, state, after, next, outcome),
    ensures
        after.metrics.worker_cycles_total == before.metrics.worker_cycles_total.wrapping_add(1),
{
}

/// An attempt that forms no match leaves the players and the history as they were.
pub proof fn law_failed_attempt_changes_no_player(
    ctx: WorkerContext,
    now: u64,
    now_ms: u64,
    stamp: MatchStamp,
    before: SharedView,
    state: WorkerState,
    after: SharedView,
    next: WorkerState,
    outcome: MatchAttemptResult,
)
    requires
        attempted(ctx, now, now_ms, stamp, before, state, after, next, outcome),
        !(outcome is Success),
    ensures
        after.players == before.players,
        after.history == before.history,
        after.metrics.total_matches_created == before.metrics.total_matches_created,
        after.metrics.current_queue_size == before.metrics.current_queue_size,
{
}

/// A worker that has not given up on the longest-waiting player seeds with it:
/// nobody who joined earlier is passed over.
pub proof fn law_longest_waiting_player_is_the_seed(
    players: Map<u128, Player>,
    config: Config,
    state: WorkerState,
    now: u64,
    seed: Player,
    id: u128,
)
    requires
        bucket::consistent(players),
        seed_of(players, config, state, now) == Some(seed),
        !has_given_up_on(state, scan::oldest_of(players, None)->0),
        players.contains_key(id),
        players[id].waiting(),
    ensures
        id == seed.id || scan::senior(seed, players[id]),
{
    scan::law_oldest_is_defined(players, None);
}

/// The longest-waiting player leads the candidates it seeds.
pub proof fn law_seed_leads_its_candidates(
    players: Map<u128, Player>,
    config: Config,
    state: WorkerState,
    now: u64,
    seed: Player,
)
    requires
        bucket::consistent(players),
        seed_of(players, config, state, now) == Some(seed),
        !has_given_up_on(state, scan::oldest_of(players, None)->0),
    ensures
        candidates_of(players, config, seed, now).len() > 0,
        candidates_of(players, config, seed, now)[0] == seed,
{
    let bounds = bounds_of(seed, config, now);
    scan::law_oldest_is_defined(players, None);
    scan::law_scan_is_defined(players, bounds.0, bounds.1);
    scan::law_oldest_leads_its_candidates(
        players,
        seed,
        bounds.0,
        bounds.1,
        scan::scan_of(players, bounds.0, bounds.1),
    );
}

/// A match has the longest-waiting player in it, unless the worker has given up
/// on that player: whoever waits longest is matched first.
pub proof fn law_longest_waiting_player_is_in_the_match(
    ctx: WorkerContext,
    now: u64,
    now_ms: u64,
    stamp: MatchStamp,
    before: SharedView,
    state: WorkerState,
    after: SharedView,
    next: WorkerState,
    outcome: MatchAttemptResult,
    oldest: Player,
)
    requires
        bucket::consistent(before.players),
        attempted(ctx, now, now_ms, stamp, before, state, after, next, outcome),
        outcome is Success,
        scan::oldest_of(before.players, None) == Some(oldest),
        !has_given_up_on(state, oldest),
    ensures
        seed_of(before.players, ctx.config, state, now) == Some(oldest),
        outcome->Success_0@.involves(oldest.id),
{
    let found = candidates_of(before.players, ctx.config, oldest, now);
    let ten = claims::all_claimed(found.take(MATCH_SIZE as int), ctx.worker_id, now_ms);
    law_seed_leads_its_candidates(before.players, ctx.config, state, now, oldest);
    assert(ten[0].id == oldest.id);
    record::law_match_involves_its_players(ten, stamp, oldest.id);
}

/// Among the candidates, whoever has waited longer is matched first: nobody is
/// matched while a more senior candidate is left behind.
pub proof fn law_seniors_are_matched_first(
    ctx: WorkerContext,
    now: u64,
    now_ms: u64,
    stamp: MatchStamp,
    before: SharedView,
    state: WorkerState,
    after: SharedView,
    next: WorkerState,
    outcome: MatchAttemptResult,
    seed: Player,
    senior: Player,
    junior: Player,
)
    requires
        bucket::consistent(before.players),
        attempted(ctx, now, now_ms, stamp, before, state, after, next, outcome),
        outcome is Success,
        seed_of(before.players, ctx.config, state, now) == Some(seed),
        candidates_of(before.players, ctx.config, seed, now).contains(senior),
        claims::holds(before.players, junior),
        scan::senior(senior, junior),
        outcome->Success_0@.involves(junior.id),
    ensures
        outcome->Success_0@.involves(senior.id),
{
    let found = candidates_of(before.players, ctx.config, seed, now);
    let ten = claims::all_claimed(found.take(MATCH_SIZE as int), ctx.worker_id, now_ms);
    lemma_seed_is_in_the_pool(before.players, ctx.config, state, now, seed);
    lemma_candidates(before.players, ctx.config, seed, now);
    claims::lemma_present_members(before.players, found);
    record::law_match_involves_its_players(ten, stamp, junior.id);
    record::law_match_involves_its_players(ten, stamp, senior.id);
    let j = choose|j: int| 0 <= j < ten.len() && (#[trigger] ten[j]).id == junior.id;
    let i = choose|i: int| 0 <= i < found.len() && found[i] == senior;
    assert(claims::holds(before.players, claims::present(before.players, found)[j]));
    assert(found[j] == junior);
    if i > j {
        assert(scan::senior(found[j], found[i]));
    }
    assert(ten[i].id == senior.id);
}

/// A seed that has failed too often does not hold up the others: if anyone waits
/// outside its window, the next attempt starts with such a player.
pub proof fn law_failing_seed_gives_way(
    players: Map<u128, Player>,
    config: Config,
    state: WorkerState,
    now: u64,
    failing: Player,
    id: u128,
)
    requires
        bucket::consistent(players),
        ratings_valid(players),
        scan::oldest_of(players, None) == Some(failing),
        has_given_up_on(state, failing),
        players.contains_key(id),
        scan::eligible(players[id], Some(bounds_of(failing, config, now))),
    ensures
        seed_of(players, config, state, now) matches Some(seed) && scan::eligible(
            seed,
            Some(bounds_of(failing, config, now)),
        ) && seed.id != failing.id,
{
    let excluded = Some(bounds_of(failing, config, now));
    scan::law_oldest_is_defined(players, None);
    scan::law_oldest_is_defined(players, excluded);
    assert(players.contains_key(failing.id));
}

/// The bounds of a player hold exactly the valid ratings that differ from its own
/// by no more than the window for the time it has truly waited.
pub proof fn law_bounds_follow_the_wait(
    player: Player,
    config: Config,
    now: u64,
    waited_ms: u64,
    other: u32,
)
    requires
        player.skill_rating <= 3000,
        player.join_timestamp <= now,
        waited_ms * 1_000_000 <= now - player.join_timestamp < (waited_ms + 1) * 1_000_000,
    ensures
        bounds_of(player, config, now).0 <= other <= bounds_of(player, config, now).1 <==> other
            <= 3000 && other - player.skill_rating <= relaxation::window_after(waited_ms, config)
            && player.skill_rating - other <= relaxation::window_after(waited_ms, config),
{
    clock::law_wait_is_the_elapsed_time_rounded_down(player.join_timestamp, now);
    assert(waited_ms == millis_between(player.join_timestamp, now));
}

/// A worker counts its failures with one seed in a row, and starts over with
/// another.
pub proof fn law_failures_are_counted_per_seed(state: WorkerState, seed_id: u128)
    requires
        state.consecutive_failures < u32::MAX,
    ensures
        state.after_failure(seed_id).current_seed_id == Some(seed_id),
        state.current_seed_id == Some(seed_id) ==> state.after_failure(seed_id).consecutive_failures
            == state.consecutive_failures + 1,
        state.current_seed_id != Some(seed_id) ==> state.after_failure(seed_id).consecutive_failures
            == 1,
        WorkerState::fresh().consecutive_failures == 0,
        WorkerState::fresh().current_seed_id is None,
{
}

/// The first of the waiting players, by join time, then rating, then identifier, is
/// the one that [`scan::oldest_of`] gives.
proof fn lemma_first_is_oldest(players: Map<u128, Player>, first: Player)
    requires
        bucket::consistent(players),
        players.contains_key(first.id),
        players[first.id] == first,
        first.state == models::player_state::WAITING,
        forall|id: u128| #[trigger]
            players.contains_key(id) && players[id].state == models::player_state::WAITING
                ==> first.join_timestamp < players[id].join_timestamp || first.join_timestamp
                == players[id].join_timestamp && (first.skill_rating < players[id].skill_rating
                || first.skill_rating == players[id].skill_rating && first.id <= id),
    ensures
        scan::oldest_of(players, None) == Some(first),
{
    scan::law_oldest_is_defined(players, None);
    let found = scan::oldest_of(players, None);
    scan::law_oldest_joined_first(players, None, found, first.id);
    assert(players.contains_key(found->0.id));
}

/// Whose turn it is: the waiting player who joined first seeds the attempt, unless
/// the worker has failed with it three times in a row or more and somebody waits
/// outside its window. Then the seed is such a player, and nobody who waits outside
/// the window joined before it.
pub proof fn law_three_failures_pass_the_turn_on(
    players: Map<u128, Player>,
    config: Config,
    state: WorkerState,
    now: u64,
    first: Player,
    id: u128,
)
    requires
        bucket::consistent(players),
        players.contains_key(first.id),
        players[first.id] == first,
        first.state == models::player_state::WAITING,
        forall|other: u128| #[trigger]
            players.contains_key(other) && players[other].state == models::player_state::WAITING
                ==> first.join_timestamp < players[other].join_timestamp || first.join_timestamp
                == players[other].join_timestamp && (first.skill_rating
                < players[other].skill_rating || first.skill_rating == players[other].skill_rating
                && first.id <= other),
    ensures
        ({
            let bounds = bounds_of(first, config, now);
            let failing = state.current_seed_id == Some(first.id) && state.consecutive_failures
                >= 3;
            let waits_outside = players.contains_key(id) && players[id].state
                == models::player_state::WAITING && (players[id].skill_rating < bounds.0
                || players[id].skill_rating > bounds.1);
            &&& !failing ==> seed_of(players, config, state, now) == Some(first)
            &&& failing && waits_outside ==> {
                &&& seed_of(players, config, state, now) matches Some(seed)
                &&& players.contains_key(seed.id) && players[seed.id] == seed
                &&& seed.state == models::player_state::WAITING
                &&& seed.skill_rating < bounds.0 || seed.skill_rating > bounds.1
                &&& seed.join_timestamp <= players[id].join_timestamp
                &&& seed.join_timestamp == players[id].join_timestamp ==> seed.skill_rating
                    <= players[id].skill_rating
                &&& seed.join_timestamp == players[id].join_timestamp && seed.skill_rating
                    == players[id].skill_rating ==> seed.id <= id
            }
            &&& failing && (forall|other: u128| #[trigger]
                players.contains_key(other) && players[other].state
                    == models::player_state::WAITING ==> bounds.0 <= players[other].skill_rating
                    <= bounds.1) ==> seed_of(players, config, state, now) == Some(first)
        }),
{
    let bounds = bounds_of(first, config, now);
    lemma_first_is_oldest(players, first);
    scan::law_oldest_is_defined(players, Some(bounds));
    let alternate = scan::oldest_of(players, Some(bounds));
    scan::law_oldest_joined_first(players, Some(bounds), alternate, id);
    if alternate is Some {
        assert(players.contains_key(alternate->0.id));
    }
}

/// Without a waiting player there is no seed, and with one there is.
pub proof fn law_seed_needs_a_waiting_player(
    players: Map<u128, Player>,
    config: Config,
    state: WorkerState,
    now: u64,
    id: u128,
)
    requires
        bucket::consistent(players),
    ensures
        players.contains_key(id) && players[id].state == models::player_state::WAITING ==> seed_of(
            players,
            config,
            state,
            now,
        ) is Some,
        seed_of(players, config, state, now) matches Some(seed) ==> players.contains_key(seed.id)
            && players[seed.id] == seed && seed.state == models::player_state::WAITING,
{
    scan::law_oldest_is_defined(players, None);
    scan::law_oldest_joined_first(players, None, scan::oldest_of(players, None), id);
    if seed_of(players, config, state, now) is Some {
        lemma_seed_is_in_the_pool(
            players,
            config,
            state,
            now,
            seed_of(players, config, state, now)->0,
        );
    }
}

/// The candidates are as many as wait in the window, up to two hundred, and if
/// there is room for all, all are candidates.
proof fn lemma_candidates_cover_the_window(
    players: Map<u128, Player>,
    config: Config,
    seed: Player,
    now: u64,
    near: Set<u128>,
)
    requires
        bucket::consistent(players),
        ratings_valid(players),
        claims::holds(players, seed),
        seed.waiting(),
        forall|id: u128| #[trigger]
            near.contains(id) <==> players.contains_key(id) && players[id].state
                == models::player_state::WAITING && bounds_of(seed, config, now).0
                <= players[id].skill_rating <= bounds_of(seed, config, now).1,
    ensures
        near.finite(),
        ({
            let found = candidates_of(players, config, seed, now);
            &&& found.len() <= near.len()
            &&& found.len() < 200 ==> found.len() == near.len()
            &&& near.len() < 200 ==> forall|id: u128| #[trigger]
                near.contains(id) ==> found.contains(players[id])
        }),
{
    let found = candidates_of(players, config, seed, now);
    let bounds = bounds_of(seed, config, now);
    let scanned = scan::scan_of(players, bounds.0, bounds.1);
    let ids = found.map_values(|player: Player| player.id);
    lemma_candidates(players, config, seed, now);
    scan::law_scan_is_defined(players, bounds.0, bounds.1);
    scan::lemma_with_seed(players, bounds.0, bounds.1, scanned, seed);
    assert(near.subset_of(players.dom()));
    vstd::set_lib::lemma_len_subset(near, players.dom());
    assert(near.finite());
    assert forall|i: int, j: int| 0 <= i < ids.len() && 0 <= j < ids.len() && i != j implies ids[i]
        != ids[j] by {
        if i < j {
            assert(found[i].id != found[j].id);
        } else {
            assert(found[j].id != found[i].id);
        }
    }
    ids.unique_seq_to_set();
    assert forall|id: u128| ids.to_set().contains(id) implies near.contains(id) by {
        let i = choose|i: int| 0 <= i < ids.len() && ids[i] == id;
        assert(scan::in_range(players, found[i], bounds.0, bounds.1));
    }
    vstd::set_lib::lemma_len_subset(ids.to_set(), near);
    assert(players.contains_key(seed.id));
    assert(scan::in_range(players, seed, bounds.0, bounds.1));
    if found.len() < 200 {
        assert(found == scanned);
        assert forall|id: u128| near.contains(id) implies ids.to_set().contains(id) by {
            assert(scan::in_range(players, players[id], bounds.0, bounds.1));
            assert(found.contains(players[id]));
            let i = choose|i: int| 0 <= i < found.len() && found[i] == players[id];
            assert(ids[i] == id);
        }
        assert(ids.to_set() =~= near);
        assert forall|id: u128| #[trigger] near.contains(id) implies found.contains(
            players[id],
        ) by {
            assert(scan::in_range(players, players[id], bounds.0, bounds.1));
        }
    }
}

/// An attempt succeeds exactly if ten players or more wait in the seed's window,
/// the seed among them; otherwise it reports how many do, the width of the window
/// and the seed's rating and stage.
pub proof fn law_ten_in_the_window_make_a_match(
    ctx: WorkerContext,
    now: u64,
    now_ms: u64,
    stamp: MatchStamp,
    before: SharedView,
    state: WorkerState,
    after: SharedView,
    next: WorkerState,
    outcome: MatchAttemptResult,
    seed: Player,
    near: Set<u128>,
)
    requires
        bucket::consistent(before.players),
        ratings_valid(before.players),
        attempted(ctx, now, now_ms, stamp, before, state, after, next, outcome),
        seed_of(before.players, ctx.config, state, now) == Some(seed),
        forall|id: u128| #[trigger]
            near.contains(id) <==> before.players.contains_key(id) && before.players[id].state
                == models::player_state::WAITING && bounds_of(seed, ctx.config, now).0
                <= before.players[id].skill_rating <= bounds_of(seed, ctx.config, now).1,
    ensures
        outcome is Success <==> near.len() >= 10,
        near.len() < 10 ==> {
            &&& outcome matches MatchAttemptResult::InsufficientCandidates {
                found,
                window,
                seed_mmr,
                stage,
            }
            &&& found == near.len()
            &&& window == bounds_of(seed, ctx.config, now).1 - bounds_of(seed, ctx.config, now).0
            &&& seed_mmr == seed.skill_rating
            &&& stage == relaxation::stage_after(
                millis_between(seed.join_timestamp, now),
                ctx.config,
            )
        },
{
    lemma_seed_is_in_the_pool(before.players, ctx.config, state, now, seed);
    lemma_candidates_cover_the_window(before.players, ctx.config, seed, now, near);
}

/// Whoever is matched joined no later than anyone who waited in the same window and
/// was not, as long as fewer than two hundred wait there.
pub proof fn law_nobody_in_the_window_is_overtaken(
    ctx: WorkerContext,
    now: u64,
    now_ms: u64,
    stamp: MatchStamp,
    before: SharedView,
    state: WorkerState,
    after: SharedView,
    next: WorkerState,
    outcome: MatchAttemptResult,
    seed: Player,
    near: Set<u128>,
    matched: u128,
    left: u128,
)
    requires
        bucket::consistent(before.players),
        ratings_valid(before.players),
        attempted(ctx, now, now_ms, stamp, before, state, after, next, outcome),
        outcome is Success,
        seed_of(before.players, ctx.config, state, now) == Some(seed),
        forall|id: u128| #[trigger]
            near.contains(id) <==> before.players.contains_key(id) && before.players[id].state
                == models::player_state::WAITING && bounds_of(seed, ctx.config, now).0
                <= before.players[id].skill_rating <= bounds_of(seed, ctx.config, now).1,
        near.len() < 200,
        outcome->Success_0@.involves(matched),
        near.contains(left),
        !outcome->Success_0@.involves(left),
    ensures
        near.contains(matched),
        before.players[matched].join_timestamp <= before.players[left].join_timestamp,
{
    let found = candidates_of(before.players, ctx.config, seed, now);
    let bounds = bounds_of(seed, ctx.config, now);
    let ten = claims::all_claimed(found.take(MATCH_SIZE as int), ctx.worker_id, now_ms);
    lemma_seed_is_in_the_pool(before.players, ctx.config, state, now, seed);
    lemma_candidates(before.players, ctx.config, seed, now);
    lemma_candidates_cover_the_window(before.players, ctx.config, seed, now, near);
    record::law_match_involves_its_players(ten, stamp, matched);
    record::law_match_involves_its_players(ten, stamp, left);
    let j = choose|j: int| 0 <= j < ten.len() && (#[trigger] ten[j]).id == matched;
    assert(found.contains(before.players[left]));
    let i = choose|i: int| 0 <= i < found.len() && found[i] == before.players[left];
    assert(scan::in_range(before.players, found[j], bounds.0, bounds.1));
    assert(before.players.contains_key(left));
    if i < 10 {
        assert(ten[i].id == left);
    } else {
        assert(scan::senior(found[j], found[i]));
        scan::law_seniority_goes_by_join_time(found[i], found[j]);
    }
}

/// What a match records is true of the players as they waited in the pool: everyone
/// on either team is recorded with the rating it had and its wait in whole
/// milliseconds, no two of the matched differ by more than the spread, and nobody
/// waited longer than the maximum.
pub proof fn law_match_is_recorded_as_it_was(
    ctx: WorkerContext,
    now: u64,
    now_ms: u64,
    stamp: MatchStamp,
    before: SharedView,
    state: WorkerState,
    after: SharedView,
    next: WorkerState,
    outcome: MatchAttemptResult,
    id: u128,
    other: u128,
)
    requires
        bucket::consistent(before.players),
        attempted(ctx, now, now_ms, stamp, before, state, after, next, outcome),
        outcome is Success,
        outcome->Success_0@.involves(id),
        outcome->Success_0@.involves(other),
        before.players[id].join_timestamp <= stamp.matched_at,
    ensures
        ({
            let completed = outcome->Success_0@;
            let everyone = completed.team_a.players + completed.team_b.players;
            let waited = stamp.matched_at - before.players[id].join_timestamp;
            &&& before.players[id].skill_rating - before.players[other].skill_rating
                <= completed.skill_spread
            &&& waited / 1_000_000 <= completed.max_wait_ms
            &&& completed.match_id == stamp.match_id
            &&& completed.formed_at_unix == stamp.formed_at_unix
            &&& exists|k: int| {
                &&& 0 <= k < everyone.len()
                &&& (#[trigger] everyone[k]).id == id
                &&& everyone[k].skill_rating == before.players[id].skill_rating
                &&& everyone[k].wait_ms * 1_000_000 <= waited < (everyone[k].wait_ms + 1)
                    * 1_000_000
            }
            &&& ctx.match_history_limit > 0 ==> after.history.len() > 0
                && after.history[after.history.len() - 1] == completed
        }),
{
    let seed = seed_of(before.players, ctx.config, state, now)->0;
    let found = candidates_of(before.players, ctx.config, seed, now);
    let ten = claims::all_claimed(found.take(MATCH_SIZE as int), ctx.worker_id, now_ms);
    lemma_seed_is_in_the_pool(before.players, ctx.config, state, now, seed);
    lemma_candidates(before.players, ctx.config, seed, now);
    claims::lemma_present_members(before.players, found);
    record::law_match_involves_its_players(ten, stamp, id);
    record::law_match_involves_its_players(ten, stamp, other);
    let i = choose|i: int| 0 <= i < ten.len() && (#[trigger] ten[i]).id == id;
    let j = choose|j: int| 0 <= j < ten.len() && (#[trigger] ten[j]).id == other;
    assert(claims::holds(before.players, claims::present(before.players, found)[i]));
    assert(claims::holds(before.players, claims::present(before.players, found)[j]));
    assert(found[i].waiting());
    assert(before.players.contains_key(id));
    record::law_spread_is_the_largest_difference(ten, stamp);
    assert(ten[i].skill_rating - ten[j].skill_rating <= outcome->Success_0@.skill_spread);
    record::law_each_player_is_recorded(ten, stamp, i);
    record::lemma_wait_is_within_the_maximum(ten, stamp, i);
    record::law_history_keeps_the_newest(
        before.history,
        outcome->Success_0@,
        ctx.match_history_limit as nat,
        0,
    );
}

/// What an attempt adds to the counters: always one cycle; for a match one match,
/// ten players matched and ten fewer queued, its spread and its difference; for a
/// shortage one shortage. Nothing else is counted but the waits of a match.
pub proof fn law_attempt_adds_to_these_counters(
    ctx: WorkerContext,
    now: u64,
    now_ms: u64,
    stamp: MatchStamp,
    before: SharedView,
    state: WorkerState,
    after: SharedView,
    next: WorkerState,
    outcome: MatchAttemptResult,
)
    requires
        attempted(ctx, now, now_ms, stamp, before, state, after, next, outcome),
    ensures
        ({
            let a = before.metrics;
            let b = after.metrics;
            &&& b.total_players_enqueued == a.total_players_enqueued
            &&& b.total_players_cancelled == a.total_players_cancelled
            &&& b.match_attempts_claim_failed == a.match_attempts_claim_failed
            &&& b.total_stale_claims_recovered == a.total_stale_claims_recovered
            &&& b.worker_cycles_total == a.worker_cycles_total.wrapping_add(1)
            &&& outcome is InsufficientCandidates ==> b == (Metrics {
                worker_cycles_total: a.worker_cycles_total.wrapping_add(1),
                match_attempts_insufficient: a.match_attempts_insufficient.wrapping_add(1),
                ..a
            })
            &&& outcome is PoolEmpty ==> b == (Metrics {
                worker_cycles_total: a.worker_cycles_total.wrapping_add(1),
                ..a
            })
            &&& outcome matches MatchAttemptResult::Success(completed) ==> {
                &&& b.total_matches_created == a.total_matches_created.wrapping_add(1)
                &&& b.total_players_matched == a.total_players_matched.wrapping_add(10)
                &&& b.current_queue_size == a.current_queue_size.wrapping_sub(10)
                &&& b.match_attempts_insufficient == a.match_attempts_insufficient
                &&& b.skill_spread_sum == a.skill_spread_sum.wrapping_add(
                    completed@.skill_spread as u64,
                )
                &&& b.skill_spread_count == a.skill_spread_count.wrapping_add(1)
                &&& b.team_delta_sum == a.team_delta_sum.wrapping_add(completed@.team_delta as u64)
                &&& b.team_delta_count == a.team_delta_count.wrapping_add(1)
            }
        }),
        outcome is Success ==> next.consecutive_failures == 0 && next.current_seed_id is None,
        outcome is PoolEmpty ==> next == state,
{
}

/// The counter of waits grows by the sum of the ten waits in whole milliseconds,
/// and so by ten times the recorded average, up to its rounding.
pub proof fn law_waits_of_a_match_are_counted(
    ctx: WorkerContext,
    now: u64,
    now_ms: u64,
    stamp: MatchStamp,
    before: SharedView,
    state: WorkerState,
    after: SharedView,
    next: WorkerState,
    outcome: MatchAttemptResult,
)
    requires
        bucket::consistent(before.players),
        attempted(ctx, now, now_ms, stamp, before, state, after, next, outcome),
        outcome is Success,
        before.metrics.total_wait_time_ms < 0x8000_0000_0000_0000,
    ensures
        ({
            let added = after.metrics.total_wait_time_ms - before.metrics.total_wait_time_ms;
            let completed = outcome->Success_0@;
            &&& completed.avg_wait_ms * 10 <= added < (completed.avg_wait_ms + 1) * 10
            &&& completed.max_wait_ms <= added <= completed.max_wait_ms * 10
        }),
{
    let seed = seed_of(before.players, ctx.config, state, now)->0;
    let found = candidates_of(before.players, ctx.config, seed, now);
    let ten = claims::all_claimed(found.take(MATCH_SIZE as int), ctx.worker_id, now_ms);
    record::lemma_waits_fit(ten, stamp.matched_at);
    record::lemma_sum_and_largest(ten, stamp);
}

/// A failed attempt leaves the worker with its seed counted once more.
pub proof fn law_shortage_is_remembered(
    ctx: WorkerContext,
    now: u64,
    now_ms: u64,
    stamp: MatchStamp,
    before: SharedView,
    state: WorkerState,
    after: SharedView,
    next: WorkerState,
    outcome: MatchAttemptResult,
    seed: Player,
)
    requires
        attempted(ctx, now, now_ms, stamp, before, state, after, next, outcome),
        outcome is InsufficientCandidates,
        seed_of(before.players, ctx.config, state, now) == Some(seed),
        state.consecutive_failures < u32::MAX,
    ensures
        next.current_seed_id == Some(seed.id),
        state.current_seed_id == Some(seed.id) ==> next.consecutive_failures
            == state.consecutive_failures + 1,
        state.current_seed_id != Some(seed.id) ==> next.consecutive_failures == 1,
{
}

/// The second phase claims ten candidates whenever ten are free, and then exactly
/// those ten change: each is claimed by the worker since `now_ms`. Otherwise nobody
/// changes.
pub proof fn law_claim_takes_ten_or_nobody(
    ctx: WorkerContext,
    discovery: Discovery,
    now_ms: u64,
    before: SharedView,
    state: WorkerState,
    after: SharedView,
    next: WorkerState,
    outcome: Result<Vec<Player>, MatchAttemptResult>,
    ten: Seq<Player>,
    i: int,
    id: u128,
)
    requires
        claims::distinct(discovery.candidates@),
        claims::all_waiting(discovery.candidates@),
        claim_made(ctx, discovery, now_ms, before, state, after, next, outcome),
    ensures
        ten.len() == 10 && claims::distinct(ten) && (forall|k: int|
            0 <= k < ten.len() ==> discovery.candidates@.contains(#[trigger] ten[k])
                && before.players.contains_key(ten[k].id) && before.players[ten[k].id] == ten[k])
            ==> outcome is Ok,
        outcome is Err ==> after.players == before.players,
        after.history == before.history,
        outcome matches Ok(claimed) ==> {
            &&& claimed@.len() == 10
            &&& claims::distinct(claimed@)
            &&& 0 <= i < 10 ==> {
                let was = before.players[claimed@[i].id];
                let is = after.players[claimed@[i].id];
                &&& before.players.contains_key(claimed@[i].id)
                &&& after.players.contains_key(claimed@[i].id)
                &&& discovery.candidates@.contains(was)
                &&& was.state == models::player_state::WAITING
                &&& is == claimed@[i]
                &&& is.state == models::player_state::CLAIMED
                &&& is.claimed_by == ctx.worker_id
                &&& is.claim_timestamp == now_ms
                &&& is.skill_rating == was.skill_rating
                &&& is.join_timestamp == was.join_timestamp
            }
            &&& !claims::listed(claimed@, id) ==> (after.players.contains_key(id)
                <==> before.players.contains_key(id)) && (before.players.contains_key(id)
                ==> after.players[id] == before.players[id])
            &&& after.metrics == before.metrics
        },
{
    let candidates = discovery.candidates@;
    if ten.len() == 10 && claims::distinct(ten) && (forall|k: int|
        0 <= k < ten.len() ==> candidates.contains(#[trigger] ten[k])
            && before.players.contains_key(ten[k].id) && before.players[ten[k].id] == ten[k]) {
        claims::law_ten_free_candidates_are_enough(before.players, candidates, ten);
        claims::lemma_present_members(before.players, candidates);
    }
    if let Ok(claimed) = outcome {
        claims::lemma_claims(before.players, candidates, ctx.worker_id, now_ms);
        claims::law_first_ten_free_candidates_are_claimed(
            before.players,
            candidates,
            ctx.worker_id,
            now_ms,
            i,
            0,
        );
        claims::law_stored_players_replace_only_themselves(before.players, claimed@, i, id);
        if 0 <= i < 10 {
            let free = claims::present(before.players, candidates);
            assert(free[i].waiting());
            assert(claims::holds(before.players, free[i]));
        }
    }
}

/// The third phase makes a match exactly if the pool still holds all ten players as
/// they were claimed. Otherwise those it still holds are put back as waiting, free
/// of any claim, and nobody else changes.
pub proof fn law_completion_needs_every_claim(
    ctx: WorkerContext,
    seed_id: u128,
    claimed: Seq<Player>,
    stamp: MatchStamp,
    before: SharedView,
    state: WorkerState,
    after: SharedView,
    next: WorkerState,
    outcome: MatchAttemptResult,
    i: int,
    id: u128,
)
    requires
        claimed.len() == 10,
        claims::distinct(claimed),
        forall|k: int|
            0 <= k < claimed.len() ==> (#[trigger] claimed[k]).state
                == models::player_state::CLAIMED,
        completed_with(ctx, seed_id, claimed, stamp, before, state, after, next, outcome),
        0 <= i < 10,
    ensures
        outcome is Success <==> forall|k: int|
            0 <= k < claimed.len() ==> before.players.contains_key((#[trigger] claimed[k]).id)
                && before.players[claimed[k].id] == claimed[k],
        outcome is Success ==> !after.players.contains_key(claimed[i].id),
        !(outcome is Success) && before.players.contains_key(claimed[i].id)
            && before.players[claimed[i].id] == claimed[i] ==> {
            let is = after.players[claimed[i].id];
            &&& after.players.contains_key(claimed[i].id)
            &&& is.state == models::player_state::WAITING
            &&& is.claimed_by == 0
            &&& is.claim_timestamp == 0
            &&& is.skill_rating == claimed[i].skill_rating
            &&& is.join_timestamp == claimed[i].join_timestamp
        },
        !(outcome is Success) ==> after.history == before.history,
        !claims::listed(claimed, id) || !(outcome is Success) && !(before.players.contains_key(id)
            && claimed.contains(before.players[id])) ==> (after.players.contains_key(id)
            <==> before.players.contains_key(id)) && (before.players.contains_key(id)
            ==> after.players[id] == before.players[id]),
{
    let held = claims::present(before.players, claimed);
    claims::lemma_present_members(before.players, claimed);
    if forall|k: int|
        0 <= k < claimed.len() ==> before.players.contains_key((#[trigger] claimed[k]).id)
            && before.players[claimed[k].id] == claimed[k] {
        assert forall|k: int| 0 <= k < claimed.len() implies claims::holds(
            before.players,
            #[trigger] claimed[k],
        ) by {
            assert(before.players.contains_key(claimed[k].id));
        }
        claims::lemma_all_present(before.players, claimed);
    }
    if outcome is Success {
        assert forall|k: int| 0 <= k < claimed.len() implies before.players.contains_key(
            (#[trigger] claimed[k]).id,
        ) && before.players[claimed[k].id] == claimed[k] by {
            assert(claims::holds(before.players, held[k]));
        }
        claims::law_only_the_listed_are_taken_out(before.players, claimed, i, id);
        if !claims::listed(claimed, id) {
            assert forall|k: int| 0 <= k < claimed.len() implies (#[trigger] claimed[k]).id
                != id by {}
        }
    } else {
        let released = claims::all_released(held);
        assert forall|a: int, b: int| 0 <= a < b < released.len() implies (
        #[trigger] released[a]).id != (#[trigger] released[b]).id by {
            assert(held[a].id != held[b].id);
        }
        claims::lemma_stored(before.players, released);
        if claims::holds(before.players, claimed[i]) {
            assert(claimed.contains(claimed[i]));
            claims::law_present_are_those_the_pool_holds(before.players, claimed, claimed[i], 0, 0);
            let k = choose|k: int| 0 <= k < held.len() && held[k] == claimed[i];
            assert(released[k].id == claimed[i].id);
        }
        if claims::listed(released, id) {
            let k = choose|k: int| 0 <= k < released.len() && (#[trigger] released[k]).id == id;
            assert(claims::holds(before.players, held[k]));
            assert(claimed.contains(held[k]));
            let m = choose|m: int| 0 <= m < claimed.len() && claimed[m] == held[k];
            assert(claimed[m].id == id);
        }
    }
}

/// The second phase reports a shortage exactly if fewer than ten candidates were
/// found: how many, how wide the range was, and the seed's rating and stage. If ten
/// were found but fewer are still free, it reports how many are.
pub proof fn law_claim_reports_what_was_missing(
    ctx: WorkerContext,
    discovery: Discovery,
    now_ms: u64,
    before: SharedView,
    state: WorkerState,
    after: SharedView,
    next: WorkerState,
    outcome: Result<Vec<Player>, MatchAttemptResult>,
)
    requires
        claim_made(ctx, discovery, now_ms, before, state, after, next, outcome),
        state.consecutive_failures < u32::MAX,
    ensures
        discovery.candidates@.len() < 10 ==> {
            &&& outcome matches Err(
                MatchAttemptResult::InsufficientCandidates { found, window, seed_mmr, stage },
            )
            &&& found == discovery.candidates@.len()
            &&& window == discovery.max_rating - discovery.min_rating
            &&& seed_mmr == discovery.seed.skill_rating
            &&& stage == discovery.stage
            &&& after.metrics == (Metrics {
                match_attempts_insufficient: before.metrics.match_attempts_insufficient.wrapping_add(
                    1,
                ),
                ..before.metrics
            })
        },
        discovery.candidates@.len() >= 10 && outcome is Err ==> {
            &&& outcome matches Err(MatchAttemptResult::ClaimFailed { claimed, needed })
            &&& claimed < 10 && needed == 10
            &&& after.metrics == (Metrics {
                match_attempts_claim_failed: before.metrics.match_attempts_claim_failed.wrapping_add(
                    1,
                ),
                ..before.metrics
            })
        },
        outcome is Err ==> {
            &&& next.current_seed_id == Some(discovery.seed.id)
            &&& state.current_seed_id == Some(discovery.seed.id) ==> next.consecutive_failures
                == state.consecutive_failures + 1
            &&& state.current_seed_id != Some(discovery.seed.id) ==> next.consecutive_failures == 1
        },
        outcome is Ok ==> next == state,
{
}

/// What the third phase counts: a match adds one match, ten players matched and ten
/// fewer queued, its spread and its difference, and clears the worker's record; a
/// lost claim adds one failed claim and is held against the seed.
pub proof fn law_completion_adds_to_these_counters(
    ctx: WorkerContext,
    seed_id: u128,
    claimed: Seq<Player>,
    stamp: MatchStamp,
    before: SharedView,
    state: WorkerState,
    after: SharedView,
    next: WorkerState,
    outcome: MatchAttemptResult,
)
    requires
        claimed.len() == 10,
        completed_with(ctx, seed_id, claimed, stamp, before, state, after, next, outcome),
        state.consecutive_failures < u32::MAX,
    ensures
        ({
            let a = before.metrics;
            let b = after.metrics;
            &&& outcome matches MatchAttemptResult::Success(completed) ==> {
                &&& b == (Metrics {
                    total_matches_created: a.total_matches_created.wrapping_add(1),
                    total_players_matched: a.total_players_matched.wrapping_add(10),
                    current_queue_size: a.current_queue_size.wrapping_sub(10),
                    skill_spread_sum: a.skill_spread_sum.wrapping_add(
                        completed@.skill_spread as u64,
                    ),
                    skill_spread_count: a.skill_spread_count.wrapping_add(1),
                    team_delta_sum: a.team_delta_sum.wrapping_add(completed@.team_delta as u64),
                    team_delta_count: a.team_delta_count.wrapping_add(1),
                    total_wait_time_ms: b.total_wait_time_ms,
                    ..a
                })
                &&& a.total_wait_time_ms < 0x8000_0000_0000_0000 ==> completed@.avg_wait_ms * 10
                    <= b.total_wait_time_ms - a.total_wait_time_ms < (completed@.avg_wait_ms + 1)
                    * 10
                &&& next.consecutive_failures == 0 && next.current_seed_id is None
                &&& ctx.match_history_limit > 0 ==> after.history.len() > 0
                    && after.history[after.history.len() - 1] == completed@
            }
            &&& !(outcome is Success) ==> {
                &&& outcome matches MatchAttemptResult::ClaimFailed { claimed: kept, needed }
                &&& kept < 10 && needed == 10
                &&& b == (Metrics {
                    match_attempts_claim_failed: a.match_attempts_claim_failed.wrapping_add(1),
                    ..a
                })
                &&& next.current_seed_id == Some(seed_id)
                &&& state.current_seed_id == Some(seed_id) ==> next.consecutive_failures
                    == state.consecutive_failures + 1
                &&& state.current_seed_id != Some(seed_id) ==> next.consecutive_failures == 1
            }
        }),
{
    record::lemma_waits_fit(claimed, stamp.matched_at);
    record::lemma_sum_and_largest(claimed, stamp);
    if outcome is Success {
        record::law_history_keeps_the_newest(
            before.history,
            outcome->Success_0@,
            ctx.match_history_limit as nat,
            0,
        );
    }
}

} // verus!

//! Match formation: seeds, claims, matches and what they leave behind.

use std::collections::HashSet;

use matchmaker::clock::Clock;
use matchmaker::config::{Config, EnvVars};
use matchmaker::engine::balancer::TEAM_SIZE;
use matchmaker::engine::claims::{roll_back, take_out};
use matchmaker::engine::matcher::{
    attempt_match, attempt_match_at, claim, complete, count_cycle, discover, select_seed, unix_ms,
    MatchAttemptResult, SharedState, WorkerContext, WorkerState, MATCH_HISTORY_LIMIT,
};
use matchmaker::engine::record::MatchStamp;
use matchmaker::engine::relaxation::relaxation_window_after;
use matchmaker::engine::MatchmakerCore;
use matchmaker::metrics::Metrics;
use matchmaker::models::{player_state, Match, Player};
use matchmaker::workers::reaper_tick_at;
use uuid::Uuid;

fn new_id() -> u128 {
    Uuid::new_v4().as_u128()
}

fn default_config() -> Config {
    Config::from_env(&EnvVars::default()).unwrap()
}

fn fast_config() -> Config {
    Config {
        server_port: 9090,
        worker_count: 2,
        worker_tick_ms: 20,
        stale_claim_timeout_ms: 200,
        relaxation_stage_1_ms: 50,
        relaxation_stage_2_ms: 100,
        relaxation_stage_3_ms: 200,
        relaxation_stage_4_ms: 400,
        relaxation_stage_1_delta: 50,
        relaxation_stage_2_delta: 100,
        relaxation_stage_3_delta: 200,
        relaxation_stage_4_delta: 400,
        relaxation_stage_5_delta: 9999,
    }
}

fn make_ctx() -> (WorkerContext, SharedState) {
    let ctx = WorkerContext {
        worker_id: 1,
        config: default_config(),
        match_history_limit: MATCH_HISTORY_LIMIT,
        clock: Clock::start(),
    };
    (ctx, SharedState::new())
}

fn make_core() -> MatchmakerCore {
    MatchmakerCore::new(default_config(), Metrics::new())
}

fn enqueue_players(ctx: &WorkerContext, shared: &mut SharedState, count: usize, base_rating: u32) {
    for i in 0..count {
        shared.pool.insert(Player::new(new_id(), base_rating + i as u32, &ctx.clock));
    }
}

/// Ten players with identifiers 1 to 10, rated 1000 to 1045, who joined in order.
fn ten_in_order(shared: &mut SharedState) {
    for i in 1..=10u128 {
        shared.pool.insert(Player::joined_at(i, 1000 + 5 * (i as u32 - 1), i as u64));
    }
}

fn seed_uniform(core: &mut MatchmakerCore, count: usize, rating: u32) {
    for _ in 0..count {
        core.enqueue(new_id(), rating).expect("Seed enqueue must succeed");
    }
}

fn attempt(core: &mut MatchmakerCore, state: &mut WorkerState) -> MatchAttemptResult {
    let ctx = core.make_worker_context(1);
    attempt_match(&ctx, core.shared_mut(), state)
}

fn stamp(matched_at: u64) -> MatchStamp {
    MatchStamp { matched_at, match_id: 77, formed_at_unix: 1_700_000_000 }
}

fn ids_of(m: &Match) -> Vec<u128> {
    m.team_a.players.iter().chain(m.team_b.players.iter()).map(|p| p.id).collect()
}

fn assert_match_valid(m: &Match) {
    assert_eq!(m.team_a.players.len(), 5);
    assert_eq!(m.team_b.players.len(), 5);
    let ids: HashSet<u128> = ids_of(m).into_iter().collect();
    assert_eq!(ids.len(), 10, "No player may appear in both teams");
    let a_sum: u32 = m.team_a.players.iter().map(|p| p.skill_rating).sum();
    let b_sum: u32 = m.team_b.players.iter().map(|p| p.skill_rating).sum();
    assert_eq!(m.team_delta, a_sum.abs_diff(b_sum), "team_delta must equal |sum_a - sum_b|");
}

fn assert_no_duplicates(matches: &[Match]) {
    let mut seen: HashSet<u128> = HashSet::new();
    for m in matches {
        for id in ids_of(m) {
            assert!(seen.insert(id), "Player {id} appears in more than one match");
        }
    }
}

fn assert_team_delta_is_optimal(m: &Match) {
    let all_ratings: Vec<u32> = m
        .team_a
        .players
        .iter()
        .chain(m.team_b.players.iter())
        .map(|p| p.skill_rating)
        .collect();
    assert_eq!(all_ratings.len(), 10);
    let total: u32 = all_ratings.iter().sum();
    let min_possible = (0u16..1024u16)
        .filter(|m| m.count_ones() == 5)
        .map(|mask| {
            let a: u32 = (0..10).filter(|&i| (mask >> i) & 1 == 1).map(|i| all_ratings[i]).sum();
            (2 * a).abs_diff(total)
        })
        .min()
        .unwrap_or(u32::MAX);
    assert_eq!(m.team_delta, min_possible);
}

#[test]
fn test_pool_empty_returns_correct_result() {
    let (ctx, mut shared) = make_ctx();
    let mut state = WorkerState::new();
    let result = attempt_match(&ctx, &mut shared, &mut state);
    assert!(matches!(result, MatchAttemptResult::PoolEmpty));
}

#[test]
fn test_insufficient_candidates_with_nine_players() {
    let (ctx, mut shared) = make_ctx();
    let mut state = WorkerState::new();

    enqueue_players(&ctx, &mut shared, 9, 1000);

    let result = attempt_match(&ctx, &mut shared, &mut state);
    assert!(
        matches!(result, MatchAttemptResult::InsufficientCandidates { found: 9, .. }),
        "Expected InsufficientCandidates, got {:?}",
        result
    );
}

#[test]
fn test_successful_match_with_ten_players() {
    let (ctx, mut shared) = make_ctx();
    let mut state = WorkerState::new();

    enqueue_players(&ctx, &mut shared, 10, 1000);

    let result = attempt_match(&ctx, &mut shared, &mut state);
    assert!(
        matches!(result, MatchAttemptResult::Success(_)),
        "Expected Success, got {:?}",
        result
    );

    // Pool must be empty after match
    assert_eq!(shared.pool.len(), 0, "All players must be removed after match");
}

#[test]
fn test_match_teams_have_correct_sizes() {
    let (ctx, mut shared) = make_ctx();
    let mut state = WorkerState::new();

    enqueue_players(&ctx, &mut shared, 10, 1000);

    if let MatchAttemptResult::Success(m) = attempt_match(&ctx, &mut shared, &mut state) {
        assert_eq!(m.team_a.players.len(), TEAM_SIZE);
        assert_eq!(m.team_b.players.len(), TEAM_SIZE);
    } else {
        panic!("Expected successful match");
    }
}

#[test]
fn matcher_test_match_stored_in_history() {
    let (ctx, mut shared) = make_ctx();
    let mut state = WorkerState::new();

    enqueue_players(&ctx, &mut shared, 10, 1000);
    let _ = attempt_match(&ctx, &mut shared, &mut state);

    assert_eq!(shared.match_history.len(), 1, "Match must be stored in history");
}

#[test]
fn test_metrics_updated_on_success() {
    let (ctx, mut shared) = make_ctx();
    let mut state = WorkerState::new();

    enqueue_players(&ctx, &mut shared, 10, 1000);
    let _ = attempt_match(&ctx, &mut shared, &mut state);

    assert_eq!(shared.metrics.total_matches_created, 1);
    assert_eq!(shared.metrics.total_players_matched, 10);
}

#[test]
fn test_no_duplicate_players_across_teams() {
    let (ctx, mut shared) = make_ctx();
    let mut state = WorkerState::new();

    enqueue_players(&ctx, &mut shared, 10, 1000);

    if let MatchAttemptResult::Success(m) = attempt_match(&ctx, &mut shared, &mut state) {
        let a_ids: HashSet<u128> = m.team_a.players.iter().map(|p| p.id).collect();
        let b_ids: HashSet<u128> = m.team_b.players.iter().map(|p| p.id).collect();
        assert!(a_ids.is_disjoint(&b_ids), "No player may appear in both teams");
    } else {
        panic!("Expected successful match");
    }
}

#[test]
fn test_state_reset_after_success() {
    let (ctx, mut shared) = make_ctx();
    let mut state = WorkerState::new();
    state.consecutive_failures = 5;

    enqueue_players(&ctx, &mut shared, 10, 1000);
    let _ = attempt_match(&ctx, &mut shared, &mut state);

    assert_eq!(
        state.consecutive_failures, 0,
        "Failure counter must reset after successful match"
    );
    assert!(state.current_seed_id.is_none());
}

#[test]
fn test_multiple_sequential_matches() {
    let (ctx, mut shared) = make_ctx();
    let mut state = WorkerState::new();

    // 30 players form 3 sequential matches
    enqueue_players(&ctx, &mut shared, 30, 1000);

    let mut match_count = 0;
    for _ in 0..3 {
        if matches!(
            attempt_match(&ctx, &mut shared, &mut state),
            MatchAttemptResult::Success(_)
        ) {
            match_count += 1;
        }
    }

    assert_eq!(match_count, 3);
    assert_eq!(shared.pool.len(), 0);
}

#[test]
fn test_history_bounded_by_limit() {
    let (mut ctx, mut shared) = make_ctx();
    // only keep 2 matches
    ctx.match_history_limit = 2;

    let mut state = WorkerState::new();

    // Form 3 matches
    for _ in 0..3 {
        enqueue_players(&ctx, &mut shared, 10, 1000);
        let _ = attempt_match(&ctx, &mut shared, &mut state);
    }

    assert_eq!(
        shared.match_history.len(),
        2,
        "History must be bounded to match_history_limit"
    );
}

#[test]
fn test_worker_state_failure_tracking() {
    let mut state = WorkerState::new();
    let id = new_id();

    state.record_failure(id);
    assert_eq!(state.consecutive_failures, 1);
    assert_eq!(state.current_seed_id, Some(id));

    state.record_failure(id);
    assert_eq!(state.consecutive_failures, 2);

    // Different seed resets counter
    let id2 = new_id();
    state.record_failure(id2);
    assert_eq!(state.consecutive_failures, 1);
    assert_eq!(state.current_seed_id, Some(id2));
}

#[test]
fn test_match_forms_with_exactly_ten_players() {
    let mut core = make_core();
    let mut state = WorkerState::new();
    seed_uniform(&mut core, 10, 1000);
    let result = attempt(&mut core, &mut state);
    assert!(matches!(result, MatchAttemptResult::Success(_)));
}

#[test]
fn test_match_result_is_structurally_valid() {
    let mut core = make_core();
    let mut state = WorkerState::new();
    for i in 0..10u32 {
        core.enqueue(new_id(), 1000 + i * 5).unwrap();
    }
    if let MatchAttemptResult::Success(m) = attempt(&mut core, &mut state) {
        assert_match_valid(&m);
    } else {
        panic!("Expected a successful match");
    }
}

#[test]
fn test_team_delta_is_optimal_for_formed_match() {
    let mut core = make_core();
    let mut state = WorkerState::new();
    for i in 0..10u32 {
        core.enqueue(new_id(), 1000 + i * 5).unwrap();
    }
    if let MatchAttemptResult::Success(m) = attempt(&mut core, &mut state) {
        assert_team_delta_is_optimal(&m);
    } else {
        panic!("Expected a successful match");
    }
}

#[test]
fn test_all_players_removed_from_pool_after_match() {
    let mut core = make_core();
    let mut state = WorkerState::new();

    seed_uniform(&mut core, 10, 1000);
    assert_eq!(core.players_waiting(), 10);

    let result = attempt(&mut core, &mut state);
    assert!(matches!(result, MatchAttemptResult::Success(_)));
    assert_eq!(core.players_waiting(), 0);
}

#[test]
fn matchmaking_test_match_stored_in_history() {
    let mut core = make_core();
    let mut state = WorkerState::new();

    seed_uniform(&mut core, 10, 1000);
    let _ = attempt(&mut core, &mut state);

    let history = core.recent_matches(10);
    assert_eq!(history.len(), 1, "Formed match must appear in history");
    assert_match_valid(&history[0]);
}

#[test]
fn test_multiple_sequential_matches_all_valid() {
    let mut core = make_core();
    let mut state = WorkerState::new();

    seed_uniform(&mut core, 30, 1000);

    let mut matches = Vec::new();
    for _ in 0..3 {
        if let MatchAttemptResult::Success(m) = attempt(&mut core, &mut state) {
            matches.push(m);
        }
    }

    assert_eq!(matches.len(), 3, "Expected 3 sequential matches");
    assert_eq!(core.players_waiting(), 0, "Pool must be empty after 3 matches");

    for m in &matches {
        assert_match_valid(m);
    }

    assert_no_duplicates(&matches);
}

#[test]
fn test_empty_pool_returns_pool_empty() {
    let mut core = make_core();
    let mut state = WorkerState::new();
    let result = attempt(&mut core, &mut state);
    assert!(matches!(result, MatchAttemptResult::PoolEmpty));
}

#[test]
fn test_nine_players_returns_insufficient_candidates() {
    let mut core = make_core();
    let mut state = WorkerState::new();
    seed_uniform(&mut core, 9, 1000);
    let result = attempt(&mut core, &mut state);
    assert!(matches!(result, MatchAttemptResult::InsufficientCandidates { found: 9, .. }));
}

#[test]
fn test_single_player_returns_insufficient_candidates() {
    let mut core = make_core();
    let mut state = WorkerState::new();
    core.enqueue(new_id(), 1000).unwrap();
    let result = attempt(&mut core, &mut state);
    assert!(matches!(result, MatchAttemptResult::InsufficientCandidates { found: 1, .. }));
}

#[test]
fn test_incompatible_players_outside_window_not_matched() {
    let mut core = make_core();
    let mut state = WorkerState::new();

    // 5 players at 1000, 5 players at 2000: too far apart for the first window
    seed_uniform(&mut core, 5, 1000);
    seed_uniform(&mut core, 5, 2000);

    let result = attempt(&mut core, &mut state);
    assert!(matches!(result, MatchAttemptResult::InsufficientCandidates { .. }));
    assert_eq!(core.players_waiting(), 10, "No players must be removed when match fails");
}

#[test]
fn test_outlier_player_matched_at_starvation_floor() {
    let config = fast_config();
    let mut core = MatchmakerCore::new(config, Metrics::new());
    let ctx = core.make_worker_context(1);
    let mut state = WorkerState::new();

    // 9 players at 1000 to 1040
    for i in 0..9u32 {
        core.enqueue_at(new_id(), 1000 + i * 5, 0).unwrap();
    }
    // and an outlier at 2950
    let outlier_id = new_id();
    core.enqueue_at(outlier_id, 2950, 0).unwrap();

    let result = attempt_match_at(&ctx, core.shared_mut(), &mut state, 0, 1, &stamp(0));
    assert!(
        matches!(result, MatchAttemptResult::InsufficientCandidates { .. }),
        "Outlier must not match at Stage 1"
    );

    // After the last threshold everyone is a candidate
    assert_eq!(relaxation_window_after(450, &config), config.relaxation_stage_5_delta);
    let later = 450_000_000;
    let result = attempt_match_at(&ctx, core.shared_mut(), &mut state, later, 1, &stamp(later));
    assert!(
        matches!(result, MatchAttemptResult::Success(_)),
        "Outlier must be matched at Stage 5, got {:?}",
        result
    );

    assert_eq!(core.players_waiting(), 0, "All players must be matched");
}

#[test]
fn test_no_duplicate_player_ids_across_teams() {
    let mut core = make_core();
    let mut state = WorkerState::new();

    seed_uniform(&mut core, 20, 1000);

    let mut all_matches = Vec::new();
    for _ in 0..2 {
        if let MatchAttemptResult::Success(m) = attempt(&mut core, &mut state) {
            all_matches.push(m);
        }
    }

    assert_eq!(all_matches.len(), 2);
    assert_no_duplicates(&all_matches);
}

#[test]
fn test_player_not_in_pool_after_match() {
    let mut core = make_core();
    let mut state = WorkerState::new();

    let ids: Vec<u128> = (0..10).map(|_| new_id()).collect();
    for (i, id) in ids.iter().enumerate() {
        core.enqueue(*id, 1000 + i as u32 * 5).unwrap();
    }

    let _ = attempt(&mut core, &mut state);

    for id in &ids {
        assert!(!core.pool().contains(id));
    }
}

#[test]
fn test_oldest_player_is_seed() {
    let mut core = make_core();

    let first_id = new_id();
    core.enqueue_at(first_id, 1000, 0).unwrap();
    for _ in 0..9 {
        core.enqueue_at(new_id(), 1010, 5_000_000).unwrap();
    }

    let oldest = core.pool().oldest_waiting().expect("pool must not be empty");
    assert_eq!(oldest.id, first_id);
}

#[test]
fn test_cancelled_player_not_matched() {
    let mut core = make_core();
    let mut state = WorkerState::new();

    let cancel_id = new_id();
    core.enqueue(cancel_id, 1000).unwrap();
    for _ in 0..9 {
        core.enqueue(new_id(), 1005).unwrap();
    }

    core.cancel(&cancel_id).unwrap();

    let result = attempt(&mut core, &mut state);
    assert!(matches!(result, MatchAttemptResult::InsufficientCandidates { .. }));
}

#[test]
fn test_result_pool_empty_on_empty_queue() {
    let mut core = make_core();
    let mut state = WorkerState::new();
    let result = attempt(&mut core, &mut state);
    assert!(matches!(result, MatchAttemptResult::PoolEmpty));
}

#[test]
fn test_result_insufficient_candidates_with_nine_players() {
    let mut core = make_core();
    let mut state = WorkerState::new();
    seed_uniform(&mut core, 9, 1000);
    let result = attempt(&mut core, &mut state);
    assert!(matches!(result, MatchAttemptResult::InsufficientCandidates { found: 9, .. }));
}

#[test]
fn test_result_insufficient_candidates_incompatible_pool() {
    let mut core = make_core();
    let mut state = WorkerState::new();
    seed_uniform(&mut core, 5, 1000);
    seed_uniform(&mut core, 5, 2500);
    let result = attempt(&mut core, &mut state);
    assert!(matches!(result, MatchAttemptResult::InsufficientCandidates { .. }));
    assert_eq!(core.players_waiting(), 10);
}

#[test]
fn test_result_success_returns_valid_match() {
    let mut core = make_core();
    let mut state = WorkerState::new();
    seed_uniform(&mut core, 10, 1000);
    let result = attempt(&mut core, &mut state);
    assert!(matches!(result, MatchAttemptResult::Success(_)));
    if let MatchAttemptResult::Success(m) = result {
        assert_eq!(m.team_a.players.len(), 5);
        assert_eq!(m.team_b.players.len(), 5);
    }
}

#[test]
fn test_result_claim_failed_when_all_candidates_pre_claimed() {
    let mut core = make_core();
    let mut state = WorkerState::new();

    let ids: Vec<u128> = (0..10).map(|_| new_id()).collect();
    for (i, id) in ids.iter().enumerate() {
        core.enqueue(*id, 1000 + i as u32 * 3).unwrap();
    }

    // Claim all players as worker 99
    let now = unix_ms();
    for id in &ids {
        assert!(core.shared_mut().pool.try_claim(id, 99, now));
    }

    let result = attempt(&mut core, &mut state);
    assert!(matches!(
        result,
        MatchAttemptResult::PoolEmpty
            | MatchAttemptResult::InsufficientCandidates { .. }
            | MatchAttemptResult::ClaimFailed { .. }
    ));

    // Critical: no match must have been formed
    assert_eq!(core.metrics_snapshot().total_matches_created, 0);
}

#[test]
fn test_concurrent_workers_no_duplicate_match() {
    let mut core = make_core();
    seed_uniform(&mut core, 10, 1000);

    // 50 workers go after the same 10 players
    let mut wins = 0;
    for worker_id in 1u64..=50 {
        let ctx = core.make_worker_context(worker_id);
        let mut state = WorkerState::new();
        if matches!(
            attempt_match(&ctx, core.shared_mut(), &mut state),
            MatchAttemptResult::Success(_)
        ) {
            wins += 1;
        }
    }

    assert_eq!(wins, 1, "Exactly 1 match must be formed from 10 players");
    assert_eq!(core.players_waiting(), 0);
}

#[test]
fn test_100_workers_1000_players_no_duplicates() {
    let mut core = make_core();
    seed_uniform(&mut core, 1000, 1000);

    let mut all_matches = Vec::new();
    for worker_id in 1u64..=100 {
        let ctx = core.make_worker_context(worker_id);
        let mut state = WorkerState::new();
        if let MatchAttemptResult::Success(m) = attempt_match(&ctx, core.shared_mut(), &mut state) {
            all_matches.push(m);
        }
    }

    for m in &all_matches {
        assert_eq!(m.team_a.players.len(), 5);
        assert_eq!(m.team_b.players.len(), 5);
    }
    assert_eq!(all_matches.len(), 100);
    assert_no_duplicates(&all_matches);
}

#[test]
fn test_repeated_concurrent_matches_no_duplicates() {
    let mut core = make_core();

    // 100 players make 10 matches; 50 workers compete for them
    seed_uniform(&mut core, 100, 1000);

    let mut matches = Vec::new();
    for _ in 0..5 {
        for worker_id in 1u64..=50 {
            let ctx = core.make_worker_context(worker_id);
            let mut state = WorkerState::new();
            if let MatchAttemptResult::Success(m) =
                attempt_match(&ctx, core.shared_mut(), &mut state)
            {
                matches.push(m);
            }
        }
    }

    assert_eq!(matches.len(), 10, "100 players must produce exactly 10 matches");
    assert_no_duplicates(&matches);
    assert_eq!(core.players_waiting(), 0, "Pool must be empty after all matches");
}

#[test]
fn match_record_is_exact() {
    let (ctx, mut shared) = make_ctx();
    let mut state = WorkerState::new();
    for i in 1..=10u128 {
        // Ratings 1000 to 1045; player i joined i milliseconds in.
        shared.pool.insert(Player::joined_at(i, 1000 + 5 * (i as u32 - 1), i as u64 * 1_000_000));
    }
    shared.metrics.current_queue_size = 10;
    let now = 101_000_000;
    let outcome = attempt_match_at(&ctx, &mut shared, &mut state, now, 5, &stamp(now));
    let m = match outcome {
        MatchAttemptResult::Success(m) => m,
        other => panic!("Expected a match, got {:?}", other),
    };
    assert_eq!(m.match_id, 77);
    assert_eq!(m.formed_at_unix, 1_700_000_000);
    assert_eq!(m.skill_spread, 45);
    // Waits are 100, 99, ..., 91 ms.
    assert_eq!(m.max_wait_ms, 100);
    assert_eq!(m.avg_wait_ms, 95);
    assert_eq!(m.team_delta, 5);
    assert_eq!(m.team_a.total_rating, 5115);
    assert_eq!(m.team_b.total_rating, 5110);
    for p in m.team_a.players.iter().chain(m.team_b.players.iter()) {
        assert_eq!(p.skill_rating, 1000 + 5 * (p.id as u32 - 1));
        assert_eq!(p.wait_ms, 101 - p.id as u64);
    }
    assert_match_valid(&m);
    assert_team_delta_is_optimal(&m);
    assert_eq!(shared.metrics.worker_cycles_total, 1);
    assert_eq!(shared.metrics.total_wait_time_ms, 955);
    assert_eq!(shared.metrics.skill_spread_sum, 45);
    assert_eq!(shared.metrics.skill_spread_count, 1);
    assert_eq!(shared.metrics.team_delta_sum, 5);
    assert_eq!(shared.metrics.team_delta_count, 1);
    assert_eq!(shared.metrics.current_queue_size, 0);
    assert!(shared.pool.is_empty());
}

#[test]
fn shortage_is_reported_exactly() {
    let (ctx, mut shared) = make_ctx();
    let mut state = WorkerState::new();
    shared.pool.insert(Player::joined_at(1, 20, 0));
    shared.pool.insert(Player::joined_at(2, 70, 1));
    shared.pool.insert(Player::joined_at(3, 71, 2));
    let outcome = attempt_match_at(&ctx, &mut shared, &mut state, 3, 5, &stamp(3));
    match outcome {
        MatchAttemptResult::InsufficientCandidates { found, window, seed_mmr, stage } => {
            assert_eq!((found, window, seed_mmr, stage), (2, 70, 20, 1));
        }
        other => panic!("Expected a shortage, got {:?}", other),
    }
    assert_eq!(state, WorkerState { consecutive_failures: 1, current_seed_id: Some(1) });
    assert_eq!(shared.metrics.match_attempts_insufficient, 1);
    assert_eq!(shared.metrics.worker_cycles_total, 1);
    assert_eq!(shared.pool.len(), 3);
}

#[test]
fn empty_pool_changes_nothing_but_the_cycle_count() {
    let (ctx, mut shared) = make_ctx();
    let mut state = WorkerState { consecutive_failures: 2, current_seed_id: Some(9) };
    assert!(matches!(
        attempt_match(&ctx, &mut shared, &mut state),
        MatchAttemptResult::PoolEmpty
    ));
    assert_eq!(shared.metrics, Metrics { worker_cycles_total: 1, ..Metrics::new() });
    assert_eq!(state, WorkerState { consecutive_failures: 2, current_seed_id: Some(9) });
}

#[test]
fn the_ten_most_senior_candidates_are_matched() {
    let (ctx, mut shared) = make_ctx();
    let mut state = WorkerState::new();
    for i in 1..=12u128 {
        shared.pool.insert(Player::joined_at(i, 1000 + (12 - i as u32), i as u64));
    }
    if let MatchAttemptResult::Success(m) = attempt_match(&ctx, &mut shared, &mut state) {
        let ids: HashSet<u128> = ids_of(&m).into_iter().collect();
        assert_eq!(ids, (1..=10u128).collect::<HashSet<u128>>());
    } else {
        panic!("Expected a match");
    }
    let mut left: Vec<u128> = shared.pool.all_players().iter().map(|p| p.id).collect();
    left.sort();
    assert_eq!(left, vec![11, 12]);
}

#[test]
fn a_failing_seed_gives_way_to_an_alternate() {
    let (ctx, mut shared) = make_ctx();
    // The oldest player is alone at 2950; ten younger ones wait at 1000.
    shared.pool.insert(Player::joined_at(1, 2950, 0));
    for i in 2..=11u128 {
        shared.pool.insert(Player::joined_at(i, 1000, i as u64));
    }
    let mut state = WorkerState::new();
    for failures in 1..=3 {
        assert!(matches!(
            attempt_match_at(&ctx, &mut shared, &mut state, 20, 1, &stamp(20)),
            MatchAttemptResult::InsufficientCandidates { found: 1, seed_mmr: 2950, .. }
        ));
        assert_eq!(state.consecutive_failures, failures);
    }
    assert_eq!(select_seed(&ctx, &shared.pool, &state, 20).unwrap().id, 2);
    assert!(matches!(
        attempt_match_at(&ctx, &mut shared, &mut state, 20, 1, &stamp(20)),
        MatchAttemptResult::Success(_)
    ));
    assert_eq!(shared.pool.len(), 1);
    assert!(shared.pool.contains(&1));
    assert_eq!(state, WorkerState::default());
}

#[test]
fn a_failing_seed_without_alternate_stays() {
    let (ctx, mut shared) = make_ctx();
    shared.pool.insert(Player::joined_at(1, 1000, 0));
    shared.pool.insert(Player::joined_at(2, 1010, 1));
    let state = WorkerState { consecutive_failures: 9, current_seed_id: Some(1) };
    assert_eq!(select_seed(&ctx, &shared.pool, &state, 5).unwrap().id, 1);
    let other = WorkerState { consecutive_failures: 9, current_seed_id: Some(2) };
    assert_eq!(select_seed(&ctx, &shared.pool, &other, 5).unwrap().id, 1);
    let few = WorkerState { consecutive_failures: 2, current_seed_id: Some(1) };
    assert_eq!(select_seed(&ctx, &shared.pool, &few, 5).unwrap().id, 1);
}

#[test]
fn a_lost_race_is_rolled_back() {
    let (ctx, mut shared) = make_ctx();
    let mut state = WorkerState::new();
    ten_in_order(&mut shared);
    let discovery = discover(&ctx, &shared.pool, &state, 20).unwrap();
    assert_eq!(discovery.seed.id, 1);
    assert_eq!((discovery.min_rating, discovery.max_rating, discovery.stage), (950, 1050, 1));
    let order: Vec<u128> = discovery.candidates.iter().map(|p| p.id).collect();
    assert_eq!(order, (1..=10u128).collect::<Vec<u128>>());

    // Another worker is faster on three of them.
    for id in [2u128, 5, 9] {
        assert!(shared.pool.try_claim(&id, 99, 4));
    }
    let outcome = claim(&ctx, &mut shared, &mut state, &discovery, 5);
    assert!(matches!(
        outcome,
        Err(MatchAttemptResult::ClaimFailed { claimed: 7, needed: 10 })
    ));
    for i in 1..=10u128 {
        let player = shared.pool.get(&i).unwrap();
        if [2u128, 5, 9].contains(&i) {
            assert_eq!((player.state, player.claimed_by), (player_state::CLAIMED, 99));
        } else {
            assert_eq!(player, Player::joined_at(i, 1000 + 5 * (i as u32 - 1), i as u64));
        }
    }
    assert_eq!(shared.metrics.match_attempts_claim_failed, 1);
    assert_eq!(state.consecutive_failures, 1);
}

#[test]
fn claims_of_two_workers_do_not_overlap() {
    let (ctx, mut shared) = make_ctx();
    let other = WorkerContext { worker_id: 2, ..ctx };
    let mut state = WorkerState::new();
    let mut other_state = WorkerState::new();
    for i in 1..=20u128 {
        shared.pool.insert(Player::joined_at(i, 1000, i as u64));
    }
    let first = discover(&ctx, &shared.pool, &state, 30).unwrap();
    let second = discover(&other, &shared.pool, &other_state, 30).unwrap();
    let a = claim(&ctx, &mut shared, &mut state, &first, 5).unwrap();
    let b = claim(&other, &mut shared, &mut other_state, &second, 5).unwrap();
    let a_ids: Vec<u128> = a.iter().map(|p| p.id).collect();
    let b_ids: Vec<u128> = b.iter().map(|p| p.id).collect();
    assert_eq!(a_ids, (1..=10u128).collect::<Vec<u128>>());
    assert_eq!(b_ids, (11..=20u128).collect::<Vec<u128>>());

    let one = complete(&ctx, &mut shared, &mut state, 1, &a, &stamp(40));
    let two = complete(&other, &mut shared, &mut other_state, 1, &b, &stamp(41));
    match (one, two) {
        (MatchAttemptResult::Success(m), MatchAttemptResult::Success(n)) => {
            assert_no_duplicates(&[m, n]);
        }
        _ => panic!("Expected two matches"),
    }
    assert!(shared.pool.is_empty());
}

#[test]
fn a_claim_that_the_reaper_reset_spoils_the_match() {
    let (ctx, mut shared) = make_ctx();
    let mut state = WorkerState::new();
    ten_in_order(&mut shared);
    let discovery = discover(&ctx, &shared.pool, &state, 20).unwrap();
    let claimed = claim(&ctx, &mut shared, &mut state, &discovery, 1_000).unwrap();
    assert_eq!(claimed.len(), 10);
    // One claim is renewed in the meantime, the others are reaped.
    shared.pool.release_claim(&4);
    assert!(shared.pool.try_claim(&4, 1, 1_900));
    assert_eq!(reaper_tick_at(&mut shared, 500, 2_000).len(), 9);

    let outcome = complete(&ctx, &mut shared, &mut state, discovery.seed.id, &claimed, &stamp(50));
    assert!(matches!(outcome, MatchAttemptResult::ClaimFailed { claimed: 0, needed: 10 }));
    assert_eq!(shared.pool.len(), 10);
    assert_eq!(shared.match_history.len(), 0);
    assert_eq!(shared.pool.get(&4).unwrap().claim_timestamp, 1_900);
    assert_eq!(state.current_seed_id, Some(1));
}

#[test]
fn remaining_claims_are_released_when_one_is_lost() {
    let (ctx, mut shared) = make_ctx();
    let mut state = WorkerState::new();
    ten_in_order(&mut shared);
    let discovery = discover(&ctx, &shared.pool, &state, 20).unwrap();
    let claimed = claim(&ctx, &mut shared, &mut state, &discovery, 1_000).unwrap();
    shared.pool.remove(&7);
    let outcome = complete(&ctx, &mut shared, &mut state, discovery.seed.id, &claimed, &stamp(50));
    assert!(matches!(outcome, MatchAttemptResult::ClaimFailed { claimed: 9, needed: 10 }));
    assert_eq!(shared.pool.len(), 9);
    for player in shared.pool.all_players() {
        assert!(player.is_waiting());
        assert_eq!((player.claimed_by, player.claim_timestamp), (0, 0));
    }
    assert_eq!(shared.metrics.match_attempts_claim_failed, 1);
}

#[test]
fn roll_back_counts_what_it_releases() {
    let (_ctx, mut shared) = make_ctx();
    ten_in_order(&mut shared);
    assert!(shared.pool.try_claim(&1, 5, 6));
    assert!(shared.pool.try_claim(&2, 5, 6));
    let claimed = vec![shared.pool.get(&1).unwrap(), shared.pool.get(&2).unwrap()];
    shared.pool.remove(&2);
    assert_eq!(roll_back(&mut shared.pool, &claimed), 1);
    assert!(shared.pool.get(&1).unwrap().is_waiting());
}

#[test]
fn history_keeps_the_newest_matches_in_order() {
    let (mut ctx, mut shared) = make_ctx();
    ctx.match_history_limit = 2;
    let mut state = WorkerState::new();
    for round in 1..=3u128 {
        enqueue_players(&ctx, &mut shared, 10, 1000);
        let id = MatchStamp { matched_at: ctx.clock.now(), match_id: round, formed_at_unix: 0 };
        let now = ctx.clock.now();
        let _ = attempt_match_at(&ctx, &mut shared, &mut state, now, 1, &id);
    }
    let ids: Vec<u128> = shared.match_history.iter().map(|m| m.match_id).collect();
    assert_eq!(ids, vec![2, 3]);
}

#[test]
fn match_identifiers_are_random_uuids() {
    let clock = Clock::start();
    let a = MatchStamp::take(&clock).match_id;
    let b = MatchStamp::take(&clock).match_id;
    assert_ne!(a, b);
    for id in [a, b] {
        let uuid = Uuid::from_u128(id);
        assert_eq!(uuid.get_version_num(), 4);
        assert_eq!((id >> 76) & 0xf, 4);
        assert_eq!((id >> 62) & 0x3, 2);
    }
}

#[test]
fn test_matched_players_state_is_matched() {
    let mut core = make_core();
    let players: Vec<Player> =
        (0..10).map(|i| Player::new(new_id(), 1000 + i * 5, &core.clock())).collect();
    for p in &players {
        core.shared_mut().pool.insert(*p);
    }

    let ctx = core.make_worker_context(1);
    let mut state = WorkerState::new();
    let discovery = discover(&ctx, core.pool(), &state, ctx.clock.now()).unwrap();
    let claimed = claim(&ctx, core.shared_mut(), &mut state, &discovery, unix_ms()).unwrap();
    let matched = take_out(&mut core.shared_mut().pool, &claimed, ctx.clock.now());

    assert_eq!(matched.len(), players.len());
    for p in &players {
        let m = matched.iter().find(|m| m.id == p.id).expect("every player is taken out");
        assert_eq!(
            m.state(),
            player_state::MATCHED,
            "Player {} must be in Matched state after match formation",
            p.id
        );
        assert!(m.matched_at.is_some());
        assert!(!core.pool().contains(&p.id));
    }

    // A whole attempt with the same players succeeds and leaves nobody behind.
    for p in &players {
        core.shared_mut().pool.insert(*p);
    }
    assert!(matches!(attempt(&mut core, &mut state), MatchAttemptResult::Success(_)));
    assert!(core.pool().is_empty());
}

#[test]
fn a_full_scan_keeps_the_longest_waiting_player() {
    let (ctx, mut shared) = make_ctx();
    let mut state = WorkerState::new();
    // The oldest of 201 players comes last in the order of the index.
    for i in 0..200u128 {
        shared.pool.insert(Player::joined_at(i, 1000, 100 + i as u64));
    }
    shared.pool.insert(Player::joined_at(9_999, 1000, 1));

    let discovery = discover(&ctx, &shared.pool, &state, 1_000).unwrap();
    assert_eq!(discovery.seed.id, 9_999);
    assert_eq!(discovery.candidates.len(), 200);
    assert_eq!(discovery.candidates[0].id, 9_999);
    assert_eq!(discovery.candidates[199].id, 198);

    match attempt_match_at(&ctx, &mut shared, &mut state, 1_000, 5, &stamp(1_000)) {
        MatchAttemptResult::Success(m) => {
            assert_match_valid(&m);
            let ids: HashSet<u128> =
                m.team_a.players.iter().chain(m.team_b.players.iter()).map(|p| p.id).collect();
            assert!(ids.contains(&9_999));
            assert_eq!(ids.len(), 10);
        }
        other => panic!("Expected a match, got {:?}", other),
    }
    assert_eq!(shared.pool.len(), 191);
}

#[test]
fn an_alternate_seed_takes_its_place_among_its_candidates() {
    let (ctx, mut shared) = make_ctx();
    // Player 1 has failed; player 5000 is the oldest outside its window, and more
    // than a scan holds are rated below it.
    shared.pool.insert(Player::joined_at(1, 900, 0));
    for i in 0..205u128 {
        let join = if i < 3 { 10 + i as u64 } else { 100 + i as u64 };
        shared.pool.insert(Player::joined_at(10 + i, 950, join));
    }
    shared.pool.insert(Player::joined_at(5_000, 1000, 50));
    let state = WorkerState { consecutive_failures: 3, current_seed_id: Some(1) };
    let discovery = discover(&ctx, &shared.pool, &state, 1_000).unwrap();
    assert_eq!(discovery.seed.id, 5_000);
    assert_eq!(discovery.candidates.len(), 200);
    let order: Vec<u128> = discovery.candidates.iter().take(5).map(|p| p.id).collect();
    assert_eq!(order, vec![10, 11, 12, 5_000, 13]);
}

#[test]
fn every_attempt_is_counted() {
    let (ctx, mut shared) = make_ctx();
    let mut state = WorkerState::new();
    let _ = attempt_match(&ctx, &mut shared, &mut state);
    let _ = attempt_match(&ctx, &mut shared, &mut state);
    enqueue_players(&ctx, &mut shared, 3, 1000);
    let _ = attempt_match(&ctx, &mut shared, &mut state);
    enqueue_players(&ctx, &mut shared, 7, 1000);
    let _ = attempt_match(&ctx, &mut shared, &mut state);
    assert_eq!(shared.metrics.total_matches_created, 1);
    assert_eq!(shared.metrics.worker_cycles_total, 4);
    count_cycle(&mut shared.metrics);
    assert_eq!(shared.metrics.worker_cycles_total, 5);
}

#[test]
fn newcomers_between_matches_change_nothing_about_who_is_matched() {
    let (ctx, mut shared) = make_ctx();
    let mut state = WorkerState::new();
    let mut matches: Vec<Match> = Vec::new();
    for round in 0..4u128 {
        for i in 0..12u128 {
            shared.pool.insert(Player::joined_at(100 * round + i, 1000, (100 * round + i) as u64));
        }
        match attempt_match_at(&ctx, &mut shared, &mut state, 500, 5, &stamp(500)) {
            MatchAttemptResult::Success(m) => matches.push(m),
            other => panic!("Expected a match, got {:?}", other),
        }
    }
    assert_no_duplicates(&matches);
    assert_eq!(shared.pool.len(), 8);
}

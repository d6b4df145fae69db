//! Metrics: the counters and the snapshot.

use std::sync::Arc;

use matchmaker::config::Config;
use matchmaker::engine::matcher::{
    attempt_match, attempt_match_at, MatchAttemptResult, WorkerState,
};
use matchmaker::engine::record::MatchStamp;
use matchmaker::engine::MatchmakerCore;
use matchmaker::metrics::Metrics;
use uuid::Uuid;

fn new_id() -> u128 {
    Uuid::new_v4().as_u128()
}

fn make_core() -> MatchmakerCore {
    MatchmakerCore::new(
        Config {
            server_port: 8080,
            worker_count: 4,
            worker_tick_ms: 50,
            stale_claim_timeout_ms: 500,
            relaxation_stage_1_ms: 5_000,
            relaxation_stage_2_ms: 15_000,
            relaxation_stage_3_ms: 30_000,
            relaxation_stage_4_ms: 60_000,
            relaxation_stage_1_delta: 50,
            relaxation_stage_2_delta: 100,
            relaxation_stage_3_delta: 200,
            relaxation_stage_4_delta: 400,
            relaxation_stage_5_delta: 9999,
        },
        Metrics::new(),
    )
}

fn seed_uniform(core: &mut MatchmakerCore, count: usize, rating: u32) {
    for _ in 0..count {
        core.enqueue(new_id(), rating).expect("Seed enqueue must succeed");
    }
}

fn attempt(core: &mut MatchmakerCore, state: &mut WorkerState) -> MatchAttemptResult {
    let ctx = core.make_worker_context(1);
    attempt_match(&ctx, core.shared_mut(), state)
}

#[test]
fn test_initial_snapshot_all_zeros() {
    let m = Metrics::new();
    let s = m.snapshot();

    assert_eq!(s.total_players_enqueued, 0);
    assert_eq!(s.total_players_cancelled, 0);
    assert_eq!(s.total_matches_created, 0);
    assert_eq!(s.total_players_matched, 0);
    assert_eq!(s.match_attempts_insufficient, 0);
    assert_eq!(s.match_attempts_claim_failed, 0);
    assert_eq!(s.worker_cycles_total, 0);
    assert_eq!(s.total_stale_claims_recovered, 0);
    assert_eq!(s.current_queue_size, 0);
    assert_eq!(s.total_wait_time_ms, 0);
    assert_eq!(s.avg_wait_ms, 0);
    assert_eq!(s.avg_skill_spread, 0);
    assert_eq!(s.avg_team_delta, 0);
}

#[test]
fn test_counter_increments() {
    let mut m = Metrics::new();

    m.total_players_enqueued += 5;
    m.total_matches_created += 2;
    m.total_players_matched += 20;

    let s = m.snapshot();
    assert_eq!(s.total_players_enqueued, 5);
    assert_eq!(s.total_matches_created, 2);
    assert_eq!(s.total_players_matched, 20);
}

#[test]
fn test_gauge_increment_and_decrement() {
    let mut m = Metrics::new();

    m.current_queue_size += 10;
    assert_eq!(m.snapshot().current_queue_size, 10);

    m.current_queue_size -= 3;
    assert_eq!(m.snapshot().current_queue_size, 7);

    m.current_queue_size -= 7;
    assert_eq!(m.snapshot().current_queue_size, 0);
}

#[test]
fn test_avg_wait_ms_computed_correctly() {
    let mut m = Metrics::new();

    // 10 players, total wait = 10_000ms, so the average is 1_000ms.
    m.total_players_matched += 10;
    m.total_wait_time_ms += 10_000;

    let s = m.snapshot();
    assert_eq!(s.avg_wait_ms, 1_000);
}

#[test]
fn mod_test_avg_skill_spread_computed_correctly() {
    let mut m = Metrics::new();

    // 3 matches with spreads 100, 200, 300: the average is 200.
    m.skill_spread_sum += 600;
    m.skill_spread_count += 3;

    let s = m.snapshot();
    assert_eq!(s.avg_skill_spread, 200);
}

#[test]
fn test_avg_team_delta_computed_correctly() {
    let mut m = Metrics::new();

    // 2 matches with deltas 50, 150: the average is 100.
    m.team_delta_sum += 200;
    m.team_delta_count += 2;

    let s = m.snapshot();
    assert_eq!(s.avg_team_delta, 100);
}

#[test]
fn test_avg_fields_zero_when_no_matches() {
    let m = Metrics::new();
    let s = m.snapshot();

    assert_eq!(s.avg_wait_ms, 0);
    assert_eq!(s.avg_skill_spread, 0);
    assert_eq!(s.avg_team_delta, 0);
}

#[test]
fn test_stale_claims_counter() {
    let mut m = Metrics::new();
    m.total_stale_claims_recovered += 3;

    assert_eq!(m.snapshot().total_stale_claims_recovered, 3);
}

#[test]
fn test_new_shared_returns_arc() {
    let m = Metrics::new_shared();
    assert_eq!(Arc::strong_count(&m), 1);
    let m2 = Arc::clone(&m);
    assert_eq!(Arc::strong_count(&m), 2);
    drop(m2);
    assert_eq!(Arc::strong_count(&m), 1);
}

#[test]
fn test_enqueue_increments_total_players_enqueued() {
    let mut core = make_core();

    for _ in 0..5 {
        core.enqueue(new_id(), 1000).unwrap();
    }

    let snapshot = core.metrics_snapshot();
    assert_eq!(snapshot.total_players_enqueued, 5);
}

#[test]
fn test_cancel_increments_total_players_cancelled() {
    let mut core = make_core();

    let id1 = new_id();
    let id2 = new_id();
    core.enqueue(id1, 1000).unwrap();
    core.enqueue(id2, 1000).unwrap();

    core.cancel(&id1).unwrap();
    core.cancel(&id2).unwrap();

    let snapshot = core.metrics_snapshot();
    assert_eq!(snapshot.total_players_cancelled, 2);
}

#[test]
fn test_match_increments_total_matches_created() {
    let mut core = make_core();
    let mut state = WorkerState::new();

    seed_uniform(&mut core, 10, 1000);
    let _ = attempt(&mut core, &mut state);

    assert_eq!(core.metrics_snapshot().total_matches_created, 1);
}

#[test]
fn test_match_increments_total_players_matched() {
    let mut core = make_core();
    let mut state = WorkerState::new();

    seed_uniform(&mut core, 10, 1000);
    let _ = attempt(&mut core, &mut state);

    assert_eq!(core.metrics_snapshot().total_players_matched, 10);
}

#[test]
fn test_multiple_matches_accumulate_correctly() {
    let mut core = make_core();
    let mut state = WorkerState::new();

    seed_uniform(&mut core, 30, 1000);

    for _ in 0..3 {
        let _ = attempt(&mut core, &mut state);
    }

    let snapshot = core.metrics_snapshot();
    assert_eq!(snapshot.total_matches_created, 3);
    assert_eq!(snapshot.total_players_matched, 30);
    assert_eq!(snapshot.total_players_enqueued, 30);
}

#[test]
fn test_queue_depth_accurate_after_enqueue() {
    let mut core = make_core();

    assert_eq!(core.metrics_snapshot().current_queue_size, 0);

    for i in 1..=10 {
        core.enqueue(new_id(), 1000).unwrap();
        assert_eq!(core.metrics_snapshot().current_queue_size, i);
    }
}

#[test]
fn test_queue_depth_decrements_on_cancel() {
    let mut core = make_core();

    let id = new_id();
    core.enqueue(id, 1000).unwrap();
    assert_eq!(core.metrics_snapshot().current_queue_size, 1);

    core.cancel(&id).unwrap();
    assert_eq!(core.metrics_snapshot().current_queue_size, 0);
}

#[test]
fn test_queue_depth_decrements_on_match() {
    let mut core = make_core();
    let mut state = WorkerState::new();

    seed_uniform(&mut core, 10, 1000);
    assert_eq!(core.metrics_snapshot().current_queue_size, 10);

    let _ = attempt(&mut core, &mut state);
    assert_eq!(core.metrics_snapshot().current_queue_size, 0);
}

#[test]
fn test_queue_depth_never_negative() {
    let mut core = make_core();

    let id = new_id();
    core.enqueue(id, 1000).unwrap();
    core.cancel(&id).unwrap();

    // A second cancel is refused and must not change the gauge.
    let _ = core.cancel(&id);

    assert!(core.metrics_snapshot().current_queue_size >= 0);
}

#[test]
fn test_insufficient_candidates_counter_increments() {
    let mut core = make_core();
    let mut state = WorkerState::new();

    seed_uniform(&mut core, 5, 1000);
    let _ = attempt(&mut core, &mut state);

    assert_eq!(core.metrics_snapshot().match_attempts_insufficient, 1);
}

#[test]
fn test_worker_cycles_increments_on_each_attempt() {
    let mut core = make_core();
    let mut state = WorkerState::new();

    seed_uniform(&mut core, 5, 1000);

    for _ in 0..3 {
        let _ = attempt(&mut core, &mut state);
    }

    assert!(core.metrics_snapshot().worker_cycles_total >= 1);
    assert_eq!(core.metrics_snapshot().worker_cycles_total, 3);
}

#[test]
fn test_avg_wait_ms_is_zero_before_any_match() {
    let core = make_core();
    assert_eq!(core.metrics_snapshot().avg_wait_ms, 0);
}

#[test]
fn test_avg_wait_ms_computed_after_match() {
    let mut core = make_core();
    let mut state = WorkerState::new();

    for _ in 0..10 {
        core.enqueue_at(new_id(), 1000, 0).unwrap();
    }

    let ctx = core.make_worker_context(1);
    let stamp = MatchStamp { matched_at: 5_000_000, match_id: 1, formed_at_unix: 0 };
    let _ = attempt_match_at(&ctx, core.shared_mut(), &mut state, 5_000_000, 1, &stamp);

    let snapshot = core.metrics_snapshot();
    assert!(snapshot.avg_wait_ms > 0);
    assert!(snapshot.total_wait_time_ms > 0);
    assert_eq!(snapshot.avg_wait_ms, 5);
    assert_eq!(snapshot.total_wait_time_ms, 50);
}

#[test]
fn test_avg_wait_ms_derived_from_sum_and_count() {
    let mut metrics = Metrics::new();

    // 10 players, total wait = 5000ms, so the average is 500ms.
    metrics.total_players_matched = 10;
    metrics.total_wait_time_ms = 5_000;

    assert_eq!(metrics.snapshot().avg_wait_ms, 500);
}

#[test]
fn test_avg_team_delta_is_zero_before_any_match() {
    let core = make_core();
    assert_eq!(core.metrics_snapshot().avg_team_delta, 0);
}

#[test]
fn test_avg_team_delta_computed_after_match() {
    let mut metrics = Metrics::new();

    // 3 matches with deltas 100, 200, 300: the average is 200.
    metrics.team_delta_sum = 600;
    metrics.team_delta_count = 3;

    assert_eq!(metrics.snapshot().avg_team_delta, 200);
}

#[test]
fn metrics_test_avg_skill_spread_computed_correctly() {
    let mut metrics = Metrics::new();

    // 4 matches with spreads 50, 100, 150, 200: the average is 125.
    metrics.skill_spread_sum = 500;
    metrics.skill_spread_count = 4;

    assert_eq!(metrics.snapshot().avg_skill_spread, 125);
}

#[test]
fn test_no_division_by_zero_on_empty_metrics() {
    let metrics = Metrics::new();
    let snapshot = metrics.snapshot();
    assert_eq!(snapshot.avg_wait_ms, 0);
    assert_eq!(snapshot.avg_team_delta, 0);
    assert_eq!(snapshot.avg_skill_spread, 0);
}

#[test]
fn test_concurrent_enqueue_metric_accuracy() {
    let mut core = make_core();

    // 10 rounds of 50 enqueues = 500 total
    for _ in 0..10 {
        for _ in 0..50 {
            core.enqueue(new_id(), 1000).unwrap();
        }
    }

    let snapshot = core.metrics_snapshot();
    assert_eq!(snapshot.total_players_enqueued, 500);
    assert_eq!(snapshot.current_queue_size, 500);
}

#[test]
fn test_concurrent_match_metric_accuracy() {
    let mut core = make_core();
    let mut states = vec![WorkerState::new(); 4];

    // 50 players make 5 matches; four workers take turns.
    for i in 0..50u32 {
        core.enqueue(new_id(), 1000 + (i % 30)).unwrap();
    }
    for _ in 0..3 {
        for (worker, state) in states.iter_mut().enumerate() {
            let ctx = core.make_worker_context(worker as u64 + 1);
            let _ = attempt_match(&ctx, core.shared_mut(), state);
        }
    }

    let snapshot = core.metrics_snapshot();
    assert_eq!(snapshot.total_matches_created, 5);
    assert_eq!(snapshot.total_players_matched, snapshot.total_matches_created * 10);
    assert_eq!(snapshot.current_queue_size, 0);
}

#[test]
fn test_stale_claims_recovered_starts_at_zero() {
    let core = make_core();
    assert_eq!(core.metrics_snapshot().total_stale_claims_recovered, 0);
}

#[test]
fn test_stale_claims_recovered_increments_on_recovery() {
    let mut metrics = Metrics::new();
    metrics.total_stale_claims_recovered += 5;
    assert_eq!(metrics.snapshot().total_stale_claims_recovered, 5);
}

#[test]
fn test_snapshot_contains_all_required_fields() {
    let core = make_core();
    let snapshot = core.metrics_snapshot();

    let _ = snapshot.total_players_enqueued;
    let _ = snapshot.total_players_cancelled;
    let _ = snapshot.total_matches_created;
    let _ = snapshot.total_players_matched;
    let _ = snapshot.match_attempts_insufficient;
    let _ = snapshot.match_attempts_claim_failed;
    let _ = snapshot.worker_cycles_total;
    let _ = snapshot.total_stale_claims_recovered;
    let _ = snapshot.current_queue_size;
    let _ = snapshot.total_wait_time_ms;
    let _ = snapshot.avg_wait_ms;
    let _ = snapshot.avg_skill_spread;
    let _ = snapshot.avg_team_delta;
}

#[test]
fn everyone_who_joined_is_accounted_for() {
    let mut core = make_core();
    let mut state = WorkerState::new();
    seed_uniform(&mut core, 23, 1000);
    let leaver = new_id();
    core.enqueue(leaver, 1000).unwrap();
    core.cancel(&leaver).unwrap();
    let _ = attempt(&mut core, &mut state);
    let _ = attempt(&mut core, &mut state);
    let _ = attempt(&mut core, &mut state);

    let s = core.metrics_snapshot();
    assert_eq!(s.total_players_enqueued, 24);
    assert_eq!(s.total_players_cancelled, 1);
    assert_eq!(s.total_players_matched, 20);
    assert_eq!(s.current_queue_size, 3);
    assert_eq!(s.current_queue_size as usize, core.pool().len());
    assert_eq!(s.total_matches_created, 2);
    assert_eq!(s.match_attempts_insufficient, 1);
}

#[test]
fn counters_wrap_around() {
    let mut metrics = Metrics::default();
    metrics.total_players_enqueued = u64::MAX;
    let mut core = MatchmakerCore::new(make_core().config(), metrics);
    core.enqueue(1, 1000).unwrap();
    assert_eq!(core.metrics().total_players_enqueued, 0);
    assert_eq!(core.metrics().current_queue_size, 1);
}

#[test]
fn the_books_balance_after_joins_leaves_and_matches() {
    let mut core = make_core();
    let mut state = WorkerState::new();
    for i in 0..27u128 {
        core.enqueue(i, 1000).unwrap();
    }
    core.cancel(&26).unwrap();
    assert!(core.cancel(&26).is_err());
    assert!(core.enqueue(3, 1000).is_err());
    for _ in 0..4 {
        let _ = attempt(&mut core, &mut state);
        let s = core.metrics_snapshot();
        assert_eq!(s.total_players_matched, 10 * s.total_matches_created);
        assert_eq!(
            s.current_queue_size as u64,
            s.total_players_enqueued - s.total_players_cancelled - s.total_players_matched
        );
        assert_eq!(s.current_queue_size, core.pool().len() as i64);
    }
    let s = core.metrics_snapshot();
    assert_eq!((s.total_players_enqueued, s.total_players_cancelled), (27, 1));
    assert_eq!((s.total_matches_created, s.current_queue_size), (2, 6));
    assert_eq!((s.worker_cycles_total, s.match_attempts_insufficient), (4, 2));
}

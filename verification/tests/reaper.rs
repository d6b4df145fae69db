//! The Reaper: stale claims and nothing else.

use matchmaker::clock::Clock;
use matchmaker::config::{Config, EnvVars};
use matchmaker::engine::matcher::{attempt_match, unix_ms, SharedState, WorkerState};
use matchmaker::engine::MatchmakerCore;
use matchmaker::metrics::Metrics;
use matchmaker::models::{player_state, Player};
use matchmaker::workers::{is_stale, reaper_tick, reaper_tick_at, REAPER_INTERVAL_MS};
use uuid::Uuid;

fn enqueue_player(shared: &mut SharedState, skill_rating: u32) -> u128 {
    let id = Uuid::new_v4().as_u128();
    shared.pool.insert(Player::new(id, skill_rating, &Clock::start()));
    id
}

#[test]
fn test_reaper_recovers_stale_claim() {
    let mut shared = SharedState::new();

    // Claim a player with a timestamp in the far past
    let id = enqueue_player(&mut shared, 1000);
    assert!(shared.pool.try_claim(&id, 1, 1));

    reaper_tick(&mut shared, 100);

    let player = shared.pool.get(&id).unwrap();
    assert_eq!(player.state(), player_state::WAITING);
    assert_eq!(player.claimed_by, 0);
    assert_eq!(player.claim_timestamp, 0);
    assert_eq!(shared.metrics.total_stale_claims_recovered, 1);
}

#[test]
fn test_reaper_does_not_touch_fresh_claims() {
    let mut shared = SharedState::new();

    let id = enqueue_player(&mut shared, 1000);
    assert!(shared.pool.try_claim(&id, 1, unix_ms()));

    reaper_tick(&mut shared, 500);

    assert_eq!(shared.pool.get(&id).unwrap().state(), player_state::CLAIMED);
    assert_eq!(shared.metrics.total_stale_claims_recovered, 0);
}

#[test]
fn test_reaper_skips_waiting_players() {
    let mut shared = SharedState::new();
    let id = enqueue_player(&mut shared, 1000);

    reaper_tick(&mut shared, 100);

    assert_eq!(shared.pool.get(&id).unwrap().state(), player_state::WAITING);
    assert_eq!(shared.metrics.total_stale_claims_recovered, 0);
}

#[test]
fn test_reaper_skips_matched_players() {
    let mut shared = SharedState::new();
    let id = enqueue_player(&mut shared, 1000);

    assert!(shared.pool.try_claim(&id, 1, 1));
    shared.pool.mark_matched_at(&id, 5);

    reaper_tick(&mut shared, 100);

    assert_eq!(shared.pool.get(&id).unwrap().state(), player_state::MATCHED);
    assert_eq!(shared.metrics.total_stale_claims_recovered, 0);
}

#[test]
fn test_reaper_recovers_multiple_stale_claims() {
    let mut shared = SharedState::new();

    for _ in 0..5 {
        let id = enqueue_player(&mut shared, 1000);
        assert!(shared.pool.try_claim(&id, 1, 1));
    }

    reaper_tick(&mut shared, 100);

    assert_eq!(shared.metrics.total_stale_claims_recovered, 5);
    for p in shared.pool.all_players() {
        assert_eq!(p.state(), player_state::WAITING);
    }
}

#[test]
fn test_reaper_recovers_stale_claims_and_players_rematched() {
    let mut core =
        MatchmakerCore::new(Config::from_env(&EnvVars::default()).unwrap(), Metrics::new());
    let ids: Vec<u128> = (0..10).map(|_| Uuid::new_v4().as_u128()).collect();
    for (i, id) in ids.iter().enumerate() {
        core.enqueue(*id, 1000 + i as u32 * 3).unwrap();
    }

    // A worker claims all ten and is never heard of again.
    for id in &ids {
        assert!(core.shared_mut().pool.try_claim(id, 42, 1));
    }
    assert_eq!(reaper_tick(core.shared_mut(), 200).len(), 10);
    assert!(core.metrics_snapshot().total_stale_claims_recovered >= 10);

    for id in &ids {
        let player = core.pool().get(id).unwrap();
        assert_eq!(player.state(), player_state::WAITING);
        assert_eq!(player.claimed_by, 0);
        assert_eq!(player.claim_timestamp, 0);
    }

    let ctx = core.make_worker_context(1);
    let mut state = WorkerState::new();
    let _ = attempt_match(&ctx, core.shared_mut(), &mut state);
    assert_eq!(core.metrics_snapshot().total_matches_created, 1);
}

#[test]
fn test_reaper_does_not_reset_fresh_claims() {
    let mut shared = SharedState::new();
    let id = enqueue_player(&mut shared, 1000);
    assert!(shared.pool.try_claim(&id, 1, 10_000));

    // 300 ms later, less than the timeout of 500 ms
    assert!(reaper_tick_at(&mut shared, 500, 10_300).is_empty());
    assert_eq!(shared.pool.get(&id).unwrap().state(), player_state::CLAIMED);
    assert_eq!(shared.metrics.total_stale_claims_recovered, 0);
}

#[test]
fn the_timeout_is_exclusive() {
    let mut player = Player::joined_at(1, 1000, 0);
    assert!(!is_stale(&player, u64::MAX, 0));
    player.try_claim(1, 1_000);
    assert!(!is_stale(&player, 1_500, 500));
    assert!(is_stale(&player, 1_501, 500));
    assert!(!is_stale(&player, 0, 0));
    assert!(!is_stale(&player, 1_000, 0));
}

#[test]
fn a_claim_without_a_time_is_left_alone() {
    let mut shared = SharedState::new();
    let id = enqueue_player(&mut shared, 1000);
    assert!(shared.pool.try_claim(&id, 1, 0));
    assert!(reaper_tick_at(&mut shared, 100, u64::MAX).is_empty());
    assert_eq!(shared.pool.get(&id).unwrap().state(), player_state::CLAIMED);
}

#[test]
fn a_second_scan_finds_nothing() {
    let mut shared = SharedState::new();
    for i in 0..3u128 {
        shared.pool.insert(Player::joined_at(i, 1000, 0));
    }
    assert!(shared.pool.try_claim(&0, 1, 1));
    assert!(shared.pool.try_claim(&1, 1, 900));
    let recovered = reaper_tick_at(&mut shared, 500, 1_000);
    assert_eq!(recovered.len(), 1);
    assert_eq!((recovered[0].id, recovered[0].claimed_by, recovered[0].claim_timestamp), (0, 1, 1));
    assert!(reaper_tick_at(&mut shared, 500, 1_000).is_empty());
    assert!(shared.pool.get(&0).unwrap().is_waiting());
    assert_eq!(shared.pool.get(&1).unwrap().claimed_by, 1);
    assert_eq!(shared.metrics.total_stale_claims_recovered, 1);
    assert_eq!(REAPER_INTERVAL_MS, 1_000);
}

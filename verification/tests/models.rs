//! Players, snapshots, teams and matches.

use matchmaker::clock::Clock;
use matchmaker::models::{
    player_state, ErrorResponse, Match, Player, PlayerSnapshot, Team,
};
use matchmaker::utils::now_unix_secs;
use uuid::Uuid;

fn make_player(skill_rating: u32) -> Player {
    Player::new(Uuid::new_v4().as_u128(), skill_rating, &Clock::start())
}

fn snapshots(first_rating: u32) -> Vec<PlayerSnapshot> {
    (0..5u32)
        .map(|i| PlayerSnapshot {
            id: Uuid::new_v4().as_u128(),
            skill_rating: first_rating + i * 10,
            wait_ms: 1000,
        })
        .collect()
}

#[test]
fn test_player_initial_state_is_waiting() {
    let p = make_player(1000);
    assert_eq!(p.state(), player_state::WAITING);
    assert!(p.is_waiting());
}

#[test]
fn test_try_claim_succeeds_from_waiting() {
    let mut p = make_player(1000);
    assert!(p.try_claim(1, 12345));
    assert_eq!(p.state(), player_state::CLAIMED);
    assert_eq!(p.claimed_by, 1);
    assert_eq!(p.claim_timestamp, 12345);
}

#[test]
fn test_try_claim_fails_if_already_claimed() {
    let mut p = make_player(1000);
    assert!(p.try_claim(1, 100));
    // Second claim attempt must fail
    assert!(!p.try_claim(2, 200));
    // The first claimer is still recorded
    assert_eq!(p.claimed_by, 1);
}

#[test]
fn test_release_claim_returns_to_waiting() {
    let mut p = make_player(1000);
    p.try_claim(1, 100);
    p.release_claim();
    assert_eq!(p.state(), player_state::WAITING);
    assert_eq!(p.claimed_by, 0);
    assert_eq!(p.claim_timestamp, 0);
}

#[test]
fn test_mark_matched_sets_state_and_timestamp() {
    let mut p = make_player(1000);
    p.try_claim(1, 100);
    p.mark_matched(&Clock::start());
    assert_eq!(p.state(), player_state::MATCHED);
    assert!(p.matched_at.is_some());
}

#[test]
fn test_try_evict_from_waiting() {
    let mut p = make_player(1000);
    assert!(p.try_evict());
    assert_eq!(p.state(), player_state::EVICTED);
}

#[test]
fn test_try_evict_fails_when_claimed() {
    let mut p = make_player(1000);
    p.try_claim(1, 100);
    // Cannot evict a Claimed player
    assert!(!p.try_evict());
    assert_eq!(p.state(), player_state::CLAIMED);
}

#[test]
fn test_player_snapshot_captures_data() {
    let clock = Clock::start();
    let mut p = make_player(1500);
    p.try_claim(1, 100);
    p.mark_matched(&clock);
    let snap = PlayerSnapshot::capture(&p, &clock);
    assert_eq!(snap.skill_rating, 1500);
}

#[test]
fn test_team_computes_totals() {
    let team = Team::new(snapshots(1000));
    assert_eq!(team.total_rating, 5100); // 1000+1010+1020+1030+1040
    // The average is 1020 exactly.
    assert_eq!(team.total_rating, 1020 * team.players.len() as u32);
}

#[test]
fn test_concurrent_claim_only_one_winner() {
    let mut p = make_player(1000);
    let mut wins = 0;
    for worker_id in 1u64..=16 {
        if p.try_claim(worker_id, 0) {
            wins += 1;
        }
    }
    // Exactly one worker must have won the claim
    assert_eq!(wins, 1);
    assert_eq!(p.state(), player_state::CLAIMED);
}

#[test]
fn test_cas_exactly_one_winner_per_player() {
    let mut player = make_player(1000);
    let winners: Vec<u64> = (1u64..=16).filter(|&w| player.try_claim(w, 1)).collect();
    assert_eq!(winners, vec![1]);
    assert_eq!(player.state(), player_state::CLAIMED);
}

#[test]
fn test_release_claim_allows_reclaim() {
    let mut player = make_player(1000);

    // Worker 1 claims
    assert!(player.try_claim(1, 5));
    assert_eq!(player.state(), player_state::CLAIMED);
    assert_eq!(player.claimed_by, 1);

    // Worker 1 rolls back
    player.release_claim();
    assert_eq!(player.state(), player_state::WAITING);
    assert_eq!(player.claimed_by, 0);
    assert_eq!(player.claim_timestamp, 0);

    // Worker 2 can now claim
    assert!(player.try_claim(2, 6));
    assert_eq!(player.state(), player_state::CLAIMED);
    assert_eq!(player.claimed_by, 2);
}

#[test]
fn test_concurrent_claim_and_eviction_exactly_one_wins() {
    let mut claim_wins = 0;
    let mut evict_wins = 0;

    // 1000 races between a claimer and an evicter, in either order
    for race in 0..1000 {
        let mut player = make_player(1000);
        let (claimed, evicted) = if race % 2 == 0 {
            let claimed = player.try_claim(1, 1);
            (claimed, player.try_evict())
        } else {
            let evicted = player.try_evict();
            (player.try_claim(1, 1), evicted)
        };
        claim_wins += claimed as usize;
        evict_wins += evicted as usize;
        let state = player.state();
        assert!(state == player_state::CLAIMED || state == player_state::EVICTED);
    }

    assert_eq!(claim_wins + evict_wins, 1000);
    assert_eq!(claim_wins, 500);
}

#[test]
fn release_undoes_a_claim_exactly() {
    let mut player = Player::joined_at(1, 1000, 42);
    player.try_claim(7, 99);
    player.release_claim();
    assert_eq!(player, Player::joined_at(1, 1000, 42));
}

#[test]
fn final_states_are_final() {
    let mut evicted = Player::joined_at(1, 1000, 0);
    evicted.try_evict();
    assert!(!evicted.try_claim(1, 1));
    assert!(!evicted.try_evict());
    evicted.release_claim();
    evicted.mark_matched_at(5);
    assert_eq!(evicted.state(), player_state::EVICTED);
    assert_eq!(evicted.matched_at, None);

    let mut matched = Player::joined_at(1, 1000, 0);
    matched.try_claim(1, 1);
    matched.mark_matched_at(5);
    matched.mark_matched_at(9);
    matched.release_claim();
    assert!(!matched.try_claim(1, 1));
    assert_eq!(matched.state(), player_state::MATCHED);
    assert_eq!(matched.matched_at, Some(5));
}

#[test]
fn a_waiting_player_cannot_be_matched() {
    let mut player = Player::joined_at(1, 1000, 0);
    player.mark_matched_at(5);
    assert_eq!(player, Player::joined_at(1, 1000, 0));
}

#[test]
fn waits_are_measured_in_milliseconds() {
    let mut player = Player::joined_at(1, 1000, 1_000_000);
    assert_eq!(player.wait_ms_at(3_999_999), 2);
    assert_eq!(player.wait_ms_at(0), 0);
    assert_eq!(player.matched_wait_ms(), None);
    assert_eq!(PlayerSnapshot::capture_at(&player, 8_000_000).wait_ms, 7);
    player.try_claim(1, 1);
    player.mark_matched_at(5_000_000);
    assert_eq!(player.matched_wait_ms(), Some(4));
    assert_eq!(PlayerSnapshot::capture_at(&player, 8_000_000).wait_ms, 4);
    let clock = Clock::start();
    assert_eq!(Player::new(2, 1, &clock).wait_ms(&clock), 0);
}

#[test]
fn match_records_the_difference_between_the_teams() {
    let a = Team::new(snapshots(1000));
    let b = Team::new(snapshots(1100));
    let formed = Match::formed_at(77, a.clone(), b.clone(), 140, 10, 20, 1_700_000_000);
    assert_eq!(formed.match_id, 77);
    assert_eq!(formed.team_delta, 500);
    assert_eq!(formed.skill_spread, 140);
    assert_eq!((formed.avg_wait_ms, formed.max_wait_ms), (10, 20));
    assert_eq!(formed.formed_at_unix, 1_700_000_000);
    assert_eq!(formed.clone().team_b.players, b.players);

    let before = now_unix_secs();
    let now = Match::new(78, b, a, 140, 10, 20);
    assert_eq!(now.team_delta, 500);
    assert!(before <= now.formed_at_unix && now.formed_at_unix <= now_unix_secs());
}

#[test]
fn error_response_keeps_text_and_code() {
    let response = ErrorResponse::new("text".to_string(), "CODE".to_string());
    assert_eq!(response.error, "text");
    assert_eq!(response.code, "CODE");
}

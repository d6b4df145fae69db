//! The balancer: size, optimality and determinism of the split.

use std::collections::HashSet;

use matchmaker::clock::Clock;
use matchmaker::config::Config;
use matchmaker::engine::balancer::{exhaustive_balance, BalanceResult, MATCH_SIZE, TEAM_SIZE};
use matchmaker::engine::matcher::{attempt_match, MatchAttemptResult, WorkerState};
use matchmaker::engine::MatchmakerCore;
use matchmaker::metrics::Metrics;
use matchmaker::models::{Match, Player};
use uuid::Uuid;

/// Create a player with a specific skill rating for testing.
fn make_player(skill_rating: u32) -> Player {
    Player::new(Uuid::new_v4().as_u128(), skill_rating, &Clock::start())
}

/// Create 10 players with the given ratings.
fn make_players(ratings: [u32; 10]) -> Vec<Player> {
    ratings.iter().map(|&r| make_player(r)).collect()
}

/// Brute-force verify that the returned delta is indeed minimal.
/// Enumerates all 252 valid partitions independently and checks
/// that no partition achieves a smaller delta.
fn verify_optimal(players: &[Player], result: &BalanceResult) {
    let ratings: Vec<u32> = players.iter().map(|p| p.skill_rating).collect();
    let total: u32 = ratings.iter().sum();

    let min_possible_delta = (0u16..1024u16)
        .filter(|m| m.count_ones() == 5)
        .map(|mask| {
            let a_sum: u32 = (0..10)
                .filter(|&i| (mask >> i) & 1 == 1)
                .map(|i| ratings[i])
                .sum();
            (2 * a_sum).abs_diff(total)
        })
        .min()
        .unwrap_or(u32::MAX);

    assert_eq!(
        result.team_delta, min_possible_delta,
        "balance result delta {} is not optimal (minimum possible is {})",
        result.team_delta, min_possible_delta
    );
}

#[test]
fn test_equal_ratings_produces_zero_delta() {
    let players = make_players([1000; 10]);
    let result = exhaustive_balance(&players);
    assert_eq!(
        result.team_delta, 0,
        "All-equal ratings must produce delta=0"
    );
    assert_eq!(result.team_a.len(), TEAM_SIZE);
    assert_eq!(result.team_b.len(), TEAM_SIZE);
}

#[test]
fn test_known_optimal_split() {
    let players = make_players([100, 200, 300, 400, 500, 600, 700, 800, 900, 1000]);
    let result = exhaustive_balance(&players);

    // Verify optimality against independent brute-force
    verify_optimal(&players, &result);

    // Teams must have correct sizes
    assert_eq!(result.team_a.len(), TEAM_SIZE);
    assert_eq!(result.team_b.len(), TEAM_SIZE);

    assert!(result.team_delta <= 100);
}

#[test]
fn test_perfectly_balanced_input() {
    // Two interleaved arithmetic progressions that can be split perfectly
    // Team A: [1000, 1010, 1020, 1030, 1040] = 5100
    // Team B: [1000, 1010, 1020, 1030, 1040] = 5100
    let players = make_players([1000, 1000, 1010, 1010, 1020, 1020, 1030, 1030, 1040, 1040]);
    let result = exhaustive_balance(&players);
    assert_eq!(
        result.team_delta, 0,
        "Paired equal ratings must achieve delta=0"
    );
    verify_optimal(&players, &result);
}

#[test]
fn test_highly_unbalanced_input() {
    // One outlier player — best the algorithm can do is put them on one team
    // [1, 1, 1, 1, 1, 1, 1, 1, 1, 3000]
    // Best split: [3000, 1, 1, 1, 1] = 3004 vs [1, 1, 1, 1, 1] = 5 → delta = 2999
    let players = make_players([1, 1, 1, 1, 1, 1, 1, 1, 1, 3000]);
    let result = exhaustive_balance(&players);
    assert_eq!(result.team_delta, 2999);
    verify_optimal(&players, &result);
}

#[test]
fn test_output_contains_all_input_players() {
    let players = make_players([800, 850, 900, 950, 1000, 1050, 1100, 1150, 1200, 1250]);
    let result = exhaustive_balance(&players);

    // Collect all IDs from input
    let mut input_ids: Vec<u128> = players.iter().map(|p| p.id).collect();
    input_ids.sort();

    // Collect all IDs from output
    let mut output_ids: Vec<u128> = result
        .team_a
        .iter()
        .chain(result.team_b.iter())
        .map(|p| p.id)
        .collect();
    output_ids.sort();

    assert_eq!(
        input_ids, output_ids,
        "Every input player must appear in exactly one output team"
    );
}

#[test]
fn test_no_player_appears_in_both_teams() {
    let players = make_players([1000; 10]);
    let result = exhaustive_balance(&players);

    let team_a_ids: HashSet<u128> =
        result.team_a.iter().map(|p| p.id).collect();
    let team_b_ids: HashSet<u128> =
        result.team_b.iter().map(|p| p.id).collect();

    assert!(
        team_a_ids.is_disjoint(&team_b_ids),
        "No player may appear in both teams"
    );
    assert_eq!(team_a_ids.len(), TEAM_SIZE);
    assert_eq!(team_b_ids.len(), TEAM_SIZE);
}

#[test]
fn test_deterministic_output_for_identical_input() {
    // Same ratings, different UUIDs — output delta must be identical
    let players_1 = make_players([1000, 1100, 1200, 1300, 1400, 1500, 1600, 1700, 1800, 1900]);
    let players_2 = make_players([1000, 1100, 1200, 1300, 1400, 1500, 1600, 1700, 1800, 1900]);

    let r1 = exhaustive_balance(&players_1);
    let r2 = exhaustive_balance(&players_2);

    assert_eq!(
        r1.team_delta, r2.team_delta,
        "Same ratings must produce the same team delta"
    );
    assert_eq!(r1.total_rating, r2.total_rating);
}

#[test]
fn test_total_rating_is_correct() {
    let ratings = [800u32, 900, 1000, 1100, 1200, 1300, 1400, 1500, 1600, 1700];
    let expected_total: u32 = ratings.iter().sum();
    let players = make_players(ratings);
    let result = exhaustive_balance(&players);
    assert_eq!(result.total_rating, expected_total);
}

#[test]
fn test_team_sizes_always_five() {
    // Run multiple different inputs and verify team sizes
    let inputs = [
        [500u32; 10],
        [1, 2, 3, 4, 5, 6, 7, 8, 9, 10],
        [3000, 3000, 3000, 3000, 3000, 0, 0, 0, 0, 0],
        [1500, 1501, 1499, 1502, 1498, 1503, 1497, 1504, 1496, 1505],
    ];

    for input in &inputs {
        let players = make_players(*input);
        let result = exhaustive_balance(&players);
        assert_eq!(
            result.team_a.len(),
            TEAM_SIZE,
            "team_a must have {TEAM_SIZE} players"
        );
        assert_eq!(
            result.team_b.len(),
            TEAM_SIZE,
            "team_b must have {TEAM_SIZE} players"
        );
    }
}

#[test]
fn balancer_test_team_delta_matches_computed_sums() {
    let players = make_players([1000, 1100, 1200, 1300, 1400, 1050, 1150, 1250, 1350, 1450]);
    let result = exhaustive_balance(&players);

    let a_sum: u32 = result.team_a.iter().map(|p| p.skill_rating).sum();
    let b_sum: u32 = result.team_b.iter().map(|p| p.skill_rating).sum();

    assert_eq!(
        result.team_delta,
        a_sum.abs_diff(b_sum),
        "team_delta must equal |sum_a - sum_b|"
    );
}

#[test]
fn test_optimality_random_like_inputs() {
    // Several pseudo-random-looking inputs — verify optimality for each
    let inputs = [
        [723u32, 841, 956, 1102, 1287, 1334, 1456, 1589, 1701, 1823],
        [500, 750, 1000, 1250, 1500, 500, 750, 1000, 1250, 1500],
        [100, 2900, 1500, 1500, 1500, 1500, 1500, 1500, 1500, 100],
    ];

    for input in &inputs {
        let players = make_players(*input);
        let result = exhaustive_balance(&players);
        verify_optimal(&players, &result);
    }
}

#[test]
fn test_tiebreak_prefers_higher_team_a_sum() {
    // All players equal rating — all 126 partitions have delta=0.
    // Tie-break: team A should have higher or equal sum to team B.
    let players = make_players([1000; 10]);
    let result = exhaustive_balance(&players);
    let a_sum: u32 = result.team_a.iter().map(|p| p.skill_rating).sum();
    let b_sum: u32 = result.team_b.iter().map(|p| p.skill_rating).sum();
    // With all-equal ratings both sums are identical (5000 each)
    assert_eq!(a_sum, b_sum);
    assert_eq!(result.team_delta, 0);
}
fn make_ten(ratings: &[u32]) -> Vec<Player> {
    assert_eq!(ratings.len(), MATCH_SIZE, "Must provide exactly 10 ratings");
    ratings.iter().map(|&r| make_player(r)).collect()
}

fn make_core() -> MatchmakerCore {
    MatchmakerCore::new(
        Config {
            server_port: 8080,
            worker_count: 4,
            worker_tick_ms: 50,
            stale_claim_timeout_ms: 500,
            relaxation_stage_1_ms: 5_000,
            relaxation_stage_2_ms: 15_000,
            relaxation_stage_3_ms: 30_000,
            relaxation_stage_4_ms: 60_000,
            relaxation_stage_1_delta: 50,
            relaxation_stage_2_delta: 100,
            relaxation_stage_3_delta: 200,
            relaxation_stage_4_delta: 400,
            relaxation_stage_5_delta: 9999,
        },
        Metrics::new(),
    )
}

/// Independently verify optimality by brute-force.
fn brute_force_min_delta(ratings: &[u32; 10]) -> u32 {
    let total: u32 = ratings.iter().sum();
    (0u16..1024u16)
        .filter(|m| m.count_ones() == 5)
        .map(|mask| {
            let a: u32 = (0..10)
                .filter(|&i| (mask >> i) & 1 == 1)
                .map(|i| ratings[i])
                .sum();
            (2 * a).abs_diff(total)
        })
        .min()
        .unwrap_or(u32::MAX)
}

#[test]
fn test_team_sizes_are_always_five() {
    let players = make_ten(&[1000; 10]);
    let result = exhaustive_balance(&players);
    assert_eq!(result.team_a.len(), TEAM_SIZE, "team_a must have 5 players");
    assert_eq!(result.team_b.len(), TEAM_SIZE, "team_b must have 5 players");
}

#[test]
fn test_team_sizes_correct_for_varied_ratings() {
    let inputs: Vec<[u32; 10]> = vec![
        [100, 200, 300, 400, 500, 600, 700, 800, 900, 1000],
        [1, 1, 1, 1, 1, 3000, 3000, 3000, 3000, 3000],
        [1500; 10],
        [0, 0, 0, 0, 0, 0, 0, 0, 0, 3000],
    ];

    for ratings in &inputs {
        let players = make_ten(ratings);
        let result = exhaustive_balance(&players);
        assert_eq!(
            result.team_a.len(),
            TEAM_SIZE,
            "team_a must have 5 players for ratings {:?}",
            ratings
        );
        assert_eq!(
            result.team_b.len(),
            TEAM_SIZE,
            "team_b must have 5 players for ratings {:?}",
            ratings
        );
    }
}

#[test]
fn test_all_input_players_appear_in_output() {
    let players = make_ten(&[800, 900, 1000, 1100, 1200, 1300, 1400, 1500, 1600, 1700]);
    let input_ids: HashSet<u128> = players.iter().map(|p| p.id).collect();

    let result = exhaustive_balance(&players);
    let output_ids: HashSet<u128> = result
        .team_a
        .iter()
        .chain(result.team_b.iter())
        .map(|p| p.id)
        .collect();

    assert_eq!(
        input_ids, output_ids,
        "Every input player must appear in exactly one output team"
    );
}

#[test]
fn test_no_player_in_both_teams() {
    let players = make_ten(&[1000; 10]);
    let result = exhaustive_balance(&players);

    let a_ids: HashSet<u128> = result.team_a.iter().map(|p| p.id).collect();
    let b_ids: HashSet<u128> = result.team_b.iter().map(|p| p.id).collect();

    assert!(
        a_ids.is_disjoint(&b_ids),
        "No player may appear in both teams"
    );
}

#[test]
fn test_uniform_ratings_produce_zero_delta() {
    let players = make_ten(&[1000; 10]);
    let result = exhaustive_balance(&players);
    assert_eq!(
        result.team_delta, 0,
        "Uniform ratings must produce delta = 0"
    );
}

#[test]
fn test_paired_equal_ratings_produce_zero_delta() {
    // Each rating appears exactly twice — perfect pairing possible
    let players = make_ten(&[1000, 1000, 1100, 1100, 1200, 1200, 1300, 1300, 1400, 1400]);
    let result = exhaustive_balance(&players);
    assert_eq!(
        result.team_delta, 0,
        "Paired ratings must achieve delta = 0"
    );
}

#[test]
fn test_arithmetic_sequence_is_optimal() {
    let ratings = [100u32, 200, 300, 400, 500, 600, 700, 800, 900, 1000];
    let players = make_ten(&ratings);
    let result = exhaustive_balance(&players);

    let min_possible = brute_force_min_delta(&ratings);
    assert_eq!(
        result.team_delta, min_possible,
        "Result must be optimal for arithmetic sequence"
    );
}

#[test]
fn test_extreme_outlier_handled_correctly() {
    // One player at max rating, rest at minimum
    let ratings = [1u32, 1, 1, 1, 1, 1, 1, 1, 1, 3000];
    let players = make_ten(&ratings);
    let result = exhaustive_balance(&players);

    let min_possible = brute_force_min_delta(&ratings);
    assert_eq!(
        result.team_delta, min_possible,
        "Extreme outlier must be handled optimally"
    );

    // The outlier goes to one team — delta = |3004 - 5| = 2999
    assert_eq!(result.team_delta, 2999);
}

#[test]
fn test_bimodal_distribution_is_optimal() {
    // Two clusters: 5 players at 500, 5 players at 1500.
    // Total = 10000. For delta = 0 we need a team summing to 5000.
    // Possible sums with k players from 1500-group + (5-k) from 500-group:
    //   k=0 → 2500, k=1 → 3500, k=2 → 4500, k=3 → 5500
    // None reaches 5000. Minimum achievable delta = |4500 - 5500| = 1000.
    let ratings = [500u32, 500, 500, 500, 500, 1500, 1500, 1500, 1500, 1500];
    let players = make_ten(&ratings);
    let result = exhaustive_balance(&players);

    // Verify against independent brute-force oracle.
    let min_possible = brute_force_min_delta(&ratings);
    assert_eq!(
        result.team_delta, min_possible,
        "Bimodal distribution must be optimally balanced"
    );

    // The true minimum for this specific input is 1000 — not 0.
    assert_eq!(
        result.team_delta, 1000,
        "Bimodal (5×500, 5×1500): minimum achievable delta is 1000"
    );

    assert_eq!(result.team_a.len(), TEAM_SIZE);
    assert_eq!(result.team_b.len(), TEAM_SIZE);
}

#[test]
fn test_bimodal_perfectly_balanced_achieves_zero_delta() {
    // Total = 10000; five players at 1000 balance the rest exactly.
    let ratings = [1000u32, 1000, 1000, 1000, 1000, 1100, 1100, 900, 900, 1000];
    let players = make_ten(&ratings);
    let result = exhaustive_balance(&players);

    let min_possible = brute_force_min_delta(&ratings);
    assert_eq!(
        result.team_delta, min_possible,
        "Must be optimally balanced"
    );
    assert_eq!(
        result.team_delta, 0,
        "This input allows perfect balance — delta must be 0"
    );

    assert_eq!(result.team_a.len(), TEAM_SIZE);
    assert_eq!(result.team_b.len(), TEAM_SIZE);
}

#[test]
fn test_all_different_ratings_is_optimal() {
    let ratings = [723u32, 841, 956, 1102, 1287, 1334, 1456, 1589, 1701, 1823];
    let players = make_ten(&ratings);
    let result = exhaustive_balance(&players);

    let min_possible = brute_force_min_delta(&ratings);
    assert_eq!(
        result.team_delta, min_possible,
        "Varied ratings must be optimally balanced"
    );
}

#[test]
fn test_symmetric_distribution_around_midpoint() {
    // Symmetric: sum = 15000, each team should sum to 7500
    let ratings = [500u32, 1000, 1000, 1500, 1500, 1500, 1500, 2000, 2000, 2500];
    let players = make_ten(&ratings);
    let result = exhaustive_balance(&players);

    let min_possible = brute_force_min_delta(&ratings);
    assert_eq!(result.team_delta, min_possible);
}

#[test]
fn test_total_rating_matches_sum() {
    let ratings = [800u32, 900, 1000, 1100, 1200, 1300, 1400, 1500, 1600, 1700];
    let expected_total: u32 = ratings.iter().sum();
    let players = make_ten(&ratings);
    let result = exhaustive_balance(&players);

    assert_eq!(
        result.total_rating, expected_total,
        "total_rating must equal sum of all player ratings"
    );
}

#[test]
fn balancing_test_team_delta_matches_computed_sums() {
    let players = make_ten(&[1000, 1100, 1200, 1300, 1400, 1050, 1150, 1250, 1350, 1450]);
    let result = exhaustive_balance(&players);

    let a_sum: u32 = result.team_a.iter().map(|p| p.skill_rating).sum();
    let b_sum: u32 = result.team_b.iter().map(|p| p.skill_rating).sum();
    let computed_delta = a_sum.abs_diff(b_sum);

    assert_eq!(
        result.team_delta, computed_delta,
        "team_delta must equal |sum_a - sum_b|"
    );
}

#[test]
fn test_deterministic_delta_for_same_ratings() {
    // Two independent calls with the same ratings must produce the same delta.
    // (UUIDs differ, so team composition may differ, but delta must be equal.)
    let ratings = [
        1000u32, 1100, 1200, 1300, 1400, 1500, 1600, 1700, 1800, 1900,
    ];
    let p1 = make_ten(&ratings);
    let p2 = make_ten(&ratings);

    let r1 = exhaustive_balance(&p1);
    let r2 = exhaustive_balance(&p2);

    assert_eq!(
        r1.team_delta, r2.team_delta,
        "Same ratings must always produce the same delta"
    );
    assert_eq!(r1.total_rating, r2.total_rating);
}

#[test]
fn test_balance_quality_consistent_across_formations() {
    // Run balance 100 times on the same input — delta must always be identical
    let ratings = [900u32, 950, 1000, 1050, 1100, 1150, 1200, 1250, 1300, 1350];
    let expected_min = brute_force_min_delta(&ratings);

    for run in 0..100 {
        let players = make_ten(&ratings);
        let result = exhaustive_balance(&players);
        assert_eq!(
            result.team_delta, expected_min,
            "Run {run}: balance quality must be consistent"
        );
    }
}

#[test]
fn test_assert_team_delta_is_optimal_helper() {
    let mut core = make_core();
    let ctx = core.make_worker_context(1);
    let mut state = WorkerState::new();

    for i in 0..10u32 {
        core.enqueue(Uuid::new_v4().as_u128(), 1200 + i * 5).unwrap();
    }

    if let MatchAttemptResult::Success(m) = attempt_match(&ctx, core.shared_mut(), &mut state) {
        assert_team_delta_is_optimal(&m);
    } else {
        panic!("Expected successful match for optimal delta validation");
    }
}

/// Assert that the team delta is optimal for the given 10 players.
/// Independently brute-forces the minimum possible delta and compares.
fn assert_team_delta_is_optimal(m: &Match) {
    let all_ratings: Vec<u32> = m
        .team_a
        .players
        .iter()
        .chain(m.team_b.players.iter())
        .map(|p| p.skill_rating)
        .collect();

    assert_eq!(all_ratings.len(), 10);
    let total: u32 = all_ratings.iter().sum();

    let min_possible = (0u16..1024u16)
        .filter(|m| m.count_ones() == 5)
        .map(|mask| {
            let a: u32 = (0..10)
                .filter(|&i| (mask >> i) & 1 == 1)
                .map(|i| all_ratings[i])
                .sum();
            (2 * a).abs_diff(total)
        })
        .min()
        .unwrap_or(u32::MAX);

    assert_eq!(
        m.team_delta, min_possible,
        "team_delta {} is not optimal — minimum possible is {}",
        m.team_delta, min_possible
    );
}

#[test]
fn split_and_order_are_exact() {
    // The best difference is 0; of the splits that reach it, the one with the
    // smallest identifiers in team A wins.
    let ratings = [1u32, 2, 3, 4, 5, 1, 2, 3, 4, 5];
    let players: Vec<Player> =
        (0..10usize).map(|i| Player::joined_at(i as u128, ratings[i], 0)).collect();
    let result = exhaustive_balance(&players);
    assert_eq!(result.team_delta, 0);
    assert_eq!(result.total_rating, 30);
    let a: Vec<u32> = result.team_a.iter().map(|p| p.skill_rating).collect();
    let b: Vec<u32> = result.team_b.iter().map(|p| p.skill_rating).collect();
    assert_eq!(a, vec![1, 2, 3, 4, 5]);
    assert_eq!(b, vec![1, 2, 3, 4, 5]);
    let positions: Vec<u128> = result.team_a.iter().map(|p| p.id).collect();
    let expected: Vec<u128> = players[0..5].iter().map(|p| p.id).collect();
    assert_eq!(positions, expected);
}

#[test]
fn team_a_is_the_stronger_team() {
    let players = make_ten(&[1, 1, 1, 1, 1, 1, 1, 1, 1, 3000]);
    let result = exhaustive_balance(&players);
    let a_sum: u32 = result.team_a.iter().map(|p| p.skill_rating).sum();
    let b_sum: u32 = result.team_b.iter().map(|p| p.skill_rating).sum();
    assert_eq!(a_sum, 3004);
    assert_eq!(b_sum, 5);
}

#[test]
fn order_of_players_does_not_change_the_difference() {
    let ratings = [723u32, 841, 956, 1102, 1287, 1334, 1456, 1589, 1701, 1823];
    let mut reversed = ratings;
    reversed.reverse();
    let first = exhaustive_balance(&make_ten(&ratings));
    let second = exhaustive_balance(&make_ten(&reversed));
    let sum = |team: &Vec<Player>| team.iter().map(|p| p.skill_rating).sum::<u32>();
    assert_eq!(first.team_delta, second.team_delta);
    assert_eq!(sum(&first.team_a), sum(&second.team_a));
    assert_eq!(sum(&first.team_b), sum(&second.team_b));
}

#[test]
fn totals_up_to_the_limit_are_balanced() {
    let players = make_ten(&[u32::MAX, 0, 0, 0, 0, 0, 0, 0, 0, 0]);
    let result = exhaustive_balance(&players);
    assert_eq!(result.team_delta, u32::MAX);
    assert_eq!(result.total_rating, u32::MAX);
    assert_eq!(result.team_a[0].skill_rating, u32::MAX);
}

#[test]
fn order_of_players_does_not_change_the_teams() {
    let players: Vec<Player> = (0..10u128).map(|i| Player::joined_at(7 * i % 10, 1000, 0)).collect();
    let mut reversed = players.clone();
    reversed.reverse();
    let mut rotated = players.clone();
    rotated.rotate_left(3);
    let team = |list: &Vec<Player>| -> Vec<u128> {
        let mut ids: Vec<u128> = list.iter().map(|p| p.id).collect();
        ids.sort();
        ids
    };
    for order in [&players, &reversed, &rotated] {
        let result = exhaustive_balance(order);
        // All splits are tied, so the smallest identifiers form team A.
        assert_eq!(team(&result.team_a), vec![0, 1, 2, 3, 4]);
        assert_eq!(team(&result.team_b), vec![5, 6, 7, 8, 9]);
        // Each team keeps the order in which its players were given.
        let given: Vec<u128> = order.iter().map(|p| p.id).filter(|id| *id < 5).collect();
        let kept: Vec<u128> = result.team_a.iter().map(|p| p.id).collect();
        assert_eq!(kept, given);
    }
}

#[test]
fn equal_ratings_of_other_players_are_split_alike() {
    let ratings = [1000u32, 1100, 1237, 1300, 1405, 1500, 1611, 1700, 1888, 1900];
    let mut other = ratings;
    other.reverse();
    let a = exhaustive_balance(&make_players(ratings));
    let b = exhaustive_balance(&make_players(other));
    let total = |team: &Vec<Player>| team.iter().map(|p| p.skill_rating).sum::<u32>();
    assert_eq!(a.team_delta, b.team_delta);
    assert_eq!(a.total_rating, b.total_rating);
    assert_eq!(total(&a.team_a), total(&b.team_a));
    assert_eq!(total(&a.team_b), total(&b.team_b));
}

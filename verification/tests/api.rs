//! The endpoints: status codes and bodies.

use std::collections::HashSet;

use matchmaker::api::{
    cancel_handler, default_limit, enqueue_handler, enqueue_handler_at, health_handler,
    matches_handler, metrics_handler, AppError, MatchesQuery,
};
use matchmaker::config::{Config, EnvVars};
use matchmaker::engine::matcher::{attempt_match, WorkerState};
use matchmaker::engine::MatchmakerCore;
use matchmaker::metrics::Metrics;
use matchmaker::models::EnqueueRequest;
use uuid::Uuid;

fn new_id() -> u128 {
    Uuid::new_v4().as_u128()
}

fn make_core() -> MatchmakerCore {
    MatchmakerCore::new(Config::from_env(&EnvVars::default()).unwrap(), Metrics::new())
}

/// The status code and, for an error, its text and code.
fn enqueue(core: &mut MatchmakerCore, id: u128, skill_rating: u32) -> (u16, String, String) {
    match enqueue_handler(core, EnqueueRequest { id, skill_rating }) {
        Ok((status, body)) => (status, body.status.to_string(), String::new()),
        Err(error) => {
            let (status, body) = error.into_response();
            (status, body.error, body.code)
        }
    }
}

fn cancel(core: &mut MatchmakerCore, id: u128) -> (u16, String, String) {
    match cancel_handler(core, id) {
        Ok((status, body)) => {
            assert_eq!(body.player_id, id);
            (status, body.status.to_string(), String::new())
        }
        Err(error) => {
            let (status, body) = error.into_response();
            (status, body.error, body.code)
        }
    }
}

fn form_matches(core: &mut MatchmakerCore, count: usize) {
    let ctx = core.make_worker_context(1);
    let mut state = WorkerState::new();
    for _ in 0..count {
        let _ = attempt_match(&ctx, core.shared_mut(), &mut state);
    }
}

#[test]
fn test_enqueue_valid_player() {
    let mut core = make_core();
    assert_eq!(enqueue(&mut core, new_id(), 1000).0, 200);
}

#[test]
fn test_enqueue_duplicate_returns_409() {
    let mut core = make_core();
    let id = new_id();
    enqueue(&mut core, id, 1000);
    assert_eq!(enqueue(&mut core, id, 1000).0, 409);
}

#[test]
fn test_enqueue_invalid_skill_rating_returns_422() {
    let mut core = make_core();
    assert_eq!(enqueue(&mut core, new_id(), 9999).0, 422);
}

#[test]
fn test_cancel_known_player() {
    let mut core = make_core();
    let id = new_id();
    enqueue(&mut core, id, 1000);
    assert_eq!(cancel(&mut core, id).0, 200);
}

#[test]
fn mod_test_cancel_unknown_player_returns_404() {
    let mut core = make_core();
    assert_eq!(cancel(&mut core, new_id()).0, 404);
}

#[test]
fn test_health_returns_ok() {
    let core = make_core();
    assert_eq!(health_handler(&core).status, "ok");
}

#[test]
fn test_matches_returns_empty_list_initially() {
    let core = make_core();
    let body = matches_handler(&core, MatchesQuery { limit: default_limit() }).unwrap();
    assert_eq!(body.matches.len(), 0);
}

#[test]
fn test_matches_limit_clamped() {
    let core = make_core();
    assert!(matches_handler(&core, MatchesQuery { limit: 999 }).is_ok());
}

#[test]
fn test_enqueue_valid_player_returns_200() {
    let mut core = make_core();
    assert_eq!(enqueue(&mut core, new_id(), 1000).0, 200);
}

#[test]
fn test_enqueue_response_contains_required_fields() {
    let mut core = make_core();
    let id = new_id();
    let (status, body) = enqueue_handler(&mut core, EnqueueRequest { id, skill_rating: 1000 }).unwrap();
    assert_eq!(status, 200);
    assert_eq!(body.player_id, id);
    assert_eq!(body.status, "queued");
    assert_eq!(body.queue_depth, 1);
}

#[test]
fn test_enqueue_queue_depth_increments() {
    let mut core = make_core();
    for expected_depth in 1..=5 {
        let request = EnqueueRequest { id: new_id(), skill_rating: 1000 };
        let (_, body) = enqueue_handler(&mut core, request).unwrap();
        assert_eq!(body.queue_depth, expected_depth);
    }
}

#[test]
fn test_enqueue_duplicate_player_returns_409() {
    let mut core = make_core();
    let id = new_id();
    assert_eq!(enqueue(&mut core, id, 1000).0, 200);
    let (status, error, code) = enqueue(&mut core, id, 1000);
    assert_eq!(status, 409);
    assert_eq!(error, format!("Player {} is already queued", Uuid::from_u128(id)));
    assert_eq!(code, "CONFLICT");
}

#[test]
fn test_enqueue_skill_rating_above_3000_returns_422() {
    let mut core = make_core();
    let (status, error, code) = enqueue(&mut core, new_id(), 3001);
    assert_eq!(status, 422);
    assert_eq!(error, "skill_rating must be between 0 and 3000");
    assert_eq!(code, "VALIDATION_ERROR");
}

#[test]
fn test_enqueue_skill_rating_at_boundary_3000_returns_200() {
    let mut core = make_core();
    assert_eq!(enqueue(&mut core, new_id(), 3000).0, 200);
}

#[test]
fn test_enqueue_skill_rating_zero_returns_200() {
    let mut core = make_core();
    assert_eq!(enqueue(&mut core, new_id(), 0).0, 200);
}

#[test]
fn test_cancel_queued_player_returns_200() {
    let mut core = make_core();
    let id = new_id();
    enqueue(&mut core, id, 1000);
    assert_eq!(cancel(&mut core, id), (200, "cancelled".to_string(), String::new()));
}

#[test]
fn api_test_cancel_unknown_player_returns_404() {
    let mut core = make_core();
    let id = new_id();
    let (status, error, code) = cancel(&mut core, id);
    assert_eq!(status, 404);
    assert_eq!(error, format!("Player {} not found", Uuid::from_u128(id)));
    assert_eq!(code, "NOT_FOUND");
}

#[test]
fn test_cancel_removes_player_from_queue() {
    let mut core = make_core();
    let id = new_id();
    enqueue(&mut core, id, 1000);
    assert_eq!(health_handler(&core).players_waiting, 1);
    cancel(&mut core, id);
    assert_eq!(health_handler(&core).players_waiting, 0);
}

#[test]
fn test_cancel_already_matched_player_returns_404() {
    let mut core = make_core();
    let id = new_id();
    enqueue(&mut core, id, 1000);
    for _ in 0..9 {
        enqueue(&mut core, new_id(), 1003);
    }
    form_matches(&mut core, 1);
    assert_eq!(cancel(&mut core, id).0, 404);
}

#[test]
fn test_health_response_contains_required_fields() {
    let core = make_core();
    let body = health_handler(&core);
    assert_eq!(body.status, "ok");
    assert_eq!(body.players_waiting, 0);
    assert!(body.uptime_secs < 3600);
}

#[test]
fn test_health_players_waiting_reflects_queue() {
    let mut core = make_core();
    assert_eq!(health_handler(&core).players_waiting, 0);
    enqueue(&mut core, new_id(), 1000);
    enqueue(&mut core, new_id(), 1000);
    enqueue(&mut core, new_id(), 1000);
    assert_eq!(health_handler(&core).players_waiting, 3);
}

#[test]
fn test_health_uptime_is_non_negative() {
    let core = make_core();
    assert!(health_handler(&core).uptime_secs < 3600);
}

#[test]
fn test_metrics_enqueued_count_matches_requests() {
    let mut core = make_core();
    for _ in 0..7 {
        enqueue(&mut core, new_id(), 1000);
    }
    assert_eq!(metrics_handler(&core).total_players_enqueued, 7);
}

#[test]
fn test_matches_empty_initially() {
    let core = make_core();
    let body = matches_handler(&core, MatchesQuery { limit: default_limit() }).unwrap();
    assert_eq!(body.matches.len(), 0);
    assert_eq!(body.total_matches_formed, 0);
}

#[test]
fn test_matches_response_structure_after_match() {
    let mut core = make_core();
    for i in 0..10u32 {
        enqueue(&mut core, new_id(), 1000 + i * 3);
    }
    form_matches(&mut core, 1);
    let body = matches_handler(&core, MatchesQuery { limit: default_limit() }).unwrap();
    assert_eq!(body.matches.len(), 1);
    assert_eq!(body.total_matches_formed, 1);
    assert_eq!(body.matches[0].team_a.players.len(), 5);
    assert_eq!(body.matches[0].team_b.players.len(), 5);
    assert_eq!(body.matches[0].skill_spread, 27);
}

#[test]
fn test_matches_limit_parameter_respected() {
    let mut core = make_core();
    for i in 0..30u32 {
        enqueue(&mut core, new_id(), 1000 + (i % 20));
    }
    form_matches(&mut core, 3);
    let returned = |limit: usize| matches_handler(&core, MatchesQuery { limit }).unwrap().matches.len();
    assert_eq!(returned(1), 1, "limit=1 must return exactly 1 match");
    assert_eq!(returned(3), 3, "limit=3 must return all 3 matches");
    assert_eq!(returned(0), 1, "limit=0 counts as 1");
}

#[test]
fn test_matches_no_duplicate_player_ids_in_response() {
    let mut core = make_core();
    for i in 0..10u32 {
        enqueue(&mut core, new_id(), 1000 + i * 3);
    }
    form_matches(&mut core, 1);
    let body = matches_handler(&core, MatchesQuery { limit: default_limit() }).unwrap();
    let mut seen_ids = HashSet::new();
    for m in &body.matches {
        for player in m.team_a.players.iter().chain(m.team_b.players.iter()) {
            assert!(seen_ids.insert(player.id));
        }
    }
    assert_eq!(seen_ids.len(), 10);
}

#[test]
fn a_claimed_player_cannot_leave() {
    let mut core = make_core();
    let id = new_id();
    let request = EnqueueRequest { id, skill_rating: 1000 };
    assert!(enqueue_handler_at(&mut core, request, 5).is_ok());
    assert_eq!(core.pool().get(&id).unwrap().join_timestamp, 5);
    assert!(core.shared_mut().pool.try_claim(&id, 1, 1));
    let (status, error, code) = cancel(&mut core, id);
    assert_eq!(status, 409);
    assert_eq!(
        error,
        format!("Player {} is currently being matched — retry shortly", Uuid::from_u128(id))
    );
    assert_eq!(code, "CONFLICT");
    assert_eq!(health_handler(&core).players_waiting, 1);
}

#[test]
fn every_error_has_its_status_and_code() {
    let cases = [
        (AppError::BadRequest("a".to_string()), 400, "BAD_REQUEST"),
        (AppError::Conflict("a".to_string()), 409, "CONFLICT"),
        (AppError::NotFound("a".to_string()), 404, "NOT_FOUND"),
        (AppError::UnprocessableEntity("a".to_string()), 422, "VALIDATION_ERROR"),
    ];
    for (error, status, code) in cases {
        let (actual, body) = error.into_response();
        assert_eq!(actual, status);
        assert_eq!(body.error, "a");
        assert_eq!(body.code, code);
    }
    assert_eq!(default_limit(), 20);
}

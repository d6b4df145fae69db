//! The engine: joining, leaving and reporting.

use std::sync::Arc;

use matchmaker::config::{Config, EnvVars};
use matchmaker::engine::matcher::{attempt_match, WorkerState, MATCH_HISTORY_LIMIT};
use matchmaker::engine::{CancelError, EnqueueError, MatchmakerCore};
use matchmaker::metrics::Metrics;
use matchmaker::models::player_state;
use uuid::Uuid;

fn new_id() -> u128 {
    Uuid::new_v4().as_u128()
}

fn make_core() -> MatchmakerCore {
    MatchmakerCore::new(Config::from_env(&EnvVars::default()).unwrap(), Metrics::new())
}

#[test]
fn test_enqueue_success() {
    let mut core = make_core();
    let id = new_id();
    let result = core.enqueue(id, 1000);
    assert!(result.is_ok());
    assert_eq!(result.unwrap(), 1);
}

#[test]
fn test_enqueue_duplicate_rejected() {
    let mut core = make_core();
    let id = new_id();
    assert!(core.enqueue(id, 1000).is_ok());
    let second = core.enqueue(id, 1000);
    assert!(matches!(second, Err(EnqueueError::AlreadyQueued(_))));
}

#[test]
fn test_enqueue_invalid_skill_rating() {
    let mut core = make_core();
    let result = core.enqueue(new_id(), 9999);
    assert!(matches!(result, Err(EnqueueError::InvalidSkillRating(_, _))));
}

#[test]
fn test_cancel_waiting_player() {
    let mut core = make_core();
    let id = new_id();
    core.enqueue(id, 1000).unwrap();
    assert!(core.cancel(&id).is_ok());
    assert_eq!(core.players_waiting(), 0);
}

#[test]
fn test_cancel_unknown_player() {
    let mut core = make_core();
    let result = core.cancel(&new_id());
    assert!(matches!(result, Err(CancelError::NotFound(_))));
}

#[test]
fn test_cancel_claimed_player_returns_error() {
    let mut core = make_core();
    let id = new_id();
    core.enqueue(id, 1000).unwrap();

    // Claim the player to simulate mid-match state
    assert!(core.shared_mut().pool.try_claim(&id, 99, 0));

    let result = core.cancel(&id);
    assert!(matches!(result, Err(CancelError::CurrentlyBeingMatched(_))));
}

#[test]
fn test_players_waiting_counter() {
    let mut core = make_core();
    assert_eq!(core.players_waiting(), 0);

    for _ in 0..5 {
        core.enqueue(new_id(), 1000).unwrap();
    }
    assert_eq!(core.players_waiting(), 5);
}

#[test]
fn test_metrics_updated_on_enqueue() {
    let mut core = make_core();
    core.enqueue(new_id(), 1500).unwrap();
    core.enqueue(new_id(), 1500).unwrap();

    let snapshot = core.metrics_snapshot();
    assert_eq!(snapshot.total_players_enqueued, 2);
    assert_eq!(snapshot.current_queue_size, 2);
}

#[test]
fn test_metrics_updated_on_cancel() {
    let mut core = make_core();
    let id = new_id();
    core.enqueue(id, 1000).unwrap();
    core.cancel(&id).unwrap();

    let snapshot = core.metrics_snapshot();
    assert_eq!(snapshot.current_queue_size, 0);
    assert_eq!(snapshot.total_players_cancelled, 1);
}

#[test]
fn test_recent_matches_empty_initially() {
    let core = make_core();
    assert!(core.recent_matches(10).is_empty());
}

#[test]
fn test_uptime_is_non_zero() {
    let core = make_core();
    let uptime = core.uptime_secs();
    assert!(uptime < 3600);
}

#[test]
fn test_make_worker_context_has_correct_worker_id() {
    let core = make_core();
    let ctx = core.make_worker_context(42);
    assert_eq!(ctx.worker_id, 42);
    assert_eq!(ctx.match_history_limit, MATCH_HISTORY_LIMIT);
    assert_eq!(ctx.config, core.config());
}

#[test]
fn test_notify_fires_on_enqueue() {
    let mut core = make_core();
    let notify = core.notify();

    let notified = notify.notified();

    core.enqueue(new_id(), 1000).unwrap();

    drop(notified);
    assert!(Arc::strong_count(&notify) >= 1);
}

#[test]
fn test_concurrent_inserts_pool_size_correct() {
    let mut core = make_core();
    for _ in 0..8 {
        for _ in 0..100 {
            core.enqueue(new_id(), 1000).expect("Enqueue must succeed");
        }
    }
    assert_eq!(core.players_waiting(), 800);
    assert_eq!(core.pool().len(), 800);
}

#[test]
fn test_concurrent_enqueue_and_cancel_no_corruption() {
    let mut core = make_core();

    let ids: Vec<u128> = (0..200)
        .map(|_| {
            let id = new_id();
            core.enqueue(id, 1000).expect("Enqueue must succeed");
            id
        })
        .collect();

    for id in &ids[0..100] {
        let _ = core.cancel(id);
    }

    let remaining = core.players_waiting();
    assert!(remaining <= 200);
    assert!(remaining >= 0);
    assert_eq!(remaining, 100);
    for id in &ids[100..] {
        assert!(core.pool().contains(id));
    }
}

#[test]
fn a_waiting_worker_is_woken_by_an_enqueue() {
    let mut core = make_core();
    let notify = core.notify();
    core.enqueue(1, 1000).unwrap();
    // The signal is stored, so waiting for it returns at once.
    let runtime = tokio::runtime::Builder::new_current_thread().build().unwrap();
    runtime.block_on(notify.notified());
}

#[test]
fn the_rating_is_checked_before_the_queue() {
    let mut core = make_core();
    core.enqueue(1, 3000).unwrap();
    assert_eq!(core.enqueue(1, 3001), Err(EnqueueError::InvalidSkillRating(3001, 3000)));
    assert_eq!(core.enqueue(1, 2000), Err(EnqueueError::AlreadyQueued(1)));
    assert_eq!(core.enqueue(2, 0), Ok(2));
    assert_eq!(core.metrics().total_players_enqueued, 2);
}

#[test]
fn joining_records_the_time() {
    let mut core = make_core();
    core.enqueue_at(1, 1000, 12_345).unwrap();
    let player = core.pool().get(&1).unwrap();
    assert_eq!(player.join_timestamp, 12_345);
    assert_eq!(player.skill_rating, 1000);
    assert_eq!(player.state, player_state::WAITING);
    core.enqueue(2, 1000).unwrap();
    assert!(core.pool().get(&2).unwrap().join_timestamp <= core.clock().now());
}

#[test]
fn leaving_undoes_joining() {
    let mut core = make_core();
    core.enqueue(1, 1000).unwrap();
    core.cancel(&1).unwrap();
    assert!(core.pool().is_empty());
    assert_eq!(core.cancel(&1), Err(CancelError::NotFound(1)));
    assert_eq!(core.enqueue(1, 1000), Ok(1));
}

#[test]
fn recent_matches_come_newest_first() {
    let mut core = make_core();
    let ctx = core.make_worker_context(1);
    let mut state = WorkerState::new();
    for round in 0..3u32 {
        for _ in 0..10 {
            core.enqueue(new_id(), 1000 + 100 * round).unwrap();
        }
        let _ = attempt_match(&ctx, core.shared_mut(), &mut state);
    }
    let ratings = |limit: usize| -> Vec<u32> {
        core.recent_matches(limit).iter().map(|m| m.team_a.players[0].skill_rating).collect()
    };
    assert_eq!(ratings(2), vec![1200, 1100]);
    assert_eq!(ratings(10), vec![1200, 1100, 1000]);
    assert!(ratings(0).is_empty());
    assert_eq!(core.total_matches_formed(), 3);
    assert_eq!(core.match_history().len(), 3);
    assert_eq!(core.match_history()[0].team_a.players[0].skill_rating, 1000);
}

#[test]
fn errors_have_messages() {
    let id = 0x1234_5678_9abc_4def_8012_3456_789a_bcde;
    assert_eq!(
        EnqueueError::AlreadyQueued(id).message(),
        "Player 12345678-9abc-4def-8012-3456789abcde is already in the queue"
    );
    assert_eq!(
        EnqueueError::InvalidSkillRating(9999, 3000).message(),
        "Skill rating 9999 is outside the valid range (0–3000)"
    );
    assert_eq!(
        CancelError::NotFound(id).message(),
        "Player 12345678-9abc-4def-8012-3456789abcde not found in queue"
    );
    assert_eq!(
        CancelError::CurrentlyBeingMatched(id).message(),
        "Player 12345678-9abc-4def-8012-3456789abcde cannot be cancelled — currently being matched"
    );
    // Identifiers are written as the uuid crate writes them.
    let random = Uuid::new_v4();
    assert_eq!(
        CancelError::NotFound(random.as_u128()).message(),
        format!("Player {random} not found in queue")
    );
    assert_eq!(
        CancelError::NotFound(0).message(),
        "Player 00000000-0000-0000-0000-000000000000 not found in queue"
    );
}

#[test]
fn a_refused_join_gives_no_signal() {
    let mut core = make_core();
    let notify = core.notify();
    let runtime =
        tokio::runtime::Builder::new_current_thread().enable_time().build().unwrap();
    let short = std::time::Duration::from_millis(20);

    assert!(core.enqueue(1, 3001).is_err());
    assert!(runtime.block_on(async { tokio::time::timeout(short, notify.notified()).await }).is_err());

    core.enqueue(1, 1000).unwrap();
    assert!(runtime.block_on(async { tokio::time::timeout(short, notify.notified()).await }).is_ok());

    assert!(core.enqueue(1, 1000).is_err());
    assert!(runtime.block_on(async { tokio::time::timeout(short, notify.notified()).await }).is_err());
}

#[test]
fn each_join_wakes_one_waiting_worker() {
    let mut core = make_core();
    let notify = core.notify();
    let runtime =
        tokio::runtime::Builder::new_current_thread().enable_time().build().unwrap();
    let short = std::time::Duration::from_millis(20);
    runtime.block_on(async {
        let mut first = Box::pin(notify.notified());
        let mut second = Box::pin(notify.notified());
        // Both wait before anyone joins.
        assert!(tokio::time::timeout(short, first.as_mut()).await.is_err());
        assert!(tokio::time::timeout(short, second.as_mut()).await.is_err());
        core.enqueue(1, 1000).unwrap();
        assert!(tokio::time::timeout(short, first.as_mut()).await.is_ok());
        assert!(tokio::time::timeout(short, second.as_mut()).await.is_err());
        core.enqueue(2, 1000).unwrap();
        assert!(tokio::time::timeout(short, second.as_mut()).await.is_ok());
    });
}

#[test]
fn a_player_who_left_may_join_again() {
    let mut core = make_core();
    core.enqueue(1, 1000).unwrap();
    core.enqueue(7, 1000).unwrap();
    assert_eq!(core.cancel(&7), Ok(()));
    assert_eq!((core.pool().len(), core.players_waiting()), (1, 1));
    let s = core.metrics_snapshot();
    assert_eq!((s.total_players_enqueued, s.total_players_cancelled), (2, 1));
    assert_eq!(core.cancel(&7), Err(CancelError::NotFound(7)));
    assert_eq!(core.players_waiting(), 1);
    assert_eq!(core.enqueue(7, 1000), Ok(2));
}

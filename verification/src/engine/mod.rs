//! The matchmaking engine: the pool, the matcher and the state they share.
//!
//! [`MatchmakerCore`] ties the parts together. It is what the request handlers
//! talk to and what the workers draw their context from.

use std::sync::Arc;

use tokio::sync::Notify;
use vstd::prelude::*;
use vstd::string::*;

use crate::clock;
use crate::clock::{whole_seconds, Clock};
use crate::config::Config;
use crate::engine::bucket::MAX_SKILL_RATING;
use crate::engine::claims::withdraw;
use crate::engine::matcher::{SharedState, WorkerContext, MATCH_HISTORY_LIMIT};
use crate::engine::signal::WakeSignal;
use crate::metrics::{Metrics, MetricsSnapshot};
use crate::models;
use crate::models::{Match, Player};
use crate::text;
use crate::text::{append_decimal, format_uuid};

pub mod balancer;
pub mod bucket;
pub mod claims;
pub mod matcher;
pub mod primary;
pub mod record;
pub mod relaxation;
pub mod runs;
pub mod scan;
pub mod signal;

verus! {

/// Why a player could not join the queue.
#[derive(Debug, Clone, Copy, PartialEq, Eq)]
pub enum EnqueueError {
    /// The player is in the queue already.
    AlreadyQueued(u128),
    /// The rating exceeds the maximum, which comes second.
    InvalidSkillRating(u32, u32),
}

impl EnqueueError {
    /// The error in words.
    pub open spec fn written(self) -> Seq<char> {
        match self {
            EnqueueError::AlreadyQueued(id) => "Player "@ + text::uuid_text(id)
                + " is already in the queue"@,
            EnqueueError::InvalidSkillRating(rating, max) => "Skill rating "@
                + text::decimal(rating as nat) + " is outside the valid range (0–"@
                + text::decimal(max as nat) + ")"@,
        }
    }

    /// The error in words.
    pub fn message(&self) -> (message: String)
        ensures
            message@ == self.written(),
    {
        match self {
            EnqueueError::AlreadyQueued(id) => {
                let mut message = "Player ".to_owned();
                message.append(format_uuid(*id).as_str());
                message.append(" is already in the queue");
                message
            },
            EnqueueError::InvalidSkillRating(rating, max) => {
                let mut message = "Skill rating ".to_owned();
                append_decimal(&mut message, *rating as u64);
                message.append(" is outside the valid range (0–");
                append_decimal(&mut message, *max as u64);
                message.append(")");
                message
            },
        }
    }
}

/// Why a player could not leave the queue.
#[derive(Debug, Clone, Copy, PartialEq, Eq)]
pub enum CancelError {
    /// The player is not in the queue.
    NotFound(u128),
    /// The player is not waiting any more.
    CurrentlyBeingMatched(u128),
}

impl CancelError {
    /// The error in words.
    pub open spec fn written(self) -> Seq<char> {
        match self {
            CancelError::NotFound(id) => "Player "@ + text::uuid_text(id)
                + " not found in queue"@,
            CancelError::CurrentlyBeingMatched(id) => "Player "@ + text::uuid_text(id)
                + " cannot be cancelled — currently being matched"@,
        }
    }

    /// The error in words.
    pub fn message(&self) -> (message: String)
        ensures
            message@ == self.written(),
    {
        match self {
            CancelError::NotFound(id) => {
                let mut message = "Player ".to_owned();
                message.append(format_uuid(*id).as_str());
                message.append(" not found in queue");
                message
            },
            CancelError::CurrentlyBeingMatched(id) => {
                let mut message = "Player ".to_owned();
                message.append(format_uuid(*id).as_str());
                message.append(" cannot be cancelled — currently being matched");
                message
            },
        }
    }
}

/// The top-level engine.
pub struct MatchmakerCore {
    shared: SharedState,
    signal: WakeSignal,
    config: Config,
    clock: Clock,
}

/// What a [`MatchmakerCore`] holds.
#[verifier::ext_equal]
pub struct CoreView {
    /// The state it shares with the workers.
    pub shared: matcher::SharedView,
    /// What a worker waits on for a player to join.
    pub notify: Arc<Notify>,
    /// How often the workers have been signalled.
    pub signals: nat,
    /// The configuration.
    pub config: Config,
    /// The clock.
    pub clock: Clock,
}

impl View for MatchmakerCore {
    type V = CoreView;

    closed spec fn view(&self) -> CoreView {
        CoreView {
            shared: self.shared@,
            notify: self.signal.target(),
            signals: self.signal.given(),
            config: self.config,
            clock: self.clock,
        }
    }
}

/// The counters after a player has joined the queue.
pub open spec fn join_counted(metrics: Metrics) -> Metrics {
    Metrics {
        total_players_enqueued: metrics.total_players_enqueued.wrapping_add(1),
        current_queue_size: metrics.current_queue_size.wrapping_add(1),
        ..metrics
    }
}

/// The counters after a player has left the queue.
pub open spec fn leave_counted(metrics: Metrics) -> Metrics {
    Metrics {
        current_queue_size: metrics.current_queue_size.wrapping_sub(1),
        total_players_cancelled: metrics.total_players_cancelled.wrapping_add(1),
        ..metrics
    }
}

/// What joining the queue at `now` does: a rating above the maximum and a player
/// who is in the queue are refused, and then nothing changes and no signal is
/// given; otherwise the workers are signalled once.
pub open spec fn enqueued(
    before: CoreView,
    id: u128,
    skill_rating: u32,
    now: u64,
    after: CoreView,
    outcome: Result<usize, EnqueueError>,
) -> bool {
    if skill_rating > MAX_SKILL_RATING {
        &&& outcome == Err::<usize, EnqueueError>(
            EnqueueError::InvalidSkillRating(skill_rating, MAX_SKILL_RATING),
        )
        &&& after == before
    } else if before.shared.players.contains_key(id) {
        &&& outcome == Err::<usize, EnqueueError>(EnqueueError::AlreadyQueued(id))
        &&& after == before
    } else {
        &&& outcome is Ok
        &&& outcome->Ok_0 == after.shared.players.dom().len()
        &&& after == (CoreView {
            shared: matcher::SharedView {
                players: before.shared.players.insert(id, Player::queued(id, skill_rating, now)),
                metrics: join_counted(before.shared.metrics),
                history: before.shared.history,
            },
            signals: before.signals + 1,
            ..before
        })
    }
}

/// What leaving the queue does: only a waiting player can leave.
pub open spec fn cancelled(
    before: CoreView,
    id: u128,
    after: CoreView,
    outcome: Result<(), CancelError>,
) -> bool {
    if !before.shared.players.contains_key(id) {
        &&& outcome == Err::<(), CancelError>(CancelError::NotFound(id))
        &&& after == before
    } else if !before.shared.players[id].waiting() {
        &&& outcome == Err::<(), CancelError>(CancelError::CurrentlyBeingMatched(id))
        &&& after == before
    } else {
        &&& outcome is Ok
        &&& after == (CoreView {
            shared: matcher::SharedView {
                players: before.shared.players.remove(id),
                metrics: leave_counted(before.shared.metrics),
                history: before.shared.history,
            },
            ..before
        })
    }
}

/// The last `limit` entries of a history, newest first.
pub open spec fn newest_first(history: Seq<models::MatchView>, limit: nat) -> Seq<
    models::MatchView,
> {
    Seq::new(
        if limit <= history.len() {
            limit
        } else {
            history.len()
        },
        |i: int| history[history.len() - 1 - i],
    )
}

impl MatchmakerCore {
    /// The shared state is well-formed.
    pub closed spec fn wf(self) -> bool {
        self.shared.wf()
    }

    /// An engine with an empty queue and no matches, counting on from `metrics`.
    pub fn new(config: Config, metrics: Metrics) -> (core: Self)
        ensures
            core.wf(),
            core@.shared == (matcher::SharedView {
                players: Map::<u128, Player>::empty(),
                metrics,
                history: Seq::<models::MatchView>::empty(),
            }),
            core@.config == config,
            core@.signals == 0,
    {
        let mut shared = SharedState::new();
        shared.metrics = metrics;
        MatchmakerCore { shared, signal: WakeSignal::new(), config, clock: Clock::start() }
    }

    /// Add a player to the queue now and wake a worker.
    ///
    /// The join time is what the engine's clock reads;
    /// [`MatchmakerCore::enqueue_at`] takes it as an argument.
    pub fn enqueue(&mut self, id: u128, skill_rating: u32) -> (outcome: Result<usize, EnqueueError>)
        requires
            old(self).wf(),
        ensures
            final(self).wf(),
            exists|now: u64| #[trigger]
                enqueued(old(self)@, id, skill_rating, now, final(self)@, outcome),
    {
        let now: u64 = self.clock.now();
        self.enqueue_at(id, skill_rating, now)
    }

    /// Add a player to the queue with the join time `now` and wake a worker; see
    /// [`enqueued`].
    pub fn enqueue_at(&mut self, id: u128, skill_rating: u32, now: u64) -> (outcome: Result<
        usize,
        EnqueueError,
    >)
        requires
            old(self).wf(),
        ensures
            final(self).wf(),
            enqueued(old(self)@, id, skill_rating, now, final(self)@, outcome),
    {
        if skill_rating > MAX_SKILL_RATING {
            return Err(EnqueueError::InvalidSkillRating(skill_rating, MAX_SKILL_RATING));
        }
        if self.shared.pool.contains(&id) {
            return Err(EnqueueError::AlreadyQueued(id));
        }
        self.shared.pool.insert(Player::joined_at(id, skill_rating, now));
        self.shared.metrics.total_players_enqueued =
        self.shared.metrics.total_players_enqueued.wrapping_add(1);
        self.shared.metrics.current_queue_size =
        self.shared.metrics.current_queue_size.wrapping_add(1);
        self.signal.give();
        proof {
            let players = old(self).shared.pool@;
            assert forall|other: u128| #[trigger]
                self.shared.pool@.contains_key(other) implies self.shared.pool@[other].skill_rating
                <= MAX_SKILL_RATING by {
                if other != id {
                    assert(players.contains_key(other));
                }
            }
        }
        Ok(self.shared.pool.len())
    }

    /// Remove a waiting player from the queue; see [`cancelled`].
    pub fn cancel(&mut self, id: &u128) -> (outcome: Result<(), CancelError>)
        requires
            old(self).wf(),
        ensures
            final(self).wf(),
            cancelled(old(self)@, *id, final(self)@, outcome),
    {
        if !self.shared.pool.contains(id) {
            return Err(CancelError::NotFound(*id));
        }
        if withdraw(&mut self.shared.pool, id).is_none() {
            return Err(CancelError::CurrentlyBeingMatched(*id));
        }
        self.shared.metrics.current_queue_size =
        self.shared.metrics.current_queue_size.wrapping_sub(1);
        self.shared.metrics.total_players_cancelled =
        self.shared.metrics.total_players_cancelled.wrapping_add(1);
        proof {
            let players = old(self).shared.pool@;
            assert(self.shared.pool@ =~= players.remove(*id));
            assert forall|other: u128| #[trigger]
                self.shared.pool@.contains_key(other) implies self.shared.pool@[other].skill_rating
                <= MAX_SKILL_RATING by {
                assert(players.contains_key(other));
            }
        }
        Ok(())
    }

    /// The most recent `limit` matches, newest first.
    pub fn recent_matches(&self, limit: usize) -> (matches: Vec<Match>)
        ensures
            matches@.map_values(|m: Match| m@) == newest_first(
                self@.shared.history,
                limit as nat,
            ),
    {
        let mut matches: Vec<Match> = Vec::new();
        let total: usize = self.shared.match_history.len();
        let count: usize = if limit <= total {
            limit
        } else {
            total
        };
        let mut i: usize = 0;
        while i < count
            invariant
                i <= count <= total,
                total == self.shared.match_history@.len(),
                matches@.len() == i,
                forall|k: int|
                    0 <= k < i ==> (#[trigger] matches@[k])@ == self.shared.match_history@[total - 1
                        - k]@,
            decreases count - i,
        {
            let formed = self.shared.match_history[total - 1 - i].clone();
            matches.push(formed);
            i = i + 1;
        }
        proof {
            assert(matches@.map_values(|m: Match| m@) =~= newest_first(
                self@.shared.history,
                limit as nat,
            ));
        }
        matches
    }

    /// The number of matches ever formed.
    pub fn total_matches_formed(&self) -> (total: u64)
        ensures
            total == self@.shared.metrics.total_matches_created,
    {
        self.shared.metrics.total_matches_created
    }

    /// A snapshot of all metrics.
    pub fn metrics_snapshot(&self) -> (snapshot: MetricsSnapshot)
        ensures
            snapshot == self@.shared.metrics.reported(),
    {
        self.shared.metrics.snapshot()
    }

    /// The number of players in the queue.
    pub fn players_waiting(&self) -> (count: i64)
        ensures
            count == self@.shared.metrics.current_queue_size,
    {
        self.shared.metrics.current_queue_size
    }

    /// The seconds since the engine was started, as its clock reads now.
    pub fn uptime_secs(&self) -> (seconds: u64)
        ensures
            exists|nanos: u64| seconds == #[trigger] (nanos / clock::NANOS_PER_SEC),
    {
        whole_seconds(self.clock.now())
    }

    /// The player pool.
    pub fn pool(&self) -> (pool: &bucket::PlayerPool)
        ensures
            pool@ == self@.shared.players,
            self.wf() ==> pool.wf(),
    {
        &self.shared.pool
    }

    /// The counters.
    pub fn metrics(&self) -> (metrics: Metrics)
        ensures
            metrics == self@.shared.metrics,
    {
        self.shared.metrics
    }

    /// The signal that wakes a worker when a player joins the queue.
    pub fn notify(&self) -> (notify: Arc<Notify>)
        ensures
            notify == self@.notify,
    {
        self.signal.handle()
    }

    /// The match history, oldest first.
    pub fn match_history(&self) -> (history: &std::collections::VecDeque<Match>)
        ensures
            history@.map_values(|m: Match| m@) == self@.shared.history,
    {
        &self.shared.match_history
    }

    /// The configuration.
    pub fn config(&self) -> (config: Config)
        ensures
            config == self@.config,
    {
        self.config
    }

    /// The engine's clock.
    pub fn clock(&self) -> (clock: Clock)
        ensures
            clock == self@.clock,
    {
        self.clock
    }

    /// The state that workers act on.
    pub fn shared(&self) -> (shared: &SharedState)
        ensures
            shared@ == self@.shared,
            self.wf() ==> shared.wf(),
    {
        &self.shared
    }

    /// The state that workers act on, to be changed.
    pub fn shared_mut(&mut self) -> (shared: &mut SharedState)
        ensures
            shared@ == old(self)@.shared,
            old(self).wf() ==> shared.wf(),
            final(self)@ == (CoreView { shared: final(shared)@, ..old(self)@ }),
            final(shared).wf() ==> final(self).wf(),
    {
        &mut self.shared
    }

    /// The context for a worker.
    pub fn make_worker_context(&self, worker_id: u64) -> (ctx: WorkerContext)
        ensures
            ctx.worker_id == worker_id,
            ctx.config == self@.config,
            ctx.match_history_limit == MATCH_HISTORY_LIMIT,
            ctx.match_history_limit == 10_000,
            ctx.clock == self@.clock,
    {
        WorkerContext {
            worker_id,
            config: self.config,
            match_history_limit: MATCH_HISTORY_LIMIT,
            clock: self.clock,
        }
    }
}

/// A player who is in the queue cannot join it a second time.
pub proof fn law_no_player_queues_twice(
    before: CoreView,
    id: u128,
    skill_rating: u32,
    now: u64,
    after: CoreView,
    first: Result<usize, EnqueueError>,
    again_rating: u32,
    again: u64,
    last: CoreView,
    second: Result<usize, EnqueueError>,
)
    requires
        enqueued(before, id, skill_rating, now, after, first),
        first is Ok,
        enqueued(after, id, again_rating, again, last, second),
    ensures
        second is Err,
        last == after,
{
}

/// Every join signals the workers exactly once, and a refused one does not.
pub proof fn law_every_join_is_signalled_once(
    before: CoreView,
    id: u128,
    skill_rating: u32,
    now: u64,
    after: CoreView,
    outcome: Result<usize, EnqueueError>,
)
    requires
        enqueued(before, id, skill_rating, now, after, outcome),
    ensures
        outcome is Ok ==> after.signals == before.signals + 1,
        outcome is Err ==> after.signals == before.signals,
        after.notify == before.notify,
{
}

/// A player who joins the queue and leaves it again goes as evicted and leaves no
/// trace but in the counters of who joined and who left and in the signals given.
/// It cannot leave a second time, and may join again.
pub proof fn law_cancel_undoes_enqueue(
    before: CoreView,
    id: u128,
    skill_rating: u32,
    now: u64,
    between: CoreView,
    joined: Result<usize, EnqueueError>,
    after: CoreView,
    left: Result<(), CancelError>,
    later: CoreView,
    again: Result<(), CancelError>,
    rejoin_time: u64,
    last: CoreView,
    rejoined: Result<usize, EnqueueError>,
)
    requires
        enqueued(before, id, skill_rating, now, between, joined),
        joined is Ok,
        cancelled(between, id, after, left),
        cancelled(after, id, later, again),
        enqueued(later, id, skill_rating, rejoin_time, last, rejoined),
    ensures
        left is Ok,
        between.shared.players[id].after_evict().state == models::player_state::EVICTED,
        after.shared.players == before.shared.players,
        after.shared.history == before.shared.history,
        after.shared.metrics == (Metrics {
            total_players_enqueued: before.shared.metrics.total_players_enqueued.wrapping_add(1),
            total_players_cancelled: before.shared.metrics.total_players_cancelled.wrapping_add(1),
            ..before.shared.metrics
        }),
        again == Err::<(), CancelError>(CancelError::NotFound(id)),
        later == after,
        rejoined is Ok,
{
    assert(after.shared.players =~= before.shared.players);
}

/// A player whom a worker has claimed cannot leave the queue.
pub proof fn law_claimed_player_cannot_leave(
    before: CoreView,
    id: u128,
    after: CoreView,
    outcome: Result<(), CancelError>,
)
    requires
        cancelled(before, id, after, outcome),
        before.shared.players.contains_key(id),
        before.shared.players[id].state == models::player_state::CLAIMED,
    ensures
        outcome == Err::<(), CancelError>(CancelError::CurrentlyBeingMatched(id)),
        after == before,
{
}

/// The newest match comes first, and no more than `limit` are returned.
pub proof fn law_recent_matches_are_the_newest(
    history: Seq<models::MatchView>,
    completed: models::MatchView,
    limit: nat,
)
    requires
        limit > 0,
    ensures
        newest_first(history.push(completed), limit).len() <= limit,
        newest_first(history.push(completed), limit)[0] == completed,
        newest_first(history.push(completed), limit).drop_first() == newest_first(
            history,
            (limit - 1) as nat,
        ),
{
    let longer = history.push(completed);
    assert(newest_first(longer, limit).drop_first() =~= newest_first(
        history,
        (limit - 1) as nat,
    ));
}

/// Who may join: exactly a player who is not in the queue and rated 3000 at most.
/// It is then waiting in the queue, unclaimed, with its rating and join time; it is
/// told how many are in the queue with it; and nobody else changes.
pub proof fn law_join_depends_on_rating_and_presence(
    before: CoreView,
    id: u128,
    skill_rating: u32,
    now: u64,
    after: CoreView,
    outcome: Result<usize, EnqueueError>,
    other: u128,
)
    requires
        enqueued(before, id, skill_rating, now, after, outcome),
        before.shared.players.dom().finite(),
    ensures
        skill_rating > 3000 ==> outcome == Err::<usize, EnqueueError>(
            EnqueueError::InvalidSkillRating(skill_rating, 3000),
        ) && after == before,
        skill_rating <= 3000 && before.shared.players.contains_key(id) ==> outcome == Err::<
            usize,
            EnqueueError,
        >(EnqueueError::AlreadyQueued(id)) && after == before,
        skill_rating <= 3000 && !before.shared.players.contains_key(id) ==> {
            let player = after.shared.players[id];
            let a = before.shared.metrics;
            let b = after.shared.metrics;
            &&& outcome is Ok
            &&& outcome->Ok_0 == before.shared.players.dom().len() + 1
            &&& after.shared.players.contains_key(id)
            &&& player.id == id && player.skill_rating == skill_rating && player.join_timestamp
                == now
            &&& player.state == models::player_state::WAITING
            &&& player.claimed_by == 0 && player.claim_timestamp == 0 && player.matched_at is None
            &&& other != id ==> (after.shared.players.contains_key(other)
                <==> before.shared.players.contains_key(other)) && after.shared.players[other]
                == before.shared.players[other]
            &&& after.shared.history == before.shared.history
            &&& after.config == before.config && after.clock == before.clock
            &&& b == (Metrics {
                total_players_enqueued: a.total_players_enqueued.wrapping_add(1),
                current_queue_size: a.current_queue_size.wrapping_add(1),
                ..a
            })
        },
{
    if outcome is Ok {
        assert(after.shared.players.dom() =~= before.shared.players.dom().insert(id));
    }
}

/// Who may leave: exactly a player who waits in the queue. It is then gone, and
/// nobody else changes.
pub proof fn law_leaving_takes_a_waiting_player(
    before: CoreView,
    id: u128,
    after: CoreView,
    outcome: Result<(), CancelError>,
    other: u128,
)
    requires
        cancelled(before, id, after, outcome),
    ensures
        !before.shared.players.contains_key(id) ==> outcome == Err::<(), CancelError>(
            CancelError::NotFound(id),
        ) && after == before,
        before.shared.players.contains_key(id) && before.shared.players[id].state
            != models::player_state::WAITING ==> outcome == Err::<(), CancelError>(
            CancelError::CurrentlyBeingMatched(id),
        ) && after == before,
        before.shared.players.contains_key(id) && before.shared.players[id].state
            == models::player_state::WAITING ==> {
            let a = before.shared.metrics;
            let b = after.shared.metrics;
            &&& outcome is Ok
            &&& !after.shared.players.contains_key(id)
            &&& other != id ==> (after.shared.players.contains_key(other)
                <==> before.shared.players.contains_key(other)) && (
            before.shared.players.contains_key(other) ==> after.shared.players[other]
                == before.shared.players[other])
            &&& after.shared.history == before.shared.history
            &&& after.signals == before.signals
            &&& b == (Metrics {
                total_players_cancelled: a.total_players_cancelled.wrapping_add(1),
                current_queue_size: a.current_queue_size.wrapping_sub(1),
                ..a
            })
        },
{
}

/// The recent matches are the last of the history, the newest first: as many as
/// asked for, or all there are.
pub proof fn law_recent_matches_count_back_from_the_end(
    history: Seq<models::MatchView>,
    limit: nat,
    i: int,
)
    ensures
        limit <= history.len() ==> newest_first(history, limit).len() == limit,
        limit >= history.len() ==> newest_first(history, limit).len() == history.len(),
        0 <= i < newest_first(history, limit).len() ==> newest_first(history, limit)[i]
            == history[history.len() - 1 - i],
{
}

/// An error names the player or the ratings it is about, written out in full.
pub proof fn law_errors_name_what_they_are_about(id: u128, rating: u32, max: u32)
    ensures
        EnqueueError::AlreadyQueued(id).written() == "Player "@ + text::uuid_text(id)
            + " is already in the queue"@,
        EnqueueError::InvalidSkillRating(rating, max).written() == "Skill rating "@
            + text::decimal(rating as nat) + " is outside the valid range (0–"@ + text::decimal(
            max as nat,
        ) + ")"@,
        CancelError::NotFound(id).written() == "Player "@ + text::uuid_text(id)
            + " not found in queue"@,
        CancelError::CurrentlyBeingMatched(id).written() == "Player "@ + text::uuid_text(id)
            + " cannot be cancelled — currently being matched"@,
{
}

} // verus!

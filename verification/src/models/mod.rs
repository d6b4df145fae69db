//! The records that the other modules exchange: players, snapshots, teams,
//! matches, and the bodies of requests and responses.

use vstd::prelude::*;

use crate::clock::{millis_between, Clock};
use crate::utils::now_unix_secs;

pub mod player_state;

verus! {

/// A player in the matchmaking queue.
///
/// Identifiers are the 128-bit values of UUIDs, and order as UUIDs do. Join and
/// match times are nanoseconds on the engine's monotonic [`Clock`].
#[derive(Debug, Clone, Copy, PartialEq, Eq, Structural)]
pub struct Player {
    /// Globally unique player identifier.
    pub id: u128,
    /// Skill rating (MMR).
    pub skill_rating: u32,
    /// When the player joined the queue.
    pub join_timestamp: u64,
    /// Lifecycle state, one of the constants in [`player_state`].
    pub state: u8,
    /// The worker that holds the claim on this player; `0` means unclaimed.
    pub claimed_by: u64,
    /// Unix time in milliseconds when the claim was made; `0` means unclaimed.
    pub claim_timestamp: u64,
    /// When the player was matched; `None` until that has happened.
    pub matched_at: Option<u64>,
}

/// Whether the lifecycle allows a player to go from one state to another.
pub open spec fn legal_transition(from: u8, to: u8) -> bool {
    ||| from == player_state::WAITING && to == player_state::CLAIMED
    ||| from == player_state::WAITING && to == player_state::EVICTED
    ||| from == player_state::CLAIMED && to == player_state::WAITING
    ||| from == player_state::CLAIMED && to == player_state::MATCHED
}

impl Player {
    /// A freshly queued player.
    pub open spec fn queued(id: u128, skill_rating: u32, join_timestamp: u64) -> Player {
        Player {
            id,
            skill_rating,
            join_timestamp,
            state: player_state::WAITING,
            claimed_by: 0,
            claim_timestamp: 0,
            matched_at: None,
        }
    }

    /// The state is one of the four, a waiting player carries no claim, and
    /// exactly a matched player carries a match time.
    pub open spec fn wf(self) -> bool {
        &&& self.state <= player_state::EVICTED
        &&& self.waiting() ==> self.claimed_by == 0 && self.claim_timestamp == 0
        &&& self.matched_at is Some <==> self.state == player_state::MATCHED
    }

    /// Available for matching.
    pub open spec fn waiting(self) -> bool {
        self.state == player_state::WAITING
    }

    /// This player after `worker_id` has claimed it at `now_ms`.
    pub open spec fn claimed(self, worker_id: u64, now_ms: u64) -> Player {
        Player {
            state: player_state::CLAIMED,
            claimed_by: worker_id,
            claim_timestamp: now_ms,
            ..self
        }
    }

    /// This player after an attempt to claim it.
    pub open spec fn after_claim(self, worker_id: u64, now_ms: u64) -> Player {
        if self.waiting() {
            self.claimed(worker_id, now_ms)
        } else {
            self
        }
    }

    /// This player after its claim has been released.
    pub open spec fn after_release(self) -> Player {
        Player {
            state: if self.state == player_state::CLAIMED {
                player_state::WAITING
            } else {
                self.state
            },
            claimed_by: 0,
            claim_timestamp: 0,
            ..self
        }
    }

    /// This player after an attempt to mark it as matched at `now`.
    pub open spec fn after_match(self, now: u64) -> Player {
        if self.state == player_state::CLAIMED {
            Player { state: player_state::MATCHED, matched_at: Some(now), ..self }
        } else {
            self
        }
    }

    /// This player after an attempt to evict it.
    pub open spec fn after_evict(self) -> Player {
        if self.waiting() {
            Player { state: player_state::EVICTED, ..self }
        } else {
            self
        }
    }

    /// A new player who joins the queue now.
    ///
    /// The join time is whatever `clock` reads; [`Player::joined_at`] takes it
    /// as an argument.
    pub fn new(id: u128, skill_rating: u32, clock: &Clock) -> (player: Self)
        ensures
            player == Player::queued(id, skill_rating, player.join_timestamp),
            player.wf(),
    {
        Player::joined_at(id, skill_rating, clock.now())
    }

    /// A new player who joined the queue at `join_timestamp`.
    pub fn joined_at(id: u128, skill_rating: u32, join_timestamp: u64) -> (player: Self)
        ensures
            player == Player::queued(id, skill_rating, join_timestamp),
            player.wf(),
    {
        Player {
            id,
            skill_rating,
            join_timestamp,
            state: player_state::WAITING,
            claimed_by: 0,
            claim_timestamp: 0,
            matched_at: None,
        }
    }

    /// The current lifecycle state.
    pub fn state(&self) -> (state: u8)
        ensures
            state == self.state,
    {
        self.state
    }

    /// Whether the player is available for matching.
    pub fn is_waiting(&self) -> (waiting: bool)
        ensures
            waiting == self.waiting(),
    {
        self.state == player_state::WAITING
    }

    /// Claim the player for `worker_id`.
    ///
    /// Succeeds exactly if the player is waiting, and then records who claimed
    /// it and when. Otherwise nothing changes.
    pub fn try_claim(&mut self, worker_id: u64, now_ms: u64) -> (won: bool)
        ensures
            won == old(self).waiting(),
            *final(self) == old(self).after_claim(worker_id, now_ms),
            old(self).wf() ==> final(self).wf(),
    {
        if self.state == player_state::WAITING {
            self.state = player_state::CLAIMED;
            self.claimed_by = worker_id;
            self.claim_timestamp = now_ms;
            true
        } else {
            false
        }
    }

    /// Release the claim on the player.
    ///
    /// Clears the claim fields and returns a claimed player to the queue. A
    /// player in any other state keeps that state.
    pub fn release_claim(&mut self)
        ensures
            *final(self) == old(self).after_release(),
            old(self).wf() ==> final(self).wf(),
    {
        self.claimed_by = 0;
        self.claim_timestamp = 0;
        if self.state == player_state::CLAIMED {
            self.state = player_state::WAITING;
        }
    }

    /// Mark a claimed player as matched now.
    ///
    /// The match time is whatever `clock` reads; [`Player::mark_matched_at`]
    /// takes it as an argument.
    pub fn mark_matched(&mut self, clock: &Clock)
        ensures
            exists|now: u64| *final(self) == #[trigger] old(self).after_match(now),
            old(self).wf() ==> final(self).wf(),
    {
        let now: u64 = clock.now();
        self.mark_matched_at(now);
    }

    /// Mark a claimed player as matched at `now`.
    ///
    /// A player in any other state stays as it is.
    pub fn mark_matched_at(&mut self, now: u64)
        ensures
            *final(self) == old(self).after_match(now),
            old(self).wf() ==> final(self).wf(),
    {
        if self.state == player_state::CLAIMED {
            self.matched_at = Some(now);
            self.state = player_state::MATCHED;
        }
    }

    /// Evict the player from the queue. Succeeds exactly if the player is waiting.
    pub fn try_evict(&mut self) -> (evicted: bool)
        ensures
            evicted == old(self).waiting(),
            *final(self) == old(self).after_evict(),
            old(self).wf() ==> final(self).wf(),
    {
        if self.state == player_state::WAITING {
            self.state = player_state::EVICTED;
            true
        } else {
            false
        }
    }

    /// The milliseconds this player has waited, as `clock` reads now.
    pub fn wait_ms(&self, clock: &Clock) -> (waited: u64)
        ensures
            exists|now: u64| waited == #[trigger] millis_between(self.join_timestamp, now),
    {
        self.wait_ms_at(clock.now())
    }

    /// The milliseconds this player had waited at `now`.
    pub fn wait_ms_at(&self, now: u64) -> (waited: u64)
        ensures
            waited == millis_between(self.join_timestamp, now),
    {
        millis_between(self.join_timestamp, now)
    }

    /// The milliseconds this player had waited when it was matched; `None` if
    /// that has not happened.
    pub fn matched_wait_ms(&self) -> (waited: Option<u64>)
        ensures
            waited == match self.matched_at {
                Some(matched) => Some(millis_between(self.join_timestamp, matched)),
                None => None,
            },
    {
        match self.matched_at {
            Some(matched) => Some(millis_between(self.join_timestamp, matched)),
            None => None,
        }
    }
}

/// Whatever is done to a player, its state stays or moves along the lifecycle,
/// and who the player is never changes.
pub proof fn law_only_legal_transitions(player: Player, worker_id: u64, now_ms: u64, now: u64)
    requires
        player.wf(),
    ensures
        forall|next: Player|
            next == player.after_claim(worker_id, now_ms) || next == player.after_release() || next
                == player.after_match(now) || next == player.after_evict() ==> {
                &&& next.state == player.state || legal_transition(player.state, next.state)
                &&& next.id == player.id
                &&& next.skill_rating == player.skill_rating
                &&& next.join_timestamp == player.join_timestamp
            },
{
}

/// Of two workers that try to claim the same waiting player, only the first
/// wins, and its claim stands.
pub proof fn law_claim_has_one_winner(
    player: Player,
    first: u64,
    first_ms: u64,
    second: u64,
    second_ms: u64,
)
    requires
        player.waiting(),
    ensures
        !player.after_claim(first, first_ms).waiting(),
        player.after_claim(first, first_ms).after_claim(second, second_ms) == player.claimed(
            first,
            first_ms,
        ),
{
}

/// Releasing a claim puts a waiting player back exactly as it was.
pub proof fn law_release_undoes_claim(player: Player, worker_id: u64, now_ms: u64)
    requires
        player.wf(),
        player.waiting(),
    ensures
        player.after_claim(worker_id, now_ms).after_release() == player,
{
}

/// A claim and an eviction of the same waiting player exclude each other,
/// whichever comes first.
pub proof fn law_claim_and_evict_exclude_each_other(player: Player, worker_id: u64, now_ms: u64)
    requires
        player.waiting(),
    ensures
        player.after_claim(worker_id, now_ms).after_evict() == player.claimed(worker_id, now_ms),
        player.after_evict().after_claim(worker_id, now_ms) == player.after_evict(),
        player.after_evict().state == player_state::EVICTED,
{
}

/// A matched or evicted player never changes its state again.
pub proof fn law_matched_and_evicted_are_final(
    player: Player,
    worker_id: u64,
    now_ms: u64,
    now: u64,
)
    requires
        player.state == player_state::MATCHED || player.state == player_state::EVICTED,
    ensures
        player.after_claim(worker_id, now_ms).state == player.state,
        player.after_release().state == player.state,
        player.after_match(now).state == player.state,
        player.after_evict().state == player.state,
{
}

/// The match time is set exactly once, when the player becomes matched, and
/// never changes after that.
pub proof fn law_match_time_is_set_once(player: Player, worker_id: u64, now_ms: u64, now: u64)
    requires
        player.wf(),
    ensures
        forall|next: Player|
            next == player.after_claim(worker_id, now_ms) || next == player.after_release() || next
                == player.after_match(now) || next == player.after_evict() ==> {
                ||| next.matched_at == player.matched_at
                ||| {
                    &&& player.state == player_state::CLAIMED
                    &&& player.matched_at is None
                    &&& next.state == player_state::MATCHED
                    &&& next.matched_at == Some(now)
                }
            },
        player.matched_at is Some ==> player.after_match(now) == player,
{
}

/// What a match record keeps of a player.
#[derive(Debug, Clone, Copy, PartialEq, Eq)]
pub struct PlayerSnapshot {
    /// The player's identifier.
    pub id: u128,
    /// The player's skill rating at the time of the match.
    pub skill_rating: u32,
    /// How long the player waited before being matched (milliseconds).
    pub wait_ms: u64,
}

impl PlayerSnapshot {
    /// The snapshot of a player at `now`: the wait until the player was matched,
    /// or until `now` if that has not happened.
    pub open spec fn of(player: Player, now: u64) -> PlayerSnapshot {
        PlayerSnapshot {
            id: player.id,
            skill_rating: player.skill_rating,
            wait_ms: millis_between(
                player.join_timestamp,
                match player.matched_at {
                    Some(matched) => matched,
                    None => now,
                },
            ),
        }
    }

    /// Capture a snapshot of a player as `clock` reads now.
    pub fn capture(player: &Player, clock: &Clock) -> (snapshot: Self)
        ensures
            exists|now: u64| snapshot == #[trigger] PlayerSnapshot::of(*player, now),
    {
        let now: u64 = clock.now();
        PlayerSnapshot::capture_at(player, now)
    }

    /// Capture a snapshot of a player at `now`.
    pub fn capture_at(player: &Player, now: u64) -> (snapshot: Self)
        ensures
            snapshot == PlayerSnapshot::of(*player, now),
    {
        let wait_ms: u64 = match player.matched_wait_ms() {
            Some(waited) => waited,
            None => player.wait_ms_at(now),
        };
        PlayerSnapshot { id: player.id, skill_rating: player.skill_rating, wait_ms }
    }
}

/// The total skill rating of a sequence of snapshots.
pub open spec fn snapshot_total(players: Seq<PlayerSnapshot>) -> nat
    decreases players.len(),
{
    if players.len() == 0 {
        0
    } else {
        snapshot_total(players.drop_last()) + players.last().skill_rating as nat
    }
}

proof fn lemma_snapshot_total_prefix(players: Seq<PlayerSnapshot>, n: int)
    requires
        0 <= n <= players.len(),
    ensures
        snapshot_total(players.take(n)) <= snapshot_total(players),
    decreases players.len(),
{
    if n < players.len() {
        lemma_snapshot_total_prefix(players.drop_last(), n);
        assert(players.drop_last().take(n) =~= players.take(n));
    } else {
        assert(players.take(n) =~= players);
    }
}

/// One side of a match: five players.
#[derive(Debug)]
pub struct Team {
    /// The five players on this team.
    pub players: Vec<PlayerSnapshot>,
    /// Sum of the players' skill ratings.
    pub total_rating: u32,
}

/// What a [`Team`] holds.
#[verifier::ext_equal]
pub struct TeamView {
    /// The players, in order.
    pub players: Seq<PlayerSnapshot>,
    /// Sum of the players' skill ratings.
    pub total_rating: u32,
}

impl View for Team {
    type V = TeamView;

    open spec fn view(&self) -> TeamView {
        TeamView { players: self.players@, total_rating: self.total_rating }
    }
}

impl TeamView {
    /// The team of the given players.
    pub open spec fn of(players: Seq<PlayerSnapshot>) -> TeamView {
        TeamView { players, total_rating: snapshot_total(players) as u32 }
    }
}

impl Team {
    /// A team of five players, with their ratings added up. The sum has to fit
    /// in a `u32`.
    pub fn new(players: Vec<PlayerSnapshot>) -> (team: Self)
        requires
            players@.len() == 5,
            snapshot_total(players@) <= u32::MAX,
        ensures
            team@ == TeamView::of(players@),
            team.total_rating == snapshot_total(players@),
    {
        let mut total_rating: u32 = 0;
        let mut i: usize = 0;
        while i < players.len()
            invariant
                i <= players@.len(),
                snapshot_total(players@) <= u32::MAX,
                total_rating == snapshot_total(players@.take(i as int)),
            decreases players@.len() - i,
        {
            proof {
                assert(players@.take(i + 1).drop_last() =~= players@.take(i as int));
                lemma_snapshot_total_prefix(players@, i + 1);
            }
            total_rating = total_rating + players[i].skill_rating;
            i = i + 1;
        }
        assert(players@.take(i as int) =~= players@);
        Team { players, total_rating }
    }
}

impl Clone for Team {
    fn clone(&self) -> (copy: Self)
        ensures
            copy@ == self@,
    {
        let players = self.players.clone();
        assert(players@ =~= self.players@);
        Team { players, total_rating: self.total_rating }
    }
}

/// A completed match: two teams of five players.
#[derive(Debug)]
pub struct Match {
    /// Unique identifier of this match.
    pub match_id: u128,
    /// Team A.
    pub team_a: Team,
    /// Team B.
    pub team_b: Team,
    /// Difference in total skill rating between the two teams.
    pub team_delta: u32,
    /// Skill spread across all ten players.
    pub skill_spread: u32,
    /// Average wait across all ten players (milliseconds).
    pub avg_wait_ms: u64,
    /// Maximum wait across all ten players (milliseconds).
    pub max_wait_ms: u64,
    /// Unix timestamp (seconds) when the match was formed.
    pub formed_at_unix: u64,
}

/// What a [`Match`] holds.
#[verifier::ext_equal]
pub struct MatchView {
    /// Unique identifier of this match.
    pub match_id: u128,
    /// Team A.
    pub team_a: TeamView,
    /// Team B.
    pub team_b: TeamView,
    /// Difference in total skill rating between the two teams.
    pub team_delta: u32,
    /// Skill spread across all ten players.
    pub skill_spread: u32,
    /// Average wait across all ten players (milliseconds).
    pub avg_wait_ms: u64,
    /// Maximum wait across all ten players (milliseconds).
    pub max_wait_ms: u64,
    /// Unix timestamp (seconds) when the match was formed.
    pub formed_at_unix: u64,
}

impl View for Match {
    type V = MatchView;

    open spec fn view(&self) -> MatchView {
        MatchView {
            match_id: self.match_id,
            team_a: self.team_a@,
            team_b: self.team_b@,
            team_delta: self.team_delta,
            skill_spread: self.skill_spread,
            avg_wait_ms: self.avg_wait_ms,
            max_wait_ms: self.max_wait_ms,
            formed_at_unix: self.formed_at_unix,
        }
    }
}

/// The absolute difference of two ratings.
pub open spec fn rating_gap(a: u32, b: u32) -> u32 {
    if a >= b {
        (a - b) as u32
    } else {
        (b - a) as u32
    }
}

impl MatchView {
    /// The identifiers of the players of team A, then those of team B.
    pub open spec fn ids(self) -> Seq<u128> {
        (self.team_a.players + self.team_b.players).map_values(|player: PlayerSnapshot| player.id)
    }

    /// Whether a player takes part in the match.
    pub open spec fn involves(self, id: u128) -> bool {
        ||| exists|i: int| 0 <= i < self.team_a.players.len() && (#[trigger] self.team_a.players[i]).id == id
        ||| exists|i: int| 0 <= i < self.team_b.players.len() && (#[trigger] self.team_b.players[i]).id == id
    }
}

impl Match {
    /// A match record formed now.
    ///
    /// The time of formation is what the system clock reads;
    /// [`Match::formed_at`] takes it as an argument.
    pub fn new(
        match_id: u128,
        team_a: Team,
        team_b: Team,
        skill_spread: u32,
        avg_wait_ms: u64,
        max_wait_ms: u64,
    ) -> (formed: Self)
        ensures
            formed@ == (MatchView {
                match_id,
                team_a: team_a@,
                team_b: team_b@,
                team_delta: rating_gap(team_a.total_rating, team_b.total_rating),
                skill_spread,
                avg_wait_ms,
                max_wait_ms,
                formed_at_unix: formed.formed_at_unix,
            }),
    {
        let formed_at_unix: u64 = now_unix_secs();
        Match::formed_at(
            match_id,
            team_a,
            team_b,
            skill_spread,
            avg_wait_ms,
            max_wait_ms,
            formed_at_unix,
        )
    }

    /// A match record formed at `formed_at_unix`.
    pub fn formed_at(
        match_id: u128,
        team_a: Team,
        team_b: Team,
        skill_spread: u32,
        avg_wait_ms: u64,
        max_wait_ms: u64,
        formed_at_unix: u64,
    ) -> (formed: Self)
        ensures
            formed@ == (MatchView {
                match_id,
                team_a: team_a@,
                team_b: team_b@,
                team_delta: rating_gap(team_a.total_rating, team_b.total_rating),
                skill_spread,
                avg_wait_ms,
                max_wait_ms,
                formed_at_unix,
            }),
    {
        let team_delta: u32 = if team_a.total_rating >= team_b.total_rating {
            team_a.total_rating - team_b.total_rating
        } else {
            team_b.total_rating - team_a.total_rating
        };
        Match {
            match_id,
            team_a,
            team_b,
            team_delta,
            skill_spread,
            avg_wait_ms,
            max_wait_ms,
            formed_at_unix,
        }
    }
}

impl Clone for Match {
    fn clone(&self) -> (copy: Self)
        ensures
            copy@ == self@,
    {
        Match {
            match_id: self.match_id,
            team_a: self.team_a.clone(),
            team_b: self.team_b.clone(),
            team_delta: self.team_delta,
            skill_spread: self.skill_spread,
            avg_wait_ms: self.avg_wait_ms,
            max_wait_ms: self.max_wait_ms,
            formed_at_unix: self.formed_at_unix,
        }
    }
}

/// Request body for `POST /enqueue`.
#[derive(Debug, Clone, Copy)]
pub struct EnqueueRequest {
    /// The player's identifier.
    pub id: u128,
    /// The player's skill rating.
    pub skill_rating: u32,
}

/// Response body for `POST /enqueue`.
#[derive(Debug, Clone, Copy)]
pub struct EnqueueResponse {
    /// The player's identifier.
    pub player_id: u128,
    /// What became of the request.
    pub status: &'static str,
    /// The queue depth, for information only.
    pub queue_depth: usize,
}

/// Response body for `GET /health`.
#[derive(Debug, Clone, Copy)]
pub struct HealthResponse {
    /// The state of the service.
    pub status: &'static str,
    /// Players in the queue.
    pub players_waiting: i64,
    /// Seconds since the service started.
    pub uptime_secs: u64,
}

/// Response body for `GET /matches`.
#[derive(Debug)]
pub struct MatchesResponse {
    /// The most recent matches, newest first.
    pub matches: Vec<Match>,
    /// Matches ever formed.
    pub total_matches_formed: u64,
}

/// Response body of every error response.
#[derive(Debug)]
pub struct ErrorResponse {
    /// What went wrong, in words.
    pub error: String,
    /// A code for the kind of error.
    pub code: String,
}

impl ErrorResponse {
    /// An error response with the given text and code.
    pub fn new(error: String, code: String) -> (response: Self)
        ensures
            response.error@ == error@,
            response.code@ == code@,
    {
        ErrorResponse { error, code }
    }
}

/// What each transition does to the fields of a player: a claim takes exactly a
/// waiting player and notes who and when; a release clears the claim and puts
/// exactly a claimed player back; a match takes exactly a claimed player and notes
/// when; an eviction takes exactly a waiting player. Nothing else changes.
pub proof fn law_transitions_change_these_fields(
    player: Player,
    worker_id: u64,
    now_ms: u64,
    now: u64,
)
    ensures
        ({
            let claimed = player.after_claim(worker_id, now_ms);
            let released = player.after_release();
            let matched = player.after_match(now);
            let evicted = player.after_evict();
            &&& player.state == player_state::WAITING ==> {
                &&& claimed.state == player_state::CLAIMED
                &&& claimed.claimed_by == worker_id
                &&& claimed.claim_timestamp == now_ms
                &&& claimed.matched_at == player.matched_at
                &&& evicted == Player { state: player_state::EVICTED, ..player }
            }
            &&& player.state != player_state::WAITING ==> claimed == player && evicted == player
            &&& player.state == player_state::CLAIMED ==> {
                &&& released.state == player_state::WAITING
                &&& matched.state == player_state::MATCHED
                &&& matched.matched_at == Some(now)
                &&& matched.claimed_by == player.claimed_by
                &&& matched.claim_timestamp == player.claim_timestamp
            }
            &&& player.state != player_state::CLAIMED ==> released.state == player.state && matched
                == player
            &&& released.claimed_by == 0 && released.claim_timestamp == 0
            &&& released.matched_at == player.matched_at
            &&& claimed.id == player.id && released.id == player.id && matched.id == player.id
            &&& claimed.skill_rating == player.skill_rating && released.skill_rating
                == player.skill_rating && matched.skill_rating == player.skill_rating
            &&& claimed.join_timestamp == player.join_timestamp && released.join_timestamp
                == player.join_timestamp && matched.join_timestamp == player.join_timestamp
        }),
{
}

/// A freshly queued player is waiting, carries what it joined with, and no claim
/// and no match.
pub proof fn law_queued_player_is_unclaimed(id: u128, skill_rating: u32, join_timestamp: u64)
    ensures
        ({
            let player = Player::queued(id, skill_rating, join_timestamp);
            &&& player.id == id
            &&& player.skill_rating == skill_rating
            &&& player.join_timestamp == join_timestamp
            &&& player.state == player_state::WAITING
            &&& player.claimed_by == 0
            &&& player.claim_timestamp == 0
            &&& player.matched_at is None
        }),
{
}

/// A snapshot keeps who the player is and its rating, and the true wait until the
/// match, or until now, in whole milliseconds.
pub proof fn law_snapshot_keeps_the_true_wait(player: Player, now: u64)
    ensures
        ({
            let snapshot = PlayerSnapshot::of(player, now);
            let until = match player.matched_at {
                Some(matched) => matched,
                None => now,
            };
            &&& snapshot.id == player.id
            &&& snapshot.skill_rating == player.skill_rating
            &&& player.join_timestamp <= until ==> snapshot.wait_ms * 1_000_000 <= until
                - player.join_timestamp < (snapshot.wait_ms + 1) * 1_000_000
            &&& until <= player.join_timestamp ==> snapshot.wait_ms == 0
        }),
{
}

/// The gap of two ratings is what the lower one lacks to the higher one.
pub proof fn law_gap_is_the_difference(a: u32, b: u32)
    ensures
        a >= b ==> b + rating_gap(a, b) == a,
        a <= b ==> a + rating_gap(a, b) == b,
        rating_gap(a, b) == rating_gap(b, a),
{
}

/// The total of two groups of players is the sum of their totals; nobody totals
/// zero, and one player its rating.
pub proof fn law_snapshot_totals_add_up(
    a: Seq<PlayerSnapshot>,
    b: Seq<PlayerSnapshot>,
    one: PlayerSnapshot,
)
    ensures
        snapshot_total(Seq::<PlayerSnapshot>::empty()) == 0,
        snapshot_total(seq![one]) == one.skill_rating,
        snapshot_total(a + b) == snapshot_total(a) + snapshot_total(b),
    decreases b.len(),
{
    assert(seq![one].drop_last() =~= Seq::<PlayerSnapshot>::empty());
    assert(snapshot_total(seq![one]) == snapshot_total(seq![one].drop_last())
        + one.skill_rating as nat);
    if b.len() == 0 {
        assert(a + b =~= a);
    } else {
        law_snapshot_totals_add_up(a, b.drop_last(), one);
        assert((a + b).drop_last() =~= a + b.drop_last());
    }
}

/// A team of five keeps its players in order, and its total is the sum of their
/// five ratings.
pub proof fn law_team_total_is_the_sum_of_five(players: Seq<PlayerSnapshot>)
    requires
        players.len() == 5,
        players[0].skill_rating + players[1].skill_rating + players[2].skill_rating
            + players[3].skill_rating + players[4].skill_rating <= u32::MAX,
    ensures
        TeamView::of(players).players == players,
        TeamView::of(players).total_rating == players[0].skill_rating + players[1].skill_rating
            + players[2].skill_rating + players[3].skill_rating + players[4].skill_rating,
{
    reveal_with_fuel(snapshot_total, 6);
}

} // verus!

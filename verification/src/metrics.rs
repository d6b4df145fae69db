//! Operational counters and the snapshot that reports them.
//!
//! Counters wrap around at 64 bits. Averages are kept as a sum and a count and
//! are computed when a snapshot is taken.

use std::sync::Arc;

use vstd::prelude::*;

verus! {

/// All runtime metrics of the service.
#[derive(Debug, Clone, Copy, PartialEq, Eq)]
pub struct Metrics {
    /// Players who have ever joined the queue.
    pub total_players_enqueued: u64,
    /// Players who cancelled their queue entry.
    pub total_players_cancelled: u64,
    /// Matches successfully formed.
    pub total_matches_created: u64,
    /// Players successfully placed in a match.
    pub total_players_matched: u64,
    /// Match attempts that found too few compatible candidates.
    pub match_attempts_insufficient: u64,
    /// Match attempts that could not claim or keep ten players.
    pub match_attempts_claim_failed: u64,
    /// Iterations of the workers' event loops: one match attempt per wake, on a
    /// signal or a tick.
    pub worker_cycles_total: u64,
    /// Stale claims reset by the Reaper.
    pub total_stale_claims_recovered: u64,
    /// Players in the queue, in any state.
    pub current_queue_size: i64,
    /// Sum of the wait times of all matched players (milliseconds).
    pub total_wait_time_ms: u64,
    /// Sum of the skill spreads of all matches.
    pub skill_spread_sum: u64,
    /// Number of matches in `skill_spread_sum`.
    pub skill_spread_count: u64,
    /// Sum of the team deltas of all matches.
    pub team_delta_sum: u64,
    /// Number of matches in `team_delta_sum`.
    pub team_delta_count: u64,
}

/// A quotient rounded down; `0` if there is nothing to divide by.
pub open spec fn average(sum: u64, count: u64) -> u64 {
    if count == 0 {
        0
    } else {
        sum / count
    }
}

/// A quotient rounded down; `0` if there is nothing to divide by.
fn average_of(sum: u64, count: u64) -> (quotient: u64)
    ensures
        quotient == average(sum, count),
{
    if count == 0 {
        0
    } else {
        sum / count
    }
}

impl Metrics {
    /// Metrics with every counter at zero.
    pub open spec fn zero() -> Metrics {
        Metrics {
            total_players_enqueued: 0,
            total_players_cancelled: 0,
            total_matches_created: 0,
            total_players_matched: 0,
            match_attempts_insufficient: 0,
            match_attempts_claim_failed: 0,
            worker_cycles_total: 0,
            total_stale_claims_recovered: 0,
            current_queue_size: 0,
            total_wait_time_ms: 0,
            skill_spread_sum: 0,
            skill_spread_count: 0,
            team_delta_sum: 0,
            team_delta_count: 0,
        }
    }

    /// The values a snapshot reports.
    pub open spec fn reported(self) -> MetricsSnapshot {
        MetricsSnapshot {
            total_players_enqueued: self.total_players_enqueued,
            total_players_cancelled: self.total_players_cancelled,
            total_matches_created: self.total_matches_created,
            total_players_matched: self.total_players_matched,
            match_attempts_insufficient: self.match_attempts_insufficient,
            match_attempts_claim_failed: self.match_attempts_claim_failed,
            worker_cycles_total: self.worker_cycles_total,
            total_stale_claims_recovered: self.total_stale_claims_recovered,
            current_queue_size: self.current_queue_size,
            total_wait_time_ms: self.total_wait_time_ms,
            avg_wait_ms: average(self.total_wait_time_ms, self.total_players_matched),
            avg_skill_spread: average(self.skill_spread_sum, self.skill_spread_count),
            avg_team_delta: average(self.team_delta_sum, self.team_delta_count),
        }
    }

    /// Metrics with every counter at zero.
    pub fn new() -> (metrics: Self)
        ensures
            metrics == Metrics::zero(),
    {
        Metrics {
            total_players_enqueued: 0,
            total_players_cancelled: 0,
            total_matches_created: 0,
            total_players_matched: 0,
            match_attempts_insufficient: 0,
            match_attempts_claim_failed: 0,
            worker_cycles_total: 0,
            total_stale_claims_recovered: 0,
            current_queue_size: 0,
            total_wait_time_ms: 0,
            skill_spread_sum: 0,
            skill_spread_count: 0,
            team_delta_sum: 0,
            team_delta_count: 0,
        }
    }

    /// A snapshot of all metrics, with the averages computed.
    pub fn snapshot(&self) -> (snapshot: MetricsSnapshot)
        ensures
            snapshot == self.reported(),
    {
        MetricsSnapshot {
            total_players_enqueued: self.total_players_enqueued,
            total_players_cancelled: self.total_players_cancelled,
            total_matches_created: self.total_matches_created,
            total_players_matched: self.total_players_matched,
            match_attempts_insufficient: self.match_attempts_insufficient,
            match_attempts_claim_failed: self.match_attempts_claim_failed,
            worker_cycles_total: self.worker_cycles_total,
            total_stale_claims_recovered: self.total_stale_claims_recovered,
            current_queue_size: self.current_queue_size,
            total_wait_time_ms: self.total_wait_time_ms,
            avg_wait_ms: average_of(self.total_wait_time_ms, self.total_players_matched),
            avg_skill_spread: average_of(self.skill_spread_sum, self.skill_spread_count),
            avg_team_delta: average_of(self.team_delta_sum, self.team_delta_count),
        }
    }

    /// New metrics behind an `Arc`.
    pub fn new_shared() -> (metrics: Arc<Self>)
        ensures
            *metrics == Metrics::zero(),
    {
        Arc::new(Metrics::new())
    }
}

impl Default for Metrics {
    /// Metrics with every counter at zero.
    fn default() -> (metrics: Self)
        ensures
            metrics == Metrics::zero(),
    {
        Metrics::new()
    }
}

/// A point-in-time report of all metrics.
#[derive(Debug, Clone, Copy, PartialEq, Eq)]
pub struct MetricsSnapshot {
    /// Players who have ever joined the queue.
    pub total_players_enqueued: u64,
    /// Players who cancelled their queue entry.
    pub total_players_cancelled: u64,
    /// Matches successfully formed.
    pub total_matches_created: u64,
    /// Players successfully placed in matches.
    pub total_players_matched: u64,
    /// Match attempts that found too few compatible candidates.
    pub match_attempts_insufficient: u64,
    /// Match attempts that could not claim or keep ten players.
    pub match_attempts_claim_failed: u64,
    /// Iterations of the workers' event loops: one match attempt per wake, on a
    /// signal or a tick.
    pub worker_cycles_total: u64,
    /// Stale claims recovered by the Reaper.
    pub total_stale_claims_recovered: u64,
    /// Players in the queue.
    pub current_queue_size: i64,
    /// Accumulated wait time of all matched players (ms).
    pub total_wait_time_ms: u64,
    /// Average wait per matched player (ms); `0` if none has been matched.
    pub avg_wait_ms: u64,
    /// Average skill spread per match; `0` if none has been formed.
    pub avg_skill_spread: u64,
    /// Average team delta per match; `0` if none has been formed.
    pub avg_team_delta: u64,
}

/// An average is the quotient rounded down; of nothing it is zero.
pub proof fn law_average_is_the_quotient_rounded_down(sum: u64, count: u64)
    ensures
        count > 0 ==> average(sum, count) * count <= sum < (average(sum, count) + 1) * count,
        count == 0 ==> average(sum, count) == 0,
{
    if count > 0 {
        let c: int = count as int;
        let s: int = sum as int;
        vstd::arithmetic::div_mod::lemma_fundamental_div_mod(s, c);
        assert(c * (s / c) == (s / c) * c) by (nonlinear_arith);
        assert((s / c + 1) * c == (s / c) * c + c) by (nonlinear_arith);
    }
}

/// A snapshot reports every counter as it is, and averages that times the number
/// of what they are over come to no more than the sum, and to less than one each
/// below it.
pub proof fn law_snapshot_reports_the_counters(metrics: Metrics)
    ensures
        ({
            let reported = metrics.reported();
            &&& reported.total_players_enqueued == metrics.total_players_enqueued
            &&& reported.total_players_cancelled == metrics.total_players_cancelled
            &&& reported.total_matches_created == metrics.total_matches_created
            &&& reported.total_players_matched == metrics.total_players_matched
            &&& reported.match_attempts_insufficient == metrics.match_attempts_insufficient
            &&& reported.match_attempts_claim_failed == metrics.match_attempts_claim_failed
            &&& reported.worker_cycles_total == metrics.worker_cycles_total
            &&& reported.total_stale_claims_recovered == metrics.total_stale_claims_recovered
            &&& reported.current_queue_size == metrics.current_queue_size
            &&& reported.total_wait_time_ms == metrics.total_wait_time_ms
            &&& metrics.total_players_matched > 0 ==> reported.avg_wait_ms
                * metrics.total_players_matched <= metrics.total_wait_time_ms < (
            reported.avg_wait_ms + 1) * metrics.total_players_matched
            &&& metrics.skill_spread_count > 0 ==> reported.avg_skill_spread
                * metrics.skill_spread_count <= metrics.skill_spread_sum < (
            reported.avg_skill_spread + 1) * metrics.skill_spread_count
            &&& metrics.team_delta_count > 0 ==> reported.avg_team_delta
                * metrics.team_delta_count <= metrics.team_delta_sum < (reported.avg_team_delta
                + 1) * metrics.team_delta_count
            &&& metrics.total_players_matched == 0 ==> reported.avg_wait_ms == 0
            &&& metrics.skill_spread_count == 0 ==> reported.avg_skill_spread == 0
            &&& metrics.team_delta_count == 0 ==> reported.avg_team_delta == 0
        }),
{
    law_average_is_the_quotient_rounded_down(
        metrics.total_wait_time_ms,
        metrics.total_players_matched,
    );
    law_average_is_the_quotient_rounded_down(
        metrics.skill_spread_sum,
        metrics.skill_spread_count,
    );
    law_average_is_the_quotient_rounded_down(metrics.team_delta_sum, metrics.team_delta_count);
}

} // verus!

//! Match records: what a match of ten players looks like, and the history that
//! keeps it.

use std::collections::VecDeque;

use uuid::Uuid;
use vstd::prelude::*;

use crate::clock::{millis_between, Clock};
use crate::engine::balancer::{exhaustive_balance, MATCH_SIZE};
use crate::engine::{balancer, bucket, claims};
use crate::models;
use crate::models::{Match, Player, PlayerSnapshot, Team};
use crate::utils;
use crate::utils::{average_u64, now_unix_secs};

verus! {

/// The readings that a completed match records.
#[derive(Debug, Clone, Copy, PartialEq, Eq)]
pub struct MatchStamp {
    /// When the players were matched, on the engine's clock.
    pub matched_at: u64,
    /// The identifier of the match.
    pub match_id: u128,
    /// Unix time in seconds when the match was formed.
    pub formed_at_unix: u64,
}

/// Whether an identifier is a random UUID: version 4, RFC 4122 variant.
pub open spec fn is_random_uuid(id: u128) -> bool {
    (id >> 76) & 0xf == 4 && (id >> 62) & 0x3 == 2
}

/// `uuid::Uuid::new_v4` makes a random UUID, here as a 128-bit number. Which one
/// is left to chance; its version and variant bits are fixed. The call panics
/// on a system without a source of randomness, which is not stated here.
#[verifier::external_body]
fn random_uuid() -> (id: u128)
    ensures
        is_random_uuid(id),
{
    Uuid::new_v4().as_u128()
}

impl MatchStamp {
    /// Take the readings now.
    pub fn take(clock: &Clock) -> (stamp: Self)
        ensures
            is_random_uuid(stamp.match_id),
    {
        MatchStamp {
            matched_at: clock.now(),
            match_id: random_uuid(),
            formed_at_unix: now_unix_secs(),
        }
    }
}

/// How long each player had waited when it was matched at `now`.
pub open spec fn waits_of(players: Seq<Player>, now: u64) -> Seq<u64> {
    players.map_values(|player: Player| millis_between(player.join_timestamp, now))
}

/// The records of players that are matched at `now`.
pub open spec fn records_of(players: Seq<Player>, now: u64) -> Seq<PlayerSnapshot> {
    players.map_values(|player: Player| PlayerSnapshot::of(player.after_match(now), now))
}

/// The largest of a sequence of numbers; `0` for none.
pub open spec fn largest(values: Seq<u64>) -> u64
    decreases values.len(),
{
    if values.len() == 0 {
        0
    } else {
        let before = largest(values.drop_last());
        if values.last() > before {
            values.last()
        } else {
            before
        }
    }
}

/// The highest rating in a list; `0` for an empty one.
pub open spec fn highest_rating(players: Seq<Player>) -> u32
    decreases players.len(),
{
    if players.len() == 0 {
        0
    } else {
        let before = highest_rating(players.drop_last());
        if players.last().skill_rating > before {
            players.last().skill_rating
        } else {
            before
        }
    }
}

/// The lowest rating in a list; `u32::MAX` for an empty one.
pub open spec fn lowest_rating(players: Seq<Player>) -> u32
    decreases players.len(),
{
    if players.len() == 0 {
        u32::MAX
    } else {
        let before = lowest_rating(players.drop_last());
        if players.last().skill_rating < before {
            players.last().skill_rating
        } else {
            before
        }
    }
}

/// The difference between the highest and the lowest rating.
pub open spec fn spread_of(players: Seq<Player>) -> u32 {
    (highest_rating(players) - lowest_rating(players)) as u32
}

/// The record of the match of ten claimed players.
pub open spec fn match_of(claimed: Seq<Player>, stamp: MatchStamp) -> models::MatchView {
    let split = balancer::best_selection(claimed);
    let now = stamp.matched_at;
    let team_a = models::TeamView::of(
        records_of(balancer::chosen(claimed, split, true), now),
    );
    let team_b = models::TeamView::of(
        records_of(balancer::chosen(claimed, split, false), now),
    );
    models::MatchView {
        match_id: stamp.match_id,
        team_a,
        team_b,
        team_delta: models::rating_gap(team_a.total_rating, team_b.total_rating),
        skill_spread: spread_of(claimed),
        avg_wait_ms: (utils::sum_u64(waits_of(claimed, now)) / MATCH_SIZE as nat) as u64,
        max_wait_ms: largest(waits_of(claimed, now)),
        formed_at_unix: stamp.formed_at_unix,
    }
}

/// The history after a match has been added: the oldest matches beyond the
/// limit are dropped.
pub open spec fn recorded(
    history: Seq<models::MatchView>,
    completed: models::MatchView,
    limit: nat,
) -> Seq<models::MatchView> {
    let longer = history.push(completed);
    if longer.len() <= limit {
        longer
    } else {
        longer.skip(longer.len() - limit)
    }
}

/// The records of players that are matched at `now`.
fn record_players(players: &Vec<Player>, now: u64) -> (records: Vec<PlayerSnapshot>)
    ensures
        records@ == records_of(players@, now),
{
    let mut records: Vec<PlayerSnapshot> = Vec::new();
    let mut i: usize = 0;
    while i < players.len()
        invariant
            i <= players@.len(),
            records@ == records_of(players@.take(i as int), now),
        decreases players@.len() - i,
    {
        let mut player = players[i];
        player.mark_matched_at(now);
        records.push(PlayerSnapshot::capture_at(&player, now));
        assert(records@ =~= records_of(players@.take(i + 1), now));
        i = i + 1;
    }
    assert(players@.take(i as int) =~= players@);
    records
}

/// How long each player had waited when it was matched at `now`.
pub(crate) fn measure_waits(players: &Vec<Player>, now: u64) -> (waits: Vec<u64>)
    ensures
        waits@ == waits_of(players@, now),
{
    let mut waits: Vec<u64> = Vec::new();
    let mut i: usize = 0;
    while i < players.len()
        invariant
            i <= players@.len(),
            waits@ == waits_of(players@.take(i as int), now),
        decreases players@.len() - i,
    {
        waits.push(players[i].wait_ms_at(now));
        assert(waits@ =~= waits_of(players@.take(i + 1), now));
        i = i + 1;
    }
    assert(players@.take(i as int) =~= players@);
    waits
}

/// The largest of a list of numbers; `0` for none.
fn largest_of(values: &Vec<u64>) -> (most: u64)
    ensures
        most == largest(values@),
{
    let mut most: u64 = 0;
    let mut i: usize = 0;
    while i < values.len()
        invariant
            i <= values@.len(),
            most == largest(values@.take(i as int)),
        decreases values@.len() - i,
    {
        assert(values@.take(i + 1).drop_last() =~= values@.take(i as int));
        if values[i] > most {
            most = values[i];
        }
        i = i + 1;
    }
    assert(values@.take(i as int) =~= values@);
    most
}

/// The difference between the highest and the lowest rating.
fn measure_spread(players: &Vec<Player>) -> (spread: u32)
    requires
        players@.len() > 0,
    ensures
        spread == spread_of(players@),
{
    let mut highest: u32 = 0;
    let mut lowest: u32 = u32::MAX;
    let mut i: usize = 0;
    while i < players.len()
        invariant
            i <= players@.len(),
            highest == highest_rating(players@.take(i as int)),
            lowest == lowest_rating(players@.take(i as int)),
            i > 0 ==> lowest <= highest,
        decreases players@.len() - i,
    {
        assert(players@.take(i + 1).drop_last() =~= players@.take(i as int));
        let rating: u32 = players[i].skill_rating;
        if rating > highest {
            highest = rating;
        }
        if rating < lowest {
            lowest = rating;
        }
        i = i + 1;
    }
    assert(players@.take(i as int) =~= players@);
    highest - lowest
}

/// Waits are short enough to be added up.
pub(crate) proof fn lemma_waits_fit(players: Seq<Player>, now: u64)
    ensures
        utils::sum_u64(waits_of(players, now)) <= players.len() * 18_446_744_073_710,
    decreases players.len(),
{
    let waits = waits_of(players, now);
    if players.len() > 0 {
        lemma_waits_fit(players.drop_last(), now);
        assert(waits.drop_last() =~= waits_of(players.drop_last(), now));
        assert(waits.last() == millis_between(players.last().join_timestamp, now));
    }
}

/// Valid ratings are small enough to be added up.
pub(crate) proof fn lemma_ratings_fit(list: Seq<Player>)
    requires
        forall|i: int|
            0 <= i < list.len() ==> (#[trigger] list[i]).skill_rating
                <= bucket::MAX_SKILL_RATING,
    ensures
        balancer::rating_total(list) <= list.len()
            * bucket::MAX_SKILL_RATING,
    decreases list.len(),
{
    if list.len() > 0 {
        assert forall|i: int| 0 <= i < list.drop_last().len() implies (
        #[trigger] list.drop_last()[i]).skill_rating <= bucket::MAX_SKILL_RATING by {
            assert(list[i].skill_rating <= bucket::MAX_SKILL_RATING);
        }
        lemma_ratings_fit(list.drop_last());
        assert(list[list.len() - 1].skill_rating <= bucket::MAX_SKILL_RATING);
    }
}

/// The records of players add up to the ratings of the players.
pub(crate) proof fn lemma_records_total(players: Seq<Player>, now: u64)
    ensures
        models::snapshot_total(records_of(players, now))
            == balancer::rating_total(players),
    decreases players.len(),
{
    if players.len() > 0 {
        lemma_records_total(players.drop_last(), now);
        assert(records_of(players, now).drop_last() =~= records_of(players.drop_last(), now));
    }
}

/// Build the record of the match of ten claimed players.
pub(crate) fn form_match(claimed: &Vec<Player>, waits: &Vec<u64>, stamp: &MatchStamp) -> (completed: Match)
    requires
        claimed@.len() == MATCH_SIZE,
        balancer::rating_total(claimed@) <= u32::MAX,
        waits@ == waits_of(claimed@, stamp.matched_at),
    ensures
        completed@ == match_of(claimed@, *stamp),
{
    let now: u64 = stamp.matched_at;
    let balance = exhaustive_balance(claimed.as_slice());
    proof {
        balancer::law_teams_of_the_best_split(claimed@);
        lemma_records_total(balance.team_a@, now);
        lemma_records_total(balance.team_b@, now);
        lemma_waits_fit(claimed@, now);
    }
    let team_a = Team::new(record_players(&balance.team_a, now));
    let team_b = Team::new(record_players(&balance.team_b, now));
    let skill_spread: u32 = measure_spread(claimed);
    let avg_wait_ms: u64 = average_u64(waits.as_slice());
    let max_wait_ms: u64 = largest_of(waits);
    Match::formed_at(
        stamp.match_id,
        team_a,
        team_b,
        skill_spread,
        avg_wait_ms,
        max_wait_ms,
        stamp.formed_at_unix,
    )
}

/// Add a match to the history and drop the oldest beyond the limit.
pub(crate) fn record_match(history: &mut VecDeque<Match>, completed: Match, limit: usize)
    ensures
        final(history)@.map_values(|m: Match| m@) == recorded(
            old(history)@.map_values(|m: Match| m@),
            completed@,
            limit as nat,
        ),
{
    let ghost before = history@;
    history.push_back(completed);
    let ghost longer = history@;
    let ghost mut dropped: int = 0;
    while history.len() > limit
        invariant
            0 <= dropped <= longer.len(),
            history@ == longer.skip(dropped),
            dropped > 0 ==> longer.len() - dropped >= limit,
        decreases history@.len(),
    {
        let _oldest = history.pop_front();
        proof {
            dropped = dropped + 1;
            assert(history@ =~= longer.skip(dropped));
        }
    }
    proof {
        let view = |m: Match| m@;
        assert(longer.map_values(view) =~= before.map_values(view).push(completed@));
        if longer.len() > limit {
            assert(dropped == longer.len() - limit);
        } else {
            assert(dropped == 0);
        }
        assert(history@.map_values(view) =~= recorded(
            before.map_values(view),
            completed@,
            limit as nat,
        ));
    }
}

pub(crate) proof fn lemma_records_ids(players: Seq<Player>, now: u64, id: u128)
    ensures
        claims::listed(players, id) <==> exists|i: int|
            0 <= i < records_of(players, now).len() && (#[trigger] records_of(players, now)[i]).id
                == id,
{
    let records = records_of(players, now);
    if claims::listed(players, id) {
        let k = choose|k: int| 0 <= k < players.len() && (#[trigger] players[k]).id == id;
        assert(records[k].id == id);
    }
    if exists|i: int| 0 <= i < records.len() && (#[trigger] records[i]).id == id {
        let k = choose|k: int| 0 <= k < records.len() && (#[trigger] records[k]).id == id;
        assert(players[k].id == id);
    }
}

/// A match involves exactly the players it was made from.
pub proof fn law_match_involves_its_players(claimed: Seq<Player>, stamp: MatchStamp, id: u128)
    ensures
        match_of(claimed, stamp).involves(id) <==> claims::listed(claimed, id),
{
    let split = balancer::best_selection(claimed);
    let formed = match_of(claimed, stamp);
    assert(formed.team_a.players == records_of(
        balancer::chosen(claimed, split, true),
        stamp.matched_at,
    ));
    assert(formed.team_b.players == records_of(
        balancer::chosen(claimed, split, false),
        stamp.matched_at,
    ));
    balancer::lemma_chosen_ids(claimed, split, id);
    lemma_records_ids(
        balancer::chosen(claimed, split, true),
        stamp.matched_at,
        id,
    );
    lemma_records_ids(
        balancer::chosen(claimed, split, false),
        stamp.matched_at,
        id,
    );
}

/// The ten players of a match are ten different players.
pub proof fn law_players_of_a_match_differ(claimed: Seq<Player>, stamp: MatchStamp)
    requires
        claimed.len() == MATCH_SIZE,
        claims::distinct(claimed),
    ensures
        match_of(claimed, stamp).ids().len() == MATCH_SIZE,
        match_of(claimed, stamp).ids().no_duplicates(),
{
    let split = balancer::best_selection(claimed);
    let formed = match_of(claimed, stamp);
    let a = balancer::chosen(claimed, split, true);
    let b = balancer::chosen(claimed, split, false);
    balancer::law_teams_of_the_best_split(claimed);
    balancer::lemma_sides_are_distinct(claimed, split);
    assert(formed.team_a.players == records_of(a, stamp.matched_at));
    assert(formed.team_b.players == records_of(b, stamp.matched_at));
    let ids = formed.ids();
    assert forall|i: int| 0 <= i < ids.len() implies #[trigger] ids[i] == if i < a.len() {
        a[i].id
    } else {
        b[i - a.len()].id
    } by {}
    assert forall|i: int, j: int| 0 <= i < ids.len() && 0 <= j < ids.len() && i != j implies ids[i]
        != ids[j] by {
        let low = if i < j { i } else { j };
        let high = if i < j { j } else { i };
        if high < a.len() {
            assert(a[low].id != a[high].id);
        } else if low >= a.len() {
            assert(b[low - a.len()].id != b[high - a.len()].id);
        } else {
            assert(a[low].id != b[high - a.len()].id);
        }
    }
}

/// The history never exceeds its limit, and a new match is always its newest
/// entry.
pub proof fn law_history_is_bounded(
    history: Seq<models::MatchView>,
    completed: models::MatchView,
    limit: nat,
)
    ensures
        recorded(history, completed, limit).len() <= limit,
        limit > 0 ==> recorded(history, completed, limit).last() == completed,
{
}

/// The record of a match is true to its players: both teams have five players,
/// and the recorded difference is the smallest that any split allows.
pub proof fn law_match_record_is_balanced(claimed: Seq<Player>, stamp: MatchStamp)
    requires
        claimed.len() == MATCH_SIZE,
        balancer::rating_total(claimed) <= u32::MAX,
    ensures
        match_of(claimed, stamp).team_a.players.len() == balancer::TEAM_SIZE,
        match_of(claimed, stamp).team_b.players.len() == balancer::TEAM_SIZE,
        match_of(claimed, stamp).team_a.total_rating + match_of(claimed, stamp).team_b.total_rating
            == balancer::rating_total(claimed),
        match_of(claimed, stamp).team_a.total_rating >= match_of(claimed, stamp).team_b.total_rating,
        match_of(claimed, stamp).team_delta == balancer::delta(
            claimed,
            balancer::best_selection(claimed),
        ),
{
    let split = balancer::best_selection(claimed);
    balancer::law_teams_of_the_best_split(claimed);
    lemma_records_total(
        balancer::chosen(claimed, split, true),
        stamp.matched_at,
    );
    lemma_records_total(
        balancer::chosen(claimed, split, false),
        stamp.matched_at,
    );
}

/// Players rated within a range spread no wider than the range.
pub proof fn law_spread_is_within_the_window(players: Seq<Player>, min_rating: u32, max_rating: u32)
    requires
        players.len() > 0,
        forall|i: int|
            0 <= i < players.len() ==> min_rating <= (#[trigger] players[i]).skill_rating
                <= max_rating,
    ensures
        spread_of(players) <= max_rating - min_rating,
{
    lemma_extremes(players, min_rating, max_rating);
}

pub(crate) proof fn lemma_extremes(players: Seq<Player>, min_rating: u32, max_rating: u32)
    requires
        forall|i: int|
            0 <= i < players.len() ==> min_rating <= (#[trigger] players[i]).skill_rating
                <= max_rating,
    ensures
        highest_rating(players) <= max_rating,
        lowest_rating(players) >= min_rating,
        players.len() > 0 ==> lowest_rating(players) <= highest_rating(players),
    decreases players.len(),
{
    if players.len() > 0 {
        assert forall|i: int| 0 <= i < players.drop_last().len() implies min_rating <= (
        #[trigger] players.drop_last()[i]).skill_rating <= max_rating by {
            assert(players[i].skill_rating <= max_rating);
        }
        lemma_extremes(players.drop_last(), min_rating, max_rating);
        assert(players[players.len() - 1].skill_rating <= max_rating);
    }
}

/// The average wait of a match never exceeds its maximum wait.
pub proof fn law_average_wait_is_at_most_the_maximum(claimed: Seq<Player>, stamp: MatchStamp)
    requires
        claimed.len() == MATCH_SIZE,
    ensures
        match_of(claimed, stamp).avg_wait_ms <= match_of(claimed, stamp).max_wait_ms,
{
    let waits = waits_of(claimed, stamp.matched_at);
    lemma_waits_fit(claimed, stamp.matched_at);
    lemma_sum_is_bounded(waits);
    assert(waits.len() * largest(waits) == 10 * largest(waits));
    assert(utils::sum_u64(waits) / 10 <= largest(waits));
}

pub(crate) proof fn lemma_sum_is_bounded(values: Seq<u64>)
    ensures
        utils::sum_u64(values) <= values.len() * largest(values),
    decreases values.len(),
{
    if values.len() > 0 {
        let before = values.drop_last();
        lemma_sum_is_bounded(before);
        assert(before.len() * largest(before) <= before.len() * largest(values)) by (nonlinear_arith)
            requires
                largest(before) <= largest(values),
        ;
        assert(values.len() * largest(values) == before.len() * largest(values) + largest(values))
            by (nonlinear_arith)
            requires
                values.len() == before.len() + 1,
        ;
    }
}

proof fn lemma_extremes_are_reached(players: Seq<Player>)
    requires
        players.len() > 0,
    ensures
        exists|i: int|
            0 <= i < players.len() && (#[trigger] players[i]).skill_rating == highest_rating(players),
        exists|i: int|
            0 <= i < players.len() && (#[trigger] players[i]).skill_rating == lowest_rating(players),
        forall|i: int|
            0 <= i < players.len() ==> lowest_rating(players) <= (
            #[trigger] players[i]).skill_rating <= highest_rating(players),
    decreases players.len(),
{
    let before = players.drop_last();
    let last = players[players.len() - 1];
    if before.len() > 0 {
        lemma_extremes_are_reached(before);
        let h = choose|i: int|
            0 <= i < before.len() && (#[trigger] before[i]).skill_rating == highest_rating(before);
        let l = choose|i: int|
            0 <= i < before.len() && (#[trigger] before[i]).skill_rating == lowest_rating(before);
        assert(players[h].skill_rating == highest_rating(before));
        assert(players[l].skill_rating == lowest_rating(before));
        assert forall|i: int| 0 <= i < players.len() implies lowest_rating(players) <= (
        #[trigger] players[i]).skill_rating <= highest_rating(players) by {
            if i < before.len() {
                assert(before[i].skill_rating == players[i].skill_rating);
            }
        }
    } else {
        assert(highest_rating(before) == 0 && lowest_rating(before) == u32::MAX);
        assert(players[0] == last);
    }
}

/// The recorded spread bounds the difference of every two of the ten ratings, and
/// two of them differ by just that much.
pub proof fn law_spread_is_the_largest_difference(claimed: Seq<Player>, stamp: MatchStamp)
    requires
        claimed.len() == 10,
    ensures
        forall|i: int, j: int|
            0 <= i < claimed.len() && 0 <= j < claimed.len() ==> (#[trigger] claimed[i]).skill_rating
                - (#[trigger] claimed[j]).skill_rating <= match_of(claimed, stamp).skill_spread,
        exists|i: int, j: int|
            0 <= i < claimed.len() && 0 <= j < claimed.len() && (#[trigger] claimed[i]).skill_rating
                - (#[trigger] claimed[j]).skill_rating == match_of(claimed, stamp).skill_spread,
{
    lemma_extremes_are_reached(claimed);
    let h = choose|i: int|
        0 <= i < claimed.len() && (#[trigger] claimed[i]).skill_rating == highest_rating(claimed);
    let l = choose|i: int|
        0 <= i < claimed.len() && (#[trigger] claimed[i]).skill_rating == lowest_rating(claimed);
    assert(claimed[h].skill_rating - claimed[l].skill_rating == match_of(
        claimed,
        stamp,
    ).skill_spread);
}

proof fn lemma_largest_is_reached(values: Seq<u64>)
    requires
        values.len() > 0,
    ensures
        exists|i: int| 0 <= i < values.len() && #[trigger] values[i] == largest(values),
        forall|i: int| 0 <= i < values.len() ==> #[trigger] values[i] <= largest(values),
    decreases values.len(),
{
    let before = values.drop_last();
    if before.len() > 0 {
        lemma_largest_is_reached(before);
        let k = choose|i: int| 0 <= i < before.len() && #[trigger] before[i] == largest(before);
        assert(values[k] == largest(before));
        assert forall|i: int| 0 <= i < values.len() implies #[trigger] values[i] <= largest(
            values,
        ) by {
            if i < before.len() {
                assert(before[i] == values[i]);
            }
        }
    }
    assert(before.len() == 0 ==> largest(before) == 0);
    assert(values[values.len() - 1] == values.last());
}

/// The recorded waits are true: no player waited longer than the maximum and one
/// waited just that long, and the average times ten is the sum of the ten waits,
/// rounded down. A wait is the time from joining to the match in whole
/// milliseconds.
pub proof fn law_recorded_waits_are_true(claimed: Seq<Player>, stamp: MatchStamp)
    requires
        claimed.len() == 10,
        forall|i: int|
            0 <= i < claimed.len() ==> (#[trigger] claimed[i]).join_timestamp <= stamp.matched_at,
    ensures
        ({
            let formed = match_of(claimed, stamp);
            let wait = |i: int| (stamp.matched_at - claimed[i].join_timestamp) / 1_000_000;
            &&& forall|i: int| 0 <= i < 10 ==> #[trigger] wait(i) <= formed.max_wait_ms
            &&& exists|i: int| 0 <= i < 10 && #[trigger] wait(i) == formed.max_wait_ms
            &&& formed.avg_wait_ms * 10 <= wait(0) + wait(1) + wait(2) + wait(3) + wait(4) + wait(5)
                + wait(6) + wait(7) + wait(8) + wait(9) < (formed.avg_wait_ms + 1) * 10
        }),
{
    let formed = match_of(claimed, stamp);
    let waits = waits_of(claimed, stamp.matched_at);
    let wait = |i: int| (stamp.matched_at - claimed[i].join_timestamp) / 1_000_000;
    assert forall|i: int| 0 <= i < 10 implies #[trigger] wait(i) == waits[i] by {
        assert(claimed[i].join_timestamp <= stamp.matched_at);
    }
    lemma_largest_is_reached(waits);
    let k = choose|i: int| 0 <= i < waits.len() && #[trigger] waits[i] == largest(waits);
    assert(wait(k) == formed.max_wait_ms);
    assert forall|i: int| 0 <= i < 10 implies #[trigger] wait(i) <= formed.max_wait_ms by {
        assert(waits[i] <= largest(waits));
    }
    lemma_waits_fit(claimed, stamp.matched_at);
    lemma_sum_of_ten(waits);
    assert(wait(0) == waits[0] && wait(1) == waits[1] && wait(2) == waits[2] && wait(3) == waits[3]
        && wait(4) == waits[4] && wait(5) == waits[5] && wait(6) == waits[6] && wait(7) == waits[7]
        && wait(8) == waits[8] && wait(9) == waits[9]);
}

proof fn lemma_sum_of_ten(values: Seq<u64>)
    requires
        values.len() == 10,
    ensures
        utils::sum_u64(values) == values[0] + values[1] + values[2] + values[3] + values[4]
            + values[5] + values[6] + values[7] + values[8] + values[9],
{
    reveal_with_fuel(utils::sum_u64, 11);
}

/// A match records each of its ten players on one side, under its identifier, with
/// its rating and its true wait, and nobody else.
pub proof fn law_each_player_is_recorded(claimed: Seq<Player>, stamp: MatchStamp, i: int)
    requires
        claimed.len() == 10,
        0 <= i < claimed.len(),
        claimed[i].matched_at is None,
        claimed[i].join_timestamp <= stamp.matched_at,
    ensures
        ({
            let formed = match_of(claimed, stamp);
            let everyone = formed.team_a.players + formed.team_b.players;
            &&& everyone.len() == 10
            &&& exists|k: int| {
                &&& 0 <= k < everyone.len()
                &&& (#[trigger] everyone[k]).id == claimed[i].id
                &&& everyone[k].skill_rating == claimed[i].skill_rating
                &&& everyone[k].wait_ms * 1_000_000 <= stamp.matched_at - claimed[i].join_timestamp
                    < (everyone[k].wait_ms + 1) * 1_000_000
            }
        }),
{
    let split = balancer::best_selection(claimed);
    let formed = match_of(claimed, stamp);
    let a = balancer::chosen(claimed, split, true);
    let b = balancer::chosen(claimed, split, false);
    let everyone = formed.team_a.players + formed.team_b.players;
    balancer::law_teams_of_the_best_split(claimed);
    assert(formed.team_a.players == records_of(a, stamp.matched_at));
    assert(formed.team_b.players == records_of(b, stamp.matched_at));
    balancer::lemma_best_selection(claimed);
    assert(claimed.contains(claimed[i]));
    balancer::lemma_chosen_members(claimed, split, claimed[i]);
    if a.contains(claimed[i]) {
        let k = choose|k: int| 0 <= k < a.len() && a[k] == claimed[i];
        assert(everyone[k].id == claimed[i].id);
    } else {
        let k = choose|k: int| 0 <= k < b.len() && b[k] == claimed[i];
        assert(everyone[a.len() + k].id == claimed[i].id);
    }
}

/// The recorded team totals are the sums of the five ratings on each side, the
/// recorded difference is that of the totals, and identifier and time are those of
/// the stamp.
pub proof fn law_recorded_totals_are_true(claimed: Seq<Player>, stamp: MatchStamp)
    requires
        claimed.len() == 10,
        balancer::rating_total(claimed) <= u32::MAX,
    ensures
        ({
            let formed = match_of(claimed, stamp);
            let a = formed.team_a.players;
            let b = formed.team_b.players;
            &&& a.len() == 5 && b.len() == 5
            &&& formed.team_a.total_rating == a[0].skill_rating + a[1].skill_rating
                + a[2].skill_rating + a[3].skill_rating + a[4].skill_rating
            &&& formed.team_b.total_rating == b[0].skill_rating + b[1].skill_rating
                + b[2].skill_rating + b[3].skill_rating + b[4].skill_rating
            &&& formed.team_a.total_rating == formed.team_b.total_rating + formed.team_delta
            &&& formed.match_id == stamp.match_id
            &&& formed.formed_at_unix == stamp.formed_at_unix
        }),
{
    let formed = match_of(claimed, stamp);
    law_match_record_is_balanced(claimed, stamp);
    balancer::law_teams_of_the_best_split(claimed);
    let split = balancer::best_selection(claimed);
    lemma_records_total(balancer::chosen(claimed, split, true), stamp.matched_at);
    lemma_records_total(balancer::chosen(claimed, split, false), stamp.matched_at);
    reveal_with_fuel(models::snapshot_total, 6);
}

/// The history after a match holds the newest matches, as many as there are or the
/// limit allows, in the order in which they were formed.
pub proof fn law_history_keeps_the_newest(
    history: Seq<models::MatchView>,
    completed: models::MatchView,
    limit: nat,
    back: int,
)
    ensures
        ({
            let kept = recorded(history, completed, limit);
            &&& history.len() + 1 <= limit ==> kept.len() == history.len() + 1
            &&& history.len() + 1 >= limit ==> kept.len() == limit
            &&& kept.len() > 0 ==> kept[kept.len() - 1] == completed
            &&& 1 <= back < kept.len() ==> kept[kept.len() - 1 - back] == history[history.len()
                - back]
        }),
{
}

/// Nobody waited longer than the recorded maximum.
pub(crate) proof fn lemma_wait_is_within_the_maximum(claimed: Seq<Player>, stamp: MatchStamp, i: int)
    requires
        claimed.len() == 10,
        0 <= i < 10,
        claimed[i].join_timestamp <= stamp.matched_at,
    ensures
        (stamp.matched_at - claimed[i].join_timestamp) / 1_000_000 <= match_of(
            claimed,
            stamp,
        ).max_wait_ms,
{
    let waits = waits_of(claimed, stamp.matched_at);
    lemma_largest_is_reached(waits);
    assert(waits[i] <= largest(waits));
}

/// The sum of the waits lies between ten times the average and one more, and
/// between the maximum and ten times it.
pub(crate) proof fn lemma_sum_and_largest(claimed: Seq<Player>, stamp: MatchStamp)
    requires
        claimed.len() == 10,
    ensures
        ({
            let sum = utils::sum_u64(waits_of(claimed, stamp.matched_at));
            let formed = match_of(claimed, stamp);
            &&& formed.avg_wait_ms * 10 <= sum < (formed.avg_wait_ms + 1) * 10
            &&& formed.max_wait_ms <= sum <= formed.max_wait_ms * 10
        }),
{
    let waits = waits_of(claimed, stamp.matched_at);
    lemma_waits_fit(claimed, stamp.matched_at);
    lemma_sum_of_ten(waits);
    lemma_largest_is_reached(waits);
    let k = choose|i: int| 0 <= i < waits.len() && #[trigger] waits[i] == largest(waits);
    assert(waits[0] <= largest(waits) && waits[1] <= largest(waits) && waits[2] <= largest(waits)
        && waits[3] <= largest(waits) && waits[4] <= largest(waits) && waits[5] <= largest(waits)
        && waits[6] <= largest(waits) && waits[7] <= largest(waits) && waits[8] <= largest(waits)
        && waits[9] <= largest(waits));
}

} // verus!

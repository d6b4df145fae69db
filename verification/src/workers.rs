//! The Reaper: recovery of claims that were never completed or released.
//!
//! A claim is stale if it is older than the configured timeout. The Reaper
//! returns the players of stale claims to the queue.

use vstd::prelude::*;

use crate::engine::matcher::{unix_ms, SharedState};
use crate::engine::{bucket, claims, matcher};
use crate::metrics::Metrics;
use crate::models::{player_state, Player};

verus! {

/// How often the Reaper scans for stale claims (milliseconds).
pub const REAPER_INTERVAL_MS: u64 = 1_000;

/// Whether a player is claimed since more than `timeout_ms`. A claim without a
/// time is never stale.
pub open spec fn stale(player: Player, now_ms: u64, timeout_ms: u64) -> bool {
    &&& player.state == player_state::CLAIMED
    &&& player.claim_timestamp != 0
    &&& now_ms - player.claim_timestamp > timeout_ms
}

/// Whether a player is claimed since more than `timeout_ms`; see [`stale`].
pub fn is_stale(player: &Player, now_ms: u64, timeout_ms: u64) -> (expired: bool)
    ensures
        expired == stale(*player, now_ms, timeout_ms),
        expired <==> player.state == player_state::CLAIMED && player.claim_timestamp != 0 && now_ms
            > player.claim_timestamp + timeout_ms,
{
    if player.state() != player_state::CLAIMED || player.claim_timestamp == 0 {
        return false;
    }
    let age_ms: u64 = now_ms.saturating_sub(player.claim_timestamp);
    age_ms > timeout_ms
}

/// The players whose claims are stale.
pub open spec fn stale_ids(players: Map<u128, Player>, now_ms: u64, timeout_ms: u64) -> Set<u128> {
    players.dom().filter(|id: u128| stale(players[id], now_ms, timeout_ms))
}

/// The pool after all stale claims have been reset.
pub open spec fn reaped(players: Map<u128, Player>, now_ms: u64, timeout_ms: u64) -> Map<
    u128,
    Player,
> {
    Map::new(
        |id: u128| players.contains_key(id),
        |id: u128|
            if stale(players[id], now_ms, timeout_ms) {
                players[id].after_release()
            } else {
                players[id]
            },
    )
}

/// The players of a list are those whose claims are stale, as they are in the
/// pool, each once.
pub open spec fn lists_stale(
    players: Map<u128, Player>,
    now_ms: u64,
    timeout_ms: u64,
    list: Seq<Player>,
) -> bool {
    &&& claims::distinct(list)
    &&& forall|i: int|
        0 <= i < list.len() ==> claims::holds(players, #[trigger] list[i]) && stale(
            list[i],
            now_ms,
            timeout_ms,
        )
    &&& forall|id: u128| #[trigger]
        players.contains_key(id) && stale(players[id], now_ms, timeout_ms) ==> claims::listed(
            list,
            id,
        )
    &&& list.len() == stale_ids(players, now_ms, timeout_ms).len()
}

/// The shared state after all stale claims have been reset and counted.
pub open spec fn after_reaping(
    shared: matcher::SharedView,
    now_ms: u64,
    timeout_ms: u64,
) -> matcher::SharedView {
    matcher::SharedView {
        players: reaped(shared.players, now_ms, timeout_ms),
        metrics: Metrics {
            total_stale_claims_recovered: shared.metrics.total_stale_claims_recovered.wrapping_add(
                stale_ids(shared.players, now_ms, timeout_ms).len() as u64,
            ),
            ..shared.metrics
        },
        history: shared.history,
    }
}

/// Perform one Reaper scan now; see [`reaper_tick_at`].
pub fn reaper_tick(shared: &mut SharedState, stale_claim_timeout_ms: u64) -> (recovered: Vec<Player>)
    requires
        old(shared).wf(),
    ensures
        final(shared).wf(),
        exists|now_ms: u64|
            final(shared)@ == #[trigger] after_reaping(
                old(shared)@,
                now_ms,
                stale_claim_timeout_ms,
            ) && lists_stale(
                old(shared)@.players,
                now_ms,
                stale_claim_timeout_ms,
                recovered@,
            ),
{
    let now_ms: u64 = unix_ms();
    reaper_tick_at(shared, stale_claim_timeout_ms, now_ms)
}

/// Reset all claims that are stale at `now_ms`, and return the players as they
/// were claimed, in no particular order.
pub fn reaper_tick_at(shared: &mut SharedState, stale_claim_timeout_ms: u64, now_ms: u64) -> (recovered:
    Vec<Player>)
    requires
        old(shared).wf(),
    ensures
        final(shared).wf(),
        lists_stale(old(shared)@.players, now_ms, stale_claim_timeout_ms, recovered@),
        final(shared)@ == after_reaping(old(shared)@, now_ms, stale_claim_timeout_ms),
{
    let ghost players = shared.pool@;
    let all = shared.pool.all_players();
    let mut recovered: Vec<Player> = Vec::new();
    let ghost mut reset: Set<u128> = Set::empty();
    let mut i: usize = 0;
    while i < all.len()
        invariant
            i <= all@.len(),
            players == old(shared)@.players,
            shared.wf(),
            shared@.metrics == old(shared)@.metrics,
            shared@.history == old(shared)@.history,
            forall|k: int|
                0 <= k < all@.len() ==> players.contains_key((#[trigger] all@[k]).id)
                    && players[all@[k].id] == all@[k],
            forall|k: int, m: int|
                0 <= k < m < all@.len() ==> (#[trigger] all@[k]).id != (#[trigger] all@[m]).id,
            recovered@.len() <= i,
            reset.finite(),
            reset.len() == recovered@.len(),
            claims::distinct(recovered@),
            forall|k: int|
                0 <= k < recovered@.len() ==> claims::holds(players, #[trigger] recovered@[k])
                    && stale(recovered@[k], now_ms, stale_claim_timeout_ms) && reset.contains(
                    recovered@[k].id,
                ),
            forall|id: u128| #[trigger] reset.contains(id) ==> claims::listed(recovered@, id),
            forall|id: u128| #[trigger]
                reset.contains(id) ==> exists|k: int|
                    0 <= k < i && (#[trigger] all@[k]).id == id,
            forall|k: int|
                0 <= k < i ==> (reset.contains((#[trigger] all@[k]).id) <==> stale(
                    all@[k],
                    now_ms,
                    stale_claim_timeout_ms,
                )),
            shared.pool@.dom() == players.dom(),
            forall|id: u128| #[trigger]
                players.contains_key(id) ==> shared.pool@[id] == if reset.contains(id) {
                    players[id].after_release()
                } else {
                    players[id]
                },
        decreases all@.len() - i,
    {
        let player = all[i];
        proof {
            assert(!reset.contains(player.id));
        }
        if is_stale(&player, now_ms, stale_claim_timeout_ms) {
            shared.pool.release_claim(&player.id);
            let ghost listed = recovered@;
            recovered.push(player);
            proof {
                let before = reset;
                assert forall|id: u128| #[trigger]
                    reset.insert(player.id).contains(id) implies claims::listed(recovered@, id) by {
                    claims::lemma_listed_push(listed, player, id);
                }
                reset = reset.insert(player.id);
                assert(shared.pool@.dom() =~= players.dom());
                assert forall|id: u128| #[trigger] reset.contains(id) implies exists|k: int|
                    0 <= k < i + 1 && (#[trigger] all@[k]).id == id by {
                    if id == player.id {
                        assert(all@[i as int].id == id);
                    } else {
                        assert(before.contains(id));
                    }
                }
                assert forall|id: u128| #[trigger]
                    shared.pool@.contains_key(id) implies shared.pool@[id].skill_rating
                    <= bucket::MAX_SKILL_RATING by {
                    assert(players.contains_key(id));
                    assert(old(shared).pool@.contains_key(id));
                }
            }
        }
        i = i + 1;
    }
    proof {
        let expected = stale_ids(players, now_ms, stale_claim_timeout_ms);
        assert forall|id: u128| reset.contains(id) <==> expected.contains(id) by {
            if reset.contains(id) {
                let k = choose|k: int| 0 <= k < i && (#[trigger] all@[k]).id == id;
                assert(stale(all@[k], now_ms, stale_claim_timeout_ms));
            }
            if expected.contains(id) {
                assert(all@.contains(players[id]));
                let k = choose|k: int| 0 <= k < all@.len() && all@[k] == players[id];
                shared.pool.lemma_wf_is_consistent();
                old(shared).pool.lemma_wf_is_consistent();
                assert(all@[k].id == id);
            }
        }
        assert(reset =~= expected);
        assert(shared.pool@ =~= reaped(players, now_ms, stale_claim_timeout_ms));
    }
    shared.metrics.total_stale_claims_recovered =
    shared.metrics.total_stale_claims_recovered.wrapping_add(recovered.len() as u64);
    recovered
}

/// The Reaper puts exactly the players of stale claims back into the queue, and
/// leaves everyone else alone: young claims, waiting players and matched ones.
pub proof fn law_reaper_resets_only_stale_claims(
    players: Map<u128, Player>,
    now_ms: u64,
    timeout_ms: u64,
    id: u128,
)
    requires
        bucket::consistent(players),
        players.contains_key(id),
    ensures
        reaped(players, now_ms, timeout_ms).contains_key(id),
        stale(players[id], now_ms, timeout_ms) ==> reaped(players, now_ms, timeout_ms)[id].waiting(),
        !stale(players[id], now_ms, timeout_ms) ==> reaped(players, now_ms, timeout_ms)[id]
            == players[id],
        reaped(players, now_ms, timeout_ms)[id].id == id,
        reaped(players, now_ms, timeout_ms)[id].skill_rating == players[id].skill_rating,
        reaped(players, now_ms, timeout_ms)[id].join_timestamp == players[id].join_timestamp,
{
}

/// After a scan no stale claim is left, so a second scan at the same time
/// changes nothing.
pub proof fn law_reaper_leaves_no_stale_claim(
    players: Map<u128, Player>,
    now_ms: u64,
    timeout_ms: u64,
)
    ensures
        stale_ids(reaped(players, now_ms, timeout_ms), now_ms, timeout_ms) == Set::<u128>::empty(),
        reaped(reaped(players, now_ms, timeout_ms), now_ms, timeout_ms) == reaped(
            players,
            now_ms,
            timeout_ms,
        ),
{
    let once = reaped(players, now_ms, timeout_ms);
    assert(stale_ids(once, now_ms, timeout_ms) =~= Set::<u128>::empty());
    assert(reaped(once, now_ms, timeout_ms) =~= once);
}

/// A claim made within the timeout survives the Reaper.
pub proof fn law_young_claim_survives(
    player: Player,
    worker_id: u64,
    claimed_ms: u64,
    now_ms: u64,
    timeout_ms: u64,
)
    requires
        now_ms <= claimed_ms + timeout_ms,
    ensures
        !stale(player.claimed(worker_id, claimed_ms), now_ms, timeout_ms),
{
}

/// A worker whose claim the Reaper has reset does not hold the player any more,
/// so it cannot complete a match with it.
pub proof fn law_reset_claim_is_lost(
    players: Map<u128, Player>,
    claimed: Player,
    now_ms: u64,
    timeout_ms: u64,
)
    requires
        claims::holds(players, claimed),
        stale(claimed, now_ms, timeout_ms),
    ensures
        !claims::holds(reaped(players, now_ms, timeout_ms), claimed),
{
}

/// Every old claim is recovered, and nothing else changes: a player claimed at a
/// known time, more than the timeout before the scan, is waiting after it and
/// carries no claim; every other player is as it was, and nobody comes or goes.
pub proof fn law_every_old_claim_is_recovered(
    before: matcher::SharedView,
    now_ms: u64,
    timeout_ms: u64,
    id: u128,
)
    ensures
        ({
            let player = before.players[id];
            let after = after_reaping(before, now_ms, timeout_ms);
            let next = after.players[id];
            let old_claim = player.state == player_state::CLAIMED && player.claim_timestamp != 0
                && now_ms > player.claim_timestamp + timeout_ms;
            &&& after.players.contains_key(id) <==> before.players.contains_key(id)
            &&& before.players.contains_key(id) && old_claim ==> {
                &&& next.state == player_state::WAITING
                &&& next.claimed_by == 0
                &&& next.claim_timestamp == 0
                &&& next.id == player.id
                &&& next.skill_rating == player.skill_rating
                &&& next.join_timestamp == player.join_timestamp
                &&& next.matched_at == player.matched_at
            }
            &&& before.players.contains_key(id) && !old_claim ==> next == player
        }),
{
}

/// The Reaper counts the claims that it recovers, and no other counter.
pub proof fn law_recovered_claims_are_counted(
    before: matcher::SharedView,
    now_ms: u64,
    timeout_ms: u64,
    recovered: Set<u128>,
)
    requires
        forall|id: u128| #[trigger]
            recovered.contains(id) <==> before.players.contains_key(id) && before.players[id].state
                == player_state::CLAIMED && before.players[id].claim_timestamp != 0 && now_ms
                > before.players[id].claim_timestamp + timeout_ms,
    ensures
        after_reaping(before, now_ms, timeout_ms).metrics == (Metrics {
            total_stale_claims_recovered: before.metrics.total_stale_claims_recovered.wrapping_add(
                recovered.len() as u64,
            ),
            ..before.metrics
        }),
        after_reaping(before, now_ms, timeout_ms).history == before.history,
        forall|list: Seq<Player>| #[trigger]
            lists_stale(before.players, now_ms, timeout_ms, list) ==> list.len() == recovered.len(),
{
    assert(stale_ids(before.players, now_ms, timeout_ms) =~= recovered);
}

/// The players that a scan returns are those whose old claims it recovered, as they
/// were claimed, each once.
pub proof fn law_recovered_players_had_old_claims(
    players: Map<u128, Player>,
    now_ms: u64,
    timeout_ms: u64,
    list: Seq<Player>,
    i: int,
    id: u128,
)
    requires
        lists_stale(players, now_ms, timeout_ms, list),
    ensures
        0 <= i < list.len() ==> {
            &&& players.contains_key(list[i].id)
            &&& players[list[i].id] == list[i]
            &&& list[i].state == player_state::CLAIMED
            &&& list[i].claim_timestamp != 0
            &&& now_ms > list[i].claim_timestamp + timeout_ms
        },
        players.contains_key(id) && players[id].state == player_state::CLAIMED
            && players[id].claim_timestamp != 0 && now_ms > players[id].claim_timestamp + timeout_ms
            ==> exists|k: int| 0 <= k < list.len() && (#[trigger] list[k]).id == id,
        forall|a: int, b: int|
            0 <= a < b < list.len() ==> (#[trigger] list[a]).id != (#[trigger] list[b]).id,
{
    if 0 <= i < list.len() {
        assert(claims::holds(players, list[i]));
    }
}

} // verus!

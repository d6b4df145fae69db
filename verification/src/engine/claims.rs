//! Claims: taking players of the pool for a worker, keeping them, giving them
//! back.
//!
//! Players are taken as they were seen in a scan. A worker holds a player as
//! long as the pool has it exactly as it was claimed.

use vstd::prelude::*;

use crate::engine::balancer::MATCH_SIZE;
use crate::engine::bucket;
use crate::engine::bucket::PlayerPool;
use crate::models;
use crate::models::Player;

verus! {

/// The players in a list all have different identifiers.
pub open spec fn distinct(list: Seq<Player>) -> bool {
    forall|i: int, j: int|
        0 <= i < j < list.len() ==> (#[trigger] list[i]).id != (#[trigger] list[j]).id
}

/// Whether the pool holds a player exactly as given.
pub open spec fn holds(players: Map<u128, Player>, player: Player) -> bool {
    players.contains_key(player.id) && players[player.id] == player
}

/// The players of a list that the pool holds exactly as given, in order.
pub open spec fn present(players: Map<u128, Player>, list: Seq<Player>) -> Seq<Player>
    decreases list.len(),
{
    if list.len() == 0 {
        Seq::empty()
    } else {
        let before = present(players, list.drop_last());
        if holds(players, list.last()) {
            before.push(list.last())
        } else {
            before
        }
    }
}

/// Every player of a list is waiting.
pub open spec fn all_waiting(list: Seq<Player>) -> bool {
    forall|i: int| 0 <= i < list.len() ==> (#[trigger] list[i]).waiting()
}

/// The first ten of a list, or all of a shorter one.
pub open spec fn first_ten(list: Seq<Player>) -> Seq<Player> {
    if list.len() <= MATCH_SIZE {
        list
    } else {
        list.take(MATCH_SIZE as int)
    }
}

/// The players of a list, claimed by a worker.
pub open spec fn all_claimed(list: Seq<Player>, worker_id: u64, now_ms: u64) -> Seq<Player> {
    list.map_values(|player: Player| player.claimed(worker_id, now_ms))
}

/// The players of a list, released.
pub open spec fn all_released(list: Seq<Player>) -> Seq<Player> {
    list.map_values(|player: Player| player.after_release())
}

/// The pool after the players of a list have been stored in it, in order.
pub open spec fn stored(players: Map<u128, Player>, list: Seq<Player>) -> Map<u128, Player>
    decreases list.len(),
{
    if list.len() == 0 {
        players
    } else {
        stored(players, list.drop_last()).insert(list.last().id, list.last())
    }
}

/// Whether a player of a list has the given identifier.
pub open spec fn listed(list: Seq<Player>, id: u128) -> bool {
    exists|i: int| 0 <= i < list.len() && (#[trigger] list[i]).id == id
}

/// The pool without the players of a list.
pub open spec fn without(players: Map<u128, Player>, list: Seq<Player>) -> Map<u128, Player> {
    Map::new(|id: u128| players.contains_key(id) && !listed(list, id), |id: u128| players[id])
}

/// Storing the players of a list changes nothing about anyone else.
pub(crate) proof fn lemma_stored(players: Map<u128, Player>, list: Seq<Player>)
    ensures
        forall|id: u128|
            !listed(list, id) ==> (#[trigger] stored(players, list).contains_key(id)
                <==> players.contains_key(id)),
        forall|id: u128|
            !listed(list, id) && players.contains_key(id) ==> #[trigger] stored(players, list)[id]
                == players[id],
        distinct(list) ==> forall|i: int|
            0 <= i < list.len() ==> stored(players, list).contains_key((#[trigger] list[i]).id)
                && stored(players, list)[list[i].id] == list[i],
    decreases list.len(),
{
    if list.len() > 0 {
        let before = list.drop_last();
        lemma_stored(players, before);
        assert forall|id: u128| !listed(list, id) implies !#[trigger] listed(before, id) && id
            != list.last().id by {
            if listed(before, id) {
                let i = choose|i: int| 0 <= i < before.len() && (#[trigger] before[i]).id == id;
                assert(list[i].id == id);
            }
            assert(list[list.len() - 1].id != id);
        }
        assert forall|id: u128| !listed(list, id) implies (#[trigger] stored(
            players,
            list,
        ).contains_key(id) <==> players.contains_key(id)) by {
            assert(!listed(before, id));
            assert(stored(players, before).contains_key(id) <==> players.contains_key(id));
        }
        assert forall|id: u128| !listed(list, id) && players.contains_key(
            id,
        ) implies #[trigger] stored(players, list)[id] == players[id] by {
            assert(!listed(before, id));
            assert(stored(players, before)[id] == players[id]);
        }
        if distinct(list) {
            assert forall|i: int| 0 <= i < list.len() implies stored(players, list).contains_key(
                (#[trigger] list[i]).id,
            ) && stored(players, list)[list[i].id] == list[i] by {
                if i < before.len() {
                    assert(before[i] == list[i]);
                    assert(list[i].id != list[list.len() - 1].id);
                }
            }
        }
    }
}

/// Storing players that are in the pool already adds nobody.
pub(crate) proof fn lemma_stored_keeps_ids(players: Map<u128, Player>, list: Seq<Player>)
    requires
        forall|i: int| 0 <= i < list.len() ==> players.contains_key((#[trigger] list[i]).id),
    ensures
        stored(players, list).dom() == players.dom(),
    decreases list.len(),
{
    if list.len() > 0 {
        assert forall|i: int| 0 <= i < list.drop_last().len() implies players.contains_key(
            (#[trigger] list.drop_last()[i]).id,
        ) by {
            assert(players.contains_key(list[i].id));
        }
        lemma_stored_keeps_ids(players, list.drop_last());
        assert(players.contains_key(list[list.len() - 1].id));
        assert(stored(players, list).dom() =~= players.dom());
    }
}

/// A longer list has the players present in a shorter one first.
pub(crate) proof fn lemma_present_grows(players: Map<u128, Player>, candidates: Seq<Player>, n: int)
    requires
        0 <= n <= candidates.len(),
    ensures
        present(players, candidates.take(n)).len() <= present(players, candidates).len(),
        present(players, candidates).take(present(players, candidates.take(n)).len() as int)
            == present(players, candidates.take(n)),
    decreases candidates.len(),
{
    if n == candidates.len() {
        assert(candidates.take(n) =~= candidates);
        assert(present(players, candidates).take(present(players, candidates).len() as int)
            =~= present(players, candidates));
    } else {
        let before = candidates.drop_last();
        lemma_present_grows(players, before, n);
        assert(before.take(n) =~= candidates.take(n));
        let k = present(players, candidates.take(n)).len() as int;
        assert(present(players, candidates).take(k) =~= present(players, before).take(k));
    }
}

/// The players present are players of the list that the pool holds.
pub(crate) proof fn lemma_present_members(players: Map<u128, Player>, candidates: Seq<Player>)
    ensures
        present(players, candidates).len() <= candidates.len(),
        forall|i: int|
            0 <= i < present(players, candidates).len() ==> holds(
                players,
                #[trigger] present(players, candidates)[i],
            ) && candidates.contains(present(players, candidates)[i]),
        distinct(candidates) ==> distinct(present(players, candidates)),
    decreases candidates.len(),
{
    if candidates.len() > 0 {
        let before = candidates.drop_last();
        let last = candidates.last();
        lemma_present_members(players, before);
        let found = present(players, candidates);
        assert forall|i: int| 0 <= i < found.len() implies holds(players, #[trigger] found[i])
            && candidates.contains(found[i]) by {
            if i < present(players, before).len() {
                assert(found[i] == present(players, before)[i]);
                let k = choose|k: int| 0 <= k < before.len() && before[k] == found[i];
                assert(candidates[k] == found[i]);
            } else {
                assert(candidates[candidates.len() - 1] == found[i]);
            }
        }
        if distinct(candidates) {
            assert(distinct(before)) by {
                assert forall|i: int, j: int| 0 <= i < j < before.len() implies (
                #[trigger] before[i]).id != (#[trigger] before[j]).id by {
                    assert(candidates[i].id != candidates[j].id);
                }
            }
            assert forall|i: int, j: int| 0 <= i < j < found.len() implies (#[trigger] found[i]).id
                != (#[trigger] found[j]).id by {
                let kept = present(players, before);
                assert(found[i] == kept[i]);
                if j < kept.len() {
                    assert(found[j] == kept[j]);
                } else {
                    let k = choose|k: int| 0 <= k < before.len() && before[k] == kept[i];
                    assert(candidates[k].id != candidates[candidates.len() - 1].id);
                }
            }
        }
    }
}

/// If not all players of a list are present, fewer are.
pub(crate) proof fn lemma_present_is_shorter(players: Map<u128, Player>, list: Seq<Player>)
    requires
        present(players, list) != list,
    ensures
        present(players, list).len() < list.len(),
    decreases list.len(),
{
    if list.len() > 0 {
        let before = list.drop_last();
        lemma_present_members(players, before);
        assert(before.push(list.last()) =~= list);
        if present(players, before) != before {
            lemma_present_is_shorter(players, before);
        }
    } else {
        assert(present(players, list) =~= list);
    }
}

/// If the pool holds every player of a list, they are all present.
pub(crate) proof fn lemma_all_present(players: Map<u128, Player>, list: Seq<Player>)
    requires
        forall|i: int| 0 <= i < list.len() ==> holds(players, #[trigger] list[i]),
    ensures
        present(players, list) == list,
    decreases list.len(),
{
    if list.len() > 0 {
        assert forall|i: int| 0 <= i < list.drop_last().len() implies holds(
            players,
            #[trigger] list.drop_last()[i],
        ) by {
            assert(holds(players, list[i]));
        }
        lemma_all_present(players, list.drop_last());
        assert(holds(players, list[list.len() - 1]));
        assert(list.drop_last().push(list.last()) =~= list);
    } else {
        assert(present(players, list) =~= list);
    }
}

/// Claimed candidates have different identifiers and the ratings they had.
pub(crate) proof fn lemma_claims(
    players: Map<u128, Player>,
    candidates: Seq<Player>,
    worker_id: u64,
    now_ms: u64,
)
    requires
        distinct(candidates),
        all_waiting(candidates),
    ensures
        ({
            let free = present(players, candidates);
            let claimed = all_claimed(first_ten(free), worker_id, now_ms);
            &&& distinct(free)
            &&& all_waiting(free)
            &&& distinct(claimed)
            &&& forall|i: int| 0 <= i < free.len() ==> holds(players, #[trigger] free[i])
            &&& forall|i: int|
                0 <= i < claimed.len() ==> players.contains_key((#[trigger] claimed[i]).id)
                    && players[claimed[i].id].skill_rating == claimed[i].skill_rating
        }),
{
    let free = present(players, candidates);
    let claimed = all_claimed(first_ten(free), worker_id, now_ms);
    lemma_present_members(players, candidates);
    assert forall|i: int| 0 <= i < free.len() implies (#[trigger] free[i]).waiting() by {
        assert(candidates.contains(free[i]));
    }
    assert forall|i: int, j: int| 0 <= i < j < claimed.len() implies (#[trigger] claimed[i]).id != (
    #[trigger] claimed[j]).id by {
        assert(free[i].id != free[j].id);
    }
    assert forall|i: int| 0 <= i < claimed.len() implies players.contains_key(
        (#[trigger] claimed[i]).id,
    ) && players[claimed[i].id].skill_rating == claimed[i].skill_rating by {
        assert(holds(players, free[i]));
    }
}

pub(crate) proof fn lemma_listed_push(list: Seq<Player>, player: Player, id: u128)
    ensures
        listed(list.push(player), id) <==> listed(list, id) || player.id == id,
{
    let longer = list.push(player);
    if listed(longer, id) {
        let k = choose|k: int| 0 <= k < longer.len() && (#[trigger] longer[k]).id == id;
        if k < list.len() {
            assert(list[k].id == id);
        }
    }
    if listed(list, id) {
        let k = choose|k: int| 0 <= k < list.len() && (#[trigger] list[k]).id == id;
        assert(longer[k].id == id);
    }
    if player.id == id {
        assert(longer[list.len() as int].id == id);
    }
}

/// Claim the first ten candidates that are still waiting as they were seen.
pub fn claim_candidates(
    pool: &mut PlayerPool,
    candidates: &Vec<Player>,
    worker_id: u64,
    now_ms: u64,
) -> (claimed: Vec<Player>)
    requires
        old(pool).wf(),
        distinct(candidates@),
        all_waiting(candidates@),
    ensures
        final(pool).wf(),
        claimed@ == all_claimed(
            first_ten(present(old(pool)@, candidates@)),
            worker_id,
            now_ms,
        ),
        final(pool)@ == stored(old(pool)@, claimed@),
{
    let ghost players = pool@;
    let mut claimed: Vec<Player> = Vec::new();
    let mut i: usize = 0;
    assert(all_claimed(Seq::<Player>::empty(), worker_id, now_ms) =~= Seq::<Player>::empty());
    while i < candidates.len() && claimed.len() < MATCH_SIZE
        invariant
            i <= candidates@.len(),
            players == old(pool)@,
            pool.wf(),
            distinct(candidates@),
            all_waiting(candidates@),
            claimed@.len() <= MATCH_SIZE,
            claimed@ == all_claimed(
                present(players, candidates@.take(i as int)),
                worker_id,
                now_ms,
            ),
            pool@ == stored(players, claimed@),
        decreases candidates@.len() - i,
    {
        let candidate = candidates[i];
        proof {
            assert(candidates@.take(i + 1).drop_last() =~= candidates@.take(i as int));
            lemma_stored(players, claimed@);
            lemma_present_members(players, candidates@.take(i as int));
            assert(!listed(claimed@, candidate.id)) by {
                if listed(claimed@, candidate.id) {
                    let k = choose|k: int|
                        0 <= k < claimed@.len() && (#[trigger] claimed@[k]).id == candidate.id;
                    let seen = present(players, candidates@.take(i as int))[k];
                    assert(candidates@.take(i as int).contains(seen));
                    let m = choose|m: int| 0 <= m < i && candidates@.take(i as int)[m] == seen;
                    assert(candidates@[m].id != candidates@[i as int].id);
                }
            }
        }
        let unchanged: bool = match pool.get(&candidate.id) {
            Some(current) => current == candidate,
            None => false,
        };
        if unchanged && pool.try_claim(&candidate.id, worker_id, now_ms) {
            let mut held = candidate;
            let _won = held.try_claim(worker_id, now_ms);
            let ghost before = claimed@;
            claimed.push(held);
            proof {
                assert(claimed@.drop_last() =~= before);
                assert(all_claimed(
                    present(players, candidates@.take(i + 1)),
                    worker_id,
                    now_ms,
                ) =~= claimed@);
            }
        }
        i = i + 1;
    }
    proof {
        lemma_present_grows(players, candidates@, i as int);
        let found = present(players, candidates@);
        assert(i == candidates@.len() ==> candidates@.take(i as int) =~= candidates@);
        assert(first_ten(found) =~= present(players, candidates@.take(i as int)));
    }
    claimed
}

/// Release the players of a list that the pool still holds as they were
/// claimed, and return how many those were.
pub fn roll_back(pool: &mut PlayerPool, claimed: &Vec<Player>) -> (released: usize)
    requires
        old(pool).wf(),
        distinct(claimed@),
    ensures
        final(pool).wf(),
        released == present(old(pool)@, claimed@).len(),
        final(pool)@ == stored(old(pool)@, all_released(present(old(pool)@, claimed@))),
{
    let ghost players = pool@;
    let mut released: usize = 0;
    let mut i: usize = 0;
    assert(all_released(Seq::<Player>::empty()) =~= Seq::<Player>::empty());
    while i < claimed.len()
        invariant
            i <= claimed@.len(),
            players == old(pool)@,
            pool.wf(),
            distinct(claimed@),
            released <= i,
            released == present(players, claimed@.take(i as int)).len(),
            pool@ == stored(players, all_released(present(players, claimed@.take(i as int)))),
        decreases claimed@.len() - i,
    {
        let player = claimed[i];
        let ghost before = present(players, claimed@.take(i as int));
        proof {
            assert(claimed@.take(i + 1).drop_last() =~= claimed@.take(i as int));
            lemma_stored(players, all_released(before));
            lemma_present_members(players, claimed@.take(i as int));
            assert(!listed(all_released(before), player.id)) by {
                if listed(all_released(before), player.id) {
                    let k = choose|k: int|
                        0 <= k < all_released(before).len() && (#[trigger] all_released(
                            before,
                        )[k]).id == player.id;
                    assert(claimed@.take(i as int).contains(before[k]));
                    let m = choose|m: int| 0 <= m < i && claimed@.take(i as int)[m] == before[k];
                    assert(claimed@[m].id != claimed@[i as int].id);
                }
            }
        }
        let held: bool = match pool.get(&player.id) {
            Some(current) => current == player,
            None => false,
        };
        if held {
            pool.release_claim(&player.id);
            released = released + 1;
            proof {
                let next = all_released(before.push(player));
                assert(next.drop_last() =~= all_released(before));
                assert(next.last() == player.after_release());
            }
        }
        i = i + 1;
    }
    assert(claimed@.take(i as int) =~= claimed@);
    released
}

/// Whether the pool still holds every player of a list as it was claimed.
pub(crate) fn all_held(pool: &PlayerPool, claimed: &Vec<Player>) -> (held: bool)
    ensures
        held == (present(pool@, claimed@) == claimed@),
{
    let mut i: usize = 0;
    while i < claimed.len()
        invariant
            i <= claimed@.len(),
            forall|k: int| 0 <= k < i ==> holds(pool@, #[trigger] claimed@[k]),
        decreases claimed@.len() - i,
    {
        let player = claimed[i];
        let held: bool = match pool.get(&player.id) {
            Some(current) => current == player,
            None => false,
        };
        if !held {
            proof {
                lemma_present_members(pool@, claimed@);
                if present(pool@, claimed@) == claimed@ {
                    assert(holds(pool@, present(pool@, claimed@)[i as int]));
                }
            }
            return false;
        }
        i = i + 1;
    }
    proof {
        lemma_all_present(pool@, claimed@);
    }
    true
}

/// The players of a list, marked as matched at `now`.
pub open spec fn all_matched(list: Seq<Player>, now: u64) -> Seq<Player> {
    list.map_values(|player: Player| player.after_match(now))
}

/// Mark players that the pool holds as matched and take them out of the pool.
/// Returns them as they were when they left.
pub fn take_out(pool: &mut PlayerPool, claimed: &Vec<Player>, now: u64) -> (removed: Vec<Player>)
    requires
        old(pool).wf(),
        distinct(claimed@),
        present(old(pool)@, claimed@) == claimed@,
    ensures
        final(pool).wf(),
        final(pool)@ == without(old(pool)@, claimed@),
        removed@ == all_matched(claimed@, now),
{
    let ghost players = pool@;
    let mut removed: Vec<Player> = Vec::new();
    let mut i: usize = 0;
    proof {
        lemma_present_members(players, claimed@);
        assert(without(players, claimed@.take(0)) =~= players);
    }
    while i < claimed.len()
        invariant
            i <= claimed@.len(),
            distinct(claimed@),
            forall|k: int| 0 <= k < claimed@.len() ==> holds(players, #[trigger] claimed@[k]),
            pool.wf(),
            pool@ == without(players, claimed@.take(i as int)),
            removed@ == all_matched(claimed@.take(i as int), now),
        decreases claimed@.len() - i,
    {
        let ghost player = claimed@[i as int];
        let ghost taken = claimed@.take(i as int);
        proof {
            assert(holds(players, player));
            assert(!listed(taken, player.id)) by {
                if listed(taken, player.id) {
                    let k = choose|k: int| 0 <= k < taken.len() && (#[trigger] taken[k]).id == player.id;
                    assert(claimed@[k].id != claimed@[i as int].id);
                }
            }
        }
        pool.mark_matched_at(&claimed[i].id, now);
        if let Some(matched) = pool.remove(&claimed[i].id) {
            removed.push(matched);
        }
        proof {
            let next = claimed@.take(i + 1);
            assert(next =~= taken.push(player));
            assert forall|id: u128| listed(next, id) <==> listed(taken, id) || id == player.id by {
                lemma_listed_push(taken, player, id);
            }
            assert(pool@ =~= without(players, next));
            assert(removed@ =~= all_matched(next, now));
        }
        i = i + 1;
    }
    assert(claimed@.take(i as int) =~= claimed@);
    removed
}

/// Evict a waiting player and take it out of the pool. Returns the player as it
/// was when it left; `None`, with nothing changed, if it is not in the pool or not
/// waiting.
pub fn withdraw(pool: &mut PlayerPool, id: &u128) -> (removed: Option<Player>)
    requires
        old(pool).wf(),
    ensures
        final(pool).wf(),
        removed == if old(pool)@.contains_key(*id) && old(pool)@[*id].waiting() {
            Some(old(pool)@[*id].after_evict())
        } else {
            None
        },
        final(pool)@ == if removed is Some {
            old(pool)@.remove(*id)
        } else {
            old(pool)@
        },
{
    let ghost players = pool@;
    if !pool.try_evict(id) {
        return None;
    }
    let removed = pool.remove(id);
    assert(pool@ =~= players.remove(*id));
    removed
}

/// Rolling back freshly made claims restores the pool exactly.
pub proof fn law_roll_back_restores_the_pool(
    players: Map<u128, Player>,
    list: Seq<Player>,
    worker_id: u64,
    now_ms: u64,
)
    requires
        bucket::consistent(players),
        distinct(list),
        all_waiting(list),
        present(players, list) == list,
    ensures
        ({
            let claimed = all_claimed(list, worker_id, now_ms);
            let during = stored(players, claimed);
            &&& present(during, claimed) == claimed
            &&& stored(during, all_released(claimed)) == players
        }),
{
    let claimed = all_claimed(list, worker_id, now_ms);
    let during = stored(players, claimed);
    let released = all_released(claimed);
    let after = stored(during, released);
    lemma_present_members(players, list);
    assert forall|i: int, j: int| 0 <= i < j < claimed.len() implies (#[trigger] claimed[i]).id != (
    #[trigger] claimed[j]).id by {
        assert(list[i].id != list[j].id);
    }
    lemma_stored(players, claimed);
    lemma_all_present(during, claimed);
    assert forall|i: int| 0 <= i < list.len() implies #[trigger] released[i] == list[i] by {
        assert(holds(players, present(players, list)[i]));
        assert(players.contains_key(list[i].id));
        models::law_release_undoes_claim(list[i], worker_id, now_ms);
    }
    assert(released =~= list);
    lemma_stored(during, list);
    assert forall|id: u128| listed(list, id) <==> listed(claimed, id) by {
        if listed(list, id) {
            let i = choose|i: int| 0 <= i < list.len() && (#[trigger] list[i]).id == id;
            assert(claimed[i].id == id);
        }
        if listed(claimed, id) {
            let i = choose|i: int| 0 <= i < claimed.len() && (#[trigger] claimed[i]).id == id;
            assert(list[i].id == id);
        }
    }
    assert forall|id: u128| #[trigger] after.contains_key(id) <==> players.contains_key(id) by {
        if listed(list, id) {
            let i = choose|i: int| 0 <= i < list.len() && (#[trigger] list[i]).id == id;
            assert(holds(players, present(players, list)[i]));
        } else {
            assert(!listed(claimed, id));
            assert(during.contains_key(id) <==> players.contains_key(id));
        }
    }
    assert forall|id: u128| #[trigger] players.contains_key(id) implies after[id] == players[id] by {
        if listed(list, id) {
            let i = choose|i: int| 0 <= i < list.len() && (#[trigger] list[i]).id == id;
            assert(holds(players, present(players, list)[i]));
        } else {
            assert(!listed(claimed, id));
            assert(during.contains_key(id));
            assert(after.contains_key(id));
            assert(during[id] == players[id]);
        }
    }
    assert(after =~= players);
}

/// A claimed player cannot be claimed by another worker: claims made on a pool
/// in which claims already stand have no player in common with them.
pub proof fn law_claims_are_exclusive(
    players: Map<u128, Player>,
    candidates: Seq<Player>,
    worker_id: u64,
    now_ms: u64,
    others: Seq<Player>,
    other_worker_id: u64,
    other_ms: u64,
    id: u128,
)
    requires
        distinct(candidates),
        all_waiting(candidates),
        all_waiting(others),
    ensures
        ({
            let claimed = all_claimed(first_ten(present(players, candidates)), worker_id, now_ms);
            let during = stored(players, claimed);
            let more = all_claimed(first_ten(present(during, others)), other_worker_id, other_ms);
            !(listed(claimed, id) && listed(more, id))
        }),
{
    let claimed = all_claimed(first_ten(present(players, candidates)), worker_id, now_ms);
    let during = stored(players, claimed);
    let free = present(during, others);
    let more = all_claimed(first_ten(free), other_worker_id, other_ms);
    lemma_claims(players, candidates, worker_id, now_ms);
    lemma_stored(players, claimed);
    lemma_present_members(during, others);
    if listed(claimed, id) && listed(more, id) {
        let i = choose|i: int| 0 <= i < claimed.len() && (#[trigger] claimed[i]).id == id;
        let j = choose|j: int| 0 <= j < more.len() && (#[trigger] more[j]).id == id;
        assert(holds(during, free[j]));
        assert(during[id] == claimed[i]);
        assert(others.contains(free[j]));
        let k = choose|k: int| 0 <= k < others.len() && others[k] == free[j];
        assert(others[k].waiting());
    }
}

/// Ten players leave the pool with every match.
pub proof fn law_match_shrinks_the_pool_by_ten(players: Map<u128, Player>, claimed: Seq<Player>)
    requires
        players.dom().finite(),
        distinct(claimed),
        claimed.len() == MATCH_SIZE,
        present(players, claimed) == claimed,
    ensures
        without(players, claimed).dom().finite(),
        without(players, claimed).dom().len() + MATCH_SIZE == players.dom().len(),
{
    lemma_present_members(players, claimed);
    assert forall|i: int| 0 <= i < claimed.len() implies holds(players, #[trigger] claimed[i]) by {
        assert(holds(players, present(players, claimed)[i]));
    }
    lemma_without_shrinks(players, claimed);
}

pub(crate) proof fn lemma_without_shrinks(players: Map<u128, Player>, list: Seq<Player>)
    requires
        players.dom().finite(),
        distinct(list),
        forall|i: int| 0 <= i < list.len() ==> holds(players, #[trigger] list[i]),
    ensures
        without(players, list).dom().finite(),
        without(players, list).dom().len() + list.len() == players.dom().len(),
    decreases list.len(),
{
    if list.len() == 0 {
        assert(without(players, list).dom() =~= players.dom());
    } else {
        let before = list.drop_last();
        let last = list[list.len() - 1];
        assert(distinct(before)) by {
            assert forall|i: int, j: int| 0 <= i < j < before.len() implies (#[trigger] before[i]).id
                != (#[trigger] before[j]).id by {
                assert(list[i].id != list[j].id);
            }
        }
        assert forall|i: int| 0 <= i < before.len() implies holds(players, #[trigger] before[i]) by {
            assert(holds(players, list[i]));
        }
        lemma_without_shrinks(players, before);
        assert(holds(players, last));
        assert(!listed(before, last.id)) by {
            if listed(before, last.id) {
                let k = choose|k: int| 0 <= k < before.len() && (#[trigger] before[k]).id == last.id;
                assert(list[k].id != list[list.len() - 1].id);
            }
        }
        assert forall|id: u128| listed(list, id) <==> listed(before, id) || id == last.id by {
            lemma_listed_push(before, last, id);
            assert(before.push(last) =~= list);
        }
        assert(without(players, list).dom() =~= without(players, before).dom().remove(last.id));
        assert(without(players, before).dom().contains(last.id));
    }
}

/// Present are exactly the players of a list that the pool holds as they are
/// listed, in the order of the list.
pub proof fn law_present_are_those_the_pool_holds(
    players: Map<u128, Player>,
    list: Seq<Player>,
    player: Player,
    i: int,
    j: int,
)
    ensures
        present(players, list).contains(player) <==> list.contains(player) && players.contains_key(
            player.id,
        ) && players[player.id] == player,
        0 <= i < j < present(players, list).len() ==> exists|a: int, b: int|
            0 <= a < b < list.len() && #[trigger] list[a] == present(players, list)[i]
                && #[trigger] list[b] == present(players, list)[j],
    decreases list.len(),
{
    let found = present(players, list);
    if list.len() > 0 {
        let before = list.drop_last();
        let last = list[list.len() - 1];
        let kept = present(players, before);
        law_present_are_those_the_pool_holds(players, before, player, i, j);
        if kept.contains(player) {
            let k = choose|k: int| 0 <= k < kept.len() && kept[k] == player;
            assert(found[k] == player);
        }
        if found.contains(player) && !kept.contains(player) {
            let k = choose|k: int| 0 <= k < found.len() && found[k] == player;
            assert(k == kept.len());
            assert(list[list.len() - 1] == player);
        }
        if before.contains(player) {
            let k = choose|k: int| 0 <= k < before.len() && before[k] == player;
            assert(list[k] == player);
        }
        if list.contains(player) && !before.contains(player) {
            let k = choose|k: int| 0 <= k < list.len() && list[k] == player;
            if k < before.len() {
                assert(before[k] == player);
            }
            if holds(players, player) {
                assert(found[kept.len() as int] == player);
            }
        }
        if 0 <= i < j < found.len() {
            if j < kept.len() {
                let (a, b) = choose|a: int, b: int|
                    0 <= a < b < before.len() && #[trigger] before[a] == kept[i]
                        && #[trigger] before[b] == kept[j];
                assert(list[a] == found[i] && list[b] == found[j]);
            } else {
                lemma_present_members(players, before);
                assert(before.contains(kept[i]));
                let a = choose|a: int| 0 <= a < before.len() && before[a] == kept[i];
                assert(list[a] == found[i] && list[list.len() - 1] == found[j]);
            }
        }
    }
}

/// What stands in the pool after different players have been stored: they, and
/// everyone else as before.
pub proof fn law_stored_players_replace_only_themselves(
    players: Map<u128, Player>,
    list: Seq<Player>,
    i: int,
    id: u128,
)
    requires
        distinct(list),
    ensures
        0 <= i < list.len() ==> stored(players, list).contains_key(list[i].id) && stored(
            players,
            list,
        )[list[i].id] == list[i],
        (forall|k: int| 0 <= k < list.len() ==> (#[trigger] list[k]).id != id) ==> (stored(
            players,
            list,
        ).contains_key(id) <==> players.contains_key(id)) && (players.contains_key(id) ==> stored(
            players,
            list,
        )[id] == players[id]),
{
    lemma_stored(players, list);
    if forall|k: int| 0 <= k < list.len() ==> (#[trigger] list[k]).id != id {
        assert(!listed(list, id));
    }
}

/// Claimed are the first ten of the candidates that the pool still holds as they
/// were seen, or all of them if there are fewer: each is then claimed by the worker
/// since `now_ms`, and a candidate that was free but not claimed comes after all
/// who were.
pub proof fn law_first_ten_free_candidates_are_claimed(
    players: Map<u128, Player>,
    candidates: Seq<Player>,
    worker_id: u64,
    now_ms: u64,
    i: int,
    c: int,
)
    requires
        distinct(candidates),
        all_waiting(candidates),
    ensures
        ({
            let claimed = all_claimed(
                first_ten(present(players, candidates)),
                worker_id,
                now_ms,
            );
            &&& claimed.len() <= 10
            &&& 0 <= i < claimed.len() ==> {
                let seen = players[claimed[i].id];
                &&& players.contains_key(claimed[i].id)
                &&& candidates.contains(seen)
                &&& seen.id == claimed[i].id
                &&& claimed[i].skill_rating == seen.skill_rating
                &&& claimed[i].join_timestamp == seen.join_timestamp
                &&& claimed[i].state == models::player_state::CLAIMED
                &&& claimed[i].claimed_by == worker_id
                &&& claimed[i].claim_timestamp == now_ms
            }
            &&& 0 <= c < candidates.len() && players.contains_key(candidates[c].id)
                && players[candidates[c].id] == candidates[c] && !listed(claimed, candidates[c].id)
                ==> claimed.len() == 10 && (0 <= i < claimed.len() ==> exists|a: int|
                0 <= a < c && (#[trigger] candidates[a]).id == claimed[i].id)
        }),
{
    let free = present(players, candidates);
    let claimed = all_claimed(first_ten(free), worker_id, now_ms);
    lemma_claims(players, candidates, worker_id, now_ms);
    lemma_present_members(players, candidates);
    if 0 <= i < claimed.len() {
        assert(holds(players, free[i]));
        assert(candidates.contains(free[i]));
    }
    if 0 <= c < candidates.len() && holds(players, candidates[c]) && !listed(
        claimed,
        candidates[c].id,
    ) {
        let left = candidates[c];
        assert(candidates.contains(left));
        law_present_are_those_the_pool_holds(players, candidates, left, 0, 0);
        let k = choose|k: int| 0 <= k < free.len() && free[k] == left;
        if k < claimed.len() {
            assert(claimed[k].id == left.id);
        }
        assert(claimed.len() == 10);
        if 0 <= i < claimed.len() {
            law_present_are_those_the_pool_holds(players, candidates, left, i, k);
            let (a, b) = choose|a: int, b: int|
                0 <= a < b < candidates.len() && #[trigger] candidates[a] == free[i]
                    && #[trigger] candidates[b] == free[k];
            if b != c {
                if b < c {
                    assert(candidates[b].id != candidates[c].id);
                } else {
                    assert(candidates[c].id != candidates[b].id);
                }
            }
            assert(candidates[a].id == claimed[i].id);
        }
    }
}

/// Ten free candidates are enough: if the pool holds ten different candidates as
/// they were seen, ten are claimed.
pub proof fn law_ten_free_candidates_are_enough(
    players: Map<u128, Player>,
    candidates: Seq<Player>,
    ten: Seq<Player>,
)
    requires
        ten.len() == 10,
        distinct(ten),
        forall|i: int|
            0 <= i < ten.len() ==> candidates.contains(#[trigger] ten[i]) && players.contains_key(
                ten[i].id,
            ) && players[ten[i].id] == ten[i],
    ensures
        present(players, candidates).len() >= 10,
{
    let free = present(players, candidates);
    assert forall|player: Player| ten.to_set().contains(player) implies free.to_set().contains(
        player,
    ) by {
        let i = choose|i: int| 0 <= i < ten.len() && ten[i] == player;
        assert(candidates.contains(ten[i]));
        law_present_are_those_the_pool_holds(players, candidates, player, 0, 0);
    }
    assert forall|i: int, j: int| 0 <= i < ten.len() && 0 <= j < ten.len() && i != j implies ten[i]
        != ten[j] by {
        if i < j {
            assert(ten[i].id != ten[j].id);
        } else {
            assert(ten[j].id != ten[i].id);
        }
    }
    ten.unique_seq_to_set();
    free.lemma_cardinality_of_set();
    vstd::set_lib::lemma_len_subset(ten.to_set(), free.to_set());
}

/// Players who are taken out of the pool are gone, and everyone else stays as they
/// are.
pub proof fn law_only_the_listed_are_taken_out(
    players: Map<u128, Player>,
    list: Seq<Player>,
    i: int,
    id: u128,
)
    ensures
        0 <= i < list.len() ==> !without(players, list).contains_key(list[i].id),
        (forall|k: int| 0 <= k < list.len() ==> (#[trigger] list[k]).id != id) ==> (without(
            players,
            list,
        ).contains_key(id) <==> players.contains_key(id)) && (players.contains_key(id) ==> without(
            players,
            list,
        )[id] == players[id]),
{
    if 0 <= i < list.len() {
        assert(listed(list, list[i].id));
    }
}

/// Claimed players who are marked as matched carry the match time, and otherwise
/// stay who they are.
pub proof fn law_matched_players_carry_the_time(list: Seq<Player>, now: u64, i: int)
    requires
        0 <= i < list.len(),
    ensures
        all_matched(list, now).len() == list.len(),
        list[i].state == models::player_state::CLAIMED ==> {
            let matched = all_matched(list, now)[i];
            &&& matched.state == models::player_state::MATCHED
            &&& matched.matched_at == Some(now)
            &&& matched.id == list[i].id
            &&& matched.skill_rating == list[i].skill_rating
            &&& matched.join_timestamp == list[i].join_timestamp
        },
{
}

} // verus!

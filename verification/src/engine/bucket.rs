//! The player pool: every player in the queue, by identifier and by rating.
//!
//! [`PlayerPool`] keeps two structures in step: the primary store, which is the
//! source of truth, and an index ordered by `(skill_rating, id)` that makes
//! scans over a range of ratings cheap. Its fields are private, so its methods
//! are the only way to change it.

use dashmap::DashMap;
use vstd::prelude::*;

use crate::engine::primary;
use crate::engine::primary::{
    map_contains, map_entries, map_get, map_insert, map_is_empty, map_len, map_remove, new_map,
};
use crate::engine::scan;
use crate::engine::scan::{is_senior, sort_by_seniority};
use crate::models::{player_state, Player};

verus! {

/// Maximum number of candidates returned by a single scan.
pub const MAX_CANDIDATES_PER_SCAN: usize = 200;

/// Maximum skill rating accepted when a player joins the queue.
pub const MAX_SKILL_RATING: u32 = 3000;

/// The registry of queued players.
pub struct PlayerPool {
    primary: DashMap<u128, Player>,
    index: Vec<(u32, u128)>,
}

/// Every player is stored under its own identifier and is well-formed.
pub open spec fn consistent(players: Map<u128, Player>) -> bool {
    &&& players.dom().finite()
    &&& forall|id: u128| #[trigger]
        players.contains_key(id) ==> players[id].id == id && players[id].wf()
}

/// The index holds the keys of exactly the given players, in strict order.
spec fn indexes(index: Seq<(u32, u128)>, players: Map<u128, Player>) -> bool {
    &&& forall|i: int, j: int|
        0 <= i < j < index.len() ==> scan::key_lt(#[trigger] index[i], #[trigger] index[j])
    &&& forall|i: int|
        0 <= i < index.len() ==> players.contains_key((#[trigger] index[i]).1)
            && players[index[i].1].skill_rating == index[i].0
    &&& forall|id: u128| #[trigger]
        players.contains_key(id) ==> index.contains((players[id].skill_rating, id))
}

impl View for PlayerPool {
    type V = Map<u128, Player>;

    /// The players in the pool, by identifier.
    closed spec fn view(&self) -> Map<u128, Player> {
        primary::players_in(self.primary)
    }
}

/// The position of the first key that is not below `key`.
fn lower_bound(index: &Vec<(u32, u128)>, key: (u32, u128)) -> (position: usize)
    requires
        forall|i: int, j: int|
            0 <= i < j < index@.len() ==> scan::key_lt(#[trigger] index@[i], #[trigger] index@[j]),
    ensures
        position <= index@.len(),
        forall|i: int| 0 <= i < position ==> scan::key_lt(#[trigger] index@[i], key),
        forall|i: int| position <= i < index@.len() ==> !scan::key_lt(#[trigger] index@[i], key),
{
    let mut low: usize = 0;
    let mut high: usize = index.len();
    while low < high
        invariant
            low <= high <= index@.len(),
            forall|i: int, j: int|
                0 <= i < j < index@.len() ==> scan::key_lt(#[trigger] index@[i], #[trigger] index@[j]),
            forall|i: int| 0 <= i < low ==> scan::key_lt(#[trigger] index@[i], key),
            forall|i: int| high <= i < index@.len() ==> !scan::key_lt(#[trigger] index@[i], key),
        decreases high - low,
    {
        let middle: usize = low + (high - low) / 2;
        let entry = index[middle];
        if entry.0 < key.0 || entry.0 == key.0 && entry.1 < key.1 {
            low = middle + 1;
        } else {
            high = middle;
        }
    }
    low
}

/// Put a key into the index, unless it is there.
fn index_insert(index: &mut Vec<(u32, u128)>, key: (u32, u128))
    requires
        forall|i: int, j: int|
            0 <= i < j < old(index)@.len() ==> scan::key_lt(
                #[trigger] old(index)@[i],
                #[trigger] old(index)@[j],
            ),
    ensures
        forall|i: int, j: int|
            0 <= i < j < final(index)@.len() ==> scan::key_lt(
                #[trigger] final(index)@[i],
                #[trigger] final(index)@[j],
            ),
        forall|k: (u32, u128)| #[trigger]
            final(index)@.contains(k) <==> old(index)@.contains(k) || k == key,
{
    let position: usize = lower_bound(index, key);
    let ghost before = index@;
    if position == index.len() || index[position].0 != key.0 || index[position].1 != key.1 {
        index.insert(position, key);
        proof {
            assert forall|k: (u32, u128)| #[trigger] index@.contains(k) <==> before.contains(k)
                || k == key by {
                if before.contains(k) {
                    let i = choose|i: int| 0 <= i < before.len() && before[i] == k;
                    assert(index@[if i < position { i } else { i + 1 }] == k);
                }
                if k == key {
                    assert(index@[position as int] == k);
                }
            }
            assert forall|i: int, j: int| 0 <= i < j < index@.len() implies scan::key_lt(
                #[trigger] index@[i],
                #[trigger] index@[j],
            ) by {
                let a = if i < position { i } else { i - 1 };
                let b = if j < position { j } else { j - 1 };
                if i != position {
                    assert(index@[i] == before[a]);
                }
                if j != position {
                    assert(index@[j] == before[b]);
                }
                if position < before.len() && j > position && i == position {
                    assert(!scan::key_lt(before[position as int], key));
                }
            }
        }
    } else {
        assert(index@[position as int] == key);
    }
}

/// Take a key out of the index, if it is there.
fn index_remove(index: &mut Vec<(u32, u128)>, key: (u32, u128))
    requires
        forall|i: int, j: int|
            0 <= i < j < old(index)@.len() ==> scan::key_lt(
                #[trigger] old(index)@[i],
                #[trigger] old(index)@[j],
            ),
    ensures
        forall|i: int, j: int|
            0 <= i < j < final(index)@.len() ==> scan::key_lt(
                #[trigger] final(index)@[i],
                #[trigger] final(index)@[j],
            ),
        forall|k: (u32, u128)| #[trigger]
            final(index)@.contains(k) <==> old(index)@.contains(k) && k != key,
{
    let position: usize = lower_bound(index, key);
    let ghost before = index@;
    if position < index.len() && index[position].0 == key.0 && index[position].1 == key.1 {
        let _removed = index.remove(position);
        proof {
            assert forall|k: (u32, u128)| #[trigger] index@.contains(k) <==> before.contains(k)
                && k != key by {
                if before.contains(k) && k != key {
                    let i = choose|i: int| 0 <= i < before.len() && before[i] == k;
                    assert(index@[if i < position { i } else { i - 1 }] == k);
                }
                if index@.contains(k) {
                    let i = choose|i: int| 0 <= i < index@.len() && index@[i] == k;
                    assert(before[if i < position { i } else { i + 1 }] == k);
                    assert(before[position as int] == key);
                }
            }
        }
    } else {
        proof {
            assert forall|k: (u32, u128)| before.contains(k) implies k != key by {
                let i = choose|i: int| 0 <= i < before.len() && before[i] == k;
                if k == key {
                    assert(!scan::key_lt(before[position as int], key));
                    assert(before[i] == key);
                }
            }
        }
    }
}

impl PlayerPool {
    /// The players are consistent, and the index is in step with them.
    pub closed spec fn wf(self) -> bool {
        consistent(self@) && indexes(self.index@, self@)
    }

    /// The players of a well-formed pool are consistent.
    pub proof fn lemma_wf_is_consistent(self)
        requires
            self.wf(),
        ensures
            consistent(self@),
    {
    }

    /// An empty pool.
    pub fn new() -> (pool: Self)
        ensures
            pool.wf(),
            pool@ == Map::<u128, Player>::empty(),
    {
        let pool = PlayerPool { primary: new_map(), index: Vec::new() };
        assert(pool@ =~= Map::<u128, Player>::empty());
        pool
    }

    /// Put a player into the pool. A player with the same identifier is replaced.
    pub fn insert(&mut self, player: Player)
        requires
            old(self).wf(),
            player.wf(),
        ensures
            final(self).wf(),
            final(self)@ == old(self)@.insert(player.id, player),
    {
        let ghost before = *self;
        let previous = map_insert(&mut self.primary, player.id, player);
        if let Some(replaced) = previous {
            index_remove(&mut self.index, (replaced.skill_rating, replaced.id));
        }
        index_insert(&mut self.index, (player.skill_rating, player.id));
        proof {
            lemma_index_after_insert(before.index@, self.index@, before@, self@, player);
        }
    }

    /// Take a player out of the pool and return it; `None` if it is not there.
    pub fn remove(&mut self, id: &u128) -> (removed: Option<Player>)
        requires
            old(self).wf(),
        ensures
            final(self).wf(),
            final(self)@ == old(self)@.remove(*id),
            removed == if old(self)@.contains_key(*id) {
                Some(old(self)@[*id])
            } else {
                None
            },
    {
        let ghost before = *self;
        let removed = map_remove(&mut self.primary, id);
        if let Some(player) = removed {
            index_remove(&mut self.index, (player.skill_rating, player.id));
            proof {
                lemma_index_after_remove(before.index@, self.index@, before@, self@, player);
            }
        } else {
            assert(self@ =~= before@);
        }
        removed
    }
}

proof fn lemma_index_after_insert(
    index: Seq<(u32, u128)>,
    next: Seq<(u32, u128)>,
    players: Map<u128, Player>,
    after: Map<u128, Player>,
    player: Player,
)
    requires
        consistent(players),
        indexes(index, players),
        player.wf(),
        after == players.insert(player.id, player),
        forall|i: int, j: int|
            0 <= i < j < next.len() ==> scan::key_lt(#[trigger] next[i], #[trigger] next[j]),
        forall|k: (u32, u128)| #[trigger]
            next.contains(k) <==> index.contains(k) && !(players.contains_key(player.id) && k
                == scan::key_of(players[player.id])) || k == scan::key_of(player),
    ensures
        consistent(after),
        indexes(next, after),
{
    assert forall|i: int| 0 <= i < next.len() implies after.contains_key((#[trigger] next[i]).1)
        && after[next[i].1].skill_rating == next[i].0 by {
        assert(next.contains(next[i]));
        if next[i] != scan::key_of(player) {
            let k = choose|k: int| 0 <= k < index.len() && index[k] == next[i];
            assert(players.contains_key(index[k].1));
        }
    }
    assert forall|id: u128| #[trigger] after.contains_key(id) implies next.contains(
        (after[id].skill_rating, id),
    ) by {
        if id != player.id {
            assert(players.contains_key(id));
            assert(index.contains((players[id].skill_rating, id)));
        } else {
            assert(next.contains(scan::key_of(player)));
        }
    }
}

proof fn lemma_index_after_remove(
    index: Seq<(u32, u128)>,
    next: Seq<(u32, u128)>,
    players: Map<u128, Player>,
    after: Map<u128, Player>,
    player: Player,
)
    requires
        consistent(players),
        indexes(index, players),
        players.contains_key(player.id),
        players[player.id] == player,
        after == players.remove(player.id),
        forall|i: int, j: int|
            0 <= i < j < next.len() ==> scan::key_lt(#[trigger] next[i], #[trigger] next[j]),
        forall|k: (u32, u128)| #[trigger]
            next.contains(k) <==> index.contains(k) && k != scan::key_of(player),
    ensures
        consistent(after),
        indexes(next, after),
{
    assert forall|i: int| 0 <= i < next.len() implies after.contains_key((#[trigger] next[i]).1)
        && after[next[i].1].skill_rating == next[i].0 by {
        assert(next.contains(next[i]));
        let k = choose|k: int| 0 <= k < index.len() && index[k] == next[i];
        assert(players.contains_key(index[k].1));
    }
    assert forall|id: u128| #[trigger] after.contains_key(id) implies next.contains(
        (after[id].skill_rating, id),
    ) by {
        assert(players.contains_key(id));
        assert(index.contains((players[id].skill_rating, id)));
    }
}

impl PlayerPool {
    /// Scan for waiting players rated in `[min_rating, max_rating]`.
    ///
    /// Returns at most [`MAX_CANDIDATES_PER_SCAN`] players, most senior first; no
    /// player if `min_rating` exceeds `max_rating`.
    pub fn range_scan(&self, min_rating: u32, max_rating: u32) -> (found: Vec<Player>)
        requires
            self.wf(),
        ensures
            scan::is_scan(self@, min_rating, max_rating, found@),
            found@ == scan::scan_of(self@, min_rating, max_rating),
            forall|i: int, j: int|
                0 <= i < j < found@.len() ==> (#[trigger] found@[i]).join_timestamp <= (
                #[trigger] found@[j]).join_timestamp,
    {
        let start: usize = lower_bound(&self.index, (min_rating, 0));
        let mut candidates: Vec<Player> = Vec::new();
        let mut i: usize = start;
        while i < self.index.len() && self.index[i].0 <= max_rating && candidates.len()
            < MAX_CANDIDATES_PER_SCAN
            invariant
                self.wf(),
                start <= i <= self.index@.len(),
                forall|k: int|
                    0 <= k < start ==> scan::key_lt(#[trigger] self.index@[k], (min_rating, 0u128)),
                forall|k: int|
                    start <= k < self.index@.len() ==> !scan::key_lt(
                        #[trigger] self.index@[k],
                        (min_rating, 0u128),
                    ),
                candidates@.len() <= MAX_CANDIDATES_PER_SCAN,
                forall|k: int|
                    0 <= k < candidates@.len() ==> scan::in_range(
                        self@,
                        #[trigger] candidates@[k],
                        min_rating,
                        max_rating,
                    ),
                forall|k: int|
                    0 <= k < candidates@.len() && i < self.index@.len() ==> scan::key_lt(
                        scan::key_of(#[trigger] candidates@[k]),
                        self.index@[i as int],
                    ),
                forall|k: int, m: int|
                    0 <= k < m < candidates@.len() ==> (#[trigger] candidates@[k]).id != (
                    #[trigger] candidates@[m]).id,
                forall|k: int|
                    start <= k < i && self@[(#[trigger] self.index@[k]).1].waiting()
                        ==> candidates@.contains(self@[self.index@[k].1]),
            decreases self.index@.len() - i,
        {
            let ghost before = candidates@;
            proof {
                assert(self@.contains_key(self.index@[i as int].1));
            }
            if let Some(player) = map_get(&self.primary, &self.index[i].1) {
                if player.is_waiting() {
                    candidates.push(player);
                    proof {
                        assert(candidates@[before.len() as int] == player);
                        assert forall|k: int|
                            start <= k < i && self@[(#[trigger] self.index@[k]).1].waiting() implies candidates@.contains(
                        self@[self.index@[k].1]) by {
                            assert(before.contains(self@[self.index@[k].1]));
                            let m = choose|m: int|
                                0 <= m < before.len() && before[m] == self@[self.index@[k].1];
                            assert(candidates@[m] == before[m]);
                        }
                    }
                }
            }
            i = i + 1;
        }
        let found = sort_by_seniority(&candidates);
        proof {
            assert forall|k: int| 0 <= k < found@.len() implies scan::in_range(
                self@,
                #[trigger] found@[k],
                min_rating,
                max_rating,
            ) by {
                assert(found@.contains(found@[k]));
                let m = choose|m: int| 0 <= m < candidates@.len() && candidates@[m] == found@[k];
                assert(scan::in_range(self@, candidates@[m], min_rating, max_rating));
            }
            assert forall|player: Player| #[trigger]
                scan::in_range(self@, player, min_rating, max_rating) && !found@.contains(player) implies found@.len()
                == MAX_CANDIDATES_PER_SCAN && forall|k: int|
                0 <= k < found@.len() ==> scan::key_lt(scan::key_of(#[trigger] found@[k]), scan::key_of(player)) by {
                assert(self@.contains_key(player.id));
                assert(self.index@.contains((player.skill_rating, player.id)));
                let position = choose|position: int|
                    0 <= position < self.index@.len() && self.index@[position] == scan::key_of(player);
                assert(start <= position);
                assert(i <= position);
                assert(found@.len() == MAX_CANDIDATES_PER_SCAN);
                assert forall|k: int| 0 <= k < found@.len() implies scan::key_lt(
                    scan::key_of(#[trigger] found@[k]),
                    scan::key_of(player),
                ) by {
                    assert(found@.contains(found@[k]));
                    let m = choose|m: int|
                        0 <= m < candidates@.len() && candidates@[m] == found@[k];
                    assert(scan::key_lt(scan::key_of(candidates@[m]), self.index@[i as int]));
                }
            }
            assert(scan::is_scan(self@, min_rating, max_rating, found@));
            scan::law_scan_is_determined(
                self@,
                min_rating,
                max_rating,
                found@,
                scan::scan_of(self@, min_rating, max_rating),
            );
            assert forall|k: int, m: int| 0 <= k < m < found@.len() implies (
            #[trigger] found@[k]).join_timestamp <= (#[trigger] found@[m]).join_timestamp by {
                assert(scan::senior(found@[k], found@[m]));
            }
        }
        found
    }

    /// The most senior player that may seed a match.
    fn oldest_eligible(&self, excluded: Option<(u32, u32)>) -> (oldest: Option<Player>)
        requires
            self.wf(),
        ensures
            scan::is_oldest(self@, excluded, oldest),
            oldest == scan::oldest_of(self@, excluded),
    {
        let entries = map_entries(&self.primary);
        let mut oldest: Option<Player> = None;
        let mut i: usize = 0;
        while i < entries.len()
            invariant
                self.wf(),
                i <= entries@.len(),
                forall|k: int|
                    0 <= k < entries@.len() ==> self@.contains_key((#[trigger] entries@[k]).0)
                        && self@[entries@[k].0] == entries@[k].1,
                oldest matches Some(p) ==> self@.contains_key(p.id) && self@[p.id] == p && scan::eligible(
                    p,
                    excluded,
                ),
                forall|k: int|
                    0 <= k < i && scan::eligible((#[trigger] entries@[k]).1, excluded) ==> oldest is Some
                        && (oldest->0.id == entries@[k].0 || scan::senior(oldest->0, entries@[k].1)),
            decreases entries@.len() - i,
        {
            let player = entries[i].1;
            assert(self@.contains_key(entries@[i as int].0));
            let outside: bool = match excluded {
                Some((min_rating, max_rating)) => !(player.skill_rating >= min_rating
                    && player.skill_rating <= max_rating),
                None => true,
            };
            if player.is_waiting() && outside {
                oldest =
                match oldest {
                    Some(best) => if is_senior(&player, &best) {
                        Some(player)
                    } else {
                        Some(best)
                    },
                    None => Some(player),
                };
            }
            i = i + 1;
        }
        proof {
            assert forall|id: u128| #[trigger] self@.contains_key(id) && scan::eligible(
                self@[id],
                excluded,
            ) implies oldest is Some && (oldest->0.id == id || scan::senior(oldest->0, self@[id])) by {
                let k = choose|k: int| 0 <= k < entries@.len() && (#[trigger] entries@[k]).0 == id;
                assert(scan::eligible(entries@[k].1, excluded));
            }
            assert(scan::is_oldest(self@, excluded, oldest));
            scan::law_oldest_is_determined(self@, excluded, oldest, scan::oldest_of(self@, excluded));
        }
        oldest
    }

    /// The most senior waiting player; `None` if no player is waiting.
    pub fn oldest_waiting(&self) -> (oldest: Option<Player>)
        requires
            self.wf(),
        ensures
            scan::is_oldest(self@, None, oldest),
            oldest == scan::oldest_of(self@, None),
            oldest matches Some(first) ==> forall|id: u128| #[trigger]
                self@.contains_key(id) && self@[id].state == player_state::WAITING
                    ==> first.join_timestamp <= self@[id].join_timestamp,
    {
        self.oldest_eligible(None)
    }

    /// The most senior waiting player rated outside `[exclude_min, exclude_max]`;
    /// `None` if there is none.
    pub fn oldest_waiting_excluding_range(&self, exclude_min: u32, exclude_max: u32) -> (oldest:
        Option<Player>)
        requires
            self.wf(),
        ensures
            scan::is_oldest(self@, Some((exclude_min, exclude_max)), oldest),
            oldest == scan::oldest_of(self@, Some((exclude_min, exclude_max))),
    {
        self.oldest_eligible(Some((exclude_min, exclude_max)))
    }

    /// All players in the pool, each once, in no particular order.
    pub fn all_players(&self) -> (players: Vec<Player>)
        requires
            self.wf(),
        ensures
            forall|i: int|
                0 <= i < players@.len() ==> self@.contains_key((#[trigger] players@[i]).id)
                    && self@[players@[i].id] == players@[i],
            forall|i: int, j: int|
                0 <= i < j < players@.len() ==> (#[trigger] players@[i]).id != (
                #[trigger] players@[j]).id,
            forall|id: u128| #[trigger]
                self@.contains_key(id) ==> players@.contains(self@[id]),
    {
        let entries = map_entries(&self.primary);
        let mut players: Vec<Player> = Vec::new();
        let mut i: usize = 0;
        while i < entries.len()
            invariant
                i <= entries@.len(),
                players@.len() == i,
                forall|k: int| 0 <= k < i ==> #[trigger] players@[k] == entries@[k].1,
            decreases entries@.len() - i,
        {
            players.push(entries[i].1);
            i = i + 1;
        }
        proof {
            assert forall|k: int| 0 <= k < players@.len() implies (#[trigger] players@[k]).id
                == entries@[k].0 by {
                assert(self@.contains_key(entries@[k].0));
            }
            assert forall|id: u128| #[trigger] self@.contains_key(id) implies players@.contains(
                self@[id],
            ) by {
                let k = choose|k: int| 0 <= k < entries@.len() && (#[trigger] entries@[k]).0 == id;
                assert(players@[k] == self@[id]);
            }
        }
        players
    }

    /// The number of players in the pool, whatever their state.
    pub fn len(&self) -> (count: usize)
        requires
            self.wf(),
        ensures
            count == self@.dom().len(),
    {
        map_len(&self.primary)
    }

    /// Whether the pool holds no player.
    pub fn is_empty(&self) -> (empty: bool)
        requires
            self.wf(),
        ensures
            empty == (self@ == Map::<u128, Player>::empty()),
    {
        let empty = map_is_empty(&self.primary);
        proof {
            if empty {
                assert(self@.dom() =~= Set::<u128>::empty());
                assert(self@ =~= Map::<u128, Player>::empty());
            }
        }
        empty
    }

    /// Whether a player is in the pool.
    pub fn contains(&self, id: &u128) -> (present: bool)
        ensures
            present == self@.contains_key(*id),
    {
        map_contains(&self.primary, id)
    }

    /// Look a player up; `None` if it is not in the pool.
    pub fn get(&self, id: &u128) -> (found: Option<Player>)
        ensures
            found == if self@.contains_key(*id) {
                Some(self@[*id])
            } else {
                None
            },
    {
        map_get(&self.primary, id)
    }

    /// Store the new state of a player whose rating is unchanged.
    fn update(&mut self, player: Player)
        requires
            old(self).wf(),
            player.wf(),
            old(self)@.contains_key(player.id),
            old(self)@[player.id].skill_rating == player.skill_rating,
        ensures
            final(self).wf(),
            final(self)@ == old(self)@.insert(player.id, player),
    {
        let _previous = map_insert(&mut self.primary, player.id, player);
        proof {
            let before = old(self)@;
            assert forall|id: u128| #[trigger] self@.contains_key(id) implies self.index@.contains(
                (self@[id].skill_rating, id),
            ) by {
                assert(before.contains_key(id));
            }
            assert forall|id: u128| #[trigger] self@.contains_key(id) implies self@[id].id == id
                && self@[id].wf() by {
                assert(before.contains_key(id));
            }
        }
    }

    /// Claim a player in the pool for a worker.
    ///
    /// Succeeds exactly if the player is in the pool and waiting; otherwise
    /// nothing changes.
    pub fn try_claim(&mut self, id: &u128, worker_id: u64, now_ms: u64) -> (won: bool)
        requires
            old(self).wf(),
        ensures
            final(self).wf(),
            won == (old(self)@.contains_key(*id) && old(self)@[*id].waiting()),
            final(self)@ == if won {
                old(self)@.insert(*id, old(self)@[*id].claimed(worker_id, now_ms))
            } else {
                old(self)@
            },
    {
        match self.get(id) {
            Some(found) => {
                let mut player = found;
                if player.try_claim(worker_id, now_ms) {
                    self.update(player);
                    true
                } else {
                    false
                }
            },
            None => false,
        }
    }

    /// Release the claim on a player in the pool.
    pub fn release_claim(&mut self, id: &u128)
        requires
            old(self).wf(),
        ensures
            final(self).wf(),
            final(self)@ == if old(self)@.contains_key(*id) {
                old(self)@.insert(*id, old(self)@[*id].after_release())
            } else {
                old(self)@
            },
    {
        if let Some(found) = self.get(id) {
            let mut player = found;
            player.release_claim();
            self.update(player);
        }
    }

    /// Mark a player in the pool as matched at `now`.
    pub fn mark_matched_at(&mut self, id: &u128, now: u64)
        requires
            old(self).wf(),
        ensures
            final(self).wf(),
            final(self)@ == if old(self)@.contains_key(*id) {
                old(self)@.insert(*id, old(self)@[*id].after_match(now))
            } else {
                old(self)@
            },
    {
        if let Some(found) = self.get(id) {
            let mut player = found;
            player.mark_matched_at(now);
            self.update(player);
        }
    }

    /// Evict a player in the pool. Succeeds exactly if the player is in the pool
    /// and waiting; otherwise nothing changes.
    pub fn try_evict(&mut self, id: &u128) -> (evicted: bool)
        requires
            old(self).wf(),
        ensures
            final(self).wf(),
            evicted == (old(self)@.contains_key(*id) && old(self)@[*id].waiting()),
            final(self)@ == if evicted {
                old(self)@.insert(*id, old(self)@[*id].after_evict())
            } else {
                old(self)@
            },
    {
        match self.get(id) {
            Some(found) => {
                let mut player = found;
                if player.try_evict() {
                    self.update(player);
                    true
                } else {
                    false
                }
            },
            None => false,
        }
    }
}

impl Default for PlayerPool {
    /// An empty pool.
    fn default() -> (pool: Self)
        ensures
            pool.wf(),
            pool@ == Map::<u128, Player>::empty(),
    {
        PlayerPool::new()
    }
}

} // verus!

//! The order of players: what a scan of the pool returns, and who is the most
//! senior.

use vstd::prelude::*;

use crate::engine::bucket;
use crate::engine::bucket::MAX_CANDIDATES_PER_SCAN;
use crate::models::{player_state, Player};

verus! {

/// The order of the rating index.
pub open spec fn key_lt(a: (u32, u128), b: (u32, u128)) -> bool {
    a.0 < b.0 || a.0 == b.0 && a.1 < b.1
}

/// The key of a player in the rating index.
pub open spec fn key_of(player: Player) -> (u32, u128) {
    (player.skill_rating, player.id)
}

/// The order of seniority: join time, then rating, then identifier.
pub open spec fn senior(a: Player, b: Player) -> bool {
    ||| a.join_timestamp < b.join_timestamp
    ||| a.join_timestamp == b.join_timestamp && key_lt(key_of(a), key_of(b))
}

/// A player that a scan of `[min_rating, max_rating]` may return: in the pool,
/// waiting, and rated in the range.
pub open spec fn in_range(
    players: Map<u128, Player>,
    player: Player,
    min_rating: u32,
    max_rating: u32,
) -> bool {
    &&& players.contains_key(player.id)
    &&& players[player.id] == player
    &&& player.waiting()
    &&& min_rating <= player.skill_rating <= max_rating
}

/// The list is in strict order of seniority.
pub open spec fn by_seniority(list: Seq<Player>) -> bool {
    forall|i: int, j: int| 0 <= i < j < list.len() ==> senior(#[trigger] list[i], #[trigger] list[j])
}

/// What a scan of `[min_rating, max_rating]` returns: the waiting players in
/// the range, most senior first. If there are more than
/// [`MAX_CANDIDATES_PER_SCAN`], it is that many, and those left out come later
/// in the order of `(skill_rating, id)`.
pub open spec fn is_scan(
    players: Map<u128, Player>,
    min_rating: u32,
    max_rating: u32,
    found: Seq<Player>,
) -> bool {
    &&& by_seniority(found)
    &&& found.len() <= MAX_CANDIDATES_PER_SCAN
    &&& forall|i: int|
        0 <= i < found.len() ==> in_range(players, #[trigger] found[i], min_rating, max_rating)
    &&& forall|player: Player| #[trigger]
        in_range(players, player, min_rating, max_rating) && !found.contains(player)
            ==> found.len() == MAX_CANDIDATES_PER_SCAN && forall|i: int|
            0 <= i < found.len() ==> key_lt(key_of(#[trigger] found[i]), key_of(player))
}

/// A list in order of seniority, with one more player in its place.
pub open spec fn placed(list: Seq<Player>, player: Player) -> Seq<Player>
    decreases list.len(),
{
    if list.len() == 0 || senior(list.last(), player) {
        list.push(player)
    } else {
        placed(list.drop_last(), player).push(list.last())
    }
}

/// What a scan found, with the seed it was made for: if the scan is full and has
/// left the seed out, the seed takes the place of the least senior player found.
pub open spec fn with_seed(found: Seq<Player>, seed: Player) -> Seq<Player> {
    if found.contains(seed) {
        found
    } else if found.len() < MAX_CANDIDATES_PER_SCAN {
        placed(found, seed)
    } else {
        placed(found.drop_last(), seed)
    }
}

/// Whether a player may seed a match, given a range of ratings to stay out of.
pub open spec fn eligible(player: Player, excluded: Option<(u32, u32)>) -> bool {
    player.waiting() && match excluded {
        Some((min_rating, max_rating)) => !(min_rating <= player.skill_rating <= max_rating),
        None => true,
    }
}

/// The most senior eligible player; `None` if no player is eligible.
pub open spec fn is_oldest(
    players: Map<u128, Player>,
    excluded: Option<(u32, u32)>,
    found: Option<Player>,
) -> bool {
    match found {
        Some(oldest) => {
            &&& players.contains_key(oldest.id)
            &&& players[oldest.id] == oldest
            &&& eligible(oldest, excluded)
            &&& forall|id: u128| #[trigger]
                players.contains_key(id) && eligible(players[id], excluded) && id != oldest.id
                    ==> senior(oldest, players[id])
        },
        None => forall|id: u128| #[trigger]
            players.contains_key(id) ==> !eligible(players[id], excluded),
    }
}

/// What a scan of `[min_rating, max_rating]` returns; see [`is_scan`].
pub open spec fn scan_of(players: Map<u128, Player>, min_rating: u32, max_rating: u32) -> Seq<
    Player,
> {
    choose|found: Seq<Player>| is_scan(players, min_rating, max_rating, found)
}

/// The most senior eligible player; see [`is_oldest`].
pub open spec fn oldest_of(players: Map<u128, Player>, excluded: Option<(u32, u32)>) -> Option<
    Player,
> {
    choose|found: Option<Player>| is_oldest(players, excluded, found)
}

/// Whether `a` comes before `b` in the order of seniority.
pub(crate) fn is_senior(a: &Player, b: &Player) -> (before: bool)
    ensures
        before == senior(*a, *b),
{
    if a.join_timestamp != b.join_timestamp {
        a.join_timestamp < b.join_timestamp
    } else if a.skill_rating != b.skill_rating {
        a.skill_rating < b.skill_rating
    } else {
        a.id < b.id
    }
}

/// Order players by seniority.
pub(crate) fn sort_by_seniority(list: &Vec<Player>) -> (sorted: Vec<Player>)
    requires
        forall|i: int, j: int|
            0 <= i < j < list@.len() ==> (#[trigger] list@[i]).id != (#[trigger] list@[j]).id,
    ensures
        by_seniority(sorted@),
        sorted@.len() == list@.len(),
        forall|player: Player| #[trigger] sorted@.contains(player) <==> list@.contains(player),
{
    let mut sorted: Vec<Player> = Vec::new();
    let mut n: usize = 0;
    while n < list.len()
        invariant
            n <= list@.len(),
            forall|i: int, j: int|
                0 <= i < j < list@.len() ==> (#[trigger] list@[i]).id != (#[trigger] list@[j]).id,
            by_seniority(sorted@),
            sorted@.len() == n,
            forall|player: Player| #[trigger]
                sorted@.contains(player) <==> list@.take(n as int).contains(player),
        decreases list@.len() - n,
    {
        let player = list[n];
        let ghost before = sorted@;
        let mut k: usize = sorted.len();
        while k > 0 && is_senior(&player, &sorted[k - 1])
            invariant
                k <= sorted@.len(),
                by_seniority(sorted@),
                forall|i: int| k <= i < sorted@.len() ==> senior(player, #[trigger] sorted@[i]),
            decreases k,
        {
            k = k - 1;
        }
        sorted.insert(k, player);
        proof {
            assert forall|i: int| 0 <= i < k implies senior(#[trigger] before[i], player) by {
                assert(!senior(player, before[k - 1]));
                assert(before.contains(before[k - 1]));
                let m = choose|m: int| 0 <= m < n && list@.take(n as int)[m] == before[k - 1];
                assert(list@[m].id != list@[n as int].id);
                assert(senior(before[k - 1], player));
                if i < k - 1 {
                    assert(senior(before[i], before[k - 1]));
                }
            }
            assert forall|i: int, j: int| 0 <= i < j < sorted@.len() implies senior(
                #[trigger] sorted@[i],
                #[trigger] sorted@[j],
            ) by {
                if i != k {
                    assert(sorted@[i] == before[if i < k { i } else { i - 1 }]);
                }
                if j != k {
                    assert(sorted@[j] == before[if j < k { j } else { j - 1 }]);
                }
            }
            let taken = list@.take(n as int);
            let next = list@.take(n + 1);
            assert forall|p: Player| #[trigger] sorted@.contains(p) <==> next.contains(p) by {
                if sorted@.contains(p) {
                    let i = choose|i: int| 0 <= i < sorted@.len() && sorted@[i] == p;
                    if i != k {
                        let a = if i < k { i } else { i - 1 };
                        assert(before[a] == p);
                        assert(before.contains(p));
                        let m = choose|m: int| 0 <= m < n && taken[m] == p;
                        assert(next[m] == p);
                    } else {
                        assert(next[n as int] == p);
                    }
                }
                if next.contains(p) {
                    let m = choose|m: int| 0 <= m < n + 1 && next[m] == p;
                    if m == n {
                        assert(sorted@[k as int] == p);
                    } else {
                        assert(taken[m] == p);
                        assert(before.contains(p));
                        let i = choose|i: int| 0 <= i < before.len() && before[i] == p;
                        assert(sorted@[if i < k { i } else { i + 1 }] == p);
                    }
                }
            }
        }
        n = n + 1;
    }
    assert(list@.take(n as int) =~= list@);
    sorted
}

/// Put the seed of a scan among the players that the scan found; see
/// [`with_seed`].
pub(crate) fn include_seed(found: Vec<Player>, seed: &Player) -> (candidates: Vec<Player>)
    ensures
        candidates@ == with_seed(found@, *seed),
{
    let mut candidates = found;
    let mut i: usize = 0;
    while i < candidates.len()
        invariant
            candidates@ == found@,
            i <= candidates@.len(),
            forall|k: int| 0 <= k < i ==> candidates@[k] != *seed,
        decreases candidates@.len() - i,
    {
        if candidates[i] == *seed {
            assert(found@[i as int] == *seed);
            return candidates;
        }
        i = i + 1;
    }
    assert(!found@.contains(*seed));
    if candidates.len() >= MAX_CANDIDATES_PER_SCAN {
        let _least = candidates.pop();
        assert(candidates@ =~= found@.drop_last());
    }
    let ghost list = candidates@;
    let mut place: usize = candidates.len();
    assert(list.take(place as int) =~= list);
    assert(placed(list, *seed) =~= placed(list, *seed) + list.skip(place as int));
    while place > 0 && !is_senior(&candidates[place - 1], seed)
        invariant
            candidates@ == list,
            place <= list.len(),
            placed(list, *seed) == placed(list.take(place as int), *seed) + list.skip(place as int),
        decreases place,
    {
        proof {
            let longer = list.take(place as int);
            let shorter = list.take(place - 1);
            assert(longer.drop_last() =~= shorter);
            assert(placed(shorter, *seed).push(list[place - 1]) + list.skip(place as int) =~= placed(
                shorter,
                *seed,
            ) + list.skip(place - 1));
        }
        place = place - 1;
    }
    candidates.insert(place, *seed);
    assert(candidates@ =~= list.take(place as int).push(*seed) + list.skip(place as int));
    candidates
}

/// A player has a place in a list in which nobody has its identifier.
proof fn lemma_placed(list: Seq<Player>, player: Player)
    requires
        by_seniority(list),
        forall|i: int| 0 <= i < list.len() ==> (#[trigger] list[i]).id != player.id,
    ensures
        by_seniority(placed(list, player)),
        placed(list, player).len() == list.len() + 1,
        forall|p: Player| #[trigger]
            placed(list, player).contains(p) <==> list.contains(p) || p == player,
    decreases list.len(),
{
    let longer = placed(list, player);
    if list.len() == 0 || senior(list.last(), player) {
        assert forall|i: int, j: int| 0 <= i < j < longer.len() implies senior(
            #[trigger] longer[i],
            #[trigger] longer[j],
        ) by {
            if j == list.len() && i < list.len() - 1 {
                assert(senior(list[i], list[list.len() - 1]));
            }
        }
        assert forall|p: Player| #[trigger] longer.contains(p) <==> list.contains(p) || p
            == player by {
            lemma_contains_push(list, player, p);
        }
    } else {
        let before = list.drop_last();
        let last = list[list.len() - 1];
        assert forall|i: int| 0 <= i < before.len() implies (#[trigger] before[i]).id
            != player.id by {
            assert(list[i].id != player.id);
        }
        lemma_placed(before, player);
        let shorter = placed(before, player);
        assert forall|i: int, j: int| 0 <= i < j < longer.len() implies senior(
            #[trigger] longer[i],
            #[trigger] longer[j],
        ) by {
            if j == shorter.len() {
                assert(shorter.contains(shorter[i]));
                if shorter[i] != player {
                    let k = choose|k: int| 0 <= k < before.len() && before[k] == shorter[i];
                    assert(senior(list[k], list[list.len() - 1]));
                }
            }
        }
        assert forall|p: Player| #[trigger] longer.contains(p) <==> list.contains(p) || p
            == player by {
            lemma_contains_push(shorter, last, p);
            lemma_contains_push(before, last, p);
            assert(before.push(last) =~= list);
        }
    }
}

/// The seed and the players of a scan make a list in order of seniority that
/// holds the seed, keeps to the cap, and has nobody else in it.
pub(crate) proof fn lemma_with_seed(
    players: Map<u128, Player>,
    min_rating: u32,
    max_rating: u32,
    found: Seq<Player>,
    seed: Player,
)
    requires
        is_scan(players, min_rating, max_rating, found),
        players.contains_key(seed.id),
        players[seed.id] == seed,
    ensures
        by_seniority(with_seed(found, seed)),
        with_seed(found, seed).contains(seed),
        found.len() <= with_seed(found, seed).len() <= MAX_CANDIDATES_PER_SCAN,
        forall|p: Player| #[trigger]
            with_seed(found, seed).contains(p) ==> found.contains(p) || p == seed,
        found.len() < MAX_CANDIDATES_PER_SCAN && in_range(players, seed, min_rating, max_rating)
            ==> with_seed(found, seed) == found,
{
    if !found.contains(seed) {
        let kept = if found.len() < MAX_CANDIDATES_PER_SCAN {
            found
        } else {
            found.drop_last()
        };
        assert forall|i: int| 0 <= i < kept.len() implies (#[trigger] kept[i]).id != seed.id by {
            assert(found[i] == kept[i]);
            assert(in_range(players, found[i], min_rating, max_rating));
            assert(found.contains(found[i]));
        }
        lemma_placed(kept, seed);
        assert forall|p: Player| #[trigger] with_seed(found, seed).contains(p) implies found.contains(
            p,
        ) || p == seed by {
            if kept.contains(p) {
                let k = choose|k: int| 0 <= k < kept.len() && kept[k] == p;
                assert(found[k] == p);
            }
        }
    }
}

proof fn lemma_seniority_has_no_duplicates(list: Seq<Player>)
    requires
        by_seniority(list),
    ensures
        list.no_duplicates(),
        list.to_set().finite(),
        list.to_set().len() == list.len(),
{
    assert forall|i: int, j: int| 0 <= i < list.len() && 0 <= j < list.len() && i != j implies list[i]
        != list[j] by {
        if i < j {
            assert(senior(list[i], list[j]));
        } else {
            assert(senior(list[j], list[i]));
        }
    }
    list.unique_seq_to_set();
}

proof fn lemma_seniority_determines_order(a: Seq<Player>, b: Seq<Player>)
    requires
        by_seniority(a),
        by_seniority(b),
        forall|player: Player| #[trigger] a.contains(player) <==> b.contains(player),
    ensures
        a == b,
    decreases a.len(),
{
    if a.len() == 0 {
        if b.len() > 0 {
            assert(b.contains(b[0]));
            assert(a.contains(b[0]));
        }
        assert(a =~= b);
    } else {
        assert(a.contains(a.last()));
        assert(b.contains(a.last()));
        let j = choose|j: int| 0 <= j < b.len() && b[j] == a.last();
        assert(b.contains(b.last()));
        assert(a.contains(b.last()));
        let k = choose|k: int| 0 <= k < a.len() && a[k] == b.last();
        if j < b.len() - 1 {
            assert(senior(b[j], b[b.len() - 1]));
            if k < a.len() - 1 {
                assert(senior(a[k], a[a.len() - 1]));
            }
        }
        let a2 = a.drop_last();
        let b2 = b.drop_last();
        assert forall|player: Player| #[trigger] a2.contains(player) <==> b2.contains(player) by {
            if a2.contains(player) {
                let m = choose|m: int| 0 <= m < a2.len() && a2[m] == player;
                assert(senior(a[m], a[a.len() - 1]));
                assert(a.contains(player));
                let n = choose|n: int| 0 <= n < b.len() && b[n] == player;
                assert(b2[n] == player);
            }
            if b2.contains(player) {
                let m = choose|m: int| 0 <= m < b2.len() && b2[m] == player;
                assert(senior(b[m], b[b.len() - 1]));
                assert(b[m] == player);
                assert(a.contains(player));
                let n = choose|n: int| 0 <= n < a.len() && a[n] == player;
                assert(a2[n] == player);
            }
        }
        lemma_seniority_determines_order(a2, b2);
        assert(a =~= a2.push(a.last()));
        assert(b =~= b2.push(b.last()));
    }
}

proof fn lemma_scan_is_covered(
    players: Map<u128, Player>,
    min_rating: u32,
    max_rating: u32,
    a: Seq<Player>,
    b: Seq<Player>,
    player: Player,
)
    requires
        is_scan(players, min_rating, max_rating, a),
        is_scan(players, min_rating, max_rating, b),
        a.contains(player),
    ensures
        b.contains(player),
{
    if !b.contains(player) {
        let p = choose|p: int| 0 <= p < a.len() && a[p] == player;
        assert(in_range(players, a[p], min_rating, max_rating));
        assert forall|x: Player| b.to_set().insert(player).contains(x) implies a.to_set().contains(
            x,
        ) by {
            if x != player {
                let i = choose|i: int| 0 <= i < b.len() && b[i] == x;
                assert(in_range(players, b[i], min_rating, max_rating));
                assert(key_lt(key_of(b[i]), key_of(player)));
                if !a.contains(x) {
                    assert(key_lt(key_of(a[p]), key_of(x)));
                }
            }
        }
        lemma_seniority_has_no_duplicates(a);
        lemma_seniority_has_no_duplicates(b);
        assert(!b.to_set().contains(player));
        vstd::set_lib::lemma_len_subset(b.to_set().insert(player), a.to_set());
    }
}

/// What a scan returns is fixed by the players in the pool and the range.
pub proof fn law_scan_is_determined(
    players: Map<u128, Player>,
    min_rating: u32,
    max_rating: u32,
    a: Seq<Player>,
    b: Seq<Player>,
)
    requires
        is_scan(players, min_rating, max_rating, a),
        is_scan(players, min_rating, max_rating, b),
    ensures
        a == b,
{
    assert forall|player: Player| #[trigger] a.contains(player) <==> b.contains(player) by {
        if a.contains(player) {
            lemma_scan_is_covered(players, min_rating, max_rating, a, b, player);
        }
        if b.contains(player) {
            lemma_scan_is_covered(players, min_rating, max_rating, b, a, player);
        }
    }
    lemma_seniority_determines_order(a, b);
}

/// Which player is the most senior is fixed by the players in the pool.
pub proof fn law_oldest_is_determined(
    players: Map<u128, Player>,
    excluded: Option<(u32, u32)>,
    a: Option<Player>,
    b: Option<Player>,
)
    requires
        is_oldest(players, excluded, a),
        is_oldest(players, excluded, b),
    ensures
        a == b,
{
    if a is Some {
        assert(players.contains_key(a->0.id));
    }
    if b is Some {
        assert(players.contains_key(b->0.id));
    }
}

/// The longest-waiting player leads the candidates of every scan that it seeds.
pub proof fn law_oldest_leads_its_candidates(
    players: Map<u128, Player>,
    oldest: Player,
    min_rating: u32,
    max_rating: u32,
    found: Seq<Player>,
)
    requires
        is_oldest(players, None, Some(oldest)),
        is_scan(players, min_rating, max_rating, found),
    ensures
        with_seed(found, oldest).len() > 0,
        with_seed(found, oldest)[0] == oldest,
{
    let candidates = with_seed(found, oldest);
    lemma_with_seed(players, min_rating, max_rating, found, oldest);
    let k = choose|k: int| 0 <= k < candidates.len() && candidates[k] == oldest;
    if k > 0 {
        let first = candidates[0];
        assert(senior(candidates[0], candidates[k]));
        assert(candidates.contains(first));
        let m = choose|m: int| 0 <= m < found.len() && found[m] == first;
        assert(in_range(players, found[m], min_rating, max_rating));
        assert(players.contains_key(first.id));
    }
}

/// A scan finds all waiting players in its range unless it is full.
pub proof fn law_scan_is_complete(
    players: Map<u128, Player>,
    min_rating: u32,
    max_rating: u32,
    found: Seq<Player>,
    id: u128,
)
    requires
        bucket::consistent(players),
        is_scan(players, min_rating, max_rating, found),
        found.len() < MAX_CANDIDATES_PER_SCAN,
        players.contains_key(id),
        players[id].waiting(),
        min_rating <= players[id].skill_rating <= max_rating,
    ensures
        found.contains(players[id]),
{
    assert(in_range(players, players[id], min_rating, max_rating));
}

/// A list is in strict order.
spec fn strictly(list: Seq<Player>, order: spec_fn(Player, Player) -> bool) -> bool {
    forall|i: int, j: int| 0 <= i < j < list.len() ==> order(#[trigger] list[i], #[trigger] list[j])
}

/// A player that is comparable to all players of an ordered list has a place in it.
proof fn lemma_place(list: Seq<Player>, player: Player, order: spec_fn(Player, Player) -> bool) -> (longer:
    Seq<Player>)
    requires
        strictly(list, order),
        forall|a: Player, b: Player, c: Player|
            #[trigger] order(a, b) && #[trigger] order(b, c) ==> order(a, c),
        forall|i: int|
            0 <= i < list.len() ==> order(#[trigger] list[i], player) || order(player, list[i]),
    ensures
        strictly(longer, order),
        longer.len() == list.len() + 1,
        forall|p: Player| #[trigger] longer.contains(p) <==> list.contains(p) || p == player,
    decreases list.len(),
{
    if list.len() == 0 || order(list.last(), player) {
        let longer = list.push(player);
        assert forall|i: int, j: int| 0 <= i < j < longer.len() implies order(
            #[trigger] longer[i],
            #[trigger] longer[j],
        ) by {
            if j == list.len() && i < list.len() - 1 {
                assert(order(list[i], list[list.len() - 1]));
            }
        }
        assert forall|p: Player| #[trigger] longer.contains(p) <==> list.contains(p) || p
            == player by {
            lemma_contains_push(list, player, p);
        }
        longer
    } else {
        let before = list.drop_last();
        let last = list[list.len() - 1];
        assert forall|i: int| 0 <= i < before.len() implies order(#[trigger] before[i], player)
            || order(player, before[i]) by {
            assert(before[i] == list[i]);
        }
        let placed = lemma_place(before, player, order);
        let longer = placed.push(last);
        assert forall|i: int, j: int| 0 <= i < j < longer.len() implies order(
            #[trigger] longer[i],
            #[trigger] longer[j],
        ) by {
            if j == placed.len() {
                assert(placed.contains(placed[i]));
                if placed[i] != player {
                    let k = choose|k: int| 0 <= k < before.len() && before[k] == placed[i];
                    assert(order(list[k], list[list.len() - 1]));
                }
            }
        }
        assert forall|p: Player| #[trigger] longer.contains(p) <==> list.contains(p) || p
            == player by {
            lemma_contains_push(placed, last, p);
            lemma_contains_push(before, last, p);
            assert(before.push(last) =~= list);
        }
        longer
    }
}

proof fn lemma_contains_push(list: Seq<Player>, player: Player, p: Player)
    ensures
        list.push(player).contains(p) <==> list.contains(p) || p == player,
{
    let longer = list.push(player);
    if longer.contains(p) {
        let k = choose|k: int| 0 <= k < longer.len() && longer[k] == p;
        if k < list.len() {
            assert(list[k] == p);
        }
    }
    if list.contains(p) {
        let k = choose|k: int| 0 <= k < list.len() && list[k] == p;
        assert(longer[k] == p);
    }
    if p == player {
        assert(longer[list.len() as int] == p);
    }
}

/// The players in a range, as far as their identifiers are in a set, can be
/// listed in the order of the index.
proof fn lemma_listed_by_key(
    players: Map<u128, Player>,
    ids: Set<u128>,
    min_rating: u32,
    max_rating: u32,
) -> (list: Seq<Player>)
    requires
        ids.finite(),
    ensures
        strictly(list, |a: Player, b: Player| key_lt(key_of(a), key_of(b))),
        forall|p: Player| #[trigger]
            list.contains(p) <==> in_range(players, p, min_rating, max_rating) && ids.contains(
                p.id,
            ),
    decreases ids.len(),
{
    let order = |a: Player, b: Player| key_lt(key_of(a), key_of(b));
    if ids.len() == 0 {
        assert(ids =~= Set::<u128>::empty());
        Seq::empty()
    } else {
        let id = ids.choose();
        let rest = ids.remove(id);
        let list = lemma_listed_by_key(players, rest, min_rating, max_rating);
        let player = players[id];
        if in_range(players, player, min_rating, max_rating) && player.id == id {
            assert forall|i: int| 0 <= i < list.len() implies order(#[trigger] list[i], player)
                || order(player, list[i]) by {
                assert(list.contains(list[i]));
            }
            let longer = lemma_place(list, player, order);
            assert forall|p: Player| #[trigger] longer.contains(p) <==> in_range(
                players,
                p,
                min_rating,
                max_rating,
            ) && ids.contains(p.id) by {
                assert(longer.contains(p) <==> list.contains(p) || p == player);
                assert(list.contains(p) <==> in_range(players, p, min_rating, max_rating)
                    && rest.contains(p.id));
            }
            longer
        } else {
            assert forall|p: Player| #[trigger] list.contains(p) <==> in_range(
                players,
                p,
                min_rating,
                max_rating,
            ) && ids.contains(p.id) by {
                assert(list.contains(p) <==> in_range(players, p, min_rating, max_rating)
                    && rest.contains(p.id));
            }
            list
        }
    }
}

/// Players with different identifiers can be listed by seniority.
proof fn lemma_listed_by_seniority(list: Seq<Player>) -> (sorted: Seq<Player>)
    requires
        forall|i: int, j: int|
            0 <= i < j < list.len() ==> (#[trigger] list[i]).id != (#[trigger] list[j]).id,
    ensures
        by_seniority(sorted),
        sorted.len() == list.len(),
        forall|p: Player| #[trigger] sorted.contains(p) <==> list.contains(p),
    decreases list.len(),
{
    let order = |a: Player, b: Player| senior(a, b);
    if list.len() == 0 {
        Seq::empty()
    } else {
        let before = list.drop_last();
        let last = list[list.len() - 1];
        assert forall|i: int, j: int| 0 <= i < j < before.len() implies (#[trigger] before[i]).id != (
        #[trigger] before[j]).id by {
            assert(list[i].id != list[j].id);
        }
        let sorted = lemma_listed_by_seniority(before);
        assert forall|i: int| 0 <= i < sorted.len() implies order(#[trigger] sorted[i], last)
            || order(last, sorted[i]) by {
            assert(sorted.contains(sorted[i]));
            let k = choose|k: int| 0 <= k < before.len() && before[k] == sorted[i];
            assert(list[k].id != list[list.len() - 1].id);
        }
        assert(strictly(sorted, order)) by {
            assert forall|i: int, j: int| 0 <= i < j < sorted.len() implies order(
                #[trigger] sorted[i],
                #[trigger] sorted[j],
            ) by {
                assert(senior(sorted[i], sorted[j]));
            }
        }
        let longer = lemma_place(sorted, last, order);
        assert forall|i: int, j: int| 0 <= i < j < longer.len() implies senior(
            #[trigger] longer[i],
            #[trigger] longer[j],
        ) by {
            assert(order(longer[i], longer[j]));
        }
        assert forall|p: Player| #[trigger] longer.contains(p) <==> list.contains(p) by {
            assert(longer.contains(p) <==> sorted.contains(p) || p == last);
            lemma_contains_push(before, last, p);
            assert(before.push(last) =~= list);
        }
        longer
    }
}

/// A scan always has an answer: [`scan_of`] is one.
pub proof fn law_scan_is_defined(players: Map<u128, Player>, min_rating: u32, max_rating: u32)
    requires
        bucket::consistent(players),
    ensures
        is_scan(players, min_rating, max_rating, scan_of(players, min_rating, max_rating)),
{
    let order = |a: Player, b: Player| key_lt(key_of(a), key_of(b));
    let all = lemma_listed_by_key(players, players.dom(), min_rating, max_rating);
    let kept = if all.len() <= MAX_CANDIDATES_PER_SCAN {
        all
    } else {
        all.take(MAX_CANDIDATES_PER_SCAN as int)
    };
    assert forall|i: int, j: int| 0 <= i < j < kept.len() implies (#[trigger] kept[i]).id != (
    #[trigger] kept[j]).id by {
        assert(order(all[i], all[j]));
        assert(all.contains(all[i]) && all.contains(all[j]));
    }
    let found = lemma_listed_by_seniority(kept);
    assert forall|i: int| 0 <= i < found.len() implies in_range(
        players,
        #[trigger] found[i],
        min_rating,
        max_rating,
    ) by {
        assert(found.contains(found[i]));
        let k = choose|k: int| 0 <= k < kept.len() && kept[k] == found[i];
        assert(all.contains(all[k]));
    }
    assert forall|player: Player| #[trigger]
        in_range(players, player, min_rating, max_rating) && !found.contains(player) implies found.len()
        == MAX_CANDIDATES_PER_SCAN && forall|i: int|
        0 <= i < found.len() ==> key_lt(key_of(#[trigger] found[i]), key_of(player)) by {
        assert(players.contains_key(player.id));
        assert(all.contains(player));
        let m = choose|m: int| 0 <= m < all.len() && all[m] == player;
        if m < kept.len() {
            assert(kept[m] == player);
            assert(kept.contains(player));
            assert(found.contains(player));
        }
        assert forall|i: int| 0 <= i < found.len() implies key_lt(
            key_of(#[trigger] found[i]),
            key_of(player),
        ) by {
            assert(found.contains(found[i]));
            let k = choose|k: int| 0 <= k < kept.len() && kept[k] == found[i];
            assert(order(all[k], all[m]));
        }
    }
    assert(is_scan(players, min_rating, max_rating, found));
}

/// Of the players whose identifiers are in a set, one is the most senior.
proof fn lemma_oldest_among(
    players: Map<u128, Player>,
    ids: Set<u128>,
    excluded: Option<(u32, u32)>,
) -> (oldest: Option<Player>)
    requires
        bucket::consistent(players),
        ids.finite(),
        ids.subset_of(players.dom()),
    ensures
        oldest matches Some(p) ==> ids.contains(p.id) && players[p.id] == p && eligible(p, excluded),
        forall|id: u128| #[trigger]
            ids.contains(id) && eligible(players[id], excluded) ==> oldest is Some && (oldest->0.id
                == id || senior(oldest->0, players[id])),
    decreases ids.len(),
{
    if ids.len() == 0 {
        assert(ids =~= Set::<u128>::empty());
        None
    } else {
        let id = ids.choose();
        let rest = ids.remove(id);
        let oldest = lemma_oldest_among(players, rest, excluded);
        let player = players[id];
        assert(players.contains_key(id));
        let next = if !eligible(player, excluded) {
            oldest
        } else if oldest is None || senior(player, oldest->0) {
            Some(player)
        } else {
            oldest
        };
        if oldest is Some {
            assert(rest.contains(oldest->0.id));
        }
        assert forall|other: u128| #[trigger]
            ids.contains(other) && eligible(players[other], excluded) implies next is Some && (
        next->0.id == other || senior(next->0, players[other])) by {
            if other != id {
                assert(rest.contains(other));
                assert(players.contains_key(other));
            }
        }
        next
    }
}

/// There always is a most senior player, or nobody eligible: [`oldest_of`] says
/// which.
pub proof fn law_oldest_is_defined(players: Map<u128, Player>, excluded: Option<(u32, u32)>)
    requires
        bucket::consistent(players),
    ensures
        is_oldest(players, excluded, oldest_of(players, excluded)),
{
    let oldest = lemma_oldest_among(players, players.dom(), excluded);
    assert forall|id: u128| #[trigger] players.contains_key(id) && eligible(
        players[id],
        excluded,
    ) implies oldest is Some && (oldest->0.id == id || senior(oldest->0, players[id])) by {
        assert(players.dom().contains(id));
    }
    assert(is_oldest(players, excluded, oldest));
}

/// Whoever joined strictly earlier is senior; players who joined together go by
/// the lower rating, then by the lower identifier. Of two different players exactly
/// one is senior.
pub proof fn law_seniority_goes_by_join_time(a: Player, b: Player)
    ensures
        a.join_timestamp < b.join_timestamp ==> senior(a, b) && !senior(b, a),
        a.join_timestamp == b.join_timestamp && a.skill_rating < b.skill_rating ==> senior(a, b)
            && !senior(b, a),
        a.join_timestamp == b.join_timestamp && a.skill_rating == b.skill_rating && a.id < b.id
            ==> senior(a, b) && !senior(b, a),
        a.id != b.id ==> senior(a, b) != senior(b, a),
        !senior(a, a),
{
}

/// The player found as oldest is waiting in the pool, outside the excluded range if
/// there is one, and no such player joined before it: of those who joined together
/// it has the lowest rating, then the lowest identifier.
pub proof fn law_oldest_joined_first(
    players: Map<u128, Player>,
    excluded: Option<(u32, u32)>,
    found: Option<Player>,
    id: u128,
)
    requires
        is_oldest(players, excluded, found),
        forall|other: u128| #[trigger] players.contains_key(other) ==> players[other].id == other,
    ensures
        found matches Some(oldest) ==> {
            &&& players.contains_key(oldest.id)
            &&& players[oldest.id] == oldest
            &&& oldest.state == player_state::WAITING
            &&& excluded matches Some(range) ==> oldest.skill_rating < range.0
                || oldest.skill_rating > range.1
        },
        players.contains_key(id) && players[id].state == player_state::WAITING && (
        excluded matches Some(range) ==> players[id].skill_rating < range.0
            || players[id].skill_rating > range.1) ==> {
            &&& found is Some
            &&& found->0.join_timestamp <= players[id].join_timestamp
            &&& found->0.join_timestamp == players[id].join_timestamp ==> found->0.skill_rating
                <= players[id].skill_rating
            &&& found->0.join_timestamp == players[id].join_timestamp && found->0.skill_rating
                == players[id].skill_rating ==> found->0.id <= id
        },
{
    if players.contains_key(id) && found is Some && id != found->0.id && eligible(
        players[id],
        excluded,
    ) {
        assert(senior(found->0, players[id]));
    }
}

/// A scan returns different waiting players of the pool, rated in its range, in the
/// order in which they joined.
pub proof fn law_scan_runs_in_order_of_joining(
    players: Map<u128, Player>,
    min_rating: u32,
    max_rating: u32,
    found: Seq<Player>,
    i: int,
    j: int,
)
    requires
        is_scan(players, min_rating, max_rating, found),
        0 <= i < found.len(),
    ensures
        found.len() <= 200,
        players.contains_key(found[i].id),
        players[found[i].id] == found[i],
        found[i].state == player_state::WAITING,
        min_rating <= found[i].skill_rating <= max_rating,
        i < j < found.len() ==> {
            &&& found[i].id != found[j].id
            &&& found[i].join_timestamp <= found[j].join_timestamp
            &&& found[i].join_timestamp == found[j].join_timestamp ==> found[i].skill_rating
                <= found[j].skill_rating
            &&& found[i].join_timestamp == found[j].join_timestamp && found[i].skill_rating
                == found[j].skill_rating ==> found[i].id < found[j].id
        },
{
    assert(in_range(players, found[i], min_rating, max_rating));
    if i < j < found.len() {
        assert(in_range(players, found[j], min_rating, max_rating));
        assert(senior(found[i], found[j]));
    }
}

/// A scan leaves a waiting player in its range out only if it is full, and then
/// only for two hundred others with a lower rating, or the same rating and a lower
/// identifier.
pub proof fn law_scan_leaves_nobody_out_unless_full(
    players: Map<u128, Player>,
    min_rating: u32,
    max_rating: u32,
    found: Seq<Player>,
    id: u128,
    i: int,
)
    requires
        is_scan(players, min_rating, max_rating, found),
        players.contains_key(id),
        players[id].id == id,
        players[id].state == player_state::WAITING,
        min_rating <= players[id].skill_rating <= max_rating,
        !found.contains(players[id]),
    ensures
        found.len() == 200,
        0 <= i < found.len() ==> found[i].skill_rating < players[id].skill_rating
            || found[i].skill_rating == players[id].skill_rating && found[i].id < id,
{
    assert(in_range(players, players[id], min_rating, max_rating));
}

/// The candidates of a scan with its seed hold the seed and besides it only players
/// that the scan found; they are in the order of joining; and if the scan found the
/// seed, they are what it found.
pub proof fn law_candidates_are_the_scan_and_the_seed(
    players: Map<u128, Player>,
    min_rating: u32,
    max_rating: u32,
    found: Seq<Player>,
    seed: Player,
    i: int,
    j: int,
)
    requires
        is_scan(players, min_rating, max_rating, found),
        players.contains_key(seed.id),
        players[seed.id] == seed,
    ensures
        with_seed(found, seed).contains(seed),
        found.contains(seed) ==> with_seed(found, seed) == found,
        !found.contains(seed) && found.len() < 200 ==> with_seed(found, seed).len() == found.len()
            + 1,
        found.len() == 200 ==> with_seed(found, seed).len() == 200,
        0 <= i < found.len() && !with_seed(found, seed).contains(found[i]) ==> found.len() == 200
            && i == 199,
        0 <= i < with_seed(found, seed).len() ==> with_seed(found, seed)[i] == seed
            || found.contains(with_seed(found, seed)[i]),
        0 <= i < j < with_seed(found, seed).len() ==> with_seed(found, seed)[i].join_timestamp
            <= with_seed(found, seed)[j].join_timestamp,
{
    let candidates = with_seed(found, seed);
    lemma_with_seed(players, min_rating, max_rating, found, seed);
    if !found.contains(seed) {
        let kept = if found.len() < MAX_CANDIDATES_PER_SCAN {
            found
        } else {
            found.drop_last()
        };
        assert forall|k: int| 0 <= k < kept.len() implies (#[trigger] kept[k]).id != seed.id by {
            assert(found[k] == kept[k]);
            assert(in_range(players, found[k], min_rating, max_rating));
            assert(found.contains(found[k]));
        }
        lemma_placed(kept, seed);
        if 0 <= i < kept.len() {
            assert(kept[i] == found[i]);
            assert(kept.contains(found[i]));
        }
    }
    if 0 <= i < found.len() {
        assert(found.contains(found[i]));
    }
    if 0 <= i < candidates.len() {
        assert(candidates.contains(candidates[i]));
    }
    if 0 <= i < j < candidates.len() {
        assert(senior(candidates[i], candidates[j]));
    }
}

} // verus!

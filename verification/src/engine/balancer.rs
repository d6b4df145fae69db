//! Exhaustive team balance for 5v5 match formation.
//!
//! Of all ways to split ten players into two teams of five, the balancer finds
//! one with the smallest difference in total skill rating. A split is given by
//! the selection of the players that form team A; the 252 selections are tried
//! as bit masks over the positions of the players.
//!
//! Among selections with the same difference, the one whose team A has the
//! higher total rating is preferred. What is still tied is decided by who is in
//! team A: the players, in the order of their identifiers, are read as a bit mask,
//! and the smaller mask is preferred. So the same ten players always end up in the
//! same two teams, in whatever order they are given.

use vstd::arithmetic::power2;
use vstd::prelude::*;

use crate::engine::claims;
use crate::models::Player;
use crate::utils;
use crate::utils::popcount_u16;

verus! {

/// Number of players in a complete match.
pub const MATCH_SIZE: usize = 10;

/// Number of players per team.
pub const TEAM_SIZE: usize = 5;

/// The result of the exhaustive balance search.
#[derive(Debug)]
pub struct BalanceResult {
    /// The five players assigned to team A.
    pub team_a: Vec<Player>,
    /// The five players assigned to team B.
    pub team_b: Vec<Player>,
    /// Absolute difference in total skill rating between the two teams.
    pub team_delta: u32,
    /// Total skill rating across all ten players.
    pub total_rating: u32,
}

/// The total skill rating of a sequence of players.
pub open spec fn rating_total(players: Seq<Player>) -> nat
    decreases players.len(),
{
    if players.len() == 0 {
        0
    } else {
        rating_total(players.drop_last()) + players.last().skill_rating as nat
    }
}

/// The skill ratings of a sequence of players.
pub open spec fn ratings(players: Seq<Player>) -> Seq<u32> {
    players.map_values(|player: Player| player.skill_rating)
}

/// The items at the positions where `selection` equals `side`, in order.
pub open spec fn chosen<T>(items: Seq<T>, selection: Seq<bool>, side: bool) -> Seq<T>
    decreases items.len(),
{
    if items.len() == 0 {
        Seq::empty()
    } else {
        let before = chosen(items.drop_last(), selection, side);
        if selection[items.len() - 1] == side {
            before.push(items.last())
        } else {
            before
        }
    }
}

/// How many players have an identifier below `id`.
pub open spec fn rank(players: Seq<Player>, id: u128) -> nat
    decreases players.len(),
{
    if players.len() == 0 {
        0
    } else {
        rank(players.drop_last(), id) + if players.last().id < id { 1nat } else { 0nat }
    }
}

/// The number of a team as a bit mask over the players in the order of their
/// identifiers: the player of rank `r` stands for `2^r`.
pub open spec fn team_number(players: Seq<Player>, team: Seq<Player>) -> nat
    decreases team.len(),
{
    if team.len() == 0 {
        0
    } else {
        team_number(players, team.drop_last()) + power2::pow2(rank(players, team.last().id))
    }
}

/// How many positions a selection picks.
pub open spec fn picks(selection: Seq<bool>) -> nat
    decreases selection.len(),
{
    if selection.len() == 0 {
        0
    } else {
        picks(selection.drop_last()) + if selection.last() { 1nat } else { 0nat }
    }
}

/// A way to pick team A: five of the ten positions.
pub open spec fn is_selection(selection: Seq<bool>) -> bool {
    selection.len() == MATCH_SIZE && picks(selection) == TEAM_SIZE
}

/// The total rating of team A under a selection.
pub open spec fn side_a(players: Seq<Player>, selection: Seq<bool>) -> nat {
    rating_total(chosen(players, selection, true))
}

/// The total rating of team B under a selection.
pub open spec fn side_b(players: Seq<Player>, selection: Seq<bool>) -> nat {
    rating_total(chosen(players, selection, false))
}

/// The absolute difference in total rating between the two teams.
pub open spec fn delta(players: Seq<Player>, selection: Seq<bool>) -> nat {
    let a = side_a(players, selection);
    let b = side_b(players, selection);
    if a >= b {
        (a - b) as nat
    } else {
        (b - a) as nat
    }
}

/// The number of a selection as a bit mask: position `i` stands for `2^i`.
pub open spec fn number(selection: Seq<bool>) -> nat
    decreases selection.len(),
{
    if selection.len() == 0 {
        0
    } else {
        (if selection[0] { 1nat } else { 0nat }) + 2 * number(selection.drop_first())
    }
}

/// The number of team A under a selection; see [`team_number`].
pub open spec fn number_a(players: Seq<Player>, selection: Seq<bool>) -> nat {
    team_number(players, chosen(players, selection, true))
}

/// Whether selection `s` is preferred over `t`: a smaller difference, then a
/// higher-rated team A, then a smaller number of team A. The number of the
/// selection itself decides only between players with the same identifier.
pub open spec fn preferred(players: Seq<Player>, s: Seq<bool>, t: Seq<bool>) -> bool {
    ||| delta(players, s) < delta(players, t)
    ||| {
        &&& delta(players, s) == delta(players, t)
        &&& {
            ||| side_a(players, s) > side_a(players, t)
            ||| {
                &&& side_a(players, s) == side_a(players, t)
                &&& {
                    ||| number_a(players, s) < number_a(players, t)
                    ||| number_a(players, s) == number_a(players, t) && number(s) < number(t)
                }
            }
        }
    }
}

/// A selection that no other selection with a number below `bound` is preferred over.
pub open spec fn best_below(players: Seq<Player>, selection: Seq<bool>, bound: nat) -> bool {
    &&& is_selection(selection)
    &&& number(selection) < bound
    &&& forall|other: Seq<bool>|
        is_selection(other) && number(other) < bound ==> !(#[trigger] preferred(
            players,
            other,
            selection,
        ))
}

/// The selection that no other is preferred over.
pub open spec fn is_best(players: Seq<Player>, selection: Seq<bool>) -> bool {
    &&& is_selection(selection)
    &&& forall|other: Seq<bool>|
        is_selection(other) ==> !(#[trigger] preferred(players, other, selection))
}

/// The best selection for ten players.
pub open spec fn best_selection(players: Seq<Player>) -> Seq<bool> {
    choose|selection: Seq<bool>| is_best(players, selection)
}

/// The selection that a bit mask stands for.
pub open spec fn selection_of(mask: u16, len: nat) -> Seq<bool> {
    Seq::new(len, |i: int| utils::bit(mask, i))
}

proof fn lemma_halving_a_mask(mask: u16)
    ensures
        utils::bit(mask, 0) == (mask % 2 == 1),
        forall|i: int|
            0 <= i < 15 ==> #[trigger] utils::bit((mask / 2) as u16, i) == utils::bit(
                mask,
                i + 1,
            ),
{
    assert((mask >> 0u16) & 1u16 == 1u16 <==> mask % 2 == 1) by (bit_vector);
    assert forall|i: int| 0 <= i < 15 implies #[trigger] utils::bit((mask / 2) as u16, i)
        == utils::bit(mask, i + 1) by {
        let k: u16 = i as u16;
        let half: u16 = (mask / 2) as u16;
        assert((half >> k) & 1u16 == (mask >> ((k + 1) as u16)) & 1u16) by (bit_vector)
            requires
                k < 15,
                half == mask / 2,
        ;
    }
}

/// A mask that fits in `len` bits is the number of the selection it stands for.
proof fn lemma_number_of_mask(mask: u16, len: nat)
    requires
        len <= 16,
        mask < power2::pow2(len),
    ensures
        number(selection_of(mask, len)) == mask,
    decreases len,
{
    let selection = selection_of(mask, len);
    if len == 0 {
        power2::lemma2_to64();
    } else {
        let half: u16 = (mask / 2) as u16;
        lemma_halving_a_mask(mask);
        power2::lemma_pow2_unfold(len);
        assert(selection.drop_first() =~= selection_of(half, (len - 1) as nat));
        lemma_number_of_mask(half, (len - 1) as nat);
    }
}

/// Only one selection of a given length has a given number.
proof fn lemma_number_identifies(s: Seq<bool>, t: Seq<bool>)
    requires
        s.len() == t.len(),
        number(s) == number(t),
    ensures
        s == t,
    decreases s.len(),
{
    if s.len() == 0 {
        assert(s =~= t);
    } else {
        lemma_number_identifies(s.drop_first(), t.drop_first());
        assert forall|i: int| 0 <= i < s.len() implies s[i] == t[i] by {
            if i > 0 {
                assert(s.drop_first()[i - 1] == t.drop_first()[i - 1]);
            }
        }
        assert(s =~= t);
    }
}

/// The number of a selection is less than two to the power of its length.
proof fn lemma_number_bound(s: Seq<bool>)
    ensures
        number(s) < power2::pow2(s.len()),
    decreases s.len(),
{
    if s.len() == 0 {
        power2::lemma2_to64();
    } else {
        lemma_number_bound(s.drop_first());
        power2::lemma_pow2_unfold(s.len());
    }
}

/// The selection of a mask picks as many positions as the mask has bits set.
proof fn lemma_picks_of_mask(mask: u16, len: nat)
    ensures
        picks(selection_of(mask, len)) == utils::bits_set(mask, len),
    decreases len,
{
    if len > 0 {
        assert(selection_of(mask, len).drop_last() =~= selection_of(mask, (len - 1) as nat));
        lemma_picks_of_mask(mask, (len - 1) as nat);
    }
}

/// A mask below 1024 has no bits set beyond the first ten.
proof fn lemma_bits_of_small_mask(mask: u16)
    requires
        mask < 1024,
    ensures
        utils::bits_set(mask, 16) == utils::bits_set(mask, 10),
{
    reveal_with_fuel(utils::bits_set, 7);
    assert((mask >> 10u16) & 1u16 == 0u16 && (mask >> 11u16) & 1u16 == 0u16 && (mask >> 12u16)
        & 1u16 == 0u16 && (mask >> 13u16) & 1u16 == 0u16 && (mask >> 14u16) & 1u16 == 0u16 && (mask
        >> 15u16) & 1u16 == 0u16) by (bit_vector)
        requires
            mask < 1024,
    ;
}

/// What a selection means depends only on the positions of the items.
proof fn lemma_chosen_prefix<T>(items: Seq<T>, s: Seq<bool>, t: Seq<bool>, side: bool)
    requires
        forall|i: int| 0 <= i < items.len() ==> s[i] == t[i],
    ensures
        chosen(items, s, side) == chosen(items, t, side),
    decreases items.len(),
{
    if items.len() > 0 {
        lemma_chosen_prefix(items.drop_last(), s, t, side);
    }
}

/// The two teams add up to the whole, in rating and in size.
proof fn lemma_sides_add_up(players: Seq<Player>, selection: Seq<bool>)
    requires
        selection.len() == players.len(),
    ensures
        side_a(players, selection) + side_b(players, selection) == rating_total(players),
        chosen(players, selection, true).len() == picks(selection),
        chosen(players, selection, false).len() == players.len() - picks(selection),
        picks(selection) <= selection.len(),
    decreases players.len(),
{
    if players.len() > 0 {
        let before = players.drop_last();
        let selected = selection.drop_last();
        lemma_sides_add_up(before, selected);
        lemma_chosen_prefix(before, selection, selected, true);
        lemma_chosen_prefix(before, selection, selected, false);
        assert(chosen(before, selection, true).push(players.last()).drop_last() =~= chosen(
            before,
            selection,
            true,
        ));
        assert(chosen(before, selection, false).push(players.last()).drop_last() =~= chosen(
            before,
            selection,
            false,
        ));
    }
}

/// Two best selections are the same.
proof fn lemma_best_is_unique(players: Seq<Player>, s: Seq<bool>, t: Seq<bool>)
    requires
        is_best(players, s),
        is_best(players, t),
    ensures
        s == t,
{
    assert(!preferred(players, s, t));
    assert(!preferred(players, t, s));
    lemma_number_identifies(s, t);
}

/// A selection that is best below 1024 is best.
proof fn lemma_best_below_all(players: Seq<Player>, selection: Seq<bool>)
    requires
        best_below(players, selection, 1024),
    ensures
        is_best(players, selection),
        selection == best_selection(players),
{
    power2::lemma2_to64();
    assert forall|other: Seq<bool>| is_selection(other) implies !(#[trigger] preferred(
        players,
        other,
        selection,
    )) by {
        lemma_number_bound(other);
    }
    assert(is_best(players, selection));
    lemma_best_is_unique(players, selection, best_selection(players));
}

/// Considering one more mask.
proof fn lemma_best_step(players: Seq<Player>, best: Option<Seq<bool>>, mask: u16) -> (next: Option<
    Seq<bool>,
>)
    requires
        mask < 1024,
        best matches Some(selection) ==> best_below(players, selection, mask as nat),
        best is None ==> forall|other: Seq<bool>|
            #[trigger] is_selection(other) ==> number(other) >= mask,
    ensures
        next == if !is_selection(selection_of(mask, 10)) {
            best
        } else if best is None || preferred(players, selection_of(mask, 10), best->0) {
            Some(selection_of(mask, 10))
        } else {
            best
        },
        next matches Some(selection) ==> best_below(players, selection, (mask + 1) as nat),
        next is None ==> forall|other: Seq<bool>|
            #[trigger] is_selection(other) ==> number(other) >= mask + 1,
{
    let current = selection_of(mask, 10);
    power2::lemma2_to64();
    lemma_number_of_mask(mask, 10);
    assert forall|other: Seq<bool>| #[trigger] is_selection(other) && number(other) == mask implies other
        == current by {
        lemma_number_identifies(other, current);
    }
    let next = if !is_selection(current) {
        best
    } else if best is None || preferred(players, current, best->0) {
        Some(current)
    } else {
        best
    };
    if next is Some {
        let selection = next->0;
        assert forall|other: Seq<bool>|
            is_selection(other) && number(other) < (mask + 1) as nat implies !(#[trigger] preferred(
            players,
            other,
            selection,
        )) by {
            if number(other) < mask && best is Some {
                assert(!preferred(players, other, best->0));
            }
        }
    }
    next
}

/// Every ten players have a best selection, and it is unique.
pub proof fn lemma_best_selection(players: Seq<Player>)
    ensures
        is_best(players, best_selection(players)),
        forall|selection: Seq<bool>|
            is_best(players, selection) ==> selection == best_selection(players),
{
    let found = lemma_best_among(players, 1024);
    if found is None {
        lemma_picks_of_mask(31, 10);
        assert(is_selection(selection_of(31, 10))) by {
            reveal_with_fuel(utils::bits_set, 11);
            assert((31u16 >> 0u16) & 1u16 == 1u16 && (31u16 >> 1u16) & 1u16 == 1u16 && (31u16
                >> 2u16) & 1u16 == 1u16 && (31u16 >> 3u16) & 1u16 == 1u16 && (31u16 >> 4u16) & 1u16
                == 1u16 && (31u16 >> 5u16) & 1u16 == 0u16 && (31u16 >> 6u16) & 1u16 == 0u16 && (
            31u16 >> 7u16) & 1u16 == 0u16 && (31u16 >> 8u16) & 1u16 == 0u16 && (31u16 >> 9u16)
                & 1u16 == 0u16) by (bit_vector);
        }
        lemma_number_bound(selection_of(31, 10));
        power2::lemma2_to64();
        assert(false);
    }
    lemma_best_below_all(players, found->0);
    assert forall|selection: Seq<bool>| is_best(players, selection) implies selection
        == best_selection(players) by {
        lemma_best_is_unique(players, selection, best_selection(players));
    }
}

proof fn lemma_best_among(players: Seq<Player>, bound: u16) -> (best: Option<Seq<bool>>)
    requires
        bound <= 1024,
    ensures
        best matches Some(selection) ==> best_below(players, selection, bound as nat),
        best is None ==> forall|other: Seq<bool>|
            #[trigger] is_selection(other) ==> number(other) >= bound,
    decreases bound,
{
    if bound == 0 {
        None
    } else {
        let best = lemma_best_among(players, (bound - 1) as u16);
        lemma_best_step(players, best, (bound - 1) as u16)
    }
}

/// The total rating of players, computed without overflow.
fn total_rating_of(players: &[Player]) -> (total: u32)
    requires
        rating_total(players@) <= u32::MAX,
    ensures
        total == rating_total(players@),
{
    let mut total: u32 = 0;
    let mut i: usize = 0;
    while i < players.len()
        invariant
            i <= players@.len(),
            rating_total(players@) <= u32::MAX,
            total == rating_total(players@.take(i as int)),
        decreases players@.len() - i,
    {
        proof {
            assert(players@.take(i + 1).drop_last() =~= players@.take(i as int));
            lemma_rating_prefix(players@, i + 1);
        }
        total = total + players[i].skill_rating;
        i = i + 1;
    }
    assert(players@.take(i as int) =~= players@);
    total
}

proof fn lemma_rating_prefix(players: Seq<Player>, n: int)
    requires
        0 <= n <= players.len(),
    ensures
        rating_total(players.take(n)) <= rating_total(players),
    decreases players.len(),
{
    if n < players.len() {
        lemma_rating_prefix(players.drop_last(), n);
        assert(players.drop_last().take(n) =~= players.take(n));
    } else {
        assert(players.take(n) =~= players);
    }
}

proof fn lemma_side_a_prefix(players: Seq<Player>, selection: Seq<bool>, n: int)
    requires
        0 <= n <= players.len(),
    ensures
        side_a(players.take(n), selection) <= rating_total(players.take(n)),
    decreases n,
{
    if n > 0 {
        lemma_side_a_prefix(players, selection, n - 1);
        let before = players.take(n - 1);
        assert(players.take(n).drop_last() =~= before);
        assert(chosen(before, selection, true).push(players[n - 1]).drop_last() =~= chosen(
            before,
            selection,
            true,
        ));
    }
}

/// The total rating of team A under the selection of `mask`.
fn side_a_of(players: &[Player], mask: u16) -> (sum: u32)
    requires
        players@.len() == MATCH_SIZE,
        rating_total(players@) <= u32::MAX,
    ensures
        sum == side_a(players@, selection_of(mask, 10)),
{
    let ghost selection = selection_of(mask, 10);
    let mut sum: u32 = 0;
    let mut i: usize = 0;
    while i < MATCH_SIZE
        invariant
            i <= MATCH_SIZE,
            players@.len() == MATCH_SIZE,
            rating_total(players@) <= u32::MAX,
            selection == selection_of(mask, 10),
            sum == side_a(players@.take(i as int), selection),
        decreases MATCH_SIZE - i,
    {
        proof {
            let before = players@.take(i as int);
            assert(players@.take(i + 1).drop_last() =~= before);
            assert(chosen(before, selection, true).push(players@[i as int]).drop_last() =~= chosen(
                before,
                selection,
                true,
            ));
            lemma_side_a_prefix(players@, selection, i + 1);
            lemma_rating_prefix(players@, i + 1);
            assert(selection[i as int] == utils::bit(mask, i as int));
        }
        if (mask >> (i as u16)) & 1u16 == 1u16 {
            sum = sum + players[i].skill_rating;
        }
        i = i + 1;
    }
    assert(players@.take(i as int) =~= players@);
    sum
}

/// What a player stands for in the number of a team: two to the power of its
/// rank.
fn weight_of(players: &[Player], id: u128) -> (weight: u16)
    requires
        players@.len() == MATCH_SIZE,
    ensures
        weight == power2::pow2(rank(players@, id)),
        weight <= 1024,
{
    let mut weight: u16 = 1;
    let mut i: usize = 0;
    proof {
        power2::lemma2_to64();
    }
    while i < MATCH_SIZE
        invariant
            i <= MATCH_SIZE,
            players@.len() == MATCH_SIZE,
            weight == power2::pow2(rank(players@.take(i as int), id)),
            weight <= power2::pow2(i as nat),
        decreases MATCH_SIZE - i,
    {
        proof {
            assert(players@.take(i + 1).drop_last() =~= players@.take(i as int));
            power2::lemma_pow2_unfold((i + 1) as nat);
            power2::lemma_pow2_unfold((rank(players@.take(i as int), id) + 1) as nat);
            lemma_small_power(i as nat);
        }
        if players[i].id < id {
            weight = weight * 2;
        }
        i = i + 1;
    }
    proof {
        assert(players@.take(i as int) =~= players@);
        power2::lemma2_to64();
    }
    weight
}

proof fn lemma_small_power(n: nat)
    requires
        n < 10,
    ensures
        power2::pow2(n) <= 512,
    decreases 9 - n,
{
    power2::lemma2_to64();
    if n < 9 {
        lemma_small_power(n + 1);
        power2::lemma_pow2_unfold(n + 1);
    }
}

/// What each player stands for in the number of a team.
fn weights_of(players: &[Player]) -> (weights: Vec<u16>)
    requires
        players@.len() == MATCH_SIZE,
    ensures
        weights@.len() == MATCH_SIZE,
        forall|i: int|
            0 <= i < MATCH_SIZE ==> #[trigger] weights@[i] == power2::pow2(
                rank(players@, players@[i].id),
            ) && weights@[i] <= 1024,
{
    let mut weights: Vec<u16> = Vec::with_capacity(MATCH_SIZE);
    let mut i: usize = 0;
    while i < MATCH_SIZE
        invariant
            i <= MATCH_SIZE,
            players@.len() == MATCH_SIZE,
            weights@.len() == i,
            forall|k: int|
                0 <= k < i ==> #[trigger] weights@[k] == power2::pow2(
                    rank(players@, players@[k].id),
                ) && weights@[k] <= 1024,
        decreases MATCH_SIZE - i,
    {
        weights.push(weight_of(players, players[i].id));
        i = i + 1;
    }
    weights
}

/// The number of team A under the selection of `mask`.
fn number_a_of(players: &[Player], weights: &Vec<u16>, mask: u16) -> (sum: u16)
    requires
        players@.len() == MATCH_SIZE,
        weights@.len() == MATCH_SIZE,
        forall|i: int|
            0 <= i < MATCH_SIZE ==> #[trigger] weights@[i] == power2::pow2(
                rank(players@, players@[i].id),
            ) && weights@[i] <= 1024,
    ensures
        sum == number_a(players@, selection_of(mask, 10)),
{
    let ghost selection = selection_of(mask, 10);
    let mut sum: u16 = 0;
    let mut i: usize = 0;
    while i < MATCH_SIZE
        invariant
            i <= MATCH_SIZE,
            players@.len() == MATCH_SIZE,
            weights@.len() == MATCH_SIZE,
            forall|k: int|
                0 <= k < MATCH_SIZE ==> #[trigger] weights@[k] == power2::pow2(
                    rank(players@, players@[k].id),
                ) && weights@[k] <= 1024,
            selection == selection_of(mask, 10),
            sum <= i * 1024,
            sum == team_number(players@, chosen(players@.take(i as int), selection, true)),
        decreases MATCH_SIZE - i,
    {
        proof {
            let before = players@.take(i as int);
            assert(players@.take(i + 1).drop_last() =~= before);
            assert(chosen(before, selection, true).push(players@[i as int]).drop_last() =~= chosen(
                before,
                selection,
                true,
            ));
            assert(selection[i as int] == utils::bit(mask, i as int));
        }
        if (mask >> (i as u16)) & 1u16 == 1u16 {
            sum = sum + weights[i];
        }
        i = i + 1;
    }
    assert(players@.take(i as int) =~= players@);
    sum
}

/// Find the best split of exactly ten players into two teams of five.
///
/// No split has a smaller difference in total rating; ties are resolved as
/// [`preferred`] says. Each team keeps the order in which the players were given.
/// The total rating has to fit in a `u32`.
pub fn exhaustive_balance(players: &[Player]) -> (result: BalanceResult)
    requires
        players@.len() == MATCH_SIZE,
        rating_total(players@) <= u32::MAX,
    ensures
        is_best(players@, best_selection(players@)),
        result.team_a@ == chosen(players@, best_selection(players@), true),
        result.team_b@ == chosen(players@, best_selection(players@), false),
        result.team_a@.len() == TEAM_SIZE,
        result.team_b@.len() == TEAM_SIZE,
        result.team_delta == delta(players@, best_selection(players@)),
        result.total_rating == rating_total(players@),
{
    let total_rating: u32 = total_rating_of(players);
    let weights = weights_of(players);
    let mut best_mask: u16 = 0;
    let mut best_delta: u64 = u64::MAX;
    let mut best_a: u32 = 0;
    let mut best_number: u16 = 0;
    let ghost mut best: Option<Seq<bool>> = None;
    let mut mask: u16 = 0;
    while mask < 1024
        invariant
            mask <= 1024,
            players@.len() == MATCH_SIZE,
            rating_total(players@) <= u32::MAX,
            total_rating == rating_total(players@),
            weights@.len() == MATCH_SIZE,
            forall|i: int|
                0 <= i < MATCH_SIZE ==> #[trigger] weights@[i] == power2::pow2(
                    rank(players@, players@[i].id),
                ) && weights@[i] <= 1024,
            best is None ==> forall|other: Seq<bool>|
                #[trigger] is_selection(other) ==> number(other) >= mask,
            best is None ==> best_delta == u64::MAX,
            best matches Some(selection) ==> {
                &&& best_below(players@, selection, mask as nat)
                &&& selection == selection_of(best_mask, 10)
                &&& best_delta == delta(players@, selection)
                &&& best_a == side_a(players@, selection)
                &&& best_number == number_a(players@, selection)
            },
        decreases 1024 - mask,
    {
        let ghost current = selection_of(mask, 10);
        proof {
            lemma_picks_of_mask(mask, 10);
            lemma_bits_of_small_mask(mask);
            lemma_sides_add_up(players@, current);
            best = lemma_best_step(players@, best, mask);
        }
        if popcount_u16(mask) == TEAM_SIZE as u32 {
            let a: u32 = side_a_of(players, mask);
            let doubled: u64 = 2 * (a as u64);
            let total: u64 = total_rating as u64;
            let this_delta: u64 = if doubled >= total {
                doubled - total
            } else {
                total - doubled
            };
            proof {
                power2::lemma2_to64();
                lemma_number_of_mask(mask, 10);
            }
            let number: u16 = number_a_of(players, &weights, mask);
            if this_delta < best_delta || (this_delta == best_delta && (a > best_a || (a == best_a
                && number < best_number))) {
                best_delta = this_delta;
                best_mask = mask;
                best_a = a;
                best_number = number;
            }
        }
        mask = mask + 1;
    }
    proof {
        lemma_best_selection(players@);
        lemma_number_bound(best_selection(players@));
        power2::lemma2_to64();
        lemma_best_below_all(players@, best->0);
        lemma_sides_add_up(players@, best->0);
    }
    let ghost selection = best_selection(players@);
    let mut team_a: Vec<Player> = Vec::with_capacity(TEAM_SIZE);
    let mut team_b: Vec<Player> = Vec::with_capacity(TEAM_SIZE);
    let mut i: usize = 0;
    while i < MATCH_SIZE
        invariant
            i <= MATCH_SIZE,
            players@.len() == MATCH_SIZE,
            selection == selection_of(best_mask, 10),
            team_a@ == chosen(players@.take(i as int), selection, true),
            team_b@ == chosen(players@.take(i as int), selection, false),
        decreases MATCH_SIZE - i,
    {
        proof {
            assert(players@.take(i + 1).drop_last() =~= players@.take(i as int));
            assert(selection[i as int] == utils::bit(best_mask, i as int));
        }
        if (best_mask >> (i as u16)) & 1u16 == 1u16 {
            team_a.push(players[i]);
        } else {
            team_b.push(players[i]);
        }
        i = i + 1;
    }
    assert(players@.take(i as int) =~= players@);
    BalanceResult { team_a, team_b, team_delta: best_delta as u32, total_rating }
}

/// The selection that swaps the two teams.
pub open spec fn complement(selection: Seq<bool>) -> Seq<bool> {
    Seq::new(selection.len(), |i: int| !selection[i])
}

proof fn lemma_complement(players: Seq<Player>, selection: Seq<bool>)
    requires
        players.len() <= selection.len(),
    ensures
        chosen(players, complement(selection), true) == chosen(players, selection, false),
        chosen(players, complement(selection), false) == chosen(players, selection, true),
    decreases players.len(),
{
    if players.len() > 0 {
        lemma_complement(players.drop_last(), selection);
    }
}

proof fn lemma_complement_picks(selection: Seq<bool>)
    ensures
        picks(complement(selection)) + picks(selection) == selection.len(),
    decreases selection.len(),
{
    if selection.len() > 0 {
        assert(complement(selection).drop_last() =~= complement(selection.drop_last()));
        lemma_complement_picks(selection.drop_last());
    }
}

/// The two teams hold the given players, each exactly once.
pub proof fn law_split_is_a_partition<T>(items: Seq<T>, selection: Seq<bool>)
    requires
        selection.len() == items.len(),
    ensures
        chosen(items, selection, true).to_multiset().add(
            chosen(items, selection, false).to_multiset(),
        ) == items.to_multiset(),
    decreases items.len(),
{
    broadcast use vstd::multiset::group_multiset_axioms;

    let a = chosen(items, selection, true);
    let b = chosen(items, selection, false);
    if items.len() == 0 {
        assert(a.to_multiset().add(b.to_multiset()) =~= items.to_multiset()) by {
            broadcast use vstd::seq_lib::group_to_multiset_ensures;

            items.to_multiset_ensures();
        }
    } else {
        let before = items.drop_last();
        law_split_is_a_partition(before, selection.drop_last());
        lemma_chosen_prefix(before, selection, selection.drop_last(), true);
        lemma_chosen_prefix(before, selection, selection.drop_last(), false);
        before.to_multiset_ensures();
        assert(before.push(items.last()) =~= items);
        chosen(before, selection, true).to_multiset_ensures();
        chosen(before, selection, false).to_multiset_ensures();
        assert(a.to_multiset().add(b.to_multiset()) =~= items.to_multiset());
    }
}

/// The sum of a measure over a sequence.
spec fn sum_by<T>(items: Seq<T>, measure: spec_fn(T) -> nat) -> nat
    decreases items.len(),
{
    if items.len() == 0 {
        0
    } else {
        sum_by(items.drop_last(), measure) + measure(items.last())
    }
}

/// A sum does not depend on the order of the items.
proof fn lemma_sum_of_permutation<T>(a: Seq<T>, b: Seq<T>, measure: spec_fn(T) -> nat)
    requires
        a.to_multiset() == b.to_multiset(),
    ensures
        sum_by(a, measure) == sum_by(b, measure),
    decreases a.len(),
{
    a.to_multiset_ensures();
    b.to_multiset_ensures();
    if a.len() > 0 {
        let last = a.last();
        assert(a.contains(last));
        assert(b.to_multiset().count(last) > 0);
        let k = choose|k: int| 0 <= k < b.len() && b[k] == last;
        assert(a.remove(a.len() - 1) =~= a.drop_last());
        lemma_sum_of_permutation(a.drop_last(), b.remove(k), measure);
        lemma_sum_remove(b, k, measure);
    }
}

proof fn lemma_sum_remove<T>(items: Seq<T>, k: int, measure: spec_fn(T) -> nat)
    requires
        0 <= k < items.len(),
    ensures
        sum_by(items, measure) == sum_by(items.remove(k), measure) + measure(items[k]),
    decreases items.len(),
{
    if k == items.len() - 1 {
        assert(items.remove(k) =~= items.drop_last());
    } else {
        lemma_sum_remove(items.drop_last(), k, measure);
        assert(items.remove(k).drop_last() =~= items.drop_last().remove(k));
    }
}

/// The total rating is a sum over the ratings.
proof fn lemma_rating_total_is_a_sum(players: Seq<Player>)
    ensures
        rating_total(players) == sum_by(ratings(players), |rating: u32| rating as nat),
    decreases players.len(),
{
    if players.len() > 0 {
        lemma_rating_total_is_a_sum(players.drop_last());
        assert(ratings(players).drop_last() =~= ratings(players.drop_last()));
    }
}

/// Players whose ratings are the same, in whatever order, have the same total.
proof fn lemma_rating_total_of_ratings(a: Seq<Player>, b: Seq<Player>)
    requires
        ratings(a).to_multiset() == ratings(b).to_multiset(),
    ensures
        rating_total(a) == rating_total(b),
{
    lemma_rating_total_is_a_sum(a);
    lemma_rating_total_is_a_sum(b);
    lemma_sum_of_permutation(ratings(a), ratings(b), |rating: u32| rating as nat);
}

/// The same players, in whatever order, have the same ratings.
proof fn lemma_ratings_of_permutation(a: Seq<Player>, b: Seq<Player>)
    requires
        a.to_multiset() == b.to_multiset(),
    ensures
        ratings(a).to_multiset() == ratings(b).to_multiset(),
    decreases a.len(),
{
    a.to_multiset_ensures();
    b.to_multiset_ensures();
    if a.len() > 0 {
        let last = a.last();
        assert(a.contains(last));
        assert(b.to_multiset().count(last) > 0);
        let k = choose|k: int| 0 <= k < b.len() && b[k] == last;
        assert(a.remove(a.len() - 1) =~= a.drop_last());
        lemma_ratings_of_permutation(a.drop_last(), b.remove(k));
        assert(ratings(a.drop_last()) =~= ratings(a).remove(a.len() - 1));
        assert(ratings(b.remove(k)) =~= ratings(b).remove(k));
        ratings(a).to_multiset_ensures();
        ratings(b).to_multiset_ensures();
        assert(ratings(a).contains(ratings(a)[a.len() - 1]));
        assert(ratings(b).contains(ratings(b)[k]));
        assert(ratings(a).to_multiset() =~= ratings(a).to_multiset().remove(
            last.skill_rating,
        ).insert(last.skill_rating));
        assert(ratings(b).to_multiset() =~= ratings(b).to_multiset().remove(
            last.skill_rating,
        ).insert(last.skill_rating));
    } else {
        assert(ratings(a) =~= ratings(b));
    }
}

/// Choosing players chooses their ratings.
proof fn lemma_ratings_of_chosen(players: Seq<Player>, selection: Seq<bool>, side: bool)
    ensures
        ratings(chosen(players, selection, side)) == chosen(ratings(players), selection, side),
    decreases players.len(),
{
    if players.len() > 0 {
        lemma_ratings_of_chosen(players.drop_last(), selection, side);
        assert(ratings(players).drop_last() =~= ratings(players.drop_last()));
    }
    assert(ratings(chosen(players, selection, side)) =~= chosen(ratings(players), selection, side));
}

/// Any part of the items can be picked by a selection.
proof fn lemma_part_is_selectable<T>(items: Seq<T>, part: Seq<T>) -> (selection: Seq<bool>)
    requires
        part.to_multiset().subset_of(items.to_multiset()),
    ensures
        selection.len() == items.len(),
        chosen(items, selection, true).to_multiset() == part.to_multiset(),
    decreases items.len(),
{
    broadcast use vstd::multiset::group_multiset_axioms;

    items.to_multiset_ensures();
    part.to_multiset_ensures();
    if items.len() == 0 {
        let selection = Seq::<bool>::empty();
        assert(part.to_multiset() =~= items.to_multiset());
        assert(chosen(items, selection, true) =~= items);
        selection
    } else {
        let before = items.drop_last();
        let last = items.last();
        before.to_multiset_ensures();
        assert(before.push(last) =~= items);
        if part.contains(last) {
            let k = choose|k: int| 0 <= k < part.len() && part[k] == last;
            let smaller = part.remove(k);
            assert(smaller.to_multiset().subset_of(before.to_multiset()));
            let selected = lemma_part_is_selectable(before, smaller);
            let selection = selected.push(true);
            lemma_chosen_prefix(before, selection, selected, true);
            chosen(before, selection, true).to_multiset_ensures();
            assert(chosen(items, selection, true).to_multiset() =~= part.to_multiset());
            selection
        } else {
            assert(part.to_multiset().count(last) == 0);
            assert(part.to_multiset().subset_of(before.to_multiset()));
            let selected = lemma_part_is_selectable(before, part);
            let selection = selected.push(false);
            lemma_chosen_prefix(before, selection, selected, true);
            selection
        }
    }
}

/// Any two parts that hold the items between them are the sides of a selection.
proof fn lemma_split_is_selectable<T>(items: Seq<T>, a: Seq<T>, b: Seq<T>) -> (selection: Seq<bool>)
    requires
        a.to_multiset().add(b.to_multiset()) == items.to_multiset(),
    ensures
        selection.len() == items.len(),
        chosen(items, selection, true).to_multiset() == a.to_multiset(),
        chosen(items, selection, false).to_multiset() == b.to_multiset(),
{
    broadcast use vstd::multiset::group_multiset_axioms;

    let selection = lemma_part_is_selectable(items, a);
    let picked = chosen(items, selection, true);
    let left = chosen(items, selection, false);
    law_split_is_a_partition(items, selection);
    assert(left.to_multiset() =~= b.to_multiset()) by {
        assert forall|x: T| left.to_multiset().count(x) == b.to_multiset().count(x) by {
            assert(picked.to_multiset().add(left.to_multiset()).count(x) == a.to_multiset().add(
                b.to_multiset(),
            ).count(x));
        }
    }
    selection
}

/// No way to split ten players into two teams of five leaves a smaller
/// difference in total rating than the chosen one.
pub proof fn law_balance_is_optimal(players: Seq<Player>, a: Seq<Player>, b: Seq<Player>)
    requires
        players.len() == MATCH_SIZE,
        a.len() == TEAM_SIZE,
        b.len() == TEAM_SIZE,
        a.to_multiset().add(b.to_multiset()) == players.to_multiset(),
    ensures
        delta(players, best_selection(players)) <= rating_total(a) - rating_total(b) || delta(
            players,
            best_selection(players),
        ) <= rating_total(b) - rating_total(a),
{
    lemma_best_selection(players);
    let selection = lemma_split_is_selectable(players, a, b);
    let picked = chosen(players, selection, true);
    let left = chosen(players, selection, false);
    lemma_sides_add_up(players, selection);
    picked.to_multiset_ensures();
    a.to_multiset_ensures();
    lemma_ratings_of_permutation(picked, a);
    lemma_ratings_of_permutation(left, b);
    lemma_rating_total_of_ratings(picked, a);
    lemma_rating_total_of_ratings(left, b);
    assert(!preferred(players, selection, best_selection(players)));
}

/// Both teams have five players, their ratings add up to the total, team A is
/// rated at least as high as team B, and the difference is at most the total.
pub proof fn law_teams_of_the_best_split(players: Seq<Player>)
    requires
        players.len() == MATCH_SIZE,
    ensures
        chosen(players, best_selection(players), true).len() == TEAM_SIZE,
        chosen(players, best_selection(players), false).len() == TEAM_SIZE,
        side_a(players, best_selection(players)) + side_b(players, best_selection(players))
            == rating_total(players),
        side_a(players, best_selection(players)) == side_b(players, best_selection(players))
            + delta(players, best_selection(players)),
        delta(players, best_selection(players)) <= rating_total(players),
{
    let best = best_selection(players);
    lemma_best_selection(players);
    lemma_sides_add_up(players, best);
    let swapped = complement(best);
    lemma_complement(players, best);
    lemma_complement_picks(best);
    assert(is_selection(swapped));
    assert(!preferred(players, swapped, best));
}

/// Ten players of equal rating are split without any difference.
pub proof fn law_equal_ratings_balance_perfectly(players: Seq<Player>, rating: u32)
    requires
        players.len() == MATCH_SIZE,
        forall|i: int| 0 <= i < players.len() ==> (#[trigger] players[i]).skill_rating == rating,
    ensures
        delta(players, best_selection(players)) == 0,
{
    let best = best_selection(players);
    lemma_best_selection(players);
    lemma_sides_add_up(players, best);
    lemma_equal_ratings(players, best, true, rating);
    lemma_equal_ratings(players, best, false, rating);
}

proof fn lemma_equal_ratings(
    players: Seq<Player>,
    selection: Seq<bool>,
    side: bool,
    rating: u32,
)
    requires
        forall|i: int| 0 <= i < players.len() ==> (#[trigger] players[i]).skill_rating == rating,
    ensures
        rating_total(chosen(players, selection, side)) == chosen(players, selection, side).len()
            * rating,
    decreases players.len(),
{
    let team = chosen(players, selection, side);
    if players.len() > 0 {
        let before = chosen(players.drop_last(), selection, side);
        lemma_equal_ratings(players.drop_last(), selection, side, rating);
        assert(before.push(players.last()).drop_last() =~= before);
        assert((before.len() + 1) * rating == before.len() * rating + rating) by (nonlinear_arith);
    } else {
        assert(0 * rating == 0) by (nonlinear_arith);
    }
}

/// Ten players with the same ratings as other ten are split no worse.
proof fn lemma_split_of_ratings(players: Seq<Player>, others: Seq<Player>)
    requires
        players.len() == MATCH_SIZE,
        others.len() == MATCH_SIZE,
        ratings(players).to_multiset() == ratings(others).to_multiset(),
    ensures
        delta(players, best_selection(players)) <= delta(others, best_selection(others)),
{
    let best = best_selection(others);
    lemma_best_selection(players);
    lemma_best_selection(others);
    lemma_sides_add_up(others, best);
    let a = chosen(ratings(others), best, true);
    let b = chosen(ratings(others), best, false);
    law_split_is_a_partition(ratings(others), best);
    let selection = lemma_split_is_selectable(ratings(players), a, b);
    lemma_sides_add_up(players, selection);
    lemma_ratings_of_chosen(players, selection, true);
    lemma_ratings_of_chosen(players, selection, false);
    lemma_ratings_of_chosen(others, best, true);
    lemma_ratings_of_chosen(others, best, false);
    lemma_rating_total_of_ratings(chosen(players, selection, true), chosen(others, best, true));
    lemma_rating_total_of_ratings(chosen(players, selection, false), chosen(others, best, false));
    ratings(chosen(players, selection, true)).to_multiset_ensures();
    ratings(chosen(others, best, true)).to_multiset_ensures();
    assert(is_selection(selection));
    assert(!preferred(players, selection, best_selection(players)));
}

/// Ten players with the same ratings as other ten, in whatever order, are split
/// with the same difference and the same team totals, whoever they are.
pub proof fn law_equal_ratings_are_split_alike(players: Seq<Player>, others: Seq<Player>)
    requires
        players.len() == MATCH_SIZE,
        others.len() == MATCH_SIZE,
        ratings(players).to_multiset() == ratings(others).to_multiset(),
    ensures
        delta(players, best_selection(players)) == delta(others, best_selection(others)),
        side_a(players, best_selection(players)) == side_a(others, best_selection(others)),
        side_b(players, best_selection(players)) == side_b(others, best_selection(others)),
        rating_total(players) == rating_total(others),
{
    lemma_split_of_ratings(players, others);
    lemma_split_of_ratings(others, players);
    law_teams_of_the_best_split(players);
    law_teams_of_the_best_split(others);
    lemma_rating_total_of_ratings(players, others);
}

proof fn lemma_rank_is_a_sum(players: Seq<Player>, id: u128)
    ensures
        rank(players, id) == sum_by(
            players,
            |player: Player| if player.id < id { 1nat } else { 0nat },
        ),
    decreases players.len(),
{
    if players.len() > 0 {
        lemma_rank_is_a_sum(players.drop_last(), id);
    }
}

/// A rank does not depend on the order of the players.
proof fn lemma_rank_of_permutation(players: Seq<Player>, reordered: Seq<Player>, id: u128)
    requires
        players.to_multiset() == reordered.to_multiset(),
    ensures
        rank(players, id) == rank(reordered, id),
{
    lemma_rank_is_a_sum(players, id);
    lemma_rank_is_a_sum(reordered, id);
    lemma_sum_of_permutation(
        players,
        reordered,
        |player: Player| if player.id < id { 1nat } else { 0nat },
    );
}

proof fn lemma_team_number_is_a_sum(players: Seq<Player>, team: Seq<Player>)
    ensures
        team_number(players, team) == sum_by(
            team,
            |player: Player| power2::pow2(rank(players, player.id)),
        ),
    decreases team.len(),
{
    if team.len() > 0 {
        lemma_team_number_is_a_sum(players, team.drop_last());
    }
}

/// The number of a team depends neither on the order of the team nor on that of
/// the players.
proof fn lemma_team_number_of_permutation(
    players: Seq<Player>,
    team: Seq<Player>,
    reordered: Seq<Player>,
    same: Seq<Player>,
)
    requires
        players.to_multiset() == reordered.to_multiset(),
        team.to_multiset() == same.to_multiset(),
    ensures
        team_number(players, team) == team_number(reordered, same),
{
    let before = |player: Player| power2::pow2(rank(players, player.id));
    let after = |player: Player| power2::pow2(rank(reordered, player.id));
    assert forall|player: Player| #[trigger] before(player) == after(player) by {
        lemma_rank_of_permutation(players, reordered, player.id);
    }
    assert(before =~= after);
    lemma_team_number_is_a_sum(players, team);
    lemma_team_number_is_a_sum(reordered, same);
    lemma_sum_of_permutation(team, same, before);
}

/// Ranks follow the order of the identifiers.
proof fn lemma_rank_is_ordered(players: Seq<Player>, low: u128, high: u128)
    requires
        low < high,
    ensures
        rank(players, low) <= rank(players, high),
        claims::listed(players, low) ==> rank(players, low) < rank(players, high),
    decreases players.len(),
{
    if players.len() > 0 {
        let before = players.drop_last();
        lemma_rank_is_ordered(before, low, high);
        claims::lemma_listed_push(before, players.last(), low);
        assert(before.push(players.last()) =~= players);
    }
}

proof fn lemma_rank_bound(players: Seq<Player>, id: u128)
    ensures
        rank(players, id) <= players.len(),
        claims::listed(players, id) ==> rank(players, id) < players.len(),
    decreases players.len(),
{
    if players.len() > 0 {
        let before = players.drop_last();
        lemma_rank_bound(before, id);
        claims::lemma_listed_push(before, players.last(), id);
        assert(before.push(players.last()) =~= players);
    }
}

/// Which ranks the players of a team have.
spec fn marks(players: Seq<Player>, team: Seq<Player>) -> Seq<bool>
    decreases team.len(),
{
    if team.len() == 0 {
        Seq::new(players.len(), |i: int| false)
    } else {
        marks(players, team.drop_last()).update(rank(players, team.last().id) as int, true)
    }
}

proof fn lemma_number_of_none(selection: Seq<bool>)
    requires
        forall|i: int| 0 <= i < selection.len() ==> !selection[i],
    ensures
        number(selection) == 0,
    decreases selection.len(),
{
    if selection.len() > 0 {
        lemma_number_of_none(selection.drop_first());
    }
}

/// Picking one more position adds its power of two.
proof fn lemma_number_of_one_more(selection: Seq<bool>, k: int)
    requires
        0 <= k < selection.len(),
        !selection[k],
    ensures
        number(selection.update(k, true)) == number(selection) + power2::pow2(k as nat),
    decreases selection.len(),
{
    let more = selection.update(k, true);
    if k == 0 {
        power2::lemma2_to64();
        assert(more.drop_first() =~= selection.drop_first());
    } else {
        power2::lemma_pow2_unfold(k as nat);
        lemma_number_of_one_more(selection.drop_first(), k - 1);
        assert(more.drop_first() =~= selection.drop_first().update(k - 1, true));
    }
}

/// Every player of a team is one of the players.
spec fn drawn_from(players: Seq<Player>, team: Seq<Player>) -> bool {
    forall|i: int| 0 <= i < team.len() ==> players.contains(#[trigger] team[i])
}

/// The number of a team is the number of its marks.
proof fn lemma_marks(players: Seq<Player>, team: Seq<Player>)
    requires
        claims::distinct(players),
        claims::distinct(team),
        drawn_from(players, team),
    ensures
        marks(players, team).len() == players.len(),
        number(marks(players, team)) == team_number(players, team),
        forall|k: int|
            0 <= k < players.len() ==> (#[trigger] marks(players, team)[k] <==> exists|i: int|
                0 <= i < team.len() && rank(players, (#[trigger] team[i]).id) == k),
    decreases team.len(),
{
    if team.len() == 0 {
        lemma_number_of_none(marks(players, team));
    } else {
        let before = team.drop_last();
        let last = team[team.len() - 1];
        assert forall|i: int, j: int| 0 <= i < j < before.len() implies (#[trigger] before[i]).id
            != (#[trigger] before[j]).id by {
            assert(team[i].id != team[j].id);
        }
        assert forall|i: int| 0 <= i < before.len() implies players.contains(
            #[trigger] before[i],
        ) by {
            assert(players.contains(team[i]));
        }
        lemma_marks(players, before);
        let position = rank(players, last.id) as int;
        assert(players.contains(team[team.len() - 1]));
        lemma_contained_is_listed(players, last);
        lemma_rank_bound(players, last.id);
        let marked = marks(players, before);
        if marked[position] {
            let i = choose|i: int|
                0 <= i < before.len() && rank(players, (#[trigger] before[i]).id) == position;
            assert(players.contains(before[i]));
            assert(team[i].id != team[team.len() - 1].id);
            lemma_rank_identifies(players, before[i], last);
        }
        lemma_number_of_one_more(marked, position);
        assert forall|k: int| 0 <= k < players.len() implies (#[trigger] marks(players, team)[k]
            <==> exists|i: int|
            0 <= i < team.len() && rank(players, (#[trigger] team[i]).id) == k) by {
            if k == position {
                assert(rank(players, team[team.len() - 1].id) == k);
            } else {
                if marked[k] {
                    let i = choose|i: int|
                        0 <= i < before.len() && rank(players, (#[trigger] before[i]).id) == k;
                    assert(rank(players, team[i].id) == k);
                }
                if exists|i: int|
                    0 <= i < team.len() && rank(players, (#[trigger] team[i]).id) == k {
                    let i = choose|i: int|
                        0 <= i < team.len() && rank(players, (#[trigger] team[i]).id) == k;
                    assert(rank(players, before[i].id) == k);
                }
            }
        }
    }
}

proof fn lemma_contained_is_listed(players: Seq<Player>, player: Player)
    requires
        players.contains(player),
    ensures
        claims::listed(players, player.id),
{
    let k = choose|k: int| 0 <= k < players.len() && players[k] == player;
    assert(players[k].id == player.id);
}

/// Only one of different players has a given rank.
proof fn lemma_rank_identifies(players: Seq<Player>, a: Player, b: Player)
    requires
        claims::distinct(players),
        players.contains(a),
        players.contains(b),
        rank(players, a.id) == rank(players, b.id),
    ensures
        a == b,
{
    lemma_contained_is_listed(players, a);
    lemma_contained_is_listed(players, b);
    if a.id < b.id {
        lemma_rank_is_ordered(players, a.id, b.id);
    } else if b.id < a.id {
        lemma_rank_is_ordered(players, b.id, a.id);
    } else {
        let i = choose|i: int| 0 <= i < players.len() && players[i] == a;
        let j = choose|j: int| 0 <= j < players.len() && players[j] == b;
        if i < j {
            assert(players[i].id != players[j].id);
        } else if j < i {
            assert(players[j].id != players[i].id);
        }
    }
}

/// A team number tells who is in the team.
proof fn lemma_team_number_identifies(players: Seq<Player>, a: Seq<Player>, b: Seq<Player>)
    requires
        claims::distinct(players),
        claims::distinct(a),
        claims::distinct(b),
        drawn_from(players, a),
        drawn_from(players, b),
        team_number(players, a) == team_number(players, b),
    ensures
        forall|i: int| 0 <= i < a.len() ==> b.contains(#[trigger] a[i]),
{
    lemma_marks(players, a);
    lemma_marks(players, b);
    lemma_number_identifies(marks(players, a), marks(players, b));
    assert forall|i: int| 0 <= i < a.len() implies b.contains(#[trigger] a[i]) by {
        assert(players.contains(a[i]));
        lemma_contained_is_listed(players, a[i]);
        lemma_rank_bound(players, a[i].id);
        let position = rank(players, a[i].id) as int;
        assert(marks(players, a)[position]);
        assert(marks(players, b)[position]);
        let j = choose|j: int| 0 <= j < b.len() && rank(players, (#[trigger] b[j]).id) == position;
        assert(players.contains(b[j]));
        lemma_rank_identifies(players, a[i], b[j]);
    }
}

/// The chosen players of either side are players of the list, and every player
/// of the list is on one side.
pub(crate) proof fn lemma_chosen_ids(players: Seq<Player>, selection: Seq<bool>, id: u128)
    ensures
        claims::listed(players, id) <==> claims::listed(chosen(players, selection, true), id)
            || claims::listed(chosen(players, selection, false), id),
    decreases players.len(),
{
    if players.len() > 0 {
        let before = players.drop_last();
        let last = players.last();
        lemma_chosen_ids(before, selection, id);
        claims::lemma_listed_push(before, last, id);
        assert(before.push(last) =~= players);
        claims::lemma_listed_push(chosen(before, selection, true), last, id);
        claims::lemma_listed_push(chosen(before, selection, false), last, id);
    }
}

/// The two sides of different players are made of different players.
pub(crate) proof fn lemma_sides_are_distinct(players: Seq<Player>, selection: Seq<bool>)
    requires
        claims::distinct(players),
    ensures
        claims::distinct(chosen(players, selection, true)),
        claims::distinct(chosen(players, selection, false)),
        forall|i: int, j: int|
            0 <= i < chosen(players, selection, true).len() && 0 <= j < chosen(
                players,
                selection,
                false,
            ).len() ==> (#[trigger] chosen(players, selection, true)[i]).id != (#[trigger] chosen(
                players,
                selection,
                false,
            )[j]).id,
    decreases players.len(),
{
    if players.len() > 0 {
        let before = players.drop_last();
        let last = players[players.len() - 1];
        let a = chosen(before, selection, true);
        let b = chosen(before, selection, false);
        assert forall|i: int, j: int| 0 <= i < j < before.len() implies (#[trigger] before[i]).id
            != (#[trigger] before[j]).id by {
            assert(players[i].id != players[j].id);
        }
        lemma_sides_are_distinct(before, selection);
        assert(!claims::listed(before, last.id)) by {
            if claims::listed(before, last.id) {
                let k = choose|k: int| 0 <= k < before.len() && (#[trigger] before[k]).id == last.id;
                assert(players[k].id != players[players.len() - 1].id);
            }
        }
        lemma_chosen_ids(before, selection, last.id);
        assert forall|i: int| 0 <= i < a.len() implies (#[trigger] a[i]).id != last.id by {}
        assert forall|i: int| 0 <= i < b.len() implies (#[trigger] b[i]).id != last.id by {}
    }
}

/// A player is on one side exactly if it is among the players.
pub(crate) proof fn lemma_chosen_members(players: Seq<Player>, selection: Seq<bool>, player: Player)
    requires
        selection.len() == players.len(),
    ensures
        players.contains(player) <==> chosen(players, selection, true).contains(player) || chosen(
            players,
            selection,
            false,
        ).contains(player),
{
    broadcast use vstd::multiset::group_multiset_axioms;

    let a = chosen(players, selection, true);
    let b = chosen(players, selection, false);
    law_split_is_a_partition(players, selection);
    players.to_multiset_ensures();
    a.to_multiset_ensures();
    b.to_multiset_ensures();
    assert(players.to_multiset().count(player) == a.to_multiset().count(player)
        + b.to_multiset().count(player));
    assert(players.contains(player) <==> players.to_multiset().count(player) > 0);
    assert(a.contains(player) <==> a.to_multiset().count(player) > 0);
    assert(b.contains(player) <==> b.to_multiset().count(player) > 0);
}

/// Reordered players have a selection that makes the same teams as the best one
/// does, so the best one has no higher a number of team A.
proof fn lemma_number_of_the_best(players: Seq<Player>, reordered: Seq<Player>)
    requires
        players.len() == MATCH_SIZE,
        reordered.len() == MATCH_SIZE,
        players.to_multiset() == reordered.to_multiset(),
    ensures
        number_a(players, best_selection(players)) <= number_a(
            reordered,
            best_selection(reordered),
        ),
{
    let best = best_selection(reordered);
    let a = chosen(reordered, best, true);
    let b = chosen(reordered, best, false);
    lemma_best_selection(players);
    lemma_best_selection(reordered);
    lemma_ratings_of_permutation(players, reordered);
    law_equal_ratings_are_split_alike(players, reordered);
    lemma_sides_add_up(reordered, best);
    law_split_is_a_partition(reordered, best);
    let selection = lemma_split_is_selectable(players, a, b);
    let picked = chosen(players, selection, true);
    let left = chosen(players, selection, false);
    lemma_sides_add_up(players, selection);
    picked.to_multiset_ensures();
    a.to_multiset_ensures();
    lemma_ratings_of_permutation(picked, a);
    lemma_ratings_of_permutation(left, b);
    lemma_rating_total_of_ratings(picked, a);
    lemma_rating_total_of_ratings(left, b);
    lemma_team_number_of_permutation(players, picked, reordered, a);
    assert(is_selection(selection));
    assert(!preferred(players, selection, best_selection(players)));
}

/// Different players stay different in another order.
proof fn lemma_distinct_in_any_order(players: Seq<Player>, reordered: Seq<Player>)
    requires
        claims::distinct(players),
        players.to_multiset() == reordered.to_multiset(),
    ensures
        claims::distinct(reordered),
        forall|player: Player| #[trigger] reordered.contains(player) <==> players.contains(player),
{
    players.to_multiset_ensures();
    reordered.to_multiset_ensures();
    assert forall|player: Player| #[trigger] reordered.contains(player) <==> players.contains(
        player,
    ) by {
        assert(players.contains(player) <==> players.to_multiset().count(player) > 0);
        assert(reordered.contains(player) <==> reordered.to_multiset().count(player) > 0);
    }
    assert forall|i: int, j: int| 0 <= i < players.len() && 0 <= j < players.len() && i != j implies players[i]
        != players[j] by {
        if i < j {
            assert(players[i].id != players[j].id);
        } else {
            assert(players[j].id != players[i].id);
        }
    }
    players.lemma_multiset_has_no_duplicates();
    reordered.lemma_multiset_has_no_duplicates_conv();
    assert forall|i: int, j: int| 0 <= i < j < reordered.len() implies (#[trigger] reordered[i]).id
        != (#[trigger] reordered[j]).id by {
        if reordered[i].id == reordered[j].id {
            assert(reordered.contains(reordered[i]) && reordered.contains(reordered[j]));
            lemma_rank_identifies(players, reordered[i], reordered[j]);
        }
    }
}

/// Who is in team A for one order of the players is in it for any other.
proof fn lemma_team_a_in_any_order(players: Seq<Player>, reordered: Seq<Player>, player: Player)
    requires
        players.len() == MATCH_SIZE,
        reordered.len() == MATCH_SIZE,
        claims::distinct(players),
        players.to_multiset() == reordered.to_multiset(),
        chosen(players, best_selection(players), true).contains(player),
    ensures
        chosen(reordered, best_selection(reordered), true).contains(player),
{
    let here = chosen(players, best_selection(players), true);
    let there = chosen(reordered, best_selection(reordered), true);
    lemma_best_selection(players);
    lemma_best_selection(reordered);
    lemma_number_of_the_best(players, reordered);
    lemma_number_of_the_best(reordered, players);
    lemma_distinct_in_any_order(players, reordered);
    lemma_sides_are_distinct(players, best_selection(players));
    lemma_sides_are_distinct(reordered, best_selection(reordered));
    lemma_team_number_of_permutation(reordered, there, players, there);
    assert forall|i: int| 0 <= i < here.len() implies players.contains(#[trigger] here[i]) by {
        assert(here.contains(here[i]));
        lemma_chosen_members(players, best_selection(players), here[i]);
    }
    assert forall|i: int| 0 <= i < there.len() implies players.contains(#[trigger] there[i]) by {
        assert(there.contains(there[i]));
        lemma_chosen_members(reordered, best_selection(reordered), there[i]);
    }
    lemma_team_number_identifies(players, here, there);
    let k = choose|k: int| 0 <= k < here.len() && here[k] == player;
    assert(there.contains(here[k]));
}

/// A player is not on both sides of different players.
proof fn lemma_sides_are_disjoint(players: Seq<Player>, selection: Seq<bool>, player: Player)
    requires
        claims::distinct(players),
    ensures
        !(chosen(players, selection, true).contains(player) && chosen(
            players,
            selection,
            false,
        ).contains(player)),
{
    let a = chosen(players, selection, true);
    let b = chosen(players, selection, false);
    lemma_sides_are_distinct(players, selection);
    if a.contains(player) && b.contains(player) {
        let i = choose|i: int| 0 <= i < a.len() && a[i] == player;
        let j = choose|j: int| 0 <= j < b.len() && b[j] == player;
        assert(a[i].id != b[j].id);
    }
}

/// The order in which ten players are given does not matter: each team is made of
/// the same players, and the difference and the team totals are the same.
pub proof fn law_order_of_players_is_irrelevant(players: Seq<Player>, reordered: Seq<Player>)
    requires
        players.len() == MATCH_SIZE,
        claims::distinct(players),
        players.to_multiset() == reordered.to_multiset(),
    ensures
        chosen(players, best_selection(players), true).to_set() == chosen(
            reordered,
            best_selection(reordered),
            true,
        ).to_set(),
        chosen(players, best_selection(players), false).to_set() == chosen(
            reordered,
            best_selection(reordered),
            false,
        ).to_set(),
        delta(players, best_selection(players)) == delta(reordered, best_selection(reordered)),
        side_a(players, best_selection(players)) == side_a(reordered, best_selection(reordered)),
        side_b(players, best_selection(players)) == side_b(reordered, best_selection(reordered)),
{
    let s = best_selection(players);
    let t = best_selection(reordered);
    players.to_multiset_ensures();
    reordered.to_multiset_ensures();
    lemma_ratings_of_permutation(players, reordered);
    law_equal_ratings_are_split_alike(players, reordered);
    lemma_best_selection(players);
    lemma_best_selection(reordered);
    lemma_distinct_in_any_order(players, reordered);
    assert forall|player: Player|
        chosen(players, s, true).contains(player) <==> chosen(reordered, t, true).contains(
            player,
        ) by {
        if chosen(players, s, true).contains(player) {
            lemma_team_a_in_any_order(players, reordered, player);
        }
        if chosen(reordered, t, true).contains(player) {
            lemma_team_a_in_any_order(reordered, players, player);
        }
    }
    assert forall|player: Player|
        chosen(players, s, false).contains(player) <==> chosen(reordered, t, false).contains(
            player,
        ) by {
        lemma_chosen_members(players, s, player);
        lemma_chosen_members(reordered, t, player);
        lemma_sides_are_disjoint(players, s, player);
        lemma_sides_are_disjoint(reordered, t, player);
        assert(chosen(players, s, true).contains(player) <==> chosen(reordered, t, true).contains(
            player,
        ));
        assert(reordered.contains(player) <==> players.contains(player));
    }
    assert(chosen(players, s, true).to_set() =~= chosen(reordered, t, true).to_set());
    assert(chosen(players, s, false).to_set() =~= chosen(reordered, t, false).to_set());
}

/// The total rating of two groups is the sum of their totals; nobody totals zero,
/// and one player its rating.
pub proof fn law_rating_totals_add_up(a: Seq<Player>, b: Seq<Player>, one: Player)
    ensures
        rating_total(Seq::<Player>::empty()) == 0,
        rating_total(seq![one]) == one.skill_rating,
        rating_total(a + b) == rating_total(a) + rating_total(b),
    decreases b.len(),
{
    assert(seq![one].drop_last() =~= Seq::<Player>::empty());
    assert(rating_total(seq![one]) == rating_total(seq![one].drop_last())
        + one.skill_rating as nat);
    if b.len() == 0 {
        assert(a + b =~= a);
    } else {
        law_rating_totals_add_up(a, b.drop_last(), one);
        assert((a + b).drop_last() =~= a + b.drop_last());
    }
}

/// The difference of a split is what the weaker team lacks to the stronger one.
pub proof fn law_delta_is_the_difference_of_the_teams(players: Seq<Player>, selection: Seq<bool>)
    ensures
        ({
            let a = rating_total(chosen(players, selection, true));
            let b = rating_total(chosen(players, selection, false));
            &&& a >= b ==> b + delta(players, selection) == a
            &&& b >= a ==> a + delta(players, selection) == b
        }),
{
}

/// Each side holds the items at its positions, in the order of the items.
pub proof fn law_sides_keep_the_order<T>(
    items: Seq<T>,
    selection: Seq<bool>,
    side: bool,
    i: int,
    j: int,
)
    ensures
        0 <= i < chosen(items, selection, side).len() ==> exists|a: int|
            0 <= a < items.len() && selection[a] == side && #[trigger] items[a] == chosen(
                items,
                selection,
                side,
            )[i],
        0 <= i < j < chosen(items, selection, side).len() ==> exists|a: int, b: int|
            0 <= a < b < items.len() && selection[a] == side && selection[b] == side
                && #[trigger] items[a] == chosen(items, selection, side)[i] && #[trigger] items[b]
                == chosen(items, selection, side)[j],
    decreases items.len(),
{
    let team = chosen(items, selection, side);
    if items.len() > 0 {
        let before = items.drop_last();
        let kept = chosen(before, selection, side);
        let last = items.len() - 1;
        law_sides_keep_the_order(before, selection, side, i, j);
        if 0 <= i < team.len() {
            if i < kept.len() {
                let a = choose|a: int|
                    0 <= a < before.len() && selection[a] == side && #[trigger] before[a]
                        == kept[i];
                assert(items[a] == team[i]);
                if j == kept.len() && j < team.len() {
                    assert(items[last] == team[j]);
                }
            } else {
                assert(items[last] == team[i]);
            }
        }
        if 0 <= i < j < kept.len() {
            let (a, b) = choose|a: int, b: int|
                0 <= a < b < before.len() && selection[a] == side && selection[b] == side
                    && #[trigger] before[a] == kept[i] && #[trigger] before[b] == kept[j];
            assert(items[a] == team[i] && items[b] == team[j]);
        }
    }
}

/// The number with the highest position that the other lacks is the greater one.
proof fn lemma_highest_position_decides(s: Seq<bool>, t: Seq<bool>, k: int)
    requires
        s.len() == t.len(),
        0 <= k < s.len(),
        s[k],
        !t[k],
        forall|i: int| k < i < s.len() ==> s[i] == t[i],
    ensures
        number(s) > number(t),
    decreases s.len(),
{
    let s2 = s.drop_first();
    let t2 = t.drop_first();
    if k == 0 {
        assert(s2 =~= t2);
    } else {
        assert forall|i: int| k - 1 < i < s2.len() implies s2[i] == t2[i] by {
            assert(s[i + 1] == t[i + 1]);
        }
        lemma_highest_position_decides(s2, t2, k - 1);
    }
}

/// Who goes to team A when splits are tied: of the best split and any other with the
/// same team totals, look at the players who change sides. The one of them with the
/// highest identifier is in team B of the best split.
pub proof fn law_ties_put_the_higher_identifier_in_team_b(
    players: Seq<Player>,
    other: Seq<bool>,
    top: Player,
)
    requires
        players.len() == 10,
        claims::distinct(players),
        is_selection(other),
        rating_total(chosen(players, other, true)) == rating_total(
            chosen(players, best_selection(players), true),
        ),
        rating_total(chosen(players, other, false)) == rating_total(
            chosen(players, best_selection(players), false),
        ),
        players.contains(top),
        chosen(players, best_selection(players), true).contains(top) != chosen(
            players,
            other,
            true,
        ).contains(top),
        forall|higher: Player| #[trigger]
            players.contains(higher) && higher.id > top.id ==> (chosen(
                players,
                best_selection(players),
                true,
            ).contains(higher) <==> chosen(players, other, true).contains(higher)),
    ensures
        chosen(players, best_selection(players), false).contains(top),
{
    let best = best_selection(players);
    let a = chosen(players, best, true);
    let b = chosen(players, other, true);
    lemma_best_selection(players);
    lemma_chosen_members(players, best, top);
    if a.contains(top) {
        lemma_sides_are_distinct(players, best);
        lemma_sides_are_distinct(players, other);
        assert forall|i: int| 0 <= i < a.len() implies players.contains(#[trigger] a[i]) by {
            assert(a.contains(a[i]));
            lemma_chosen_members(players, best, a[i]);
        }
        assert forall|i: int| 0 <= i < b.len() implies players.contains(#[trigger] b[i]) by {
            assert(b.contains(b[i]));
            lemma_chosen_members(players, other, b[i]);
        }
        lemma_marks(players, a);
        lemma_marks(players, b);
        lemma_contained_is_listed(players, top);
        lemma_rank_bound(players, top.id);
        let position = rank(players, top.id) as int;
        let here = marks(players, a);
        let there = marks(players, b);
        let t = choose|t: int| 0 <= t < a.len() && a[t] == top;
        assert(rank(players, a[t].id) == position);
        assert(here[position]);
        if there[position] {
            let j = choose|j: int| 0 <= j < b.len() && rank(players, (#[trigger] b[j]).id) == position;
            assert(players.contains(b[j]));
            lemma_rank_identifies(players, b[j], top);
            assert(b.contains(b[j]));
        }
        assert forall|k: int| position < k < here.len() implies here[k] == there[k] by {
            if here[k] {
                let i = choose|i: int| 0 <= i < a.len() && rank(players, (#[trigger] a[i]).id) == k;
                lemma_higher_rank(players, top, a[i]);
                assert(players.contains(a[i]) && a.contains(a[i]));
                let j = choose|j: int| 0 <= j < b.len() && b[j] == a[i];
                assert(rank(players, b[j].id) == k);
            }
            if there[k] {
                let j = choose|j: int| 0 <= j < b.len() && rank(players, (#[trigger] b[j]).id) == k;
                lemma_higher_rank(players, top, b[j]);
                assert(players.contains(b[j]) && b.contains(b[j]));
                let i = choose|i: int| 0 <= i < a.len() && a[i] == b[j];
                assert(rank(players, a[i].id) == k);
            }
        }
        lemma_highest_position_decides(here, there, position);
        assert(preferred(players, other, best));
    }
}

/// A higher rank means a higher identifier.
proof fn lemma_higher_rank(players: Seq<Player>, low: Player, high: Player)
    requires
        rank(players, low.id) < rank(players, high.id),
    ensures
        high.id > low.id,
{
    if high.id < low.id {
        lemma_rank_is_ordered(players, high.id, low.id);
    }
}

} // verus!

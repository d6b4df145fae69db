//! The primary store of the player pool: players by identifier, in a `DashMap`.

use dashmap::DashMap;
use vstd::prelude::*;

use crate::models::Player;

verus! {

/// `dashmap::DashMap`, a sharded hash map. What one holds is [`players_in`].
#[verifier::external_type_specification]
#[verifier::external_body]
#[verifier::reject_recursive_types(K)]
#[verifier::reject_recursive_types(V)]
#[verifier::reject_recursive_types(S)]
pub struct ExDashMap<K, V, S>(dashmap::DashMap<K, V, S>);

/// The players that a map holds, by key.
pub uninterp spec fn players_in(map: DashMap<u128, Player>) -> Map<u128, Player>;

/// `DashMap::new` creates a map that holds nothing.
#[verifier::external_body]
pub(crate) fn new_map() -> (created: DashMap<u128, Player>)
    ensures
        players_in(created).dom() == Set::<u128>::empty(),
{
    DashMap::new()
}

/// `DashMap::insert` stores a value under a key, replaces the value that was
/// there, and returns it.
#[verifier::external_body]
pub(crate) fn map_insert(map: &mut DashMap<u128, Player>, id: u128, player: Player) -> (previous:
    Option<Player>)
    ensures
        players_in(*final(map)) == players_in(*old(map)).insert(id, player),
        previous == if players_in(*old(map)).contains_key(id) {
            Some(players_in(*old(map))[id])
        } else {
            None
        },
{
    map.insert(id, player)
}

/// `DashMap::remove` takes a key and its value out and returns the value, or
/// `None` if the key was not there.
#[verifier::external_body]
pub(crate) fn map_remove(map: &mut DashMap<u128, Player>, id: &u128) -> (removed: Option<Player>)
    ensures
        players_in(*final(map)) == players_in(*old(map)).remove(*id),
        removed == if players_in(*old(map)).contains_key(*id) {
            Some(players_in(*old(map))[*id])
        } else {
            None
        },
{
    match map.remove(id) {
        Some(entry) => Some(entry.1),
        None => None,
    }
}

/// `DashMap::get` looks a key up; here the value is copied out of the map.
#[verifier::external_body]
pub(crate) fn map_get(map: &DashMap<u128, Player>, id: &u128) -> (found: Option<Player>)
    ensures
        found == if players_in(*map).contains_key(*id) {
            Some(players_in(*map)[*id])
        } else {
            None
        },
{
    match map.get(id) {
        Some(entry) => Some(*entry.value()),
        None => None,
    }
}

/// `DashMap::contains_key` tells whether a key is in the map.
#[verifier::external_body]
pub(crate) fn map_contains(map: &DashMap<u128, Player>, id: &u128) -> (present: bool)
    ensures
        present == players_in(*map).contains_key(*id),
{
    map.contains_key(id)
}

/// `DashMap::len` counts the keys.
#[verifier::external_body]
pub(crate) fn map_len(map: &DashMap<u128, Player>) -> (count: usize)
    ensures
        count == players_in(*map).dom().len(),
{
    map.len()
}

/// `DashMap::is_empty` tells whether the map holds no key.
#[verifier::external_body]
pub(crate) fn map_is_empty(map: &DashMap<u128, Player>) -> (empty: bool)
    ensures
        empty == (players_in(*map).dom().len() == 0),
{
    map.is_empty()
}

/// `DashMap::iter` visits every key with its value exactly once; here the
/// entries are copied out. Nothing is promised of the order.
#[verifier::external_body]
pub(crate) fn map_entries(map: &DashMap<u128, Player>) -> (entries: Vec<(u128, Player)>)
    ensures
        forall|i: int|
            0 <= i < entries@.len() ==> players_in(*map).contains_key((#[trigger] entries@[i]).0)
                && players_in(*map)[entries@[i].0] == entries@[i].1,
        forall|i: int, j: int|
            0 <= i < j < entries@.len() ==> (#[trigger] entries@[i]).0 != (#[trigger] entries@[j]).0,
        forall|id: u128|
            players_in(*map).contains_key(id) ==> exists|i: int|
                0 <= i < entries@.len() && (#[trigger] entries@[i]).0 == id,
{
    map.iter().map(|entry| (*entry.key(), *entry.value())).collect()
}

} // verus!

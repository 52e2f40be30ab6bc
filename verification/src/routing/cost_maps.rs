//! Maps from node ids to costs, and sets of node ids, hashed with `ahash`.
use vstd::prelude::*;

use ahash::{HashMapExt, HashSetExt};

verus! {

/// The hasher of `ahash`'s maps and sets.
#[verifier::external_type_specification]
#[verifier::external_body]
pub struct ExAhashRandomState(ahash::RandomState);

/// A map from node ids to costs.
pub type CostMap = std::collections::HashMap<u32, u32, ahash::RandomState>;

/// A set of node ids.
pub type NodeSet = std::collections::HashSet<u32, ahash::RandomState>;

/// The map without entries.
pub open spec fn no_costs() -> Map<u32, u32> {
    Map::empty()
}

/// The set without nodes.
pub open spec fn no_nodes() -> Set<u32> {
    Set::empty()
}

/// Calls `ahash::HashMapExt::new`, which makes an empty `HashMap` with a fresh
/// `ahash::RandomState`. Claimed: the map is empty.
#[verifier::external_body]
pub(crate) fn cost_map_new() -> (created: CostMap)
    ensures
        created@ == no_costs(),
{
    <CostMap as HashMapExt>::new()
}

/// Calls `HashMap::get` on a map hashed by `ahash::RandomState`, whose hashers give equal hashes
/// for equal keys. Claimed: the cost stored for `key`, if there is one.
#[verifier::external_body]
pub(crate) fn cost_map_get(map: &CostMap, key: u32) -> (cost: Option<u32>)
    ensures
        cost == if map@.contains_key(key) {
            Some(map@[key])
        } else {
            None
        },
{
    map.get(&key).copied()
}

/// Calls `HashMap::insert` on a map hashed by `ahash::RandomState`. Claimed: afterwards `key`
/// maps to `cost` and every other entry stays.
#[verifier::external_body]
pub(crate) fn cost_map_insert(map: &mut CostMap, key: u32, cost: u32)
    ensures
        final(map)@ == old(map)@.insert(key, cost),
{
    map.insert(key, cost);
}

/// Calls `HashMap::remove` on a map hashed by `ahash::RandomState`. Claimed: afterwards `key`
/// has no entry and every other entry stays.
#[verifier::external_body]
pub(crate) fn cost_map_remove(map: &mut CostMap, key: u32)
    ensures
        final(map)@ == old(map)@.remove(key),
{
    map.remove(&key);
}

/// Calls `HashMap::iter` on a map hashed by `ahash::RandomState` and collects the entries as
/// pairs. Claimed: every entry of the map comes out once, and nothing else; the order is the
/// map's own and is left unsaid.
#[verifier::external_body]
pub(crate) fn cost_map_entries(map: &CostMap) -> (entries: Vec<(u32, u32)>)
    ensures
        forall|i: int| 0 <= i < entries@.len() ==> map@.contains_key(#[trigger] entries@[i].0) && map@[entries@[i].0] == entries@[i].1,
        forall|k: u32| #[trigger] map@.contains_key(k) ==> exists|i: int| 0 <= i < entries@.len() && entries@[i].0 == k,
        forall|i: int, j: int| 0 <= i < j < entries@.len() ==> #[trigger] entries@[i].0 != #[trigger] entries@[j].0,
{
    map.iter().map(|(k, v)| (*k, *v)).collect()
}

/// Calls `ahash::HashSetExt::new`, which makes an empty `HashSet` with a fresh
/// `ahash::RandomState`. Claimed: the set is empty.
#[verifier::external_body]
pub(crate) fn node_set_new() -> (created: NodeSet)
    ensures
        created@ == no_nodes(),
{
    <NodeSet as HashSetExt>::new()
}

/// Calls `HashSet::contains` on a set hashed by `ahash::RandomState`. Claimed: whether `node`
/// is in the set.
#[verifier::external_body]
pub(crate) fn node_set_contains(set: &NodeSet, node: u32) -> (found: bool)
    ensures
        found == set@.contains(node),
{
    set.contains(&node)
}

/// Calls `HashSet::insert` on a set hashed by `ahash::RandomState`. Claimed: afterwards `node` is
/// in the set with every node that was.
#[verifier::external_body]
pub(crate) fn node_set_insert(set: &mut NodeSet, node: u32)
    ensures
        final(set)@ == old(set)@.insert(node),
{
    set.insert(node);
}

} // verus!

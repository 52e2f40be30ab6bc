//! Searches over a contracted graph: depth-limited searches, labels with stall-on-demand, and
//! a bidirectional search that meets in the middle.
use vstd::prelude::*;

use crate::routing::ch::bounded_search::{is_first_min, lemma_map_sum_lower, map_sum, pop_min};
use crate::routing::cost_maps::{
    cost_map_entries, cost_map_get, cost_map_insert, cost_map_new, cost_map_remove, no_nodes, node_set_contains, node_set_insert,
    node_set_new, CostMap, NodeSet,
};
use crate::routing::fast_graph::{FastEdgeAccess, FastGraph};
use crate::routing::route::{Route, RouteRequest};
use super::ch_order::{lemma_side_done, lemma_side_pop, lemma_side_relax, lemma_side_walks, side_order};

verus! {

/// `nodes` is a walk of `access` that leaves each of its nodes but the last by the edge whose
/// index `ix` gives.
pub open spec fn indexed_walk(access: FastEdgeAccess, nodes: Seq<u32>, ix: Seq<int>) -> bool {
    &&& nodes.len() == ix.len() + 1
    &&& forall|k: int|
        0 <= k < ix.len() ==> 0 <= #[trigger] ix[k] < access.out(nodes[k] as int).len() && access.out(nodes[k] as int)[ix[k]].target
            == nodes[k + 1]
}

/// The cost of the edges that the walk takes.
pub open spec fn indexed_cost(access: FastEdgeAccess, nodes: Seq<u32>, ix: Seq<int>) -> int
    decreases ix.len(),
{
    if ix.len() == 0 {
        0
    } else {
        indexed_cost(access, nodes.drop_last(), ix.drop_last()) + access.out(nodes[ix.len() - 1] as int)[ix.last()].cost
    }
}

/// A walk of `access` from `s` to `t` with at most `max_edges` edges costs `c`.
pub open spec fn costs_walk(access: FastEdgeAccess, s: u32, t: u32, c: int, max_edges: int) -> bool {
    exists|nodes: Seq<u32>, ix: Seq<int>|
        #[trigger] indexed_walk(access, nodes, ix) && nodes[0] == s && nodes.last() == t && ix.len() <= max_edges && indexed_cost(
            access,
            nodes,
            ix,
        ) == c
}

/// A walk of `access` from `s` to `t` costs `c`.
pub open spec fn walk_costs(access: FastEdgeAccess, s: u32, t: u32, c: int) -> bool {
    exists|max_edges: int| #[trigger] costs_walk(access, s, t, c, max_edges)
}

/// The walk of one node costs nothing.
pub proof fn lemma_walk_start(access: FastEdgeAccess, s: u32)
    ensures
        costs_walk(access, s, s, 0, 0),
{
    let nodes = seq![s];
    let ix = Seq::<int>::empty();
    assert(indexed_walk(access, nodes, ix));
}

/// Going over edge `i` of `u` after a walk to `u` gives a walk to the edge's target.
pub proof fn lemma_walk_extend(access: FastEdgeAccess, s: u32, u: u32, c: int, d: int, i: int)
    requires
        costs_walk(access, s, u, c, d),
        0 <= i < access.out(u as int).len(),
    ensures
        costs_walk(access, s, access.out(u as int)[i].target, c + access.out(u as int)[i].cost, d + 1),
{
    let (nodes, ix) = choose|nodes: Seq<u32>, ix: Seq<int>|
        #[trigger] indexed_walk(access, nodes, ix) && nodes[0] == s && nodes.last() == u && ix.len() <= d && indexed_cost(access, nodes, ix) == c;
    let t = access.out(u as int)[i].target;
    let nodes2 = nodes.push(t);
    let ix2 = ix.push(i);
    assert forall|k: int| 0 <= k < ix2.len() implies 0 <= #[trigger] ix2[k] < access.out(nodes2[k] as int).len()
        && access.out(nodes2[k] as int)[ix2[k]].target == nodes2[k + 1] by {
        if k < ix.len() {
            assert(ix2[k] == ix[k] && nodes2[k] == nodes[k] && nodes2[k + 1] == nodes[k + 1]);
        } else {
            assert(nodes2[k] == nodes.last());
        }
    }
    assert(nodes2.drop_last() =~= nodes);
    assert(ix2.drop_last() =~= ix);
    assert(indexed_walk(access, nodes2, ix2));
}

/// A walk with at most `d` edges is a walk.
pub proof fn lemma_walk_costs(access: FastEdgeAccess, s: u32, t: u32, c: int, d: int)
    requires
        costs_walk(access, s, t, c, d),
    ensures
        walk_costs(access, s, t, c),
{
}

/// Removing the entry of node `k` raises the potential by at most `u32::MAX + 1`.
pub proof fn lemma_map_sum_remove(costs: Map<u32, u32>, n: nat, k: u32)
    requires
        n <= u32::MAX as nat + 1,
    ensures
        map_sum(costs.remove(k), n) <= map_sum(costs, n) + u32::MAX + 1,
        map_sum(costs.remove(k), n) >= map_sum(costs, n),
        k >= n ==> map_sum(costs.remove(k), n) == map_sum(costs, n),
    decreases n,
{
    if n > 0 {
        lemma_map_sum_remove(costs, (n - 1) as nat, k);
        let last = (n - 1) as u32;
        if last != k {
            assert(costs.remove(k).contains_key(last) == costs.contains_key(last));
            if costs.contains_key(last) {
                assert(costs.remove(k)[last] == costs[last]);
            }
        }
    }
}

/// What the depth-limited search from `start` finds: `start` at cost 0; every entry a node
/// reached by a walk of `access` from `start` with at most `depth_limit` edges that costs the
/// entry; and, where one edge is allowed, every edge leaving `start` that costs less than
/// `u32::MAX` leads to a node with an entry of at most its cost.
pub open spec fn limited_costs(access: FastEdgeAccess, num_nodes: nat, start: u32, depth_limit: u32, costs: Map<u32, u32>) -> bool {
    &&& costs.contains_key(start)
    &&& costs[start] == 0
    &&& forall|v: u32| #[trigger] costs.contains_key(v) ==> v < num_nodes && costs_walk(access, start, v, costs[v] as int, depth_limit as int)
    &&& depth_limit >= 1 ==> first_hops_reached(access, start, costs)
    &&& exists|depth: Map<u32, u32>| #[trigger] depth_closed(access, start, depth_limit, costs, depth)
}

/// Edge `i` leaving `u` is relaxed: where the cost over it stays below `u32::MAX`, its target
/// has an entry of at most that cost.
pub open spec fn out_relaxed(access: FastEdgeAccess, costs: Map<u32, u32>, u: u32, i: int) -> bool {
    costs[u] + access.out(u as int)[i].cost < u32::MAX ==> costs.contains_key(access.out(u as int)[i].target)
        && costs[access.out(u as int)[i].target] <= costs[u] + access.out(u as int)[i].cost
}

/// Every edge leaving `u` is relaxed.
pub open spec fn out_relaxed_all(access: FastEdgeAccess, costs: Map<u32, u32>, u: u32) -> bool {
    forall|i: int| 0 <= i < access.out(u as int).len() ==> #[trigger] out_relaxed(access, costs, u, i)
}

/// A record of depths under which every entry is the cost of a walk from `start` with at most
/// its depth of edges, and every entry whose depth is below `depth_limit` has all its edges
/// relaxed.
pub open spec fn depth_closed(access: FastEdgeAccess, start: u32, depth_limit: u32, costs: Map<u32, u32>, depth: Map<u32, u32>) -> bool {
    forall|v: u32|
        #[trigger] costs.contains_key(v) ==> depth.contains_key(v) && costs_walk(access, start, v, costs[v] as int, depth[v] as int) && (
        depth[v] < depth_limit ==> out_relaxed_all(access, costs, v))
}

/// Lowering the entry of a node `t` that is not `u`, or giving `t` one, keeps the edges of `u`
/// relaxed.
proof fn lemma_out_relaxed_lower(access: FastEdgeAccess, costs: Map<u32, u32>, u: u32, t: u32, c: u32)
    requires
        out_relaxed_all(access, costs, u),
        costs.contains_key(u),
        u != t,
        costs.contains_key(t) ==> c < costs[t],
    ensures
        out_relaxed_all(access, costs.insert(t, c), u),
{
    assert forall|i: int| 0 <= i < access.out(u as int).len() implies #[trigger] out_relaxed(access, costs.insert(t, c), u, i) by {
        assert(out_relaxed(access, costs, u, i));
    }
}

/// Every edge leaving `start` that costs less than `u32::MAX` leads to a node with an entry of
/// at most its cost.
pub open spec fn first_hops_reached(access: FastEdgeAccess, start: u32, costs: Map<u32, u32>) -> bool {
    forall|i: int|
        0 <= i < access.out(start as int).len() && access.out(start as int)[i].cost < u32::MAX ==> costs.contains_key(
            #[trigger] access.out(start as int)[i].target,
        ) && costs[access.out(start as int)[i].target] <= access.out(start as int)[i].cost
}

/// Searches `access` from `start`, taking the queued node with the smallest cost next and
/// expanding it only once, and only while one more edge stays within `depth_limit`.
fn limited_search(access: &FastEdgeAccess, num_nodes: u32, start: u32, depth_limit: u32) -> (costs: CostMap)
    requires
        access.wf(num_nodes as nat),
        start < num_nodes,
    ensures
        limited_costs(*access, num_nodes as nat, start, depth_limit, costs@),
{
    let ghost n = num_nodes as nat;
    let mut costs = cost_map_new();
    let mut depth = cost_map_new();
    let mut open: Vec<(u32, u32)> = Vec::new();
    let mut expanded = node_set_new();
    open.push((0, start));
    cost_map_insert(&mut costs, start, 0);
    cost_map_insert(&mut depth, start, 0);
    proof {
        lemma_walk_start(*access, start);
        assert(open@ =~= seq![(0u32, start)]);
    }
    let ghost mut first_done = false;
    let ghost mut last: int = 0;
    proof {
        assert forall|u: u32| #[trigger] costs@.contains_key(u) && !expanded@.contains(u) && depth@[u] < depth_limit implies exists|j: int|
            0 <= j < open@.len() && open@[j] == (costs@[u], u) by {
            assert(open@[0] == (costs@[u], u));
        }
    }
    while open.len() > 0
        invariant
            forall|u: u32| #[trigger] expanded@.contains(u) ==> costs@.contains_key(u) && costs@[u] <= last && out_relaxed_all(*access, costs@, u),
            forall|j: int| 0 <= j < open@.len() ==> (#[trigger] open@[j]).0 >= last && costs@[open@[j].1] <= open@[j].0,
            forall|u: u32| #[trigger] costs@.contains_key(u) && !expanded@.contains(u) && depth@[u] < depth_limit ==> exists|j: int|
                0 <= j < open@.len() && open@[j] == (costs@[u], u),
            !first_done ==> open@ == seq![(0u32, start)] && depth@[start] == 0 && expanded@ == no_nodes(),
            first_done && depth_limit >= 1 ==> first_hops_reached(*access, start, costs@),
            start < n,
            access.wf(n),
            n == num_nodes,
            costs@.contains_key(start),
            costs@[start] == 0,
            forall|v: u32| #[trigger] costs@.contains_key(v) ==> v < n && depth@.contains_key(v) && costs_walk(*access, start, v, costs@[v] as int, depth@[v] as int),
            forall|v: u32| #[trigger] costs@.contains_key(v) ==> depth@[v] <= depth_limit || v == start,
            forall|j: int| 0 <= j < open@.len() ==> #[trigger] costs@.contains_key(open@[j].1),
        decreases 2 * map_sum(costs@, n) + open@.len(),
    {
        let ghost p0 = 2 * map_sum(costs@, n) + open@.len();
        let ghost q0 = open@;
        let ghost first_before = first_done;
        let (_, current_node) = match pop_min(&mut open) {
            Some(x) => x,
            None => {
                assert(false);
                (0, start)
            },
        };
        let ghost pi = choose|i: int| #[trigger] is_first_min(q0, i) && (q0[i].0, current_node) == q0[i] && open@ == q0.remove(i);
        proof {
            let i = pi;
            assert(costs@.contains_key(q0[i].1));
            assert(q0[i] == q0[i]);
            assert forall|j: int| 0 <= j < open@.len() implies #[trigger] costs@.contains_key(open@[j].1) by {
                if j < i {
                    assert(open@[j] == q0[j]);
                } else {
                    assert(open@[j] == q0[j + 1]);
                }
            }
            assert forall|j: int| 0 <= j < open@.len() implies (#[trigger] open@[j]).0 >= q0[i].0 && costs@[open@[j].1] <= open@[j].0 by {
                if j < i {
                    assert(open@[j] == q0[j]);
                } else {
                    assert(open@[j] == q0[j + 1]);
                }
            }
            assert forall|u: u32| #[trigger] costs@.contains_key(u) && !expanded@.contains(u) && depth@[u] < depth_limit && u != current_node implies exists|j: int|
                0 <= j < open@.len() && open@[j] == (costs@[u], u) by {
                let j = choose|j: int| 0 <= j < q0.len() && q0[j] == (costs@[u], u);
                if j < i {
                    assert(open@[j] == q0[j]);
                } else {
                    assert(open@[j - 1] == q0[j]);
                }
            }
            last = q0[i].0 as int;
        }
        let current_node_cost = match cost_map_get(&costs, current_node) {
            Some(c) => c,
            None => 0,
        };
        assert(costs@.contains_key(current_node));
        assert(current_node < n);
        let current_depth = match cost_map_get(&depth, current_node) {
            Some(d) => d,
            None => 0,
        };
        let new_depth = current_depth.checked_add(1);
        let deep_enough = match new_depth {
            Some(d) => d <= depth_limit,
            None => false,
        };
        if !node_set_contains(&expanded, current_node) && deep_enough {
            proof {
                let j = choose|j: int| 0 <= j < q0.len() && q0[j] == (costs@[current_node], current_node);
                assert(q0[j].0 >= q0[pi].0);
                assert(costs@[current_node] == last);
            }
            node_set_insert(&mut expanded, current_node);
            let next_depth = current_depth + 1;
            assert(access.edges_start_at@[current_node as int] <= access.edges_start_at@[current_node + 1] <= access.edges@.len());
            let edges = access.outgoing_edges(current_node);
            let mut i: usize = 0;
            while i < edges.len()
                invariant
                    first_before && depth_limit >= 1 ==> first_hops_reached(*access, start, costs@),
                    !first_before ==> current_node == start && current_node_cost == 0,
                    !first_before ==> forall|k: int|
                        0 <= k < i && access.out(start as int)[k].cost < u32::MAX ==> costs@.contains_key(
                            #[trigger] access.out(start as int)[k].target,
                        ) && costs@[access.out(start as int)[k].target] <= access.out(start as int)[k].cost,
                    access.wf(n),
                    n == num_nodes,
                    current_node < n,
                    edges@ == access.out(current_node as int),
                    i <= edges@.len(),
                    next_depth <= depth_limit,
                    costs_walk(*access, start, current_node, current_node_cost as int, next_depth - 1),
                    costs@.contains_key(start),
                    costs@[start] == 0,
                    forall|v: u32| #[trigger] costs@.contains_key(v) ==> v < n && depth@.contains_key(v) && costs_walk(*access, start, v, costs@[v] as int, depth@[v] as int),
                    forall|v: u32| #[trigger] costs@.contains_key(v) ==> depth@[v] <= depth_limit || v == start,
                    forall|j: int| 0 <= j < open@.len() ==> #[trigger] costs@.contains_key(open@[j].1),
                    2 * map_sum(costs@, n) + open@.len() < p0,
                    expanded@.contains(current_node),
                    costs@.contains_key(current_node),
                    costs@[current_node] == current_node_cost,
                    current_node_cost == last,
                    forall|u: u32| #[trigger] expanded@.contains(u) && u != current_node ==> costs@.contains_key(u) && costs@[u] <= last
                        && out_relaxed_all(*access, costs@, u),
                    forall|k: int| 0 <= k < i ==> #[trigger] out_relaxed(*access, costs@, current_node, k),
                    forall|j: int| 0 <= j < open@.len() ==> (#[trigger] open@[j]).0 >= last && costs@[open@[j].1] <= open@[j].0,
                    forall|u: u32| #[trigger] costs@.contains_key(u) && !expanded@.contains(u) && depth@[u] < depth_limit ==> exists|j: int|
                        0 <= j < open@.len() && open@[j] == (costs@[u], u),
                decreases edges@.len() - i,
            {
                let edge = edges[i];
                assert(access.out(current_node as int)[i as int] == edge);
                let ghost c0 = costs@;
                let ghost o0 = open@;
                let ghost d0 = depth@;
                if let Some(alternative_cost) = current_node_cost.checked_add(edge.cost) {
                    let current_cost = match cost_map_get(&costs, edge.target) {
                        Some(c) => c,
                        None => u32::MAX,
                    };
                    if alternative_cost < current_cost {
                        proof {
                            lemma_map_sum_lower(costs@, n, edge.target, alternative_cost);
                            lemma_walk_extend(*access, start, current_node, current_node_cost as int, next_depth - 1, i as int);
                        }
                        cost_map_insert(&mut costs, edge.target, alternative_cost);
                        cost_map_insert(&mut depth, edge.target, next_depth);
                        open.push((alternative_cost, edge.target));
                        proof {
                            assert(edge.target != start);
                            assert forall|v: u32| #[trigger] costs@.contains_key(v) implies v < n && depth@.contains_key(v) && costs_walk(
                                *access,
                                start,
                                v,
                                costs@[v] as int,
                                depth@[v] as int,
                            ) by {}
                            let t = edge.target;
                            assert(!expanded@.contains(t));
                            assert forall|u: u32| #[trigger] expanded@.contains(u) && u != current_node implies costs@.contains_key(u) && costs@[u]
                                <= last && out_relaxed_all(*access, costs@, u) by {
                                lemma_out_relaxed_lower(*access, c0, u, t, alternative_cost);
                            }
                            assert forall|k: int| 0 <= k < i implies #[trigger] out_relaxed(*access, costs@, current_node, k) by {
                                assert(out_relaxed(*access, c0, current_node, k));
                            }
                            assert forall|j: int| 0 <= j < open@.len() implies (#[trigger] open@[j]).0 >= last && costs@[open@[j].1] <= open@[j].0 by {
                                if j < o0.len() {
                                    assert(open@[j] == o0[j]);
                                }
                            }
                            assert forall|u: u32| #[trigger] costs@.contains_key(u) && !expanded@.contains(u) && depth@[u] < depth_limit implies exists|j: int|
                                0 <= j < open@.len() && open@[j] == (costs@[u], u) by {
                                if u == t {
                                    assert(open@[o0.len() as int] == (costs@[u], u));
                                } else {
                                    let j = choose|j: int| 0 <= j < o0.len() && o0[j] == (c0[u], u);
                                    assert(open@[j] == o0[j]);
                                }
                            }
                        }
                    }
                }
                assert(out_relaxed(*access, costs@, current_node, i as int));
                i += 1;
            }
        }
        proof {
            first_done = true;
        }
    }
    proof {
        assert forall|v: u32| #[trigger] costs@.contains_key(v) implies depth@.contains_key(v) && costs_walk(
            *access,
            start,
            v,
            costs@[v] as int,
            depth@[v] as int,
        ) && (depth@[v] < depth_limit ==> out_relaxed_all(*access, costs@, v)) by {
            if depth@[v] < depth_limit && !expanded@.contains(v) {
                let j = choose|j: int| 0 <= j < open@.len() && open@[j] == (costs@[v], v);
            }
        }
        assert(depth_closed(*access, start, depth_limit, costs@, depth@));
    }
    proof {
        assert forall|v: u32| #[trigger] costs@.contains_key(v) implies v < n && costs_walk(*access, start, v, costs@[v] as int, depth_limit as int) by {
            let (nodes, ix) = choose|nodes: Seq<u32>, ix: Seq<int>|
                #[trigger] indexed_walk(*access, nodes, ix) && nodes[0] == start && nodes.last() == v && ix.len() <= depth@[v] as int && indexed_cost(
                    *access,
                    nodes,
                    ix,
                ) == costs@[v] as int;
            if v == start {
                lemma_walk_start(*access, start);
            } else {
                assert(indexed_walk(*access, nodes, ix));
            }
        }
    }
    costs
}

/// What a label search from `source` finds: `source` at cost 0, and every entry a node reached
/// by a walk of `access` from `source` that costs the entry.
pub open spec fn label_costs(access: FastEdgeAccess, num_nodes: nat, source: u32, costs: Map<u32, u32>) -> bool {
    &&& costs.contains_key(source)
    &&& costs[source] == 0
    &&& forall|v: u32| #[trigger] costs.contains_key(v) ==> v < num_nodes && walk_costs(access, source, v, costs[v] as int)
}

/// A walk of `access` from `source` to some node and a walk of `other` from `w` to that node
/// cost less than `cost` together.
pub open spec fn cheaper_detour(access: FastEdgeAccess, other: FastEdgeAccess, source: u32, w: u32, cost: int) -> bool {
    exists|x: u32, a: int, b: int| #[trigger] walk_costs(access, source, x, a) && #[trigger] walk_costs(other, w, x, b) && a + b < cost
}

/// Every edge leaving `source` that costs less than `u32::MAX` leads to a node with an entry of
/// at most its cost, or to one that a cheaper detour reaches (and that was stalled).
pub open spec fn first_hops_labelled(access: FastEdgeAccess, other: FastEdgeAccess, source: u32, costs: Map<u32, u32>) -> bool {
    forall|i: int|
        0 <= i < access.out(source as int).len() && access.out(source as int)[i].cost < u32::MAX ==> (costs.contains_key(
            #[trigger] access.out(source as int)[i].target,
        ) && costs[access.out(source as int)[i].target] <= access.out(source as int)[i].cost) || cheaper_detour(
            access,
            other,
            source,
            access.out(source as int)[i].target,
            access.out(source as int)[i].cost as int,
        )
}

/// A cheaper detour within `cost` is one within any larger cost too.
proof fn lemma_detour_up(access: FastEdgeAccess, other: FastEdgeAccess, source: u32, w: u32, cost: int, larger: int)
    requires
        cheaper_detour(access, other, source, w, cost),
        cost <= larger,
    ensures
        cheaper_detour(access, other, source, w, larger),
{
    let (x, a, b) = choose|x: u32, a: int, b: int| #[trigger] walk_costs(access, source, x, a) && #[trigger] walk_costs(other, w, x, b) && a + b < cost;
    assert(walk_costs(access, source, x, a) && walk_costs(other, w, x, b));
}

/// Edge `i` leaving `u` is settled in a label search from `source`: where the cost over it
/// stays below `u32::MAX`, its target has an entry of at most that cost, or a cheaper detour
/// reaches the target within that cost.
pub open spec fn label_edge_ok(access: FastEdgeAccess, other: FastEdgeAccess, source: u32, costs: Map<u32, u32>, u: u32, i: int) -> bool {
    costs[u] + access.out(u as int)[i].cost < u32::MAX ==> (costs.contains_key(access.out(u as int)[i].target)
        && costs[access.out(u as int)[i].target] <= costs[u] + access.out(u as int)[i].cost) || cheaper_detour(
        access,
        other,
        source,
        access.out(u as int)[i].target,
        costs[u] + access.out(u as int)[i].cost,
    )
}

/// Every labelled node is reached more cheaply by a detour (it was stalled), or has every edge
/// leaving it settled.
pub open spec fn label_closed(access: FastEdgeAccess, other: FastEdgeAccess, source: u32, costs: Map<u32, u32>) -> bool {
    forall|u: u32|
        #[trigger] costs.contains_key(u) ==> cheaper_detour(access, other, source, u, costs[u] as int) || forall|i: int|
            0 <= i < access.out(u as int).len() ==> #[trigger] label_edge_ok(access, other, source, costs, u, i)
}

/// The order that a label search keeps, with `last` the key taken last and `stall_at` the cost
/// at which each stalled node was stalled: every expanded node that was not stalled has an
/// entry of at most `last` and all its edges settled; every stalled node was expanded, at a
/// cost of at most `last` that a detour undercuts, and has no entry below it; every node with
/// an entry that is not expanded is queued at its cost; and every queued key is at least
/// `last`, and at least the entry of its node where that node is not expanded.
#[verifier::opaque]
pub open spec fn label_order(
    access: FastEdgeAccess,
    other: FastEdgeAccess,
    source: u32,
    last: int,
    costs: Map<u32, u32>,
    open: Seq<(u32, u32)>,
    expanded: Set<u32>,
    stall_at: Map<u32, int>,
) -> bool {
    &&& forall|u: u32|
        #[trigger] expanded.contains(u) && !stall_at.contains_key(u) ==> costs.contains_key(u) && costs[u] <= last && forall|i: int|
            0 <= i < access.out(u as int).len() ==> #[trigger] label_edge_ok(access, other, source, costs, u, i)
    &&& forall|u: u32|
        #[trigger] stall_at.contains_key(u) ==> expanded.contains(u) && stall_at[u] <= last && cheaper_detour(access, other, source, u, stall_at[u])
            && (costs.contains_key(u) ==> costs[u] >= stall_at[u])
    &&& forall|u: u32| #[trigger] costs.contains_key(u) && !expanded.contains(u) ==> exists|j: int| 0 <= j < open.len() && open[j] == (costs[u], u)
    &&& forall|j: int| 0 <= j < open.len() ==> (#[trigger] open[j]).0 >= last && (!expanded.contains(open[j].1) ==> costs[open[j].1] <= open[j].0)
}

/// The first queued entry with the smallest key, of a node not expanded yet, is queued at the
/// node's cost, which is at least the key taken before.
proof fn lemma_order_key(
    access: FastEdgeAccess,
    other: FastEdgeAccess,
    source: u32,
    last: int,
    costs: Map<u32, u32>,
    q0: Seq<(u32, u32)>,
    expanded: Set<u32>,
    stall_at: Map<u32, int>,
    i: int,
)
    requires
        label_order(access, other, source, last, costs, q0, expanded, stall_at),
        is_first_min(q0, i),
        !expanded.contains(q0[i].1),
        costs.contains_key(q0[i].1),
    ensures
        costs[q0[i].1] == q0[i].0,
        q0[i].0 >= last,
{
    reveal(label_order);
    let u = q0[i].1;
    assert(q0[i] == q0[i]);
    let j = choose|j: int| 0 <= j < q0.len() && q0[j] == (costs[u], u);
    assert(q0[j].0 >= q0[i].0);
}

/// Taking an entry of an expanded node keeps the order, with its key as the one taken last.
proof fn lemma_order_skip(
    access: FastEdgeAccess,
    other: FastEdgeAccess,
    source: u32,
    last: int,
    costs: Map<u32, u32>,
    q0: Seq<(u32, u32)>,
    open: Seq<(u32, u32)>,
    expanded: Set<u32>,
    stall_at: Map<u32, int>,
    i: int,
)
    requires
        label_order(access, other, source, last, costs, q0, expanded, stall_at),
        is_first_min(q0, i),
        open == q0.remove(i),
        expanded.contains(q0[i].1),
    ensures
        label_order(access, other, source, q0[i].0 as int, costs, open, expanded, stall_at),
{
    reveal(label_order);
    let k = q0[i].0 as int;
    assert(q0[i] == q0[i]);
    assert forall|u: u32| #[trigger] costs.contains_key(u) && !expanded.contains(u) implies exists|j: int|
        0 <= j < open.len() && open[j] == (costs[u], u) by {
        let j = choose|j: int| 0 <= j < q0.len() && q0[j] == (costs[u], u);
        if j < i {
            assert(open[j] == q0[j]);
        } else {
            assert(open[j - 1] == q0[j]);
        }
    }
    assert forall|j: int| 0 <= j < open.len() implies (#[trigger] open[j]).0 >= k && (!expanded.contains(open[j].1) ==> costs[open[j].1]
        <= open[j].0) by {
        if j < i {
            assert(open[j] == q0[j]);
        } else {
            assert(open[j] == q0[j + 1]);
        }
    }
}

/// Stalling the node of the entry taken, queued at its cost which a detour undercuts, keeps
/// the order.
proof fn lemma_order_stall(
    access: FastEdgeAccess,
    other: FastEdgeAccess,
    source: u32,
    last: int,
    costs: Map<u32, u32>,
    q0: Seq<(u32, u32)>,
    open: Seq<(u32, u32)>,
    expanded: Set<u32>,
    stall_at: Map<u32, int>,
    i: int,
)
    requires
        label_order(access, other, source, last, costs, q0, expanded, stall_at),
        is_first_min(q0, i),
        open == q0.remove(i),
        !expanded.contains(q0[i].1),
        costs.contains_key(q0[i].1),
        costs[q0[i].1] == q0[i].0,
        q0[i].0 >= last,
        cheaper_detour(access, other, source, q0[i].1, q0[i].0 as int),
    ensures
        label_order(
            access,
            other,
            source,
            q0[i].0 as int,
            costs.remove(q0[i].1),
            open,
            expanded.insert(q0[i].1),
            stall_at.insert(q0[i].1, q0[i].0 as int),
        ),
{
    reveal(label_order);
    let k = q0[i].0 as int;
    let u = q0[i].1;
    let c2 = costs.remove(u);
    let e2 = expanded.insert(u);
    let s2 = stall_at.insert(u, k);
    assert(q0[i] == q0[i]);
    assert forall|w: u32| #[trigger] e2.contains(w) && !s2.contains_key(w) implies c2.contains_key(w) && c2[w] <= k && forall|m: int|
        0 <= m < access.out(w as int).len() ==> #[trigger] label_edge_ok(access, other, source, c2, w, m) by {
        assert(expanded.contains(w) && !stall_at.contains_key(w));
        assert forall|m: int| 0 <= m < access.out(w as int).len() implies #[trigger] label_edge_ok(access, other, source, c2, w, m) by {
            assert(label_edge_ok(access, other, source, costs, w, m));
            let t = access.out(w as int)[m].target;
            let sc = costs[w] + access.out(w as int)[m].cost;
            if t == u && sc < u32::MAX && costs.contains_key(t) && costs[t] <= sc {
                lemma_detour_up(access, other, source, u, k, sc);
            }
        }
    }
    assert forall|v: u32| #[trigger] s2.contains_key(v) implies e2.contains(v) && s2[v] <= k && cheaper_detour(access, other, source, v, s2[v])
        && (c2.contains_key(v) ==> c2[v] >= s2[v]) by {
        if v != u {
            assert(stall_at.contains_key(v));
        }
    }
    assert forall|v: u32| #[trigger] c2.contains_key(v) && !e2.contains(v) implies exists|j: int| 0 <= j < open.len() && open[j] == (c2[v], v) by {
        assert(costs.contains_key(v) && !expanded.contains(v));
        let j = choose|j: int| 0 <= j < q0.len() && q0[j] == (costs[v], v);
        if j < i {
            assert(open[j] == q0[j]);
        } else {
            assert(open[j - 1] == q0[j]);
        }
    }
    assert forall|j: int| 0 <= j < open.len() implies (#[trigger] open[j]).0 >= k && (!e2.contains(open[j].1) ==> c2[open[j].1] <= open[j].0) by {
        if j < i {
            assert(open[j] == q0[j]);
        } else {
            assert(open[j] == q0[j + 1]);
        }
    }
}

/// Relaxing the edges of the node of the entry taken, at its cost, keeps the order.
proof fn lemma_order_relax(
    access: FastEdgeAccess,
    other: FastEdgeAccess,
    source: u32,
    last: int,
    costs: Map<u32, u32>,
    q0: Seq<(u32, u32)>,
    open: Seq<(u32, u32)>,
    costs2: Map<u32, u32>,
    open2: Seq<(u32, u32)>,
    expanded: Set<u32>,
    stall_at: Map<u32, int>,
    i: int,
)
    requires
        label_order(access, other, source, last, costs, q0, expanded, stall_at),
        is_first_min(q0, i),
        open == q0.remove(i),
        !expanded.contains(q0[i].1),
        costs.contains_key(q0[i].1),
        costs[q0[i].1] == q0[i].0,
        q0[i].0 >= last,
        forall|j: int| 0 <= j < open.len() && !expanded.contains((#[trigger] open[j]).1) ==> costs.contains_key(open[j].1),
        forall|v: u32| #[trigger] costs.contains_key(v) ==> costs2.contains_key(v) && costs2[v] <= costs[v],
        forall|m: int|
            0 <= m < access.out(q0[i].1 as int).len() && q0[i].0 + access.out(q0[i].1 as int)[m].cost < u32::MAX ==> costs2.contains_key(
                #[trigger] access.out(q0[i].1 as int)[m].target,
            ) && costs2[access.out(q0[i].1 as int)[m].target] <= q0[i].0 + access.out(q0[i].1 as int)[m].cost,
        forall|v: u32|
            #[trigger] costs2.contains_key(v) && !(costs.contains_key(v) && costs2[v] == costs[v]) ==> costs2[v] >= q0[i].0 && exists|j: int|
                0 <= j < open2.len() && open2[j] == (costs2[v], v),
        open2.len() >= open.len(),
        forall|j: int| 0 <= j < open.len() ==> #[trigger] open2[j] == open[j],
        forall|j: int|
            open.len() <= j < open2.len() ==> (#[trigger] open2[j]).0 >= q0[i].0 && costs2.contains_key(open2[j].1) && costs2[open2[j].1]
                <= open2[j].0,
    ensures
        label_order(access, other, source, q0[i].0 as int, costs2, open2, expanded.insert(q0[i].1), stall_at),
{
    reveal(label_order);
    let k = q0[i].0 as int;
    let u = q0[i].1;
    let e2 = expanded.insert(u);
    assert(q0[i] == q0[i]);
    assert forall|w: u32| #[trigger] e2.contains(w) && !stall_at.contains_key(w) implies costs2.contains_key(w) && costs2[w] <= k && forall|m: int|
        0 <= m < access.out(w as int).len() ==> #[trigger] label_edge_ok(access, other, source, costs2, w, m) by {
        assert(costs.contains_key(w)) by {
            if w != u {
                assert(expanded.contains(w));
            }
        }
        assert(costs2[w] == costs[w]) by {
            if w != u {
                assert(expanded.contains(w));
            }
            if costs2[w] != costs[w] {
                assert(costs2.contains_key(w) && !(costs.contains_key(w) && costs2[w] == costs[w]));
            }
        }
        assert forall|m: int| 0 <= m < access.out(w as int).len() implies #[trigger] label_edge_ok(access, other, source, costs2, w, m) by {
            let t = access.out(w as int)[m].target;
            if w == u {
                if k + access.out(u as int)[m].cost < u32::MAX {
                    assert(costs2.contains_key(access.out(u as int)[m].target));
                }
            } else {
                assert(expanded.contains(w));
                assert(label_edge_ok(access, other, source, costs, w, m));
                if costs.contains_key(t) {
                    assert(costs2.contains_key(t) && costs2[t] <= costs[t]);
                }
            }
        }
    }
    assert forall|v: u32| #[trigger] stall_at.contains_key(v) implies e2.contains(v) && stall_at[v] <= k && cheaper_detour(
        access,
        other,
        source,
        v,
        stall_at[v],
    ) && (costs2.contains_key(v) ==> costs2[v] >= stall_at[v]) by {
        if costs2.contains_key(v) && !(costs.contains_key(v) && costs2[v] == costs[v]) {
            assert(costs2[v] >= k);
        }
    }
    assert forall|v: u32| #[trigger] costs2.contains_key(v) && !e2.contains(v) implies exists|j: int| 0 <= j < open2.len() && open2[j] == (
    costs2[v], v) by {
        if costs.contains_key(v) && costs2[v] == costs[v] {
            let j = choose|j: int| 0 <= j < q0.len() && q0[j] == (costs[v], v);
            if j < i {
                assert(open[j] == q0[j]);
                assert(open2[j] == open[j]);
            } else {
                assert(open[j - 1] == q0[j]);
                assert(open2[j - 1] == open[j - 1]);
            }
        }
    }
    assert forall|j: int| 0 <= j < open2.len() implies (#[trigger] open2[j]).0 >= k && (!e2.contains(open2[j].1) ==> costs2[open2[j].1]
        <= open2[j].0) by {
        if j < open.len() {
            assert(open2[j] == open[j]);
            if j < i {
                assert(open[j] == q0[j]);
            } else {
                assert(open[j] == q0[j + 1]);
            }
            if !e2.contains(open2[j].1) {
                assert(costs.contains_key(open[j].1));
            }
        }
    }
}

/// Stalling a node that a cheaper detour reaches keeps the first hops labelled.
proof fn lemma_stall_keeps_hops(
    access: FastEdgeAccess,
    other: FastEdgeAccess,
    source: u32,
    costs: Map<u32, u32>,
    stalled: u32,
    x: u32,
    a: int,
    b: int,
)
    requires
        first_hops_labelled(access, other, source, costs),
        walk_costs(access, source, x, a),
        walk_costs(other, stalled, x, b),
        costs.contains_key(stalled),
        a + b < costs[stalled],
    ensures
        first_hops_labelled(access, other, source, costs.remove(stalled)),
{
    let c1 = costs.remove(stalled);
    assert forall|k: int|
        0 <= k < access.out(source as int).len() && access.out(source as int)[k].cost < u32::MAX implies (c1.contains_key(
            #[trigger] access.out(source as int)[k].target,
        ) && c1[access.out(source as int)[k].target] <= access.out(source as int)[k].cost) || cheaper_detour(
        access,
        other,
        source,
        access.out(source as int)[k].target,
        access.out(source as int)[k].cost as int,
    ) by {
        let t = access.out(source as int)[k].target;
        if t == stalled && costs[t] <= access.out(source as int)[k].cost {
            assert(walk_costs(access, source, x, a) && walk_costs(other, stalled, x, b));
        }
    }
}

/// Relaxing the edges of a node keeps the first hops labelled where costs only fall, and labels
/// them where the node is `source` itself at cost 0.
proof fn lemma_relax_keeps_hops(
    access: FastEdgeAccess,
    other: FastEdgeAccess,
    source: u32,
    before: Map<u32, u32>,
    after: Map<u32, u32>,
    first_before: bool,
    current: u32,
    current_cost: u32,
)
    requires
        first_before ==> first_hops_labelled(access, other, source, before),
        !first_before ==> current == source && current_cost == 0,
        forall|v: u32| #[trigger] before.contains_key(v) ==> after.contains_key(v) && after[v] <= before[v],
        forall|i: int|
            0 <= i < access.out(current as int).len() && current_cost + access.out(current as int)[i].cost < u32::MAX ==> after.contains_key(
                #[trigger] access.out(current as int)[i].target,
            ) && after[access.out(current as int)[i].target] <= current_cost + access.out(current as int)[i].cost,
    ensures
        first_hops_labelled(access, other, source, after),
{
    assert forall|k: int|
        0 <= k < access.out(source as int).len() && access.out(source as int)[k].cost < u32::MAX implies (after.contains_key(
            #[trigger] access.out(source as int)[k].target,
        ) && after[access.out(source as int)[k].target] <= access.out(source as int)[k].cost) || cheaper_detour(
        access,
        other,
        source,
        access.out(source as int)[k].target,
        access.out(source as int)[k].cost as int,
    ) by {
        let t = access.out(source as int)[k].target;
        if first_before && before.contains_key(t) && before[t] <= access.out(source as int)[k].cost {
            assert(after.contains_key(t) && after[t] <= before[t]);
        }
    }
}

/// The number of nodes below `n` that `s` does not hold.
pub open spec fn count_missing(s: Set<u32>, n: nat) -> nat
    decreases n,
{
    if n == 0 {
        0
    } else {
        count_missing(s, (n - 1) as nat) + if s.contains((n - 1) as u32) {
            0nat
        } else {
            1nat
        }
    }
}

/// Adding a node below `n` that `s` does not hold lowers the count by one.
proof fn lemma_count_missing_insert(s: Set<u32>, n: nat, k: u32)
    requires
        k < n <= u32::MAX as nat + 1,
        !s.contains(k),
    ensures
        count_missing(s.insert(k), n) + 1 == count_missing(s, n),
    decreases n,
{
    if k < n - 1 {
        lemma_count_missing_insert(s, (n - 1) as nat, k);
        assert(((n - 1) as u32) != k);
    } else {
        lemma_count_missing_same(s, (n - 1) as nat, k);
    }
}

/// Adding a node at or above `n` leaves the count below `n` as it is.
proof fn lemma_count_missing_same(s: Set<u32>, n: nat, k: u32)
    requires
        k >= n,
        n <= u32::MAX as nat + 1,
    ensures
        count_missing(s.insert(k), n) == count_missing(s, n),
    decreases n,
{
    if n > 0 {
        lemma_count_missing_same(s, (n - 1) as nat, k);
        assert(((n - 1) as u32) != k);
    }
}

/// The weight of an unexpanded node in the potential of a label search.
pub open spec fn expansion_weight() -> nat {
    2 * (u32::MAX as nat + 2)
}

/// One expansion more pays for any raise of the potential by a removed entry.
proof fn lemma_weighted_step(after: nat, before: nat)
    requires
        after + 1 == before,
    ensures
        expansion_weight() * after + 2 * (u32::MAX as nat + 1) < expansion_weight() * before,
{
    assert(expansion_weight() * before == expansion_weight() * after + expansion_weight()) by (nonlinear_arith)
        requires
            after + 1 == before,
    ;
}

/// The smallest sum of the cost that `costs` gives a node of `entries` and the cost that
/// `entries` gives it, over the nodes `costs` has and the sums that fit a `u32`; `u32::MAX`
/// where there is none.
fn cheapest_detour(costs: &CostMap, entries: &Vec<(u32, u32)>) -> (cheapest: u32)
    ensures
        forall|i: int|
            0 <= i < entries@.len() && costs@.contains_key(#[trigger] entries@[i].0) && costs@[entries@[i].0] + entries@[i].1 <= u32::MAX
                ==> cheapest <= costs@[entries@[i].0] + entries@[i].1,
        cheapest == u32::MAX || exists|i: int|
            0 <= i < entries@.len() && costs@.contains_key(#[trigger] entries@[i].0) && cheapest == costs@[entries@[i].0] + entries@[i].1,
{
    let mut incoming_min: u32 = u32::MAX;
    let mut k: usize = 0;
    while k < entries.len()
        invariant
            k <= entries@.len(),
            forall|i: int|
                0 <= i < k && costs@.contains_key(#[trigger] entries@[i].0) && costs@[entries@[i].0] + entries@[i].1 <= u32::MAX
                    ==> incoming_min <= costs@[entries@[i].0] + entries@[i].1,
            incoming_min == u32::MAX || exists|i: int|
                0 <= i < k && costs@.contains_key(#[trigger] entries@[i].0) && incoming_min == costs@[entries@[i].0] + entries@[i].1,
        decreases entries@.len() - k,
    {
        let (node, cost) = entries[k];
        if let Some(c) = cost_map_get(costs, node) {
            if let Some(x) = c.checked_add(cost) {
                if x < incoming_min {
                    incoming_min = x;
                }
            }
        }
        k += 1;
    }
    incoming_min
}

/// Relaxes the edges of `current_node`, reached at `current_node_cost`, in a label search from
/// `source`: a target that the edge reaches more cheaply than its entry (or than `u32::MAX`)
/// gets the new cost and is queued.
fn relax_label(
    access: &FastEdgeAccess,
    Ghost(n): Ghost<nat>,
    source: u32,
    current_node: u32,
    current_node_cost: u32,
    costs: &mut CostMap,
    open: &mut Vec<(u32, u32)>,
    Ghost(expanded): Ghost<Set<u32>>,
)
    requires
        access.wf(n),
        n <= u32::MAX,
        source < n,
        current_node < n,
        walk_costs(*access, source, current_node, current_node_cost as int),
        old(costs)@.contains_key(source),
        old(costs)@[source] == 0,
        forall|v: u32| #[trigger] old(costs)@.contains_key(v) ==> v < n && walk_costs(*access, source, v, old(costs)@[v] as int),
        forall|j: int| 0 <= j < old(open)@.len() ==> (#[trigger] old(open)@[j]).1 < n,
        forall|j: int| 0 <= j < old(open)@.len() && !expanded.contains((#[trigger] old(open)@[j]).1) ==> old(costs)@.contains_key(old(open)@[j].1),
    ensures
        final(costs)@.contains_key(source),
        final(costs)@[source] == 0,
        forall|v: u32| #[trigger] final(costs)@.contains_key(v) ==> v < n && walk_costs(*access, source, v, final(costs)@[v] as int),
        forall|j: int| 0 <= j < final(open)@.len() ==> (#[trigger] final(open)@[j]).1 < n,
        forall|j: int| 0 <= j < final(open)@.len() && !expanded.contains((#[trigger] final(open)@[j]).1) ==> final(costs)@.contains_key(final(open)@[j].1),
        2 * map_sum(final(costs)@, n) + final(open)@.len() <= 2 * map_sum(old(costs)@, n) + old(open)@.len(),
        forall|v: u32| #[trigger] old(costs)@.contains_key(v) ==> final(costs)@.contains_key(v) && final(costs)@[v] <= old(costs)@[v],
        forall|i: int|
            0 <= i < access.out(current_node as int).len() && current_node_cost + access.out(current_node as int)[i].cost < u32::MAX
                ==> final(costs)@.contains_key(#[trigger] access.out(current_node as int)[i].target) && final(costs)@[access.out(
                current_node as int,
            )[i].target] <= current_node_cost + access.out(current_node as int)[i].cost,
        forall|v: u32|
            #[trigger] final(costs)@.contains_key(v) && !(old(costs)@.contains_key(v) && final(costs)@[v] == old(costs)@[v]) ==> final(costs)@[v]
                >= current_node_cost && exists|j: int| 0 <= j < final(open)@.len() && final(open)@[j] == (final(costs)@[v], v),
        final(open)@.len() >= old(open)@.len(),
        forall|j: int| 0 <= j < old(open)@.len() ==> #[trigger] final(open)@[j] == old(open)@[j],
        forall|j: int|
            old(open)@.len() <= j < final(open)@.len() ==> (#[trigger] final(open)@[j]).0 >= current_node_cost && final(costs)@.contains_key(
                final(open)@[j].1,
            ) && final(costs)@[final(open)@[j].1] <= final(open)@[j].0,
{
    proof {
        assert(access.edges_start_at@[current_node as int] <= access.edges_start_at@[current_node + 1] <= access.edges@.len());
    }
    let edges = access.outgoing_edges(current_node);
    let mut i: usize = 0;
    while i < edges.len()
        invariant
            access.wf(n),
            n <= u32::MAX,
            source < n,
            current_node < n,
            edges@ == access.out(current_node as int),
            i <= edges@.len(),
            walk_costs(*access, source, current_node, current_node_cost as int),
            costs@.contains_key(source),
            costs@[source] == 0,
            forall|v: u32| #[trigger] costs@.contains_key(v) ==> v < n && walk_costs(*access, source, v, costs@[v] as int),
            forall|j: int| 0 <= j < open@.len() ==> (#[trigger] open@[j]).1 < n,
            forall|j: int| 0 <= j < open@.len() && !expanded.contains((#[trigger] open@[j]).1) ==> costs@.contains_key(open@[j].1),
            2 * map_sum(costs@, n) + open@.len() <= 2 * map_sum(old(costs)@, n) + old(open)@.len(),
            forall|v: u32| #[trigger] old(costs)@.contains_key(v) ==> costs@.contains_key(v) && costs@[v] <= old(costs)@[v],
            forall|k: int|
                0 <= k < i && current_node_cost + access.out(current_node as int)[k].cost < u32::MAX ==> costs@.contains_key(
                    #[trigger] access.out(current_node as int)[k].target,
                ) && costs@[access.out(current_node as int)[k].target] <= current_node_cost + access.out(current_node as int)[k].cost,
            forall|v: u32|
                #[trigger] costs@.contains_key(v) && !(old(costs)@.contains_key(v) && costs@[v] == old(costs)@[v]) ==> costs@[v]
                    >= current_node_cost && exists|j: int| 0 <= j < open@.len() && open@[j] == (costs@[v], v),
            open@.len() >= old(open)@.len(),
            forall|j: int| 0 <= j < old(open)@.len() ==> #[trigger] open@[j] == old(open)@[j],
            forall|j: int|
                old(open)@.len() <= j < open@.len() ==> (#[trigger] open@[j]).0 >= current_node_cost && costs@.contains_key(open@[j].1)
                    && costs@[open@[j].1] <= open@[j].0,
        decreases edges@.len() - i,
    {
        let edge = edges[i];
        let ghost c0 = costs@;
        let ghost o0 = open@;
        assert(access.out(current_node as int)[i as int] == edge);
        assert(edge.target < n);
        if let Some(alternative_cost) = current_node_cost.checked_add(edge.cost) {
            let current_cost = match cost_map_get(costs, edge.target) {
                Some(c) => c,
                None => u32::MAX,
            };
            if alternative_cost < current_cost {
                proof {
                    lemma_map_sum_lower(costs@, n, edge.target, alternative_cost);
                    let d = choose|d: int| #[trigger] costs_walk(*access, source, current_node, current_node_cost as int, d);
                    lemma_walk_extend(*access, source, current_node, current_node_cost as int, d, i as int);
                    lemma_walk_costs(*access, source, edge.target, alternative_cost as int, d + 1);
                }
                cost_map_insert(costs, edge.target, alternative_cost);
                open.push((alternative_cost, edge.target));
                proof {
                    assert(edge.target != source);
                    let t = edge.target;
                    assert(open@[o0.len() as int] == (alternative_cost, t));
                    assert forall|v: u32|
                        #[trigger] costs@.contains_key(v) && !(old(costs)@.contains_key(v) && costs@[v] == old(costs)@[v]) implies costs@[v]
                            >= current_node_cost && exists|j: int| 0 <= j < open@.len() && open@[j] == (costs@[v], v) by {
                        if v == t {
                            assert(open@[o0.len() as int] == (costs@[v], v));
                        } else {
                            assert(c0.contains_key(v) && !(old(costs)@.contains_key(v) && c0[v] == old(costs)@[v]));
                            let j = choose|j: int| 0 <= j < o0.len() && o0[j] == (c0[v], v);
                            assert(open@[j] == o0[j]);
                        }
                    }
                    assert forall|j: int| 0 <= j < old(open)@.len() implies #[trigger] open@[j] == old(open)@[j] by {
                        assert(open@[j] == o0[j]);
                    }
                    assert forall|j: int|
                        old(open)@.len() <= j < open@.len() implies (#[trigger] open@[j]).0 >= current_node_cost && costs@.contains_key(open@[j].1)
                            && costs@[open@[j].1] <= open@[j].0 by {
                        if j < o0.len() {
                            assert(open@[j] == o0[j]);
                        }
                    }
                }
            }
        }
        i += 1;
    }
}

/// Meeting at `node` costs `cost`: a walk over the outgoing edges of `graph` from `source` to
/// `node` and a walk over its incoming edges from `target` to `node` cost `cost` together.
pub open spec fn meets(graph: FastGraph, source: u32, target: u32, node: u32, cost: int) -> bool {
    exists|a: int, b: int|
        #[trigger] walk_costs(graph.forward_edges, source, node, a) && #[trigger] walk_costs(graph.backward_edges, target, node, b) && a
            + b == cost
}

/// What a search from `source` keeps at every step: `source` at cost 0, every entry the cost of
/// a walk from `source`, queued and expanded nodes with entries.
pub open spec fn side_inv(
    access: FastEdgeAccess,
    n: nat,
    source: u32,
    costs: Map<u32, u32>,
    open: Seq<(u32, u32)>,
    expanded: Set<u32>,
) -> bool {
    &&& costs.contains_key(source)
    &&& costs[source] == 0
    &&& forall|v: u32| #[trigger] costs.contains_key(v) ==> v < n && walk_costs(access, source, v, costs[v] as int)
    &&& forall|j: int| 0 <= j < open.len() ==> (#[trigger] open[j]).1 < n && costs.contains_key(open[j].1)
    &&& forall|v: u32| #[trigger] expanded.contains(v) ==> costs.contains_key(v)
}

/// The edge group of a node lies within the edges.
proof fn lemma_wf_at(access: FastEdgeAccess, n: nat, v: int)
    requires
        access.wf(n),
        0 <= v < n,
    ensures
        access.edges_start_at@[v] <= access.edges_start_at@[v + 1] <= access.edges@.len(),
{
}

/// Relaxes the edges of `current_node`, reached at `current_node_cost`, in a search from
/// `source`: a target that the edge reaches more cheaply than its entry (or than `u32::MAX`)
/// gets the new cost and `current_node` as predecessor, and is queued.
fn relax_meet(
    access: &FastEdgeAccess,
    Ghost(n): Ghost<nat>,
    source: u32,
    current_node: u32,
    current_node_cost: u32,
    costs: &mut CostMap,
    open: &mut Vec<(u32, u32)>,
    predecessor: &mut CostMap,
    Ghost(expanded): Ghost<Set<u32>>,
    Ghost(last): Ghost<int>,
)
    requires
        access.wf(n),
        n <= u32::MAX,
        source < n,
        current_node < n,
        access.edges_start_at@[current_node as int] <= access.edges_start_at@[current_node + 1] <= access.edges@.len(),
        walk_costs(*access, source, current_node, current_node_cost as int),
        side_inv(*access, n, source, old(costs)@, old(open)@, expanded),
        side_order(*access, old(costs)@, old(open)@, expanded, last, current_node as int, 0),
        old(costs)@[current_node] == current_node_cost,
    ensures
        side_inv(*access, n, source, final(costs)@, final(open)@, expanded),
        2 * map_sum(final(costs)@, n) + final(open)@.len() <= 2 * map_sum(old(costs)@, n) + old(open)@.len(),
        side_order(*access, final(costs)@, final(open)@, expanded, last, -1, 0),
        forall|v: u32| #[trigger] expanded.contains(v) ==> final(costs)@[v] == old(costs)@[v],
{
    proof {
        assert(access.edges_start_at@[current_node as int] <= access.edges_start_at@[current_node + 1] <= access.edges@.len());
    }
    let edges = access.outgoing_edges(current_node);
    let mut i: usize = 0;
    while i < edges.len()
        invariant
            access.wf(n),
            n <= u32::MAX,
            source < n,
            current_node < n,
            edges@ == access.out(current_node as int),
            i <= edges@.len(),
            walk_costs(*access, source, current_node, current_node_cost as int),
            side_inv(*access, n, source, costs@, open@, expanded),
            2 * map_sum(costs@, n) + open@.len() <= 2 * map_sum(old(costs)@, n) + old(open)@.len(),
            side_order(*access, costs@, open@, expanded, last, current_node as int, i as int),
            costs@[current_node] == current_node_cost,
            forall|v: u32| #[trigger] expanded.contains(v) ==> costs@[v] == old(costs)@[v],
        decreases edges@.len() - i,
    {
        let edge = edges[i];
        let ghost costs0 = costs@;
        let ghost open0 = open@;
        assert(access.out(current_node as int)[i as int] == edge);
        assert(edge.target < n);
        if let Some(alternative_cost) = current_node_cost.checked_add(edge.cost) {
            let current_cost = match cost_map_get(costs, edge.target) {
                Some(c) => c,
                None => u32::MAX,
            };
            if alternative_cost < current_cost {
                proof {
                    lemma_map_sum_lower(costs@, n, edge.target, alternative_cost);
                    let d = choose|d: int| #[trigger] costs_walk(*access, source, current_node, current_node_cost as int, d);
                    lemma_walk_extend(*access, source, current_node, current_node_cost as int, d, i as int);
                    lemma_walk_costs(*access, source, edge.target, alternative_cost as int, d + 1);
                }
                cost_map_insert(costs, edge.target, alternative_cost);
                cost_map_insert(predecessor, edge.target, current_node);
                open.push((alternative_cost, edge.target));
                proof {
                    assert(edge.target != source);
                    assert forall|j: int| 0 <= j < open@.len() implies (#[trigger] open@[j]).1 < n && costs@.contains_key(open@[j].1) by {}
                }
            }
        }
        proof {
            lemma_side_relax(*access, costs0, open0, expanded, last, current_node, i as int, costs@, open@);
        }
        i += 1;
    }
    proof {
        lemma_side_done(*access, costs@, open@, expanded, last, current_node);
    }
}

#[verifier::rlimit(80)]
/// Pops the next node of one side of a bidirectional search; a node not expanded yet is
/// expanded: where the other side has expanded it, the sum of its two costs (`u32::MAX` where it
/// does not fit) becomes the best meeting if it is cheaper, and its edges are relaxed.
fn meet_step(
    access: &FastEdgeAccess,
    Ghost(n): Ghost<nat>,
    Ghost(graph): Ghost<FastGraph>,
    Ghost(forward): Ghost<bool>,
    Ghost(source): Ghost<u32>,
    Ghost(target): Ghost<u32>,
    start: u32,
    costs: &mut CostMap,
    open: &mut Vec<(u32, u32)>,
    expanded: &mut NodeSet,
    predecessor: &mut CostMap,
    other_costs: &CostMap,
    other_expanded: &NodeSet,
    best: &mut (u32, u32),
    Ghost(last): Ghost<int>,
) -> (popped: Ghost<int>)
    requires
        side_order(*access, old(costs)@, old(open)@, old(expanded)@, last, -1, 0),
        met_below(old(costs)@, old(expanded)@, other_costs@, other_expanded@, old(best).0),
        access.wf(n),
        n <= u32::MAX,
        start < n,
        start == if forward { source } else { target },
        *access == if forward { graph.forward_edges } else { graph.backward_edges },
        side_inv(*access, n, start, old(costs)@, old(open)@, old(expanded)@),
        side_inv(
            if forward { graph.backward_edges } else { graph.forward_edges },
            n,
            if forward { target } else { source },
            other_costs@,
            Seq::empty(),
            other_expanded@,
        ),
        old(best).0 < u32::MAX ==> meets(graph, source, target, old(best).1, old(best).0 as int),
    ensures
        side_inv(*access, n, start, final(costs)@, final(open)@, final(expanded)@),
        final(best).0 < u32::MAX ==> meets(graph, source, target, final(best).1, final(best).0 as int),
        old(open)@.len() > 0 ==> 2 * map_sum(final(costs)@, n) + final(open)@.len() < 2 * map_sum(old(costs)@, n) + old(open)@.len(),
        old(open)@.len() == 0 ==> final(open)@.len() == 0 && final(costs)@ == old(costs)@,
        side_order(*access, final(costs)@, final(open)@, final(expanded)@, popped@, -1, 0),
        met_below(final(costs)@, final(expanded)@, other_costs@, other_expanded@, final(best).0),
{
    let ghost q0 = open@;
    let (key, current_node) = match pop_min(open) {
        Some(x) => x,
        None => {
            return Ghost(last);
        },
    };
    proof {
        let i = choose|i: int| #[trigger] is_first_min(q0, i) && (key, current_node) == q0[i] && open@ == q0.remove(i);
        lemma_side_pop(*access, costs@, q0, expanded@, last, i);
        assert(q0[i].1 < n && costs@.contains_key(q0[i].1));
        assert forall|j: int| 0 <= j < open@.len() implies (#[trigger] open@[j]).1 < n && costs@.contains_key(open@[j].1) by {
            if j < i {
                assert(open@[j] == q0[j]);
            } else {
                assert(open@[j] == q0[j + 1]);
            }
        }
    }
    if node_set_contains(expanded, current_node) {
        return Ghost(key as int);
    }
    let ghost expanded0 = expanded@;
    node_set_insert(expanded, current_node);
    let current_node_cost = match cost_map_get(costs, current_node) {
        Some(c) => c,
        None => 0,
    };
    if node_set_contains(other_expanded, current_node) {
        let other_cost = match cost_map_get(other_costs, current_node) {
            Some(c) => c,
            None => 0,
        };
        let contact_cost = current_node_cost.saturating_add(other_cost);
        if contact_cost < best.0 {
            proof {
                assert(costs@.contains_key(current_node));
                assert(other_costs@.contains_key(current_node));
                if forward {
                    assert(walk_costs(graph.forward_edges, source, current_node, current_node_cost as int));
                    assert(walk_costs(graph.backward_edges, target, current_node, other_cost as int));
                } else {
                    assert(walk_costs(graph.forward_edges, source, current_node, other_cost as int));
                    assert(walk_costs(graph.backward_edges, target, current_node, current_node_cost as int));
                }
            }
            *best = (contact_cost, current_node);
        }
    }
    proof {
        assert(costs@.contains_key(current_node));
        assert(current_node < n);
        assert(access.wf(n));
        lemma_wf_at(*access, n, current_node as int);
    }
    let ghost costs1 = costs@;
    let ghost best1 = best.0;
    relax_meet(access, Ghost(n), start, current_node, current_node_cost, costs, open, predecessor, Ghost(expanded@), Ghost(key as int));
    proof {
        assert forall|v: u32| #[trigger] expanded@.contains(v) && other_expanded@.contains(v) implies best.0 <= sat_sum(
            costs@[v],
            other_costs@[v],
        ) by {
            assert(costs@[v] == costs1[v]);
            if v != current_node {
                assert(expanded0.contains(v));
            }
        }
    }
    Ghost(key as int)
}

/// No node is met more cheaply than `cost`: for every node, a walk over the outgoing edges from
/// `source` to it and a walk over the incoming edges from `target` to it that cost less than
/// `u32::MAX` together cost at least `cost`.
pub open spec fn cheapest_meeting(graph: FastGraph, source: u32, target: u32, cost: int) -> bool {
    forall|node: u32, a: int, b: int|
        #[trigger] walk_costs(graph.forward_edges, source, node, a) && #[trigger] walk_costs(graph.backward_edges, target, node, b) && a + b
            < u32::MAX ==> cost <= a + b
}

/// `cost` is the cost of the cheapest meeting below `u32::MAX` of a walk over the outgoing edges
/// from `source` and a walk over the incoming edges from `target`.
pub open spec fn least_meeting(graph: FastGraph, source: u32, target: u32, cost: int) -> bool {
    &&& cost < u32::MAX
    &&& exists|node: u32| #[trigger] meets(graph, source, target, node, cost)
    &&& cheapest_meeting(graph, source, target, cost)
}

/// The cheapest meeting has one cost.
pub proof fn lemma_least_meeting_unique(graph: FastGraph, source: u32, target: u32, c1: int, c2: int)
    requires
        least_meeting(graph, source, target, c1),
        least_meeting(graph, source, target, c2),
    ensures
        c1 == c2,
{
    let n1 = choose|node: u32| #[trigger] meets(graph, source, target, node, c1);
    let n2 = choose|node: u32| #[trigger] meets(graph, source, target, node, c2);
    let (a1, b1) = choose|a: int, b: int|
        #[trigger] walk_costs(graph.forward_edges, source, n1, a) && #[trigger] walk_costs(graph.backward_edges, target, n1, b) && a + b == c1;
    let (a2, b2) = choose|a: int, b: int|
        #[trigger] walk_costs(graph.forward_edges, source, n2, a) && #[trigger] walk_costs(graph.backward_edges, target, n2, b) && a + b == c2;
}

/// Where a walk over the outgoing edges from `source` reaches `target` at `cost` below
/// `u32::MAX`, the two meet at `target`, and the cheapest meeting costs at most `cost`.
pub proof fn lemma_meets_at_target(graph: FastGraph, source: u32, target: u32, cost: int)
    requires
        walk_costs(graph.forward_edges, source, target, cost),
    ensures
        meets(graph, source, target, target, cost),
{
    lemma_walk_start(graph.backward_edges, target);
    assert(walk_costs(graph.backward_edges, target, target, 0));
}

/// Where a walk over the incoming edges from `target` reaches `source` at `cost` below
/// `u32::MAX`, the two meet at `source`.
pub proof fn lemma_meets_at_source(graph: FastGraph, source: u32, target: u32, cost: int)
    requires
        walk_costs(graph.backward_edges, target, source, cost),
    ensures
        meets(graph, source, target, source, cost),
{
    lemma_walk_start(graph.forward_edges, source);
    assert(walk_costs(graph.forward_edges, source, source, 0));
}

/// Once both searches have run out of queued nodes, no node is met more cheaply than the best
/// meeting they saw.
proof fn lemma_cheapest_meeting(
    graph: FastGraph,
    source: u32,
    target: u32,
    fc: Map<u32, u32>,
    fo: Seq<(u32, u32)>,
    fe: Set<u32>,
    flast: int,
    bc: Map<u32, u32>,
    bo: Seq<(u32, u32)>,
    be: Set<u32>,
    blast: int,
    best: u32,
)
    requires
        fo.len() == 0,
        bo.len() == 0,
        fc.contains_key(source),
        fc[source] == 0,
        bc.contains_key(target),
        bc[target] == 0,
        side_order(graph.forward_edges, fc, fo, fe, flast, -1, 0),
        side_order(graph.backward_edges, bc, bo, be, blast, -1, 0),
        met_below(fc, fe, bc, be, best),
    ensures
        cheapest_meeting(graph, source, target, best as int),
{
    assert forall|v: u32| #[trigger] fc.contains_key(v) implies fe.contains(v) by {
        if !fe.contains(v) {
            assert(fo.contains((fc[v], v)));
        }
    }
    assert forall|v: u32| #[trigger] bc.contains_key(v) implies be.contains(v) by {
        if !be.contains(v) {
            assert(bo.contains((bc[v], v)));
        }
    }
    assert forall|node: u32, a: int, b: int|
        #[trigger] walk_costs(graph.forward_edges, source, node, a) && #[trigger] walk_costs(graph.backward_edges, target, node, b) && a + b
            < u32::MAX implies best <= a + b by {
        let fm = choose|m: int| #[trigger] costs_walk(graph.forward_edges, source, node, a, m);
        let (fp, fx) = choose|p: Seq<u32>, x: Seq<int>|
            #[trigger] indexed_walk(graph.forward_edges, p, x) && p[0] == source && p.last() == node && x.len() <= fm && indexed_cost(
                graph.forward_edges,
                p,
                x,
            ) == a;
        let bm = choose|m: int| #[trigger] costs_walk(graph.backward_edges, target, node, b, m);
        let (bp, bx) = choose|p: Seq<u32>, x: Seq<int>|
            #[trigger] indexed_walk(graph.backward_edges, p, x) && p[0] == target && p.last() == node && x.len() <= bm && indexed_cost(
                graph.backward_edges,
                p,
                x,
            ) == b;
        crate::routing::shortest::lemma_indexed_cost_nonneg(graph.forward_edges, fp, fx);
        crate::routing::shortest::lemma_indexed_cost_nonneg(graph.backward_edges, bp, bx);
        lemma_side_walks(graph.forward_edges, fc, fo, fe, flast, source, fp, fx);
        lemma_side_walks(graph.backward_edges, bc, bo, be, blast, target, bp, bx);
        assert(fe.contains(node) && be.contains(node));
    }
}

/// The sum of two costs, `u32::MAX` where it does not fit below it.
pub open spec fn sat_sum(a: u32, b: u32) -> int {
    if a + b >= u32::MAX { u32::MAX as int } else { a + b }
}

/// No node expanded by both searches meets more cheaply than `best`.
pub open spec fn met_below(costs: Map<u32, u32>, expanded: Set<u32>, other_costs: Map<u32, u32>, other_expanded: Set<u32>, best: u32) -> bool {
    forall|v: u32| #[trigger] expanded.contains(v) && #[trigger] other_expanded.contains(v) ==> best <= sat_sum(costs[v], other_costs[v])
}

/// The route of the best meeting: `None` where there is none, and otherwise just the meeting
/// node with the meeting cost. The predecessor chains of the meeting node are followed, at most
/// as many steps as each map has entries.
fn get_route(meeting_node: u32, meeting_cost: u32, forward_predecessor: CostMap, backward_predecessor: CostMap) -> (route: Option<Route>)
    ensures
        meeting_cost == u32::MAX ==> route is None,
        meeting_cost != u32::MAX ==> (route matches Some(r) && r.nodes@ == seq![meeting_node] && r.cost == meeting_cost),
{
    if meeting_cost == u32::MAX {
        return None;
    }
    let mut route: Vec<u32> = Vec::new();
    let mut current = meeting_node;
    route.push(current);
    let forward_steps = cost_map_entries(&forward_predecessor).len();
    let mut steps: usize = 0;
    while steps < forward_steps
        decreases forward_steps - steps,
    {
        match cost_map_get(&forward_predecessor, current) {
            Some(new_current) => {
                current = new_current;
            },
            None => {
                break;
            },
        }
        steps += 1;
    }
    current = meeting_node;
    let backward_steps = cost_map_entries(&backward_predecessor).len();
    let mut steps: usize = 0;
    while steps < backward_steps
        decreases backward_steps - steps,
    {
        match cost_map_get(&backward_predecessor, current) {
            Some(new_current) => {
                current = new_current;
            },
            None => {
                break;
            },
        }
        steps += 1;
    }
    let route = Route { nodes: route, cost: meeting_cost };
    assert(route.nodes@ =~= seq![meeting_node]);
    Some(route)
}

/// What a label search from `source` keeps at every step: `source` at cost 0, every entry the
/// cost of a walk from `source`, every queued node a node, and every queued node not expanded
/// yet with an entry.
pub open spec fn label_inv(access: FastEdgeAccess, n: nat, source: u32, costs: Map<u32, u32>, open: Seq<(u32, u32)>, expanded: Set<u32>) -> bool {
    &&& costs.contains_key(source)
    &&& costs[source] == 0
    &&& forall|v: u32| #[trigger] costs.contains_key(v) ==> v < n && walk_costs(access, source, v, costs[v] as int)
    &&& forall|j: int| 0 <= j < open.len() ==> (#[trigger] open[j]).1 < n
    &&& forall|j: int| 0 <= j < open.len() && !expanded.contains((#[trigger] open[j]).1) ==> costs.contains_key(open[j].1)
}

/// What every step of a label search lowers.
pub open spec fn label_potential(n: nat, costs: Map<u32, u32>, open: Seq<(u32, u32)>, expanded: Set<u32>) -> nat {
    expansion_weight() * count_missing(expanded, n) + 2 * map_sum(costs, n) + open.len()
}

/// A contracted graph prepared for searches.
pub struct ChDijkstra {
    pub graph: FastGraph,
    pub shortcuts: std::collections::HashMap<(u32, u32), Vec<(u32, u32)>, ahash::RandomState>,
}

impl ChDijkstra {
    /// The costs of a search from `target` over the outgoing edges: the node with the smallest
    /// cost is taken next, and expanded once, while one more edge stays within `depth_limit`.
    /// Every node found fewer than `depth_limit` edges deep has all its edges relaxed.
    pub fn forward_search(&self, target: u32, depth_limit: u32) -> (costs: CostMap)
        requires
            self.graph.wf(),
            target < self.graph.num_nodes,
        ensures
            limited_costs(self.graph.forward_edges, self.graph.num_nodes as nat, target, depth_limit, costs@),
    {
        limited_search(&self.graph.forward_edges, self.graph.num_nodes, target, depth_limit)
    }

    /// The costs of a search from `target` over the incoming edges: the node with the smallest
    /// cost is taken next, and expanded once, while one more edge stays within `depth_limit`.
    /// Every node found fewer than `depth_limit` edges deep has all its edges relaxed.
    pub fn backward_search(&self, target: u32, depth_limit: u32) -> (costs: CostMap)
        requires
            self.graph.wf(),
            target < self.graph.num_nodes,
        ensures
            limited_costs(self.graph.backward_edges, self.graph.num_nodes as nat, target, depth_limit, costs@),
    {
        limited_search(&self.graph.backward_edges, self.graph.num_nodes, target, depth_limit)
    }

    /// The label of `source` in one direction: a search over the outgoing edges (`forward`) or
    /// the incoming ones takes the queued node with the smallest cost next and expands it once;
    /// a node that a search in the other direction from it, limited to `depth_limit` edges,
    /// shows to be reachable more cheaply over a labelled node loses its entry instead of being
    /// expanded.
    fn label_search(&self, forward: bool, source: u32, depth_limit: u32) -> (costs: CostMap)
        requires
            self.graph.wf(),
            source < self.graph.num_nodes,
        ensures
            label_costs(
                if forward {
                    self.graph.forward_edges
                } else {
                    self.graph.backward_edges
                },
                self.graph.num_nodes as nat,
                source,
                costs@,
            ),
            first_hops_labelled(
                if forward {
                    self.graph.forward_edges
                } else {
                    self.graph.backward_edges
                },
                if forward {
                    self.graph.backward_edges
                } else {
                    self.graph.forward_edges
                },
                source,
                costs@,
            ),
            label_closed(
                if forward {
                    self.graph.forward_edges
                } else {
                    self.graph.backward_edges
                },
                if forward {
                    self.graph.backward_edges
                } else {
                    self.graph.forward_edges
                },
                source,
                costs@,
            ),
    {
        let ghost n = self.graph.num_nodes as nat;
        let ghost other = if forward {
            self.graph.backward_edges
        } else {
            self.graph.forward_edges
        };
        let access = if forward {
            &self.graph.forward_edges
        } else {
            &self.graph.backward_edges
        };
        let mut costs = cost_map_new();
        let mut open: Vec<(u32, u32)> = Vec::new();
        let mut expanded = node_set_new();
        open.push((0, source));
        cost_map_insert(&mut costs, source, 0);
        proof {
            lemma_walk_start(*access, source);
            lemma_walk_costs(*access, source, source, 0, 0);
            assert(open@ =~= seq![(0u32, source)]);
        }
        let ghost mut first_done = false;
        let ghost mut last: int = 0;
        let ghost mut stall_at: Map<u32, int> = Map::empty();
        proof {
            reveal(label_order);
            assert forall|u: u32| #[trigger] costs@.contains_key(u) && !expanded@.contains(u) implies exists|j: int|
                0 <= j < open@.len() && open@[j] == (costs@[u], u) by {
                assert(open@[0] == (costs@[u], u));
            }
        }
        while open.len() > 0
            invariant
                label_order(*access, other, source, last, costs@, open@, expanded@, stall_at),
                !first_done ==> open@ == seq![(0u32, source)] && expanded@ == no_nodes(),
                first_done ==> first_hops_labelled(*access, other, source, costs@),
                other == if forward {
                    self.graph.backward_edges
                } else {
                    self.graph.forward_edges
                },
                self.graph.wf(),
                n == self.graph.num_nodes,
                n <= u32::MAX,
                source < n,
                access.wf(n),
                *access == if forward {
                    self.graph.forward_edges
                } else {
                    self.graph.backward_edges
                },
                label_inv(*access, n, source, costs@, open@, expanded@),
            decreases label_potential(n, costs@, open@, expanded@),
        {
            let r = self.label_step(
                forward,
                access,
                Ghost(n),
                source,
                depth_limit,
                &mut costs,
                &mut open,
                &mut expanded,
                Ghost(first_done),
                Ghost(other),
                Ghost(last),
                Ghost(stall_at),
            );
            proof {
                first_done = true;
                last = r@.0;
                stall_at = r@.1;
            }
        }
        proof {
            reveal(label_order);
            assert forall|u: u32| #[trigger] costs@.contains_key(u) implies cheaper_detour(*access, other, source, u, costs@[u] as int) || forall|i: int|
                0 <= i < access.out(u as int).len() ==> #[trigger] label_edge_ok(*access, other, source, costs@, u, i) by {
                if !expanded@.contains(u) {
                    let j = choose|j: int| 0 <= j < open@.len() && open@[j] == (costs@[u], u);
                } else if stall_at.contains_key(u) {
                    lemma_detour_up(*access, other, source, u, stall_at[u], costs@[u] as int);
                }
            }
        }
        costs
    }

    /// One step of a label search: pops the queued node with the smallest cost and, where it
    /// is not expanded yet, expands it: it loses its entry where the search in the other
    /// direction shows a cheaper way to it over a labelled node, and has its edges relaxed
    /// otherwise.
    fn label_step(
        &self,
        forward: bool,
        access: &FastEdgeAccess,
        Ghost(n): Ghost<nat>,
        source: u32,
        depth_limit: u32,
        costs: &mut CostMap,
        open: &mut Vec<(u32, u32)>,
        expanded: &mut NodeSet,
        Ghost(first_before): Ghost<bool>,
        Ghost(other): Ghost<FastEdgeAccess>,
        Ghost(last): Ghost<int>,
        Ghost(stall_at): Ghost<Map<u32, int>>,
    ) -> (r: Ghost<(int, Map<u32, int>)>)
        requires
            other == if forward {
                self.graph.backward_edges
            } else {
                self.graph.forward_edges
            },
            !first_before ==> old(open)@ == seq![(0u32, source)] && old(expanded)@ == no_nodes(),
            first_before ==> first_hops_labelled(*access, other, source, old(costs)@),
            *access == if forward {
                self.graph.forward_edges
            } else {
                self.graph.backward_edges
            },
            self.graph.wf(),
            n == self.graph.num_nodes,
            n <= u32::MAX,
            source < n,
            access.wf(n),
            old(open)@.len() > 0,
            label_inv(*access, n, source, old(costs)@, old(open)@, old(expanded)@),
            label_order(*access, other, source, last, old(costs)@, old(open)@, old(expanded)@, stall_at),
        ensures
            label_inv(*access, n, source, final(costs)@, final(open)@, final(expanded)@),
            label_order(*access, other, source, r@.0, final(costs)@, final(open)@, final(expanded)@, r@.1),
            label_potential(n, final(costs)@, final(open)@, final(expanded)@) < label_potential(n, old(costs)@, old(open)@, old(expanded)@),
            first_hops_labelled(*access, other, source, final(costs)@),
    {
        let ghost q0 = open@;
        let (_, current_node) = match pop_min(open) {
            Some(x) => x,
            None => {
                assert(false);
                (0, source)
            },
        };
        let ghost pi = choose|i: int| #[trigger] is_first_min(q0, i) && (q0[i].0, current_node) == q0[i] && open@ == q0.remove(i);
        let ghost k = q0[pi].0 as int;
        proof {
            let i = pi;
            assert(q0[i].1 < n);
            assert(!expanded@.contains(q0[i].1) ==> costs@.contains_key(q0[i].1));
            assert forall|j: int| 0 <= j < open@.len() implies (#[trigger] open@[j]).1 < n && (!expanded@.contains(open@[j].1)
                ==> costs@.contains_key(open@[j].1)) by {
                if j < i {
                    assert(open@[j] == q0[j]);
                } else {
                    assert(open@[j] == q0[j + 1]);
                }
            }
        }
        proof {
            if !first_before {
                assert(q0[0] == (0u32, source));
                assert(current_node == source);
            }
        }
        if node_set_contains(expanded, current_node) {
            proof {
                lemma_order_skip(*access, other, source, last, costs@, q0, open@, expanded@, stall_at, pi);
            }
            return Ghost((k, stall_at));
        }
        self.expand_label(
            forward,
            access,
            Ghost(n),
            source,
            depth_limit,
            current_node,
            costs,
            open,
            expanded,
            Ghost(first_before),
            Ghost(other),
            Ghost(last),
            Ghost(stall_at),
            Ghost(q0),
            Ghost(pi),
        )
    }

    /// Expands `current_node`, just taken from the queue at its cost and not expanded yet: it
    /// loses its entry where the search in the other direction shows a cheaper way to it over a
    /// labelled node, and has its edges relaxed otherwise.
    #[verifier::rlimit(80)]
    fn expand_label(
        &self,
        forward: bool,
        access: &FastEdgeAccess,
        Ghost(n): Ghost<nat>,
        source: u32,
        depth_limit: u32,
        current_node: u32,
        costs: &mut CostMap,
        open: &mut Vec<(u32, u32)>,
        expanded: &mut NodeSet,
        Ghost(first_before): Ghost<bool>,
        Ghost(other): Ghost<FastEdgeAccess>,
        Ghost(last): Ghost<int>,
        Ghost(stall_at): Ghost<Map<u32, int>>,
        Ghost(q0): Ghost<Seq<(u32, u32)>>,
        Ghost(pi): Ghost<int>,
    ) -> (r: Ghost<(int, Map<u32, int>)>)
        requires
            other == if forward {
                self.graph.backward_edges
            } else {
                self.graph.forward_edges
            },
            !first_before ==> current_node == source,
            first_before ==> first_hops_labelled(*access, other, source, old(costs)@),
            *access == if forward {
                self.graph.forward_edges
            } else {
                self.graph.backward_edges
            },
            self.graph.wf(),
            n == self.graph.num_nodes,
            n <= u32::MAX,
            source < n,
            access.wf(n),
            current_node < n,
            !old(expanded)@.contains(current_node),
            old(costs)@.contains_key(current_node),
            label_inv(*access, n, source, old(costs)@, old(open)@, old(expanded)@),
            label_order(*access, other, source, last, old(costs)@, q0, old(expanded)@, stall_at),
            is_first_min(q0, pi),
            old(open)@ == q0.remove(pi),
            q0[pi].1 == current_node,
        ensures
            label_inv(*access, n, source, final(costs)@, final(open)@, final(expanded)@),
            label_order(*access, other, source, r@.0, final(costs)@, final(open)@, final(expanded)@, r@.1),
            label_potential(n, final(costs)@, final(open)@, final(expanded)@) < label_potential(n, old(costs)@, old(open)@, old(expanded)@),
            first_hops_labelled(*access, other, source, final(costs)@),
    {
        let ghost k = q0[pi].0 as int;
        let ghost e0 = expanded@;
        let ghost c0 = costs@;
        let ghost o0 = open@;
        proof {
            lemma_order_key(*access, other, source, last, costs@, q0, e0, stall_at, pi);
        }
        node_set_insert(expanded, current_node);
        proof {
            lemma_count_missing_insert(e0, n, current_node);
            lemma_weighted_step(count_missing(expanded@, n), count_missing(e0, n));
            assert(costs@.contains_key(current_node));
        }
        let current_node_cost = match cost_map_get(costs, current_node) {
            Some(c) => c,
            None => 0,
        };
        let stall = if forward {
            self.backward_search(current_node, depth_limit)
        } else {
            self.forward_search(current_node, depth_limit)
        };
        let entries = cost_map_entries(&stall);
        let incoming_min = cheapest_detour(costs, &entries);
        if current_node_cost > incoming_min {
            proof {
                lemma_map_sum_remove(costs@, n, current_node);
                assert(cheaper_detour(*access, other, source, current_node, k) && first_hops_labelled(
                    *access,
                    other,
                    source,
                    costs@.remove(current_node),
                )) by {
                    assert(current_node != source);
                    let i = choose|i: int|
                        0 <= i < entries@.len() && costs@.contains_key(#[trigger] entries@[i].0) && incoming_min == costs@[entries@[i].0]
                            + entries@[i].1;
                    let x = entries@[i].0;
                    assert(stall@.contains_key(x) && stall@[x] == entries@[i].1);
                    assert(costs_walk(other, current_node, x, entries@[i].1 as int, depth_limit as int));
                    assert(walk_costs(other, current_node, x, entries@[i].1 as int));
                    assert(walk_costs(*access, source, x, costs@[x] as int));
                    assert(first_before);
                    lemma_stall_keeps_hops(*access, other, source, costs@, current_node, x, costs@[x] as int, entries@[i].1 as int);
                    assert(walk_costs(*access, source, x, costs@[x] as int) && walk_costs(other, current_node, x, entries@[i].1 as int));
                }
                lemma_order_stall(*access, other, source, last, costs@, q0, o0, e0, stall_at, pi);
            }
            let ghost c1 = costs@;
            cost_map_remove(costs, current_node);
            proof {
                assert forall|j: int| 0 <= j < open@.len() && !expanded@.contains((#[trigger] open@[j]).1) implies costs@.contains_key(open@[j].1) by {
                    assert(open@[j].1 != current_node);
                }
            }
            return Ghost((k, stall_at.insert(current_node, k)));
        }
        let ghost c2 = costs@;
        relax_label(access, Ghost(n), source, current_node, current_node_cost, costs, open, Ghost(expanded@));
        proof {
            lemma_relax_keeps_hops(*access, other, source, c2, costs@, first_before, current_node, current_node_cost);
            lemma_order_relax(*access, other, source, last, c2, q0, o0, costs@, open@, e0, stall_at, pi);
        }
        Ghost((k, stall_at))
    }

    /// The forward label of `source`, hub to cost: a search over the outgoing edges that stalls
    /// a node where a search over the incoming edges from it, limited to `depth_limit` edges,
    /// shows a cheaper way to it over a labelled node. Every labelled node is either undercut by
    /// such a detour or has each outgoing edge leading to a label no dearer than the way over it,
    /// or to a node that a cheaper detour reaches.
    pub fn get_forward_label(&self, source: u32, depth_limit: u32) -> (costs: CostMap)
        requires
            self.graph.wf(),
            source < self.graph.num_nodes,
        ensures
            label_costs(self.graph.forward_edges, self.graph.num_nodes as nat, source, costs@),
            first_hops_labelled(self.graph.forward_edges, self.graph.backward_edges, source, costs@),
            label_closed(self.graph.forward_edges, self.graph.backward_edges, source, costs@),
    {
        self.label_search(true, source, depth_limit)
    }

    /// The backward label of `source`, hub to cost: a search over the incoming edges that stalls
    /// a node where a search over the outgoing edges from it, limited to `depth_limit` edges,
    /// shows a cheaper way from it over a labelled node. Every labelled node is either undercut by
    /// such a detour or has each incoming edge leading to a label no dearer than the way over it,
    /// or to a node that a cheaper detour reaches.
    pub fn get_backward_label(&self, source: u32, depth_limit: u32) -> (costs: CostMap)
        requires
            self.graph.wf(),
            source < self.graph.num_nodes,
        ensures
            label_costs(self.graph.backward_edges, self.graph.num_nodes as nat, source, costs@),
            first_hops_labelled(self.graph.backward_edges, self.graph.forward_edges, source, costs@),
            label_closed(self.graph.backward_edges, self.graph.forward_edges, source, costs@),
    {
        self.label_search(false, source, depth_limit)
    }

    /// Runs a forward search from the request's source over the outgoing edges and a backward
    /// search from its target over the incoming edges, a step of each in turn until neither has
    /// a node left, and returns the cheapest meeting seen (cost and node; `u32::MAX` for none)
    /// with the predecessors of both searches.
    fn meet(&self, request: &RouteRequest) -> (result: (u32, u32, CostMap, CostMap))
        requires
            self.graph.wf(),
            self.graph.num_nodes <= u32::MAX,
            request.source < self.graph.num_nodes,
            request.target < self.graph.num_nodes,
        ensures
            result.0 < u32::MAX ==> meets(self.graph, request.source, request.target, result.1, result.0 as int),
            cheapest_meeting(self.graph, request.source, request.target, result.0 as int),
    {
        let ghost n = self.graph.num_nodes as nat;
        let ghost graph = self.graph;
        let mut forward_costs = cost_map_new();
        let mut backward_costs = cost_map_new();
        let mut forward_predecessor = cost_map_new();
        let mut backward_predecessor = cost_map_new();
        let mut forward_open: Vec<(u32, u32)> = Vec::new();
        let mut backward_open: Vec<(u32, u32)> = Vec::new();
        let mut forward_expanded = node_set_new();
        let mut backward_expaned = node_set_new();
        forward_open.push((0, request.source));
        cost_map_insert(&mut forward_costs, request.source, 0);
        backward_open.push((0, request.target));
        cost_map_insert(&mut backward_costs, request.target, 0);
        let mut best: (u32, u32) = (u32::MAX, u32::MAX);
        let ghost mut flast: int = 0;
        let ghost mut blast: int = 0;
        proof {
            assert(forward_open@ =~= seq![(0u32, request.source)]);
            assert(backward_open@ =~= seq![(0u32, request.target)]);
            assert(forward_open@[0] == (0u32, request.source));
            assert(backward_open@[0] == (0u32, request.target));
            lemma_walk_start(graph.forward_edges, request.source);
            lemma_walk_costs(graph.forward_edges, request.source, request.source, 0, 0);
            lemma_walk_start(graph.backward_edges, request.target);
            lemma_walk_costs(graph.backward_edges, request.target, request.target, 0, 0);
        }
        while forward_open.len() > 0 || backward_open.len() > 0
            invariant
                graph == self.graph,
                graph.wf(),
                n == graph.num_nodes,
                n <= u32::MAX,
                request.source < n,
                request.target < n,
                side_inv(graph.forward_edges, n, request.source, forward_costs@, forward_open@, forward_expanded@),
                side_inv(graph.backward_edges, n, request.target, backward_costs@, backward_open@, backward_expaned@),
                best.0 < u32::MAX ==> meets(graph, request.source, request.target, best.1, best.0 as int),
                side_order(graph.forward_edges, forward_costs@, forward_open@, forward_expanded@, flast, -1, 0),
                side_order(graph.backward_edges, backward_costs@, backward_open@, backward_expaned@, blast, -1, 0),
                met_below(forward_costs@, forward_expanded@, backward_costs@, backward_expaned@, best.0),
            decreases 2 * map_sum(forward_costs@, n) + forward_open@.len() + 2 * map_sum(backward_costs@, n) + backward_open@.len(),
        {
            let fl = meet_step(
                &self.graph.forward_edges,
                Ghost(n),
                Ghost(graph),
                Ghost(true),
                Ghost(request.source),
                Ghost(request.target),
                request.source,
                &mut forward_costs,
                &mut forward_open,
                &mut forward_expanded,
                &mut forward_predecessor,
                &backward_costs,
                &backward_expaned,
                &mut best,
                Ghost(flast),
            );
            proof {
                flast = fl@;
            }
            let bl = meet_step(
                &self.graph.backward_edges,
                Ghost(n),
                Ghost(graph),
                Ghost(false),
                Ghost(request.source),
                Ghost(request.target),
                request.target,
                &mut backward_costs,
                &mut backward_open,
                &mut backward_expaned,
                &mut backward_predecessor,
                &forward_costs,
                &forward_expanded,
                &mut best,
                Ghost(blast),
            );
            proof {
                blast = bl@;
            }
        }
        proof {
            lemma_cheapest_meeting(
                graph,
                request.source,
                request.target,
                forward_costs@,
                forward_open@,
                forward_expanded@,
                flast,
                backward_costs@,
                backward_open@,
                backward_expaned@,
                blast,
                best.0,
            );
        }
        (best.0, best.1, forward_predecessor, backward_predecessor)
    }

    /// The cheapest meeting of a forward search from the request's source and a backward
    /// search from its target, both run until they have no node left: no node is met more
    /// cheaply; `None` where the two never meet below `u32::MAX`.
    pub fn get_cost(&self, request: &RouteRequest) -> (cost: Option<u32>)
        requires
            self.graph.wf(),
            self.graph.num_nodes <= u32::MAX,
            request.source < self.graph.num_nodes,
            request.target < self.graph.num_nodes,
        ensures
            cost matches Some(c) ==> c < u32::MAX && exists|node: u32| #[trigger] meets(self.graph, request.source, request.target, node, c as int),
            cheapest_meeting(
                self.graph,
                request.source,
                request.target,
                match cost {
                    Some(c) => c as int,
                    None => u32::MAX as int,
                },
            ),
    {
        let (minimal_cost, _meeting_node, _forward, _backward) = self.meet(request);
        if minimal_cost != u32::MAX {
            return Some(minimal_cost);
        }
        None
    }

    /// The route of the cheapest meeting of a forward search from the request's source and a
    /// backward search from its target: the meeting node alone, with the meeting cost; `None`
    /// where the two never meet below `u32::MAX`.
    pub fn get_route(&self, request: &RouteRequest) -> (route: Option<Route>)
        requires
            self.graph.wf(),
            self.graph.num_nodes <= u32::MAX,
            request.source < self.graph.num_nodes,
            request.target < self.graph.num_nodes,
        ensures
            route matches Some(r) ==> r.cost < u32::MAX && r.nodes@.len() == 1 && meets(
                self.graph,
                request.source,
                request.target,
                r.nodes@[0],
                r.cost as int,
            ),
            cheapest_meeting(
                self.graph,
                request.source,
                request.target,
                match route {
                    Some(r) => r.cost as int,
                    None => u32::MAX as int,
                },
            ),
    {
        let (minimal_cost, meeting_node, forward_predecessor, backward_predecessor) = self.meet(request);
        get_route(meeting_node, minimal_cost, forward_predecessor, backward_predecessor)
    }

    /// The forward label of `source` as a cost per node, `u32::MAX` for the nodes it lacks.
    pub fn get_forward_label_vec(&self, source: u32, depth_limit: u32) -> (costs: Vec<u32>)
        requires
            self.graph.wf(),
            source < self.graph.num_nodes,
        ensures
            costs@.len() == self.graph.num_nodes,
            costs@[source as int] == 0,
            forall|v: int| 0 <= v < costs@.len() && #[trigger] costs@[v] != u32::MAX ==> walk_costs(self.graph.forward_edges, source, v as u32, costs@[v] as int),
            forall|i: int|
                0 <= i < self.graph.forward_edges.out(source as int).len() && self.graph.forward_edges.out(source as int)[i].cost < u32::MAX
                    ==> costs@[#[trigger] self.graph.forward_edges.out(source as int)[i].target as int] <= self.graph.forward_edges.out(
                    source as int,
                )[i].cost || cheaper_detour(
                    self.graph.forward_edges,
                    self.graph.backward_edges,
                    source,
                    self.graph.forward_edges.out(source as int)[i].target,
                    self.graph.forward_edges.out(source as int)[i].cost as int,
                ),
            exists|label: Map<u32, u32>|
                #[trigger] label_closed(self.graph.forward_edges, self.graph.backward_edges, source, label) && forall|w: int|
                    0 <= w < costs@.len() ==> #[trigger] costs@[w] == if label.contains_key(w as u32) {
                        label[w as u32]
                    } else {
                        u32::MAX
                    },
    {
        let label = self.label_search(true, source, depth_limit);
        let mut costs: Vec<u32> = Vec::new();
        let mut v: u32 = 0;
        while v < self.graph.num_nodes
            invariant
                v <= self.graph.num_nodes,
                costs@.len() == v,
                label_costs(self.graph.forward_edges, self.graph.num_nodes as nat, source, label@),
                forall|w: int| 0 <= w < v ==> #[trigger] costs@[w] == if label@.contains_key(w as u32) {
                    label@[w as u32]
                } else {
                    u32::MAX
                },
            decreases self.graph.num_nodes - v,
        {
            let c = match cost_map_get(&label, v) {
                Some(c) => c,
                None => u32::MAX,
            };
            costs.push(c);
            v += 1;
        }
        proof {
            assert forall|w: int| 0 <= w < costs@.len() && #[trigger] costs@[w] != u32::MAX implies walk_costs(self.graph.forward_edges, source, w as u32, costs@[w] as int) by {
                assert(label@.contains_key(w as u32));
            }
            assert forall|i: int|
                0 <= i < self.graph.forward_edges.out(source as int).len() && self.graph.forward_edges.out(source as int)[i].cost < u32::MAX
                    implies costs@[#[trigger] self.graph.forward_edges.out(source as int)[i].target as int] <= self.graph.forward_edges.out(
                    source as int,
                )[i].cost || cheaper_detour(
                    self.graph.forward_edges,
                    self.graph.backward_edges,
                    source,
                    self.graph.forward_edges.out(source as int)[i].target,
                    self.graph.forward_edges.out(source as int)[i].cost as int,
                ) by {
                let t = self.graph.forward_edges.out(source as int)[i].target;
                assert(t < self.graph.num_nodes);
                assert(costs@[t as int] == if label@.contains_key(t) {
                    label@[t]
                } else {
                    u32::MAX
                });
            }
            assert(label_closed(self.graph.forward_edges, self.graph.backward_edges, source, label@));
        }
        costs
    }
}

} // verus!

//! Goal-directed search: a search that stops once the target is expanded, with the queue keyed
//! by cost plus a heuristic value.
use vstd::prelude::*;

use crate::routing::dijkstra_data::{key_of, lemma_fresh_pop, DijkstraData, DijsktraEntry};
use crate::routing::queue::{lemma_bucket_push, State};
use crate::routing::fast_graph::{FastEdgeAccess, Graph};
use crate::routing::queue::in_buckets;
use crate::routing::route::{RouteRequest, RouteResponse};
use crate::routing::search::{
    bound_inv, costs_bounded, count_expanded, labels_backed, lemma_after_pop, lemma_after_relax,
    lemma_count_expanded_bound, lemma_labels_backed, lemma_search_end, search_inv, queued, backed,
};
use super::dijkstra::{backed_route, route_found};
use super::heuristics::Heuristic;
use crate::routing::dijkstra::order::{lemma_walk_bound_from, no_cheaper_walk_to};
use crate::routing::shortest::{
    chain_costs, lemma_chain_cost, lemma_order_pop, lemma_order_relax, lemma_relaxed_all, lemma_shortest_labels, order_inv, short_edges,
};
use crate::routing::simple_algorithms::ch_bi_dijkstra::{indexed_cost, indexed_walk};
use super::dijkstra::{lemma_order_start, lemma_target_answer, shortest_answer};

verus! {

/// What a search from `source` towards `target` gives: labels for all `num_nodes` nodes,
/// `source` at cost 0, every reached node backed by a walk from `source`, and, when edge costs
/// are bounded, `target` reached exactly when a walk leads to it from `source`.
pub open spec fn target_search(access: FastEdgeAccess, num_nodes: nat, source: u32, target: u32, data: DijkstraData) -> bool {
    &&& data.wf()
    &&& data.nodes@.len() == num_nodes
    &&& data.nodes@[source as int].cost == 0
    &&& labels_backed(access, data.nodes@, source)
    &&& costs_bounded(access, num_nodes) ==> ((data.nodes@[target as int].cost != u32::MAX) == access.reaches(source, target))
}

/// Searches `access` from `source` until `target` is expanded or nothing is left to expand,
/// queuing every relaxed node under its cost plus the heuristic value of the node.
pub(crate) fn search_to<H: Heuristic>(access: &FastEdgeAccess, num_nodes: u32, source: u32, target: u32, heuristic: &H) -> (data: DijkstraData)
    requires
        access.wf(num_nodes as nat),
        source < num_nodes,
        target < num_nodes,
        forall|v: u32| v < num_nodes && access.reaches(source, v) ==> #[trigger] heuristic.covers(v),
    ensures
        target_search(*access, num_nodes as nat, source, target, data),
        queued_by_estimate(data.nodes@, data.queue@.1, source, |v: u32| heuristic.value(v)),
        zero_valued(heuristic, num_nodes as nat) && short_edges(*access, num_nodes as nat) ==> no_cheaper_walk_to(
            *access,
            data.nodes@,
            source,
            target,
        ) && (data.nodes@[target as int].cost != u32::MAX ==> chain_costs(*access, data.nodes@, source, target)),
{
    let mut data = start(num_nodes, source);
    let ghost mut st: Seq<nat> = crate::routing::search::zero_stamps(num_nodes as nat);
    let ghost mut clock: nat = 1;
    let ghost mut last: int = 0;
    let ghost in_order = zero_valued(heuristic, num_nodes as nat) && short_edges(*access, num_nodes as nat);
    assert(search_inv(*access, data.nodes@, data.queue@, source, st, clock));
    proof {
        lemma_order_start(*access, data, num_nodes as nat, source);
        lemma_keyed_start(data, num_nodes as nat, source, |v: u32| heuristic.value(v));
    }
    loop
        invariant
            access.wf(num_nodes as nat),
            source < num_nodes,
            target < num_nodes,
            in_order == (zero_valued(heuristic, num_nodes as nat) && short_edges(*access, num_nodes as nat)),
            in_order ==> order_inv(*access, data.nodes@, data.queue@, source, last, -1, 0),
            data.wf(),
            data.nodes@.len() == num_nodes,
            search_inv(*access, data.nodes@, data.queue@, source, st, clock),
            bound_inv(*access, data.nodes@, -1, 0),
            forall|v: u32| v < num_nodes && access.reaches(source, v) ==> #[trigger] heuristic.covers(v),
            queued_by_estimate(data.nodes@, data.queue@.1, source, |v: u32| heuristic.value(v)),
        decreases num_nodes - count_expanded(data.nodes@),
    {
        let ghost c0 = count_expanded(data.nodes@);
        let ghost n0 = data.nodes@;
        let ghost q0 = data.queue@;
        proof {
            lemma_after_pop(*access, data.nodes@, data.queue@, source, st, clock);
            lemma_count_expanded_bound(data.nodes@);
            if in_order {
                lemma_order_pop(*access, data.nodes@, data.queue@, source, st, clock, last);
            }
        }
        match data.pop() {
            None => {
                proof {
                    lemma_search_end(*access, data.nodes@, data.queue@, source, st, clock);
                    if in_order {
                        lemma_shortest_labels(*access, data.nodes@, source, st, clock, last);
                    }
                    if data.nodes@[target as int].cost != u32::MAX {
                        assert(backed(*access, data.nodes@, source, target));
                        crate::routing::search::lemma_backed_reaches(*access, data.nodes@, source, target);
                    }
                }
                return data;
            },
            Some(state) => {
                proof {
                    lemma_keyed_after_pop(n0, q0, data.nodes@, data.queue@, state, source, |v: u32| heuristic.value(v));
                }
                let u = state.value;
                if u == target {
                    proof {
                        lemma_labels_backed(*access, data.nodes@, data.queue@, source, st, clock);
                        assert(data.nodes@[target as int].is_expanded);
                        assert(data.nodes@[target as int].cost != u32::MAX);
                        assert(backed(*access, data.nodes@, source, target));
                        crate::routing::search::lemma_backed_reaches(*access, data.nodes@, source, target);
                        if in_order {
                            assert forall|p: Seq<u32>, ix: Seq<int>|
                                #[trigger] indexed_walk(*access, p, ix) && p[0] == source && p.last() == target implies data.nodes@[target as int].cost
                                    <= indexed_cost(*access, p, ix) by {
                                lemma_walk_bound_from(*access, data.nodes@, source, state.key as int, u as int, p, ix);
                            }
                            lemma_chain_cost(*access, data.nodes@, source, st, clock, target);
                        }
                    }
                    return data;
                }
                let ghost popped_key = state.key as int;
                let r = expand(
                    access,
                    num_nodes,
                    &mut data,
                    u,
                    heuristic,
                    Ghost(source),
                    Ghost(st),
                    Ghost(clock),
                    Ghost(in_order),
                    Ghost(popped_key),
                );
                proof {
                    st = r@.0;
                    clock = r@.1;
                    last = popped_key;
                }
                proof {
                    lemma_count_expanded_bound(data.nodes@);
                }
            },
        }
    }
}

/// Every node other than `source` that is reached but not expanded waits in the queue under its
/// cost plus the estimate of the node (`u32::MAX` where that sum does not fit).
pub open spec fn queued_by_estimate(nodes: Seq<DijsktraEntry>, buckets: Seq<Seq<State>>, source: u32, estimate: spec_fn(u32) -> u32) -> bool {
    forall|v: u32| #![trigger nodes[v as int]]
        v < nodes.len() && v != source && nodes[v as int].cost != u32::MAX && !nodes[v as int].is_expanded ==> in_buckets(
            buckets,
            State { key: key_of(nodes[v as int].cost as int, estimate(v) as int) as u32, value: v },
        )
}

/// At the start only `source` is reached, so no other node waits.
pub proof fn lemma_keyed_start(data: DijkstraData, num_nodes: nat, source: u32, estimate: spec_fn(u32) -> u32)
    requires
        fresh_start(data, num_nodes, source),
        source < num_nodes,
    ensures
        queued_by_estimate(data.nodes@, data.queue@.1, source, estimate),
{
}

/// Taking the next node from the queue keeps every other waiting node queued under its cost
/// plus its estimate.
pub proof fn lemma_keyed_after_pop(
    nodes: Seq<DijsktraEntry>,
    q: (int, Seq<Seq<State>>),
    nodes2: Seq<DijsktraEntry>,
    q2: (int, Seq<Seq<State>>),
    popped: State,
    source: u32,
    estimate: spec_fn(u32) -> u32,
)
    requires
        queued_by_estimate(nodes, q.1, source, estimate),
        (Some(popped), q2) == crate::routing::dijkstra_data::fresh_pop(q, nodes),
        nodes2 == nodes.update(popped.value as int, DijsktraEntry { is_expanded: true, ..nodes[popped.value as int] }),
    ensures
        queued_by_estimate(nodes2, q2.1, source, estimate),
{
    assert(q.1.len() > 0 && 0 <= q.0 < q.1.len());
    lemma_fresh_pop(q, nodes);
    assert forall|v: u32| #![trigger nodes2[v as int]]
        v < nodes2.len() && v != source && nodes2[v as int].cost != u32::MAX && !nodes2[v as int].is_expanded implies in_buckets(
        q2.1,
        State { key: key_of(nodes2[v as int].cost as int, estimate(v) as int) as u32, value: v },
    ) by {
        assert(v != popped.value);
        assert(nodes2[v as int] == nodes[v as int]);
        let x = State { key: key_of(nodes[v as int].cost as int, estimate(v) as int) as u32, value: v };
        assert(in_buckets(q.1, x));
    }
}

/// Taking the next node from the queue, or finding none, keeps every waiting node queued under
/// its cost plus its estimate.
pub proof fn lemma_keyed_pop(
    access: FastEdgeAccess,
    nodes: Seq<DijsktraEntry>,
    q: (int, Seq<Seq<State>>),
    nodes2: Seq<DijsktraEntry>,
    q2: (int, Seq<Seq<State>>),
    popped: Option<State>,
    source: u32,
    st: Seq<nat>,
    clock: nat,
    estimate: spec_fn(u32) -> u32,
)
    requires
        search_inv(access, nodes, q, source, st, clock),
        bound_inv(access, nodes, -1, 0),
        q.1.len() > 0,
        0 <= q.0 < q.1.len(),
        queued_by_estimate(nodes, q.1, source, estimate),
        (popped, q2) == crate::routing::dijkstra_data::fresh_pop(q, nodes),
        nodes2 == match popped {
            Some(x) => nodes.update(x.value as int, DijsktraEntry { is_expanded: true, ..nodes[x.value as int] }),
            None => nodes,
        },
    ensures
        queued_by_estimate(nodes2, q2.1, source, estimate),
{
    lemma_after_pop(access, nodes, q, source, st, clock);
    match popped {
        Some(x) => {
            lemma_keyed_after_pop(nodes, q, nodes2, q2, x, source, estimate);
        },
        None => {
            assert forall|v: u32| #![trigger nodes2[v as int]]
                v < nodes2.len() && v != source && nodes2[v as int].cost != u32::MAX && !nodes2[v as int].is_expanded implies in_buckets(
                q2.1,
                State { key: key_of(nodes2[v as int].cost as int, estimate(v) as int) as u32, value: v },
            ) by {
                assert(nodes[v as int].cost != u32::MAX);
            }
        },
    }
}

/// Relaxing an edge with the estimate of its target keeps every waiting node queued under its
/// cost plus its estimate.
proof fn lemma_relax_keyed(
    nodes: Seq<DijsktraEntry>,
    q: (int, Seq<Seq<State>>),
    u: u32,
    edge: crate::routing::fast_graph::FastEdge,
    h: u32,
    nodes2: Seq<DijsktraEntry>,
    q2: (int, Seq<Seq<State>>),
    source: u32,
    estimate: spec_fn(u32) -> u32,
)
    requires
        queued_by_estimate(nodes, q.1, source, estimate),
        crate::routing::dijkstra_data::relaxed(nodes, q, u, edge, h, nodes2, q2),
        h == estimate(edge.target),
        edge.target < nodes.len(),
        u < nodes.len(),
        q.1.len() > 0,
    ensures
        queued_by_estimate(nodes2, q2.1, source, estimate),
{
    let alt = crate::routing::dijkstra_data::path_cost(nodes[u as int].cost, edge.cost);
    let t = edge.target;
    if alt < nodes[t as int].cost {
        let x = State { key: key_of(alt, h as int) as u32, value: t };
        lemma_bucket_push(q, key_of(alt, h as int), x);
        assert forall|v: u32| #![trigger nodes2[v as int]]
            v < nodes2.len() && v != source && nodes2[v as int].cost != u32::MAX && !nodes2[v as int].is_expanded implies in_buckets(
            q2.1,
            State { key: key_of(nodes2[v as int].cost as int, estimate(v) as int) as u32, value: v },
        ) by {
            if v != t {
                assert(nodes2[v as int] == nodes[v as int]);
                assert(in_buckets(q.1, State { key: key_of(nodes[v as int].cost as int, estimate(v) as int) as u32, value: v }));
            }
        }
    }
}

/// The heuristic is 0 at every node below `n`.
pub open spec fn zero_valued<H: Heuristic>(heuristic: &H, n: nat) -> bool {
    forall|v: u32| v < n ==> #[trigger] heuristic.value(v) == 0
}

/// Relaxes every edge leaving `u`, the node just expanded, queuing each relaxed node under its
/// cost plus the heuristic value of the node. With `in_order`, where the heuristic is 0 and
/// edges are short, the search stays in the order of its keys from `key`, the key `u` was
/// popped at.
pub(crate) fn expand<H: Heuristic>(
    access: &FastEdgeAccess,
    num_nodes: u32,
    data: &mut DijkstraData,
    u: u32,
    heuristic: &H,
    Ghost(source): Ghost<u32>,
    Ghost(st): Ghost<Seq<nat>>,
    Ghost(clock): Ghost<nat>,
    Ghost(in_order): Ghost<bool>,
    Ghost(key): Ghost<int>,
) -> (r: Ghost<(Seq<nat>, nat)>)
    requires
        in_order ==> zero_valued(heuristic, num_nodes as nat) && short_edges(*access, num_nodes as nat) && order_inv(
            *access,
            old(data).nodes@,
            old(data).queue@,
            source,
            key,
            u as int,
            0,
        ),
        access.wf(num_nodes as nat),
        old(data).wf(),
        old(data).nodes@.len() == num_nodes,
        u < num_nodes,
        old(data).nodes@[u as int].is_expanded,
        search_inv(*access, old(data).nodes@, old(data).queue@, source, st, clock),
        bound_inv(*access, old(data).nodes@, u as int, 0),
        forall|v: u32| v < num_nodes && access.reaches(source, v) ==> #[trigger] heuristic.covers(v),
        queued_by_estimate(old(data).nodes@, old(data).queue@.1, source, |v: u32| heuristic.value(v)),
    ensures
        queued_by_estimate(final(data).nodes@, final(data).queue@.1, source, |v: u32| heuristic.value(v)),
        final(data).wf(),
        final(data).nodes@.len() == num_nodes,
        search_inv(*access, final(data).nodes@, final(data).queue@, source, r@.0, r@.1),
        bound_inv(*access, final(data).nodes@, -1, 0),
        count_expanded(final(data).nodes@) == count_expanded(old(data).nodes@),
        in_order ==> order_inv(*access, final(data).nodes@, final(data).queue@, source, key, -1, 0),
        forall|v: int| 0 <= v < num_nodes ==> #[trigger] final(data).nodes@[v].cost <= old(data).nodes@[v].cost,
{
    let ghost start = data.nodes@;
    let ghost mut st = st;
    let ghost mut clock = clock;
    let ghost c0 = count_expanded(data.nodes@);
    proof {
        lemma_labels_backed(*access, data.nodes@, data.queue@, source, st, clock);
        assert(backed(*access, data.nodes@, source, u));
        crate::routing::search::lemma_backed_reaches(*access, data.nodes@, source, u);
    }
    let edges = access.outgoing_edges(u);
    let mut i: usize = 0;
    while i < edges.len()
        invariant
            access.wf(num_nodes as nat),
            data.wf(),
            data.nodes@.len() == num_nodes,
            u < num_nodes,
            data.nodes@[u as int].is_expanded,
            edges@ == access.out(u as int),
            i <= edges@.len(),
            search_inv(*access, data.nodes@, data.queue@, source, st, clock),
            bound_inv(*access, data.nodes@, u as int, i as int),
            count_expanded(data.nodes@) == c0,
            access.reaches(source, u),
            forall|v: u32| v < num_nodes && access.reaches(source, v) ==> #[trigger] heuristic.covers(v),
            in_order ==> zero_valued(heuristic, num_nodes as nat) && short_edges(*access, num_nodes as nat) && order_inv(
                *access,
                data.nodes@,
                data.queue@,
                source,
                key,
                u as int,
                i as int,
            ),
            forall|v: int| 0 <= v < num_nodes ==> #[trigger] data.nodes@[v].cost <= start[v].cost,
            queued_by_estimate(data.nodes@, data.queue@.1, source, |v: u32| heuristic.value(v)),
        decreases edges@.len() - i,
    {
        let ghost nodes0 = data.nodes@;
        let ghost q0 = data.queue@;
        assert(access.out(u as int)[i as int].target < num_nodes);
        proof {
            crate::routing::search::lemma_reaches_step(*access, source, u, i as int);
        }
        let h = heuristic.lower_bound(edges[i].target);
        data.update(u, &edges[i], h);
        proof {
            lemma_relax_keyed(nodes0, q0, u, edges@[i as int], h, data.nodes@, data.queue@, source, |v: u32| heuristic.value(v));
            if in_order {
                assert(h == 0);
                lemma_order_relax(*access, nodes0, q0, source, key, u, i as int, data.nodes@, data.queue@);
            }
            assert forall|v: int| 0 <= v < num_nodes implies #[trigger] data.nodes@[v].cost <= start[v].cost by {
                assert(data.nodes@[v].cost <= nodes0[v].cost);
            }
            let r = lemma_after_relax(*access, nodes0, q0, source, st, clock, u, i as int, h, data.nodes@, data.queue@);
            st = r.0;
            clock = r.1;
        }
        i += 1;
    }
    proof {
        if in_order {
            lemma_relaxed_all(*access, data.nodes@, key, u as int);
        }
    }
    Ghost((st, clock))
}

/// `data` is the data that `DijkstraData::new(num_nodes, source)` gives.
pub open spec fn fresh_start(data: DijkstraData, num_nodes: nat, source: u32) -> bool {
    &&& data.nodes@ == Seq::new(num_nodes, |v: int| DijsktraEntry::unvisited()).update(
        source as int,
        DijsktraEntry { predecessor: u32::MAX, cost: 0, is_expanded: false },
    )
    &&& data.queue@ == crate::routing::queue::bucket_push(
        crate::routing::queue::bucket_queue::BucketQueue::empty_view(),
        0,
        crate::routing::queue::State { key: 0, value: source },
    )
}

/// The invariants of a search hold at its start.
pub proof fn lemma_fresh_start(access: FastEdgeAccess, data: DijkstraData, num_nodes: nat, source: u32)
    requires
        fresh_start(data, num_nodes, source),
        access.wf(num_nodes),
        source < num_nodes <= u32::MAX,
    ensures
        data.wf(),
        data.nodes@.len() == num_nodes,
        search_inv(access, data.nodes@, data.queue@, source, crate::routing::search::zero_stamps(num_nodes), 1),
        bound_inv(access, data.nodes@, -1, 0),
        count_expanded(data.nodes@) == 0,
{
    let nodes = data.nodes@;
    let e = crate::routing::queue::bucket_queue::BucketQueue::empty_view();
    let s0 = crate::routing::queue::State { key: 0, value: source };
    crate::routing::queue::lemma_bucket_push(e, 0, s0);
    assert forall|x| #[trigger] in_buckets(data.queue@.1, x) implies x.value < nodes.len() && nodes[x.value as int].cost
        != u32::MAX by {
        if in_buckets(e.1, x) {
            let (j, k) = choose|j: int, k: int| 0 <= j < e.1.len() && 0 <= k < e.1[j].len() && #[trigger] e.1[j][k] == x;
        }
    }
    assert forall|v: int| 0 <= v < nodes.len() && #[trigger] nodes[v].cost != u32::MAX && !nodes[v].is_expanded implies queued(
        data.queue@,
        v as u32,
    ) by {
        assert(in_buckets(data.queue@.1, s0));
    }
    crate::routing::search::lemma_zero_expanded(nodes);
}

/// The data a search from `source` starts with, and the facts the search relies on.
pub(crate) fn start(num_nodes: u32, source: u32) -> (data: DijkstraData)
    requires
        source < num_nodes,
    ensures
        data.wf(),
        data.nodes@.len() == num_nodes,
        fresh_start(data, num_nodes as nat, source),
        forall|access: FastEdgeAccess| access.wf(num_nodes as nat) ==> #[trigger] search_inv(
            access,
            data.nodes@,
            data.queue@,
            source,
            crate::routing::search::zero_stamps(num_nodes as nat),
            1,
        ) && bound_inv(access, data.nodes@, -1, 0),
        count_expanded(data.nodes@) == 0,
{
    let data = DijkstraData::new(num_nodes as usize, source);
    proof {
        assert forall|access: FastEdgeAccess| access.wf(num_nodes as nat) implies #[trigger] search_inv(
            access,
            data.nodes@,
            data.queue@,
            source,
            crate::routing::search::zero_stamps(num_nodes as nat),
            1,
        ) && bound_inv(access, data.nodes@, -1, 0) by {
            lemma_fresh_start(access, data, num_nodes as nat, source);
        }
        crate::routing::search::lemma_zero_expanded(data.nodes@);
    }
    data
}

/// What A* leaves waiting: every node other than the source that the search reached at cost
/// `c` but did not expand is queued under exactly `c` plus the heuristic's value at that node
/// (`u32::MAX` where the sum does not fit), the key that relaxing an edge into it gave it.
pub proof fn lemma_waiting_key<H: Heuristic>(heuristic: &H, source: u32, data: DijkstraData, v: u32)
    requires
        queued_by_estimate(data.nodes@, data.queue@.1, source, |w: u32| heuristic.value(w)),
        v < data.nodes@.len(),
        v != source,
        data.nodes@[v as int].cost != u32::MAX,
        !data.nodes@[v as int].is_expanded,
    ensures
        exists|j: int, k: int|
            0 <= j < data.queue@.1.len() && 0 <= k < data.queue@.1[j].len() && #[trigger] data.queue@.1[j][k] == (State {
                key: if data.nodes@[v as int].cost + heuristic.value(v) > u32::MAX {
                    u32::MAX
                } else {
                    (data.nodes@[v as int].cost + heuristic.value(v)) as u32
                },
                value: v,
            }),
{
    assert(data.nodes@[v as int] == data.nodes@[v as int]);
    let x = State { key: key_of(data.nodes@[v as int].cost as int, heuristic.value(v) as int) as u32, value: v };
    assert(in_buckets(data.queue@.1, x));
}

/// A* search over the forward edges of a graph.
pub struct AStar<'a> {
    pub graph: &'a Graph,
}

impl<'a> AStar<'a> {
    pub fn new(graph: &'a Graph) -> (a_star: AStar<'a>)
        ensures
            a_star.graph == graph,
    {
        AStar { graph }
    }

    /// Searches from the request's source until its target is expanded, guided by
    /// `heuristic`, and answers with the route found and the data of the search.
    pub fn get_data<H: Heuristic>(&self, request: &RouteRequest, heuristic: &H) -> (response: RouteResponse)
        requires
            self.graph.wf(),
            request.source < self.graph.num_nodes,
            request.target < self.graph.num_nodes,
            forall|v: u32| v < self.graph.num_nodes && self.graph.forward_edges.reaches(request.source, v) ==> #[trigger] heuristic.covers(v),
        ensures
            response.data@.len() == 1,
            target_search(self.graph.forward_edges, self.graph.num_nodes as nat, request.source, request.target, response.data@[0]),
            route_found(self.graph.forward_edges, request.source, request.target, response.data@[0], response.route),
            zero_valued(heuristic, self.graph.num_nodes as nat) && short_edges(self.graph.forward_edges, self.graph.num_nodes as nat)
                ==> shortest_answer(self.graph.forward_edges, request.source, request.target, response.route),
            queued_by_estimate(response.data@[0].nodes@, response.data@[0].queue@.1, request.source, |v: u32| heuristic.value(v)),
    {
        let data = search_to(&self.graph.forward_edges, self.graph.num_nodes, request.source, request.target, heuristic);
        let route = backed_route(&self.graph.forward_edges, &data, request.source, request.target);
        proof {
            if zero_valued(heuristic, self.graph.num_nodes as nat) && short_edges(self.graph.forward_edges, self.graph.num_nodes as nat) {
                lemma_target_answer(self.graph.forward_edges, data, request.source, request.target, route);
            }
        }
        let mut all = Vec::new();
        all.push(data);
        RouteResponse { route, data: all }
    }
}

} // verus!

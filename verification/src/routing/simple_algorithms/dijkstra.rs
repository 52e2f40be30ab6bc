//! Plain one-directional searches that expand every reachable node.
use vstd::prelude::*;

use crate::routing::dijkstra_data::{chain_ends, lemma_chain_ends_unique, DijkstraData};
use crate::routing::fast_graph::{FastEdgeAccess, FastGraph};
use crate::routing::queue::in_buckets;
use crate::routing::route::{Route, RouteRequest, RouteResponse, Routing};
use super::heuristics::zero::Zero;
use super::heuristics::Heuristic;
use crate::routing::queue::bucket_queue::BucketQueue;
use crate::routing::queue::{bucket_push, lemma_bucket_push, State};
use crate::routing::simple_algorithms::ch_bi_dijkstra::{indexed_cost, indexed_walk};
use crate::routing::dijkstra::order::no_cheaper_walk_to;
use crate::routing::shortest::{
    chain_costs, lemma_order_pop, lemma_shortest_labels, order_inv, placed, shortest_labels, short_edges, windowed,
};
use crate::routing::search::{
    backed, bound_inv, costs_bounded, count_expanded, labels_backed, labels_complete, lemma_after_pop, lemma_count_expanded_bound,
    lemma_search_end, search_inv,
};

verus! {

/// What a finished search from `source` over `access` gives: labels for all `num_nodes` nodes,
/// `source` at cost 0, every reached node expanded and backed by a walk from `source`, an
/// empty queue, and, when edge costs are bounded, every node reachable from `source` reached.
pub open spec fn full_search(access: FastEdgeAccess, num_nodes: nat, source: u32, data: DijkstraData) -> bool {
    &&& data.wf()
    &&& data.nodes@.len() == num_nodes
    &&& data.nodes@[source as int].cost == 0
    &&& forall|v: int| 0 <= v < num_nodes ==> (#[trigger] data.nodes@[v].cost != u32::MAX) == data.nodes@[v].is_expanded
    &&& forall|x| !in_buckets(data.queue@.1, x)
    &&& labels_backed(access, data.nodes@, source)
    &&& costs_bounded(access, num_nodes) ==> labels_complete(access, data.nodes@, source)
}

/// Searches `access` from `source`, expanding every node reachable from it. Where every edge
/// costs less than there are buckets, the labels are those of shortest routes.
pub(crate) fn search_all(access: &FastEdgeAccess, num_nodes: u32, source: u32) -> (data: DijkstraData)
    requires
        access.wf(num_nodes as nat),
        source < num_nodes,
    ensures
        full_search(*access, num_nodes as nat, source, data),
        short_edges(*access, num_nodes as nat) ==> shortest_labels(*access, data.nodes@, source),
{
    let mut data = super::a_star::start(num_nodes, source);
    let ghost mut st: Seq<nat> = crate::routing::search::zero_stamps(num_nodes as nat);
    let ghost mut clock: nat = 1;
    let ghost mut last: int = 0;
    assert(search_inv(*access, data.nodes@, data.queue@, source, st, clock));
    let zero = Zero {};
    proof {
        lemma_order_start(*access, data, num_nodes as nat, source);
        super::a_star::lemma_keyed_start(data, num_nodes as nat, source, |v: u32| zero.value(v));
    }
    loop
        invariant
            access.wf(num_nodes as nat),
            source < num_nodes,
            data.wf(),
            data.nodes@.len() == num_nodes,
            search_inv(*access, data.nodes@, data.queue@, source, st, clock),
            bound_inv(*access, data.nodes@, -1, 0),
            short_edges(*access, num_nodes as nat) ==> order_inv(*access, data.nodes@, data.queue@, source, last, -1, 0),
            super::a_star::queued_by_estimate(data.nodes@, data.queue@.1, source, |v: u32| zero.value(v)),
        decreases num_nodes - count_expanded(data.nodes@),
    {
        let ghost c0 = count_expanded(data.nodes@);
        let ghost n0 = data.nodes@;
        let ghost q0 = data.queue@;
        proof {
            lemma_after_pop(*access, data.nodes@, data.queue@, source, st, clock);
            lemma_count_expanded_bound(data.nodes@);
            if short_edges(*access, num_nodes as nat) {
                lemma_order_pop(*access, data.nodes@, data.queue@, source, st, clock, last);
            }
        }
        match data.pop() {
            None => {
                proof {
                    lemma_search_end(*access, data.nodes@, data.queue@, source, st, clock);
                    if short_edges(*access, num_nodes as nat) {
                        lemma_shortest_labels(*access, data.nodes@, source, st, clock, last);
                    }
                }
                return data;
            },
            Some(state) => {
                proof {
                    super::a_star::lemma_keyed_after_pop(n0, q0, data.nodes@, data.queue@, state, source, |v: u32| zero.value(v));
                }
                let u = state.value;
                let ghost popped_key = state.key as int;
                let r = super::a_star::expand(
                    access,
                    num_nodes,
                    &mut data,
                    u,
                    &zero,
                    Ghost(source),
                    Ghost(st),
                    Ghost(clock),
                    Ghost(short_edges(*access, num_nodes as nat)),
                    Ghost(popped_key),
                );
                proof {
                    st = r@.0;
                    clock = r@.1;
                    last = popped_key;
                }
                proof {
                    lemma_count_expanded_bound(data.nodes@);
                }
            },
        }
    }
}

/// The data of a fresh search is in order from key 0.
pub(crate) proof fn lemma_order_start(access: FastEdgeAccess, data: DijkstraData, num_nodes: nat, source: u32)
    requires
        super::a_star::fresh_start(data, num_nodes, source),
        source < num_nodes <= u32::MAX,
    ensures
        order_inv(access, data.nodes@, data.queue@, source, 0, -1, 0),
{
    let e = BucketQueue::empty_view();
    let s0 = State { key: 0, value: source };
    lemma_bucket_push(e, 0, s0);
    let q = data.queue@;
    let nodes = data.nodes@;
    assert(q == bucket_push(e, 0, s0));
    assert forall|j: int, k: int| 0 <= j < q.1.len() && 0 <= k < q.1[j].len() implies #[trigger] q.1[j][k].key as int % (q.1.len() as int) == j by {
        assert(j == 0);
        assert(q.1[0] == seq![s0]);
    }
    assert(placed(q));
    assert forall|x: State| #[trigger] in_buckets(q.1, x) implies 0 <= x.key < 0 + q.1.len() && x.value < nodes.len() && nodes[x.value as int].cost <= x.key by {
        let (j, k) = choose|j: int, k: int| 0 <= j < q.1.len() && 0 <= k < q.1[j].len() && #[trigger] q.1[j][k] == x;
        assert(j == 0);
        assert(q.1[0] == seq![s0]);
    }
    assert(windowed(q, 0));
    assert(in_buckets(q.1, s0)) by {
        assert(q.1[0][0] == s0);
    }
}

/// One-directional search over the forward edges of a graph.
pub struct Dijkstra<'a> {
    graph: &'a FastGraph,
}

impl<'a> Dijkstra<'a> {
    /// The graph searched.
    pub closed spec fn graph(&self) -> &'a FastGraph {
        self.graph
    }

    pub fn new(graph: &'a FastGraph) -> (dijkstra: Dijkstra<'a>)
        ensures
            dijkstra.graph() == graph,
    {
        Dijkstra { graph }
    }

    /// Searches from `target` over the outgoing edges, expanding every reachable node.
    pub fn get_backward_data(&self, target: u32) -> (data: DijkstraData)
        requires
            self.graph().wf(),
            target < self.graph().num_nodes,
        ensures
            full_search(self.graph().forward_edges, self.graph().num_nodes as nat, target, data),
            short_edges(self.graph().forward_edges, self.graph().num_nodes as nat) ==> shortest_labels(self.graph().forward_edges, data.nodes@, target),
    {
        search_all(&self.graph.forward_edges, self.graph.num_nodes, target)
    }

    /// Searches from `source` over the outgoing edges, expanding every reachable node.
    pub fn get_forward_data(&self, source: u32) -> (data: DijkstraData)
        requires
            self.graph().wf(),
            source < self.graph().num_nodes,
        ensures
            full_search(self.graph().forward_edges, self.graph().num_nodes as nat, source, data),
            short_edges(self.graph().forward_edges, self.graph().num_nodes as nat) ==> shortest_labels(self.graph().forward_edges, data.nodes@, source),
    {
        search_all(&self.graph.forward_edges, self.graph.num_nodes, source)
    }
}

/// A route that search data gives for `target`: `None` when `target` is unreached, and
/// otherwise a walk from `source` to `target` over `access` whose cost is that of `target`.
pub open spec fn route_found(access: FastEdgeAccess, source: u32, target: u32, data: DijkstraData, route: Option<Route>) -> bool {
    &&& (route is Some) == (data.nodes@[target as int].cost != u32::MAX)
    &&& route matches Some(r) ==> r.walks(access, source, target) && r.cost == data.nodes@[target as int].cost
}

/// The route of `data` to `target`, for data whose reached nodes are backed by walks from
/// `source`.
pub(crate) fn backed_route(access: &FastEdgeAccess, data: &DijkstraData, source: u32, target: u32) -> (route: Option<Route>)
    requires
        target < data.nodes@.len(),
        labels_backed(*access, data.nodes@, source),
    ensures
        route_found(*access, source, target, *data, route),
        route matches Some(r) ==> r.nodes@ == crate::routing::dijkstra_data::chain_route(
            data.nodes@,
            target,
            choose|k: nat| chain_ends(data.nodes@, target, k),
        ),
{
    backed_route_ghost(Ghost(*access), data, Ghost(source), target)
}

/// The route of `data` to `target`, for data whose reached nodes are backed by walks from
/// `source` over `access`.
pub(crate) fn backed_route_ghost(Ghost(access): Ghost<FastEdgeAccess>, data: &DijkstraData, Ghost(source): Ghost<u32>, target: u32) -> (route: Option<Route>)
    requires
        target < data.nodes@.len(),
        labels_backed(access, data.nodes@, source),
    ensures
        route_found(access, source, target, *data, route),
        route matches Some(r) ==> r.nodes@ == crate::routing::dijkstra_data::chain_route(
            data.nodes@,
            target,
            choose|k: nat| chain_ends(data.nodes@, target, k),
        ),
{
    proof {
        if data.nodes@[target as int].cost != u32::MAX {
            assert(backed(access, data.nodes@, source, target));
        }
    }
    let route = data.get_route(target);
    proof {
        if data.nodes@[target as int].cost != u32::MAX {
            assert(backed(access, data.nodes@, source, target));
            let k0 = choose|k: nat|
                #[trigger] chain_ends(data.nodes@, target, k) && access.is_walk(crate::routing::dijkstra_data::chain_route(data.nodes@, target, k))
                    && crate::routing::dijkstra_data::chain_route(data.nodes@, target, k)[0] == source;
            let k = choose|k: nat| chain_ends(data.nodes@, target, k);
            lemma_chain_ends_unique(data.nodes@, target, k0, k);
            let r = route->0;
            assert(r.nodes@.last() == crate::routing::dijkstra_data::chain(data.nodes@, target, 0));
        }
    }
    route
}

/// The answer is a shortest route: a route is a walk from `source` to `target` that, taking some
/// edges, costs what the route says, and no walk from `source` to `target` costs less; without a
/// route, every such walk costs at least `u32::MAX`.
pub open spec fn shortest_answer(access: FastEdgeAccess, source: u32, target: u32, route: Option<Route>) -> bool {
    &&& route matches Some(r) ==> exists|ix: Seq<int>|
        #[trigger] indexed_walk(access, r.nodes@, ix) && indexed_cost(access, r.nodes@, ix) == r.cost
    &&& no_cheaper_route(access, source, target, route)
}

/// No walk from `source` to `target` costs less than the route, or than `u32::MAX` without a
/// route.
pub open spec fn no_cheaper_route(access: FastEdgeAccess, source: u32, target: u32, route: Option<Route>) -> bool {
    forall|p: Seq<u32>, ix: Seq<int>|
        #[trigger] indexed_walk(access, p, ix) && p[0] == source && p.last() == target ==> indexed_cost(access, p, ix) >= match route {
            Some(r) => r.cost as int,
            None => u32::MAX as int,
        }
}

/// The route along the predecessors of `target` is a shortest answer where no walk to
/// `target` is cheaper than its label and its predecessor chain is a walk that costs its label.
pub proof fn lemma_target_answer(access: FastEdgeAccess, data: DijkstraData, source: u32, target: u32, route: Option<Route>)
    requires
        target < data.nodes@.len(),
        no_cheaper_walk_to(access, data.nodes@, source, target),
        data.nodes@[target as int].cost != u32::MAX ==> chain_costs(access, data.nodes@, source, target),
        route_found(access, source, target, data, route),
        route matches Some(r) ==> r.nodes@ == crate::routing::dijkstra_data::chain_route(
            data.nodes@,
            target,
            choose|k: nat| chain_ends(data.nodes@, target, k),
        ),
    ensures
        shortest_answer(access, source, target, route),
{
    let nodes = data.nodes@;
    if route is Some {
        let r = route->0;
        let (k0, ix) = choose|k: nat, ix: Seq<int>|
            #[trigger] chain_ends(nodes, target, k) && #[trigger] indexed_walk(access, crate::routing::dijkstra_data::chain_route(nodes, target, k), ix)
                && crate::routing::dijkstra_data::chain_route(nodes, target, k)[0] == source && indexed_cost(
                access,
                crate::routing::dijkstra_data::chain_route(nodes, target, k),
                ix,
            ) == nodes[target as int].cost;
        let k = choose|k: nat| chain_ends(nodes, target, k);
        lemma_chain_ends_unique(nodes, target, k0, k);
        assert(indexed_walk(access, r.nodes@, ix));
    }
    assert forall|p: Seq<u32>, ix: Seq<int>|
        #[trigger] indexed_walk(access, p, ix) && p[0] == source && p.last() == target implies indexed_cost(access, p, ix) >= match route {
            Some(r) => r.cost as int,
            None => u32::MAX as int,
        } by {
        assert(nodes[target as int].cost <= indexed_cost(access, p, ix));
    }
}

/// The route of shortest labels is a shortest answer.
pub proof fn lemma_shortest_answer(access: FastEdgeAccess, data: DijkstraData, source: u32, target: u32, route: Option<Route>)
    requires
        target < data.nodes@.len(),
        short_edges(access, data.nodes@.len()) ==> shortest_labels(access, data.nodes@, source),
        route_found(access, source, target, data, route),
        route matches Some(r) ==> r.nodes@ == crate::routing::dijkstra_data::chain_route(
            data.nodes@,
            target,
            choose|k: nat| chain_ends(data.nodes@, target, k),
        ),
    ensures
        short_edges(access, data.nodes@.len()) ==> shortest_answer(access, source, target, route),
{
    if short_edges(access, data.nodes@.len()) {
        let nodes = data.nodes@;
        if route is Some {
            let r = route->0;
            assert(chain_costs(access, nodes, source, target));
            let (k0, ix) = choose|k: nat, ix: Seq<int>|
                #[trigger] chain_ends(nodes, target, k) && #[trigger] indexed_walk(access, crate::routing::dijkstra_data::chain_route(nodes, target, k), ix)
                    && crate::routing::dijkstra_data::chain_route(nodes, target, k)[0] == source && indexed_cost(
                    access,
                    crate::routing::dijkstra_data::chain_route(nodes, target, k),
                    ix,
                ) == nodes[target as int].cost;
            let k = choose|k: nat| chain_ends(nodes, target, k);
            lemma_chain_ends_unique(nodes, target, k0, k);
            assert(indexed_walk(access, r.nodes@, ix));
        }
        assert forall|p: Seq<u32>, ix: Seq<int>|
            #[trigger] indexed_walk(access, p, ix) && p[0] == source && p.last() == target implies indexed_cost(access, p, ix) >= match route {
                Some(r) => r.cost as int,
                None => u32::MAX as int,
            } by {
            assert(nodes[p.last() as int].cost <= indexed_cost(access, p, ix));
        }
    }
}

impl<'a> Routing for Dijkstra<'a> {
    open spec fn serves(&self, route_request: &RouteRequest) -> bool {
        &&& self.graph().wf()
        &&& route_request.source < self.graph().num_nodes
        &&& route_request.target < self.graph().num_nodes
    }

    /// The route from the source to the target found by a search from the source, with the
    /// data of that search.
    fn get_route(&self, route_request: &RouteRequest) -> (response: RouteResponse)
        ensures
            response.data@.len() == 1,
            full_search(self.graph().forward_edges, self.graph().num_nodes as nat, route_request.source, response.data@[0]),
            route_found(self.graph().forward_edges, route_request.source, route_request.target, response.data@[0], response.route),
            short_edges(self.graph().forward_edges, self.graph().num_nodes as nat) ==> shortest_answer(
                self.graph().forward_edges,
                route_request.source,
                route_request.target,
                response.route,
            ),
    {
        let data = self.get_forward_data(route_request.source);
        let route = backed_route(&self.graph.forward_edges, &data, route_request.source, route_request.target);
        proof {
            lemma_shortest_answer(self.graph.forward_edges, data, route_request.source, route_request.target, route);
        }
        let mut all = Vec::new();
        all.push(data);
        RouteResponse { route, data: all }
    }
}

} // verus!

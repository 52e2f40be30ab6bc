//! A* guided by landmarks: the costs from a reference node bound the cost between two nodes.
use vstd::prelude::*;

use crate::routing::dijkstra_data::DijkstraData;
use crate::routing::fast_graph::Graph;
use crate::routing::shortest::{lemma_labels_triangle, lemma_two_way_reversed, short_edges, shortest_labels, two_way_edges};
use crate::routing::simple_algorithms::ch_bi_dijkstra::{indexed_cost, indexed_walk};
use crate::routing::random::random_below;
use crate::routing::route::{RouteRequest, RouteResponse, Routing};

use super::a_star::{queued_by_estimate, search_to, target_search};
use super::dijkstra::{backed_route, full_search, route_found};
use super::heuristics::landmark::{costs_of, label_costs, rank, ranked};
use super::heuristics::Heuristic;

verus! {

/// The distance between `a` and `b`.
pub open spec fn abs_diff(a: u32, b: u32) -> u32 {
    if a >= b { (a - b) as u32 } else { (b - a) as u32 }
}

/// A reference node with the costs of a search from it to every node.
pub struct Landmark {
    pub node: u32,
    pub costs: Vec<u32>,
}

impl Landmark {
    /// The landmark belongs to `graph`: its node is a node of the graph and its costs are those
    /// of a full search from it over the outgoing edges.
    pub open spec fn of(&self, graph: Graph) -> bool {
        &&& self.node < graph.num_nodes
        &&& self.costs@.len() == graph.num_nodes
        &&& exists|d: DijkstraData|
            #[trigger] full_search(graph.forward_edges, graph.num_nodes as nat, self.node, d) && self.costs@ == label_costs(d.nodes@) && (
            short_edges(graph.forward_edges, graph.num_nodes as nat) ==> shortest_labels(graph.forward_edges, d.nodes@, self.node))
    }

    /// The landmark of `node` in `graph`.
    pub fn new(node: u32, graph: &Graph) -> (landmark: Landmark)
        requires
            graph.wf(),
            node < graph.num_nodes,
        ensures
            landmark.node == node,
            landmark.of(*graph),
    {
        let dijkstra = super::dijkstra::Dijkstra::new(graph);
        let data = dijkstra.get_forward_data(node);
        let costs = costs_of(&data.nodes);
        let landmark = Landmark { node, costs };
        assert(full_search(graph.forward_edges, graph.num_nodes as nat, node, data) && landmark.costs@ == label_costs(data.nodes@) && (
        short_edges(graph.forward_edges, graph.num_nodes as nat) ==> shortest_labels(graph.forward_edges, data.nodes@, node)));
        landmark
    }

    /// The distance between the costs of `source` and of `target`.
    pub fn lower_bound(&self, source: u32, target: u32) -> (bound: u32)
        requires
            source < self.costs@.len(),
            target < self.costs@.len(),
        ensures
            bound == abs_diff(self.costs@[source as int], self.costs@[target as int]),
    {
        let a = self.costs[source as usize];
        let b = self.costs[target as usize];
        if a >= b {
            a - b
        } else {
            b - a
        }
    }

    /// The sum of the costs of `source` and of `target`, `u32::MAX` where it does not fit.
    pub fn upper_bound(&self, source: u32, target: u32) -> (bound: u32)
        requires
            source < self.costs@.len(),
            target < self.costs@.len(),
        ensures
            bound == if self.costs@[source as int] + self.costs@[target as int] > u32::MAX {
                u32::MAX as int
            } else {
                self.costs@[source as int] + self.costs@[target as int]
            },
    {
        match self.costs[source as usize].checked_add(self.costs[target as usize]) {
            Some(sum) => sum,
            None => u32::MAX,
        }
    }

    /// A copy of the landmark.
    fn duplicate(&self) -> (copy: Landmark)
        ensures
            copy.node == self.node,
            copy.costs@ == self.costs@,
    {
        let costs = self.costs.clone();
        assert(costs@ =~= self.costs@);
        Landmark { node: self.node, costs }
    }
}

/// The landmark's estimate is a lower bound where the target lies no nearer to the landmark
/// than the source and every edge costs less than there are buckets: no walk from `source` to
/// `target` costs less than the distance of their costs.
pub proof fn lemma_lower_bound_walks(landmark: Landmark, graph: Graph, source: u32, target: u32, p: Seq<u32>, ix: Seq<int>)
    requires
        landmark.of(graph),
        short_edges(graph.forward_edges, graph.num_nodes as nat),
        indexed_walk(graph.forward_edges, p, ix),
        p[0] == source,
        p.last() == target,
        source < graph.num_nodes,
        target < graph.num_nodes,
        landmark.costs@[source as int] <= landmark.costs@[target as int],
    ensures
        abs_diff(landmark.costs@[source as int], landmark.costs@[target as int]) <= indexed_cost(graph.forward_edges, p, ix),
{
    let d = choose|d: DijkstraData|
        #[trigger] full_search(graph.forward_edges, graph.num_nodes as nat, landmark.node, d) && landmark.costs@ == label_costs(d.nodes@) && (
        short_edges(graph.forward_edges, graph.num_nodes as nat) ==> shortest_labels(graph.forward_edges, d.nodes@, landmark.node));
    lemma_labels_triangle(graph.forward_edges, d.nodes@, d.nodes@, landmark.node, p, ix);
    assert(landmark.costs@[source as int] == d.nodes@[source as int].cost);
    assert(landmark.costs@[target as int] == d.nodes@[target as int].cost);
}

/// The landmark's estimate is a lower bound in a graph whose every edge has an edge back of the
/// same cost, where every edge costs less than there are buckets: no walk from `source` to
/// `target` costs less than the distance of their costs.
pub proof fn lemma_lower_bound_admissible(landmark: Landmark, graph: Graph, source: u32, target: u32, p: Seq<u32>, ix: Seq<int>)
    requires
        graph.wf(),
        landmark.of(graph),
        short_edges(graph.forward_edges, graph.num_nodes as nat),
        two_way_edges(graph.forward_edges, graph.num_nodes as nat),
        indexed_walk(graph.forward_edges, p, ix),
        p[0] == source,
        p.last() == target,
        source < graph.num_nodes,
        target < graph.num_nodes,
    ensures
        abs_diff(landmark.costs@[source as int], landmark.costs@[target as int]) <= indexed_cost(graph.forward_edges, p, ix),
{
    if landmark.costs@[source as int] <= landmark.costs@[target as int] {
        lemma_lower_bound_walks(landmark, graph, source, target, p, ix);
    } else {
        let d = choose|d: DijkstraData|
            #[trigger] full_search(graph.forward_edges, graph.num_nodes as nat, landmark.node, d) && landmark.costs@ == label_costs(d.nodes@) && (
            short_edges(graph.forward_edges, graph.num_nodes as nat) ==> shortest_labels(graph.forward_edges, d.nodes@, landmark.node));
        lemma_two_way_reversed(graph.forward_edges, graph.num_nodes as nat, p, ix);
        let jx = choose|jx: Seq<int>|
            #[trigger] indexed_walk(graph.forward_edges, p.reverse(), jx) && indexed_cost(graph.forward_edges, p.reverse(), jx) == indexed_cost(
                graph.forward_edges,
                p,
                ix,
            );
        assert(p.reverse()[0] == target);
        assert(p.reverse().last() == source);
        lemma_labels_triangle(graph.forward_edges, d.nodes@, d.nodes@, landmark.node, p.reverse(), jx);
        assert(landmark.costs@[source as int] == d.nodes@[source as int].cost);
        assert(landmark.costs@[target as int] == d.nodes@[target as int].cost);
    }
}

/// The largest distance of the costs of `node` and of `target` among `landmarks`, 0 for none.
pub open spec fn max_bound(landmarks: Seq<Landmark>, node: u32, target: u32) -> u32
    decreases landmarks.len(),
{
    if landmarks.len() == 0 {
        0
    } else {
        let m = max_bound(landmarks.drop_last(), node, target);
        let l = abs_diff(landmarks.last().costs@[node as int], landmarks.last().costs@[target as int]);
        if l > m { l } else { m }
    }
}

/// The landmark heuristic is the largest single-landmark bound: no landmark's distance between
/// the costs of `node` and of `target` exceeds it, and it is the distance of one of the
/// landmarks, or 0 where there are none.
pub proof fn lemma_max_bound_is_largest(landmarks: Seq<Landmark>, node: u32, target: u32)
    ensures
        forall|i: int|
            0 <= i < landmarks.len() ==> abs_diff((#[trigger] landmarks[i]).costs@[node as int], landmarks[i].costs@[target as int])
                <= max_bound(landmarks, node, target),
        landmarks.len() == 0 ==> max_bound(landmarks, node, target) == 0,
        landmarks.len() > 0 ==> exists|i: int|
            0 <= i < landmarks.len() && max_bound(landmarks, node, target) == abs_diff(
                (#[trigger] landmarks[i]).costs@[node as int],
                landmarks[i].costs@[target as int],
            ),
    decreases landmarks.len(),
{
    if landmarks.len() > 0 {
        let rest = landmarks.drop_last();
        lemma_max_bound_is_largest(rest, node, target);
        let last = landmarks.len() - 1;
        assert forall|i: int|
            0 <= i < landmarks.len() implies abs_diff((#[trigger] landmarks[i]).costs@[node as int], landmarks[i].costs@[target as int])
                <= max_bound(landmarks, node, target) by {
            if i < last {
                assert(landmarks[i] == rest[i]);
            }
        }
        let l = abs_diff(landmarks[last].costs@[node as int], landmarks[last].costs@[target as int]);
        if l > max_bound(rest, node, target) || rest.len() == 0 {
            assert(max_bound(landmarks, node, target) == l);
        } else {
            let j = choose|j: int|
                0 <= j < rest.len() && max_bound(rest, node, target) == abs_diff((#[trigger] rest[j]).costs@[node as int], rest[j].costs@[target as int]);
            assert(landmarks[j] == rest[j]);
        }
    }
}

/// `picked` are the ten landmarks (fewer where there are fewer) with the largest distance
/// between the request's source and target, ties in their order among `landmarks`.
pub open spec fn picked_for(landmarks: Seq<Landmark>, request: RouteRequest, picked: Seq<Landmark>) -> bool {
    &&& picked.len() == if landmarks.len() < 10 { landmarks.len() as int } else { 10 }
    &&& exists|order: Seq<int>|
        #[trigger] ranked(request_bounds(landmarks, request), order) && forall|j: int|
            0 <= j < picked.len() ==> #[trigger] picked[j].node == landmarks[order[j]].node && picked[j].costs@ == landmarks[order[j]].costs@
}

/// The heuristic of the landmarks picked for one request.
struct Picked {
    landmarks: Vec<Landmark>,
    target: u32,
}

impl Heuristic for Picked {
    closed spec fn covers(&self, node: u32) -> bool {
        forall|i: int| 0 <= i < self.landmarks@.len() ==> node < (#[trigger] self.landmarks@[i]).costs@.len()
            && self.target < self.landmarks@[i].costs@.len()
    }

    closed spec fn value(&self, node: u32) -> u32 {
        max_bound(self.landmarks@, node, self.target)
    }

    /// The largest landmark distance between `node` and the target.
    fn lower_bound(&self, node: u32) -> (bound: u32) {
        let mut best: u32 = 0;
        let mut i: usize = 0;
        while i < self.landmarks.len()
            invariant
                i <= self.landmarks@.len(),
                self.covers(node),
                best == max_bound(self.landmarks@.take(i as int), node, self.target),
            decreases self.landmarks@.len() - i,
        {
            let l = self.landmarks[i].lower_bound(node, self.target);
            assert(self.landmarks@.take(i + 1).drop_last() == self.landmarks@.take(i as int));
            if l > best {
                best = l;
            }
            i += 1;
        }
        assert(self.landmarks@.take(self.landmarks@.len() as int) == self.landmarks@);
        best
    }
}

/// The landmark distances between `request`'s source and target, one per landmark.
pub open spec fn request_bounds(landmarks: Seq<Landmark>, request: RouteRequest) -> Seq<u32> {
    Seq::new(
        landmarks.len(),
        |i: int| abs_diff(landmarks[i].costs@[request.source as int], landmarks[i].costs@[request.target as int]),
    )
}

/// A* over the forward edges of a graph, guided by the ten landmarks with the largest distance
/// between source and target among 100 landmarks at random nodes.
pub struct Dijkstra<'a> {
    graph: &'a Graph,
    landmarks: Vec<Landmark>,
}

impl<'a> Dijkstra<'a> {
    /// The graph searched.
    pub closed spec fn graph(&self) -> &'a Graph {
        self.graph
    }

    /// The landmarks.
    pub closed spec fn landmarks(&self) -> Seq<Landmark> {
        self.landmarks@
    }

    /// The search over `graph` with 100 landmarks at random nodes.
    pub fn new(graph: &'a Graph) -> (dijkstra: Dijkstra<'a>)
        requires
            graph.wf(),
            graph.num_nodes > 0,
        ensures
            dijkstra.graph() == graph,
            dijkstra.landmarks().len() == 100,
            forall|i: int| 0 <= i < 100 ==> #[trigger] dijkstra.landmarks()[i].of(*graph),
    {
        let mut landmarks: Vec<Landmark> = Vec::new();
        let mut i: u32 = 0;
        while i < 100
            invariant
                graph.wf(),
                graph.num_nodes > 0,
                i <= 100,
                landmarks@.len() == i,
                forall|j: int| 0 <= j < i ==> #[trigger] landmarks@[j].of(*graph),
            decreases 100 - i,
        {
            let node = random_below(graph.num_nodes);
            landmarks.push(Landmark::new(node, graph));
            i += 1;
        }
        Dijkstra { graph, landmarks }
    }

    /// The ten landmarks (fewer where there are fewer) with the largest distance between the
    /// request's source and target, ties in their order among all landmarks.
    fn pick(&self, request: &RouteRequest) -> (picked: Vec<Landmark>)
        requires
            forall|i: int| 0 <= i < self.landmarks@.len() ==> request.source < (#[trigger] self.landmarks@[i]).costs@.len()
                && request.target < self.landmarks@[i].costs@.len(),
        ensures
            picked@.len() == if self.landmarks@.len() < 10 { self.landmarks@.len() as int } else { 10 },
            exists|order: Seq<int>|
                #[trigger] ranked(request_bounds(self.landmarks@, *request), order) && forall|j: int|
                    0 <= j < picked@.len() ==> #[trigger] picked@[j].node == self.landmarks@[order[j]].node && picked@[j].costs@
                        == self.landmarks@[order[j]].costs@,
    {
        let mut bounds: Vec<u32> = Vec::new();
        let mut i: usize = 0;
        while i < self.landmarks.len()
            invariant
                i <= self.landmarks@.len(),
                bounds@.len() == i,
                forall|j: int| 0 <= j < self.landmarks@.len() ==> request.source < (#[trigger] self.landmarks@[j]).costs@.len()
                    && request.target < self.landmarks@[j].costs@.len(),
                forall|j: int| 0 <= j < i ==> #[trigger] bounds@[j] == request_bounds(self.landmarks@, *request)[j],
            decreases self.landmarks@.len() - i,
        {
            bounds.push(self.landmarks[i].lower_bound(request.source, request.target));
            i += 1;
        }
        assert(bounds@ =~= request_bounds(self.landmarks@, *request));
        let order = rank(&bounds);
        let ghost ord = order@.map_values(|i: usize| i as int);
        let mut picked: Vec<Landmark> = Vec::new();
        let mut j: usize = 0;
        while j < order.len() && j < 10
            invariant
                j <= order@.len(),
                j <= 10,
                order@.len() == self.landmarks@.len(),
                ord == order@.map_values(|i: usize| i as int),
                ranked(bounds@, ord),
                picked@.len() == j,
                forall|a: int| 0 <= a < j ==> #[trigger] picked@[a].node == self.landmarks@[ord[a]].node && picked@[a].costs@
                    == self.landmarks@[ord[a]].costs@,
            decreases order@.len() - j,
        {
            assert(ord[j as int] == order@[j as int] as int);
            picked.push(self.landmarks[order[j]].duplicate());
            j += 1;
        }
        assert(ranked(request_bounds(self.landmarks@, *request), ord));
        picked
    }

    /// Searches from the request's source until its target is expanded, guided by the picked
    /// landmarks, and answers with the route found and the data of the search.
    fn dijkstra(&self, request: &RouteRequest) -> (response: RouteResponse)
        requires
            self.graph.wf(),
            request.source < self.graph.num_nodes,
            request.target < self.graph.num_nodes,
            forall|i: int| 0 <= i < self.landmarks@.len() ==> #[trigger] self.landmarks@[i].of(*self.graph),
        ensures
            response.data@.len() == 1,
            target_search(self.graph.forward_edges, self.graph.num_nodes as nat, request.source, request.target, response.data@[0]),
            route_found(self.graph.forward_edges, request.source, request.target, response.data@[0], response.route),
            exists|picked: Seq<Landmark>|
                #[trigger] picked_for(self.landmarks@, *request, picked) && queued_by_estimate(
                    response.data@[0].nodes@,
                    response.data@[0].queue@.1,
                    request.source,
                    |v: u32| max_bound(picked, v, request.target),
                ),
    {
        assert forall|i: int| 0 <= i < self.landmarks@.len() implies request.source < (#[trigger] self.landmarks@[i]).costs@.len()
            && request.target < self.landmarks@[i].costs@.len() by {
            assert(self.landmarks@[i].of(*self.graph));
        }
        let picked = self.pick(request);
        let ghost pl = picked@;
        let ghost order = choose|order: Seq<int>|
            #[trigger] ranked(request_bounds(self.landmarks@, *request), order) && forall|j: int|
                0 <= j < pl.len() ==> #[trigger] pl[j].node == self.landmarks@[order[j]].node && pl[j].costs@
                    == self.landmarks@[order[j]].costs@;
        let heuristic = Picked { landmarks: picked, target: request.target };
        assert forall|v: u32| v < self.graph.num_nodes && self.graph.forward_edges.reaches(request.source, v) implies #[trigger] heuristic.covers(v) by {
            assert forall|j: int| 0 <= j < heuristic.landmarks@.len() implies v < (#[trigger] heuristic.landmarks@[j]).costs@.len()
                && heuristic.target < heuristic.landmarks@[j].costs@.len() by {
                let k = order[j];
                assert(pl[j].node == self.landmarks@[k].node);
                assert(pl[j].costs@ == self.landmarks@[k].costs@);
                assert(0 <= k < self.landmarks@.len());
                assert(self.landmarks@[k].of(*self.graph));
            }
        }
        let data = search_to(&self.graph.forward_edges, self.graph.num_nodes, request.source, request.target, &heuristic);
        proof {
            assert((|v: u32| heuristic.value(v)) =~= (|v: u32| max_bound(pl, v, request.target)));
            assert(picked_for(self.landmarks@, *request, pl));
        }
        let route = backed_route(&self.graph.forward_edges, &data, request.source, request.target);
        let mut all = Vec::new();
        all.push(data);
        RouteResponse { route, data: all }
    }
}

impl<'a> Routing for Dijkstra<'a> {
    open spec fn serves(&self, route_request: &RouteRequest) -> bool {
        &&& self.graph().wf()
        &&& route_request.source < self.graph().num_nodes
        &&& route_request.target < self.graph().num_nodes
        &&& forall|i: int| 0 <= i < self.landmarks().len() ==> #[trigger] self.landmarks()[i].of(*self.graph())
    }

    /// The route of a search from the source that stops at the target, guided by the picked
    /// landmarks, with the data of that search.
    fn get_route(&self, route_request: &RouteRequest) -> (response: RouteResponse)
        ensures
            response.data@.len() == 1,
            target_search(self.graph().forward_edges, self.graph().num_nodes as nat, route_request.source, route_request.target, response.data@[0]),
            route_found(self.graph().forward_edges, route_request.source, route_request.target, response.data@[0], response.route),
            exists|picked: Seq<Landmark>|
                #[trigger] picked_for(self.landmarks(), *route_request, picked) && queued_by_estimate(
                    response.data@[0].nodes@,
                    response.data@[0].queue@.1,
                    route_request.source,
                    |v: u32| max_bound(picked, v, route_request.target),
                ),
    {
        assert forall|i: int| 0 <= i < self.landmarks@.len() implies #[trigger] self.landmarks@[i].of(*self.graph) by {
            assert(self.landmarks()[i] == self.landmarks@[i]);
        }
        let response = self.dijkstra(route_request);
        proof {
            assert(self.landmarks() == self.landmarks@);
        }
        response
    }
}

} // verus!

use vstd::prelude::*;

use crate::routing::fast_graph::Graph;
use crate::routing::route::{RouteRequest, RouteResponse, Routing};

use super::a_star::{queued_by_estimate, target_search, AStar};
use super::dijkstra::route_found;
use super::heuristics::landmark::{max_lower, LandmarkCollection};
use super::heuristics::Heuristic;

verus! {

/// A* with a landmark heuristic, tuned to each request.
pub struct AStarWithLandmarks<'a> {
    a_star: AStar<'a>,
    heuristic: LandmarkCollection,
}

impl<'a> AStarWithLandmarks<'a> {
    /// The graph searched.
    pub closed spec fn graph(&self) -> &'a Graph {
        self.a_star.graph
    }

    /// The landmarks the search is tuned from.
    pub closed spec fn collection(&self) -> LandmarkCollection {
        self.heuristic
    }

    /// All landmarks belong to the graph.
    pub closed spec fn wf(&self) -> bool {
        forall|i: int| 0 <= i < self.heuristic.landmarks().len() ==> #[trigger] self.heuristic.landmarks()[i].of(*self.a_star.graph)
    }

    /// A* over `graph` with 500 landmarks at random nodes.
    pub fn new(graph: &'a Graph) -> (search: AStarWithLandmarks<'a>)
        requires
            graph.wf(),
            graph.num_nodes > 0,
        ensures
            search.graph() == graph,
            search.wf(),
    {
        let a_star = AStar::new(graph);
        let heuristic = LandmarkCollection::new(graph, 500);
        AStarWithLandmarks { a_star, heuristic }
    }
}

impl<'a> Routing for AStarWithLandmarks<'a> {
    open spec fn serves(&self, route_request: &RouteRequest) -> bool {
        &&& self.graph().wf()
        &&& self.wf()
        &&& route_request.source < self.graph().num_nodes
        &&& route_request.target < self.graph().num_nodes
    }

    /// The route of a search from the source that stops at the target, guided by the three
    /// landmarks with the largest estimates for the request.
    fn get_route(&self, request: &RouteRequest) -> (response: RouteResponse)
        ensures
            response.data@.len() == 1,
            target_search(self.graph().forward_edges, self.graph().num_nodes as nat, request.source, request.target, response.data@[0]),
            route_found(self.graph().forward_edges, request.source, request.target, response.data@[0], response.route),
            exists|tuned: LandmarkCollection|
                #[trigger] self.collection().tuning(*request, 3, tuned) && queued_by_estimate(
                    response.data@[0].nodes@,
                    response.data@[0].queue@.1,
                    request.source,
                    |v: u32| max_lower(tuned.landmarks(), v, request.target),
                ),
    {
        proof {
            assert forall|i: int| 0 <= i < self.heuristic.landmarks().len() implies request.source < (#[trigger] self.heuristic.landmarks()[i]).costs_from@.len()
                && request.target < self.heuristic.landmarks()[i].costs_to@.len() by {
                assert(self.heuristic.landmarks()[i].of(*self.a_star.graph));
            }
        }
        let heuristic = self.heuristic.tune(request, 3);
        proof {
            lemma_tuned_covers(self.heuristic, heuristic, *request, *self.a_star.graph);
        }
        let response = self.a_star.get_data(request, &heuristic);
        proof {
            assert forall|v: u32| #[trigger] heuristic.value(v) == max_lower(heuristic.landmarks(), v, request.target) by {
                heuristic.lemma_value(v);
            }
            assert((|v: u32| heuristic.value(v)) =~= (|v: u32| max_lower(heuristic.landmarks(), v, request.target)));
            assert(self.collection() == self.heuristic);
            assert(self.heuristic.tuning(*request, 3, heuristic));
        }
        response
    }
}

/// A collection tuned from landmarks of a graph covers every node of the graph.
proof fn lemma_tuned_covers(collection: LandmarkCollection, tuned: LandmarkCollection, request: RouteRequest, graph: Graph)
    requires
        request.target < graph.num_nodes,
        forall|i: int| 0 <= i < collection.landmarks().len() ==> #[trigger] collection.landmarks()[i].of(graph),
        tuned.target_node() == request.target,
        tuned.landmarks().len() <= collection.landmarks().len(),
        exists|order: Seq<int>|
            #[trigger] super::heuristics::landmark::ranked(super::heuristics::landmark::landmark_bounds(collection.landmarks(), request), order)
                && forall|j: int| 0 <= j < tuned.landmarks().len() ==> #[trigger] tuned.landmarks()[j].same_as(collection.landmarks()[order[j]]),
    ensures
        forall|v: u32| v < graph.num_nodes ==> #[trigger] tuned.covers(v),
{
    let order = choose|order: Seq<int>|
        #[trigger] super::heuristics::landmark::ranked(super::heuristics::landmark::landmark_bounds(collection.landmarks(), request), order)
            && forall|j: int| 0 <= j < tuned.landmarks().len() ==> #[trigger] tuned.landmarks()[j].same_as(collection.landmarks()[order[j]]);
    let bounds = super::heuristics::landmark::landmark_bounds(collection.landmarks(), request);
    assert forall|j: int| 0 <= j < tuned.landmarks().len() implies 0 <= #[trigger] order[j] < collection.landmarks().len() by {
        assert(0 <= order[j] < bounds.len());
    }
    assert forall|i: int| 0 <= i < collection.landmarks().len() implies (#[trigger] collection.landmarks()[i]).costs_to@.len() == graph.num_nodes
        && collection.landmarks()[i].costs_from@.len() == graph.num_nodes by {
        assert(collection.landmarks()[i].of(graph));
    }
    assert forall|v: u32| v < graph.num_nodes implies #[trigger] tuned.covers(v) by {
        LandmarkCollection::lemma_covers(tuned, v, graph.num_nodes as nat, order, collection);
    }
}

} // verus!

use vstd::prelude::*;

use crate::routing::fast_graph::FastGraph;
use crate::routing::route::{RouteRequest, RouteResponse, Routing};

use super::bi_a_star::{heuristics_fit, joined_route, BiAStar};
use super::dijkstra::full_search;
use super::heuristics::landmark::LandmarkCollection;

verus! {

/// Bidirectional A* with landmark heuristics, tuned to each request.
pub struct BiAStarWithLandmarks<'a> {
    bi_a_star: BiAStar<'a>,
    forward_heuristic: LandmarkCollection,
    backward_heuristic: LandmarkCollection,
}

impl<'a> BiAStarWithLandmarks<'a> {
    /// The graph searched.
    pub closed spec fn graph(&self) -> &'a FastGraph {
        self.bi_a_star.graph
    }

    /// The landmarks of the forward search.
    pub closed spec fn forward_landmarks(&self) -> LandmarkCollection {
        self.forward_heuristic
    }

    /// The landmarks of the backward search.
    pub closed spec fn backward_landmarks(&self) -> LandmarkCollection {
        self.backward_heuristic
    }

    /// Bidirectional A* over `graph` with 100 landmarks at random nodes for each direction.
    pub fn new(graph: &'a FastGraph) -> (search: BiAStarWithLandmarks<'a>)
        requires
            graph.wf(),
            graph.num_nodes > 0,
        ensures
            search.graph() == graph,
            search.forward_landmarks().landmarks().len() == 100,
            search.backward_landmarks().landmarks().len() == 100,
            forall|i: int| 0 <= i < 100 ==> #[trigger] search.forward_landmarks().landmarks()[i].of(*graph),
            forall|i: int| 0 <= i < 100 ==> #[trigger] search.backward_landmarks().landmarks()[i].of(*graph),
    {
        let bi_a_star = BiAStar::new(graph);
        BiAStarWithLandmarks {
            bi_a_star,
            forward_heuristic: LandmarkCollection::new(graph, 100),
            backward_heuristic: LandmarkCollection::new(graph, 100),
        }
    }
}

impl<'a> Routing for BiAStarWithLandmarks<'a> {
    /// The graph is well formed, both nodes belong to it, every landmark has costs for both
    /// nodes, and the forward landmarks tuned to the request and the backward ones tuned to the
    /// reversed request suit a bidirectional search.
    open spec fn serves(&self, route_request: &RouteRequest) -> bool {
        &&& self.graph().wf()
        &&& route_request.source < self.graph().num_nodes
        &&& route_request.target < self.graph().num_nodes
        &&& forall|i: int|
            0 <= i < self.forward_landmarks().landmarks().len() ==> route_request.source < (
            #[trigger] self.forward_landmarks().landmarks()[i]).costs_from@.len() && route_request.target
                < self.forward_landmarks().landmarks()[i].costs_to@.len()
        &&& forall|i: int|
            0 <= i < self.backward_landmarks().landmarks().len() ==> route_request.target < (
            #[trigger] self.backward_landmarks().landmarks()[i]).costs_from@.len() && route_request.source
                < self.backward_landmarks().landmarks()[i].costs_to@.len()
        &&& forall|f: LandmarkCollection, b: LandmarkCollection|
            #[trigger] self.forward_landmarks().tuning(*route_request, 3, f) && #[trigger] self.backward_landmarks().tuning(
                (RouteRequest { source: route_request.target, target: route_request.source }),
                3,
                b,
            ) ==> heuristics_fit(*self.graph(), route_request.source, route_request.target, f, b)
    }

    /// The route where a full forward search from the source and a full backward search from
    /// the target meet best, with the data of both searches.
    fn get_route(&self, request: &RouteRequest) -> (response: RouteResponse)
        ensures
            response.data@.len() == 2,
            full_search(self.graph().forward_edges, self.graph().num_nodes as nat, request.source, response.data@[0]),
            full_search(self.graph().backward_edges, self.graph().num_nodes as nat, request.target, response.data@[1]),
            joined_route(
                self.graph().forward_edges,
                self.graph().backward_edges,
                request.source,
                request.target,
                response.data@[0].nodes@,
                response.data@[1].nodes@,
                response.route,
            ),
    {
        let forward = self.forward_heuristic.tune(request, 3);
        let reversed = request.reversed();
        assert forall|i: int| 0 <= i < self.backward_heuristic.landmarks().len() implies reversed.source < (
        #[trigger] self.backward_heuristic.landmarks()[i]).costs_from@.len() && reversed.target
            < self.backward_heuristic.landmarks()[i].costs_to@.len() by {
            assert(self.backward_landmarks().landmarks()[i] == self.backward_heuristic.landmarks()[i]);
        }
        let backward = self.backward_heuristic.tune(&reversed, 3);
        assert(self.forward_landmarks().tuning(*request, 3, forward));
        assert(self.backward_landmarks().tuning(reversed, 3, backward));
        self.bi_a_star.get_data(request, forward, backward)
    }
}

} // verus!

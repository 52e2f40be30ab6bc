use vstd::prelude::*;

use crate::routing::fast_graph::Graph;
use crate::routing::route::{RouteRequest, RouteResponse, Routing};

use super::bi_a_star::{heuristics_fit, joined_route, meeting_realized, BiAStar};
use super::dijkstra::{full_search, no_cheaper_route};
use crate::routing::shortest::short_edges;
use super::heuristics::zero::Zero;

verus! {

/// Bidirectional A* with the zero heuristic in both directions.
pub struct BiAStarWithZero<'a> {
    bi_a_star: BiAStar<'a>,
}

impl<'a> BiAStarWithZero<'a> {
    /// The graph searched.
    pub closed spec fn graph(&self) -> &'a Graph {
        self.bi_a_star.graph
    }

    pub fn new(graph: &'a Graph) -> (search: BiAStarWithZero<'a>)
        ensures
            search.graph() == graph,
    {
        let bi_a_star = BiAStar::new(graph);
        BiAStarWithZero { bi_a_star }
    }
}

impl<'a> Routing for BiAStarWithZero<'a> {
    open spec fn serves(&self, route_request: &RouteRequest) -> bool {
        &&& self.graph().wf()
        &&& route_request.source < self.graph().num_nodes
        &&& route_request.target < self.graph().num_nodes
    }

    /// The route where a full forward search from the source and a full backward search from
    /// the target meet best, with the data of both searches; no walk from the source to the
    /// target is cheaper where every edge costs less than there are buckets, and, where the
    /// incoming edges are short too, a route below `u32::MAX` is met at its node.
    fn get_route(&self, request: &RouteRequest) -> (response: RouteResponse)
        ensures
            response.data@.len() == 2,
            full_search(self.graph().forward_edges, self.graph().num_nodes as nat, request.source, response.data@[0]),
            full_search(self.graph().backward_edges, self.graph().num_nodes as nat, request.target, response.data@[1]),
            joined_route(
                self.graph().forward_edges,
                self.graph().backward_edges,
                request.source,
                request.target,
                response.data@[0].nodes@,
                response.data@[1].nodes@,
                response.route,
            ),
            short_edges(self.graph().forward_edges, self.graph().num_nodes as nat) ==> no_cheaper_route(
                self.graph().forward_edges,
                request.source,
                request.target,
                response.route,
            ),
            short_edges(self.graph().forward_edges, self.graph().num_nodes as nat) && short_edges(
                self.graph().backward_edges,
                self.graph().num_nodes as nat,
            ) ==> meeting_realized(self.graph().forward_edges, self.graph().backward_edges, request.source, request.target, response.route),
    {
        let forward = Zero {};
        let backward = Zero {};
        assert(heuristics_fit(*self.bi_a_star.graph, request.source, request.target, forward, backward));
        self.bi_a_star.get_data(request, forward, backward)
    }
}

} // verus!

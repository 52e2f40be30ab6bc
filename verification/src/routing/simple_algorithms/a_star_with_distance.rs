use vstd::prelude::*;

use crate::routing::fast_graph::Graph;
use crate::routing::route::{RouteRequest, RouteResponse, Routing};

use super::a_star::{target_search, AStar};
use super::dijkstra::{route_found, shortest_answer};
use crate::routing::shortest::short_edges;
use super::heuristics::distance::Distance;

verus! {

/// A* with the distance heuristic.
pub struct ASTarWithDistance<'a> {
    a_star: AStar<'a>,
}

impl<'a> ASTarWithDistance<'a> {
    /// The graph searched.
    pub closed spec fn graph(&self) -> &'a Graph {
        self.a_star.graph
    }

    pub fn new(graph: &'a Graph) -> (search: ASTarWithDistance<'a>)
        ensures
            search.graph() == graph,
    {
        let a_star = AStar::new(graph);
        ASTarWithDistance { a_star }
    }
}

impl<'a> Routing for ASTarWithDistance<'a> {
    open spec fn serves(&self, route_request: &RouteRequest) -> bool {
        &&& self.graph().wf()
        &&& route_request.source < self.graph().num_nodes
        &&& route_request.target < self.graph().num_nodes
    }

    /// The route of a search from the source that stops at the target: a shortest route where
    /// there is one and every edge costs less than there are buckets.
    fn get_route(&self, request: &RouteRequest) -> (response: RouteResponse)
        ensures
            response.data@.len() == 1,
            target_search(self.graph().forward_edges, self.graph().num_nodes as nat, request.source, request.target, response.data@[0]),
            route_found(self.graph().forward_edges, request.source, request.target, response.data@[0], response.route),
            short_edges(self.graph().forward_edges, self.graph().num_nodes as nat) ==> shortest_answer(
                self.graph().forward_edges,
                request.source,
                request.target,
                response.route,
            ),
    {
        let heuristic = Distance::new(self.a_star.graph, request.target);
        self.a_star.get_data(request, &heuristic)
    }
}

} // verus!

use vstd::prelude::*;

use crate::routing::fast_graph::Graph;
use crate::routing::route::{RouteRequest, RouteResponse, Routing};

use super::bi_a_star::{joined_route, meeting_realized, mirrored};
use super::bidirectional_a_star::{early_meeting, ran_out, BiAStar};
use super::dijkstra::{full_search, no_cheaper_route};
use crate::routing::graph::Edge;
use crate::routing::search::count_expanded;
use crate::routing::shortest::short_edges;
use super::heuristics::zero::Zero;

verus! {

/// Bidirectional Dijkstra: bidirectional A* that stops early, with the zero heuristic.
pub struct BiDijkstra<'a> {
    bi_a_star: BiAStar<'a>,
}

impl<'a> BiDijkstra<'a> {
    /// The graph searched.
    pub closed spec fn graph(&self) -> &'a Graph {
        self.bi_a_star.graph
    }

    pub fn new(graph: &'a Graph) -> (search: BiDijkstra<'a>)
        ensures
            search.graph() == graph,
    {
        let bi_a_star = BiAStar::new(graph);
        BiDijkstra { bi_a_star }
    }
}

impl<'a> Routing for BiDijkstra<'a> {
    open spec fn serves(&self, route_request: &RouteRequest) -> bool {
        &&& self.graph().wf()
        &&& route_request.source < self.graph().num_nodes
        &&& route_request.target < self.graph().num_nodes
    }

    /// The route of a bidirectional search with the zero heuristic, with the data of the
    /// forward and of the backward search. Where the backward edges mirror the forward ones and
    /// every edge costs less than there are buckets, no walk from the source to the target is
    /// cheaper than the route, unless one search ran out of nodes first and there is no route;
    /// with short edges, a route below `u32::MAX` is met at its node.
    fn get_route(&self, request: &RouteRequest) -> (response: RouteResponse)
        ensures
            response.data@.len() == 2,
            early_meeting(*self.graph(), request.source, request.target, response.data@[0], response.data@[1], response.route),
            response.route is None ==> ran_out(*self.graph(), request.source, request.target, response.data@[0], response.data@[1])
                || joined_route(
                self.graph().forward_edges,
                self.graph().backward_edges,
                request.source,
                request.target,
                response.data@[0].nodes@,
                response.data@[1].nodes@,
                response.route,
            ),
            count_expanded(response.data@[1].nodes@) <= count_expanded(response.data@[0].nodes@) <= count_expanded(response.data@[1].nodes@)
                + 1,
            forall|edges: Seq<Edge>|
                #[trigger] mirrored(*self.graph(), edges) && short_edges(self.graph().forward_edges, self.graph().num_nodes as nat)
                    && short_edges(self.graph().backward_edges, self.graph().num_nodes as nat) ==> no_cheaper_route(
                    self.graph().forward_edges,
                    request.source,
                    request.target,
                    response.route,
                ) || (response.route is None && (full_search(
                    self.graph().forward_edges,
                    self.graph().num_nodes as nat,
                    request.source,
                    response.data@[0],
                ) || full_search(self.graph().backward_edges, self.graph().num_nodes as nat, request.target, response.data@[1]))),
            short_edges(self.graph().forward_edges, self.graph().num_nodes as nat) && short_edges(
                self.graph().backward_edges,
                self.graph().num_nodes as nat,
            ) ==> meeting_realized(self.graph().forward_edges, self.graph().backward_edges, request.source, request.target, response.route),
    {
        let (route, data) = self.bi_a_star.get_data(request, Zero {}, Zero {});
        RouteResponse { route, data }
    }
}

} // verus!

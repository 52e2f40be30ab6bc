use vstd::prelude::*;

use crate::routing::fast_graph::Graph;
use crate::routing::route::{RouteRequest, RouteResponse, Routing};

use crate::routing::simple_algorithms::dijkstra::shortest_answer;

use super::order::lemma_costs_within_max;
use super::{dial, largest_cost, max_cost, search_route};

verus! {

/// Dijkstra over the outgoing edges with a cyclic bucket queue, without expansion flags: a node
/// popped again has its edges relaxed again.
pub struct Dijkstra<'a> {
    graph: &'a Graph,
    max_edge_cost: u32,
}

impl<'a> Dijkstra<'a> {
    /// The graph searched.
    pub closed spec fn graph(&self) -> &'a Graph {
        self.graph
    }

    /// The largest edge cost, which sizes the queue.
    pub closed spec fn max_edge_cost(&self) -> u32 {
        self.max_edge_cost
    }

    pub fn new(graph: &'a Graph) -> (dijkstra: Dijkstra<'a>)
        ensures
            dijkstra.graph() == graph,
            dijkstra.max_edge_cost() == max_cost(graph.forward_edges.edges@),
    {
        let max_edge_cost = largest_cost(&graph.forward_edges.edges);
        Dijkstra { graph, max_edge_cost }
    }

    /// Searches from the request's source until its target is popped.
    fn dijkstra(&self, route_request: &RouteRequest) -> (response: RouteResponse)
        requires
            self.graph.wf(),
            route_request.source < self.graph.num_nodes,
            route_request.target < self.graph.num_nodes,
            self.max_edge_cost < u32::MAX,
            self.max_edge_cost == max_cost(self.graph.forward_edges.edges@),
        ensures
            response.data@.len() == 0,
            search_route(self.graph.forward_edges, self.graph.num_nodes as nat, route_request.source, route_request.target, response.route),
            shortest_answer(self.graph.forward_edges, route_request.source, route_request.target, response.route),
    {
        proof {
            lemma_costs_within_max(self.graph.forward_edges, self.graph.num_nodes as nat);
        }
        let route = dial(
            &self.graph.forward_edges,
            self.graph.num_nodes,
            self.max_edge_cost,
            route_request.source,
            route_request.target,
            false,
        );
        RouteResponse { route, data: Vec::new() }
    }
}

impl<'a> Routing for Dijkstra<'a> {
    open spec fn serves(&self, route_request: &RouteRequest) -> bool {
        &&& self.graph().wf()
        &&& route_request.source < self.graph().num_nodes
        &&& route_request.target < self.graph().num_nodes
        &&& self.max_edge_cost() < u32::MAX
        &&& self.max_edge_cost() == max_cost(self.graph().forward_edges.edges@)
    }

    /// The route of a search from the source that stops once the target is popped: a shortest
    /// route where there is one; no search data.
    fn get_route(&self, route_request: &RouteRequest) -> (response: RouteResponse)
        ensures
            response.data@.len() == 0,
            search_route(self.graph().forward_edges, self.graph().num_nodes as nat, route_request.source, route_request.target, response.route),
            shortest_answer(self.graph().forward_edges, route_request.source, route_request.target, response.route),
    {
        self.dijkstra(route_request)
    }
}

} // verus!

use vstd::prelude::*;

use std::collections::HashMap;

use crate::routing::graph::Graph;

use super::bounded_search::{bounded_search, witnesses};

verus! {

/// Witness searches over a graph.
pub struct DijkstraHelper<'a> {
    graph: &'a Graph,
}

impl<'a> DijkstraHelper<'a> {
    /// The graph searched.
    pub closed spec fn graph(&self) -> &'a Graph {
        self.graph
    }

    pub fn new(graph: &'a Graph) -> (helper: Self)
        ensures
            helper.graph() == graph,
    {
        Self { graph }
    }

    /// Performs a forward search from `source`.
    ///
    /// The search will not scan nodes
    /// * with id == `without`
    /// * with cost > `max_cost`
    /// * with hops > `max_hops`
    pub fn witness_search(&self, source: u32, without: u32, max_cost: u32, max_hops: u32) -> (costs: HashMap<u32, u32>)
        requires
            self.graph().wf(),
            self.graph().is_node(source as int),
        ensures
            witnesses(*self.graph(), source, without, max_cost, true, max_hops, costs@),
    {
        bounded_search(self.graph, source, without, max_cost, true, max_hops)
    }

    /// The costs from `source` that a search finds which never enters `without` and keeps
    /// within `max_cost`, with no limit on the number of edges.
    pub(crate) fn single_source_cost_without(&self, source: u32, without: u32, max_cost: u32) -> (costs: HashMap<u32, u32>)
        requires
            self.graph().wf(),
            self.graph().is_node(source as int),
        ensures
            witnesses(*self.graph(), source, without, max_cost, false, 0, costs@),
    {
        bounded_search(self.graph, source, without, max_cost, false, 0)
    }
}

} // verus!

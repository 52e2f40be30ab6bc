use vstd::prelude::*;

use std::collections::HashMap;

use crate::routing::graph::Graph;

use super::bounded_search::{bounded_search, witnesses};

verus! {

/// Cost searches for contraction.
pub struct ChHelper<'a> {
    pub graph: &'a Graph,
}

impl<'a> ChHelper<'a> {
    pub fn new(graph: &'a Graph) -> (helper: ChHelper<'a>)
        ensures
            helper.graph == graph,
    {
        ChHelper { graph }
    }

    /// The costs from `node` that a search finds which never enters `without` and keeps within
    /// `max_cost`, with no limit on the number of edges.
    pub fn costs_without(&self, node: u32, max_cost: u32, without: u32) -> (costs: HashMap<u32, u32>)
        requires
            self.graph.wf(),
            self.graph.is_node(node as int),
        ensures
            witnesses(*self.graph, node, without, max_cost, false, 0, costs@),
    {
        bounded_search(self.graph, node, without, max_cost, false, 0)
    }
}

} // verus!

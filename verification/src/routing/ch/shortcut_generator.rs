use vstd::prelude::*;


use crate::routing::graph::{Edge, Graph};

use super::bounded_search::witnesses;
use super::contraction_helper::{
    all_needed_pairs, largest_edge_cost, lemma_max_edge_cost, lists_shortcuts, max_edge_cost, needed_pairs, push_needed,
    shortcut_of,
};
use super::dijkstra_helper::DijkstraHelper;

verus! {

/// Generates shortcuts with searches that have no limit on the number of edges.
pub struct ShortcutGenerator<'a> {
    graph: &'a Graph,
}

impl<'a> ShortcutGenerator<'a> {
    /// The graph worked on.
    pub closed spec fn graph(&self) -> &'a Graph {
        self.graph
    }

    pub fn new(graph: &'a Graph) -> (generator: Self)
        ensures
            generator.graph() == graph,
    {
        Self { graph }
    }

    /// The shortcuts for contracting `v`: for each edge `u -> v`, in the order of the backward
    /// list of `v`, a search from `u` that avoids `v` and looks no further than the cost of
    /// `u -> v` plus the largest cost leaving `v` gives witness costs; then for each edge
    /// `v -> w`, in the order of the forward list of `v`, the shortcut `u -> w` is generated if
    /// the two edges cost less together than the witness cost of `w`. Each shortcut comes with
    /// the two edges it replaces.
    pub fn naive_shortcuts(&self, v: u32) -> (shortcuts: Vec<(Edge, Vec<Edge>)>)
        requires
            self.graph().wf(),
            self.graph().is_node(v as int),
            forall|i: int| 0 <= i < self.graph().bwd()[v as int].len() ==> (#[trigger] self.graph().bwd()[v as int][i]).cost
                + max_edge_cost(self.graph().fwd()[v as int]) <= u32::MAX,
        ensures
            exists|witness_costs: Seq<Map<u32, u32>>|
                {
                    &&& witness_costs.len() == self.graph().bwd()[v as int].len()
                    &&& forall|a: int| 0 <= a < witness_costs.len() ==> #[trigger] witnesses(
                        *self.graph(),
                        self.graph().bwd()[v as int][a].source,
                        v,
                        (self.graph().bwd()[v as int][a].cost + max_edge_cost(self.graph().fwd()[v as int])) as u32,
                        false,
                        0,
                        witness_costs[a],
                    )
                    &&& lists_shortcuts(
                        shortcuts@,
                        all_needed_pairs(self.graph().bwd()[v as int], self.graph().fwd()[v as int], witness_costs),
                    )
                },
    {
        let dijkstra_helper = DijkstraHelper::new(self.graph);
        let uv_edges = &self.graph.backward_edges[v as usize];
        let vw_edges = &self.graph.forward_edges[v as usize];
        let max_vw_cost = largest_edge_cost(vw_edges);
        proof {
            lemma_max_edge_cost(vw_edges@);
        }
        assert(uv_edges@ == self.graph.bwd()[v as int]);
        assert(vw_edges@ == self.graph.fwd()[v as int]);
        assert forall|i: int| 0 <= i < uv_edges@.len() implies (#[trigger] uv_edges@[i]).cost + max_vw_cost <= u32::MAX by {
            assert(uv_edges@[i] == self.graph.bwd()[v as int][i]);
        }
        let mut shortcuts: Vec<(Edge, Vec<Edge>)> = Vec::new();
        let ghost mut ws: Seq<Map<u32, u32>> = Seq::empty();
        let mut a: usize = 0;
        while a < uv_edges.len()
            invariant
                self.graph.wf(),
                self.graph.is_node(v as int),
                dijkstra_helper.graph() == self.graph,
                uv_edges@ == self.graph.bwd()[v as int],
                vw_edges@ == self.graph.fwd()[v as int],
                max_vw_cost == max_edge_cost(vw_edges@),
                forall|i: int| 0 <= i < vw_edges@.len() ==> #[trigger] vw_edges@[i].cost <= max_vw_cost,
                forall|i: int| 0 <= i < uv_edges@.len() ==> (#[trigger] uv_edges@[i]).cost + max_vw_cost <= u32::MAX,
                a <= uv_edges@.len(),
                ws.len() == a,
                forall|k: int| 0 <= k < a ==> #[trigger] witnesses(
                    *self.graph,
                    uv_edges@[k].source,
                    v,
                    (uv_edges@[k].cost + max_vw_cost) as u32,
                    false,
                    0,
                    ws[k],
                ),
                lists_shortcuts(shortcuts@, all_needed_pairs(uv_edges@.take(a as int), vw_edges@, ws)),
            decreases uv_edges@.len() - a,
        {
            let uv_edge = uv_edges[a];
            let u = uv_edge.source;
            assert(self.graph.bwd()[v as int][a as int] == uv_edge);
            let max_cost = uv_edge.cost + max_vw_cost;
            let costs = dijkstra_helper.single_source_cost_without(u, v, max_cost);
            let ghost before = shortcuts@;
            let ghost pairs0 = all_needed_pairs(uv_edges@.take(a as int), vw_edges@, ws);
            push_needed(&mut shortcuts, uv_edge, vw_edges, &costs);
            proof {
                let ws2 = ws.push(costs@);
                let t = uv_edges@.take(a + 1);
                assert(t.drop_last() =~= uv_edges@.take(a as int));
                assert(ws2.drop_last() =~= ws);
                let pairs = all_needed_pairs(t, vw_edges@, ws2);
                let np = needed_pairs(uv_edge, vw_edges@, costs@);
                assert(pairs == pairs0 + np);
                assert forall|k: int| 0 <= k < pairs.len() implies #[trigger] shortcuts@[k].0 == shortcut_of(pairs[k])
                    && shortcuts@[k].1@ == seq![pairs[k].0, pairs[k].1] by {
                    if k < pairs0.len() {
                        assert(shortcuts@[k] == shortcuts@.take(before.len() as int)[k]);
                        assert(shortcuts@[k] == before[k]);
                        assert(pairs[k] == pairs0[k]);
                        assert(lists_shortcuts(before, pairs0));
                        assert(before[k].0 == shortcut_of(pairs0[k]));
                        assert(before[k].1@ == seq![pairs0[k].0, pairs0[k].1]);
                    } else {
                        assert(before.len() == pairs0.len());
                        assert(shortcuts@[k] == shortcuts@.skip(before.len() as int)[k - before.len()]);
                        assert(pairs[k] == np[k - pairs0.len()]);
                        let j = k - before.len();
                        assert(lists_shortcuts(shortcuts@.skip(before.len() as int), np));
                        assert(shortcuts@.skip(before.len() as int)[j].0 == shortcut_of(np[j]));
                    }
                }
                ws = ws2;
                assert forall|k: int| 0 <= k < a + 1 implies #[trigger] witnesses(
                    *self.graph,
                    uv_edges@[k].source,
                    v,
                    (uv_edges@[k].cost + max_vw_cost) as u32,
                    false,
                    0,
                    ws[k],
                ) by {
                    if k < a {
                        assert(ws[k] == ws2.drop_last()[k]);
                    }
                }
            }
            a += 1;
        }
        assert(uv_edges@.take(uv_edges@.len() as int) =~= uv_edges@);
        shortcuts
    }
}

} // verus!

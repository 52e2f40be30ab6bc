use vstd::prelude::*;

use crate::routing::ch::bounded_search::witnesses;
use crate::routing::ch::contraction_helper::{all_needed_pairs, max_edge_cost, needed_pairs};
use crate::routing::ch::shortcut_generator::ShortcutGenerator;
use crate::routing::graph::Graph;

use super::queue::PriorityTerm;

verus! {

/// The number of shortcuts that contracting `v` would generate, less the number of edges at it.
pub struct EdgeDifferencePriority {}

/// The shortcuts of `v` against `witness_costs`, as in `ShortcutGenerator::naive_shortcuts`.
pub open spec fn naive_witnesses(v: u32, graph: Graph, witness_costs: Seq<Map<u32, u32>>) -> bool {
    &&& witness_costs.len() == graph.bwd()[v as int].len()
    &&& forall|a: int| 0 <= a < witness_costs.len() ==> #[trigger] witnesses(
        graph,
        graph.bwd()[v as int][a].source,
        v,
        (graph.bwd()[v as int][a].cost + max_edge_cost(graph.fwd()[v as int])) as u32,
        false,
        0,
        witness_costs[a],
    )
}

/// A list of needed pairs of one edge is no longer than the other list.
proof fn lemma_needed_pairs_len(uv: crate::routing::graph::Edge, vw: Seq<crate::routing::graph::Edge>, costs: Map<u32, u32>)
    ensures
        needed_pairs(uv, vw, costs).len() <= vw.len(),
    decreases vw.len(),
{
    if vw.len() > 0 {
        lemma_needed_pairs_len(uv, vw.drop_last(), costs);
    }
}

/// There are at most as many needed pairs as pairs.
proof fn lemma_all_needed_pairs_len(uv: Seq<crate::routing::graph::Edge>, vw: Seq<crate::routing::graph::Edge>, ws: Seq<Map<u32, u32>>)
    ensures
        all_needed_pairs(uv, vw, ws).len() <= uv.len() * vw.len(),
    decreases uv.len(),
{
    if uv.len() > 0 && ws.len() > 0 {
        lemma_all_needed_pairs_len(uv.drop_last(), vw, ws.drop_last());
        lemma_needed_pairs_len(uv.last(), vw, ws.last());
        assert((uv.len() - 1) * vw.len() + vw.len() == uv.len() * vw.len()) by (nonlinear_arith);
    } else {
        assert(uv.len() * vw.len() >= 0) by (nonlinear_arith);
    }
}

impl EdgeDifferencePriority {
    /// Whether the edge difference of `v` can be computed without overflow: each edge into `v`
    /// with the dearest edge out of it fits in a `u32`, and the number of pairs of an edge in
    /// and an edge out plus the number of edges at `v` fits in an `i32`.
    pub open spec fn fits(v: u32, graph: Graph) -> bool {
        &&& forall|i: int| 0 <= i < graph.bwd()[v as int].len() ==> (#[trigger] graph.bwd()[v as int][i]).cost + max_edge_cost(graph.fwd()[v as int]) <= u32::MAX
        &&& graph.bwd()[v as int].len() * graph.fwd()[v as int].len() + graph.fwd()[v as int].len() + graph.bwd()[v as int].len() <= i32::MAX
    }

    /// Whether the edge difference of `v` can be computed without overflow.
    pub fn check_fits(v: u32, graph: &Graph) -> (ok: bool)
        requires
            graph.wf(),
            graph.is_node(v as int),
        ensures
            ok == Self::fits(v, *graph),
    {
        let uv_edges = &graph.backward_edges[v as usize];
        let vw_edges = &graph.forward_edges[v as usize];
        let max_vw = crate::routing::ch::contraction_helper::largest_edge_cost(vw_edges);
        let mut i: usize = 0;
        while i < uv_edges.len()
            invariant
                uv_edges@ == graph.bwd()[v as int],
                vw_edges@ == graph.fwd()[v as int],
                max_vw == max_edge_cost(vw_edges@),
                i <= uv_edges@.len(),
                forall|k: int| 0 <= k < i ==> (#[trigger] uv_edges@[k]).cost + max_vw <= u32::MAX,
            decreases uv_edges@.len() - i,
        {
            if uv_edges[i].cost as u64 + max_vw as u64 > 4294967295u64 {
                return false;
            }
            i += 1;
        }
        let b = uv_edges.len() as u128;
        let f = vw_edges.len() as u128;
        assert(b * f <= u64::MAX * u64::MAX) by (nonlinear_arith)
            requires
                b <= u64::MAX,
                f <= u64::MAX,
        ;
        assert(u64::MAX * u64::MAX + 2 * u64::MAX <= u128::MAX) by (nonlinear_arith);
        b * f + f + b <= 2147483647u128
    }

    /// An edge difference lies between minus the number of edges at `v` and the number of
    /// pairs less that number.
    pub proof fn lemma_rating_bounds(v: u32, graph: Graph, p: i32)
        requires
            Self::fits(v, graph),
            (EdgeDifferencePriority {}).rating(v, graph, p),
        ensures
            -(graph.fwd()[v as int].len() + graph.bwd()[v as int].len()) <= p,
            p <= graph.bwd()[v as int].len() * graph.fwd()[v as int].len() - (graph.fwd()[v as int].len() + graph.bwd()[v as int].len()),
    {
        let ws = choose|ws: Seq<Map<u32, u32>>|
            #[trigger] naive_witnesses(v, graph, ws) && p == all_needed_pairs(graph.bwd()[v as int], graph.fwd()[v as int], ws).len() - (
            graph.fwd()[v as int].len() + graph.bwd()[v as int].len());
        lemma_all_needed_pairs_len(graph.bwd()[v as int], graph.fwd()[v as int], ws);
    }

    pub fn new() -> (priority: Self) {
        Self {}
    }
}

impl PriorityTerm for EdgeDifferencePriority {
    open spec fn rates(&self, v: u32, graph: Graph) -> bool {
        Self::fits(v, graph)
    }

    /// The number of needed pairs against some witness costs of `v`, less the number of edges
    /// at `v`.
    open spec fn rating(&self, v: u32, graph: Graph, p: i32) -> bool {
        exists|ws: Seq<Map<u32, u32>>|
            #[trigger] naive_witnesses(v, graph, ws) && p == all_needed_pairs(graph.bwd()[v as int], graph.fwd()[v as int], ws).len() - (
            graph.fwd()[v as int].len() + graph.bwd()[v as int].len())
    }

    open spec fn updates(&self, v: u32, graph: Graph) -> bool {
        true
    }

    open spec fn updated(&self, v: u32, graph: Graph, next: Self) -> bool {
        true
    }

    /// The number of shortcuts that contracting `v` would generate, less the number of edges at
    /// `v`.
    fn priority(&self, v: u32, graph: &Graph) -> (p: i32) {
        let shortcut_generator = ShortcutGenerator::new(graph);
        let shortcuts = shortcut_generator.naive_shortcuts(v);
        let current_pairs = graph.forward_edges[v as usize].len() + graph.backward_edges[v as usize].len();
        let ghost ws = choose|witness_costs: Seq<Map<u32, u32>>|
            {
                &&& witness_costs.len() == graph.bwd()[v as int].len()
                &&& forall|a: int| 0 <= a < witness_costs.len() ==> #[trigger] witnesses(
                    *graph,
                    graph.bwd()[v as int][a].source,
                    v,
                    (graph.bwd()[v as int][a].cost + max_edge_cost(graph.fwd()[v as int])) as u32,
                    false,
                    0,
                    witness_costs[a],
                )
                &&& crate::routing::ch::contraction_helper::lists_shortcuts(
                    shortcuts@,
                    all_needed_pairs(graph.bwd()[v as int], graph.fwd()[v as int], witness_costs),
                )
            };
        proof {
            lemma_all_needed_pairs_len(graph.bwd()[v as int], graph.fwd()[v as int], ws);
            assert(naive_witnesses(v, *graph, ws));
            assert(graph.bwd()[v as int].len() * graph.fwd()[v as int].len() >= 0) by (nonlinear_arith);
        }
        let p = shortcuts.len() as i32 - current_pairs as i32;
        p
    }

    fn update_before_contraction(&mut self, v: u32, graph: &Graph) {
    }
}

} // verus!

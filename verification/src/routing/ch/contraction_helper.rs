//! Shortcuts for contracting a node: a pair of edges `u -> v -> w` is replaced by an edge
//! `u -> w` unless a search from `u` that avoids `v` finds `w` at most as expensive.
use vstd::prelude::*;

use std::collections::HashMap;

use crate::routing::graph::{Edge, Graph};

use super::bounded_search::{avoiding_path, bounded_search, path_cost, witnesses};

verus! {

broadcast use vstd::std_specs::hash::group_hash_axioms;

/// The largest cost of `edges`, 0 for none.
pub open spec fn max_edge_cost(edges: Seq<Edge>) -> u32
    decreases edges.len(),
{
    if edges.len() == 0 {
        0
    } else {
        let m = max_edge_cost(edges.drop_last());
        if edges.last().cost > m { edges.last().cost } else { m }
    }
}

/// Every cost of `edges` is at most their largest cost.
pub proof fn lemma_max_edge_cost(edges: Seq<Edge>)
    ensures
        forall|i: int| 0 <= i < edges.len() ==> #[trigger] edges[i].cost <= max_edge_cost(edges),
    decreases edges.len(),
{
    if edges.len() > 0 {
        lemma_max_edge_cost(edges.drop_last());
        assert forall|i: int| 0 <= i < edges.len() implies #[trigger] edges[i].cost <= max_edge_cost(edges) by {
            if i < edges.len() - 1 {
                assert(edges[i] == edges.drop_last()[i]);
            }
        }
    }
}

/// The largest cost of `edges`, 0 for none.
pub(crate) fn largest_edge_cost(edges: &Vec<Edge>) -> (m: u32)
    ensures
        m == max_edge_cost(edges@),
{
    let mut m: u32 = 0;
    let mut i: usize = 0;
    while i < edges.len()
        invariant
            i <= edges@.len(),
            m == max_edge_cost(edges@.take(i as int)),
        decreases edges@.len() - i,
    {
        assert(edges@.take(i + 1).drop_last() =~= edges@.take(i as int));
        if edges[i].cost > m {
            m = edges[i].cost;
        }
        i += 1;
    }
    assert(edges@.take(edges@.len() as int) =~= edges@);
    m
}

/// Each edge into `v` with the dearest edge out of `v` costs at most `u32::MAX`.
pub open spec fn shortcut_costs_fit(v: u32, graph: Graph) -> bool {
    forall|i: int| 0 <= i < graph.bwd()[v as int].len() ==> (#[trigger] graph.bwd()[v as int][i]).cost + max_edge_cost(graph.fwd()[v as int]) <= u32::MAX
}

/// Whether each edge into `v` with the dearest edge out of `v` costs at most `u32::MAX`.
pub(crate) fn check_shortcut_costs(v: u32, graph: &Graph) -> (ok: bool)
    requires
        graph.wf(),
        graph.is_node(v as int),
    ensures
        ok == shortcut_costs_fit(v, *graph),
{
    let uv_edges = &graph.backward_edges[v as usize];
    let max_vw = largest_edge_cost(&graph.forward_edges[v as usize]);
    let mut i: usize = 0;
    while i < uv_edges.len()
        invariant
            uv_edges@ == graph.bwd()[v as int],
            max_vw == max_edge_cost(graph.fwd()[v as int]),
            i <= uv_edges@.len(),
            forall|k: int| 0 <= k < i ==> (#[trigger] uv_edges@[k]).cost + max_vw <= u32::MAX,
        decreases uv_edges@.len() - i,
    {
        if uv_edges[i].cost as u64 + max_vw as u64 > 4294967295u64 {
            return false;
        }
        i += 1;
    }
    true
}

/// The cost that `costs` gives `w`, `u32::MAX` where it has none.
pub open spec fn found_cost(costs: Map<u32, u32>, w: u32) -> int {
    if costs.contains_key(w) { costs[w] as int } else { u32::MAX as int }
}

/// The pairs `(uv, vw)`, `vw` from `vw_edges` in order, that cost less together than what
/// `costs` gives the target of `vw`.
pub open spec fn needed_pairs(uv: Edge, vw_edges: Seq<Edge>, costs: Map<u32, u32>) -> Seq<(Edge, Edge)>
    decreases vw_edges.len(),
{
    if vw_edges.len() == 0 {
        Seq::empty()
    } else {
        let r = needed_pairs(uv, vw_edges.drop_last(), costs);
        if uv.cost + vw_edges.last().cost < found_cost(costs, vw_edges.last().target) {
            r.push((uv, vw_edges.last()))
        } else {
            r
        }
    }
}

/// The needed pairs of every edge of `uv_edges` in order, each against its own costs in
/// `witness_costs`.
pub open spec fn all_needed_pairs(uv_edges: Seq<Edge>, vw_edges: Seq<Edge>, witness_costs: Seq<Map<u32, u32>>) -> Seq<(Edge, Edge)>
    decreases uv_edges.len(),
{
    if uv_edges.len() == 0 || witness_costs.len() == 0 {
        Seq::empty()
    } else {
        all_needed_pairs(uv_edges.drop_last(), vw_edges, witness_costs.drop_last()) + needed_pairs(
            uv_edges.last(),
            vw_edges,
            witness_costs.last(),
        )
    }
}

/// The shortcut for the pair `(uv, vw)`: from the source of `uv` to the target of `vw`, at the
/// cost of both.
pub open spec fn shortcut_of(pair: (Edge, Edge)) -> Edge {
    Edge { source: pair.0.source, target: pair.1.target, cost: (pair.0.cost + pair.1.cost) as u32 }
}

/// `shortcuts` lists, for each pair of `pairs` in order, its shortcut with the two edges it
/// replaces.
pub open spec fn lists_shortcuts(shortcuts: Seq<(Edge, Vec<Edge>)>, pairs: Seq<(Edge, Edge)>) -> bool {
    &&& shortcuts.len() == pairs.len()
    &&& forall|k: int| 0 <= k < pairs.len() ==> #[trigger] shortcuts[k].0 == shortcut_of(pairs[k]) && shortcuts[k].1@ == seq![pairs[k].0, pairs[k].1]
}

/// Appends to `shortcuts` the shortcut of `uv` with each edge of `vw_edges` that costs less
/// together with `uv` than what `costs` gives its target.
pub(crate) fn push_needed(shortcuts: &mut Vec<(Edge, Vec<Edge>)>, uv: Edge, vw_edges: &Vec<Edge>, costs: &HashMap<u32, u32>)
    requires
        forall|i: int| 0 <= i < vw_edges@.len() ==> uv.cost + (#[trigger] vw_edges@[i]).cost <= u32::MAX,
    ensures
        final(shortcuts)@.len() == old(shortcuts)@.len() + needed_pairs(uv, vw_edges@, costs@).len(),
        final(shortcuts)@.take(old(shortcuts)@.len() as int) == old(shortcuts)@,
        lists_shortcuts(final(shortcuts)@.skip(old(shortcuts)@.len() as int), needed_pairs(uv, vw_edges@, costs@)),
{
    let ghost start = shortcuts@;
    let mut b: usize = 0;
    proof {
        assert(shortcuts@.skip(start.len() as int) =~= Seq::<(Edge, Vec<Edge>)>::empty());
        assert(vw_edges@.take(0) =~= Seq::<Edge>::empty());
    }
    while b < vw_edges.len()
        invariant
            b <= vw_edges@.len(),
            forall|i: int| 0 <= i < vw_edges@.len() ==> uv.cost + (#[trigger] vw_edges@[i]).cost <= u32::MAX,
            shortcuts@.len() == start.len() + needed_pairs(uv, vw_edges@.take(b as int), costs@).len(),
            shortcuts@.take(start.len() as int) == start,
            lists_shortcuts(shortcuts@.skip(start.len() as int), needed_pairs(uv, vw_edges@.take(b as int), costs@)),
        decreases vw_edges@.len() - b,
    {
        let vw = vw_edges[b];
        let w = vw.target;
        let uw_cost = uv.cost + vw.cost;
        let found = match costs.get(&w) {
            Some(c) => *c,
            None => u32::MAX,
        };
        let ghost before = shortcuts@;
        proof {
            assert(vw_edges@.take(b + 1).drop_last() =~= vw_edges@.take(b as int));
            assert(vw_edges@.take(b + 1).last() == vw);
        }
        if uw_cost < found {
            proof {
                assert(needed_pairs(uv, vw_edges@.take(b + 1), costs@) == needed_pairs(uv, vw_edges@.take(b as int), costs@).push((uv, vw)));
            }
            let shortcut = Edge { source: uv.source, target: w, cost: uw_cost };
            let mut replaced: Vec<Edge> = Vec::new();
            replaced.push(uv);
            replaced.push(vw);
            shortcuts.push((shortcut, replaced));
            proof {
                let old_pairs = needed_pairs(uv, vw_edges@.take(b as int), costs@);
                let pairs = needed_pairs(uv, vw_edges@.take(b + 1), costs@);
                assert(pairs == old_pairs.push((uv, vw)));
                assert(shortcuts@.take(start.len() as int) =~= start);
                assert(replaced@ =~= seq![uv, vw]);
                assert forall|k: int| 0 <= k < pairs.len() implies #[trigger] shortcuts@.skip(start.len() as int)[k].0 == shortcut_of(pairs[k])
                    && shortcuts@.skip(start.len() as int)[k].1@ == seq![pairs[k].0, pairs[k].1] by {
                    if k < pairs.len() - 1 {
                        assert(shortcuts@.skip(start.len() as int)[k] == before.skip(start.len() as int)[k]);
                        assert(pairs[k] == old_pairs[k]);
                    } else {
                        assert(shortcuts@.skip(start.len() as int)[k] == (shortcut, replaced));
                    }
                }
            }
        }
        b += 1;
    }
    assert(vw_edges@.take(vw_edges@.len() as int) =~= vw_edges@);
}

/// Generates shortcuts for contracting nodes of a graph.
pub struct ContractionHelper<'a> {
    graph: &'a Graph,
}

impl<'a> ContractionHelper<'a> {
    /// The graph worked on.
    pub closed spec fn graph(&self) -> &'a Graph {
        self.graph
    }

    pub fn new(graph: &'a Graph) -> (helper: Self)
        ensures
            helper.graph() == graph,
    {
        Self { graph }
    }

    /// Generates shortcuts for a node v.
    ///
    /// For each edge `u -> v`, in the order of the backward list of `v`, a search from `u` that
    /// avoids `v`, goes at most `max_hops_in_witness_search` edges deep and looks no further
    /// than the cost of `u -> v` plus the largest cost leaving `v` gives witness costs; then for
    /// each edge `v -> w`, in the order of the forward list of `v`, the shortcut `u -> w` is
    /// generated if the two edges cost less together than the witness cost of `w`.
    ///
    /// Returns the shortcuts, each with the two edges it replaces.
    pub fn generate_shortcuts(&self, v: u32, max_hops_in_witness_search: u32) -> (shortcuts: Vec<(Edge, Vec<Edge>)>)
        requires
            self.graph().wf(),
            self.graph().is_node(v as int),
            forall|i: int| 0 <= i < self.graph().bwd()[v as int].len() ==> (#[trigger] self.graph().bwd()[v as int][i]).cost
                + max_edge_cost(self.graph().fwd()[v as int]) <= u32::MAX,
        ensures
            exists|witness_costs: Seq<Map<u32, u32>>|
                {
                    &&& witness_costs.len() == self.graph().bwd()[v as int].len()
                    &&& forall|a: int| 0 <= a < witness_costs.len() ==> #[trigger] witnesses(
                        *self.graph(),
                        self.graph().bwd()[v as int][a].source,
                        v,
                        (self.graph().bwd()[v as int][a].cost + max_edge_cost(self.graph().fwd()[v as int])) as u32,
                        true,
                        max_hops_in_witness_search,
                        witness_costs[a],
                    )
                    &&& lists_shortcuts(
                        shortcuts@,
                        all_needed_pairs(self.graph().bwd()[v as int], self.graph().fwd()[v as int], witness_costs),
                    )
                },
    {
        let uv_edges = &self.graph.backward_edges[v as usize];
        let vw_edges = &self.graph.forward_edges[v as usize];
        let max_vw_cost = largest_edge_cost(vw_edges);
        proof {
            lemma_max_edge_cost(vw_edges@);
        }
        assert(uv_edges@ == self.graph.bwd()[v as int]);
        assert(vw_edges@ == self.graph.fwd()[v as int]);
        assert forall|i: int| 0 <= i < uv_edges@.len() implies (#[trigger] uv_edges@[i]).cost + max_vw_cost <= u32::MAX by {
            assert(uv_edges@[i] == self.graph.bwd()[v as int][i]);
        }
        let mut shortcuts: Vec<(Edge, Vec<Edge>)> = Vec::new();
        let ghost mut ws: Seq<Map<u32, u32>> = Seq::empty();
        let mut a: usize = 0;
        while a < uv_edges.len()
            invariant
                self.graph.wf(),
                self.graph.is_node(v as int),
                uv_edges@ == self.graph.bwd()[v as int],
                vw_edges@ == self.graph.fwd()[v as int],
                max_vw_cost == max_edge_cost(vw_edges@),
                forall|i: int| 0 <= i < vw_edges@.len() ==> #[trigger] vw_edges@[i].cost <= max_vw_cost,
                forall|i: int| 0 <= i < uv_edges@.len() ==> (#[trigger] uv_edges@[i]).cost + max_vw_cost <= u32::MAX,
                a <= uv_edges@.len(),
                ws.len() == a,
                forall|k: int| 0 <= k < a ==> #[trigger] witnesses(
                    *self.graph,
                    uv_edges@[k].source,
                    v,
                    (uv_edges@[k].cost + max_vw_cost) as u32,
                    true,
                    max_hops_in_witness_search,
                    ws[k],
                ),
                lists_shortcuts(shortcuts@, all_needed_pairs(uv_edges@.take(a as int), vw_edges@, ws)),
            decreases uv_edges@.len() - a,
        {
            let uv_edge = uv_edges[a];
            let u = uv_edge.source;
            assert(self.graph.bwd()[v as int][a as int] == uv_edge);
            let max_cost = uv_edge.cost + max_vw_cost;
            let witness_cost = self.witness_search(u, v, max_cost, max_hops_in_witness_search);
            let ghost before = shortcuts@;
            let ghost pairs0 = all_needed_pairs(uv_edges@.take(a as int), vw_edges@, ws);
            push_needed(&mut shortcuts, uv_edge, vw_edges, &witness_cost);
            proof {
                let ws2 = ws.push(witness_cost@);
                let t = uv_edges@.take(a + 1);
                assert(t.drop_last() =~= uv_edges@.take(a as int));
                assert(ws2.drop_last() =~= ws);
                let pairs = all_needed_pairs(t, vw_edges@, ws2);
                let np = needed_pairs(uv_edge, vw_edges@, witness_cost@);
                assert(pairs == pairs0 + np);
                assert forall|k: int| 0 <= k < pairs.len() implies #[trigger] shortcuts@[k].0 == shortcut_of(pairs[k])
                    && shortcuts@[k].1@ == seq![pairs[k].0, pairs[k].1] by {
                    if k < pairs0.len() {
                        assert(shortcuts@[k] == shortcuts@.take(before.len() as int)[k]);
                        assert(shortcuts@[k] == before[k]);
                        assert(pairs[k] == pairs0[k]);
                        assert(lists_shortcuts(before, pairs0));
                        assert(before[k].0 == shortcut_of(pairs0[k]));
                        assert(before[k].1@ == seq![pairs0[k].0, pairs0[k].1]);
                    } else {
                        assert(before.len() == pairs0.len());
                        assert(shortcuts@[k] == shortcuts@.skip(before.len() as int)[k - before.len()]);
                        assert(pairs[k] == np[k - pairs0.len()]);
                        let j = k - before.len();
                        assert(lists_shortcuts(shortcuts@.skip(before.len() as int), np));
                        assert(shortcuts@.skip(before.len() as int)[j].0 == shortcut_of(np[j]));
                    }
                }
                ws = ws2;
                assert forall|k: int| 0 <= k < a + 1 implies #[trigger] witnesses(
                    *self.graph,
                    uv_edges@[k].source,
                    v,
                    (uv_edges@[k].cost + max_vw_cost) as u32,
                    true,
                    max_hops_in_witness_search,
                    ws[k],
                ) by {
                    if k < a {
                        assert(ws[k] == ws2.drop_last()[k]);
                    }
                }
            }
            a += 1;
        }
        assert(uv_edges@.take(uv_edges@.len() as int) =~= uv_edges@);
        shortcuts
    }

    /// Performs a forward search from `source` node.
    ///
    /// Returns a `HashMap` where each entry consists of a node identifier (u32) and the
    /// associated cost (u32) to reach that node from the `source`: the search never enters
    /// `without`, keeps within `max_cost` and goes at most `max_hops` edges deep.
    pub fn witness_search(&self, source: u32, without: u32, max_cost: u32, max_hops: u32) -> (costs: HashMap<u32, u32>)
        requires
            self.graph().wf(),
            self.graph().is_node(source as int),
        ensures
            witnesses(*self.graph(), source, without, max_cost, true, max_hops, costs@),
    {
        bounded_search(self.graph, source, without, max_cost, true, max_hops)
    }
}

/// The pairs of `uv` with the edges of `vw_edges` that get a shortcut are exactly those that
/// cost less together than what `costs` gives the target of the second edge.
pub proof fn lemma_needed_pairs_exact(uv: Edge, vw_edges: Seq<Edge>, costs: Map<u32, u32>, e: Edge)
    requires
        vw_edges.contains(e),
    ensures
        needed_pairs(uv, vw_edges, costs).contains((uv, e)) <==> uv.cost + e.cost < found_cost(costs, e.target),
    decreases vw_edges.len(),
{
    let d = vw_edges.drop_last();
    let r = needed_pairs(uv, d, costs);
    if d.contains(e) {
        lemma_needed_pairs_exact(uv, d, costs, e);
    } else {
        let j = choose|j: int| 0 <= j < vw_edges.len() && vw_edges[j] == e;
        if j < d.len() {
            assert(d[j] == e);
        }
        assert(vw_edges.last() == e);
        lemma_needed_pairs_in(uv, d, costs);
        if r.contains((uv, e)) {
            let k = choose|k: int| 0 <= k < r.len() && r[k] == (uv, e);
            assert(d.contains(r[k].1));
        }
    }
    if uv.cost + vw_edges.last().cost < found_cost(costs, vw_edges.last().target) {
        let n = needed_pairs(uv, vw_edges, costs);
        assert(n == r.push((uv, vw_edges.last())));
        assert(n[r.len() as int] == (uv, vw_edges.last()));
        if r.contains((uv, e)) {
            let k = choose|k: int| 0 <= k < r.len() && r[k] == (uv, e);
            assert(n[k] == (uv, e));
        }
        if n.contains((uv, e)) && !r.contains((uv, e)) {
            let k = choose|k: int| 0 <= k < n.len() && n[k] == (uv, e);
            if k < r.len() {
                assert(r[k] == n[k]);
            }
        }
    }
}

/// Every pair of [`needed_pairs`] pairs `uv` with an edge of the list.
proof fn lemma_needed_pairs_in(uv: Edge, vw_edges: Seq<Edge>, costs: Map<u32, u32>)
    ensures
        forall|k: int| 0 <= k < needed_pairs(uv, vw_edges, costs).len() ==> vw_edges.contains((#[trigger] needed_pairs(uv, vw_edges, costs)[k]).1),
    decreases vw_edges.len(),
{
    if vw_edges.len() > 0 {
        let d = vw_edges.drop_last();
        lemma_needed_pairs_in(uv, d, costs);
        let r = needed_pairs(uv, d, costs);
        assert forall|k: int| 0 <= k < needed_pairs(uv, vw_edges, costs).len() implies vw_edges.contains(
            (#[trigger] needed_pairs(uv, vw_edges, costs)[k]).1,
        ) by {
            if k < r.len() {
                assert(needed_pairs(uv, vw_edges, costs)[k] == r[k]);
                let j = choose|j: int| 0 <= j < d.len() && d[j] == r[k].1;
                assert(vw_edges[j] == d[j]);
            } else {
                assert(vw_edges[vw_edges.len() - 1] == vw_edges.last());
            }
        }
    }
}

/// A pair `u -> v -> w` whose witness search from `u` found `w` and that gets no shortcut has a
/// witness: a path from `u` to `w` that avoids `v`, stays within the hop limit of the search
/// and costs no more than the pair.
pub proof fn lemma_omitted_pair_witnessed(
    graph: Graph,
    uv: Edge,
    vw: Edge,
    v: u32,
    max_cost: u32,
    limited: bool,
    max_hops: u32,
    costs: Map<u32, u32>,
)
    requires
        witnesses(graph, uv.source, v, max_cost, limited, max_hops, costs),
        costs.contains_key(vw.target),
        !(uv.cost + vw.cost < found_cost(costs, vw.target)),
    ensures
        exists|p: Seq<Edge>|
            #[trigger] avoiding_path(graph, p, uv.source, vw.target, v) && path_cost(p) <= uv.cost + vw.cost && (limited ==> p.len()
                <= max_hops),
{
    assert(costs.contains_key(vw.target));
}

} // verus!

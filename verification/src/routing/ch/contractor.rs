//! Contraction in the order of a priority queue: the node with the smallest priority is
//! contracted next, its shortcuts added to the graph, and the graph finally keeps, besides the
//! original edges and the shortcuts, only the edges that go up in the contraction order.
use vstd::prelude::*;

use crate::routing::graph::{count, entering, leaving, Edge, Graph};

use super::ch_queue::queue::{all_nodes, lemma_ratable_when_sums_fit, node_ids, ratable, sums_fit_at, CHQueue};
use super::contraction_helper::{
    check_shortcut_costs, lists_shortcuts, shortcut_costs_fit, shortcut_of, ContractionHelper,
};
use super::contrator::lemma_needed_pairs_from;
use super::graph_cleaner::{kept, lemma_filtered_wf, lemma_kept, not_from, not_into, retain_edges};

verus! {

broadcast use {vstd::seq_lib::group_to_multiset_ensures, vstd::multiset::group_multiset_axioms};

/// A contracted graph and, for each shortcut, the source and target of the edges it replaces.
pub struct ContractedGraph {
    pub graph: Graph,
    pub map: Vec<((u32, u32), Vec<(u32, u32)>)>,
}

/// `shortcuts` are what generating the shortcuts of `v` in `graph` gives, with witness searches
/// of at most ten edges: the shortcuts of the needed pairs of an edge into `v` and an edge out
/// of it that some witness searches from the sources of the edges into `v` leave, in order.
pub open spec fn generated_shortcuts(graph: Graph, v: u32, shortcuts: Seq<(Edge, Vec<Edge>)>) -> bool {
    exists|witness_costs: Seq<Map<u32, u32>>|
        {
            &&& witness_costs.len() == graph.bwd()[v as int].len()
            &&& forall|a: int| 0 <= a < witness_costs.len() ==> #[trigger] super::bounded_search::witnesses(
                graph,
                graph.bwd()[v as int][a].source,
                v,
                (graph.bwd()[v as int][a].cost + super::contraction_helper::max_edge_cost(graph.fwd()[v as int])) as u32,
                true,
                10,
                witness_costs[a],
            )
            &&& lists_shortcuts(shortcuts, super::contraction_helper::all_needed_pairs(graph.bwd()[v as int], graph.fwd()[v as int], witness_costs))
        }
}

/// Keeps nothing.
pub open spec fn nothing() -> spec_fn(Edge) -> bool {
    |e: Edge| false
}

/// What disconnecting `node` keeps of the forward list of `v`.
pub open spec fn fwd_after_disconnect(node: int, v: int) -> spec_fn(Edge) -> bool {
    if v == node { nothing() } else { not_into(node) }
}

/// What disconnecting `node` keeps of the backward list of `v`.
pub open spec fn bwd_after_disconnect(node: int, v: int) -> spec_fn(Edge) -> bool {
    if v == node { nothing() } else { not_from(node) }
}

/// Keeps edges that go up in `levels`.
pub open spec fn strictly_up(levels: Seq<u32>) -> spec_fn(Edge) -> bool {
    |e: Edge| levels[e.source as int] < levels[e.target as int]
}

/// Keeps edges that go down in `levels`.
pub open spec fn strictly_down(levels: Seq<u32>) -> spec_fn(Edge) -> bool {
    |e: Edge| levels[e.source as int] > levels[e.target as int]
}

/// A list whose every edge is kept is kept whole.
proof fn lemma_kept_whole(s: Seq<Edge>, keep: spec_fn(Edge) -> bool)
    requires
        forall|i: int| 0 <= i < s.len() ==> keep(#[trigger] s[i]),
    ensures
        kept(s, keep) == s,
    decreases s.len(),
{
    if s.len() > 0 {
        assert forall|i: int| 0 <= i < s.drop_last().len() implies keep(#[trigger] s.drop_last()[i]) by {
            assert(s.drop_last()[i] == s[i]);
        }
        lemma_kept_whole(s.drop_last(), keep);
        assert(keep(s[s.len() - 1]));
        assert(s.drop_last().push(s.last()) =~= s);
    }
}

/// Keeping nothing keeps no edge.
proof fn lemma_kept_nothing(s: Seq<Edge>)
    ensures
        kept(s, nothing()) == Seq::<Edge>::empty(),
{
    lemma_kept(s, nothing());
    if kept(s, nothing()).len() > 0 {
        assert(nothing()(kept(s, nothing())[0]));
    }
    assert(kept(s, nothing()) =~= Seq::<Edge>::empty());
}

/// Keeping twice keeps as much as keeping once.
proof fn lemma_kept_twice(s: Seq<Edge>, keep: spec_fn(Edge) -> bool)
    ensures
        kept(kept(s, keep), keep) == kept(s, keep),
{
    lemma_kept(s, keep);
    lemma_kept_whole(kept(s, keep), keep);
}

/// The shortcut edges of a list of shortcuts.
pub open spec fn shortcut_edges(shortcuts: Seq<(Edge, Vec<Edge>)>) -> Seq<Edge> {
    shortcuts.map_values(|p: (Edge, Vec<Edge>)| p.0)
}

/// Each shortcut goes from the source of the first of its two edges, which ends where the second
/// starts, to the target of the second, at their cost together.
pub open spec fn shortcut_pairs(shortcuts: Seq<(Edge, Vec<Edge>)>) -> bool {
    forall|k: int| 0 <= k < shortcuts.len() ==> {
        &&& (#[trigger] shortcuts[k]).1@.len() == 2
        &&& shortcuts[k].1@[0].target == shortcuts[k].1@[1].source
        &&& shortcuts[k].0 == shortcut_of((shortcuts[k].1@[0], shortcuts[k].1@[1]))
    }
}

/// `entry` names the ends of `shortcut` and of the two edges it replaces.
pub open spec fn map_entry(entry: ((u32, u32), Vec<(u32, u32)>), shortcut: (Edge, Vec<Edge>)) -> bool {
    &&& entry.0 == (shortcut.0.source, shortcut.0.target)
    &&& entry.1@ == seq![(shortcut.1@[0].source, shortcut.1@[0].target), (shortcut.1@[1].source, shortcut.1@[1].target)]
}

/// `contracted` is what contracting `graph` gives with `shortcuts` and `levels`: its map names
/// the ends of each shortcut and of the edges it replaces, and each of its lists keeps, of the
/// list of `graph` with the shortcuts at that node appended, the forward edges that go up in
/// level and the backward edges that go down.
pub open spec fn contracted_from(contracted: ContractedGraph, graph: Graph, shortcuts: Seq<(Edge, Vec<Edge>)>, levels: Seq<u32>) -> bool {
    &&& shortcut_pairs(shortcuts)
    &&& contracted.map@.len() == shortcuts.len()
    &&& forall|k: int| 0 <= k < shortcuts.len() ==> #[trigger] map_entry(contracted.map@[k], shortcuts[k])
    &&& contracted.graph.num_nodes() == graph.num_nodes()
    &&& levels.len() == graph.num_nodes()
    &&& forall|v: int| 0 <= v < graph.num_nodes() ==> #[trigger] contracted.graph.fwd()[v] == kept(
        graph.fwd()[v] + leaving(shortcut_edges(shortcuts), v as u32),
        strictly_up(levels),
    )
    &&& forall|v: int| 0 <= v < graph.num_nodes() ==> #[trigger] contracted.graph.bwd()[v] == kept(
        graph.bwd()[v] + entering(shortcut_edges(shortcuts), v as u32),
        strictly_down(levels),
    )
}

/// Contracting `v` in `g` gives `g2`: `v` is a node, `block` is what generating its shortcuts
/// gives, and each list of `g2` is that of `g` with the shortcuts at that node appended, less
/// the edges into and out of `v`.
pub open spec fn contraction_step(g: Graph, v: u32, block: Seq<(Edge, Vec<Edge>)>, g2: Graph) -> bool {
    &&& g.is_node(v as int)
    &&& generated_shortcuts(g, v, block)
    &&& g2.num_nodes() == g.num_nodes()
    &&& forall|u: int| 0 <= u < g.num_nodes() ==> #[trigger] g2.fwd()[u] == kept(
        g.fwd()[u] + leaving(shortcut_edges(block), u as u32),
        fwd_after_disconnect(v as int, u),
    )
    &&& forall|u: int| 0 <= u < g.num_nodes() ==> #[trigger] g2.bwd()[u] == kept(
        g.bwd()[u] + entering(shortcut_edges(block), u as u32),
        bwd_after_disconnect(v as int, u),
    )
}

/// `graphs` are the graphs that contracting the nodes of `order` one after the other, starting
/// from `g0`, passes through, and `blocks` the shortcuts of each step.
pub open spec fn contraction_trace(g0: Graph, order: Seq<u32>, blocks: Seq<Seq<(Edge, Vec<Edge>)>>, graphs: Seq<Graph>) -> bool {
    &&& graphs.len() == order.len() + 1
    &&& blocks.len() == order.len()
    &&& graphs[0].fwd() == g0.fwd()
    &&& graphs[0].bwd() == g0.bwd()
    &&& forall|i: int| 0 <= i < order.len() ==> #[trigger] contraction_step(graphs[i], order[i], blocks[i], graphs[i + 1])
}

/// The levels `levels0` with the `i`-th node of `order` set to `i`, in order.
pub open spec fn levels_in_order(levels0: Seq<u32>, order: Seq<u32>) -> Seq<u32>
    decreases order.len(),
{
    if order.len() == 0 {
        levels0
    } else {
        levels_in_order(levels0, order.drop_last()).update(order.last() as int, (order.len() - 1) as u32)
    }
}

/// Contracting `g0` in some order of its nodes gave `shortcuts`, the shortcuts of each step in
/// turn, and turned `levels0` into `levels`, each contracted node at its place in the order; and
/// the order holds every queued node of `queued` as often as it was queued, unless contraction
/// stopped early because, in the graph it had reached, some node could not be rated, or the
/// shortcuts of some node not costed, without overflow.
pub open spec fn contracted_in_order(
    g0: Graph,
    queued: Seq<u32>,
    levels0: Seq<u32>,
    levels: Seq<u32>,
    shortcuts: Seq<(Edge, Vec<Edge>)>,
) -> bool {
    exists|order: Seq<u32>, blocks: Seq<Seq<(Edge, Vec<Edge>)>>, graphs: Seq<Graph>|
        #[trigger] contraction_trace(g0, order, blocks, graphs) && shortcuts == blocks.flatten() && levels == levels_in_order(levels0, order)
            && (order.to_multiset() == queued.to_multiset() || stopped_early(graphs.last()))
}

/// Contracting a graph whose lists are those of `g1` is contracting `g1`, with the same nodes
/// queued.
proof fn lemma_same_graph_in_order(
    g0: Graph,
    g1: Graph,
    q0: Seq<u32>,
    q1: Seq<u32>,
    levels0: Seq<u32>,
    levels: Seq<u32>,
    shortcuts: Seq<(Edge, Vec<Edge>)>,
)
    requires
        g0.fwd() == g1.fwd(),
        g0.bwd() == g1.bwd(),
        q0.to_multiset() == q1.to_multiset(),
        contracted_in_order(g0, q0, levels0, levels, shortcuts),
    ensures
        contracted_in_order(g1, q1, levels0, levels, shortcuts),
{
    let (order, blocks, graphs) = choose|order: Seq<u32>, blocks: Seq<Seq<(Edge, Vec<Edge>)>>, graphs: Seq<Graph>|
        #[trigger] contraction_trace(g0, order, blocks, graphs) && shortcuts == blocks.flatten() && levels == levels_in_order(levels0, order)
            && (order.to_multiset() == q0.to_multiset() || stopped_early(graphs.last()));
    assert(contraction_trace(g1, order, blocks, graphs));
}

/// `contracted` is what contracting `graph` from scratch gives: with the shortcuts and levels
/// of a contraction that started with every node queued once and at level 0.
pub open spec fn contracted_in_order_from(contracted: ContractedGraph, graph: Graph) -> bool {
    exists|shortcuts: Seq<(Edge, Vec<Edge>)>, levels: Seq<u32>|
        #[trigger] contracted_from(contracted, graph, shortcuts, levels) && contracted_in_order(
            graph,
            all_nodes(graph.num_nodes()),
            zero_levels(graph.num_nodes()),
            levels,
            shortcuts,
        )
}

/// Level 0 for each of `n` nodes.
pub open spec fn zero_levels(n: nat) -> Seq<u32> {
    Seq::new(n, |v: int| 0u32)
}

/// Some node of `g` cannot be rated, or its shortcuts not costed, without overflow.
pub open spec fn stopped_early(g: Graph) -> bool {
    ||| exists|v: u32| g.is_node(v as int) && !#[trigger] ratable(v, g)
    ||| exists|v: u32| g.is_node(v as int) && !#[trigger] shortcut_costs_fit(v, g)
}

/// `contracted` is what contracting `graph` gives with some shortcuts and levels.
pub open spec fn contracts_to(contracted: ContractedGraph, graph: Graph) -> bool {
    exists|shortcuts: Seq<(Edge, Vec<Edge>)>, levels: Seq<u32>| #[trigger] contracted_from(contracted, graph, shortcuts, levels)
}

/// The state of contraction in the order of a priority queue.
pub struct Contractor {
    graph: Graph,
    queue: CHQueue,
    levels: Vec<u32>,
}

impl Contractor {
    /// The graph.
    pub closed spec fn graph(&self) -> Graph {
        self.graph
    }

    /// The queue.
    pub closed spec fn queue(&self) -> CHQueue {
        self.queue
    }

    /// The level of each node.
    pub closed spec fn levels(&self) -> Seq<u32> {
        self.levels@
    }

    /// The graph is well formed, and the queue and the levels have one place per node.
    pub closed spec fn wf(&self) -> bool {
        &&& self.graph.wf()
        &&& self.graph.num_nodes() <= u32::MAX
        &&& self.levels@.len() == self.graph.num_nodes()
        &&& self.queue.deleted().len() == self.graph.num_nodes()
        &&& self.queue.weights() == (1i32, 1i32)
        &&& self.queue.entries().len() <= self.graph.num_nodes()
        &&& forall|i: int| 0 <= i < self.queue.entries().len() ==> self.graph.is_node((#[trigger] self.queue.entries()[i]).node_id as int)
    }

    /// A contractor for a copy of `graph`: every level 0, every node queued with its priority;
    /// `None` where the priority of a node cannot be computed without overflow.
    pub fn new(graph: &Graph) -> (contractor: Option<Self>)
        requires
            graph.wf(),
            graph.num_nodes() <= u32::MAX,
        ensures
            contractor matches Some(c) ==> {
                &&& c.wf()
                &&& c.graph().fwd() == graph.fwd()
                &&& c.graph().bwd() == graph.bwd()
                &&& c.levels() == zero_levels(graph.num_nodes())
                &&& node_ids(c.queue().entries()).to_multiset() == all_nodes(graph.num_nodes()).to_multiset()
            },
            contractor is None ==> exists|v: u32|
                v < graph.num_nodes() && !(#[trigger] super::ch_queue::queue::ratable(v, *graph)),
            (forall|v: u32| v < graph.num_nodes() ==> #[trigger] sums_fit_at(v, *graph)) ==> contractor is Some,
    {
        let n = graph.forward_edges.len();
        let mut levels: Vec<u32> = Vec::new();
        while levels.len() < n
            invariant
                levels@.len() <= n,
                forall|v: int| 0 <= v < levels@.len() ==> #[trigger] levels@[v] == 0,
            decreases n - levels@.len(),
        {
            levels.push(0);
        }
        let copy = graph.duplicate();
        assert(levels@ =~= zero_levels(n as nat));
        assert(copy.num_nodes() == n);
        let queue = match CHQueue::new(&copy) {
            Some(q) => q,
            None => {
                proof {
                    let v = choose|v: u32| v < copy.num_nodes() && !(#[trigger] super::ch_queue::queue::ratable(v, copy));
                    assert(!super::ch_queue::queue::ratable(v, *graph));
                    if sums_fit_at(v, *graph) {
                        lemma_ratable_when_sums_fit(v, *graph);
                    }
                }
                return None;
            },
        };
        Some(Contractor { graph: copy, queue, levels })
    }

    /// Contracts a copy of `graph` and returns the contracted graph; `None` where the priority
    /// of a node cannot be computed without overflow.
    pub fn get_graph_2(graph: &Graph) -> (contracted: Option<ContractedGraph>)
        requires
            graph.wf(),
            graph.num_nodes() <= u32::MAX,
        ensures
            contracted is None ==> exists|v: u32| v < graph.num_nodes() && !(#[trigger] super::ch_queue::queue::ratable(v, *graph)),
            (forall|v: u32| v < graph.num_nodes() ==> #[trigger] sums_fit_at(v, *graph)) ==> contracted is Some,
            contracted matches Some(c) ==> contracts_to(c, *graph),
            contracted matches Some(c) ==> contracted_in_order_from(c, *graph),
    {
        let mut contractor = match Contractor::new(graph) {
            Some(c) => c,
            None => {
                return None;
            },
        };
        let ghost c0 = contractor;
        let contracted = contractor.get_graph();
        proof {
            let (sc, lv) = choose|shortcuts: Seq<(Edge, Vec<Edge>)>, levels: Seq<u32>| #[trigger] contracted_from(contracted, c0.graph(), shortcuts, levels);
            assert(c0.graph().fwd().len() == graph.fwd().len());
            assert(contracted_from(contracted, *graph, sc, lv));
            assert(contracts_to(contracted, *graph));
            let sc2 = choose|shortcuts: Seq<(Edge, Vec<Edge>)>|
                #[trigger] contracted_from(contracted, c0.graph(), shortcuts, contractor.levels()) && contracted_in_order(
                    c0.graph(),
                    node_ids(c0.queue().entries()),
                    c0.levels(),
                    contractor.levels(),
                    shortcuts,
                );
            lemma_same_graph_in_order(c0.graph(), *graph, node_ids(c0.queue().entries()), all_nodes(graph.num_nodes()), c0.levels(), contractor.levels(), sc2);
            assert(contracted_from(contracted, *graph, sc2, contractor.levels()));
            assert(contracted_from(contracted, *graph, sc2, contractor.levels()) && contracted_in_order(
                *graph,
                all_nodes(graph.num_nodes()),
                zero_levels(graph.num_nodes()),
                contractor.levels(),
                sc2,
            ));
            assert(exists|shortcuts: Seq<(Edge, Vec<Edge>)>, levels: Seq<u32>|
                #[trigger] contracted_from(contracted, *graph, shortcuts, levels) && contracted_in_order(
                    *graph,
                    all_nodes(graph.num_nodes()),
                    zero_levels(graph.num_nodes()),
                    levels,
                    shortcuts,
                ));
            assert(contracted_in_order_from(contracted, *graph));
        }
        Some(contracted)
    }

    /// Contracts the graph and returns a copy of it with, for each shortcut, the source and
    /// target of the edges it replaces; the contractor keeps the contracted graph. The map lists
    /// the shortcuts of the contraction, step by step, and the lists are filtered by the levels
    /// the contraction gave.
    pub fn get_graph(&mut self) -> (contracted: ContractedGraph)
        requires
            old(self).wf(),
        ensures
            contracts_to(contracted, old(self).graph()),
            exists|shortcuts: Seq<(Edge, Vec<Edge>)>|
                #[trigger] contracted_from(contracted, old(self).graph(), shortcuts, final(self).levels()) && contracted_in_order(
                    old(self).graph(),
                    node_ids(old(self).queue().entries()),
                    old(self).levels(),
                    final(self).levels(),
                    shortcuts,
                ),
            final(self).graph().fwd() == contracted.graph.fwd(),
            final(self).graph().bwd() == contracted.graph.bwd(),
    {
        let ghost g0 = self.graph;
        let ghost l0 = self.levels@;
        let ghost q0 = node_ids(self.queue.entries());
        let shortcuts = self.contract();
        let mut map: Vec<((u32, u32), Vec<(u32, u32)>)> = Vec::new();
        let mut k: usize = 0;
        while k < shortcuts.len()
            invariant
                k <= shortcuts@.len(),
                shortcut_pairs(shortcuts@),
                map@.len() == k,
                forall|j: int| 0 <= j < k ==> #[trigger] map_entry(map@[j], shortcuts@[j]),
            decreases shortcuts@.len() - k,
        {
            let shortcut = shortcuts[k].0;
            assert(shortcuts@[k as int].1@.len() == 2);
            let first = shortcuts[k].1[0];
            let second = shortcuts[k].1[1];
            let mut pairs: Vec<(u32, u32)> = Vec::new();
            pairs.push((first.source, first.target));
            pairs.push((second.source, second.target));
            map.push(((shortcut.source, shortcut.target), pairs));
            proof {
                assert(pairs@ =~= seq![(first.source, first.target), (second.source, second.target)]);
                assert(map_entry(map@[k as int], shortcuts@[k as int]));
            }
            k += 1;
        }
        let contracted = ContractedGraph { graph: self.graph.duplicate(), map };
        assert(contracted_from(contracted, g0, shortcuts@, self.levels@));
        assert(contracted_from(contracted, g0, shortcuts@, self.levels()) && contracted_in_order(g0, q0, l0, self.levels(), shortcuts@));
        contracted
    }

    /// Contracts node after node, in the order of the queue, adding the shortcuts of each node
    /// to the graph and removing the node, until the queue is empty; each node gets the number
    /// of nodes contracted before it as level. Contraction stops early where a node taken cannot
    /// be rated, or its shortcuts not costed, without overflow. Then the graph gets back its
    /// lists from before, with every shortcut appended to the lists of its ends, and keeps of
    /// them the forward edges that go up in level and the backward edges that go down.
    /// Returns the shortcuts, each with the two edges it replaces.
    pub fn contract(&mut self) -> (shortcuts: Vec<(Edge, Vec<Edge>)>)
        requires
            old(self).wf(),
        ensures
            shortcut_pairs(shortcuts@),
            final(self).graph().num_nodes() == old(self).graph().num_nodes(),
            final(self).levels().len() == old(self).graph().num_nodes(),
            contracted_in_order(old(self).graph(), node_ids(old(self).queue().entries()), old(self).levels(), final(self).levels(), shortcuts@),
            forall|v: int| 0 <= v < old(self).graph().num_nodes() ==> #[trigger] final(self).graph().fwd()[v] == kept(
                old(self).graph().fwd()[v] + leaving(shortcut_edges(shortcuts@), v as u32),
                strictly_up(final(self).levels()),
            ),
            forall|v: int| 0 <= v < old(self).graph().num_nodes() ==> #[trigger] final(self).graph().bwd()[v] == kept(
                old(self).graph().bwd()[v] + entering(shortcut_edges(shortcuts@), v as u32),
                strictly_down(final(self).levels()),
            ),
    {
        let saved = self.graph.duplicate();
        let ghost g0 = self.graph;
        let ghost n = g0.num_nodes();
        let mut shortcuts: Vec<(Edge, Vec<Edge>)> = Vec::new();
        let mut level: u32 = 0;
        let ghost l0 = self.levels@;
        let ghost mut order: Seq<u32> = Seq::empty();
        let ghost mut blocks: Seq<Seq<(Edge, Vec<Edge>)>> = Seq::empty();
        let ghost mut graphs: Seq<Graph> = seq![g0];
        let ghost queued = node_ids(self.queue.entries());
        proof {
            assert(blocks.flatten() =~= Seq::<(Edge, Vec<Edge>)>::empty());
            assert(shortcuts@ =~= blocks.flatten());
            assert(order.to_multiset() =~= vstd::multiset::Multiset::empty());
            assert(queued.to_multiset() =~= order.to_multiset().add(node_ids(self.queue.entries()).to_multiset()));
        }
        loop
            invariant_except_break
                queued.to_multiset() == order.to_multiset().add(node_ids(self.queue.entries()).to_multiset()),
            invariant
                contraction_trace(g0, order, blocks, graphs),
                graphs.last() == self.graph,
                shortcuts@ == blocks.flatten(),
                self.levels@ == levels_in_order(l0, order),
                level == order.len(),
                l0.len() == n,
                self.wf(),
                self.graph.num_nodes() == n,
                saved.fwd() == g0.fwd(),
                saved.bwd() == g0.bwd(),
                saved.forward_edges@.len() == n,
                saved.backward_edges@.len() == n,
                g0.wf(),
                g0.num_nodes() == n,
                n <= u32::MAX,
                level + self.queue.entries().len() <= n,
                shortcut_pairs(shortcuts@),
                forall|k: int| 0 <= k < shortcuts@.len() ==> g0.is_node((#[trigger] shortcuts@[k]).0.source as int) && g0.is_node(
                    shortcuts@[k].0.target as int,
                ),
            ensures
                order.to_multiset() == queued.to_multiset() || stopped_early(graphs.last()),
            decreases self.queue.entries().len(),
        {
            let ghost entries0 = node_ids(self.queue.entries());
            let ghost raw0 = self.queue.entries();
            let v = match self.queue.lazy_pop(&self.graph) {
                Some(v) => v,
                None => {
                    proof {
                        if entries0.len() == 0 {
                            assert(entries0 =~= Seq::<u32>::empty());
                            assert(entries0.to_multiset() =~= vstd::multiset::Multiset::empty());
                            assert(order.to_multiset() =~= queued.to_multiset());
                        } else {
                            let u = choose|u: u32| self.graph.is_node(u as int) && !#[trigger] ratable(u, self.graph);
                            assert(stopped_early(self.graph));
                        }
                    }
                    break;
                },
            };
            proof {
                broadcast use vstd::seq_lib::group_to_multiset_ensures;

                let i = choose|i: int| 0 <= i < raw0.len() && #[trigger] raw0[i].node_id == v;
                assert(entries0[i] == v);
                assert(entries0.contains(v));
                assert(entries0.to_multiset().count(v) > 0);
                assert(order.push(v).to_multiset() =~= order.to_multiset().insert(v));
                assert(queued.to_multiset() =~= order.push(v).to_multiset().add(node_ids(self.queue.entries()).to_multiset()));
            }
            if !check_shortcut_costs(v, &self.graph) {
                proof {
                    assert(stopped_early(self.graph)) by {
                        assert(self.graph.is_node(v as int) && !shortcut_costs_fit(v, self.graph));
                    }
                }
                break;
            }
            let ghost before = shortcuts@;
            let ghost g_before = self.graph;
            let ghost order_prev = order;
            let mut node_shortcuts = self.contract_node(v);
            let ghost added = node_shortcuts@;
            shortcuts.append(&mut node_shortcuts);
            proof {
                let order2 = order.push(v);
                let blocks2 = blocks.push(added);
                let graphs2 = graphs.push(self.graph);
                assert(contraction_step(g_before, v, added, self.graph));
                assert forall|i: int| 0 <= i < order2.len() implies #[trigger] contraction_step(graphs2[i], order2[i], blocks2[i], graphs2[i + 1]) by {
                    if i < order.len() {
                        assert(graphs2[i] == graphs[i] && graphs2[i + 1] == graphs[i + 1] && order2[i] == order[i] && blocks2[i] == blocks[i]);
                    } else {
                        assert(graphs2[i] == graphs.last());
                    }
                }
                blocks.lemma_flatten_push(added);
                order = order2;
                blocks = blocks2;
                graphs = graphs2;
            }
            proof {
                assert(shortcuts@ == before + added);
                assert forall|k: int| 0 <= k < shortcuts@.len() implies {
                    &&& (#[trigger] shortcuts@[k]).1@.len() == 2
                    &&& shortcuts@[k].1@[0].target == shortcuts@[k].1@[1].source
                    &&& shortcuts@[k].0 == shortcut_of((shortcuts@[k].1@[0], shortcuts@[k].1@[1]))
                    &&& g0.is_node(shortcuts@[k].0.source as int)
                    &&& g0.is_node(shortcuts@[k].0.target as int)
                } by {
                    if k < before.len() {
                        assert(shortcuts@[k] == before[k]);
                    } else {
                        assert(shortcuts@[k] == added[k - before.len()]);
                    }
                }
            }
            self.levels.set(v as usize, level);
            proof {
                assert(order.drop_last() =~= order_prev);
                assert(order.last() == v);
                assert(order.drop_last().len() == level);
                assert(self.levels@ =~= levels_in_order(l0, order));
            }
            level += 1;
        }
        self.graph = saved;
        self.add_shortcuts(&shortcuts);
        let ghost g1 = self.graph;
        self.removing_level_property();
        shortcuts
    }

    /// Generates the shortcuts of `v`, adds them to the graph and removes `v`.
    fn contract_node(&mut self, v: u32) -> (shortcuts: Vec<(Edge, Vec<Edge>)>)
        requires
            old(self).wf(),
            old(self).graph.is_node(v as int),
            shortcut_costs_fit(v, old(self).graph),
        ensures
            final(self).wf(),
            final(self).graph.num_nodes() == old(self).graph.num_nodes(),
            final(self).levels@ == old(self).levels@,
            final(self).queue == old(self).queue,
            shortcut_pairs(shortcuts@),
            forall|k: int| 0 <= k < shortcuts@.len() ==> old(self).graph.is_node((#[trigger] shortcuts@[k]).0.source as int)
                && old(self).graph.is_node(shortcuts@[k].0.target as int),
            generated_shortcuts(old(self).graph, v, shortcuts@),
            forall|u: int| 0 <= u < old(self).graph.num_nodes() ==> #[trigger] final(self).graph.fwd()[u] == kept(
                old(self).graph.fwd()[u] + leaving(shortcut_edges(shortcuts@), u as u32),
                fwd_after_disconnect(v as int, u),
            ),
            forall|u: int| 0 <= u < old(self).graph.num_nodes() ==> #[trigger] final(self).graph.bwd()[u] == kept(
                old(self).graph.bwd()[u] + entering(shortcut_edges(shortcuts@), u as u32),
                bwd_after_disconnect(v as int, u),
            ),
    {
        let ghost g = self.graph;
        let shortcut_generator = ContractionHelper::new(&self.graph);
        assert(*shortcut_generator.graph() == g);
        let shortcuts = shortcut_generator.generate_shortcuts(v, 10);
        proof {
            let h = *shortcut_generator.graph();
            let ws = choose|witness_costs: Seq<Map<u32, u32>>|
                {
                    &&& witness_costs.len() == h.bwd()[v as int].len()
                    &&& forall|a: int| 0 <= a < witness_costs.len() ==> #[trigger] super::bounded_search::witnesses(
                        h,
                        h.bwd()[v as int][a].source,
                        v,
                        (h.bwd()[v as int][a].cost + super::contraction_helper::max_edge_cost(h.fwd()[v as int])) as u32,
                        true,
                        10,
                        witness_costs[a],
                    )
                    &&& lists_shortcuts(shortcuts@, super::contraction_helper::all_needed_pairs(h.bwd()[v as int], h.fwd()[v as int], witness_costs))
                };
            let pairs = super::contraction_helper::all_needed_pairs(g.bwd()[v as int], g.fwd()[v as int], ws);
            lemma_needed_pairs_from(g.bwd()[v as int], g.fwd()[v as int], ws);
            assert forall|k: int| 0 <= k < shortcuts@.len() implies {
                &&& (#[trigger] shortcuts@[k]).1@.len() == 2
                &&& shortcuts@[k].1@[0].target == shortcuts@[k].1@[1].source
                &&& shortcuts@[k].0 == shortcut_of((shortcuts@[k].1@[0], shortcuts@[k].1@[1]))
                &&& g.is_node(shortcuts@[k].0.source as int)
                &&& g.is_node(shortcuts@[k].0.target as int)
            } by {
                assert(shortcuts@[k].0 == shortcut_of(pairs[k]));
                assert(shortcuts@[k].1@ =~= seq![pairs[k].0, pairs[k].1]);
                let x = choose|x: int| 0 <= x < g.bwd()[v as int].len() && g.bwd()[v as int][x] == pairs[k].0;
                let y = choose|y: int| 0 <= y < g.fwd()[v as int].len() && g.fwd()[v as int][y] == pairs[k].1;
                assert(g.bwd()[v as int][x].target == v);
                assert(g.fwd()[v as int][y].source == v);
            }
        }
        self.add_shortcuts(&shortcuts);
        let ghost g1 = self.graph;
        self.disconnect(v);
        proof {
            assert forall|u: int| 0 <= u < g.num_nodes() implies #[trigger] self.graph.fwd()[u] == kept(
                g.fwd()[u] + leaving(shortcut_edges(shortcuts@), u as u32),
                fwd_after_disconnect(v as int, u),
            ) by {
                assert(g1.fwd()[u] == g.fwd()[u] + leaving(shortcut_edges(shortcuts@), u as u32));
                assert(self.graph().fwd()[u] == kept(g1.fwd()[u], fwd_after_disconnect(v as int, u)));
            }
            assert forall|u: int| 0 <= u < g.num_nodes() implies #[trigger] self.graph.bwd()[u] == kept(
                g.bwd()[u] + entering(shortcut_edges(shortcuts@), u as u32),
                bwd_after_disconnect(v as int, u),
            ) by {
                assert(g1.bwd()[u] == g.bwd()[u] + entering(shortcut_edges(shortcuts@), u as u32));
                assert(self.graph().bwd()[u] == kept(g1.bwd()[u], bwd_after_disconnect(v as int, u)));
            }
        }
        shortcuts
    }

    /// Appends every shortcut to the forward list of its source and the backward list of its
    /// target.
    fn add_shortcuts(&mut self, shortcuts: &Vec<(Edge, Vec<Edge>)>)
        requires
            old(self).graph.wf(),
            forall|k: int| 0 <= k < shortcuts@.len() ==> old(self).graph.is_node((#[trigger] shortcuts@[k]).0.source as int)
                && old(self).graph.is_node(shortcuts@[k].0.target as int),
        ensures
            final(self).graph.wf(),
            final(self).graph.num_nodes() == old(self).graph.num_nodes(),
            final(self).levels == old(self).levels,
            final(self).queue == old(self).queue,
            forall|v: int| 0 <= v < old(self).graph.num_nodes() ==> #[trigger] final(self).graph.fwd()[v] == old(self).graph.fwd()[v]
                + leaving(shortcut_edges(shortcuts@), v as u32),
            forall|v: int| 0 <= v < old(self).graph.num_nodes() ==> #[trigger] final(self).graph.bwd()[v] == old(self).graph.bwd()[v]
                + entering(shortcut_edges(shortcuts@), v as u32),
    {
        let ghost g0 = self.graph;
        let ghost scs = shortcut_edges(shortcuts@);
        let mut k: usize = 0;
        while k < shortcuts.len()
            invariant
                self.graph.wf(),
                self.graph.num_nodes() == g0.num_nodes(),
                self.levels == old(self).levels,
                self.queue == old(self).queue,
                scs == shortcut_edges(shortcuts@),
                k <= shortcuts@.len(),
                forall|j: int| 0 <= j < shortcuts@.len() ==> g0.is_node((#[trigger] shortcuts@[j]).0.source as int) && g0.is_node(
                    shortcuts@[j].0.target as int,
                ),
                forall|v: int| 0 <= v < g0.num_nodes() ==> #[trigger] self.graph.fwd()[v] == g0.fwd()[v] + leaving(scs.take(k as int), v as u32),
                forall|v: int| 0 <= v < g0.num_nodes() ==> #[trigger] self.graph.bwd()[v] == g0.bwd()[v] + entering(scs.take(k as int), v as u32),
            decreases shortcuts@.len() - k,
        {
            let shortcut = shortcuts[k].0;
            let ghost f = self.graph.fwd();
            let ghost b = self.graph.bwd();
            self.graph.add_edge(&shortcut);
            proof {
                assert(scs.take(k + 1).drop_last() =~= scs.take(k as int));
                assert(scs.take(k + 1).last() == shortcut);
                assert forall|v: int| 0 <= v < g0.num_nodes() implies #[trigger] self.graph.fwd()[v] == g0.fwd()[v] + leaving(scs.take(k + 1), v as u32) by {
                    if v == shortcut.source {
                        assert(g0.fwd()[v] + leaving(scs.take(k + 1), v as u32) =~= (g0.fwd()[v] + leaving(scs.take(k as int), v as u32)).push(shortcut));
                    } else {
                        assert(self.graph.fwd()[v] == f[v]);
                    }
                }
                assert forall|v: int| 0 <= v < g0.num_nodes() implies #[trigger] self.graph.bwd()[v] == g0.bwd()[v] + entering(scs.take(k + 1), v as u32) by {
                    if v == shortcut.target {
                        assert(g0.bwd()[v] + entering(scs.take(k + 1), v as u32) =~= (g0.bwd()[v] + entering(scs.take(k as int), v as u32)).push(shortcut));
                    } else {
                        assert(self.graph.bwd()[v] == b[v]);
                    }
                }
            }
            k += 1;
        }
        assert(scs.take(shortcuts@.len() as int) =~= scs);
    }

    /// Keeps of the forward lists the edges that go up in level and of the backward lists the
    /// edges that go down.
    pub fn removing_level_property(&mut self)
        requires
            old(self).graph().wf(),
            old(self).levels().len() == old(self).graph().num_nodes(),
        ensures
            final(self).levels() == old(self).levels(),
            final(self).queue() == old(self).queue(),
            final(self).graph().num_nodes() == old(self).graph().num_nodes(),
            final(self).graph().backward_edges@.len() == old(self).graph().num_nodes(),
            forall|v: int| 0 <= v < old(self).graph().num_nodes() ==> #[trigger] final(self).graph().fwd()[v] == kept(
                old(self).graph().fwd()[v],
                strictly_up(old(self).levels()),
            ),
            forall|v: int| 0 <= v < old(self).graph().num_nodes() ==> #[trigger] final(self).graph().bwd()[v] == kept(
                old(self).graph().bwd()[v],
                strictly_down(old(self).levels()),
            ),
    {
        let ghost g0 = self.graph;
        let ghost n = g0.num_nodes();
        let ghost lv = self.levels@;
        let mut i: usize = 0;
        while i < self.graph.forward_edges.len()
            invariant
                g0.wf(),
                n == g0.num_nodes(),
                lv == self.levels@,
                lv.len() == n,
                self.levels == old(self).levels,
                self.queue == old(self).queue,
                self.graph.forward_edges@.len() == n,
                self.graph.backward_edges@.len() == n,
                self.graph.bwd() == g0.bwd(),
                i <= n,
                forall|v: int| 0 <= v < i ==> #[trigger] self.graph.fwd()[v] == kept(g0.fwd()[v], strictly_up(lv)),
                forall|v: int| i <= v < n ==> #[trigger] self.graph.fwd()[v] == g0.fwd()[v],
            decreases n - i,
        {
            let levels = &self.levels;
            let ghost before = self.graph.fwd();
            let keep = |edge: Edge| -> (r: bool)
                requires
                    edge.source < levels@.len(),
                    edge.target < levels@.len(),
                ensures
                    r == (levels@[edge.source as int] < levels@[edge.target as int]),
                { levels[edge.source as usize] < levels[edge.target as usize] };
            proof {
                assert(levels@ == lv);
                assert(self.graph.forward_edges@[i as int]@ == before[i as int]);
                assert forall|j: int| 0 <= j < before[i as int].len() implies keep.requires((#[trigger] before[i as int][j],)) by {
                    assert(g0.fwd()[i as int][j] == before[i as int][j]);
                }
                assert forall|j: int, r: bool| 0 <= j < before[i as int].len() && #[trigger] keep.ensures((before[i as int][j],), r) implies r == strictly_up(lv)(before[i as int][j]) by {}
            }
            retain_edges(&mut self.graph.forward_edges[i], keep, Ghost(strictly_up(lv)));
            proof {
                assert(self.graph.fwd() =~= before.update(i as int, kept(before[i as int], strictly_up(lv))));
                assert forall|v: int| 0 <= v < i + 1 implies #[trigger] self.graph.fwd()[v] == kept(g0.fwd()[v], strictly_up(lv)) by {
                    if v < i {
                        assert(self.graph.fwd()[v] == before[v]);
                    }
                }
                assert forall|v: int| i + 1 <= v < n implies #[trigger] self.graph.fwd()[v] == g0.fwd()[v] by {
                    assert(self.graph.fwd()[v] == before[v]);
                }
                assert(self.graph.bwd() =~= g0.bwd());
            }
            i += 1;
        }
        let ghost f1 = self.graph.fwd();
        let mut i: usize = 0;
        while i < self.graph.backward_edges.len()
            invariant
                g0.wf(),
                n == g0.num_nodes(),
                lv == self.levels@,
                lv.len() == n,
                self.levels == old(self).levels,
                self.queue == old(self).queue,
                self.graph.forward_edges@.len() == n,
                self.graph.backward_edges@.len() == n,
                self.graph.fwd() == f1,
                i <= n,
                forall|v: int| 0 <= v < i ==> #[trigger] self.graph.bwd()[v] == kept(g0.bwd()[v], strictly_down(lv)),
                forall|v: int| i <= v < n ==> #[trigger] self.graph.bwd()[v] == g0.bwd()[v],
            decreases n - i,
        {
            let levels = &self.levels;
            let ghost before = self.graph.bwd();
            let keep = |edge: Edge| -> (r: bool)
                requires
                    edge.source < levels@.len(),
                    edge.target < levels@.len(),
                ensures
                    r == (levels@[edge.source as int] > levels@[edge.target as int]),
                { levels[edge.source as usize] > levels[edge.target as usize] };
            proof {
                assert(levels@ == lv);
                assert(self.graph.backward_edges@[i as int]@ == before[i as int]);
                assert forall|j: int| 0 <= j < before[i as int].len() implies keep.requires((#[trigger] before[i as int][j],)) by {
                    assert(g0.bwd()[i as int][j] == before[i as int][j]);
                }
                assert forall|j: int, r: bool| 0 <= j < before[i as int].len() && #[trigger] keep.ensures((before[i as int][j],), r) implies r == strictly_down(lv)(before[i as int][j]) by {}
            }
            retain_edges(&mut self.graph.backward_edges[i], keep, Ghost(strictly_down(lv)));
            proof {
                assert(self.graph.bwd() =~= before.update(i as int, kept(before[i as int], strictly_down(lv))));
                assert forall|v: int| 0 <= v < i + 1 implies #[trigger] self.graph.bwd()[v] == kept(g0.bwd()[v], strictly_down(lv)) by {
                    if v < i {
                        assert(self.graph.bwd()[v] == before[v]);
                    }
                }
                assert forall|v: int| i + 1 <= v < n implies #[trigger] self.graph.bwd()[v] == g0.bwd()[v] by {
                    assert(self.graph.bwd()[v] == before[v]);
                }
                assert(self.graph.fwd() =~= f1);
            }
            i += 1;
        }
    }

    /// Removes every edge into `node_id` from the forward lists and every edge out of it from
    /// the backward lists, and empties both lists of `node_id`.
    pub fn disconnect(&mut self, node_id: u32)
        requires
            old(self).graph().wf(),
            old(self).graph().is_node(node_id as int),
        ensures
            final(self).graph().wf(),
            final(self).graph().num_nodes() == old(self).graph().num_nodes(),
            final(self).levels() == old(self).levels(),
            final(self).queue() == old(self).queue(),
            forall|v: int| 0 <= v < old(self).graph().num_nodes() ==> #[trigger] final(self).graph().fwd()[v] == kept(
                old(self).graph().fwd()[v],
                fwd_after_disconnect(node_id as int, v),
            ),
            forall|v: int| 0 <= v < old(self).graph().num_nodes() ==> #[trigger] final(self).graph().bwd()[v] == kept(
                old(self).graph().bwd()[v],
                bwd_after_disconnect(node_id as int, v),
            ),
    {
        let ghost g0 = self.graph;
        let ghost n = g0.num_nodes();
        let ghost node = node_id as int;
        let ghost mut sources: Set<u32> = Set::empty();
        while self.graph.backward_edges[node_id as usize].len() > 0
            invariant
                g0.wf(),
                n == g0.num_nodes(),
                0 <= node < n,
                node == node_id,
                self.levels == old(self).levels,
                self.queue == old(self).queue,
                self.graph.forward_edges@.len() == n,
                self.graph.backward_edges@.len() == n,
                self.graph.bwd()[node].len() <= g0.bwd()[node].len(),
                self.graph.bwd()[node] == g0.bwd()[node].take(self.graph.bwd()[node].len() as int),
                forall|v: int| 0 <= v < n && v != node ==> #[trigger] self.graph.bwd()[v] == g0.bwd()[v],
                forall|u: u32| #[trigger] sources.contains(u) ==> u < n,
                forall|i: int| self.graph.bwd()[node].len() <= i < g0.bwd()[node].len() ==> sources.contains(#[trigger] g0.bwd()[node][i].source),
                forall|v: int| 0 <= v < n ==> #[trigger] self.graph.fwd()[v] == if sources.contains(v as u32) {
                    kept(g0.fwd()[v], not_into(node))
                } else {
                    g0.fwd()[v]
                },
            decreases self.graph.bwd()[node].len(),
        {
            let ghost b = self.graph.bwd();
            let ghost f = self.graph.fwd();
            let ghost m = b[node].len();
            let incoming_edge = match self.graph.backward_edges[node_id as usize].pop() {
                Some(e) => e,
                None => {
                    assert(false);
                    Edge { source: 0, target: 0, cost: 0 }
                },
            };
            proof {
                assert(self.graph.bwd() =~= b.update(node, b[node].drop_last()));
                assert(incoming_edge == g0.bwd()[node][m - 1]);
                assert(g0.is_node(incoming_edge.source as int));
            }
            let u = incoming_edge.source as usize;
            let ghost f1 = self.graph.fwd();
            let keep = |edge: Edge| -> (r: bool)
                ensures
                    r == (edge.target != node_id),
                { edge.target != node_id };
            assert forall|e: Edge, r: bool| #[trigger] keep.ensures((e,), r) implies r == not_into(node)(e) by {}
            retain_edges(&mut self.graph.forward_edges[u], keep, Ghost(not_into(node)));
            proof {
                assert(self.graph.fwd() =~= f1.update(u as int, kept(f1[u as int], not_into(node))));
                if sources.contains(u as u32) {
                    lemma_kept_twice(g0.fwd()[u as int], not_into(node));
                }
                sources = sources.insert(u as u32);
                assert forall|v: int| 0 <= v < n implies #[trigger] self.graph.fwd()[v] == if sources.contains(v as u32) {
                    kept(g0.fwd()[v], not_into(node))
                } else {
                    g0.fwd()[v]
                } by {
                    if v != u {
                        assert(self.graph.fwd()[v] == f1[v]);
                    }
                }
                assert(self.graph.bwd()[node] =~= g0.bwd()[node].take(self.graph.bwd()[node].len() as int));
                assert forall|i: int| self.graph.bwd()[node].len() <= i < g0.bwd()[node].len() implies sources.contains(#[trigger] g0.bwd()[node][i].source) by {}
            }
        }
        proof {
            assert forall|v: int| 0 <= v < n implies #[trigger] self.graph.fwd()[v] == kept(g0.fwd()[v], not_into(node)) by {
                if !sources.contains(v as u32) {
                    assert forall|i: int| 0 <= i < g0.fwd()[v].len() implies not_into(node)(#[trigger] g0.fwd()[v][i]) by {
                        let e = g0.fwd()[v][i];
                        if e.target == node {
                            assert(e.source == v);
                            assert(g0.fwd()[v].contains(e));
                            assert(count(g0.fwd()[e.source as int], e) == count(g0.bwd()[e.target as int], e));
                            assert(g0.bwd()[node].contains(e));
                            let j = choose|j: int| 0 <= j < g0.bwd()[node].len() && g0.bwd()[node][j] == e;
                            assert(sources.contains(g0.bwd()[node][j].source));
                        }
                    }
                    lemma_kept_whole(g0.fwd()[v], not_into(node));
                }
            }
        }
        let ghost g1 = self.graph;
        let ghost mut targets: Set<u32> = Set::empty();
        let ghost f_node = g1.fwd()[node];
        while self.graph.forward_edges[node_id as usize].len() > 0
            invariant
                g0.wf(),
                n == g0.num_nodes(),
                0 <= node < n,
                node == node_id,
                self.levels == old(self).levels,
                self.queue == old(self).queue,
                self.graph.forward_edges@.len() == n,
                self.graph.backward_edges@.len() == n,
                f_node == kept(g0.fwd()[node], not_into(node)),
                self.graph.fwd()[node].len() <= f_node.len(),
                self.graph.fwd()[node] == f_node.take(self.graph.fwd()[node].len() as int),
                forall|v: int| 0 <= v < n && v != node ==> #[trigger] self.graph.fwd()[v] == kept(g0.fwd()[v], not_into(node)),
                forall|w: u32| #[trigger] targets.contains(w) ==> w < n && w != node,
                forall|i: int| self.graph.fwd()[node].len() <= i < f_node.len() ==> targets.contains(#[trigger] f_node[i].target),
                self.graph.bwd()[node].len() == 0,
                forall|v: int| 0 <= v < n && v != node ==> #[trigger] self.graph.bwd()[v] == if targets.contains(v as u32) {
                    kept(g0.bwd()[v], not_from(node))
                } else {
                    g0.bwd()[v]
                },
            decreases self.graph.fwd()[node].len(),
        {
            let ghost f = self.graph.fwd();
            let ghost m = f[node].len();
            let outgoing_edge = match self.graph.forward_edges[node_id as usize].pop() {
                Some(e) => e,
                None => {
                    assert(false);
                    Edge { source: 0, target: 0, cost: 0 }
                },
            };
            proof {
                assert(self.graph.fwd() =~= f.update(node, f[node].drop_last()));
                assert(outgoing_edge == f_node[m - 1]);
                lemma_kept(g0.fwd()[node], not_into(node));
                assert(g0.fwd()[node].contains(outgoing_edge));
                let j = choose|j: int| 0 <= j < g0.fwd()[node].len() && g0.fwd()[node][j] == outgoing_edge;
                assert(g0.is_node(g0.fwd()[node][j].target as int));
            }
            let w = outgoing_edge.target as usize;
            let ghost b1 = self.graph.bwd();
            let keep = |edge: Edge| -> (r: bool)
                ensures
                    r == (edge.source != node_id),
                { edge.source != node_id };
            assert forall|e: Edge, r: bool| #[trigger] keep.ensures((e,), r) implies r == not_from(node)(e) by {}
            retain_edges(&mut self.graph.backward_edges[w], keep, Ghost(not_from(node)));
            proof {
                assert(self.graph.bwd() =~= b1.update(w as int, kept(b1[w as int], not_from(node))));
                if targets.contains(w as u32) {
                    lemma_kept_twice(g0.bwd()[w as int], not_from(node));
                }
                targets = targets.insert(w as u32);
                assert forall|v: int| 0 <= v < n && v != node implies #[trigger] self.graph.bwd()[v] == if targets.contains(v as u32) {
                    kept(g0.bwd()[v], not_from(node))
                } else {
                    g0.bwd()[v]
                } by {
                    if v != w {
                        assert(self.graph.bwd()[v] == b1[v]);
                    }
                }
                assert(self.graph.fwd()[node] =~= f_node.take(self.graph.fwd()[node].len() as int));
                assert forall|v: int| 0 <= v < n && v != node implies #[trigger] self.graph.fwd()[v] == kept(g0.fwd()[v], not_into(node)) by {
                    assert(self.graph.fwd()[v] == f[v]);
                }
            }
        }
        proof {
            lemma_kept(g0.fwd()[node], not_into(node));
            assert forall|v: int| 0 <= v < n implies #[trigger] self.graph.bwd()[v] == kept(g0.bwd()[v], bwd_after_disconnect(node, v)) by {
                if v == node {
                    lemma_kept_nothing(g0.bwd()[v]);
                    assert(self.graph.bwd()[v] =~= Seq::<Edge>::empty());
                } else if !targets.contains(v as u32) {
                    assert forall|i: int| 0 <= i < g0.bwd()[v].len() implies not_from(node)(#[trigger] g0.bwd()[v][i]) by {
                        let e = g0.bwd()[v][i];
                        if e.source == node {
                            assert(e.target == v);
                            assert(g0.bwd()[v].contains(e));
                            assert(count(g0.fwd()[e.source as int], e) == count(g0.bwd()[e.target as int], e));
                            assert(g0.fwd()[node].contains(e));
                            assert(count(f_node, e) == count(g0.fwd()[node], e));
                            assert(f_node.contains(e));
                            let j = choose|j: int| 0 <= j < f_node.len() && f_node[j] == e;
                            assert(targets.contains(f_node[j].target));
                        }
                    }
                    lemma_kept_whole(g0.bwd()[v], not_from(node));
                }
            }
            assert forall|v: int| 0 <= v < n implies #[trigger] self.graph.fwd()[v] == kept(g0.fwd()[v], fwd_after_disconnect(node, v)) by {
                if v == node {
                    lemma_kept_nothing(g0.fwd()[v]);
                    assert(self.graph.fwd()[v] =~= Seq::<Edge>::empty());
                }
            }
            assert forall|e: Edge| g0.is_node(e.source as int) && g0.is_node(e.target as int) && #[trigger] count(g0.fwd()[e.source as int], e) > 0 implies fwd_after_disconnect(node, e.source as int)(e) == bwd_after_disconnect(node, e.target as int)(e) by {}
            lemma_filtered_wf(g0, self.graph, |v: int| fwd_after_disconnect(node, v), |v: int| bwd_after_disconnect(node, v));
        }
    }
}

} // verus!

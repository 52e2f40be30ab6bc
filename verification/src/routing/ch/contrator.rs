//! Contraction in node order: every node is contracted in turn, its shortcuts recorded, and
//! the graph then holds the original edges together with the edges the shortcuts replace.
use vstd::prelude::*;

use crate::routing::fast_graph::{FastEdgeAccess, FastGraph};
use crate::routing::graph::{count, leaving, Edge, Graph};

use super::bounded_search::witnesses;
use super::ch_helper::ChHelper;
use super::contraction_helper::{
    all_needed_pairs, check_shortcut_costs, largest_edge_cost, lemma_max_edge_cost, lists_shortcuts, max_edge_cost, needed_pairs,
    push_needed, shortcut_costs_fit, shortcut_of,
};
use super::graph_cleaner::{kept, lemma_kept};

verus! {

broadcast use {vstd::seq_lib::group_to_multiset_ensures, vstd::multiset::group_multiset_axioms};

/// Contracting node `v` of `g` gives `g2` and the shortcuts `block`: the shortcuts of `v` cost
/// at most `u32::MAX`, `block` is what generating them gives, and `g2` holds the edges of `g` and
/// the shortcuts, less every edge into or out of `v`.
pub open spec fn id_step(g: Graph, v: u32, block: Seq<(Edge, [Edge; 2])>, g2: Graph) -> bool {
    &&& g.wf()
    &&& g.is_node(v as int)
    &&& shortcut_costs_fit(v, g)
    &&& node_shortcuts(g, v, block)
    &&& g2.wf()
    &&& g2.num_nodes() == g.num_nodes()
    &&& forall|u: int, e: Edge| #![trigger count(g2.fwd()[u], e)]
        0 <= u < g.num_nodes() ==> count(g2.fwd()[u], e) == if e.source == v || e.target == v {
            0
        } else {
            count(g.fwd()[u], e) + if e.source == u {
                shortcut_count(block, e)
            } else {
                0
            }
        }
    &&& forall|u: int, e: Edge| #![trigger count(g2.bwd()[u], e)]
        0 <= u < g.num_nodes() ==> count(g2.bwd()[u], e) == if e.source == v || e.target == v {
            0
        } else {
            count(g.bwd()[u], e) + if e.target == u {
                shortcut_count(block, e)
            } else {
                0
            }
        }
}

/// `graphs` are the graphs that contracting nodes `0, 1, ...` in turn passes through, starting
/// from `g0`, and `blocks` the shortcuts of each step.
pub open spec fn id_trace(g0: Graph, blocks: Seq<Seq<(Edge, [Edge; 2])>>, graphs: Seq<Graph>) -> bool {
    &&& graphs.len() == blocks.len() + 1
    &&& graphs[0] == g0
    &&& forall|i: int| 0 <= i < blocks.len() ==> #[trigger] id_step(graphs[i], i as u32, blocks[i], graphs[i + 1])
}

/// The levels `before`, with every node below `stop` at its own id.
pub open spec fn levels_until(before: Seq<u32>, stop: int) -> Seq<u32> {
    Seq::new(before.len(), |v: int| if v < stop { v as u32 } else { before[v] })
}

/// `sc` is the shortcut of an edge into some node of `g` and an edge out of it, both joining
/// nodes of `g`.
pub open spec fn shaped(sc: (Edge, [Edge; 2]), g: Graph) -> bool {
    &&& joins_nodes(sc, g)
    &&& sc.1[0].target == sc.1[1].source
    &&& sc.0 == shortcut_of((sc.1[0], sc.1[1]))
}

/// Both replaced edges of `sc` join nodes of `g`.
pub open spec fn joins_nodes(sc: (Edge, [Edge; 2]), g: Graph) -> bool {
    &&& g.is_node(sc.1[0].source as int)
    &&& g.is_node(sc.1[0].target as int)
    &&& g.is_node(sc.1[1].source as int)
    &&& g.is_node(sc.1[1].target as int)
}

/// How often `e` is one of the replaced edges of `shortcuts`.
pub open spec fn replaced_count(shortcuts: Seq<(Edge, [Edge; 2])>, e: Edge) -> nat
    decreases shortcuts.len(),
{
    if shortcuts.len() == 0 {
        0
    } else {
        let l = shortcuts.last();
        replaced_count(shortcuts.drop_last(), e) + (if l.1[0] == e { 1nat } else { 0nat }) + (if l.1[1] == e { 1nat } else { 0nat })
    }
}

/// How often `e` is the shortcut of an entry of `shortcuts`.
pub open spec fn shortcut_count(shortcuts: Seq<(Edge, [Edge; 2])>, e: Edge) -> nat
    decreases shortcuts.len(),
{
    if shortcuts.len() == 0 {
        0
    } else {
        shortcut_count(shortcuts.drop_last(), e) + (if shortcuts.last().0 == e { 1nat } else { 0nat })
    }
}

/// A shortcut generated for `node` joins nodes of `g`: it goes from the source of an edge into
/// `node` to the target of an edge out of it, and its two edges join nodes of `g` at `node`.
proof fn lemma_node_shortcut(g: Graph, node: u32, shortcuts: Seq<(Edge, [Edge; 2])>, k: int)
    requires
        g.wf(),
        g.is_node(node as int),
        node_shortcuts(g, node, shortcuts),
        0 <= k < shortcuts.len(),
    ensures
        g.is_node(shortcuts[k].0.source as int),
        g.is_node(shortcuts[k].0.target as int),
        shaped(shortcuts[k], g),
        shortcuts[k].1[0].target == node,
{
    let sc = shortcuts[k];
    assert(g.bwd()[node as int].contains(sc.1[0]));
    assert(g.fwd()[node as int].contains(sc.1[1]));
    let i = choose|i: int| 0 <= i < g.bwd()[node as int].len() && g.bwd()[node as int][i] == sc.1[0];
    let j = choose|j: int| 0 <= j < g.fwd()[node as int].len() && g.fwd()[node as int][j] == sc.1[1];
    assert(g.bwd()[node as int][i].target == node);
    assert(g.fwd()[node as int][j].source == node);
}

/// A shortcut of the list counts at least once.
proof fn lemma_shortcut_count_pos(shortcuts: Seq<(Edge, [Edge; 2])>, j: int)
    requires
        0 <= j < shortcuts.len(),
    ensures
        shortcut_count(shortcuts, shortcuts[j].0) > 0,
    decreases shortcuts.len(),
{
    if j < shortcuts.len() - 1 {
        lemma_shortcut_count_pos(shortcuts.drop_last(), j);
        assert(shortcuts.drop_last()[j] == shortcuts[j]);
    }
}

/// The edges of `lists`, list after list.
pub open spec fn flat(lists: Seq<Seq<Edge>>) -> Seq<Edge>
    decreases lists.len(),
{
    if lists.len() == 0 {
        Seq::empty()
    } else {
        flat(lists.drop_last()) + lists.last()
    }
}

/// Keeps edges that do not go down in `levels`.
pub open spec fn upward(levels: Seq<u32>) -> spec_fn(Edge) -> bool {
    |e: Edge| levels[e.source as int] <= levels[e.target as int]
}

/// Keeps edges that do not go up in `levels`.
pub open spec fn downward(levels: Seq<u32>) -> spec_fn(Edge) -> bool {
    |e: Edge| levels[e.source as int] >= levels[e.target as int]
}

/// The state of contraction in node order.
pub struct Contractor {
    pub graph: Graph,
    pub levels: Vec<u32>,
    pub shortcuts: Vec<(Edge, [Edge; 2])>,
}

/// `shortcuts` are what [`Contractor::get_shortcuts`] gives for `node` in `graph`: each is a
/// shortcut over an edge into `node` and an edge out of it; none where no edge leaves `node`;
/// otherwise the needed pairs that some witness searches from the sources of the edges into
/// `node` leave, in order.
pub open spec fn node_shortcuts(graph: Graph, node: u32, shortcuts: Seq<(Edge, [Edge; 2])>) -> bool {
    &&& (forall|j: int| 0 <= j < shortcuts.len() ==> {
        let sc = #[trigger] shortcuts[j];
        &&& graph.bwd()[node as int].contains(sc.1[0])
        &&& graph.fwd()[node as int].contains(sc.1[1])
        &&& sc.1[0].target == node
        &&& sc.1[1].source == node
        &&& sc.0 == shortcut_of((sc.1[0], sc.1[1]))
    })
    &&& (graph.fwd()[node as int].len() == 0 ==> shortcuts.len() == 0)
    &&& (graph.fwd()[node as int].len() > 0 ==> exists|witness_costs: Seq<Map<u32, u32>>|
        {
            &&& witness_costs.len() == graph.bwd()[node as int].len()
            &&& forall|a: int| 0 <= a < witness_costs.len() ==> #[trigger] witnesses(
                graph,
                graph.bwd()[node as int][a].source,
                node,
                (graph.bwd()[node as int][a].cost + max_edge_cost(graph.fwd()[node as int])) as u32,
                false,
                0,
                witness_costs[a],
            )
            &&& shortcuts.len() == all_needed_pairs(graph.bwd()[node as int], graph.fwd()[node as int], witness_costs).len()
            &&& forall|k: int| 0 <= k < shortcuts.len() ==> {
                let p = all_needed_pairs(graph.bwd()[node as int], graph.fwd()[node as int], witness_costs)[k];
                &&& (#[trigger] shortcuts[k]).0 == shortcut_of(p)
                &&& shortcuts[k].1[0] == p.0
                &&& shortcuts[k].1[1] == p.1
            }
        })
}

impl Contractor {
    /// A contractor for `graph`: every level `u32::MAX`, no shortcut yet.
    pub fn new(graph: Graph) -> (contractor: Contractor)
        ensures
            contractor.graph == graph,
            contractor.levels@ == Seq::new(graph.forward_edges@.len(), |v: int| u32::MAX),
            contractor.shortcuts@.len() == 0,
    {
        let n = graph.forward_edges.len();
        let mut levels: Vec<u32> = Vec::new();
        while levels.len() < n
            invariant
                levels@.len() <= n,
                forall|v: int| 0 <= v < levels@.len() ==> #[trigger] levels@[v] == u32::MAX,
            decreases n - levels@.len(),
        {
            levels.push(u32::MAX);
        }
        assert(levels@ =~= Seq::new(n as nat, |v: int| u32::MAX));
        Contractor { graph, levels, shortcuts: Vec::new() }
    }

    /// Contracts every node in turn, in the order of their ids, which become their levels; then
    /// the graph is the one before contraction with, for each shortcut, the two edges it
    /// replaces added again. Contraction stops before a node whose shortcuts would cost more
    /// than `u32::MAX`; the nodes from there on keep their levels.
    pub fn contract(&mut self)
        requires
            old(self).graph.wf(),
            old(self).levels@.len() == old(self).graph.num_nodes(),
            forall|k: int| 0 <= k < old(self).shortcuts@.len() ==> joins_nodes(#[trigger] old(self).shortcuts@[k], old(self).graph),
        ensures
            final(self).graph.wf(),
            final(self).graph.num_nodes() == old(self).graph.num_nodes(),
            exists|stop: int| 0 <= stop <= old(self).graph.num_nodes() && final(self).levels@ == #[trigger] levels_until(old(self).levels@, stop),
            exists|blocks: Seq<Seq<(Edge, [Edge; 2])>>, graphs: Seq<Graph>|
                {
                    &&& #[trigger] id_trace(old(self).graph, blocks, graphs)
                    &&& final(self).shortcuts@ == old(self).shortcuts@ + blocks.flatten()
                    &&& final(self).levels@ == levels_until(old(self).levels@, blocks.len() as int)
                    &&& blocks.len() == old(self).graph.num_nodes() || !shortcut_costs_fit(blocks.len() as u32, graphs.last())
                },
            final(self).shortcuts@.take(old(self).shortcuts@.len() as int) == old(self).shortcuts@,
            forall|k: int|
                old(self).shortcuts@.len() <= k < final(self).shortcuts@.len() ==> joins_nodes(
                    #[trigger] final(self).shortcuts@[k],
                    old(self).graph,
                ) && final(self).shortcuts@[k].1[0].target == final(self).shortcuts@[k].1[1].source && final(self).shortcuts@[k].0
                    == shortcut_of((final(self).shortcuts@[k].1[0], final(self).shortcuts@[k].1[1])),
            forall|v: int, e: Edge| #![trigger count(final(self).graph.fwd()[v], e)]
                0 <= v < old(self).graph.num_nodes() ==> count(final(self).graph.fwd()[v], e) == count(old(self).graph.fwd()[v], e) + if e.source
                    == v {
                    replaced_count(final(self).shortcuts@, e)
                } else {
                    0
                },
            forall|v: int, e: Edge| #![trigger count(final(self).graph.bwd()[v], e)]
                0 <= v < old(self).graph.num_nodes() ==> count(final(self).graph.bwd()[v], e) == count(old(self).graph.bwd()[v], e) + if e.target
                    == v {
                    replaced_count(final(self).shortcuts@, e)
                } else {
                    0
                },
    {
        let graph = self.graph.duplicate();
        let ghost orig = self.graph;
        let ghost s0 = self.shortcuts@;
        let ghost l0 = self.levels@;
        let n = self.graph.forward_edges.len();
        let mut node: usize = 0;
        let ghost mut blocks: Seq<Seq<(Edge, [Edge; 2])>> = Seq::empty();
        let ghost mut graphs: Seq<Graph> = seq![orig];
        proof {
            assert(blocks.flatten() =~= Seq::<(Edge, [Edge; 2])>::empty());
            assert(self.shortcuts@ =~= s0 + blocks.flatten());
        }
        loop
            invariant
                id_trace(orig, blocks, graphs),
                graphs.last() == self.graph,
                blocks.len() == node,
                self.shortcuts@ == s0 + blocks.flatten(),
                orig.wf(),
                n == orig.num_nodes(),
                graph.fwd() == orig.fwd(),
                graph.bwd() == orig.bwd(),
                graph.forward_edges@.len() == n,
                graph.backward_edges@.len() == n,
                self.graph.wf(),
                self.graph.num_nodes() == n,
                l0.len() == n,
                self.levels@.len() == n,
                node <= n,
                forall|v: int| 0 <= v < node ==> #[trigger] self.levels@[v] == v as u32,
                forall|v: int| node <= v < n ==> #[trigger] self.levels@[v] == l0[v],
                self.shortcuts@.take(s0.len() as int) == s0,
                self.shortcuts@.len() >= s0.len(),
                forall|k: int| s0.len() <= k < self.shortcuts@.len() ==> shaped(#[trigger] self.shortcuts@[k], orig),
                forall|k: int| 0 <= k < s0.len() ==> joins_nodes(#[trigger] s0[k], orig),
            ensures
                exists|stop: int| 0 <= stop <= n && self.levels@ == #[trigger] levels_until(l0, stop),
                id_trace(orig, blocks, graphs),
                graphs.last() == self.graph,
                self.shortcuts@ == s0 + blocks.flatten(),
                self.levels@ == levels_until(l0, blocks.len() as int),
                blocks.len() == n || !shortcut_costs_fit(blocks.len() as u32, self.graph),
                self.graph.wf(),
                self.graph.num_nodes() == n,
                self.shortcuts@.take(s0.len() as int) == s0,
                self.shortcuts@.len() >= s0.len(),
                forall|k: int| s0.len() <= k < self.shortcuts@.len() ==> shaped(#[trigger] self.shortcuts@[k], orig),
            decreases n - node,
        {
            if node >= n {
                assert(self.levels@ =~= levels_until(l0, node as int));
                break;
            }
            if !check_shortcut_costs(node as u32, &self.graph) {
                assert(self.levels@ =~= levels_until(l0, node as int));
                break;
            }
            let ghost before = self.shortcuts@;
            let ghost gb = self.graph;
            self.contract_node(node as u32);
            proof {
                let added = self.shortcuts@.skip(before.len() as int);
                assert(id_step(gb, node as u32, added, self.graph));
                let blocks2 = blocks.push(added);
                let graphs2 = graphs.push(self.graph);
                assert forall|i: int| 0 <= i < blocks2.len() implies #[trigger] id_step(graphs2[i], i as u32, blocks2[i], graphs2[i + 1]) by {
                    if i < blocks.len() {
                        assert(graphs2[i] == graphs[i] && graphs2[i + 1] == graphs[i + 1] && blocks2[i] == blocks[i]);
                    } else {
                        assert(graphs2[i] == graphs.last());
                    }
                }
                blocks.lemma_flatten_push(added);
                assert(self.shortcuts@ =~= before + added);
                blocks = blocks2;
                graphs = graphs2;
                assert forall|k: int| s0.len() <= k < self.shortcuts@.len() implies shaped(#[trigger] self.shortcuts@[k], orig) by {
                    if k < before.len() {
                        assert(self.shortcuts@[k] == self.shortcuts@.take(before.len() as int)[k]);
                        assert(self.shortcuts@[k] == before[k]);
                    } else {
                        let j = k - before.len();
                        assert(added[j] == self.shortcuts@[k]);
                        lemma_node_shortcut(gb, node as u32, added, j);
                    }
                }
                assert(self.shortcuts@.take(s0.len() as int) =~= self.shortcuts@.take(before.len() as int).take(s0.len() as int));
            }
            self.levels.set(node, node as u32);
            node += 1;
        }
        self.graph = graph;
        let ghost all = self.shortcuts@;
        let mut k: usize = 0;
        while k < self.shortcuts.len()
            invariant
                orig.wf(),
                n == orig.num_nodes(),
                exists|stop: int| 0 <= stop <= n && self.levels@ == #[trigger] levels_until(l0, stop),
                self.shortcuts@ == all,
                id_trace(orig, blocks, graphs),
                all == s0 + blocks.flatten(),
                self.levels@ == levels_until(l0, blocks.len() as int),
                blocks.len() == n || !shortcut_costs_fit(blocks.len() as u32, graphs.last()),
                self.graph.wf(),
                self.graph.num_nodes() == n,
                k <= all.len(),
                forall|i: int| s0.len() <= i < all.len() ==> shaped(#[trigger] all[i], orig),
                forall|i: int| 0 <= i < s0.len() ==> joins_nodes(#[trigger] s0[i], orig),
                all.take(s0.len() as int) == s0,
                all.len() >= s0.len(),
                forall|v: int, e: Edge| #![trigger count(self.graph.fwd()[v], e)]
                    0 <= v < n ==> count(self.graph.fwd()[v], e) == count(orig.fwd()[v], e) + if e.source == v {
                        replaced_count(all.take(k as int), e)
                    } else {
                        0
                    },
                forall|v: int, e: Edge| #![trigger count(self.graph.bwd()[v], e)]
                    0 <= v < n ==> count(self.graph.bwd()[v], e) == count(orig.bwd()[v], e) + if e.target == v {
                        replaced_count(all.take(k as int), e)
                    } else {
                        0
                    },
            decreases all.len() - k,
        {
            let pair = self.shortcuts[k].1;
            proof {
                if k < s0.len() {
                    assert(all[k as int] == s0[k as int]);
                    assert(joins_nodes(s0[k as int], orig));
                } else {
                    assert(shaped(all[k as int], orig));
                }
            }
            let ghost f1 = self.graph.fwd();
            let ghost b1 = self.graph.bwd();
            self.graph.add_edge(&pair[0]);
            let ghost f2 = self.graph.fwd();
            let ghost b2 = self.graph.bwd();
            self.graph.add_edge(&pair[1]);
            proof {
                assert(all.take(k + 1).drop_last() =~= all.take(k as int));
                assert(all.take(k + 1).last() == all[k as int]);
                assert forall|v: int, e: Edge| #![trigger count(self.graph.fwd()[v], e)]
                    0 <= v < n implies count(self.graph.fwd()[v], e) == count(orig.fwd()[v], e) + if e.source == v {
                        replaced_count(all.take(k + 1), e)
                    } else {
                        0
                    } by {
                    assert(count(f1[v], e) == count(orig.fwd()[v], e) + if e.source == v {
                        replaced_count(all.take(k as int), e)
                    } else {
                        0
                    });
                    if v == pair[0].source {
                        assert(f2[v].to_multiset() =~= f1[v].to_multiset().insert(pair[0]));
                    } else {
                        assert(f2[v] == f1[v]);
                    }
                    if v == pair[1].source {
                        assert(self.graph.fwd()[v].to_multiset() =~= f2[v].to_multiset().insert(pair[1]));
                    } else {
                        assert(self.graph.fwd()[v] == f2[v]);
                    }
                }
                assert forall|v: int, e: Edge| #![trigger count(self.graph.bwd()[v], e)]
                    0 <= v < n implies count(self.graph.bwd()[v], e) == count(orig.bwd()[v], e) + if e.target == v {
                        replaced_count(all.take(k + 1), e)
                    } else {
                        0
                    } by {
                    assert(count(b1[v], e) == count(orig.bwd()[v], e) + if e.target == v {
                        replaced_count(all.take(k as int), e)
                    } else {
                        0
                    });
                    if v == pair[0].target {
                        assert(b2[v].to_multiset() =~= b1[v].to_multiset().insert(pair[0]));
                    } else {
                        assert(b2[v] == b1[v]);
                    }
                    if v == pair[1].target {
                        assert(self.graph.bwd()[v].to_multiset() =~= b2[v].to_multiset().insert(pair[1]));
                    } else {
                        assert(self.graph.bwd()[v] == b2[v]);
                    }
                }
            }
            k += 1;
        }
        assert(all.take(all.len() as int) =~= all);
    }

    /// The graph of the contraction for searches: forward the edges that do not go down in
    /// level, backward the inversions of those that do not go up, both in the order of the
    /// forward lists.
    pub fn get_fast_graph(&self) -> (fast: FastGraph)
        requires
            self.graph.wf(),
            self.graph.num_nodes() <= u32::MAX,
            self.levels@.len() == self.graph.num_nodes(),
            kept(flat(self.graph.fwd()), upward(self.levels@)).len() < u32::MAX,
            kept(flat(self.graph.fwd()), downward(self.levels@)).len() < u32::MAX,
            forall|i: int| 0 <= i < kept(flat(self.graph.fwd()), upward(self.levels@)).len() ==> (#[trigger] kept(
                flat(self.graph.fwd()),
                upward(self.levels@),
            )[i]).source < kept(flat(self.graph.fwd()), upward(self.levels@)).len(),
            forall|i: int| 0 <= i < kept(flat(self.graph.fwd()), downward(self.levels@)).len() ==> (#[trigger] kept(
                flat(self.graph.fwd()),
                downward(self.levels@),
            )[i]).target < kept(flat(self.graph.fwd()), downward(self.levels@)).len(),
        ensures
            fast.num_nodes == self.graph.num_nodes(),
            ({
                let up = kept(flat(self.graph.fwd()), upward(self.levels@));
                forall|v: int| 0 <= v < up.len() ==> #[trigger] fast.forward_edges.out(v) == leaving(up, v as u32).map_values(|e: Edge| e.fast())
            }),
            ({
                let down = kept(flat(self.graph.fwd()), downward(self.levels@)).map_values(|e: Edge| e.inverted());
                forall|v: int| 0 <= v < down.len() ==> #[trigger] fast.backward_edges.out(v) == leaving(down, v as u32).map_values(|e: Edge| e.fast())
            }),
    {
        let ghost lists = self.graph.fwd();
        let ghost up_keep = upward(self.levels@);
        let ghost down_keep = downward(self.levels@);
        let mut forward_edges: Vec<Edge> = Vec::new();
        let mut backward_edges: Vec<Edge> = Vec::new();
        let mut v: usize = 0;
        while v < self.graph.forward_edges.len()
            invariant
                self.graph.wf(),
                lists == self.graph.fwd(),
                up_keep == upward(self.levels@),
                down_keep == downward(self.levels@),
                self.levels@.len() == self.graph.num_nodes(),
                v <= lists.len(),
                forward_edges@ == kept(flat(lists.take(v as int)), up_keep),
                backward_edges@ == kept(flat(lists.take(v as int)), down_keep).map_values(|e: Edge| e.inverted()),
            decreases lists.len() - v,
        {
            let list = &self.graph.forward_edges[v];
            assert(list@ == lists[v as int]);
            let mut i: usize = 0;
            while i < list.len()
                invariant
                    self.graph.wf(),
                    lists == self.graph.fwd(),
                    up_keep == upward(self.levels@),
                    down_keep == downward(self.levels@),
                    self.levels@.len() == self.graph.num_nodes(),
                    v < lists.len(),
                    list@ == lists[v as int],
                    i <= list@.len(),
                    forward_edges@ == kept(flat(lists.take(v as int)) + list@.take(i as int), up_keep),
                    backward_edges@ == kept(flat(lists.take(v as int)) + list@.take(i as int), down_keep).map_values(
                        |e: Edge| e.inverted(),
                    ),
                decreases list@.len() - i,
            {
                let edge = list[i];
                assert(lists[v as int][i as int] == edge);
                let ghost prefix = flat(lists.take(v as int)) + list@.take(i as int);
                let ghost next = flat(lists.take(v as int)) + list@.take(i + 1);
                assert(next.drop_last() =~= prefix);
                assert(next.last() == edge);
                let ls = self.levels[edge.source as usize];
                let lt = self.levels[edge.target as usize];
                if ls <= lt {
                    forward_edges.push(edge);
                }
                if ls >= lt {
                    backward_edges.push(edge.get_inverted());
                }
                assert(backward_edges@ =~= kept(next, down_keep).map_values(|e: Edge| e.inverted()));
                i += 1;
            }
            proof {
                assert(list@.take(list@.len() as int) =~= list@);
                assert(lists.take(v + 1).drop_last() =~= lists.take(v as int));
                assert(lists.take(v + 1).last() == lists[v as int]);
            }
            v += 1;
        }
        assert(lists.take(lists.len() as int) =~= lists);
        FastGraph {
            num_nodes: self.graph.forward_edges.len() as u32,
            forward_edges: FastEdgeAccess::new(&forward_edges),
            backward_edges: FastEdgeAccess::new(&backward_edges),
        }
    }

    /// Generates shortcuts for a node and removes it from the graph.
    ///
    /// Removing means, that afterwards, there will be no edges going into node or going out of
    /// node. The generated shortcuts are added to the graph before.
    fn contract_node(&mut self, node: u32)
        requires
            old(self).graph.wf(),
            old(self).graph.is_node(node as int),
            shortcut_costs_fit(node, old(self).graph),
        ensures
            final(self).graph.wf(),
            final(self).graph.num_nodes() == old(self).graph.num_nodes(),
            final(self).levels == old(self).levels,
            final(self).shortcuts@.take(old(self).shortcuts@.len() as int) == old(self).shortcuts@,
            final(self).shortcuts@.len() >= old(self).shortcuts@.len(),
            node_shortcuts(old(self).graph, node, final(self).shortcuts@.skip(old(self).shortcuts@.len() as int)),
            forall|v: int, e: Edge| #![trigger count(final(self).graph.fwd()[v], e)]
                0 <= v < old(self).graph.num_nodes() ==> count(final(self).graph.fwd()[v], e) == if e.source == node || e.target
                    == node {
                    0
                } else {
                    count(old(self).graph.fwd()[v], e) + if e.source == v {
                        shortcut_count(final(self).shortcuts@.skip(old(self).shortcuts@.len() as int), e)
                    } else {
                        0
                    }
                },
            forall|v: int, e: Edge| #![trigger count(final(self).graph.bwd()[v], e)]
                0 <= v < old(self).graph.num_nodes() ==> count(final(self).graph.bwd()[v], e) == if e.source == node || e.target
                    == node {
                    0
                } else {
                    count(old(self).graph.bwd()[v], e) + if e.target == v {
                        shortcut_count(final(self).shortcuts@.skip(old(self).shortcuts@.len() as int), e)
                    } else {
                        0
                    }
                },
            forall|k: int|
                old(self).shortcuts@.len() <= k < final(self).shortcuts@.len() && (#[trigger] final(self).shortcuts@[k]).0.source != node
                    && final(self).shortcuts@[k].0.target != node ==> final(self).graph.fwd()[final(self).shortcuts@[k].0.source as int].contains(
                    final(self).shortcuts@[k].0,
                ) && final(self).graph.bwd()[final(self).shortcuts@[k].0.target as int].contains(final(self).shortcuts@[k].0),
    {
        let shortcuts_for_node = self.get_shortcuts(node);
        let ghost g0 = self.graph;
        let ghost sn = shortcuts_for_node@;
        assert(node_shortcuts(g0, node, sn));
        let mut k: usize = 0;
        while k < shortcuts_for_node.len()
            invariant
                self.levels == old(self).levels,
                self.shortcuts == old(self).shortcuts,
                g0 == old(self).graph,
                g0.wf(),
                g0.is_node(node as int),
                sn == shortcuts_for_node@,
                node_shortcuts(g0, node, sn),
                self.graph.wf(),
                self.graph.num_nodes() == g0.num_nodes(),
                k <= sn.len(),
                forall|v: int, e: Edge| #![trigger count(self.graph.fwd()[v], e)]
                    0 <= v < g0.num_nodes() ==> count(self.graph.fwd()[v], e) == count(g0.fwd()[v], e) + if e.source == v {
                        shortcut_count(sn.take(k as int), e)
                    } else {
                        0
                    },
                forall|v: int, e: Edge| #![trigger count(self.graph.bwd()[v], e)]
                    0 <= v < g0.num_nodes() ==> count(self.graph.bwd()[v], e) == count(g0.bwd()[v], e) + if e.target == v {
                        shortcut_count(sn.take(k as int), e)
                    } else {
                        0
                    },
            decreases sn.len() - k,
        {
            let shortcut = shortcuts_for_node[k].0;
            proof {
                lemma_node_shortcut(g0, node, sn, k as int);
                assert(shortcut == sn[k as int].0);
            }
            let ghost f1 = self.graph.fwd();
            let ghost b1 = self.graph.bwd();
            self.graph.add_edge(&shortcut);
            proof {
                broadcast use vstd::seq_lib::group_to_multiset_ensures;

                assert(sn.take(k + 1).drop_last() =~= sn.take(k as int));
                assert(sn.take(k + 1).last() == sn[k as int]);
                assert forall|v: int, e: Edge| #![trigger count(self.graph.fwd()[v], e)]
                    0 <= v < g0.num_nodes() implies count(self.graph.fwd()[v], e) == count(g0.fwd()[v], e) + if e.source == v {
                        shortcut_count(sn.take(k + 1), e)
                    } else {
                        0
                    } by {
                    assert(count(f1[v], e) == count(g0.fwd()[v], e) + if e.source == v {
                        shortcut_count(sn.take(k as int), e)
                    } else {
                        0
                    });
                    if v == shortcut.source {
                        assert(self.graph.fwd()[v].to_multiset() =~= f1[v].to_multiset().insert(shortcut));
                    } else {
                        assert(self.graph.fwd()[v] == f1[v]);
                    }
                }
                assert forall|v: int, e: Edge| #![trigger count(self.graph.bwd()[v], e)]
                    0 <= v < g0.num_nodes() implies count(self.graph.bwd()[v], e) == count(g0.bwd()[v], e) + if e.target == v {
                        shortcut_count(sn.take(k + 1), e)
                    } else {
                        0
                    } by {
                    assert(count(b1[v], e) == count(g0.bwd()[v], e) + if e.target == v {
                        shortcut_count(sn.take(k as int), e)
                    } else {
                        0
                    });
                    if v == shortcut.target {
                        assert(self.graph.bwd()[v].to_multiset() =~= b1[v].to_multiset().insert(shortcut));
                    } else {
                        assert(self.graph.bwd()[v] == b1[v]);
                    }
                }
            }
            k += 1;
        }
        assert(sn.take(sn.len() as int) =~= sn);
        let ghost g_added = self.graph;
        let ghost before = self.shortcuts@;
        let mut k: usize = 0;
        while k < shortcuts_for_node.len()
            invariant
                k <= sn.len(),
                sn == shortcuts_for_node@,
                self.shortcuts@ == before + sn.take(k as int),
                self.graph == g_added,
                self.levels == old(self).levels,
            decreases sn.len() - k,
        {
            self.shortcuts.push(shortcuts_for_node[k]);
            assert(sn.take(k + 1) =~= sn.take(k as int).push(sn[k as int]));
            k += 1;
        }
        proof {
            assert(self.shortcuts@.take(before.len() as int) =~= before);
            assert(self.shortcuts@.skip(before.len() as int) =~= sn);
        }
        self.graph.disconnect(node);
        proof {
            broadcast use vstd::seq_lib::group_to_multiset_ensures;

            let fin = self.shortcuts@;
            assert forall|k: int|
                before.len() <= k < fin.len() && (#[trigger] fin[k]).0.source != node && fin[k].0.target != node implies self.graph.fwd()[fin[k].0.source as int].contains(
                fin[k].0,
            ) && self.graph.bwd()[fin[k].0.target as int].contains(fin[k].0) by {
                let e = fin[k].0;
                let j = k - before.len();
                assert(fin.skip(before.len() as int)[j] == fin[k]);
                lemma_shortcut_count_pos(sn, j);
                lemma_node_shortcut(g0, node, sn, j);
                assert(count(self.graph.fwd()[e.source as int], e) > 0);
                assert(count(self.graph.bwd()[e.target as int], e) > 0);
            }
        }
    }

    /// Generates shortcuts for a node.
    ///
    /// A shortcut (s -> t) for (s -> node -> t) will be generated, if (s -> node -> t) costs
    /// less than what a search from s that avoids node and looks no further than the cost of
    /// (s -> node) plus the largest cost leaving node finds for t.
    ///
    /// The first element of the tupples in the returned vec is the shortcut, the second the edges
    /// it cuts short.
    fn get_shortcuts(&self, node: u32) -> (shortcuts: Vec<(Edge, [Edge; 2])>)
        requires
            self.graph.wf(),
            self.graph.is_node(node as int),
            forall|i: int| 0 <= i < self.graph.bwd()[node as int].len() ==> (#[trigger] self.graph.bwd()[node as int][i]).cost
                + max_edge_cost(self.graph.fwd()[node as int]) <= u32::MAX,
        ensures
            forall|j: int| 0 <= j < shortcuts@.len() ==> {
                let sc = #[trigger] shortcuts@[j];
                &&& self.graph.bwd()[node as int].contains(sc.1[0])
                &&& self.graph.fwd()[node as int].contains(sc.1[1])
                &&& sc.1[0].target == node
                &&& sc.1[1].source == node
                &&& sc.0 == shortcut_of((sc.1[0], sc.1[1]))
            },
            self.graph.fwd()[node as int].len() == 0 ==> shortcuts@.len() == 0,
            self.graph.fwd()[node as int].len() > 0 ==> exists|witness_costs: Seq<Map<u32, u32>>|
                {
                    &&& witness_costs.len() == self.graph.bwd()[node as int].len()
                    &&& forall|a: int| 0 <= a < witness_costs.len() ==> #[trigger] witnesses(
                        self.graph,
                        self.graph.bwd()[node as int][a].source,
                        node,
                        (self.graph.bwd()[node as int][a].cost + max_edge_cost(self.graph.fwd()[node as int])) as u32,
                        false,
                        0,
                        witness_costs[a],
                    )
                    &&& shortcuts@.len() == all_needed_pairs(self.graph.bwd()[node as int], self.graph.fwd()[node as int], witness_costs).len()
                    &&& forall|k: int| 0 <= k < shortcuts@.len() ==> {
                        let p = all_needed_pairs(self.graph.bwd()[node as int], self.graph.fwd()[node as int], witness_costs)[k];
                        &&& (#[trigger] shortcuts@[k]).0 == shortcut_of(p)
                        &&& shortcuts@[k].1[0] == p.0
                        &&& shortcuts@[k].1[1] == p.1
                    }
                },
    {
        let outgoing_edges = &self.graph.forward_edges[node as usize];
        let incoming_edges = &self.graph.backward_edges[node as usize];
        let mut shortcuts: Vec<(Edge, [Edge; 2])> = Vec::new();
        if outgoing_edges.len() == 0 {
            return shortcuts;
        }
        let max_outgoing_cost = largest_edge_cost(outgoing_edges);
        proof {
            lemma_max_edge_cost(outgoing_edges@);
        }
        let ch_dijkstra = ChHelper::new(&self.graph);
        assert(incoming_edges@ == self.graph.bwd()[node as int]);
        assert(outgoing_edges@ == self.graph.fwd()[node as int]);
        assert forall|i: int| 0 <= i < incoming_edges@.len() implies (#[trigger] incoming_edges@[i]).cost + max_outgoing_cost <= u32::MAX by {
            assert(incoming_edges@[i] == self.graph.bwd()[node as int][i]);
        }
        let mut pairs: Vec<(Edge, Vec<Edge>)> = Vec::new();
        let ghost mut ws: Seq<Map<u32, u32>> = Seq::empty();
        let mut a: usize = 0;
        while a < incoming_edges.len()
            invariant
                self.graph.wf(),
                self.graph.is_node(node as int),
                ch_dijkstra.graph == &self.graph,
                incoming_edges@ == self.graph.bwd()[node as int],
                outgoing_edges@ == self.graph.fwd()[node as int],
                max_outgoing_cost == max_edge_cost(outgoing_edges@),
                forall|i: int| 0 <= i < outgoing_edges@.len() ==> #[trigger] outgoing_edges@[i].cost <= max_outgoing_cost,
                forall|i: int| 0 <= i < incoming_edges@.len() ==> (#[trigger] incoming_edges@[i]).cost + max_outgoing_cost <= u32::MAX,
                a <= incoming_edges@.len(),
                ws.len() == a,
                forall|k: int| 0 <= k < a ==> #[trigger] witnesses(
                    self.graph,
                    incoming_edges@[k].source,
                    node,
                    (incoming_edges@[k].cost + max_outgoing_cost) as u32,
                    false,
                    0,
                    ws[k],
                ),
                lists_shortcuts(pairs@, all_needed_pairs(incoming_edges@.take(a as int), outgoing_edges@, ws)),
            decreases incoming_edges@.len() - a,
        {
            let in_edge = incoming_edges[a];
            assert(self.graph.bwd()[node as int][a as int] == in_edge);
            let max_cost = in_edge.cost + max_outgoing_cost;
            let cost = ch_dijkstra.costs_without(in_edge.source, max_cost, node);
            let ghost before = pairs@;
            let ghost pairs0 = all_needed_pairs(incoming_edges@.take(a as int), outgoing_edges@, ws);
            push_needed(&mut pairs, in_edge, outgoing_edges, &cost);
            proof {
                let ws2 = ws.push(cost@);
                let t = incoming_edges@.take(a + 1);
                assert(t.drop_last() =~= incoming_edges@.take(a as int));
                assert(ws2.drop_last() =~= ws);
                let all = all_needed_pairs(t, outgoing_edges@, ws2);
                let np = needed_pairs(in_edge, outgoing_edges@, cost@);
                assert(all == pairs0 + np);
                assert forall|k: int| 0 <= k < all.len() implies #[trigger] pairs@[k].0 == shortcut_of(all[k]) && pairs@[k].1@ == seq![
                    all[k].0,
                    all[k].1,
                ] by {
                    if k < pairs0.len() {
                        assert(pairs@[k] == pairs@.take(before.len() as int)[k]);
                        assert(pairs@[k] == before[k]);
                        assert(all[k] == pairs0[k]);
                        assert(lists_shortcuts(before, pairs0));
                        assert(before[k].0 == shortcut_of(pairs0[k]));
                        assert(before[k].1@ == seq![pairs0[k].0, pairs0[k].1]);
                    } else {
                        assert(before.len() == pairs0.len());
                        assert(pairs@[k] == pairs@.skip(before.len() as int)[k - before.len()]);
                        assert(all[k] == np[k - pairs0.len()]);
                        let j = k - before.len();
                        assert(lists_shortcuts(pairs@.skip(before.len() as int), np));
                        assert(pairs@.skip(before.len() as int)[j].0 == shortcut_of(np[j]));
                    }
                }
                assert(pairs@.len() == all.len());
                assert(lists_shortcuts(pairs@, all));
                ws = ws2;
                assert(all == all_needed_pairs(incoming_edges@.take(a + 1), outgoing_edges@, ws));
                assert forall|k: int| 0 <= k < a + 1 implies #[trigger] witnesses(
                    self.graph,
                    incoming_edges@[k].source,
                    node,
                    (incoming_edges@[k].cost + max_outgoing_cost) as u32,
                    false,
                    0,
                    ws[k],
                ) by {
                    if k < a {
                        assert(ws[k] == ws2.drop_last()[k]);
                    }
                }
            }
            a += 1;
        }
        assert(incoming_edges@.take(incoming_edges@.len() as int) =~= incoming_edges@);
        let ghost all = all_needed_pairs(incoming_edges@, outgoing_edges@, ws);
        proof {
            lemma_needed_pairs_from(incoming_edges@, outgoing_edges@, ws);
        }
        let mut k: usize = 0;
        while k < pairs.len()
            invariant
                k <= pairs@.len(),
                lists_shortcuts(pairs@, all),
                shortcuts@.len() == k,
                forall|j: int| 0 <= j < all.len() ==> incoming_edges@.contains((#[trigger] all[j]).0) && outgoing_edges@.contains(all[j].1),
                forall|j: int| 0 <= j < k ==> (#[trigger] shortcuts@[j]).0 == shortcut_of(all[j]) && shortcuts@[j].1[0] == all[j].0
                    && shortcuts@[j].1[1] == all[j].1,
            decreases pairs@.len() - k,
        {
            assert(lists_shortcuts(pairs@, all));
            assert(pairs@[k as int].0 == shortcut_of(all[k as int]) && pairs@[k as int].1@ == seq![all[k as int].0, all[k as int].1]);
            let first = pairs[k].1[0];
            let second = pairs[k].1[1];
            shortcuts.push((pairs[k].0, [first, second]));
            k += 1;
        }
        proof {
            assert forall|j: int| 0 <= j < shortcuts@.len() implies {
                let sc = #[trigger] shortcuts@[j];
                &&& self.graph.bwd()[node as int].contains(sc.1[0])
                &&& self.graph.fwd()[node as int].contains(sc.1[1])
                &&& sc.1[0].target == node
                &&& sc.1[1].source == node
                &&& sc.0 == shortcut_of((sc.1[0], sc.1[1]))
            } by {
                assert(incoming_edges@.contains(all[j].0));
                assert(outgoing_edges@.contains(all[j].1));
                let x = choose|x: int| 0 <= x < incoming_edges@.len() && incoming_edges@[x] == all[j].0;
                let y = choose|y: int| 0 <= y < outgoing_edges@.len() && outgoing_edges@[y] == all[j].1;
                assert(self.graph.bwd()[node as int][x].target == node);
                assert(self.graph.fwd()[node as int][y].source == node);
            }
        }
        shortcuts
    }
}

/// Every pair of [`all_needed_pairs`] is made of an edge of each list.
pub proof fn lemma_needed_pairs_from(uv_edges: Seq<Edge>, vw_edges: Seq<Edge>, ws: Seq<Map<u32, u32>>)
    ensures
        forall|j: int| 0 <= j < all_needed_pairs(uv_edges, vw_edges, ws).len() ==> uv_edges.contains(
            (#[trigger] all_needed_pairs(uv_edges, vw_edges, ws)[j]).0,
        ) && vw_edges.contains(all_needed_pairs(uv_edges, vw_edges, ws)[j].1),
    decreases uv_edges.len(),
{
    if uv_edges.len() > 0 && ws.len() > 0 {
        let d = uv_edges.drop_last();
        lemma_needed_pairs_from(d, vw_edges, ws.drop_last());
        let a = all_needed_pairs(d, vw_edges, ws.drop_last());
        let np = needed_pairs(uv_edges.last(), vw_edges, ws.last());
        lemma_needed_pairs_of(uv_edges.last(), vw_edges, ws.last());
        assert forall|j: int| 0 <= j < all_needed_pairs(uv_edges, vw_edges, ws).len() implies uv_edges.contains(
            (#[trigger] all_needed_pairs(uv_edges, vw_edges, ws)[j]).0,
        ) && vw_edges.contains(all_needed_pairs(uv_edges, vw_edges, ws)[j].1) by {
            if j < a.len() {
                assert(all_needed_pairs(uv_edges, vw_edges, ws)[j] == a[j]);
                let x = choose|x: int| 0 <= x < d.len() && d[x] == a[j].0;
                assert(uv_edges[x] == d[x]);
            } else {
                assert(all_needed_pairs(uv_edges, vw_edges, ws)[j] == np[j - a.len()]);
                assert(uv_edges[uv_edges.len() - 1] == uv_edges.last());
            }
        }
    }
}

/// Every pair of [`needed_pairs`] is `uv` with an edge of the list.
pub proof fn lemma_needed_pairs_of(uv: Edge, vw_edges: Seq<Edge>, costs: Map<u32, u32>)
    ensures
        forall|j: int| 0 <= j < needed_pairs(uv, vw_edges, costs).len() ==> (#[trigger] needed_pairs(uv, vw_edges, costs)[j]).0 == uv
            && vw_edges.contains(needed_pairs(uv, vw_edges, costs)[j].1),
    decreases vw_edges.len(),
{
    if vw_edges.len() > 0 {
        let d = vw_edges.drop_last();
        lemma_needed_pairs_of(uv, d, costs);
        let r = needed_pairs(uv, d, costs);
        assert forall|j: int| 0 <= j < needed_pairs(uv, vw_edges, costs).len() implies (#[trigger] needed_pairs(uv, vw_edges, costs)[j]).0
            == uv && vw_edges.contains(needed_pairs(uv, vw_edges, costs)[j].1) by {
            if j < r.len() {
                assert(needed_pairs(uv, vw_edges, costs)[j] == r[j]);
                let x = choose|x: int| 0 <= x < d.len() && d[x] == r[j].1;
                assert(vw_edges[x] == d[x]);
            } else {
                assert(vw_edges[vw_edges.len() - 1] == vw_edges.last());
            }
        }
    }
}

} // verus!

//! Bidirectional A*: a forward search from the source and a backward search from the target,
//! run in turns until both have expanded every node they reach.
use vstd::prelude::*;

use crate::routing::dijkstra_data::{chain, chain_ends, chain_route, lemma_chain_ends_unique, DijkstraData, DijsktraEntry};
use crate::routing::fast_graph::{FastEdge, FastEdgeAccess, FastGraph};
use crate::routing::graph::{count, lemma_leaving, leaving, Edge};
use crate::routing::route::{Route, RouteRequest, RouteResponse};
use crate::routing::search::{
    backed, bound_inv, count_expanded, labels_backed, lemma_after_pop, lemma_count_expanded_bound, lemma_search_end,
    search_inv, zero_stamps,
};

use super::a_star::{expand, fresh_start, lemma_fresh_start, zero_valued};
use super::dijkstra::{full_search, lemma_order_start, no_cheaper_route};
use crate::routing::dijkstra_data::lemma_fresh_pop;
use crate::routing::queue::{in_buckets, State};
use crate::routing::shortest::{chain_costs, lemma_order_pop, lemma_shortest_labels, order_inv, short_edges, shortest_labels};
use crate::routing::simple_algorithms::ch_bi_dijkstra::{costs_walk, indexed_cost, indexed_walk, walk_costs};
use super::heuristics::Heuristic;

verus! {

/// The key of `v` when picking the node where the two searches meet: the sum of its two costs,
/// `u32::MAX` when that sum does not fit below it.
pub open spec fn contact_key(f: Seq<DijsktraEntry>, b: Seq<DijsktraEntry>, v: int) -> int {
    if f[v].cost + b[v].cost >= u32::MAX { u32::MAX as int } else { f[v].cost + b[v].cost }
}

/// `c` is the first node with the smallest contact key.
pub open spec fn is_contact(f: Seq<DijsktraEntry>, b: Seq<DijsktraEntry>, c: int) -> bool {
    &&& 0 <= c < f.len()
    &&& forall|v: int| 0 <= v < c ==> #[trigger] contact_key(f, b, v) > contact_key(f, b, c)
    &&& forall|v: int| 0 <= v < f.len() ==> #[trigger] contact_key(f, b, v) >= contact_key(f, b, c)
}

/// `p` is a walk of `forward` up to some node and, from that node on, a walk of `backward`
/// travelled against its edges.
pub open spec fn bi_walk(forward: FastEdgeAccess, backward: FastEdgeAccess, p: Seq<u32>) -> bool {
    exists|split: int|
        0 <= split < p.len() && #[trigger] forward.is_walk(p.take(split + 1)) && forall|k: int|
            split <= k < p.len() - 1 ==> #[trigger] backward.step(p[k + 1], p[k])
}

/// The route through the node where a forward search from `source` over `forward` and a
/// backward search from `target` over `backward` meet best: the first node with the smallest
/// sum of both costs. `None` when one of the searches did not reach that node.
pub open spec fn joined_route(
    forward: FastEdgeAccess,
    backward: FastEdgeAccess,
    source: u32,
    target: u32,
    f: Seq<DijsktraEntry>,
    b: Seq<DijsktraEntry>,
    route: Option<Route>,
) -> bool {
    let c = choose|c: int| is_contact(f, b, c);
    &&& (route is Some) == (f[c].cost != u32::MAX && b[c].cost != u32::MAX)
    &&& route matches Some(r) ==> {
        &&& r.cost == contact_key(f, b, c)
        &&& r.nodes@[0] == source
        &&& r.nodes@.last() == target
        &&& bi_walk(forward, backward, r.nodes@)
        &&& r.nodes@ == joined_chains(f, b, c as u32)
    }
}

/// The predecessor chain of the forward search up to `c`, then that of the backward search from
/// `c` back to its start.
pub open spec fn joined_chains(f: Seq<DijsktraEntry>, b: Seq<DijsktraEntry>, c: u32) -> Seq<u32> {
    chain_route(f, c, choose|k: nat| #[trigger] chain_ends(f, c, k)) + chain_route(b, c, choose|k: nat| #[trigger] chain_ends(b, c, k)).reverse().drop_first()
}

/// The route through the first node with the smallest sum of forward and backward cost.
pub(crate) fn construct_route(
    _contact_node: u32,
    forward_data: &DijkstraData,
    backward_data: &DijkstraData,
    Ghost(forward): Ghost<FastEdgeAccess>,
    Ghost(backward): Ghost<FastEdgeAccess>,
    Ghost(source): Ghost<u32>,
    Ghost(target): Ghost<u32>,
) -> (route: Option<Route>)
    requires
        forward_data.nodes@.len() == backward_data.nodes@.len(),
        0 < forward_data.nodes@.len() <= u32::MAX,
        labels_backed(forward, forward_data.nodes@, source),
        labels_backed(backward, backward_data.nodes@, target),
    ensures
        joined_route(forward, backward, source, target, forward_data.nodes@, backward_data.nodes@, route),
        exists|c: int| is_contact(forward_data.nodes@, backward_data.nodes@, c),
{
    let ghost f = forward_data.nodes@;
    let ghost b = backward_data.nodes@;
    let n = forward_data.nodes.len();
    let mut contact: usize = 0;
    let mut best: u32 = match forward_data.nodes[0].cost.checked_add(backward_data.nodes[0].cost) {
        Some(k) => k,
        None => u32::MAX,
    };
    let mut v: usize = 1;
    while v < n
        invariant
            n == f.len(),
            n == b.len(),
            f == forward_data.nodes@,
            b == backward_data.nodes@,
            1 <= v <= n,
            contact < v,
            best == contact_key(f, b, contact as int),
            forall|w: int| 0 <= w < contact ==> #[trigger] contact_key(f, b, w) > contact_key(f, b, contact as int),
            forall|w: int| 0 <= w < v ==> #[trigger] contact_key(f, b, w) >= contact_key(f, b, contact as int),
        decreases n - v,
    {
        let key = match forward_data.nodes[v].cost.checked_add(backward_data.nodes[v].cost) {
            Some(k) => k,
            None => u32::MAX,
        };
        if key < best {
            contact = v;
            best = key;
        }
        v += 1;
    }
    proof {
        assert(is_contact(f, b, contact as int));
        let c = choose|c: int| is_contact(f, b, c);
        assert(c == contact) by {
            if c < contact {
                assert(contact_key(f, b, c) > contact_key(f, b, contact as int));
            } else if c > contact {
                assert(contact_key(f, b, contact as int) > contact_key(f, b, c));
            }
        }
    }
    let c = contact as u32;
    assert(c as int == contact as int);
    let forward_route = match forward_data.get_route_backed(c, Ghost(forward), Ghost(source)) {
        Some(r) => r,
        None => return None,
    };
    let backward_route = match backward_data.get_route_backed(c, Ghost(backward), Ghost(target)) {
        Some(r) => r,
        None => return None,
    };
    let mut nodes = forward_route.nodes;
    let ghost fr = nodes@;
    let ghost br = backward_route.nodes@;
    let m = backward_route.nodes.len();
    let mut j: usize = m - 1;
    while j > 0
        invariant
            1 <= m == br.len(),
            j < m,
            br == backward_route.nodes@,
            nodes@ == fr + Seq::new((m - 1 - j) as nat, |x: int| br[m - 2 - x]),
        decreases j,
    {
        nodes.push(backward_route.nodes[j - 1]);
        j -= 1;
        assert(nodes@ =~= fr + Seq::new((m - 1 - j) as nat, |x: int| br[m - 2 - x]));
    }
    let cost = forward_route.cost.saturating_add(backward_route.cost);
    let route = Route { nodes, cost };
    proof {
        let p = route.nodes@;
        let split = fr.len() - 1;
        assert(p.take(split + 1) =~= fr);
        assert forall|k: int| split <= k < p.len() - 1 implies #[trigger] backward.step(p[k + 1], p[k]) by {
            let x = k - split;
            assert(p[k + 1] == br[m - 2 - x]);
            if k == split {
                assert(p[k] == fr.last());
                assert(p[k] == br[m - 1]);
            } else {
                assert(p[k] == br[m - 1 - x]);
            }
            let y = m - 2 - x;
            assert(backward.step(br[y], br[y + 1]));
        }
        assert(bi_walk(forward, backward, p));
        assert(p =~= fr + br.reverse().drop_first());
        if m > 1 {
            assert(p.last() == br[0]);
        } else {
            assert(p.last() == fr.last());
            assert(br[0] == br.last());
        }
    }
    Some(route)
}

/// A pair of heuristics turned into consistent potentials for a bidirectional search.
struct ConstantHeuristic<F: Heuristic, B: Heuristic> {
    forward_heuristic: F,
    backward_heuristic: B,
    s: u32,
    t: u32,
}

impl<F: Heuristic, B: Heuristic> ConstantHeuristic<F, B> {
    fn pi_f(&self, v: u32) -> (r: u32)
        requires
            self.forward_heuristic.covers(v),
        ensures
            r == self.forward_heuristic.value(v),
    {
        self.forward_heuristic.lower_bound(v)
    }

    fn pi_r(&self, v: u32) -> (r: u32)
        requires
            self.backward_heuristic.covers(v),
        ensures
            r == self.backward_heuristic.value(v),
    {
        self.backward_heuristic.lower_bound(v)
    }

    /// The forward potential: half the difference of the two heuristics plus half the backward
    /// heuristic of the target.
    fn p_f(&self, v: u32) -> (r: u32)
        requires
            self.forward_heuristic.covers(v),
            self.backward_heuristic.covers(v),
            self.backward_heuristic.covers(self.t),
            self.forward_heuristic.value(v) >= self.backward_heuristic.value(v),
        ensures
            r == (self.forward_heuristic.value(v) - self.backward_heuristic.value(v)) / 2
                + self.backward_heuristic.value(self.t) / 2,
    {
        (self.pi_f(v) - self.pi_r(v)) / 2 + self.pi_r(self.t) / 2
    }

    /// The backward potential: half the difference of the two heuristics plus half the forward
    /// heuristic of the source.
    fn p_r(&self, v: u32) -> (r: u32)
        requires
            self.forward_heuristic.covers(v),
            self.backward_heuristic.covers(v),
            self.forward_heuristic.covers(self.s),
            self.backward_heuristic.value(v) >= self.forward_heuristic.value(v),
        ensures
            r == (self.backward_heuristic.value(v) - self.forward_heuristic.value(v)) / 2
                + self.forward_heuristic.value(self.s) / 2,
    {
        (self.pi_r(v) - self.pi_f(v)) / 2 + self.pi_f(self.s) / 2
    }
}

/// The forward potential of a [`ConstantHeuristic`], as a heuristic.
struct ForwardPotential<'h, F: Heuristic, B: Heuristic> {
    heu: &'h ConstantHeuristic<F, B>,
}

impl<'h, F: Heuristic, B: Heuristic> Heuristic for ForwardPotential<'h, F, B> {
    closed spec fn covers(&self, v: u32) -> bool {
        &&& self.heu.forward_heuristic.covers(v)
        &&& self.heu.backward_heuristic.covers(v)
        &&& self.heu.backward_heuristic.covers(self.heu.t)
        &&& self.heu.forward_heuristic.value(v) >= self.heu.backward_heuristic.value(v)
    }

    closed spec fn value(&self, v: u32) -> u32 {
        ((self.heu.forward_heuristic.value(v) - self.heu.backward_heuristic.value(v)) / 2
            + self.heu.backward_heuristic.value(self.heu.t) / 2) as u32
    }

    fn lower_bound(&self, v: u32) -> (bound: u32) {
        self.heu.p_f(v)
    }
}

/// The backward potential of a [`ConstantHeuristic`], as a heuristic.
struct BackwardPotential<'h, F: Heuristic, B: Heuristic> {
    heu: &'h ConstantHeuristic<F, B>,
}

impl<'h, F: Heuristic, B: Heuristic> Heuristic for BackwardPotential<'h, F, B> {
    closed spec fn covers(&self, v: u32) -> bool {
        &&& self.heu.forward_heuristic.covers(v)
        &&& self.heu.backward_heuristic.covers(v)
        &&& self.heu.forward_heuristic.covers(self.heu.s)
        &&& self.heu.backward_heuristic.value(v) >= self.heu.forward_heuristic.value(v)
    }

    closed spec fn value(&self, v: u32) -> u32 {
        ((self.heu.backward_heuristic.value(v) - self.heu.forward_heuristic.value(v)) / 2
            + self.heu.forward_heuristic.value(self.heu.s) / 2) as u32
    }

    fn lower_bound(&self, v: u32) -> (bound: u32) {
        self.heu.p_r(v)
    }
}

/// The heuristics suit a bidirectional search from `source` to `target`: on every node that the
/// forward search can reach, both heuristics have values and the forward one is not smaller;
/// on every node that the backward search can reach, both have values and the backward one is
/// not smaller.
pub open spec fn heuristics_fit<F: Heuristic, B: Heuristic>(graph: FastGraph, source: u32, target: u32, forward_heuristic: F, backward_heuristic: B) -> bool {
    &&& forall|v: u32|
        v < graph.num_nodes && #[trigger] graph.forward_edges.reaches(source, v) ==> forward_heuristic.covers(v)
            && backward_heuristic.covers(v) && forward_heuristic.value(v) >= backward_heuristic.value(v)
    &&& forall|v: u32|
        v < graph.num_nodes && #[trigger] graph.backward_edges.reaches(target, v) ==> forward_heuristic.covers(v)
            && backward_heuristic.covers(v) && backward_heuristic.value(v) >= forward_heuristic.value(v)
}

/// A walk of one node reaches that node.
pub proof fn lemma_reaches_self(access: FastEdgeAccess, v: u32)
    ensures
        access.reaches(v, v),
{
    let p = seq![v];
    assert(access.is_walk(p) && p[0] == v && p.last() == v);
}

/// The backward edges of `graph` mirror its forward edges as `Graph::new` builds both from
/// `edges`: for every node, the forward group holds the edges of `edges` that leave it and the
/// backward group the inversions that leave it.
pub open spec fn mirrored(graph: FastGraph, edges: Seq<Edge>) -> bool {
    forall|v: int|
        0 <= v < graph.num_nodes ==> #[trigger] graph.forward_edges.out(v) == fast_edges(leaving(edges, v as u32))
            && graph.backward_edges.out(v) == fast_edges(leaving(inverted_edges(edges), v as u32))
}

/// The inversions of `edges`.
pub open spec fn inverted_edges(edges: Seq<Edge>) -> Seq<Edge> {
    edges.map_values(|e: Edge| e.inverted())
}

/// The fast forms of `edges`.
pub open spec fn fast_edges(edges: Seq<Edge>) -> Seq<crate::routing::fast_graph::FastEdge> {
    edges.map_values(|e: Edge| e.fast())
}

/// In a graph whose backward edges mirror its forward edges, a step of the backward edges from
/// `b` to `a` is a step of the forward edges from `a` to `b`.
pub proof fn lemma_mirrored_step(graph: FastGraph, edges: Seq<Edge>, a: u32, b: u32)
    requires
        mirrored(graph, edges),
        a < graph.num_nodes,
        b < graph.num_nodes,
        graph.backward_edges.step(b, a),
    ensures
        graph.forward_edges.step(a, b),
{
    broadcast use vstd::seq_lib::group_to_multiset_ensures;

    let inv = inverted_edges(edges);
    let i = choose|i: int| 0 <= i < graph.backward_edges.out(b as int).len() && #[trigger] graph.backward_edges.out(b as int)[i].target == a;
    assert(graph.forward_edges.out(b as int) == fast_edges(leaving(edges, b)));
    assert(graph.forward_edges.out(a as int) == fast_edges(leaving(edges, a)));
    assert(graph.backward_edges.out(b as int) == fast_edges(leaving(inv, b)));
    lemma_leaving(inv, b);
    let e2 = leaving(inv, b)[i];
    assert(e2.fast().target == a);
    assert(inv.contains(e2));
    let j = choose|j: int| 0 <= j < inv.len() && inv[j] == e2;
    let e = edges[j];
    assert(inv[j] == e.inverted());
    assert(e.source == a && e.target == b);
    assert(edges.contains(e)) by {
        assert(edges[j] == e);
    }
    lemma_leaving(edges, a);
    assert(count(edges, e) > 0);
    assert(count(leaving(edges, a), e) > 0);
    assert(leaving(edges, a).contains(e));
    let m = choose|m: int| 0 <= m < leaving(edges, a).len() && leaving(edges, a)[m] == e;
    assert(graph.forward_edges.out(a as int)[m] == leaving(edges, a)[m].fast());
    assert(graph.forward_edges.out(a as int)[m].target == b);
}

/// In a graph whose backward edges mirror its forward edges, an edge of the forward edges from
/// `a` to `b` is mirrored by an edge of the backward edges from `b` to `a` of the same cost.
pub proof fn lemma_mirrored_edge(graph: FastGraph, edges: Seq<Edge>, a: u32, i: int)
    requires
        mirrored(graph, edges),
        graph.wf(),
        a < graph.num_nodes,
        0 <= i < graph.forward_edges.out(a as int).len(),
    ensures
        ({
            let e = graph.forward_edges.out(a as int)[i];
            exists|j: int|
                0 <= j < graph.backward_edges.out(e.target as int).len() && #[trigger] graph.backward_edges.out(e.target as int)[j]
                    == (FastEdge { target: a, cost: e.cost })
        }),
{
    broadcast use vstd::seq_lib::group_to_multiset_ensures;

    let inv = inverted_edges(edges);
    let fe = graph.forward_edges.out(a as int)[i];
    let b = fe.target;
    assert(b < graph.num_nodes);
    assert(graph.forward_edges.out(a as int) == fast_edges(leaving(edges, a)));
    assert(graph.forward_edges.out(b as int) == fast_edges(leaving(edges, b)));
    assert(graph.backward_edges.out(b as int) == fast_edges(leaving(inv, b)));
    lemma_leaving(edges, a);
    let e = leaving(edges, a)[i];
    assert(e.fast() == fe);
    assert(edges.contains(e));
    let k = choose|k: int| 0 <= k < edges.len() && edges[k] == e;
    let e2 = e.inverted();
    assert(inv[k] == e2);
    assert(inv.contains(e2));
    lemma_leaving(inv, b);
    assert(count(inv, e2) > 0);
    assert(count(leaving(inv, b), e2) > 0);
    assert(leaving(inv, b).contains(e2));
    let m = choose|m: int| 0 <= m < leaving(inv, b).len() && leaving(inv, b)[m] == e2;
    assert(graph.backward_edges.out(b as int)[m] == e2.fast());
    assert(e2.fast() == (FastEdge { target: a, cost: fe.cost }));
}

/// In a graph whose backward edges mirror its forward edges, a walk of the forward edges,
/// travelled backwards, is a walk of the backward edges of the same cost.
pub proof fn lemma_reversed_walk(graph: FastGraph, edges: Seq<Edge>, p: Seq<u32>, ix: Seq<int>)
    requires
        mirrored(graph, edges),
        graph.wf(),
        indexed_walk(graph.forward_edges, p, ix),
        p[0] < graph.num_nodes,
    ensures
        exists|jx: Seq<int>|
            #[trigger] indexed_walk(graph.backward_edges, p.reverse(), jx) && indexed_cost(graph.backward_edges, p.reverse(), jx)
                == indexed_cost(graph.forward_edges, p, ix),
    decreases ix.len(),
{
    let fa = graph.forward_edges;
    let ba = graph.backward_edges;
    crate::routing::shortest::lemma_walk_nodes(fa, graph.num_nodes as nat, p, ix);
    if ix.len() == 0 {
        assert(p.reverse() =~= p);
        assert(indexed_walk(ba, p.reverse(), ix));
    } else {
        let q = p.drop_first();
        let qx = ix.drop_first();
        assert forall|k: int| 0 <= k < qx.len() implies 0 <= #[trigger] qx[k] < fa.out(q[k] as int).len() && fa.out(q[k] as int)[qx[k]].target
            == q[k + 1] by {
            assert(qx[k] == ix[k + 1] && q[k] == p[k + 1] && q[k + 1] == p[k + 2]);
        }
        assert(indexed_walk(fa, q, qx));
        assert(q[0] == p[1]);
        assert(p[1] < graph.num_nodes);
        lemma_reversed_walk(graph, edges, q, qx);
        let jx = choose|jx: Seq<int>| #[trigger] indexed_walk(ba, q.reverse(), jx) && indexed_cost(ba, q.reverse(), jx) == indexed_cost(fa, q, qx);
        lemma_mirrored_edge(graph, edges, p[0], ix[0]);
        let fe = fa.out(p[0] as int)[ix[0]];
        assert(fe.target == p[1]);
        let j = choose|j: int| 0 <= j < ba.out(fe.target as int).len() && #[trigger] ba.out(fe.target as int)[j] == (FastEdge { target: p[0], cost: fe.cost });
        let r = q.reverse();
        let one = seq![p[1], p[0]];
        let ox = seq![j];
        assert(indexed_walk(ba, one, ox));
        assert(r.last() == p[1]);
        crate::routing::shortest::lemma_walk_concat(ba, r, jx, one, ox);
        assert(r + one.drop_first() =~= p.reverse());
        assert(indexed_cost(ba, one, ox) == fe.cost) by {
            assert(ox.drop_last().len() == 0);
            assert(one.drop_last() =~= seq![p[1]]);
            assert(indexed_cost(ba, one.drop_last(), ox.drop_last()) == 0);
            assert(one[ox.len() - 1] == p[1]);
            assert(ox.last() == j);
        }
        // the forward cost splits into the first edge and the rest
        crate::routing::shortest::lemma_walk_split(fa, p, ix, 1);
        assert(p.skip(1) =~= q);
        assert(ix.skip(1) =~= qx);
        assert(indexed_cost(fa, p.take(2), ix.take(1)) == fe.cost) by {
            crate::routing::shortest::lemma_walk_split(fa, p, ix, 0);
            assert(ix.take(0).len() == 0);
        }
        assert(indexed_walk(ba, p.reverse(), jx + ox));
    }
}

/// A graph whose backward edges mirror its forward edges, with the two groupings swapped,
/// mirrors the inversions of the edges.
pub proof fn lemma_swap_mirrored(graph: FastGraph, edges: Seq<Edge>)
    requires
        mirrored(graph, edges),
        graph.wf(),
    ensures
        mirrored(FastGraph { num_nodes: graph.num_nodes, forward_edges: graph.backward_edges, backward_edges: graph.forward_edges }, inverted_edges(edges)),
        (FastGraph { num_nodes: graph.num_nodes, forward_edges: graph.backward_edges, backward_edges: graph.forward_edges }).wf(),
{
    assert(inverted_edges(inverted_edges(edges)) =~= edges);
    let swapped = FastGraph { num_nodes: graph.num_nodes, forward_edges: graph.backward_edges, backward_edges: graph.forward_edges };
    assert forall|v: int| 0 <= v < swapped.num_nodes implies #[trigger] swapped.forward_edges.out(v) == fast_edges(
        leaving(inverted_edges(edges), v as u32),
    ) && swapped.backward_edges.out(v) == fast_edges(leaving(inverted_edges(inverted_edges(edges)), v as u32)) by {
        assert(graph.forward_edges.out(v) == fast_edges(leaving(edges, v as u32)));
    }
}

/// In a graph whose backward edges mirror its forward edges, a walk of the backward edges,
/// travelled backwards, is a walk of the forward edges of the same cost.
pub proof fn lemma_reversed_back_walk(graph: FastGraph, edges: Seq<Edge>, p: Seq<u32>, ix: Seq<int>)
    requires
        mirrored(graph, edges),
        graph.wf(),
        indexed_walk(graph.backward_edges, p, ix),
        p[0] < graph.num_nodes,
    ensures
        exists|jx: Seq<int>|
            #[trigger] indexed_walk(graph.forward_edges, p.reverse(), jx) && indexed_cost(graph.forward_edges, p.reverse(), jx)
                == indexed_cost(graph.backward_edges, p, ix),
{
    let swapped = FastGraph { num_nodes: graph.num_nodes, forward_edges: graph.backward_edges, backward_edges: graph.forward_edges };
    lemma_swap_mirrored(graph, edges);
    lemma_reversed_walk(swapped, inverted_edges(edges), p, ix);
}

/// In a graph whose backward edges mirror its forward edges, a meeting below `u32::MAX` of a
/// forward walk from `source` and a backward walk from `target` is the cost of a walk of the
/// forward edges from `source` to `target`.
pub proof fn lemma_meeting_walk(graph: FastGraph, edges: Seq<Edge>, source: u32, target: u32, route: Option<Route>)
    requires
        mirrored(graph, edges),
        graph.wf(),
        target < graph.num_nodes,
        meeting_realized(graph.forward_edges, graph.backward_edges, source, target, route),
    ensures
        route matches Some(r) ==> (r.cost < u32::MAX ==> walk_costs(graph.forward_edges, source, target, r.cost as int)),
{
    if route is Some && route->0.cost < u32::MAX {
        let r = route->0;
        let (c, a, b) = choose|c: u32, a: int, b: int|
            #[trigger] walk_costs(graph.forward_edges, source, c, a) && #[trigger] walk_costs(graph.backward_edges, target, c, b) && a + b
                == r.cost;
        let am = choose|m: int| #[trigger] costs_walk(graph.forward_edges, source, c, a, m);
        let (p1, x1) = choose|p: Seq<u32>, x: Seq<int>|
            #[trigger] indexed_walk(graph.forward_edges, p, x) && p[0] == source && p.last() == c && x.len() <= am && indexed_cost(
                graph.forward_edges,
                p,
                x,
            ) == a;
        let bm = choose|m: int| #[trigger] costs_walk(graph.backward_edges, target, c, b, m);
        let (p2, x2) = choose|p: Seq<u32>, x: Seq<int>|
            #[trigger] indexed_walk(graph.backward_edges, p, x) && p[0] == target && p.last() == c && x.len() <= bm && indexed_cost(
                graph.backward_edges,
                p,
                x,
            ) == b;
        lemma_reversed_back_walk(graph, edges, p2, x2);
        let y2 = choose|jx: Seq<int>| #[trigger] indexed_walk(graph.forward_edges, p2.reverse(), jx) && indexed_cost(graph.forward_edges, p2.reverse(), jx)
            == indexed_cost(graph.backward_edges, p2, x2);
        let q = p2.reverse();
        assert(q[0] == c);
        assert(q.last() == target);
        crate::routing::shortest::lemma_walk_concat(graph.forward_edges, p1, x1, q, y2);
        assert(costs_walk(graph.forward_edges, source, target, r.cost as int, (x1 + y2).len() as int));
    }
}

/// In a graph whose backward edges mirror its forward edges, the route where a forward and a
/// backward search meet is a walk of the forward edges.
pub proof fn lemma_joined_route_is_walk(graph: FastGraph, edges: Seq<Edge>, p: Seq<u32>)
    requires
        mirrored(graph, edges),
        forall|k: int| 0 <= k < p.len() ==> #[trigger] p[k] < graph.num_nodes,
        bi_walk(graph.forward_edges, graph.backward_edges, p),
    ensures
        graph.forward_edges.is_walk(p),
{
    let split = choose|split: int|
        0 <= split < p.len() && #[trigger] graph.forward_edges.is_walk(p.take(split + 1)) && forall|k: int|
            split <= k < p.len() - 1 ==> #[trigger] graph.backward_edges.step(p[k + 1], p[k]);
    assert forall|k: int| 0 <= k < p.len() - 1 implies #[trigger] graph.forward_edges.step(p[k], p[k + 1]) by {
        if k < split {
            let q = p.take(split + 1);
            assert(graph.forward_edges.step(q[k], q[k + 1]));
            assert(q[k] == p[k] && q[k + 1] == p[k + 1]);
        } else {
            assert(graph.backward_edges.step(p[k + 1], p[k]));
            lemma_mirrored_step(graph, edges, p[k], p[k + 1]);
        }
    }
}

/// Bidirectional A* over a graph.
pub struct BiAStar<'a> {
    pub graph: &'a FastGraph,
}

impl<'a> BiAStar<'a> {
    pub fn new(graph: &'a FastGraph) -> (search: BiAStar<'a>)
        ensures
            search.graph == graph,
    {
        BiAStar { graph }
    }

    /// Runs both searches from fresh data and answers with the route where they meet best and
    /// the data of the forward and of the backward search.
    pub fn get_data<F: Heuristic, B: Heuristic>(&self, request: &RouteRequest, forward_heuristic: F, backward_heuristic: B) -> (response: RouteResponse)
        requires
            self.graph.wf(),
            request.source < self.graph.num_nodes,
            request.target < self.graph.num_nodes,
            heuristics_fit(*self.graph, request.source, request.target, forward_heuristic, backward_heuristic),
        ensures
            response.data@.len() == 2,
            full_search(self.graph.forward_edges, self.graph.num_nodes as nat, request.source, response.data@[0]),
            full_search(self.graph.backward_edges, self.graph.num_nodes as nat, request.target, response.data@[1]),
            joined_route(
                self.graph.forward_edges,
                self.graph.backward_edges,
                request.source,
                request.target,
                response.data@[0].nodes@,
                response.data@[1].nodes@,
                response.route,
            ),
            zero_valued(&forward_heuristic, self.graph.num_nodes as nat) && zero_valued(&backward_heuristic, self.graph.num_nodes as nat)
                && short_edges(self.graph.forward_edges, self.graph.num_nodes as nat) ==> no_cheaper_route(
                self.graph.forward_edges,
                request.source,
                request.target,
                response.route,
            ),
            zero_valued(&forward_heuristic, self.graph.num_nodes as nat) && zero_valued(&backward_heuristic, self.graph.num_nodes as nat)
                && short_edges(self.graph.forward_edges, self.graph.num_nodes as nat) && short_edges(
                self.graph.backward_edges,
                self.graph.num_nodes as nat,
            ) ==> meeting_realized(self.graph.forward_edges, self.graph.backward_edges, request.source, request.target, response.route),
    {
        let mut forward_data = DijkstraData::new(self.graph.num_nodes as usize, request.source);
        let mut backward_data = DijkstraData::new(self.graph.num_nodes as usize, request.target);
        let route = self.get_route(request, forward_heuristic, backward_heuristic, &mut forward_data, &mut backward_data);
        let mut data = Vec::new();
        data.push(forward_data);
        data.push(backward_data);
        RouteResponse { route, data }
    }

    /// Runs a forward search from the source over the outgoing edges and a backward search
    /// from the target over the incoming edges, one step of each in turn, until neither has a
    /// node left to expand, and returns the route where they meet best. With zero heuristics and
    /// short edges, no walk from the source to the target is cheaper than that route, and it is
    /// met at its node.
    pub fn get_route<F: Heuristic, B: Heuristic>(
        &self,
        request: &RouteRequest,
        forward_heuristic: F,
        backward_heuristic: B,
        forward_data: &mut DijkstraData,
        backward_data: &mut DijkstraData,
    ) -> (route: Option<Route>)
        requires
            self.graph.wf(),
            request.source < self.graph.num_nodes,
            request.target < self.graph.num_nodes,
            fresh_start(*old(forward_data), self.graph.num_nodes as nat, request.source),
            fresh_start(*old(backward_data), self.graph.num_nodes as nat, request.target),
            heuristics_fit(*self.graph, request.source, request.target, forward_heuristic, backward_heuristic),
        ensures
            full_search(self.graph.forward_edges, self.graph.num_nodes as nat, request.source, *final(forward_data)),
            full_search(self.graph.backward_edges, self.graph.num_nodes as nat, request.target, *final(backward_data)),
            joined_route(
                self.graph.forward_edges,
                self.graph.backward_edges,
                request.source,
                request.target,
                final(forward_data).nodes@,
                final(backward_data).nodes@,
                route,
            ),
            zero_valued(&forward_heuristic, self.graph.num_nodes as nat) && zero_valued(&backward_heuristic, self.graph.num_nodes as nat)
                && short_edges(self.graph.forward_edges, self.graph.num_nodes as nat) ==> no_cheaper_route(
                self.graph.forward_edges,
                request.source,
                request.target,
                route,
            ),
            zero_valued(&forward_heuristic, self.graph.num_nodes as nat) && zero_valued(&backward_heuristic, self.graph.num_nodes as nat)
                && short_edges(self.graph.forward_edges, self.graph.num_nodes as nat) && short_edges(
                self.graph.backward_edges,
                self.graph.num_nodes as nat,
            ) ==> meeting_realized(self.graph.forward_edges, self.graph.backward_edges, request.source, request.target, route),
    {
        let n = self.graph.num_nodes;
        let s = request.source;
        let t = request.target;
        let ghost fa = self.graph.forward_edges;
        let ghost ba = self.graph.backward_edges;
        let heu = ConstantHeuristic { forward_heuristic, backward_heuristic, s, t };
        let fp = ForwardPotential { heu: &heu };
        let bp = BackwardPotential { heu: &heu };
        proof {
            lemma_fresh_start(fa, *forward_data, n as nat, s);
            lemma_fresh_start(ba, *backward_data, n as nat, t);
            lemma_reaches_self(fa, s);
            lemma_reaches_self(ba, t);
            assert forall|v: u32| v < n && fa.reaches(s, v) implies #[trigger] fp.covers(v) by {
                assert(ba.reaches(t, t));
            }
            assert forall|v: u32| v < n && ba.reaches(t, v) implies #[trigger] bp.covers(v) by {
                assert(fa.reaches(s, s));
            }
        }
        let ghost mut fst = zero_stamps(n as nat);
        let ghost mut fclock: nat = 1;
        let ghost mut bst = zero_stamps(n as nat);
        let ghost mut bclock: nat = 1;
        let ghost in_order = zero_valued(&forward_heuristic, n as nat) && zero_valued(&backward_heuristic, n as nat) && short_edges(
            fa,
            n as nat,
        );
        let ghost mut flast: int = 0;
        let ghost mut fdone = false;
        let ghost back_order = zero_valued(&forward_heuristic, n as nat) && zero_valued(&backward_heuristic, n as nat) && short_edges(
            ba,
            n as nat,
        );
        let ghost mut blast: int = 0;
        let ghost mut bdone = false;
        proof {
            lemma_order_start(fa, *forward_data, n as nat, s);
            lemma_order_start(ba, *backward_data, n as nat, t);
            super::a_star::lemma_keyed_start(*forward_data, n as nat, s, |v: u32| fp.value(v));
            super::a_star::lemma_keyed_start(*backward_data, n as nat, t, |v: u32| bp.value(v));
            if in_order {
                assert forall|v: u32| v < n implies #[trigger] fp.value(v) == 0 by {
                    assert(forward_heuristic.value(v) == 0);
                    assert(backward_heuristic.value(v) == 0);
                    assert(backward_heuristic.value(t) == 0);
                }
            }
            if back_order {
                assert forall|v: u32| v < n implies #[trigger] bp.value(v) == 0 by {
                    assert(forward_heuristic.value(v) == 0);
                    assert(backward_heuristic.value(v) == 0);
                    assert(forward_heuristic.value(s) == 0);
                }
            }
        }
        loop
            invariant
                back_order == (zero_valued(&forward_heuristic, n as nat) && zero_valued(&backward_heuristic, n as nat) && short_edges(
                    ba,
                    n as nat,
                )),
                back_order ==> zero_valued(&bp, n as nat),
                back_order && !bdone ==> order_inv(ba, backward_data.nodes@, backward_data.queue@, t, blast, -1, 0),
                back_order && bdone ==> shortest_labels(ba, backward_data.nodes@, t) && forall|x: State| !in_buckets(
                    backward_data.queue@.1,
                    x,
                ),
                in_order == (zero_valued(&forward_heuristic, n as nat) && zero_valued(&backward_heuristic, n as nat) && short_edges(
                    fa,
                    n as nat,
                )),
                in_order ==> zero_valued(&fp, n as nat),
                in_order && !fdone ==> order_inv(fa, forward_data.nodes@, forward_data.queue@, s, flast, -1, 0),
                in_order && fdone ==> shortest_labels(fa, forward_data.nodes@, s) && forall|x: State| !in_buckets(forward_data.queue@.1, x),
                self.graph.wf(),
                n == self.graph.num_nodes,
                fa == self.graph.forward_edges,
                ba == self.graph.backward_edges,
                s < n,
                t < n,
                forward_data.wf(),
                backward_data.wf(),
                forward_data.nodes@.len() == n,
                backward_data.nodes@.len() == n,
                search_inv(fa, forward_data.nodes@, forward_data.queue@, s, fst, fclock),
                bound_inv(fa, forward_data.nodes@, -1, 0),
                search_inv(ba, backward_data.nodes@, backward_data.queue@, t, bst, bclock),
                bound_inv(ba, backward_data.nodes@, -1, 0),
                forall|v: u32| v < n && fa.reaches(s, v) ==> #[trigger] fp.covers(v),
                forall|v: u32| v < n && ba.reaches(t, v) ==> #[trigger] bp.covers(v),
                super::a_star::queued_by_estimate(forward_data.nodes@, forward_data.queue@.1, s, |v: u32| fp.value(v)),
                super::a_star::queued_by_estimate(backward_data.nodes@, backward_data.queue@.1, t, |v: u32| bp.value(v)),
            ensures
                full_search(fa, n as nat, s, *forward_data),
                full_search(ba, n as nat, t, *backward_data),
                in_order ==> shortest_labels(fa, forward_data.nodes@, s),
                back_order ==> shortest_labels(ba, backward_data.nodes@, t),
            decreases 2 * (n as int) - count_expanded(forward_data.nodes@) - count_expanded(backward_data.nodes@),
        {
            let ghost cf0 = count_expanded(forward_data.nodes@);
            let ghost cb0 = count_expanded(backward_data.nodes@);
            proof {
                lemma_after_pop(fa, forward_data.nodes@, forward_data.queue@, s, fst, fclock);
                lemma_fresh_pop(forward_data.queue@, forward_data.nodes@);
                lemma_count_expanded_bound(forward_data.nodes@);
                lemma_count_expanded_bound(backward_data.nodes@);
                if in_order && !fdone {
                    lemma_order_pop(fa, forward_data.nodes@, forward_data.queue@, s, fst, fclock, flast);
                }
            }
            let ghost fnodes0 = forward_data.nodes@;
            let ghost fq0 = forward_data.queue@;
            let ghost fst0 = fst;
            let ghost fclock0 = fclock;
            let ghost flast0 = flast;
            let forward_state = forward_data.pop();
            proof {
                super::a_star::lemma_keyed_pop(
                    fa,
                    fnodes0,
                    fq0,
                    forward_data.nodes@,
                    forward_data.queue@,
                    forward_state,
                    s,
                    fst0,
                    fclock0,
                    |v: u32| fp.value(v),
                );
            }
            assert(forward_state is Some ==> count_expanded(forward_data.nodes@) == cf0 + 1);
            assert(forward_state is None ==> count_expanded(forward_data.nodes@) == cf0);
            if let Some(state) = forward_state {
                let ghost key = state.key as int;
                let r = expand(
                    &self.graph.forward_edges,
                    n,
                    forward_data,
                    state.value,
                    &fp,
                    Ghost(s),
                    Ghost(fst),
                    Ghost(fclock),
                    Ghost(in_order),
                    Ghost(key),
                );
                proof {
                    fst = r@.0;
                    fclock = r@.1;
                    flast = key;
                }
            } else {
                proof {
                    if in_order && !fdone {
                        lemma_shortest_labels(fa, fnodes0, s, fst0, fclock0, flast0);
                        fdone = true;
                    }
                }
            }
            proof {
                lemma_after_pop(ba, backward_data.nodes@, backward_data.queue@, t, bst, bclock);
                lemma_fresh_pop(backward_data.queue@, backward_data.nodes@);
                lemma_count_expanded_bound(forward_data.nodes@);
                lemma_count_expanded_bound(backward_data.nodes@);
                if back_order && !bdone {
                    lemma_order_pop(ba, backward_data.nodes@, backward_data.queue@, t, bst, bclock, blast);
                }
            }
            let ghost cf1 = count_expanded(forward_data.nodes@);
            let ghost bnodes0 = backward_data.nodes@;
            let ghost bq0 = backward_data.queue@;
            let ghost bst0 = bst;
            let ghost bclock0 = bclock;
            let ghost blast0 = blast;
            let backward_state = backward_data.pop();
            proof {
                super::a_star::lemma_keyed_pop(
                    ba,
                    bnodes0,
                    bq0,
                    backward_data.nodes@,
                    backward_data.queue@,
                    backward_state,
                    t,
                    bst0,
                    bclock0,
                    |v: u32| bp.value(v),
                );
            }
            assert(backward_state is Some ==> count_expanded(backward_data.nodes@) == cb0 + 1);
            assert(backward_state is None ==> count_expanded(backward_data.nodes@) == cb0);
            if let Some(state) = backward_state {
                let ghost key = state.key as int;
                let r = expand(
                    &self.graph.backward_edges,
                    n,
                    backward_data,
                    state.value,
                    &bp,
                    Ghost(t),
                    Ghost(bst),
                    Ghost(bclock),
                    Ghost(back_order),
                    Ghost(key),
                );
                proof {
                    bst = r@.0;
                    bclock = r@.1;
                    blast = key;
                }
            } else {
                proof {
                    if back_order && !bdone {
                        lemma_shortest_labels(ba, bnodes0, t, bst0, bclock0, blast0);
                        bdone = true;
                    }
                }
            }
            if forward_state.is_none() && backward_state.is_none() {
                proof {
                    lemma_search_end(fa, forward_data.nodes@, forward_data.queue@, s, fst, fclock);
                    lemma_search_end(ba, backward_data.nodes@, backward_data.queue@, t, bst, bclock);
                }
                break;
            }
            proof {
                lemma_count_expanded_bound(forward_data.nodes@);
                lemma_count_expanded_bound(backward_data.nodes@);
            }
        }
        let route = construct_route(u32::MAX, forward_data, backward_data, Ghost(fa), Ghost(ba), Ghost(s), Ghost(t));
        proof {
            if in_order {
                lemma_meeting_bound(fa, forward_data.nodes@, backward_data.nodes@, s, t, route);
            }
            if in_order && back_order {
                lemma_meeting_realized(fa, ba, forward_data.nodes@, backward_data.nodes@, s, t, route);
            }
        }
        route
    }
}

/// The cost of a route below `u32::MAX` is met at some node: a walk of `forward` from `source`
/// to it and a walk of `backward` from `target` to it cost the route's cost together.
pub open spec fn meeting_realized(forward: FastEdgeAccess, backward: FastEdgeAccess, source: u32, target: u32, route: Option<Route>) -> bool {
    match route {
        Some(r) => r.cost < u32::MAX ==> (exists|c: u32, a: int, b: int|
            #[trigger] walk_costs(forward, source, c, a) && #[trigger] walk_costs(backward, target, c, b) && a + b == r.cost)
            && walked_at_cost(forward, backward, r),
        None => true,
    }
}

/// Walking the nodes of `r` costs what `r` says: up to some node they are a walk of `forward`,
/// from it on a walk of `backward` travelled against its edges, and the edges taken cost `r.cost`
/// together.
pub open spec fn walked_at_cost(forward: FastEdgeAccess, backward: FastEdgeAccess, r: Route) -> bool {
    exists|split: int, ix: Seq<int>, jx: Seq<int>|
        0 <= split < r.nodes@.len() && #[trigger] indexed_walk(forward, r.nodes@.take(split + 1), ix) && #[trigger] indexed_walk(
            backward,
            r.nodes@.skip(split).reverse(),
            jx,
        ) && indexed_cost(forward, r.nodes@.take(split + 1), ix) + indexed_cost(backward, r.nodes@.skip(split).reverse(), jx) == r.cost
}

/// `c` is the first of the first `n` nodes with the smallest contact key among them.
pub open spec fn first_min_below(f: Seq<DijsktraEntry>, b: Seq<DijsktraEntry>, c: int, n: int) -> bool {
    &&& 0 <= c < n
    &&& forall|v: int| 0 <= v < c ==> #[trigger] contact_key(f, b, v) > contact_key(f, b, c)
    &&& forall|v: int| 0 <= v < n ==> #[trigger] contact_key(f, b, v) >= contact_key(f, b, c)
}

/// Among the first `n` nodes there is a first one with the smallest contact key.
proof fn lemma_first_min_prefix(f: Seq<DijsktraEntry>, b: Seq<DijsktraEntry>, n: int)
    requires
        0 < n <= f.len(),
        f.len() == b.len(),
    ensures
        exists|c: int| #[trigger] first_min_below(f, b, c, n),
    decreases n,
{
    if n > 1 {
        lemma_first_min_prefix(f, b, n - 1);
        let c = choose|c: int| #[trigger] first_min_below(f, b, c, n - 1);
        if contact_key(f, b, n - 1) < contact_key(f, b, c) {
            assert forall|v: int| 0 <= v < n - 1 implies #[trigger] contact_key(f, b, v) > contact_key(f, b, n - 1) by {
                assert(contact_key(f, b, v) >= contact_key(f, b, c));
            }
            assert(first_min_below(f, b, n - 1, n));
        } else {
            assert(first_min_below(f, b, c, n));
        }
    } else {
        assert(first_min_below(f, b, 0, n));
    }
}

/// Two non-empty searches over the same nodes have a node where they meet best.
proof fn lemma_contact_exists(f: Seq<DijsktraEntry>, b: Seq<DijsktraEntry>)
    requires
        0 < f.len(),
        f.len() == b.len(),
    ensures
        exists|c: int| is_contact(f, b, c),
{
    lemma_first_min_prefix(f, b, f.len() as int);
    let c = choose|c: int| #[trigger] first_min_below(f, b, c, f.len() as int);
    assert(is_contact(f, b, c));
}

/// The route where two searches meet best is walked at its cost: where the predecessor chain of
/// every reached node, in both searches, is a walk that costs the node's label, the nodes of the
/// joined route are a forward walk to the meeting node and a backward walk from it whose edges
/// cost the route's cost together.
pub proof fn lemma_joined_route_walked(
    forward: FastEdgeAccess,
    backward: FastEdgeAccess,
    f: Seq<DijsktraEntry>,
    b: Seq<DijsktraEntry>,
    source: u32,
    target: u32,
    route: Option<Route>,
)
    requires
        forall|v: u32| v < f.len() && f[v as int].cost != u32::MAX ==> #[trigger] chain_costs(forward, f, source, v),
        forall|v: u32| v < b.len() && b[v as int].cost != u32::MAX ==> #[trigger] chain_costs(backward, b, target, v),
        f.len() == b.len(),
        0 < f.len() <= u32::MAX,
        joined_route(forward, backward, source, target, f, b, route),
    ensures
        route matches Some(r) ==> (r.cost < u32::MAX ==> walked_at_cost(forward, backward, r)),
{
    lemma_contact_exists(f, b);
    lemma_meeting_realized(forward, backward, f, b, source, target, route);
}

/// Where the predecessor chains of both searches are walks that cost the labels, the route where
/// they meet best is met at its node.
pub(crate) proof fn lemma_meeting_realized(
    forward: FastEdgeAccess,
    backward: FastEdgeAccess,
    f: Seq<DijsktraEntry>,
    b: Seq<DijsktraEntry>,
    source: u32,
    target: u32,
    route: Option<Route>,
)
    requires
        forall|v: u32| v < f.len() && f[v as int].cost != u32::MAX ==> #[trigger] chain_costs(forward, f, source, v),
        forall|v: u32| v < b.len() && b[v as int].cost != u32::MAX ==> #[trigger] chain_costs(backward, b, target, v),
        f.len() == b.len(),
        f.len() <= u32::MAX,
        route is Some == (f[(choose|c: int| is_contact(f, b, c))].cost != u32::MAX && b[(choose|c: int| is_contact(f, b, c))].cost != u32::MAX),
        route matches Some(r) ==> r.cost == contact_key(f, b, choose|c: int| is_contact(f, b, c)),
        route matches Some(r) ==> r.nodes@ == joined_chains(f, b, (choose|c: int| is_contact(f, b, c)) as u32),
        exists|c: int| is_contact(f, b, c),
    ensures
        meeting_realized(forward, backward, source, target, route),
{
    let c = choose|c: int| is_contact(f, b, c);
    if route is Some && route->0.cost < u32::MAX {
        let v = c as u32;
        assert(0 <= c < f.len());
        assert(v as int == c);
        assert(f[v as int].cost != u32::MAX && b[v as int].cost != u32::MAX);
        assert(chain_costs(forward, f, source, v));
        assert(chain_costs(backward, b, target, v));
        let (k1, ix1) = choose|k: nat, ix: Seq<int>|
            #[trigger] chain_ends(f, v, k) && #[trigger] indexed_walk(forward, chain_route(f, v, k), ix) && chain_route(f, v, k)[0] == source
                && indexed_cost(forward, chain_route(f, v, k), ix) == f[v as int].cost;
        let (k2, ix2) = choose|k: nat, ix: Seq<int>|
            #[trigger] chain_ends(b, v, k) && #[trigger] indexed_walk(backward, chain_route(b, v, k), ix) && chain_route(b, v, k)[0] == target
                && indexed_cost(backward, chain_route(b, v, k), ix) == b[v as int].cost;
        assert(chain_route(f, v, k1).last() == v);
        assert(chain_route(b, v, k2).last() == v);
        assert(costs_walk(forward, source, v, f[v as int].cost as int, ix1.len() as int));
        assert(costs_walk(backward, target, v, b[v as int].cost as int, ix2.len() as int));
        assert(walk_costs(forward, source, v, f[v as int].cost as int));
        assert(walk_costs(backward, target, v, b[v as int].cost as int));
        let r = route->0;
        let kf = choose|k: nat| #[trigger] chain_ends(f, v, k);
        let kb = choose|k: nat| #[trigger] chain_ends(b, v, k);
        lemma_chain_ends_unique(f, v, k1, kf);
        lemma_chain_ends_unique(b, v, k2, kb);
        let a1 = chain_route(f, v, k1);
        let b1 = chain_route(b, v, k2);
        let split = k1 as int;
        assert(r.nodes@ == a1 + b1.reverse().drop_first());
        assert(r.nodes@.take(split + 1) =~= a1);
        assert(b1.reverse()[0] == v);
        assert(r.nodes@.skip(split) =~= b1.reverse()) by {
            assert(a1.last() == v);
        }
        assert(r.nodes@.skip(split).reverse() =~= b1);
        assert(f[v as int].cost + b[v as int].cost < u32::MAX);
        assert(walked_at_cost(forward, backward, r));
    }
}

/// Where the forward labels are shortest and the backward search starts at `target` with cost
/// 0, no walk from `source` to `target` is cheaper than the route where the searches meet best.
proof fn lemma_meeting_bound(
    forward: FastEdgeAccess,
    f: Seq<DijsktraEntry>,
    b: Seq<DijsktraEntry>,
    source: u32,
    target: u32,
    route: Option<Route>,
)
    requires
        shortest_labels(forward, f, source),
        target < f.len(),
        f.len() == b.len(),
        b[target as int].cost == 0,
        route is Some == (f[(choose|c: int| is_contact(f, b, c))].cost != u32::MAX && b[(choose|c: int| is_contact(f, b, c))].cost != u32::MAX),
        route matches Some(r) ==> r.cost == contact_key(f, b, choose|c: int| is_contact(f, b, c)),
        exists|c: int| is_contact(f, b, c),
    ensures
        no_cheaper_route(forward, source, target, route),
{
    let c = choose|c: int| is_contact(f, b, c);
    assert(contact_key(f, b, target as int) >= contact_key(f, b, c));
    assert forall|p: Seq<u32>, ix: Seq<int>|
        #[trigger] indexed_walk(forward, p, ix) && p[0] == source && p.last() == target implies indexed_cost(forward, p, ix) >= match route {
            Some(r) => r.cost as int,
            None => u32::MAX as int,
        } by {
        assert(f[target as int].cost <= indexed_cost(forward, p, ix));
    }
}

impl DijkstraData {
    /// The route of `target` for data whose reached nodes are backed by walks from `source`:
    /// `None` when `target` is unreached, and otherwise a walk from `source` to `target` with the
    /// cost of `target`.
    pub(crate) fn get_route_backed(&self, target: u32, Ghost(access): Ghost<FastEdgeAccess>, Ghost(source): Ghost<u32>) -> (route: Option<Route>)
        requires
            target < self.nodes@.len(),
            labels_backed(access, self.nodes@, source),
        ensures
            (route is Some) == (self.nodes@[target as int].cost != u32::MAX),
            route matches Some(r) ==> r.walks(access, source, target) && r.cost == self.nodes@[target as int].cost,
            route matches Some(r) ==> r.nodes@ == chain_route(self.nodes@, target, choose|k: nat| #[trigger] chain_ends(self.nodes@, target, k)),
    {
        super::dijkstra::backed_route_ghost(Ghost(access), self, Ghost(source), target)
    }
}

} // verus!

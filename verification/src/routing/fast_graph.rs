//! Graphs whose edges are stored in one array, grouped by source node.
use vstd::prelude::*;

use super::graph::{leaving, Edge};
use super::naive_graph::NaiveGraph;

verus! {

/// An edge stored in the list of its source: its target and its cost.
#[derive(Clone, Copy, PartialEq, Eq, Structural, Debug)]
pub struct FastEdge {
    pub target: u32,
    pub cost: u32,
}

/// The number of edges of `s` that leave a node below `v`.
pub open spec fn count_below(s: Seq<Edge>, v: int) -> nat
    decreases s.len(),
{
    if s.len() == 0 {
        0
    } else {
        count_below(s.drop_last(), v) + if s.last().source < v {
            1nat
        } else {
            0nat
        }
    }
}

pub proof fn lemma_count_below_step(s: Seq<Edge>, v: int)
    requires
        0 <= v <= u32::MAX,
    ensures
        count_below(s, v + 1) == count_below(s, v) + leaving(s, v as u32).len(),
        count_below(s, v) <= count_below(s, v + 1),
    decreases s.len(),
{
    if s.len() > 0 {
        lemma_count_below_step(s.drop_last(), v);
    }
}

pub proof fn lemma_count_below_all(s: Seq<Edge>, v: int)
    requires
        forall|i: int| 0 <= i < s.len() ==> (#[trigger] s[i]).source < v,
    ensures
        count_below(s, v) == s.len(),
    decreases s.len(),
{
    if s.len() > 0 {
        assert forall|i: int| 0 <= i < s.drop_last().len() implies (#[trigger] s.drop_last()[i]).source < v by {
            assert(s.drop_last()[i] == s[i]);
        }
        lemma_count_below_all(s.drop_last(), v);
    }
}

pub proof fn lemma_count_below_zero(s: Seq<Edge>)
    ensures
        count_below(s, 0) == 0,
    decreases s.len(),
{
    if s.len() > 0 {
        lemma_count_below_zero(s.drop_last());
    }
}

pub proof fn lemma_count_below_mono(s: Seq<Edge>, v: int, w: int)
    requires
        0 <= v <= w <= u32::MAX,
    ensures
        count_below(s, v) <= count_below(s, w),
    decreases w - v,
{
    if v < w {
        lemma_count_below_step(s, v);
        lemma_count_below_mono(s, v + 1, w);
    }
}

/// A prefix has no more edges leaving `v` than the whole sequence.
pub proof fn lemma_leaving_prefix(s: Seq<Edge>, i: int, v: u32)
    requires
        0 <= i <= s.len(),
    ensures
        leaving(s.take(i), v).len() <= leaving(s, v).len(),
    decreases s.len() - i,
{
    if i < s.len() {
        lemma_leaving_prefix(s, i + 1, v);
        assert(s.take(i + 1).drop_last() == s.take(i));
    } else {
        assert(s.take(i) == s);
    }
}

/// Edges grouped by source node: the edges leaving node `v` are
/// `edges[edges_start_at[v]..edges_start_at[v + 1]]`.
pub struct FastEdgeAccess {
    pub edges: Vec<FastEdge>,
    pub edges_start_at: Vec<u32>,
}

impl FastEdgeAccess {
    /// The edges leaving `v`.
    pub open spec fn out(&self, v: int) -> Seq<FastEdge> {
        self.edges@.subrange(self.edges_start_at@[v] as int, self.edges_start_at@[v + 1] as int)
    }

    /// The groups of nodes `0..num_nodes` are valid ranges of `edges`, and every edge in them
    /// leads to a node below `num_nodes`.
    pub open spec fn wf(&self, num_nodes: nat) -> bool {
        &&& self.edges_start_at@.len() > num_nodes
        &&& forall|v: int| 0 <= v < num_nodes ==> #[trigger] self.edges_start_at@[v] <= self.edges_start_at@[v + 1]
            <= self.edges@.len()
        &&& forall|v: int, i: int| #![trigger self.out(v)[i]]
            0 <= v < num_nodes && 0 <= i < self.out(v).len() ==> self.out(v)[i].target < num_nodes
    }

    /// Whether an edge leads from `u` to `v`.
    pub open spec fn step(&self, u: u32, v: u32) -> bool {
        exists|i: int| 0 <= i < self.out(u as int).len() && #[trigger] self.out(u as int)[i].target == v
    }

    /// Whether `p` is a walk: a non-empty sequence of nodes where an edge leads from every node
    /// to the next one.
    pub open spec fn is_walk(&self, p: Seq<u32>) -> bool {
        &&& p.len() > 0
        &&& forall|k: int| 0 <= k < p.len() - 1 ==> #[trigger] self.step(p[k], p[k + 1])
    }

    /// Whether a walk leads from `s` to `t`.
    pub open spec fn reaches(&self, s: u32, t: u32) -> bool {
        exists|p: Seq<u32>| #[trigger] self.is_walk(p) && p[0] == s && p.last() == t
    }

    /// Groups `edges` by source: `edges_start_at[v]` is the number of edges with a source below
    /// `v` (for `v` up to the number of edges), and the group of `v` holds the edges leaving `v`
    /// in their order in `edges`.
    pub fn new(edges: &Vec<Edge>) -> (access: FastEdgeAccess)
        requires
            edges@.len() < u32::MAX,
            forall|i: int| 0 <= i < edges@.len() ==> (#[trigger] edges@[i]).source < edges@.len(),
        ensures
            access.edges@.len() == edges@.len(),
            access.edges_start_at@.len() == edges@.len() + 1,
            forall|v: int| 0 <= v <= edges@.len() ==> #[trigger] access.edges_start_at@[v] == count_below(edges@, v),
            forall|v: int| 0 <= v < edges@.len() ==> #[trigger] access.out(v) == leaving(edges@, v as u32).map_values(|e: Edge| e.fast()),
    {
        let n = edges.len();
        let ghost s = edges@;
        // how many edges leave each node
        let mut counts: Vec<u32> = Vec::new();
        while counts.len() < n
            invariant
                counts@.len() <= n,
                forall|v: int| 0 <= v < counts@.len() ==> counts@[v] == 0,
            decreases n - counts@.len(),
        {
            counts.push(0);
        }
        assert(s.take(0) == Seq::<Edge>::empty());
        let mut i: usize = 0;
        while i < n
            invariant
                n == s.len(),
                s == edges@,
                n < u32::MAX,
                forall|k: int| 0 <= k < n ==> (#[trigger] s[k]).source < n,
                i <= n,
                counts@.len() == n,
                forall|v: int| 0 <= v < n ==> #[trigger] counts@[v] == leaving(s.take(i as int), v as u32).len(),
            decreases n - i,
        {
            let src = edges[i].source as usize;
            proof {
                assert(s.take(i + 1).drop_last() == s.take(i as int));
                lemma_leaving_prefix(s, i as int, src as u32);
                lemma_leaving_prefix(s, i + 1, src as u32);
                assert(leaving(s, src as u32).len() <= n) by {
                    lemma_leaving_len(s, src as u32);
                }
            }
            counts.set(src, counts[src] + 1);
            i += 1;
        }
        assert(s.take(n as int) == s);
        // prefix sums
        let mut edges_start_at: Vec<u32> = Vec::new();
        edges_start_at.push(0);
        proof { lemma_count_below_zero(s); }
        let mut v: usize = 0;
        while v < n
            invariant
                n == s.len(),
                n < u32::MAX,
                forall|k: int| 0 <= k < n ==> (#[trigger] s[k]).source < n,
                v <= n,
                counts@.len() == n,
                forall|w: int| 0 <= w < n ==> #[trigger] counts@[w] == leaving(s, w as u32).len(),
                edges_start_at@.len() == v + 1,
                forall|w: int| 0 <= w <= v ==> #[trigger] edges_start_at@[w] == count_below(s, w),
            decreases n - v,
        {
            proof {
                lemma_count_below_step(s, v as int);
                lemma_count_below_mono(s, v + 1, n as int);
                lemma_count_below_all(s, n as int);
            }
            let next = edges_start_at[v] + counts[v];
            edges_start_at.push(next);
            v += 1;
        }
        // place every edge behind the edges of its group placed before it
        let mut placed: Vec<FastEdge> = Vec::new();
        while placed.len() < n
            invariant
                placed@.len() <= n,
            decreases n - placed@.len(),
        {
            placed.push(FastEdge { target: 0, cost: 0 });
        }
        let mut cursor: Vec<u32> = Vec::new();
        while cursor.len() < n
            invariant
                cursor@.len() <= n,
                edges_start_at@.len() == n + 1,
                forall|w: int| 0 <= w < cursor@.len() ==> cursor@[w] == edges_start_at@[w],
            decreases n - cursor@.len(),
        {
            let c = edges_start_at[cursor.len()];
            cursor.push(c);
        }
        let mut i: usize = 0;
        while i < n
            invariant
                n == s.len(),
                s == edges@,
                n < u32::MAX,
                forall|k: int| 0 <= k < n ==> (#[trigger] s[k]).source < n,
                i <= n,
                placed@.len() == n,
                cursor@.len() == n,
                edges_start_at@.len() == n + 1,
                forall|w: int| 0 <= w <= n ==> #[trigger] edges_start_at@[w] == count_below(s, w),
                forall|w: int| 0 <= w < n ==> #[trigger] cursor@[w] == edges_start_at@[w] + leaving(s.take(i as int), w as u32).len(),
                forall|w: int, j: int| #![trigger leaving(s.take(i as int), w as u32)[j]]
                    0 <= w < n && 0 <= j < leaving(s.take(i as int), w as u32).len()
                    ==> placed@[edges_start_at@[w] + j] == leaving(s.take(i as int), w as u32)[j].fast(),
            decreases n - i,
        {
            let e = edges[i];
            let src = e.source as usize;
            let pos = cursor[src];
            proof {
                assert(s.take(i + 1).drop_last() == s.take(i as int));
                assert(s.take(i + 1).last() == e);
                lemma_leaving_prefix(s, i + 1, src as u32);
                lemma_count_below_step(s, src as int);
                lemma_count_below_mono(s, src + 1, n as int);
                lemma_count_below_all(s, n as int);
            }
            let ghost before = placed@;
            let ghost old_len = leaving(s.take(i as int), src as u32).len();
            assert(leaving(s.take(i + 1), src as u32) == leaving(s.take(i as int), src as u32).push(e));
            placed.set(pos as usize, e.make_fast());
            cursor.set(src, pos + 1);
            proof {
                assert forall|w: int, j: int| #![trigger leaving(s.take(i + 1), w as u32)[j]]
                    0 <= w < n && 0 <= j < leaving(s.take(i + 1), w as u32).len()
                    implies placed@[edges_start_at@[w] + j] == leaving(s.take(i + 1), w as u32)[j].fast() by {
                    if w == src {
                        if j < old_len {
                            assert(leaving(s.take(i + 1), w as u32)[j] == leaving(s.take(i as int), w as u32)[j]);
                            assert(placed@[edges_start_at@[w] + j] == before[edges_start_at@[w] + j]);
                        } else {
                            assert(edges_start_at@[w] + j == pos);
                        }
                    } else {
                        assert(leaving(s.take(i + 1), w as u32) == leaving(s.take(i as int), w as u32));
                        lemma_leaving_prefix(s, i as int, w as u32);
                        lemma_count_below_step(s, w);
                        lemma_count_below_mono(s, w + 1, n as int);
                        if w < src {
                            lemma_count_below_mono(s, w + 1, src as int);
                        } else {
                            lemma_count_below_mono(s, src + 1, w);
                        }
                        assert(edges_start_at@[w] + j != pos);
                        assert(placed@[edges_start_at@[w] + j] == before[edges_start_at@[w] + j]);
                    }
                }
            }
            i += 1;
        }
        assert(s.take(n as int) == s);
        let access = FastEdgeAccess { edges: placed, edges_start_at };
        proof {
            assert forall|w: int| 0 <= w < n implies #[trigger] access.out(w) == leaving(s, w as u32).map_values(|e: Edge| e.fast()) by {
                lemma_count_below_step(s, w);
                lemma_count_below_mono(s, w + 1, n as int);
                lemma_count_below_all(s, n as int);
                assert forall|j: int| 0 <= j < access.out(w).len() implies access.out(w)[j] == leaving(s, w as u32).map_values(|e: Edge| e.fast())[j] by {
                    assert(leaving(s.take(n as int), w as u32)[j] == leaving(s, w as u32)[j]);
                }
                assert(access.out(w) =~= leaving(s, w as u32).map_values(|e: Edge| e.fast()));
            }
        }
        access
    }

    /// `self` and `other` hold the same edges and groups.
    pub open spec fn same_as(&self, other: FastEdgeAccess) -> bool {
        &&& self.edges@ == other.edges@
        &&& self.edges_start_at@ == other.edges_start_at@
    }

    /// A copy of the grouping.
    pub fn duplicate(&self) -> (copy: FastEdgeAccess)
        ensures
            copy.same_as(*self),
    {
        let edges = self.edges.clone();
        let edges_start_at = self.edges_start_at.clone();
        assert(edges@ =~= self.edges@);
        assert(edges_start_at@ =~= self.edges_start_at@);
        FastEdgeAccess { edges, edges_start_at }
    }

    /// The edges leaving `source`.
    pub fn outgoing_edges(&self, source: u32) -> (out: &[FastEdge])
        requires
            source + 1 < self.edges_start_at@.len(),
            self.edges_start_at@[source as int] <= self.edges_start_at@[source + 1] <= self.edges@.len(),
        ensures
            out@ == self.out(source as int),
    {
        let s = source as usize;
        assert(s + 1 < self.edges_start_at.len());
        let start = self.edges_start_at[s] as usize;
        let end = self.edges_start_at[s + 1] as usize;
        vstd::slice::slice_subrange(self.edges.as_slice(), start, end)
    }
}

/// A graph with its edges grouped by source (`forward_edges`) and, inverted, by target
/// (`backward_edges`). The node coordinates stay with the caller.
pub struct Graph {
    pub num_nodes: u32,
    pub forward_edges: FastEdgeAccess,
    pub backward_edges: FastEdgeAccess,
}

/// The name under which searches refer to [`Graph`].
pub type FastGraph = Graph;

impl Graph {
    /// Both edge groupings are valid for all nodes of the graph.
    pub open spec fn wf(&self) -> bool {
        &&& self.forward_edges.wf(self.num_nodes as nat)
        &&& self.backward_edges.wf(self.num_nodes as nat)
    }

    /// `self` and `other` are the same graph.
    pub open spec fn same_as(&self, other: Graph) -> bool {
        &&& self.num_nodes == other.num_nodes
        &&& self.forward_edges.same_as(other.forward_edges)
        &&& self.backward_edges.same_as(other.backward_edges)
    }

    /// A copy of the graph.
    pub fn duplicate(&self) -> (copy: Graph)
        ensures
            copy.same_as(*self),
    {
        Graph {
            num_nodes: self.num_nodes,
            forward_edges: self.forward_edges.duplicate(),
            backward_edges: self.backward_edges.duplicate(),
        }
    }

    /// The edges leaving `source`.
    pub fn outgoing_edges(&self, source: u32) -> (out: &[FastEdge])
        requires
            self.wf(),
            source < self.num_nodes,
        ensures
            out@ == self.forward_edges.out(source as int),
    {
        self.forward_edges.outgoing_edges(source)
    }

    /// The edges entering `target`, each given as its source and its cost.
    pub fn incoming_edges(&self, target: u32) -> (out: &[FastEdge])
        requires
            self.wf(),
            target < self.num_nodes,
        ensures
            out@ == self.backward_edges.out(target as int),
    {
        self.backward_edges.outgoing_edges(target)
    }

    /// Groups the edges of `graph` by source, and their inversions by target. The result is a
    /// valid graph when every edge joins nodes below `graph.num_nodes` and there are at least as
    /// many edges as nodes.
    pub fn new(graph: NaiveGraph) -> (result: Graph)
        requires
            graph.edges@.len() < u32::MAX,
            forall|i: int| 0 <= i < graph.edges@.len() ==> (#[trigger] graph.edges@[i]).source < graph.edges@.len()
                && graph.edges@[i].target < graph.edges@.len(),
        ensures
            result.num_nodes == graph.num_nodes,
            result.forward_edges.edges_start_at@.len() == graph.edges@.len() + 1,
            result.backward_edges.edges_start_at@.len() == graph.edges@.len() + 1,
            result.forward_edges.edges@.len() == graph.edges@.len(),
            result.backward_edges.edges@.len() == graph.edges@.len(),
            forall|v: int| 0 <= v <= graph.edges@.len() ==> #[trigger] result.forward_edges.edges_start_at@[v] == count_below(graph.edges@, v),
            forall|v: int| 0 <= v <= graph.edges@.len() ==> #[trigger] result.backward_edges.edges_start_at@[v] == count_below(
                graph.edges@.map_values(|e: Edge| e.inverted()),
                v,
            ),
            forall|v: int| 0 <= v < graph.edges@.len() ==> #[trigger] result.forward_edges.out(v) == leaving(graph.edges@, v as u32).map_values(
                |e: Edge| e.fast(),
            ),
            forall|v: int| 0 <= v < graph.edges@.len() ==> #[trigger] result.backward_edges.out(v) == leaving(
                graph.edges@.map_values(|e: Edge| e.inverted()),
                v as u32,
            ).map_values(|e: Edge| e.fast()),
            graph.num_nodes <= graph.edges@.len() && (forall|i: int| 0 <= i < graph.edges@.len() ==> (#[trigger] graph.edges@[i]).source < graph.num_nodes
                && graph.edges@[i].target < graph.num_nodes) ==> result.wf(),
    {
        let forward_edges = FastEdgeAccess::new(&graph.edges);
        let mut inverted_edges: Vec<Edge> = Vec::new();
        let mut i: usize = 0;
        while i < graph.edges.len()
            invariant
                i <= graph.edges@.len(),
                inverted_edges@ == graph.edges@.take(i as int).map_values(|e: Edge| e.inverted()),
            decreases graph.edges@.len() - i,
        {
            inverted_edges.push(graph.edges[i].get_inverted());
            i += 1;
            assert(inverted_edges@ =~= graph.edges@.take(i as int).map_values(|e: Edge| e.inverted()));
        }
        assert(graph.edges@.take(graph.edges@.len() as int) == graph.edges@);
        let backward_edges = FastEdgeAccess::new(&inverted_edges);
        let result = Graph { num_nodes: graph.num_nodes, forward_edges, backward_edges };
        proof {
            let es = graph.edges@;
            let n = graph.num_nodes as nat;
            if n <= es.len() && (forall|i: int| 0 <= i < es.len() ==> (#[trigger] es[i]).source < n && es[i].target < n) {
                lemma_access_wf(es, n);
                lemma_access_wf(inverted_edges@, n);
            }
        }
        result
    }
}

/// The grouping of edges whose endpoints all lie below `n` is valid for `n` nodes.
proof fn lemma_access_wf(es: Seq<Edge>, n: nat)
    requires
        n <= es.len() < u32::MAX,
        forall|i: int| 0 <= i < es.len() ==> (#[trigger] es[i]).source < n && es[i].target < n,
    ensures
        forall|a: FastEdgeAccess|
            a.edges@.len() == es.len() && a.edges_start_at@.len() == es.len() + 1 && (forall|v: int|
                0 <= v <= es.len() ==> #[trigger] a.edges_start_at@[v] == count_below(es, v)) && (forall|v: int|
                0 <= v < es.len() ==> #[trigger] a.out(v) == leaving(es, v as u32).map_values(|e: Edge| e.fast()))
                ==> #[trigger] a.wf(n),
{
    assert forall|a: FastEdgeAccess|
        a.edges@.len() == es.len() && a.edges_start_at@.len() == es.len() + 1 && (forall|v: int|
            0 <= v <= es.len() ==> #[trigger] a.edges_start_at@[v] == count_below(es, v)) && (forall|v: int|
            0 <= v < es.len() ==> #[trigger] a.out(v) == leaving(es, v as u32).map_values(|e: Edge| e.fast()))
            implies #[trigger] a.wf(n) by {
        assert forall|v: int| 0 <= v < n implies #[trigger] a.edges_start_at@[v] <= a.edges_start_at@[v + 1]
            <= a.edges@.len() by {
            lemma_count_below_step(es, v);
            lemma_count_below_mono(es, v + 1, es.len() as int);
            lemma_count_below_all(es, es.len() as int);
        }
        assert forall|v: int, i: int| #![trigger a.out(v)[i]]
            0 <= v < n && 0 <= i < a.out(v).len() implies a.out(v)[i].target < n by {
            crate::routing::graph::lemma_leaving(es, v as u32);
            let e = leaving(es, v as u32)[i];
            assert(a.out(v)[i] == e.fast());
            assert(es.contains(e));
            let k = choose|k: int| 0 <= k < es.len() && es[k] == e;
        }
    }
}

/// No more edges leave a node than there are edges.
pub proof fn lemma_leaving_len(s: Seq<Edge>, v: u32)
    ensures
        leaving(s, v).len() <= s.len(),
    decreases s.len(),
{
    if s.len() > 0 {
        lemma_leaving_len(s.drop_last(), v);
    }
}

} // verus!

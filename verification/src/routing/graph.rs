//! Adjacency-list graphs with forward and backward edge lists.
use vstd::prelude::*;
use vstd::multiset::Multiset;
use std::collections::HashSet;

use super::fast_graph::FastEdge;
use super::naive_graph::NaiveGraph;

verus! {

/// Whether an edge neither leaves nor enters `node`.
pub open spec fn clear_of(node: u32) -> spec_fn(Edge) -> bool {
    |e: Edge| e.source != node && e.target != node
}

/// Taking out an item that the filter drops leaves the filtered sequence as it was.
proof fn lemma_filter_remove(s: Seq<Edge>, i: int, p: spec_fn(Edge) -> bool)
    requires
        0 <= i < s.len(),
        !p(s[i]),
    ensures
        s.remove(i).filter(p) == s.filter(p),
    decreases s.len(),
{
    reveal(Seq::filter);
    let r = s.remove(i);
    assert(s.filter(p) == (if p(s.last()) {
        s.drop_last().filter(p).push(s.last())
    } else {
        s.drop_last().filter(p)
    }));
    if i == s.len() - 1 {
        assert(r =~= s.drop_last());
        assert(s.last() == s[i]);
    } else {
        assert(r.drop_last() =~= s.drop_last().remove(i));
        assert(r.last() == s.last());
        assert(r.filter(p) == (if p(r.last()) {
            r.drop_last().filter(p).push(r.last())
        } else {
            r.drop_last().filter(p)
        }));
        assert(s.drop_last()[i] == s[i]);
        lemma_filter_remove(s.drop_last(), i, p);
    }
}

/// A sequence whose items all pass the filter is its own filtered sequence.
proof fn lemma_filter_all(s: Seq<Edge>, p: spec_fn(Edge) -> bool)
    requires
        forall|i: int| 0 <= i < s.len() ==> #[trigger] p(s[i]),
    ensures
        s.filter(p) == s,
    decreases s.len(),
{
    reveal(Seq::filter);
    if s.len() > 0 {
        assert forall|i: int| 0 <= i < s.drop_last().len() implies #[trigger] p(s.drop_last()[i]) by {
            assert(p(s[i]));
        }
        lemma_filter_all(s.drop_last(), p);
        assert(p(s[s.len() - 1]));
        assert(s.filter(p) == (if p(s.last()) {
            s.drop_last().filter(p).push(s.last())
        } else {
            s.drop_last().filter(p)
        }));
        assert(s.drop_last().push(s.last()) =~= s);
    }
}

broadcast use {vstd::seq_lib::group_to_multiset_ensures, vstd::multiset::group_multiset_axioms};

/// A directed edge from `source` to `target` that costs `cost`.
#[derive(Clone, Copy, PartialEq, Eq, Structural, Debug)]
pub struct Edge {
    pub source: u32,
    pub target: u32,
    pub cost: u32,
}

impl Edge {
    pub fn new(source: u32, target: u32, cost: u32) -> (edge: Edge)
        ensures
            edge == (Edge { source, target, cost }),
    {
        Edge { source, target, cost }
    }

    /// The same edge, travelled the other way.
    pub open spec fn inverted(self) -> Edge {
        Edge { source: self.target, target: self.source, cost: self.cost }
    }

    pub fn get_inverted(&self) -> (edge: Edge)
        ensures
            edge == self.inverted(),
    {
        Edge { source: self.target, target: self.source, cost: self.cost }
    }

    /// The edge without its source, as stored in a [`FastEdge`] list.
    pub open spec fn fast(self) -> FastEdge {
        FastEdge { target: self.target, cost: self.cost }
    }

    pub fn make_fast(&self) -> (edge: FastEdge)
        ensures
            edge == self.fast(),
    {
        FastEdge { target: self.target, cost: self.cost }
    }
}

/// How often `e` occurs in `s`.
pub open spec fn count(s: Seq<Edge>, e: Edge) -> nat {
    s.to_multiset().count(e)
}

/// The edges of `s` that leave `v`, in order.
pub open spec fn leaving(s: Seq<Edge>, v: u32) -> Seq<Edge>
    decreases s.len(),
{
    if s.len() == 0 {
        Seq::empty()
    } else if s.last().source == v {
        leaving(s.drop_last(), v).push(s.last())
    } else {
        leaving(s.drop_last(), v)
    }
}

/// The edges of `s` that enter `v`, in order.
pub open spec fn entering(s: Seq<Edge>, v: u32) -> Seq<Edge>
    decreases s.len(),
{
    if s.len() == 0 {
        Seq::empty()
    } else if s.last().target == v {
        entering(s.drop_last(), v).push(s.last())
    } else {
        entering(s.drop_last(), v)
    }
}

/// The largest node id that an edge of `s` names, or 0 for no edges.
pub open spec fn max_node_id(s: Seq<Edge>) -> u32
    decreases s.len(),
{
    if s.len() == 0 {
        0
    } else {
        let m = max_node_id(s.drop_last());
        let e = s.last();
        let k = if e.source > e.target { e.source } else { e.target };
        if k > m { k } else { m }
    }
}

pub proof fn lemma_max_node_id(s: Seq<Edge>)
    ensures
        forall|i: int| 0 <= i < s.len() ==> (#[trigger] s[i]).source <= max_node_id(s) && s[i].target <= max_node_id(s),
    decreases s.len(),
{
    if s.len() > 0 {
        lemma_max_node_id(s.drop_last());
        assert forall|i: int| 0 <= i < s.len() implies (#[trigger] s[i]).source <= max_node_id(s) && s[i].target <= max_node_id(s) by {
            if i < s.len() - 1 {
                assert(s[i] == s.drop_last()[i]);
            }
        }
    }
}

/// All edges of `leaving(s, v)` leave `v`, and each such edge occurs there as often as in `s`.
pub proof fn lemma_leaving(s: Seq<Edge>, v: u32)
    ensures
        forall|i: int| 0 <= i < leaving(s, v).len() ==> (#[trigger] leaving(s, v)[i]).source == v,
        forall|i: int| 0 <= i < leaving(s, v).len() ==> s.contains(#[trigger] leaving(s, v)[i]),
        forall|e: Edge| e.source == v ==> count(leaving(s, v), e) == count(s, e),
    decreases s.len(),
{
    if s.len() == 0 {
        assert(s.to_multiset() =~= Multiset::empty());
    } else {
        lemma_leaving(s.drop_last(), v);
        assert(s == s.drop_last().push(s.last()));
        assert(s.to_multiset() == s.drop_last().to_multiset().insert(s.last()));
        assert forall|e: Edge| e.source == v implies count(leaving(s, v), e) == count(s, e) by {
            assert(count(leaving(s.drop_last(), v), e) == count(s.drop_last(), e));
            if s.last().source == v {
                assert(leaving(s, v).to_multiset() == leaving(s.drop_last(), v).to_multiset().insert(s.last()));
            }
        }
        assert forall|i: int| 0 <= i < leaving(s, v).len() implies s.contains(#[trigger] leaving(s, v)[i]) by {
            let x = leaving(s, v)[i];
            if i < leaving(s.drop_last(), v).len() {
                assert(leaving(s, v)[i] == leaving(s.drop_last(), v)[i]);
                let k = choose|k: int| 0 <= k < s.drop_last().len() && s.drop_last()[k] == x;
                assert(s[k] == x);
            } else {
                assert(s[s.len() - 1] == x);
            }
        }
    }
}

/// All edges of `entering(s, v)` enter `v`, and each such edge occurs there as often as in `s`.
pub proof fn lemma_entering(s: Seq<Edge>, v: u32)
    ensures
        forall|i: int| 0 <= i < entering(s, v).len() ==> (#[trigger] entering(s, v)[i]).target == v,
        forall|i: int| 0 <= i < entering(s, v).len() ==> s.contains(#[trigger] entering(s, v)[i]),
        forall|e: Edge| e.target == v ==> count(entering(s, v), e) == count(s, e),
    decreases s.len(),
{
    if s.len() == 0 {
        assert(s.to_multiset() =~= Multiset::empty());
    } else {
        lemma_entering(s.drop_last(), v);
        assert(s == s.drop_last().push(s.last()));
        assert(s.to_multiset() == s.drop_last().to_multiset().insert(s.last()));
        assert forall|e: Edge| e.target == v implies count(entering(s, v), e) == count(s, e) by {
            assert(count(entering(s.drop_last(), v), e) == count(s.drop_last(), e));
            if s.last().target == v {
                assert(entering(s, v).to_multiset() == entering(s.drop_last(), v).to_multiset().insert(s.last()));
            }
        }
        assert forall|i: int| 0 <= i < entering(s, v).len() implies s.contains(#[trigger] entering(s, v)[i]) by {
            let x = entering(s, v)[i];
            if i < entering(s.drop_last(), v).len() {
                assert(entering(s, v)[i] == entering(s.drop_last(), v)[i]);
                let k = choose|k: int| 0 <= k < s.drop_last().len() && s.drop_last()[k] == x;
                assert(s[k] == x);
            } else {
                assert(s[s.len() - 1] == x);
            }
        }
    }
}

/// Splitting a sequence splits the counts of its elements.
pub proof fn lemma_count_split(s: Seq<Edge>, k: int, e: Edge)
    requires
        0 <= k <= s.len(),
    ensures
        count(s, e) == count(s.take(k), e) + count(s.skip(k), e),
{
    assert(s == s.take(k) + s.skip(k));
    vstd::seq_lib::lemma_multiset_commutative(s.take(k), s.skip(k));
}

/// The index of the first occurrence of `e` in `list`.
fn position(list: &Vec<Edge>, e: &Edge) -> (idx: usize)
    requires
        list@.contains(*e),
    ensures
        idx < list@.len(),
        list@[idx as int] == *e,
{
    let mut i: usize = 0;
    while i < list.len()
        invariant
            i <= list@.len(),
            list@.contains(*e),
            forall|j: int| 0 <= j < i ==> list@[j] != *e,
        decreases list.len() - i,
    {
        if list[i] == *e {
            return i;
        }
        i += 1;
    }
    proof {
        let j = choose|j: int| 0 <= j < list@.len() && list@[j] == *e;
        assert(list@[j] != *e);
    }
    0
}

/// A graph stored as, for every node, the list of edges leaving it (`forward_edges`) and the
/// list of edges entering it (`backward_edges`).
pub struct Graph {
    pub forward_edges: Vec<Vec<Edge>>,
    pub backward_edges: Vec<Vec<Edge>>,
}

impl Graph {
    /// The forward edge lists.
    pub open spec fn fwd(&self) -> Seq<Seq<Edge>> {
        self.forward_edges@.map_values(|l: Vec<Edge>| l@)
    }

    /// The backward edge lists.
    pub open spec fn bwd(&self) -> Seq<Seq<Edge>> {
        self.backward_edges@.map_values(|l: Vec<Edge>| l@)
    }

    /// The number of nodes.
    pub open spec fn num_nodes(&self) -> nat {
        self.forward_edges@.len()
    }

    /// Whether node `v` is a node of the graph.
    pub open spec fn is_node(&self, v: int) -> bool {
        0 <= v < self.num_nodes()
    }

    /// The two lists describe the same edges: every node's forward list holds edges that leave
    /// it, every backward list holds edges that enter it, every edge joins nodes of the graph,
    /// and each edge occurs as often in its source's forward list as in its target's backward
    /// list.
    pub open spec fn wf(&self) -> bool {
        &&& self.backward_edges@.len() == self.num_nodes()
        &&& self.num_nodes() <= u32::MAX as nat + 1
        &&& forall|v: int, i: int| #![trigger self.fwd()[v][i]]
            0 <= v < self.num_nodes() && 0 <= i < self.fwd()[v].len() ==> self.fwd()[v][i].source == v
                && self.is_node(self.fwd()[v][i].target as int)
        &&& forall|v: int, i: int| #![trigger self.bwd()[v][i]]
            0 <= v < self.num_nodes() && 0 <= i < self.bwd()[v].len() ==> self.bwd()[v][i].target == v
                && self.is_node(self.bwd()[v][i].source as int)
        &&& forall|e: Edge| #![trigger count(self.fwd()[e.source as int], e)] #![trigger count(self.bwd()[e.target as int], e)]
            self.is_node(e.source as int) && self.is_node(e.target as int) ==> count(self.fwd()[e.source as int], e)
                == count(self.bwd()[e.target as int], e)
    }

    /// Whether the graph has an edge `e`.
    pub open spec fn has_edge(&self, e: Edge) -> bool {
        self.is_node(e.source as int) && self.fwd()[e.source as int].contains(e)
    }

    /// The graph with one list per node `0..=max_node_id`, where node `v` gets the edges of
    /// `graph.edges` that leave `v` as forward list and those that enter `v` as backward list,
    /// both in the order of `graph.edges`.
    pub fn from_naive_graph(graph: &NaiveGraph) -> (result: Graph)
        requires
            max_node_id(graph.edges@) < u32::MAX,
        ensures
            result.wf(),
            result.num_nodes() == max_node_id(graph.edges@) + 1,
            forall|v: int| 0 <= v < result.num_nodes() ==> #[trigger] result.fwd()[v] == leaving(graph.edges@, v as u32),
            forall|v: int| 0 <= v < result.num_nodes() ==> #[trigger] result.bwd()[v] == entering(graph.edges@, v as u32),
    {
        let edges = &graph.edges;
        let mut max_id: u32 = 0;
        let mut i: usize = 0;
        while i < edges.len()
            invariant
                i <= edges.len(),
                max_id == max_node_id(edges@.take(i as int)),
            decreases edges.len() - i,
        {
            let e = edges[i];
            let k = if e.source > e.target { e.source } else { e.target };
            if k > max_id {
                max_id = k;
            }
            assert(edges@.take(i + 1).drop_last() == edges@.take(i as int));
            i += 1;
        }
        assert(edges@.take(edges.len() as int) == edges@);
        proof { lemma_max_node_id(edges@); }
        let n: usize = (max_id + 1) as usize;
        let mut forward_edges: Vec<Vec<Edge>> = Vec::new();
        let mut backward_edges: Vec<Vec<Edge>> = Vec::new();
        while forward_edges.len() < n
            invariant
                forward_edges.len() == backward_edges.len(),
                forward_edges.len() <= n,
                forall|v: int| 0 <= v < forward_edges.len() ==> (#[trigger] forward_edges@[v])@.len() == 0,
                forall|v: int| 0 <= v < backward_edges.len() ==> (#[trigger] backward_edges@[v])@.len() == 0,
            decreases n - forward_edges.len(),
        {
            forward_edges.push(Vec::new());
            backward_edges.push(Vec::new());
        }
        let mut i: usize = 0;
        while i < edges.len()
            invariant
                i <= edges.len(),
                n == max_node_id(edges@) + 1,
                forall|j: int| 0 <= j < edges@.len() ==> (#[trigger] edges@[j]).source < n && edges@[j].target < n,
                forward_edges.len() == n,
                backward_edges.len() == n,
                forall|v: int| 0 <= v < n ==> (#[trigger] forward_edges@[v])@ == leaving(edges@.take(i as int), v as u32),
                forall|v: int| 0 <= v < n ==> (#[trigger] backward_edges@[v])@ == entering(edges@.take(i as int), v as u32),
            decreases edges.len() - i,
        {
            let e = edges[i];
            assert(edges@.take(i + 1).drop_last() == edges@.take(i as int));
            assert(edges@.take(i + 1).last() == e);
            forward_edges[e.source as usize].push(e);
            backward_edges[e.target as usize].push(e);
            i += 1;
        }
        assert(edges@.take(edges.len() as int) == edges@);
        let result = Graph { forward_edges, backward_edges };
        proof {
            assert forall|v: int, j: int| #![trigger result.fwd()[v][j]]
                0 <= v < n && 0 <= j < result.fwd()[v].len() implies result.fwd()[v][j].source == v
                    && result.is_node(result.fwd()[v][j].target as int) by {
                lemma_leaving(edges@, v as u32);
                let x = result.fwd()[v][j];
                assert(leaving(edges@, v as u32)[j] == x);
                let k = choose|k: int| 0 <= k < edges@.len() && edges@[k] == x;
            }
            assert forall|v: int, j: int| #![trigger result.bwd()[v][j]]
                0 <= v < n && 0 <= j < result.bwd()[v].len() implies result.bwd()[v][j].target == v
                    && result.is_node(result.bwd()[v][j].source as int) by {
                lemma_entering(edges@, v as u32);
                let x = result.bwd()[v][j];
                assert(entering(edges@, v as u32)[j] == x);
                let k = choose|k: int| 0 <= k < edges@.len() && edges@[k] == x;
            }
            assert forall|e: Edge| result.is_node(e.source as int) && result.is_node(e.target as int) implies
                count(result.fwd()[e.source as int], e) == count(result.bwd()[e.target as int], e) by {
                lemma_leaving(edges@, e.source);
                lemma_entering(edges@, e.target);
                assert(result.fwd()[e.source as int] == leaving(edges@, e.source));
                assert(result.bwd()[e.target as int] == entering(edges@, e.target));
                assert(count(leaving(edges@, e.source), e) == count(edges@, e));
                assert(count(entering(edges@, e.target), e) == count(edges@, e));
            }
        }
        result
    }

    /// The targets of the edges that leave a node of `s`.
    pub open spec fn successors(&self, s: Set<u32>) -> Set<u32> {
        Set::new(
            |t: u32|
                exists|v: u32, i: int|
                    #![trigger s.contains(v), self.fwd()[v as int][i]]
                    s.contains(v) && 0 <= i < self.fwd()[v as int].len() && self.fwd()[v as int][i].target == t,
        )
    }

    /// The nodes that can be reached from `node` over at most `hops` edges.
    pub open spec fn neighborhood(&self, node: u32, hops: nat) -> Set<u32>
        decreases hops,
    {
        if hops == 0 {
            Set::empty().insert(node)
        } else {
            let s = self.neighborhood(node, (hops - 1) as nat);
            s.union(self.successors(s))
        }
    }

    /// The set of nodes that can be reached from `node` over at most `hops` edges.
    pub fn get_neighborhood(&self, node: u32, hops: u32) -> (neighbors: HashSet<u32>)
        requires
            self.wf(),
            self.is_node(node as int),
        ensures
            neighbors@ == self.neighborhood(node, hops as nat),
    {
        broadcast use vstd::std_specs::hash::group_hash_axioms;
        let mut neighbors: HashSet<u32> = HashSet::new();
        let mut members: Vec<u32> = Vec::new();
        neighbors.insert(node);
        members.push(node);
        assert(neighbors@ =~= self.neighborhood(node, 0));
        assert(members@[0] == node);
        assert forall|t: u32| neighbors@.contains(t) <==> members@.contains(t) by {
            if members@.contains(t) {
                let q = choose|q: int| 0 <= q < members@.len() && members@[q] == t;
            }
        }
        let mut h: u32 = 0;
        while h < hops
            invariant
                self.wf(),
                h <= hops,
                neighbors@ == self.neighborhood(node, h as nat),
                forall|t: u32| neighbors@.contains(t) <==> members@.contains(t),
                forall|j: int| 0 <= j < members@.len() ==> self.is_node(#[trigger] members@[j] as int),
            decreases hops - h,
        {
            let ghost old_set = neighbors@;
            let len0 = members.len();
            assert(members@.take(len0 as int) =~= members@);
            let mut j: usize = 0;
            while j < len0
                invariant
                    self.wf(),
                    len0 <= members@.len(),
                    j <= len0,
                    old_set == self.neighborhood(node, h as nat),
                    forall|t: u32| old_set.contains(t) <==> members@.take(len0 as int).contains(t),
                    forall|t: u32| neighbors@.contains(t) <==> members@.contains(t),
                    forall|k: int| 0 <= k < members@.len() ==> self.is_node(#[trigger] members@[k] as int),
                    forall|t: u32| #![trigger neighbors@.contains(t)]
                        neighbors@.contains(t) <==> (old_set.contains(t) || exists|a: int, i: int|
                            #![trigger members@[a], self.fwd()[members@[a] as int][i]]
                            0 <= a < j && 0 <= i < self.fwd()[members@[a] as int].len()
                                && self.fwd()[members@[a] as int][i].target == t),
                decreases len0 - j,
            {
                let v = members[j];
                let edges = &self.forward_edges[v as usize];
                let mut k: usize = 0;
                while k < edges.len()
                    invariant
                        self.wf(),
                        len0 <= members@.len(),
                        j < len0,
                        v == members@[j as int],
                        self.is_node(v as int),
                        edges@ == self.fwd()[v as int],
                        k <= edges@.len(),
                        forall|t: u32| old_set.contains(t) <==> members@.take(len0 as int).contains(t),
                        forall|t: u32| neighbors@.contains(t) <==> members@.contains(t),
                        forall|q: int| 0 <= q < members@.len() ==> self.is_node(#[trigger] members@[q] as int),
                        forall|t: u32| #![trigger neighbors@.contains(t)]
                            neighbors@.contains(t) <==> (old_set.contains(t) || (exists|a: int, i: int|
                                #![trigger members@[a], self.fwd()[members@[a] as int][i]]
                                0 <= a < j && 0 <= i < self.fwd()[members@[a] as int].len()
                                    && self.fwd()[members@[a] as int][i].target == t) || (exists|i: int|
                                0 <= i < k && #[trigger] self.fwd()[v as int][i].target == t)),
                    decreases edges@.len() - k,
                {
                    let t = edges[k].target;
                    let ghost m0 = members@;
                    assert(self.fwd()[v as int][k as int] == edges@[k as int]);
                    if !neighbors.contains(&t) {
                        neighbors.insert(t);
                        members.push(t);
                        assert(members@.take(len0 as int) == m0.take(len0 as int));
                        assert(members@[m0.len() as int] == t);
                        assert forall|q: int| 0 <= q < members@.len() implies self.is_node(#[trigger] members@[q] as int) by {
                            if q < m0.len() {
                                assert(members@[q] == m0[q]);
                            }
                        }
                        assert forall|u: u32| neighbors@.contains(u) <==> members@.contains(u) by {
                            if members@.contains(u) && u != t {
                                let q = choose|q: int| 0 <= q < members@.len() && members@[q] == u;
                                assert(m0[q] == u);
                            }
                            if m0.contains(u) {
                                let q = choose|q: int| 0 <= q < m0.len() && m0[q] == u;
                                assert(members@[q] == u);
                            }
                        }
                    }
                    assert forall|u: u32| #![trigger neighbors@.contains(u)]
                        neighbors@.contains(u) <==> (old_set.contains(u) || (exists|a: int, i: int|
                            #![trigger members@[a], self.fwd()[members@[a] as int][i]]
                            0 <= a < j && 0 <= i < self.fwd()[members@[a] as int].len()
                                && self.fwd()[members@[a] as int][i].target == u) || (exists|i: int|
                            0 <= i < k + 1 && #[trigger] self.fwd()[v as int][i].target == u)) by {
                        if exists|a: int, i: int|
                            #![trigger m0[a], self.fwd()[m0[a] as int][i]]
                            0 <= a < j && 0 <= i < self.fwd()[m0[a] as int].len()
                                && self.fwd()[m0[a] as int][i].target == u {
                            let (a, i) = choose|a: int, i: int|
                                #![trigger m0[a], self.fwd()[m0[a] as int][i]]
                                0 <= a < j && 0 <= i < self.fwd()[m0[a] as int].len()
                                    && self.fwd()[m0[a] as int][i].target == u;
                            assert(members@[a] == m0[a]);
                        }
                        if exists|a: int, i: int|
                            #![trigger members@[a], self.fwd()[members@[a] as int][i]]
                            0 <= a < j && 0 <= i < self.fwd()[members@[a] as int].len()
                                && self.fwd()[members@[a] as int][i].target == u {
                            let (a, i) = choose|a: int, i: int|
                                #![trigger members@[a], self.fwd()[members@[a] as int][i]]
                                0 <= a < j && 0 <= i < self.fwd()[members@[a] as int].len()
                                    && self.fwd()[members@[a] as int][i].target == u;
                            assert(members@[a] == m0[a]);
                        }
                    }
                    k += 1;
                }
                assert forall|u: u32| #![trigger neighbors@.contains(u)]
                    neighbors@.contains(u) <==> (old_set.contains(u) || exists|a: int, i: int|
                        #![trigger members@[a], self.fwd()[members@[a] as int][i]]
                        0 <= a < j + 1 && 0 <= i < self.fwd()[members@[a] as int].len()
                            && self.fwd()[members@[a] as int][i].target == u) by {
                    if exists|i: int| 0 <= i < edges@.len() && #[trigger] self.fwd()[v as int][i].target == u {
                        let i = choose|i: int| 0 <= i < edges@.len() && #[trigger] self.fwd()[v as int][i].target == u;
                        assert(members@[j as int] == v);
                        assert(self.fwd()[members@[j as int] as int][i].target == u);
                    }
                }
                j += 1;
            }
            proof {
                let s = self.neighborhood(node, h as nat);
                assert forall|u: u32| neighbors@.contains(u) <==> s.union(self.successors(s)).contains(u) by {
                    if self.successors(s).contains(u) {
                        let (v, i) = choose|v: u32, i: int|
                            #![trigger s.contains(v), self.fwd()[v as int][i]]
                            s.contains(v) && 0 <= i < self.fwd()[v as int].len() && self.fwd()[v as int][i].target == u;
                        assert(members@.take(len0 as int).contains(v));
                        let a = choose|a: int| 0 <= a < len0 && members@.take(len0 as int)[a] == v;
                        assert(members@[a] == v);
                        assert(self.fwd()[members@[a] as int][i].target == u);
                    }
                    if exists|a: int, i: int|
                        #![trigger members@[a], self.fwd()[members@[a] as int][i]]
                        0 <= a < len0 && 0 <= i < self.fwd()[members@[a] as int].len()
                            && self.fwd()[members@[a] as int][i].target == u {
                        let (a, i) = choose|a: int, i: int|
                            #![trigger members@[a], self.fwd()[members@[a] as int][i]]
                            0 <= a < len0 && 0 <= i < self.fwd()[members@[a] as int].len()
                                && self.fwd()[members@[a] as int][i].target == u;
                        let v = members@[a];
                        assert(members@.take(len0 as int)[a] == v);
                        assert(s.contains(v));
                        assert(self.successors(s).contains(u));
                    }
                }
                assert(neighbors@ =~= self.neighborhood(node, (h + 1) as nat));
            }
            h += 1;
        }
        neighbors
    }

    /// A copy of the graph.
    pub fn duplicate(&self) -> (copy: Graph)
        ensures
            copy.fwd() == self.fwd(),
            copy.bwd() == self.bwd(),
            copy.forward_edges@.len() == self.forward_edges@.len(),
            copy.backward_edges@.len() == self.backward_edges@.len(),
    {
        let mut forward_edges: Vec<Vec<Edge>> = Vec::new();
        let mut i: usize = 0;
        while i < self.forward_edges.len()
            invariant
                i <= self.forward_edges@.len(),
                forward_edges@.len() == i,
                forall|v: int| 0 <= v < i ==> #[trigger] forward_edges@[v]@ == self.forward_edges@[v]@,
            decreases self.forward_edges@.len() - i,
        {
            let list = self.forward_edges[i].clone();
            assert(list@ =~= self.forward_edges@[i as int]@);
            forward_edges.push(list);
            i += 1;
        }
        let mut backward_edges: Vec<Vec<Edge>> = Vec::new();
        let mut i: usize = 0;
        while i < self.backward_edges.len()
            invariant
                i <= self.backward_edges@.len(),
                backward_edges@.len() == i,
                forall|v: int| 0 <= v < i ==> #[trigger] backward_edges@[v]@ == self.backward_edges@[v]@,
            decreases self.backward_edges@.len() - i,
        {
            let list = self.backward_edges[i].clone();
            assert(list@ =~= self.backward_edges@[i as int]@);
            backward_edges.push(list);
            i += 1;
        }
        let copy = Graph { forward_edges, backward_edges };
        assert(copy.fwd() =~= self.fwd());
        assert(copy.bwd() =~= self.bwd());
        copy
    }

    /// Appends `edge` to the forward list of its source and the backward list of its target.
    pub fn add_edge(&mut self, edge: &Edge)
        requires
            old(self).wf(),
            old(self).is_node(edge.source as int),
            old(self).is_node(edge.target as int),
        ensures
            final(self).wf(),
            final(self).num_nodes() == old(self).num_nodes(),
            final(self).fwd() == old(self).fwd().update(
                edge.source as int,
                old(self).fwd()[edge.source as int].push(*edge),
            ),
            final(self).bwd() == old(self).bwd().update(
                edge.target as int,
                old(self).bwd()[edge.target as int].push(*edge),
            ),
    {
        let ghost f0 = self.fwd();
        let ghost b0 = self.bwd();
        self.forward_edges[edge.source as usize].push(*edge);
        self.backward_edges[edge.target as usize].push(*edge);
        proof {
            assert(self.fwd() =~= f0.update(edge.source as int, f0[edge.source as int].push(*edge)));
            assert(self.bwd() =~= b0.update(edge.target as int, b0[edge.target as int].push(*edge)));
            assert forall|v: int, i: int| #![trigger self.fwd()[v][i]]
                0 <= v < self.num_nodes() && 0 <= i < self.fwd()[v].len() implies self.fwd()[v][i].source == v
                    && self.is_node(self.fwd()[v][i].target as int) by {
                if v == edge.source && i == f0[v].len() {
                } else {
                    assert(self.fwd()[v][i] == f0[v][i]);
                }
            }
            assert forall|v: int, i: int| #![trigger self.bwd()[v][i]]
                0 <= v < self.num_nodes() && 0 <= i < self.bwd()[v].len() implies self.bwd()[v][i].target == v
                    && self.is_node(self.bwd()[v][i].source as int) by {
                if v == edge.target && i == b0[v].len() {
                } else {
                    assert(self.bwd()[v][i] == b0[v][i]);
                }
            }
            assert forall|e: Edge| #![trigger count(self.fwd()[e.source as int], e)] #![trigger count(self.bwd()[e.target as int], e)]
                self.is_node(e.source as int) && self.is_node(e.target as int) implies count(self.fwd()[e.source as int], e)
                    == count(self.bwd()[e.target as int], e) by {
                assert(count(f0[e.source as int], e) == count(b0[e.target as int], e));
                if e.source == edge.source {
                    assert(self.fwd()[e.source as int] == f0[e.source as int].push(*edge));
                }
                if e.target == edge.target {
                    assert(self.bwd()[e.target as int] == b0[e.target as int].push(*edge));
                }
            }
        }
    }

    /// Removes the node from the graph.
    ///
    /// Removing means, that afterwards, there will be no edges going into node or going out of
    /// node. Every other edge keeps its number of occurrences in every list, and the edges that
    /// stay in a list keep their order.
    pub fn disconnect(&mut self, node: u32)
        requires
            old(self).wf(),
            old(self).is_node(node as int),
        ensures
            final(self).wf(),
            final(self).num_nodes() == old(self).num_nodes(),
            forall|v: int, e: Edge| #![trigger count(final(self).fwd()[v], e)]
                0 <= v < old(self).num_nodes() ==> count(final(self).fwd()[v], e) == if e.source == node
                    || e.target == node {
                    0
                } else {
                    count(old(self).fwd()[v], e)
                },
            forall|v: int, e: Edge| #![trigger count(final(self).bwd()[v], e)]
                0 <= v < old(self).num_nodes() ==> count(final(self).bwd()[v], e) == if e.source == node
                    || e.target == node {
                    0
                } else {
                    count(old(self).bwd()[v], e)
                },
            forall|v: int, i: int| #![trigger final(self).fwd()[v][i]]
                0 <= v < final(self).num_nodes() && 0 <= i < final(self).fwd()[v].len() ==> final(self).fwd()[v][i].source
                    != node && final(self).fwd()[v][i].target != node,
            forall|v: int, i: int| #![trigger final(self).bwd()[v][i]]
                0 <= v < final(self).num_nodes() && 0 <= i < final(self).bwd()[v].len() ==> final(self).bwd()[v][i].source
                    != node && final(self).bwd()[v][i].target != node,
            forall|v: int|
                0 <= v < old(self).num_nodes() && v != node ==> #[trigger] final(self).fwd()[v] == old(self).fwd()[v].filter(clear_of(node)),
            forall|v: int|
                0 <= v < old(self).num_nodes() && v != node ==> #[trigger] final(self).bwd()[v] == old(self).bwd()[v].filter(clear_of(node)),
    {
        let ghost n = self.num_nodes();
        let ghost f0 = self.fwd();
        let ghost b0 = self.bwd();
        let mut outgoing_edges: Vec<Edge> = Vec::new();
        std::mem::swap(&mut outgoing_edges, &mut self.forward_edges[node as usize]);
        let ghost o = outgoing_edges@;
        assert(o == f0[node as int]);
        assert(self.fwd() =~= f0.update(node as int, Seq::empty()));
        let mut k: usize = 0;
        while k < outgoing_edges.len()
            invariant
                n == old(self).num_nodes(),
                old(self).wf(),
                f0 == old(self).fwd(),
                b0 == old(self).bwd(),
                o == outgoing_edges@,
                o == f0[node as int],
                node < n,
                k <= o.len(),
                self.forward_edges@.len() == n,
                self.backward_edges@.len() == n,
                self.fwd() == f0.update(node as int, Seq::empty()),
                forall|v: int, i: int| #![trigger self.bwd()[v][i]]
                    0 <= v < n && 0 <= i < self.bwd()[v].len() ==> self.bwd()[v][i].target == v
                        && 0 <= self.bwd()[v][i].source < n,
                forall|e: Edge| #![trigger count(self.bwd()[e.target as int], e)]
                    0 <= e.target < n ==> count(self.bwd()[e.target as int], e) + (if e.source == node {
                        count(o.take(k as int), e)
                    } else {
                        0
                    }) == count(b0[e.target as int], e),
                forall|v: int| 0 <= v < n && v != node ==> #[trigger] self.bwd()[v].filter(clear_of(node)) == b0[v].filter(clear_of(node)),
            decreases o.len() - k,
        {
            let oe = outgoing_edges[k];
            let t = oe.target as usize;
            proof {
                assert(f0[node as int][k as int] == oe);
                assert(oe.source == node && oe.target < n);
                lemma_count_split(o, k as int, oe);
                assert(o.skip(k as int)[0] == oe);
                assert(o.skip(k as int).contains(oe));
                assert(count(o, oe) == count(b0[t as int], oe));
                assert(count(self.bwd()[t as int], oe) > 0);
            }
            let idx = position(&self.backward_edges[t], &oe);
            let ghost before = self.bwd();
            self.backward_edges[t].remove(idx);
            proof {
                assert(self.bwd() =~= before.update(t as int, before[t as int].remove(idx as int)));
                lemma_filter_remove(before[t as int], idx as int, clear_of(node));
                assert(o.take(k + 1) == o.take(k as int).push(oe));
                assert forall|v: int, i: int| #![trigger self.bwd()[v][i]]
                    0 <= v < n && 0 <= i < self.bwd()[v].len() implies self.bwd()[v][i].target == v
                        && 0 <= self.bwd()[v][i].source < n by {
                    if v == t {
                        if i < idx {
                            assert(self.bwd()[v][i] == before[v][i]);
                        } else {
                            assert(self.bwd()[v][i] == before[v][i + 1]);
                        }
                    } else {
                        assert(self.bwd()[v][i] == before[v][i]);
                    }
                }
                assert forall|e: Edge| #![trigger count(self.bwd()[e.target as int], e)]
                    0 <= e.target < n implies count(self.bwd()[e.target as int], e) + (if e.source == node {
                        count(o.take(k + 1), e)
                    } else {
                        0
                    }) == count(b0[e.target as int], e) by {
                    assert(count(before[e.target as int], e) + (if e.source == node {
                        count(o.take(k as int), e)
                    } else {
                        0
                    }) == count(b0[e.target as int], e));
                }
            }
            k += 1;
        }
        assert(o.take(o.len() as int) == o);
        let ghost f1 = self.fwd();
        let ghost b1 = self.bwd();
        let mut incoming_edges: Vec<Edge> = Vec::new();
        std::mem::swap(&mut incoming_edges, &mut self.backward_edges[node as usize]);
        let ghost inc = incoming_edges@;
        assert(inc == b1[node as int]);
        assert(self.bwd() =~= b1.update(node as int, Seq::empty()));
        let mut k: usize = 0;
        while k < incoming_edges.len()
            invariant
                n == old(self).num_nodes(),
                old(self).wf(),
                f0 == old(self).fwd(),
                b0 == old(self).bwd(),
                o == f0[node as int],
                node < n,
                f1 == f0.update(node as int, Seq::empty()),
                inc == incoming_edges@,
                inc == b1[node as int],
                b1.len() == n,
                forall|v: int, i: int| #![trigger b1[v][i]]
                    0 <= v < n && 0 <= i < b1[v].len() ==> b1[v][i].target == v && 0 <= b1[v][i].source < n,
                forall|e: Edge| #![trigger count(b1[e.target as int], e)]
                    0 <= e.target < n ==> count(b1[e.target as int], e) + (if e.source == node {
                        count(o, e)
                    } else {
                        0
                    }) == count(b0[e.target as int], e),
                k <= inc.len(),
                self.forward_edges@.len() == n,
                self.backward_edges@.len() == n,
                self.bwd() == b1.update(node as int, Seq::empty()),
                forall|v: int, i: int| #![trigger self.fwd()[v][i]]
                    0 <= v < n && 0 <= i < self.fwd()[v].len() ==> self.fwd()[v][i].source == v
                        && 0 <= self.fwd()[v][i].target < n,
                self.fwd()[node as int].len() == 0,
                forall|e: Edge| #![trigger count(self.fwd()[e.source as int], e)]
                    0 <= e.source < n ==> count(self.fwd()[e.source as int], e) + (if e.target == node {
                        count(inc.take(k as int), e)
                    } else {
                        0
                    }) == count(f1[e.source as int], e),
                forall|v: int| 0 <= v < n && v != node ==> #[trigger] b1[v].filter(clear_of(node)) == b0[v].filter(clear_of(node)),
                forall|v: int| 0 <= v < n && v != node ==> #[trigger] self.fwd()[v].filter(clear_of(node)) == f0[v].filter(clear_of(node)),
            decreases inc.len() - k,
        {
            let ie = incoming_edges[k];
            let s = ie.source as usize;
            proof {
                assert(b1[node as int][k as int] == ie);
                assert(ie.target == node && ie.source < n);
                lemma_count_split(inc, k as int, ie);
                assert(inc.skip(k as int)[0] == ie);
                assert(inc.skip(k as int).contains(ie));
                assert(count(inc, ie) > 0);
                if ie.source == node {
                    assert(count(o, ie) == count(b0[node as int], ie));
                    assert(false);
                }
                assert(count(b1[node as int], ie) == count(b0[node as int], ie));
                assert(count(f0[s as int], ie) == count(b0[node as int], ie));
                assert(count(self.fwd()[s as int], ie) > 0);
            }
            let idx = position(&self.forward_edges[s], &ie);
            let ghost before = self.fwd();
            self.forward_edges[s].remove(idx);
            proof {
                assert(self.fwd() =~= before.update(s as int, before[s as int].remove(idx as int)));
                lemma_filter_remove(before[s as int], idx as int, clear_of(node));
                assert(inc.take(k + 1) == inc.take(k as int).push(ie));
                assert forall|v: int, i: int| #![trigger self.fwd()[v][i]]
                    0 <= v < n && 0 <= i < self.fwd()[v].len() implies self.fwd()[v][i].source == v
                        && 0 <= self.fwd()[v][i].target < n by {
                    if v == s {
                        if i < idx {
                            assert(self.fwd()[v][i] == before[v][i]);
                        } else {
                            assert(self.fwd()[v][i] == before[v][i + 1]);
                        }
                    } else {
                        assert(self.fwd()[v][i] == before[v][i]);
                    }
                }
                assert forall|e: Edge| #![trigger count(self.fwd()[e.source as int], e)]
                    0 <= e.source < n implies count(self.fwd()[e.source as int], e) + (if e.target == node {
                        count(inc.take(k + 1), e)
                    } else {
                        0
                    }) == count(f1[e.source as int], e) by {
                    assert(count(before[e.source as int], e) + (if e.target == node {
                        count(inc.take(k as int), e)
                    } else {
                        0
                    }) == count(f1[e.source as int], e));
                }
            }
            k += 1;
        }
        assert(inc.take(inc.len() as int) == inc);
        proof {
            self.lemma_disconnect_result(node, f0, b0, f1, b1, o, inc);
            assert forall|v: int|
                0 <= v < n && v != node implies #[trigger] self.fwd()[v] == f0[v].filter(clear_of(node)) && self.bwd()[v] == b0[v].filter(
                clear_of(node),
            ) by {
                assert forall|i: int| 0 <= i < self.fwd()[v].len() implies #[trigger] clear_of(node)(self.fwd()[v][i]) by {
                    assert(self.fwd()[v][i].source != node && self.fwd()[v][i].target != node);
                }
                assert forall|i: int| 0 <= i < self.bwd()[v].len() implies #[trigger] clear_of(node)(self.bwd()[v][i]) by {
                    assert(self.bwd()[v][i].source != node && self.bwd()[v][i].target != node);
                }
                lemma_filter_all(self.fwd()[v], clear_of(node));
                lemma_filter_all(self.bwd()[v], clear_of(node));
            }
            assert forall|v: int| 0 <= v < n && v != node implies #[trigger] self.bwd()[v] == b0[v].filter(clear_of(node)) by {
                assert(self.fwd()[v] == f0[v].filter(clear_of(node)));
            }
        }
    }

    proof fn lemma_disconnect_result(
        &self,
        node: u32,
        f0: Seq<Seq<Edge>>,
        b0: Seq<Seq<Edge>>,
        f1: Seq<Seq<Edge>>,
        b1: Seq<Seq<Edge>>,
        o: Seq<Edge>,
        inc: Seq<Edge>,
    )
        requires
            f0.len() == b0.len(),
            f0.len() <= u32::MAX as nat + 1,
            node < f0.len(),
            forall|v: int, i: int| #![trigger f0[v][i]]
                0 <= v < f0.len() && 0 <= i < f0[v].len() ==> f0[v][i].source == v && 0 <= f0[v][i].target < f0.len(),
            forall|v: int, i: int| #![trigger b0[v][i]]
                0 <= v < f0.len() && 0 <= i < b0[v].len() ==> b0[v][i].target == v && 0 <= b0[v][i].source < f0.len(),
            forall|e: Edge| #![trigger count(f0[e.source as int], e)] #![trigger count(b0[e.target as int], e)]
                0 <= e.source < f0.len() && 0 <= e.target < f0.len() ==> count(f0[e.source as int], e)
                    == count(b0[e.target as int], e),
            o == f0[node as int],
            f1 == f0.update(node as int, Seq::empty()),
            inc == b1[node as int],
            b1.len() == f0.len(),
            forall|e: Edge| #![trigger count(b1[e.target as int], e)]
                0 <= e.target < f0.len() ==> count(b1[e.target as int], e) + (if e.source == node {
                    count(o, e)
                } else {
                    0
                }) == count(b0[e.target as int], e),
            self.forward_edges@.len() == f0.len(),
            self.backward_edges@.len() == f0.len(),
            self.bwd() == b1.update(node as int, Seq::empty()),
            forall|v: int, i: int| #![trigger self.fwd()[v][i]]
                0 <= v < f0.len() && 0 <= i < self.fwd()[v].len() ==> self.fwd()[v][i].source == v
                    && 0 <= self.fwd()[v][i].target < f0.len(),
            forall|v: int, i: int| #![trigger b1[v][i]]
                0 <= v < f0.len() && 0 <= i < b1[v].len() ==> b1[v][i].target == v && 0 <= b1[v][i].source < f0.len(),
            self.fwd()[node as int].len() == 0,
            forall|e: Edge| #![trigger count(self.fwd()[e.source as int], e)]
                0 <= e.source < f0.len() ==> count(self.fwd()[e.source as int], e) + (if e.target == node {
                    count(inc, e)
                } else {
                    0
                }) == count(f1[e.source as int], e),
        ensures
            self.wf(),
            forall|v: int, e: Edge| #![trigger count(self.fwd()[v], e)]
                0 <= v < f0.len() ==> count(self.fwd()[v], e) == if e.source == node || e.target == node {
                    0
                } else {
                    count(f0[v], e)
                },
            forall|v: int, e: Edge| #![trigger count(self.bwd()[v], e)]
                0 <= v < f0.len() ==> count(self.bwd()[v], e) == if e.source == node || e.target == node {
                    0
                } else {
                    count(b0[v], e)
                },
            forall|v: int, i: int| #![trigger self.fwd()[v][i]]
                0 <= v < f0.len() && 0 <= i < self.fwd()[v].len() ==> self.fwd()[v][i].source != node
                    && self.fwd()[v][i].target != node,
            forall|v: int, i: int| #![trigger self.bwd()[v][i]]
                0 <= v < f0.len() && 0 <= i < self.bwd()[v].len() ==> self.bwd()[v][i].source != node
                    && self.bwd()[v][i].target != node,
    {
        let n = f0.len();
        // Counts in lists that only hold edges of another source or target are zero.
        assert forall|v: int, e: Edge| #![trigger count(self.fwd()[v], e)]
            0 <= v < n implies count(self.fwd()[v], e) == if e.source == node || e.target == node {
                0
            } else {
                count(f0[v], e)
            } by {
            if e.source != v {
                if self.fwd()[v].contains(e) {
                    let i = choose|i: int| 0 <= i < self.fwd()[v].len() && self.fwd()[v][i] == e;
                    assert(self.fwd()[v][i].source == v);
                }
                if f0[v].contains(e) {
                    let i = choose|i: int| 0 <= i < f0[v].len() && f0[v][i] == e;
                    assert(f0[v][i].source == v);
                }
                if f1[v].contains(e) {
                    let i = choose|i: int| 0 <= i < f1[v].len() && f1[v][i] == e;
                    assert(f1[v][i] == f0[v][i]);
                }
            } else if v == node {
                assert(self.fwd()[v] =~= Seq::empty());
            } else if e.target == node {
                assert(count(inc, e) == count(b1[node as int], e));
                assert(count(b1[node as int], e) == count(b0[node as int], e));
                assert(count(f0[v], e) == count(b0[node as int], e));
                assert(f1[v] == f0[v]);
            } else {
                assert(f1[v] == f0[v]);
            }
        }
        assert forall|v: int, e: Edge| #![trigger count(self.bwd()[v], e)]
            0 <= v < n implies count(self.bwd()[v], e) == if e.source == node || e.target == node {
                0
            } else {
                count(b0[v], e)
            } by {
            if e.target != v {
                if self.bwd()[v].contains(e) {
                    let i = choose|i: int| 0 <= i < self.bwd()[v].len() && self.bwd()[v][i] == e;
                    assert(self.bwd()[v][i] == b1[v][i]);
                }
                if b0[v].contains(e) {
                    let i = choose|i: int| 0 <= i < b0[v].len() && b0[v][i] == e;
                    assert(b0[v][i].target == v);
                }
            } else if v == node {
                assert(self.bwd()[v] =~= Seq::empty());
            } else {
                assert(self.bwd()[v] == b1[v]);
                if e.source == node {
                    assert(count(o, e) == count(b0[v], e));
                }
            }
        }
        assert forall|v: int, i: int| #![trigger self.fwd()[v][i]]
            0 <= v < n && 0 <= i < self.fwd()[v].len() implies self.fwd()[v][i].source != node
                && self.fwd()[v][i].target != node by {
            let e = self.fwd()[v][i];
            assert(self.fwd()[v].contains(e));
            assert(count(self.fwd()[v], e) > 0);
        }
        assert forall|v: int, i: int| #![trigger self.bwd()[v][i]]
            0 <= v < n && 0 <= i < self.bwd()[v].len() implies self.bwd()[v][i].source != node
                && self.bwd()[v][i].target != node by {
            let e = self.bwd()[v][i];
            assert(self.bwd()[v].contains(e));
            assert(count(self.bwd()[v], e) > 0);
        }
        assert forall|v: int, i: int| #![trigger self.bwd()[v][i]]
            0 <= v < n && 0 <= i < self.bwd()[v].len() implies self.bwd()[v][i].target == v
                && self.is_node(self.bwd()[v][i].source as int) by {
            assert(self.bwd()[v][i] == b1[v][i]);
        }
        assert forall|e: Edge| #![trigger count(self.fwd()[e.source as int], e)] #![trigger count(self.bwd()[e.target as int], e)]
            self.is_node(e.source as int) && self.is_node(e.target as int) implies count(self.fwd()[e.source as int], e)
                == count(self.bwd()[e.target as int], e) by {
            assert(count(self.fwd()[e.source as int], e) == if e.source == node || e.target == node {
                0
            } else {
                count(f0[e.source as int], e)
            });
            assert(count(self.bwd()[e.target as int], e) == if e.source == node || e.target == node {
                0
            } else {
                count(b0[e.target as int], e)
            });
        }
    }
}

} // verus!

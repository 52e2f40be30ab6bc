use vstd::prelude::*;

use std::collections::HashSet;

use crate::routing::graph::{Edge, Graph};

use super::queue::PriorityTerm;

verus! {

broadcast use vstd::std_specs::hash::group_hash_axioms;

/// The targets of `edges` that `deleted` marks.
pub open spec fn deleted_targets(edges: Seq<Edge>, deleted: Seq<bool>) -> Set<u32> {
    Set::new(|t: u32| exists|i: int| 0 <= i < edges.len() && #[trigger] edges[i].target == t && t < deleted.len() && deleted[t as int])
}

/// The targets of `edges`.
pub open spec fn targets(edges: Seq<Edge>) -> Set<u32> {
    Set::new(|t: u32| exists|i: int| 0 <= i < edges.len() && #[trigger] edges[i].target == t)
}

/// Adding an edge adds its target to the targets, and to the marked ones if it is marked.
proof fn lemma_push(edges: Seq<Edge>, e: Edge, deleted: Seq<bool>)
    ensures
        targets(edges.push(e)) == targets(edges).insert(e.target),
        deleted_targets(edges.push(e), deleted) == if e.target < deleted.len() && deleted[e.target as int] {
            deleted_targets(edges, deleted).insert(e.target)
        } else {
            deleted_targets(edges, deleted)
        },
{
    let s = edges.push(e);
    assert forall|t: u32| #[trigger] targets(s).contains(t) <==> targets(edges).insert(e.target).contains(t) by {
        if targets(s).contains(t) {
            let i = choose|i: int| 0 <= i < s.len() && #[trigger] s[i].target == t;
            if i < edges.len() {
                assert(edges[i] == s[i]);
            }
        }
        if targets(edges).contains(t) {
            let i = choose|i: int| 0 <= i < edges.len() && #[trigger] edges[i].target == t;
            assert(s[i] == edges[i]);
        }
        if t == e.target {
            assert(s[edges.len() as int] == e);
        }
    }
    assert(targets(s) =~= targets(edges).insert(e.target));
    let d0 = deleted_targets(edges, deleted);
    let d1 = deleted_targets(s, deleted);
    let expected = if e.target < deleted.len() && deleted[e.target as int] { d0.insert(e.target) } else { d0 };
    assert forall|t: u32| #[trigger] d1.contains(t) <==> expected.contains(t) by {
        if d1.contains(t) {
            let i = choose|i: int| 0 <= i < s.len() && #[trigger] s[i].target == t && t < deleted.len() && deleted[t as int];
            if i < edges.len() {
                assert(edges[i] == s[i]);
            }
        }
        if d0.contains(t) {
            let i = choose|i: int| 0 <= i < edges.len() && #[trigger] edges[i].target == t && t < deleted.len() && deleted[t as int];
            assert(s[i] == edges[i]);
        }
        if t == e.target && t < deleted.len() && deleted[t as int] {
            assert(s[edges.len() as int] == e);
        }
    }
    assert(d1 =~= expected);
}

/// The marked targets are finite and at most as many as the edges.
pub proof fn lemma_deleted_targets_len(edges: Seq<Edge>, deleted: Seq<bool>)
    ensures
        deleted_targets(edges, deleted).finite(),
        deleted_targets(edges, deleted).len() <= edges.len(),
    decreases edges.len(),
{
    if edges.len() == 0 {
        assert(deleted_targets(edges, deleted) =~= Set::empty());
    } else {
        let d = edges.drop_last();
        lemma_deleted_targets_len(d, deleted);
        assert(edges =~= d.push(edges.last()));
        lemma_push(d, edges.last(), deleted);
    }
}

/// The number of distinct neighbors of a node that are deleted already.
pub struct DeletedNeighbors {
    deleted: Vec<bool>,
}

impl DeletedNeighbors {
    /// Which nodes are deleted.
    pub closed spec fn deleted(&self) -> Seq<bool> {
        self.deleted@
    }

    /// The number of nodes.
    pub fn num_nodes(&self) -> (n: usize)
        ensures
            n == self.deleted().len(),
    {
        self.deleted.len()
    }

    /// A term for `num_nodes` nodes, none deleted.
    pub fn new(num_nodes: u32) -> (term: Self)
        ensures
            term.deleted() == Seq::new(num_nodes as nat, |v: int| false),
    {
        let mut deleted: Vec<bool> = Vec::new();
        while deleted.len() < num_nodes as usize
            invariant
                deleted@.len() <= num_nodes,
                forall|v: int| 0 <= v < deleted@.len() ==> !(#[trigger] deleted@[v]),
            decreases num_nodes - deleted@.len(),
        {
            deleted.push(false);
        }
        assert(deleted@ =~= Seq::new(num_nodes as nat, |v: int| false));
        Self { deleted }
    }

    /// A number of deleted neighbors lies between 0 and the number of edges leaving the node.
    pub proof fn lemma_rating_bounds(term: Self, v: u32, graph: Graph, p: i32)
        requires
            term.rating(v, graph, p),
        ensures
            0 <= p <= graph.fwd()[v as int].len(),
    {
        lemma_deleted_targets_len(graph.fwd()[v as int], term.deleted@);
    }
}

impl PriorityTerm for DeletedNeighbors {
    open spec fn rates(&self, v: u32, graph: Graph) -> bool {
        &&& self.deleted().len() == graph.num_nodes()
        &&& graph.fwd()[v as int].len() <= i32::MAX
    }

    /// The number of distinct targets of edges leaving `v` that are deleted.
    open spec fn rating(&self, v: u32, graph: Graph, p: i32) -> bool {
        p == deleted_targets(graph.fwd()[v as int], self.deleted()).len()
    }

    open spec fn updates(&self, v: u32, graph: Graph) -> bool {
        v < self.deleted().len()
    }

    /// `v` is deleted.
    open spec fn updated(&self, v: u32, graph: Graph, next: Self) -> bool {
        next.deleted() == self.deleted().update(v as int, true)
    }

    fn priority(&self, v: u32, graph: &Graph) -> (p: i32) {
        let edges = &graph.forward_edges[v as usize];
        let mut seen: HashSet<u32> = HashSet::new();
        let mut count: u32 = 0;
        let ghost mut found: Set<u32> = Set::empty();
        let mut i: usize = 0;
        while i < edges.len()
            invariant
                graph.wf(),
                graph.is_node(v as int),
                edges@ == graph.fwd()[v as int],
                self.deleted().len() == graph.num_nodes(),
                edges@.len() <= i32::MAX,
                i <= edges@.len(),
                seen@ == targets(edges@.take(i as int)),
                found == deleted_targets(edges@.take(i as int), self.deleted()),
                found.finite(),
                count == found.len(),
                count <= i,
            decreases edges@.len() - i,
        {
            let e = edges[i];
            proof {
                assert(edges@.take(i + 1) =~= edges@.take(i as int).push(e));
                lemma_push(edges@.take(i as int), e, self.deleted());
                assert(graph.fwd()[v as int][i as int] == e);
            }
            if !seen.contains(&e.target) {
                seen.insert(e.target);
                if self.deleted[e.target as usize] {
                    proof {
                        if found.contains(e.target) {
                            let k = choose|k: int| 0 <= k < i && #[trigger] edges@.take(i as int)[k].target == e.target && e.target < self.deleted().len() && self.deleted()[e.target as int];
                            assert(targets(edges@.take(i as int)).contains(e.target));
                        }
                        found = found.insert(e.target);
                    }
                    count += 1;
                }
            } else {
                proof {
                    if e.target < self.deleted().len() && self.deleted()[e.target as int] {
                        let k = choose|k: int| 0 <= k < i && #[trigger] edges@.take(i as int)[k].target == e.target;
                        assert(found.contains(e.target));
                        assert(found.insert(e.target) =~= found);
                    }
                }
            }
            i += 1;
        }
        assert(edges@.take(edges@.len() as int) =~= edges@);
        count as i32
    }

    fn update_before_contraction(&mut self, v: u32, graph: &Graph) {
        self.deleted.set(v as usize, true);
    }
}

} // verus!

use vstd::prelude::*;

use crate::routing::graph::Graph;

use super::queue::{lemma_one_hop, PriorityTerm};

verus! {

/// For every node, a bound on the depth of searches that reach it: contracting a node raises
/// the bound of each node within one hop of it to at least one more than its own.
pub struct CostOfQueries {
    costs: Vec<i32>,
}

impl CostOfQueries {
    /// The bound of every node.
    pub closed spec fn costs(&self) -> Seq<i32> {
        self.costs@
    }

    /// A term for `num_nodes` nodes, every bound 0.
    pub fn new(num_nodes: u32) -> (term: Self)
        ensures
            term.costs() == Seq::new(num_nodes as nat, |v: int| 0i32),
    {
        let mut costs: Vec<i32> = Vec::new();
        while costs.len() < num_nodes as usize
            invariant
                costs@.len() <= num_nodes,
                forall|v: int| 0 <= v < costs@.len() ==> #[trigger] costs@[v] == 0,
            decreases num_nodes - costs@.len(),
        {
            costs.push(0);
        }
        assert(costs@ =~= Seq::new(num_nodes as nat, |v: int| 0i32));
        Self { costs }
    }
}

/// The larger of `a` and `b`.
pub open spec fn larger(a: i32, b: i32) -> i32 {
    if a >= b { a } else { b }
}

impl PriorityTerm for CostOfQueries {
    open spec fn rates(&self, v: u32, graph: Graph) -> bool {
        v < self.costs().len()
    }

    /// The bound of `v`.
    open spec fn rating(&self, v: u32, graph: Graph, p: i32) -> bool {
        p == self.costs()[v as int]
    }

    open spec fn updates(&self, v: u32, graph: Graph) -> bool {
        &&& self.costs().len() == graph.num_nodes()
        &&& self.costs()[v as int] < i32::MAX
    }

    /// Every node within one hop of `v` has at least the bound of `v` plus one.
    open spec fn updated(&self, v: u32, graph: Graph, next: Self) -> bool {
        next.costs() == Seq::new(
            self.costs().len(),
            |w: int|
                if graph.neighborhood(v, 1).contains(w as u32) {
                    larger(self.costs()[w], (self.costs()[v as int] + 1) as i32)
                } else {
                    self.costs()[w]
                },
        )
    }

    fn priority(&self, v: u32, graph: &Graph) -> (p: i32) {
        self.costs[v as usize]
    }

    fn update_before_contraction(&mut self, v: u32, graph: &Graph) {
        let ghost c0 = self.costs@;
        let v_cost = self.costs[v as usize] + 1;
        let edges = &graph.forward_edges[v as usize];
        let current = self.costs[v as usize];
        self.costs.set(v as usize, if current >= v_cost { current } else { v_cost });
        let mut i: usize = 0;
        while i < edges.len()
            invariant
                graph.wf(),
                graph.is_node(v as int),
                edges@ == graph.fwd()[v as int],
                c0.len() == graph.num_nodes(),
                self.costs@.len() == c0.len(),
                v_cost == c0[v as int] + 1,
                i <= edges@.len(),
                forall|w: int|
                    0 <= w < c0.len() ==> #[trigger] self.costs@[w] == if w == v || exists|k: int|
                        0 <= k < i && #[trigger] edges@[k].target == w {
                        larger(c0[w], v_cost)
                    } else {
                        c0[w]
                    },
            decreases edges@.len() - i,
        {
            let t = edges[i].target;
            assert(graph.fwd()[v as int][i as int] == edges[i as int]);
            let c = self.costs[t as usize];
            self.costs.set(t as usize, if c >= v_cost { c } else { v_cost });
            proof {
                assert forall|w: int|
                    0 <= w < c0.len() implies #[trigger] self.costs@[w] == if w == v || exists|k: int|
                        0 <= k < i + 1 && #[trigger] edges@[k].target == w {
                        larger(c0[w], v_cost)
                    } else {
                        c0[w]
                    } by {
                    if w == t {
                        assert(edges@[i as int].target == w);
                    } else if exists|k: int| 0 <= k < i + 1 && #[trigger] edges@[k].target == w {
                        let k = choose|k: int| 0 <= k < i + 1 && #[trigger] edges@[k].target == w;
                        assert(k < i);
                    }
                }
            }
            i += 1;
        }
        proof {
            assert forall|w: int| 0 <= w < c0.len() implies #[trigger] self.costs@[w] == if graph.neighborhood(v, 1).contains(w as u32) {
                larger(c0[w], (c0[v as int] + 1) as i32)
            } else {
                c0[w]
            } by {
                lemma_one_hop(*graph, v, w as u32);
                if exists|k: int| 0 <= k < edges@.len() && #[trigger] edges@[k].target == w {
                    let k = choose|k: int| 0 <= k < edges@.len() && #[trigger] edges@[k].target == w;
                    assert(graph.fwd()[v as int][k].target == w as u32);
                }
                if exists|k: int| 0 <= k < graph.fwd()[v as int].len() && #[trigger] graph.fwd()[v as int][k].target == w as u32 {
                    let k = choose|k: int| 0 <= k < graph.fwd()[v as int].len() && #[trigger] graph.fwd()[v as int][k].target == w as u32;
                    assert(edges@[k].target == w);
                }
            }
            assert(self.costs@ =~= Seq::new(
                c0.len(),
                |w: int|
                    if graph.neighborhood(v, 1).contains(w as u32) {
                        larger(c0[w], (c0[v as int] + 1) as i32)
                    } else {
                        c0[w]
                    },
            ));
        }
    }
}

} // verus!

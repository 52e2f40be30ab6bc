use vstd::prelude::*;

use std::collections::HashSet;

use crate::routing::graph::{Edge, Graph};

use super::queue::{lemma_one_hop, PriorityTerm};

verus! {

broadcast use vstd::std_specs::hash::group_hash_axioms;

/// The index of the first edge of `edges` with the smallest cost; -1 for no edges.
pub open spec fn first_min_index(edges: Seq<Edge>) -> int
    decreases edges.len(),
{
    if edges.len() == 0 {
        -1
    } else {
        let r = first_min_index(edges.drop_last());
        if r < 0 || edges.last().cost < edges[r].cost { edges.len() - 1 } else { r }
    }
}

/// The target of the first edge of `edges` with the smallest cost; `None` for no edges.
pub open spec fn nearest(edges: Seq<Edge>) -> Option<u32> {
    if edges.len() == 0 { None } else { Some(edges[first_min_index(edges)].target) }
}

proof fn lemma_first_min_index(edges: Seq<Edge>)
    ensures
        edges.len() == 0 ==> first_min_index(edges) == -1,
        edges.len() > 0 ==> 0 <= first_min_index(edges) < edges.len(),
    decreases edges.len(),
{
    if edges.len() > 0 {
        lemma_first_min_index(edges.drop_last());
    }
}

/// The target of the first edge of `edges` with the smallest cost.
fn nearest_of(edges: &Vec<Edge>) -> (t: Option<u32>)
    ensures
        t == nearest(edges@),
{
    if edges.len() == 0 {
        return None;
    }
    let mut best: usize = 0;
    let mut i: usize = 1;
    proof {
        assert(edges@.take(1).drop_last() =~= Seq::<Edge>::empty());
        assert(first_min_index(Seq::<Edge>::empty()) == -1);
        assert(first_min_index(edges@.take(1)) == 0);
    }
    while i < edges.len()
        invariant
            1 <= i <= edges@.len(),
            best as int == first_min_index(edges@.take(i as int)),
        decreases edges@.len() - i,
    {
        proof {
            assert(edges@.take(i + 1).drop_last() =~= edges@.take(i as int));
            lemma_first_min_index(edges@.take(i as int));
        }
        if edges[i].cost < edges[best].cost {
            best = i;
        }
        i += 1;
    }
    assert(edges@.take(edges@.len() as int) =~= edges@);
    proof {
        lemma_first_min_index(edges@);
    }
    Some(edges[best].target)
}

/// The largest `r` with `r * r <= x`.
pub fn integer_sqrt(x: u32) -> (r: u32)
    ensures
        r * r <= x < (r + 1) * (r + 1),
{
    let mut r: u64 = 0;
    loop
        invariant
            r * r <= x,
            r <= 65535,
        ensures
            r * r <= x < (r + 1) * (r + 1),
            r <= 65535,
        decreases 65536 - r,
    {
        let next = r + 1;
        assert(next * next <= 65536 * 65536) by (nonlinear_arith)
            requires
                next <= 65536,
        ;
        if next * next > x as u64 {
            break;
        }
        r = next;
        assert(r <= 65535) by (nonlinear_arith)
            requires
                r * r <= x,
                x <= u32::MAX,
        ;
    }
    r as u32
}

/// The nodes within one hop of `v` whose cheapest edge (the first one where there are several)
/// leads to `v`.
pub open spec fn region(v: u32, graph: Graph) -> Set<u32> {
    Set::new(|nb: u32| graph.neighborhood(v, 1).contains(nb) && (nb as int) < graph.num_nodes() && nearest(graph.fwd()[nb as int]) == Some(v))
}

/// The square root, rounded down, of the number of nodes within one hop of a node whose
/// cheapest edge leads to it.
pub struct VoronoiRegion {}

impl VoronoiRegion {
    pub fn new() -> (term: Self) {
        Self {}
    }
}

impl PriorityTerm for VoronoiRegion {
    open spec fn rates(&self, v: u32, graph: Graph) -> bool {
        graph.fwd()[v as int].len() < u32::MAX
    }

    /// The square root, rounded down, of the size of the region of `v`.
    open spec fn rating(&self, v: u32, graph: Graph, p: i32) -> bool {
        &&& region(v, graph).finite()
        &&& p >= 0
        &&& p * p <= region(v, graph).len() < (p + 1) * (p + 1)
    }

    open spec fn updates(&self, v: u32, graph: Graph) -> bool {
        true
    }

    open spec fn updated(&self, v: u32, graph: Graph, next: Self) -> bool {
        true
    }

    fn priority(&self, v: u32, graph: &Graph) -> (p: i32) {
        let edges = &graph.forward_edges[v as usize];
        let mut candidates: Vec<u32> = Vec::new();
        candidates.push(v);
        let mut k: usize = 0;
        while k < edges.len()
            invariant
                graph.wf(),
                graph.is_node(v as int),
                edges@ == graph.fwd()[v as int],
                edges@.len() < u32::MAX,
                forall|j: int| 0 <= j < candidates@.len() ==> graph.is_node(#[trigger] candidates@[j] as int),
                k <= edges@.len(),
                candidates@.len() == k + 1,
                candidates@[0] == v,
                forall|j: int| 0 <= j < k ==> #[trigger] candidates@[j + 1] == edges@[j].target,
            decreases edges@.len() - k,
        {
            assert(graph.fwd()[v as int][k as int] == edges@[k as int]);
            candidates.push(edges[k].target);
            k += 1;
        }
        proof {
            assert forall|w: u32| graph.neighborhood(v, 1).contains(w) <==> candidates@.contains(w) by {
                lemma_one_hop(*graph, v, w);
                if candidates@.contains(w) {
                    let j = choose|j: int| 0 <= j < candidates@.len() && candidates@[j] == w;
                    if j > 0 {
                        assert(candidates@[(j - 1) + 1] == edges@[j - 1].target);
                        assert(graph.fwd()[v as int][j - 1].target == w);
                    }
                }
                if graph.neighborhood(v, 1).contains(w) {
                    if w != v {
                        let i = choose|i: int| 0 <= i < graph.fwd()[v as int].len() && #[trigger] graph.fwd()[v as int][i].target == w;
                        assert(candidates@[i + 1] == w);
                    } else {
                        assert(candidates@[0] == w);
                    }
                }
            }
        }
        let mut seen: HashSet<u32> = HashSet::new();
        let mut region_size: u32 = 0;
        let ghost mut found: Set<u32> = Set::empty();
        let mut i: usize = 0;
        while i < candidates.len()
            invariant
                graph.wf(),
                graph.is_node(v as int),
                candidates@.len() <= u32::MAX,
                forall|j: int| 0 <= j < candidates@.len() ==> graph.is_node(#[trigger] candidates@[j] as int),
                i <= candidates@.len(),
                seen@ == candidates@.take(i as int).to_set(),
                found == Set::new(|nb: u32| seen@.contains(nb) && (nb as int) < graph.num_nodes() && nearest(graph.fwd()[nb as int]) == Some(v)),
                found.finite(),
                region_size == found.len(),
                region_size <= i,
            decreases candidates@.len() - i,
        {
            let nb = candidates[i];
            proof {
                assert(candidates@.take(i + 1) =~= candidates@.take(i as int).push(nb));
                candidates@.take(i as int).lemma_push_to_set_commute(nb);
            }
            if !seen.contains(&nb) {
                seen.insert(nb);
                let hit = nearest_of(&graph.forward_edges[nb as usize]);
                let ghost next = Set::new(
                    |x: u32| seen@.contains(x) && (x as int) < graph.num_nodes() && nearest(graph.fwd()[x as int]) == Some(v),
                );
                if hit == Some(v) {
                    proof {
                        assert(next =~= found.insert(nb));
                        found = found.insert(nb);
                    }
                    region_size += 1;
                } else {
                    proof {
                        assert(next =~= found);
                    }
                }
            } else {
                proof {
                    assert(candidates@.take(i + 1).to_set() =~= candidates@.take(i as int).to_set());
                }
            }
            i += 1;
        }
        proof {
            assert(candidates@.take(candidates@.len() as int) =~= candidates@);
            assert(found =~= region(v, *graph)) by {
                assert forall|nb: u32| found.contains(nb) <==> region(v, *graph).contains(nb) by {
                    assert(seen@.contains(nb) <==> candidates@.contains(nb));
                }
            }
        }
        let r = integer_sqrt(region_size);
        proof {
            assert(r * r <= region_size);
            assert(r <= 65536) by (nonlinear_arith)
                requires
                    r * r <= region_size,
                    region_size <= u32::MAX,
            ;
        }
        r as i32
    }

    fn update_before_contraction(&mut self, v: u32, graph: &Graph) {
    }
}

} // verus!

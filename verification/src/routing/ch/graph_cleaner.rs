//! Cleaning a graph before contraction: self loops and dearer parallel edges go.
use vstd::prelude::*;

use std::collections::HashMap;

use crate::routing::graph::{count, Edge, Graph};

verus! {

broadcast use {vstd::seq_lib::group_to_multiset_ensures, vstd::multiset::group_multiset_axioms, vstd::std_specs::hash::group_hash_axioms};

/// The edges of `s` that `keep` keeps, in order.
pub open spec fn kept(s: Seq<Edge>, keep: spec_fn(Edge) -> bool) -> Seq<Edge>
    decreases s.len(),
{
    if s.len() == 0 {
        Seq::empty()
    } else {
        let r = kept(s.drop_last(), keep);
        if keep(s.last()) { r.push(s.last()) } else { r }
    }
}

/// An edge occurs in the kept edges as often as in `s` if `keep` keeps it, and never otherwise;
/// every kept edge is kept by `keep` and occurs in `s`.
pub proof fn lemma_kept(s: Seq<Edge>, keep: spec_fn(Edge) -> bool)
    ensures
        forall|e: Edge| #[trigger] count(kept(s, keep), e) == if keep(e) { count(s, e) } else { 0 },
        forall|i: int| 0 <= i < kept(s, keep).len() ==> keep(#[trigger] kept(s, keep)[i]) && s.contains(kept(s, keep)[i]),
    decreases s.len(),
{
    if s.len() > 0 {
        let d = s.drop_last();
        lemma_kept(d, keep);
        assert(s =~= d.push(s.last()));
        let r = kept(d, keep);
        assert forall|e: Edge| #[trigger] count(kept(s, keep), e) == if keep(e) { count(s, e) } else { 0 } by {
            assert(count(r, e) == if keep(e) { count(d, e) } else { 0 });
            assert(s.to_multiset() =~= d.to_multiset().insert(s.last()));
            if keep(s.last()) {
                assert(kept(s, keep).to_multiset() =~= r.to_multiset().insert(s.last()));
            }
        }
        assert forall|i: int| 0 <= i < kept(s, keep).len() implies keep(#[trigger] kept(s, keep)[i]) && s.contains(kept(s, keep)[i]) by {
            if i < r.len() {
                assert(kept(s, keep)[i] == r[i]);
                let j = choose|j: int| 0 <= j < d.len() && d[j] == r[i];
                assert(s[j] == r[i]);
            } else {
                assert(s[s.len() - 1] == s.last());
            }
        }
    }
}

/// Keeps the edges of `list` for which `f` answers `true`, in order.
pub(crate) fn retain_edges<F: Fn(Edge) -> bool>(list: &mut Vec<Edge>, f: F, Ghost(keep): Ghost<spec_fn(Edge) -> bool>)
    requires
        forall|i: int| 0 <= i < old(list)@.len() ==> f.requires((#[trigger] old(list)@[i],)),
        forall|i: int, r: bool| 0 <= i < old(list)@.len() && #[trigger] f.ensures((old(list)@[i],), r) ==> r == keep(old(list)@[i]),
    ensures
        final(list)@ == kept(old(list)@, keep),
{
    let mut out: Vec<Edge> = Vec::new();
    let mut i: usize = 0;
    while i < list.len()
        invariant
            list@ == old(list)@,
            i <= list@.len(),
            out@ == kept(list@.take(i as int), keep),
            forall|k: int| 0 <= k < old(list)@.len() ==> f.requires((#[trigger] old(list)@[k],)),
            forall|k: int, r: bool| 0 <= k < old(list)@.len() && #[trigger] f.ensures((old(list)@[k],), r) ==> r == keep(old(list)@[k]),
        decreases list@.len() - i,
    {
        let e = list[i];
        assert(list@.take(i + 1).drop_last() =~= list@.take(i as int));
        assert(list@.take(i + 1).last() == e);
        let k = f(e);
        if k {
            out.push(e);
        }
        i += 1;
    }
    assert(list@.take(list@.len() as int) =~= list@);
    *list = out;
}

/// Keeps edges that do not enter `v`.
pub open spec fn not_into(v: int) -> spec_fn(Edge) -> bool {
    |e: Edge| e.target != v
}

/// Keeps edges that do not leave `v`.
pub open spec fn not_from(v: int) -> spec_fn(Edge) -> bool {
    |e: Edge| e.source != v
}

/// Removes every edge from a node to itself: from each forward list the edges that enter its
/// node, from each backward list the edges that leave its node, the other edges in order.
pub fn remove_edge_to_self(graph: &mut Graph)
    requires
        old(graph).forward_edges@.len() <= u32::MAX as nat + 1,
        old(graph).backward_edges@.len() <= u32::MAX as nat + 1,
    ensures
        old(graph).wf() ==> final(graph).wf(),
        final(graph).num_nodes() == old(graph).num_nodes(),
        final(graph).backward_edges@.len() == old(graph).backward_edges@.len(),
        forall|v: int| 0 <= v < old(graph).num_nodes() ==> #[trigger] final(graph).fwd()[v] == kept(old(graph).fwd()[v], not_into(v)),
        forall|v: int| 0 <= v < old(graph).backward_edges@.len() ==> #[trigger] final(graph).bwd()[v] == kept(old(graph).bwd()[v], not_from(v)),
{
    let ghost f0 = graph.fwd();
    let ghost b0 = graph.bwd();
    let ghost n = graph.backward_edges@.len();
    let ghost nf = graph.forward_edges@.len();
    let mut i: usize = 0;
    while i < graph.backward_edges.len()
        invariant
            graph.forward_edges@.len() == nf,
            graph.backward_edges@.len() == n,
            graph.fwd() == f0,
            i <= n,
            n <= u32::MAX as nat + 1,
            forall|v: int| 0 <= v < i ==> #[trigger] graph.bwd()[v] == kept(b0[v], not_from(v)),
            forall|v: int| i <= v < n ==> #[trigger] graph.bwd()[v] == b0[v],
        decreases n - i,
    {
        let node = i as u32;
        let ghost before = graph.bwd();
        let keep = |edge: Edge| -> (r: bool)
            ensures
                r == (edge.source != node),
            { edge.source != node };
        assert forall|e: Edge, r: bool| #[trigger] keep.ensures((e,), r) implies r == not_from(i as int)(e) by {}
        retain_edges(&mut graph.backward_edges[i], keep, Ghost(not_from(i as int)));
        proof {
            assert(graph.bwd() =~= before.update(i as int, kept(before[i as int], not_from(i as int))));
            assert forall|v: int| 0 <= v < i + 1 implies #[trigger] graph.bwd()[v] == kept(b0[v], not_from(v)) by {
                if v < i {
                    assert(graph.bwd()[v] == before[v]);
                }
            }
            assert forall|v: int| i + 1 <= v < n implies #[trigger] graph.bwd()[v] == b0[v] by {
                assert(graph.bwd()[v] == before[v]);
            }
            assert(graph.fwd() =~= f0);
        }
        i += 1;
    }
    let ghost b1 = graph.bwd();
    let mut i: usize = 0;
    while i < graph.forward_edges.len()
        invariant
            graph.forward_edges@.len() == nf,
            graph.backward_edges@.len() == n,
            graph.bwd() == b1,
            i <= nf,
            nf <= u32::MAX as nat + 1,
            forall|v: int| 0 <= v < n ==> #[trigger] b1[v] == kept(b0[v], not_from(v)),
            forall|v: int| 0 <= v < i ==> #[trigger] graph.fwd()[v] == kept(f0[v], not_into(v)),
            forall|v: int| i <= v < nf ==> #[trigger] graph.fwd()[v] == f0[v],
        decreases nf - i,
    {
        let node = i as u32;
        let ghost before = graph.fwd();
        let keep = |edge: Edge| -> (r: bool)
            ensures
                r == (edge.target != node),
            { edge.target != node };
        assert forall|e: Edge, r: bool| #[trigger] keep.ensures((e,), r) implies r == not_into(i as int)(e) by {}
        retain_edges(&mut graph.forward_edges[i], keep, Ghost(not_into(i as int)));
        proof {
            assert(graph.fwd() =~= before.update(i as int, kept(before[i as int], not_into(i as int))));
            assert forall|v: int| 0 <= v < i + 1 implies #[trigger] graph.fwd()[v] == kept(f0[v], not_into(v)) by {
                if v < i {
                    assert(graph.fwd()[v] == before[v]);
                }
            }
            assert forall|v: int| i + 1 <= v < nf implies #[trigger] graph.fwd()[v] == f0[v] by {
                assert(graph.fwd()[v] == before[v]);
            }
            assert(graph.bwd() =~= b1);
        }
        i += 1;
    }
    proof {
        assert forall|v: int| 0 <= v < nf implies #[trigger] graph.fwd()[v] == kept(f0[v], not_into(v)) by {}
        if old(graph).wf() {
            lemma_filtered_wf(*old(graph), *graph, |v: int| not_into(v), |v: int| not_from(v));
        }
    }
}

/// A graph whose lists keep, of the lists of a well-formed graph, what a per-list filter keeps
/// is well formed, when the filter of the forward list of an edge's source and that of the
/// backward list of its target agree on the edge.
pub proof fn lemma_filtered_wf(
    g0: Graph,
    g1: Graph,
    keep_fwd: spec_fn(int) -> spec_fn(Edge) -> bool,
    keep_bwd: spec_fn(int) -> spec_fn(Edge) -> bool,
)
    requires
        g0.wf(),
        g1.num_nodes() == g0.num_nodes(),
        g1.backward_edges@.len() == g0.num_nodes(),
        forall|v: int| 0 <= v < g0.num_nodes() ==> #[trigger] g1.fwd()[v] == kept(g0.fwd()[v], keep_fwd(v)),
        forall|v: int| 0 <= v < g0.num_nodes() ==> #[trigger] g1.bwd()[v] == kept(g0.bwd()[v], keep_bwd(v)),
        forall|e: Edge| g0.is_node(e.source as int) && g0.is_node(e.target as int) && #[trigger] count(g0.fwd()[e.source as int], e) > 0 ==> keep_fwd(e.source as int)(e) == keep_bwd(e.target as int)(e),
    ensures
        g1.wf(),
{
    let n = g0.num_nodes();
    assert forall|v: int, i: int| #![trigger g1.fwd()[v][i]]
        0 <= v < n && 0 <= i < g1.fwd()[v].len() implies g1.fwd()[v][i].source == v && g1.is_node(g1.fwd()[v][i].target as int) by {
        lemma_kept(g0.fwd()[v], keep_fwd(v));
        let e = g1.fwd()[v][i];
        assert(g0.fwd()[v].contains(e));
        let j = choose|j: int| 0 <= j < g0.fwd()[v].len() && g0.fwd()[v][j] == e;
        assert(g0.fwd()[v][j] == e);
    }
    assert forall|v: int, i: int| #![trigger g1.bwd()[v][i]]
        0 <= v < n && 0 <= i < g1.bwd()[v].len() implies g1.bwd()[v][i].target == v && g1.is_node(g1.bwd()[v][i].source as int) by {
        lemma_kept(g0.bwd()[v], keep_bwd(v));
        let e = g1.bwd()[v][i];
        assert(g0.bwd()[v].contains(e));
        let j = choose|j: int| 0 <= j < g0.bwd()[v].len() && g0.bwd()[v][j] == e;
        assert(g0.bwd()[v][j] == e);
    }
    assert forall|e: Edge| #![trigger count(g1.fwd()[e.source as int], e)] #![trigger count(g1.bwd()[e.target as int], e)]
        g1.is_node(e.source as int) && g1.is_node(e.target as int) implies count(g1.fwd()[e.source as int], e) == count(
        g1.bwd()[e.target as int],
        e,
    ) by {
        lemma_kept(g0.fwd()[e.source as int], keep_fwd(e.source as int));
        lemma_kept(g0.bwd()[e.target as int], keep_bwd(e.target as int));
        assert(count(g0.fwd()[e.source as int], e) == count(g0.bwd()[e.target as int], e));
    }
}

/// The smallest cost of an edge of `s` from `src` to `tgt`; `u32::MAX + 1` where there is none.
pub open spec fn pair_min(s: Seq<Edge>, src: u32, tgt: u32) -> int
    decreases s.len(),
{
    if s.len() == 0 {
        u32::MAX as int + 1
    } else {
        let m = pair_min(s.drop_last(), src, tgt);
        let e = s.last();
        if e.source == src && e.target == tgt && e.cost < m { e.cost as int } else { m }
    }
}

/// Keeps the edges that cost no more than every edge of `s` with the same source and target.
pub open spec fn cheapest(s: Seq<Edge>) -> spec_fn(Edge) -> bool {
    |e: Edge| e.cost <= pair_min(s, e.source, e.target)
}

/// The smallest cost is at most the cost of every edge of the pair, and is the cost of one of
/// them unless there is none.
pub proof fn lemma_pair_min(s: Seq<Edge>, src: u32, tgt: u32)
    ensures
        pair_min(s, src, tgt) <= u32::MAX as int + 1,
        forall|i: int| 0 <= i < s.len() && (#[trigger] s[i]).source == src && s[i].target == tgt ==> pair_min(s, src, tgt) <= s[i].cost,
        pair_min(s, src, tgt) <= u32::MAX ==> exists|i: int|
            0 <= i < s.len() && (#[trigger] s[i]).source == src && s[i].target == tgt && s[i].cost == pair_min(s, src, tgt),
    decreases s.len(),
{
    if s.len() > 0 {
        let d = s.drop_last();
        lemma_pair_min(d, src, tgt);
        assert forall|i: int| 0 <= i < s.len() && (#[trigger] s[i]).source == src && s[i].target == tgt implies pair_min(s, src, tgt) <= s[i].cost by {
            if i < d.len() {
                assert(s[i] == d[i]);
            }
        }
        if pair_min(s, src, tgt) <= u32::MAX {
            if pair_min(s, src, tgt) == pair_min(d, src, tgt) {
                let i = choose|i: int| 0 <= i < d.len() && (#[trigger] d[i]).source == src && d[i].target == tgt && d[i].cost == pair_min(d, src, tgt);
                assert(s[i] == d[i]);
            } else {
                assert(s[s.len() - 1] == s.last());
            }
        }
    }
}

/// Two lists that hold the same edges from `src` to `tgt` give the pair the same smallest cost.
pub proof fn lemma_pair_min_same(s1: Seq<Edge>, s2: Seq<Edge>, src: u32, tgt: u32)
    requires
        forall|e: Edge| e.source == src && e.target == tgt ==> (s1.contains(e) <==> s2.contains(e)),
    ensures
        pair_min(s1, src, tgt) == pair_min(s2, src, tgt),
{
    lemma_pair_min(s1, src, tgt);
    lemma_pair_min(s2, src, tgt);
    if pair_min(s1, src, tgt) <= u32::MAX {
        let i = choose|i: int| 0 <= i < s1.len() && (#[trigger] s1[i]).source == src && s1[i].target == tgt && s1[i].cost == pair_min(s1, src, tgt);
        assert(s1.contains(s1[i]));
        let j = choose|j: int| 0 <= j < s2.len() && s2[j] == s1[i];
        assert(s2[j].source == src);
    }
    if pair_min(s2, src, tgt) <= u32::MAX {
        let i = choose|i: int| 0 <= i < s2.len() && (#[trigger] s2[i]).source == src && s2[i].target == tgt && s2[i].cost == pair_min(s2, src, tgt);
        assert(s2.contains(s2[i]));
        let j = choose|j: int| 0 <= j < s1.len() && s1[j] == s2[i];
        assert(s1[j].source == src);
    }
}

/// The key of the pair `(src, tgt)` in a map of pairs.
pub open spec fn pair_key(src: u32, tgt: u32) -> u64 {
    (src as int * 4294967296 + tgt as int) as u64
}

/// Distinct pairs have distinct keys.
proof fn lemma_pair_key(a: u32, b: u32, c: u32, d: u32)
    ensures
        pair_key(a, b) == pair_key(c, d) ==> a == c && b == d,
        0 <= a as int * 4294967296 + b as int <= u64::MAX,
{
    assert(0 <= a as int * 4294967296 + b as int <= u64::MAX) by (nonlinear_arith)
        requires
            0 <= a <= u32::MAX,
            0 <= b <= u32::MAX,
    ;
    assert(0 <= c as int * 4294967296 + d as int <= u64::MAX) by (nonlinear_arith)
        requires
            0 <= c <= u32::MAX,
            0 <= d <= u32::MAX,
    ;
    if a as int * 4294967296 + b as int == c as int * 4294967296 + d as int {
        assert(a == c && b == d) by (nonlinear_arith)
            requires
                a as int * 4294967296 + b as int == c as int * 4294967296 + d as int,
                0 <= b < 4294967296,
                0 <= d < 4294967296,
                0 <= a,
                0 <= c,
        ;
    }
}

/// The key of the pair of `edge`.
fn key_of(edge: &Edge) -> (key: u64)
    ensures
        key == pair_key(edge.source, edge.target),
{
    proof {
        lemma_pair_key(edge.source, edge.target, edge.source, edge.target);
    }
    edge.source as u64 * 4294967296 + edge.target as u64
}

/// Keeps, of the edges of `list`, those that cost no more than any edge of the list with the
/// same source and target.
fn keep_cheapest(list: &mut Vec<Edge>)
    ensures
        final(list)@ == kept(old(list)@, cheapest(old(list)@)),
{
    let ghost s = list@;
    let mut edge_map: HashMap<u64, u32> = HashMap::new();
    let mut k: usize = 0;
    while k < list.len()
        invariant
            list@ == s,
            k <= s.len(),
            forall|src: u32, tgt: u32|
                #[trigger] pair_min(s.take(k as int), src, tgt) < u32::MAX ==> edge_map@.contains_key(pair_key(src, tgt))
                    && edge_map@[pair_key(src, tgt)] == pair_min(s.take(k as int), src, tgt),
            forall|src: u32, tgt: u32|
                #[trigger] edge_map@.contains_key(pair_key(src, tgt)) ==> pair_min(s.take(k as int), src, tgt) < u32::MAX,
        decreases s.len() - k,
    {
        let edge = list[k];
        let key = key_of(&edge);
        let ghost m0 = edge_map@;
        proof {
            assert(s.take(k + 1).drop_last() =~= s.take(k as int));
            assert(s.take(k + 1).last() == edge);
        }
        let current_cost = match edge_map.get(&key) {
            Some(c) => *c,
            None => u32::MAX,
        };
        if edge.cost < current_cost {
            edge_map.insert(key, edge.cost);
        }
        proof {
            assert forall|src: u32, tgt: u32|
                #[trigger] pair_min(s.take(k + 1), src, tgt) < u32::MAX implies edge_map@.contains_key(pair_key(src, tgt))
                    && edge_map@[pair_key(src, tgt)] == pair_min(s.take(k + 1), src, tgt) by {
                lemma_pair_key(src, tgt, edge.source, edge.target);
                let m = pair_min(s.take(k as int), src, tgt);
                if src == edge.source && tgt == edge.target {
                    if m < u32::MAX {
                        assert(m0.contains_key(key));
                    }
                } else {
                    assert(pair_min(s.take(k + 1), src, tgt) == m);
                    assert(m0.contains_key(pair_key(src, tgt)));
                }
            }
            assert forall|src: u32, tgt: u32|
                #[trigger] edge_map@.contains_key(pair_key(src, tgt)) implies pair_min(s.take(k + 1), src, tgt) < u32::MAX by {
                lemma_pair_key(src, tgt, edge.source, edge.target);
                if !(src == edge.source && tgt == edge.target) {
                    assert(m0.contains_key(pair_key(src, tgt)));
                } else if m0.contains_key(key) {
                    assert(pair_min(s.take(k as int), src, tgt) < u32::MAX);
                }
            }
        }
        k += 1;
    }
    assert(s.take(s.len() as int) =~= s);
    let map = &edge_map;
    let keep = |edge: Edge| -> (r: bool)
        ensures
            map@.contains_key(pair_key(edge.source, edge.target)) ==> r == (edge.cost <= map@[pair_key(edge.source, edge.target)]),
            !map@.contains_key(pair_key(edge.source, edge.target)) ==> r,
        {
            let key = key_of(&edge);
            match map.get(&key) {
                Some(m) => edge.cost <= *m,
                None => true,
            }
        };
    assert forall|i: int, r: bool| 0 <= i < s.len() && #[trigger] keep.ensures((s[i],), r) implies r == cheapest(s)(s[i]) by {
        lemma_pair_min(s, s[i].source, s[i].target);
    }
    retain_edges(list, keep, Ghost(cheapest(s)));
}

/// Removes parallel edges that cost more than another edge with the same source and target:
/// each forward and each backward list keeps, in order, the edges that cost no more than every
/// edge of the list with the same source and target.
pub fn removing_double_edges(graph: &mut Graph)
    requires
        forall|v: int, i: int| #![trigger old(graph).fwd()[v][i]]
            0 <= v < old(graph).num_nodes() && 0 <= i < old(graph).fwd()[v].len() ==> pair_min(
                old(graph).fwd()[v],
                old(graph).fwd()[v][i].source,
                old(graph).fwd()[v][i].target,
            ) < u32::MAX,
        forall|v: int, i: int| #![trigger old(graph).bwd()[v][i]]
            0 <= v < old(graph).backward_edges@.len() && 0 <= i < old(graph).bwd()[v].len() ==> pair_min(
                old(graph).bwd()[v],
                old(graph).bwd()[v][i].source,
                old(graph).bwd()[v][i].target,
            ) < u32::MAX,
    ensures
        old(graph).wf() ==> final(graph).wf(),
        final(graph).num_nodes() == old(graph).num_nodes(),
        final(graph).backward_edges@.len() == old(graph).backward_edges@.len(),
        forall|v: int| 0 <= v < old(graph).num_nodes() ==> #[trigger] final(graph).fwd()[v] == kept(old(graph).fwd()[v], cheapest(old(graph).fwd()[v])),
        forall|v: int| 0 <= v < old(graph).backward_edges@.len() ==> #[trigger] final(graph).bwd()[v] == kept(old(graph).bwd()[v], cheapest(old(graph).bwd()[v])),
{
    let ghost f0 = graph.fwd();
    let ghost b0 = graph.bwd();
    let ghost n = graph.backward_edges@.len();
    let ghost nf = graph.forward_edges@.len();
    let mut i: usize = 0;
    while i < graph.backward_edges.len()
        invariant
            graph.forward_edges@.len() == nf,
            graph.backward_edges@.len() == n,
            graph.fwd() == f0,
            i <= n,
            forall|v: int| 0 <= v < i ==> #[trigger] graph.bwd()[v] == kept(b0[v], cheapest(b0[v])),
            forall|v: int| i <= v < n ==> #[trigger] graph.bwd()[v] == b0[v],
        decreases n - i,
    {
        let ghost before = graph.bwd();
        keep_cheapest(&mut graph.backward_edges[i]);
        proof {
            assert(graph.bwd() =~= before.update(i as int, kept(before[i as int], cheapest(b0[i as int]))));
            assert forall|v: int| 0 <= v < i + 1 implies #[trigger] graph.bwd()[v] == kept(b0[v], cheapest(b0[v])) by {
                if v < i {
                    assert(graph.bwd()[v] == before[v]);
                }
            }
            assert forall|v: int| i + 1 <= v < n implies #[trigger] graph.bwd()[v] == b0[v] by {
                assert(graph.bwd()[v] == before[v]);
            }
            assert(graph.fwd() =~= f0);
        }
        i += 1;
    }
    let ghost b1 = graph.bwd();
    let mut i: usize = 0;
    while i < graph.forward_edges.len()
        invariant
            graph.forward_edges@.len() == nf,
            graph.backward_edges@.len() == n,
            graph.bwd() == b1,
            i <= nf,
            forall|v: int| 0 <= v < n ==> #[trigger] b1[v] == kept(b0[v], cheapest(b0[v])),
            forall|v: int| 0 <= v < i ==> #[trigger] graph.fwd()[v] == kept(f0[v], cheapest(f0[v])),
            forall|v: int| i <= v < nf ==> #[trigger] graph.fwd()[v] == f0[v],
        decreases nf - i,
    {
        let ghost before = graph.fwd();
        keep_cheapest(&mut graph.forward_edges[i]);
        proof {
            assert(graph.fwd() =~= before.update(i as int, kept(before[i as int], cheapest(f0[i as int]))));
            assert forall|v: int| 0 <= v < i + 1 implies #[trigger] graph.fwd()[v] == kept(f0[v], cheapest(f0[v])) by {
                if v < i {
                    assert(graph.fwd()[v] == before[v]);
                }
            }
            assert forall|v: int| i + 1 <= v < nf implies #[trigger] graph.fwd()[v] == f0[v] by {
                assert(graph.fwd()[v] == before[v]);
            }
            assert(graph.bwd() =~= b1);
        }
        i += 1;
    }
    proof {
        let g0 = *old(graph);
        if g0.wf() {
            assert forall|e: Edge| g0.is_node(e.source as int) && g0.is_node(e.target as int) && #[trigger] count(g0.fwd()[e.source as int], e) > 0 implies cheapest(
                g0.fwd()[e.source as int],
            )(e) == cheapest(g0.bwd()[e.target as int])(e) by {
                let fs = g0.fwd()[e.source as int];
                let bt = g0.bwd()[e.target as int];
                assert forall|x: Edge| x.source == e.source && x.target == e.target implies (fs.contains(x) <==> bt.contains(x)) by {
                    assert(count(fs, x) == count(bt, x));
                }
                lemma_pair_min_same(fs, bt, e.source, e.target);
            }
            lemma_filtered_wf(g0, *graph, |v: int| cheapest(g0.fwd()[v]), |v: int| cheapest(g0.bwd()[v]));
        }
    }
}

} // verus!

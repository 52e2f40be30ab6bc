//! The searches that contraction relies on: from a node, over the forward lists of a graph,
//! never entering one excluded node and never exceeding a cost (and possibly a hop) limit. The
//! costs they find are costs of such paths.
use vstd::prelude::*;

use std::collections::HashMap;

use crate::routing::graph::{Edge, Graph};

verus! {

broadcast use vstd::std_specs::hash::group_hash_axioms;

/// The sum of the costs of the edges of `p`.
pub open spec fn path_cost(p: Seq<Edge>) -> int
    decreases p.len(),
{
    if p.len() == 0 {
        0
    } else {
        path_cost(p.drop_last()) + p.last().cost
    }
}

/// `p` is a path of `graph` from `source` to `target` that never enters `without`: edges of
/// the graph, each starting where the one before ends.
pub open spec fn avoiding_path(graph: Graph, p: Seq<Edge>, source: u32, target: u32, without: u32) -> bool {
    &&& forall|k: int| 0 <= k < p.len() ==> #[trigger] graph.has_edge(p[k]) && p[k].target != without
    &&& forall|k: int| 0 <= k < p.len() - 1 ==> #[trigger] p[k].target == p[k + 1].source
    &&& p.len() == 0 ==> source == target
    &&& p.len() > 0 ==> p[0].source == source && p.last().target == target
}

/// A path from `source` to `v` that avoids `without`, has at most `max_hops` edges where hops
/// are `limited`, and costs `cost`.
pub open spec fn witnessed(graph: Graph, source: u32, v: u32, without: u32, limited: bool, max_hops: u32, cost: u32) -> bool {
    exists|p: Seq<Edge>|
        #[trigger] avoiding_path(graph, p, source, v, without) && (limited ==> p.len() <= max_hops) && path_cost(p) == cost
}

/// What the search from `source` finds: `source` at cost 0; every other entry the cost, at
/// most `max_cost`, of a path from `source` that avoids `without` and, where hops are
/// `limited`, has at most `max_hops` edges; every edge leaving `source` that the limits let
/// through, and that costs less than `u32::MAX`, leads to an entry that costs at most as much
/// as the edge. Without a hop limit, and with one of at least the number of nodes, every node
/// within `max_cost` has an entry no dearer than any path to it, so the entries are the
/// cheapest costs. With a hop limit, the entries carry hop counts under which every entry that
/// has a hop to spare has all its edges relaxed.
pub open spec fn witnesses(
    graph: Graph,
    source: u32,
    without: u32,
    max_cost: u32,
    limited: bool,
    max_hops: u32,
    costs: Map<u32, u32>,
) -> bool {
    &&& costs.contains_key(source)
    &&& costs[source] == 0
    &&& forall|v: u32| #[trigger] costs.contains_key(v) ==> costs[v] <= max_cost && witnessed(graph, source, v, without, limited, max_hops, costs[v])
    &&& first_hops(graph, source, without, max_cost, limited, max_hops, costs, graph.fwd()[source as int].len() as int)
    &&& !limited ==> cheapest_within(graph, source, without, max_cost, costs)
    &&& limited ==> exists|hops: Map<u32, u32>| #[trigger] hop_counted(graph, source, without, max_cost, max_hops, costs, hops)
    &&& limited && max_hops >= graph.num_nodes() ==> cheapest_within(graph, source, without, max_cost, costs)
}

/// Every node that a path from `source` avoiding `without` reaches at a cost of at most
/// `max_cost` and below `u32::MAX` has an entry of at most that cost. With the entries being
/// costs of such paths, each entry is the cheapest such cost.
pub open spec fn cheapest_within(graph: Graph, source: u32, without: u32, max_cost: u32, costs: Map<u32, u32>) -> bool {
    forall|w: u32, p: Seq<Edge>|
        #[trigger] avoiding_path(graph, p, source, w, without) && path_cost(p) <= max_cost && path_cost(p) < u32::MAX ==> costs.contains_key(w)
            && costs[w] <= path_cost(p)
}

/// Some queue entry names `u`.
pub open spec fn pending(queue: Seq<(u32, u32)>, u: u32) -> bool {
    exists|j: int| 0 <= j < queue.len() && queue[j].1 == u
}

/// Edge `i` of `u` is relaxed: where it does not enter `without` and leads within `max_cost` and
/// below `u32::MAX`, its target has an entry of at most the cost over it.
pub open spec fn edge_relaxed(graph: Graph, without: u32, max_cost: u32, costs: Map<u32, u32>, u: u32, i: int) -> bool {
    let e = graph.fwd()[u as int][i];
    e.target != without && costs[u] + e.cost <= max_cost && costs[u] + e.cost < u32::MAX ==> costs.contains_key(e.target)
        && costs[e.target] <= costs[u] + e.cost
}

/// Every edge leaving `u` is relaxed.
pub open spec fn relaxed_all(graph: Graph, without: u32, max_cost: u32, costs: Map<u32, u32>, u: u32) -> bool {
    forall|i: int| 0 <= i < graph.fwd()[u as int].len() ==> #[trigger] edge_relaxed(graph, without, max_cost, costs, u, i)
}

/// Where hops are `limited`, the hop count of `u` leaves room for one edge more.
pub open spec fn hop_open(limited: bool, max_hops: u32, hops: Map<u32, u32>, u: u32) -> bool {
    limited ==> hops[u] < max_hops
}

/// Every node with an entry is queued, or has all its edges relaxed where its hop count lets
/// one more edge through.
pub open spec fn settled(
    graph: Graph,
    without: u32,
    max_cost: u32,
    limited: bool,
    max_hops: u32,
    costs: Map<u32, u32>,
    hops: Map<u32, u32>,
    queue: Seq<(u32, u32)>,
) -> bool {
    forall|u: u32|
        #[trigger] costs.contains_key(u) ==> pending(queue, u) || (hop_open(limited, max_hops, hops, u) ==> relaxed_all(
            graph,
            without,
            max_cost,
            costs,
            u,
        ))
}

/// The nodes that `p` passes through: `source`, then the target of each edge.
pub open spec fn path_nodes(source: u32, p: Seq<Edge>) -> Seq<u32> {
    seq![source] + p.map_values(|e: Edge| e.target)
}

/// `p` passes through no node twice, and every node it reaches has an entry of at most the
/// cost of the whole of `p`.
pub open spec fn frugal(costs: Map<u32, u32>, source: u32, p: Seq<Edge>) -> bool {
    &&& path_nodes(source, p).no_duplicates()
    &&& forall|k: int| 0 <= k < p.len() ==> #[trigger] costs.contains_key(p[k].target) && costs[p[k].target] <= path_cost(p)
}

/// A record of hop counts under which every entry is the cost of a path with its hop count of
/// edges, at most `max_hops`, and every entry whose hop count is below `max_hops` has all its
/// edges relaxed.
pub open spec fn hop_counted(
    graph: Graph,
    source: u32,
    without: u32,
    max_cost: u32,
    max_hops: u32,
    costs: Map<u32, u32>,
    hops: Map<u32, u32>,
) -> bool {
    forall|v: u32|
        #[trigger] costs.contains_key(v) ==> {
            &&& hops.contains_key(v)
            &&& hops[v] <= max_hops
            &&& exists|p: Seq<Edge>| #[trigger] avoiding_path(graph, p, source, v, without) && p.len() == hops[v] && path_cost(p) == costs[v]
            &&& hops[v] < max_hops ==> relaxed_all(graph, without, max_cost, costs, v)
        }
}

/// Once no node is queued and every node with an entry has its edges relaxed, every path from
/// `source` within `max_cost` leads to an entry of at most its cost.
proof fn lemma_settled_paths(graph: Graph, source: u32, without: u32, max_cost: u32, costs: Map<u32, u32>, w: u32, p: Seq<Edge>)
    requires
        forall|u: u32| #[trigger] costs.contains_key(u) ==> relaxed_all(graph, without, max_cost, costs, u),
        costs.contains_key(source),
        costs[source] == 0,
        avoiding_path(graph, p, source, w, without),
        path_cost(p) <= max_cost,
        path_cost(p) < u32::MAX,
    ensures
        costs.contains_key(w),
        costs[w] <= path_cost(p),
    decreases p.len(),
{
    if p.len() > 0 {
        let p1 = p.drop_last();
        let e = p.last();
        let u = e.source;
        assert(graph.has_edge(p[p.len() - 1]));
        assert(avoiding_path(graph, p1, source, u, without)) by {
            assert forall|k: int| 0 <= k < p1.len() implies #[trigger] graph.has_edge(p1[k]) && p1[k].target != without by {
                assert(p1[k] == p[k]);
            }
            assert forall|k: int| 0 <= k < p1.len() - 1 implies #[trigger] p1[k].target == p1[k + 1].source by {
                assert(p1[k] == p[k] && p1[k + 1] == p[k + 1]);
            }
            if p1.len() > 0 {
                assert(p[p1.len() - 1].target == p[p1.len() as int].source);
            }
        }
        lemma_settled_paths(graph, source, without, max_cost, costs, u, p1);
        assert(graph.fwd()[u as int].contains(e));
        let i = choose|i: int| 0 <= i < graph.fwd()[u as int].len() && graph.fwd()[u as int][i] == e;
        assert(relaxed_all(graph, without, max_cost, costs, u));
        assert(edge_relaxed(graph, without, max_cost, costs, u, i));
    }
}

/// The index of the first entry with the smallest key in `q`.
pub open spec fn is_first_min(q: Seq<(u32, u32)>, i: int) -> bool {
    &&& 0 <= i < q.len()
    &&& forall|j: int| 0 <= j < i ==> #[trigger] q[j].0 > q[i].0
    &&& forall|j: int| 0 <= j < q.len() ==> #[trigger] q[j].0 >= q[i].0
}

/// Removes and returns the first entry with the smallest key; `None` for an empty queue.
pub(crate) fn pop_min(queue: &mut Vec<(u32, u32)>) -> (popped: Option<(u32, u32)>)
    ensures
        popped is None <==> old(queue)@.len() == 0,
        popped matches Some(x) ==> exists|i: int|
            #[trigger] is_first_min(old(queue)@, i) && x == old(queue)@[i] && final(queue)@ == old(queue)@.remove(i),
        popped is None ==> final(queue)@ == old(queue)@,
{
    if queue.len() == 0 {
        return None;
    }
    let mut best: usize = 0;
    let mut j: usize = 1;
    while j < queue.len()
        invariant
            queue@ == old(queue)@,
            1 <= j <= queue@.len(),
            best < j,
            forall|k: int| 0 <= k < best ==> #[trigger] queue@[k].0 > queue@[best as int].0,
            forall|k: int| 0 <= k < j ==> #[trigger] queue@[k].0 >= queue@[best as int].0,
        decreases queue@.len() - j,
    {
        if queue[j].0 < queue[best].0 {
            best = j;
        }
        j += 1;
    }
    let ghost q = queue@;
    let x = queue.remove(best);
    assert(is_first_min(q, best as int));
    Some(x)
}

/// The potential of a cost map over nodes `0..n`: the sum of the costs, `u32::MAX + 1` for a
/// node without entry.
pub open spec fn map_sum(costs: Map<u32, u32>, n: nat) -> nat
    decreases n,
{
    if n == 0 {
        0
    } else {
        map_sum(costs, (n - 1) as nat) + if costs.contains_key((n - 1) as u32) {
            costs[(n - 1) as u32] as nat
        } else {
            u32::MAX as nat + 1
        }
    }
}

/// Lowering the entry of node `k` lowers the potential.
pub proof fn lemma_map_sum_lower(costs: Map<u32, u32>, n: nat, k: u32, c: u32)
    requires
        k < n <= u32::MAX as nat + 1,
        !costs.contains_key(k) || c < costs[k],
    ensures
        map_sum(costs.insert(k, c), n) < map_sum(costs, n),
    decreases n,
{
    if k < n - 1 {
        lemma_map_sum_lower(costs, (n - 1) as nat, k, c);
        assert(((n - 1) as u32) != k);
    } else {
        lemma_map_sum_same(costs, (n - 1) as nat, k, c);
    }
}

/// Changing the entry of a node at or above `n` leaves the potential over `0..n` as it is.
pub proof fn lemma_map_sum_same(costs: Map<u32, u32>, n: nat, k: u32, c: u32)
    requires
        k >= n,
        n <= u32::MAX as nat + 1,
    ensures
        map_sum(costs.insert(k, c), n) == map_sum(costs, n),
    decreases n,
{
    if n > 0 {
        lemma_map_sum_same(costs, (n - 1) as nat, k, c);
        assert(((n - 1) as u32) != k);
    }
}

/// Going over `e` after a path to its source gives a path to its target.
proof fn lemma_extend(graph: Graph, p: Seq<Edge>, source: u32, u: u32, without: u32, e: Edge)
    requires
        avoiding_path(graph, p, source, u, without),
        graph.has_edge(e),
        e.source == u,
        e.target != without,
    ensures
        avoiding_path(graph, p.push(e), source, e.target, without),
        path_cost(p.push(e)) == path_cost(p) + e.cost,
{
    let q = p.push(e);
    assert(q.drop_last() =~= p);
    assert forall|k: int| 0 <= k < q.len() implies #[trigger] graph.has_edge(q[k]) && q[k].target != without by {
        if k < p.len() {
            assert(q[k] == p[k]);
        }
    }
    assert forall|k: int| 0 <= k < q.len() - 1 implies #[trigger] q[k].target == q[k + 1].source by {
        if k < p.len() - 1 {
            assert(q[k] == p[k] && q[k + 1] == p[k + 1]);
        } else {
            assert(q[k] == p.last());
        }
    }
}

/// What holds of the search state at every step: `source` costs 0, every entry is a node with
/// a hop count, costs at most `max_cost` and is the cost of a path from `source` that avoids
/// `without`, passes through no node twice, reaches only nodes with entries of at most its cost
/// and, where hops are `limited`, has its hop count of edges, itself within `max_hops`; and
/// every queued node has an entry.
pub open spec fn core_inv(
    graph: Graph,
    source: u32,
    without: u32,
    max_cost: u32,
    limited: bool,
    max_hops: u32,
    costs: Map<u32, u32>,
    hops: Map<u32, u32>,
    queue: Seq<(u32, u32)>,
) -> bool {
    &&& costs.contains_key(source)
    &&& costs[source] == 0
    &&& forall|v: u32| #[trigger] costs.contains_key(v) ==> hops.contains_key(v) && graph.is_node(v as int) && costs[v] <= max_cost
    &&& forall|v: u32|
        #[trigger] costs.contains_key(v) ==> exists|p: Seq<Edge>|
            #[trigger] avoiding_path(graph, p, source, v, without) && (limited ==> p.len() == hops[v] && hops[v] <= max_hops)
                && path_cost(p) == costs[v] && frugal(costs, source, p)
    &&& forall|j: int| 0 <= j < queue.len() ==> #[trigger] costs.contains_key(queue[j].1)
}

/// Lowering the entry of `t`, or giving `t` one, keeps a frugal path frugal.
proof fn lemma_frugal_lower(costs: Map<u32, u32>, source: u32, p: Seq<Edge>, t: u32, alt: u32)
    requires
        frugal(costs, source, p),
        costs.contains_key(t) ==> alt < costs[t],
    ensures
        frugal(costs.insert(t, alt), source, p),
{
    let costs2 = costs.insert(t, alt);
    assert forall|k: int| 0 <= k < p.len() implies #[trigger] costs2.contains_key(p[k].target) && costs2[p[k].target] <= path_cost(p) by {
        assert(costs.contains_key(p[k].target));
    }
}

/// Going from a frugal path over an edge to a node whose entry the walk lowers, or that has
/// none, gives a frugal path once that node's entry is lowered to the walk's cost.
proof fn lemma_frugal_extend(costs: Map<u32, u32>, source: u32, p: Seq<Edge>, e: Edge, alt: u32)
    requires
        frugal(costs, source, p),
        costs.contains_key(source),
        costs[source] == 0,
        alt == path_cost(p) + e.cost,
        costs.contains_key(e.target) ==> alt < costs[e.target],
    ensures
        frugal(costs.insert(e.target, alt), source, p.push(e)),
        path_cost(p.push(e)) == alt,
{
    let t = e.target;
    let q = p.push(e);
    let costs2 = costs.insert(t, alt);
    assert(q.drop_last() =~= p);
    let ns = path_nodes(source, p);
    assert(path_nodes(source, q) =~= ns.push(t));
    assert forall|k: int| 0 <= k < ns.len() implies #[trigger] ns[k] != t by {
        if k == 0 {
            assert(ns[0] == source);
        } else {
            assert(ns[k] == p[k - 1].target);
            assert(costs.contains_key(p[k - 1].target));
        }
    }
    assert(ns.push(t).no_duplicates()) by {
        assert forall|i: int, j: int| 0 <= i < ns.len() + 1 && 0 <= j < ns.len() + 1 && i != j implies ns.push(t)[i] != ns.push(t)[j] by {
            if i < ns.len() && j < ns.len() {
                assert(ns.push(t)[i] == ns[i] && ns.push(t)[j] == ns[j]);
            } else if i < ns.len() {
                assert(ns[i] != t);
            } else {
                assert(ns[j] != t);
            }
        }
    }
    assert forall|k: int| 0 <= k < q.len() implies #[trigger] costs2.contains_key(q[k].target) && costs2[q[k].target] <= path_cost(q) by {
        if k < p.len() {
            assert(q[k] == p[k]);
            assert(costs.contains_key(p[k].target));
        }
    }
}

/// A sequence of distinct numbers below `n` has at most `n` members.
proof fn lemma_distinct_below(s: Seq<u32>, n: nat)
    requires
        s.no_duplicates(),
        forall|k: int| 0 <= k < s.len() ==> #[trigger] s[k] < n,
    ensures
        s.len() <= n,
    decreases n,
{
    if n == 0 {
        if s.len() > 0 {
            assert(s[0] < n);
        }
    } else if exists|j: int| 0 <= j < s.len() && s[j] == n - 1 {
        let j = choose|j: int| 0 <= j < s.len() && s[j] == n - 1;
        let r = s.remove(j);
        assert forall|k: int| 0 <= k < r.len() implies #[trigger] r[k] < n - 1 by {
            if k < j {
                assert(r[k] == s[k]);
            } else {
                assert(r[k] == s[k + 1]);
            }
        }
        assert(r.no_duplicates()) by {
            assert forall|a: int, b: int| 0 <= a < r.len() && 0 <= b < r.len() && a != b implies r[a] != r[b] by {
                let a2 = if a < j { a } else { a + 1 };
                let b2 = if b < j { b } else { b + 1 };
                assert(r[a] == s[a2] && r[b] == s[b2]);
            }
        }
        lemma_distinct_below(r, (n - 1) as nat);
    } else {
        assert forall|k: int| 0 <= k < s.len() implies #[trigger] s[k] < n - 1 by {
            assert(s[k] < n);
        }
        lemma_distinct_below(s, (n - 1) as nat);
    }
}

/// A frugal path of a graph has fewer edges than the graph has nodes.
proof fn lemma_frugal_short(graph: Graph, costs: Map<u32, u32>, source: u32, v: u32, without: u32, p: Seq<Edge>)
    requires
        graph.wf(),
        graph.is_node(source as int),
        avoiding_path(graph, p, source, v, without),
        frugal(costs, source, p),
    ensures
        p.len() < graph.num_nodes(),
{
    let ns = path_nodes(source, p);
    assert forall|k: int| 0 <= k < ns.len() implies #[trigger] ns[k] < graph.num_nodes() by {
        if k > 0 {
            assert(ns[k] == p[k - 1].target);
            assert(graph.has_edge(p[k - 1]));
            let e = p[k - 1];
            let i = choose|i: int| 0 <= i < graph.fwd()[e.source as int].len() && graph.fwd()[e.source as int][i] == e;
            assert(graph.fwd()[e.source as int][i] == e);
        }
    }
    lemma_distinct_below(ns, graph.num_nodes());
}

/// Each of the first `done` edges leaving `source` that the limits let through leads to an
/// entry that costs at most as much as the edge.
pub open spec fn first_hops(graph: Graph, source: u32, without: u32, max_cost: u32, limited: bool, max_hops: u32, costs: Map<u32, u32>, done: int) -> bool {
    forall|i: int| #![trigger graph.fwd()[source as int][i]]
        0 <= i < done && i < graph.fwd()[source as int].len() && graph.fwd()[source as int][i].target != without
            && graph.fwd()[source as int][i].cost < u32::MAX && graph.fwd()[source as int][i].cost <= max_cost && (limited ==> max_hops
            >= 1) ==> costs.contains_key(graph.fwd()[source as int][i].target) && costs[graph.fwd()[source as int][i].target]
            <= graph.fwd()[source as int][i].cost
}

/// Searches from `source` over the forward lists of `graph`: the queue entry with the smallest
/// cost is taken next, and each edge leaving its node that does not enter `without`, keeps the
/// cost within `max_cost` and, where hops are `limited`, the number of edges within
/// `max_hops`, and is cheaper than the cost known for its target, sets that cost and queues
/// the target. Returns the costs found.
pub(crate) fn bounded_search(graph: &Graph, source: u32, without: u32, max_cost: u32, limited: bool, max_hops: u32) -> (costs: HashMap<u32, u32>)
    requires
        graph.wf(),
        graph.is_node(source as int),
    ensures
        witnesses(*graph, source, without, max_cost, limited, max_hops, costs@),
{
    let n = graph.forward_edges.len();
    let mut queue: Vec<(u32, u32)> = Vec::new();
    let mut cost: HashMap<u32, u32> = HashMap::new();
    let mut hops: HashMap<u32, u32> = HashMap::new();
    queue.push((0, source));
    cost.insert(source, 0);
    hops.insert(source, 0);
    let mut started = false;
    proof {
        assert(queue@ =~= seq![(0u32, source)]);
        assert(cost@ =~= map![source => 0u32]);
        assert(hops@ =~= map![source => 0u32]);
        let p = Seq::<Edge>::empty();
        assert(avoiding_path(*graph, p, source, source, without));
        assert(path_nodes(source, p) =~= seq![source]);
        assert(frugal(cost@, source, p));
        assert(pending(queue@, source)) by {
            assert(queue@[0].1 == source);
        }
        assert forall|u: u32| #[trigger] cost@.contains_key(u) implies pending(queue@, u) by {
            assert(u == source);
        }
    }
    while queue.len() > 0
        invariant
            graph.wf(),
            graph.is_node(source as int),
            n == graph.num_nodes(),
            core_inv(*graph, source, without, max_cost, limited, max_hops, cost@, hops@, queue@),
            !started ==> queue@ == seq![(0u32, source)] && cost@ == map![source => 0u32] && hops@ == map![source => 0u32],
            started ==> first_hops(*graph, source, without, max_cost, limited, max_hops, cost@, graph.fwd()[source as int].len() as int),
            settled(*graph, without, max_cost, limited, max_hops, cost@, hops@, queue@),
        decreases 2 * map_sum(cost@, n as nat) + queue@.len(),
    {
        let ghost p0 = 2 * map_sum(cost@, n as nat) + queue@.len();
        let ghost q0 = queue@;
        let popped = pop_min(&mut queue);
        let (_, node) = match popped {
            Some(x) => x,
            None => {
                assert(false);
                (0, source)
            },
        };
        proof {
            let i = choose|i: int| #[trigger] is_first_min(q0, i) && (popped->0) == q0[i] && queue@ == q0.remove(i);
            assert(cost@.contains_key(q0[i].1));
            assert forall|u: u32| #[trigger] cost@.contains_key(u) && u != node && pending(q0, u) implies pending(queue@, u) by {
                let j = choose|j: int| 0 <= j < q0.len() && q0[j].1 == u;
                if j < i {
                    assert(queue@[j] == q0[j]);
                } else {
                    assert(queue@[j - 1] == q0[j]);
                }
            }
            assert forall|j: int| 0 <= j < queue@.len() implies #[trigger] cost@.contains_key(queue@[j].1) by {
                if j < i {
                    assert(queue@[j] == q0[j]);
                } else {
                    assert(queue@[j] == q0[j + 1]);
                }
            }
        }
        let first = !started;
        let c = match cost.get(&node) {
            Some(c) => *c,
            None => 0,
        };
        let h = match hops.get(&node) {
            Some(h) => *h,
            None => 0,
        };
        let edges = &graph.forward_edges[node as usize];
        let mut i: usize = 0;
        while i < edges.len()
            invariant
                graph.wf(),
                graph.is_node(source as int),
                n == graph.num_nodes(),
                graph.is_node(node as int),
                edges@ == graph.fwd()[node as int],
                cost@.contains_key(node),
                c == cost@[node],
                h == hops@[node],
                limited ==> h <= max_hops,
                first ==> node == source && c == 0 && h == 0,
                i <= edges@.len(),
                core_inv(*graph, source, without, max_cost, limited, max_hops, cost@, hops@, queue@),
                first ==> first_hops(*graph, source, without, max_cost, limited, max_hops, cost@, i as int),
                !first ==> first_hops(*graph, source, without, max_cost, limited, max_hops, cost@, graph.fwd()[source as int].len() as int),
                2 * map_sum(cost@, n as nat) + queue@.len() < p0,
                forall|u: u32|
                    #[trigger] cost@.contains_key(u) && u != node ==> pending(queue@, u) || (hop_open(limited, max_hops, hops@, u)
                        ==> relaxed_all(*graph, without, max_cost, cost@, u)),
                hop_open(limited, max_hops, hops@, node) ==> forall|k: int|
                    0 <= k < i ==> #[trigger] edge_relaxed(*graph, without, max_cost, cost@, node, k),
            decreases edges@.len() - i,
        {
            let edge = edges[i];
            let ghost costs_before = cost@;
            let ghost hops_before = hops@;
            let ghost queue_before = queue@;
            assert(graph.fwd()[node as int][i as int] == edge);
            let hop_ok = if limited {
                match h.checked_add(1) {
                    Some(nh) => nh <= max_hops,
                    None => false,
                }
            } else {
                true
            };
            if let Some(alternative_cost) = c.checked_add(edge.cost) {
                if edge.target != without && alternative_cost <= max_cost && hop_ok {
                    let current_cost = match cost.get(&edge.target) {
                        Some(x) => *x,
                        None => u32::MAX,
                    };
                    if alternative_cost < current_cost {
                        let new_hops = h.saturating_add(1);
                        let ghost before = cost@;
                        let ghost p = choose|p: Seq<Edge>|
                            #[trigger] avoiding_path(*graph, p, source, node, without) && (limited ==> p.len() == hops@[node] && hops@[node]
                                <= max_hops) && path_cost(p) == cost@[node] && frugal(cost@, source, p);
                        proof {
                            lemma_map_sum_lower(cost@, n as nat, edge.target, alternative_cost);
                        }
                        queue.push((alternative_cost, edge.target));
                        cost.insert(edge.target, alternative_cost);
                        hops.insert(edge.target, new_hops);
                        proof {
                            assert(graph.has_edge(edge)) by {
                                assert(graph.fwd()[node as int].contains(edge));
                            }
                            lemma_extend(*graph, p, source, node, without, edge);
                            lemma_frugal_extend(before, source, p, edge, alternative_cost);
                            assert(edge.target != source);
                            assert forall|v: u32| #[trigger] cost@.contains_key(v) implies exists|q: Seq<Edge>|
                                #[trigger] avoiding_path(*graph, q, source, v, without) && (limited ==> q.len() == hops@[v] && hops@[v]
                                    <= max_hops) && path_cost(q) == cost@[v] && frugal(cost@, source, q) by {
                                if v == edge.target {
                                    assert(avoiding_path(*graph, p.push(edge), source, v, without));
                                } else {
                                    assert(before.contains_key(v));
                                    let q = choose|q: Seq<Edge>|
                                        #[trigger] avoiding_path(*graph, q, source, v, without) && (limited ==> q.len() == hops_before[v]
                                            && hops_before[v] <= max_hops) && path_cost(q) == before[v] && frugal(before, source, q);
                                    lemma_frugal_lower(before, source, q, edge.target, alternative_cost);
                                }
                            }
                        }
                    }
                }
            }
            proof {
                lemma_relax_step(
                    *graph,
                    without,
                    max_cost,
                    limited,
                    max_hops,
                    costs_before,
                    hops_before,
                    queue_before,
                    cost@,
                    hops@,
                    queue@,
                    node,
                    i as int,
                );
            }
            i += 1;
        }
        proof {
            assert forall|u: u32| #[trigger] cost@.contains_key(u) implies pending(queue@, u) || (hop_open(limited, max_hops, hops@, u)
                ==> relaxed_all(*graph, without, max_cost, cost@, u)) by {
                if u == node && hop_open(limited, max_hops, hops@, u) {
                    assert forall|k: int| 0 <= k < graph.fwd()[u as int].len() implies #[trigger] edge_relaxed(
                        *graph,
                        without,
                        max_cost,
                        cost@,
                        u,
                        k,
                    ) by {}
                }
            }
        }
        started = true;
    }
    proof {
        assert(started) by {
            if !started {
                assert(queue@.len() > 0);
            }
        }
        assert forall|u: u32| #[trigger] cost@.contains_key(u) && hop_open(limited, max_hops, hops@, u) implies relaxed_all(
            *graph,
            without,
            max_cost,
            cost@,
            u,
        ) by {
            assert(!pending(queue@, u));
        }
        if limited {
            assert(hop_counted(*graph, source, without, max_cost, max_hops, cost@, hops@));
        }
        if !limited || max_hops >= graph.num_nodes() {
            assert forall|u: u32| #[trigger] cost@.contains_key(u) implies relaxed_all(*graph, without, max_cost, cost@, u) by {
                if limited {
                    let p = choose|p: Seq<Edge>|
                        #[trigger] avoiding_path(*graph, p, source, u, without) && (limited ==> p.len() == hops@[u] && hops@[u]
                            <= max_hops) && path_cost(p) == cost@[u] && frugal(cost@, source, p);
                    lemma_frugal_short(*graph, cost@, source, u, without, p);
                }
            }
            assert forall|w: u32, p: Seq<Edge>|
                #[trigger] avoiding_path(*graph, p, source, w, without) && path_cost(p) <= max_cost && path_cost(p) < u32::MAX implies cost@.contains_key(
                w,
            ) && cost@[w] <= path_cost(p) by {
                lemma_settled_paths(*graph, source, without, max_cost, cost@, w, p);
            }
        }
    }
    cost
}

/// Relaxing edge `i` of `node`, whose cost and hop count do not change, keeps every other node
/// queued or relaxed and relaxes one edge more of `node`.
proof fn lemma_relax_step(
    graph: Graph,
    without: u32,
    max_cost: u32,
    limited: bool,
    max_hops: u32,
    costs: Map<u32, u32>,
    hops: Map<u32, u32>,
    queue: Seq<(u32, u32)>,
    costs2: Map<u32, u32>,
    hops2: Map<u32, u32>,
    queue2: Seq<(u32, u32)>,
    node: u32,
    i: int,
)
    requires
        graph.wf(),
        graph.is_node(node as int),
        0 <= i < graph.fwd()[node as int].len(),
        costs.contains_key(node),
        forall|u: u32|
            #[trigger] costs.contains_key(u) && u != node ==> pending(queue, u) || (hop_open(limited, max_hops, hops, u) ==> relaxed_all(
                graph,
                without,
                max_cost,
                costs,
                u,
            )),
        hop_open(limited, max_hops, hops, node) ==> forall|k: int| 0 <= k < i ==> #[trigger] edge_relaxed(graph, without, max_cost, costs, node, k),
        ({
            let e = graph.fwd()[node as int][i];
            let alt = costs[node] + e.cost;
            let current = if costs.contains_key(e.target) { costs[e.target] as int } else { u32::MAX as int };
            if e.target != without && alt <= max_cost && alt < current && hop_open(limited, max_hops, hops, node) {
                &&& costs2 == costs.insert(e.target, alt as u32)
                &&& hops2 == hops.insert(e.target, hops2[e.target])
                &&& queue2 == queue.push((alt as u32, e.target))
            } else {
                &&& costs2 == costs
                &&& hops2 == hops
                &&& queue2 == queue
            }
        }),
    ensures
        forall|u: u32|
            #[trigger] costs2.contains_key(u) && u != node ==> pending(queue2, u) || (hop_open(limited, max_hops, hops2, u) ==> relaxed_all(
                graph,
                without,
                max_cost,
                costs2,
                u,
            )),
        hop_open(limited, max_hops, hops2, node) ==> forall|k: int|
            0 <= k < i + 1 ==> #[trigger] edge_relaxed(graph, without, max_cost, costs2, node, k),
        costs2.contains_key(node),
        costs2[node] == costs[node],
        hops2[node] == hops[node],
{
    let e = graph.fwd()[node as int][i];
    let t = e.target;
    let alt = costs[node] + e.cost;
    let current = if costs.contains_key(t) { costs[t] as int } else { u32::MAX as int };
    if t != without && alt <= max_cost && alt < current && hop_open(limited, max_hops, hops, node) {
        assert(t != node);
        assert(pending(queue2, t)) by {
            assert(queue2[queue.len() as int].1 == t);
        }
        assert forall|u: u32|
            #[trigger] costs2.contains_key(u) && u != node implies pending(queue2, u) || (hop_open(limited, max_hops, hops2, u) ==> relaxed_all(
                graph,
                without,
                max_cost,
                costs2,
                u,
            )) by {
            if u != t {
                if pending(queue, u) {
                    let j = choose|j: int| 0 <= j < queue.len() && queue[j].1 == u;
                    assert(queue2[j] == queue[j]);
                } else if hop_open(limited, max_hops, hops2, u) {
                    assert forall|k: int| 0 <= k < graph.fwd()[u as int].len() implies #[trigger] edge_relaxed(graph, without, max_cost, costs2, u, k) by {
                        assert(edge_relaxed(graph, without, max_cost, costs, u, k));
                    }
                }
            }
        }
        if hop_open(limited, max_hops, hops2, node) {
            assert forall|k: int| 0 <= k < i + 1 implies #[trigger] edge_relaxed(graph, without, max_cost, costs2, node, k) by {
                if k < i {
                    assert(edge_relaxed(graph, without, max_cost, costs, node, k));
                }
            }
        }
    } else {
        if hop_open(limited, max_hops, hops2, node) {
            assert forall|k: int| 0 <= k < i + 1 implies #[trigger] edge_relaxed(graph, without, max_cost, costs2, node, k) by {
                if k < i {
                    assert(edge_relaxed(graph, without, max_cost, costs, node, k));
                }
            }
        }
    }
}

} // verus!

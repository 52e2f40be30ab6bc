//! One-directional searches over the outgoing edges with a cyclic bucket queue that has one
//! bucket more than the largest edge cost, stopping once the target is popped.
pub mod fast_dijkstra;
pub mod no_option_and_no_expanded_dijkstra;
pub mod order;

use vstd::prelude::*;

use super::bucket_queue::BucketQueue;
use super::dijkstra_data::{route_of, DijsktraEntry};
use super::fast_graph::{FastEdge, FastEdgeAccess};
use super::queue::{bucket_pop, bucket_push, in_buckets, lemma_bucket_pop, lemma_bucket_push, total_len};
use super::queue::State;
use super::route::Route;
use super::shortest::{exact_preds, lemma_no_cheaper_walk, lemma_push_windowed, lemma_relaxed_all};
use super::simple_algorithms::ch_bi_dijkstra::{indexed_cost, indexed_walk};
use super::simple_algorithms::dijkstra::shortest_answer;
use order::{
    costs_within, dial_order, lemma_dial_answer, lemma_dial_order_pop, lemma_dial_order_relax, lemma_mirror_pop, lemma_mirror_push,
    lemma_walk_bound_from, mirrors, no_cheaper_walk_to,
};
use super::search::{
    backed, cost_bound, costs_bounded, count_expanded, labels_complete, lemma_backed, lemma_bound_arith, lemma_bound_grow,
    lemma_closed, lemma_count_expanded_bound, lemma_count_expanded_update, lemma_zero_expanded, pred_ok, preds_inv,
    zero_stamps,
};

verus! {

/// The largest cost of `edges`, 0 for none.
pub open spec fn max_cost(edges: Seq<FastEdge>) -> u32
    decreases edges.len(),
{
    if edges.len() == 0 {
        0
    } else {
        let m = max_cost(edges.drop_last());
        if edges.last().cost > m { edges.last().cost } else { m }
    }
}

/// The largest cost of `edges`, 0 for none.
pub(crate) fn largest_cost(edges: &Vec<FastEdge>) -> (m: u32)
    ensures
        m == max_cost(edges@),
{
    let mut m: u32 = 0;
    let mut i: usize = 0;
    while i < edges.len()
        invariant
            i <= edges@.len(),
            m == max_cost(edges@.take(i as int)),
        decreases edges@.len() - i,
    {
        assert(edges@.take(i + 1).drop_last() =~= edges@.take(i as int));
        if edges[i].cost > m {
            m = edges[i].cost;
        }
        i += 1;
    }
    assert(edges@.take(edges@.len() as int) =~= edges@);
    m
}

/// What a search from `source` to `target` over `access` answers: a route is a walk from
/// `source` to `target`, and, when edge costs are bounded, there is a route exactly when a walk
/// leads from `source` to `target`.
pub open spec fn search_route(access: FastEdgeAccess, num_nodes: nat, source: u32, target: u32, route: Option<Route>) -> bool {
    &&& route matches Some(r) ==> r.walks(access, source, target)
    &&& costs_bounded(access, num_nodes) ==> ((route is Some) == access.reaches(source, target))
}

/// What holds of the labels and the queue of the search at every step: the labels fit
/// [`preds_inv`], expanded nodes are reached, queued nodes are reached nodes, and every reached
/// node that is not expanded is queued.
pub open spec fn dial_inv(access: FastEdgeAccess, nodes: Seq<DijsktraEntry>, q: (int, Seq<Seq<u32>>), source: u32, st: Seq<nat>, clock: nat) -> bool {
    &&& preds_inv(access, nodes, source, st, clock)
    &&& forall|v: int| 0 <= v < nodes.len() && #[trigger] nodes[v].is_expanded ==> nodes[v].cost != u32::MAX
    &&& forall|x: u32| #[trigger] in_buckets(q.1, x) ==> x < nodes.len() && nodes[x as int].cost != u32::MAX
    &&& forall|v: int|
        0 <= v < nodes.len() && #[trigger] nodes[v].cost != u32::MAX && !nodes[v].is_expanded ==> in_buckets(q.1, v as u32)
}

/// What holds, when edge costs are bounded, of the search while it relaxes the edges of `cur`
/// (no node when `cur` is negative), the first `done` of them relaxed: reached costs stay
/// within the number of expanded nodes times the cost bound, expanded ones one bound below,
/// and the edges of expanded nodes lead to reached nodes.
pub open spec fn dial_bound(access: FastEdgeAccess, nodes: Seq<DijsktraEntry>, cur: int, done: int) -> bool {
    let n = nodes.len();
    let b = cost_bound(n);
    costs_bounded(access, n) ==> {
        &&& forall|v: int| 0 <= v < n && #[trigger] nodes[v].cost != u32::MAX ==> nodes[v].cost <= count_expanded(nodes) * b
        &&& forall|v: int| 0 <= v < n && #[trigger] nodes[v].is_expanded ==> nodes[v].cost + b <= count_expanded(nodes) * b
        &&& forall|u: int, i: int| #![trigger access.out(u)[i]]
            0 <= u < n && u != cur && nodes[u].is_expanded && 0 <= i < access.out(u).len() ==> nodes[access.out(u)[i].target as int].cost
                != u32::MAX
        &&& cur >= 0 ==> cur < n && nodes[cur].is_expanded
        &&& cur >= 0 ==> forall|i: int| 0 <= i < done && i < access.out(cur).len() ==> nodes[#[trigger] access.out(cur)[i].target as int].cost
            != u32::MAX
    }
}

/// The sum of the costs of all labels.
pub open spec fn sum_costs(nodes: Seq<DijsktraEntry>) -> nat
    decreases nodes.len(),
{
    if nodes.len() == 0 {
        0
    } else {
        sum_costs(nodes.drop_last()) + nodes.last().cost as nat
    }
}

/// What decreases with every step of the search: twice the sum of the costs plus the number of
/// queued entries.
pub open spec fn potential(nodes: Seq<DijsktraEntry>, q: (int, Seq<Seq<u32>>)) -> nat {
    2 * sum_costs(nodes) + total_len(q.1)
}

/// Changing one label changes the sum by the change of its cost.
proof fn lemma_sum_costs_update(nodes: Seq<DijsktraEntry>, v: int, e: DijsktraEntry)
    requires
        0 <= v < nodes.len(),
    ensures
        sum_costs(nodes.update(v, e)) + nodes[v].cost == sum_costs(nodes) + e.cost,
    decreases nodes.len(),
{
    let u = nodes.update(v, e);
    if v == nodes.len() - 1 {
        assert(u.drop_last() =~= nodes.drop_last());
    } else {
        assert(u.drop_last() =~= nodes.drop_last().update(v, e));
        lemma_sum_costs_update(nodes.drop_last(), v, e);
    }
}

/// Popping `u` and marking it expanded keeps the invariants, with `u` the node whose edges are
/// relaxed next, and lowers the potential; a node expanded before stays as it was.
proof fn lemma_dial_pop(
    access: FastEdgeAccess,
    nodes: Seq<DijsktraEntry>,
    q: (int, Seq<Seq<u32>>),
    source: u32,
    st: Seq<nat>,
    clock: nat,
)
    requires
        dial_inv(access, nodes, q, source, st, clock),
        dial_bound(access, nodes, -1, 0),
        q.1.len() > 0,
        0 <= q.0 < q.1.len(),
    ensures
        ({
            let (r, q2) = bucket_pop(q);
            match r {
                Some(u) => {
                    let nodes2 = nodes.update(u as int, DijsktraEntry { is_expanded: true, ..nodes[u as int] });
                    &&& u < nodes.len()
                    &&& nodes[u as int].is_expanded ==> nodes2 == nodes
                    &&& dial_inv(access, nodes2, q2, source, st, clock)
                    &&& dial_bound(access, nodes2, u as int, 0)
                    &&& potential(nodes2, q2) < potential(nodes, q)
                    &&& q2.1.len() == q.1.len()
                    &&& 0 <= q2.0 < q2.1.len()
                },
                None => {
                    &&& forall|v: int| 0 <= v < nodes.len() && #[trigger] nodes[v].cost != u32::MAX ==> nodes[v].is_expanded
                },
            }
        }),
{
    lemma_bucket_pop(q);
    let (r, q2) = bucket_pop(q);
    let n = nodes.len();
    match r {
        Some(u) => {
            let e = DijsktraEntry { is_expanded: true, ..nodes[u as int] };
            let nodes2 = nodes.update(u as int, e);
            assert(u < n);
            if nodes[u as int].is_expanded {
                assert(nodes2 =~= nodes);
            }
            lemma_count_expanded_update(nodes, u as int, e);
            lemma_sum_costs_update(nodes, u as int, e);
            assert forall|v: int| 0 <= v < n && v != source && #[trigger] nodes2[v].cost != u32::MAX implies pred_ok(access, nodes2, st, v) by {
                assert(pred_ok(access, nodes, st, v));
            }
            assert forall|x: u32| #[trigger] in_buckets(q2.1, x) implies x < n && nodes2[x as int].cost != u32::MAX by {
                assert(in_buckets(q.1, x));
            }
            assert forall|v: int| 0 <= v < n && #[trigger] nodes2[v].cost != u32::MAX && !nodes2[v].is_expanded implies in_buckets(q2.1, v as u32) by {
                assert(in_buckets(q.1, v as u32));
            }
            if costs_bounded(access, n) {
                let b = cost_bound(n);
                let k = count_expanded(nodes);
                lemma_count_expanded_bound(nodes);
                assert(b >= 0);
                lemma_bound_grow(nodes[u as int].cost as int, k as int, b);
                assert forall|v: int| 0 <= v < n && #[trigger] nodes2[v].cost != u32::MAX implies nodes2[v].cost <= count_expanded(nodes2) * b by {
                    assert(nodes[v].cost <= k * b);
                }
                assert forall|v: int| 0 <= v < n && #[trigger] nodes2[v].is_expanded implies nodes2[v].cost + b <= count_expanded(nodes2) * b by {
                    if v != u {
                        assert(nodes[v].is_expanded);
                    }
                }
                assert forall|w: int, i: int| #![trigger access.out(w)[i]]
                    0 <= w < n && w != u && nodes2[w].is_expanded && 0 <= i < access.out(w).len() implies nodes2[access.out(w)[i].target as int].cost
                        != u32::MAX by {
                    assert(nodes[w].is_expanded);
                }
            }
        },
        None => {},
    }
}

/// Relaxing edge `i` of `u`, the node being expanded, keeps the invariants, with one edge more
/// relaxed, and does not raise the potential.
proof fn lemma_dial_relax(
    access: FastEdgeAccess,
    nodes: Seq<DijsktraEntry>,
    q: (int, Seq<Seq<u32>>),
    source: u32,
    st: Seq<nat>,
    clock: nat,
    u: u32,
    i: int,
    nodes2: Seq<DijsktraEntry>,
    q2: (int, Seq<Seq<u32>>),
    st2: Seq<nat>,
    clock2: nat,
)
    requires
        dial_inv(access, nodes, q, source, st, clock),
        dial_bound(access, nodes, u as int, i),
        q.1.len() > 0,
        u < nodes.len(),
        nodes[u as int].is_expanded,
        0 <= i < access.out(u as int).len(),
        ({
            let e = access.out(u as int)[i];
            let t = e.target as int;
            let alt = if nodes[u as int].cost + e.cost > u32::MAX { u32::MAX as int } else { nodes[u as int].cost + e.cost };
            if alt < nodes[t].cost {
                &&& nodes2 == nodes.update(t, DijsktraEntry { predecessor: u, cost: alt as u32, is_expanded: nodes[t].is_expanded })
                &&& q2 == bucket_push(q, alt, e.target)
                &&& st2 == st.update(t, clock)
                &&& clock2 == clock + 1
            } else {
                &&& nodes2 == nodes
                &&& q2 == q
                &&& st2 == st
                &&& clock2 == clock
            }
        }),
    ensures
        dial_inv(access, nodes2, q2, source, st2, clock2),
        dial_bound(access, nodes2, u as int, i + 1),
        count_expanded(nodes2) == count_expanded(nodes),
        potential(nodes2, q2) <= potential(nodes, q),
        q2.1.len() == q.1.len(),
        q2.0 == q.0,
{
    let n = nodes.len();
    let e = access.out(u as int)[i];
    let t = e.target as int;
    let alt = if nodes[u as int].cost + e.cost > u32::MAX { u32::MAX as int } else { nodes[u as int].cost + e.cost };
    assert(t < n);
    if alt < nodes[t].cost {
        let ne = DijsktraEntry { predecessor: u, cost: alt as u32, is_expanded: nodes[t].is_expanded };
        lemma_bucket_push(q, alt, e.target);
        lemma_count_expanded_update(nodes, t, ne);
        lemma_sum_costs_update(nodes, t, ne);
        assert(t != source);
        assert(access.step(u, e.target));
        assert forall|w: int| 0 <= w < n && w != source && #[trigger] nodes2[w].cost != u32::MAX implies pred_ok(access, nodes2, st2, w) by {
            if w != t {
                assert(pred_ok(access, nodes, st, w));
                let p = nodes[w].predecessor;
                if p == t {
                    assert(nodes2[p as int].cost < nodes[p as int].cost);
                }
            }
        }
        assert forall|w: int| 0 <= w < n implies #[trigger] st2[w] < clock2 by {
            if w != t {
                assert(st[w] < clock);
            }
        }
        assert forall|x: u32| #[trigger] in_buckets(q2.1, x) implies x < n && nodes2[x as int].cost != u32::MAX by {
            if x != e.target {
                assert(in_buckets(q.1, x));
            }
        }
        assert forall|w: int| 0 <= w < n && #[trigger] nodes2[w].cost != u32::MAX && !nodes2[w].is_expanded implies in_buckets(q2.1, w as u32) by {
            if w != t {
                assert(in_buckets(q.1, w as u32));
            }
        }
    }
    lemma_dial_relax_bound(access, nodes, u, i, nodes2, alt);
}

/// Relaxing edge `i` of `u` keeps the bounds, with one edge more relaxed.
proof fn lemma_dial_relax_bound(access: FastEdgeAccess, nodes: Seq<DijsktraEntry>, u: u32, i: int, nodes2: Seq<DijsktraEntry>, alt: int)
    requires
        access.wf(nodes.len()),
        dial_bound(access, nodes, u as int, i),
        u < nodes.len(),
        nodes[u as int].is_expanded,
        0 <= i < access.out(u as int).len(),
        alt == if nodes[u as int].cost + access.out(u as int)[i].cost > u32::MAX {
            u32::MAX as int
        } else {
            nodes[u as int].cost + access.out(u as int)[i].cost
        },
        alt < nodes[access.out(u as int)[i].target as int].cost ==> nodes2 == nodes.update(
            access.out(u as int)[i].target as int,
            DijsktraEntry { predecessor: u, cost: alt as u32, is_expanded: nodes[access.out(u as int)[i].target as int].is_expanded },
        ),
        !(alt < nodes[access.out(u as int)[i].target as int].cost) ==> nodes2 == nodes,
    ensures
        dial_bound(access, nodes2, u as int, i + 1),
        count_expanded(nodes2) == count_expanded(nodes),
{
    let n = nodes.len();
    let e = access.out(u as int)[i];
    let t = e.target as int;
    assert(t < n);
    if alt < nodes[t].cost {
        lemma_count_expanded_update(nodes, t, nodes2[t]);
    }
    if costs_bounded(access, n) {
        let b = cost_bound(n);
        let k = count_expanded(nodes);
        lemma_count_expanded_bound(nodes);
        lemma_count_expanded_pos(nodes, u as int);
        assert(nodes[u as int].cost + b <= k * b);
        lemma_bound_arith(nodes[u as int].cost as int, e.cost as int, k as int, b, n as int);
        assert forall|v: int| 0 <= v < n && #[trigger] nodes2[v].cost != u32::MAX implies nodes2[v].cost <= count_expanded(nodes2) * b by {
            if v != t || !(alt < nodes[t].cost) {
                assert(nodes2[v] == nodes[v]);
            }
        }
        assert forall|v: int| 0 <= v < n && #[trigger] nodes2[v].is_expanded implies nodes2[v].cost + b <= count_expanded(nodes2) * b by {
            assert(nodes[v].is_expanded);
        }
        assert forall|w: int, j: int| #![trigger access.out(w)[j]]
            0 <= w < n && w != u && nodes2[w].is_expanded && 0 <= j < access.out(w).len() implies nodes2[access.out(w)[j].target as int].cost
                != u32::MAX by {
            assert(nodes[w].is_expanded);
            assert(nodes[access.out(w)[j].target as int].cost != u32::MAX);
        }
        assert forall|j: int| 0 <= j < i + 1 && j < access.out(u as int).len() implies nodes2[#[trigger] access.out(u as int)[j].target as int].cost
            != u32::MAX by {
            if j < i {
                assert(nodes[access.out(u as int)[j].target as int].cost != u32::MAX);
            }
        }
    }
}

/// A label list with an expanded node counts at least one.
proof fn lemma_count_expanded_pos(nodes: Seq<DijsktraEntry>, v: int)
    requires
        0 <= v < nodes.len(),
        nodes[v].is_expanded,
    ensures
        count_expanded(nodes) >= 1,
    decreases nodes.len(),
{
    if v < nodes.len() - 1 {
        lemma_count_expanded_pos(nodes.drop_last(), v);
    }
}

/// Searches `access` from `source` with a cyclic bucket queue of `max_edge_cost + 1` buckets
/// until `target` is popped or the queue is empty, and returns the route to `target` along the
/// predecessors. A popped node has its edges relaxed, a relaxed node gets the node it was
/// reached from as predecessor and is queued under its new cost; with `skip_expanded`, an entry
/// of a node that was popped before is dropped.
pub(crate) fn dial(
    access: &FastEdgeAccess,
    num_nodes: u32,
    max_edge_cost: u32,
    source: u32,
    target: u32,
    skip_expanded: bool,
) -> (route: Option<Route>)
    requires
        access.wf(num_nodes as nat),
        source < num_nodes,
        target < num_nodes,
        max_edge_cost < u32::MAX,
        costs_within(*access, num_nodes as nat, max_edge_cost as int),
    ensures
        search_route(*access, num_nodes as nat, source, target, route),
        shortest_answer(*access, source, target, route),
{
    let n = num_nodes as usize;
    let mut queue = BucketQueue::new(max_edge_cost + 1);
    let mut nodes: Vec<DijsktraEntry> = Vec::new();
    while nodes.len() < n
        invariant
            nodes@.len() <= n,
            forall|v: int| 0 <= v < nodes@.len() ==> #[trigger] nodes@[v] == DijsktraEntry::unvisited(),
        decreases n - nodes@.len(),
    {
        nodes.push(DijsktraEntry::new());
    }
    nodes.set(source as usize, DijsktraEntry { predecessor: u32::MAX, cost: 0, is_expanded: false });
    let ghost q0 = queue@;
    let ghost keyed0: (int, Seq<Seq<State>>) = (0, Seq::new(q0.1.len(), |j: int| Seq::<State>::empty()));
    queue.insert(0, source);
    let ghost mut keyed = bucket_push(keyed0, 0, State { key: 0, value: source });
    let ghost mut last: int = 0;
    let ghost mut st: Seq<nat> = zero_stamps(n as nat);
    let ghost mut clock: nat = 1;
    proof {
        lemma_bucket_push(q0, 0, source);
        lemma_mirror_push(keyed0, q0, 0, State { key: 0, value: source });
        lemma_bucket_push(keyed0, 0, State { key: 0, value: source });
        assert forall|x: State| #[trigger] in_buckets(keyed.1, x) implies x == (State { key: 0, value: source }) by {
            if x != (State { key: 0, value: source }) {
                let (j, k) = choose|j: int, k: int| 0 <= j < keyed0.1.len() && 0 <= k < keyed0.1[j].len() && #[trigger] keyed0.1[j][k] == x;
            }
        }
        lemma_push_windowed(keyed0, 0, State { key: 0, value: source });
        assert forall|x: u32| #[trigger] in_buckets(q0.1, x) implies false by {
            let (j, k) = choose|j: int, k: int| 0 <= j < q0.1.len() && 0 <= k < q0.1[j].len() && #[trigger] q0.1[j][k] == x;
        }
        assert forall|v: int| 0 <= v < nodes@.len() && v != source implies #[trigger] nodes@[v] == DijsktraEntry::unvisited() by {}
        lemma_zero_expanded(nodes@);
    }
    let mut reached_target = false;
    loop
        invariant_except_break
            !reached_target,
            dial_bound(*access, nodes@, -1, 0),
            dial_order(*access, nodes@, keyed, source, last, -1, 0),
        invariant
            costs_within(*access, num_nodes as nat, max_edge_cost as int),
            queue@.1.len() == max_edge_cost + 1,
            mirrors(keyed, queue@),
            access.wf(num_nodes as nat),
            n == num_nodes,
            source < num_nodes,
            target < num_nodes,
            nodes@.len() == n,
            queue.wf(),
            queue@.1.len() > 0,
            dial_inv(*access, nodes@, queue@, source, st, clock),
        ensures
            access.wf(num_nodes as nat),
            nodes@.len() == n,
            preds_inv(*access, nodes@, source, st, clock),
            exact_preds(*access, nodes@, source),
            no_cheaper_walk_to(*access, nodes@, source, target),
            reached_target ==> nodes@[target as int].cost != u32::MAX,
            !reached_target ==> dial_bound(*access, nodes@, -1, 0),
            !reached_target ==> forall|v: int| 0 <= v < nodes@.len() && #[trigger] nodes@[v].cost != u32::MAX ==> nodes@[v].is_expanded,
        decreases potential(nodes@, queue@),
    {
        proof {
            lemma_dial_pop(*access, nodes@, queue@, source, st, clock);
            lemma_mirror_pop(keyed, queue@);
            if bucket_pop(keyed).0 is Some {
                lemma_dial_order_pop(*access, nodes@, keyed, source, last);
            }
        }
        let ghost p0 = potential(nodes@, queue@);
        let ghost popped = bucket_pop(keyed);
        let u = match queue.pop() {
            Some(u) => u,
            None => {
                proof {
                    lemma_no_cheaper_walk(*access, nodes@, source, last);
                }
                break;
            },
        };
        let ghost fresh = !nodes@[u as int].is_expanded;
        let ghost cur: int = if fresh { u as int } else { -1 };
        proof {
            keyed = popped.1;
            last = popped.0->0.key as int;
        }
        if skip_expanded && nodes[u as usize].is_expanded {
            assert(potential(nodes@, queue@) < p0);
            continue;
        }
        let entry = nodes[u as usize];
        let ghost before = nodes@;
        nodes.set(u as usize, DijsktraEntry { is_expanded: true, ..entry });
        assert(nodes@ == before.update(u as int, DijsktraEntry { is_expanded: true, ..before[u as int] }));
        assert(nodes@[u as int].is_expanded);
        proof {
            if !fresh {
                assert(nodes@ =~= before);
            }
        }
        if u == target {
            reached_target = true;
            proof {
                assert forall|p: Seq<u32>, ix: Seq<int>|
                    #[trigger] indexed_walk(*access, p, ix) && p[0] == source && p.last() == target implies nodes@[target as int].cost
                        <= indexed_cost(*access, p, ix) by {
                    lemma_walk_bound_from(*access, nodes@, source, last, cur, p, ix);
                }
            }
            break;
        }
        let edges = access.outgoing_edges(u);
        let ghost p1 = potential(nodes@, queue@);
        let mut i: usize = 0;
        while i < edges.len()
            invariant
                access.wf(num_nodes as nat),
                n == num_nodes,
                nodes@.len() == n,
                u < n,
                nodes@[u as int].is_expanded,
                edges@ == access.out(u as int),
                i <= edges@.len(),
                queue.wf(),
                queue@.1.len() > 0,
                dial_inv(*access, nodes@, queue@, source, st, clock),
                dial_bound(*access, nodes@, u as int, i as int),
                potential(nodes@, queue@) <= p1,
                costs_within(*access, num_nodes as nat, max_edge_cost as int),
                queue@.1.len() == max_edge_cost + 1,
                mirrors(keyed, queue@),
                cur == u || cur == -1,
                dial_order(*access, nodes@, keyed, source, last, cur, i as int),
            decreases edges@.len() - i,
        {
            let edge = edges[i];
            let w = edge.target;
            assert(access.out(u as int)[i as int].target < num_nodes);
            let alt = nodes[u as usize].cost.saturating_add(edge.cost);
            let ghost nodes0 = nodes@;
            let ghost q0 = queue@;
            let ghost st0 = st;
            let ghost clock0 = clock;
            let ghost keyed1 = keyed;
            if alt < nodes[w as usize].cost {
                let expanded = nodes[w as usize].is_expanded;
                nodes.set(w as usize, DijsktraEntry { predecessor: u, cost: alt, is_expanded: expanded });
                queue.insert(alt, w);
                proof {
                    st = st.update(w as int, clock);
                    clock = clock + 1;
                    lemma_mirror_push(keyed, q0, alt as int, State { key: alt, value: w });
                    keyed = bucket_push(keyed, alt as int, State { key: alt, value: w });
                }
            }
            proof {
                lemma_dial_relax(*access, nodes0, q0, source, st0, clock0, u, i as int, nodes@, queue@, st, clock);
                lemma_dial_order_relax(*access, nodes0, keyed1, source, last, cur, u, i as int, nodes@, keyed);
            }
            i += 1;
        }
        assert(dial_bound(*access, nodes@, -1, 0));
        proof {
            if cur >= 0 {
                lemma_relaxed_all(*access, nodes@, last, cur);
            }
        }
    }
    proof {
        if nodes@[target as int].cost != u32::MAX {
            lemma_backed(*access, nodes@, source, st, clock, target);
        }
        if !reached_target && costs_bounded(*access, num_nodes as nat) {
            lemma_closed(*access, nodes@, source);
        }
    }
    let route = route_of(&nodes, target);
    proof {
        lemma_dial_answer(*access, nodes@, source, target, st, clock, route);
        if nodes@[target as int].cost != u32::MAX {
            let k0 = choose|k: nat|
                #[trigger] crate::routing::dijkstra_data::chain_ends(nodes@, target, k) && access.is_walk(
                    crate::routing::dijkstra_data::chain_route(nodes@, target, k),
                ) && crate::routing::dijkstra_data::chain_route(nodes@, target, k)[0] == source;
            let k = choose|k: nat| crate::routing::dijkstra_data::chain_ends(nodes@, target, k);
            crate::routing::dijkstra_data::lemma_chain_ends_unique(nodes@, target, k0, k);
            let r = route->0;
            assert(r.nodes@.last() == crate::routing::dijkstra_data::chain(nodes@, target, 0));
        }
    }
    route
}

} // verus!

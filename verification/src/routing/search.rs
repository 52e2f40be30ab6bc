//! What searches over `DijkstraData` establish: every reached node is backed by a walk from the
//! source along its predecessor chain, and every node reachable from the source is reached.
use vstd::prelude::*;

use super::dijkstra_data::{chain, chain_ends, chain_route, fresh_pop, key_of, lemma_fresh_pop, path_cost, relaxed, DijsktraEntry};
use super::fast_graph::{FastEdge, FastEdgeAccess};
use super::queue::{bucket_pop, bucket_push, in_buckets, lemma_bucket_pop, lemma_bucket_push, total_len, State};

verus! {

/// The predecessor chain of `v` ends at `source`, and its nodes, from `source` to `v`, form a
/// walk of `access`.
pub open spec fn backed(access: FastEdgeAccess, nodes: Seq<DijsktraEntry>, source: u32, v: u32) -> bool {
    exists|k: nat|
        #[trigger] chain_ends(nodes, v, k) && access.is_walk(chain_route(nodes, v, k)) && chain_route(nodes, v, k)[0]
            == source
}

/// Every reached node (one whose cost is not `u32::MAX`) is backed by a walk from `source`.
pub open spec fn labels_backed(access: FastEdgeAccess, nodes: Seq<DijsktraEntry>, source: u32) -> bool {
    forall|v: u32| v < nodes.len() && nodes[v as int].cost != u32::MAX ==> #[trigger] backed(access, nodes, source, v)
}

/// Every node that a walk from `source` reaches is reached.
pub open spec fn labels_complete(access: FastEdgeAccess, nodes: Seq<DijsktraEntry>, source: u32) -> bool {
    forall|t: u32| t < nodes.len() && #[trigger] access.reaches(source, t) ==> nodes[t as int].cost != u32::MAX
}

/// No edge costs so much that `num_nodes` such edges in a row cost `u32::MAX` or more.
pub open spec fn costs_bounded(access: FastEdgeAccess, num_nodes: nat) -> bool {
    forall|v: int, i: int| #![trigger access.out(v)[i]]
        0 <= v < num_nodes && 0 <= i < access.out(v).len() ==> access.out(v)[i].cost <= cost_bound(num_nodes)
}

/// The largest edge cost that [`costs_bounded`] allows.
pub open spec fn cost_bound(num_nodes: nat) -> int {
    if num_nodes == 0 { 0 } else { (u32::MAX - 1) as int / num_nodes as int }
}

/// Whether some queue entry names `v`.
pub open spec fn queued(q: (int, Seq<Seq<State>>), v: u32) -> bool {
    exists|x: State| #[trigger] in_buckets(q.1, x) && x.value == v
}

/// The predecessor of `v` is a node with an edge to `v`, and it is smaller than `v` in the order
/// of (cost, time of the last label change).
pub open spec fn pred_ok(access: FastEdgeAccess, nodes: Seq<DijsktraEntry>, st: Seq<nat>, v: int) -> bool {
    let p = nodes[v].predecessor;
    &&& p < nodes.len()
    &&& access.step(p, v as u32)
    &&& (nodes[p as int].cost < nodes[v].cost || (nodes[p as int].cost == nodes[v].cost && st[p as int] < st[v]))
}

/// The labels of a search from `source`: costs and predecessors agree on which nodes are
/// reached, `source` is reached at cost 0 with no predecessor, and every other reached node has
/// a predecessor that fits [`pred_ok`] under the change times `st`, all before `clock`.
pub open spec fn preds_inv(access: FastEdgeAccess, nodes: Seq<DijsktraEntry>, source: u32, st: Seq<nat>, clock: nat) -> bool {
    &&& access.wf(nodes.len())
    &&& nodes.len() <= u32::MAX
    &&& st.len() == nodes.len()
    &&& source < nodes.len()
    &&& forall|v: int| 0 <= v < nodes.len() ==> #[trigger] st[v] < clock
    &&& nodes[source as int].cost == 0
    &&& nodes[source as int].predecessor == u32::MAX
    &&& forall|v: int|
        0 <= v < nodes.len() && v != source ==> (#[trigger] nodes[v].cost == u32::MAX) == (nodes[v].predecessor == u32::MAX)
    &&& forall|v: int|
        0 <= v < nodes.len() && v != source && #[trigger] nodes[v].cost != u32::MAX ==> pred_ok(access, nodes, st, v)
}

/// What holds of a search from `source` at every step.
pub open spec fn search_inv(
    access: FastEdgeAccess,
    nodes: Seq<DijsktraEntry>,
    q: (int, Seq<Seq<State>>),
    source: u32,
    st: Seq<nat>,
    clock: nat,
) -> bool {
    &&& preds_inv(access, nodes, source, st, clock)
    &&& forall|v: int| 0 <= v < nodes.len() && #[trigger] nodes[v].is_expanded ==> nodes[v].cost != u32::MAX
    &&& forall|x: State| #[trigger] in_buckets(q.1, x) ==> x.value < nodes.len() && nodes[x.value as int].cost != u32::MAX
    &&& forall|v: int|
        0 <= v < nodes.len() && #[trigger] nodes[v].cost != u32::MAX && !nodes[v].is_expanded ==> queued(q, v as u32)
}

/// The node `i + 1` steps up from `v` is the node `i` steps up from the predecessor of `v`.
pub proof fn lemma_chain_shift(nodes: Seq<DijsktraEntry>, v: u32, i: nat)
    ensures
        chain(nodes, v, i + 1) == chain(nodes, nodes[v as int].predecessor, i),
    decreases i,
{
    if i > 0 {
        lemma_chain_shift(nodes, v, (i - 1) as nat);
        assert(chain(nodes, v, i + 1) == nodes[chain(nodes, v, i) as int].predecessor);
        assert(chain(nodes, nodes[v as int].predecessor, i) == nodes[chain(nodes, nodes[v as int].predecessor, (i - 1) as nat) as int].predecessor);
    } else {
        assert(chain(nodes, v, 0) == v);
        assert(chain(nodes, v, 1) == nodes[chain(nodes, v, 0) as int].predecessor);
    }
}

/// Under the label invariant, every reached node is backed by a walk from the source.
pub proof fn lemma_backed(
    access: FastEdgeAccess,
    nodes: Seq<DijsktraEntry>,
    source: u32,
    st: Seq<nat>,
    clock: nat,
    v: u32,
)
    requires
        preds_inv(access, nodes, source, st, clock),
        v < nodes.len(),
        nodes[v as int].cost != u32::MAX,
    ensures
        backed(access, nodes, source, v),
    decreases nodes[v as int].cost, st[v as int],
{
    if v == source {
        assert(chain_ends(nodes, v, 0));
        assert(chain_route(nodes, v, 0) =~= seq![source]);
        assert(access.is_walk(chain_route(nodes, v, 0)));
    } else {
        let p = nodes[v as int].predecessor;
        assert(pred_ok(access, nodes, st, v as int));
        lemma_backed(access, nodes, source, st, clock, p);
        let k = choose|k: nat|
            #[trigger] chain_ends(nodes, p, k) && access.is_walk(chain_route(nodes, p, k)) && chain_route(nodes, p, k)[0]
                == source;
        assert forall|i: nat| i <= k + 1 implies #[trigger] chain(nodes, v, i) < nodes.len() by {
            if i > 0 {
                lemma_chain_shift(nodes, v, (i - 1) as nat);
            }
        }
        assert forall|i: nat| i < k + 1 implies nodes[#[trigger] chain(nodes, v, i) as int].predecessor != u32::MAX by {
            if i > 0 {
                lemma_chain_shift(nodes, v, (i - 1) as nat);
            }
        }
        lemma_chain_shift(nodes, v, k);
        assert(chain_ends(nodes, v, k + 1));
        let r = chain_route(nodes, p, k);
        let rv = chain_route(nodes, v, k + 1);
        assert forall|i: int| 0 <= i < rv.len() implies rv[i] == r.push(v)[i] by {
            if i < k + 1 {
                lemma_chain_shift(nodes, v, (k - i) as nat);
            }
        }
        assert(rv =~= r.push(v));
        assert forall|m: int| 0 <= m < rv.len() - 1 implies #[trigger] access.step(rv[m], rv[m + 1]) by {
            if m < rv.len() - 2 {
                assert(rv[m] == r[m] && rv[m + 1] == r[m + 1]);
            } else {
                assert(rv[m] == r.last());
                assert(r.last() == chain(nodes, p, 0));
            }
        }
        assert(rv[0] == r[0]);
    }
}

/// Every reached node of a search state is backed by a walk from the source.
pub proof fn lemma_labels_backed(
    access: FastEdgeAccess,
    nodes: Seq<DijsktraEntry>,
    q: (int, Seq<Seq<State>>),
    source: u32,
    st: Seq<nat>,
    clock: nat,
)
    requires
        search_inv(access, nodes, q, source, st, clock),
    ensures
        labels_backed(access, nodes, source),
{
    assert forall|v: u32| v < nodes.len() && nodes[v as int].cost != u32::MAX implies #[trigger] backed(access, nodes, source, v) by {
        lemma_backed(access, nodes, source, st, clock, v);
    }
}

/// A node backed by a walk from `source` is reachable from `source`.
pub proof fn lemma_backed_reaches(access: FastEdgeAccess, nodes: Seq<DijsktraEntry>, source: u32, v: u32)
    requires
        backed(access, nodes, source, v),
    ensures
        access.reaches(source, v),
{
    let k = choose|k: nat|
        #[trigger] chain_ends(nodes, v, k) && access.is_walk(chain_route(nodes, v, k)) && chain_route(nodes, v, k)[0]
            == source;
    let p = chain_route(nodes, v, k);
    assert(p.last() == chain(nodes, v, 0));
    assert(access.is_walk(p) && p[0] == source && p.last() == v);
}

/// The times of the labels of a new search.
pub open spec fn zero_stamps(n: nat) -> Seq<nat> {
    Seq::new(n, |v: int| 0nat)
}

/// Going over an edge from a node reachable from `s` reaches the edge's target.
pub proof fn lemma_reaches_step(access: FastEdgeAccess, s: u32, u: u32, i: int)
    requires
        access.reaches(s, u),
        0 <= i < access.out(u as int).len(),
    ensures
        access.reaches(s, access.out(u as int)[i].target),
{
    let p = choose|p: Seq<u32>| #[trigger] access.is_walk(p) && p[0] == s && p.last() == u;
    let t = access.out(u as int)[i].target;
    let p2 = p.push(t);
    assert(access.step(u, t));
    assert forall|k: int| 0 <= k < p2.len() - 1 implies #[trigger] access.step(p2[k], p2[k + 1]) by {
        if k < p.len() - 1 {
            assert(p2[k] == p[k] && p2[k + 1] == p[k + 1]);
            assert(access.step(p[k], p[k + 1]));
        } else {
            assert(p2[k] == u && p2[k + 1] == t);
        }
    }
    assert(access.is_walk(p2) && p2[0] == s && p2.last() == t);
}

/// The number of expanded nodes.
pub open spec fn count_expanded(nodes: Seq<DijsktraEntry>) -> nat
    decreases nodes.len(),
{
    if nodes.len() == 0 {
        0
    } else {
        count_expanded(nodes.drop_last()) + if nodes.last().is_expanded {
            1nat
        } else {
            0nat
        }
    }
}

pub proof fn lemma_count_expanded_bound(nodes: Seq<DijsktraEntry>)
    ensures
        count_expanded(nodes) <= nodes.len(),
    decreases nodes.len(),
{
    if nodes.len() > 0 {
        lemma_count_expanded_bound(nodes.drop_last());
    }
}

/// Changing one label changes the count by the change of its expansion flag.
pub proof fn lemma_count_expanded_update(nodes: Seq<DijsktraEntry>, v: int, e: DijsktraEntry)
    requires
        0 <= v < nodes.len(),
    ensures
        count_expanded(nodes.update(v, e)) + (if nodes[v].is_expanded { 1int } else { 0int }) == count_expanded(nodes) + (
        if e.is_expanded {
            1int
        } else {
            0int
        }),
    decreases nodes.len(),
{
    let u = nodes.update(v, e);
    if v == nodes.len() - 1 {
        assert(u.drop_last() =~= nodes.drop_last());
    } else {
        assert(u.drop_last() =~= nodes.drop_last().update(v, e));
        lemma_count_expanded_update(nodes.drop_last(), v, e);
    }
}

/// What holds, when edge costs are bounded, of a search that is expanding `cur` (or no node,
/// when `cur` is negative) and has relaxed its first `done` edges: reached costs stay below
/// the number of expanded nodes times the cost bound, and the edges of expanded nodes lead to
/// reached nodes.
pub open spec fn bound_inv(access: FastEdgeAccess, nodes: Seq<DijsktraEntry>, cur: int, done: int) -> bool {
    let n = nodes.len();
    let b = cost_bound(n);
    costs_bounded(access, n) ==> {
        &&& forall|v: int| 0 <= v < n && #[trigger] nodes[v].cost != u32::MAX ==> nodes[v].cost <= count_expanded(nodes) * b
        &&& cur >= 0 ==> cur < n && nodes[cur].is_expanded && count_expanded(nodes) >= 1 && nodes[cur].cost + b
            <= count_expanded(nodes) * b
        &&& forall|u: int, i: int| #![trigger access.out(u)[i]]
            0 <= u < n && u != cur && nodes[u].is_expanded && 0 <= i < access.out(u).len() ==> nodes[access.out(u)[i].target as int].cost
                != u32::MAX
        &&& cur >= 0 ==> forall|i: int| 0 <= i < done && i < access.out(cur).len() ==> nodes[#[trigger] access.out(cur)[i].target as int].cost
            != u32::MAX
    }
}

pub proof fn lemma_bound_arith(c: int, e: int, k: int, b: int, n: int)
    requires
        1 <= k <= n,
        0 <= e <= b,
        c + b <= k * b,
        b == (u32::MAX - 1) as int / n,
    ensures
        c + e <= k * b,
        k * b <= u32::MAX - 1,
{
    assert(k * b <= n * b) by (nonlinear_arith)
        requires
            k <= n,
            b >= 0,
    ;
    assert(n * b <= u32::MAX - 1) by (nonlinear_arith)
        requires
            b == (u32::MAX - 1) as int / n,
            n >= 1,
    ;
}

pub proof fn lemma_bound_grow(c: int, k: int, b: int)
    requires
        c <= k * b,
        b >= 0,
    ensures
        c + b <= (k + 1) * b,
        k * b <= (k + 1) * b,
{
    assert((k + 1) * b == k * b + b) by (nonlinear_arith);
}

/// Popping keeps the invariants; the popped node becomes the node being expanded. When the
/// pop finds nothing, every reached node is expanded.
pub proof fn lemma_after_pop(
    access: FastEdgeAccess,
    nodes: Seq<DijsktraEntry>,
    q: (int, Seq<Seq<State>>),
    source: u32,
    st: Seq<nat>,
    clock: nat,
)
    requires
        search_inv(access, nodes, q, source, st, clock),
        bound_inv(access, nodes, -1, 0),
        q.1.len() > 0,
        0 <= q.0 < q.1.len(),
    ensures
        ({
            let (r, q2) = fresh_pop(q, nodes);
            match r {
                Some(s) => {
                    let nodes2 = nodes.update(s.value as int, DijsktraEntry { is_expanded: true, ..nodes[s.value as int] });
                    &&& search_inv(access, nodes2, q2, source, st, clock)
                    &&& bound_inv(access, nodes2, s.value as int, 0)
                    &&& count_expanded(nodes2) == count_expanded(nodes) + 1
                    &&& !nodes[s.value as int].is_expanded
                    &&& s.value < nodes.len()
                },
                None => {
                    &&& search_inv(access, nodes, q2, source, st, clock)
                    &&& forall|v: int| 0 <= v < nodes.len() && #[trigger] nodes[v].cost != u32::MAX ==> nodes[v].is_expanded
                    &&& forall|x: State| !in_buckets(q2.1, x)
                },
            }
        }),
{
    lemma_fresh_pop(q, nodes);
    let (r, q2) = fresh_pop(q, nodes);
    match r {
        Some(s) => {
            let v = s.value as int;
            let nodes2 = nodes.update(v, DijsktraEntry { is_expanded: true, ..nodes[v] });
            lemma_count_expanded_update(nodes, v, DijsktraEntry { is_expanded: true, ..nodes[v] });
            lemma_count_expanded_bound(nodes);
            assert forall|w: int|
                0 <= w < nodes2.len() && #[trigger] nodes2[w].cost != u32::MAX && !nodes2[w].is_expanded implies queued(q2, w as u32) by {
                assert(w != v);
                assert(nodes[w] == nodes2[w]);
                assert(queued(q, w as u32));
                let x = choose|x: State| #[trigger] in_buckets(q.1, x) && x.value == w as u32;
                assert(in_buckets(q2.1, x));
            }
            assert forall|w: int|
                0 <= w < nodes2.len() && w != source && #[trigger] nodes2[w].cost != u32::MAX implies pred_ok(access, nodes2, st, w) by {
                assert(pred_ok(access, nodes, st, w));
            }
            if costs_bounded(access, nodes.len()) {
                let b = cost_bound(nodes.len());
                assert(b >= 0);
                assert forall|w: int| 0 <= w < nodes2.len() && #[trigger] nodes2[w].cost != u32::MAX implies nodes2[w].cost
                    <= count_expanded(nodes2) * b by {
                    lemma_bound_grow(nodes[w].cost as int, count_expanded(nodes) as int, b);
                }
                lemma_bound_grow(nodes[v].cost as int, count_expanded(nodes) as int, b);
            }
        },
        None => {
            assert forall|w: int| 0 <= w < nodes.len() && #[trigger] nodes[w].cost != u32::MAX implies nodes[w].is_expanded by {
                if !nodes[w].is_expanded {
                    assert(queued(q, w as u32));
                    let x = choose|x: State| #[trigger] in_buckets(q.1, x) && x.value == w as u32;
                }
            }
        },
    }
}

/// Relaxing an edge of the node being expanded keeps the invariants, with a fresh time for a
/// changed label.
pub proof fn lemma_after_relax(
    access: FastEdgeAccess,
    nodes: Seq<DijsktraEntry>,
    q: (int, Seq<Seq<State>>),
    source: u32,
    st: Seq<nat>,
    clock: nat,
    u: u32,
    i: int,
    h: u32,
    nodes2: Seq<DijsktraEntry>,
    q2: (int, Seq<Seq<State>>),
) -> (r: (Seq<nat>, nat))
    requires
        search_inv(access, nodes, q, source, st, clock),
        bound_inv(access, nodes, u as int, i),
        q.1.len() > 0,
        u < nodes.len(),
        nodes[u as int].is_expanded,
        0 <= i < access.out(u as int).len(),
        relaxed(nodes, q, u, access.out(u as int)[i], h, nodes2, q2),
    ensures
        search_inv(access, nodes2, q2, source, r.0, r.1),
        bound_inv(access, nodes2, u as int, i + 1),
        count_expanded(nodes2) == count_expanded(nodes),
{
    let e = access.out(u as int)[i];
    let t = e.target as int;
    let alt = path_cost(nodes[u as int].cost, e.cost);
    lemma_relax_bound(access, nodes, q, source, st, clock, u, i, h, nodes2, q2);
    if alt < nodes[t].cost {
        lemma_relax_changed(access, nodes, q, source, st, clock, u, i, h, nodes2, q2);
        (st.update(t, clock), clock + 1)
    } else {
        (st, clock)
    }
}

proof fn lemma_relax_changed(
    access: FastEdgeAccess,
    nodes: Seq<DijsktraEntry>,
    q: (int, Seq<Seq<State>>),
    source: u32,
    st: Seq<nat>,
    clock: nat,
    u: u32,
    i: int,
    h: u32,
    nodes2: Seq<DijsktraEntry>,
    q2: (int, Seq<Seq<State>>),
)
    requires
        search_inv(access, nodes, q, source, st, clock),
        q.1.len() > 0,
        u < nodes.len(),
        nodes[u as int].is_expanded,
        0 <= i < access.out(u as int).len(),
        relaxed(nodes, q, u, access.out(u as int)[i], h, nodes2, q2),
        path_cost(nodes[u as int].cost, access.out(u as int)[i].cost) < nodes[access.out(u as int)[i].target as int].cost,
    ensures
        search_inv(access, nodes2, q2, source, st.update(access.out(u as int)[i].target as int, clock), clock + 1),
{
    let n = nodes.len();
    let e = access.out(u as int)[i];
    let t = e.target as int;
    let alt = path_cost(nodes[u as int].cost, e.cost);
    let st2 = st.update(t, clock);
    let key = key_of(alt, h as int);
    lemma_bucket_push(q, key, State { key: key as u32, value: e.target });
    assert(t < n);
    assert(t != source);
    assert(access.step(u, e.target));
    assert forall|w: int|
        0 <= w < n && w != source && #[trigger] nodes2[w].cost != u32::MAX implies pred_ok(access, nodes2, st2, w) by {
        if w != t {
            assert(pred_ok(access, nodes, st, w));
            let p = nodes[w].predecessor;
            if p == t {
                assert(nodes2[p as int].cost < nodes[p as int].cost);
            }
        }
    }
    assert forall|w: int|
        0 <= w < n && #[trigger] nodes2[w].cost != u32::MAX && !nodes2[w].is_expanded implies queued(q2, w as u32) by {
        if w == t {
            assert(in_buckets(q2.1, State { key: key as u32, value: e.target }));
        } else {
            assert(queued(q, w as u32));
            let x = choose|x: State| #[trigger] in_buckets(q.1, x) && x.value == w as u32;
            assert(in_buckets(q2.1, x));
        }
    }
    assert forall|x: State| #[trigger] in_buckets(q2.1, x) implies x.value < n && nodes2[x.value as int].cost != u32::MAX by {
        if x != (State { key: key as u32, value: e.target }) {
            assert(in_buckets(q.1, x));
        }
    }
    assert forall|w: int| 0 <= w < n implies #[trigger] st2[w] < clock + 1 by {
        if w != t {
            assert(st[w] < clock);
        }
    }
}

proof fn lemma_relax_bound(
    access: FastEdgeAccess,
    nodes: Seq<DijsktraEntry>,
    q: (int, Seq<Seq<State>>),
    source: u32,
    st: Seq<nat>,
    clock: nat,
    u: u32,
    i: int,
    h: u32,
    nodes2: Seq<DijsktraEntry>,
    q2: (int, Seq<Seq<State>>),
)
    requires
        search_inv(access, nodes, q, source, st, clock),
        bound_inv(access, nodes, u as int, i),
        u < nodes.len(),
        nodes[u as int].is_expanded,
        0 <= i < access.out(u as int).len(),
        relaxed(nodes, q, u, access.out(u as int)[i], h, nodes2, q2),
    ensures
        bound_inv(access, nodes2, u as int, i + 1),
        count_expanded(nodes2) == count_expanded(nodes),
{
    let n = nodes.len();
    let e = access.out(u as int)[i];
    let t = e.target as int;
    let alt = path_cost(nodes[u as int].cost, e.cost);
    assert(t < n);
    if alt < nodes[t].cost {
        lemma_count_expanded_update(nodes, t, nodes2[t]);
    }
    if costs_bounded(access, n) {
        let b = cost_bound(n);
        lemma_count_expanded_bound(nodes);
        lemma_bound_arith(nodes[u as int].cost as int, e.cost as int, count_expanded(nodes) as int, b, n as int);
        assert forall|u2: int, j: int| #![trigger access.out(u2)[j]]
            0 <= u2 < n && u2 != u && nodes2[u2].is_expanded && 0 <= j < access.out(u2).len() implies nodes2[access.out(u2)[j].target as int].cost
                != u32::MAX by {
            assert(nodes[access.out(u2)[j].target as int].cost != u32::MAX);
        }
        assert forall|j: int| 0 <= j < i + 1 && j < access.out(u as int).len() implies nodes2[#[trigger] access.out(u as int)[j].target as int].cost
            != u32::MAX by {
            if j < i {
                assert(nodes[access.out(u as int)[j].target as int].cost != u32::MAX);
            }
        }
        assert forall|v: int| 0 <= v < n && #[trigger] nodes2[v].cost != u32::MAX implies nodes2[v].cost <= count_expanded(nodes2) * b by {
            if v != t || !(alt < nodes[t].cost) {
                assert(nodes2[v] == nodes[v]);
            }
        }
    }
}

/// The end of a search: the reached nodes are backed by walks and, when edge costs are bounded,
/// are all nodes reachable from the source.
pub proof fn lemma_search_end(
    access: FastEdgeAccess,
    nodes: Seq<DijsktraEntry>,
    q: (int, Seq<Seq<State>>),
    source: u32,
    st: Seq<nat>,
    clock: nat,
)
    requires
        search_inv(access, nodes, q, source, st, clock),
        bound_inv(access, nodes, -1, 0),
        forall|v: int| 0 <= v < nodes.len() && #[trigger] nodes[v].cost != u32::MAX ==> nodes[v].is_expanded,
    ensures
        labels_backed(access, nodes, source),
        costs_bounded(access, nodes.len()) ==> labels_complete(access, nodes, source),
{
    lemma_labels_backed(access, nodes, q, source, st, clock);
    if costs_bounded(access, nodes.len()) {
        lemma_closed(access, nodes, source);
    }
}

pub proof fn lemma_zero_expanded(nodes: Seq<DijsktraEntry>)
    requires
        forall|v: int| 0 <= v < nodes.len() ==> !(#[trigger] nodes[v]).is_expanded,
    ensures
        count_expanded(nodes) == 0,
    decreases nodes.len(),
{
    if nodes.len() > 0 {
        lemma_zero_expanded(nodes.drop_last());
    }
}

/// If the reached nodes are closed under the edges, every node reachable from `source` is reached.
pub proof fn lemma_closed(access: FastEdgeAccess, nodes: Seq<DijsktraEntry>, source: u32)
    requires
        access.wf(nodes.len()),
        source < nodes.len(),
        nodes[source as int].cost != u32::MAX,
        forall|u: int, i: int| #![trigger access.out(u)[i]]
            0 <= u < nodes.len() && nodes[u].cost != u32::MAX && 0 <= i < access.out(u).len()
                ==> nodes[access.out(u)[i].target as int].cost != u32::MAX,
    ensures
        labels_complete(access, nodes, source),
{
    assert forall|t: u32| t < nodes.len() && #[trigger] access.reaches(source, t) implies nodes[t as int].cost != u32::MAX by {
        let p = choose|p: Seq<u32>| #[trigger] access.is_walk(p) && p[0] == source && p.last() == t;
        lemma_walk_reached(access, nodes, p, p.len() - 1);
    }
}

/// Every node of a walk from a reached node, in a graph whose reached nodes are closed under the
/// edges, is reached.
proof fn lemma_walk_reached(access: FastEdgeAccess, nodes: Seq<DijsktraEntry>, p: Seq<u32>, k: int)
    requires
        access.wf(nodes.len()),
        access.is_walk(p),
        0 <= k < p.len(),
        p[0] < nodes.len(),
        nodes[p[0] as int].cost != u32::MAX,
        forall|u: int, i: int| #![trigger access.out(u)[i]]
            0 <= u < nodes.len() && nodes[u].cost != u32::MAX && 0 <= i < access.out(u).len()
                ==> nodes[access.out(u)[i].target as int].cost != u32::MAX,
    ensures
        p[k] < nodes.len(),
        nodes[p[k] as int].cost != u32::MAX,
    decreases k,
{
    if k > 0 {
        lemma_walk_reached(access, nodes, p, k - 1);
        let j = k - 1;
        assert(access.step(p[j], p[j + 1]));
        let i = choose|i: int| 0 <= i < access.out(p[j] as int).len() && #[trigger] access.out(p[j] as int)[i].target == p[j + 1];
    }
}

} // verus!

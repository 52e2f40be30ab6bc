//! Why searches with the zero heuristic find shortest routes: the cyclic bucket queue hands out
//! its entries in the order of their keys as long as all keys lie within one round of buckets.
use vstd::prelude::*;

use super::dijkstra_data::{fresh_pop, key_of, lemma_fresh_pop, path_cost, relaxed, DijsktraEntry};
use super::fast_graph::{FastEdge, FastEdgeAccess};
use super::queue::bucket_queue::NUM_BUCKETS;
use super::queue::{bucket_pop, bucket_push, in_buckets, lemma_bucket_pop, lemma_bucket_push, scan_buckets, State};
use super::dijkstra_data::{chain, chain_ends, chain_route};
use super::search::{lemma_chain_shift, pred_ok, preds_inv, search_inv};
use super::simple_algorithms::ch_bi_dijkstra::{indexed_cost, indexed_walk};

verus! {

/// How many steps after `current`, starting at `offset`, the first non-empty bucket lies; the
/// number of buckets when all of them are empty.
pub open spec fn scan_offset<T>(buckets: Seq<Seq<T>>, current: int, offset: nat) -> int
    decreases buckets.len() - offset,
{
    if offset >= buckets.len() {
        buckets.len() as int
    } else if buckets[(current + offset) % (buckets.len() as int)].len() > 0 {
        offset as int
    } else {
        scan_offset(buckets, current, offset + 1)
    }
}

/// The scan stops at the bucket [`scan_offset`] steps away, and every bucket it passes before
/// is empty.
pub proof fn lemma_scan_offset<T>(buckets: Seq<Seq<T>>, current: int, offset: nat)
    requires
        buckets.len() > 0,
        offset <= buckets.len(),
    ensures
        offset <= scan_offset(buckets, current, offset) <= buckets.len(),
        scan_offset(buckets, current, offset) < buckets.len() ==> scan_buckets(buckets, current, offset) == Some(
            (current + scan_offset(buckets, current, offset)) % (buckets.len() as int),
        ) && buckets[(current + scan_offset(buckets, current, offset)) % (buckets.len() as int)].len() > 0,
        scan_offset(buckets, current, offset) == buckets.len() ==> scan_buckets(buckets, current, offset) is None,
        forall|i: int| offset <= i < scan_offset(buckets, current, offset) ==> #[trigger] buckets[(current + i) % (buckets.len() as int)].len() == 0,
    decreases buckets.len() - offset,
{
    if offset < buckets.len() && buckets[(current + offset) % (buckets.len() as int)].len() == 0 {
        lemma_scan_offset(buckets, current, offset + 1);
    }
}

/// Every entry lies in the bucket of its key.
pub open spec fn placed(q: (int, Seq<Seq<State>>)) -> bool {
    forall|j: int, k: int| 0 <= j < q.1.len() && 0 <= k < q.1[j].len() ==> #[trigger] q.1[j][k].key as int % (q.1.len() as int) == j
}

/// All keys lie in one round of buckets from `low`, and the current bucket is that of `low`.
pub open spec fn windowed(q: (int, Seq<Seq<State>>), low: int) -> bool {
    &&& q.1.len() > 0
    &&& low >= 0
    &&& q.0 == low % (q.1.len() as int)
    &&& forall|x: State| #[trigger] in_buckets(q.1, x) ==> low <= x.key < low + q.1.len()
}

/// Two numbers of one round from `low` in the same bucket are equal.
proof fn lemma_same_bucket(low: int, a: int, b: int, n: int)
    requires
        n > 0,
        0 <= a < n,
        0 <= b < n,
        (low + a) % n == (low + b) % n,
    ensures
        a == b,
{
    vstd::arithmetic::div_mod::lemma_fundamental_div_mod(low + a, n);
    vstd::arithmetic::div_mod::lemma_fundamental_div_mod(low + b, n);
    let qa = (low + a) / n;
    let qb = (low + b) / n;
    let ra = (low + a) % n;
    assert(low + a == n * qa + ra);
    assert(low + b == n * qb + ra);
    assert(a - b == n * (qa - qb)) by (nonlinear_arith)
        requires
            low + a == n * qa + ra,
            low + b == n * qb + ra,
    ;
    assert(qa == qb) by (nonlinear_arith)
        requires
            a - b == n * (qa - qb),
            -n < a - b < n,
            n > 0,
    ;
}

/// In a queue whose entries lie in their buckets and within one round from the current bucket,
/// popping gives an entry with the smallest key, and its bucket becomes the current one.
pub proof fn lemma_pop_smallest(q: (int, Seq<Seq<State>>), low: int)
    requires
        placed(q),
        windowed(q, low),
    ensures
        bucket_pop(q).0 matches Some(y) ==> {
            &&& in_buckets(q.1, y)
            &&& forall|x: State| #[trigger] in_buckets(q.1, x) ==> y.key <= x.key
            &&& bucket_pop(q).1.0 == y.key as int % (q.1.len() as int)
        },
{
    let n = q.1.len() as int;
    let c = q.0;
    lemma_scan_offset(q.1, c, 0);
    lemma_bucket_pop(q);
    let io = scan_offset(q.1, c, 0);
    if io < n {
        let j = (c + io) % n;
        let y = q.1[j].last();
        assert(q.1[j][q.1[j].len() - 1] == y);
        assert(in_buckets(q.1, y));
        assert(y.key as int % n == j);
        let a = y.key - low;
        vstd::arithmetic::div_mod::lemma_small_mod(io as nat, n as nat);
        vstd::arithmetic::div_mod::lemma_add_mod_noop(low, io, n);
        vstd::arithmetic::div_mod::lemma_mod_pos_bound(low, n);
        vstd::arithmetic::div_mod::lemma_small_mod(a as nat, n as nat);
        vstd::arithmetic::div_mod::lemma_add_mod_noop(low, a, n);
        assert((low + a) % n == (low + io) % n);
        lemma_same_bucket(low, a, io, n);
        assert forall|x: State| #[trigger] in_buckets(q.1, x) implies y.key <= x.key by {
            let (jx, kx) = choose|jx: int, kx: int| 0 <= jx < q.1.len() && 0 <= kx < q.1[jx].len() && #[trigger] q.1[jx][kx] == x;
            let ix = x.key - low;
            vstd::arithmetic::div_mod::lemma_small_mod(ix as nat, n as nat);
            vstd::arithmetic::div_mod::lemma_add_mod_noop(low, ix, n);
            assert(x.key as int % n == jx);
            assert((c + ix) % n == jx);
            if ix < io {
                assert(q.1[(c + ix) % n].len() == 0);
            }
        }
    }
}

/// Pushing an entry with a key within the round keeps entries placed and windowed.
pub proof fn lemma_push_windowed(q: (int, Seq<Seq<State>>), low: int, x: State)
    requires
        placed(q),
        windowed(q, low),
        low <= x.key < low + q.1.len(),
    ensures
        placed(bucket_push(q, x.key as int, x)),
        windowed(bucket_push(q, x.key as int, x), low),
{
    let n = q.1.len() as int;
    lemma_bucket_push(q, x.key as int, x);
    let q2 = bucket_push(q, x.key as int, x);
    let j0 = x.key as int % n;
    vstd::arithmetic::div_mod::lemma_mod_pos_bound(x.key as int, n);
    assert forall|j: int, k: int| 0 <= j < q2.1.len() && 0 <= k < q2.1[j].len() implies #[trigger] q2.1[j][k].key as int % n == j by {
        if j == j0 && k == q.1[j].len() {
            assert(q2.1[j][k] == x);
        } else {
            assert(q2.1[j][k] == q.1[j][k]);
        }
    }
}

/// Popping an entry with the smallest key keeps entries placed, and windowed from its key.
pub proof fn lemma_pop_windowed(q: (int, Seq<Seq<State>>), low: int)
    requires
        placed(q),
        windowed(q, low),
        bucket_pop(q).0 is Some,
    ensures
        placed(bucket_pop(q).1),
        windowed(bucket_pop(q).1, (bucket_pop(q).0)->0.key as int),
        low <= (bucket_pop(q).0)->0.key,
{
    lemma_pop_smallest(q, low);
    lemma_bucket_pop(q);
    let (p, q2) = bucket_pop(q);
    let y = p->0;
    let n = q.1.len() as int;
    let j = q2.0;
    assert forall|jj: int, k: int| 0 <= jj < q2.1.len() && 0 <= k < q2.1[jj].len() implies #[trigger] q2.1[jj][k].key as int % n == jj by {
        if jj == j {
            assert(q2.1[jj][k] == q.1[jj][k]);
        } else {
            assert(q2.1[jj][k] == q.1[jj][k]);
        }
    }
    assert forall|x: State| #[trigger] in_buckets(q2.1, x) implies y.key <= x.key < y.key + n by {
        assert(in_buckets(q.1, x));
    }
}

/// Every edge leaving a node below `n` costs less than there are buckets.
pub open spec fn short_edges(access: FastEdgeAccess, n: nat) -> bool {
    forall|v: int, i: int| #![trigger access.out(v)[i]] 0 <= v < n && 0 <= i < access.out(v).len() ==> access.out(v)[i].cost < NUM_BUCKETS
}

/// The predecessor of a reached node other than `source` is expanded, and an edge from it to
/// the node costs exactly the difference of their costs.
pub open spec fn exact_preds(access: FastEdgeAccess, nodes: Seq<DijsktraEntry>, source: u32) -> bool {
    forall|v: int|
        0 <= v < nodes.len() && v != source && #[trigger] nodes[v].cost != u32::MAX ==> {
            let p = nodes[v].predecessor as int;
            &&& 0 <= p < nodes.len()
            &&& nodes[p].is_expanded
            &&& exists|i: int|
                0 <= i < access.out(p).len() && #[trigger] access.out(p)[i].target == v && nodes[v].cost == nodes[p].cost
                    + access.out(p)[i].cost
        }
}

/// Every queued entry names a node and its key is at least the node's cost.
pub open spec fn keys_above_costs(nodes: Seq<DijsktraEntry>, q: (int, Seq<Seq<State>>)) -> bool {
    forall|x: State| #[trigger] in_buckets(q.1, x) ==> x.value < nodes.len() && nodes[x.value as int].cost <= x.key
}

/// Every reached node that is not expanded is queued under its cost, which is at least `last`.
pub open spec fn queued_at_cost(nodes: Seq<DijsktraEntry>, q: (int, Seq<Seq<State>>), last: int) -> bool {
    forall|v: int|
        0 <= v < nodes.len() && #[trigger] nodes[v].cost != u32::MAX && !nodes[v].is_expanded ==> in_buckets(
            q.1,
            State { key: nodes[v].cost, value: v as u32 },
        ) && nodes[v].cost >= last
}

/// Every expanded node costs at most `last`.
pub open spec fn expanded_below(nodes: Seq<DijsktraEntry>, last: int) -> bool {
    forall|v: int| 0 <= v < nodes.len() && #[trigger] nodes[v].is_expanded ==> nodes[v].cost <= last
}

/// The edges of every expanded node but `cur` are relaxed, and so are the first `done` edges of
/// `cur`, which is expanded at cost `last` (no node where `cur` is negative).
pub open spec fn edges_relaxed(access: FastEdgeAccess, nodes: Seq<DijsktraEntry>, last: int, cur: int, done: int) -> bool {
    &&& forall|u: int, i: int| #![trigger access.out(u)[i]]
        0 <= u < nodes.len() && u != cur && nodes[u].is_expanded && 0 <= i < access.out(u).len() ==> nodes[access.out(u)[i].target as int].cost
            <= path_cost(nodes[u].cost, access.out(u)[i].cost)
    &&& cur >= 0 ==> 0 <= cur < nodes.len() && nodes[cur].is_expanded && nodes[cur].cost == last
    &&& cur >= 0 ==> forall|i: int|
        0 <= i < done && i < access.out(cur).len() ==> nodes[#[trigger] access.out(cur)[i].target as int].cost <= path_cost(
            nodes[cur].cost,
            access.out(cur)[i].cost,
        )
}

/// What a search with the zero heuristic keeps besides the search invariant, while it works
/// from `last`, the cost of the node expanded last, and relaxes the first `done` edges of `cur`
/// (no node where `cur` is negative): the queue hands out its entries by key; every queued
/// entry's key is at least the cost of its node and every reached node that is not expanded is
/// queued under its cost; expanded nodes cost at most `last`, the others at least `last`; the
/// edges of expanded nodes are relaxed; and predecessors are exact.
pub open spec fn order_inv(
    access: FastEdgeAccess,
    nodes: Seq<DijsktraEntry>,
    q: (int, Seq<Seq<State>>),
    source: u32,
    last: int,
    cur: int,
    done: int,
) -> bool {
    &&& q.1.len() == NUM_BUCKETS
    &&& placed(q)
    &&& windowed(q, last)
    &&& keys_above_costs(nodes, q)
    &&& queued_at_cost(nodes, q, last)
    &&& expanded_below(nodes, last)
    &&& edges_relaxed(access, nodes, last, cur, done)
    &&& exact_preds(access, nodes, source)
}

/// Popping keeps the order: a node popped fresh is popped at its cost, which becomes `last`,
/// and the node becomes the one whose edges are relaxed; popping nothing leaves the order.
#[verifier::rlimit(40)]
pub proof fn lemma_order_pop(
    access: FastEdgeAccess,
    nodes: Seq<DijsktraEntry>,
    q: (int, Seq<Seq<State>>),
    source: u32,
    st: Seq<nat>,
    clock: nat,
    last: int,
)
    requires
        search_inv(access, nodes, q, source, st, clock),
        order_inv(access, nodes, q, source, last, -1, 0),
    ensures
        ({
            let (r, q2) = fresh_pop(q, nodes);
            match r {
                Some(s) => {
                    let nodes2 = nodes.update(s.value as int, DijsktraEntry { is_expanded: true, ..nodes[s.value as int] });
                    &&& s.key == nodes[s.value as int].cost
                    &&& s.key >= last
                    &&& order_inv(access, nodes2, q2, source, s.key as int, s.value as int, 0)
                },
                None => true,
            }
        }),
    decreases crate::routing::queue::total_len(q.1),
{
    let n = q.1.len() as int;
    lemma_bucket_pop(q);
    lemma_pop_smallest(q, last);
    let (p, q1) = bucket_pop(q);
    match p {
        None => {},
        Some(y) => {
            lemma_pop_windowed(q, last);
            assert(y.value < nodes.len());
            if !nodes[y.value as int].is_expanded {
                let v = y.value as int;
                assert(nodes[v].cost <= y.key);
                assert(nodes[v].cost != u32::MAX);
                assert(in_buckets(q.1, State { key: nodes[v].cost, value: y.value }));
                assert(y.key <= nodes[v].cost);
                let nodes2 = nodes.update(v, DijsktraEntry { is_expanded: true, ..nodes[v] });
                assert forall|x: State| #[trigger] in_buckets(q1.1, x) implies x.value < nodes2.len() && nodes2[x.value as int].cost <= x.key by {
                    assert(in_buckets(q.1, x));
                }
                assert forall|w: int|
                    0 <= w < nodes2.len() && #[trigger] nodes2[w].cost != u32::MAX && !nodes2[w].is_expanded implies in_buckets(
                    q1.1,
                    State { key: nodes2[w].cost, value: w as u32 },
                ) && nodes2[w].cost >= y.key by {
                    let x = State { key: nodes[w].cost, value: w as u32 };
                    assert(in_buckets(q.1, x));
                    assert(x != y);
                }
                assert forall|w: int| 0 <= w < nodes2.len() && #[trigger] nodes2[w].is_expanded implies nodes2[w].cost <= y.key by {
                    if w != v {
                        assert(nodes[w].is_expanded);
                    }
                }
                assert forall|u: int, i: int| #![trigger access.out(u)[i]]
                    0 <= u < nodes2.len() && u != v && nodes2[u].is_expanded && 0 <= i < access.out(u).len() implies nodes2[access.out(u)[i].target as int].cost
                        <= path_cost(nodes2[u].cost, access.out(u)[i].cost) by {
                    assert(nodes[u].is_expanded);
                    assert(nodes[access.out(u)[i].target as int].cost <= path_cost(nodes[u].cost, access.out(u)[i].cost));
                }
                assert forall|w: int|
                    0 <= w < nodes2.len() && w != source && #[trigger] nodes2[w].cost != u32::MAX implies {
                        let pr = nodes2[w].predecessor as int;
                        &&& 0 <= pr < nodes2.len()
                        &&& nodes2[pr].is_expanded
                        &&& exists|i: int|
                            0 <= i < access.out(pr).len() && #[trigger] access.out(pr)[i].target == w && nodes2[w].cost == nodes2[pr].cost
                                + access.out(pr)[i].cost
                    } by {
                    assert(nodes[w].cost != u32::MAX);
                    let pr = nodes[w].predecessor as int;
                    let i = choose|i: int|
                        0 <= i < access.out(pr).len() && #[trigger] access.out(pr)[i].target == w && nodes[w].cost == nodes[pr].cost + access.out(pr)[i].cost;
                    assert(access.out(pr)[i].target == w);
                }
            } else {
                assert forall|x: State| #[trigger] in_buckets(q1.1, x) implies x.value < nodes.len() && nodes[x.value as int].cost <= x.key by {
                    assert(in_buckets(q.1, x));
                }
                assert forall|w: int|
                    0 <= w < nodes.len() && #[trigger] nodes[w].cost != u32::MAX && !nodes[w].is_expanded implies in_buckets(
                    q1.1,
                    State { key: nodes[w].cost, value: w as u32 },
                ) && nodes[w].cost >= y.key by {
                    let x = State { key: nodes[w].cost, value: w as u32 };
                    assert(in_buckets(q.1, x));
                    assert(x != y);
                }
                assert forall|w: int| 0 <= w < nodes.len() && #[trigger] nodes[w].is_expanded implies nodes[w].cost <= y.key by {}
                assert(search_inv(access, nodes, q1, source, st, clock)) by {
                    assert forall|x: State| #[trigger] in_buckets(q1.1, x) implies x.value < nodes.len() && nodes[x.value as int].cost != u32::MAX by {
                        assert(in_buckets(q.1, x));
                    }
                    assert forall|w: int|
                        0 <= w < nodes.len() && #[trigger] nodes[w].cost != u32::MAX && !nodes[w].is_expanded implies crate::routing::search::queued(q1, w as u32) by {
                        let x = State { key: nodes[w].cost, value: w as u32 };
                        assert(in_buckets(q1.1, x));
                    }
                }
                lemma_order_pop(access, nodes, q1, source, st, clock, y.key as int);
            }
        },
    }
}

/// Lowering the cost of an unexpanded node `t` to `alt` and queueing it under `alt` keeps the
/// queue in order.
pub proof fn lemma_relax_queue(
    nodes: Seq<DijsktraEntry>,
    q: (int, Seq<Seq<State>>),
    last: int,
    t: u32,
    pred: u32,
    alt: int,
    nodes2: Seq<DijsktraEntry>,
    q2: (int, Seq<Seq<State>>),
)
    requires
        placed(q),
        windowed(q, last),
        keys_above_costs(nodes, q),
        queued_at_cost(nodes, q, last),
        t < nodes.len(),
        !nodes[t as int].is_expanded,
        last <= alt < last + q.1.len(),
        alt < nodes[t as int].cost,
        nodes2 == nodes.update(t as int, DijsktraEntry { predecessor: pred, cost: alt as u32, is_expanded: false }),
        q2 == bucket_push(q, alt, State { key: alt as u32, value: t }),
    ensures
        q2.1.len() == q.1.len(),
        placed(q2),
        windowed(q2, last),
        keys_above_costs(nodes2, q2),
        queued_at_cost(nodes2, q2, last),
{
    let x = State { key: alt as u32, value: t };
    lemma_push_windowed(q, last, x);
    lemma_bucket_push(q, alt, x);
    assert forall|y: State| #[trigger] in_buckets(q2.1, y) implies y.value < nodes2.len() && nodes2[y.value as int].cost <= y.key by {
        if y != x {
            assert(in_buckets(q.1, y));
        }
    }
    assert forall|v: int|
        0 <= v < nodes2.len() && #[trigger] nodes2[v].cost != u32::MAX && !nodes2[v].is_expanded implies in_buckets(
        q2.1,
        State { key: nodes2[v].cost, value: v as u32 },
    ) && nodes2[v].cost >= last by {
        if v != t {
            assert(in_buckets(q.1, State { key: nodes[v].cost, value: v as u32 }));
        }
    }
}

/// Lowering the cost of an unexpanded node over edge `i` of `u`, expanded at cost `last`,
/// keeps expanded nodes and their edges in order, with one edge more of `u` relaxed.
#[verifier::rlimit(40)]
pub proof fn lemma_relax_nodes(
    access: FastEdgeAccess,
    nodes: Seq<DijsktraEntry>,
    source: u32,
    last: int,
    u: u32,
    i: int,
    nodes2: Seq<DijsktraEntry>,
)
    requires
        access.wf(nodes.len()),
        expanded_below(nodes, last),
        edges_relaxed(access, nodes, last, u as int, i),
        exact_preds(access, nodes, source),
        0 <= i < access.out(u as int).len(),
        !nodes[access.out(u as int)[i].target as int].is_expanded,
        access.out(u as int)[i].target != source,
        nodes2 == nodes.update(
            access.out(u as int)[i].target as int,
            DijsktraEntry { predecessor: u, cost: (last + access.out(u as int)[i].cost) as u32, is_expanded: false },
        ),
        last + access.out(u as int)[i].cost < nodes[access.out(u as int)[i].target as int].cost,
    ensures
        expanded_below(nodes2, last),
        edges_relaxed(access, nodes2, last, u as int, i + 1),
        exact_preds(access, nodes2, source),
{
    let e = access.out(u as int)[i];
    let t = e.target as int;
    assert(0 <= u < nodes.len());
    assert(t < nodes.len());
    assert forall|v: int| 0 <= v < nodes2.len() && #[trigger] nodes2[v].is_expanded implies nodes2[v].cost <= last by {
        assert(nodes[v].is_expanded);
    }
    assert forall|w: int, j: int| #![trigger access.out(w)[j]]
        0 <= w < nodes2.len() && w != u && nodes2[w].is_expanded && 0 <= j < access.out(w).len() implies nodes2[access.out(w)[j].target as int].cost
            <= path_cost(nodes2[w].cost, access.out(w)[j].cost) by {
        assert(nodes[w].is_expanded);
        assert(nodes[access.out(w)[j].target as int].cost <= path_cost(nodes[w].cost, access.out(w)[j].cost));
    }
    assert forall|j: int|
        0 <= j < i + 1 && j < access.out(u as int).len() implies nodes2[#[trigger] access.out(u as int)[j].target as int].cost
            <= path_cost(nodes2[u as int].cost, access.out(u as int)[j].cost) by {
        if j < i {
            assert(nodes[access.out(u as int)[j].target as int].cost <= path_cost(nodes[u as int].cost, access.out(u as int)[j].cost));
        }
    }
    assert forall|v: int|
        0 <= v < nodes2.len() && v != source && #[trigger] nodes2[v].cost != u32::MAX implies {
            let pr = nodes2[v].predecessor as int;
            &&& 0 <= pr < nodes2.len()
            &&& nodes2[pr].is_expanded
            &&& exists|k: int|
                0 <= k < access.out(pr).len() && #[trigger] access.out(pr)[k].target == v && nodes2[v].cost == nodes2[pr].cost
                    + access.out(pr)[k].cost
        } by {
        if v == t {
            assert(access.out(u as int)[i].target == v);
        } else {
            assert(nodes[v].cost != u32::MAX);
            let pr = nodes[v].predecessor as int;
            assert(nodes[pr].is_expanded);
            assert(pr != t);
            let k = choose|k: int|
                0 <= k < access.out(pr).len() && #[trigger] access.out(pr)[k].target == v && nodes[v].cost == nodes[pr].cost + access.out(pr)[k].cost;
            assert(access.out(pr)[k].target == v);
        }
    }
}

/// Relaxing edge `i` of `u`, the node being expanded, with the zero heuristic keeps the order,
/// with one edge more relaxed.
#[verifier::rlimit(100)]
pub proof fn lemma_order_relax(
    access: FastEdgeAccess,
    nodes: Seq<DijsktraEntry>,
    q: (int, Seq<Seq<State>>),
    source: u32,
    last: int,
    u: u32,
    i: int,
    nodes2: Seq<DijsktraEntry>,
    q2: (int, Seq<Seq<State>>),
)
    requires
        access.wf(nodes.len()),
        short_edges(access, nodes.len()),
        source < nodes.len(),
        nodes[source as int].cost == 0,
        order_inv(access, nodes, q, source, last, u as int, i),
        0 <= i < access.out(u as int).len(),
        relaxed(nodes, q, u, access.out(u as int)[i], 0, nodes2, q2),
    ensures
        order_inv(access, nodes2, q2, source, last, u as int, i + 1),
        nodes2[source as int].cost == 0,
{
    let e = access.out(u as int)[i];
    let t = e.target as int;
    let alt = path_cost(nodes[u as int].cost, e.cost);
    assert(t < nodes.len());
    if alt < nodes[t].cost {
        assert(alt == last + e.cost);
        assert(e.cost < NUM_BUCKETS);
        assert(key_of(alt, 0) == alt);
        assert(!nodes[t].is_expanded) by {
            if nodes[t].is_expanded {
                assert(nodes[t].cost <= last);
            }
        }
        assert(t != source);
        assert(nodes[u as int].cost == last);
        assert(nodes2 == nodes.update(t, DijsktraEntry { predecessor: u, cost: alt as u32, is_expanded: false }));
        assert(q.1.len() == NUM_BUCKETS);
        assert(q2 == bucket_push(q, alt, State { key: alt as u32, value: e.target }));
        assert(last <= alt < last + q.1.len());
        lemma_relax_queue(nodes, q, last, e.target, u, alt, nodes2, q2);
        lemma_relax_nodes(access, nodes, source, last, u, i, nodes2);
        assert(q2.1.len() == NUM_BUCKETS);
    } else {
        assert forall|j: int|
            0 <= j < i + 1 && j < access.out(u as int).len() implies nodes2[#[trigger] access.out(u as int)[j].target as int].cost
                <= path_cost(nodes2[u as int].cost, access.out(u as int)[j].cost) by {}
    }
}

/// The labels are shortest: no walk from `source` to a node below `n` costs less than the label
/// of its last node.
pub open spec fn no_cheaper_walk(access: FastEdgeAccess, nodes: Seq<DijsktraEntry>, source: u32) -> bool {
    forall|p: Seq<u32>, ix: Seq<int>|
        #[trigger] indexed_walk(access, p, ix) && p[0] == source ==> p.last() < nodes.len() && nodes[p.last() as int].cost
            <= indexed_cost(access, p, ix)
}

/// Where every reached node is expanded and the edges of every expanded node are relaxed, no
/// walk from `source` costs less than the label of its last node.
pub proof fn lemma_no_cheaper_walk(access: FastEdgeAccess, nodes: Seq<DijsktraEntry>, source: u32, last: int)
    requires
        access.wf(nodes.len()),
        source < nodes.len(),
        nodes[source as int].cost == 0,
        forall|v: int| 0 <= v < nodes.len() && #[trigger] nodes[v].cost != u32::MAX ==> nodes[v].is_expanded,
        edges_relaxed(access, nodes, last, -1, 0),
    ensures
        no_cheaper_walk(access, nodes, source),
{
    assert forall|p: Seq<u32>, ix: Seq<int>| #[trigger] indexed_walk(access, p, ix) && p[0] == source implies p.last() < nodes.len()
        && nodes[p.last() as int].cost <= indexed_cost(access, p, ix) by {
        lemma_walk_bound(access, nodes, source, last, p, ix);
    }
}

/// The induction of [`lemma_no_cheaper_walk`] over the length of the walk.
proof fn lemma_walk_bound(access: FastEdgeAccess, nodes: Seq<DijsktraEntry>, source: u32, last: int, p: Seq<u32>, ix: Seq<int>)
    requires
        access.wf(nodes.len()),
        source < nodes.len(),
        nodes[source as int].cost == 0,
        forall|v: int| 0 <= v < nodes.len() && #[trigger] nodes[v].cost != u32::MAX ==> nodes[v].is_expanded,
        edges_relaxed(access, nodes, last, -1, 0),
        indexed_walk(access, p, ix),
        p[0] == source,
    ensures
        p.last() < nodes.len(),
        nodes[p.last() as int].cost <= indexed_cost(access, p, ix),
    decreases ix.len(),
{
    if ix.len() > 0 {
        let p1 = p.drop_last();
        let ix1 = ix.drop_last();
        assert forall|k: int| 0 <= k < ix1.len() implies 0 <= #[trigger] ix1[k] < access.out(p1[k] as int).len() && access.out(p1[k] as int)[ix1[k]].target
            == p1[k + 1] by {
            assert(ix1[k] == ix[k] && p1[k] == p[k] && p1[k + 1] == p[k + 1]);
        }
        assert(indexed_walk(access, p1, ix1));
        lemma_walk_bound(access, nodes, source, last, p1, ix1);
        let u = p1.last();
        let j = ix.len() - 1;
        assert(p[j] == u);
        let e = access.out(u as int)[ix[j]];
        assert(e.target == p.last());
        assert(e.target < nodes.len());
        if nodes[u as int].cost != u32::MAX {
            assert(nodes[u as int].is_expanded);
            assert(nodes[e.target as int].cost <= path_cost(nodes[u as int].cost, e.cost));
        }
    }
}

/// The predecessor chain of a reached node `v` ends at `source`, and its nodes, taking the
/// exact edges, form a walk that costs the label of `v`.
pub proof fn lemma_chain_cost(
    access: FastEdgeAccess,
    nodes: Seq<DijsktraEntry>,
    source: u32,
    st: Seq<nat>,
    clock: nat,
    v: u32,
)
    requires
        preds_inv(access, nodes, source, st, clock),
        exact_preds(access, nodes, source),
        v < nodes.len(),
        nodes[v as int].cost != u32::MAX,
    ensures
        exists|k: nat, ix: Seq<int>|
            #[trigger] chain_ends(nodes, v, k) && #[trigger] indexed_walk(access, chain_route(nodes, v, k), ix) && chain_route(nodes, v, k)[0]
                == source && indexed_cost(access, chain_route(nodes, v, k), ix) == nodes[v as int].cost,
    decreases nodes[v as int].cost, st[v as int],
{
    if v == source {
        assert(chain_ends(nodes, v, 0));
        let r = chain_route(nodes, v, 0);
        assert(r =~= seq![source]);
        let ix = Seq::<int>::empty();
        assert(indexed_walk(access, r, ix));
    } else {
        let p = nodes[v as int].predecessor;
        assert(pred_ok(access, nodes, st, v as int));
        lemma_chain_cost(access, nodes, source, st, clock, p);
        let (k, ixp) = choose|k: nat, ix: Seq<int>|
            #[trigger] chain_ends(nodes, p, k) && #[trigger] indexed_walk(access, chain_route(nodes, p, k), ix) && chain_route(nodes, p, k)[0]
                == source && indexed_cost(access, chain_route(nodes, p, k), ix) == nodes[p as int].cost;
        assert forall|i: nat| i <= k + 1 implies #[trigger] chain(nodes, v, i) < nodes.len() by {
            if i > 0 {
                lemma_chain_shift(nodes, v, (i - 1) as nat);
            }
        }
        assert forall|i: nat| i < k + 1 implies nodes[#[trigger] chain(nodes, v, i) as int].predecessor != u32::MAX by {
            if i > 0 {
                lemma_chain_shift(nodes, v, (i - 1) as nat);
            }
        }
        lemma_chain_shift(nodes, v, k);
        assert(chain_ends(nodes, v, k + 1));
        let r = chain_route(nodes, p, k);
        let rv = chain_route(nodes, v, k + 1);
        assert forall|i: int| 0 <= i < rv.len() implies rv[i] == r.push(v)[i] by {
            if i < k + 1 {
                lemma_chain_shift(nodes, v, (k - i) as nat);
            }
        }
        assert(rv =~= r.push(v));
        let e = choose|i: int|
            0 <= i < access.out(p as int).len() && #[trigger] access.out(p as int)[i].target == v && nodes[v as int].cost == nodes[p as int].cost
                + access.out(p as int)[i].cost;
        let ix = ixp.push(e);
        assert(r.last() == chain(nodes, p, 0));
        assert forall|m: int| 0 <= m < ix.len() implies 0 <= #[trigger] ix[m] < access.out(rv[m] as int).len() && access.out(rv[m] as int)[ix[m]].target
            == rv[m + 1] by {
            if m < ixp.len() {
                assert(ix[m] == ixp[m] && rv[m] == r[m] && rv[m + 1] == r[m + 1]);
            } else {
                assert(rv[m] == r.last());
            }
        }
        assert(indexed_walk(access, rv, ix));
        assert(rv.drop_last() =~= r);
        assert(ix.drop_last() =~= ixp);
        assert(rv[ix.len() - 1] == p);
        assert(rv[0] == r[0]);
    }
}

/// The predecessor chain of `v` ends at `source` after some steps, and its nodes, taking some
/// edges, form a walk that costs the label of `v`.
pub open spec fn chain_costs(access: FastEdgeAccess, nodes: Seq<DijsktraEntry>, source: u32, v: u32) -> bool {
    exists|k: nat, ix: Seq<int>|
        #[trigger] chain_ends(nodes, v, k) && #[trigger] indexed_walk(access, chain_route(nodes, v, k), ix) && chain_route(nodes, v, k)[0]
            == source && indexed_cost(access, chain_route(nodes, v, k), ix) == nodes[v as int].cost
}

/// The labels are those of shortest routes: no walk from `source` costs less than the label of
/// its last node, and the predecessor chain of every reached node is a walk that costs its label.
pub open spec fn shortest_labels(access: FastEdgeAccess, nodes: Seq<DijsktraEntry>, source: u32) -> bool {
    &&& no_cheaper_walk(access, nodes, source)
    &&& forall|v: u32| v < nodes.len() && nodes[v as int].cost != u32::MAX ==> #[trigger] chain_costs(access, nodes, source, v)
}

/// Where the labels are complete in the order, they are those of shortest routes.
pub proof fn lemma_shortest_labels(
    access: FastEdgeAccess,
    nodes: Seq<DijsktraEntry>,
    source: u32,
    st: Seq<nat>,
    clock: nat,
    last: int,
)
    requires
        access.wf(nodes.len()),
        preds_inv(access, nodes, source, st, clock),
        exact_preds(access, nodes, source),
        forall|v: int| 0 <= v < nodes.len() && #[trigger] nodes[v].cost != u32::MAX ==> nodes[v].is_expanded,
        edges_relaxed(access, nodes, last, -1, 0),
    ensures
        shortest_labels(access, nodes, source),
{
    lemma_no_cheaper_walk(access, nodes, source, last);
    assert forall|v: u32| v < nodes.len() && nodes[v as int].cost != u32::MAX implies #[trigger] chain_costs(access, nodes, source, v) by {
        lemma_chain_cost(access, nodes, source, st, clock, v);
    }
}

/// Once all edges of `cur` are relaxed, the edges of every expanded node are.
pub proof fn lemma_relaxed_all(access: FastEdgeAccess, nodes: Seq<DijsktraEntry>, last: int, cur: int)
    requires
        edges_relaxed(access, nodes, last, cur, access.out(cur).len() as int),
    ensures
        edges_relaxed(access, nodes, last, -1, 0),
{
    assert forall|u: int, i: int| #![trigger access.out(u)[i]]
        0 <= u < nodes.len() && nodes[u].is_expanded && 0 <= i < access.out(u).len() implies nodes[access.out(u)[i].target as int].cost
            <= path_cost(nodes[u].cost, access.out(u)[i].cost) by {
        if u == cur {
            assert(nodes[access.out(cur)[i].target as int].cost <= path_cost(nodes[cur].cost, access.out(cur)[i].cost));
        }
    }
}

/// A walk followed by a walk that starts where the first ends is a walk, and costs the sum of
/// their costs.
pub proof fn lemma_walk_concat(access: FastEdgeAccess, p: Seq<u32>, ix: Seq<int>, q: Seq<u32>, jx: Seq<int>)
    requires
        indexed_walk(access, p, ix),
        indexed_walk(access, q, jx),
        p.last() == q[0],
    ensures
        indexed_walk(access, p + q.drop_first(), ix + jx),
        (p + q.drop_first())[0] == p[0],
        (p + q.drop_first()).last() == q.last(),
        indexed_cost(access, p + q.drop_first(), ix + jx) == indexed_cost(access, p, ix) + indexed_cost(access, q, jx),
    decreases jx.len(),
{
    let r = p + q.drop_first();
    let rx = ix + jx;
    if jx.len() == 0 {
        assert(r =~= p);
        assert(rx =~= ix);
    } else {
        let q1 = q.drop_last();
        let jx1 = jx.drop_last();
        assert forall|k: int| 0 <= k < jx1.len() implies 0 <= #[trigger] jx1[k] < access.out(q1[k] as int).len() && access.out(q1[k] as int)[jx1[k]].target
            == q1[k + 1] by {
            assert(jx1[k] == jx[k] && q1[k] == q[k] && q1[k + 1] == q[k + 1]);
        }
        assert(indexed_walk(access, q1, jx1));
        lemma_walk_concat(access, p, ix, q1, jx1);
        let r1 = p + q1.drop_first();
        let rx1 = ix + jx1;
        assert(r =~= r1.push(q.last()));
        assert(rx =~= rx1.push(jx.last()));
        assert(r.drop_last() =~= r1);
        assert(rx.drop_last() =~= rx1);
        let m = rx.len() - 1;
        assert(r[m] == q[jx.len() - 1]) by {
            if jx.len() == 1 {
                assert(r1.last() == p.last());
            } else {
                assert(r[m] == q1.drop_first()[jx.len() - 2]);
            }
        }
        assert forall|k: int| 0 <= k < rx.len() implies 0 <= #[trigger] rx[k] < access.out(r[k] as int).len() && access.out(r[k] as int)[rx[k]].target
            == r[k + 1] by {
            if k < rx1.len() {
                assert(rx[k] == rx1[k] && r[k] == r1[k] && r[k + 1] == r1[k + 1]);
            } else {
                assert(k == m);
                assert(rx[k] == jx[jx.len() - 1]);
                assert(r[k + 1] == q.last());
            }
        }
        assert(q.drop_last() == q1);
    }
}

/// Shortest labels from `source` obey the triangle inequality: for every walk `p` between nodes
/// below the number of labels, the label in `to` of its last node is at most the label in `from`
/// of its first node plus its cost, where the first node is reached, for any two lists of
/// shortest labels from `source`.
pub proof fn lemma_labels_triangle(
    access: FastEdgeAccess,
    from: Seq<DijsktraEntry>,
    to: Seq<DijsktraEntry>,
    source: u32,
    p: Seq<u32>,
    ix: Seq<int>,
)
    requires
        shortest_labels(access, from, source),
        shortest_labels(access, to, source),
        indexed_walk(access, p, ix),
        p[0] < from.len(),
        p.last() < to.len(),
    ensures
        indexed_cost(access, p, ix) >= 0,
        from[p[0] as int].cost != u32::MAX ==> to[p.last() as int].cost <= from[p[0] as int].cost + indexed_cost(access, p, ix),
{
    lemma_indexed_cost_nonneg(access, p, ix);
    let s = p[0];
    if from[s as int].cost != u32::MAX {
        assert(chain_costs(access, from, source, s));
        let (k, jx) = choose|k: nat, jx: Seq<int>|
            #[trigger] chain_ends(from, s, k) && #[trigger] indexed_walk(access, chain_route(from, s, k), jx) && chain_route(from, s, k)[0]
                == source && indexed_cost(access, chain_route(from, s, k), jx) == from[s as int].cost;
        let q = chain_route(from, s, k);
        assert(q.last() == s);
        lemma_walk_concat(access, q, jx, p, ix);
        let w = q + p.drop_first();
        assert(indexed_walk(access, w, jx + ix) && w[0] == source);
    }
}

/// The cost of a walk is not negative.
pub proof fn lemma_indexed_cost_nonneg(access: FastEdgeAccess, p: Seq<u32>, ix: Seq<int>)
    ensures
        indexed_cost(access, p, ix) >= 0,
    decreases ix.len(),
{
    if ix.len() > 0 {
        lemma_indexed_cost_nonneg(access, p.drop_last(), ix.drop_last());
    }
}

/// A walk splits at its `i`-th node into a walk up to that node and a walk from it, whose costs
/// add up to its cost; the prefix one edge longer costs the edge taken from the `i`-th node more.
pub proof fn lemma_walk_split(access: FastEdgeAccess, p: Seq<u32>, ix: Seq<int>, i: int)
    requires
        indexed_walk(access, p, ix),
        0 <= i <= ix.len(),
    ensures
        indexed_walk(access, p.take(i + 1), ix.take(i)),
        indexed_walk(access, p.skip(i), ix.skip(i)),
        p.take(i + 1)[0] == p[0],
        p.take(i + 1).last() == p[i],
        p.skip(i)[0] == p[i],
        p.skip(i).last() == p.last(),
        indexed_cost(access, p, ix) == indexed_cost(access, p.take(i + 1), ix.take(i)) + indexed_cost(access, p.skip(i), ix.skip(i)),
        i < ix.len() ==> indexed_cost(access, p.take(i + 2), ix.take(i + 1)) == indexed_cost(access, p.take(i + 1), ix.take(i))
            + access.out(p[i] as int)[ix[i]].cost,
        i < ix.len() ==> access.out(p[i] as int)[ix[i]].target == p[i + 1],
{
    let a = p.take(i + 1);
    let ax = ix.take(i);
    let b = p.skip(i);
    let bx = ix.skip(i);
    assert forall|k: int| 0 <= k < ax.len() implies 0 <= #[trigger] ax[k] < access.out(a[k] as int).len() && access.out(a[k] as int)[ax[k]].target
        == a[k + 1] by {
        assert(ax[k] == ix[k] && a[k] == p[k] && a[k + 1] == p[k + 1]);
    }
    assert forall|k: int| 0 <= k < bx.len() implies 0 <= #[trigger] bx[k] < access.out(b[k] as int).len() && access.out(b[k] as int)[bx[k]].target
        == b[k + 1] by {
        assert(bx[k] == ix[i + k] && b[k] == p[i + k] && b[k + 1] == p[i + k + 1]);
    }
    assert(indexed_walk(access, a, ax));
    assert(indexed_walk(access, b, bx));
    lemma_walk_concat(access, a, ax, b, bx);
    assert(a + b.drop_first() =~= p);
    assert(ax + bx =~= ix);
    if i < ix.len() {
        let a2 = p.take(i + 2);
        let ax2 = ix.take(i + 1);
        assert(a2.drop_last() =~= a);
        assert(ax2.drop_last() =~= ax);
        assert(a2[ax2.len() - 1] == p[i]);
    }
}

/// Every node of a walk that starts below `n` lies below `n`, where edges lead to nodes below it.
pub proof fn lemma_walk_nodes(access: FastEdgeAccess, n: nat, p: Seq<u32>, ix: Seq<int>)
    requires
        access.wf(n),
        indexed_walk(access, p, ix),
        p[0] < n,
    ensures
        forall|k: int| 0 <= k < p.len() ==> #[trigger] p[k] < n,
    decreases ix.len(),
{
    if ix.len() > 0 {
        let p1 = p.drop_last();
        let ix1 = ix.drop_last();
        assert forall|k: int| 0 <= k < ix1.len() implies 0 <= #[trigger] ix1[k] < access.out(p1[k] as int).len() && access.out(p1[k] as int)[ix1[k]].target
            == p1[k + 1] by {
            assert(ix1[k] == ix[k] && p1[k] == p[k] && p1[k + 1] == p[k + 1]);
        }
        lemma_walk_nodes(access, n, p1, ix1);
        assert forall|k: int| 0 <= k < p.len() implies #[trigger] p[k] < n by {
            if k < p1.len() {
                assert(p[k] == p1[k]);
            } else {
                let j = ix.len() - 1;
                assert(p1[j] == p[j]);
                assert(access.out(p[j] as int)[ix[j]].target == p[j + 1]);
            }
        }
    }
}

/// Every edge leaving a node below `n` has an edge back of the same cost.
pub open spec fn two_way_edges(access: FastEdgeAccess, n: nat) -> bool {
    forall|v: int, i: int| 0 <= v < n && 0 <= i < access.out(v).len() ==> #[trigger] edge_back(access, v, i)
}

/// Edge `i` of `v` has an edge back of the same cost.
pub open spec fn edge_back(access: FastEdgeAccess, v: int, i: int) -> bool {
    let e = access.out(v)[i];
    exists|j: int| 0 <= j < access.out(e.target as int).len() && access.out(e.target as int)[j] == (FastEdge { target: v as u32, cost: e.cost })
}

/// Where every edge has an edge back of the same cost, a walk travelled backwards is a walk of
/// the same cost.
pub proof fn lemma_two_way_reversed(access: FastEdgeAccess, n: nat, p: Seq<u32>, ix: Seq<int>)
    requires
        access.wf(n),
        two_way_edges(access, n),
        indexed_walk(access, p, ix),
        p[0] < n,
    ensures
        exists|jx: Seq<int>| #[trigger] indexed_walk(access, p.reverse(), jx) && indexed_cost(access, p.reverse(), jx) == indexed_cost(access, p, ix),
    decreases ix.len(),
{
    lemma_walk_nodes(access, n, p, ix);
    if ix.len() == 0 {
        assert(p.reverse() =~= p);
        assert(indexed_walk(access, p.reverse(), ix));
    } else {
        let q = p.drop_first();
        let qx = ix.drop_first();
        assert forall|k: int| 0 <= k < qx.len() implies 0 <= #[trigger] qx[k] < access.out(q[k] as int).len() && access.out(q[k] as int)[qx[k]].target
            == q[k + 1] by {
            assert(qx[k] == ix[k + 1] && q[k] == p[k + 1] && q[k + 1] == p[k + 2]);
        }
        assert(indexed_walk(access, q, qx));
        assert(q[0] == p[1]);
        assert(p[1] < n);
        lemma_two_way_reversed(access, n, q, qx);
        let jx = choose|jx: Seq<int>| #[trigger] indexed_walk(access, q.reverse(), jx) && indexed_cost(access, q.reverse(), jx) == indexed_cost(access, q, qx);
        let fe = access.out(p[0] as int)[ix[0]];
        assert(p[0] < n);
        assert(fe.target == p[1]);
        assert(edge_back(access, p[0] as int, ix[0]));
        let j = choose|j: int| 0 <= j < access.out(fe.target as int).len() && access.out(fe.target as int)[j] == (FastEdge { target: p[0], cost: fe.cost });
        let r = q.reverse();
        let one = seq![p[1], p[0]];
        let ox = seq![j];
        assert(indexed_walk(access, one, ox));
        assert(r.last() == p[1]);
        lemma_walk_concat(access, r, jx, one, ox);
        assert(r + one.drop_first() =~= p.reverse());
        assert(indexed_cost(access, one, ox) == fe.cost) by {
            assert(one.drop_last() =~= seq![p[1]]);
            assert(indexed_cost(access, one.drop_last(), ox.drop_last()) == 0);
            assert(one[ox.len() - 1] == p[1]);
        }
        lemma_walk_split(access, p, ix, 1);
        assert(p.skip(1) =~= q);
        assert(ix.skip(1) =~= qx);
        assert(indexed_cost(access, p.take(2), ix.take(1)) == fe.cost) by {
            lemma_walk_split(access, p, ix, 0);
            assert(ix.take(0).len() == 0);
        }
        assert(indexed_walk(access, p.reverse(), jx + ox));
    }
}

} // verus!

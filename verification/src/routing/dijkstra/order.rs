//! Why the search with a cyclic queue of one bucket more than the largest edge cost finds
//! shortest routes: beside the queue of node ids stands, in ghost code, the same queue with the
//! key of every entry, and its entries come out in the order of their keys.
use vstd::prelude::*;

use crate::routing::dijkstra_data::{chain_ends, chain_route, lemma_chain_ends_unique, path_cost, DijsktraEntry};
use crate::routing::fast_graph::{FastEdge, FastEdgeAccess};
use crate::routing::queue::{bucket_pop, bucket_push, in_buckets, lemma_bucket_pop, lemma_bucket_push, scan_buckets, State};
use crate::routing::search::preds_inv;
use crate::routing::shortest::{
    lemma_chain_cost, edges_relaxed, exact_preds, expanded_below, keys_above_costs, lemma_pop_smallest, lemma_pop_windowed, lemma_relax_nodes,
    lemma_relax_queue, placed, queued_at_cost, windowed,
};
use crate::routing::simple_algorithms::ch_bi_dijkstra::{indexed_cost, indexed_walk};
use crate::routing::simple_algorithms::dijkstra::shortest_answer;

use super::max_cost;

verus! {

/// `keyed` is `q` with a key beside every entry: the same current bucket, and the same entries
/// in the same places.
pub open spec fn mirrors(keyed: (int, Seq<Seq<State>>), q: (int, Seq<Seq<u32>>)) -> bool {
    &&& keyed.0 == q.0
    &&& keyed.1.len() == q.1.len()
    &&& forall|j: int| 0 <= j < q.1.len() ==> (#[trigger] keyed.1[j]).len() == q.1[j].len()
    &&& forall|j: int, k: int| 0 <= j < q.1.len() && 0 <= k < q.1[j].len() ==> (#[trigger] keyed.1[j][k]).value == q.1[j][k]
}

/// The cyclic scan looks at the lengths of the buckets only.
proof fn lemma_mirror_scan(keyed: Seq<Seq<State>>, q: Seq<Seq<u32>>, current: int, offset: nat)
    requires
        current >= 0,
        keyed.len() == q.len(),
        forall|j: int| 0 <= j < q.len() ==> (#[trigger] keyed[j]).len() == q[j].len(),
    ensures
        scan_buckets(keyed, current, offset) == scan_buckets(q, current, offset),
    decreases q.len() - offset,
{
    if offset < q.len() {
        let j = (current + offset) % (q.len() as int);
        vstd::arithmetic::div_mod::lemma_mod_pos_bound(current + offset, q.len() as int);
        assert(keyed[j].len() == q[j].len());
        lemma_mirror_scan(keyed, q, current, offset + 1);
    }
}

/// Popping both queues pops the same entry, and the keyed one keeps mirroring the other.
pub proof fn lemma_mirror_pop(keyed: (int, Seq<Seq<State>>), q: (int, Seq<Seq<u32>>))
    requires
        mirrors(keyed, q),
        q.1.len() > 0,
        0 <= q.0 < q.1.len(),
    ensures
        bucket_pop(q).0 == (match bucket_pop(keyed).0 {
            Some(y) => Some(y.value),
            None => None,
        }),
        mirrors(bucket_pop(keyed).1, bucket_pop(q).1),
{
    lemma_mirror_scan(keyed.1, q.1, q.0, 0);
    lemma_bucket_pop(q);
    match scan_buckets(q.1, q.0, 0) {
        None => {},
        Some(j) => {
            crate::routing::queue::lemma_scan_some(q.1, q.0, 0);
            assert(keyed.1[j].len() == q.1[j].len());
            assert(keyed.1[j][keyed.1[j].len() - 1].value == q.1[j][q.1[j].len() - 1]);
            let (k2, q2) = (bucket_pop(keyed).1, bucket_pop(q).1);
            assert forall|jj: int, k: int| 0 <= jj < q2.1.len() && 0 <= k < q2.1[jj].len() implies (#[trigger] k2.1[jj][k]).value
                == q2.1[jj][k] by {
                assert(keyed.1[jj][k].value == q.1[jj][k]);
            }
            assert forall|jj: int| 0 <= jj < q2.1.len() implies (#[trigger] k2.1[jj]).len() == q2.1[jj].len() by {
                assert(keyed.1[jj].len() == q.1[jj].len());
            }
        },
    }
}

/// Pushing an entry with its key, and its node id alone, keeps the mirror.
pub proof fn lemma_mirror_push(keyed: (int, Seq<Seq<State>>), q: (int, Seq<Seq<u32>>), key: int, x: State)
    requires
        mirrors(keyed, q),
        q.1.len() > 0,
        key >= 0,
    ensures
        mirrors(bucket_push(keyed, key, x), bucket_push(q, key, x.value)),
{
    let n = q.1.len() as int;
    let j0 = key % n;
    vstd::arithmetic::div_mod::lemma_mod_pos_bound(key, n);
    let k2 = bucket_push(keyed, key, x);
    let q2 = bucket_push(q, key, x.value);
    assert forall|j: int| 0 <= j < q2.1.len() implies (#[trigger] k2.1[j]).len() == q2.1[j].len() by {
        assert(keyed.1[j].len() == q.1[j].len());
    }
    assert forall|j: int, k: int| 0 <= j < q2.1.len() && 0 <= k < q2.1[j].len() implies (#[trigger] k2.1[j][k]).value == q2.1[j][k] by {
        if j != j0 || k < q.1[j].len() {
            assert(keyed.1[j][k].value == q.1[j][k]);
        }
    }
}

/// Every edge leaving a node below `n` costs at most `bound`.
pub open spec fn costs_within(access: FastEdgeAccess, n: nat, bound: int) -> bool {
    forall|v: int, i: int| #![trigger access.out(v)[i]] 0 <= v < n && 0 <= i < access.out(v).len() ==> access.out(v)[i].cost <= bound
}

/// No edge costs more than the largest cost of all edges.
pub proof fn lemma_max_cost(edges: Seq<FastEdge>, k: int)
    requires
        0 <= k < edges.len(),
    ensures
        edges[k].cost <= max_cost(edges),
    decreases edges.len(),
{
    if k < edges.len() - 1 {
        lemma_max_cost(edges.drop_last(), k);
    }
}

/// No edge leaving a node costs more than the largest cost of all edges.
pub proof fn lemma_costs_within_max(access: FastEdgeAccess, n: nat)
    requires
        access.wf(n),
    ensures
        costs_within(access, n, max_cost(access.edges@) as int),
{
    assert forall|v: int, i: int| #![trigger access.out(v)[i]] 0 <= v < n && 0 <= i < access.out(v).len() implies access.out(v)[i].cost
        <= max_cost(access.edges@) by {
        let k = access.edges_start_at@[v] + i;
        assert(access.out(v)[i] == access.edges@[k]);
        lemma_max_cost(access.edges@, k);
    }
}

/// What the search keeps of the order in which it works, from `last`, the key popped last, while
/// it relaxes the first `done` edges of `cur` (no node where `cur` is negative, as when the
/// popped node had been expanded before): the keyed queue hands out its entries by key; every
/// entry's key is below `u32::MAX` and at least the cost of its node, and every reached node that is not expanded is
/// queued under its cost; expanded nodes cost at most `last`; the edges of expanded nodes are
/// relaxed; and predecessors are exact.
pub open spec fn dial_order(
    access: FastEdgeAccess,
    nodes: Seq<DijsktraEntry>,
    keyed: (int, Seq<Seq<State>>),
    source: u32,
    last: int,
    cur: int,
    done: int,
) -> bool {
    &&& placed(keyed)
    &&& windowed(keyed, last)
    &&& last <= u32::MAX
    &&& forall|x: State| #[trigger] in_buckets(keyed.1, x) ==> x.key < u32::MAX
    &&& keys_above_costs(nodes, keyed)
    &&& queued_at_cost(nodes, keyed, last)
    &&& expanded_below(nodes, last)
    &&& edges_relaxed(access, nodes, last, cur, done)
    &&& exact_preds(access, nodes, source)
}

/// Popping gives an entry with a key of at least `last`. A node popped for the first time is
/// popped at its cost, which becomes `last`, and becomes the node whose edges are relaxed; a
/// node expanded before leaves the labels as they are, and its key becomes `last`.
#[verifier::rlimit(40)]
pub proof fn lemma_dial_order_pop(
    access: FastEdgeAccess,
    nodes: Seq<DijsktraEntry>,
    keyed: (int, Seq<Seq<State>>),
    source: u32,
    last: int,
)
    requires
        access.wf(nodes.len()),
        dial_order(access, nodes, keyed, source, last, -1, 0),
        bucket_pop(keyed).0 is Some,
    ensures
        ({
            let (r, keyed2) = bucket_pop(keyed);
            let y = r->0;
            let v = y.value as int;
            &&& last <= y.key
            &&& v < nodes.len()
            &&& !nodes[v].is_expanded ==> y.key == nodes[v].cost && dial_order(
                access,
                nodes.update(v, DijsktraEntry { is_expanded: true, ..nodes[v] }),
                keyed2,
                source,
                y.key as int,
                v,
                0,
            )
            &&& nodes[v].is_expanded ==> dial_order(access, nodes, keyed2, source, y.key as int, -1, 0)
        }),
{
    lemma_bucket_pop(keyed);
    lemma_pop_smallest(keyed, last);
    lemma_pop_windowed(keyed, last);
    let (p, q1) = bucket_pop(keyed);
    let y = p->0;
    let v = y.value as int;
    assert(y.value < nodes.len());
    assert forall|w: int|
        0 <= w < nodes.len() && #[trigger] nodes[w].cost != u32::MAX && !nodes[w].is_expanded && w != v implies in_buckets(
        q1.1,
        State { key: nodes[w].cost, value: w as u32 },
    ) && nodes[w].cost >= y.key by {
        let x = State { key: nodes[w].cost, value: w as u32 };
        assert(in_buckets(keyed.1, x));
        assert(x != y);
    }
    if !nodes[v].is_expanded {
        assert(nodes[v].cost <= y.key);
        assert(nodes[v].cost != u32::MAX);
        assert(in_buckets(keyed.1, State { key: nodes[v].cost, value: y.value }));
        assert(y.key <= nodes[v].cost);
        let nodes2 = nodes.update(v, DijsktraEntry { is_expanded: true, ..nodes[v] });
        assert forall|x: State| #[trigger] in_buckets(q1.1, x) implies x.value < nodes2.len() && nodes2[x.value as int].cost <= x.key
            && x.key < u32::MAX by {
            assert(in_buckets(keyed.1, x));
        }
        assert forall|w: int|
            0 <= w < nodes2.len() && #[trigger] nodes2[w].cost != u32::MAX && !nodes2[w].is_expanded implies in_buckets(
            q1.1,
            State { key: nodes2[w].cost, value: w as u32 },
        ) && nodes2[w].cost >= y.key by {
            assert(nodes2[w] == nodes[w]);
        }
        assert forall|w: int| 0 <= w < nodes2.len() && #[trigger] nodes2[w].is_expanded implies nodes2[w].cost <= y.key by {
            if w != v {
                assert(nodes[w].is_expanded);
            }
        }
        assert forall|u: int, i: int| #![trigger access.out(u)[i]]
            0 <= u < nodes2.len() && u != v && nodes2[u].is_expanded && 0 <= i < access.out(u).len() implies nodes2[access.out(u)[i].target as int].cost
                <= path_cost(nodes2[u].cost, access.out(u)[i].cost) by {
            assert(nodes[u].is_expanded);
            assert(nodes[access.out(u)[i].target as int].cost <= path_cost(nodes[u].cost, access.out(u)[i].cost));
        }
        assert forall|w: int|
            0 <= w < nodes2.len() && w != source && #[trigger] nodes2[w].cost != u32::MAX implies {
                let pr = nodes2[w].predecessor as int;
                &&& 0 <= pr < nodes2.len()
                &&& nodes2[pr].is_expanded
                &&& exists|i: int|
                    0 <= i < access.out(pr).len() && #[trigger] access.out(pr)[i].target == w && nodes2[w].cost == nodes2[pr].cost
                        + access.out(pr)[i].cost
            } by {
            assert(nodes[w].cost != u32::MAX);
            let pr = nodes[w].predecessor as int;
            let i = choose|i: int|
                0 <= i < access.out(pr).len() && #[trigger] access.out(pr)[i].target == w && nodes[w].cost == nodes[pr].cost + access.out(pr)[i].cost;
            assert(access.out(pr)[i].target == w);
        }
    } else {
        assert forall|x: State| #[trigger] in_buckets(q1.1, x) implies x.value < nodes.len() && nodes[x.value as int].cost <= x.key
            && x.key < u32::MAX by {
            assert(in_buckets(keyed.1, x));
        }
        assert forall|w: int| 0 <= w < nodes.len() && #[trigger] nodes[w].is_expanded implies nodes[w].cost <= y.key by {}
    }
}

/// Relaxing edge `i` of the expanded node `u` keeps the order, with one edge more relaxed where
/// `u` is the node popped at `last`; where it is not (`cur` negative), the edge was relaxed
/// before and nothing changes.
#[verifier::rlimit(40)]
pub proof fn lemma_dial_order_relax(
    access: FastEdgeAccess,
    nodes: Seq<DijsktraEntry>,
    keyed: (int, Seq<Seq<State>>),
    source: u32,
    last: int,
    cur: int,
    u: u32,
    i: int,
    nodes2: Seq<DijsktraEntry>,
    keyed2: (int, Seq<Seq<State>>),
)
    requires
        access.wf(nodes.len()),
        costs_within(access, nodes.len(), keyed.1.len() - 1),
        source < nodes.len(),
        nodes[source as int].cost == 0,
        dial_order(access, nodes, keyed, source, last, cur, i),
        cur == u || cur == -1,
        u < nodes.len(),
        nodes[u as int].is_expanded,
        0 <= i < access.out(u as int).len(),
        ({
            let e = access.out(u as int)[i];
            let t = e.target as int;
            let alt = path_cost(nodes[u as int].cost, e.cost);
            if alt < nodes[t].cost {
                &&& nodes2 == nodes.update(t, DijsktraEntry { predecessor: u, cost: alt as u32, is_expanded: nodes[t].is_expanded })
                &&& keyed2 == bucket_push(keyed, alt, State { key: alt as u32, value: e.target })
            } else {
                nodes2 == nodes && keyed2 == keyed
            }
        }),
    ensures
        dial_order(access, nodes2, keyed2, source, last, cur, i + 1),
        nodes2[source as int].cost == 0,
        cur == -1 ==> nodes2 == nodes && keyed2 == keyed,
{
    let e = access.out(u as int)[i];
    let t = e.target as int;
    let alt = path_cost(nodes[u as int].cost, e.cost);
    assert(t < nodes.len());
    assert(e.cost <= keyed.1.len() - 1);
    if cur == -1 {
        assert(nodes[t].cost <= path_cost(nodes[u as int].cost, e.cost));
    } else if alt < nodes[t].cost {
        assert(nodes[u as int].cost == last);
        assert(alt == last + e.cost);
        assert(!nodes[t].is_expanded) by {
            if nodes[t].is_expanded {
                assert(nodes[t].cost <= last);
            }
        }
        assert(t != source);
        assert(nodes2 == nodes.update(t, DijsktraEntry { predecessor: u, cost: alt as u32, is_expanded: false }));
        lemma_relax_queue(nodes, keyed, last, e.target, u, alt, nodes2, keyed2);
        lemma_relax_nodes(access, nodes, source, last, u, i, nodes2);
        lemma_bucket_push(keyed, alt, State { key: alt as u32, value: e.target });
        assert forall|x: State| #[trigger] in_buckets(keyed2.1, x) implies x.key < u32::MAX by {
            if x != (State { key: alt as u32, value: e.target }) {
                assert(in_buckets(keyed.1, x));
            }
        }
    } else {
        assert forall|j: int|
            0 <= j < i + 1 && j < access.out(u as int).len() implies nodes2[#[trigger] access.out(u as int)[j].target as int].cost
                <= path_cost(nodes2[u as int].cost, access.out(u as int)[j].cost) by {}
    }
}

/// No walk from `source` to `target` costs less than the label of `target`.
pub open spec fn no_cheaper_walk_to(access: FastEdgeAccess, nodes: Seq<DijsktraEntry>, source: u32, target: u32) -> bool {
    forall|p: Seq<u32>, ix: Seq<int>|
        #[trigger] indexed_walk(access, p, ix) && p[0] == source && p.last() == target ==> nodes[target as int].cost <= indexed_cost(
            access,
            p,
            ix,
        )
}

/// While the search works from `last`, every walk from `source` costs at least `last` or the
/// label of its last node.
pub proof fn lemma_walk_bound_from(
    access: FastEdgeAccess,
    nodes: Seq<DijsktraEntry>,
    source: u32,
    last: int,
    cur: int,
    p: Seq<u32>,
    ix: Seq<int>,
)
    requires
        access.wf(nodes.len()),
        source < nodes.len(),
        nodes[source as int].cost == 0,
        0 <= last <= u32::MAX,
        expanded_below(nodes, last),
        edges_relaxed(access, nodes, last, cur, 0),
        forall|v: int| 0 <= v < nodes.len() && #[trigger] nodes[v].cost != u32::MAX && !nodes[v].is_expanded ==> nodes[v].cost >= last,
        indexed_walk(access, p, ix),
        p[0] == source,
    ensures
        p.last() < nodes.len(),
        (if nodes[p.last() as int].cost < last { nodes[p.last() as int].cost as int } else { last }) <= indexed_cost(access, p, ix),
    decreases ix.len(),
{
    if ix.len() > 0 {
        let p1 = p.drop_last();
        let ix1 = ix.drop_last();
        assert forall|k: int| 0 <= k < ix1.len() implies 0 <= #[trigger] ix1[k] < access.out(p1[k] as int).len() && access.out(p1[k] as int)[ix1[k]].target
            == p1[k + 1] by {
            assert(ix1[k] == ix[k] && p1[k] == p[k] && p1[k + 1] == p[k + 1]);
        }
        assert(indexed_walk(access, p1, ix1));
        lemma_walk_bound_from(access, nodes, source, last, cur, p1, ix1);
        let u = p1.last();
        let j = ix.len() - 1;
        assert(p[j] == u);
        let e = access.out(u as int)[ix[j]];
        assert(e.target == p.last());
        assert(e.target < nodes.len());
        assert(indexed_cost(access, p, ix) == indexed_cost(access, p1, ix1) + e.cost);
        if nodes[u as int].is_expanded && u != cur {
            assert(nodes[e.target as int].cost <= path_cost(nodes[u as int].cost, e.cost));
        }
    }
}

/// The route along the predecessors of `target`, with its cost, is a shortest answer where the
/// predecessors are exact and no walk to `target` is cheaper than its label.
pub proof fn lemma_dial_answer(
    access: FastEdgeAccess,
    nodes: Seq<DijsktraEntry>,
    source: u32,
    target: u32,
    st: Seq<nat>,
    clock: nat,
    route: Option<crate::routing::route::Route>,
)
    requires
        preds_inv(access, nodes, source, st, clock),
        exact_preds(access, nodes, source),
        no_cheaper_walk_to(access, nodes, source, target),
        target < nodes.len(),
        nodes[target as int].cost == u32::MAX ==> route is None,
        nodes[target as int].cost != u32::MAX ==> (route matches Some(r) && r.cost == nodes[target as int].cost && r.nodes@ == chain_route(
            nodes,
            target,
            choose|k: nat| chain_ends(nodes, target, k),
        )),
    ensures
        shortest_answer(access, source, target, route),
{
    if nodes[target as int].cost != u32::MAX {
        let r = route->0;
        lemma_chain_cost(access, nodes, source, st, clock, target);
        let (k0, ix) = choose|k: nat, ix: Seq<int>|
            #[trigger] chain_ends(nodes, target, k) && #[trigger] indexed_walk(access, chain_route(nodes, target, k), ix) && chain_route(
                nodes,
                target,
                k,
            )[0] == source && indexed_cost(access, chain_route(nodes, target, k), ix) == nodes[target as int].cost;
        let k = choose|k: nat| chain_ends(nodes, target, k);
        lemma_chain_ends_unique(nodes, target, k0, k);
        assert(indexed_walk(access, r.nodes@, ix));
    }
    assert forall|p: Seq<u32>, ix: Seq<int>|
        #[trigger] indexed_walk(access, p, ix) && p[0] == source && p.last() == target implies indexed_cost(access, p, ix) >= match route {
            Some(r) => r.cost as int,
            None => u32::MAX as int,
        } by {
        assert(nodes[target as int].cost <= indexed_cost(access, p, ix));
    }
}

} // verus!

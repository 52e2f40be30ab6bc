//! Why the searches of the bidirectional query over a contracted graph find cheapest costs: a
//! queue popped at its smallest key expands nodes in the order of their costs.
use vstd::prelude::*;

use crate::routing::ch::bounded_search::is_first_min;
use crate::routing::fast_graph::FastEdgeAccess;

use super::ch_bi_dijkstra::{indexed_cost, indexed_walk};

verus! {

/// What a search keeps of the order in which it works, from `last`, the key popped last, while
/// it relaxes the first `done` edges of `cur` (no node where `cur` is negative): every queued
/// entry has a key of at least `last` and at least the cost of its node; every reached node
/// that is not expanded is queued under its cost; expanded nodes cost at most `last`; and every
/// edge of an expanded node that leads below `u32::MAX` is relaxed.
pub open spec fn side_order(
    access: FastEdgeAccess,
    costs: Map<u32, u32>,
    open: Seq<(u32, u32)>,
    expanded: Set<u32>,
    last: int,
    cur: int,
    done: int,
) -> bool {
    &&& 0 <= last <= u32::MAX
    &&& forall|j: int|
        0 <= j < open.len() ==> (#[trigger] open[j]).0 >= last && costs.contains_key(open[j].1) && costs[open[j].1] <= open[j].0
    &&& forall|v: u32| #[trigger] costs.contains_key(v) && !expanded.contains(v) ==> open.contains((costs[v], v))
    &&& forall|v: u32| #[trigger] expanded.contains(v) ==> costs.contains_key(v) && costs[v] <= last
    &&& forall|u: u32, i: int| #![trigger expanded.contains(u), access.out(u as int)[i]]
        expanded.contains(u) && u != cur && 0 <= i < access.out(u as int).len() && costs[u] + access.out(u as int)[i].cost < u32::MAX
            ==> relaxed_edge(access, costs, u, i)
    &&& cur >= 0 ==> cur <= u32::MAX && expanded.contains(cur as u32) && costs[cur as u32] == last
    &&& cur >= 0 ==> forall|i: int|
        0 <= i < done && i < access.out(cur).len() && costs[cur as u32] + access.out(cur)[i].cost < u32::MAX ==> #[trigger] relaxed_edge(
            access,
            costs,
            cur as u32,
            i,
        )
}

/// Edge `i` of `u` is relaxed: its target has a cost of at most that of `u` plus the edge's.
pub open spec fn relaxed_edge(access: FastEdgeAccess, costs: Map<u32, u32>, u: u32, i: int) -> bool {
    let e = access.out(u as int)[i];
    costs.contains_key(e.target) && costs[e.target] <= costs[u] + e.cost
}

/// Removing an entry other than `y` keeps `y` in the queue.
proof fn lemma_remove_keeps(q: Seq<(u32, u32)>, i: int, y: (u32, u32))
    requires
        0 <= i < q.len(),
        q.contains(y),
        y != q[i],
    ensures
        q.remove(i).contains(y),
{
    let j = choose|j: int| 0 <= j < q.len() && q[j] == y;
    if j < i {
        assert(q.remove(i)[j] == y);
    } else {
        assert(q.remove(i)[j - 1] == y);
    }
}

/// Popping the first entry with the smallest key: its key is at least `last`; a node expanded
/// before leaves the order as it is, from the popped key; a node not expanded is popped at its
/// cost and, once expanded, becomes the node whose edges are relaxed.
pub proof fn lemma_side_pop(
    access: FastEdgeAccess,
    costs: Map<u32, u32>,
    open: Seq<(u32, u32)>,
    expanded: Set<u32>,
    last: int,
    i: int,
)
    requires
        side_order(access, costs, open, expanded, last, -1, 0),
        is_first_min(open, i),
    ensures
        open[i].0 >= last,
        expanded.contains(open[i].1) ==> side_order(access, costs, open.remove(i), expanded, open[i].0 as int, -1, 0),
        !expanded.contains(open[i].1) ==> costs.contains_key(open[i].1) && costs[open[i].1] == open[i].0 && side_order(
            access,
            costs,
            open.remove(i),
            expanded.insert(open[i].1),
            open[i].0 as int,
            open[i].1 as int,
            0,
        ),
{
    let (k, v) = open[i];
    let open2 = open.remove(i);
    assert forall|j: int| 0 <= j < open2.len() implies (#[trigger] open2[j]).0 >= k && costs.contains_key(open2[j].1) && costs[open2[j].1]
        <= open2[j].0 by {
        if j < i {
            assert(open2[j] == open[j]);
        } else {
            assert(open2[j] == open[j + 1]);
        }
    }
    assert forall|w: u32| #[trigger] costs.contains_key(w) && !expanded.contains(w) && w != v implies open2.contains((costs[w], w)) by {
        lemma_remove_keeps(open, i, (costs[w], w));
    }
    if !expanded.contains(v) {
        assert(open.contains((costs[v], v)));
        let j = choose|j: int| 0 <= j < open.len() && open[j] == (costs[v], v);
        assert(open[j].0 >= k);
        let ex2 = expanded.insert(v);
        assert forall|w: u32| #[trigger] ex2.contains(w) implies costs.contains_key(w) && costs[w] <= k by {
            if w != v {
                assert(expanded.contains(w));
            }
        }
        assert forall|u: u32, e: int| #![trigger ex2.contains(u), access.out(u as int)[e]]
            ex2.contains(u) && u != v && 0 <= e < access.out(u as int).len() && costs[u] + access.out(u as int)[e].cost < u32::MAX
                implies relaxed_edge(access, costs, u, e) by {
            assert(expanded.contains(u));
        }
    }
}

/// Relaxing edge `i` of `u`, the node being expanded at cost `last`, keeps the order with one
/// edge more relaxed, and leaves the costs of expanded nodes alone.
pub proof fn lemma_side_relax(
    access: FastEdgeAccess,
    costs: Map<u32, u32>,
    open: Seq<(u32, u32)>,
    expanded: Set<u32>,
    last: int,
    u: u32,
    i: int,
    costs2: Map<u32, u32>,
    open2: Seq<(u32, u32)>,
)
    requires
        side_order(access, costs, open, expanded, last, u as int, i),
        0 <= i < access.out(u as int).len(),
        ({
            let e = access.out(u as int)[i];
            let alt = costs[u] + e.cost;
            let current = if costs.contains_key(e.target) { costs[e.target] as int } else { u32::MAX as int };
            if alt <= u32::MAX && alt < current {
                &&& costs2 == costs.insert(e.target, alt as u32)
                &&& open2 == open.push((alt as u32, e.target))
            } else {
                &&& costs2 == costs
                &&& open2 == open
            }
        }),
    ensures
        side_order(access, costs2, open2, expanded, last, u as int, i + 1),
        forall|v: u32| #[trigger] expanded.contains(v) ==> costs2.contains_key(v) && costs2[v] == costs[v],
        forall|v: u32| #[trigger] costs.contains_key(v) ==> costs2.contains_key(v),
{
    let e = access.out(u as int)[i];
    let t = e.target;
    let alt = costs[u] + e.cost;
    let current = if costs.contains_key(t) { costs[t] as int } else { u32::MAX as int };
    if alt <= u32::MAX && alt < current {
        assert(!expanded.contains(t)) by {
            if expanded.contains(t) {
                assert(costs[t] <= last);
            }
        }
        assert forall|j: int| 0 <= j < open2.len() implies (#[trigger] open2[j]).0 >= last && costs2.contains_key(open2[j].1) && costs2[open2[j].1]
            <= open2[j].0 by {
            if j < open.len() {
                assert(open2[j] == open[j]);
            }
        }
        assert forall|v: u32| #[trigger] costs2.contains_key(v) && !expanded.contains(v) implies open2.contains((costs2[v], v)) by {
            if v == t {
                assert(open2[open.len() as int] == (alt as u32, t));
            } else {
                assert(open.contains((costs[v], v)));
                let j = choose|j: int| 0 <= j < open.len() && open[j] == (costs[v], v);
                assert(open2[j] == open[j]);
            }
        }
        assert forall|w: u32, k: int| #![trigger expanded.contains(w), access.out(w as int)[k]]
            expanded.contains(w) && w != u && 0 <= k < access.out(w as int).len() && costs2[w] + access.out(w as int)[k].cost < u32::MAX
                implies relaxed_edge(access, costs2, w, k) by {
            assert(relaxed_edge(access, costs, w, k));
        }
        assert forall|k: int|
            0 <= k < i + 1 && k < access.out(u as int).len() && costs2[u] + access.out(u as int)[k].cost < u32::MAX implies #[trigger] relaxed_edge(
            access,
            costs2,
            u,
            k,
        ) by {
            if k < i {
                assert(relaxed_edge(access, costs, u, k));
            }
        }
    } else {
        assert forall|k: int|
            0 <= k < i + 1 && k < access.out(u as int).len() && costs2[u] + access.out(u as int)[k].cost < u32::MAX implies #[trigger] relaxed_edge(
            access,
            costs2,
            u,
            k,
        ) by {
            if k < i {
                assert(relaxed_edge(access, costs, u, k));
            }
        }
    }
}

/// Once every edge of `cur` is relaxed, the edges of every expanded node are.
pub proof fn lemma_side_done(
    access: FastEdgeAccess,
    costs: Map<u32, u32>,
    open: Seq<(u32, u32)>,
    expanded: Set<u32>,
    last: int,
    cur: u32,
)
    requires
        side_order(access, costs, open, expanded, last, cur as int, access.out(cur as int).len() as int),
    ensures
        side_order(access, costs, open, expanded, last, -1, 0),
{
    assert forall|u: u32, i: int| #![trigger expanded.contains(u), access.out(u as int)[i]]
        expanded.contains(u) && 0 <= i < access.out(u as int).len() && costs[u] + access.out(u as int)[i].cost < u32::MAX implies relaxed_edge(
        access,
        costs,
        u,
        i,
    ) by {
        if u == cur {
            assert(relaxed_edge(access, costs, cur, i));
        }
    }
}

/// Once every reached node is expanded, with `source` at cost 0, every walk from `source` that
/// costs less than `u32::MAX` reaches its last node at no more than its cost.
pub proof fn lemma_side_walks(
    access: FastEdgeAccess,
    costs: Map<u32, u32>,
    open: Seq<(u32, u32)>,
    expanded: Set<u32>,
    last: int,
    source: u32,
    p: Seq<u32>,
    ix: Seq<int>,
)
    requires
        side_order(access, costs, open, expanded, last, -1, 0),
        costs.contains_key(source),
        costs[source] == 0,
        forall|v: u32| #[trigger] costs.contains_key(v) ==> expanded.contains(v),
        indexed_walk(access, p, ix),
        p[0] == source,
        indexed_cost(access, p, ix) < u32::MAX,
    ensures
        costs.contains_key(p.last()),
        costs[p.last()] <= indexed_cost(access, p, ix),
    decreases ix.len(),
{
    if ix.len() > 0 {
        let p1 = p.drop_last();
        let ix1 = ix.drop_last();
        assert forall|k: int| 0 <= k < ix1.len() implies 0 <= #[trigger] ix1[k] < access.out(p1[k] as int).len() && access.out(p1[k] as int)[ix1[k]].target
            == p1[k + 1] by {
            assert(ix1[k] == ix[k] && p1[k] == p[k] && p1[k + 1] == p[k + 1]);
        }
        let u = p1.last();
        let j = ix.len() - 1;
        assert(p[j] == u);
        let e = access.out(u as int)[ix[j]];
        assert(indexed_cost(access, p, ix) == indexed_cost(access, p1, ix1) + e.cost);
        lemma_side_walks(access, costs, open, expanded, last, source, p1, ix1);
        assert(expanded.contains(u));
        assert(relaxed_edge(access, costs, u, ix[j]));
        assert(e.target == p.last());
    }
}

} // verus!

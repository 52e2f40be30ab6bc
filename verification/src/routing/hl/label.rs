//! Hub labels: for a node, the hubs reached from it (or reaching it) with their costs, ordered
//! by hub id.
use vstd::prelude::*;

use super::label_entry::LabelEntry;
use super::hub_graph::kept_entries;
use crate::routing::cost_maps::{cost_map_entries, CostMap};
use crate::routing::fast_graph::FastGraph;
use crate::routing::route::RouteRequest;
use crate::routing::simple_algorithms::ch_bi_dijkstra::{
    lemma_least_meeting_unique, lemma_meets_at_source, lemma_meets_at_target, least_meeting, walk_costs, ChDijkstra,
};

verus! {

/// The entries are ordered by strictly increasing hub id.
pub open spec fn sorted_by_id(entries: Seq<LabelEntry>) -> bool {
    forall|i: int, j: int| 0 <= i < j < entries.len() ==> #[trigger] entries[i].id < #[trigger] entries[j].id
}

/// Every pair of entries of `a` and `b` with the same hub costs at most `u32::MAX` together.
pub open spec fn sums_fit(a: Seq<LabelEntry>, b: Seq<LabelEntry>) -> bool {
    forall|i: int, j: int|
        0 <= i < a.len() && 0 <= j < b.len() && #[trigger] a[i].id == #[trigger] b[j].id ==> a[i].cost + b[j].cost <= u32::MAX
}

/// `cost` is what joining `a` and `b` at a common hub costs at least: the smallest sum of the
/// two costs of a hub in both, where that sum is below `u32::MAX`; `None` where no such sum is.
pub open spec fn joined_cost(a: Seq<LabelEntry>, b: Seq<LabelEntry>, cost: Option<u32>) -> bool {
    match cost {
        Some(c) => {
            &&& c < u32::MAX
            &&& exists|i: int, j: int|
                0 <= i < a.len() && 0 <= j < b.len() && #[trigger] a[i].id == #[trigger] b[j].id && a[i].cost + b[j].cost == c
            &&& forall|i: int, j: int|
                0 <= i < a.len() && 0 <= j < b.len() && #[trigger] a[i].id == #[trigger] b[j].id ==> a[i].cost + b[j].cost >= c
        },
        None => forall|i: int, j: int|
            0 <= i < a.len() && 0 <= j < b.len() && #[trigger] a[i].id == #[trigger] b[j].id ==> a[i].cost + b[j].cost >= u32::MAX,
    }
}

/// The joined cost of `a` and `b`.
pub open spec fn label_cost(a: Seq<LabelEntry>, b: Seq<LabelEntry>) -> Option<u32> {
    choose|cost: Option<u32>| joined_cost(a, b, cost)
}

/// There is one joined cost, and [`label_cost`] is it.
pub proof fn lemma_label_cost(a: Seq<LabelEntry>, b: Seq<LabelEntry>, cost: Option<u32>)
    requires
        joined_cost(a, b, cost),
    ensures
        label_cost(a, b) == cost,
{
    let c2 = label_cost(a, b);
    assert(joined_cost(a, b, c2));
    match (cost, c2) {
        (Some(x), Some(y)) => {
            let (i, j) = choose|i: int, j: int| 0 <= i < a.len() && 0 <= j < b.len() && #[trigger] a[i].id == #[trigger] b[j].id && a[i].cost + b[j].cost == x;
            let (k, l) = choose|i: int, j: int| 0 <= i < a.len() && 0 <= j < b.len() && #[trigger] a[i].id == #[trigger] b[j].id && a[i].cost + b[j].cost == y;
            assert(a[i].cost + b[j].cost >= y);
            assert(a[k].cost + b[l].cost >= x);
        },
        (Some(x), None) => {
            let (i, j) = choose|i: int, j: int| 0 <= i < a.len() && 0 <= j < b.len() && #[trigger] a[i].id == #[trigger] b[j].id && a[i].cost + b[j].cost == x;
        },
        (None, Some(y)) => {
            let (k, l) = choose|i: int, j: int| 0 <= i < a.len() && 0 <= j < b.len() && #[trigger] a[i].id == #[trigger] b[j].id && a[i].cost + b[j].cost == y;
        },
        (None, None) => {},
    }
}

/// The label entry of a hub and its cost.
pub open spec fn as_entry(pair: (u32, u32)) -> LabelEntry {
    LabelEntry { id: pair.0, cost: pair.1 }
}

/// Inserts `entry` into `labels` where its id belongs.
fn insert_sorted(labels: &mut Vec<LabelEntry>, entry: LabelEntry)
    requires
        sorted_by_id(old(labels)@),
        forall|x: LabelEntry| #[trigger] old(labels)@.contains(x) ==> x.id != entry.id,
    ensures
        sorted_by_id(final(labels)@),
        forall|x: LabelEntry| #[trigger] final(labels)@.contains(x) <==> (old(labels)@.contains(x) || x == entry),
{
    let mut p: usize = 0;
    while p < labels.len() && labels[p].id < entry.id
        invariant
            labels@ == old(labels)@,
            p <= labels@.len(),
            sorted_by_id(labels@),
            forall|i: int| 0 <= i < p ==> (#[trigger] labels@[i]).id < entry.id,
        decreases labels@.len() - p,
    {
        p += 1;
    }
    let ghost before = labels@;
    proof {
        assert forall|i: int| p <= i < before.len() implies (#[trigger] before[i]).id > entry.id by {
            assert(before.contains(before[i]));
            assert(before[p as int].id >= entry.id);
            assert(before.contains(before[p as int]));
            if i > p {
                assert(before[p as int].id < before[i].id);
            }
        }
    }
    labels.insert(p, entry);
    proof {
        assert forall|i: int, j: int| 0 <= i < j < labels@.len() implies #[trigger] labels@[i].id < #[trigger] labels@[j].id by {
            if j < p {
                assert(labels@[i] == before[i] && labels@[j] == before[j]);
            } else if j == p {
                assert(labels@[i] == before[i]);
            } else if i < p {
                assert(labels@[i] == before[i] && labels@[j] == before[j - 1]);
            } else if i == p {
                assert(labels@[j] == before[j - 1]);
            } else {
                assert(labels@[i] == before[i - 1] && labels@[j] == before[j - 1]);
            }
        }
        assert forall|x: LabelEntry| #[trigger] labels@.contains(x) <==> (before.contains(x) || x == entry) by {
            if labels@.contains(x) {
                let i = choose|i: int| 0 <= i < labels@.len() && labels@[i] == x;
                if i < p {
                    assert(before[i] == x);
                } else if i > p {
                    assert(before[i - 1] == x);
                }
            }
            if before.contains(x) {
                let i = choose|i: int| 0 <= i < before.len() && before[i] == x;
                if i < p {
                    assert(labels@[i] == x);
                } else {
                    assert(labels@[i + 1] == x);
                }
            }
            if x == entry {
                assert(labels@[p as int] == x);
            }
        }
    }
}

/// The hub label of a node.
pub struct Label {
    pub label: Vec<LabelEntry>,
}

/// Keeps the entries of a forward label of `source` whose cost is that of the cheapest meeting
/// from `source` to the entry's hub.
pub open spec fn exact_from(graph: FastGraph, source: u32) -> spec_fn(LabelEntry) -> bool {
    |e: LabelEntry| least_meeting(graph, source, e.id, e.cost as int)
}

/// Keeps the entries of a backward label of `target` whose cost is that of the cheapest meeting
/// from the entry's hub to `target`.
pub open spec fn exact_to(graph: FastGraph, target: u32) -> spec_fn(LabelEntry) -> bool {
    |e: LabelEntry| least_meeting(graph, e.id, target, e.cost as int)
}

impl Label {
    /// Keeps the entries whose cost is the cost that `dijkstra` finds from `source` to the
    /// entry's hub, for a label whose entries are costs of walks from `source` over the outgoing
    /// edges.
    pub fn prune_forward(&mut self, source: u32, dijkstra: &ChDijkstra)
        requires
            dijkstra.graph.wf(),
            source < dijkstra.graph.num_nodes,
            forall|i: int|
                0 <= i < old(self).label@.len() ==> (#[trigger] old(self).label@[i]).id < dijkstra.graph.num_nodes && old(self).label@[i].cost
                    < u32::MAX && walk_costs(dijkstra.graph.forward_edges, source, old(self).label@[i].id, old(self).label@[i].cost as int),
        ensures
            final(self).label@ == kept_entries(old(self).label@, exact_from(dijkstra.graph, source)),
    {
        let ghost label = self.label@;
        let ghost keep = exact_from(dijkstra.graph, source);
        let mut kept: Vec<LabelEntry> = Vec::new();
        let mut i: usize = 0;
        while i < self.label.len()
            invariant
                self.label@ == label,
                label == old(self).label@,
                keep == exact_from(dijkstra.graph, source),
                dijkstra.graph.wf(),
                source < dijkstra.graph.num_nodes,
                forall|j: int|
                    0 <= j < label.len() ==> (#[trigger] label[j]).id < dijkstra.graph.num_nodes && label[j].cost < u32::MAX && walk_costs(
                        dijkstra.graph.forward_edges,
                        source,
                        label[j].id,
                        label[j].cost as int,
                    ),
                i <= label.len(),
                kept@ == kept_entries(label.take(i as int), keep),
            decreases label.len() - i,
        {
            let entry = self.label[i];
            let request = RouteRequest { source, target: entry.id };
            proof {
                assert(label[i as int] == entry);
                lemma_meets_at_target(dijkstra.graph, source, entry.id, entry.cost as int);
            }
            let found = dijkstra.get_cost(&request);
            proof {
                assert(found is Some) by {
                    if found is None {
                        assert(walk_costs(dijkstra.graph.backward_edges, entry.id, entry.id, 0));
                    }
                }
            }
            let true_cost = found.unwrap();
            proof {
                assert(least_meeting(dijkstra.graph, source, entry.id, true_cost as int));
                if keep(entry) {
                    lemma_least_meeting_unique(dijkstra.graph, source, entry.id, true_cost as int, entry.cost as int);
                }
                assert(label.take(i + 1).drop_last() =~= label.take(i as int));
            }
            if entry.cost == true_cost {
                kept.push(entry);
            }
            i += 1;
        }
        assert(label.take(label.len() as int) =~= label);
        self.label = kept;
    }

    /// Keeps the entries whose cost is the cost that `dijkstra` finds from the entry's hub to
    /// `target`, for a label whose entries are costs of walks from `target` over the incoming
    /// edges.
    pub fn prune_backward(&mut self, target: u32, dijkstra: &ChDijkstra)
        requires
            dijkstra.graph.wf(),
            target < dijkstra.graph.num_nodes,
            forall|i: int|
                0 <= i < old(self).label@.len() ==> (#[trigger] old(self).label@[i]).id < dijkstra.graph.num_nodes && old(self).label@[i].cost
                    < u32::MAX && walk_costs(dijkstra.graph.backward_edges, target, old(self).label@[i].id, old(self).label@[i].cost as int),
        ensures
            final(self).label@ == kept_entries(old(self).label@, exact_to(dijkstra.graph, target)),
    {
        let ghost label = self.label@;
        let ghost keep = exact_to(dijkstra.graph, target);
        let mut kept: Vec<LabelEntry> = Vec::new();
        let mut i: usize = 0;
        while i < self.label.len()
            invariant
                self.label@ == label,
                label == old(self).label@,
                keep == exact_to(dijkstra.graph, target),
                dijkstra.graph.wf(),
                target < dijkstra.graph.num_nodes,
                forall|j: int|
                    0 <= j < label.len() ==> (#[trigger] label[j]).id < dijkstra.graph.num_nodes && label[j].cost < u32::MAX && walk_costs(
                        dijkstra.graph.backward_edges,
                        target,
                        label[j].id,
                        label[j].cost as int,
                    ),
                i <= label.len(),
                kept@ == kept_entries(label.take(i as int), keep),
            decreases label.len() - i,
        {
            let entry = self.label[i];
            let request = RouteRequest { source: entry.id, target };
            proof {
                assert(label[i as int] == entry);
                lemma_meets_at_source(dijkstra.graph, entry.id, target, entry.cost as int);
            }
            let found = dijkstra.get_cost(&request);
            proof {
                assert(found is Some) by {
                    if found is None {
                        assert(walk_costs(dijkstra.graph.forward_edges, entry.id, entry.id, 0));
                    }
                }
            }
            let true_cost = found.unwrap();
            proof {
                assert(least_meeting(dijkstra.graph, entry.id, target, true_cost as int));
                if keep(entry) {
                    lemma_least_meeting_unique(dijkstra.graph, entry.id, target, true_cost as int, entry.cost as int);
                }
                assert(label.take(i + 1).drop_last() =~= label.take(i as int));
            }
            if entry.cost == true_cost {
                kept.push(entry);
            }
            i += 1;
        }
        assert(label.take(label.len() as int) =~= label);
        self.label = kept;
    }

    /// The label of the hubs and costs of `map`, ordered by hub id.
    pub fn new(map: &CostMap) -> (label: Label)
        ensures
            sorted_by_id(label.label@),
            forall|i: int| 0 <= i < label.label@.len() ==> map@.contains_key(#[trigger] label.label@[i].id) && map@[label.label@[i].id] == label.label@[i].cost,
            forall|k: u32| #[trigger] map@.contains_key(k) ==> exists|i: int| 0 <= i < label.label@.len() && label.label@[i].id == k,
    {
        let entries = cost_map_entries(map);
        let mut labels: Vec<LabelEntry> = Vec::new();
        let mut k: usize = 0;
        while k < entries.len()
            invariant
                k <= entries@.len(),
                forall|i: int, j: int| 0 <= i < j < entries@.len() ==> #[trigger] entries@[i].0 != #[trigger] entries@[j].0,
                sorted_by_id(labels@),
                forall|x: LabelEntry| #[trigger] labels@.contains(x) <==> exists|j: int| 0 <= j < k && x == as_entry(#[trigger] entries@[j]),
            decreases entries@.len() - k,
        {
            let (id, cost) = entries[k];
            proof {
                assert forall|x: LabelEntry| #[trigger] labels@.contains(x) implies x.id != id by {
                    let j = choose|j: int| 0 <= j < k && x == as_entry(#[trigger] entries@[j]);
                    assert(entries@[j].0 != entries@[k as int].0);
                }
            }
            let ghost before = labels@;
            insert_sorted(&mut labels, LabelEntry { id, cost });
            proof {
                assert forall|x: LabelEntry| #[trigger] labels@.contains(x) <==> exists|j: int| 0 <= j < k + 1 && x == as_entry(#[trigger] entries@[j]) by {
                    if labels@.contains(x) && x != as_entry(entries@[k as int]) {
                        assert(before.contains(x));
                    }
                    if exists|j: int| 0 <= j < k + 1 && x == as_entry(#[trigger] entries@[j]) {
                        let j = choose|j: int| 0 <= j < k + 1 && x == as_entry(#[trigger] entries@[j]);
                        if j < k {
                            assert(before.contains(x));
                        }
                    }
                }
            }
            k += 1;
        }
        proof {
            assert forall|i: int| 0 <= i < labels@.len() implies map@.contains_key(#[trigger] labels@[i].id) && map@[labels@[i].id] == labels@[i].cost by {
                assert(labels@.contains(labels@[i]));
                let j = choose|j: int| 0 <= j < k && labels@[i] == as_entry(#[trigger] entries@[j]);
            }
            assert forall|key: u32| #[trigger] map@.contains_key(key) implies exists|i: int| 0 <= i < labels@.len() && labels@[i].id == key by {
                let j = choose|j: int| 0 <= j < entries@.len() && entries@[j].0 == key;
                assert(labels@.contains(as_entry(entries@[j])));
                let i = choose|i: int| 0 <= i < labels@.len() && labels@[i] == as_entry(entries@[j]);
                assert(labels@[i].id == key);
            }
        }
        let label = Label { label: labels };
        assert(label.label@ == labels@);
        label
    }

    /// The smallest cost of joining this label and `other` at a common hub: the sum of the
    /// two costs of a hub in both, if one is below `u32::MAX`. The two labels are walked in step
    /// by hub id, so that smallest sum comes out where both are sorted by hub id; on other
    /// labels, what comes out is still the sum at some common hub.
    pub fn get_cost(&self, other: &Label) -> (cost: Option<u32>)
        requires
            sums_fit(self.label@, other.label@),
        ensures
            sorted_by_id(self.label@) && sorted_by_id(other.label@) ==> joined_cost(self.label@, other.label@, cost) && cost == label_cost(
                self.label@,
                other.label@,
            ),
            cost matches Some(c) ==> c < u32::MAX && exists|i: int, j: int|
                0 <= i < self.label@.len() && 0 <= j < other.label@.len() && #[trigger] self.label@[i].id == #[trigger] other.label@[j].id
                    && self.label@[i].cost + other.label@[j].cost == c,
    {
        let ghost a = self.label@;
        let ghost b = other.label@;
        let ghost srt = sorted_by_id(a) && sorted_by_id(b);
        let mut i_self: usize = 0;
        let mut i_other: usize = 0;
        let mut id: u32 = u32::MAX;
        let mut cost: u32 = u32::MAX;
        while i_self < self.label.len() && i_other < other.label.len()
            invariant
                a == self.label@,
                b == other.label@,
                srt == (sorted_by_id(a) && sorted_by_id(b)),
                sums_fit(a, b),
                i_self <= a.len(),
                i_other <= b.len(),
                srt ==> forall|i: int, j: int| 0 <= i < i_self && i_other <= j < b.len() ==> #[trigger] a[i].id < #[trigger] b[j].id,
                srt ==> forall|i: int, j: int| i_self <= i < a.len() && 0 <= j < i_other ==> #[trigger] a[i].id > #[trigger] b[j].id,
                cost == u32::MAX || exists|i: int, j: int|
                    0 <= i < i_self && 0 <= j < i_other && #[trigger] a[i].id == #[trigger] b[j].id && a[i].cost + b[j].cost == cost,
                srt ==> forall|i: int, j: int|
                    0 <= i < i_self && 0 <= j < b.len() && #[trigger] a[i].id == #[trigger] b[j].id ==> a[i].cost + b[j].cost >= cost,
            decreases a.len() + b.len() - i_self - i_other,
        {
            let self_entry = self.label[i_self];
            let other_entry = other.label[i_other];
            if self_entry.id < other_entry.id {
                proof {
                    if srt {
                        assert forall|i: int, j: int| 0 <= i < i_self + 1 && i_other <= j < b.len() implies #[trigger] a[i].id < #[trigger] b[j].id by {
                            if i == i_self && j > i_other {
                                assert(b[i_other as int].id < b[j].id);
                            }
                        }
                        assert forall|i: int, j: int|
                            0 <= i < i_self + 1 && 0 <= j < b.len() && #[trigger] a[i].id == #[trigger] b[j].id implies a[i].cost + b[j].cost >= cost by {
                            if i == i_self {
                                if j < i_other {
                                    assert(a[i].id > b[j].id);
                                } else if j > i_other {
                                    assert(b[i_other as int].id < b[j].id);
                                }
                            }
                        }
                    }
                }
                i_self += 1;
            } else if self_entry.id == other_entry.id {
                let alternative_cost = self_entry.cost + other_entry.cost;
                let ghost old_cost = cost;
                if alternative_cost < cost {
                    id = self_entry.id;
                    cost = alternative_cost;
                }
                proof {
                    if srt {
                        assert forall|i: int, j: int| 0 <= i < i_self + 1 && i_other + 1 <= j < b.len() implies #[trigger] a[i].id < #[trigger] b[j].id by {
                            assert(b[i_other as int].id < b[j].id);
                            if i < i_self {
                                assert(a[i].id < a[i_self as int].id);
                            }
                        }
                        assert forall|i: int, j: int| i_self + 1 <= i < a.len() && 0 <= j < i_other + 1 implies #[trigger] a[i].id > #[trigger] b[j].id by {
                            assert(a[i_self as int].id < a[i].id);
                            if j < i_other {
                                assert(b[j].id < b[i_other as int].id);
                            }
                        }
                        assert forall|i: int, j: int|
                            0 <= i < i_self + 1 && 0 <= j < b.len() && #[trigger] a[i].id == #[trigger] b[j].id implies a[i].cost + b[j].cost >= cost by {
                            if i == i_self {
                                if j < i_other {
                                    assert(b[j].id < b[i_other as int].id);
                                } else if j > i_other {
                                    assert(b[i_other as int].id < b[j].id);
                                }
                            }
                        }
                    }
                    if cost != u32::MAX {
                        if cost == alternative_cost && alternative_cost < old_cost {
                            assert(a[i_self as int].id == b[i_other as int].id);
                        } else {
                            let (i, j) = choose|i: int, j: int|
                                0 <= i < i_self && 0 <= j < i_other && #[trigger] a[i].id == #[trigger] b[j].id && a[i].cost + b[j].cost == cost;
                            assert(a[i].id == b[j].id);
                        }
                    }
                }
                i_self += 1;
                i_other += 1;
            } else {
                proof {
                    if srt {
                        assert forall|i: int, j: int| i_self <= i < a.len() && 0 <= j < i_other + 1 implies #[trigger] a[i].id > #[trigger] b[j].id by {
                            if j == i_other && i > i_self {
                                assert(a[i_self as int].id < a[i].id);
                            }
                        }
                    }
                }
                i_other += 1;
            }
        }
        proof {
            if srt {
                assert forall|i: int, j: int|
                    0 <= i < a.len() && 0 <= j < b.len() && #[trigger] a[i].id == #[trigger] b[j].id implies a[i].cost + b[j].cost >= cost by {
                    if i >= i_self {
                        if j < i_other {
                            assert(a[i].id > b[j].id);
                        } else {
                            assert(i_other >= b.len() || i_self >= a.len());
                        }
                    }
                }
            }
        }
        let result = if cost != u32::MAX {
            Some(cost)
        } else {
            None
        };
        proof {
            if cost != u32::MAX {
                let (i, j) = choose|i: int, j: int|
                    0 <= i < i_self && 0 <= j < i_other && #[trigger] a[i].id == #[trigger] b[j].id && a[i].cost + b[j].cost == cost;
                assert(a[i].id == b[j].id);
            }
            if srt {
                lemma_label_cost(a, b, result);
            }
        }
        result
    }
}

} // verus!

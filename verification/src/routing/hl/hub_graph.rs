//! Hub labelling: the cost between two nodes is found by joining the forward label of the
//! source with the backward label of the target.
use vstd::prelude::*;

use crate::routing::route::RouteRequest;
use crate::routing::simple_algorithms::ch_bi_dijkstra::{cheaper_detour, first_hops_labelled, label_closed, label_edge_ok, walk_costs, ChDijkstra};
use crate::routing::fast_graph::FastEdgeAccess;

use super::label::{label_cost, sorted_by_id, sums_fit, Label};
use super::label_entry::LabelEntry;

verus! {

/// The entries of `s` that `keep` keeps, in order.
pub open spec fn kept_entries(s: Seq<LabelEntry>, keep: spec_fn(LabelEntry) -> bool) -> Seq<LabelEntry>
    decreases s.len(),
{
    if s.len() == 0 {
        Seq::empty()
    } else {
        let r = kept_entries(s.drop_last(), keep);
        if keep(s.last()) { r.push(s.last()) } else { r }
    }
}

/// The kept entries are entries of `s` that `keep` keeps, ordered by id where `s` is.
pub proof fn lemma_kept_entries(s: Seq<LabelEntry>, keep: spec_fn(LabelEntry) -> bool)
    ensures
        forall|i: int| 0 <= i < kept_entries(s, keep).len() ==> keep(#[trigger] kept_entries(s, keep)[i]) && s.contains(kept_entries(s, keep)[i]),
        sorted_by_id(s) ==> sorted_by_id(kept_entries(s, keep)),
    decreases s.len(),
{
    if s.len() > 0 {
        let d = s.drop_last();
        lemma_kept_entries(d, keep);
        let r = kept_entries(d, keep);
        let k = kept_entries(s, keep);
        assert forall|i: int| 0 <= i < k.len() implies keep(#[trigger] k[i]) && s.contains(k[i]) by {
            if i < r.len() {
                assert(k[i] == r[i]);
                let j = choose|j: int| 0 <= j < d.len() && d[j] == r[i];
                assert(s[j] == d[j]);
            } else {
                assert(s[s.len() - 1] == s.last());
            }
        }
        if sorted_by_id(s) {
            assert forall|i: int, j: int| 0 <= i < j < d.len() implies #[trigger] d[i].id < #[trigger] d[j].id by {
                assert(d[i] == s[i] && d[j] == s[j]);
            }
            assert forall|i: int, j: int| 0 <= i < j < k.len() implies #[trigger] k[i].id < #[trigger] k[j].id by {
                if j < r.len() {
                    assert(k[i] == r[i] && k[j] == r[j]);
                } else {
                    assert(k[i] == r[i]);
                    let x = choose|x: int| 0 <= x < d.len() && d[x] == r[i];
                    assert(s[x] == d[x]);
                    assert(s[x].id < s[s.len() - 1].id);
                }
            }
        }
    }
}

/// Keeps the entries whose cost is the joined cost of `label` with the label of their hub.
pub open spec fn exact_forward(label: Seq<LabelEntry>, backward: Seq<Seq<LabelEntry>>) -> spec_fn(LabelEntry) -> bool {
    |e: LabelEntry| label_cost(label, backward[e.id as int]) == Some(e.cost)
}

/// Keeps the entries whose cost is the joined cost of the label of their hub with `label`.
pub open spec fn exact_backward(label: Seq<LabelEntry>, forward: Seq<Seq<LabelEntry>>) -> spec_fn(LabelEntry) -> bool {
    |e: LabelEntry| label_cost(forward[e.id as int], label) == Some(e.cost)
}

/// The entries of the labels of `labels`.
pub open spec fn entries_of(labels: Seq<Label>) -> Seq<Seq<LabelEntry>> {
    labels.map_values(|l: Label| l.label@)
}

/// Each forward label pruned to the entries whose cost is exact against the backward labels.
pub open spec fn pruned_forward(forward: Seq<Seq<LabelEntry>>, backward: Seq<Seq<LabelEntry>>) -> Seq<Seq<LabelEntry>> {
    Seq::new(forward.len(), |s: int| kept_entries(forward[s], exact_forward(forward[s], backward)))
}

/// Each backward label pruned to the entries whose cost is exact against the forward labels.
pub open spec fn pruned_backward(forward: Seq<Seq<LabelEntry>>, backward: Seq<Seq<LabelEntry>>) -> Seq<Seq<LabelEntry>> {
    Seq::new(backward.len(), |t: int| kept_entries(backward[t], exact_backward(backward[t], forward)))
}

/// The labels fit joining: every label is ordered by id, and every forward label joins every
/// backward label without overflow.
pub open spec fn labels_fit(forward: Seq<Seq<LabelEntry>>, backward: Seq<Seq<LabelEntry>>) -> bool {
    &&& forall|s: int| 0 <= s < forward.len() ==> sorted_by_id(#[trigger] forward[s])
    &&& forall|t: int| 0 <= t < backward.len() ==> sorted_by_id(#[trigger] backward[t])
    &&& forall|s: int, t: int| 0 <= s < forward.len() && 0 <= t < backward.len() ==> sums_fit(#[trigger] forward[s], #[trigger] backward[t])
}

/// Every entry of a forward label names a node with a backward label, and joining there gives
/// a cost.
pub open spec fn forward_joinable(forward: Seq<Seq<LabelEntry>>, backward: Seq<Seq<LabelEntry>>) -> bool {
    forall|s: int, i: int| 0 <= s < forward.len() && 0 <= i < forward[s].len() ==> {
        &&& (#[trigger] forward[s][i]).id < backward.len()
        &&& label_cost(forward[s], backward[forward[s][i].id as int]) is Some
    }
}

/// Every entry of a backward label names a node with a forward label, and joining there gives
/// a cost.
pub open spec fn backward_joinable(forward: Seq<Seq<LabelEntry>>, backward: Seq<Seq<LabelEntry>>) -> bool {
    forall|t: int, i: int| 0 <= t < backward.len() && 0 <= i < backward[t].len() ==> {
        &&& (#[trigger] backward[t][i]).id < forward.len()
        &&& label_cost(forward[backward[t][i].id as int], backward[t]) is Some
    }
}

/// `label` is a hub label of `node` for `access`: ordered by hub id, holding `node` itself at
/// cost 0, and every hub a node that a walk of `access` from `node` reaches at the entry's cost.
pub open spec fn hub_label(label: Seq<LabelEntry>, access: crate::routing::fast_graph::FastEdgeAccess, n: nat, node: u32) -> bool {
    &&& sorted_by_id(label)
    &&& exists|i: int| 0 <= i < label.len() && #[trigger] label[i] == (LabelEntry { id: node, cost: 0 })
    &&& forall|i: int| 0 <= i < label.len() ==> (#[trigger] label[i]).id < n && walk_costs(access, node, label[i].id, label[i].cost as int)
}

/// The label made of the costs of a label search is a hub label.
proof fn lemma_hub_label(
    label: Seq<LabelEntry>,
    costs: Map<u32, u32>,
    access: crate::routing::fast_graph::FastEdgeAccess,
    n: nat,
    node: u32,
)
    requires
        crate::routing::simple_algorithms::ch_bi_dijkstra::label_costs(access, n, node, costs),
        sorted_by_id(label),
        forall|i: int| 0 <= i < label.len() ==> costs.contains_key(#[trigger] label[i].id) && costs[label[i].id] == label[i].cost,
        forall|k: u32| #[trigger] costs.contains_key(k) ==> exists|i: int| 0 <= i < label.len() && label[i].id == k,
    ensures
        hub_label(label, access, n, node),
{
    assert(costs.contains_key(node));
    let i = choose|i: int| 0 <= i < label.len() && label[i].id == node;
    assert(label[i] == (LabelEntry { id: node, cost: 0 }));
    assert forall|i: int| 0 <= i < label.len() implies (#[trigger] label[i]).id < n && walk_costs(access, node, label[i].id, label[i].cost as int) by {
        assert(costs.contains_key(label[i].id));
    }
}

/// `label` holds exactly the hubs and costs of `costs`.
pub open spec fn label_holds(label: Seq<LabelEntry>, costs: Map<u32, u32>) -> bool {
    &&& forall|i: int| 0 <= i < label.len() ==> costs.contains_key(#[trigger] label[i].id) && costs[label[i].id] == label[i].cost
    &&& forall|k: u32| #[trigger] costs.contains_key(k) ==> exists|i: int| 0 <= i < label.len() && label[i].id == k
}

/// `label` is what the label search from `node` over `access` settles, with `other` the edges
/// of the search that stalls nodes: every labelled hub is undercut by a cheaper detour, or each
/// of its edges leads to a hub labelled no dearer than the way over it or to a node a cheaper
/// detour reaches; and so does each edge leaving `node` itself.
pub open spec fn settled_label(label: Seq<LabelEntry>, access: FastEdgeAccess, other: FastEdgeAccess, node: u32) -> bool {
    exists|costs: Map<u32, u32>|
        #[trigger] label_holds(label, costs) && label_closed(access, other, node, costs) && first_hops_labelled(access, other, node, costs)
}

/// A settled label is closed over the edges of its hubs: where the entry of a hub `h` at cost `c`
/// is not undercut by a cheaper detour, every edge leaving `h` that costs less than `u32::MAX - c`
/// leads to a hub of the label at most `c` plus the edge's cost, or to a node that a cheaper
/// detour reaches within that cost.
pub proof fn lemma_settled_label_closed(
    label: Seq<LabelEntry>,
    access: FastEdgeAccess,
    other: FastEdgeAccess,
    node: u32,
    i: int,
    k: int,
)
    requires
        settled_label(label, access, other, node),
        0 <= i < label.len(),
        !cheaper_detour(access, other, node, label[i].id, label[i].cost as int),
        0 <= k < access.out(label[i].id as int).len(),
        label[i].cost + access.out(label[i].id as int)[k].cost < u32::MAX,
    ensures
        (exists|j: int|
            0 <= j < label.len() && #[trigger] label[j].id == access.out(label[i].id as int)[k].target && label[j].cost <= label[i].cost
                + access.out(label[i].id as int)[k].cost) || cheaper_detour(
            access,
            other,
            node,
            access.out(label[i].id as int)[k].target,
            label[i].cost + access.out(label[i].id as int)[k].cost,
        ),
{
    let costs = choose|costs: Map<u32, u32>|
        #[trigger] label_holds(label, costs) && label_closed(access, other, node, costs) && first_hops_labelled(access, other, node, costs);
    let h = label[i].id;
    assert(costs.contains_key(h) && costs[h] == label[i].cost);
    assert(label_edge_ok(access, other, node, costs, h, k));
    let t = access.out(h as int)[k].target;
    if costs.contains_key(t) && costs[t] <= label[i].cost + access.out(h as int)[k].cost {
        let j = choose|j: int| 0 <= j < label.len() && label[j].id == t;
        assert(costs[label[j].id] == label[j].cost);
    }
}

/// Forward and backward hub labels of every node.
pub struct HubGraph {
    pub forward_labels: Vec<Label>,
    pub backward_labels: Vec<Label>,
}

/// The number of entries of all labels of `labels`.
pub open spec fn total_entries(labels: Seq<Label>) -> nat
    decreases labels.len(),
{
    if labels.len() == 0 {
        0
    } else {
        total_entries(labels.drop_last()) + labels.last().label@.len()
    }
}

/// The number of entries of all labels of `labels`, for a total that fits in a `u64`.
fn count_entries(labels: &Vec<Label>) -> (count: u64)
    requires
        total_entries(labels@) <= u64::MAX,
    ensures
        count == total_entries(labels@),
{
    let mut count: u64 = 0;
    let mut i: usize = 0;
    while i < labels.len()
        invariant
            i <= labels@.len(),
            total_entries(labels@) <= u64::MAX,
            count == total_entries(labels@.take(i as int)),
        decreases labels@.len() - i,
    {
        assert(labels@.take(i + 1).drop_last() =~= labels@.take(i as int));
        proof {
            lemma_total_entries_prefix(labels@, i as int + 1);
        }
        count = count + labels[i].label.len() as u64;
        i += 1;
    }
    assert(labels@.take(labels@.len() as int) =~= labels@);
    count
}

/// A prefix has no more entries than the whole list.
proof fn lemma_total_entries_prefix(labels: Seq<Label>, k: int)
    requires
        0 <= k <= labels.len(),
    ensures
        total_entries(labels.take(k)) <= total_entries(labels),
    decreases labels.len(),
{
    if k < labels.len() {
        assert(labels.drop_last().take(k) =~= labels.take(k));
        lemma_total_entries_prefix(labels.drop_last(), k);
    } else {
        assert(labels.take(k) =~= labels);
    }
}

impl HubGraph {
    /// The number of entries of all forward and backward labels, for a total that fits in a
    /// `u64`.
    pub fn summed_label_size(&self) -> (size: u64)
        requires
            total_entries(self.forward_labels@) + total_entries(self.backward_labels@) <= u64::MAX,
        ensures
            size == total_entries(self.forward_labels@) + total_entries(self.backward_labels@),
    {
        count_entries(&self.forward_labels) + count_entries(&self.backward_labels)
    }
    /// The labels of every node: forward the label search over the outgoing edges, backward the
    /// one over the incoming edges, both with `depth_limit` for the searches that stall nodes.
    pub fn new(dijkstra: &ChDijkstra, depth_limit: u32) -> (hubs: HubGraph)
        requires
            dijkstra.graph.wf(),
        ensures
            hubs.forward_labels@.len() == dijkstra.graph.num_nodes,
            hubs.backward_labels@.len() == dijkstra.graph.num_nodes,
            forall|s: int| 0 <= s < hubs.forward_labels@.len() ==> #[trigger] hub_label(
                hubs.forward_labels@[s].label@,
                dijkstra.graph.forward_edges,
                dijkstra.graph.num_nodes as nat,
                s as u32,
            ),
            forall|t: int| 0 <= t < hubs.backward_labels@.len() ==> #[trigger] hub_label(
                hubs.backward_labels@[t].label@,
                dijkstra.graph.backward_edges,
                dijkstra.graph.num_nodes as nat,
                t as u32,
            ),
            forall|s: int| 0 <= s < hubs.forward_labels@.len() ==> #[trigger] settled_label(
                hubs.forward_labels@[s].label@,
                dijkstra.graph.forward_edges,
                dijkstra.graph.backward_edges,
                s as u32,
            ),
            forall|t: int| 0 <= t < hubs.backward_labels@.len() ==> #[trigger] settled_label(
                hubs.backward_labels@[t].label@,
                dijkstra.graph.backward_edges,
                dijkstra.graph.forward_edges,
                t as u32,
            ),
    {
        let n = dijkstra.graph.num_nodes;
        let mut forward_labels: Vec<Label> = Vec::new();
        let mut id: u32 = 0;
        while id < n
            invariant
                dijkstra.graph.wf(),
                n == dijkstra.graph.num_nodes,
                id <= n,
                forward_labels@.len() == id,
                forall|s: int| 0 <= s < id ==> #[trigger] hub_label(forward_labels@[s].label@, dijkstra.graph.forward_edges, n as nat, s as u32),
                forall|s: int| 0 <= s < id ==> #[trigger] settled_label(
                    forward_labels@[s].label@,
                    dijkstra.graph.forward_edges,
                    dijkstra.graph.backward_edges,
                    s as u32,
                ),
            decreases n - id,
        {
            let costs = dijkstra.get_forward_label(id, depth_limit);
            let label = Label::new(&costs);
            proof {
                lemma_hub_label(label.label@, costs@, dijkstra.graph.forward_edges, n as nat, id);
                assert(label_holds(label.label@, costs@));
                assert(settled_label(label.label@, dijkstra.graph.forward_edges, dijkstra.graph.backward_edges, id));
            }
            forward_labels.push(label);
            id += 1;
        }
        let mut backward_labels: Vec<Label> = Vec::new();
        let mut id: u32 = 0;
        while id < n
            invariant
                dijkstra.graph.wf(),
                n == dijkstra.graph.num_nodes,
                id <= n,
                backward_labels@.len() == id,
                forall|t: int| 0 <= t < id ==> #[trigger] hub_label(backward_labels@[t].label@, dijkstra.graph.backward_edges, n as nat, t as u32),
                forall|s: int| 0 <= s < forward_labels@.len() ==> #[trigger] settled_label(
                    forward_labels@[s].label@,
                    dijkstra.graph.forward_edges,
                    dijkstra.graph.backward_edges,
                    s as u32,
                ),
                forall|t: int| 0 <= t < id ==> #[trigger] settled_label(
                    backward_labels@[t].label@,
                    dijkstra.graph.backward_edges,
                    dijkstra.graph.forward_edges,
                    t as u32,
                ),
            decreases n - id,
        {
            let costs = dijkstra.get_backward_label(id, depth_limit);
            let label = Label::new(&costs);
            proof {
                lemma_hub_label(label.label@, costs@, dijkstra.graph.backward_edges, n as nat, id);
                assert(label_holds(label.label@, costs@));
                assert(settled_label(label.label@, dijkstra.graph.backward_edges, dijkstra.graph.forward_edges, id));
            }
            backward_labels.push(label);
            id += 1;
        }
        HubGraph { forward_labels, backward_labels }
    }

    /// Keeps of each forward label the entries whose cost is the cost that the labels give
    /// from the label's node to the entry's hub, then of each backward label the entries whose
    /// cost is the cost that the pruned forward labels give from the hub to the label's node.
    pub fn prune(&mut self)
        requires
            old(self).forward_labels@.len() <= u32::MAX as nat + 1,
            old(self).backward_labels@.len() <= u32::MAX as nat + 1,
            labels_fit(entries_of(old(self).forward_labels@), entries_of(old(self).backward_labels@)),
            forward_joinable(entries_of(old(self).forward_labels@), entries_of(old(self).backward_labels@)),
            backward_joinable(
                pruned_forward(entries_of(old(self).forward_labels@), entries_of(old(self).backward_labels@)),
                entries_of(old(self).backward_labels@),
            ),
        ensures
            entries_of(final(self).forward_labels@) == pruned_forward(
                entries_of(old(self).forward_labels@),
                entries_of(old(self).backward_labels@),
            ),
            entries_of(final(self).backward_labels@) == pruned_backward(
                pruned_forward(entries_of(old(self).forward_labels@), entries_of(old(self).backward_labels@)),
                entries_of(old(self).backward_labels@),
            ),
    {
        let ghost f0 = entries_of(self.forward_labels@);
        let ghost b0 = entries_of(self.backward_labels@);
        let ghost f1 = pruned_forward(f0, b0);
        let mut source: usize = 0;
        while source < self.forward_labels.len()
            invariant
                labels_fit(f0, b0),
                forward_joinable(f0, b0),
                entries_of(self.backward_labels@) == b0,
                self.forward_labels@.len() == f0.len(),
                f0.len() <= u32::MAX as nat + 1,
                source <= f0.len(),
                f1 == pruned_forward(f0, b0),
                forall|s: int| 0 <= s < source ==> #[trigger] entries_of(self.forward_labels@)[s] == f1[s],
                forall|s: int| source <= s < f0.len() ==> #[trigger] entries_of(self.forward_labels@)[s] == f0[s],
            decreases f0.len() - source,
        {
            let ghost label = f0[source as int];
            let ghost keep = exact_forward(label, b0);
            let mut kept: Vec<LabelEntry> = Vec::new();
            let mut i: usize = 0;
            assert(entries_of(self.forward_labels@)[source as int] == self.forward_labels@[source as int].label@);
            assert(self.forward_labels@[source as int].label@ == label);
            while i < self.forward_labels[source].label.len()
                invariant
                    labels_fit(f0, b0),
                    forward_joinable(f0, b0),
                    entries_of(self.backward_labels@) == b0,
                    self.forward_labels@.len() == f0.len(),
                    f0.len() <= u32::MAX as nat + 1,
                    source < f0.len(),
                    label == f0[source as int],
                    keep == exact_forward(label, b0),
                    self.forward_labels@[source as int].label@ == label,
                    i <= label.len(),
                    kept@ == kept_entries(label.take(i as int), keep),
                decreases label.len() - i,
            {
                let entry = self.forward_labels[source].label[i];
                let request = RouteRequest { source: source as u32, target: entry.id };
                proof {
                    assert(label[i as int] == entry);
                    assert(f0[source as int][i as int] == entry);
                    assert(sorted_by_id(f0[source as int]));
                    assert(sorted_by_id(b0[entry.id as int]));
                    assert(sums_fit(f0[source as int], b0[entry.id as int]));
                    assert(entries_of(self.backward_labels@)[entry.id as int] == self.backward_labels@[entry.id as int].label@);
                }
                let true_cost = self.get_cost(&request);
                assert(label.take(i + 1).drop_last() =~= label.take(i as int));
                if true_cost == Some(entry.cost) {
                    kept.push(entry);
                }
                i += 1;
            }
            assert(label.take(label.len() as int) =~= label);
            let ghost before = self.forward_labels@;
            self.forward_labels.set(source, Label { label: kept });
            proof {
                assert forall|s: int| 0 <= s < source + 1 implies #[trigger] entries_of(self.forward_labels@)[s] == f1[s] by {
                    assert(entries_of(self.forward_labels@)[s] == self.forward_labels@[s].label@);
                    if s < source {
                        assert(entries_of(before)[s] == before[s].label@);
                        assert(self.forward_labels@[s] == before[s]);
                    }
                }
                assert forall|s: int| source + 1 <= s < f0.len() implies #[trigger] entries_of(self.forward_labels@)[s] == f0[s] by {
                    assert(self.forward_labels@[s] == before[s]);
                    assert(entries_of(before)[s] == before[s].label@);
                }
            }
            source += 1;
        }
        proof {
            assert(entries_of(self.forward_labels@) =~= f1);
            assert forall|s: int| 0 <= s < f1.len() implies sorted_by_id(#[trigger] f1[s]) by {
                lemma_kept_entries(f0[s], exact_forward(f0[s], b0));
            }
            assert forall|s: int, t: int| 0 <= s < f1.len() && 0 <= t < b0.len() implies sums_fit(#[trigger] f1[s], #[trigger] b0[t]) by {
                lemma_kept_entries(f0[s], exact_forward(f0[s], b0));
                assert(sums_fit(f0[s], b0[t]));
                assert forall|i: int, j: int|
                    0 <= i < f1[s].len() && 0 <= j < b0[t].len() && #[trigger] f1[s][i].id == #[trigger] b0[t][j].id implies f1[s][i].cost + b0[t][j].cost <= u32::MAX by {
                    assert(f0[s].contains(f1[s][i]));
                    let x = choose|x: int| 0 <= x < f0[s].len() && f0[s][x] == f1[s][i];
                    assert(f0[s][x].id == b0[t][j].id);
                }
            }
        }
        let ghost b1 = pruned_backward(f1, b0);
        let mut target: usize = 0;
        while target < self.backward_labels.len()
            invariant
                entries_of(self.forward_labels@) == f1,
                forall|s: int| 0 <= s < f1.len() ==> sorted_by_id(#[trigger] f1[s]),
                forall|t: int| 0 <= t < b0.len() ==> sorted_by_id(#[trigger] b0[t]),
                forall|s: int, t: int| 0 <= s < f1.len() && 0 <= t < b0.len() ==> sums_fit(#[trigger] f1[s], #[trigger] b0[t]),
                backward_joinable(f1, b0),
                self.backward_labels@.len() == b0.len(),
                b0.len() <= u32::MAX as nat + 1,
                target <= b0.len(),
                b1 == pruned_backward(f1, b0),
                forall|t: int| 0 <= t < target ==> #[trigger] entries_of(self.backward_labels@)[t] == b1[t],
                forall|t: int| target <= t < b0.len() ==> #[trigger] entries_of(self.backward_labels@)[t] == b0[t],
            decreases b0.len() - target,
        {
            let ghost label = b0[target as int];
            let ghost keep = exact_backward(label, f1);
            let mut kept: Vec<LabelEntry> = Vec::new();
            let mut i: usize = 0;
            assert(entries_of(self.backward_labels@)[target as int] == self.backward_labels@[target as int].label@);
            assert(self.backward_labels@[target as int].label@ == label);
            while i < self.backward_labels[target].label.len()
                invariant
                    entries_of(self.forward_labels@) == f1,
                    forall|s: int| 0 <= s < f1.len() ==> sorted_by_id(#[trigger] f1[s]),
                    forall|t: int| 0 <= t < b0.len() ==> sorted_by_id(#[trigger] b0[t]),
                    forall|s: int, t: int| 0 <= s < f1.len() && 0 <= t < b0.len() ==> sums_fit(#[trigger] f1[s], #[trigger] b0[t]),
                    backward_joinable(f1, b0),
                    self.backward_labels@.len() == b0.len(),
                    b0.len() <= u32::MAX as nat + 1,
                    target < b0.len(),
                    label == b0[target as int],
                    keep == exact_backward(label, f1),
                    self.backward_labels@[target as int].label@ == label,
                    i <= label.len(),
                    kept@ == kept_entries(label.take(i as int), keep),
                decreases label.len() - i,
            {
                let entry = self.backward_labels[target].label[i];
                let request = RouteRequest { source: entry.id, target: target as u32 };
                proof {
                    assert(label[i as int] == entry);
                    assert(b0[target as int][i as int] == entry);
                    assert(sorted_by_id(f1[entry.id as int]));
                    assert(sums_fit(f1[entry.id as int], b0[target as int]));
                    assert(entries_of(self.backward_labels@)[target as int] == label);
                    assert(entries_of(self.forward_labels@)[entry.id as int] == self.forward_labels@[entry.id as int].label@);
                }
                let true_cost = self.get_cost(&request);
                assert(label.take(i + 1).drop_last() =~= label.take(i as int));
                if true_cost == Some(entry.cost) {
                    kept.push(entry);
                }
                i += 1;
            }
            assert(label.take(label.len() as int) =~= label);
            let ghost before = self.backward_labels@;
            self.backward_labels.set(target, Label { label: kept });
            proof {
                assert forall|t: int| 0 <= t < target + 1 implies #[trigger] entries_of(self.backward_labels@)[t] == b1[t] by {
                    assert(entries_of(self.backward_labels@)[t] == self.backward_labels@[t].label@);
                    if t < target {
                        assert(entries_of(before)[t] == before[t].label@);
                        assert(self.backward_labels@[t] == before[t]);
                    }
                }
                assert forall|t: int| target + 1 <= t < b0.len() implies #[trigger] entries_of(self.backward_labels@)[t] == b0[t] by {
                    assert(self.backward_labels@[t] == before[t]);
                    assert(entries_of(before)[t] == before[t].label@);
                }
            }
            target += 1;
        }
        assert(entries_of(self.backward_labels@) =~= b1);
    }

    /// The cost from the request's source to its target that joining the forward label of the
    /// source with the backward label of the target gives; `None` where either label is missing
    /// or the labels share no hub below `u32::MAX`.
    pub fn get_cost(&self, request: &RouteRequest) -> (cost: Option<u32>)
        requires
            request.source < self.forward_labels@.len() && request.target < self.backward_labels@.len() ==> {
                &&& sorted_by_id(self.forward_labels@[request.source as int].label@)
                &&& sorted_by_id(self.backward_labels@[request.target as int].label@)
                &&& sums_fit(self.forward_labels@[request.source as int].label@, self.backward_labels@[request.target as int].label@)
            },
        ensures
            cost == if request.source < self.forward_labels@.len() && request.target < self.backward_labels@.len() {
                label_cost(self.forward_labels@[request.source as int].label@, self.backward_labels@[request.target as int].label@)
            } else {
                None
            },
    {
        if request.source as usize >= self.forward_labels.len() {
            return None;
        }
        if request.target as usize >= self.backward_labels.len() {
            return None;
        }
        let forward_label = &self.forward_labels[request.source as usize];
        let backward_label = &self.backward_labels[request.target as usize];
        forward_label.get_cost(backward_label)
    }
}

} // verus!

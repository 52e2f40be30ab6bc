//! The contraction order: nodes queued by priority, the priority of a node recomputed when it
//! comes up.
use vstd::prelude::*;

use crate::routing::graph::Graph;
use crate::routing::random::shuffle;

use super::deleted_neighbors::{deleted_targets, DeletedNeighbors};
use super::edge_difference::{naive_witnesses, EdgeDifferencePriority};
use crate::routing::ch::contraction_helper::{all_needed_pairs, max_edge_cost, shortcut_costs_fit};

verus! {

broadcast use {vstd::seq_lib::group_to_multiset_ensures, vstd::multiset::group_multiset_axioms};

/// A term of the priority of a node in the contraction order.
pub trait PriorityTerm: Sized {
    /// Whether the term can rate node `v` of `graph`.
    spec fn rates(&self, v: u32, graph: Graph) -> bool;

    /// Whether `p` is a priority the term can give node `v` of `graph`.
    spec fn rating(&self, v: u32, graph: Graph, p: i32) -> bool;

    /// Whether the term can be told that node `v` of `graph` is about to be contracted.
    spec fn updates(&self, v: u32, graph: Graph) -> bool;

    /// Whether `next` is what the term becomes when told that node `v` of `graph` is about to
    /// be contracted.
    spec fn updated(&self, v: u32, graph: Graph, next: Self) -> bool;

    /// Gets the priority of node v in the graph
    fn priority(&self, v: u32, graph: &Graph) -> (p: i32)
        requires
            graph.wf(),
            graph.is_node(v as int),
            self.rates(v, *graph),
        ensures
            self.rating(v, *graph, p),
    ;

    /// Gets called just before a v is contracted. Gives priority terms the oppernunity to updated
    /// neighboring nodes priorities.
    fn update_before_contraction(&mut self, v: u32, graph: &Graph)
        requires
            graph.wf(),
            graph.is_node(v as int),
            old(self).updates(v, *graph),
        ensures
            old(self).updated(v, *graph, *final(self)),
    ;
}

/// The nodes within one hop of `v` are `v` and the targets of the edges leaving it.
pub proof fn lemma_one_hop(graph: Graph, v: u32, w: u32)
    ensures
        graph.neighborhood(v, 1).contains(w) <==> (w == v || exists|i: int|
            0 <= i < graph.fwd()[v as int].len() && #[trigger] graph.fwd()[v as int][i].target == w),
{
    let s0 = graph.neighborhood(v, 0);
    assert(s0 == Set::empty().insert(v));
    assert(graph.neighborhood(v, 1) == s0.union(graph.successors(s0)));
    if exists|i: int| 0 <= i < graph.fwd()[v as int].len() && #[trigger] graph.fwd()[v as int][i].target == w {
        let i = choose|i: int| 0 <= i < graph.fwd()[v as int].len() && #[trigger] graph.fwd()[v as int][i].target == w;
        assert(s0.contains(v));
        assert(graph.successors(s0).contains(w));
    }
    if graph.successors(s0).contains(w) {
        let (x, i) = choose|x: u32, i: int|
            #![trigger s0.contains(x), graph.fwd()[x as int][i]]
            s0.contains(x) && 0 <= i < graph.fwd()[x as int].len() && graph.fwd()[x as int][i].target == w;
        assert(x == v);
    }
}

/// Whether the priority of node `v` of `graph` can be computed without overflow: the edge
/// difference can be rated, and the edges leaving `v` are at most `i32::MAX`.
pub open spec fn ratable(v: u32, graph: Graph) -> bool {
    &&& EdgeDifferencePriority::fits(v, graph)
    &&& graph.fwd()[v as int].len() <= i32::MAX
}

/// Every pair of an edge into `v` and an edge out of `v` costs at most `u32::MAX` together, and
/// the number of such pairs plus the number of edges at `v` fits an `i32`.
pub open spec fn sums_fit_at(v: u32, graph: Graph) -> bool {
    &&& forall|i: int, j: int|
        0 <= i < graph.bwd()[v as int].len() && 0 <= j < graph.fwd()[v as int].len() ==> #[trigger] graph.bwd()[v as int][i].cost
            + #[trigger] graph.fwd()[v as int][j].cost <= u32::MAX
    &&& graph.bwd()[v as int].len() * graph.fwd()[v as int].len() + graph.fwd()[v as int].len() + graph.bwd()[v as int].len() <= i32::MAX
}

/// The dearest cost of a list is the cost of one of its edges, or 0 for an empty list.
pub proof fn lemma_max_edge_cost_of_one(edges: Seq<crate::routing::graph::Edge>)
    ensures
        edges.len() == 0 ==> max_edge_cost(edges) == 0,
        edges.len() > 0 ==> exists|j: int| 0 <= j < edges.len() && max_edge_cost(edges) == (#[trigger] edges[j]).cost,
    decreases edges.len(),
{
    if edges.len() > 0 {
        let rest = edges.drop_last();
        lemma_max_edge_cost_of_one(rest);
        if edges.last().cost > max_edge_cost(rest) || rest.len() == 0 {
            assert(max_edge_cost(edges) == edges[edges.len() - 1].cost);
        } else {
            let j = choose|j: int| 0 <= j < rest.len() && max_edge_cost(rest) == (#[trigger] rest[j]).cost;
            assert(rest[j] == edges[j]);
        }
    }
}

/// Contraction gives up on a node only where its numbers really overflow: a node at which every
/// edge in and edge out cost at most `u32::MAX` together, and whose pairs of edges plus edges fit
/// an `i32`, can be rated, and the shortcuts over it can be costed.
pub proof fn lemma_ratable_when_sums_fit(v: u32, graph: Graph)
    requires
        sums_fit_at(v, graph),
    ensures
        ratable(v, graph),
        shortcut_costs_fit(v, graph),
{
    let out = graph.fwd()[v as int];
    let inn = graph.bwd()[v as int];
    lemma_max_edge_cost_of_one(out);
    assert forall|i: int| 0 <= i < inn.len() implies (#[trigger] inn[i]).cost + max_edge_cost(out) <= u32::MAX by {
        if out.len() > 0 {
            let j = choose|j: int| 0 <= j < out.len() && max_edge_cost(out) == (#[trigger] out[j]).cost;
            assert(inn[i].cost + out[j].cost <= u32::MAX);
        }
    }
    assert(inn.len() * out.len() >= 0) by (nonlinear_arith);
}

/// Whether the priority of node `v` of `graph` can be computed without overflow.
pub fn is_ratable(v: u32, graph: &Graph) -> (ok: bool)
    requires
        graph.wf(),
        graph.is_node(v as int),
    ensures
        ok == ratable(v, *graph),
{
    EdgeDifferencePriority::check_fits(v, graph) && graph.forward_edges[v as usize].len() <= 2147483647
}

/// A queued node with its priority when it was queued.
#[derive(Clone, Copy)]
pub struct CHState {
    pub priority: i32,
    pub node_id: u32,
}

/// Some entry of `entries` is for node `v`.
pub open spec fn holds_node(entries: Seq<CHState>, v: u32) -> bool {
    exists|i: int| 0 <= i < entries.len() && #[trigger] entries[i].node_id == v
}

/// The node ids of `entries`, in order.
pub open spec fn node_ids(entries: Seq<CHState>) -> Seq<u32> {
    entries.map_values(|s: CHState| s.node_id)
}

/// The nodes `0..n`, each once.
pub open spec fn all_nodes(n: nat) -> Seq<u32> {
    Seq::new(n, |v: int| v as u32)
}

/// A fresh queue holds every node once: no node twice.
pub proof fn lemma_all_nodes_once(n: nat, u: u32)
    requires
        n <= u32::MAX as nat + 1,
    ensures
        all_nodes(n).to_multiset().count(u) <= 1,
    decreases n,
{
    broadcast use vstd::seq_lib::group_to_multiset_ensures;

    if n > 0 {
        lemma_all_nodes_once((n - 1) as nat, u);
        assert(all_nodes(n) =~= all_nodes((n - 1) as nat).push(((n - 1) as nat) as u32));
        if u == ((n - 1) as nat) as u32 {
            assert(!all_nodes((n - 1) as nat).contains(u)) by {
                if all_nodes((n - 1) as nat).contains(u) {
                    let i = choose|i: int| 0 <= i < (n - 1) && #[trigger] all_nodes((n - 1) as nat)[i] == u;
                }
            }
        }
    }
}

/// A node is taken from the queue at most once: where no node is queued twice, a node that
/// `lazy_pop` returns, its entry removed from the node ids, is queued no more, and no node is
/// queued twice afterwards.
pub proof fn lemma_popped_once(before: vstd::multiset::Multiset<u32>, after: vstd::multiset::Multiset<u32>, v: u32)
    requires
        forall|u: u32| #[trigger] before.count(u) <= 1,
        after == before.remove(v),
    ensures
        after.count(v) == 0,
        forall|u: u32| #[trigger] after.count(u) <= 1,
{
}

/// Over a run of `lazy_pop` calls on a queue that held every node of `0..n` once, where each
/// call returned a queued node `popped[k]` and took it from the queued ids `queued[k]`, no node
/// comes out twice, and the nodes that came out and those still queued are every node once.
pub proof fn lemma_pop_run(n: nat, queued: Seq<vstd::multiset::Multiset<u32>>, popped: Seq<u32>)
    requires
        n <= u32::MAX as nat + 1,
        queued.len() == popped.len() + 1,
        queued[0] == all_nodes(n).to_multiset(),
        forall|k: int| 0 <= k < popped.len() ==> #[trigger] queued[k].count(popped[k]) > 0 && queued[k + 1] == queued[k].remove(popped[k]),
    ensures
        popped.no_duplicates(),
        popped.to_multiset().add(queued.last()) == all_nodes(n).to_multiset(),
    decreases popped.len(),
{
    broadcast use vstd::seq_lib::group_to_multiset_ensures;

    if popped.len() > 0 {
        let m = popped.len() - 1;
        let p1 = popped.drop_last();
        let q1 = queued.drop_last();
        assert forall|k: int| 0 <= k < p1.len() implies #[trigger] q1[k].count(p1[k]) > 0 && q1[k + 1] == q1[k].remove(p1[k]) by {
            assert(queued[k].count(popped[k]) > 0 && queued[k + 1] == queued[k].remove(popped[k]));
        }
        lemma_pop_run(n, q1, p1);
        assert(queued[m].count(popped[m]) > 0 && queued[m + 1] == queued[m].remove(popped[m]));
        assert(p1.to_multiset().add(queued[m]) == all_nodes(n).to_multiset());
        assert(popped =~= p1.push(popped[m]));
        assert(popped.to_multiset() =~= p1.to_multiset().insert(popped[m]));
        assert(popped.to_multiset().add(queued.last()) =~= all_nodes(n).to_multiset());
        lemma_all_nodes_once(n, popped[m]);
        assert(!p1.contains(popped[m])) by {
            if p1.contains(popped[m]) {
                assert(p1.to_multiset().count(popped[m]) > 0);
            }
        }
        assert forall|i: int, j: int| 0 <= i < popped.len() && 0 <= j < popped.len() && i != j implies popped[i] != popped[j] by {
            if i < m && j < m {
                assert(popped[i] == p1[i] && popped[j] == p1[j]);
            } else if i < m {
                assert(popped[i] == p1[i]);
            } else {
                assert(popped[j] == p1[j]);
            }
        }
    } else {
        assert(popped.to_multiset() =~= vstd::multiset::Multiset::empty());
        assert(popped.to_multiset().add(queued.last()) =~= queued[0]);
    }
}

/// The index of the first entry with the smallest priority in `q`.
pub open spec fn first_lowest(q: Seq<CHState>, i: int) -> bool {
    &&& 0 <= i < q.len()
    &&& forall|j: int| 0 <= j < i ==> #[trigger] q[j].priority > q[i].priority
    &&& forall|j: int| 0 <= j < q.len() ==> #[trigger] q[j].priority >= q[i].priority
}

/// Removes and returns the first entry with the smallest priority; `None` for an empty queue.
fn pop_lowest(queue: &mut Vec<CHState>) -> (popped: Option<CHState>)
    ensures
        popped is None <==> old(queue)@.len() == 0,
        popped is None ==> final(queue)@ == old(queue)@,
        popped matches Some(x) ==> exists|i: int|
            #[trigger] first_lowest(old(queue)@, i) && x == old(queue)@[i] && final(queue)@ == old(queue)@.remove(i),
{
    if queue.len() == 0 {
        return None;
    }
    let mut best: usize = 0;
    let mut j: usize = 1;
    while j < queue.len()
        invariant
            queue@ == old(queue)@,
            1 <= j <= queue@.len(),
            best < j,
            forall|k: int| 0 <= k < best ==> #[trigger] queue@[k].priority > queue@[best as int].priority,
            forall|k: int| 0 <= k < j ==> #[trigger] queue@[k].priority >= queue@[best as int].priority,
        decreases queue@.len() - j,
    {
        if queue[j].priority < queue[best].priority {
            best = j;
        }
        j += 1;
    }
    let ghost q = queue@;
    let x = queue.remove(best);
    assert(first_lowest(q, best as int));
    Some(x)
}

/// The contraction order: the queued nodes, and the two weighted terms whose sum is the priority
/// of a node: the edge difference and the number of deleted neighbors, each with weight 1.
pub struct CHQueue {
    queue: Vec<CHState>,
    edge_difference: (i32, EdgeDifferencePriority),
    deleted_neighbors: (i32, DeletedNeighbors),
}

impl CHQueue {
    /// The queued entries.
    pub closed spec fn entries(&self) -> Seq<CHState> {
        self.queue@
    }

    /// Which nodes are deleted.
    pub closed spec fn deleted(&self) -> Seq<bool> {
        self.deleted_neighbors.1.deleted()
    }

    /// The weights of the two terms.
    pub closed spec fn weights(&self) -> (i32, i32) {
        (self.edge_difference.0, self.deleted_neighbors.0)
    }

    /// Whether `p` is a priority the queue can give node `v` of `graph`: the weighted sum of a
    /// rating of each term.
    pub closed spec fn rating(&self, v: u32, graph: Graph, p: i32) -> bool {
        exists|a: i32, b: i32|
            #[trigger] self.edge_difference.1.rating(v, graph, a) && #[trigger] self.deleted_neighbors.1.rating(v, graph, b) && p
                == self.edge_difference.0 * a + self.deleted_neighbors.0 * b
    }

    /// Whether both terms can rate node `v` of `graph`.
    pub closed spec fn rates(&self, v: u32, graph: Graph) -> bool {
        &&& self.edge_difference.0 == 1
        &&& self.deleted_neighbors.0 == 1
        &&& self.deleted_neighbors.1.deleted().len() == graph.num_nodes()
        &&& ratable(v, graph)
    }

    /// A queue for `graph` with both terms registered with weight 1 and every node queued with
    /// its priority, in random order; `None` where a node cannot be rated without overflow.
    pub fn new(graph: &Graph) -> (queue: Option<Self>)
        requires
            graph.wf(),
            graph.num_nodes() <= u32::MAX,
        ensures
            queue matches Some(q) ==> {
                &&& q.weights() == (1i32, 1i32)
                &&& q.deleted() == Seq::new(graph.num_nodes(), |v: int| false)
                &&& q.entries().len() == graph.num_nodes()
                &&& forall|v: u32| v < graph.num_nodes() ==> #[trigger] holds_node(q.entries(), v)
                &&& forall|i: int| 0 <= i < q.entries().len() ==> q.rating(#[trigger] q.entries()[i].node_id, *graph, q.entries()[i].priority)
                &&& forall|i: int| 0 <= i < q.entries().len() ==> (#[trigger] q.entries()[i]).node_id < graph.num_nodes()
                &&& node_ids(q.entries()).to_multiset() == all_nodes(graph.num_nodes()).to_multiset()
            },
            queue is None ==> exists|v: u32| v < graph.num_nodes() && !(#[trigger] ratable(v, *graph)),
            (forall|v: u32| v < graph.num_nodes() ==> #[trigger] sums_fit_at(v, *graph)) ==> queue is Some,
    {
        let mut queue = CHQueue {
            queue: Vec::new(),
            edge_difference: (1, EdgeDifferencePriority::new()),
            deleted_neighbors: (1, DeletedNeighbors::new(graph.forward_edges.len() as u32)),
        };
        if queue.initialize(graph) {
            Some(queue)
        } else {
            proof {
                let v = choose|v: u32| v < graph.num_nodes() && !(#[trigger] ratable(v, *graph));
                if sums_fit_at(v, *graph) {
                    lemma_ratable_when_sums_fit(v, *graph);
                }
            }
            None
        }
    }

    /// Whether both terms can rate node `v` of `graph`.
    fn can_rate(&self, v: u32, graph: &Graph) -> (ok: bool)
        requires
            graph.wf(),
            graph.is_node(v as int),
        ensures
            ok == self.rates(v, *graph),
    {
        self.edge_difference.0 == 1 && self.deleted_neighbors.0 == 1 && self.deleted_neighbors.1.num_nodes() == graph.forward_edges.len()
            && is_ratable(v, graph)
    }

    /// Takes the first node with the smallest priority. If its priority, computed anew, is larger
    /// than the one it was queued with, it goes back with the new priority and the next node is
    /// taken; recomputing on the same graph gives the same priority again, so at most as many
    /// nodes go back as were queued. The node taken is returned, after the terms were told that
    /// it is about to be contracted. `None` once the queue is empty, or, leaving the rest
    /// queued, when a node taken cannot be rated without overflow.
    pub fn lazy_pop(&mut self, graph: &Graph) -> (popped: Option<u32>)
        requires
            graph.wf(),
            forall|i: int| 0 <= i < old(self).entries().len() ==> graph.is_node((#[trigger] old(self).entries()[i]).node_id as int),
            old(self).deleted().len() == graph.num_nodes(),
        ensures
            forall|i: int| 0 <= i < final(self).entries().len() ==> graph.is_node((#[trigger] final(self).entries()[i]).node_id as int),
            final(self).deleted().len() == graph.num_nodes(),
            final(self).weights() == old(self).weights(),
            final(self).entries().len() <= old(self).entries().len(),
            final(self).entries().len() < old(self).entries().len() || (popped is None && old(self).entries().len() == 0),
            forall|i: int| 0 <= i < final(self).entries().len() ==> holds_node(old(self).entries(), (#[trigger] final(self).entries()[i]).node_id),
            popped matches Some(v) ==> {
                &&& graph.is_node(v as int)
                &&& holds_node(old(self).entries(), v)
                &&& final(self).entries().len() + 1 == old(self).entries().len()
                &&& final(self).deleted() == old(self).deleted().update(v as int, true)
            },
            popped is None ==> final(self).deleted() == old(self).deleted(),
            popped matches Some(v) ==> node_ids(final(self).entries()).to_multiset() == node_ids(old(self).entries()).to_multiset().remove(v),
            popped is None ==> node_ids(final(self).entries()).to_multiset() == node_ids(old(self).entries()).to_multiset() || exists|u: u32|
                node_ids(final(self).entries()).to_multiset() == node_ids(old(self).entries()).to_multiset().remove(u),
            popped is None && old(self).entries().len() > 0 && old(self).weights() == (1i32, 1i32) ==> exists|v: u32|
                graph.is_node(v as int) && !#[trigger] ratable(v, *graph),
    {
        let budget = self.queue.len();
        let mut repushed: usize = 0;
        assert forall|i: int| 0 <= i < self.queue@.len() implies graph.is_node((#[trigger] self.queue@[i]).node_id as int) by {
            assert(self.queue@[i] == old(self).entries()[i]);
        }
        let mut result: Option<u32> = None;
        loop
            invariant_except_break
                result is None,
                self.queue@.len() == old(self).queue@.len(),
                self.deleted() == old(self).deleted(),
                node_ids(self.queue@).to_multiset() == node_ids(old(self).queue@).to_multiset(),
            invariant
                graph.wf(),
                forall|i: int| 0 <= i < self.queue@.len() ==> graph.is_node((#[trigger] self.queue@[i]).node_id as int),
                self.weights() == old(self).weights(),
                repushed <= budget,
                budget == old(self).queue@.len(),
                self.deleted().len() == graph.num_nodes(),
                forall|i: int| 0 <= i < self.queue@.len() ==> holds_node(old(self).queue@, (#[trigger] self.queue@[i]).node_id),
            ensures
                forall|i: int| 0 <= i < self.queue@.len() ==> holds_node(old(self).queue@, (#[trigger] self.queue@[i]).node_id),
                result matches Some(v) ==> holds_node(old(self).queue@, v),
                self.queue@.len() <= old(self).queue@.len(),
                self.queue@.len() < old(self).queue@.len() || (result is None && old(self).queue@.len() == 0),
                result matches Some(v) ==> {
                    &&& graph.is_node(v as int)
                    &&& self.queue@.len() + 1 == old(self).queue@.len()
                    &&& self.deleted() == old(self).deleted().update(v as int, true)
                },
                result is None ==> self.deleted() == old(self).deleted(),
                result matches Some(v) ==> node_ids(self.queue@).to_multiset() == node_ids(old(self).queue@).to_multiset().remove(v),
                result is None ==> node_ids(self.queue@).to_multiset() == node_ids(old(self).queue@).to_multiset() || exists|u: u32|
                    node_ids(self.queue@).to_multiset() == node_ids(old(self).queue@).to_multiset().remove(u),
                result is None && old(self).queue@.len() > 0 && old(self).weights() == (1i32, 1i32) ==> exists|v: u32|
                    graph.is_node(v as int) && !#[trigger] ratable(v, *graph),
            decreases budget - repushed,
        {
            let ghost q0 = self.queue@;
            let state = match pop_lowest(&mut self.queue) {
                Some(s) => s,
                None => {
                    break;
                },
            };
            let v = state.node_id;
            proof {
                let i = choose|i: int| #[trigger] first_lowest(q0, i) && state == q0[i] && self.queue@ == q0.remove(i);
                assert(node_ids(self.queue@) =~= node_ids(q0).remove(i));
                vstd::seq_lib::to_multiset_remove(node_ids(q0), i);
                assert(node_ids(q0)[i] == v);
                assert(graph.is_node(q0[i].node_id as int));
                assert(holds_node(old(self).queue@, q0[i].node_id));
                assert forall|j: int| 0 <= j < self.queue@.len() implies graph.is_node((#[trigger] self.queue@[j]).node_id as int) && holds_node(
                    old(self).queue@,
                    self.queue@[j].node_id,
                ) by {
                    if j < i {
                        assert(self.queue@[j] == q0[j]);
                    } else {
                        assert(self.queue@[j] == q0[j + 1]);
                    }
                }
            }
            if !self.can_rate(v, graph) {
                proof {
                    if self.weights() == (1i32, 1i32) {
                        assert(!ratable(v, *graph));
                    }
                }
                break;
            }
            let new_priority = self.get_priority(v, graph);
            if new_priority > state.priority && repushed < budget {
                let ghost q1 = self.queue@;
                self.queue.push(CHState { priority: new_priority, node_id: v });
                proof {
                    assert(node_ids(self.queue@) =~= node_ids(q1).push(v));
                    vstd::seq_lib::to_multiset_build(node_ids(q1), v);
                    assert(node_ids(q0).to_multiset().count(v) > 0) by {
                        let i = choose|i: int| #[trigger] first_lowest(q0, i) && state == q0[i] && q1 == q0.remove(i);
                        assert(node_ids(q0)[i] == v);
                        vstd::seq_lib::to_multiset_contains(node_ids(q0), v);
                    }
                    assert(node_ids(self.queue@).to_multiset() =~= node_ids(q0).to_multiset());
                }
                repushed += 1;
                continue;
            }
            self.update_before_contraction(v, graph);
            result = Some(v);
            break;
        }
        result
    }

    /// Tells the terms that `v` is about to be contracted.
    fn update_before_contraction(&mut self, v: u32, graph: &Graph)
        requires
            graph.wf(),
            graph.is_node(v as int),
            old(self).deleted().len() == graph.num_nodes(),
        ensures
            final(self).entries() == old(self).entries(),
            final(self).weights() == old(self).weights(),
            final(self).deleted() == old(self).deleted().update(v as int, true),
    {
        self.edge_difference.1.update_before_contraction(v, graph);
        self.deleted_neighbors.1.update_before_contraction(v, graph);
    }

    /// With both weights 1, a priority of node `v` is the number of shortcuts that contracting
    /// `v` needs (the pairs of an incoming and an outgoing edge that no witness path undercuts),
    /// less the number of edges at `v`, plus the number of distinct deleted targets of the edges
    /// leaving `v`.
    pub proof fn lemma_priority_formula(&self, v: u32, graph: Graph, p: i32)
        requires
            self.weights() == (1i32, 1i32),
            self.rating(v, graph, p),
        ensures
            exists|ws: Seq<Map<u32, u32>>|
                #[trigger] naive_witnesses(v, graph, ws) && p == all_needed_pairs(graph.bwd()[v as int], graph.fwd()[v as int], ws).len() - (
                graph.fwd()[v as int].len() + graph.bwd()[v as int].len()) + deleted_targets(graph.fwd()[v as int], self.deleted()).len(),
    {
        let (a, b) = choose|a: i32, b: i32|
            #[trigger] self.edge_difference.1.rating(v, graph, a) && #[trigger] self.deleted_neighbors.1.rating(v, graph, b) && p
                == self.edge_difference.0 * a + self.deleted_neighbors.0 * b;
        let ws = choose|ws: Seq<Map<u32, u32>>|
            #[trigger] naive_witnesses(v, graph, ws) && a == all_needed_pairs(graph.bwd()[v as int], graph.fwd()[v as int], ws).len() - (
            graph.fwd()[v as int].len() + graph.bwd()[v as int].len());
        assert(naive_witnesses(v, graph, ws));
    }

    /// The weighted sum of the priorities of the terms.
    pub fn get_priority(&self, v: u32, graph: &Graph) -> (p: i32)
        requires
            graph.wf(),
            graph.is_node(v as int),
            self.rates(v, *graph),
        ensures
            self.rating(v, *graph, p),
    {
        let a = self.edge_difference.1.priority(v, graph);
        let b = self.deleted_neighbors.1.priority(v, graph);
        proof {
            EdgeDifferencePriority::lemma_rating_bounds(v, *graph, a);
            DeletedNeighbors::lemma_rating_bounds(self.deleted_neighbors.1, v, *graph, b);
        }
        let p = self.edge_difference.0 * a + self.deleted_neighbors.0 * b;
        assert(self.edge_difference.1.rating(v, *graph, a) && self.deleted_neighbors.1.rating(v, *graph, b));
        p
    }

    /// Queues every node of `graph` with its priority, in random order; `false`, with nothing
    /// queued, where a node cannot be rated without overflow.
    fn initialize(&mut self, graph: &Graph) -> (ok: bool)
        requires
            graph.wf(),
            graph.num_nodes() <= u32::MAX,
            old(self).queue@.len() == 0,
            old(self).edge_difference.0 == 1,
            old(self).deleted_neighbors.0 == 1,
            old(self).deleted() == Seq::new(graph.num_nodes(), |v: int| false),
        ensures
            final(self).weights() == old(self).weights(),
            final(self).deleted() == old(self).deleted(),
            ok ==> final(self).entries().len() == graph.num_nodes(),
            ok ==> forall|v: u32| v < graph.num_nodes() ==> #[trigger] holds_node(final(self).entries(), v),
            ok ==> forall|i: int| 0 <= i < final(self).entries().len() ==> (#[trigger] final(self).entries()[i]).node_id < graph.num_nodes(),
            ok ==> node_ids(final(self).entries()).to_multiset() == all_nodes(graph.num_nodes()).to_multiset(),
            ok ==> forall|i: int| 0 <= i < final(self).entries().len() ==> final(self).rating(
                #[trigger] final(self).entries()[i].node_id,
                *graph,
                final(self).entries()[i].priority,
            ),
            !ok ==> exists|v: u32| v < graph.num_nodes() && !(#[trigger] ratable(v, *graph)),
    {
        let n = graph.forward_edges.len();
        let mut order: Vec<u32> = Vec::new();
        while order.len() < n
            invariant
                order@.len() <= n,
                n <= u32::MAX,
                forall|i: int| 0 <= i < order@.len() ==> #[trigger] order@[i] == i,
            decreases n - order@.len(),
        {
            order.push(order.len() as u32);
        }
        let ghost before = order@;
        assert(before =~= all_nodes(n as nat));
        shuffle(&mut order);
        let ghost shuffled = order@;
        proof {
            assert(order@.to_multiset().len() == order@.len());
            assert(before.to_multiset().len() == before.len());
            assert(order@.len() == n);
            assert forall|v: u32| v < n implies order@.contains(v) by {
                assert(before[v as int] == v);
                assert(before.contains(v));
                assert(before.to_multiset().count(v) > 0);
                assert(order@.to_multiset().count(v) > 0);
            }
            assert forall|i: int| 0 <= i < order@.len() implies (#[trigger] order@[i]) < n by {
                assert(order@.to_multiset().count(order@[i]) > 0);
                assert(before.to_multiset().count(order@[i]) > 0);
                assert(before.contains(order@[i]));
            }
        }
        let mut k: usize = 0;
        while k < order.len()
            invariant
                graph.wf(),
                n == graph.num_nodes(),
                forall|i: int| 0 <= i < order@.len() ==> (#[trigger] order@[i]) < n,
                forall|v: u32| v < n ==> order@.contains(v),
                order@.len() == n,
                k <= order@.len(),
                self.queue@.len() == k,
                self.weights() == old(self).weights(),
                self.deleted() == old(self).deleted(),
                self.deleted_neighbors.1.deleted().len() == graph.num_nodes(),
                self.edge_difference.0 == 1,
                self.deleted_neighbors.0 == 1,
                forall|i: int| 0 <= i < k ==> (#[trigger] self.queue@[i]).node_id == order@[i],
                forall|i: int| 0 <= i < k ==> self.rating(#[trigger] self.queue@[i].node_id, *graph, self.queue@[i].priority),
            decreases order@.len() - k,
        {
            let v = order[k];
            if !self.can_rate(v, graph) {
                assert(!self.rates(v, *graph));
                assert(self.deleted_neighbors.1.deleted().len() == graph.num_nodes());
                assert(!ratable(v, *graph));
                self.queue = Vec::new();
                return false;
            }
            let p = self.get_priority(v, graph);
            self.queue.push(CHState { priority: p, node_id: v });
            k += 1;
        }
        proof {
            assert(node_ids(self.entries()) =~= shuffled);
            assert forall|v: u32| v < n implies #[trigger] holds_node(self.entries(), v) by {
                assert(order@.contains(v));
                let i = choose|i: int| 0 <= i < order@.len() && order@[i] == v;
                assert(self.queue@[i].node_id == order@[i]);
                assert(self.entries()[i].node_id == v);
            }
        }
        true
    }
}

} // verus!

//! The state of a single-direction search: a label per node and a bucket queue.
use vstd::prelude::*;

use super::fast_graph::FastEdge;
use super::queue::bucket_queue::{BucketQueue, NUM_BUCKETS};
use super::queue::{bucket_pop, bucket_push, in_buckets, lemma_bucket_pop, lemma_bucket_push, total_len, State};
use super::route::Route;

verus! {

/// The search label of a node: its predecessor on the best route found so far, the cost of that
/// route, and whether the node was expanded. `u32::MAX` stands for "none" and "unreached".
#[derive(Clone, Copy, PartialEq, Eq, Structural, Debug)]
pub struct DijsktraEntry {
    pub predecessor: u32,
    pub cost: u32,
    pub is_expanded: bool,
}

impl DijsktraEntry {
    /// The label of a node not reached yet.
    pub open spec fn unvisited() -> DijsktraEntry {
        DijsktraEntry { predecessor: u32::MAX, cost: u32::MAX, is_expanded: false }
    }

    pub(crate) fn new() -> (entry: DijsktraEntry)
        ensures
            entry == DijsktraEntry::unvisited(),
    {
        DijsktraEntry { predecessor: u32::MAX, cost: u32::MAX, is_expanded: false }
    }
}

/// What `DijkstraData::pop` gives: entries are popped from the queue until one names a node
/// that is not expanded yet; that entry, and the queue after it, or nothing and an empty queue.
pub open spec fn fresh_pop(q: (int, Seq<Seq<State>>), nodes: Seq<DijsktraEntry>) -> (Option<State>, (int, Seq<Seq<State>>))
    decreases total_len(q.1),
{
    if q.1.len() == 0 || !(0 <= q.0 < q.1.len()) {
        (None, q)
    } else {
        let (p, q2) = bucket_pop(q);
        match p {
            None => (None, q2),
            Some(s) => if 0 <= s.value < nodes.len() && !nodes[s.value as int].is_expanded {
                (Some(s), q2)
            } else {
                proof {
                    lemma_bucket_pop(q);
                }
                fresh_pop(q2, nodes)
            },
        }
    }
}

/// The node `k` steps up the predecessor chain from `v`.
pub open spec fn chain(nodes: Seq<DijsktraEntry>, v: u32, k: nat) -> u32
    decreases k,
{
    if k == 0 {
        v
    } else {
        nodes[chain(nodes, v, (k - 1) as nat) as int].predecessor
    }
}

/// The predecessor chain from `v` stays within the nodes and ends after `k` steps, at a node
/// without predecessor.
pub open spec fn chain_ends(nodes: Seq<DijsktraEntry>, v: u32, k: nat) -> bool {
    &&& forall|i: nat| i <= k ==> #[trigger] chain(nodes, v, i) < nodes.len()
    &&& forall|i: nat| i < k ==> nodes[#[trigger] chain(nodes, v, i) as int].predecessor != u32::MAX
    &&& nodes[chain(nodes, v, k) as int].predecessor == u32::MAX
}

/// The nodes of the predecessor chain from `v` that ends after `k` steps, from its end to `v`.
pub open spec fn chain_route(nodes: Seq<DijsktraEntry>, v: u32, k: nat) -> Seq<u32> {
    Seq::new(k + 1, |i: int| chain(nodes, v, (k - i) as nat))
}

/// A chain ends at one step only.
pub proof fn lemma_chain_ends_unique(nodes: Seq<DijsktraEntry>, v: u32, k1: nat, k2: nat)
    requires
        chain_ends(nodes, v, k1),
        chain_ends(nodes, v, k2),
    ensures
        k1 == k2,
{
    if k1 < k2 {
        assert(nodes[chain(nodes, v, k1) as int].predecessor != u32::MAX);
    } else if k2 < k1 {
        assert(nodes[chain(nodes, v, k2) as int].predecessor != u32::MAX);
    }
}

/// The state of a search: a label per node and the queue of nodes to expand.
pub struct DijkstraData {
    pub queue: BucketQueue,
    pub nodes: Vec<DijsktraEntry>,
}

impl DijkstraData {
    /// The queue is valid and names nodes only.
    pub open spec fn wf(&self) -> bool {
        &&& self.queue.wf()
        &&& self.nodes@.len() <= u32::MAX
        &&& forall|s: State| #[trigger] in_buckets(self.queue@.1, s) ==> s.value < self.nodes@.len()
    }

    /// A search from `source` over `num_nodes` nodes: every node unreached but `source`, which
    /// costs 0, and `source` queued with key 0.
    pub fn new(num_nodes: usize, source: u32) -> (data: DijkstraData)
        requires
            source < num_nodes <= u32::MAX,
        ensures
            data.wf(),
            data.nodes@ == Seq::new(num_nodes as nat, |v: int| DijsktraEntry::unvisited()).update(
                source as int,
                DijsktraEntry { predecessor: u32::MAX, cost: 0, is_expanded: false },
            ),
            data.queue@ == bucket_push(BucketQueue::empty_view(), 0, State { key: 0, value: source }),
    {
        let mut queue = BucketQueue::new();
        let mut nodes: Vec<DijsktraEntry> = Vec::new();
        while nodes.len() < num_nodes
            invariant
                nodes@.len() <= num_nodes,
                forall|v: int| 0 <= v < nodes@.len() ==> #[trigger] nodes@[v] == DijsktraEntry::unvisited(),
            decreases num_nodes - nodes@.len(),
        {
            nodes.push(DijsktraEntry::new());
        }
        nodes.set(source as usize, DijsktraEntry { predecessor: u32::MAX, cost: 0, is_expanded: false });
        proof {
            BucketQueue::lemma_empty_view(queue);
        }
        queue.insert(0, source);
        let data = DijkstraData { queue, nodes };
        proof {
            assert(data.nodes@ =~= Seq::new(num_nodes as nat, |v: int| DijsktraEntry::unvisited()).update(
                source as int,
                DijsktraEntry { predecessor: u32::MAX, cost: 0, is_expanded: false },
            ));
            lemma_bucket_push(BucketQueue::empty_view(), 0, State { key: 0, value: source });
            assert forall|s: State| #[trigger] in_buckets(data.queue@.1, s) implies s.value < data.nodes@.len() by {
                let e = BucketQueue::empty_view();
                if in_buckets(e.1, s) {
                    let (j, k) = choose|j: int, k: int| 0 <= j < e.1.len() && 0 <= k < e.1[j].len() && #[trigger] e.1[j][k] == s;
                }
            }
        }
        data
    }

    /// Pops queue entries until one names a node that is not expanded, marks that node
    /// expanded and returns its entry; `None` once the queue is empty.
    pub fn pop(&mut self) -> (popped: Option<State>)
        requires
            old(self).wf(),
        ensures
            final(self).wf(),
            (popped, final(self).queue@) == fresh_pop(old(self).queue@, old(self).nodes@),
            final(self).nodes@ == match popped {
                Some(s) => old(self).nodes@.update(
                    s.value as int,
                    DijsktraEntry { is_expanded: true, ..old(self).nodes@[s.value as int] },
                ),
                None => old(self).nodes@,
            },
    {
        loop
            invariant
                self.wf(),
                self.nodes@ == old(self).nodes@,
                fresh_pop(self.queue@, self.nodes@) == fresh_pop(old(self).queue@, old(self).nodes@),
            decreases total_len(self.queue@.1),
        {
            let ghost q = self.queue@;
            proof {
                lemma_bucket_pop(q);
            }
            match self.queue.pop() {
                None => {
                    return None;
                },
                Some(state) => {
                    proof {
                        assert(in_buckets(q.1, state));
                        assert forall|s: State| #[trigger] in_buckets(self.queue@.1, s) implies s.value < self.nodes@.len() by {
                            assert(in_buckets(q.1, s));
                        }
                    }
                    let source = state.value;
                    if !self.nodes[source as usize].is_expanded {
                        let mut entry = self.nodes[source as usize];
                        entry.is_expanded = true;
                        self.nodes.set(source as usize, entry);
                        return Some(state);
                    }
                },
            }
        }
    }

    /// Relaxes `edge` from `source`: when going over it is cheaper than the cost of its target,
    /// the target gets `source` as predecessor and the new cost, and is queued with the new
    /// cost plus `h` (at most `u32::MAX`) as key; otherwise nothing changes. A cost above
    /// `u32::MAX` counts as `u32::MAX`, the cost of an unreached node, so it never wins.
    pub fn update(&mut self, source: u32, edge: &FastEdge, h: u32)
        requires
            old(self).wf(),
            source < old(self).nodes@.len(),
            edge.target < old(self).nodes@.len(),
        ensures
            final(self).wf(),
            relaxed(old(self).nodes@, old(self).queue@, source, *edge, h, final(self).nodes@, final(self).queue@),
    {
        let alternative_cost = self.nodes[source as usize].cost.saturating_add(edge.cost);
        let t = edge.target as usize;
        if alternative_cost < self.nodes[t].cost {
            let mut entry = self.nodes[t];
            entry.predecessor = source;
            entry.cost = alternative_cost;
            self.nodes.set(t, entry);
            let ghost q = self.queue@;
            let key = alternative_cost.saturating_add(h);
            self.queue.insert(key, edge.target);
            proof {
                lemma_bucket_push(q, key as int, State { key, value: edge.target });
            }
        }
    }

    /// The route that the predecessor chain of `target` describes, with the cost of `target`;
    /// `None` when `target` is unreached.
    pub fn get_route(&self, target: u32) -> (route: Option<Route>)
        requires
            target < self.nodes@.len(),
            self.nodes@[target as int].cost != u32::MAX ==> exists|k: nat| chain_ends(self.nodes@, target, k),
        ensures
            self.nodes@[target as int].cost == u32::MAX ==> route is None,
            self.nodes@[target as int].cost != u32::MAX ==> (route matches Some(r) && r.cost == self.nodes@[target as int].cost
                && r.nodes@ == chain_route(
                self.nodes@,
                target,
                choose|k: nat| chain_ends(self.nodes@, target, k),
            )),
    {
        route_of(&self.nodes, target)
    }

}

/// The route to `target` along the predecessor chain of `nodes`: `None` when `target` is
/// unreached, and otherwise the chain's nodes from its end to `target`, with the cost of
/// `target`.
pub(crate) fn route_of(nodes: &Vec<DijsktraEntry>, target: u32) -> (route: Option<Route>)
    requires
        target < nodes@.len(),
        nodes@[target as int].cost != u32::MAX ==> exists|k: nat| chain_ends(nodes@, target, k),
    ensures
        nodes@[target as int].cost == u32::MAX ==> route is None,
        nodes@[target as int].cost != u32::MAX ==> (route matches Some(r) && r.cost == nodes@[target as int].cost
            && r.nodes@ == chain_route(
            nodes@,
            target,
            choose|k: nat| chain_ends(nodes@, target, k),
        )),
{
    if nodes[target as usize].cost != u32::MAX {
        let ghost k = choose|k: nat| chain_ends(nodes@, target, k);
        let mut route: Vec<u32> = Vec::new();
        route.push(target);
        let mut current = target;
        let ghost mut i: nat = 0;
        assert(chain(nodes@, target, 0) == target);
        assert(route@ =~= Seq::new(i + 1, |j: int| chain(nodes@, target, (i - j) as nat)));
        while nodes[current as usize].predecessor != u32::MAX
            invariant
                chain_ends(nodes@, target, k),
                i <= k,
                current == chain(nodes@, target, i),
                current < nodes@.len(),
                route@ == Seq::new(i + 1, |j: int| chain(nodes@, target, (i - j) as nat)),
            decreases k - i,
        {
            assert(i < k) by {
                if i == k {
                    assert(nodes@[chain(nodes@, target, k) as int].predecessor == u32::MAX);
                }
            }
            current = nodes[current as usize].predecessor;
            proof {
                i = i + 1;
                assert(chain(nodes@, target, i) == current);
                assert(chain(nodes@, target, i) < nodes@.len());
            }
            route.insert(0, current);
            assert(route@ =~= Seq::new(i + 1, |j: int| chain(nodes@, target, (i - j) as nat)));
        }
        proof {
            assert(chain_ends(nodes@, target, i)) by {
                assert forall|m: nat| m <= i implies #[trigger] chain(nodes@, target, m) < nodes@.len() by {}
                assert forall|m: nat| m < i implies nodes@[#[trigger] chain(nodes@, target, m) as int].predecessor != u32::MAX by {}
            }
            lemma_chain_ends_unique(nodes@, target, i, k);
        }
        return Some(Route { cost: nodes[target as usize].cost, nodes: route });
    }
    None
}

/// The cost of going from a node that costs `cost` over an edge that costs `edge_cost`, where
/// costs above `u32::MAX` count as `u32::MAX`.
pub open spec fn path_cost(cost: u32, edge_cost: u32) -> int {
    if cost + edge_cost > u32::MAX { u32::MAX as int } else { cost + edge_cost }
}

/// `nodes2` and `q2` are `nodes` and `q` after relaxing `edge` from `source` with heuristic
/// value `h`: when going over the edge is cheaper than the cost of its target, the target gets
/// `source` as predecessor and the new cost and is queued with the new cost plus `h`;
/// otherwise nothing changes.
pub open spec fn relaxed(
    nodes: Seq<DijsktraEntry>,
    q: (int, Seq<Seq<State>>),
    source: u32,
    edge: FastEdge,
    h: u32,
    nodes2: Seq<DijsktraEntry>,
    q2: (int, Seq<Seq<State>>),
) -> bool {
    let alternative_cost = path_cost(nodes[source as int].cost, edge.cost);
    let t = edge.target as int;
    if alternative_cost < nodes[t].cost {
        &&& nodes2 == nodes.update(
            t,
            DijsktraEntry { predecessor: source, cost: alternative_cost as u32, is_expanded: nodes[t].is_expanded },
        )
        &&& q2 == bucket_push(
            q,
            key_of(alternative_cost, h as int),
            State { key: key_of(alternative_cost, h as int) as u32, value: edge.target },
        )
    } else {
        &&& nodes2 == nodes
        &&& q2 == q
    }
}

/// Properties of [`fresh_pop`]: it pops an entry of a node that is not expanded, or empties the
/// queue; it keeps every other entry whose node is not expanded, and adds none.
pub proof fn lemma_fresh_pop(q: (int, Seq<Seq<State>>), nodes: Seq<DijsktraEntry>)
    requires
        q.1.len() > 0,
        0 <= q.0 < q.1.len(),
    ensures
        ({
            let (r, q2) = fresh_pop(q, nodes);
            &&& q2.1.len() == q.1.len()
            &&& 0 <= q2.0 < q2.1.len()
            &&& total_len(q2.1) <= total_len(q.1)
            &&& r is None ==> forall|x: State| !in_buckets(q2.1, x)
            &&& r matches Some(s) ==> in_buckets(q.1, s) && s.value < nodes.len() && !nodes[s.value as int].is_expanded
                && total_len(q2.1) < total_len(q.1)
            &&& forall|x: State| #[trigger] in_buckets(q2.1, x) ==> in_buckets(q.1, x)
            &&& forall|x: State| #[trigger] in_buckets(q.1, x) ==> in_buckets(q2.1, x) || r == Some(x) || (x.value
                < nodes.len() && nodes[x.value as int].is_expanded) || x.value >= nodes.len()
        }),
    decreases total_len(q.1),
{
    lemma_bucket_pop(q);
    let (p, q2) = bucket_pop(q);
    match p {
        None => {},
        Some(s) => {
            if 0 <= s.value < nodes.len() && !nodes[s.value as int].is_expanded {
            } else {
                lemma_fresh_pop(q2, nodes);
            }
        },
    }
}

/// The key under which a node reached at `cost` is queued with heuristic value `h`.
pub open spec fn key_of(cost: int, h: int) -> int {
    if cost + h > u32::MAX { u32::MAX as int } else { cost + h }
}

/// A node is popped at most once: popping never returns a node that is expanded, popping marks
/// the node it returns expanded, and relaxing an edge keeps every node's flag. So once `pop` has
/// returned a node, no later `pop`, with any `update`s in between, returns it again.
pub proof fn lemma_popped_once(q: (int, Seq<Seq<State>>), nodes: Seq<DijsktraEntry>, v: u32)
    requires
        q.1.len() > 0,
        0 <= q.0 < q.1.len(),
        v < nodes.len(),
        nodes[v as int].is_expanded,
    ensures
        fresh_pop(q, nodes).0 matches Some(s) ==> s.value != v,
{
    lemma_fresh_pop(q, nodes);
}

/// An expanded flag, once set, stays set along a run whose steps never clear one.
proof fn lemma_flag_stays(nodes: Seq<Seq<DijsktraEntry>>, x: int, i: int, j: int)
    requires
        0 <= i <= j < nodes.len(),
        0 <= x < nodes[i].len(),
        nodes[i][x].is_expanded,
        forall|k: int| 0 <= k < nodes.len() - 1 ==> #[trigger] nodes[k + 1].len() == nodes[k].len(),
        forall|k: int, v: int| 0 <= k < nodes.len() - 1 && 0 <= v < nodes[k].len() && nodes[k][v].is_expanded ==> #[trigger] nodes[k + 1][v].is_expanded,
    ensures
        x < nodes[j].len(),
        nodes[j][x].is_expanded,
    decreases j - i,
{
    if i < j {
        lemma_flag_stays(nodes, x, i, j - 1);
        assert(nodes[(j - 1) + 1][x].is_expanded);
    }
}

/// Over a run of a search, where each `pop` returns `popped[k]` from the labels `nodes[k]` and
/// the queue `queues[k]`, and the labels between two pops keep every expanded flag and flag the
/// node popped, no node is returned twice.
pub proof fn lemma_pop_run(nodes: Seq<Seq<DijsktraEntry>>, queues: Seq<(int, Seq<Seq<State>>)>, popped: Seq<u32>)
    requires
        nodes.len() == popped.len() + 1,
        queues.len() == popped.len(),
        forall|k: int| 0 <= k < popped.len() ==> (#[trigger] fresh_pop(queues[k], nodes[k])).0 is Some && fresh_pop(queues[k], nodes[k]).0->0.value == popped[k],
        forall|k: int| 0 <= k < popped.len() ==> #[trigger] nodes[k + 1].len() == nodes[k].len(),
        forall|k: int| 0 <= k < popped.len() ==> (#[trigger] nodes[k + 1])[popped[k] as int].is_expanded,
        forall|k: int, v: int| 0 <= k < popped.len() && 0 <= v < nodes[k].len() && nodes[k][v].is_expanded ==> #[trigger] nodes[k + 1][v].is_expanded,
    ensures
        popped.no_duplicates(),
{
    assert forall|i: int, j: int| 0 <= i < popped.len() && 0 <= j < popped.len() && i != j implies popped[i] != popped[j] by {
        let (a, b) = if i < j { (i, j) } else { (j, i) };
        if popped[a] == popped[b] {
            let x = popped[a];
            let qa = queues[a];
            assert(fresh_pop(qa, nodes[a]).0 is Some && fresh_pop(qa, nodes[a]).0->0.value == popped[a]);
            assert(qa.1.len() > 0 && 0 <= qa.0 < qa.1.len());
            lemma_fresh_pop(qa, nodes[a]);
            assert(nodes[a + 1][x as int].is_expanded);
            lemma_flag_stays(nodes, x as int, a + 1, b);
            let qb = queues[b];
            assert(fresh_pop(qb, nodes[b]).0 is Some && fresh_pop(qb, nodes[b]).0->0.value == popped[b]);
            assert(qb.1.len() > 0 && 0 <= qb.0 < qb.1.len());
            lemma_popped_once(qb, nodes[b], x);
        }
    }
}

/// Relaxing an edge keeps the expanded flag of every node.
pub proof fn lemma_relaxed_keeps_flags(
    nodes: Seq<DijsktraEntry>,
    q: (int, Seq<Seq<State>>),
    source: u32,
    edge: FastEdge,
    h: u32,
    nodes2: Seq<DijsktraEntry>,
    q2: (int, Seq<Seq<State>>),
)
    requires
        edge.target < nodes.len(),
        relaxed(nodes, q, source, edge, h, nodes2, q2),
    ensures
        nodes2.len() == nodes.len(),
        forall|v: int| 0 <= v < nodes.len() ==> #[trigger] nodes2[v].is_expanded == nodes[v].is_expanded,
{
}

} // verus!

//! Landmark heuristics: costs from and to reference nodes bound the cost between two nodes.
use vstd::prelude::*;

use crate::routing::dijkstra_data::DijsktraEntry;
use crate::routing::fast_graph::FastGraph;
use crate::routing::random::random_below;
use crate::routing::route::RouteRequest;
use crate::routing::shortest::{
    lemma_indexed_cost_nonneg, lemma_labels_triangle, lemma_two_way_reversed, short_edges, shortest_labels, two_way_edges,
};
use crate::routing::simple_algorithms::ch_bi_dijkstra::{indexed_cost, indexed_walk};
use crate::routing::simple_algorithms::dijkstra::{full_search, Dijkstra};

use super::Heuristic;

verus! {

/// The costs of a list of search labels.
pub open spec fn label_costs(nodes: Seq<DijsktraEntry>) -> Seq<u32> {
    nodes.map_values(|e: DijsktraEntry| e.cost)
}

/// The landmark estimate of the cost from `source` to `target`: the difference between the
/// cost from the reference node to `target` and the cost from `source` to it.
pub open spec fn landmark_lower(costs_to: Seq<u32>, costs_from: Seq<u32>, source: u32, target: u32) -> u32 {
    let a = costs_to[target as int];
    let b = costs_from[source as int];
    if a >= b { (a - b) as u32 } else { (b - a) as u32 }
}

/// A reference node with the search costs from it to every node (`costs_to`) and the costs that
/// a second search from it gives (`costs_from`).
pub struct Landmark {
    pub reference: u32,
    pub costs_to: Vec<u32>,
    pub costs_from: Vec<u32>,
}

impl Landmark {
    /// The landmark belongs to `graph`: its reference is a node, and both cost lists are the
    /// costs of a full search from the reference over the outgoing edges.
    pub open spec fn of(&self, graph: FastGraph) -> bool {
        &&& self.reference < graph.num_nodes
        &&& self.costs_to@.len() == graph.num_nodes
        &&& self.costs_from@.len() == graph.num_nodes
        &&& exists|d: crate::routing::dijkstra_data::DijkstraData|
            #[trigger] full_search(graph.forward_edges, graph.num_nodes as nat, self.reference, d) && self.costs_to@
                == label_costs(d.nodes@) && (short_edges(graph.forward_edges, graph.num_nodes as nat) ==> shortest_labels(
                graph.forward_edges,
                d.nodes@,
                self.reference,
            ))
        &&& exists|d: crate::routing::dijkstra_data::DijkstraData|
            #[trigger] full_search(graph.forward_edges, graph.num_nodes as nat, self.reference, d) && self.costs_from@
                == label_costs(d.nodes@) && (short_edges(graph.forward_edges, graph.num_nodes as nat) ==> shortest_labels(
                graph.forward_edges,
                d.nodes@,
                self.reference,
            ))
    }

    /// The landmark of `reference` in `graph`.
    pub fn new(reference: u32, graph: &FastGraph) -> (landmark: Landmark)
        requires
            graph.wf(),
            reference < graph.num_nodes,
        ensures
            landmark.reference == reference,
            landmark.of(*graph),
    {
        let dijkstra = Dijkstra::new(graph);
        let forward_data = dijkstra.get_forward_data(reference);
        let costs_to = costs_of(&forward_data.nodes);
        let backward_data = dijkstra.get_backward_data(reference);
        let costs_from = costs_of(&backward_data.nodes);
        let landmark = Landmark { reference, costs_to, costs_from };
        proof {
            Landmark::lemma_of(landmark, *graph, forward_data, backward_data);
        }
        landmark
    }

    /// A landmark whose cost lists are those of two full searches from its reference, with
    /// shortest labels where edges are short, belongs to the graph.
    proof fn lemma_of(
        landmark: Landmark,
        graph: FastGraph,
        forward_data: crate::routing::dijkstra_data::DijkstraData,
        backward_data: crate::routing::dijkstra_data::DijkstraData,
    )
        requires
            landmark.reference < graph.num_nodes,
            full_search(graph.forward_edges, graph.num_nodes as nat, landmark.reference, forward_data),
            full_search(graph.forward_edges, graph.num_nodes as nat, landmark.reference, backward_data),
            landmark.costs_to@ == label_costs(forward_data.nodes@),
            landmark.costs_from@ == label_costs(backward_data.nodes@),
            short_edges(graph.forward_edges, graph.num_nodes as nat) ==> shortest_labels(
                graph.forward_edges,
                forward_data.nodes@,
                landmark.reference,
            ),
            short_edges(graph.forward_edges, graph.num_nodes as nat) ==> shortest_labels(
                graph.forward_edges,
                backward_data.nodes@,
                landmark.reference,
            ),
        ensures
            landmark.of(graph),
    {
    }

    /// The cost from `source` to the reference plus the cost from the reference to `target`.
    pub fn upper_bound(&self, source: u32, target: u32) -> (bound: u32)
        requires
            source < self.costs_from@.len(),
            target < self.costs_to@.len(),
            self.costs_from@[source as int] + self.costs_to@[target as int] <= u32::MAX,
        ensures
            bound == self.costs_from@[source as int] + self.costs_to@[target as int],
    {
        self.costs_from[source as usize] + self.costs_to[target as usize]
    }

    /// The landmark estimate of the cost from `source` to `target`.
    fn lower_bound(&self, source: u32, target: u32) -> (bound: u32)
        requires
            source < self.costs_from@.len(),
            target < self.costs_to@.len(),
        ensures
            bound == landmark_lower(self.costs_to@, self.costs_from@, source, target),
    {
        let a = self.costs_to[target as usize];
        let b = self.costs_from[source as usize];
        let x = a.saturating_sub(b);
        let y = b.saturating_sub(a);
        if x > y { x } else { y }
    }

    /// A copy of the landmark.
    fn duplicate(&self) -> (copy: Landmark)
        ensures
            copy.reference == self.reference,
            copy.costs_to@ == self.costs_to@,
            copy.costs_from@ == self.costs_from@,
    {
        let costs_to = self.costs_to.clone();
        let costs_from = self.costs_from.clone();
        assert(costs_to@ =~= self.costs_to@);
        assert(costs_from@ =~= self.costs_from@);
        Landmark { reference: self.reference, costs_to, costs_from }
    }
}

/// The landmark estimate is a lower bound where the cost of the target in `costs_to` is at least
/// the cost of the source in `costs_from` and every edge costs less than there are buckets: no
/// walk from `source` to `target` costs less than it.
pub proof fn lemma_landmark_lower_walks(
    landmark: Landmark,
    graph: FastGraph,
    source: u32,
    target: u32,
    p: Seq<u32>,
    ix: Seq<int>,
)
    requires
        landmark.of(graph),
        short_edges(graph.forward_edges, graph.num_nodes as nat),
        indexed_walk(graph.forward_edges, p, ix),
        p[0] == source,
        p.last() == target,
        source < graph.num_nodes,
        target < graph.num_nodes,
        landmark.costs_from@[source as int] <= landmark.costs_to@[target as int],
    ensures
        landmark_lower(landmark.costs_to@, landmark.costs_from@, source, target) <= indexed_cost(graph.forward_edges, p, ix),
{
    let dt = choose|d: crate::routing::dijkstra_data::DijkstraData|
        #[trigger] full_search(graph.forward_edges, graph.num_nodes as nat, landmark.reference, d) && landmark.costs_to@ == label_costs(d.nodes@)
            && (short_edges(graph.forward_edges, graph.num_nodes as nat) ==> shortest_labels(graph.forward_edges, d.nodes@, landmark.reference));
    let df = choose|d: crate::routing::dijkstra_data::DijkstraData|
        #[trigger] full_search(graph.forward_edges, graph.num_nodes as nat, landmark.reference, d) && landmark.costs_from@ == label_costs(
            d.nodes@,
        ) && (short_edges(graph.forward_edges, graph.num_nodes as nat) ==> shortest_labels(graph.forward_edges, d.nodes@, landmark.reference));
    lemma_labels_triangle(graph.forward_edges, df.nodes@, dt.nodes@, landmark.reference, p, ix);
    assert(landmark.costs_from@[source as int] == df.nodes@[source as int].cost);
    assert(landmark.costs_to@[target as int] == dt.nodes@[target as int].cost);
}

/// The landmark estimate is a lower bound in a graph whose every edge has an edge back of the
/// same cost, where every edge costs less than there are buckets: no walk from `source` to
/// `target` costs less than it.
pub proof fn lemma_landmark_admissible(landmark: Landmark, graph: FastGraph, source: u32, target: u32, p: Seq<u32>, ix: Seq<int>)
    requires
        graph.wf(),
        landmark.of(graph),
        short_edges(graph.forward_edges, graph.num_nodes as nat),
        two_way_edges(graph.forward_edges, graph.num_nodes as nat),
        indexed_walk(graph.forward_edges, p, ix),
        p[0] == source,
        p.last() == target,
        source < graph.num_nodes,
        target < graph.num_nodes,
    ensures
        landmark_lower(landmark.costs_to@, landmark.costs_from@, source, target) <= indexed_cost(graph.forward_edges, p, ix),
{
    if landmark.costs_from@[source as int] <= landmark.costs_to@[target as int] {
        lemma_landmark_lower_walks(landmark, graph, source, target, p, ix);
    } else {
        let dt = choose|d: crate::routing::dijkstra_data::DijkstraData|
            #[trigger] full_search(graph.forward_edges, graph.num_nodes as nat, landmark.reference, d) && landmark.costs_to@ == label_costs(d.nodes@)
                && (short_edges(graph.forward_edges, graph.num_nodes as nat) ==> shortest_labels(graph.forward_edges, d.nodes@, landmark.reference));
        let df = choose|d: crate::routing::dijkstra_data::DijkstraData|
            #[trigger] full_search(graph.forward_edges, graph.num_nodes as nat, landmark.reference, d) && landmark.costs_from@ == label_costs(
                d.nodes@,
            ) && (short_edges(graph.forward_edges, graph.num_nodes as nat) ==> shortest_labels(graph.forward_edges, d.nodes@, landmark.reference));
        lemma_two_way_reversed(graph.forward_edges, graph.num_nodes as nat, p, ix);
        let jx = choose|jx: Seq<int>|
            #[trigger] indexed_walk(graph.forward_edges, p.reverse(), jx) && indexed_cost(graph.forward_edges, p.reverse(), jx) == indexed_cost(
                graph.forward_edges,
                p,
                ix,
            );
        assert(p.reverse()[0] == target);
        assert(p.reverse().last() == source);
        lemma_labels_triangle(graph.forward_edges, dt.nodes@, df.nodes@, landmark.reference, p.reverse(), jx);
        assert(landmark.costs_from@[source as int] == df.nodes@[source as int].cost);
        assert(landmark.costs_to@[target as int] == dt.nodes@[target as int].cost);
    }
}

/// The largest landmark estimate among landmarks of the graph is a lower bound in a graph
/// whose every edge has an edge back of the same cost, where every edge costs less than there
/// are buckets.
pub proof fn lemma_max_lower_admissible(landmarks: Seq<Landmark>, graph: FastGraph, source: u32, target: u32, p: Seq<u32>, ix: Seq<int>)
    requires
        graph.wf(),
        forall|i: int| 0 <= i < landmarks.len() ==> (#[trigger] landmarks[i]).of(graph),
        short_edges(graph.forward_edges, graph.num_nodes as nat),
        two_way_edges(graph.forward_edges, graph.num_nodes as nat),
        indexed_walk(graph.forward_edges, p, ix),
        p[0] == source,
        p.last() == target,
        source < graph.num_nodes,
        target < graph.num_nodes,
    ensures
        max_lower(landmarks, source, target) <= indexed_cost(graph.forward_edges, p, ix),
    decreases landmarks.len(),
{
    lemma_indexed_cost_nonneg(graph.forward_edges, p, ix);
    if landmarks.len() > 0 {
        let init = landmarks.drop_last();
        assert forall|i: int| 0 <= i < init.len() implies (#[trigger] init[i]).of(graph) by {
            assert(init[i] == landmarks[i]);
        }
        lemma_max_lower_admissible(init, graph, source, target, p, ix);
        assert(landmarks.last() == landmarks[landmarks.len() - 1]);
        lemma_landmark_admissible(landmarks.last(), graph, source, target, p, ix);
    }
}

/// The costs of the labels `nodes`.
pub(crate) fn costs_of(nodes: &Vec<DijsktraEntry>) -> (costs: Vec<u32>)
    ensures
        costs@ == label_costs(nodes@),
{
    let mut costs: Vec<u32> = Vec::new();
    let mut i: usize = 0;
    while i < nodes.len()
        invariant
            i <= nodes@.len(),
            costs@ == label_costs(nodes@.take(i as int)),
        decreases nodes@.len() - i,
    {
        costs.push(nodes[i].cost);
        i += 1;
        assert(costs@ =~= label_costs(nodes@.take(i as int)));
    }
    assert(nodes@.take(nodes@.len() as int) == nodes@);
    costs
}

/// The landmark estimates of the cost of `request`, one per landmark.
pub open spec fn landmark_bounds(landmarks: Seq<Landmark>, request: RouteRequest) -> Seq<u32> {
    Seq::new(
        landmarks.len(),
        |i: int| landmark_lower(landmarks[i].costs_to@, landmarks[i].costs_from@, request.source, request.target),
    )
}

/// `order` lists the indices of `bounds` from the largest bound to the smallest, indices with
/// equal bounds in increasing order.
pub open spec fn ranked(bounds: Seq<u32>, order: Seq<int>) -> bool {
    &&& order.len() == bounds.len()
    &&& forall|a: int| 0 <= a < order.len() ==> 0 <= #[trigger] order[a] < bounds.len()
    &&& forall|a: int, c: int|
        0 <= a < c < order.len() ==> bounds[#[trigger] order[a]] > bounds[#[trigger] order[c]] || (bounds[order[a]]
            == bounds[order[c]] && order[a] < order[c])
}

/// The indices of `bounds` from the largest bound to the smallest, equal bounds in index order.
pub(crate) fn rank(bounds: &Vec<u32>) -> (order: Vec<usize>)
    ensures
        ranked(bounds@, order@.map_values(|i: usize| i as int)),
{
    let mut order: Vec<usize> = Vec::new();
    let mut i: usize = 0;
    while i < bounds.len()
        invariant
            i <= bounds@.len(),
            order@.len() == i,
            forall|a: int| 0 <= a < order@.len() ==> #[trigger] order@[a] < i,
            forall|a: int, c: int|
                0 <= a < c < order@.len() ==> bounds@[#[trigger] order@[a] as int] > bounds@[#[trigger] order@[c] as int] || (
                bounds@[order@[a] as int] == bounds@[order@[c] as int] && order@[a] < order@[c]),
        decreases bounds@.len() - i,
    {
        let b = bounds[i];
        let mut p: usize = 0;
        while p < order.len() && bounds[order[p]] >= b
            invariant
                p <= order@.len(),
                order@.len() == i,
                i < bounds@.len(),
                b == bounds@[i as int],
                forall|a: int| 0 <= a < order@.len() ==> #[trigger] order@[a] < i,
                forall|a: int| 0 <= a < p ==> bounds@[#[trigger] order@[a] as int] >= b,
            decreases order@.len() - p,
        {
            p += 1;
        }
        let ghost before = order@;
        order.insert(p, i);
        proof {
            assert forall|a: int, c: int|
                0 <= a < c < order@.len() implies bounds@[#[trigger] order@[a] as int] > bounds@[#[trigger] order@[c] as int] || (
                bounds@[order@[a] as int] == bounds@[order@[c] as int] && order@[a] < order@[c]) by {
                if c < p {
                    assert(order@[a] == before[a] && order@[c] == before[c]);
                } else if c == p {
                    assert(order@[a] == before[a]);
                } else if a < p {
                    assert(order@[a] == before[a] && order@[c] == before[c - 1]);
                } else if a == p {
                    assert(order@[c] == before[c - 1]);
                    assert(bounds@[before[p as int] as int] < b);
                    if c - 1 > p {
                        assert(bounds@[before[p as int] as int] >= bounds@[before[c - 1] as int]);
                    }
                } else {
                    assert(order@[a] == before[a - 1] && order@[c] == before[c - 1]);
                }
            }
            assert forall|a: int| 0 <= a < order@.len() implies #[trigger] order@[a] < i + 1 by {
                if a < p {
                    assert(order@[a] == before[a]);
                } else if a > p {
                    assert(order@[a] == before[a - 1]);
                }
            }
        }
        i += 1;
    }
    order
}

/// Landmarks of a graph, tuned towards `target`.
pub struct LandmarkCollection {
    target: u32,
    landmarks: Vec<Landmark>,
}

impl LandmarkCollection {
    /// The node the collection estimates costs to.
    pub closed spec fn target_node(&self) -> u32 {
        self.target
    }

    /// The landmarks of the collection.
    pub closed spec fn landmarks(&self) -> Seq<Landmark> {
        self.landmarks@
    }

    /// Creates `num_landmarks` landmarks of nodes of `graph` picked at random, tuned towards
    /// node 0.
    pub fn new(graph: &FastGraph, num_landmarks: u32) -> (collection: LandmarkCollection)
        requires
            graph.wf(),
            graph.num_nodes > 0,
        ensures
            collection.target_node() == 0,
            collection.landmarks().len() == num_landmarks,
            forall|i: int| 0 <= i < num_landmarks ==> #[trigger] collection.landmarks()[i].of(*graph),
    {
        let mut landmarks: Vec<Landmark> = Vec::new();
        let mut i: u32 = 0;
        while i < num_landmarks
            invariant
                graph.wf(),
                graph.num_nodes > 0,
                i <= num_landmarks,
                landmarks@.len() == i,
                forall|j: int| 0 <= j < i ==> #[trigger] landmarks@[j].of(*graph),
            decreases num_landmarks - i,
        {
            let reference = random_below(graph.num_nodes);
            landmarks.push(Landmark::new(reference, graph));
            i += 1;
        }
        LandmarkCollection { landmarks, target: 0 }
    }

    /// The `num_landmarks` landmarks with the largest estimates of the cost of `request`
    /// (ties in their order in the collection), tuned towards the request's target.
    pub fn tune(&self, request: &RouteRequest, num_landmarks: u32) -> (collection: LandmarkCollection)
        requires
            forall|i: int| 0 <= i < self.landmarks().len() ==> request.source < (#[trigger] self.landmarks()[i]).costs_from@.len()
                && request.target < self.landmarks()[i].costs_to@.len(),
        ensures
            collection.target_node() == request.target,
            collection.landmarks().len() == if num_landmarks < self.landmarks().len() {
                num_landmarks as int
            } else {
                self.landmarks().len() as int
            },
            exists|order: Seq<int>|
                #[trigger] ranked(landmark_bounds(self.landmarks(), *request), order) && forall|j: int| 0 <= j < collection.landmarks().len() ==> #[trigger] collection.landmarks()[j].same_as(self.landmarks()[order[j]]),
    {
        assert(self.landmarks() == self.landmarks@);
        let mut bounds: Vec<u32> = Vec::new();
        let mut i: usize = 0;
        while i < self.landmarks.len()
            invariant
                i <= self.landmarks@.len(),
                bounds@.len() == i,
                self.landmarks() == self.landmarks@,
                forall|j: int| 0 <= j < self.landmarks().len() ==> request.source < (#[trigger] self.landmarks()[j]).costs_from@.len()
                    && request.target < self.landmarks()[j].costs_to@.len(),
                forall|j: int| 0 <= j < i ==> #[trigger] bounds@[j] == landmark_lower(
                    self.landmarks@[j].costs_to@,
                    self.landmarks@[j].costs_from@,
                    request.source,
                    request.target,
                ),
            decreases self.landmarks@.len() - i,
        {
            bounds.push(self.landmarks[i].lower_bound(request.source, request.target));
            i += 1;
        }
        let order = rank(&bounds);
        let ghost ord = order@.map_values(|i: usize| i as int);
        assert(bounds@ =~= landmark_bounds(self.landmarks@, *request));
        let mut landmarks: Vec<Landmark> = Vec::new();
        let mut j: usize = 0;
        while j < order.len() && j < num_landmarks as usize
            invariant
                j <= order@.len(),
                j <= num_landmarks,
                order@.len() == self.landmarks@.len(),
                ord == order@.map_values(|i: usize| i as int),
                ranked(bounds@, ord),
                landmarks@.len() == j,
                forall|a: int| 0 <= a < j ==> #[trigger] landmarks@[a].same_as(self.landmarks@[ord[a]]),
            decreases order@.len() - j,
        {
            assert(ord[j as int] == order@[j as int] as int);
            landmarks.push(self.landmarks[order[j]].duplicate());
            j += 1;
        }
        assert(landmarks@.len() == if num_landmarks < self.landmarks@.len() {
            num_landmarks as int
        } else {
            self.landmarks@.len() as int
        });
        LandmarkCollection { landmarks, target: request.target }
    }
}

impl LandmarkCollection {
    /// `tuned` is what [`LandmarkCollection::tune`] makes of `self` for `request` and
    /// `num_landmarks`: the landmarks with the largest estimates of the cost of `request`, ties
    /// in their order in `self`, at most `num_landmarks` of them, tuned towards the request's
    /// target.
    pub open spec fn tuning(&self, request: RouteRequest, num_landmarks: u32, tuned: LandmarkCollection) -> bool {
        &&& tuned.target_node() == request.target
        &&& tuned.landmarks().len() == if num_landmarks < self.landmarks().len() {
            num_landmarks as int
        } else {
            self.landmarks().len() as int
        }
        &&& exists|order: Seq<int>|
            #[trigger] ranked(landmark_bounds(self.landmarks(), request), order) && forall|j: int| 0 <= j < tuned.landmarks().len() ==> #[trigger] tuned.landmarks()[j].same_as(self.landmarks()[order[j]])
    }
}

impl Landmark {
    /// `self` and `other` are the same landmark.
    pub open spec fn same_as(&self, other: Landmark) -> bool {
        &&& self.reference == other.reference
        &&& self.costs_to@ == other.costs_to@
        &&& self.costs_from@ == other.costs_from@
    }
}

/// The largest landmark estimate of the cost from `node` to `target`, 0 for no landmarks.
pub open spec fn max_lower(landmarks: Seq<Landmark>, node: u32, target: u32) -> u32
    decreases landmarks.len(),
{
    if landmarks.len() == 0 {
        0
    } else {
        let m = max_lower(landmarks.drop_last(), node, target);
        let l = landmark_lower(landmarks.last().costs_to@, landmarks.last().costs_from@, node, target);
        if l > m { l } else { m }
    }
}

/// The landmark heuristic is the largest single-landmark estimate: no landmark's estimate for
/// `node` exceeds it, and it is the estimate of one of the landmarks, or 0 where there are none.
pub proof fn lemma_max_lower_is_largest(landmarks: Seq<Landmark>, node: u32, target: u32)
    ensures
        forall|i: int|
            0 <= i < landmarks.len() ==> landmark_lower((#[trigger] landmarks[i]).costs_to@, landmarks[i].costs_from@, node, target)
                <= max_lower(landmarks, node, target),
        landmarks.len() == 0 ==> max_lower(landmarks, node, target) == 0,
        landmarks.len() > 0 ==> exists|i: int|
            0 <= i < landmarks.len() && max_lower(landmarks, node, target) == landmark_lower(
                (#[trigger] landmarks[i]).costs_to@,
                landmarks[i].costs_from@,
                node,
                target,
            ),
    decreases landmarks.len(),
{
    if landmarks.len() > 0 {
        let rest = landmarks.drop_last();
        lemma_max_lower_is_largest(rest, node, target);
        let last = landmarks.len() - 1;
        assert forall|i: int|
            0 <= i < landmarks.len() implies landmark_lower((#[trigger] landmarks[i]).costs_to@, landmarks[i].costs_from@, node, target)
                <= max_lower(landmarks, node, target) by {
            if i < last {
                assert(landmarks[i] == rest[i]);
            }
        }
        let l = landmark_lower(landmarks[last].costs_to@, landmarks[last].costs_from@, node, target);
        if l > max_lower(rest, node, target) || rest.len() == 0 {
            assert(max_lower(landmarks, node, target) == l);
        } else {
            let j = choose|j: int|
                0 <= j < rest.len() && max_lower(rest, node, target) == landmark_lower(
                    (#[trigger] rest[j]).costs_to@,
                    rest[j].costs_from@,
                    node,
                    target,
                );
            assert(landmarks[j] == rest[j]);
        }
    }
}

impl LandmarkCollection {
    /// The value of the collection at `node` is the largest estimate of its landmarks towards
    /// its target.
    pub proof fn lemma_value(&self, node: u32)
        ensures
            self.value(node) == max_lower(self.landmarks(), node, self.target_node()),
    {
    }
}

impl LandmarkCollection {
    /// A collection whose landmarks have costs for `n` nodes, with a target below `n`, covers
    /// every node below `n`.
    pub proof fn lemma_covers(tuned: LandmarkCollection, v: u32, n: nat, order: Seq<int>, collection: LandmarkCollection)
        requires
            v < n,
            tuned.target_node() < n,
            forall|i: int| 0 <= i < collection.landmarks().len() ==> (#[trigger] collection.landmarks()[i]).costs_to@.len() == n
                && collection.landmarks()[i].costs_from@.len() == n,
            forall|j: int| 0 <= j < tuned.landmarks().len() ==> 0 <= #[trigger] order[j] < collection.landmarks().len(),
            forall|j: int| 0 <= j < tuned.landmarks().len() ==> #[trigger] tuned.landmarks()[j].same_as(collection.landmarks()[order[j]]),
        ensures
            tuned.covers(v),
    {
        assert forall|i: int| 0 <= i < tuned.landmarks@.len() implies v < (#[trigger] tuned.landmarks@[i]).costs_from@.len()
            && tuned.target < tuned.landmarks@[i].costs_to@.len() by {
            assert(tuned.landmarks()[i].same_as(collection.landmarks()[order[i]]));
        }
    }
}

impl LandmarkCollection {
    /// The heuristic of landmarks of the graph never overestimates in a graph whose every edge
    /// has an edge back of the same cost, where every edge costs less than there are buckets: no
    /// walk from `node` to the collection's target costs less than its value at `node`.
    pub proof fn lemma_admissible(collection: LandmarkCollection, graph: FastGraph, node: u32, p: Seq<u32>, ix: Seq<int>)
        requires
            graph.wf(),
            forall|i: int| 0 <= i < collection.landmarks().len() ==> (#[trigger] collection.landmarks()[i]).of(graph),
            short_edges(graph.forward_edges, graph.num_nodes as nat),
            two_way_edges(graph.forward_edges, graph.num_nodes as nat),
            indexed_walk(graph.forward_edges, p, ix),
            p[0] == node,
            p.last() == collection.target_node(),
            node < graph.num_nodes,
            collection.target_node() < graph.num_nodes,
        ensures
            collection.value(node) <= indexed_cost(graph.forward_edges, p, ix),
    {
        assert(collection.landmarks() == collection.landmarks@);
        assert forall|i: int| 0 <= i < collection.landmarks@.len() implies (#[trigger] collection.landmarks@[i]).of(graph) by {
            assert(collection.landmarks()[i] == collection.landmarks@[i]);
        }
        lemma_max_lower_admissible(collection.landmarks@, graph, node, collection.target, p, ix);
    }
}

impl Heuristic for LandmarkCollection {
    closed spec fn covers(&self, node: u32) -> bool {
        forall|i: int| 0 <= i < self.landmarks@.len() ==> node < (#[trigger] self.landmarks@[i]).costs_from@.len()
            && self.target < self.landmarks@[i].costs_to@.len()
    }

    closed spec fn value(&self, node: u32) -> u32 {
        max_lower(self.landmarks@, node, self.target)
    }

    /// The largest estimate of the cost from `source` to the target among the landmarks.
    fn lower_bound(&self, source: u32) -> (bound: u32) {
        let mut best: u32 = 0;
        let mut i: usize = 0;
        while i < self.landmarks.len()
            invariant
                i <= self.landmarks@.len(),
                self.covers(source),
                best == max_lower(self.landmarks@.take(i as int), source, self.target),
            decreases self.landmarks@.len() - i,
        {
            let l = self.landmarks[i].lower_bound(source, self.target);
            assert(self.landmarks@.take(i + 1).drop_last() == self.landmarks@.take(i as int));
            if l > best {
                best = l;
            }
            i += 1;
        }
        assert(self.landmarks@.take(self.landmarks@.len() as int) == self.landmarks@);
        best
    }
}

} // verus!

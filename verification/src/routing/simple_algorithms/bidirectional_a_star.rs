//! Bidirectional A* that stops early: a forward search from the source and a backward search
//! from the target, one step of each in turn, until the keys of the nodes just expanded exceed
//! the best contact cost seen so far plus the backward estimate of the target.
use vstd::prelude::*;

use crate::routing::dijkstra_data::DijkstraData;
use crate::routing::fast_graph::{FastEdgeAccess, Graph};
use crate::routing::queue::State;
use crate::routing::route::{Route, RouteRequest};
use crate::routing::search::{
    bound_inv, count_expanded, labels_backed, lemma_after_pop, lemma_count_expanded_bound, lemma_labels_backed,
    lemma_search_end, search_inv, zero_stamps,
};

use super::a_star::{expand, fresh_start, lemma_fresh_start, zero_valued};
use crate::routing::shortest::{chain_costs, lemma_chain_cost, lemma_order_pop, order_inv, short_edges};
use super::dijkstra::lemma_order_start;
use super::bi_a_star::{
    construct_route, contact_key, is_contact, joined_route, lemma_meeting_realized, meeting_realized, lemma_reaches_self, lemma_reversed_walk, mirrored,
};
use crate::routing::dijkstra::order::lemma_walk_bound_from;
use crate::routing::dijkstra_data::{path_cost, DijsktraEntry};
use crate::routing::fast_graph::FastGraph;
use crate::routing::graph::Edge;
use crate::routing::shortest::{edges_relaxed, expanded_below, lemma_walk_nodes, lemma_walk_split};
use crate::routing::simple_algorithms::ch_bi_dijkstra::{indexed_cost, indexed_walk};
use super::dijkstra::{full_search, no_cheaper_route};
use super::heuristics::Heuristic;

verus! {

/// What a bidirectional search from `source` to `target` that may stop early leaves: labels for
/// every node in both searches, each start at cost 0, every reached node backed by a walk from
/// the start of its search; and then either one of the searches ran out of nodes to expand,
/// with no route, or the route is the one through the node where both searches meet best.
pub open spec fn early_meeting(
    graph: Graph,
    source: u32,
    target: u32,
    forward_data: DijkstraData,
    backward_data: DijkstraData,
    route: Option<Route>,
) -> bool {
    let n = graph.num_nodes as nat;
    &&& forward_data.wf()
    &&& backward_data.wf()
    &&& forward_data.nodes@.len() == n
    &&& backward_data.nodes@.len() == n
    &&& forward_data.nodes@[source as int].cost == 0
    &&& backward_data.nodes@[target as int].cost == 0
    &&& labels_backed(graph.forward_edges, forward_data.nodes@, source)
    &&& labels_backed(graph.backward_edges, backward_data.nodes@, target)
    &&& {
        ||| route is None && (full_search(graph.forward_edges, n, source, forward_data) || full_search(
            graph.backward_edges,
            n,
            target,
            backward_data,
        ))
        ||| joined_route(
            graph.forward_edges,
            graph.backward_edges,
            source,
            target,
            forward_data.nodes@,
            backward_data.nodes@,
            route,
        )
    }
}

/// One search ran out of nodes to expand at its turn: the forward one, after as many
/// expansions as the backward one, or the backward one, after one expansion fewer than the
/// forward one.
pub open spec fn ran_out(graph: Graph, source: u32, target: u32, forward_data: DijkstraData, backward_data: DijkstraData) -> bool {
    let n = graph.num_nodes as nat;
    ||| full_search(graph.forward_edges, n, source, forward_data) && count_expanded(forward_data.nodes@) == count_expanded(
        backward_data.nodes@,
    )
    ||| full_search(graph.backward_edges, n, target, backward_data) && count_expanded(forward_data.nodes@) == count_expanded(
        backward_data.nodes@,
    ) + 1
}

/// The heuristics have a value on every node that their search can reach.
pub open spec fn heuristics_cover<F: Heuristic, B: Heuristic>(graph: Graph, source: u32, target: u32, forward_heuristic: F, backward_heuristic: B) -> bool {
    &&& forall|v: u32| v < graph.num_nodes && graph.forward_edges.reaches(source, v) ==> #[trigger] forward_heuristic.covers(v)
    &&& forall|v: u32| v < graph.num_nodes && graph.backward_edges.reaches(target, v) ==> #[trigger] backward_heuristic.covers(v)
}

/// Pops the next node of `data` and, where `other` has expanded it too, makes it the contact
/// in `best` (cost, node) if the sum of its two costs (`u32::MAX` where it does not fit) is
/// smaller than the cost there; then relaxes the edges leaving it. `None`, with the search
/// finished, once nothing is left to expand.
fn advance<H: Heuristic>(
    access: &FastEdgeAccess,
    num_nodes: u32,
    data: &mut DijkstraData,
    other: &DijkstraData,
    heuristic: &H,
    best: &mut (u32, u32),
    Ghost(source): Ghost<u32>,
    Ghost(st): Ghost<Seq<nat>>,
    Ghost(clock): Ghost<nat>,
    Ghost(in_order): Ghost<bool>,
    Ghost(last): Ghost<int>,
) -> (r: (Option<State>, Ghost<(Seq<nat>, nat)>))
    requires
        in_order ==> zero_valued(heuristic, num_nodes as nat) && short_edges(*access, num_nodes as nat) && order_inv(
            *access,
            old(data).nodes@,
            old(data).queue@,
            source,
            last,
            -1,
            0,
        ),
        source < num_nodes,
        old(best).0 != u32::MAX ==> old(best).1 < num_nodes && contact_key(old(data).nodes@, other.nodes@, old(best).1 as int)
            <= old(best).0,
        access.wf(num_nodes as nat),
        old(data).wf(),
        old(data).nodes@.len() == num_nodes,
        other.nodes@.len() == num_nodes,
        search_inv(*access, old(data).nodes@, old(data).queue@, source, st, clock),
        bound_inv(*access, old(data).nodes@, -1, 0),
        forall|v: u32| v < num_nodes && access.reaches(source, v) ==> #[trigger] heuristic.covers(v),
        super::a_star::queued_by_estimate(old(data).nodes@, old(data).queue@.1, source, |v: u32| heuristic.value(v)),
    ensures
        super::a_star::queued_by_estimate(final(data).nodes@, final(data).queue@.1, source, |v: u32| heuristic.value(v)),
        final(data).wf(),
        final(data).nodes@.len() == num_nodes,
        search_inv(*access, final(data).nodes@, final(data).queue@, source, r.1@.0, r.1@.1),
        bound_inv(*access, final(data).nodes@, -1, 0),
        r.0 is Some ==> count_expanded(final(data).nodes@) == count_expanded(old(data).nodes@) + 1,
        r.0 is None ==> full_search(*access, num_nodes as nat, source, *final(data)),
        r.0 is None ==> final(data).nodes@ == old(data).nodes@,
        final(best).0 != u32::MAX ==> final(best).1 < num_nodes && contact_key(final(data).nodes@, other.nodes@, final(best).1 as int)
            <= final(best).0,
        in_order ==> (r.0 matches Some(state) ==> order_inv(
            *access,
            final(data).nodes@,
            final(data).queue@,
            source,
            state.key as int,
            -1,
            0,
        )),
{
    proof {
        lemma_after_pop(*access, data.nodes@, data.queue@, source, st, clock);
        if in_order {
            lemma_order_pop(*access, data.nodes@, data.queue@, source, st, clock, last);
        }
    }
    let ghost n0 = data.nodes@;
    let ghost q0 = data.queue@;
    let state = match data.pop() {
        Some(state) => state,
        None => {
            proof {
                lemma_search_end(*access, data.nodes@, data.queue@, source, st, clock);
            }
            return (None, Ghost((st, clock)));
        },
    };
    proof {
        super::a_star::lemma_keyed_after_pop(n0, q0, data.nodes@, data.queue@, state, source, |v: u32| heuristic.value(v));
    }
    let v = state.value;
    if other.nodes[v as usize].is_expanded {
        let contact_cost = data.nodes[v as usize].cost.saturating_add(other.nodes[v as usize].cost);
        if contact_cost < best.0 {
            *best = (contact_cost, v);
        }
    }
    let ghost key = state.key as int;
    let r = expand(access, num_nodes, data, v, heuristic, Ghost(source), Ghost(st), Ghost(clock), Ghost(in_order), Ghost(key));
    (Some(state), r)
}

/// Bidirectional A* over a graph, stopping once the best route cannot improve.
pub struct BiAStar<'a> {
    pub graph: &'a Graph,
}

impl<'a> BiAStar<'a> {
    pub fn new(graph: &'a Graph) -> (search: BiAStar<'a>)
        ensures
            search.graph == graph,
    {
        BiAStar { graph }
    }

    /// Runs both searches from fresh data and answers with the route and the data of the
    /// forward and of the backward search.
    pub fn get_data<F: Heuristic, B: Heuristic>(
        &self,
        request: &RouteRequest,
        forward_heuristic: F,
        backward_heuristic: B,
    ) -> (result: (Option<Route>, Vec<DijkstraData>))
        requires
            self.graph.wf(),
            request.source < self.graph.num_nodes,
            request.target < self.graph.num_nodes,
            heuristics_cover(*self.graph, request.source, request.target, forward_heuristic, backward_heuristic),
        ensures
            result.1@.len() == 2,
            early_meeting(*self.graph, request.source, request.target, result.1@[0], result.1@[1], result.0),
            super::a_star::queued_by_estimate(result.1@[0].nodes@, result.1@[0].queue@.1, request.source, |v: u32| forward_heuristic.value(v)),
            super::a_star::queued_by_estimate(result.1@[1].nodes@, result.1@[1].queue@.1, request.target, |v: u32| backward_heuristic.value(v)),
            result.0 is None ==> ran_out(*self.graph, request.source, request.target, result.1@[0], result.1@[1]) || joined_route(
                self.graph.forward_edges,
                self.graph.backward_edges,
                request.source,
                request.target,
                result.1@[0].nodes@,
                result.1@[1].nodes@,
                result.0,
            ),
            count_expanded(result.1@[1].nodes@) <= count_expanded(result.1@[0].nodes@) <= count_expanded(result.1@[1].nodes@) + 1,
            forall|edges: Seq<Edge>|
                #[trigger] mirrored(*self.graph, edges) && zero_valued(&forward_heuristic, self.graph.num_nodes as nat) && zero_valued(
                    &backward_heuristic,
                    self.graph.num_nodes as nat,
                ) && short_edges(self.graph.forward_edges, self.graph.num_nodes as nat) && short_edges(
                    self.graph.backward_edges,
                    self.graph.num_nodes as nat,
                ) ==> no_cheaper_route(self.graph.forward_edges, request.source, request.target, result.0) || (result.0 is None && (
                full_search(self.graph.forward_edges, self.graph.num_nodes as nat, request.source, result.1@[0]) || full_search(
                    self.graph.backward_edges,
                    self.graph.num_nodes as nat,
                    request.target,
                    result.1@[1],
                ))),
            zero_valued(&forward_heuristic, self.graph.num_nodes as nat) && zero_valued(&backward_heuristic, self.graph.num_nodes as nat)
                && short_edges(self.graph.forward_edges, self.graph.num_nodes as nat) && short_edges(
                self.graph.backward_edges,
                self.graph.num_nodes as nat,
            ) ==> meeting_realized(self.graph.forward_edges, self.graph.backward_edges, request.source, request.target, result.0),
    {
        let mut forward_data = DijkstraData::new(self.graph.num_nodes as usize, request.source);
        let mut backward_data = DijkstraData::new(self.graph.num_nodes as usize, request.target);
        let route = self.get_route(request, forward_heuristic, backward_heuristic, &mut forward_data, &mut backward_data);
        let mut data = Vec::new();
        data.push(forward_data);
        data.push(backward_data);
        (route, data)
    }

    /// Expands one node of the forward search over the outgoing edges and one of the backward
    /// search over the incoming edges in turn, keeping the smallest cost of a node expanded by
    /// both, until the sum of the keys of the two nodes just expanded exceeds that cost plus the
    /// backward estimate of the target (`u32::MAX` where that sum does not fit). `None` as soon
    /// as one search has nothing left to expand; otherwise the route where both meet best. The
    /// two searches take turns: the forward one has expanded as many nodes as the backward one,
    /// or one more, and `None` comes from a search that ran out at its own turn, or from a best
    /// meeting that one search never reached. With
    /// zero heuristics and short edges, that route is met at its node, and, where the backward
    /// edges mirror the forward ones, no walk from the source to the target is cheaper.
    pub fn get_route<F: Heuristic, B: Heuristic>(
        &self,
        request: &RouteRequest,
        forward_heuristic: F,
        backward_heuristic: B,
        forward_data: &mut DijkstraData,
        backward_data: &mut DijkstraData,
    ) -> (route: Option<Route>)
        requires
            self.graph.wf(),
            request.source < self.graph.num_nodes,
            request.target < self.graph.num_nodes,
            fresh_start(*old(forward_data), self.graph.num_nodes as nat, request.source),
            fresh_start(*old(backward_data), self.graph.num_nodes as nat, request.target),
            heuristics_cover(*self.graph, request.source, request.target, forward_heuristic, backward_heuristic),
        ensures
            early_meeting(*self.graph, request.source, request.target, *final(forward_data), *final(backward_data), route),
            super::a_star::queued_by_estimate(
                final(forward_data).nodes@,
                final(forward_data).queue@.1,
                request.source,
                |v: u32| forward_heuristic.value(v),
            ),
            super::a_star::queued_by_estimate(
                final(backward_data).nodes@,
                final(backward_data).queue@.1,
                request.target,
                |v: u32| backward_heuristic.value(v),
            ),
            route is None ==> ran_out(*self.graph, request.source, request.target, *final(forward_data), *final(backward_data))
                || joined_route(
                self.graph.forward_edges,
                self.graph.backward_edges,
                request.source,
                request.target,
                final(forward_data).nodes@,
                final(backward_data).nodes@,
                route,
            ),
            count_expanded(final(backward_data).nodes@) <= count_expanded(final(forward_data).nodes@) <= count_expanded(
                final(backward_data).nodes@,
            ) + 1,
            forall|edges: Seq<Edge>|
                #[trigger] mirrored(*self.graph, edges) && zero_valued(&forward_heuristic, self.graph.num_nodes as nat) && zero_valued(
                    &backward_heuristic,
                    self.graph.num_nodes as nat,
                ) && short_edges(self.graph.forward_edges, self.graph.num_nodes as nat) && short_edges(
                    self.graph.backward_edges,
                    self.graph.num_nodes as nat,
                ) ==> no_cheaper_route(self.graph.forward_edges, request.source, request.target, route) || (route is None && (full_search(
                    self.graph.forward_edges,
                    self.graph.num_nodes as nat,
                    request.source,
                    *final(forward_data),
                ) || full_search(self.graph.backward_edges, self.graph.num_nodes as nat, request.target, *final(backward_data)))),
            zero_valued(&forward_heuristic, self.graph.num_nodes as nat) && zero_valued(&backward_heuristic, self.graph.num_nodes as nat)
                && short_edges(self.graph.forward_edges, self.graph.num_nodes as nat) && short_edges(
                self.graph.backward_edges,
                self.graph.num_nodes as nat,
            ) ==> meeting_realized(self.graph.forward_edges, self.graph.backward_edges, request.source, request.target, route),
    {
        let n = self.graph.num_nodes;
        let s = request.source;
        let t = request.target;
        let ghost fa = self.graph.forward_edges;
        let ghost ba = self.graph.backward_edges;
        proof {
            lemma_fresh_start(fa, *forward_data, n as nat, s);
            lemma_fresh_start(ba, *backward_data, n as nat, t);
            lemma_reaches_self(ba, t);
        }
        let mut best: (u32, u32) = (u32::MAX, u32::MAX);
        let pr_t = backward_heuristic.lower_bound(t);
        let ghost mut fst = zero_stamps(n as nat);
        let ghost mut fclock: nat = 1;
        let ghost mut bst = zero_stamps(n as nat);
        let ghost mut bclock: nat = 1;
        let mut exhausted = false;
        let ghost in_order = zero_valued(&forward_heuristic, n as nat) && zero_valued(&backward_heuristic, n as nat) && short_edges(
            fa,
            n as nat,
        ) && short_edges(ba, n as nat);
        let ghost mut flast: int = 0;
        let ghost mut blast: int = 0;
        proof {
            if in_order {
                assert(backward_heuristic.value(t) == 0);
            }
            lemma_order_start(fa, *forward_data, n as nat, s);
            lemma_order_start(ba, *backward_data, n as nat, t);
            super::a_star::lemma_keyed_start(*forward_data, n as nat, s, |v: u32| forward_heuristic.value(v));
            super::a_star::lemma_keyed_start(*backward_data, n as nat, t, |v: u32| backward_heuristic.value(v));
        }
        loop
            invariant_except_break
                !exhausted,
                count_expanded(backward_data.nodes@) == count_expanded(forward_data.nodes@),
                in_order ==> order_inv(fa, forward_data.nodes@, forward_data.queue@, s, flast, -1, 0),
                in_order ==> order_inv(ba, backward_data.nodes@, backward_data.queue@, t, blast, -1, 0),
            invariant
                super::a_star::queued_by_estimate(forward_data.nodes@, forward_data.queue@.1, s, |v: u32| forward_heuristic.value(v)),
                super::a_star::queued_by_estimate(backward_data.nodes@, backward_data.queue@.1, t, |v: u32| backward_heuristic.value(v)),
                in_order == (zero_valued(&forward_heuristic, n as nat) && zero_valued(&backward_heuristic, n as nat) && short_edges(
                    fa,
                    n as nat,
                ) && short_edges(ba, n as nat)),
                best.0 != u32::MAX ==> best.1 < n && contact_key(forward_data.nodes@, backward_data.nodes@, best.1 as int) <= best.0,
                in_order ==> pr_t == 0,
                self.graph.wf(),
                n == self.graph.num_nodes,
                fa == self.graph.forward_edges,
                ba == self.graph.backward_edges,
                s < n,
                t < n,
                forward_data.wf(),
                backward_data.wf(),
                forward_data.nodes@.len() == n,
                backward_data.nodes@.len() == n,
                search_inv(fa, forward_data.nodes@, forward_data.queue@, s, fst, fclock),
                bound_inv(fa, forward_data.nodes@, -1, 0),
                search_inv(ba, backward_data.nodes@, backward_data.queue@, t, bst, bclock),
                bound_inv(ba, backward_data.nodes@, -1, 0),
                heuristics_cover(*self.graph, s, t, forward_heuristic, backward_heuristic),
            ensures
                forward_data.wf(),
                backward_data.wf(),
                forward_data.nodes@.len() == n,
                backward_data.nodes@.len() == n,
                search_inv(fa, forward_data.nodes@, forward_data.queue@, s, fst, fclock),
                search_inv(ba, backward_data.nodes@, backward_data.queue@, t, bst, bclock),
                exhausted ==> ran_out(*self.graph, s, t, *forward_data, *backward_data),
                count_expanded(backward_data.nodes@) <= count_expanded(forward_data.nodes@) <= count_expanded(backward_data.nodes@) + 1,
                best.0 != u32::MAX ==> best.1 < n && contact_key(forward_data.nodes@, backward_data.nodes@, best.1 as int) <= best.0,
                !exhausted && in_order ==> order_inv(fa, forward_data.nodes@, forward_data.queue@, s, flast, -1, 0) && order_inv(
                    ba,
                    backward_data.nodes@,
                    backward_data.queue@,
                    t,
                    blast,
                    -1,
                    0,
                ) && best.0 < flast + blast && 0 <= flast <= u32::MAX && 0 <= blast <= u32::MAX,
            decreases 2 * (n as int) - count_expanded(forward_data.nodes@) - count_expanded(backward_data.nodes@),
        {
            proof {
                lemma_count_expanded_bound(forward_data.nodes@);
                lemma_count_expanded_bound(backward_data.nodes@);
                lemma_labels_backed(ba, backward_data.nodes@, backward_data.queue@, t, bst, bclock);
            }
            let (forward_state, r) = advance(
                &self.graph.forward_edges,
                n,
                forward_data,
                backward_data,
                &forward_heuristic,
                &mut best,
                Ghost(s),
                Ghost(fst),
                Ghost(fclock),
                Ghost(in_order),
                Ghost(flast),
            );
            proof {
                fst = r@.0;
                fclock = r@.1;
            }
            let forward_state = match forward_state {
                Some(state) => state,
                None => {
                    exhausted = true;
                    break;
                },
            };
            proof {
                flast = forward_state.key as int;
            }
            proof {
                lemma_count_expanded_bound(forward_data.nodes@);
                lemma_labels_backed(fa, forward_data.nodes@, forward_data.queue@, s, fst, fclock);
            }
            let (backward_state, r) = advance(
                &self.graph.backward_edges,
                n,
                backward_data,
                forward_data,
                &backward_heuristic,
                &mut best,
                Ghost(t),
                Ghost(bst),
                Ghost(bclock),
                Ghost(in_order),
                Ghost(blast),
            );
            proof {
                bst = r@.0;
                bclock = r@.1;
            }
            let backward_state = match backward_state {
                Some(state) => state,
                None => {
                    exhausted = true;
                    break;
                },
            };
            proof {
                blast = backward_state.key as int;
            }
            proof {
                lemma_count_expanded_bound(forward_data.nodes@);
                lemma_count_expanded_bound(backward_data.nodes@);
            }
            let bound = match best.0.checked_add(pr_t) {
                Some(b) => b,
                None => u32::MAX,
            };
            if forward_state.key as u64 + backward_state.key as u64 > bound as u64 {
                break;
            }
        }
        proof {
            lemma_labels_backed(fa, forward_data.nodes@, forward_data.queue@, s, fst, fclock);
            lemma_labels_backed(ba, backward_data.nodes@, backward_data.queue@, t, bst, bclock);
        }
        if exhausted {
            return None;
        }
        let route = construct_route(best.1, forward_data, backward_data, Ghost(fa), Ghost(ba), Ghost(s), Ghost(t));
        proof {
            if in_order {
                assert forall|v: u32| v < forward_data.nodes@.len() && forward_data.nodes@[v as int].cost != u32::MAX implies #[trigger] chain_costs(
                    fa,
                    forward_data.nodes@,
                    s,
                    v,
                ) by {
                    lemma_chain_cost(fa, forward_data.nodes@, s, fst, fclock, v);
                }
                assert forall|v: u32| v < backward_data.nodes@.len() && backward_data.nodes@[v as int].cost != u32::MAX implies #[trigger] chain_costs(
                    ba,
                    backward_data.nodes@,
                    t,
                    v,
                ) by {
                    lemma_chain_cost(ba, backward_data.nodes@, t, bst, bclock, v);
                }
                lemma_meeting_realized(fa, ba, forward_data.nodes@, backward_data.nodes@, s, t, route);
            }
            assert forall|edges: Seq<Edge>|
                #[trigger] mirrored(*self.graph, edges) && in_order implies no_cheaper_route(fa, s, t, route) by {
                lemma_early_answer(
                    *self.graph,
                    edges,
                    forward_data.nodes@,
                    backward_data.nodes@,
                    s,
                    t,
                    flast,
                    blast,
                    best.0 as int,
                    best.1 as int,
                    route,
                );
            }
        }
        route
    }
}

/// What a search keeps, in the order of its keys, once it has worked up to `last` with the
/// edges of every expanded node relaxed: labels for the `n` nodes with `start` at cost 0,
/// expanded nodes at most `last`, reached nodes that are not expanded at least `last`.
pub open spec fn settled_to(access: FastEdgeAccess, nodes: Seq<DijsktraEntry>, n: nat, start: u32, last: int) -> bool {
    &&& access.wf(n)
    &&& nodes.len() == n
    &&& start < n
    &&& nodes[start as int].cost == 0
    &&& 0 <= last <= u32::MAX
    &&& expanded_below(nodes, last)
    &&& edges_relaxed(access, nodes, last, -1, 0)
    &&& forall|v: int| 0 <= v < n && #[trigger] nodes[v].cost != u32::MAX && !nodes[v].is_expanded ==> nodes[v].cost >= last
}

/// The step of [`lemma_meeting_below`] along the walk: from a node `i` steps in whose prefix
/// costs less than `kf`, some node has a contact key of at most the walk's cost.
proof fn lemma_crossing(
    graph: FastGraph,
    edges: Seq<Edge>,
    f: Seq<DijsktraEntry>,
    b: Seq<DijsktraEntry>,
    kf: int,
    kb: int,
    p: Seq<u32>,
    ix: Seq<int>,
    i: int,
)
    requires
        mirrored(graph, edges),
        graph.wf(),
        settled_to(graph.forward_edges, f, graph.num_nodes as nat, p[0], kf),
        settled_to(graph.backward_edges, b, graph.num_nodes as nat, p.last(), kb),
        indexed_walk(graph.forward_edges, p, ix),
        indexed_cost(graph.forward_edges, p, ix) < kf + kb,
        0 <= i <= ix.len(),
        indexed_cost(graph.forward_edges, p.take(i + 1), ix.take(i)) < kf,
    ensures
        exists|v: int| 0 <= v < graph.num_nodes && #[trigger] contact_key(f, b, v) <= indexed_cost(graph.forward_edges, p, ix),
    decreases ix.len() - i,
{
    let fa = graph.forward_edges;
    let ba = graph.backward_edges;
    let n = graph.num_nodes as nat;
    let d = indexed_cost(fa, p, ix);
    lemma_walk_nodes(fa, n, p, ix);
    lemma_walk_split(fa, p, ix, i);
    let a = indexed_cost(fa, p.take(i + 1), ix.take(i));
    lemma_walk_bound_from(fa, f, p[0], kf, -1, p.take(i + 1), ix.take(i));
    let u = p[i];
    assert(u < n);
    assert(f[u as int].cost <= a);
    if i == ix.len() {
        assert(u == p.last());
        assert(ix.skip(i).len() == 0);
        assert(indexed_cost(fa, p.skip(i), ix.skip(i)) == 0);
        assert(contact_key(f, b, u as int) <= d);
    } else {
        let a2 = indexed_cost(fa, p.take(i + 2), ix.take(i + 1));
        let e = fa.out(u as int)[ix[i]];
        if a2 < kf {
            lemma_crossing(graph, edges, f, b, kf, kb, p, ix, i + 1);
        } else {
            let w = p[i + 1];
            lemma_walk_split(fa, p, ix, i + 1);
            let rest = p.skip(i + 1);
            let rx = ix.skip(i + 1);
            assert(rest[0] == w && w < n);
            lemma_reversed_walk(graph, edges, rest, rx);
            let jx = choose|jx: Seq<int>| #[trigger] indexed_walk(ba, rest.reverse(), jx) && indexed_cost(ba, rest.reverse(), jx) == indexed_cost(fa, rest, rx);
            let r = rest.reverse();
            assert(r[0] == p.last());
            assert(r.last() == w);
            lemma_walk_bound_from(ba, b, p.last(), kb, -1, r, jx);
            assert(b[w as int].cost <= indexed_cost(fa, rest, rx));
            assert(f[u as int].cost != u32::MAX);
            assert(f[u as int].is_expanded);
            assert(e.target == w);
            assert(f[w as int].cost <= path_cost(f[u as int].cost, e.cost));
            assert(contact_key(f, b, w as int) <= d);
        }
    }
}

/// Where both searches are settled, the forward one to `kf` and the backward one to `kb`, some
/// node has a contact key of at most the cost of any walk from the source to the target that
/// costs less than `kf + kb`.
proof fn lemma_meeting_below(
    graph: FastGraph,
    edges: Seq<Edge>,
    f: Seq<DijsktraEntry>,
    b: Seq<DijsktraEntry>,
    kf: int,
    kb: int,
    p: Seq<u32>,
    ix: Seq<int>,
)
    requires
        mirrored(graph, edges),
        graph.wf(),
        settled_to(graph.forward_edges, f, graph.num_nodes as nat, p[0], kf),
        settled_to(graph.backward_edges, b, graph.num_nodes as nat, p.last(), kb),
        indexed_walk(graph.forward_edges, p, ix),
        indexed_cost(graph.forward_edges, p, ix) < kf + kb,
    ensures
        exists|v: int| 0 <= v < graph.num_nodes && #[trigger] contact_key(f, b, v) <= indexed_cost(graph.forward_edges, p, ix),
{
    let fa = graph.forward_edges;
    let ba = graph.backward_edges;
    lemma_walk_split(fa, p, ix, 0);
    assert(ix.take(0).len() == 0);
    assert(indexed_cost(fa, p.take(1), ix.take(0)) == 0);
    if kf > 0 {
        lemma_crossing(graph, edges, f, b, kf, kb, p, ix, 0);
    } else {
        let s = p[0];
        lemma_reversed_walk(graph, edges, p, ix);
        let jx = choose|jx: Seq<int>| #[trigger] indexed_walk(ba, p.reverse(), jx) && indexed_cost(ba, p.reverse(), jx) == indexed_cost(fa, p, ix);
        lemma_walk_bound_from(ba, b, p.last(), kb, -1, p.reverse(), jx);
        assert(p.reverse().last() == s);
        assert(contact_key(f, b, s as int) <= indexed_cost(fa, p, ix));
    }
}

/// Where both searches are settled, the forward one from `source` to `kf` and the backward one
/// from `target` to `kb`, and some node has a contact key of at most `mu` (or `mu` is
/// `u32::MAX`) with `mu` below `kf + kb`, no walk from `source` to `target` is cheaper than the
/// route where the searches meet best.
proof fn lemma_early_answer(
    graph: FastGraph,
    edges: Seq<Edge>,
    f: Seq<DijsktraEntry>,
    b: Seq<DijsktraEntry>,
    source: u32,
    target: u32,
    kf: int,
    kb: int,
    mu: int,
    best_node: int,
    route: Option<Route>,
)
    requires
        mirrored(graph, edges),
        graph.wf(),
        settled_to(graph.forward_edges, f, graph.num_nodes as nat, source, kf),
        settled_to(graph.backward_edges, b, graph.num_nodes as nat, target, kb),
        mu < kf + kb,
        mu <= u32::MAX,
        mu < u32::MAX ==> 0 <= best_node < graph.num_nodes && contact_key(f, b, best_node) <= mu,
        exists|c: int| is_contact(f, b, c),
        route is Some == (f[(choose|c: int| is_contact(f, b, c))].cost != u32::MAX && b[(choose|c: int| is_contact(f, b, c))].cost != u32::MAX),
        route matches Some(r) ==> r.cost == contact_key(f, b, choose|c: int| is_contact(f, b, c)),
    ensures
        no_cheaper_route(graph.forward_edges, source, target, route),
{
    let c = choose|c: int| is_contact(f, b, c);
    let fa = graph.forward_edges;
    assert forall|p: Seq<u32>, ix: Seq<int>|
        #[trigger] indexed_walk(fa, p, ix) && p[0] == source && p.last() == target implies indexed_cost(fa, p, ix) >= match route {
            Some(r) => r.cost as int,
            None => u32::MAX as int,
        } by {
        let d = indexed_cost(fa, p, ix);
        if d < kf + kb {
            lemma_meeting_below(graph, edges, f, b, kf, kb, p, ix);
            let v = choose|v: int| 0 <= v < graph.num_nodes && #[trigger] contact_key(f, b, v) <= d;
            assert(contact_key(f, b, v) >= contact_key(f, b, c));
        } else if mu < u32::MAX {
            assert(contact_key(f, b, best_node) >= contact_key(f, b, c));
        }
    }
}

} // verus!

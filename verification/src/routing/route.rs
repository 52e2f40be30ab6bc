//! Route requests, routes and the interface of routing algorithms.
use vstd::prelude::*;
use vstd::string::StringSliceAdditionalSpecFns;

use super::dijkstra_data::DijkstraData;
use super::fast_graph::{FastEdge, FastEdgeAccess, FastGraph};
use super::simple_algorithms::ch_bi_dijkstra::{indexed_cost, indexed_walk};

verus! {

/// A request for a route from `source` to `target`.
#[derive(Clone, Copy, PartialEq, Eq, Structural, Debug)]
pub struct RouteRequest {
    pub source: u32,
    pub target: u32,
}

/// A route: the nodes it visits, in order, and its cost.
pub struct Route {
    pub nodes: Vec<u32>,
    pub cost: u32,
}

/// A route request together with the cost that a correct route must have, if known.
pub struct RouteValidationRequest {
    pub request: RouteRequest,
    pub cost: Option<u32>,
}

/// The answer of a routing algorithm: the route, if one was found, and the search data of
/// every search that was run.
pub struct RouteResponse {
    pub route: Option<Route>,
    pub data: Vec<DijkstraData>,
}

impl Route {
    /// The route is a walk of `access` from `source` to `target`.
    pub open spec fn walks(&self, access: FastEdgeAccess, source: u32, target: u32) -> bool {
        &&& access.is_walk(self.nodes@)
        &&& self.nodes@[0] == source
        &&& self.nodes@.last() == target
    }
}

/// The interface of routing algorithms: a route for a request that the algorithm can serve.
pub trait Routing {
    /// Whether the algorithm can serve `route_request`.
    spec fn serves(&self, route_request: &RouteRequest) -> bool;

    fn get_route(&self, route_request: &RouteRequest) -> (response: RouteResponse)
        requires
            self.serves(route_request),
    ;
}

/// The request from the target of `request` to its source.
pub open spec fn reversed_request(request: RouteRequest) -> RouteRequest {
    RouteRequest { source: request.target, target: request.source }
}

/// Reversing a request twice gives the request back.
pub proof fn lemma_reversed_twice(request: RouteRequest)
    ensures
        reversed_request(reversed_request(request)) == request,
{
}

/// No node below `n` has two edges of `access` to the same node.
pub open spec fn simple_edges(access: FastEdgeAccess, n: nat) -> bool {
    forall|v: int, i: int, j: int|
        0 <= v < n && 0 <= i < access.out(v).len() && 0 <= j < access.out(v).len() && #[trigger] access.out(v)[i].target
            == #[trigger] access.out(v)[j].target ==> i == j
}

/// The first edge to `target` is edge `i` where no edge before it leads there.
proof fn lemma_first_cost_at(edges: Seq<FastEdge>, target: u32, i: int)
    requires
        0 <= i < edges.len(),
        edges[i].target == target,
        forall|j: int| 0 <= j < i ==> #[trigger] edges[j].target != target,
    ensures
        first_cost(edges, target) == Some(edges[i].cost),
    decreases i,
{
    if i > 0 {
        assert forall|j: int| 0 <= j < i - 1 implies #[trigger] edges.drop_first()[j].target != target by {
            assert(edges.drop_first()[j] == edges[j + 1]);
        }
        lemma_first_cost_at(edges.drop_first(), target, i - 1);
    }
}

/// In a graph without parallel edges, a walk of `access` that takes some edges has an edge
/// between every two neighbouring nodes, and the first such edges cost what the walk costs:
/// [`Route::is_valid`] accepts a route of such a walk and its cost for the walk's ends.
pub proof fn lemma_walk_is_valid(access: FastEdgeAccess, n: nat, p: Seq<u32>, ix: Seq<int>)
    requires
        access.wf(n),
        simple_edges(access, n),
        indexed_walk(access, p, ix),
        p[0] < n,
    ensures
        forall|k: int| 0 <= k < p.len() ==> #[trigger] p[k] < n,
        edges_exist(access, p),
        walk_cost(access, p) == indexed_cost(access, p, ix),
    decreases ix.len(),
{
    crate::routing::shortest::lemma_walk_nodes(access, n, p, ix);
    if ix.len() > 0 {
        let p1 = p.drop_last();
        let ix1 = ix.drop_last();
        assert forall|k: int| 0 <= k < ix1.len() implies 0 <= #[trigger] ix1[k] < access.out(p1[k] as int).len() && access.out(p1[k] as int)[ix1[k]].target
            == p1[k + 1] by {
            assert(ix1[k] == ix[k] && p1[k] == p[k] && p1[k + 1] == p[k + 1]);
        }
        lemma_walk_is_valid(access, n, p1, ix1);
        let m = ix.len() - 1;
        let u = p[m];
        let out = access.out(u as int);
        assert(u < n);
        assert forall|j: int| 0 <= j < ix[m] implies #[trigger] out[j].target != p.last() by {
            if out[j].target == p.last() {
                assert(out[j].target == out[ix[m]].target);
            }
        }
        lemma_first_cost_at(out, p.last(), ix[m]);
        assert(p[p.len() - 2] == u);
        assert forall|i: int| 0 <= i < p.len() - 1 implies #[trigger] first_cost(access.out(p[i] as int), p[i + 1]) is Some by {
            if i < m {
                assert(p[i] == p1[i] && p[i + 1] == p1[i + 1]);
                assert(first_cost(access.out(p1[i] as int), p1[i + 1]) is Some);
            }
        }
    }
}

/// The cost of the first edge of `edges` that leads to `target`; `None` when none does.
pub open spec fn first_cost(edges: Seq<FastEdge>, target: u32) -> Option<u32>
    decreases edges.len(),
{
    if edges.len() == 0 {
        None
    } else if edges[0].target == target {
        Some(edges[0].cost)
    } else {
        first_cost(edges.drop_first(), target)
    }
}

/// Every node of `nodes` but the last has an edge of `access` to the next one.
pub open spec fn edges_exist(access: FastEdgeAccess, nodes: Seq<u32>) -> bool {
    forall|i: int| 0 <= i < nodes.len() - 1 ==> #[trigger] first_cost(access.out(nodes[i] as int), nodes[i + 1]) is Some
}

/// The cost of walking `nodes`: for each node but the last, the cost of its first edge to the
/// next node.
pub open spec fn walk_cost(access: FastEdgeAccess, nodes: Seq<u32>) -> int
    decreases nodes.len(),
{
    if nodes.len() < 2 {
        0
    } else {
        walk_cost(access, nodes.drop_last()) + match first_cost(access.out(nodes[nodes.len() - 2] as int), nodes.last()) {
            Some(c) => c as int,
            None => 0,
        }
    }
}

/// The walk cost of a prefix of `nodes` is at most that of a longer prefix.
pub proof fn lemma_walk_cost_prefix(access: FastEdgeAccess, nodes: Seq<u32>, i: int, j: int)
    requires
        0 <= i <= j <= nodes.len(),
    ensures
        walk_cost(access, nodes.take(i)) <= walk_cost(access, nodes.take(j)),
    decreases j - i,
{
    if i < j {
        lemma_walk_cost_prefix(access, nodes, i, j - 1);
        assert(nodes.take(j).drop_last() =~= nodes.take(j - 1));
    }
}

/// The cost of the first edge in `edges` that leads to `target`.
fn find_cost(edges: &[FastEdge], target: u32) -> (cost: Option<u32>)
    ensures
        cost == first_cost(edges@, target),
{
    let mut j: usize = 0;
    assert(edges@.skip(0) =~= edges@);
    while j < edges.len()
        invariant
            j <= edges@.len(),
            first_cost(edges@, target) == first_cost(edges@.skip(j as int), target),
        decreases edges@.len() - j,
    {
        assert(edges@.skip(j as int)[0] == edges@[j as int]);
        if edges[j].target == target {
            return Some(edges[j].cost);
        }
        assert(edges@.skip(j as int).drop_first() =~= edges@.skip(j + 1));
        j += 1;
    }
    None
}

/// The fields of `s` separated by commas.
pub open spec fn split_fields(s: Seq<u8>) -> Seq<Seq<u8>>
    decreases s.len(),
{
    if s.len() == 0 {
        seq![Seq::empty()]
    } else {
        let rest = split_fields(s.drop_first());
        if s[0] == 44u8 {
            seq![Seq::empty()] + rest
        } else {
            rest.update(0, seq![s[0]] + rest[0])
        }
    }
}

/// The value of a string of decimal digits.
pub open spec fn decimal_value(digits: Seq<u8>) -> int
    decreases digits.len(),
{
    if digits.len() == 0 {
        0
    } else {
        decimal_value(digits.drop_last()) * 10 + (digits.last() - 48)
    }
}

/// Whether `b` is a decimal digit.
pub open spec fn is_digit(b: u8) -> bool {
    48 <= b <= 57
}

/// `s` without a leading `+`, if it has one.
pub open spec fn unsigned_digits(s: Seq<u8>) -> Seq<u8> {
    if s.len() > 0 && s[0] == 43u8 { s.drop_first() } else { s }
}

/// Whether every byte of `s` is a decimal digit.
pub open spec fn all_digits(s: Seq<u8>) -> bool {
    forall|i: int| 0 <= i < s.len() ==> #[trigger] is_digit(s[i])
}

/// The `u32` that `s` denotes: an optional `+` followed by at least one decimal digit, with a
/// value that fits in a `u32`; `None` for anything else.
pub open spec fn parse_u32(s: Seq<u8>) -> Option<u32> {
    let digits = unsigned_digits(s);
    if digits.len() > 0 && all_digits(digits) && decimal_value(digits) <= u32::MAX {
        Some(decimal_value(digits) as u32)
    } else {
        None
    }
}

/// The value of a string of digits is not negative.
proof fn lemma_decimal_nonneg(digits: Seq<u8>)
    requires
        forall|k: int| 0 <= k < digits.len() ==> #[trigger] is_digit(digits[k]),
    ensures
        decimal_value(digits) >= 0,
    decreases digits.len(),
{
    if digits.len() > 0 {
        let d = digits.drop_last();
        assert forall|k: int| 0 <= k < d.len() implies #[trigger] is_digit(d[k]) by {
            assert(d[k] == digits[k]);
        }
        lemma_decimal_nonneg(d);
        assert(is_digit(digits[digits.len() - 1]));
    }
}

/// The value of a string of digits is at least that of each of its prefixes.
proof fn lemma_decimal_prefix(digits: Seq<u8>, i: int)
    requires
        0 <= i <= digits.len(),
        forall|k: int| 0 <= k < digits.len() ==> #[trigger] is_digit(digits[k]),
    ensures
        decimal_value(digits.take(i)) <= decimal_value(digits),
    decreases digits.len(),
{
    if i == digits.len() {
        assert(digits.take(i) =~= digits);
    } else {
        let d = digits.drop_last();
        assert forall|k: int| 0 <= k < d.len() implies #[trigger] is_digit(d[k]) by {
            assert(d[k] == digits[k]);
        }
        assert(d.take(i) =~= digits.take(i));
        lemma_decimal_prefix(d, i);
        lemma_decimal_nonneg(d);
        assert(is_digit(digits[digits.len() - 1]));
    }
}

/// Parses `bytes[start..end]` as a `u32`.
pub(crate) fn parse_field(bytes: &[u8], start: usize, end: usize) -> (value: Option<u32>)
    requires
        start <= end <= bytes@.len(),
    ensures
        value == parse_u32(bytes@.subrange(start as int, end as int)),
{
    let ghost s = bytes@.subrange(start as int, end as int);
    let mut i = start;
    if i < end && bytes[i] == 43u8 {
        i += 1;
    }
    let ghost digits = unsigned_digits(s);
    assert(digits =~= bytes@.subrange(i as int, end as int));
    if i == end {
        return None;
    }
    let first = i;
    let mut value: u64 = 0;
    while i < end
        invariant
            first <= i <= end <= bytes@.len(),
            s == bytes@.subrange(start as int, end as int),
            digits == unsigned_digits(s),
            digits == bytes@.subrange(first as int, end as int),
            forall|k: int| first <= k < i ==> #[trigger] is_digit(bytes@[k]),
            value == decimal_value(bytes@.subrange(first as int, i as int)),
            value <= u32::MAX,
        decreases end - i,
    {
        let b = bytes[i];
        assert(digits[i - first] == bytes@[i as int]);
        if b < 48u8 || b > 57u8 {
            assert(!is_digit(digits[i - first]));
            assert(parse_u32(s) is None);
            return None;
        }
        assert(bytes@.subrange(first as int, i + 1).drop_last() =~= bytes@.subrange(first as int, i as int));
        value = value * 10 + (b - 48u8) as u64;
        i += 1;
        if value > 4294967295u64 {
            proof {
                assert forall|k: int| 0 <= k < i - first implies #[trigger] is_digit(bytes@.subrange(first as int, i as int)[k]) by {
                    assert(is_digit(bytes@[first + k]));
                }
                if all_digits(digits) {
                    assert(digits.take(i - first) =~= bytes@.subrange(first as int, i as int));
                    lemma_decimal_prefix(digits, i - first);
                }
                assert(parse_u32(s) is None);
            }
            return None;
        }
    }
    assert(bytes@.subrange(first as int, end as int) =~= digits);
    assert forall|k: int| 0 <= k < digits.len() implies #[trigger] is_digit(digits[k]) by {
        assert(is_digit(bytes@[first + k]));
    }
    Some(value as u32)
}

/// The end of the field that starts at `start`: the index of the next comma, or the length.
fn field_end(bytes: &[u8], start: usize) -> (end: usize)
    requires
        start <= bytes@.len(),
    ensures
        start <= end <= bytes@.len(),
        end == bytes@.len() || bytes@[end as int] == 44u8,
        forall|k: int| start <= k < end ==> bytes@[k] != 44u8,
{
    let mut end = start;
    while end < bytes.len() && bytes[end] != 44u8
        invariant
            start <= end <= bytes@.len(),
            forall|k: int| start <= k < end ==> bytes@[k] != 44u8,
        decreases bytes@.len() - end,
    {
        end += 1;
    }
    end
}

/// The fields of `s` are its first field, up to the first comma, followed by the fields of what
/// follows that comma; a string without a comma is one field.
proof fn lemma_split_first(s: Seq<u8>, end: int)
    requires
        0 <= end <= s.len(),
        end == s.len() || s[end] == 44u8,
        forall|k: int| 0 <= k < end ==> s[k] != 44u8,
    ensures
        split_fields(s).len() >= 1,
        split_fields(s)[0] == s.take(end),
        end == s.len() ==> split_fields(s).len() == 1,
        end < s.len() ==> split_fields(s).drop_first() == split_fields(s.skip(end + 1)),
    decreases end,
{
    if s.len() == 0 {
        assert(s.take(end) =~= Seq::<u8>::empty());
    } else if end == 0 {
        assert(s.take(end) =~= Seq::<u8>::empty());
        assert(s.drop_first() =~= s.skip(1));
        assert((seq![Seq::<u8>::empty()] + split_fields(s.drop_first())).drop_first() =~= split_fields(s.drop_first()));
    } else {
        let t = s.drop_first();
        lemma_split_first(t, end - 1);
        let rest = split_fields(t);
        assert(seq![s[0]] + t.take(end - 1) =~= s.take(end));
        if end < s.len() {
            assert(t.skip(end) =~= s.skip(end + 1));
            assert(rest.update(0, seq![s[0]] + rest[0]).drop_first() =~= rest.drop_first());
        }
    }
}

impl RouteValidationRequest {
    /// Reads `source,target,cost` from `str`, split at its commas: `None` unless the first two
    /// fields are `u32`s; the cost is the third field as a `u32`, or `None` where it is not one.
    /// Fields after the third are ignored.
    pub fn from_str(str: &str) -> (request: Option<RouteValidationRequest>)
        requires
            split_fields(str.spec_bytes()).len() >= 3,
        ensures
            ({
                let fields = split_fields(str.spec_bytes());
                match request {
                    Some(r) => {
                        &&& parse_u32(fields[0]) == Some(r.request.source)
                        &&& parse_u32(fields[1]) == Some(r.request.target)
                        &&& r.cost == parse_u32(fields[2])
                    },
                    None => parse_u32(fields[0]) is None || parse_u32(fields[1]) is None,
                }
            }),
    {
        let bytes = str.as_bytes();
        let n = bytes.len();
        let ghost s = bytes@;
        assert(n == s.len());
        let end0 = field_end(bytes, 0);
        proof {
            assert(s.skip(0) =~= s);
            lemma_split_first(s, end0 as int);
            assert(s.take(end0 as int) =~= s.subrange(0, end0 as int));
            assert(split_fields(s).len() >= 3);
            assert(end0 < s.len());
        }
        let start1 = end0 + 1;
        let end1 = field_end(bytes, start1);
        proof {
            let t = s.skip(start1 as int);
            lemma_split_first(t, end1 - start1);
            assert(t.take(end1 - start1) =~= s.subrange(start1 as int, end1 as int));
            assert(split_fields(t).len() >= 2);
            assert(end1 < s.len());
        }
        let start2 = end1 + 1;
        let end2 = field_end(bytes, start2);
        proof {
            let t = s.skip(start1 as int);
            assert(t.skip(end1 - start1 + 1) =~= s.skip(start2 as int));
            let u = s.skip(start2 as int);
            lemma_split_first(u, end2 - start2);
            assert(u.take(end2 - start2) =~= s.subrange(start2 as int, end2 as int));
        }
        let cost = parse_field(bytes, start2, end2);
        let source = match parse_field(bytes, 0, end0) {
            Some(v) => v,
            None => return None,
        };
        let target = match parse_field(bytes, start1, end1) {
            Some(v) => v,
            None => return None,
        };
        Some(RouteValidationRequest { request: RouteRequest { source, target }, cost })
    }
}

impl Route {
    /// Whether the route starts at the request's source, ends at its target, and its cost is
    /// the cost of walking its nodes, taking for each step the first edge to the next node.
    #[verifier::rlimit(30)]
    pub fn is_valid(&self, graph: &FastGraph, request: &RouteRequest) -> (valid: bool)
        requires
            graph.wf(),
            self.nodes@.len() > 0,
            self.nodes@.len() > 1 ==> forall|i: int| 0 <= i < self.nodes@.len() ==> #[trigger] self.nodes@[i] < graph.num_nodes,
            edges_exist(graph.forward_edges, self.nodes@),
            walk_cost(graph.forward_edges, self.nodes@) <= u32::MAX,
        ensures
            valid == (walk_cost(graph.forward_edges, self.nodes@) == self.cost && self.nodes@[0] == request.source
                && self.nodes@.last() == request.target),
    {
        let ghost access = graph.forward_edges;
        let ghost p = self.nodes@;
        let mut true_cost: u32 = 0;
        let mut i: usize = 1;
        assert(p.take(1).len() == 1);
        while i < self.nodes.len()
            invariant
                graph.wf(),
                p == self.nodes@,
                access == graph.forward_edges,
                1 <= i <= p.len(),
                p.len() > 1 ==> forall|k: int| 0 <= k < p.len() ==> #[trigger] p[k] < graph.num_nodes,
                edges_exist(access, p),
                walk_cost(access, p) <= u32::MAX,
                true_cost == walk_cost(access, p.take(i as int)),
            decreases p.len() - i,
        {
            let u = self.nodes[i - 1];
            let v = self.nodes[i];
            let edges = graph.outgoing_edges(u);
            let found = find_cost(edges, v);
            let ghost k = i - 1;
            assert(first_cost(access.out(p[k] as int), p[k + 1]) is Some);
            let c = match found {
                Some(c) => c,
                None => 0,
            };
            proof {
                let q = p.take(i + 1);
                assert(q.drop_last() =~= p.take(i as int));
                assert(q[q.len() - 2] == u && q.last() == v);
                lemma_walk_cost_prefix(access, p, i + 1, p.len() as int);
                assert(p.take(p.len() as int) =~= p);
            }
            true_cost = true_cost + c;
            i += 1;
        }
        assert(p.take(p.len() as int) =~= p);
        let first = self.nodes[0];
        let last = self.nodes[self.nodes.len() - 1];
        true_cost == self.cost && first == request.source && last == request.target
    }
}

impl RouteRequest {
    /// The request with source and target swapped.
    pub fn reversed(&self) -> (request: RouteRequest)
        ensures
            request == reversed_request(*self),
    {
        RouteRequest { source: self.target, target: self.source }
    }
}

} // verus!

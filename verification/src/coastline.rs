//! Closing coastlines: open ways (first node differs from last) are joined, end to start, into
//! longer ways.
use vstd::prelude::*;

verus! {

/// Whether way `c` is open: its first node differs from its last.
pub open spec fn is_open(c: Seq<i64>) -> bool {
    c[0] != c.last()
}

/// The ways of `s` that are closed, in order.
pub open spec fn closed_ways(s: Seq<Seq<i64>>) -> Seq<Seq<i64>>
    decreases s.len(),
{
    if s.len() == 0 {
        Seq::empty()
    } else {
        let r = closed_ways(s.drop_last());
        if is_open(s.last()) { r } else { r.push(s.last()) }
    }
}

/// The ways of `s` that are open, in order.
pub open spec fn open_ways(s: Seq<Seq<i64>>) -> Seq<Seq<i64>>
    decreases s.len(),
{
    if s.len() == 0 {
        Seq::empty()
    } else {
        let r = open_ways(s.drop_last());
        if is_open(s.last()) { r.push(s.last()) } else { r }
    }
}

/// No two neighbouring nodes of `c` are the same.
pub open spec fn no_repeats(c: Seq<i64>) -> bool {
    forall|i: int| 0 <= i < c.len() - 1 ==> #[trigger] c[i] != c[i + 1]
}

/// The views of a list of ways.
pub open spec fn ways(s: Seq<Vec<i64>>) -> Seq<Seq<i64>> {
    s.map_values(|c: Vec<i64>| c@)
}

/// `c` with each run of equal neighbouring nodes kept once.
pub open spec fn dedup(c: Seq<i64>) -> Seq<i64>
    decreases c.len(),
{
    if c.len() == 0 {
        Seq::empty()
    } else {
        let r = dedup(c.drop_last());
        if r.len() > 0 && r.last() == c.last() { r } else { r.push(c.last()) }
    }
}

/// The ways of `sorted` are ordered by their first node.
pub open spec fn sorted_by_first(sorted: Seq<Seq<i64>>) -> bool {
    forall|i: int, j: int| 0 <= i < j < sorted.len() ==> #[trigger] sorted[i][0] <= #[trigger] sorted[j][0]
}

/// The ways of `parts` follow each other: there is at least one, and each starts where the one
/// before ends.
pub open spec fn chained(parts: Seq<Seq<i64>>) -> bool {
    &&& parts.len() > 0
    &&& forall|k: int| 0 <= k < parts.len() - 1 ==> (#[trigger] parts[k]).last() == parts[k + 1][0]
}

/// `out` closes the coastlines `input` by the chains of open ways `chains`: the closed ways of
/// `input` come first, in their order; then, for each chain, the ways of the chain joined end to
/// start, with equal neighbouring nodes kept once; every open way of `input` is used in exactly
/// one chain, as often as it occurs; and no way of a chain starts where an earlier chain ends.
pub open spec fn closing(input: Seq<Seq<i64>>, out: Seq<Seq<i64>>, chains: Seq<Seq<Seq<i64>>>) -> bool {
    let c = closed_ways(input).len() as int;
    &&& out.len() == c + chains.len()
    &&& out.take(c) == closed_ways(input)
    &&& forall|i: int| 0 <= i < chains.len() ==> chained(#[trigger] chains[i]) && out[c + i] == dedup(chains[i].flatten())
    &&& chains.flatten().to_multiset() == open_ways(input).to_multiset()
    &&& forall|i: int, j: int, k: int|
        0 <= i < j < chains.len() && 0 <= k < chains[j].len() ==> (#[trigger] chains[j][k])[0] != (#[trigger] chains[i]).last().last()
}

/// The index of a way of `open` that starts at `node`, where `open` is ordered by first node;
/// `None` where no way starts there.
fn find_starting_at(open: &Vec<Vec<i64>>, node: i64) -> (found: Option<usize>)
    requires
        sorted_by_first(ways(open@)),
        forall|i: int| 0 <= i < open@.len() ==> (#[trigger] open@[i])@.len() > 0,
    ensures
        found matches Some(i) ==> i < open@.len() && open@[i as int]@[0] == node,
        found is None ==> forall|i: int| 0 <= i < open@.len() ==> (#[trigger] open@[i])@[0] != node,
{
    let mut lo: usize = 0;
    let mut hi: usize = open.len();
    while lo < hi
        invariant
            lo <= hi <= open@.len(),
            sorted_by_first(ways(open@)),
            forall|i: int| 0 <= i < open@.len() ==> (#[trigger] open@[i])@.len() > 0,
            forall|i: int| 0 <= i < lo ==> (#[trigger] open@[i])@[0] < node,
            forall|i: int| hi <= i < open@.len() ==> (#[trigger] open@[i])@[0] > node,
        decreases hi - lo,
    {
        let mid = lo + (hi - lo) / 2;
        assert(ways(open@)[mid as int] == open@[mid as int]@);
        let first = open[mid][0];
        if first == node {
            return Some(mid);
        } else if first < node {
            proof {
                assert forall|i: int| 0 <= i < mid + 1 implies (#[trigger] open@[i])@[0] < node by {
                    if i < mid {
                        assert(ways(open@)[i] == open@[i]@);
                        assert(ways(open@)[i][0] <= ways(open@)[mid as int][0]);
                    }
                }
            }
            lo = mid + 1;
        } else {
            proof {
                assert forall|i: int| mid <= i < open@.len() implies (#[trigger] open@[i])@[0] > node by {
                    if i > mid {
                        assert(ways(open@)[i] == open@[i]@);
                        assert(ways(open@)[mid as int][0] <= ways(open@)[i][0]);
                    }
                }
            }
            hi = mid;
        }
    }
    None
}

/// `c` with each run of equal neighbouring nodes kept once.
fn dedup_way(c: &Vec<i64>) -> (deduped: Vec<i64>)
    ensures
        deduped@ == dedup(c@),
        no_repeats(deduped@),
{
    let mut out: Vec<i64> = Vec::new();
    let mut i: usize = 0;
    while i < c.len()
        invariant
            i <= c@.len(),
            out@ == dedup(c@.take(i as int)),
            no_repeats(out@),
        decreases c@.len() - i,
    {
        assert(c@.take(i + 1).drop_last() =~= c@.take(i as int));
        assert(c@.take(i + 1).last() == c@[i as int]);
        if out.len() == 0 || out[out.len() - 1] != c[i] {
            out.push(c[i]);
        }
        i += 1;
    }
    assert(c@.take(c@.len() as int) =~= c@);
    out
}

/// Closes coastlines: the closed ways stay as they are, in their order; the open ways, ordered
/// by first node, are taken from the back one by one and each is extended, as long as one of
/// the remaining open ways starts where it ends, by appending that way; equal neighbouring
/// nodes of the joined way are then kept once, and the way follows the closed ones. So the
/// result closes the input by some chains of its open ways (see [`closing`]).
pub fn close_coastline(coastlines: Vec<Vec<i64>>) -> (closed: Vec<Vec<i64>>)
    requires
        forall|i: int| 0 <= i < coastlines@.len() ==> (#[trigger] coastlines@[i])@.len() > 0,
    ensures
        closed@.len() <= coastlines@.len(),
        ways(closed@).take(closed_ways(ways(coastlines@)).len() as int) == closed_ways(ways(coastlines@)),
        forall|i: int| closed_ways(ways(coastlines@)).len() <= i < closed@.len() ==> (#[trigger] closed@[i])@.len() > 0 && no_repeats(closed@[i]@),
        exists|chains: Seq<Seq<Seq<i64>>>| #[trigger] closing(ways(coastlines@), ways(closed@), chains),
{
    let ghost input = ways(coastlines@);
    let mut open_coastlines: Vec<Vec<i64>> = Vec::new();
    let mut closed_coastlines: Vec<Vec<i64>> = Vec::new();
    let mut k: usize = 0;
    assert(ways(open_coastlines@) =~= open_ways(input.take(0)));
    while k < coastlines.len()
        invariant
            input == ways(coastlines@),
            k <= coastlines@.len(),
            forall|i: int| 0 <= i < coastlines@.len() ==> (#[trigger] coastlines@[i])@.len() > 0,
            ways(closed_coastlines@) == closed_ways(input.take(k as int)),
            open_coastlines@.len() + closed_coastlines@.len() == k,
            sorted_by_first(ways(open_coastlines@)),
            forall|i: int| 0 <= i < open_coastlines@.len() ==> (#[trigger] open_coastlines@[i])@.len() > 0,
            ways(open_coastlines@).to_multiset() == open_ways(input.take(k as int)).to_multiset(),
        decreases coastlines@.len() - k,
    {
        let coastline = coastlines[k].clone();
        proof {
            assert(coastline@ == input[k as int]);
            assert(input.take(k + 1).drop_last() =~= input.take(k as int));
            assert(input.take(k + 1).last() == input[k as int]);
        }
        let first = coastline[0];
        let last = coastline[coastline.len() - 1];
        if first != last {
            let mut p: usize = 0;
            while p < open_coastlines.len() && open_coastlines[p][0] <= first
                invariant
                    p <= open_coastlines@.len(),
                    forall|i: int| 0 <= i < open_coastlines@.len() ==> (#[trigger] open_coastlines@[i])@.len() > 0,
                    forall|i: int| 0 <= i < p ==> (#[trigger] open_coastlines@[i])@[0] <= first,
                decreases open_coastlines@.len() - p,
            {
                p += 1;
            }
            let ghost before = open_coastlines@;
            proof {
                assert forall|i: int| p <= i < before.len() implies (#[trigger] before[i])@[0] > first by {
                    assert(ways(before)[p as int] == before[p as int]@);
                    assert(ways(before)[i] == before[i]@);
                    if i > p {
                        assert(ways(before)[p as int][0] <= ways(before)[i][0]);
                    }
                }
            }
            open_coastlines.insert(p, coastline);
            proof {
                assert(ways(open_coastlines@) =~= ways(before).insert(p as int, coastline@));
                vstd::seq_lib::to_multiset_insert(ways(before), p as int, coastline@);
                vstd::seq_lib::to_multiset_build(open_ways(input.take(k as int)), coastline@);
                let w = ways(open_coastlines@);
                assert forall|i: int, j: int| 0 <= i < j < w.len() implies #[trigger] w[i][0] <= #[trigger] w[j][0] by {
                    assert(w[i] == open_coastlines@[i]@ && w[j] == open_coastlines@[j]@);
                    if j < p {
                        assert(open_coastlines@[i] == before[i] && open_coastlines@[j] == before[j]);
                        assert(ways(before)[i] == before[i]@ && ways(before)[j] == before[j]@);
                    } else if j == p {
                        assert(open_coastlines@[i] == before[i]);
                    } else if i < p {
                        assert(open_coastlines@[i] == before[i] && open_coastlines@[j] == before[j - 1]);
                    } else if i == p {
                        assert(open_coastlines@[j] == before[j - 1]);
                    } else {
                        assert(open_coastlines@[i] == before[i - 1] && open_coastlines@[j] == before[j - 1]);
                        assert(ways(before)[i - 1] == before[i - 1]@ && ways(before)[j - 1] == before[j - 1]@);
                    }
                }
                assert forall|i: int| 0 <= i < open_coastlines@.len() implies (#[trigger] open_coastlines@[i])@.len() > 0 by {
                    if i < p {
                        assert(open_coastlines@[i] == before[i]);
                    } else if i > p {
                        assert(open_coastlines@[i] == before[i - 1]);
                    }
                }
                assert(is_open(input[k as int]));
            }
        } else {
            let ghost before = closed_coastlines@;
            closed_coastlines.push(coastline);
            proof {
                assert(ways(closed_coastlines@) =~= ways(before).push(coastline@));
                assert(!is_open(input[k as int]));
            }
        }
        k += 1;
    }
    assert(input.take(input.len() as int) =~= input);
    let ghost prefix = ways(closed_coastlines@);
    let ghost count = closed_coastlines@.len();
    let ghost mut chains: Seq<Seq<Seq<i64>>> = Seq::empty();
    assert(chains.flatten() =~= Seq::<Seq<i64>>::empty());
    proof {
        vstd::seq_lib::lemma_multiset_commutative(chains.flatten(), ways(open_coastlines@));
        assert(chains.flatten() + ways(open_coastlines@) =~= ways(open_coastlines@));
    }
    while open_coastlines.len() > 0
        invariant
            input == ways(coastlines@),
            prefix == closed_ways(input),
            closed_coastlines@.len() == count + chains.len(),
            forall|i: int| 0 <= i < chains.len() ==> chained(#[trigger] chains[i]) && ways(closed_coastlines@)[count + i] == dedup(
                chains[i].flatten(),
            ),
            chains.flatten().to_multiset().add(ways(open_coastlines@).to_multiset()) == open_ways(input).to_multiset(),
            forall|i: int, j: int, k: int|
                0 <= i < j < chains.len() && 0 <= k < chains[j].len() ==> (#[trigger] chains[j][k])[0] != (#[trigger] chains[i]).last().last(),
            forall|i: int, r: int| 0 <= i < chains.len() && 0 <= r < open_coastlines@.len() ==> (#[trigger] open_coastlines@[r])@[0] != (
            #[trigger] chains[i]).last().last(),
            forall|i: int, k: int| 0 <= i < chains.len() && 0 <= k < chains[i].len() ==> (#[trigger] chains[i][k]).len() > 0,
            count == prefix.len(),
            ways(closed_coastlines@).take(count as int) == prefix,
            closed_coastlines@.len() >= count,
            closed_coastlines@.len() + open_coastlines@.len() <= coastlines@.len(),
            sorted_by_first(ways(open_coastlines@)),
            forall|i: int| 0 <= i < open_coastlines@.len() ==> (#[trigger] open_coastlines@[i])@.len() > 0,
            forall|i: int| count <= i < closed_coastlines@.len() ==> (#[trigger] closed_coastlines@[i])@.len() > 0 && no_repeats(closed_coastlines@[i]@),
        decreases open_coastlines@.len(),
    {
        let ghost before = open_coastlines@;
        let mut coastline = match open_coastlines.pop() {
            Some(c) => c,
            None => {
                assert(false);
                Vec::new()
            },
        };
        proof {
            assert(before.drop_last() == open_coastlines@);
            assert(coastline == before.last());
            assert(coastline@.len() > 0);
            assert forall|i: int, j: int| 0 <= i < j < ways(open_coastlines@).len() implies #[trigger] ways(open_coastlines@)[i][0]
                <= #[trigger] ways(open_coastlines@)[j][0] by {
                assert(ways(open_coastlines@)[i] == ways(before)[i]);
                assert(ways(open_coastlines@)[j] == ways(before)[j]);
            }
            assert forall|i: int| 0 <= i < open_coastlines@.len() implies (#[trigger] open_coastlines@[i])@.len() > 0 by {
                assert(open_coastlines@[i] == before[i]);
            }
        }
        let mut last = coastline[coastline.len() - 1];
        let ghost len0 = open_coastlines@.len();
        let ghost mut parts: Seq<Seq<i64>> = seq![coastline@];
        proof {
            assert(ways(before) =~= ways(open_coastlines@).push(coastline@));
            vstd::seq_lib::to_multiset_build(ways(open_coastlines@), coastline@);
            vstd::seq_lib::lemma_multiset_commutative(chains.flatten(), parts);
            assert(parts.flatten() =~= coastline@) by {
                parts.lemma_flatten_one_element();
            }
            assert(chains.flatten().to_multiset().add(parts.to_multiset()).add(ways(open_coastlines@).to_multiset())
                =~= open_ways(input).to_multiset()) by {
                vstd::seq_lib::lemma_seq_union_to_multiset_commutative(parts, ways(open_coastlines@));
                vstd::seq_lib::lemma_multiset_commutative(parts, ways(open_coastlines@));
                assert(ways(open_coastlines@) + parts =~= ways(before));
            }
            assert forall|i: int, r: int| 0 <= i < chains.len() && 0 <= r < open_coastlines@.len() implies (#[trigger] open_coastlines@[r])@[0]
                != (#[trigger] chains[i]).last().last() by {
                assert(open_coastlines@[r] == before[r]);
            }
            assert(coastline == before[before.len() - 1]);
        }
        loop
            invariant
                coastline@.len() > 0,
                last == coastline@.last(),
                chained(parts),
                coastline@ == parts.flatten(),
                forall|k: int| 0 <= k < parts.len() ==> (#[trigger] parts[k]).len() > 0,
                chains.flatten().to_multiset().add(parts.to_multiset()).add(ways(open_coastlines@).to_multiset()) == open_ways(
                    input,
                ).to_multiset(),
                forall|i: int, k: int| 0 <= i < chains.len() && 0 <= k < parts.len() ==> (#[trigger] parts[k])[0] != (
                #[trigger] chains[i]).last().last(),
                forall|i: int, r: int| 0 <= i < chains.len() && 0 <= r < open_coastlines@.len() ==> (#[trigger] open_coastlines@[r])@[0]
                    != (#[trigger] chains[i]).last().last(),
                sorted_by_first(ways(open_coastlines@)),
                forall|i: int| 0 <= i < open_coastlines@.len() ==> (#[trigger] open_coastlines@[i])@.len() > 0,
                open_coastlines@.len() <= len0,
            ensures
                coastline@.len() > 0,
                chained(parts),
                coastline@ == parts.flatten(),
                forall|k: int| 0 <= k < parts.len() ==> (#[trigger] parts[k]).len() > 0,
                chains.flatten().to_multiset().add(parts.to_multiset()).add(ways(open_coastlines@).to_multiset()) == open_ways(
                    input,
                ).to_multiset(),
                forall|i: int, k: int| 0 <= i < chains.len() && 0 <= k < parts.len() ==> (#[trigger] parts[k])[0] != (
                #[trigger] chains[i]).last().last(),
                forall|i: int, r: int| 0 <= i < chains.len() && 0 <= r < open_coastlines@.len() ==> (#[trigger] open_coastlines@[r])@[0]
                    != (#[trigger] chains[i]).last().last(),
                forall|r: int| 0 <= r < open_coastlines@.len() ==> (#[trigger] open_coastlines@[r])@[0] != parts.last().last(),
                sorted_by_first(ways(open_coastlines@)),
                forall|i: int| 0 <= i < open_coastlines@.len() ==> (#[trigger] open_coastlines@[i])@.len() > 0,
                open_coastlines@.len() <= len0,
            decreases open_coastlines@.len(),
        {
            match find_starting_at(&open_coastlines, last) {
                Some(to_append) => {
                    let ghost remaining = open_coastlines@;
                    let ghost parts0 = parts;
                    let ghost coastline0 = coastline@;
                    let mut appended = open_coastlines.remove(to_append);
                    let ghost w = appended@;
                    coastline.append(&mut appended);
                    last = coastline[coastline.len() - 1];
                    proof {
                        parts = parts.push(w);
                        assert(w == remaining[to_append as int]@);
                        assert(ways(open_coastlines@) =~= ways(remaining).remove(to_append as int));
                        vstd::seq_lib::to_multiset_remove(ways(remaining), to_append as int);
                        vstd::seq_lib::to_multiset_build(parts0, w);
                        parts0.lemma_flatten_push(w);
                        assert(coastline@ == coastline0 + w);
                        assert(parts.flatten() == coastline@);
                        assert(w.len() > 0);
                        assert(ways(remaining).to_multiset().count(w) > 0) by {
                            assert(ways(remaining)[to_append as int] == w);
                            vstd::seq_lib::to_multiset_contains(ways(remaining), w);
                        }
                        assert(chains.flatten().to_multiset().add(parts.to_multiset()).add(ways(open_coastlines@).to_multiset())
                            =~= chains.flatten().to_multiset().add(parts0.to_multiset()).add(ways(remaining).to_multiset()));
                        assert forall|k: int| 0 <= k < parts.len() - 1 implies (#[trigger] parts[k]).last() == parts[k + 1][0] by {
                            if k < parts0.len() - 1 {
                                assert(parts[k] == parts0[k] && parts[k + 1] == parts0[k + 1]);
                            } else {
                                assert(parts[k] == parts0.last());
                                assert(parts0.flatten().last() == parts0.last().last()) by {
                                    lemma_flatten_last(parts0);
                                }
                            }
                        }
                        assert forall|i: int, k: int| 0 <= i < chains.len() && 0 <= k < parts.len() implies (#[trigger] parts[k])[0] != (
                        #[trigger] chains[i]).last().last() by {
                            if k == parts0.len() {
                                assert(remaining[to_append as int]@[0] != chains[i].last().last());
                            } else {
                                assert(parts[k] == parts0[k]);
                            }
                        }
                        assert forall|i: int, r: int| 0 <= i < chains.len() && 0 <= r < open_coastlines@.len() implies (
                        #[trigger] open_coastlines@[r])@[0] != (#[trigger] chains[i]).last().last() by {
                            if r < to_append {
                                assert(open_coastlines@[r] == remaining[r]);
                            } else {
                                assert(open_coastlines@[r] == remaining[r + 1]);
                            }
                        }
                        assert forall|i: int, j: int| 0 <= i < j < ways(open_coastlines@).len() implies #[trigger] ways(open_coastlines@)[i][0]
                            <= #[trigger] ways(open_coastlines@)[j][0] by {
                            let (a, b) = (if i < to_append { i } else { i + 1 }, if j < to_append { j } else { j + 1 });
                            assert(ways(open_coastlines@)[i] == ways(remaining)[a]);
                            assert(ways(open_coastlines@)[j] == ways(remaining)[b]);
                        }
                        assert forall|i: int| 0 <= i < open_coastlines@.len() implies (#[trigger] open_coastlines@[i])@.len() > 0 by {
                            if i < to_append {
                                assert(open_coastlines@[i] == remaining[i]);
                            } else {
                                assert(open_coastlines@[i] == remaining[i + 1]);
                            }
                        }
                    }
                },
                None => {
                    proof {
                        assert(parts.flatten().last() == parts.last().last()) by {
                            lemma_flatten_last(parts);
                        }
                    }
                    break;
                },
            }
        }
        let deduped = dedup_way(&coastline);
        proof {
            lemma_dedup_nonempty(coastline@);
        }
        let ghost c0 = closed_coastlines@;
        closed_coastlines.push(deduped);
        proof {
            let chains0 = chains;
            chains = chains.push(parts);
            chains0.lemma_flatten_push(parts);
            vstd::seq_lib::lemma_multiset_commutative(chains0.flatten(), parts);
            assert forall|i: int| 0 <= i < chains.len() implies chained(#[trigger] chains[i]) && ways(closed_coastlines@)[count + i] == dedup(
                chains[i].flatten(),
            ) by {
                if i < chains0.len() {
                    assert(chains[i] == chains0[i]);
                    assert(ways(closed_coastlines@)[count + i] == ways(c0)[count + i]);
                }
            }
            assert forall|i: int, j: int, k: int|
                0 <= i < j < chains.len() && 0 <= k < chains[j].len() implies (#[trigger] chains[j][k])[0] != (#[trigger] chains[i]).last().last() by {
                assert(chains[i] == chains0[i]);
                if j < chains0.len() {
                    assert(chains[j] == chains0[j]);
                } else {
                    assert(parts[k][0] != chains0[i].last().last());
                }
            }
            assert forall|i: int, r: int| 0 <= i < chains.len() && 0 <= r < open_coastlines@.len() implies (#[trigger] open_coastlines@[r])@[0]
                != (#[trigger] chains[i]).last().last() by {
                if i < chains0.len() {
                    assert(chains[i] == chains0[i]);
                }
            }
            assert forall|i: int, k: int| 0 <= i < chains.len() && 0 <= k < chains[i].len() implies (#[trigger] chains[i][k]).len() > 0 by {
                if i < chains0.len() {
                    assert(chains[i] == chains0[i]);
                }
            }
            assert(ways(closed_coastlines@).take(count as int) =~= ways(c0).take(count as int));
            assert forall|i: int| count <= i < closed_coastlines@.len() implies (#[trigger] closed_coastlines@[i])@.len() > 0 && no_repeats(closed_coastlines@[i]@) by {
                if i < c0.len() {
                    assert(closed_coastlines@[i] == c0[i]);
                }
            }
        }
    }
    proof {
        vstd::seq_lib::lemma_multiset_commutative(chains.flatten(), ways(open_coastlines@));
        assert(chains.flatten() + ways(open_coastlines@) =~= chains.flatten());
        assert(closing(input, ways(closed_coastlines@), chains));
    }
    closed_coastlines
}

/// The last node of joined non-empty ways is the last node of the last way.
proof fn lemma_flatten_last(parts: Seq<Seq<i64>>)
    requires
        parts.len() > 0,
        forall|k: int| 0 <= k < parts.len() ==> (#[trigger] parts[k]).len() > 0,
    ensures
        parts.flatten().len() > 0,
        parts.flatten().last() == parts.last().last(),
{
    let init = parts.drop_last();
    assert(init.push(parts.last()) =~= parts);
    init.lemma_flatten_push(parts.last());
}

/// Deduplicating keeps at least one node of a non-empty way.
proof fn lemma_dedup_nonempty(c: Seq<i64>)
    requires
        c.len() > 0,
    ensures
        dedup(c).len() > 0,
    decreases c.len(),
{
    if c.len() > 1 {
        lemma_dedup_nonempty(c.drop_last());
    }
}

} // verus!

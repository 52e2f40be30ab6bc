//! A graph as read from a file: a node count and a plain list of edges.
use vstd::prelude::*;
use vstd::string::StringSliceAdditionalSpecFns;

use super::graph::Edge;
use super::route::{parse_field, parse_u32};

verus! {

/// A graph given as the number of its nodes and the list of its edges, in file order.
/// The node coordinates that the graph files carry stay with the caller.
pub struct NaiveGraph {
    pub num_nodes: u32,
    pub edges: Vec<Edge>,
}

/// Whether `b` is ASCII white space: a space, a tab, a line feed, a vertical tab, a form feed
/// or a carriage return.
pub open spec fn is_space(b: u8) -> bool {
    b == 32 || (9 <= b && b <= 13)
}

/// The number of white-space bytes that `s` starts with.
pub open spec fn spaces_before(s: Seq<u8>) -> nat
    decreases s.len(),
{
    if s.len() > 0 && is_space(s[0]) {
        1 + spaces_before(s.drop_first())
    } else {
        0
    }
}

/// The number of other bytes that `s` starts with.
pub open spec fn word_length(s: Seq<u8>) -> nat
    decreases s.len(),
{
    if s.len() > 0 && !is_space(s[0]) {
        1 + word_length(s.drop_first())
    } else {
        0
    }
}

/// The first `k` words of `s`, fewer where `s` has fewer: the runs of bytes that are not white
/// space, in order.
pub open spec fn first_words(s: Seq<u8>, k: nat) -> Seq<Seq<u8>>
    decreases k,
{
    if k == 0 {
        Seq::empty()
    } else {
        let t = s.skip(spaces_before(s) as int);
        if t.len() == 0 {
            Seq::empty()
        } else {
            seq![t.take(word_length(t) as int)] + first_words(t.skip(word_length(t) as int), (k - 1) as nat)
        }
    }
}

/// A prefix count is no longer than the sequence.
proof fn lemma_counts_bounded(s: Seq<u8>)
    ensures
        spaces_before(s) <= s.len(),
        word_length(s) <= s.len(),
    decreases s.len(),
{
    if s.len() > 0 {
        lemma_counts_bounded(s.drop_first());
    }
}

/// The index of the first byte at or after `start` that is not white space, or the length.
fn skip_spaces(bytes: &[u8], start: usize) -> (i: usize)
    requires
        start <= bytes@.len(),
    ensures
        i == start + spaces_before(bytes@.skip(start as int)),
        i <= bytes@.len(),
        i < bytes@.len() ==> !is_space(bytes@[i as int]),
{
    let mut i = start;
    while i < bytes.len() && (bytes[i] == 32u8 || (9u8 <= bytes[i] && bytes[i] <= 13u8))
        invariant
            start <= i <= bytes@.len(),
            spaces_before(bytes@.skip(start as int)) == (i - start) + spaces_before(bytes@.skip(i as int)),
        decreases bytes@.len() - i,
    {
        assert(bytes@.skip(i as int).drop_first() =~= bytes@.skip(i + 1));
        i += 1;
    }
    i
}

/// The index of the first white-space byte at or after `start`, or the length.
fn word_end(bytes: &[u8], start: usize) -> (i: usize)
    requires
        start <= bytes@.len(),
    ensures
        i == start + word_length(bytes@.skip(start as int)),
        i <= bytes@.len(),
{
    let mut i = start;
    while i < bytes.len() && !(bytes[i] == 32u8 || (9u8 <= bytes[i] && bytes[i] <= 13u8))
        invariant
            start <= i <= bytes@.len(),
            word_length(bytes@.skip(start as int)) == (i - start) + word_length(bytes@.skip(i as int)),
        decreases bytes@.len() - i,
    {
        assert(bytes@.skip(i as int).drop_first() =~= bytes@.skip(i + 1));
        i += 1;
    }
    i
}

/// The word that starts at the first byte at or after `start` that is not white space: its
/// first index and its end, and how it sits in the words of the rest.
fn next_word(bytes: &[u8], start: usize) -> (r: (usize, usize))
    requires
        start <= bytes@.len(),
    ensures
        start <= r.0 <= r.1 <= bytes@.len(),
        forall|k: nat|
            k > 0 ==> #[trigger] first_words(bytes@.skip(start as int), k) == if r.0 == bytes@.len() {
                Seq::<Seq<u8>>::empty()
            } else {
                seq![bytes@.subrange(r.0 as int, r.1 as int)] + first_words(bytes@.skip(r.1 as int), (k - 1) as nat)
            },
        r.0 < bytes@.len() ==> r.0 < r.1,
{
    let a = skip_spaces(bytes, start);
    let e = word_end(bytes, a);
    proof {
        let s = bytes@.skip(start as int);
        lemma_counts_bounded(s);
        assert(s.skip(spaces_before(s) as int) =~= bytes@.skip(a as int));
        let t = bytes@.skip(a as int);
        lemma_counts_bounded(t);
        assert(t.take(word_length(t) as int) =~= bytes@.subrange(a as int, e as int));
        assert(t.skip(word_length(t) as int) =~= bytes@.skip(e as int));
        if a < bytes@.len() {
            assert(t[0] == bytes@[a as int]);
            assert(t.len() > 0 && !is_space(t[0]));
        }
    }
    (a, e)
}

/// Reads the first three words of an edge line, `source target cost`, each a `u32`: `None`
/// where the line has fewer than three words or one of them is not a `u32`. Further words (the
/// edge type and speed) are ignored.
pub fn parse_edge_line(line: &str) -> (r: Option<(u32, u32, u32)>)
    ensures
        ({
            let w = first_words(line.spec_bytes(), 3);
            r == if w.len() == 3 && parse_u32(w[0]) is Some && parse_u32(w[1]) is Some && parse_u32(w[2]) is Some {
                Some((parse_u32(w[0])->0, parse_u32(w[1])->0, parse_u32(w[2])->0))
            } else {
                None
            }
        }),
{
    let bytes = line.as_bytes();
    let ghost s = bytes@;
    assert(s.skip(0) =~= s);
    let (a0, e0) = next_word(bytes, 0);
    let (a1, e1) = next_word(bytes, e0);
    let (a2, e2) = next_word(bytes, e1);
    proof {
        let w = first_words(s, 3);
        assert(first_words(s.skip(0), 3) == w);
        let f1 = first_words(s.skip(e0 as int), 2);
        let f2 = first_words(s.skip(e1 as int), 1);
        assert(first_words(s.skip(e2 as int), 0) =~= Seq::<Seq<u8>>::empty());
        if a0 < s.len() && a1 < s.len() && a2 < s.len() {
            assert(f2 =~= seq![s.subrange(a2 as int, e2 as int)]);
            assert(w.len() == 3);
            assert(w[0] == s.subrange(a0 as int, e0 as int));
            assert(w.drop_first() == f1);
            assert(w[1] == s.subrange(a1 as int, e1 as int));
            assert(f1.drop_first() == f2);
            assert(w[2] == f1[1]);
            assert(w[2] == s.subrange(a2 as int, e2 as int));
        } else {
            assert(w.len() < 3);
        }
    }
    if a0 == bytes.len() || a1 == bytes.len() || a2 == bytes.len() {
        return None;
    }
    let source = match parse_field(bytes, a0, e0) {
        Some(v) => v,
        None => {
            return None;
        },
    };
    let target = match parse_field(bytes, a1, e1) {
        Some(v) => v,
        None => {
            return None;
        },
    };
    let cost = match parse_field(bytes, a2, e2) {
        Some(v) => v,
        None => {
            return None;
        },
    };
    Some((source, target, cost))
}

} // verus!

//! Priority queues keyed by `u32` costs.
pub mod bucket_queue;

use vstd::prelude::*;

verus! {

/// An entry of a priority queue: `value` (usually a node id) queued under `key` (a cost).
#[derive(Clone, Copy, PartialEq, Eq, Structural, Debug)]
pub struct State {
    pub key: u32,
    pub value: u32,
}

/// The index of the first non-empty bucket met when walking the buckets cyclically,
/// starting `offset` steps after `current`; `None` when all of those buckets are empty.
pub open spec fn scan_buckets<T>(buckets: Seq<Seq<T>>, current: int, offset: nat) -> Option<int>
    decreases buckets.len() - offset,
{
    if offset >= buckets.len() {
        None
    } else if buckets[(current + offset) % (buckets.len() as int)].len() > 0 {
        Some((current + offset) % (buckets.len() as int))
    } else {
        scan_buckets(buckets, current, offset + 1)
    }
}

/// What popping a cyclic bucket queue gives: the entry pushed last into the first non-empty
/// bucket met from the current one, and the queue without it, whose current bucket is that
/// bucket; nothing, and the queue unchanged, when every bucket is empty.
pub open spec fn bucket_pop<T>(q: (int, Seq<Seq<T>>)) -> (Option<T>, (int, Seq<Seq<T>>)) {
    match scan_buckets(q.1, q.0, 0) {
        None => (None, q),
        Some(j) => (Some(q.1[j].last()), (j, q.1.update(j, q.1[j].drop_last()))),
    }
}

/// Whether some bucket holds `x`.
pub open spec fn in_buckets<T>(buckets: Seq<Seq<T>>, x: T) -> bool {
    exists|j: int, k: int| 0 <= j < buckets.len() && 0 <= k < buckets[j].len() && #[trigger] buckets[j][k] == x
}

/// Popping removes exactly the popped entry: every other entry stays, no entry appears, and
/// the total shrinks by one; popping nothing means that every bucket is empty.
pub proof fn lemma_bucket_pop<T>(q: (int, Seq<Seq<T>>))
    requires
        q.1.len() > 0,
        0 <= q.0 < q.1.len(),
    ensures
        bucket_pop(q).0 is None ==> bucket_pop(q).1 == q && forall|j: int| 0 <= j < q.1.len() ==> #[trigger] q.1[j].len() == 0,
        bucket_pop(q).0 is None ==> total_len(q.1) == 0,
        bucket_pop(q).0 is None ==> forall|x: T| !in_buckets(q.1, x),
        bucket_pop(q).0 matches Some(s) ==> {
            &&& in_buckets(q.1, s)
            &&& total_len(bucket_pop(q).1.1) + 1 == total_len(q.1)
            &&& bucket_pop(q).1.1.len() == q.1.len()
            &&& 0 <= bucket_pop(q).1.0 < q.1.len()
            &&& forall|x: T| #[trigger] in_buckets(bucket_pop(q).1.1, x) ==> in_buckets(q.1, x)
            &&& forall|x: T| #[trigger] in_buckets(q.1, x) ==> x == s || in_buckets(bucket_pop(q).1.1, x)
        },
{
    lemma_scan_none(q.1, q.0, 0);
    lemma_scan_some(q.1, q.0, 0);
    match scan_buckets(q.1, q.0, 0) {
        None => {
            lemma_total_len_empty(q.1);
            assert forall|x: T| !in_buckets(q.1, x) by {
                if in_buckets(q.1, x) {
                    let (j, k) = choose|j: int, k: int| 0 <= j < q.1.len() && 0 <= k < q.1[j].len() && #[trigger] q.1[j][k] == x;
                    assert(q.1[j].len() == 0);
                }
            }
        },
        Some(j) => {
            let b = q.1;
            let b2 = b.update(j, b[j].drop_last());
            lemma_total_len_update(b, j, b[j].drop_last());
            assert(b[j][b[j].len() - 1] == b[j].last());
            assert(in_buckets(b, b[j].last()));
            assert forall|x: T| #[trigger] in_buckets(b2, x) implies in_buckets(b, x) by {
                let (j2, k) = choose|j2: int, k: int| 0 <= j2 < b2.len() && 0 <= k < b2[j2].len() && #[trigger] b2[j2][k] == x;
                if j2 == j {
                    assert(b[j2][k] == x);
                } else {
                    assert(b[j2][k] == x);
                }
            }
            assert forall|x: T| #[trigger] in_buckets(b, x) implies x == b[j].last() || in_buckets(b2, x) by {
                let (j2, k) = choose|j2: int, k: int| 0 <= j2 < b.len() && 0 <= k < b[j2].len() && #[trigger] b[j2][k] == x;
                if j2 == j {
                    if k < b[j].len() - 1 {
                        assert(b2[j2][k] == x);
                    }
                } else {
                    assert(b2[j2][k] == x);
                }
            }
        },
    }
}

/// A queue with `x` appended to bucket `key % number of buckets`.
pub open spec fn bucket_push<T>(q: (int, Seq<Seq<T>>), key: int, x: T) -> (int, Seq<Seq<T>>) {
    (q.0, q.1.update(key % (q.1.len() as int), q.1[key % (q.1.len() as int)].push(x)))
}

/// Pushing keeps every entry and adds `x`.
pub proof fn lemma_bucket_push<T>(q: (int, Seq<Seq<T>>), key: int, x: T)
    requires
        q.1.len() > 0,
        key >= 0,
    ensures
        in_buckets(bucket_push(q, key, x).1, x),
        bucket_push(q, key, x).1.len() == q.1.len(),
        forall|y: T| #[trigger] in_buckets(bucket_push(q, key, x).1, y) <==> y == x || in_buckets(q.1, y),
        total_len(bucket_push(q, key, x).1) == total_len(q.1) + 1,
{
    let n = q.1.len() as int;
    let j = key % n;
    vstd::arithmetic::div_mod::lemma_mod_bound(key, n);
    let b = q.1;
    let b2 = bucket_push(q, key, x).1;
    lemma_total_len_update(b, j, b[j].push(x));
    assert(b2[j][b[j].len() as int] == x);
    assert forall|y: T| #[trigger] in_buckets(b2, y) <==> y == x || in_buckets(b, y) by {
        if in_buckets(b2, y) {
            let (j2, k) = choose|j2: int, k: int| 0 <= j2 < b2.len() && 0 <= k < b2[j2].len() && #[trigger] b2[j2][k] == y;
            if j2 == j && k == b[j].len() {
            } else {
                assert(b[j2][k] == y);
            }
        }
        if in_buckets(b, y) {
            let (j2, k) = choose|j2: int, k: int| 0 <= j2 < b.len() && 0 <= k < b[j2].len() && #[trigger] b[j2][k] == y;
            assert(b2[j2][k] == y);
        }
    }
}

/// The number of entries held by all buckets together.
pub open spec fn total_len<T>(buckets: Seq<Seq<T>>) -> nat
    decreases buckets.len(),
{
    if buckets.len() == 0 {
        0
    } else {
        total_len(buckets.drop_last()) + buckets.last().len()
    }
}

/// Every bucket is empty exactly when the cyclic scan finds nothing.
pub proof fn lemma_scan_none<T>(buckets: Seq<Seq<T>>, current: int, offset: nat)
    requires
        buckets.len() > 0,
        0 <= current < buckets.len(),
        forall|i: int| 0 <= i < offset ==> #[trigger] buckets[(current + i) % (buckets.len() as int)].len() == 0,
    ensures
        scan_buckets(buckets, current, offset) is None <==> forall|j: int|
            0 <= j < buckets.len() ==> #[trigger] buckets[j].len() == 0,
    decreases buckets.len() - offset,
{
    let n = buckets.len() as int;
    if offset >= buckets.len() {
        assert forall|j: int| 0 <= j < n implies #[trigger] buckets[j].len() == 0 by {
            let i = if j >= current { j - current } else { j - current + n };
            assert((current + i) % n == j) by {
                vstd::arithmetic::div_mod::lemma_mod_add_multiples_vanish(j, n);
                vstd::arithmetic::div_mod::lemma_small_mod(j as nat, n as nat);
            }
            assert(buckets[(current + i) % n].len() == 0);
        }
    } else if buckets[(current + offset) % n].len() > 0 {
        assert(0 <= (current + offset) % n < n) by {
            vstd::arithmetic::div_mod::lemma_mod_bound(current + offset, n);
        }
    } else {
        lemma_scan_none(buckets, current, offset + 1);
    }
}

/// A found bucket is a valid, non-empty bucket.
pub proof fn lemma_scan_some<T>(buckets: Seq<Seq<T>>, current: int, offset: nat)
    requires
        buckets.len() > 0,
    ensures
        scan_buckets(buckets, current, offset) matches Some(j) ==> 0 <= j < buckets.len()
            && buckets[j].len() > 0,
    decreases buckets.len() - offset,
{
    let n = buckets.len() as int;
    if offset < buckets.len() {
        vstd::arithmetic::div_mod::lemma_mod_bound(current + offset, n);
        if buckets[(current + offset) % n].len() == 0 {
            lemma_scan_some(buckets, current, offset + 1);
        }
    }
}

/// Replacing one bucket changes the total by the difference of the two lengths.
pub proof fn lemma_total_len_update<T>(buckets: Seq<Seq<T>>, j: int, b: Seq<T>)
    requires
        0 <= j < buckets.len(),
    ensures
        total_len(buckets.update(j, b)) + buckets[j].len() == total_len(buckets) + b.len(),
    decreases buckets.len(),
{
    let u = buckets.update(j, b);
    if j == buckets.len() - 1 {
        assert(u.drop_last() =~= buckets.drop_last());
    } else {
        assert(u.drop_last() =~= buckets.drop_last().update(j, b));
        lemma_total_len_update(buckets.drop_last(), j, b);
    }
}

/// Buckets that are all empty hold no entries.
pub proof fn lemma_total_len_empty<T>(buckets: Seq<Seq<T>>)
    requires
        forall|j: int| 0 <= j < buckets.len() ==> #[trigger] buckets[j].len() == 0,
    ensures
        total_len(buckets) == 0,
    decreases buckets.len(),
{
    if buckets.len() > 0 {
        lemma_total_len_empty(buckets.drop_last());
    }
}

} // verus!

use vstd::prelude::*;

use super::{bucket_pop, bucket_push, scan_buckets, total_len, State};

verus! {

/// The number of buckets of a [`BucketQueue`].
pub const NUM_BUCKETS: usize = 30_001;

/// A cyclic bucket queue: an entry with key `k` is kept in bucket `k % NUM_BUCKETS`, and
/// `pop` walks the buckets cyclically from the bucket that was popped last.
pub struct BucketQueue {
    current_index: usize,
    buckets: Vec<Vec<State>>,
}

impl View for BucketQueue {
    /// The index of the bucket popped last, and the contents of every bucket.
    type V = (int, Seq<Seq<State>>);

    closed spec fn view(&self) -> (int, Seq<Seq<State>>) {
        (self.current_index as int, self.buckets@.map_values(|b: Vec<State>| b@))
    }
}

impl BucketQueue {
    /// The queue has its fixed number of buckets and a valid current bucket.
    pub open spec fn wf(&self) -> bool {
        &&& self@.1.len() == NUM_BUCKETS
        &&& 0 <= self@.0 < NUM_BUCKETS
    }

    /// The number of queued entries.
    pub open spec fn size(&self) -> nat {
        total_len(self@.1)
    }

    /// The view of a new queue.
    pub open spec fn empty_view() -> (int, Seq<Seq<State>>) {
        (0, Seq::new(NUM_BUCKETS as nat, |j: int| Seq::<State>::empty()))
    }

    pub proof fn lemma_empty_view(q: BucketQueue)
        requires
            q.wf(),
            q@.0 == 0,
            forall|j: int| 0 <= j < NUM_BUCKETS ==> (#[trigger] q@.1[j]).len() == 0,
        ensures
            q@ == Self::empty_view(),
    {
        assert forall|j: int| 0 <= j < NUM_BUCKETS implies q@.1[j] == Self::empty_view().1[j] by {
            assert(q@.1[j] =~= Seq::<State>::empty());
        }
        assert(q@.1 =~= Self::empty_view().1);
    }

    pub fn new() -> (queue: BucketQueue)
        ensures
            queue.wf(),
            queue@.0 == 0,
            forall|j: int| 0 <= j < NUM_BUCKETS ==> (#[trigger] queue@.1[j]).len() == 0,
    {
        let mut buckets: Vec<Vec<State>> = Vec::new();
        while buckets.len() < NUM_BUCKETS
            invariant
                buckets.len() <= NUM_BUCKETS,
                forall|j: int| 0 <= j < buckets.len() ==> (#[trigger] buckets@[j])@.len() == 0,
            decreases NUM_BUCKETS - buckets.len(),
        {
            buckets.push(Vec::new());
        }
        BucketQueue { current_index: 0, buckets }
    }

    /// Queues `value` under `key`: it is appended to bucket `key % NUM_BUCKETS`.
    pub fn insert(&mut self, key: u32, value: u32)
        requires
            old(self).wf(),
        ensures
            final(self).wf(),
            final(self)@ == bucket_push(old(self)@, key as int, State { key, value }),
    {
        let state = State { key, value };
        let key_index = key as usize % self.buckets.len();
        self.buckets[key_index].push(state);
        proof {
            assert(self@.1 =~= old(self)@.1.update(
                key as int % NUM_BUCKETS as int,
                old(self)@.1[key as int % NUM_BUCKETS as int].push(State { key, value }),
            ));
        }
    }

    /// Removes and returns the entry pushed last into the first non-empty bucket met when
    /// walking the buckets cyclically from the current bucket, which becomes the current one.
    pub fn pop(&mut self) -> (popped: Option<State>)
        requires
            old(self).wf(),
        ensures
            final(self).wf(),
            (popped, final(self)@) == bucket_pop(old(self)@),
    {
        let n = self.buckets.len();
        let mut bucket_index: usize = 0;
        while bucket_index < n
            invariant
                n == NUM_BUCKETS,
                *self == *old(self),
                self.wf(),
                bucket_index <= n,
                scan_buckets(self@.1, self@.0, 0) == scan_buckets(self@.1, self@.0, bucket_index as nat),
            decreases n - bucket_index,
        {
            let key_index = (self.current_index + bucket_index) % n;
            let ghost b = self@.1;
            assert(b[key_index as int] == self.buckets@[key_index as int]@);
            if self.buckets[key_index].len() > 0 {
                let value = self.buckets[key_index].pop();
                self.current_index = key_index;
                proof {
                    assert(self@.1 =~= b.update(key_index as int, b[key_index as int].drop_last()));
                }
                return value;
            }
            bucket_index += 1;
        }
        None
    }
}

} // verus!

//! A cyclic bucket queue of node ids with a chosen number of buckets.
use vstd::prelude::*;

use super::queue::{bucket_pop, bucket_push, scan_buckets};

verus! {

/// A cyclic bucket queue of `u32` values: a value queued with key `k` is kept in bucket
/// `k % number of buckets`, and `pop` walks the buckets cyclically from the bucket popped last.
pub struct BucketQueue {
    current_index: usize,
    buckets: Vec<Vec<u32>>,
}

impl View for BucketQueue {
    /// The index of the bucket popped last, and the contents of every bucket.
    type V = (int, Seq<Seq<u32>>);

    closed spec fn view(&self) -> (int, Seq<Seq<u32>>) {
        (self.current_index as int, self.buckets@.map_values(|b: Vec<u32>| b@))
    }
}

impl BucketQueue {
    /// The current bucket is a bucket (or 0 for a queue without buckets), and there are at
    /// most `u32::MAX` buckets.
    pub open spec fn wf(&self) -> bool {
        &&& self@.1.len() <= u32::MAX
        &&& 0 <= self@.0
        &&& (self@.1.len() == 0 ==> self@.0 == 0)
        &&& (self@.1.len() > 0 ==> self@.0 < self@.1.len())
    }

    /// A queue of `max_diff` empty buckets.
    pub fn new(max_diff: u32) -> (queue: BucketQueue)
        ensures
            queue.wf(),
            queue@.0 == 0,
            queue@.1.len() == max_diff,
            forall|j: int| 0 <= j < max_diff ==> (#[trigger] queue@.1[j]).len() == 0,
    {
        let mut buckets: Vec<Vec<u32>> = Vec::new();
        while buckets.len() < max_diff as usize
            invariant
                buckets.len() <= max_diff,
                forall|j: int| 0 <= j < buckets.len() ==> (#[trigger] buckets@[j])@.len() == 0,
            decreases max_diff - buckets.len(),
        {
            buckets.push(Vec::new());
        }
        let queue = BucketQueue { current_index: 0, buckets };
        assert(queue@.1.len() == max_diff);
        queue
    }

    /// Queues `value` under `key`: it is appended to bucket `key % number of buckets`.
    pub fn insert(&mut self, key: u32, value: u32)
        requires
            old(self).wf(),
            old(self)@.1.len() > 0,
        ensures
            final(self).wf(),
            final(self)@ == bucket_push(old(self)@, key as int, value),
    {
        let key_index = key as usize % self.buckets.len();
        self.buckets[key_index].push(value);
        proof {
            assert(self@.1 =~= old(self)@.1.update(
                key as int % old(self)@.1.len() as int,
                old(self)@.1[key as int % old(self)@.1.len() as int].push(value),
            ));
        }
    }

    /// Removes and returns the value pushed last into the first non-empty bucket met when
    /// walking the buckets cyclically from the current bucket, which becomes the current one.
    pub fn pop(&mut self) -> (popped: Option<u32>)
        requires
            old(self).wf(),
        ensures
            final(self).wf(),
            (popped, final(self)@) == bucket_pop(old(self)@),
    {
        let n = self.buckets.len();
        let mut bucket_index: usize = 0;
        while bucket_index < n
            invariant
                n == self@.1.len(),
                *self == *old(self),
                self.wf(),
                bucket_index <= n,
                scan_buckets(self@.1, self@.0, 0) == scan_buckets(self@.1, self@.0, bucket_index as nat),
            decreases n - bucket_index,
        {
            let key_index = ((self.current_index as u64 + bucket_index as u64) % n as u64) as usize;
            let ghost b = self@.1;
            assert(b[key_index as int] == self.buckets@[key_index as int]@);
            if self.buckets[key_index].len() > 0 {
                let value = self.buckets[key_index].pop();
                self.current_index = key_index;
                proof {
                    assert(self@.1 =~= b.update(key_index as int, b[key_index as int].drop_last()));
                }
                return value;
            }
            bucket_index += 1;
        }
        None
    }
}

} // verus!

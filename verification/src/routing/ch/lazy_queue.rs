use vstd::prelude::*;

verus! {

/// A queue entry: a value with its key.
struct State {
    key: i32,
    value: u32,
}

/// A queue of values ordered by key.
pub struct LazyQueue {
    heap: Vec<State>,
    current_min: i32,
}

impl LazyQueue {
    /// The number of queued entries.
    pub closed spec fn size(&self) -> nat {
        self.heap@.len()
    }

    /// The smallest key seen so far.
    pub closed spec fn current(&self) -> i32 {
        self.current_min
    }

    /// Takes every entry out of the queue and gives none back.
    pub fn pop(&mut self) -> (popped: Option<u32>)
        ensures
            popped is None,
            final(self).size() == 0,
            final(self).current() == old(self).current(),
    {
        while self.heap.len() > 0
            invariant
                self.current_min == old(self).current_min,
            decreases self.heap@.len(),
        {
            let _state = self.heap.pop();
        }
        None
    }
}

} // verus!

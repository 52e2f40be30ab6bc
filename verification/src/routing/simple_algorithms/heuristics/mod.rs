pub mod distance;
pub mod landmark;
pub mod zero;

use vstd::prelude::*;

verus! {

/// A heuristic for goal-directed searches.
pub trait Heuristic {
    /// Whether the heuristic has a value for `node`.
    spec fn covers(&self, node: u32) -> bool;

    /// The value of the heuristic at `node`.
    spec fn value(&self, node: u32) -> u32;

    /// Lower bound for the cost from node some target node.
    fn lower_bound(&self, node: u32) -> (bound: u32)
        requires
            self.covers(node),
        ensures
            bound == self.value(node),
    ;
}

} // verus!

use vstd::prelude::*;

verus! {

/// A hub of a label and the cost between the label's node and the hub.
#[derive(Clone, Copy, PartialEq, Eq, Structural, Debug)]
pub struct LabelEntry {
    pub id: u32,
    pub cost: u32,
}

} // verus!

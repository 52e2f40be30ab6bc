//! The random choices that searches make.
use vstd::prelude::*;

use rand::seq::SliceRandom;
use rand::Rng;

verus! {

/// Calls `rand::Rng::gen_range` with the range `0..upper` on the thread's generator. Its
/// documentation promises a value inside the half-open range and a panic on an empty range;
/// which value comes out is left to chance.
#[verifier::external_body]
pub(crate) fn random_below(upper: u32) -> (r: u32)
    requires
        upper > 0,
    ensures
        r < upper,
{
    rand::thread_rng().gen_range(0..upper)
}

/// Calls `rand::seq::SliceRandom::shuffle` on `values` with the thread's generator. Its
/// documentation promises a reordering of the same values; which order comes out is left to
/// chance.
#[verifier::external_body]
pub(crate) fn shuffle(values: &mut Vec<u32>)
    ensures
        final(values)@.to_multiset() == old(values)@.to_multiset(),
{
    values.shuffle(&mut rand::thread_rng())
}

} // verus!

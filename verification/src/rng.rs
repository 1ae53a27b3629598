use vstd::prelude::*;

use rand::Rng;

verus! {

/// Relies on `rand::Rng::gen_range` over the range `0..bound`: it returns a
/// uniformly drawn value strictly below `bound` (and panics on an empty
/// range, which the precondition rules out).
#[verifier::external_body]
pub(crate) fn gen_range_below(bound: usize) -> (r: usize)
    requires
        bound > 0,
    ensures
        r < bound,
{
    rand::thread_rng().gen_range(0..bound)
}

} // verus!

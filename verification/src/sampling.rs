//! The planner's only source of randomness, behind one trusted wrapper.

use rand::Rng;
use vstd::prelude::*;

verus! {

/// Relies on `rand::thread_rng` and `rand::Rng::gen_range` over the range
/// `0..bound`: the result is drawn uniformly and is strictly below the
/// bound (`gen_range` panics only on an empty range, which the positive
/// bound rules out). Nothing more is assumed of the value: every caller is
/// verified for every outcome below the bound.
#[verifier::external_body]
pub(crate) fn sample_below(bound: u64) -> (r: u64)
    requires
        1 <= bound,
    ensures
        r < bound,
{
    rand::thread_rng().gen_range(0..bound)
}

} // verus!

//! Random scalars.

use vstd::prelude::*;
use rand::Rng;
use crate::algebra::fixed::ONE;

verus! {

/// A scalar drawn uniformly from `[min, max)`.
///
/// Calls `rand::Rng::gen_range` on the thread's generator. For integers
/// that function returns a value no less than its first argument and less
/// than its second, and panics unless the first is less than the second.
#[verifier::external_body]
pub fn random_in_range(min: i64, max: i64) -> (r: i64)
    requires
        min < max,
    ensures
        min <= r < max,
{
    rand::thread_rng().gen_range(min, max)
}

/// A scalar drawn uniformly from `[0, 1)`.
pub fn random_fraction() -> (r: i64)
    ensures
        0 <= r < ONE,
{
    random_in_range(0, ONE)
}

} // verus!

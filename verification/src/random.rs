//! The library's single source of randomness: a uniform draw below a bound.

use vstd::prelude::*;
use rand::Rng;

verus! {

/// Relies on `rand::Rng::random_range` over the half-open range `0..n`:
/// the draw is strictly below `n` (the range is nonempty, so the call does
/// not panic). Nothing more is assumed of the outcome.
#[verifier::external_body]
pub(crate) fn random_below(n: u128) -> (r: u128)
    requires
        1 <= n,
    ensures
        r < n,
{
    rand::rng().random_range(0..n)
}

} // verus!

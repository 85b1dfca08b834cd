//! Random draws, taken from the `rand` crate's thread-local generator.
use vstd::prelude::*;

verus! {

/// Calls `rand::random_range(0..n)`: a number drawn uniformly from `0..n`.
/// The contract claims only that it lies in that range (the crate panics on
/// an empty range, hence `n > 0`); which number comes out is left unsaid, as
/// it rests on chance.
#[verifier::external_body]
pub(crate) fn random_below(n: usize) -> (r: usize)
    requires
        n > 0,
    ensures
        r < n,
{
    rand::random_range(0..n)
}

/// Calls `rand::random_ratio(numerator, denominator)`: `true` with probability
/// `numerator / denominator`. The contract claims what the crate's
/// documentation guarantees: `false` when the numerator is 0 and `true` when
/// it equals the denominator (the crate panics when the denominator is 0 or
/// smaller than the numerator); any other outcome rests on chance.
#[verifier::external_body]
pub(crate) fn random_ratio(numerator: u32, denominator: u32) -> (r: bool)
    requires
        0 < denominator,
        numerator <= denominator,
    ensures
        numerator == 0 ==> !r,
        numerator == denominator ==> r,
{
    rand::random_ratio(numerator, denominator)
}

} // verus!

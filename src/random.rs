//! Random draws, from the thread-local generator of `rand`.
use vstd::prelude::*;

verus! {

/// Relies on `rand::Rng::gen_ratio` on `rand::thread_rng()`: true with
/// probability `numerator / denominator`, so always when the two are equal and
/// never when the numerator is 0. It panics when the denominator is 0 or below
/// the numerator.
#[verifier::external_body]
pub(crate) fn gen_ratio(numerator: u32, denominator: u32) -> (r: bool)
    requires
        0 < denominator,
        numerator <= denominator,
    ensures
        numerator == denominator ==> r,
        numerator == 0 ==> !r,
{
    rand::Rng::gen_ratio(&mut rand::thread_rng(), numerator, denominator)
}

/// Relies on `rand::Rng::gen_range` on `rand::thread_rng()` over `0..bound`:
/// a value below the bound. It panics on an empty range.
#[verifier::external_body]
pub(crate) fn gen_below(bound: u64) -> (r: u64)
    requires
        0 < bound,
    ensures
        r < bound,
{
    rand::Rng::gen_range(&mut rand::thread_rng(), 0..bound)
}

} // verus!

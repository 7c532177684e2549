//! The random choices the predictors make, through the `rand` crate.

use rand::rngs::ThreadRng;
use rand::seq::SliceRandom;
use rand::Rng;
use vstd::prelude::*;

verus! {

#[verifier::external_type_specification]
#[verifier::external_body]
pub struct ExThreadRng(ThreadRng);

/// Calls `rand::thread_rng`, the lazily seeded generator of the current
/// thread. Nothing is claimed of its state.
#[verifier::external_body]
pub(crate) fn thread_rng() -> (rng: ThreadRng) {
    rand::thread_rng()
}

/// Calls `SliceRandom::shuffle` on `v`. The claim is only that the result is
/// a rearrangement of the input: the same length and the same elements,
/// each as often as before (the order itself is random).
#[verifier::external_body]
pub(crate) fn shuffle(v: &mut Vec<usize>, rng: &mut ThreadRng)
    ensures
        final(v)@.len() == old(v)@.len(),
        final(v)@.to_multiset() == old(v)@.to_multiset(),
{
    v.as_mut_slice().shuffle(rng)
}

/// Calls `Rng::gen_range(0..n)`. The claim is that the result lies in
/// `0..n`; `n > 0` is required because the call panics on an empty range.
#[verifier::external_body]
pub(crate) fn gen_index(rng: &mut ThreadRng, n: usize) -> (r: usize)
    requires
        n > 0,
    ensures
        r < n,
{
    rng.gen_range(0..n)
}

/// Calls `Rng::gen_ratio(numerator, denominator)`: `true` with probability
/// `numerator / denominator`. The call panics when `denominator == 0` or
/// `numerator > denominator`, so both are ruled out. Its documentation
/// guarantees `false` for a zero numerator and `true` when the numerator
/// equals the denominator; otherwise the outcome is random.
#[verifier::external_body]
pub(crate) fn gen_ratio(rng: &mut ThreadRng, numerator: u32, denominator: u32) -> (r: bool)
    requires
        0 < denominator,
        numerator <= denominator,
    ensures
        numerator == 0 ==> !r,
        numerator == denominator ==> r,
{
    rng.gen_ratio(numerator, denominator)
}

} // verus!

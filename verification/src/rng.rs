//! Randomness for genome generation and variation.
//!
//! Every draw goes through a generator handed in by the caller, so a
//! run can be reproduced from a seeded generator.  Nothing is assumed
//! about the values drawn beyond their documented ranges: every
//! contract downstream holds for every outcome.

use vstd::prelude::*;
use rand::Rng;

verus! {

#[verifier::external_type_specification]
#[verifier::external_body]
pub struct ExSmallRng(rand::rngs::SmallRng);

/// Relies on rand's `Rng::random_range` over `0..n`: the result lies
/// in the range, and the call panics only when the range is empty,
/// which the precondition rules out.
#[verifier::external_body]
pub(crate) fn rand_below(rng: &mut rand::rngs::SmallRng, n: u64) -> (r: u64)
    requires
        n >= 1,
    ensures
        r < n,
{
    rng.random_range(0..n)
}

/// Relies on rand's `Rng::random_ratio`: true with probability
/// `num / den`; always true when `num == den` and always false when
/// `num == 0`.  The call panics only when `den` is zero or `num`
/// exceeds `den`, which the precondition rules out.
#[verifier::external_body]
pub(crate) fn rand_chance(rng: &mut rand::rngs::SmallRng, num: u32, den: u32) -> (r: bool)
    requires
        1 <= den,
        num <= den,
    ensures
        num == den ==> r,
        num == 0 ==> !r,
{
    rng.random_ratio(num, den)
}

} // verus!

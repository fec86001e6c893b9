//! Draws from the thread-local generator of the `rand` crate. What they
//! return depends on chance; their contracts state only what holds of every
//! outcome.

use vstd::prelude::*;
use rand::seq::SliceRandom;

verus! {

/// `rand::random_range(0..bound)`: a value in `0..bound`, uniformly drawn
/// from the thread-local generator. The crate panics on an empty range,
/// which the precondition rules out.
#[verifier::external_body]
pub(crate) fn random_below(bound: u64) -> (r: u64)
    requires
        bound > 0,
    ensures
        r < bound,
{
    rand::random_range(0..bound)
}

/// `rand::random::<bool>()`: a fair coin from the thread-local generator.
/// Nothing is promised of its value.
#[verifier::external_body]
pub(crate) fn random_coin() -> (r: bool) {
    rand::random::<bool>()
}

/// `SliceRandom::shuffle` with the thread-local generator: the same values,
/// in an order drawn uniformly among all permutations. Which order comes
/// out is not promised.
#[verifier::external_body]
pub(crate) fn shuffle_ids(v: &mut Vec<u64>)
    ensures
        final(v)@.to_multiset() == old(v)@.to_multiset(),
{
    v.shuffle(&mut rand::rng());
}

/// A value in `lo..=hi`, drawn with `random_below`.
pub fn random_inclusive(lo: u64, hi: u64) -> (r: u64)
    requires
        lo <= hi < u64::MAX,
    ensures
        lo <= r <= hi,
{
    lo + random_below(hi - lo + 1)
}

} // verus!

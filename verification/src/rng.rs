//! Thin trusted wrappers around the `rand` crate: every random choice the
//! library makes goes through one of these, and each contract states only
//! what holds of every possible outcome.

use vstd::prelude::*;

verus! {

/// Relies on rand's `SliceRandom::shuffle`: the slice is rearranged in place
/// into a permutation of itself, so the multiset of elements (and hence the
/// length) is unchanged.
#[verifier::external_body]
pub(crate) fn shuffle<T>(v: &mut Vec<T>)
    ensures
        final(v)@.to_multiset() == old(v)@.to_multiset(),
        final(v)@.len() == old(v)@.len(),
{
    rand::seq::SliceRandom::shuffle(v.as_mut_slice(), &mut rand::rng());
}

/// Relies on rand's `RngExt::random::<bool>`: a fair coin flip. Nothing can
/// be promised of the outcome.
#[verifier::external_body]
pub(crate) fn coin_flip() -> bool {
    rand::RngExt::random::<bool>(&mut rand::rng())
}

/// Relies on rand's `RngExt::random_range` on the half-open range `lo..hi`:
/// it returns a value of that range and panics only when the range is empty,
/// which the precondition rules out.
#[verifier::external_body]
pub(crate) fn pick_in_range(lo: u64, hi: u64) -> (r: u64)
    requires
        lo < hi,
    ensures
        lo <= r < hi,
{
    rand::RngExt::random_range(&mut rand::rng(), lo..hi)
}

} // verus!

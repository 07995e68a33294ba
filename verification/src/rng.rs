//! Thin trusted access to the thread-local pseudo-random stream. Nothing
//! can be promised about which values come out, so every contract here
//! states only what holds of every possible outcome; all decisions taken on
//! the drawn values are made by verified code in the rest of the crate.

use vstd::prelude::*;

verus! {

/// Relies on rand::Rng::gen_range over the range `0..n`: it returns a value
/// of that range, and panics only on an empty range, which the precondition
/// rules out.
#[verifier::external_body]
pub(crate) fn rand_below(n: usize) -> (r: usize)
    requires
        1 <= n,
    ensures
        r < n,
{
    rand::Rng::gen_range(&mut rand::thread_rng(), 0..n)
}

/// Relies on rand::seq::SliceRandom::shuffle: it reorders the slice in
/// place by swaps (a Fisher-Yates pass), so the elements afterwards are the
/// same ones, as a multiset, as before.
#[verifier::external_body]
pub(crate) fn shuffle(v: &mut Vec<usize>)
    ensures
        final(v)@.len() == old(v)@.len(),
        final(v)@.to_multiset() == old(v)@.to_multiset(),
{
    rand::seq::SliceRandom::shuffle(v.as_mut_slice(), &mut rand::thread_rng());
}

} // verus!

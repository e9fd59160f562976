use rand::seq::SliceRandom;
use vstd::prelude::*;

verus! {

/// Relies on rand's `SliceRandom::shuffle` (rand 0.8): it permutes the
/// elements in place by swaps, so the multiset of elements is kept.
#[verifier::external_body]
pub(crate) fn shuffle<T>(v: &mut Vec<T>)
    ensures
        final(v)@.to_multiset() == old(v)@.to_multiset(),
{
    v.shuffle(&mut rand::thread_rng());
}

} // verus!

//! The engine's single source of randomness: in-place shuffling of a
//! vector of bytes, used to randomize the generator's candidate digits
//! and the order in which clues are removed from a fresh puzzle.

use rand::seq::SliceRandom;
use vstd::prelude::*;

verus! {

/// Relies on rand::seq::SliceRandom::shuffle, driven by the thread-local
/// generator from rand::rng(): it permutes the slice in place by swapping
/// elements, so the shuffled vector holds exactly the same elements as
/// before, in some order. Nothing is promised about the order itself.
#[verifier::external_body]
pub(crate) fn shuffle_bytes(v: &mut Vec<u8>)
    ensures
        final(v)@.len() == old(v)@.len(),
        final(v)@.to_multiset() == old(v)@.to_multiset(),
{
    let mut rng = rand::rng();
    v.as_mut_slice().shuffle(&mut rng);
}

} // verus!

//! Random reordering of a word list.

use crate::dictionary::texts;
use rand::rngs::ThreadRng;
use rand::seq::SliceRandom;
use vstd::prelude::*;

verus! {

/// `rand::rngs::ThreadRng`, the generator that a caller hands in. It is
/// carried through to the shuffle, and nothing is known of it.
#[verifier::external_type_specification]
#[verifier::external_body]
pub struct ExThreadRng(ThreadRng);

/// Reorders the words at random, by `rand::seq::SliceRandom::shuffle` on the
/// slice of the vector. The call exchanges elements pairwise and nothing else,
/// so what comes out holds the same words, each as often as before; which
/// order it is depends on the generator.
#[verifier::external_body]
pub(crate) fn shuffle(words: &mut Vec<String>, rng: &mut ThreadRng)
    ensures
        texts(final(words)@).to_multiset() == texts(old(words)@).to_multiset(),
{
    words.shuffle(rng);
}

} // verus!

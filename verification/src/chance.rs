//! Random choice.

use crate::text::texts;
use rand::seq::SliceRandom;
use vstd::prelude::*;

verus! {

/// Draws an index below `n` from the thread-local generator of the `rand`
/// crate, by `rand::random_range(0..n)`. The generator samples the range it is
/// given, so the index lies below `n`; which index comes is left open. An
/// empty range makes the generator panic, hence `n > 0`.
#[verifier::external_body]
pub(crate) fn random_below(n: usize) -> (r: usize)
    requires
        n > 0,
    ensures
        r < n,
{
    rand::random_range(0..n)
}

/// Shuffles the list in place with the thread-local generator of the `rand`
/// crate, by `SliceRandom::shuffle`. What comes out is a permutation of what
/// went in; which one is left open.
#[verifier::external_body]
pub(crate) fn shuffle(words: &mut Vec<String>)
    ensures
        texts(final(words)@).to_multiset() == texts(old(words)@).to_multiset(),
{
    words.shuffle(&mut rand::rng());
}

} // verus!

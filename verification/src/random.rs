//! The two calls into `rand` that the game makes: a number below a bound, and a
//! shuffle of a list of piece numbers.

use rand::seq::SliceRandom;
use rand::Rng;
use vstd::prelude::*;

verus! {

/// Calls `rand::Rng::gen_range` on the thread-local generator with the range `0..n`.
/// Its documentation promises a value in the range (and a panic on an empty
/// range, which `requires` rules out); which value comes back is left to chance.
#[verifier::external_body]
pub(crate) fn random_below(n: usize) -> (r: usize)
    requires
        n > 0,
    ensures
        r < n,
{
    rand::thread_rng().gen_range(0..n)
}

/// Calls `rand::seq::SliceRandom::shuffle` with the thread-local generator. Its
/// source only swaps elements, so the result holds the same elements as before, the
/// same number of times each; their order is left to chance.
#[verifier::external_body]
pub(crate) fn shuffle(v: &mut Vec<usize>)
    ensures
        final(v)@.to_multiset() == old(v)@.to_multiset(),
{
    v.shuffle(&mut rand::thread_rng())
}

} // verus!

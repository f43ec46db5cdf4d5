//! Oblivious shuffling: a random permutation whose sequence of exchanges
//! depends on the length alone.
//!
//! The randomness comes from the operating system's generator and from
//! nowhere else: a plan is drawn first, and the elements are shuffled by it.
//! Where the generator fails, the shuffle says so and leaves the elements as
//! they were.

use vstd::prelude::*;
use crate::ops::select::ObliviousSelect;
use crate::shuffle::or_shuffle::{fits, or_shuffle, parallel_or_shuffle, shuffled, Choices};
use rayon::ThreadPool;

pub mod or_shuffle;

verus! {

/// The operating system's generator gave no randomness that could be used:
/// it failed, or it kept giving values that had to be rejected.
#[derive(Clone, Copy, Debug, PartialEq, Eq)]
pub struct NoEntropy;

/// Shuffles `data` in place. Where the generator worked, the result is the
/// shuffle of `data` by what was drawn; where it failed, `data` is as it was.
pub fn shuffle<T: ObliviousSelect>(data: &mut [T]) -> (done: Result<(), NoEntropy>)
    ensures
        final(data)@.len() == old(data)@.len(),
        final(data)@.to_multiset() == old(data)@.to_multiset(),
        old(data)@.len() < 2 ==> done is Ok && final(data)@ == old(data)@,
        done is Ok ==> exists|c: Choices|
            #[trigger] fits(c, old(data)@.len()) && final(data)@ == shuffled(old(data)@, c),
        done is Err ==> final(data)@ == old(data)@,
{
    or_shuffle(data)
}

/// `shuffle` with a budget of `threads` on `pool`. What is chosen at random
/// decides the result as it does for `shuffle`, whatever the budget.
pub fn par_shuffle<T: ObliviousSelect + Send>(data: &mut [T], pool: &ThreadPool, threads: usize) -> (done:
    Result<(), NoEntropy>)
    ensures
        final(data)@.len() == old(data)@.len(),
        final(data)@.to_multiset() == old(data)@.to_multiset(),
        old(data)@.len() < 2 ==> done is Ok && final(data)@ == old(data)@,
        done is Ok ==> exists|c: Choices|
            #[trigger] fits(c, old(data)@.len()) && final(data)@ == shuffled(old(data)@, c),
        done is Err ==> final(data)@ == old(data)@,
{
    parallel_or_shuffle(data, pool, threads)
}

} // verus!

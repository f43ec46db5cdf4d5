//! The thread pool that the parallel routines hand their two halves to.

use vstd::prelude::*;
use rayon::ThreadPool;

verus! {

/// `rayon::ThreadPool`. The library hands a pool on to `ThreadPool::join`
/// and never looks inside it.
#[verifier::external_type_specification]
#[verifier::external_body]
pub struct ExThreadPool(rayon::ThreadPool);

/// The two shares of a budget of `threads`: half of it, rounded down, and
/// the rest.
pub fn split_budget(threads: usize) -> (shares: (usize, usize))
    ensures
        shares.0 == threads / 2,
        shares.1 == threads - threads / 2,
{
    let l_threads = threads / 2;
    (l_threads, threads - l_threads)
}

/// Runs `fa(a)` and `fb(b)` as the two sides of one `ThreadPool::join` and
/// returns what they returned.
///
/// Trusted: `join` calls each closure exactly once, on the argument given
/// with it, and returns only when both are done, so what each closure ensures
/// of its argument and its result holds afterwards. Nothing is claimed of the
/// order in which the two run or of the threads that run them.
#[verifier::external_body]
pub(crate) fn run_both<A, B, RA, RB, FA, FB>(pool: &ThreadPool, fa: FA, a: A, fb: FB, b: B) -> (done: (
    RA,
    RB,
)) where
    A: Send,
    B: Send,
    RA: Send,
    RB: Send,
    FA: FnOnce(A) -> RA + Send,
    FB: FnOnce(B) -> RB + Send,

    requires
        fa.requires((a,)),
        fb.requires((b,)),
    ensures
        fa.ensures((a,), done.0),
        fb.ensures((b,), done.1),
{
    pool.join(move || fa(a), move || fb(b))
}

} // verus!

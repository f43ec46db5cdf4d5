//! Powers of two: the block lengths that the compaction and sorting
//! networks are built on.

use vstd::prelude::*;

verus! {

/// `n` is a power of two.
pub open spec fn is_pow2(n: int) -> bool
    decreases n,
{
    n == 1 || (n > 1 && n % 2 == 0 && is_pow2(n / 2))
}

/// The largest power of two that is at most `n`, for `n >= 1`.
pub open spec fn pow2_floor(n: int) -> int
    decreases n,
{
    if n <= 1 {
        1
    } else {
        2 * pow2_floor(n / 2)
    }
}

/// `pow2_floor(n)` is a power of two, at most `n` and more than half of it.
pub proof fn lemma_pow2_floor(n: int)
    requires
        n >= 1,
    ensures
        is_pow2(pow2_floor(n)),
        pow2_floor(n) <= n < 2 * pow2_floor(n),
    decreases n,
{
    if n > 1 {
        lemma_pow2_floor(n / 2);
        let p = pow2_floor(n / 2);
        assert((2 * p) / 2 == p && (2 * p) % 2 == 0);
    }
}

/// A power of two above one is twice a power of two.
pub proof fn lemma_pow2_half(n: int)
    requires
        is_pow2(n),
        n >= 2,
    ensures
        n % 2 == 0,
        is_pow2(n / 2),
{
}

/// The largest power of two that is at most `n`.
pub fn floor_pow2(n: usize) -> (p: usize)
    requires
        n >= 1,
    ensures
        p == pow2_floor(n as int),
        is_pow2(p as int),
        p <= n < 2 * p,
    decreases n,
{
    proof {
        lemma_pow2_floor(n as int);
    }
    if n <= 1 {
        1
    } else {
        proof {
            lemma_pow2_floor((n / 2) as int);
        }
        2 * floor_pow2(n / 2)
    }
}

/// Twice a power of two is a power of two.
pub proof fn lemma_pow2_double(n: int)
    requires
        is_pow2(n),
    ensures
        is_pow2(2 * n),
{
    assert((2 * n) / 2 == n && (2 * n) % 2 == 0);
}

/// The smallest power of two that is at least `n`; `1` for `n <= 1`.
pub open spec fn pow2_ceil(n: int) -> int
    decreases n,
{
    if n <= 1 {
        1
    } else {
        2 * pow2_ceil((n + 1) / 2)
    }
}

/// `pow2_ceil(n)` is a power of two and at least `n`.
pub proof fn lemma_pow2_ceil(n: int)
    requires
        0 <= n,
    ensures
        is_pow2(pow2_ceil(n)),
        n <= pow2_ceil(n),
        n >= 1 ==> pow2_ceil(n) < 2 * n,
    decreases n,
{
    if n > 1 {
        lemma_pow2_ceil((n + 1) / 2);
        lemma_pow2_double(pow2_ceil((n + 1) / 2));
    }
}

/// A power of two in `[n, 2n)` is `pow2_ceil(n)`: there is no other.
pub proof fn lemma_pow2_ceil_unique(n: int, p: int)
    requires
        0 <= n <= p,
        is_pow2(p),
        n >= 1 ==> p < 2 * n,
        n == 0 ==> p == 1,
    ensures
        p == pow2_ceil(n),
    decreases n,
{
    if n > 1 {
        lemma_pow2_half(p);
        lemma_pow2_ceil_unique((n + 1) / 2, p / 2);
    }
}

/// The smallest power of two that is at least `n`; `1` for `n == 0`.
pub fn ceil_pow2(n: usize) -> (p: usize)
    requires
        n <= usize::MAX / 2 + 1,
    ensures
        p == pow2_ceil(n as int),
        is_pow2(p as int),
        n <= p,
        n >= 1 ==> p < 2 * n,
{
    let mut p: usize = 1;
    while p < n
        invariant
            is_pow2(p as int),
            p >= 1,
            n <= usize::MAX / 2 + 1,
            p == 1 || p < 2 * n,
        decreases
            if p < n {
                n - p
            } else {
                0
            },
    {
        proof {
            lemma_pow2_double(p as int);
        }
        p = 2 * p;
    }
    proof {
        lemma_pow2_ceil_unique(n as int, p as int);
    }
    p
}

} // verus!

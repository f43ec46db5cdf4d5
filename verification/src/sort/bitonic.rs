//! Bitonic sort in place, on slices whose length is a power of two, in the
//! native order of the elements.

use vstd::prelude::*;
use crate::ops::swap::swap;
use crate::ops::select::ObliviousSelect;
use crate::order::{
    has_exact_eq, has_total_order, less, lemma_native_order, native_less, strict_weak_order,
};
use crate::pool::{run_both, split_budget};
use crate::pow2::{is_pow2, lemma_pow2_double, lemma_pow2_half};
use crate::sort::network::{
    bitonic_sorted, direction, in_order, lemma_merged_in_order, lemma_merged_keeps_elements,
    lemma_sorted_in_order, lemma_sorted_is_arrangement, lemma_sorted_keeps_elements, merged,
    pass_left, pass_right,
};
use rayon::ThreadPool;

verus! {

/// One pass of comparators between two blocks of equal length: at each
/// position the two elements are exchanged when they stand against the
/// direction `cond`.
pub fn bitonic_pass<T: Ord + ObliviousSelect>(l_half: &mut [T], r_half: &mut [T], cond: bool)
    requires
        has_total_order::<T>(),
        old(l_half)@.len() == old(r_half)@.len(),
    ensures
        final(l_half)@ == pass_left(old(l_half)@, old(r_half)@, cond, native_less::<T>()),
        final(r_half)@ == pass_right(old(l_half)@, old(r_half)@, cond, native_less::<T>()),
{
    let n = l_half.len();
    let ghost l0 = l_half@;
    let ghost r0 = r_half@;
    for i in 0..n
        invariant
            has_total_order::<T>(),
            l_half@.len() == n,
            r_half@.len() == n,
            l0.len() == n,
            r0.len() == n,
            forall|j: int| 0 <= j < i ==> l_half@[j] == pass_left(l0, r0, cond, native_less::<T>())[j],
            forall|j: int| 0 <= j < i ==> r_half@[j] == pass_right(l0, r0, cond, native_less::<T>())[j],
            forall|j: int| i <= j < n ==> l_half@[j] == l0[j] && r_half@[j] == r0[j],
    {
        let below = less(&l_half[i], &r_half[i]);
        swap(below ^ cond, &mut l_half[i], &mut r_half[i]);
    }
    assert(l_half@ =~= pass_left(l0, r0, cond, native_less::<T>()));
    assert(r_half@ =~= pass_right(l0, r0, cond, native_less::<T>()));
}

/// The lengths of two blocks that can be merged: equal powers of two, or
/// what is left of a single element when it is split, nothing and the element.
pub open spec fn mergeable(l_len: nat, r_len: nat) -> bool {
    ||| l_len == r_len && (l_len == 0 || is_pow2(l_len as int))
    ||| l_len == 0 && r_len == 1
}

/// What the merge of two blocks gives, apart from the network that it is:
/// the elements of the two blocks, and, of a block in order and a block in
/// order against it, one sequence in order.
pub proof fn lemma_merge<T>(l: Seq<T>, r: Seq<T>, up: bool, lt: spec_fn(T, T) -> bool)
    requires
        mergeable(l.len(), r.len()),
    ensures
        merged(l + r, up, lt).len() == l.len() + r.len(),
        merged(l + r, up, lt).to_multiset() == (l + r).to_multiset(),
        strict_weak_order(lt) && in_order(l, up, lt) && in_order(r, !up, lt) ==> in_order(
            merged(l + r, up, lt),
            up,
            lt,
        ),
{
    if l.len() == r.len() {
        if l.len() > 0 {
            lemma_pow2_double(l.len() as int);
        }
        lemma_merged_keeps_elements(l + r, up, lt);
        if strict_weak_order(lt) && in_order(l, up, lt) && in_order(r, !up, lt) {
            lemma_merged_in_order(l, r, up, lt);
        }
    } else {
        lemma_merged_keeps_elements(l + r, up, lt);
    }
}

/// Merges two blocks that together are bitonic into one sequence in the
/// direction `cond`: of a block in order and a block in order against it, it
/// makes one sequence in order that holds the elements of both.
pub fn bitonic_merge<T: Ord + ObliviousSelect>(l_half: &mut [T], r_half: &mut [T], cond: bool)
    requires
        has_total_order::<T>(),
        mergeable(old(l_half)@.len(), old(r_half)@.len()),
    ensures
        final(l_half)@ + final(r_half)@ == merged(
            old(l_half)@ + old(r_half)@,
            cond,
            native_less::<T>(),
        ),
        final(l_half)@.len() == old(l_half)@.len(),
        final(r_half)@.len() == old(r_half)@.len(),
        (final(l_half)@ + final(r_half)@).to_multiset() == (old(l_half)@ + old(
            r_half,
        )@).to_multiset(),
        in_order(old(l_half)@, cond, native_less::<T>()) && in_order(
            old(r_half)@,
            !cond,
            native_less::<T>(),
        ) ==> in_order(final(l_half)@ + final(r_half)@, cond, native_less::<T>()),
    decreases old(l_half)@.len(),
{
    proof {
        lemma_merge(l_half@, r_half@, cond, native_less::<T>());
        lemma_native_order::<T>();
    }
    let ghost s = l_half@ + r_half@;
    let ghost h = l_half@.len() as int;
    if l_half.len() < 1 {
        return;
    }
    proof {
        assert(s.subrange(0, h) =~= l_half@);
        assert(s.subrange(h, 2 * h) =~= r_half@);
    }
    proof {
        if h >= 2 {
            lemma_pow2_half(h);
        }
    }

    bitonic_pass(l_half, r_half, cond);

    let ghost x = l_half@;
    let ghost y = r_half@;
    let l_mid = l_half.len() / 2;
    let r_mid = r_half.len() / 2;
    let (ll_quarter, lr_quarter) = l_half.split_at_mut(l_mid);
    let (rl_quarter, rr_quarter) = r_half.split_at_mut(r_mid);
    bitonic_merge(ll_quarter, lr_quarter, cond);
    bitonic_merge(rl_quarter, rr_quarter, cond);
    proof {
        lemma_quarters(x, cond, native_less::<T>());
        lemma_quarters(y, cond, native_less::<T>());
    }
}

/// The merge of one block, read on its two quarters.
proof fn lemma_quarters<T>(x: Seq<T>, up: bool, lt: spec_fn(T, T) -> bool)
    requires
        x.len() == 1 || x.len() % 2 == 0,
    ensures
        merged(x.subrange(0, x.len() as int / 2) + x.subrange(x.len() as int / 2, x.len() as int), up, lt)
            == merged(x, up, lt),
        x.len() == 1 ==> merged(x, up, lt) == x,
{
    let n = x.len() as int;
    assert(x.subrange(0, n / 2) + x.subrange(n / 2, n) =~= x);
}

/// Sorts `list`, whose length is a power of two, in place: ascending when
/// `cond` is set, descending when it is not.
pub fn bitonic_sort<T: Ord + ObliviousSelect>(list: &mut [T], cond: bool)
    requires
        has_total_order::<T>(),
        old(list)@.len() == 0 || is_pow2(old(list)@.len() as int),
    ensures
        final(list)@ == bitonic_sorted(old(list)@, cond, native_less::<T>()),
        in_order(final(list)@, cond, native_less::<T>()),
        final(list)@.len() == old(list)@.len(),
        final(list)@.to_multiset() == old(list)@.to_multiset(),
        has_exact_eq::<T>() ==> final(list)@ == old(list)@.sort_by(
            direction(native_less::<T>(), cond),
        ),
    decreases old(list)@.len(),
{
    proof {
        lemma_native_order::<T>();
        lemma_sorted_in_order(list@, cond, native_less::<T>());
        lemma_sorted_keeps_elements(list@, cond, native_less::<T>());
        if has_exact_eq::<T>() {
            lemma_sorted_is_arrangement(list@, cond, native_less::<T>());
        }
    }
    if list.len() <= 1 {
        return;
    }
    proof {
        lemma_pow2_half(list@.len() as int);
    }

    let mid = list.len() / 2;
    let (l_half, r_half) = list.split_at_mut(mid);
    bitonic_sort(l_half, cond);
    bitonic_sort(r_half, !cond);
    bitonic_merge(l_half, r_half, cond);
}

/// `bitonic_pass` with a budget of `threads`: with more than one thread the
/// pass over the first halves of the two blocks and the pass over their
/// second halves are two tasks of `pool`.
pub fn parallel_bitonic_pass<T: Ord + ObliviousSelect + Send>(
    l_half: &mut [T],
    r_half: &mut [T],
    cond: bool,
    pool: &ThreadPool,
    threads: usize,
)
    requires
        has_total_order::<T>(),
        old(l_half)@.len() == old(r_half)@.len(),
    ensures
        final(l_half)@ == pass_left(old(l_half)@, old(r_half)@, cond, native_less::<T>()),
        final(r_half)@ == pass_right(old(l_half)@, old(r_half)@, cond, native_less::<T>()),
    decreases threads,
{
    if threads <= 1 {
        bitonic_pass(l_half, r_half, cond);
        return;
    }

    let (l_threads, r_threads) = split_budget(threads);
    let ghost l0 = l_half@;
    let ghost r0 = r_half@;
    let l_mid = l_half.len() / 2;
    let r_mid = r_half.len() / 2;
    let (ll_quarter, lr_quarter) = l_half.split_at_mut(l_mid);
    let (rl_quarter, rr_quarter) = r_half.split_at_mut(r_mid);
    let first = |d: (&mut [T], &mut [T])|
        requires
            has_total_order::<T>(),
            d.0@.len() == d.1@.len(),
            l_threads < threads,
        ensures
            final(d.0)@ == pass_left(old(d.0)@, old(d.1)@, cond, native_less::<T>()),
            final(d.1)@ == pass_right(old(d.0)@, old(d.1)@, cond, native_less::<T>()),
        {
            parallel_bitonic_pass(d.0, d.1, cond, pool, l_threads)
        };
    let second = |d: (&mut [T], &mut [T])|
        requires
            has_total_order::<T>(),
            d.0@.len() == d.1@.len(),
            r_threads < threads,
        ensures
            final(d.0)@ == pass_left(old(d.0)@, old(d.1)@, cond, native_less::<T>()),
            final(d.1)@ == pass_right(old(d.0)@, old(d.1)@, cond, native_less::<T>()),
        {
            parallel_bitonic_pass(d.0, d.1, cond, pool, r_threads)
        };
    run_both(pool, first, (ll_quarter, rl_quarter), second, (lr_quarter, rr_quarter));
    proof {
        let lt = native_less::<T>();
        assert(ll_quarter@ + lr_quarter@ =~= pass_left(l0, r0, cond, lt));
        assert(rl_quarter@ + rr_quarter@ =~= pass_right(l0, r0, cond, lt));
    }
}

/// `bitonic_merge` with a budget of `threads`: with more than one thread
/// the merges of the two blocks, after the pass between them, are two tasks of
/// `pool`.
pub fn parallel_bitonic_merge<T: Ord + ObliviousSelect + Send>(
    l_half: &mut [T],
    r_half: &mut [T],
    cond: bool,
    pool: &ThreadPool,
    threads: usize,
)
    requires
        has_total_order::<T>(),
        mergeable(old(l_half)@.len(), old(r_half)@.len()),
    ensures
        final(l_half)@ + final(r_half)@ == merged(
            old(l_half)@ + old(r_half)@,
            cond,
            native_less::<T>(),
        ),
        final(l_half)@.len() == old(l_half)@.len(),
        final(r_half)@.len() == old(r_half)@.len(),
        (final(l_half)@ + final(r_half)@).to_multiset() == (old(l_half)@ + old(
            r_half,
        )@).to_multiset(),
        in_order(old(l_half)@, cond, native_less::<T>()) && in_order(
            old(r_half)@,
            !cond,
            native_less::<T>(),
        ) ==> in_order(final(l_half)@ + final(r_half)@, cond, native_less::<T>()),
    decreases old(l_half)@.len(),
{
    proof {
        lemma_merge(l_half@, r_half@, cond, native_less::<T>());
        lemma_native_order::<T>();
    }
    if threads <= 1 || l_half.len() < 1 {
        bitonic_merge(l_half, r_half, cond);
        return;
    }
    let ghost s = l_half@ + r_half@;
    let ghost h = l_half@.len() as int;
    proof {
        assert(s.subrange(0, h) =~= l_half@);
        assert(s.subrange(h, 2 * h) =~= r_half@);
        if h >= 2 {
            lemma_pow2_half(h);
        }
    }

    parallel_bitonic_pass(l_half, r_half, cond, pool, threads);
    let (l_threads, r_threads) = split_budget(threads);

    let ghost x = l_half@;
    let ghost y = r_half@;
    let left = |d: &mut [T]|
        requires
            has_total_order::<T>(),
            d@.len() == h,
            h == 1 || (h % 2 == 0 && is_pow2(h / 2)),
        ensures
            final(d)@ == merged(old(d)@, cond, native_less::<T>()),
        {
            let ghost whole = d@;
            let mid = d.len() / 2;
            let (ll_quarter, lr_quarter) = d.split_at_mut(mid);
            parallel_bitonic_merge(ll_quarter, lr_quarter, cond, pool, l_threads);
            proof {
                lemma_quarters(whole, cond, native_less::<T>());
            }
        };
    let right = |d: &mut [T]|
        requires
            has_total_order::<T>(),
            d@.len() == h,
            h == 1 || (h % 2 == 0 && is_pow2(h / 2)),
        ensures
            final(d)@ == merged(old(d)@, cond, native_less::<T>()),
        {
            let ghost whole = d@;
            let mid = d.len() / 2;
            let (rl_quarter, rr_quarter) = d.split_at_mut(mid);
            parallel_bitonic_merge(rl_quarter, rr_quarter, cond, pool, r_threads);
            proof {
                lemma_quarters(whole, cond, native_less::<T>());
            }
        };
    run_both(pool, left, l_half, right, r_half);
    proof {
        lemma_merged_keeps_elements(x, cond, native_less::<T>());
        lemma_merged_keeps_elements(y, cond, native_less::<T>());
    }
}

/// `bitonic_sort` with a budget of `threads`: with more than one thread
/// the two halves are sorted as two tasks of `pool`, each with its share of
/// the budget. The result does not depend on `threads`.
pub fn parallel_bitonic_sort<T: Ord + ObliviousSelect + Send>(
    data: &mut [T],
    cond: bool,
    pool: &ThreadPool,
    threads: usize,
)
    requires
        has_total_order::<T>(),
        old(data)@.len() == 0 || is_pow2(old(data)@.len() as int),
    ensures
        final(data)@ == bitonic_sorted(old(data)@, cond, native_less::<T>()),
        in_order(final(data)@, cond, native_less::<T>()),
        final(data)@.len() == old(data)@.len(),
        final(data)@.to_multiset() == old(data)@.to_multiset(),
        has_exact_eq::<T>() ==> final(data)@ == old(data)@.sort_by(
            direction(native_less::<T>(), cond),
        ),
    decreases old(data)@.len(),
{
    if threads <= 1 || data.len() <= 1 {
        bitonic_sort(data, cond);
        return;
    }
    proof {
        lemma_native_order::<T>();
        lemma_sorted_in_order(data@, cond, native_less::<T>());
        lemma_sorted_keeps_elements(data@, cond, native_less::<T>());
        if has_exact_eq::<T>() {
            lemma_sorted_is_arrangement(data@, cond, native_less::<T>());
        }
        lemma_pow2_half(data@.len() as int);
    }

    let mid = data.len() / 2;
    let (l_half, r_half) = data.split_at_mut(mid);
    let (l_threads, r_threads) = split_budget(threads);

    let left = |d: &mut [T]|
        requires
            has_total_order::<T>(),
            d@.len() == mid,
            is_pow2(mid as int),
            mid < old(data)@.len(),
        ensures
            final(d)@ == bitonic_sorted(old(d)@, cond, native_less::<T>()),
            final(d)@.len() == old(d)@.len(),
        {
            parallel_bitonic_sort(d, cond, pool, l_threads)
        };
    let right = |d: &mut [T]|
        requires
            has_total_order::<T>(),
            d@.len() == mid,
            is_pow2(mid as int),
            mid < old(data)@.len(),
        ensures
            final(d)@ == bitonic_sorted(old(d)@, !cond, native_less::<T>()),
            final(d)@.len() == old(d)@.len(),
        {
            parallel_bitonic_sort(d, !cond, pool, r_threads)
        };
    run_both(pool, left, l_half, right, r_half);
    parallel_bitonic_merge(l_half, r_half, cond, pool, threads);
}

} // verus!

//! Oblivious sorting with a bitonic network.
//!
//! The network itself sorts lengths that are powers of two. `sort` and
//! `par_sort` take any length: they pad the sequence with the greatest value
//! of its type, sort, and cut the padding off again.

use vstd::prelude::*;
use vstd::relations::sorted_by;
use vstd::seq_lib::{lemma_multiset_commutative, lemma_sorted_unique};
use crate::max::Max;
use crate::ops::select::ObliviousSelect;
use crate::ops::ObliviousOps;
use crate::order::{
    has_exact_eq, has_total_order, lemma_native_order, native_less, strict_total_order,
};
use crate::pow2::{ceil_pow2, is_pow2, lemma_pow2_ceil, lemma_pow2_half, pow2_ceil};
use crate::sort::bitonic::{bitonic_sort, mergeable, parallel_bitonic_sort};
use crate::sort::network::{
    bitonic_sorted, direction, in_order, lemma_direction, lemma_sorted_in_order,
    lemma_sorted_is_arrangement, lemma_sorted_keeps_elements, merged, pass_left, pass_right,
};
use rayon::ThreadPool;

pub mod bitonic;
pub mod network;
pub mod padded_bitonic;
pub mod zero_one;

verus! {

/// Nothing is above the greatest value of `T` in its native order.
pub open spec fn maximum_is_greatest<T: Ord + Max>() -> bool {
    forall|x: T| !#[trigger] native_less::<T>()(T::greatest(), x)
}

/// `n` copies of the greatest value of `T`.
pub open spec fn padding<T: Max>(n: int) -> Seq<T> {
    Seq::new(n as nat, |i: int| T::greatest())
}

/// What `sort` returns: the padded sequence sorted by the network, without
/// its last elements, as many as were added.
pub open spec fn sorted_with_padding<T: Ord + Max>(s: Seq<T>) -> Seq<T> {
    bitonic_sorted(
        s + padding::<T>(pow2_ceil(s.len() as int) - s.len()),
        true,
        native_less::<T>(),
    ).take(s.len() as int)
}

/// Cutting the padding off a sorted padded sequence leaves the elements of
/// the sequence, in ascending order: the padding stands behind them.
pub proof fn lemma_cut_padding<T>(
    s: Seq<T>,
    pad: Seq<T>,
    out: Seq<T>,
    lt: spec_fn(T, T) -> bool,
    top: T,
)
    requires
        strict_total_order(lt),
        forall|x: T| !#[trigger] lt(top, x),
        forall|i: int| 0 <= i < pad.len() ==> pad[i] == top,
        in_order(out, true, lt),
        out.to_multiset() == (s + pad).to_multiset(),
    ensures
        out.take(s.len() as int) == s.sort_by(direction(lt, true)),
        out.take(s.len() as int).to_multiset() == s.to_multiset(),
{
    let leq = direction(lt, true);
    lemma_direction(out, true, lt);
    s.lemma_sort_by_ensures(leq);
    let arranged = s.sort_by(leq);
    vstd::seq_lib::to_multiset_len(s);
    vstd::seq_lib::to_multiset_len(arranged);
    assert(arranged.len() == s.len());
    let whole = arranged + pad;
    assert(sorted_by(whole, leq));
    lemma_multiset_commutative(arranged, pad);
    lemma_multiset_commutative(s, pad);
    lemma_sorted_unique(out, whole, leq);
    assert(whole.take(s.len() as int) =~= arranged);
}

/// Sorting with padding gives a sequence in ascending order, of the length
/// of what it was given, whatever that length and whatever the values.
pub proof fn lemma_sorted_with_padding_in_order<T: Ord + Max>(s: Seq<T>)
    requires
        has_total_order::<T>(),
    ensures
        sorted_with_padding(s).len() == s.len(),
        in_order(sorted_with_padding(s), true, native_less::<T>()),
{
    let lt = native_less::<T>();
    let n = s.len() as int;
    lemma_native_order::<T>();
    lemma_pow2_ceil(n);
    let pad = padding::<T>(pow2_ceil(n) - n);
    let out = bitonic_sorted(s + pad, true, lt);
    lemma_sorted_in_order(s + pad, true, lt);
    lemma_sorted_keeps_elements(s + pad, true, lt);
    let cut = out.take(n);
    assert forall|i: int, j: int| #![trigger cut[i], cut[j]] 0 <= i < j < cut.len() implies !lt(
        cut[j],
        cut[i],
    ) by {
        assert(cut[i] == out[i] && cut[j] == out[j]);
    }
}

/// Sorting with padding gives the one ascending arrangement of the
/// elements, where equal values of `T` are the same value: no padding is left
/// in it and no element is lost, whatever the length.
pub proof fn lemma_sorted_with_padding<T: Ord + Max>(s: Seq<T>)
    requires
        has_total_order::<T>(),
        has_exact_eq::<T>(),
        maximum_is_greatest::<T>(),
    ensures
        sorted_with_padding(s) == s.sort_by(direction(native_less::<T>(), true)),
        in_order(sorted_with_padding(s), true, native_less::<T>()),
        sorted_with_padding(s).to_multiset() == s.to_multiset(),
{
    let lt = native_less::<T>();
    let n = s.len() as int;
    lemma_native_order::<T>();
    lemma_pow2_ceil(n);
    let pad = padding::<T>(pow2_ceil(n) - n);
    let out = bitonic_sorted(s + pad, true, lt);
    lemma_sorted_in_order(s + pad, true, lt);
    lemma_sorted_keeps_elements(s + pad, true, lt);
    lemma_cut_padding(s, pad, out, lt, T::greatest());
    let cut = out.take(n);
    assert forall|i: int, j: int| #![trigger cut[i], cut[j]] 0 <= i < j < cut.len() implies !lt(
        cut[j],
        cut[i],
    ) by {
        assert(cut[i] == out[i] && cut[j] == out[j]);
    }
}

/// Sorting a sequence that is in ascending order already gives the
/// sequence back.
pub proof fn lemma_sort_is_idempotent<T: Ord + Max>(s: Seq<T>)
    requires
        has_total_order::<T>(),
        has_exact_eq::<T>(),
        maximum_is_greatest::<T>(),
        in_order(s, true, native_less::<T>()),
    ensures
        sorted_with_padding(s) == s,
{
    let leq = direction(native_less::<T>(), true);
    lemma_native_order::<T>();
    lemma_sorted_with_padding(s);
    lemma_direction(s, true, native_less::<T>());
    lemma_direction(sorted_with_padding(s), true, native_less::<T>());
    lemma_sorted_unique(sorted_with_padding(s), s, leq);
}

/// The integer types that have a greatest value here can be sorted: their
/// native order is total, equal values are the same value, and nothing is
/// above the greatest.
pub proof fn lemma_integers_can_be_sorted()
    ensures
        has_total_order::<i16>() && has_exact_eq::<i16>() && maximum_is_greatest::<i16>(),
        has_total_order::<u16>() && has_exact_eq::<u16>() && maximum_is_greatest::<u16>(),
        has_total_order::<i32>() && has_exact_eq::<i32>() && maximum_is_greatest::<i32>(),
        has_total_order::<u32>() && has_exact_eq::<u32>() && maximum_is_greatest::<u32>(),
        has_total_order::<i64>() && has_exact_eq::<i64>() && maximum_is_greatest::<i64>(),
        has_total_order::<u64>() && has_exact_eq::<u64>() && maximum_is_greatest::<u64>(),
        has_total_order::<isize>() && has_exact_eq::<isize>() && maximum_is_greatest::<isize>(),
        has_total_order::<usize>() && has_exact_eq::<usize>() && maximum_is_greatest::<usize>(),
{
    broadcast use vstd::laws_cmp::group_laws_cmp;
    broadcast use vstd::laws_eq::group_laws_eq;

}

/// Pads `list` with the greatest value of `T` up to the next power of two.
fn pad_to_pow2<T: Ord + Max>(list: &mut Vec<T>)
    requires
        old(list)@.len() <= usize::MAX / 2 + 1,
    ensures
        final(list)@ == old(list)@ + padding::<T>(pow2_ceil(old(list)@.len() as int) - old(list)@.len()),
        final(list)@.len() == pow2_ceil(old(list)@.len() as int),
        is_pow2(final(list)@.len() as int),
{
    let list_len = list.len();
    let total = ceil_pow2(list_len);
    let remaining = total - list_len;
    let ghost before = list@;
    for k in 0..remaining
        invariant
            list@ == before + padding::<T>(k as int),
            before.len() == list_len,
            remaining == total - list_len,
    {
        list.push(T::maximum());
        assert(list@ =~= before + padding::<T>(k + 1));
    }
}

/// Sorts `list` in ascending order, whatever its length.
///
/// The result is in order and has the length of `list`. Where equal values
/// of `T` are the same value, as for the integers, it is the one ascending
/// arrangement of the elements of `list`.
pub fn sort<T: Ord + Max + ObliviousSelect>(list: Vec<T>) -> (sorted: Vec<T>)
    requires
        has_total_order::<T>(),
        maximum_is_greatest::<T>(),
        list@.len() <= usize::MAX / 2 + 1,
    ensures
        sorted@ == sorted_with_padding(list@),
        sorted@.len() == list@.len(),
        in_order(sorted@, true, native_less::<T>()),
        has_exact_eq::<T>() ==> sorted@ == list@.sort_by(direction(native_less::<T>(), true)),
        has_exact_eq::<T>() ==> sorted@.to_multiset() == list@.to_multiset(),
{
    let mut list = list;
    let ghost before = list@;
    let list_len = list.len();
    pad_to_pow2(&mut list);

    bitonic_sort(list.as_mut_slice(), true);
    list.truncate(list_len);
    proof {
        if has_exact_eq::<T>() {
            lemma_sorted_with_padding(before);
        }
    }
    list
}

/// `sort` with a budget of `threads` on `pool`. The result does not depend
/// on `threads`.
pub fn par_sort<T: Ord + Send + Max + ObliviousSelect>(
    list: Vec<T>,
    pool: &ThreadPool,
    threads: usize,
) -> (sorted: Vec<T>)
    requires
        has_total_order::<T>(),
        maximum_is_greatest::<T>(),
        list@.len() <= usize::MAX / 2 + 1,
    ensures
        sorted@ == sorted_with_padding(list@),
        sorted@.len() == list@.len(),
        in_order(sorted@, true, native_less::<T>()),
        has_exact_eq::<T>() ==> sorted@ == list@.sort_by(direction(native_less::<T>(), true)),
        has_exact_eq::<T>() ==> sorted@.to_multiset() == list@.to_multiset(),
{
    let mut list = list;
    let ghost before = list@;
    let list_len = list.len();
    pad_to_pow2(&mut list);

    parallel_bitonic_sort(list.as_mut_slice(), true, pool, threads);
    list.truncate(list_len);
    proof {
        if has_exact_eq::<T>() {
            lemma_sorted_with_padding(before);
        }
    }
    list
}

/// The strict order of ranks: what the comparators of the primitive layer
/// sort by.
pub open spec fn rank_less<T: ObliviousOps>() -> spec_fn(T, T) -> bool {
    |a: T, b: T| a.rank() < b.rank()
}

/// The order of ranks is a strict total order.
pub proof fn lemma_rank_order<T: ObliviousOps>()
    ensures
        strict_total_order(rank_less::<T>()),
{
    let lt = rank_less::<T>();
    assert forall|a: T, b: T| !#[trigger] lt(a, b) && !lt(b, a) implies a == b by {
        T::rank_is_injective(a, b);
    }
}

/// One pass of comparators of the primitive layer between two blocks of
/// equal length, ascending for `cond == 1` and descending for `cond == -1`.
fn comparator_pass<T: ObliviousOps>(l_half: &mut [T], r_half: &mut [T], cond: i8)
    requires
        cond == 1 || cond == -1,
        old(l_half)@.len() == old(r_half)@.len(),
    ensures
        final(l_half)@ == pass_left(old(l_half)@, old(r_half)@, cond == 1, rank_less::<T>()),
        final(r_half)@ == pass_right(old(l_half)@, old(r_half)@, cond == 1, rank_less::<T>()),
{
    let n = l_half.len();
    let ghost l0 = l_half@;
    let ghost r0 = r_half@;
    for i in 0..n
        invariant
            cond == 1 || cond == -1,
            l_half@.len() == n,
            r_half@.len() == n,
            l0.len() == n,
            r0.len() == n,
            forall|j: int| 0 <= j < i ==> l_half@[j] == pass_left(l0, r0, cond == 1, rank_less::<T>())[j],
            forall|j: int| 0 <= j < i ==> r_half@[j] == pass_right(l0, r0, cond == 1, rank_less::<T>())[j],
            forall|j: int| i <= j < n ==> l_half@[j] == l0[j] && r_half@[j] == r0[j],
    {
        proof {
            T::rank_is_injective(l_half@[i as int], r_half@[i as int]);
        }
        T::osort(cond, &mut l_half[i], &mut r_half[i]);
    }
    assert(l_half@ =~= pass_left(l0, r0, cond == 1, rank_less::<T>()));
    assert(r_half@ =~= pass_right(l0, r0, cond == 1, rank_less::<T>()));
}

/// The bitonic merge of two blocks with comparators of the primitive layer.
fn comparator_merge<T: ObliviousOps>(l_half: &mut [T], r_half: &mut [T], cond: i8)
    requires
        cond == 1 || cond == -1,
        mergeable(old(l_half)@.len(), old(r_half)@.len()),
    ensures
        final(l_half)@ + final(r_half)@ == merged(
            old(l_half)@ + old(r_half)@,
            cond == 1,
            rank_less::<T>(),
        ),
        final(l_half)@.len() == old(l_half)@.len(),
        final(r_half)@.len() == old(r_half)@.len(),
    decreases old(l_half)@.len(),
{
    let ghost s = l_half@ + r_half@;
    let ghost h = l_half@.len() as int;
    if l_half.len() < 1 {
        return;
    }
    proof {
        assert(s.subrange(0, h) =~= l_half@);
        assert(s.subrange(h, 2 * h) =~= r_half@);
        if h >= 2 {
            lemma_pow2_half(h);
        }
    }

    comparator_pass(l_half, r_half, cond);

    let ghost x = l_half@;
    let ghost y = r_half@;
    let l_mid = l_half.len() / 2;
    let r_mid = r_half.len() / 2;
    let (ll_quarter, lr_quarter) = l_half.split_at_mut(l_mid);
    let (rl_quarter, rr_quarter) = r_half.split_at_mut(r_mid);
    comparator_merge(ll_quarter, lr_quarter, cond);
    comparator_merge(rl_quarter, rr_quarter, cond);
    proof {
        assert(x.subrange(0, h / 2) + x.subrange(h / 2, h) =~= x);
        assert(y.subrange(0, h / 2) + y.subrange(h / 2, h) =~= y);
    }
}

/// The bitonic sort of a slice with comparators of the primitive layer.
fn comparator_sort<T: ObliviousOps>(list: &mut [T], cond: i8)
    requires
        cond == 1 || cond == -1,
        old(list)@.len() == 0 || is_pow2(old(list)@.len() as int),
    ensures
        final(list)@ == bitonic_sorted(old(list)@, cond == 1, rank_less::<T>()),
        final(list)@.len() == old(list)@.len(),
    decreases old(list)@.len(),
{
    proof {
        lemma_sorted_keeps_elements(list@, cond == 1, rank_less::<T>());
    }
    if list.len() <= 1 {
        return;
    }
    proof {
        lemma_pow2_half(list@.len() as int);
    }
    let mid = list.len() / 2;
    let (l_half, r_half) = list.split_at_mut(mid);
    comparator_sort(l_half, cond);
    comparator_sort(r_half, -cond);
    comparator_merge(l_half, r_half, cond);
}

/// Sorts `list`, whose length is a power of two, in place and in ascending
/// order of rank, with the comparators of the primitive layer.
///
/// `threads` is the budget that the caller grants. The comparators run in
/// the order that the length fixes, and the result does not depend on the
/// budget.
pub fn osort<T: ObliviousOps + Send>(list: &mut [T], threads: i8)
    requires
        old(list)@.len() == 0 || is_pow2(old(list)@.len() as int),
    ensures
        final(list)@ == bitonic_sorted(old(list)@, true, rank_less::<T>()),
        final(list)@ == old(list)@.sort_by(direction(rank_less::<T>(), true)),
        in_order(final(list)@, true, rank_less::<T>()),
        final(list)@.len() == old(list)@.len(),
        final(list)@.to_multiset() == old(list)@.to_multiset(),
{
    proof {
        let lt = rank_less::<T>();
        lemma_rank_order::<T>();
        lemma_sorted_in_order(list@, true, lt);
        lemma_sorted_keeps_elements(list@, true, lt);
        lemma_sorted_is_arrangement(list@, true, lt);
    }
    comparator_sort(list, 1);
}

} // verus!

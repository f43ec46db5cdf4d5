//! Bitonic sort of a list and its padding, held in two slices that are
//! sorted as one sequence: the list first, the padding behind it.

use vstd::prelude::*;
use crate::ops::swap::swap;
use crate::ops::select::ObliviousSelect;
use crate::order::{has_exact_eq, has_total_order, less, lemma_native_order, native_less};
use crate::pow2::{is_pow2, lemma_pow2_half};
use crate::sort::bitonic::{lemma_merge, mergeable};
use crate::sort::network::{
    bitonic_sorted, direction, in_order, lemma_sorted_in_order, lemma_sorted_is_arrangement,
    lemma_sorted_keeps_elements, merged, pass_left, pass_right,
};

verus! {

/// Splits the sequence that `list` and `pad` form together into its two
/// halves: the first half is `parts.0` followed by `parts.2`, the second is
/// `parts.1` followed by `parts.3`.
pub fn split<'list, 'pad, T>(list: &'list mut [T], pad: &'pad mut [T]) -> (parts: (
    &'list mut [T],
    &'list mut [T],
    &'pad mut [T],
    &'pad mut [T],
))
    requires
        old(list)@.len() + old(pad)@.len() <= usize::MAX,
    ensures
        parts.0@ + parts.2@ == (old(list)@ + old(pad)@).subrange(
            0,
            (old(list)@.len() + old(pad)@.len()) as int / 2,
        ),
        parts.1@ + parts.3@ == (old(list)@ + old(pad)@).subrange(
            (old(list)@.len() + old(pad)@.len()) as int / 2,
            (old(list)@.len() + old(pad)@.len()) as int,
        ),
        parts.0@.len() + parts.2@.len() == (old(list)@.len() + old(pad)@.len()) / 2,
        parts.0@.len() + parts.1@.len() == old(list)@.len(),
        parts.2@.len() + parts.3@.len() == old(pad)@.len(),
        parts.2@.len() == 0 || parts.1@.len() == 0,
        final(list)@ == final(parts.0)@ + final(parts.1)@,
        final(pad)@ == final(parts.2)@ + final(parts.3)@,
{
    let list_len = list.len();
    let pad_len = pad.len();
    let ghost whole = list@ + pad@;
    let ghost mid = (list_len + pad_len) as int / 2;

    if list_len >= pad_len {
        let (l, r) = list.split_at_mut((list_len + pad_len) / 2);
        let (l_pad, r_pad) = pad.split_at_mut(0);
        proof {
            assert(l@ + l_pad@ =~= whole.subrange(0, mid));
            assert(r@ + r_pad@ =~= whole.subrange(mid, list_len + pad_len));
        }
        (l, r, l_pad, r_pad)
    } else {
        let (l, r) = list.split_at_mut(list_len);
        let (l_pad, r_pad) = pad.split_at_mut((list_len + pad_len) / 2 - list_len);
        proof {
            assert(l@ + l_pad@ =~= whole.subrange(0, mid));
            assert(r@ + r_pad@ =~= whole.subrange(mid, list_len + pad_len));
        }
        (l, r, l_pad, r_pad)
    }
}

/// One pass of comparators between the two halves of a padded sequence.
pub fn padded_bitonic_pass<T: Ord + ObliviousSelect>(
    l_half: &mut [T],
    r_half: &mut [T],
    l_pad: &mut [T],
    r_pad: &mut [T],
    cond: bool,
)
    requires
        has_total_order::<T>(),
        old(l_half)@.len() + old(l_pad)@.len() == old(r_half)@.len() + old(r_pad)@.len(),
        old(l_half)@.len() + old(l_pad)@.len() <= usize::MAX,
    ensures
        final(l_half)@ + final(l_pad)@ == pass_left(
            old(l_half)@ + old(l_pad)@,
            old(r_half)@ + old(r_pad)@,
            cond,
            native_less::<T>(),
        ),
        final(r_half)@ + final(r_pad)@ == pass_right(
            old(l_half)@ + old(l_pad)@,
            old(r_half)@ + old(r_pad)@,
            cond,
            native_less::<T>(),
        ),
        final(l_half)@.len() == old(l_half)@.len(),
        final(l_pad)@.len() == old(l_pad)@.len(),
        final(r_half)@.len() == old(r_half)@.len(),
        final(r_pad)@.len() == old(r_pad)@.len(),
{
    let ghost l0 = l_half@ + l_pad@;
    let ghost r0 = r_half@ + r_pad@;
    let l_len = l_half.len();
    let r_len = r_half.len();
    let n = l_half.len() + l_pad.len();
    for i in 0..n
        invariant
            has_total_order::<T>(),
            l_half@.len() == l_len,
            r_half@.len() == r_len,
            l_half@.len() + l_pad@.len() == n,
            r_half@.len() + r_pad@.len() == n,
            l0.len() == n,
            r0.len() == n,
            forall|j: int|
                0 <= j < i ==> (l_half@ + l_pad@)[j] == pass_left(l0, r0, cond, native_less::<T>())[j],
            forall|j: int|
                0 <= j < i ==> (r_half@ + r_pad@)[j] == pass_right(l0, r0, cond, native_less::<T>())[j],
            forall|j: int|
                i <= j < n ==> (l_half@ + l_pad@)[j] == l0[j] && (r_half@ + r_pad@)[j] == r0[j],
    {
        let ghost lv = l_half@ + l_pad@;
        let ghost rv = r_half@ + r_pad@;
        let l = if i < l_len {
            &mut l_half[i]
        } else {
            &mut l_pad[i - l_len]
        };

        let r = if i < r_len {
            &mut r_half[i]
        } else {
            &mut r_pad[i - r_len]
        };
        assert(*l == lv[i as int]);
        assert(*r == rv[i as int]);

        let below = less(l, r);
        swap(below ^ cond, l, r);
        proof {
            let lw = l_half@ + l_pad@;
            let rw = r_half@ + r_pad@;
            assert forall|j: int| 0 <= j < n && j != i implies lw[j] == lv[j] && rw[j] == rv[j] by {}
        }
    }
    assert(l_half@ + l_pad@ =~= pass_left(l0, r0, cond, native_less::<T>()));
    assert(r_half@ + r_pad@ =~= pass_right(l0, r0, cond, native_less::<T>()));
}

/// Merges the two halves of a padded sequence, which together are bitonic,
/// into one sequence in the direction `cond`: of a half in order and a half in
/// order against it, it makes one sequence in order that holds the elements
/// of both.
pub fn padded_bitonic_merge<T: Ord + ObliviousSelect>(
    l_half: &mut [T],
    r_half: &mut [T],
    l_pad: &mut [T],
    r_pad: &mut [T],
    cond: bool,
)
    requires
        has_total_order::<T>(),
        mergeable(
            old(l_half)@.len() + old(l_pad)@.len(),
            old(r_half)@.len() + old(r_pad)@.len(),
        ),
        old(r_half)@.len() + old(r_pad)@.len() <= usize::MAX,
    ensures
        (final(l_half)@ + final(l_pad)@) + (final(r_half)@ + final(r_pad)@) == merged(
            (old(l_half)@ + old(l_pad)@) + (old(r_half)@ + old(r_pad)@),
            cond,
            native_less::<T>(),
        ),
        final(l_half)@.len() == old(l_half)@.len(),
        final(l_pad)@.len() == old(l_pad)@.len(),
        final(r_half)@.len() == old(r_half)@.len(),
        final(r_pad)@.len() == old(r_pad)@.len(),
        ((final(l_half)@ + final(l_pad)@) + (final(r_half)@ + final(r_pad)@)).to_multiset() == ((
            old(l_half)@ + old(l_pad)@) + (old(r_half)@ + old(r_pad)@)).to_multiset(),
        in_order(old(l_half)@ + old(l_pad)@, cond, native_less::<T>()) && in_order(
            old(r_half)@ + old(r_pad)@,
            !cond,
            native_less::<T>(),
        ) ==> in_order(
            (final(l_half)@ + final(l_pad)@) + (final(r_half)@ + final(r_pad)@),
            cond,
            native_less::<T>(),
        ),
    decreases old(l_half)@.len() + old(l_pad)@.len(),
{
    proof {
        lemma_merge(l_half@ + l_pad@, r_half@ + r_pad@, cond, native_less::<T>());
        lemma_native_order::<T>();
    }
    let ghost l0 = l_half@ + l_pad@;
    let ghost r0 = r_half@ + r_pad@;
    let ghost h = l0.len() as int;
    if l_half.len() + l_pad.len() < 1 || r_half.len() + r_pad.len() < 1 {
        return;
    }
    proof {
        assert((l0 + r0).subrange(0, h) =~= l0);
        assert((l0 + r0).subrange(h, 2 * h) =~= r0);
        if h >= 2 {
            lemma_pow2_half(h);
        }
    }

    padded_bitonic_pass(l_half, r_half, l_pad, r_pad, cond);

    let ghost x = l_half@ + l_pad@;
    let ghost y = r_half@ + r_pad@;
    let (ll_quarter, lr_quarter, ll_pad, lr_pad) = split(l_half, l_pad);
    let (rl_quarter, rr_quarter, rl_pad, rr_pad) = split(r_half, r_pad);
    padded_bitonic_merge(ll_quarter, lr_quarter, ll_pad, lr_pad, cond);
    padded_bitonic_merge(rl_quarter, rr_quarter, rl_pad, rr_pad, cond);
    proof {
        assert(x.subrange(0, h / 2) + x.subrange(h / 2, h) =~= x);
        assert(y.subrange(0, h / 2) + y.subrange(h / 2, h) =~= y);
        lemma_regroup(ll_quarter@, lr_quarter@, ll_pad@, lr_pad@, h / 2);
        lemma_regroup(rl_quarter@, rr_quarter@, rl_pad@, rr_pad@, h / 2);
    }
}

/// The two ways to read four parts as one sequence agree: first halves
/// then second halves, or list parts then padding parts, where the padding of
/// the first half starts only after the list has ended.
proof fn lemma_regroup<T>(a: Seq<T>, b: Seq<T>, c: Seq<T>, d: Seq<T>, mid: int)
    requires
        a.len() + c.len() == mid,
        c.len() == 0 || b.len() == 0,
    ensures
        (a + c) + (b + d) == (a + b) + (c + d),
{
    assert((a + c) + (b + d) =~= (a + b) + (c + d));
}

/// Sorts the sequence that `list` and `pad` form together, whose length is a
/// power of two, in place: ascending when `cond` is set, descending when it
/// is not.
pub fn padded_bitonic_sort<T: Ord + ObliviousSelect>(list: &mut [T], pad: &mut [T], cond: bool)
    requires
        has_total_order::<T>(),
        old(list)@.len() + old(pad)@.len() <= usize::MAX,
        old(list)@.len() + old(pad)@.len() == 0 || is_pow2(
            (old(list)@.len() + old(pad)@.len()) as int,
        ),
    ensures
        final(list)@ + final(pad)@ == bitonic_sorted(
            old(list)@ + old(pad)@,
            cond,
            native_less::<T>(),
        ),
        in_order(final(list)@ + final(pad)@, cond, native_less::<T>()),
        final(list)@.len() == old(list)@.len(),
        final(pad)@.len() == old(pad)@.len(),
        (final(list)@ + final(pad)@).to_multiset() == (old(list)@ + old(pad)@).to_multiset(),
        has_exact_eq::<T>() ==> final(list)@ + final(pad)@ == (old(list)@ + old(pad)@).sort_by(
            direction(native_less::<T>(), cond),
        ),
    decreases old(list)@.len() + old(pad)@.len(),
{
    let ghost whole = list@ + pad@;
    let ghost n = whole.len() as int;
    proof {
        lemma_native_order::<T>();
        lemma_sorted_in_order(whole, cond, native_less::<T>());
        lemma_sorted_keeps_elements(whole, cond, native_less::<T>());
        if has_exact_eq::<T>() {
            lemma_sorted_is_arrangement(whole, cond, native_less::<T>());
        }
    }
    if list.len() + pad.len() <= 1 {
        return;
    }
    proof {
        lemma_pow2_half(n);
    }

    let (l_half, r_half, l_pad, r_pad) = split(list, pad);
    padded_bitonic_sort(l_half, l_pad, cond);
    padded_bitonic_sort(r_half, r_pad, !cond);
    padded_bitonic_merge(l_half, r_half, l_pad, r_pad, cond);
    proof {
        lemma_regroup(l_half@, r_half@, l_pad@, r_pad@, n / 2);
    }
}

} // verus!

//! Compaction in place: the recursion on blocks and the layers of
//! conditional exchanges that put its parts together.

use vstd::prelude::*;
use crate::compact::model::{
    compacted, count_set, dropped, exchange, kept, lemma_compacted, lemma_compacted_rest,
    lemma_mod_cases, lemma_off_compacted, off_compacted, placed_from,
};
use crate::ops::swap::swap;
use crate::ops::select::ObliviousSelect;
use crate::pool::{run_both, split_budget};
use crate::pow2::{floor_pow2, is_pow2, lemma_pow2_half};
use rayon::ThreadPool;

verus! {

/// The number of set tags among the first `end` tags.
pub fn count_tags(bits: &[bool], end: usize) -> (m: usize)
    requires
        end <= bits@.len(),
    ensures
        m == count_set(bits@.subrange(0, end as int)),
        m <= end,
{
    let mut m: usize = 0;
    let mut i: usize = 0;
    while i < end
        invariant
            i <= end <= bits@.len(),
            m == count_set(bits@.subrange(0, i as int)),
            m <= i,
        decreases end - i,
    {
        proof {
            assert(bits@.subrange(0, i + 1).drop_last() =~= bits@.subrange(0, i as int));
        }
        m = m + bits[i] as usize;
        i = i + 1;
    }
    m
}

/// One layer of exchanges between two blocks of equal length: the elements
/// at position `i` change sides where `flip != (i >= edge)`.
pub fn exchange_blocks<T: ObliviousSelect>(l_data: &mut [T], r_data: &mut [T], flip: bool, edge: usize)
    requires
        old(l_data)@.len() == old(r_data)@.len(),
    ensures
        final(l_data)@ == exchange(old(l_data)@, old(r_data)@, flip, edge as int),
        final(r_data)@ == exchange(old(r_data)@, old(l_data)@, flip, edge as int),
{
    let n = l_data.len();
    let ghost l0 = l_data@;
    let ghost r0 = r_data@;
    let mut i: usize = 0;
    while i < n
        invariant
            i <= n,
            l_data@.len() == n,
            r_data@.len() == n,
            l0.len() == n,
            r0.len() == n,
            forall|j: int| 0 <= j < i ==> l_data@[j] == exchange(l0, r0, flip, edge as int)[j],
            forall|j: int| 0 <= j < i ==> r_data@[j] == exchange(r0, l0, flip, edge as int)[j],
            forall|j: int| i <= j < n ==> l_data@[j] == l0[j] && r_data@[j] == r0[j],
        decreases n - i,
    {
        let b = flip ^ (i >= edge);
        swap(b, &mut l_data[i], &mut r_data[i]);
        i = i + 1;
    }
    assert(l_data@ =~= exchange(l0, r0, flip, edge as int));
    assert(r_data@ =~= exchange(r0, l0, flip, edge as int));
}

/// Compacts a block whose length is a power of two, rotated by `offset`:
/// afterwards the kept elements stand consecutively from position `offset`,
/// in their original order, running around the end of the block.
pub fn or_off_compact<T: ObliviousSelect>(data: &mut [T], bits: &[bool], offset: usize)
    requires
        old(data)@.len() == bits@.len(),
        old(data)@.len() == 0 || is_pow2(old(data)@.len() as int),
        old(data)@.len() == 0 || offset < old(data)@.len(),
    ensures
        final(data)@ == off_compacted(old(data)@, bits@, offset as int),
        final(data)@.len() == old(data)@.len(),
        placed_from(final(data)@, old(data)@, bits@, offset as int),
        final(data)@.to_multiset() == old(data)@.to_multiset(),
    decreases old(data)@.len(),
{
    let n = data.len();
    proof {
        if n > 0 {
            lemma_off_compacted(data@, bits@, offset as int);
        }
    }

    if n < 2 {
        return;
    } else if n == 2 {
        let (l_data, r_data) = data.split_at_mut(1);
        let first = !bits[0] as u8;
        let second = bits[1] as u8;
        assert(first & second == if first == 1 && second == 1 { 1u8 } else { 0u8 }) by (bit_vector)
            requires
                first == 0 || first == 1,
                second == 0 || second == 1,
        ;
        let b = ((first & second) != 0) ^ (offset != 0);
        swap(b, &mut l_data[0], &mut r_data[0]);
        proof {
            let d = old(data)@;
            assert(l_data@ + r_data@ =~= if b { seq![d[1], d[0]] } else { d });
        }
        return;
    }

    proof {
        lemma_pow2_half(n as int);
    }
    let h = n / 2;
    let m: usize = count_tags(bits, h);
    let (l_data, r_data) = data.split_at_mut(h);
    let (l_bits, r_bits) = bits.split_at(h);
    proof {
        lemma_mod_cases(offset as int, h as int);
        lemma_mod_cases(offset + m, h as int);
        lemma_mod_cases(offset % h + m, h as int);
    }
    let edge = (offset % h + m) % h;
    or_off_compact(l_data, l_bits, offset % h);
    or_off_compact(r_data, r_bits, edge);

    let mut s = (offset % h) + m >= h;
    s ^= offset >= h;
    exchange_blocks(l_data, r_data, s, edge);
}

/// Compacts `data` by `bits` in place: the elements whose tag is set come
/// first, in their original order, and every element is still there.
pub fn or_compact<T: ObliviousSelect>(data: &mut [T], bits: &[bool])
    requires
        old(data)@.len() == bits@.len(),
    ensures
        final(data)@ == compacted(old(data)@, bits@),
        final(data)@.len() == old(data)@.len(),
        final(data)@.subrange(0, count_set(bits@) as int) == kept(old(data)@, bits@),
        final(data)@.subrange(count_set(bits@) as int, old(data)@.len() as int).to_multiset()
            == dropped(old(data)@, bits@).to_multiset(),
        final(data)@.to_multiset() == old(data)@.to_multiset(),
    decreases old(data)@.len(),
{
    let n = data.len();
    proof {
        lemma_compacted(data@, bits@);
        lemma_compacted_rest(data@, bits@);
    }

    if n == 0 {
        return;
    }

    let n1: usize = floor_pow2(n);
    let n2 = n - n1;
    let m: usize = count_tags(bits, n2);

    let (l_data, r_data) = data.split_at_mut(n2);
    let (l_bits, r_bits) = bits.split_at(n2);
    proof {
        lemma_mod_cases(n1 - n2 + m, n1 as int);
    }
    or_compact(l_data, l_bits);
    or_off_compact(r_data, r_bits, (n1 - n2 + m) % n1);
    let (head, tail) = r_data.split_at_mut(n1 - n2);
    exchange_blocks(l_data, tail, false, m);
    proof {
        assert(l_data@ + (head@ + tail@) =~= l_data@ + head@ + tail@);
    }
}

/// `or_off_compact` with a budget of `threads`: with more than one thread
/// and more than two elements, the two halves of the block are compacted as
/// two tasks of `pool`, each with its share of the budget. The result does
/// not depend on `threads`.
pub fn parallel_or_off_compact<T: ObliviousSelect + Send>(
    data: &mut [T],
    bits: &[bool],
    offset: usize,
    pool: &ThreadPool,
    threads: usize,
)
    requires
        old(data)@.len() == bits@.len(),
        old(data)@.len() == 0 || is_pow2(old(data)@.len() as int),
        old(data)@.len() == 0 || offset < old(data)@.len(),
    ensures
        final(data)@ == off_compacted(old(data)@, bits@, offset as int),
        final(data)@.len() == old(data)@.len(),
        placed_from(final(data)@, old(data)@, bits@, offset as int),
        final(data)@.to_multiset() == old(data)@.to_multiset(),
    decreases old(data)@.len(),
{
    let n = data.len();

    if threads <= 1 || n <= 2 {
        or_off_compact(data, bits, offset);
        return;
    }

    proof {
        lemma_off_compacted(data@, bits@, offset as int);
        lemma_pow2_half(n as int);
    }
    let h = n / 2;
    let m: usize = count_tags(bits, h);
    let (l_data, r_data) = data.split_at_mut(h);
    let (l_bits, r_bits) = bits.split_at(h);
    let (l_threads, r_threads) = split_budget(threads);
    proof {
        lemma_mod_cases(offset as int, h as int);
        lemma_mod_cases(offset + m, h as int);
        lemma_mod_cases(offset % h + m, h as int);
    }
    let edge = (offset % h + m) % h;
    let l_offset = offset % h;

    let left = |d: &mut [T]|
        requires
            d@.len() == h,
            l_bits@.len() == h,
            is_pow2(h as int),
            l_offset < h,
        ensures
            final(d)@ == off_compacted(old(d)@, l_bits@, l_offset as int),
            final(d)@.len() == old(d)@.len(),
        {
            parallel_or_off_compact(d, l_bits, l_offset, pool, l_threads)
        };
    let right = |d: &mut [T]|
        requires
            d@.len() == h,
            r_bits@.len() == h,
            is_pow2(h as int),
            edge < h,
        ensures
            final(d)@ == off_compacted(old(d)@, r_bits@, edge as int),
            final(d)@.len() == old(d)@.len(),
        {
            parallel_or_off_compact(d, r_bits, edge, pool, r_threads)
        };
    run_both(pool, left, l_data, right, r_data);

    let mut s = (offset % h) + m >= h;
    s ^= offset >= h;
    exchange_blocks(l_data, r_data, s, edge);
}

/// `or_compact` with a budget of `threads`: with more than one thread, the
/// front block and the back block are compacted as two tasks of `pool`. The
/// result does not depend on `threads`.
pub fn parallel_or_compact<T: ObliviousSelect + Send>(
    data: &mut [T],
    bits: &[bool],
    pool: &ThreadPool,
    threads: usize,
)
    requires
        old(data)@.len() == bits@.len(),
    ensures
        final(data)@ == compacted(old(data)@, bits@),
        final(data)@.len() == old(data)@.len(),
        final(data)@.subrange(0, count_set(bits@) as int) == kept(old(data)@, bits@),
        final(data)@.subrange(count_set(bits@) as int, old(data)@.len() as int).to_multiset()
            == dropped(old(data)@, bits@).to_multiset(),
        final(data)@.to_multiset() == old(data)@.to_multiset(),
{
    let n = data.len();

    if threads <= 1 || n == 0 {
        or_compact(data, bits);
        return;
    }

    proof {
        lemma_compacted(data@, bits@);
        lemma_compacted_rest(data@, bits@);
    }
    let n1: usize = floor_pow2(n);
    let n2 = n - n1;
    let m: usize = count_tags(bits, n2);

    let (l_data, r_data) = data.split_at_mut(n2);
    let (l_bits, r_bits) = bits.split_at(n2);
    proof {
        lemma_mod_cases(n1 - n2 + m, n1 as int);
    }
    let offset = (n1 - n2 + m) % n1;
    let front = |d: &mut [T]|
        requires
            d@.len() == l_bits@.len(),
        ensures
            final(d)@ == compacted(old(d)@, l_bits@),
            final(d)@.len() == old(d)@.len(),
        {
            or_compact(d, l_bits)
        };
    let back = |d: &mut [T]|
        requires
            d@.len() == n1,
            r_bits@.len() == n1,
            is_pow2(n1 as int),
            offset < n1,
        ensures
            final(d)@ == off_compacted(old(d)@, r_bits@, offset as int),
            final(d)@.len() == old(d)@.len(),
        {
            parallel_or_off_compact(d, r_bits, offset, pool, threads)
        };
    run_both(pool, front, l_data, back, r_data);
    let (head, tail) = r_data.split_at_mut(n1 - n2);
    exchange_blocks(l_data, tail, false, m);
    proof {
        assert(l_data@ + (head@ + tail@) =~= l_data@ + head@ + tail@);
    }
}

} // verus!

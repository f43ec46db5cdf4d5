//! Stable compaction of a sequence by a sequence of tags.
//!
//! A tag marks its element as kept. Compaction moves the kept elements to
//! the front, in their original order, with a sequence of conditional
//! exchanges that depends on the length alone.

use vstd::prelude::*;
use crate::compact::model::{
    compacted, count_set, dropped, kept, lemma_compacted, lemma_count_bound,
};
use crate::compact::or_compact::{or_compact, parallel_or_compact};
use crate::ops::select::ObliviousSelect;
use rayon::ThreadPool;

pub mod model;
pub mod or_compact;

verus! {

/// The tags that a sequence of integers stands for: a tag is set where the
/// integer is not zero.
pub open spec fn tags_of(bits: Seq<usize>) -> Seq<bool> {
    Seq::new(bits.len(), |i: int| bits[i] != 0)
}

/// The sum of a sequence of integer tags.
pub open spec fn tag_sum(bits: Seq<usize>) -> nat
    decreases bits.len(),
{
    if bits.len() == 0 {
        0
    } else {
        tag_sum(bits.drop_last()) + bits.last() as nat
    }
}

/// Where every tag is `0` or `1`, as many tags are set as their sum says.
pub proof fn lemma_tag_sum(bits: Seq<usize>)
    requires
        forall|i: int| 0 <= i < bits.len() ==> bits[i] <= 1,
    ensures
        count_set(tags_of(bits)) == tag_sum(bits),
    decreases bits.len(),
{
    if bits.len() > 0 {
        lemma_tag_sum(bits.drop_last());
        assert(tags_of(bits).drop_last() =~= tags_of(bits.drop_last()));
    }
}

/// What a predicate said of each element of `data`: `bits[i]` is a result of
/// `f` on `data[i]`.
pub open spec fn marked_by<T, F: Fn(&T) -> bool>(f: F, data: Seq<T>, bits: Seq<bool>) -> bool {
    &&& bits.len() == data.len()
    &&& forall|i: int| 0 <= i < data.len() ==> f.ensures((&data[i],), #[trigger] bits[i])
}

/// The tags of the elements of `data` as booleans.
fn to_tags(bits: &[usize]) -> (tags: Vec<bool>)
    ensures
        tags@ == tags_of(bits@),
{
    let mut tags: Vec<bool> = Vec::new();
    let n = bits.len();
    for i in 0..n
        invariant
            n == bits@.len(),
            tags@ == tags_of(bits@.subrange(0, i as int)),
    {
        tags.push(bits[i] != 0);
        assert(tags@ =~= tags_of(bits@.subrange(0, i + 1)));
    }
    assert(bits@.subrange(0, n as int) =~= bits@);
    tags
}

/// The predicate's result on each element of `data`, in order.
pub fn mark<T, F>(data: &[T], f: &F) -> (bits: Vec<bool>) where F: Fn(&T) -> bool
    requires
        forall|i: int| 0 <= i < data@.len() ==> f.requires((&data@[i],)),
    ensures
        marked_by(*f, data@, bits@),
{
    let mut bits: Vec<bool> = Vec::new();
    let n = data.len();
    for i in 0..n
        invariant
            n == data@.len(),
            bits@.len() == i,
            forall|j: int| 0 <= j < data@.len() ==> f.requires((&data@[j],)),
            forall|j: int| 0 <= j < i ==> f.ensures((&data@[j],), #[trigger] bits@[j]),
    {
        let b = f(&data[i]);
        bits.push(b);
    }
    bits
}

/// Compacts `data` in place by integer tags, with a budget of `threads` on
/// `pool`: the elements whose tag is not zero come first, in their original
/// order, and every element is still there. The result does not depend on
/// `threads`.
pub fn compact<T: ObliviousSelect + Send>(
    data: &mut [T],
    bits: &[usize],
    pool: &ThreadPool,
    threads: usize,
)
    requires
        old(data)@.len() == bits@.len(),
    ensures
        final(data)@ == compacted(old(data)@, tags_of(bits@)),
        final(data)@.len() == old(data)@.len(),
        final(data)@.subrange(0, count_set(tags_of(bits@)) as int) == kept(
            old(data)@,
            tags_of(bits@),
        ),
        final(data)@.subrange(
            count_set(tags_of(bits@)) as int,
            old(data)@.len() as int,
        ).to_multiset() == dropped(old(data)@, tags_of(bits@)).to_multiset(),
        final(data)@.to_multiset() == old(data)@.to_multiset(),
{
    let tags = to_tags(bits);
    parallel_or_compact(data, tags.as_slice(), pool, threads);
}

/// Keeps the elements of `data` that `f` holds of, in their original order:
/// compacts `data` by the results of `f` and cuts it to `num_matches`
/// elements, the number of elements that `f` holds of, which the caller
/// knows.
///
/// `threads` is the budget that the caller grants; the result does not
/// depend on it.
pub fn ofilter<T: ObliviousSelect + Send, F>(data: Vec<T>, f: F, num_matches: usize, threads: u8) -> (out:
    Vec<T>) where F: Fn(&T) -> bool
    requires
        forall|i: int| 0 <= i < data@.len() ==> f.requires((&data@[i],)),
        forall|bits: Seq<bool>| #[trigger]
            marked_by(f, data@, bits) ==> count_set(bits) == num_matches,
    ensures
        exists|bits: Seq<bool>| #[trigger] marked_by(f, data@, bits) && out@ == kept(data@, bits),
        out@.len() == num_matches,
{
    let mut data = data;
    let ghost before = data@;
    let bits = mark(data.as_slice(), &f);
    or_compact(data.as_mut_slice(), bits.as_slice());
    data.truncate(num_matches);
    proof {
        lemma_compacted(before, bits@);
        lemma_count_bound(bits@);
        assert(marked_by(f, before, bits@));
        assert(data@ =~= compacted(before, bits@).subrange(0, count_set(bits@) as int));
    }
    data
}

} // verus!

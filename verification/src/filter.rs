//! Filtering in place: the matching elements first, the others behind them.

use vstd::prelude::*;
use crate::compact::model::{compacted, count_set, kept};
use crate::compact::or_compact::or_compact;
use crate::compact::{mark, marked_by};
use crate::ops::select::ObliviousSelect;

verus! {

/// Reorders `data` in place by the results of `f`: the elements that `f`
/// held of come first, in their original order, and every element is still
/// there. `threads` is the budget that the caller grants; the result does not
/// depend on it.
pub fn ofilter<T: ObliviousSelect + Send, F>(data: &mut [T], f: F, threads: usize) where
    F: Fn(&T) -> bool,

    requires
        forall|i: int| 0 <= i < old(data)@.len() ==> f.requires((&old(data)@[i],)),
    ensures
        exists|bits: Seq<bool>|
            {
                &&& #[trigger] marked_by(f, old(data)@, bits)
                &&& final(data)@ == compacted(old(data)@, bits)
                &&& final(data)@.subrange(0, count_set(bits) as int) == kept(old(data)@, bits)
            },
        final(data)@.len() == old(data)@.len(),
        final(data)@.to_multiset() == old(data)@.to_multiset(),
{
    let ghost before = data@;
    let bits = mark(data, &f);
    or_compact(data, bits.as_slice());
    proof {
        assert(marked_by(f, before, bits@));
    }
}

} // verus!

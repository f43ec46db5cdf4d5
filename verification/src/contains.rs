//! Membership in a list, found without stopping at the first match.

use vstd::prelude::*;
use vstd::std_specs::cmp::PartialEqSpec;

verus! {

/// Whether some element of `list` equals `item`. Every element is compared,
/// wherever a match stands: the number of comparisons depends on the length
/// of the list alone.
pub fn contains<T: Eq>(list: &[T], item: &T) -> (found: bool)
    ensures
        T::obeys_eq_spec() ==> (found <==> exists|i: int|
            0 <= i < list@.len() && #[trigger] list@[i].eq_spec(item)),
{
    let mut seen: u8 = 0;
    let n = list.len();
    for k in 0..n
        invariant
            n == list@.len(),
            seen == 0 || seen == 1,
            T::obeys_eq_spec() ==> (seen == 1 <==> exists|i: int|
                0 <= i < k && #[trigger] list@[i].eq_spec(item)),
    {
        let hit = (list[k] == *item) as u8;
        assert(seen | hit == if seen == 1 || hit == 1 { 1u8 } else { 0u8 }) by (bit_vector)
            requires
                seen == 0 || seen == 1,
                hit == 0 || hit == 1,
        ;
        seen = seen | hit;
    }
    seen == 1
}

} // verus!

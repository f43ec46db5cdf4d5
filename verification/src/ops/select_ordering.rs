//! Selection between the results of comparisons.

use vstd::prelude::*;
use crate::ops::backend::{flag_of, select_8};
use core::cmp::Ordering;

verus! {

/// The number that stands for the result of a comparison: `-1` for less,
/// `0` for equal, `1` for greater.
pub open spec fn ordering_code(o: Ordering) -> i8 {
    match o {
        Ordering::Less => -1i8,
        Ordering::Equal => 0i8,
        Ordering::Greater => 1i8,
    }
}

/// The number that stands for the result of a comparison.
pub fn code_of(o: Ordering) -> (code: i8)
    ensures
        code == ordering_code(o),
{
    match o {
        Ordering::Less => -1,
        Ordering::Equal => 0,
        Ordering::Greater => 1,
    }
}

/// `a` when `cond` holds, `b` otherwise, for the results of comparisons: one
/// selection of the primitive layer between the numbers that stand for them.
pub fn select_ordering(cond: bool, a: Ordering, b: Ordering) -> (r: Ordering)
    ensures
        r == if cond { a } else { b },
{
    let code = select_8(flag_of(cond), code_of(a), code_of(b));
    code.cmp(&0)
}

} // verus!

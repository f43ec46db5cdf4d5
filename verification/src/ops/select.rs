//! Selection by a truth value: all that a value needs to be moved by the
//! compaction, sorting and shuffling routines.

use vstd::prelude::*;
use crate::ops::backend::{flag_of, select_16, select_32, select_64, select_8};

verus! {

/// Values that can be selected between without a branch on the condition.
///
/// The routines that only move their elements ask for no more than this. A
/// type of several fields can implement it field by field.
pub trait ObliviousSelect: Copy {
    /// `a` when `cond` holds, `b` otherwise.
    fn oselect(cond: bool, a: Self, b: Self) -> (r: Self)
        ensures
            r == if cond { a } else { b },
    ;
}

impl ObliviousSelect for i8 {
    fn oselect(cond: bool, a: Self, b: Self) -> (r: Self) {
        select_8(flag_of(cond), a, b)
    }
}

impl ObliviousSelect for u8 {
    fn oselect(cond: bool, a: Self, b: Self) -> (r: Self) {
        proof {
            assert((a as i8) as u8 == a && (b as i8) as u8 == b) by (bit_vector);
        }
        select_8(flag_of(cond), a as i8, b as i8) as u8
    }
}

impl ObliviousSelect for i16 {
    fn oselect(cond: bool, a: Self, b: Self) -> (r: Self) {
        select_16(flag_of(cond), a, b)
    }
}

impl ObliviousSelect for u16 {
    fn oselect(cond: bool, a: Self, b: Self) -> (r: Self) {
        proof {
            assert((a as i16) as u16 == a && (b as i16) as u16 == b) by (bit_vector);
        }
        select_16(flag_of(cond), a as i16, b as i16) as u16
    }
}

impl ObliviousSelect for i32 {
    fn oselect(cond: bool, a: Self, b: Self) -> (r: Self) {
        select_32(flag_of(cond), a, b)
    }
}

impl ObliviousSelect for u32 {
    fn oselect(cond: bool, a: Self, b: Self) -> (r: Self) {
        proof {
            assert((a as i32) as u32 == a && (b as i32) as u32 == b) by (bit_vector);
        }
        select_32(flag_of(cond), a as i32, b as i32) as u32
    }
}

impl ObliviousSelect for i64 {
    fn oselect(cond: bool, a: Self, b: Self) -> (r: Self) {
        select_64(flag_of(cond), a, b)
    }
}

impl ObliviousSelect for u64 {
    fn oselect(cond: bool, a: Self, b: Self) -> (r: Self) {
        proof {
            assert((a as i64) as u64 == a && (b as i64) as u64 == b) by (bit_vector);
        }
        select_64(flag_of(cond), a as i64, b as i64) as u64
    }
}

impl ObliviousSelect for isize {
    fn oselect(cond: bool, a: Self, b: Self) -> (r: Self) {
        select_64(flag_of(cond), a as i64, b as i64) as isize
    }
}

impl ObliviousSelect for usize {
    fn oselect(cond: bool, a: Self, b: Self) -> (r: Self) {
        proof {
            let x = a as u64;
            let y = b as u64;
            assert((x as i64) as u64 == x && (y as i64) as u64 == y) by (bit_vector);
        }
        select_64(flag_of(cond), a as u64 as i64, b as u64 as i64) as u64 as usize
    }
}

} // verus!

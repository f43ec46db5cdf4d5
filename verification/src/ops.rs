//! The primitive layer: selection, comparison and exchange of fixed-width
//! values without a branch on the values.
//!
//! [`ObliviousOps`] is the whole layer, for values that are ordered. A
//! condition is an `i8` flag there: zero is false, anything else is true, and
//! the operations themselves hand out `0` and `1`. The routines that only move
//! their elements ask for [`select::ObliviousSelect`] alone.

use vstd::prelude::*;
use crate::ops::backend::{
    compare_16, compare_32, compare_64, compare_8, equal_16, equal_32, equal_64, equal_8, flag,
    select_16, select_32, select_64, select_8, three_way,
};

pub mod backend;
pub mod select;
pub mod select_ordering;
pub mod swap;

verus! {

/// Values that can be selected, compared and exchanged obliviously.
///
/// `rank` is the integer by which `ocompare` orders the values. For a signed
/// type it is the value itself. For an unsigned type it is the value's bit
/// pattern read as a signed number of the same width, so an unsigned value with
/// its top bit set ranks below one without.
pub trait ObliviousOps: Copy {
    /// The integer that stands for `self` in every comparison.
    spec fn rank(self) -> int;

    /// Two values of equal rank are the same value.
    proof fn rank_is_injective(a: Self, b: Self)
        ensures
            a.rank() == b.rank() ==> a == b,
    ;

    /// `a` when `cond` is nonzero, `b` otherwise.
    fn oselect(cond: i8, a: Self, b: Self) -> (r: Self)
        ensures
            r == if cond != 0 { a } else { b },
    ;

    /// `1` when `a` and `b` are the same value, `0` otherwise.
    fn oequal(a: Self, b: Self) -> (r: i8)
        ensures
            r == flag(a == b),
    ;

    /// `-1`, `0` or `1` as `a` ranks below, with or above `b`.
    fn ocompare(a: Self, b: Self) -> (r: i8)
        ensures
            r == three_way(a.rank(), b.rank()),
    ;

    /// `1` when `a` ranks above `b`, `0` otherwise.
    fn ogreater(a: Self, b: Self) -> (r: i8)
        ensures
            r == flag(a.rank() > b.rank()),
    {
        equal_8(Self::ocompare(a, b), 1)
    }

    /// `1` when `a` ranks below `b`, `0` otherwise.
    fn olesser(a: Self, b: Self) -> (r: i8)
        ensures
            r == flag(a.rank() < b.rank()),
    {
        equal_8(Self::ocompare(a, b), -1)
    }

    /// `1` when `a` ranks above or with `b`, `0` otherwise.
    fn ogreater_equal(a: Self, b: Self) -> (r: i8)
        ensures
            r == flag(a.rank() >= b.rank()),
    {
        let above = Self::ogreater(a, b);
        let same = Self::oequal(a, b);
        proof {
            Self::rank_is_injective(a, b);
            lemma_flag_or(above, same);
        }
        above | same
    }

    /// `1` when `a` ranks below or with `b`, `0` otherwise.
    fn olesser_equal(a: Self, b: Self) -> (r: i8)
        ensures
            r == flag(a.rank() <= b.rank()),
    {
        let below = Self::olesser(a, b);
        let same = Self::oequal(a, b);
        proof {
            Self::rank_is_injective(a, b);
            lemma_flag_or(below, same);
        }
        below | same
    }

    /// Exchanges `a` and `b` when `cond` is nonzero and leaves both as they
    /// are otherwise, with two selections and no branch.
    fn oswap(cond: i8, a: &mut Self, b: &mut Self)
        ensures
            *final(a) == if cond != 0 { *old(b) } else { *old(a) },
            *final(b) == if cond != 0 { *old(a) } else { *old(b) },
    {
        let tmp = *a;
        *a = Self::oselect(cond, *b, *a);
        *b = Self::oselect(cond, tmp, *b);
    }

    /// One comparator: exchanges `a` and `b` exactly when their three-way
    /// comparison equals `cond`. With `cond == 1` the lower rank ends in `a`
    /// (ascending), with `cond == -1` the higher rank does (descending).
    fn osort(cond: i8, a: &mut Self, b: &mut Self)
        ensures
            *final(a) == if three_way(old(a).rank(), old(b).rank()) == cond { *old(b) } else { *old(a) },
            *final(b) == if three_way(old(a).rank(), old(b).rank()) == cond { *old(a) } else { *old(b) },
    {
        let order = Self::ocompare(*a, *b);
        Self::oswap(equal_8(order, cond), a, b);
    }

    /// The operand of lower rank; `b` when the ranks are equal.
    fn omin(a: Self, b: Self) -> (r: Self)
        ensures
            r == if a.rank() < b.rank() { a } else { b },
    {
        let order = Self::ocompare(a, b);
        Self::oselect(equal_8(order, -1), a, b)
    }

    /// The operand of higher rank; `b` when the ranks are equal.
    fn omax(a: Self, b: Self) -> (r: Self)
        ensures
            r == if a.rank() > b.rank() { a } else { b },
    {
        let order = Self::ocompare(a, b);
        Self::oselect(equal_8(order, 1), a, b)
    }
}

/// The bitwise or of two flags is the flag of their disjunction.
pub proof fn lemma_flag_or(x: i8, y: i8)
    requires
        x == 0 || x == 1,
        y == 0 || y == 1,
    ensures
        x | y == flag(x == 1 || y == 1),
{
    assert((x == 0 || x == 1) && (y == 0 || y == 1) ==> (x | y) == (if x == 1 || y == 1 { 1i8 } else { 0i8 }))
        by (bit_vector);
}

/// Signed 8-bit values rank by their value.
impl ObliviousOps for i8 {
    open spec fn rank(self) -> int {
        self as int
    }

    proof fn rank_is_injective(a: Self, b: Self) {
    }

    fn oselect(cond: i8, a: Self, b: Self) -> (r: Self) {
        select_8(cond, a, b)
    }

    fn oequal(a: Self, b: Self) -> (r: i8) {
        equal_8(a, b)
    }

    fn ocompare(a: Self, b: Self) -> (r: i8)
        ensures
            r == three_way(a as int, b as int),
    {
        compare_8(a, b)
    }
}

/// Unsigned 8-bit values rank by their bit pattern read as a signed value.
impl ObliviousOps for u8 {
    open spec fn rank(self) -> int {
        (self as i8) as int
    }

    proof fn rank_is_injective(a: Self, b: Self) {
        assert((a as i8) == (b as i8) ==> a == b) by (bit_vector);
    }

    fn oselect(cond: i8, a: Self, b: Self) -> (r: Self) {
        proof {
            assert((a as i8) as u8 == a && (b as i8) as u8 == b) by (bit_vector);
        }
        select_8(cond, a as i8, b as i8) as u8
    }

    fn oequal(a: Self, b: Self) -> (r: i8) {
        proof {
            assert((a as i8) == (b as i8) ==> a == b) by (bit_vector);
        }
        equal_8(a as i8, b as i8)
    }

    fn ocompare(a: Self, b: Self) -> (r: i8)
        ensures
            (a < 0x80) == (b < 0x80) ==> r == three_way(a as int, b as int),
    {
        proof {
            assert((a < 0x80u8) == (b < 0x80u8) ==> ((a as i8) < (b as i8)) == (a < b)) by (bit_vector);
            assert((a as i8) == (b as i8) ==> a == b) by (bit_vector);
        }
        compare_8(a as i8, b as i8)
    }
}

/// Signed 16-bit values rank by their value.
impl ObliviousOps for i16 {
    open spec fn rank(self) -> int {
        self as int
    }

    proof fn rank_is_injective(a: Self, b: Self) {
    }

    fn oselect(cond: i8, a: Self, b: Self) -> (r: Self) {
        select_16(cond, a, b)
    }

    fn oequal(a: Self, b: Self) -> (r: i8) {
        equal_16(a, b)
    }

    fn ocompare(a: Self, b: Self) -> (r: i8)
        ensures
            r == three_way(a as int, b as int),
    {
        compare_16(a, b)
    }
}

/// Unsigned 16-bit values rank by their bit pattern read as a signed value.
impl ObliviousOps for u16 {
    open spec fn rank(self) -> int {
        (self as i16) as int
    }

    proof fn rank_is_injective(a: Self, b: Self) {
        assert((a as i16) == (b as i16) ==> a == b) by (bit_vector);
    }

    fn oselect(cond: i8, a: Self, b: Self) -> (r: Self) {
        proof {
            assert((a as i16) as u16 == a && (b as i16) as u16 == b) by (bit_vector);
        }
        select_16(cond, a as i16, b as i16) as u16
    }

    fn oequal(a: Self, b: Self) -> (r: i8) {
        proof {
            assert((a as i16) == (b as i16) ==> a == b) by (bit_vector);
        }
        equal_16(a as i16, b as i16)
    }

    fn ocompare(a: Self, b: Self) -> (r: i8)
        ensures
            (a < 0x8000) == (b < 0x8000) ==> r == three_way(a as int, b as int),
    {
        proof {
            assert((a < 0x8000u16) == (b < 0x8000u16) ==> ((a as i16) < (b as i16)) == (a < b)) by (bit_vector);
            assert((a as i16) == (b as i16) ==> a == b) by (bit_vector);
        }
        compare_16(a as i16, b as i16)
    }
}

/// Signed 32-bit values rank by their value.
impl ObliviousOps for i32 {
    open spec fn rank(self) -> int {
        self as int
    }

    proof fn rank_is_injective(a: Self, b: Self) {
    }

    fn oselect(cond: i8, a: Self, b: Self) -> (r: Self) {
        select_32(cond, a, b)
    }

    fn oequal(a: Self, b: Self) -> (r: i8) {
        equal_32(a, b)
    }

    fn ocompare(a: Self, b: Self) -> (r: i8)
        ensures
            r == three_way(a as int, b as int),
    {
        compare_32(a, b)
    }
}

/// Unsigned 32-bit values rank by their bit pattern read as a signed value.
impl ObliviousOps for u32 {
    open spec fn rank(self) -> int {
        (self as i32) as int
    }

    proof fn rank_is_injective(a: Self, b: Self) {
        assert((a as i32) == (b as i32) ==> a == b) by (bit_vector);
    }

    fn oselect(cond: i8, a: Self, b: Self) -> (r: Self) {
        proof {
            assert((a as i32) as u32 == a && (b as i32) as u32 == b) by (bit_vector);
        }
        select_32(cond, a as i32, b as i32) as u32
    }

    fn oequal(a: Self, b: Self) -> (r: i8) {
        proof {
            assert((a as i32) == (b as i32) ==> a == b) by (bit_vector);
        }
        equal_32(a as i32, b as i32)
    }

    fn ocompare(a: Self, b: Self) -> (r: i8)
        ensures
            (a < 0x8000_0000) == (b < 0x8000_0000) ==> r == three_way(a as int, b as int),
    {
        proof {
            assert((a < 0x8000_0000u32) == (b < 0x8000_0000u32) ==> ((a as i32) < (b as i32)) == (a < b)) by (bit_vector);
            assert((a as i32) == (b as i32) ==> a == b) by (bit_vector);
        }
        compare_32(a as i32, b as i32)
    }
}

/// Signed 64-bit values rank by their value.
impl ObliviousOps for i64 {
    open spec fn rank(self) -> int {
        self as int
    }

    proof fn rank_is_injective(a: Self, b: Self) {
    }

    fn oselect(cond: i8, a: Self, b: Self) -> (r: Self) {
        select_64(cond, a, b)
    }

    fn oequal(a: Self, b: Self) -> (r: i8) {
        equal_64(a, b)
    }

    fn ocompare(a: Self, b: Self) -> (r: i8)
        ensures
            r == three_way(a as int, b as int),
    {
        compare_64(a, b)
    }
}

/// Unsigned 64-bit values rank by their bit pattern read as a signed value.
impl ObliviousOps for u64 {
    open spec fn rank(self) -> int {
        (self as i64) as int
    }

    proof fn rank_is_injective(a: Self, b: Self) {
        assert((a as i64) == (b as i64) ==> a == b) by (bit_vector);
    }

    fn oselect(cond: i8, a: Self, b: Self) -> (r: Self) {
        proof {
            assert((a as i64) as u64 == a && (b as i64) as u64 == b) by (bit_vector);
        }
        select_64(cond, a as i64, b as i64) as u64
    }

    fn oequal(a: Self, b: Self) -> (r: i8) {
        proof {
            assert((a as i64) == (b as i64) ==> a == b) by (bit_vector);
        }
        equal_64(a as i64, b as i64)
    }

    fn ocompare(a: Self, b: Self) -> (r: i8)
        ensures
            (a < 0x8000_0000_0000_0000) == (b < 0x8000_0000_0000_0000) ==> r == three_way(a as int, b as int),
    {
        proof {
            assert((a < 0x8000_0000_0000_0000u64) == (b < 0x8000_0000_0000_0000u64) ==> ((a as i64) < (b as i64)) == (a < b)) by (bit_vector);
            assert((a as i64) == (b as i64) ==> a == b) by (bit_vector);
        }
        compare_64(a as i64, b as i64)
    }
}

/// Pointer-sized signed values rank by their value, through the 64-bit primitives.
impl ObliviousOps for isize {
    open spec fn rank(self) -> int {
        self as int
    }

    proof fn rank_is_injective(a: Self, b: Self) {
    }

    fn oselect(cond: i8, a: Self, b: Self) -> (r: Self) {
        select_64(cond, a as i64, b as i64) as isize
    }

    fn oequal(a: Self, b: Self) -> (r: i8) {
        equal_64(a as i64, b as i64)
    }

    fn ocompare(a: Self, b: Self) -> (r: i8)
        ensures
            r == three_way(a as int, b as int),
    {
        compare_64(a as i64, b as i64)
    }
}

/// Pointer-sized unsigned values rank by their 64-bit pattern read as a signed
/// value.
impl ObliviousOps for usize {
    open spec fn rank(self) -> int {
        ((self as u64) as i64) as int
    }

    proof fn rank_is_injective(a: Self, b: Self) {
        let x = a as u64;
        let y = b as u64;
        assert((x as i64) == (y as i64) ==> x == y) by (bit_vector);
    }

    fn oselect(cond: i8, a: Self, b: Self) -> (r: Self) {
        proof {
            let x = a as u64;
            let y = b as u64;
            assert((x as i64) as u64 == x && (y as i64) as u64 == y) by (bit_vector);
        }
        select_64(cond, a as u64 as i64, b as u64 as i64) as u64 as usize
    }

    fn oequal(a: Self, b: Self) -> (r: i8) {
        proof {
            let x = a as u64;
            let y = b as u64;
            assert((x as i64) == (y as i64) ==> x == y) by (bit_vector);
        }
        equal_64(a as u64 as i64, b as u64 as i64)
    }

    fn ocompare(a: Self, b: Self) -> (r: i8)
        ensures
            (a < 0x8000_0000_0000_0000) == (b < 0x8000_0000_0000_0000) ==> r == three_way(a as int, b as int),
    {
        proof {
            let x = a as u64;
            let y = b as u64;
            assert((x < 0x8000_0000_0000_0000u64) == (y < 0x8000_0000_0000_0000u64) ==> ((x as i64) < (y as i64)) == (x < y)) by (bit_vector);
            assert((x as i64) == (y as i64) ==> x == y) by (bit_vector);
        }
        compare_64(a as u64 as i64, b as u64 as i64)
    }
}

} // verus!

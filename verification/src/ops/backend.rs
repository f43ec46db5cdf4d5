//! Fixed-width primitives that the typed layer is built on.
//!
//! Each function works on one signed width. A selection is written as a
//! mask, a comparison as a pair of flag subtractions: the source holds no
//! branch on the value arguments. Unsigned and pointer-sized values reach
//! these functions by reinterpreting their bit pattern.
//!
//! What is verified of these functions is the value that each returns, and
//! nothing else. How long the compiled code runs, and whether a compiler
//! keeps it free of branches, is outside of what is proved here: a build that
//! needs that must check the machine code, or put primitives in their place
//! that the platform guarantees.

use vstd::prelude::*;

verus! {

/// The flag that stands for a truth value: `1` for true, `0` for false.
pub open spec fn flag(b: bool) -> i8 {
    if b {
        1i8
    } else {
        0i8
    }
}

/// The flag of a truth value.
pub fn flag_of(b: bool) -> (r: i8)
    ensures
        r == flag(b),
{
    b as i8
}

/// The three-way comparison of two integers: `-1`, `0` or `1`.
pub open spec fn three_way(x: int, y: int) -> i8 {
    if x < y {
        -1i8
    } else if x == y {
        0i8
    } else {
        1i8
    }
}

/// `a` when `cond` is nonzero, `b` otherwise, for 8-bit operands.
pub fn select_8(cond: i8, a: i8, b: i8) -> (r: i8)
    ensures
        r == if cond != 0 { a } else { b },
{
    let mask: u8 = 0u8.wrapping_sub((cond != 0) as u8);
    assert(mask == if cond != 0 { 0xffu8 } else { 0u8 });
    let r = ((b as u8) ^ (((a as u8) ^ (b as u8)) & mask)) as i8;
    assert(r == if cond != 0 { a } else { b }) by (bit_vector)
        requires
            mask == if cond != 0 { 0xffu8 } else { 0u8 },
            r == ((b as u8) ^ (((a as u8) ^ (b as u8)) & mask)) as i8,
    ;
    r
}

/// The flag of `a == b`, for 8-bit operands.
pub fn equal_8(a: i8, b: i8) -> (r: i8)
    ensures
        r == flag(a == b),
{
    (a == b) as i8
}

/// The three-way comparison of `a` and `b`, for 8-bit operands.
pub fn compare_8(a: i8, b: i8) -> (r: i8)
    ensures
        r == three_way(a as int, b as int),
{
    (a > b) as i8 - (a < b) as i8
}

/// `a` when `cond` is nonzero, `b` otherwise, for 16-bit operands.
pub fn select_16(cond: i8, a: i16, b: i16) -> (r: i16)
    ensures
        r == if cond != 0 { a } else { b },
{
    let mask: u16 = 0u16.wrapping_sub((cond != 0) as u16);
    assert(mask == if cond != 0 { 0xffffu16 } else { 0u16 });
    let r = ((b as u16) ^ (((a as u16) ^ (b as u16)) & mask)) as i16;
    assert(r == if cond != 0 { a } else { b }) by (bit_vector)
        requires
            mask == if cond != 0 { 0xffffu16 } else { 0u16 },
            r == ((b as u16) ^ (((a as u16) ^ (b as u16)) & mask)) as i16,
    ;
    r
}

/// The flag of `a == b`, for 16-bit operands.
pub fn equal_16(a: i16, b: i16) -> (r: i8)
    ensures
        r == flag(a == b),
{
    (a == b) as i8
}

/// The three-way comparison of `a` and `b`, for 16-bit operands.
pub fn compare_16(a: i16, b: i16) -> (r: i8)
    ensures
        r == three_way(a as int, b as int),
{
    (a > b) as i8 - (a < b) as i8
}

/// `a` when `cond` is nonzero, `b` otherwise, for 32-bit operands.
pub fn select_32(cond: i8, a: i32, b: i32) -> (r: i32)
    ensures
        r == if cond != 0 { a } else { b },
{
    let mask: u32 = 0u32.wrapping_sub((cond != 0) as u32);
    assert(mask == if cond != 0 { 0xffffffffu32 } else { 0u32 });
    let r = ((b as u32) ^ (((a as u32) ^ (b as u32)) & mask)) as i32;
    assert(r == if cond != 0 { a } else { b }) by (bit_vector)
        requires
            mask == if cond != 0 { 0xffffffffu32 } else { 0u32 },
            r == ((b as u32) ^ (((a as u32) ^ (b as u32)) & mask)) as i32,
    ;
    r
}

/// The flag of `a == b`, for 32-bit operands.
pub fn equal_32(a: i32, b: i32) -> (r: i8)
    ensures
        r == flag(a == b),
{
    (a == b) as i8
}

/// The three-way comparison of `a` and `b`, for 32-bit operands.
pub fn compare_32(a: i32, b: i32) -> (r: i8)
    ensures
        r == three_way(a as int, b as int),
{
    (a > b) as i8 - (a < b) as i8
}

/// `a` when `cond` is nonzero, `b` otherwise, for 64-bit operands.
pub fn select_64(cond: i8, a: i64, b: i64) -> (r: i64)
    ensures
        r == if cond != 0 { a } else { b },
{
    let mask: u64 = 0u64.wrapping_sub((cond != 0) as u64);
    assert(mask == if cond != 0 { 0xffffffffffffffffu64 } else { 0u64 });
    let r = ((b as u64) ^ (((a as u64) ^ (b as u64)) & mask)) as i64;
    assert(r == if cond != 0 { a } else { b }) by (bit_vector)
        requires
            mask == if cond != 0 { 0xffffffffffffffffu64 } else { 0u64 },
            r == ((b as u64) ^ (((a as u64) ^ (b as u64)) & mask)) as i64,
    ;
    r
}

/// The flag of `a == b`, for 64-bit operands.
pub fn equal_64(a: i64, b: i64) -> (r: i8)
    ensures
        r == flag(a == b),
{
    (a == b) as i8
}

/// The three-way comparison of `a` and `b`, for 64-bit operands.
pub fn compare_64(a: i64, b: i64) -> (r: i8)
    ensures
        r == three_way(a as int, b as int),
{
    (a > b) as i8 - (a < b) as i8
}

} // verus!

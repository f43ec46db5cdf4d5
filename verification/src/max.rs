//! The greatest value of a type: what a sequence is padded with before it is
//! sorted, so that the padding ends up behind every element.

use vstd::prelude::*;

verus! {

/// Types with a greatest value.
pub trait Max: Sized {
    /// The greatest value of the type.
    spec fn greatest() -> Self;

    /// Returns the greatest value of the type.
    fn maximum() -> (r: Self)
        ensures
            r == Self::greatest(),
    ;
}

impl Max for i16 {
    open spec fn greatest() -> Self {
        i16::MAX
    }

    fn maximum() -> (r: Self) {
        i16::MAX
    }
}

impl Max for u16 {
    open spec fn greatest() -> Self {
        u16::MAX
    }

    fn maximum() -> (r: Self) {
        u16::MAX
    }
}

impl Max for i32 {
    open spec fn greatest() -> Self {
        i32::MAX
    }

    fn maximum() -> (r: Self) {
        i32::MAX
    }
}

impl Max for u32 {
    open spec fn greatest() -> Self {
        u32::MAX
    }

    fn maximum() -> (r: Self) {
        u32::MAX
    }
}

impl Max for i64 {
    open spec fn greatest() -> Self {
        i64::MAX
    }

    fn maximum() -> (r: Self) {
        i64::MAX
    }
}

impl Max for u64 {
    open spec fn greatest() -> Self {
        u64::MAX
    }

    fn maximum() -> (r: Self) {
        u64::MAX
    }
}

impl Max for isize {
    open spec fn greatest() -> Self {
        isize::MAX
    }

    fn maximum() -> (r: Self) {
        isize::MAX
    }
}

impl Max for usize {
    open spec fn greatest() -> Self {
        usize::MAX
    }

    fn maximum() -> (r: Self) {
        usize::MAX
    }
}

} // verus!

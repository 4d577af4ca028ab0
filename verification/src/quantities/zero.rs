//! The additive identity of sample types.
use vstd::prelude::*;

verus! {

/// Sample types with a zero value.
pub trait Zero: Sized {
    /// The zero value.
    spec fn spec_zero() -> Self;

    /// Returns the zero value.
    fn zero() -> (z: Self)
        ensures
            z == Self::spec_zero();
}

impl Zero for i8 {
    open spec fn spec_zero() -> i8 {
        0
    }

    fn zero() -> (z: i8) {
        0
    }
}

impl Zero for i16 {
    open spec fn spec_zero() -> i16 {
        0
    }

    fn zero() -> (z: i16) {
        0
    }
}

impl Zero for i32 {
    open spec fn spec_zero() -> i32 {
        0
    }

    fn zero() -> (z: i32) {
        0
    }
}

impl Zero for i64 {
    open spec fn spec_zero() -> i64 {
        0
    }

    fn zero() -> (z: i64) {
        0
    }
}

impl Zero for i128 {
    open spec fn spec_zero() -> i128 {
        0
    }

    fn zero() -> (z: i128) {
        0
    }
}

impl Zero for isize {
    open spec fn spec_zero() -> isize {
        0
    }

    fn zero() -> (z: isize) {
        0
    }
}

impl Zero for u8 {
    open spec fn spec_zero() -> u8 {
        0
    }

    fn zero() -> (z: u8) {
        0
    }
}

impl Zero for u16 {
    open spec fn spec_zero() -> u16 {
        0
    }

    fn zero() -> (z: u16) {
        0
    }
}

impl Zero for u32 {
    open spec fn spec_zero() -> u32 {
        0
    }

    fn zero() -> (z: u32) {
        0
    }
}

impl Zero for u64 {
    open spec fn spec_zero() -> u64 {
        0
    }

    fn zero() -> (z: u64) {
        0
    }
}

impl Zero for u128 {
    open spec fn spec_zero() -> u128 {
        0
    }

    fn zero() -> (z: u128) {
        0
    }
}

impl Zero for usize {
    open spec fn spec_zero() -> usize {
        0
    }

    fn zero() -> (z: usize) {
        0
    }
}

} // verus!

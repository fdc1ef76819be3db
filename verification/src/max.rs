use vstd::prelude::*;

verus! {

/// A greatest sentinel value of a type: the aggregate that freshly created
/// nodes carry before their first recomputation.
pub trait Max: Sized {
    /// The sentinel as a value.
    spec fn spec_max() -> Self;

    /// Produce the sentinel.
    fn max() -> (r: Self)
        ensures
            r == Self::spec_max(),
    ;
}

impl Max for i8 {
    open spec fn spec_max() -> i8 {
        i8::MAX
    }

    fn max() -> (r: i8) {
        i8::MAX
    }
}

impl Max for u8 {
    open spec fn spec_max() -> u8 {
        u8::MAX
    }

    fn max() -> (r: u8) {
        u8::MAX
    }
}

impl Max for i16 {
    open spec fn spec_max() -> i16 {
        i16::MAX
    }

    fn max() -> (r: i16) {
        i16::MAX
    }
}

impl Max for u16 {
    open spec fn spec_max() -> u16 {
        u16::MAX
    }

    fn max() -> (r: u16) {
        u16::MAX
    }
}

impl Max for i32 {
    open spec fn spec_max() -> i32 {
        i32::MAX
    }

    fn max() -> (r: i32) {
        i32::MAX
    }
}

impl Max for u32 {
    open spec fn spec_max() -> u32 {
        u32::MAX
    }

    fn max() -> (r: u32) {
        u32::MAX
    }
}

impl Max for i64 {
    open spec fn spec_max() -> i64 {
        i64::MAX
    }

    fn max() -> (r: i64) {
        i64::MAX
    }
}

impl Max for u64 {
    open spec fn spec_max() -> u64 {
        u64::MAX
    }

    fn max() -> (r: u64) {
        u64::MAX
    }
}

impl Max for i128 {
    open spec fn spec_max() -> i128 {
        i128::MAX
    }

    fn max() -> (r: i128) {
        i128::MAX
    }
}

impl Max for u128 {
    open spec fn spec_max() -> u128 {
        u128::MAX
    }

    fn max() -> (r: u128) {
        u128::MAX
    }
}

impl Max for isize {
    open spec fn spec_max() -> isize {
        isize::MAX
    }

    fn max() -> (r: isize) {
        isize::MAX
    }
}

impl Max for usize {
    open spec fn spec_max() -> usize {
        usize::MAX
    }

    fn max() -> (r: usize) {
        usize::MAX
    }
}

} // verus!

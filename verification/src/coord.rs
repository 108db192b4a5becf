//! Real-valued diagram coordinates, carried as IEEE-754 double bit patterns.
//!
//! The translation pass never does arithmetic on coordinates; it only needs
//! to detect unorderable values (NaN) and to compare and group coordinates
//! under a total order.  Both are pure functions of the 64-bit pattern, so
//! the library holds a coordinate as its bit pattern and works entirely on
//! integers.  The order used is the standard order on sign-adjusted bit
//! patterns: negative values (sign bit set) are mapped by complement,
//! non-negative ones by flipping the sign bit, which orders all non-NaN
//! values by numeric value and gives every pattern, NaN included, a
//! definite place.  The one numeric equality the sign-adjustment alone
//! would miss, `-0.0 == +0.0`, is restored by keying the negative zero
//! pattern as the positive one, so numerically equal coordinates always
//! share a key.

use vstd::prelude::*;

verus! {

/// A space or time coordinate: the bit pattern of an IEEE-754 double.
#[derive(Clone, Copy, PartialEq, Eq, Structural, Debug)]
pub struct Coord {
    pub bits: u64,
}

/// A coordinate is NaN when the exponent field is all ones and the
/// mantissa field is non-zero.
pub open spec fn coord_is_nan(c: Coord) -> bool {
    (c.bits >> 52) & 0x7ff == 0x7ff && c.bits & 0xf_ffff_ffff_ffff != 0
}

/// Sign-adjusted bit pattern; comparing keys as unsigned integers is the
/// order on coordinates used throughout the translation, and equal keys
/// mean numerically equal coordinates.  The negative zero pattern keys as
/// the positive one: the two zeros are one value.
pub open spec fn coord_key(c: Coord) -> u64 {
    if c.bits == 0x8000_0000_0000_0000 {
        0x8000_0000_0000_0000
    } else if c.bits >= 0x8000_0000_0000_0000 {
        !c.bits
    } else {
        c.bits ^ 0x8000_0000_0000_0000
    }
}

impl Coord {
    pub fn is_nan(&self) -> (r: bool)
        ensures
            r == coord_is_nan(*self),
    {
        (self.bits >> 52) & 0x7ff == 0x7ff && self.bits & 0xf_ffff_ffff_ffff != 0
    }

    pub fn key(&self) -> (r: u64)
        ensures
            r == coord_key(*self),
    {
        if self.bits == 0x8000_0000_0000_0000 {
            0x8000_0000_0000_0000
        } else if self.bits >= 0x8000_0000_0000_0000 {
            !self.bits
        } else {
            self.bits ^ 0x8000_0000_0000_0000
        }
    }
}

} // verus!

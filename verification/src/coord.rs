//! Coordinates and areas as IEEE 754 bit patterns.
//!
//! A coordinate is a single precision number and a node area a double precision number. Both are
//! held by their bit patterns, and the order of the numbers is worked out from the bits: a
//! pattern is a sign bit above a magnitude, and magnitudes are ordered like integers.

use vstd::prelude::*;

verus! {

/// Bit pattern of the largest finite single precision number.
pub const COORD_MAX_BITS: u32 = 0x7f7f_ffff;

/// Bit pattern of the lowest finite single precision number.
pub const COORD_MIN_BITS: u32 = 0xff7f_ffff;

/// Bit pattern of the largest finite double precision number.
pub const AREA_MAX_BITS: u64 = 0x7fef_ffff_ffff_ffff;

/// One coordinate: the bits of a single precision number.
#[derive(Clone, Copy, Debug, PartialEq, Eq, Structural)]
pub struct Coord {
    pub bits: u32,
}

impl Coord {
    /// Where the number stands among all numbers: the magnitude with its sign. Both zeros stand
    /// at 0, and a NaN stands nowhere.
    pub open spec fn rank(self) -> Option<int> {
        if self.bits < 0x8000_0000 {
            if self.bits <= 0x7f80_0000 {
                Some(self.bits as int)
            } else {
                None
            }
        } else if self.bits <= 0xff80_0000 {
            Some(0x8000_0000 - self.bits)
        } else {
            None
        }
    }

    /// The number is below `other`. Never so when either is a NaN.
    pub open spec fn below(self, other: Coord) -> bool {
        match (self.rank(), other.rank()) {
            (Some(a), Some(b)) => a < b,
            _ => false,
        }
    }

    /// The number is below `other` or equal to it. Never so when either is a NaN.
    pub open spec fn at_most(self, other: Coord) -> bool {
        match (self.rank(), other.rank()) {
            (Some(a), Some(b)) => a <= b,
            _ => false,
        }
    }

    /// The two numbers are equal. A NaN equals nothing; the two zeros are equal.
    pub open spec fn equals(self, other: Coord) -> bool {
        match (self.rank(), other.rank()) {
            (Some(a), Some(b)) => a == b,
            _ => false,
        }
    }

    /// The lower of two numbers. A NaN gives way to the other number.
    pub open spec fn lower_of(self, other: Coord) -> Coord {
        if self.rank() is None || other.below(self) {
            other
        } else {
            self
        }
    }

    /// The higher of two numbers. A NaN gives way to the other number.
    pub open spec fn higher_of(self, other: Coord) -> Coord {
        if self.rank() is None || self.below(other) {
            other
        } else {
            self
        }
    }

    /// The coordinate 0.
    pub open spec fn spec_zero() -> Coord {
        Coord { bits: 0 }
    }

    /// The largest finite coordinate.
    pub open spec fn spec_max() -> Coord {
        Coord { bits: COORD_MAX_BITS }
    }

    /// The lowest finite coordinate.
    pub open spec fn spec_min() -> Coord {
        Coord { bits: COORD_MIN_BITS }
    }

    pub fn zero() -> (c: Coord)
        ensures
            c == Coord::spec_zero(),
    {
        Coord { bits: 0 }
    }

    pub fn is_nan(self) -> (r: bool)
        ensures
            r == (self.rank() is None),
    {
        if self.bits < 0x8000_0000 {
            self.bits > 0x7f80_0000
        } else {
            self.bits > 0xff80_0000
        }
    }

    /// `self < other`.
    pub fn lt(self, other: Coord) -> (r: bool)
        ensures
            r == self.below(other),
    {
        if self.is_nan() || other.is_nan() {
            false
        } else if self.bits < 0x8000_0000 {
            other.bits < 0x8000_0000 && self.bits < other.bits
        } else if other.bits < 0x8000_0000 {
            self.bits != 0x8000_0000 || other.bits != 0
        } else {
            other.bits < self.bits
        }
    }

    /// `self <= other`.
    pub fn le(self, other: Coord) -> (r: bool)
        ensures
            r == self.at_most(other),
    {
        if self.is_nan() || other.is_nan() {
            false
        } else {
            !other.lt(self)
        }
    }

    /// `self == other`, as numbers.
    pub fn same(self, other: Coord) -> (r: bool)
        ensures
            r == self.equals(other),
    {
        if self.is_nan() || other.is_nan() {
            false
        } else {
            !other.lt(self) && !self.lt(other)
        }
    }

    pub fn min(self, other: Coord) -> (r: Coord)
        ensures
            r == self.lower_of(other),
    {
        if self.is_nan() || other.lt(self) {
            other
        } else {
            self
        }
    }

    pub fn max(self, other: Coord) -> (r: Coord)
        ensures
            r == self.higher_of(other),
    {
        if self.is_nan() || self.lt(other) {
            other
        } else {
            self
        }
    }
}

/// One area: the bits of a double precision number.
#[derive(Clone, Copy, Debug, PartialEq, Eq, Structural)]
pub struct Area {
    pub bits: u64,
}

impl Area {
    /// Where the number stands among all numbers. A NaN stands nowhere.
    pub open spec fn rank(self) -> Option<int> {
        if self.bits < 0x8000_0000_0000_0000 {
            if self.bits <= 0x7ff0_0000_0000_0000 {
                Some(self.bits as int)
            } else {
                None
            }
        } else if self.bits <= 0xfff0_0000_0000_0000 {
            Some(0x8000_0000_0000_0000 - self.bits)
        } else {
            None
        }
    }

    /// The number is below `other`. Never so when either is a NaN.
    pub open spec fn below(self, other: Area) -> bool {
        match (self.rank(), other.rank()) {
            (Some(a), Some(b)) => a < b,
            _ => false,
        }
    }

    /// The largest finite area.
    pub open spec fn spec_max() -> Area {
        Area { bits: AREA_MAX_BITS }
    }

    pub fn is_nan(self) -> (r: bool)
        ensures
            r == (self.rank() is None),
    {
        if self.bits < 0x8000_0000_0000_0000 {
            self.bits > 0x7ff0_0000_0000_0000
        } else {
            self.bits > 0xfff0_0000_0000_0000
        }
    }

    /// `self < other`.
    pub fn lt(self, other: Area) -> (r: bool)
        ensures
            r == self.below(other),
    {
        if self.is_nan() || other.is_nan() {
            false
        } else if self.bits < 0x8000_0000_0000_0000 {
            other.bits < 0x8000_0000_0000_0000 && self.bits < other.bits
        } else if other.bits < 0x8000_0000_0000_0000 {
            self.bits != 0x8000_0000_0000_0000 || other.bits != 0
        } else {
            other.bits < self.bits
        }
    }
}

} // verus!

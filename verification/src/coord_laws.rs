//! Coordinates and areas are compared as the numbers that their bits stand for.

use vstd::prelude::*;
use vstd::arithmetic::power2::{lemma_pow2_pos, lemma_pow2_strictly_increases, lemma_pow2_unfold, pow2};
use crate::coord::{Area, Coord};

verus! {

/// The number that the bits of an exponent and a fraction stand for, in units of the smallest
/// number above 0. The fraction has `unit` values. Infinity stands where the next number would.
pub open spec fn magnitude(bits: int, unit: int) -> int {
    let exponent = bits / unit;
    let fraction = bits % unit;
    if exponent == 0 {
        fraction
    } else {
        (unit + fraction) * pow2((exponent - 1) as nat)
    }
}

impl Coord {
    /// The bits stand for no number: the exponent is the highest one, and the fraction is not 0.
    pub open spec fn is_no_number(self) -> bool {
        self.bits as int / 0x80_0000 % 0x100 == 0xff && self.bits as int % 0x80_0000 != 0
    }

    /// The number that the bits stand for.
    pub open spec fn number(self) -> int {
        let m = magnitude(self.bits as int % 0x8000_0000, 0x80_0000);
        if self.bits as int / 0x8000_0000 == 0 {
            m
        } else {
            -m
        }
    }
}

impl Area {
    /// The bits stand for no number.
    pub open spec fn is_no_number(self) -> bool {
        self.bits as int / 0x10_0000_0000_0000 % 0x800 == 0x7ff && self.bits as int
            % 0x10_0000_0000_0000 != 0
    }

    /// The number that the bits stand for.
    pub open spec fn number(self) -> int {
        let m = magnitude(self.bits as int % 0x8000_0000_0000_0000, 0x10_0000_0000_0000);
        if self.bits as int / 0x8000_0000_0000_0000 == 0 {
            m
        } else {
            -m
        }
    }
}

proof fn lemma_magnitude_goes_up(x: int, y: int, unit: int)
    requires
        0 <= x < y,
        unit > 0,
    ensures
        0 <= magnitude(x, unit) < magnitude(y, unit),
{
    let ex = x / unit;
    let fx = x % unit;
    let ey = y / unit;
    let fy = y % unit;
    assert(x == unit * ex + fx && y == unit * ey + fy && 0 <= fx < unit && 0 <= fy < unit && 0 <= ex
        && 0 <= ey) by (nonlinear_arith)
        requires
            0 <= x < y,
            unit > 0,
            ex == x / unit,
            fx == x % unit,
            ey == y / unit,
            fy == y % unit,
    ;
    assert(ex <= ey) by (nonlinear_arith)
        requires
            unit * ex + fx < unit * ey + fy,
            0 <= fx < unit,
            0 <= fy < unit,
    ;
    if ex > 0 {
        lemma_pow2_pos((ex - 1) as nat);
    }
    if ey > 0 {
        lemma_pow2_pos((ey - 1) as nat);
    }
    let py = pow2((ey - 1) as nat) as int;
    let px = pow2((ex - 1) as nat) as int;
    if ex == ey {
        if ex > 0 {
            assert(0 <= (unit + fx) * px < (unit + fy) * px) by (nonlinear_arith)
                requires
                    0 <= fx < fy,
                    unit > 0,
                    px > 0,
            ;
        }
    } else if ex == 0 {
        assert((unit + fy) * py >= unit) by (nonlinear_arith)
            requires
                fy >= 0,
                unit > 0,
                py >= 1,
        ;
    } else {
        lemma_pow2_unfold(ex as nat);
        if ex < ey - 1 {
            lemma_pow2_strictly_increases(ex as nat, (ey - 1) as nat);
        }
        assert(0 <= (unit + fx) * px < (unit + fy) * py) by (nonlinear_arith)
            requires
                0 <= fx < unit,
                0 <= fy,
                px >= 1,
                py >= 2 * px,
        ;
    }
}

proof fn lemma_magnitude_of_zero(unit: int)
    requires
        unit > 0,
    ensures
        magnitude(0, unit) == 0,
{
    assert(0int / unit == 0 && 0int % unit == 0) by (nonlinear_arith)
        requires
            unit > 0,
    ;
}

/// Two coordinates stand to each other as the numbers that their bits stand for. One that stands for
/// no number is neither below, at most nor equal to anything.
pub proof fn lemma_coords_compare_as_numbers(a: Coord, b: Coord)
    ensures
        a.rank() is None <==> a.is_no_number(),
        a.is_no_number() || b.is_no_number() ==> !a.below(b) && !a.at_most(b) && !a.equals(b),
        !a.is_no_number() && !b.is_no_number() ==> {
            &&& a.below(b) <==> a.number() < b.number()
            &&& a.at_most(b) <==> a.number() <= b.number()
            &&& a.equals(b) <==> a.number() == b.number()
            &&& a.rank()->0 < b.rank()->0 <==> a.number() < b.number()
            &&& a.rank()->0 == b.rank()->0 <==> a.number() == b.number()
        },
{
    let x = a.bits as int % 0x8000_0000;
    let y = b.bits as int % 0x8000_0000;
    lemma_magnitude_of_zero(0x80_0000);
    if x > 0 {
        lemma_magnitude_goes_up(0, x, 0x80_0000);
    }
    if y > 0 {
        lemma_magnitude_goes_up(0, y, 0x80_0000);
    }
    if x < y {
        lemma_magnitude_goes_up(x, y, 0x80_0000);
    }
    if y < x {
        lemma_magnitude_goes_up(y, x, 0x80_0000);
    }
}

/// Two areas stand to each other as the numbers that their bits stand for.
pub proof fn lemma_areas_compare_as_numbers(a: Area, b: Area)
    ensures
        a.rank() is None <==> a.is_no_number(),
        a.is_no_number() || b.is_no_number() ==> !a.below(b),
        !a.is_no_number() && !b.is_no_number() ==> (a.below(b) <==> a.number() < b.number()),
{
    let x = a.bits as int % 0x8000_0000_0000_0000;
    let y = b.bits as int % 0x8000_0000_0000_0000;
    let unit: int = 0x10_0000_0000_0000;
    lemma_magnitude_of_zero(unit);
    if x > 0 {
        lemma_magnitude_goes_up(0, x, unit);
    }
    if y > 0 {
        lemma_magnitude_goes_up(0, y, unit);
    }
    if x < y {
        lemma_magnitude_goes_up(x, y, unit);
    }
    if y < x {
        lemma_magnitude_goes_up(y, x, unit);
    }
}

/// The lower and the higher of two coordinates are the two coordinates. Of two numbers neither is
/// below the lower one or above the higher one; what is no number gives way to a number.
pub proof fn lemma_lower_and_higher(a: Coord, b: Coord)
    ensures
        a.lower_of(b) == a || a.lower_of(b) == b,
        a.higher_of(b) == a || a.higher_of(b) == b,
        !a.is_no_number() && !b.is_no_number() ==> {
            &&& a.lower_of(b).number() <= a.number()
            &&& a.lower_of(b).number() <= b.number()
            &&& a.higher_of(b).number() >= a.number()
            &&& a.higher_of(b).number() >= b.number()
        },
        a.is_no_number() ==> a.lower_of(b) == b && a.higher_of(b) == b,
        b.is_no_number() ==> a.is_no_number() || (a.lower_of(b) == a && a.higher_of(b) == a),
{
    lemma_coords_compare_as_numbers(a, b);
    lemma_coords_compare_as_numbers(b, a);
}

/// The coordinate that stands for nothing else is the number 0, and the coordinates that a box is
/// grown from are the largest and the lowest finite number.
pub proof fn lemma_named_coords(c: Coord)
    ensures
        Coord::spec_zero().number() == 0,
        Coord::spec_zero().bits == 0,
        !Coord::spec_max().is_no_number(),
        !Coord::spec_min().is_no_number(),
        Coord::spec_min().number() == -Coord::spec_max().number(),
        Coord::spec_max().bits == 0x7f7f_ffff,
        Coord::spec_min().bits == 0xff7f_ffff,
        !c.is_no_number() && c.bits as int % 0x8000_0000 < 0x7f80_0000 ==> {
            Coord::spec_min().number() <= c.number() <= Coord::spec_max().number()
        },
{
    lemma_magnitude_of_zero(0x80_0000);
    lemma_coords_compare_as_numbers(c, Coord::spec_max());
    lemma_coords_compare_as_numbers(Coord::spec_min(), c);
    lemma_coords_compare_as_numbers(Coord::spec_max(), c);
    lemma_coords_compare_as_numbers(c, Coord::spec_min());
}

} // verus!

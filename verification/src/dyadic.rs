//! Dyadic numbers in fixed point: whole numbers of units, `2^64` of which
//! make one. They stand for the real numbers that surreal values of
//! bounded depth denote.

use vstd::prelude::*;

verus! {

/// The units that make the number one: `2^64`.
pub const ONE: i128 = 0x1_0000_0000_0000_0000;

/// The distance within which two numbers count as the same when a real
/// number is searched for: `2^-23`, in units.
pub const EPSILON: i128 = 0x200_0000_0000;

/// The greatest magnitude, in units, that the simplicity rule accepts in
/// its operands: `2^125`.
pub const REACH: i128 = 0x2000_0000_0000_0000_0000_0000_0000_0000;

/// A dyadic number, held as a count of units of `2^-64`.
#[derive(Debug, Clone, Copy, PartialEq, Eq, Structural)]
pub struct Dyadic {
    pub units: i128,
}

impl View for Dyadic {
    type V = int;

    /// The number of units.
    open spec fn view(&self) -> int {
        self.units as int
    }
}

/// The absolute value of an integer.
pub open spec fn magnitude(a: int) -> int {
    if a < 0 {
        -a
    } else {
        a
    }
}

/// The counts of units of the numbers in `v`, in order.
pub open spec fn units(v: Seq<Dyadic>) -> Seq<int> {
    Seq::new(v.len(), |i: int| v[i]@)
}

impl Dyadic {
    /// The number of `units` units.
    pub fn from_units(units: i128) -> (d: Dyadic)
        ensures
            d@ == units,
    {
        Dyadic { units }
    }

    /// The count of units.
    pub fn units(&self) -> (u: i128)
        ensures
            u == self@,
    {
        self.units
    }

    /// The number zero.
    pub fn zero() -> (d: Dyadic)
        ensures
            d@ == 0,
    {
        Dyadic { units: 0 }
    }

    /// The number one.
    pub fn one() -> (d: Dyadic)
        ensures
            d@ == ONE,
    {
        Dyadic { units: ONE }
    }

    /// The whole number `n`.
    pub fn from_whole(n: i32) -> (d: Dyadic)
        ensures
            d@ == n * ONE,
    {
        let wide: i128 = n as i128;
        Dyadic { units: wide * ONE }
    }

    /// Whether `self` lies within `EPSILON` of `other`.
    pub fn is_close(&self, other: &Dyadic) -> (b: bool)
        ensures
            b == (magnitude(self@ - other@) <= EPSILON),
    {
        let a = self.units;
        let b = other.units;
        let apart: u128 = if (a >= 0) == (b >= 0) {
            if a >= b {
                (a - b) as u128
            } else {
                (b - a) as u128
            }
        } else {
            abs_units(a) + abs_units(b)
        };
        apart <= 0x200_0000_0000u128
    }

    /// Whether `self` is strictly greater in magnitude than `other`.
    pub fn exceeds(&self, other: &Dyadic) -> (b: bool)
        ensures
            b == (magnitude(self@) > magnitude(other@)),
    {
        abs_units(self.units) > abs_units(other.units)
    }
}

/// The magnitude of a count of units, which always fits unsigned.
pub(crate) fn abs_units(a: i128) -> (m: u128)
    ensures
        m == magnitude(a as int),
{
    if a >= 0 {
        a as u128
    } else if a == i128::MIN {
        0x8000_0000_0000_0000_0000_0000_0000_0000u128
    } else {
        (-a) as u128
    }
}

} // verus!

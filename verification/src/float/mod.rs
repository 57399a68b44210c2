//! IEEE 754 binary32 numbers, held as bit patterns.
pub mod add;
pub mod bounds;
pub mod convert;
pub mod exact;
pub mod multiply;
pub mod order;
pub mod root;
pub mod rounding;

use rounding::INFINITY;
use vstd::arithmetic::power2::*;
use vstd::prelude::*;

verus! {

/// A binary32 number, given by its bit pattern.
#[derive(Clone, Copy, Debug, PartialEq, Eq, Structural)]
pub struct F32 {
    /// Sign bit, eight exponent bits and twenty-three fraction bits.
    pub bits: u32,
}

impl F32 {
    /// Whether the sign bit is set.
    pub open spec fn negative(self) -> bool {
        self.bits >= 0x8000_0000
    }

    /// The bit pattern without the sign bit.
    pub open spec fn magnitude(self) -> nat {
        (self.bits % 0x8000_0000) as nat
    }

    /// Whether this is no number.
    pub open spec fn nan(self) -> bool {
        self.magnitude() > INFINITY
    }

    /// Whether this is an infinity.
    pub open spec fn infinite(self) -> bool {
        self.magnitude() == INFINITY
    }

    /// Whether this is a finite number.
    pub open spec fn finite(self) -> bool {
        self.magnitude() < INFINITY
    }

    /// Whether this is zero, of either sign.
    pub open spec fn zero(self) -> bool {
        self.magnitude() == 0
    }

    /// The quantum exponent of a finite number.
    pub open spec fn exponent(self) -> nat {
        if self.magnitude() < 0x80_0000 {
            0
        } else {
            (self.magnitude() / 0x80_0000 - 1) as nat
        }
    }

    /// The significand of a finite number.
    pub open spec fn significand(self) -> nat {
        (self.magnitude() - self.exponent() * 0x80_0000) as nat
    }

    /// The absolute value of a finite number, in units of the least positive number.
    pub open spec fn units(self) -> nat {
        self.significand() * pow2(self.exponent())
    }

    /// The value of a finite number, in units of the least positive number.
    pub open spec fn value(self) -> int {
        if self.negative() {
            -self.units()
        } else {
            self.units() as int
        }
    }

    /// The number with this sign and magnitude.
    pub open spec fn signed(negative: bool, magnitude: nat) -> F32 {
        F32 {
            bits: if negative {
                (magnitude + 0x8000_0000) as u32
            } else {
                magnitude as u32
            },
        }
    }

    /// The quiet NaN that invalid operations return.
    pub open spec fn invalid() -> F32 {
        F32 { bits: 0x7FC0_0000 }
    }

    /// The number with this bit pattern.
    pub fn from_bits(bits: u32) -> (r: F32)
        ensures
            r.bits == bits,
    {
        F32 { bits }
    }

    /// The bit pattern of this number.
    pub fn to_bits(self) -> (r: u32)
        ensures
            r == self.bits,
    {
        self.bits
    }

    /// Whether this is no number.
    pub fn is_nan(self) -> (r: bool)
        ensures
            r == self.nan(),
    {
        self.bits % 0x8000_0000 > INFINITY
    }

    /// The magnitude bits.
    pub(crate) fn magnitude_bits(self) -> (r: u32)
        ensures
            r == self.magnitude(),
            r < 0x8000_0000,
    {
        self.bits % 0x8000_0000
    }

    /// Whether the sign bit is set.
    pub fn is_sign_negative(self) -> (r: bool)
        ensures
            r == self.negative(),
    {
        self.bits >= 0x8000_0000
    }

    /// The number with this sign and magnitude.
    pub(crate) fn compose(negative: bool, magnitude: u32) -> (r: F32)
        requires
            magnitude < 0x8000_0000,
        ensures
            r == F32::signed(negative, magnitude as nat),
            r.negative() == negative,
            r.magnitude() == magnitude,
    {
        if negative {
            F32 { bits: magnitude + 0x8000_0000 }
        } else {
            F32 { bits: magnitude }
        }
    }

    /// The quantum exponent and the significand of a finite number.
    pub(crate) fn split(self) -> (r: (i32, u64))
        requires
            self.finite(),
        ensures
            r.0 == self.exponent(),
            r.1 == self.significand(),
            0 <= r.0 < 254,
            r.1 < 0x100_0000,
            r.0 > 0 ==> r.1 >= 0x80_0000,
            r.0 * 0x80_0000 + r.1 == self.magnitude(),
    {
        let m: u32 = self.magnitude_bits();
        let e: u32 = if m < 0x80_0000 { 0 } else { m / 0x80_0000 - 1 };
        (e as i32, (m - e * 0x80_0000) as u64)
    }
}

} // verus!

//! Comparison.
use super::F32;
use vstd::arithmetic::power2::*;
use vstd::prelude::*;

verus! {

impl F32 {
    /// Orders numbers as their values; both zeros have the key zero.
    pub open spec fn key(self) -> int {
        if self.negative() {
            -self.magnitude()
        } else {
            self.magnitude() as int
        }
    }

    /// Orders all bit patterns: negative NaN first, `-0` before `+0`, positive NaN last.
    pub open spec fn rank(self) -> int {
        if self.negative() {
            -self.magnitude() - 1
        } else {
            self.magnitude() as int
        }
    }

    /// Whether both are numbers and the first is smaller.
    pub open spec fn less(self, other: F32) -> bool {
        !self.nan() && !other.nan() && self.key() < other.key()
    }

    /// Whether both are numbers and the first is not greater.
    pub open spec fn at_most(self, other: F32) -> bool {
        !self.nan() && !other.nan() && self.key() <= other.key()
    }

    /// Whether both are numbers of the same value.
    pub open spec fn equals(self, other: F32) -> bool {
        !self.nan() && !other.nan() && self.key() == other.key()
    }

    /// The smaller of two numbers; a NaN gives way to the other.
    pub open spec fn lesser(self, other: F32) -> F32 {
        if self.nan() || other.less(self) {
            other
        } else {
            self
        }
    }

    /// The greater of two numbers; a NaN gives way to the other.
    pub open spec fn greater(self, other: F32) -> F32 {
        if self.nan() || self.less(other) {
            other
        } else {
            self
        }
    }

    /// The number brought between two bounds; a NaN stays.
    pub open spec fn clamped(self, low: F32, high: F32) -> F32 {
        if self.less(low) {
            low
        } else if high.less(self) {
            high
        } else {
            self
        }
    }

    /// Orders numbers as their values; both zeros have the key zero.
    pub(crate) fn key_i64(self) -> (r: i64)
        ensures
            r == self.key(),
    {
        let m: i64 = self.magnitude_bits() as i64;
        if self.is_sign_negative() {
            -m
        } else {
            m
        }
    }

    /// The position of this bit pattern in the total order of all of them.
    pub fn total_rank(self) -> (r: i64)
        ensures
            r == self.rank(),
    {
        let m: i64 = self.magnitude_bits() as i64;
        if self.is_sign_negative() {
            -m - 1
        } else {
            m
        }
    }

    /// Whether both are numbers and the first is smaller.
    pub fn lt(self, other: F32) -> (r: bool)
        ensures
            r == self.less(other),
    {
        !self.is_nan() && !other.is_nan() && self.key_i64() < other.key_i64()
    }

    /// Whether both are numbers and the first is not greater.
    pub fn le(self, other: F32) -> (r: bool)
        ensures
            r == self.at_most(other),
    {
        !self.is_nan() && !other.is_nan() && self.key_i64() <= other.key_i64()
    }

    /// Whether both are numbers and the first is greater.
    pub fn gt(self, other: F32) -> (r: bool)
        ensures
            r == other.less(self),
    {
        other.lt(self)
    }

    /// Whether both are numbers and the first is not smaller.
    pub fn ge(self, other: F32) -> (r: bool)
        ensures
            r == other.at_most(self),
    {
        other.le(self)
    }

    /// The smaller of two numbers; a NaN gives way to the other.
    pub fn min(self, other: F32) -> (r: F32)
        ensures
            r == self.lesser(other),
    {
        if self.is_nan() || other.lt(self) {
            other
        } else {
            self
        }
    }

    /// The greater of two numbers; a NaN gives way to the other.
    pub fn max(self, other: F32) -> (r: F32)
        ensures
            r == self.greater(other),
    {
        if self.is_nan() || self.lt(other) {
            other
        } else {
            self
        }
    }

    /// The number brought between two bounds; a NaN stays.
    pub fn clamp(self, low: F32, high: F32) -> (r: F32)
        requires
            low.at_most(high),
        ensures
            r == self.clamped(low, high),
    {
        if self.lt(low) {
            low
        } else if high.lt(self) {
            high
        } else {
            self
        }
    }
}

/// Magnitudes are ordered as the absolute values that they stand for.
pub proof fn magnitude_orders_units(a: F32, b: F32)
    requires
        a.finite(),
        b.finite(),
    ensures
        a.magnitude() < b.magnitude() <==> a.units() < b.units(),
        a.magnitude() == b.magnitude() <==> a.units() == b.units(),
{
    if a.magnitude() < b.magnitude() {
        lemma_units_increase(a, b);
    }
    if b.magnitude() < a.magnitude() {
        lemma_units_increase(b, a);
    }
}

proof fn lemma_units_increase(a: F32, b: F32)
    requires
        b.finite(),
        a.magnitude() < b.magnitude(),
    ensures
        a.units() < b.units(),
{
    let (ea, eb) = (a.exponent(), b.exponent());
    let (ma, mb) = (a.significand(), b.significand());
    lemma_pow2_pos(ea);
    assert(ea <= eb);
    if ea == eb {
        assert(ma * pow2(ea) < mb * pow2(ea)) by (nonlinear_arith)
            requires ma < mb, pow2(ea) > 0;
    } else {
        lemma_pow2_adds((eb - ea) as nat, ea);
        let c = pow2((eb - ea) as nat);
        lemma2_to64();
        if eb - ea > 1 {
            lemma_pow2_strictly_increases(1, (eb - ea) as nat);
        }
        assert(ma < 0x100_0000);
        assert(mb >= 0x80_0000);
        assert(mb * (c * pow2(ea)) > ma * pow2(ea)) by (nonlinear_arith)
            requires ma < 0x100_0000, mb >= 0x80_0000, c >= 2, pow2(ea) > 0;
    }
}

/// Comparison of finite numbers compares their values.
pub proof fn comparison_compares_values(a: F32, b: F32)
    requires
        a.finite(),
        b.finite(),
    ensures
        a.less(b) <==> a.value() < b.value(),
        a.at_most(b) <==> a.value() <= b.value(),
        a.equals(b) <==> a.value() == b.value(),
{
    magnitude_orders_units(a, b);
    let zero = F32 { bits: 0 };
    assert(zero.units() == 0);
    magnitude_orders_units(a, zero);
    magnitude_orders_units(b, zero);
}

} // verus!

//! Addition and subtraction.
use super::rounding::{power_of_two, round_scaled, INFINITY};
use super::F32;
use vstd::arithmetic::power2::*;
use vstd::prelude::*;

verus! {

impl F32 {
    /// The number of the opposite sign.
    pub open spec fn negated(self) -> F32 {
        F32::signed(!self.negative(), self.magnitude())
    }

    /// The number without its sign.
    pub open spec fn absolute(self) -> F32 {
        F32::signed(false, self.magnitude())
    }

    /// The number nearest to a non-zero exact value in units.
    pub open spec fn nearest(v: int) -> F32 {
        if v < 0 {
            F32::signed(true, super::rounding::nearest_magnitude((-v) as nat, 1))
        } else {
            F32::signed(false, super::rounding::nearest_magnitude(v as nat, 1))
        }
    }

    /// The sum, correctly rounded.
    #[verifier::opaque]
    pub open spec fn plus(self, other: F32) -> F32 {
        if self.nan() || other.nan() || (self.infinite() && other.infinite() && self.negative()
            != other.negative()) {
            F32::invalid()
        } else if self.infinite() {
            self
        } else if other.infinite() {
            other
        } else if self.value() + other.value() == 0 {
            F32::signed(self.negative() && other.negative(), 0)
        } else {
            F32::nearest(self.value() + other.value())
        }
    }

    /// The difference, correctly rounded.
    pub open spec fn minus(self, other: F32) -> F32 {
        self.plus(other.negated())
    }

    /// The number of the opposite sign.
    pub fn neg(self) -> (r: F32)
        ensures
            r == self.negated(),
    {
        F32::compose(!self.is_sign_negative(), self.magnitude_bits())
    }

    /// The number without its sign.
    pub fn abs(self) -> (r: F32)
        ensures
            r == self.absolute(),
    {
        F32::compose(false, self.magnitude_bits())
    }

    /// The sum, correctly rounded.
    pub fn add(self, other: F32) -> (r: F32)
        ensures
            r == self.plus(other),
    {
        proof {
            reveal(F32::plus);
        }
        let a: u32 = self.magnitude_bits();
        let b: u32 = other.magnitude_bits();
        let na: bool = self.is_sign_negative();
        let nb: bool = other.is_sign_negative();
        if a > INFINITY || b > INFINITY || (a == INFINITY && b == INFINITY && na != nb) {
            F32 { bits: 0x7FC0_0000 }
        } else if a == INFINITY {
            self
        } else if b == INFINITY {
            other
        } else if a >= b {
            self.add_finite(other)
        } else {
            other.add_finite(self)
        }
    }

    /// The difference, correctly rounded.
    pub fn sub(self, other: F32) -> (r: F32)
        ensures
            r == self.minus(other),
    {
        self.add(other.neg())
    }

    /// The sum of two finite numbers, the first of which is not the smaller in magnitude.
    fn add_finite(self, other: F32) -> (r: F32)
        requires
            self.finite(),
            other.finite(),
            self.magnitude() >= other.magnitude(),
        ensures
            r == (if self.value() + other.value() == 0 {
                F32::signed(self.negative() && other.negative(), 0)
            } else {
                F32::nearest(self.value() + other.value())
            }),
    {
        let (ea, ma) = self.split();
        let (eb, mb) = other.split();
        let na: bool = self.is_sign_negative();
        let nb: bool = other.is_sign_negative();
        let diff: i32 = ea - eb;
        proof {
            assert(diff >= 0);
        }
        if diff > 38 {
            proof {
                lemma_add_far(self, other);
            }
            self
        } else {
            let ghost p = pow2(eb as nat);
            let ghost c = pow2(diff as nat);
            proof {
                lemma2_to64_rest();
                if diff < 38 {
                    lemma_pow2_strictly_increases(diff as nat, 38);
                }
                assert(ma * c < 0x4000_0000_0000_0000) by (nonlinear_arith)
                    requires ma < 0x100_0000, c <= 0x40_0000_0000;
                lemma_pow2_adds(eb as nat, diff as nat);
                lemma_pow2_pos(eb as nat);
                lemma_pow2_pos(diff as nat);
                assert(self.units() == (ma * c) * p) by (nonlinear_arith)
                    requires self.units() == ma * (p * c);
                assert(other.units() == mb * p);
            }
            let xa: u64 = ma * power_of_two(diff as u32);
            proof {
                assert(xa >= mb) by {
                    if diff == 0 {
                        lemma2_to64();
                        assert(ma * c == ma) by (nonlinear_arith)
                            requires c == 1;
                    } else {
                        lemma2_to64();
                        if diff > 1 {
                            lemma_pow2_strictly_increases(1, diff as nat);
                        }
                        assert(ma * c >= 0x80_0000 * 2) by (nonlinear_arith)
                            requires ma >= 0x80_0000, c >= 2;
                    }
                }
            }
            let s: u64 = if na == nb { xa + mb } else { xa - mb };
            proof {
                assert((xa + mb) * p == xa * p + mb * p) by (nonlinear_arith);
                assert((xa - mb) * p == xa * p - mb * p) by (nonlinear_arith);
                assert(s * p == 0 <==> s == 0) by (nonlinear_arith)
                    requires p > 0;
                assert(s as nat * p >= 0);
                assert(super::rounding::raised(eb as int) == p);
                assert(super::rounding::raised(-eb) == 1) by {
                    lemma2_to64();
                }
            }
            if s == 0 {
                F32::compose(na && nb, 0)
            } else {
                F32::compose(na, round_scaled(s, eb))
            }
        }
    }
}

/// Adding a number whose quantum is far smaller changes nothing.
proof fn lemma_add_far(a: F32, b: F32)
    requires
        a.finite(),
        b.finite(),
        a.exponent() > b.exponent() + 38,
    ensures
        a.value() + b.value() != 0,
        F32::nearest(a.value() + b.value()) == a,
{
    let e = a.exponent();
    let t = b.units();
    let p = pow2(e);
    assert(b.significand() < 0x100_0000);
    lemma2_to64_rest();
    lemma_pow2_adds(b.exponent(), (e - b.exponent()) as nat);
    let c = pow2((e - b.exponent()) as nat);
    lemma_pow2_strictly_increases(38, (e - b.exponent()) as nat);
    lemma_pow2_pos(b.exponent());
    assert(4 * t < p) by (nonlinear_arith)
        requires
            t == b.significand() * pow2(b.exponent()),
            b.significand() < 0x100_0000,
            p == pow2(b.exponent()) * c,
            c > 0x40_0000_0000,
            pow2(b.exponent()) > 0,
    ;
    super::rounding::lemma_nearest_perturbed(a.significand(), e, t);
    assert(a.units() > t) by (nonlinear_arith)
        requires a.units() == a.significand() * p, a.significand() >= 0x80_0000, 4 * t < p;
}

} // verus!

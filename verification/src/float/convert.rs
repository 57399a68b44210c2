//! Conversion from and to integers.
use super::rounding::{power_of_two, round_scaled, INFINITY};
use super::F32;
use vstd::arithmetic::div_mod::*;
use vstd::arithmetic::power2::*;
use vstd::prelude::*;

verus! {

/// `v`, brought into the range of an `i32`.
pub open spec fn saturated_i32(v: int) -> i32 {
    if v < i32::MIN {
        i32::MIN
    } else if v > i32::MAX {
        i32::MAX
    } else {
        v as i32
    }
}

/// `v`, brought into the range of a `usize`.
pub open spec fn saturated_usize(v: int) -> usize {
    if v < 0 {
        0
    } else if v > usize::MAX {
        usize::MAX
    } else {
        v as usize
    }
}

/// `v`, brought into the range of a `u32`.
pub open spec fn saturated_u32(v: int) -> u32 {
    if v < 0 {
        0
    } else if v > u32::MAX {
        u32::MAX
    } else {
        v as u32
    }
}

impl F32 {
    /// The number nearest to a natural number.
    #[verifier::opaque]
    pub open spec fn from_nat(n: nat) -> F32 {
        F32::signed(false, super::rounding::nearest_magnitude(n * pow2(149), 1))
    }

    /// The number nearest to a quotient, such as a decimal fraction.
    pub open spec fn ratio(n: u32, d: u32) -> F32 {
        F32::from_nat(n as nat).over(F32::from_nat(d as nat))
    }

    /// The absolute value without its fraction.
    pub open spec fn whole(self) -> nat {
        self.units() / pow2(149)
    }

    /// Whether the number has a fraction.
    pub open spec fn fractional(self) -> bool {
        self.units() % pow2(149) != 0
    }

    /// Whether the fraction is a half at least.
    pub open spec fn half_or_more(self) -> bool {
        2 * (self.units() % pow2(149)) >= pow2(149)
    }

    /// The greatest integer that is not greater, for a finite number.
    pub open spec fn floor_int(self) -> int {
        if !self.negative() {
            self.whole() as int
        } else if self.fractional() {
            -self.whole() - 1
        } else {
            -self.whole()
        }
    }

    /// The least integer that is not smaller, for a finite number.
    pub open spec fn ceil_int(self) -> int {
        if self.negative() {
            -self.whole()
        } else if self.fractional() {
            (self.whole() + 1) as int
        } else {
            self.whole() as int
        }
    }

    /// The nearest integer, away from zero where two are equally near, for a finite number.
    pub open spec fn round_int(self) -> int {
        let n = if self.half_or_more() { self.whole() + 1 } else { self.whole() };
        if self.negative() {
            -n
        } else {
            n as int
        }
    }

    /// The integer without the fraction, for a finite number.
    pub open spec fn trunc_int(self) -> int {
        if self.negative() {
            -self.whole()
        } else {
            self.whole() as int
        }
    }

    /// What an `i32` holds of the number whose integer is `v`: zero for a NaN, and the
    /// bound that is nearest where the integer is out of range.
    pub open spec fn as_i32(self, v: int) -> i32 {
        if self.nan() {
            0
        } else if self.infinite() {
            if self.negative() {
                i32::MIN
            } else {
                i32::MAX
            }
        } else {
            saturated_i32(v)
        }
    }

    /// What a `usize` holds of the number whose integer is `v`.
    pub open spec fn as_usize(self, v: int) -> usize {
        if self.nan() {
            0
        } else if self.infinite() {
            if self.negative() {
                0
            } else {
                usize::MAX
            }
        } else {
            saturated_usize(v)
        }
    }

    /// What a `u32` holds of the number whose integer is `v`.
    pub open spec fn as_u32(self, v: int) -> u32 {
        if self.nan() {
            0
        } else if self.infinite() {
            if self.negative() {
                0
            } else {
                u32::MAX
            }
        } else {
            saturated_u32(v)
        }
    }

    /// The greatest number without a fraction that is not greater.
    pub open spec fn floored(self) -> F32 {
        if !self.finite() || !self.fractional() {
            self
        } else if self.negative() {
            F32::signed(true, super::rounding::nearest_magnitude((self.whole() + 1) * pow2(149), 1))
        } else {
            F32::signed(false, super::rounding::nearest_magnitude(self.whole() * pow2(149), 1))
        }
    }

    /// The number nearest to a `u64`.
    pub fn from_u64(n: u64) -> (r: F32)
        ensures
            r == F32::from_nat(n as nat),
    {
        proof {
            reveal(F32::from_nat);
            lemma2_to64();
        }
        if n < 0x8000_0000_0000_0000 {
            assert(super::rounding::raised(149) == pow2(149));
            assert(super::rounding::raised(-149) == 1);
            F32::compose(false, round_scaled(n, 149))
        } else {
            let q: u64 = n / 2;
            let j: u64 = if n % 2 == 0 || q % 2 == 1 { q } else { q + 1 };
            proof {
                super::multiply::lemma_nearest_jammed(
                    n as nat,
                    2,
                    q as nat,
                    (n % 2) as nat,
                    j as nat,
                    150,
                );
                lemma_pow2_unfold(150);
                super::rounding::lemma_nearest_scale(n as nat * pow2(149), 1, 2);
                assert(n * pow2(150) == n * pow2(149) * 2) by (nonlinear_arith)
                    requires pow2(150) == 2 * pow2(149);
            }
            if j == 0x8000_0000_0000_0000 {
                proof {
                    super::multiply::lemma_scaled_down(0x4000_0000_0000_0000, 151, 0);
                    super::multiply::lemma_scaled_down(0x8000_0000_0000_0000, 150, 0);
                    lemma_pow2_unfold(151);
                }
                F32::compose(false, round_scaled(0x4000_0000_0000_0000, 151))
            } else {
                F32::compose(false, round_scaled(j, 150))
            }
        }
    }

    /// The number nearest to a `usize`.
    pub fn from_usize(n: usize) -> (r: F32)
        ensures
            r == F32::from_nat(n as nat),
    {
        F32::from_u64(n as u64)
    }

    /// The number nearest to a `u32`.
    pub fn from_u32(n: u32) -> (r: F32)
        ensures
            r == F32::from_nat(n as nat),
    {
        F32::from_u64(n as u64)
    }

    /// The number nearest to a quotient, such as a decimal fraction.
    pub fn fraction(n: u32, d: u32) -> (r: F32)
        ensures
            r == F32::ratio(n, d),
    {
        F32::from_u32(n).div(F32::from_u32(d))
    }

    /// The absolute value without its fraction, as far as a `u64` holds it, then whether
    /// there is a fraction and whether it is a half at least.
    fn parts(self) -> (r: (u64, bool, bool))
        requires
            self.finite(),
        ensures
            r.0 == (if self.whole() > u64::MAX {
                u64::MAX as nat
            } else {
                self.whole()
            }),
            r.1 == self.fractional(),
            r.2 == self.half_or_more(),
            r.1 ==> r.0 < 0x100_0000,
            r.2 ==> r.1,
    {
        let (e, m) = self.split();
        let ghost p = pow2(149);
        proof {
            lemma_pow2_pos(149);
            lemma2_to64();
            lemma2_to64_rest();
        }
        if e >= 149 {
            let k: i32 = e - 149;
            let ghost c = pow2(k as nat);
            proof {
                lemma_pow2_adds(k as nat, 149);
                assert(self.units() == (m * c) * p) by (nonlinear_arith)
                    requires self.units() == m * (c * p);
                lemma_fundamental_div_mod_converse(
                    self.units() as int,
                    p as int,
                    (m * c) as int,
                    0,
                );
            }
            if k > 40 {
                proof {
                    lemma_pow2_strictly_increases(40, k as nat);
                    lemma_pow2_unfold(41);
                    if k > 41 {
                        lemma_pow2_strictly_increases(41, k as nat);
                    }
                    assert(m * c > u64::MAX) by (nonlinear_arith)
                        requires m >= 0x80_0000, c >= 0x200_0000_0000;
                }
                (u64::MAX, false, false)
            } else {
                proof {
                    if k < 40 {
                        lemma_pow2_strictly_increases(k as nat, 40);
                    }
                    assert(m * c <= u64::MAX) by (nonlinear_arith)
                        requires m < 0x100_0000, c <= 0x100_0000_0000;
                }
                (m * power_of_two(k as u32), false, false)
            }
        } else {
            let k: i32 = 149 - e;
            let ghost c = pow2(k as nat);
            let ghost u = pow2(e as nat);
            proof {
                lemma_pow2_adds(k as nat, e as nat);
                lemma_pow2_pos(k as nat);
                lemma_pow2_pos(e as nat);
            }
            if k > 24 {
                proof {
                    lemma_pow2_strictly_increases(25, 26);
                    if k > 25 {
                        lemma_pow2_strictly_increases(25, k as nat);
                    }
                    assert(2 * (m * u) < c * u) by (nonlinear_arith)
                        requires m < 0x100_0000, c >= 0x200_0000, u > 0;
                    assert(m * u >= 0) by (nonlinear_arith);
                    lemma_fundamental_div_mod_converse(
                        self.units() as int,
                        p as int,
                        0,
                        (m * u) as int,
                    );
                    assert(m * u == 0 <==> m == 0) by (nonlinear_arith)
                        requires u > 0;
                }
                (0, m != 0, false)
            } else {
                let d: u64 = power_of_two(k as u32);
                let q: u64 = m / d;
                let r: u64 = m % d;
                proof {
                    lemma_fundamental_div_mod(m as int, d as int);
                    assert(m * u == q * (c * u) + r * u) by (nonlinear_arith)
                        requires m == d * q + r, d == c;
                    assert(0 <= r * u < c * u) by (nonlinear_arith)
                        requires 0 <= r < c, u > 0;
                    lemma_fundamental_div_mod_converse(
                        self.units() as int,
                        p as int,
                        q as int,
                        (r * u) as int,
                    );
                    assert(r * u == 0 <==> r == 0) by (nonlinear_arith)
                        requires u > 0;
                    assert(2 * (r * u) >= c * u <==> 2 * r >= c) by (nonlinear_arith)
                        requires u > 0;
                    assert(q <= m) by (nonlinear_arith)
                        requires q == m / d, d >= 1;
                    if k < 24 {
                        lemma_pow2_strictly_increases(k as nat, 24);
                    }
                }
                (q, r != 0, r >= d - r)
            }
        }
    }

    /// The greatest number without a fraction that is not greater.
    pub fn floor(self) -> (r: F32)
        ensures
            r == self.floored(),
    {
        if self.magnitude_bits() >= INFINITY {
            return self;
        }
        let (q, fractional, _) = self.parts();
        if !fractional {
            self
        } else {
            proof {
                lemma2_to64();
                assert(super::rounding::raised(149) == pow2(149));
                assert(super::rounding::raised(-149) == 1);
            }
            if self.is_sign_negative() {
                F32::compose(true, round_scaled(q + 1, 149))
            } else {
                F32::compose(false, round_scaled(q, 149))
            }
        }
    }

    /// The greatest integer that is not greater, as far as an `i32` holds it.
    pub fn floor_i32(self) -> (r: i32)
        ensures
            r == self.as_i32(self.floor_int()),
    {
        if self.is_nan() {
            return 0;
        }
        let negative: bool = self.is_sign_negative();
        if self.magnitude_bits() == INFINITY {
            return if negative { i32::MIN } else { i32::MAX };
        }
        let (q, fractional, _) = self.parts();
        if negative {
            let n: u64 = if fractional { q + 1 } else { q };
            negative_i32(n)
        } else if q > 0x7FFF_FFFF {
            i32::MAX
        } else {
            q as i32
        }
    }

    /// The least integer that is not smaller, as far as an `i32` holds it.
    pub fn ceil_i32(self) -> (r: i32)
        ensures
            r == self.as_i32(self.ceil_int()),
    {
        if self.is_nan() {
            return 0;
        }
        let negative: bool = self.is_sign_negative();
        if self.magnitude_bits() == INFINITY {
            return if negative { i32::MIN } else { i32::MAX };
        }
        let (q, fractional, _) = self.parts();
        if negative {
            negative_i32(q)
        } else {
            let n: u64 = if fractional { q + 1 } else { q };
            if n > 0x7FFF_FFFF {
                i32::MAX
            } else {
                n as i32
            }
        }
    }

    /// The nearest integer, as far as a `usize` holds it.
    pub fn round_usize(self) -> (r: usize)
        ensures
            r == self.as_usize(self.round_int()),
    {
        if self.is_nan() {
            return 0;
        }
        let negative: bool = self.is_sign_negative();
        if self.magnitude_bits() == INFINITY {
            return if negative { 0 } else { usize::MAX };
        }
        let (q, _, half) = self.parts();
        if negative {
            0
        } else {
            let n: u64 = if half { q + 1 } else { q };
            if n > usize::MAX as u64 {
                usize::MAX
            } else {
                n as usize
            }
        }
    }

    /// The nearest integer, as far as a `u32` holds it.
    pub fn round_u32(self) -> (r: u32)
        ensures
            r == self.as_u32(self.round_int()),
    {
        if self.is_nan() {
            return 0;
        }
        let negative: bool = self.is_sign_negative();
        if self.magnitude_bits() == INFINITY {
            return if negative { 0 } else { u32::MAX };
        }
        let (q, _, half) = self.parts();
        if negative {
            0
        } else {
            let n: u64 = if half { q + 1 } else { q };
            if n > 0xFFFF_FFFF {
                u32::MAX
            } else {
                n as u32
            }
        }
    }

    /// The integer without the fraction, as far as a `usize` holds it.
    pub fn trunc_usize(self) -> (r: usize)
        ensures
            r == self.as_usize(self.trunc_int()),
    {
        if self.is_nan() {
            return 0;
        }
        let negative: bool = self.is_sign_negative();
        if self.magnitude_bits() == INFINITY {
            return if negative { 0 } else { usize::MAX };
        }
        let (q, _, _) = self.parts();
        if negative {
            0
        } else if q > usize::MAX as u64 {
            usize::MAX
        } else {
            q as usize
        }
    }
}

fn negative_i32(n: u64) -> (r: i32)
    ensures
        r == saturated_i32(-n),
{
    if n > 0x7FFF_FFFF {
        i32::MIN
    } else {
        -(n as i32)
    }
}

} // verus!

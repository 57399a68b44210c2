//! Multiplication and division.
use super::rounding::{bit_length, power_of_two, round_scaled, INFINITY};
use super::F32;
use vstd::arithmetic::div_mod::*;
use vstd::arithmetic::power2::*;
use vstd::prelude::*;

verus! {

impl F32 {
    /// The product, correctly rounded. The exact product of two values in units has to be
    /// divided by the `2^149` units of one.
    #[verifier::opaque]
    pub open spec fn times(self, other: F32) -> F32 {
        let negative = self.negative() != other.negative();
        if self.nan() || other.nan() || (self.infinite() && other.zero()) || (self.zero()
            && other.infinite()) {
            F32::invalid()
        } else if self.infinite() || other.infinite() {
            F32::signed(negative, INFINITY as nat)
        } else {
            F32::signed(
                negative,
                super::rounding::nearest_magnitude(self.units() * other.units(), pow2(149)),
            )
        }
    }

    /// The quotient, correctly rounded.
    #[verifier::opaque]
    pub open spec fn over(self, other: F32) -> F32 {
        let negative = self.negative() != other.negative();
        if self.nan() || other.nan() || (self.infinite() && other.infinite()) || (self.zero()
            && other.zero()) {
            F32::invalid()
        } else if self.infinite() || other.zero() {
            F32::signed(negative, INFINITY as nat)
        } else if self.zero() || other.infinite() {
            F32::signed(negative, 0)
        } else {
            F32::signed(
                negative,
                super::rounding::nearest_magnitude(self.units() * pow2(149), other.units()),
            )
        }
    }

    /// The product, correctly rounded.
    pub fn mul(self, other: F32) -> (r: F32)
        ensures
            r == self.times(other),
    {
        proof {
            reveal(F32::times);
        }
        let a: u32 = self.magnitude_bits();
        let b: u32 = other.magnitude_bits();
        let negative: bool = self.is_sign_negative() != other.is_sign_negative();
        if a > INFINITY || b > INFINITY || (a == INFINITY && b == 0) || (a == 0 && b == INFINITY) {
            F32 { bits: 0x7FC0_0000 }
        } else if a == INFINITY || b == INFINITY {
            F32::compose(negative, INFINITY)
        } else {
            let (ea, ma) = self.split();
            let (eb, mb) = other.split();
            proof {
                assert(ma * mb < 0x1_0000_0000_0000) by (nonlinear_arith)
                    requires ma < 0x100_0000, mb < 0x100_0000;
                let (pa, pb) = (pow2(ea as nat), pow2(eb as nat));
                lemma_pow2_adds(ea as nat, eb as nat);
                assert(self.units() * other.units() == (ma * mb) * (pa * pb)) by (nonlinear_arith)
                    requires self.units() == ma * pa, other.units() == mb * pb;
                lemma_scaled_down((ma * mb) as nat, (ea + eb) as nat, 149);
            }
            F32::compose(negative, round_scaled(ma * mb, ea + eb - 149))
        }
    }

    /// The quotient, correctly rounded.
    pub fn div(self, other: F32) -> (r: F32)
        ensures
            r == self.over(other),
    {
        proof {
            reveal(F32::over);
        }
        let a: u32 = self.magnitude_bits();
        let b: u32 = other.magnitude_bits();
        let negative: bool = self.is_sign_negative() != other.is_sign_negative();
        if a > INFINITY || b > INFINITY || (a == INFINITY && b == INFINITY) || (a == 0 && b == 0) {
            F32 { bits: 0x7FC0_0000 }
        } else if a == INFINITY || b == 0 {
            F32::compose(negative, INFINITY)
        } else if a == 0 || b == INFINITY {
            F32::compose(negative, 0)
        } else {
            self.div_finite(other, negative)
        }
    }

    /// The quotient of two finite non-zero numbers.
    fn div_finite(self, other: F32, negative: bool) -> (r: F32)
        requires
            self.finite(),
            other.finite(),
            !self.zero(),
            !other.zero(),
        ensures
            r == F32::signed(
                negative,
                super::rounding::nearest_magnitude(self.units() * pow2(149), other.units()),
            ),
    {
        let (ea, ma) = self.split();
        let (eb, mb) = other.split();
        // Bring the dividend to sixty-two digits, so that the quotient has at least thirty-eight.
        let l: u32 = bit_length(ma);
        proof {
            lemma2_to64();
            lemma2_to64_rest();
            if l > 24 {
                lemma_pow2_strictly_increases(23, (l - 1) as nat);
                if l > 25 {
                    lemma_pow2_strictly_increases(24, (l - 1) as nat);
                }
                assert(false);
            }
        }
        let k: u32 = 62 - l;
        let ghost c = pow2(k as nat);
        proof {
            lemma_pow2_adds(l as nat, k as nat);
            lemma_pow2_adds((l - 1) as nat, k as nat);
            lemma_pow2_pos(k as nat);
            assert(ma * c < pow2(62)) by (nonlinear_arith)
                requires ma < pow2(l as nat), pow2(l as nat) * c == pow2(62), c > 0;
            assert(ma * c >= pow2(61)) by (nonlinear_arith)
                requires ma >= pow2((l - 1) as nat), pow2((l - 1) as nat) * c == pow2(61), c > 0;
        }
        let x: u64 = ma * power_of_two(k);
        let q: u64 = x / mb;
        let r: u64 = x % mb;
        proof {
            assert(q >= 0x20_0000_0000) by (nonlinear_arith)
                requires x >= 0x2000_0000_0000_0000, 0 < mb < 0x100_0000, q == x / mb;
            assert(q <= x) by (nonlinear_arith)
                requires q == x / mb, mb > 0;
        }
        let j: u64 = if r == 0 || q % 2 == 1 { q } else { q + 1 };
        proof {
            lemma_div_jammed(self, other, ma, mb, ea as nat, eb as nat, k as nat, x, q, r, j);
        }
        F32::compose(negative, round_scaled(j, ea - eb - k as i32 + 149))
    }
}

/// A product with `2^a`, divided by `2^b`, is a scaled number.
pub(crate) proof fn lemma_scaled_down(m: nat, a: nat, b: nat)
    ensures
        super::rounding::nearest_magnitude(m * pow2(a), pow2(b))
            == super::rounding::nearest_scaled(m, a - b),
{
    lemma2_to64();
    let c: nat = if a < b { a } else { b };
    lemma_pow2_pos(c);
    lemma_pow2_adds((a - c) as nat, c);
    lemma_pow2_adds((b - c) as nat, c);
    lemma_pow2_pos((b - c) as nat);
    let (u, d) = (pow2((a - c) as nat), pow2((b - c) as nat));
    assert(m * pow2(a) == (m * u) * pow2(c)) by (nonlinear_arith)
        requires pow2(a) == u * pow2(c);
    super::rounding::lemma_nearest_scale(m * u, d, pow2(c));
    assert(super::rounding::raised(a - b) == u);
    assert(super::rounding::raised(b - a) == d);
}

/// Rounding off two digits or more gives the same integer for `n / d` as for its integer part
/// made odd where `n / d` is no integer.
pub(crate) proof fn lemma_half_even_jammed(n: nat, d: nat, q: nat, r: nat, j: nat, h: nat)
    requires
        d > 0,
        n == q * d + r,
        r < d,
        h > 0,
        j == (if r == 0 || q % 2 == 1 { q } else { q + 1 }),
    ensures
        super::rounding::half_even(n, d * (4 * h)) == super::rounding::half_even(j, 4 * h),
{
    let w = 4 * h;
    let qq = q / w;
    let rr = q % w;
    lemma_fundamental_div_mod(q as int, w as int);
    // n = qq * (d w) + (rr d + r)
    assert(n == qq * (d * w) + (rr * d + r)) by (nonlinear_arith)
        requires n == q * d + r, q == w * qq + rr;
    assert(rr * d + r < d * w) by (nonlinear_arith)
        requires rr + 1 <= w, r < d, d > 0;
    assert(d * w > 0) by (nonlinear_arith)
        requires d > 0, w > 0;
    assert(rr * d + r >= 0) by (nonlinear_arith)
        requires rr >= 0, d >= 0, r >= 0;
    lemma_fundamental_div_mod_converse(n as int, (d * w) as int, qq as int, (rr * d + r) as int);
    let jr = rr + (j - q);
    assert(rr % 2 == q % 2) by {
        assert(q == 2 * (2 * h * qq) + rr) by (nonlinear_arith)
            requires q == w * qq + rr, w == 4 * h;
    }
    assert(w % 2 == 0);
    assert(jr < w);
    assert(j == qq * w + jr) by (nonlinear_arith)
        requires q == w * qq + rr, jr == rr + (j - q);
    lemma_fundamental_div_mod_converse(j as int, w as int, qq as int, jr);
    // Compare twice the remainders with the divisors: the half is the even 2 h.
    if rr < 2 * h {
        if r == 0 {
            assert(2 * (rr * d + r) < d * w <==> 2 * rr < w) by (nonlinear_arith)
                requires r == 0, d > 0;
        } else {
            assert(rr + 1 <= 2 * h);
            assert(2 * (rr * d + r) < d * w) by (nonlinear_arith)
                requires rr + 1 <= 2 * h, r < d, w == 4 * h;
            assert(jr < 2 * h);
        }
    } else {
        if r == 0 {
            assert(2 * (rr * d + r) < d * w <==> 2 * rr < w) by (nonlinear_arith)
                requires r == 0, d > 0;
            assert(2 * (rr * d + r) == d * w <==> 2 * rr == w) by (nonlinear_arith)
                requires r == 0, d > 0;
        } else {
            assert(2 * (rr * d + r) > d * w) by (nonlinear_arith)
                requires rr >= 2 * h, r > 0, w == 4 * h, d > 0;
            assert(jr > 2 * h);
        }
    }
}

/// Rounding the jammed integer part of a quotient rounds the quotient.
#[verifier::spinoff_prover]
pub(crate) proof fn lemma_nearest_jammed(n: nat, d: nat, q: nat, r: nat, j: nat, s: int)
    requires
        d > 0,
        n == q * d + r,
        r < d,
        q >= 0x400_0000,
        j == (if r == 0 || q % 2 == 1 { q } else { q + 1 }),
    ensures
        super::rounding::nearest_magnitude(
            n * super::rounding::raised(s),
            d * super::rounding::raised(-s),
        ) == super::rounding::nearest_scaled(j, s),
{
    let u = super::rounding::raised(s);
    let v = super::rounding::raised(-s);
    lemma2_to64();
    if s >= 0 {
        lemma_pow2_pos(s as nat);
    } else {
        lemma_pow2_pos((-s) as nat);
    }
    assert(d * v > 0) by (nonlinear_arith)
        requires d > 0, v > 0;
    let e = super::rounding::quantum(j * u, v);
    super::rounding::lemma_quantum_bounds(j * u, v);
    // The quantum exceeds the scale by two at least.
    if e < s + 2 {
        if s >= 0 {
            assert(v == 1);
            if 24 + e < s + 26 {
                lemma_pow2_strictly_increases(24 + e, (s + 26) as nat);
            }
            lemma_pow2_adds(26, s as nat);
            assert(j * u >= 0x400_0000 * u) by (nonlinear_arith)
                requires j >= 0x400_0000;
            assert(0x400_0000 == pow2(26));
            let bound = pow2(24 + e);
            assert(v * bound == bound) by (nonlinear_arith)
                requires v == 1;
            assert(j * u < bound);
            assert(pow2((26 + s) as nat) == pow2(26) * u);
            assert(bound <= pow2((s + 26) as nat));
            assert(26 + s == s + 26);
            assert(false);
        } else {
            assert(u == 1);
            assert(j * u == j);
            lemma_pow2_adds((-s) as nat, 24 + e);
            lemma_pow2_adds(0, 26);
            if (-s) + 24 + e < 26 {
                lemma_pow2_strictly_increases(((-s) + 24 + e) as nat, 26);
            }
            assert(0x400_0000 == pow2(26));
            assert(false);
        }
    }
    let k = (e - s) as nat;
    let h = pow2((k - 2) as nat);
    lemma_pow2_pos((k - 2) as nat);
    lemma_pow2_adds(2, (k - 2) as nat);
    lemma_half_even_jammed(n, d, q, r, j, h);
    super::rounding::lemma_scaled_half_even(j, s, e);
    // The same holds of the quotient itself.
    lemma_pow2_pos(e);
    assert(super::rounding::half_even(n * u, (d * v) * pow2(e)) == super::rounding::half_even(
        n,
        d * pow2(k),
    )) by {
        if s >= 0 {
            lemma_pow2_adds(k, s as nat);
            assert((d * v) * pow2(e) == (d * pow2(k)) * u) by (nonlinear_arith)
                requires v == 1, pow2(e) == pow2(k) * u;
            assert(d * pow2(k) > 0) by (nonlinear_arith)
                requires d > 0, pow2(k) == 4 * h, h > 0;
            super::rounding::lemma_half_even_scale(n, d * pow2(k), u);
        } else {
            lemma_pow2_adds((-s) as nat, e);
            assert((d * v) * pow2(e) == d * pow2(k)) by (nonlinear_arith)
                requires v * pow2(e) == pow2(k);
            assert(n * u == n);
        }
    }
    // And so does the quantum.
    lemma_quantum_jammed(n, d, q, r, j, s, e);
    super::rounding::lemma_quantum_unique(n * u, d * v, e);
}

/// The quotient lies between the same powers of two as its jammed integer part.
proof fn lemma_quantum_jammed(n: nat, d: nat, q: nat, r: nat, j: nat, s: int, e: nat)
    requires
        d > 0,
        n == q * d + r,
        r < d,
        j == (if r == 0 || q % 2 == 1 { q } else { q + 1 }),
        e >= s + 2,
        j * super::rounding::raised(s) < super::rounding::raised(-s) * pow2(24 + e),
        e > 0 ==> j * super::rounding::raised(s) >= super::rounding::raised(-s) * pow2(
            (23 + e) as nat,
        ),
    ensures
        n * super::rounding::raised(s) < (d * super::rounding::raised(-s)) * pow2(24 + e),
        e > 0 ==> n * super::rounding::raised(s) >= (d * super::rounding::raised(-s)) * pow2(
            (23 + e) as nat,
        ),
{
    let u = super::rounding::raised(s);
    let v = super::rounding::raised(-s);
    lemma2_to64();
    // In both cases j is compared with an even power of two: j < hi and j >= lo.
    let hi = pow2((24 + e - s) as nat);
    let lo = pow2((23 + e - s) as nat);
    lemma_pow2_unfold((24 + e - s) as nat);
    lemma_pow2_unfold((23 + e - s) as nat);
    if s >= 0 {
        lemma_pow2_pos(s as nat);
        lemma_pow2_adds((24 + e - s) as nat, s as nat);
        lemma_pow2_adds((23 + e - s) as nat, s as nat);
        assert(j < hi) by (nonlinear_arith)
            requires j * u < hi * u, u > 0;
        if e > 0 {
            assert(j >= lo) by (nonlinear_arith)
                requires j * u >= lo * u, u > 0;
        }
    } else {
        lemma_pow2_adds((-s) as nat, 24 + e);
        lemma_pow2_adds((-s) as nat, (23 + e) as nat);
        assert(j * u == j);
    }
    assert(q + 1 <= hi);
    assert(n < d * hi) by (nonlinear_arith)
        requires n == q * d + r, r < d, q + 1 <= hi;
    if e > 0 {
        assert(q >= lo);
        assert(n >= d * lo) by (nonlinear_arith)
            requires n == q * d + r, q >= lo;
    }
    if s >= 0 {
        assert(n * u < (d * v) * pow2(24 + e)) by (nonlinear_arith)
            requires n < d * hi, v == 1, pow2(24 + e) == hi * u, u > 0;
        if e > 0 {
            assert(n * u >= (d * v) * pow2((23 + e) as nat)) by (nonlinear_arith)
                requires n >= d * lo, v == 1, pow2((23 + e) as nat) == lo * u, u > 0;
        }
    } else {
        assert(n * u == n);
        assert((d * v) * pow2(24 + e) == d * hi) by (nonlinear_arith)
            requires v * pow2(24 + e) == hi;
        assert((d * v) * pow2((23 + e) as nat) == d * lo) by (nonlinear_arith)
            requires v * pow2((23 + e) as nat) == lo;
    }
}

/// The division of the scaled significands rounds to the quotient of the numbers.
proof fn lemma_div_jammed(
    a: F32,
    b: F32,
    ma: u64,
    mb: u64,
    ea: nat,
    eb: nat,
    k: nat,
    x: u64,
    q: u64,
    r: u64,
    j: u64,
)
    requires
        a.units() == ma * pow2(ea),
        b.units() == mb * pow2(eb),
        mb > 0,
        x == ma * pow2(k),
        q == x / mb,
        r == x % mb,
        q >= 0x400_0000,
        j == (if r == 0 || q % 2 == 1 { q } else { (q + 1) as u64 }),
        q < 0x8000_0000_0000_0000,
    ensures
        super::rounding::nearest_magnitude(a.units() * pow2(149), b.units())
            == super::rounding::nearest_scaled(j as nat, ea - eb - k + 149),
{
    let s = ea - eb - k + 149;
    lemma_fundamental_div_mod(x as int, mb as int);
    assert(x == q * mb + r) by (nonlinear_arith)
        requires x == mb * (x as int / mb as int) + r, q == x / mb;
    lemma_nearest_jammed(x as nat, mb as nat, q as nat, r as nat, j as nat, s);
    let u = super::rounding::raised(s);
    let v = super::rounding::raised(-s);
    lemma2_to64();
    // Both fractions are the same up to a power of two.
    let top: nat = ea + 149;
    let bot: nat = eb + k;
    let c: nat = if top < bot { top } else { bot };
    lemma_pow2_pos(c);
    lemma_pow2_adds(ea, 149);
    lemma_pow2_adds(eb, k);
    lemma_pow2_adds((top - c) as nat, c);
    lemma_pow2_adds((bot - c) as nat, c);
    lemma_pow2_pos((bot - c) as nat);
    assert(u == pow2((top - c) as nat));
    assert(v == pow2((bot - c) as nat));
    let w = pow2(k);
    lemma_pow2_pos(k);
    let n1 = a.units() * pow2(149);
    let d1 = b.units();
    lemma_pow2_pos(eb);
    assert(d1 > 0) by (nonlinear_arith)
        requires d1 == mb * pow2(eb), mb > 0, pow2(eb) > 0;
    super::rounding::lemma_nearest_scale(n1, d1, w);
    assert(mb * v > 0) by (nonlinear_arith)
        requires mb > 0, v > 0;
    super::rounding::lemma_nearest_scale(x as nat * u, mb as nat * v, pow2(c));
    assert(n1 * w == (x * u) * pow2(c)) by (nonlinear_arith)
        requires
            n1 == (ma * pow2(ea)) * pow2(149),
            x == ma * w,
            pow2(ea) * pow2(149) == u * pow2(c),
    ;
    assert(d1 * w == (mb * v) * pow2(c)) by (nonlinear_arith)
        requires d1 == mb * pow2(eb), pow2(eb) * w == v * pow2(c);
}

} // verus!

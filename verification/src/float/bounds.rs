//! Bounds on rounded results.
use super::F32;
use vstd::arithmetic::div_mod::*;
use vstd::arithmetic::power2::*;
use vstd::prelude::*;

verus! {

proof fn lemma_half_even_monotone(a: nat, b: nat, d: nat)
    requires
        d > 0,
        a <= b,
    ensures
        super::rounding::half_even(a, d) <= super::rounding::half_even(b, d),
{
    let (p, q) = (a / d, b / d);
    let (r, s) = (a % d, b % d);
    lemma_fundamental_div_mod(a as int, d as int);
    lemma_fundamental_div_mod(b as int, d as int);
    assert(p <= q) by (nonlinear_arith)
        requires a <= b, d > 0, a == d * p + r, b == d * q + s, 0 <= r < d, 0 <= s < d;
    if p == q {
        assert(r <= s);
    }
}

/// A rounded quotient is not greater than a number that the quotient does not exceed, and not
/// smaller than a number that it reaches.
pub proof fn rounding_is_monotone(n: nat, d: nat, f: F32)
    requires
        d > 0,
        f.finite(),
    ensures
        n <= f.units() * d ==> super::rounding::nearest_magnitude(n, d) <= f.magnitude(),
        n >= f.units() * d ==> super::rounding::nearest_magnitude(n, d) >= f.magnitude(),
{
    let e = super::rounding::quantum(n, d);
    super::rounding::lemma_quantum_bounds(n, d);
    let k = f.exponent();
    let m = f.significand();
    let dk = d * pow2(e);
    lemma_pow2_pos(e);
    lemma_pow2_pos(k);
    assert(dk > 0) by (nonlinear_arith)
        requires d > 0, pow2(e) > 0, dk == d * pow2(e);
    let h = super::rounding::half_even(n, dk);
    lemma2_to64();
    // The significand that rounding gives is at most 2^24, and 2^23 at least above quantum zero.
    lemma_pow2_adds(24, e);
    assert(d * pow2(24 + e) == 0x100_0000 * dk) by (nonlinear_arith)
        requires pow2(24 + e) == 0x100_0000 * pow2(e), dk == d * pow2(e);
    super::rounding::lemma_half_even_exact(0x100_0000, dk);
    lemma_half_even_monotone(n, 0x100_0000 * dk, dk);
    if e > 0 {
        lemma_pow2_adds(23, e);
        assert(d * pow2((23 + e) as nat) == 0x80_0000 * dk) by (nonlinear_arith)
            requires pow2((23 + e) as nat) == 0x80_0000 * pow2(e), dk == d * pow2(e);
        super::rounding::lemma_half_even_exact(0x80_0000, dk);
        lemma_half_even_monotone(0x80_0000 * dk, n, dk);
    }
    assert(m < 0x100_0000);
    let u = f.units() * d;
    assert(u == m * (d * pow2(k))) by (nonlinear_arith)
        requires u == (m * pow2(k)) * d;
    if e == k {
        super::rounding::lemma_half_even_exact(m, dk);
        if n <= u {
            lemma_half_even_monotone(n, u, dk);
        }
        if n >= u {
            lemma_half_even_monotone(u, n, dk);
        }
    } else if e < k {
        if n >= u {
            lemma_pow2_adds((k - e) as nat, e);
            let c = pow2((k - e) as nat);
            if k - e > 1 {
                lemma_pow2_strictly_increases(1, (k - e) as nat);
            }
            assert(m * (d * pow2(k)) >= 0x100_0000 * dk) by (nonlinear_arith)
                requires m >= 0x80_0000, c >= 2, pow2(k) == c * pow2(e), dk == d * pow2(e);
        }
    } else {
        if n <= u {
            lemma_pow2_adds((e - k) as nat, k);
            let c = pow2((e - k) as nat);
            if e - k > 1 {
                lemma_pow2_strictly_increases(1, (e - k) as nat);
            }
            assert(d * pow2(k) > 0) by (nonlinear_arith)
                requires d > 0, pow2(k) > 0;
            assert(m * (d * pow2(k)) < 0x80_0000 * dk) by (nonlinear_arith)
                requires m < 0x100_0000, c >= 2, pow2(e) == c * pow2(k), dk == d * pow2(e), d * pow2(k) > 0;
        }
    }
}

/// Of two quotients with one divisor, the greater one is not rounded to the smaller number.
pub proof fn rounding_keeps_the_order(n: nat, m: nat, d: nat)
    requires
        d > 0,
        n <= m,
    ensures
        super::rounding::nearest_magnitude(n, d) <= super::rounding::nearest_magnitude(m, d),
{
    let (e, k) = (super::rounding::quantum(n, d), super::rounding::quantum(m, d));
    super::rounding::lemma_quantum_bounds(n, d);
    super::rounding::lemma_quantum_bounds(m, d);
    lemma2_to64();
    lemma_pow2_pos(e);
    lemma_pow2_pos(k);
    if e > k {
        if 24 + k < 23 + e {
            lemma_pow2_strictly_increases(24 + k, (23 + e) as nat);
        }
        assert(d * pow2(24 + k) <= d * pow2((23 + e) as nat)) by (nonlinear_arith)
            requires pow2(24 + k) <= pow2((23 + e) as nat);
        assert(false);
    }
    let (p, q) = (d * pow2(e), d * pow2(k));
    assert(p > 0) by (nonlinear_arith)
        requires d > 0, pow2(e) > 0, p == d * pow2(e);
    assert(q > 0) by (nonlinear_arith)
        requires d > 0, pow2(k) > 0, q == d * pow2(k);
    if e == k {
        lemma_half_even_monotone(n, m, p);
    } else {
        lemma_pow2_adds(24, e);
        assert(d * pow2(24 + e) == 0x100_0000 * p) by (nonlinear_arith)
            requires pow2(24 + e) == 0x100_0000 * pow2(e), p == d * pow2(e);
        super::rounding::lemma_half_even_exact(0x100_0000, p);
        lemma_half_even_monotone(n, 0x100_0000 * p, p);
        lemma_pow2_adds(23, k);
        assert(d * pow2((23 + k) as nat) == 0x80_0000 * q) by (nonlinear_arith)
            requires pow2((23 + k) as nat) == 0x80_0000 * pow2(k), q == d * pow2(k);
        super::rounding::lemma_half_even_exact(0x80_0000, q);
        lemma_half_even_monotone(0x80_0000 * q, m, q);
    }
}

/// A whole number of units with at most twenty-four significant bits is not rounded.
pub proof fn lemma_exact(m: nat, k: nat)
    requires
        m < 0x100_0000,
        k <= 200,
    ensures
        F32::signed(false, super::rounding::nearest_magnitude(m * pow2(k), 1)).finite(),
        !F32::signed(false, super::rounding::nearest_magnitude(m * pow2(k), 1)).negative(),
        F32::signed(false, super::rounding::nearest_magnitude(m * pow2(k), 1)).units() == m * pow2(k),
        F32::signed(false, super::rounding::nearest_magnitude(m * pow2(k), 1)).magnitude()
            == super::rounding::nearest_magnitude(m * pow2(k), 1),
{
    let n = m * pow2(k);
    let e = super::rounding::quantum(n, 1);
    super::rounding::lemma_quantum_bounds(n, 1);
    lemma2_to64();
    lemma_pow2_pos(k);
    lemma_pow2_pos(e);
    lemma_pow2_adds(24, k);
    assert(n < pow2(24 + k)) by (nonlinear_arith)
        requires n == m * pow2(k), m < 0x100_0000, pow2(24 + k) == 0x100_0000 * pow2(k), pow2(k) > 0;
    if e > k {
        if 24 + k < 23 + e {
            lemma_pow2_strictly_increases(24 + k, (23 + e) as nat);
        }
        assert(false);
    }
    lemma_pow2_adds((k - e) as nat, e);
    let c = pow2((k - e) as nat);
    let h = m * c;
    assert(n == h * pow2(e)) by (nonlinear_arith)
        requires n == m * pow2(k), pow2(k) == c * pow2(e), h == m * c;
    super::rounding::lemma_half_even_exact(h, pow2(e));
    assert(1 * pow2(e) == pow2(e));
    lemma_pow2_adds(24, e);
    assert(h < 0x100_0000) by (nonlinear_arith)
        requires h * pow2(e) < 0x100_0000 * pow2(e), pow2(e) > 0;
    if e > 0 {
        lemma_pow2_adds(23, e);
        assert(h >= 0x80_0000) by (nonlinear_arith)
            requires h * pow2(e) >= 0x80_0000 * pow2(e), pow2(e) > 0;
    }
    let f = F32::signed(false, super::rounding::nearest_magnitude(n, 1));
    assert(f.magnitude() == e * 0x80_0000 + h);
    if e == 0 {
        if h >= 0x80_0000 {
            assert(f.exponent() == 0);
        }
    } else {
        assert(f.exponent() == e);
    }
    assert(f.exponent() == e);
    assert(f.significand() == h);
}

/// Zero is no units.
pub proof fn lemma_zero_units(f: F32)
    requires
        f.zero(),
    ensures
        f.units() == 0,
{
    let p = pow2(f.exponent());
    assert(0 * p == 0) by (nonlinear_arith);
}

/// Natural numbers of at most twenty-four bits are not rounded.
pub proof fn small_naturals_are_exact(n: nat)
    requires
        n < 0x100_0000,
    ensures
        F32::from_nat(n).finite(),
        !F32::from_nat(n).negative(),
        F32::from_nat(n).units() == n * pow2(149),
{
    reveal(F32::from_nat);
    lemma_exact(n, 149);
}

/// A natural number stands for a number that is not negative.
pub proof fn naturals_are_not_negative(n: nat)
    ensures
        !F32::from_nat(n).nan(),
        !F32::from_nat(n).negative(),
        (F32 { bits: 0 }).at_most(F32::from_nat(n)),
{
    reveal(F32::from_nat);
}

/// What is brought between zero and a small natural number has an integer part up to it.
pub proof fn clamping_bounds_the_integer(x: F32, n: nat)
    requires
        n < 0x100_0000,
    ensures
        x.clamped(F32 { bits: 0 }, F32::from_nat(n)).as_usize(
            x.clamped(F32 { bits: 0 }, F32::from_nat(n)).trunc_int(),
        ) <= n,
{
    let zero = F32 { bits: 0 };
    let high = F32::from_nat(n);
    let v = x.clamped(zero, high);
    small_naturals_are_exact(n);
    if !v.nan() {
        assert(zero.at_most(v) && v.at_most(high));
        assert(v.finite());
        super::order::magnitude_orders_units(v, high);
        lemma_pow2_pos(149);
        let p = pow2(149);
        let u = v.units();
        assert(u <= n * p) by {
            if v.magnitude() == high.magnitude() {
            }
        }
        assert(u / p <= n) by (nonlinear_arith)
            requires u <= n * p, p > 0;
        if v.negative() {
            assert(v.zero());
            lemma_zero_units(v);
            assert(u / p == 0) by (nonlinear_arith)
                requires u == 0, p > 0;
        }
    }
}

/// What a rounded quotient stands for, and how far it may be above the quotient.
proof fn lemma_nearest_units(n: nat, d: nat, f: F32)
    requires
        d > 0,
        f.finite(),
        f.magnitude() == super::rounding::nearest_magnitude(n, d),
    ensures
        f.units() == super::rounding::half_even(n, d * pow2(super::rounding::quantum(n, d))) * pow2(
            super::rounding::quantum(n, d),
        ),
        2 * (d * f.units()) <= 2 * n + d * pow2(super::rounding::quantum(n, d)),
{
    let e = super::rounding::quantum(n, d);
    super::rounding::lemma_quantum_bounds(n, d);
    let dk = d * pow2(e);
    lemma2_to64();
    lemma_pow2_pos(e);
    assert(dk > 0) by (nonlinear_arith)
        requires d > 0, pow2(e) > 0, dk == d * pow2(e);
    let h = super::rounding::half_even(n, dk);
    lemma_pow2_adds(24, e);
    assert(d * pow2(24 + e) == 0x100_0000 * dk) by (nonlinear_arith)
        requires pow2(24 + e) == 0x100_0000 * pow2(e), dk == d * pow2(e);
    super::rounding::lemma_half_even_exact(0x100_0000, dk);
    lemma_half_even_monotone(n, 0x100_0000 * dk, dk);
    if e > 0 {
        lemma_pow2_adds(23, e);
        assert(d * pow2((23 + e) as nat) == 0x80_0000 * dk) by (nonlinear_arith)
            requires pow2((23 + e) as nat) == 0x80_0000 * pow2(e), dk == d * pow2(e);
        super::rounding::lemma_half_even_exact(0x80_0000, dk);
        lemma_half_even_monotone(0x80_0000 * dk, n, dk);
    }
    if h == 0x100_0000 {
        assert(f.magnitude() == (e + 1) * 0x80_0000 + 0x80_0000);
        assert(f.exponent() == e + 1);
        assert(f.significand() == 0x80_0000);
        lemma_pow2_unfold(e + 1);
        assert(0x80_0000 * (2 * pow2(e)) == 0x100_0000 * pow2(e)) by (nonlinear_arith);
    } else {
        assert(f.exponent() == e);
        assert(f.significand() == h);
    }
    let q = n / dk;
    let r = n % dk;
    lemma_fundamental_div_mod(n as int, dk as int);
    assert(2 * (dk * h) <= 2 * n + dk) by (nonlinear_arith)
        requires
            n == dk * q + r,
            0 <= r < dk,
            h == q || (h == q + 1 && 2 * r >= dk),
    ;
    assert(dk * h == d * f.units()) by (nonlinear_arith)
        requires dk == d * pow2(e), f.units() == h * pow2(e);
}

proof fn lemma_natural_bounds(w: nat)
    requires
        1 <= w <= u32::MAX,
    ensures
        F32::from_nat(w).finite(),
        !F32::from_nat(w).negative(),
        pow2(149) <= F32::from_nat(w).units() <= pow2(181),
{
    reveal(F32::from_nat);
    lemma2_to64();
    lemma_pow2_adds(32, 149);
    lemma_pow2_pos(149);
    lemma_exact(1, 149);
    lemma_exact(1, 181);
    let one = F32::signed(false, super::rounding::nearest_magnitude(1 * pow2(149), 1));
    let most = F32::signed(false, super::rounding::nearest_magnitude(1 * pow2(181), 1));
    let f = F32::from_nat(w);
    let p = pow2(149);
    assert(w * p >= 1 * p) by (nonlinear_arith)
        requires w >= 1, p > 0;
    assert(w * p <= 0x1_0000_0000 * p) by (nonlinear_arith)
        requires w <= 0x1_0000_0000, p > 0;
    rounding_is_monotone(w * p, 1, one);
    rounding_is_monotone(w * p, 1, most);
    assert(f.magnitude() == super::rounding::nearest_magnitude(w * p, 1));
    super::order::magnitude_orders_units(one, f);
    super::order::magnitude_orders_units(f, most);
}

/// A length scaled by a factor that does not exceed the quotient of a small target length and
/// that length, and rounded, does not exceed the target.
pub proof fn scaled_lengths_fit(w: nat, s: F32, t: nat)
    requires
        w <= u32::MAX,
        t <= 0x3F_FFFF,
        w > 0 ==> s.at_most(F32::from_nat(t).over(F32::from_nat(w))) && !s.negative(),
    ensures
        F32::from_nat(w).times(s).as_u32(F32::from_nat(w).times(s).round_int()) <= t,
{
    reveal(F32::times);
    reveal(F32::over);
    let p = F32::from_nat(w).times(s);
    let wf = F32::from_nat(w);
    let tf = F32::from_nat(t);
    let unit = pow2(149);
    let zero = F32 { bits: 0 };
    lemma_pow2_pos(149);
    lemma2_to64();
    lemma_zero_units(zero);
    small_naturals_are_exact(t);
    if w == 0 {
        small_naturals_are_exact(0);
        assert(0 * unit == 0) by (nonlinear_arith);
        super::order::magnitude_orders_units(wf, zero);
        assert(wf.zero());
        if s.finite() {
            let u = s.units();
            assert(0 * u == 0) by (nonlinear_arith);
            assert(wf.units() * u == 0) by (nonlinear_arith)
                requires wf.units() == 0;
            assert(super::rounding::quantum(0, unit) == 0);
            assert(unit * pow2(0) == unit);
            super::rounding::lemma_half_even_exact(0, unit);
            assert(0 * unit == 0);
            assert(p.magnitude() == 0);
            lemma_zero_units(p);
            assert(0nat / unit == 0 && 0nat % unit == 0) by (nonlinear_arith)
                requires unit > 0;
        }
    } else {
        lemma_natural_bounds(w);
        let big = wf.units();
        super::order::magnitude_orders_units(wf, zero);
        super::order::magnitude_orders_units(tf, zero);
        let q = tf.over(wf);
        let n = tf.units() * unit;
        if t == 0 {
            assert(t * unit == 0) by (nonlinear_arith)
                requires t == 0;
            assert(tf.zero());
            assert(q.magnitude() == 0);
            assert(s.magnitude() == 0);
            lemma_zero_units(s);
            assert(big * 0 == 0) by (nonlinear_arith);
            assert(super::rounding::quantum(0, unit) == 0);
            super::rounding::lemma_half_even_exact(0, unit);
            assert(0 * unit == 0) by (nonlinear_arith);
            assert(unit * pow2(0) == unit);
            assert(p.magnitude() == 0);
            lemma_zero_units(p);
            assert(0nat / unit == 0 && 0nat % unit == 0) by (nonlinear_arith)
                requires unit > 0;
        } else {
            assert(t * unit > 0) by (nonlinear_arith)
                requires t > 0, unit > 0;
            assert(n <= tf.units() * big) by (nonlinear_arith)
                requires n == tf.units() * unit, unit <= big;
            rounding_is_monotone(n, big, tf);
            assert(q.magnitude() == super::rounding::nearest_magnitude(n, big));
            assert(q.finite());
            lemma_nearest_units(n, big, q);
            let e = super::rounding::quantum(n, big);
            super::rounding::lemma_quantum_bounds(n, big);
            let r = pow2(147);
            lemma_pow2_adds(2, 147);
            assert(unit == 4 * r);
            lemma_pow2_pos(147);
            if e == 0 {
                lemma_pow2_adds(32, 149);
                lemma_pow2_adds(64, 85);
                lemma_pow2_pos(85);
                lemma2_to64_rest();
                assert(big <= 0x1_0000_0000 * unit);
                assert(n >= unit * unit) by (nonlinear_arith)
                    requires n == (t * unit) * unit, t >= 1, unit > 0;
                assert(unit > 0x1_0000_0000 * 0x100_0000) by (nonlinear_arith)
                    requires unit == 0x1_0000_0000_0000_0000 * pow2(85), pow2(85) > 0;
                assert(false) by (nonlinear_arith)
                    requires
                        n >= unit * unit,
                        unit > 0x1_0000_0000 * 0x100_0000,
                        n < big * 0x100_0000,
                        big <= 0x1_0000_0000 * unit,
                ;
            }
            lemma_pow2_adds(23, e);
            let step = big * pow2(e);
            assert(big * pow2((23 + e) as nat) == 0x80_0000 * step) by (nonlinear_arith)
                requires pow2((23 + e) as nat) == 0x80_0000 * pow2(e), step == big * pow2(e);
            assert(0x80_0000 * step <= n);
            let qu = q.units();
            assert(2 * (big * qu) <= 2 * n + step);
            let su = s.units();
            super::order::magnitude_orders_units(s, q);
            assert(su <= qu);
            assert(big * su <= big * qu) by (nonlinear_arith)
                requires su <= qu;
            let goal = ((4 * t + 1) * r) * unit;
            assert(0x100_0000 * (big * qu) <= 0x100_0000 * n + n);
            assert(big * qu <= goal) by {
                assert(n == 16 * (t * (r * r))) by (nonlinear_arith)
                    requires n == (t * unit) * unit, unit == 4 * r;
                assert(goal == 16 * (t * (r * r)) + 4 * (r * r)) by (nonlinear_arith)
                    requires goal == ((4 * t + 1) * r) * unit, unit == 4 * r;
                let x = r * r;
                assert(t * x <= 0x40_0000 * x) by (nonlinear_arith)
                    requires t <= 0x40_0000, x >= 0;
            }
            lemma_exact((4 * t + 1) as nat, 147);
            let f = F32::signed(
                false,
                super::rounding::nearest_magnitude((4 * t + 1) as nat * r, 1),
            );
            rounding_is_monotone(big * su, unit, f);
            assert(p.magnitude() <= f.magnitude());
            super::order::magnitude_orders_units(p, f);
            let u = p.units();
            assert(u <= (4 * t + 1) * r);
            lemma_fundamental_div_mod(u as int, unit as int);
            let whole = u / unit;
            let part = u % unit;
            assert(whole <= t) by (nonlinear_arith)
                requires
                    u == unit * whole + part,
                    u <= (4 * t + 1) * r,
                    unit == 4 * r,
                    r > 0,
                    0 <= part,
            ;
            if whole == t {
                assert(part <= r) by (nonlinear_arith)
                    requires
                        u == unit * whole + part,
                        u <= (4 * t + 1) * r,
                        unit == 4 * r,
                        whole == t,
                ;
            }
        }
    }
}

/// A quotient of numbers that are not negative is not negative.
pub proof fn lemma_over_sign(a: F32, b: F32)
    requires
        !a.negative(),
        !b.negative(),
    ensures
        !a.over(b).negative(),
{
    reveal(F32::over);
}

/// A small natural number over a positive one is a number.
pub proof fn lemma_over_number(t: nat, w: nat)
    requires
        t < 0x100_0000,
        1 <= w <= u32::MAX,
    ensures
        !F32::from_nat(t).over(F32::from_nat(w)).nan(),
{
    reveal(F32::over);
    small_naturals_are_exact(t);
    lemma_natural_bounds(w);
    lemma_pow2_pos(149);
    let zero = F32 { bits: 0 };
    lemma_zero_units(zero);
    super::order::magnitude_orders_units(F32::from_nat(w), zero);
}

/// A share of a span, brought up to a positive bound, does not depend on the sign of a zero at
/// either end of the span.
pub proof fn spans_ignore_the_sign_of_zero(
    from: F32,
    to: F32,
    other_from: F32,
    other_to: F32,
    share: F32,
    bound: F32,
)
    requires
        from.equals(other_from),
        to.equals(other_to),
        (F32 { bits: 0 }).less(bound),
    ensures
        to.minus(from).greater(F32 { bits: 0 }).times(share).greater(bound) == other_to.minus(
            other_from,
        ).greater(F32 { bits: 0 }).times(share).greater(bound),
{
    let zero = F32 { bits: 0 };
    let (d, e) = (to.minus(from), other_to.minus(other_from));
    assert(d == e || (d.zero() && e.zero())) by {
        reveal(F32::plus);
        if from.zero() {
            lemma_zero_units(from);
            lemma_zero_units(other_from);
        } else {
            assert(from == other_from);
        }
        if to.zero() {
            lemma_zero_units(to);
            lemma_zero_units(other_to);
        } else {
            assert(to == other_to);
        }
        let (f, g) = (from.negated(), other_from.negated());
        if from.finite() {
            assert(f.units() == from.units());
            assert(g.units() == other_from.units());
        }
    }
    if d.zero() && e.zero() {
        lemma_zero_product(d, share);
        lemma_zero_product(e, share);
    }
}

proof fn lemma_zero_product(f: F32, share: F32)
    requires
        f.zero(),
    ensures
        share.finite() ==> f.times(share).zero(),
        !share.finite() ==> f.times(share) == F32::invalid(),
{
    reveal(F32::times);
    if share.finite() {
        let (u, unit) = (share.units(), pow2(149));
        lemma_zero_units(f);
        lemma_pow2_pos(149);
        lemma2_to64();
        assert(0 * u == 0) by (nonlinear_arith);
        assert(super::rounding::quantum(0, unit) == 0);
        assert(unit * pow2(0) == unit);
        super::rounding::lemma_half_even_exact(0, unit);
        assert(0 * unit == 0) by (nonlinear_arith);
    }
}

} // verus!

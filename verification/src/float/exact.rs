//! Results that are not rounded, and what rounded results cannot pass.
use super::F32;
use vstd::arithmetic::power2::*;
use vstd::prelude::*;

verus! {

impl F32 {
    /// Whether this is `v` 256ths, exactly.
    pub open spec fn measures(self, v: int) -> bool {
        self.finite() && self.value() == v * pow2(141)
    }

    /// Whether this is the whole number `n`, exactly.
    pub open spec fn is_whole(self, n: int) -> bool {
        self.measures(256 * n)
    }
}

proof fn lemma_units_of_signed(negative: bool, m: nat)
    requires
        m < super::rounding::INFINITY,
    ensures
        F32::signed(negative, m).finite(),
        F32::signed(negative, m).negative() == negative,
        F32::signed(negative, m).magnitude() == m,
        F32::signed(negative, m).units() == F32::signed(false, m).units(),
{
}

proof fn lemma_signed_exact(negative: bool, v: nat, k: nat)
    requires
        v < 0x100_0000,
        k <= 200,
    ensures
        F32::signed(negative, super::rounding::nearest_magnitude(v * pow2(k), 1)).finite(),
        F32::signed(negative, super::rounding::nearest_magnitude(v * pow2(k), 1)).negative()
            == negative,
        F32::signed(negative, super::rounding::nearest_magnitude(v * pow2(k), 1)).units() == v
            * pow2(k),
{
    super::bounds::lemma_exact(v, k);
    lemma_units_of_signed(negative, super::rounding::nearest_magnitude(v * pow2(k), 1));
}

/// Numbers in 256ths are ordered as their numerators.
pub proof fn measures_are_ordered(a: F32, b: F32, v: int, w: int)
    requires
        a.measures(v),
        b.measures(w),
    ensures
        !a.nan(),
        !b.nan(),
        a.less(b) <==> v < w,
        a.at_most(b) <==> v <= w,
{
    let p = pow2(141);
    lemma_pow2_pos(141);
    super::order::comparison_compares_values(a, b);
    assert((v * p < w * p) <==> v < w) by (nonlinear_arith)
        requires p > 0;
    assert((v * p <= w * p) <==> v <= w) by (nonlinear_arith)
        requires p > 0;
}

/// A number is one number of 256ths at most.
pub proof fn measures_are_unique(a: F32, v: int, w: int)
    requires
        a.measures(v),
        a.measures(w),
    ensures
        v == w,
{
    measures_are_ordered(a, a, v, w);
    measures_are_ordered(a, a, w, v);
}

/// The negation of a number in 256ths.
pub proof fn measured_negation(a: F32, v: int)
    requires
        a.measures(v),
    ensures
        a.negated().measures(-v),
        a.absolute().measures(if v < 0 { -v } else { v }),
{
    let p = pow2(141);
    lemma_pow2_pos(141);
    lemma_units_of_signed(!a.negative(), a.magnitude());
    lemma_units_of_signed(false, a.magnitude());
    assert(a.negated().units() == a.units());
    assert(a.absolute().units() == a.units());
    assert((-v) * p == -(v * p)) by (nonlinear_arith);
    assert(v < 0 ==> v * p < 0) by (nonlinear_arith)
        requires p > 0;
    assert(v >= 0 ==> v * p >= 0) by (nonlinear_arith)
        requires p > 0;
    if a.negative() && v >= 0 {
        assert(a.units() == 0);
        assert(v * p == 0);
        assert(v == 0) by (nonlinear_arith)
            requires v * p == 0, p > 0;
    }
}

/// The sum of numbers in 256ths is not rounded, while it has at most twenty-four bits.
pub proof fn measured_sum(a: F32, b: F32, v: int, w: int)
    requires
        a.measures(v),
        b.measures(w),
        -0x100_0000 < v + w < 0x100_0000,
    ensures
        a.plus(b).measures(v + w),
{
    reveal(F32::plus);
    let p = pow2(141);
    lemma_pow2_pos(141);
    let s = v + w;
    assert(v * p + w * p == s * p) by (nonlinear_arith)
        requires s == v + w;
    if s * p == 0 {
        lemma_units_of_signed(a.negative() && b.negative(), 0);
        super::bounds::lemma_zero_units(F32::signed(a.negative() && b.negative(), 0));
    } else if s < 0 {
        assert((-s) * p == -(s * p)) by (nonlinear_arith);
        assert(s * p < 0) by (nonlinear_arith)
            requires s < 0, p > 0;
        lemma_signed_exact(true, (-s) as nat, 141);
    } else {
        assert(s * p >= 0) by (nonlinear_arith)
            requires s >= 0, p > 0;
        lemma_signed_exact(false, s as nat, 141);
    }
}

/// The difference of numbers in 256ths is not rounded, while it has at most twenty-four bits.
pub proof fn measured_difference(a: F32, b: F32, v: int, w: int)
    requires
        a.measures(v),
        b.measures(w),
        -0x100_0000 < v - w < 0x100_0000,
    ensures
        a.minus(b).measures(v - w),
{
    measured_negation(b, w);
    measured_sum(a, b.negated(), v, -w);
}

/// The product of numbers in 256ths that is one in 256ths again is not rounded, while it has at
/// most twenty-four bits.
pub proof fn measured_product(a: F32, b: F32, v: int, w: int, q: int)
    requires
        a.measures(v),
        b.measures(w),
        v * w == q * 256,
        -0x100_0000 < q < 0x100_0000,
    ensures
        a.times(b).measures(q),
{
    reveal(F32::times);
    let p = pow2(141);
    lemma_pow2_pos(141);
    lemma_pow2_pos(149);
    lemma2_to64();
    lemma_pow2_adds(141, 8);
    assert(pow2(149) == p * 256);
    let (x, y) = (a.units() as int, b.units() as int);
    let (i, j) = (if v < 0 { -v } else { v }, if w < 0 { -w } else { w });
    let k: int = if q < 0 { -q } else { q };
    assert((-v) * p == -(v * p)) by (nonlinear_arith);
    assert((-w) * p == -(w * p)) by (nonlinear_arith);
    assert(v < 0 ==> v * p < 0) by (nonlinear_arith)
        requires p > 0;
    assert(v > 0 ==> v * p > 0) by (nonlinear_arith)
        requires p > 0;
    assert(w < 0 ==> w * p < 0) by (nonlinear_arith)
        requires p > 0;
    assert(w > 0 ==> w * p > 0) by (nonlinear_arith)
        requires p > 0;
    assert(v == 0 ==> v * p == 0) by (nonlinear_arith);
    assert(w == 0 ==> w * p == 0) by (nonlinear_arith);
    assert(x == i * p);
    assert(y == j * p);
    assert(i * j == k * 256) by (nonlinear_arith)
        requires
            v * w == q * 256,
            i == (if v < 0 { -v } else { v }),
            j == (if w < 0 { -w } else { w }),
            k == (if q < 0 { -q } else { q }),
    ;
    assert(x * y == (k * p) * (p * 256)) by (nonlinear_arith)
        requires x == i * p, y == j * p, i * j == k * 256;
    super::rounding::lemma_nearest_scale((k * p) as nat, 1, pow2(149));
    assert(1 * pow2(149) == pow2(149));
    let negative = a.negative() != b.negative();
    lemma_signed_exact(negative, k as nat, 141);
    assert(a.units() * b.units() == (k as nat * p) * pow2(149));
    let r = a.times(b);
    assert(r.units() == k * p);
    assert((-k) * p == -(k * p)) by (nonlinear_arith);
    if q == 0 {
        assert(k * p == 0) by (nonlinear_arith)
            requires k == 0;
        assert(q * p == 0) by (nonlinear_arith)
            requires q == 0;
    } else {
        assert(v != 0 && w != 0) by (nonlinear_arith)
            requires v * w == q * 256, q != 0;
        assert((q < 0) == ((v < 0) != (w < 0))) by (nonlinear_arith)
            requires v * w == q * 256, q != 0, v != 0, w != 0;
    }
}

/// The smaller and the greater of two numbers in 256ths.
pub proof fn measured_extremes(a: F32, b: F32, v: int, w: int)
    requires
        a.measures(v),
        b.measures(w),
    ensures
        a.lesser(b).measures(if v <= w { v } else { w }),
        a.greater(b).measures(if v <= w { w } else { v }),
{
    measures_are_ordered(a, b, v, w);
    measures_are_ordered(b, a, w, v);
}

/// A whole number of at most sixteen bits.
pub proof fn naturals_are_whole(n: nat)
    requires
        n < 0x1_0000,
    ensures
        F32::from_nat(n).is_whole(n as int),
{
    super::bounds::small_naturals_are_exact(n);
    lemma2_to64();
    lemma_pow2_adds(141, 8);
    let p = pow2(141);
    assert(n * (p * 256) == (256 * n) * p) by (nonlinear_arith);
}

/// Zero.
pub proof fn zero_is_whole()
    ensures
        (F32 { bits: 0 }).is_whole(0),
{
    super::bounds::lemma_zero_units(F32 { bits: 0 });
}

/// A rounded quotient of small naturals, from its significand and its exponent.
pub proof fn ratio_has_units(n: u32, d: u32, e: nat, m: nat)
    requires
        0 < n < 0x100_0000,
        0 < d < 0x100_0000,
        100 <= e <= 140,
        0x80_0000 <= m < 0x100_0000,
        super::rounding::half_even(n as nat * pow2((149 - e) as nat), d as nat) == m,
        d * 0x80_0000 <= n * pow2((149 - e) as nat) < d * 0x100_0000,
    ensures
        F32::ratio(n, d).finite(),
        !F32::ratio(n, d).negative(),
        F32::ratio(n, d).units() == m * pow2(e),
{
    reveal(F32::over);
    let (a, b) = (F32::from_nat(n as nat), F32::from_nat(d as nat));
    super::bounds::small_naturals_are_exact(n as nat);
    super::bounds::small_naturals_are_exact(d as nat);
    lemma_pow2_pos(149);
    lemma_pow2_pos(e);
    lemma2_to64();
    let one = pow2(149);
    let zero = F32 { bits: 0 };
    super::bounds::lemma_zero_units(zero);
    assert(n * one > 0) by (nonlinear_arith)
        requires n > 0, one > 0;
    assert(d * one > 0) by (nonlinear_arith)
        requires d > 0, one > 0;
    super::order::magnitude_orders_units(a, zero);
    super::order::magnitude_orders_units(b, zero);
    super::rounding::lemma_nearest_scale(n as nat * one, d as nat, one);
    let p = pow2(e);
    let q = pow2((149 - e) as nat);
    lemma_pow2_adds((149 - e) as nat, e);
    assert(one == q * p);
    lemma_pow2_adds(24, e);
    lemma_pow2_adds(23, e);
    assert(n * one == (n * q) * p) by (nonlinear_arith)
        requires one == q * p;
    assert((n * q) * p < d * (0x100_0000 * p)) by (nonlinear_arith)
        requires n * q < d * 0x100_0000, p > 0;
    assert((n * q) * p >= d * (0x80_0000 * p)) by (nonlinear_arith)
        requires n * q >= d * 0x80_0000, p > 0;
    super::rounding::lemma_quantum_unique(n as nat * one, d as nat, e);
    super::rounding::lemma_half_even_scale(n as nat * q, d as nat, p);
    assert(super::rounding::nearest_magnitude(n as nat * one, d as nat) == e * 0x80_0000 + m);
    let r = F32::ratio(n, d);
    assert(r.magnitude() == e * 0x80_0000 + m);
    assert(r.exponent() == e);
    assert(r.significand() == m);
}

/// One half.
pub proof fn half_is_exact()
    ensures
        F32::ratio(1, 2).measures(128),
{
    lemma2_to64();
    assert(super::rounding::half_even(1 * pow2(24), 2) == 0x80_0000);
    ratio_has_units(1, 2, 125, 0x80_0000);
    lemma_pow2_adds(23, 125);
    lemma_pow2_adds(141, 7);
}

/// Halving a number in 256ths whose numerator is even.
pub proof fn measured_half(a: F32, v: int)
    requires
        a.measures(2 * v),
        -0x100_0000 < v < 0x100_0000,
    ensures
        a.times(F32::ratio(1, 2)).measures(v),
        a.over(F32::from_nat(2)).measures(v),
{
    half_is_exact();
    measured_product(a, F32::ratio(1, 2), 2 * v, 128, v);
    reveal(F32::over);
    let two = F32::from_nat(2);
    naturals_are_whole(2);
    super::bounds::small_naturals_are_exact(2);
    lemma_pow2_pos(149);
    lemma_pow2_pos(141);
    let (p, one) = (pow2(141), pow2(149));
    let k: int = if v < 0 { -v } else { v };
    let zero = F32 { bits: 0 };
    super::bounds::lemma_zero_units(zero);
    super::order::magnitude_orders_units(two, zero);
    super::order::magnitude_orders_units(a, zero);
    assert((2 * v) * p == 2 * (v * p)) by (nonlinear_arith);
    assert((-v) * p == -(v * p)) by (nonlinear_arith);
    assert(v < 0 ==> v * p < 0) by (nonlinear_arith)
        requires p > 0;
    assert(v > 0 ==> v * p > 0) by (nonlinear_arith)
        requires p > 0;
    assert(v == 0 ==> v * p == 0) by (nonlinear_arith);
    let negative = a.negative() != two.negative();
    if v == 0 {
        lemma_units_of_signed(negative, 0);
        super::bounds::lemma_zero_units(F32::signed(negative, 0));
    } else {
        assert(a.units() == 2 * (k * p));
        assert(k * p > 0) by (nonlinear_arith)
            requires k > 0, p > 0;
        assert(a.units() * one == (k * p) * (2 * one)) by (nonlinear_arith)
            requires a.units() == 2 * (k * p);
        super::rounding::lemma_nearest_scale((k * p) as nat, 1, 2 * one);
        assert(1 * (2 * one) == 2 * one);
        lemma_signed_exact(negative, k as nat, 141);
    }
}

/// A rounded quotient of numbers that are not negative does not pass a number that the quotient
/// does not pass.
pub proof fn quotient_bounds(a: F32, b: F32, f: F32)
    requires
        a.finite(),
        b.finite(),
        f.finite(),
        !a.negative(),
        !b.negative(),
        !f.negative(),
        b.units() > 0,
    ensures
        !a.over(b).nan(),
        !a.over(b).negative(),
        a.units() * pow2(149) <= f.units() * b.units() ==> a.over(b).at_most(f),
        a.units() * pow2(149) >= f.units() * b.units() ==> f.at_most(a.over(b)),
{
    reveal(F32::over);
    let zero = F32 { bits: 0 };
    super::bounds::lemma_zero_units(zero);
    super::order::magnitude_orders_units(b, zero);
    rounding(a.units() * pow2(149), b.units(), f);
    if a.zero() {
        super::bounds::lemma_zero_units(a);
        lemma_pow2_pos(149);
        assert(a.units() * pow2(149) == 0) by (nonlinear_arith)
            requires a.units() == 0;
        if f.units() * b.units() <= 0 {
            assert(f.units() == 0) by (nonlinear_arith)
                requires f.units() * b.units() <= 0, b.units() > 0, f.units() >= 0;
            super::order::magnitude_orders_units(f, zero);
        }
    }
}

/// A rounded product of numbers that are not negative does not pass a number that the product
/// does not pass.
pub proof fn product_bounds(a: F32, b: F32, f: F32)
    requires
        a.finite(),
        b.finite(),
        f.finite(),
        !a.negative(),
        !b.negative(),
        !f.negative(),
    ensures
        !a.times(b).nan(),
        !a.times(b).negative(),
        a.units() * b.units() <= f.units() * pow2(149) ==> a.times(b).at_most(f),
        a.units() * b.units() >= f.units() * pow2(149) ==> f.at_most(a.times(b)),
{
    reveal(F32::times);
    lemma_pow2_pos(149);
    rounding(a.units() * b.units(), pow2(149), f);
}

proof fn rounding(n: nat, d: nat, f: F32)
    requires
        d > 0,
        f.finite(),
        !f.negative(),
    ensures
        ({
            let r = F32::signed(false, super::rounding::nearest_magnitude(n, d));
            &&& !r.nan()
            &&& !r.negative()
            &&& n <= f.units() * d ==> r.at_most(f)
            &&& n >= f.units() * d ==> f.at_most(r)
        }),
{
    super::bounds::rounding_is_monotone(n, d, f);
}

/// A rounded sum does not pass a number that the sum does not pass.
pub proof fn sum_bounds(a: F32, b: F32, f: F32)
    requires
        a.finite(),
        b.finite(),
        f.finite(),
    ensures
        !a.plus(b).nan(),
        a.value() + b.value() <= f.value() ==> a.plus(b).at_most(f),
        a.value() + b.value() >= f.value() ==> f.at_most(a.plus(b)),
{
    reveal(F32::plus);
    let s = a.value() + b.value();
    let r = a.plus(b);
    let zero = F32 { bits: 0 };
    super::bounds::lemma_zero_units(zero);
    super::order::comparison_compares_values(f, zero);
    super::order::comparison_compares_values(zero, f);
    if s == 0 {
        assert(r.zero());
    } else if s < 0 {
        let m = super::rounding::nearest_magnitude((-s) as nat, 1);
        super::bounds::rounding_is_monotone((-s) as nat, 1, f);
        super::bounds::rounding_is_monotone((-s) as nat, 1, zero);
        assert(r.negative() && r.magnitude() == m);
        assert(f.units() * 1 == f.units());
    } else {
        let m = super::rounding::nearest_magnitude(s as nat, 1);
        super::bounds::rounding_is_monotone(s as nat, 1, f);
        super::bounds::rounding_is_monotone(s as nat, 1, zero);
        assert(!r.negative() && r.magnitude() == m);
        assert(f.units() * 1 == f.units());
    }
}

proof fn lemma_whole_value(v: int)
    ensures
        (256 * v) * pow2(141) == v * pow2(149),
        v < 0 ==> v * pow2(149) < 0,
        v > 0 ==> v * pow2(149) > 0,
        v == 0 ==> v * pow2(149) == 0,
        (-v) * pow2(149) == -(v * pow2(149)),
        pow2(149) > 0,
{
    lemma2_to64();
    lemma_pow2_adds(141, 8);
    lemma_pow2_pos(149);
    let (p, one) = (pow2(141), pow2(149));
    assert((256 * v) * p == v * (p * 256)) by (nonlinear_arith);
    assert((-v) * one == -(v * one)) by (nonlinear_arith);
    assert(v < 0 ==> v * one < 0) by (nonlinear_arith)
        requires one > 0;
    assert(v > 0 ==> v * one > 0) by (nonlinear_arith)
        requires one > 0;
    assert(v == 0 ==> v * one == 0) by (nonlinear_arith);
}

/// The sum of whole numbers is not rounded, while it has at most twenty-four bits.
pub proof fn whole_sum(a: F32, b: F32, v: int, w: int)
    requires
        a.is_whole(v),
        b.is_whole(w),
        -0x100_0000 < v + w < 0x100_0000,
    ensures
        a.plus(b).is_whole(v + w),
{
    reveal(F32::plus);
    let one = pow2(149);
    let s = v + w;
    lemma_whole_value(v);
    lemma_whole_value(w);
    lemma_whole_value(s);
    assert(v * one + w * one == s * one) by (nonlinear_arith)
        requires s == v + w;
    if s == 0 {
        lemma_units_of_signed(a.negative() && b.negative(), 0);
        super::bounds::lemma_zero_units(F32::signed(a.negative() && b.negative(), 0));
    } else if s < 0 {
        lemma_signed_exact(true, (-s) as nat, 149);
    } else {
        lemma_signed_exact(false, s as nat, 149);
    }
}

/// The difference of whole numbers is not rounded, while it has at most twenty-four bits.
pub proof fn whole_difference(a: F32, b: F32, v: int, w: int)
    requires
        a.is_whole(v),
        b.is_whole(w),
        -0x100_0000 < v - w < 0x100_0000,
    ensures
        a.minus(b).is_whole(v - w),
{
    measured_negation(b, 256 * w);
    whole_sum(a, b.negated(), v, -w);
}

/// The product of whole numbers that are not negative is not rounded, while it has at most
/// twenty-four bits.
pub proof fn whole_product(a: F32, b: F32, v: int, w: int)
    requires
        a.is_whole(v),
        b.is_whole(w),
        0 <= v,
        0 <= w,
        v * w < 0x100_0000,
    ensures
        a.times(b).is_whole(v * w),
{
    reveal(F32::times);
    let one = pow2(149);
    lemma_whole_value(v);
    lemma_whole_value(w);
    lemma_whole_value(v * w);
    let q = v * w;
    assert(q >= 0) by (nonlinear_arith)
        requires q == v * w, v >= 0, w >= 0;
    assert(a.units() == v * one);
    assert(b.units() == w * one);
    assert((v * one) * (w * one) == (q * one) * one) by (nonlinear_arith)
        requires q == v * w;
    super::rounding::lemma_nearest_scale((q * one) as nat, 1, one);
    assert(1 * one == one);
    let negative = a.negative() != b.negative();
    lemma_signed_exact(negative, q as nat, 149);
    assert(a.units() * b.units() == (q as nat * one) * one);
    if q > 0 {
        assert(v > 0 && w > 0) by (nonlinear_arith)
            requires q == v * w, q > 0, v >= 0, w >= 0;
    }
}

/// A number that is `m` parts of two to the power of `k` units.
spec fn parts(m: nat, k: nat) -> F32 {
    F32::signed(false, super::rounding::nearest_magnitude(m * pow2(k), 1))
}

/// Of two whole numbers, the greater one is the greater part of a whole number.
pub proof fn shares_are_ordered(a: F32, b: F32, c: F32, v: int, w: int, n: int)
    requires
        a.is_whole(v),
        b.is_whole(w),
        c.is_whole(n),
        0 <= v <= n,
        0 <= w <= n,
        0 < n < 0x40_0000,
    ensures
        !a.over(c).nan(),
        !b.over(c).nan(),
        a.over(c).less(b.over(c)) <==> v < w,
        F32::ratio(1, 2).at_most(a.over(c)) <==> 2 * v >= n,
{
    lemma_share(a, c, v, n);
    lemma_share(b, c, w, n);
    if v < w {
        lemma_shares_apart(a, b, c, v, w, n);
    } else if w < v {
        lemma_shares_apart(b, a, c, w, v, n);
    } else {
        lemma_same_share(a, b, c, v, n);
    }
    lemma_half_share(a, c, v, n);
}

proof fn lemma_share(a: F32, c: F32, v: int, n: int)
    requires
        a.is_whole(v),
        c.is_whole(n),
        0 <= v,
        0 < n,
    ensures
        a.units() == v * pow2(149),
        c.units() == n * pow2(149),
        c.units() > 0,
        !c.negative(),
        v > 0 ==> !a.negative(),
        !a.over(c).nan(),
        v == 0 ==> a.zero() && a.over(c).zero(),
{
    reveal(F32::over);
    lemma_whole_value(v);
    lemma_whole_value(n);
    let zero = F32 { bits: 0 };
    super::bounds::lemma_zero_units(zero);
    super::order::magnitude_orders_units(c, zero);
    super::order::magnitude_orders_units(a, zero);
}

proof fn lemma_same_share(a: F32, b: F32, c: F32, v: int, n: int)
    requires
        a.is_whole(v),
        b.is_whole(v),
        c.is_whole(n),
        0 <= v,
        0 < n,
    ensures
        !a.over(c).less(b.over(c)),
{
    lemma_share(a, c, v, n);
    lemma_share(b, c, v, n);
    if v > 0 {
        super::order::magnitude_orders_units(a, b);
        assert(a == b);
    }
}

proof fn lemma_shares_apart(a: F32, b: F32, c: F32, v: int, w: int, n: int)
    requires
        a.is_whole(v),
        b.is_whole(w),
        c.is_whole(n),
        0 <= v < w <= n,
        0 < n < 0x40_0000,
    ensures
        a.over(c).less(b.over(c)),
{
    lemma_share(a, c, v, n);
    lemma_share(b, c, w, n);
    let one = pow2(149);
    lemma_pow2_pos(149);
    lemma_pow2_pos(125);
    lemma_pow2_adds(24, 125);
    lemma2_to64();
    let p = pow2(125);
    let m = (w * 0x100_0000) / n;
    let r = (w * 0x100_0000) % n;
    vstd::arithmetic::div_mod::lemma_fundamental_div_mod(w * 0x100_0000, n);
    assert(m >= 4) by (nonlinear_arith)
        requires w * 0x100_0000 == n * m + r, 0 <= r < n, n < 0x40_0000, w >= 1;
    assert(m <= 0x100_0000) by (nonlinear_arith)
        requires w * 0x100_0000 == n * m + r, 0 <= r, w <= n, n > 0;
    assert((v + 1) * 0x100_0000 <= n * m + r) by (nonlinear_arith)
        requires w * 0x100_0000 == n * m + r, v + 1 <= w;
    let (f, g) = (parts((m - 1) as nat, 125), parts((m - 3) as nat, 125));
    super::bounds::lemma_exact((m - 1) as nat, 125);
    super::bounds::lemma_exact((m - 3) as nat, 125);
    assert(one == 0x100_0000 * p);
    assert(n * (m - 1) <= w * 0x100_0000) by (nonlinear_arith)
        requires w * 0x100_0000 == n * m + r, 0 <= r, n > 0;
    assert((w * one) * one >= ((m - 1) * p) * (n * one)) by (nonlinear_arith)
        requires n * (m - 1) <= w * 0x100_0000, one == 0x100_0000 * p, p > 0, one > 0;
    assert(v * 0x100_0000 <= n * (m - 3)) by (nonlinear_arith)
        requires (v + 1) * 0x100_0000 <= n * m + r, r < n, n < 0x40_0000;
    assert((v * one) * one <= ((m - 3) * p) * (n * one)) by (nonlinear_arith)
        requires v * 0x100_0000 <= n * (m - 3), one == 0x100_0000 * p, p > 0, one > 0;
    quotient_bounds(b, c, f);
    super::order::magnitude_orders_units(g, f);
    assert((m - 3) * p < (m - 1) * p) by (nonlinear_arith)
        requires p > 0;
    if v > 0 {
        quotient_bounds(a, c, g);
    }
}

proof fn lemma_half_share(a: F32, c: F32, v: int, n: int)
    requires
        a.is_whole(v),
        c.is_whole(n),
        0 <= v <= n,
        0 < n < 0x40_0000,
    ensures
        F32::ratio(1, 2).at_most(a.over(c)) <==> 2 * v >= n,
{
    lemma_share(a, c, v, n);
    let one = pow2(149);
    lemma_pow2_pos(149);
    lemma_pow2_pos(124);
    lemma_pow2_pos(148);
    lemma2_to64();
    let half = F32::ratio(1, 2);
    half_is_exact();
    lemma_pow2_adds(141, 7);
    lemma_pow2_adds(148, 1);
    lemma_pow2_adds(24, 124);
    assert(half.value() == pow2(148));
    assert(!half.negative());
    let p = pow2(124);
    assert(pow2(148) == 0x100_0000 * p);
    assert(one == 2 * pow2(148));
    if 2 * v >= n {
        assert((v * one) * one >= pow2(148) * (n * one)) by (nonlinear_arith)
            requires 2 * v >= n, one == 2 * pow2(148), one > 0;
        quotient_bounds(a, c, half);
    } else {
        let g = parts(0xff_ffff, 124);
        super::bounds::lemma_exact(0xff_ffff, 124);
        assert((v * one) * one <= (0xff_ffff * p) * (n * one)) by (nonlinear_arith)
            requires 2 * v + 1 <= n, n < 0x40_0000, one == 0x200_0000 * p, p > 0, one > 0;
        super::order::magnitude_orders_units(g, half);
        if v > 0 {
            quotient_bounds(a, c, g);
        }
    }
}

/// A number that is greater gives a product that is not smaller.
pub proof fn products_keep_the_order(a: F32, b: F32, q: F32)
    requires
        a.finite(),
        b.finite(),
        q.finite(),
        !q.negative(),
        (F32 { bits: 0 }).at_most(a),
        a.at_most(b),
    ensures
        a.times(q).at_most(b.times(q)),
        (F32 { bits: 0 }).at_most(a.times(q)),
        a.zero() ==> a.times(q).zero(),
{
    reveal(F32::times);
    lemma_pow2_pos(149);
    super::order::magnitude_orders_units(a, b);
    let (x, y, z) = (a.units(), b.units(), q.units());
    assert(x <= y);
    assert(x * z <= y * z) by (nonlinear_arith)
        requires x <= y;
    super::bounds::rounding_keeps_the_order(x * z, y * z, pow2(149));
    if a.zero() {
        super::bounds::lemma_zero_units(a);
        assert(x * z == 0) by (nonlinear_arith)
            requires x == 0;
        let zero = F32 { bits: 0 };
        super::bounds::lemma_zero_units(zero);
        super::bounds::rounding_is_monotone(x * z, pow2(149), zero);
    }
    if b.zero() {
        super::bounds::lemma_zero_units(b);
        assert(y * z == 0) by (nonlinear_arith)
            requires y == 0;
        let zero = F32 { bits: 0 };
        super::bounds::lemma_zero_units(zero);
        super::bounds::rounding_is_monotone(y * z, pow2(149), zero);
    }
}

/// The number with so many 256ths.
pub open spec fn of_parts(v: nat) -> F32 {
    F32::signed(false, super::rounding::nearest_magnitude(v * pow2(141), 1))
}

/// A number of at most twenty-four bits of 256ths is exact.
pub proof fn parts_are_exact(v: nat)
    requires
        v < 0x100_0000,
    ensures
        of_parts(v).measures(v as int),
        !of_parts(v).negative(),
        of_parts(v).units() == v * pow2(141),
{
    lemma_signed_exact(false, v, 141);
}

/// The integers of a number that is not negative, by its bounds: the nearest integer is at least
/// `u` if and only if the number reaches `u` less a half, and the integer without the fraction is
/// at least `u` if and only if the number reaches `u`.
pub proof fn integers_follow_the_bounds(a: F32, u: nat)
    requires
        a.finite(),
        !a.negative(),
    ensures
        a.round_int() >= 0,
        a.trunc_int() >= 0,
        u <= a.round_int() <==> (2 * u - 1) * pow2(149) <= 2 * a.units(),
        u <= a.trunc_int() <==> u * pow2(149) <= a.units(),
{
    let one = pow2(149) as int;
    lemma_pow2_pos(149);
    let n = a.units() as int;
    let (q, r) = (n / one, n % one);
    vstd::arithmetic::div_mod::lemma_fundamental_div_mod(n, one);
    assert(0 <= r < one) by (nonlinear_arith)
        requires r == n % one, one > 0;
    assert(n == q * one + r) by (nonlinear_arith)
        requires n == one * q + r;
    assert(q >= 0) by (nonlinear_arith)
        requires n == q * one + r, 0 <= r < one, n >= 0, one > 0;
    assert(u <= q ==> u * one <= q * one) by (nonlinear_arith)
        requires one > 0;
    assert(u > q ==> u * one >= q * one + one) by (nonlinear_arith)
        requires one > 0;
    assert((2 * u - 1) * one == 2 * (u * one) - one) by (nonlinear_arith);
    assert(u > q + 1 ==> u * one >= q * one + 2 * one) by (nonlinear_arith)
        requires one > 0;
    assert(u == q + 1 ==> u * one == q * one + one) by (nonlinear_arith)
        requires one > 0;
}

/// Rounding down keeps a number on its side of a whole number, and makes it no greater.
pub proof fn flooring_keeps_the_side(a: F32, u: nat)
    requires
        !a.nan(),
        !a.negative(),
        u < 0x1_0000,
    ensures
        !a.floored().nan(),
        !a.floored().negative(),
        a.floored().at_most(a),
        F32::from_nat(u).at_most(a) ==> F32::from_nat(u).at_most(a.floored()),
{
    let f = F32::from_nat(u);
    super::bounds::small_naturals_are_exact(u);
    super::bounds::naturals_are_not_negative(u);
    if a.finite() && a.fractional() {
        let one = pow2(149) as int;
        lemma_pow2_pos(149);
        let n = a.units() as int;
        integers_follow_the_bounds(a, u);
        integers_follow_the_bounds(a, a.whole());
        rounding((a.whole() * pow2(149)) as nat, 1, a);
        rounding((a.whole() * pow2(149)) as nat, 1, f);
        super::order::magnitude_orders_units(a, f);
        super::order::magnitude_orders_units(f, a);
        assert(u <= a.whole() ==> u * one <= a.whole() * one) by (nonlinear_arith)
            requires one > 0;
        if f.at_most(a) {
            assert(f.units() <= a.units());
        }
    }
}

/// One and a half, and two and a half.
pub proof fn halves_are_exact()
    ensures
        F32::ratio(3, 2).measures(384),
        F32::ratio(5, 2).measures(640),
{
    lemma2_to64();
    assert(super::rounding::half_even(3 * pow2(23), 2) == 0xC0_0000);
    ratio_has_units(3, 2, 126, 0xC0_0000);
    assert(super::rounding::half_even(5 * pow2(22), 2) == 0xA0_0000);
    ratio_has_units(5, 2, 127, 0xA0_0000);
    lemma_pow2_adds(126, 15);
    lemma_pow2_adds(127, 14);
    let (p, q) = (pow2(126), pow2(127));
    assert(0xC0_0000 * p == 384 * (p * 0x8000)) by (nonlinear_arith);
    assert(0xA0_0000 * q == 640 * (q * 0x4000)) by (nonlinear_arith);
}

/// The number with so many times a power of two units.
pub open spec fn exactly(m: nat, k: nat) -> F32 {
    F32::signed(false, super::rounding::nearest_magnitude(m * pow2(k), 1))
}

/// A number of at most twenty-four bits, times a power of two, is exact.
pub proof fn short_numbers_are_exact(m: nat, k: nat)
    requires
        m < 0x100_0000,
        k <= 200,
    ensures
        exactly(m, k).finite(),
        !exactly(m, k).negative(),
        exactly(m, k).units() == m * pow2(k),
{
    lemma_signed_exact(false, m, k);
}

} // verus!

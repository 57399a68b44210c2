//! Rounding of exact non-negative rationals to binary32 magnitudes.
use vstd::arithmetic::div_mod::*;
use vstd::arithmetic::power2::*;
use vstd::prelude::*;

verus! {

/// The magnitude bits of infinity.
pub const INFINITY: u32 = 0x7F80_0000;

/// The nearest integer to `n / d`, the even one of two that are equally near.
pub open spec fn half_even(n: nat, d: nat) -> nat {
    let q = n / d;
    let r = n % d;
    if 2 * r < d || (2 * r == d && q % 2 == 0) {
        q
    } else {
        q + 1
    }
}

/// The least `e` for which `n / d` is below `2^(24 + e)`.
pub open spec fn quantum(n: nat, d: nat) -> nat
    decreases (if n >= d * 0x100_0000 { n - d * 0x100_0000 + 1 } else { 0 }),
{
    if d == 0 || n < d * 0x100_0000 {
        0
    } else {
        1 + quantum(n, 2 * d)
    }
}

/// The magnitude bits of the binary32 number nearest to `n / d` units, where one
/// unit is the least positive subnormal number; infinity if that number overflows.
///
/// A magnitude with quantum exponent `e` and significand `m` has the bit pattern
/// `e * 2^23 + m`, so that a significand rounded up to `2^24` carries into the exponent.
pub open spec fn nearest_magnitude(n: nat, d: nat) -> nat {
    let e = quantum(n, d);
    let b = e * 0x80_0000 + half_even(n, d * pow2(e));
    if b >= INFINITY {
        INFINITY as nat
    } else {
        b
    }
}

/// What characterises `quantum`.
pub proof fn lemma_quantum_bounds(n: nat, d: nat)
    requires
        d > 0,
    ensures
        n < d * pow2(24 + quantum(n, d)),
        quantum(n, d) > 0 ==> n >= d * pow2((23 + quantum(n, d)) as nat),
    decreases (if n >= d * 0x100_0000 { n - d * 0x100_0000 + 1 } else { 0 }),
{
    lemma2_to64();
    if n < d * 0x100_0000 {
    } else {
        lemma_quantum_bounds(n, 2 * d);
        let e = quantum(n, 2 * d);
        lemma_pow2_unfold(24 + e + 1);
        lemma_pow2_unfold(23 + e + 1);
        assert(2 * d * pow2(24 + e) == d * (2 * pow2(24 + e))) by (nonlinear_arith);
        assert(2 * d * pow2((23 + e) as nat) == d * (2 * pow2((23 + e) as nat))) by (nonlinear_arith);
    }
}

/// `quantum` is the only exponent with these bounds.
pub proof fn lemma_quantum_unique(n: nat, d: nat, e: nat)
    requires
        d > 0,
        n < d * pow2(24 + e),
        e > 0 ==> n >= d * pow2((23 + e) as nat),
    ensures
        quantum(n, d) == e,
{
    lemma_quantum_bounds(n, d);
    let k = quantum(n, d);
    if k < e {
        if 24 + k < 23 + e {
            lemma_pow2_strictly_increases(24 + k, (23 + e) as nat);
        }
        assert(d * pow2(24 + k) <= d * pow2((23 + e) as nat)) by (nonlinear_arith)
            requires pow2(24 + k) <= pow2((23 + e) as nat);
    } else if e < k {
        if 24 + e < 23 + k {
            lemma_pow2_strictly_increases(24 + e, (23 + k) as nat);
        }
        assert(d * pow2(24 + e) <= d * pow2((23 + k) as nat)) by (nonlinear_arith)
            requires pow2(24 + e) <= pow2((23 + k) as nat);
    }
}

/// Rounding to an integer does not depend on a common factor.
pub proof fn lemma_half_even_scale(n: nat, d: nat, k: nat)
    requires
        d > 0,
        k > 0,
    ensures
        half_even(n * k, d * k) == half_even(n, d),
{
    let q = n / d;
    let r = n % d;
    lemma_fundamental_div_mod(n as int, d as int);
    assert(n * k == q * (d * k) + r * k) by (nonlinear_arith)
        requires n == d * q + r;
    assert(0 <= r * k) by (nonlinear_arith);
    assert(r * k < d * k) by (nonlinear_arith)
        requires r < d, k > 0;
    assert(d * k > 0) by (nonlinear_arith)
        requires d > 0, k > 0;
    lemma_fundamental_div_mod_converse((n * k) as int, (d * k) as int, q as int, (r * k) as int);
    assert(2 * (r * k) < d * k <==> 2 * r < d) by (nonlinear_arith)
        requires k > 0;
    assert(2 * (r * k) == d * k <==> 2 * r == d) by (nonlinear_arith)
        requires k > 0;
}

/// Rounding does not depend on a common factor.
pub proof fn lemma_nearest_scale(n: nat, d: nat, k: nat)
    requires
        d > 0,
        k > 0,
    ensures
        nearest_magnitude(n * k, d * k) == nearest_magnitude(n, d),
{
    let e = quantum(n, d);
    lemma_quantum_bounds(n, d);
    let hi = pow2(24 + e);
    let lo = pow2((23 + e) as nat);
    assert(n * k < (d * k) * hi) by (nonlinear_arith)
        requires n < d * hi, k > 0;
    if e > 0 {
        assert(n * k >= (d * k) * lo) by (nonlinear_arith)
            requires n >= d * lo, k > 0;
    }
    assert(d * k > 0) by (nonlinear_arith)
        requires d > 0, k > 0;
    lemma_quantum_unique(n * k, d * k, e);
    lemma_pow2_pos(e);
    assert(d * pow2(e) > 0) by (nonlinear_arith)
        requires d > 0, pow2(e) > 0;
    lemma_half_even_scale(n, d * pow2(e), k);
    assert((d * k) * pow2(e) == d * pow2(e) * k) by (nonlinear_arith);
}

/// An integer is its own rounding.
pub proof fn lemma_half_even_exact(q: nat, d: nat)
    requires
        d > 0,
    ensures
        half_even(q * d, d) == q,
{
    lemma_fundamental_div_mod_converse((q * d) as int, d as int, q as int, 0);
}

/// `2^s` for a non-negative `s`, else one.
pub open spec fn raised(s: int) -> nat {
    if s >= 0 {
        pow2(s as nat)
    } else {
        1
    }
}

/// The magnitude nearest to `m * 2^s` units.
pub open spec fn nearest_scaled(m: nat, s: int) -> nat {
    nearest_magnitude(m * raised(s), raised(-s))
}

/// The number of binary digits of `m`.
pub(crate) fn bit_length(m: u64) -> (l: u32)
    ensures
        l <= 64,
        m < pow2(l as nat),
        l > 0 ==> m >= pow2((l - 1) as nat),
        (l == 0) == (m == 0),
    decreases m,
{
    proof {
        lemma2_to64();
    }
    if m == 0 {
        0
    } else {
        let l = bit_length(m / 2);
        proof {
            lemma_pow2_unfold((l + 1) as nat);
            if l > 0 {
                lemma_pow2_unfold(l as nat);
            }
            if l == 64 {
                lemma2_to64_rest();
                assert(pow2(63) == 0x8000_0000_0000_0000);
            }
        }
        l + 1
    }
}

/// `2^k` as a machine word.
pub(crate) fn power_of_two(k: u32) -> (r: u64)
    requires
        k < 64,
    ensures
        r == pow2(k as nat),
    decreases k,
{
    proof {
        lemma2_to64();
        lemma2_to64_rest();
        lemma_pow2_strictly_increases(k as nat, 64);
        if k > 0 {
            lemma_pow2_unfold(k as nat);
        }
    }
    if k == 0 {
        1
    } else {
        2 * power_of_two(k - 1)
    }
}

/// The integer nearest to `m / 2^k`, the even one of two that are equally near.
fn round_shifted(m: u64, k: u32) -> (q: u64)
    requires
        m < 0x8000_0000_0000_0000,
    ensures
        q == half_even(m as nat, pow2(k as nat)),
{
    proof {
        lemma2_to64();
        lemma2_to64_rest();
    }
    if k >= 64 {
        proof {
            if k > 64 {
                lemma_pow2_strictly_increases(64, k as nat);
            }
            lemma_fundamental_div_mod_converse(m as int, pow2(k as nat) as int, 0, m as int);
        }
        0
    } else {
        proof {
            lemma_pow2_pos(k as nat);
        }
        let d: u64 = power_of_two(k);
        let q: u64 = m / d;
        let r: u64 = m % d;
        if r < d - r || (r == d - r && q % 2 == 0) {
            q
        } else {
            proof {
                if k == 0 {
                    assert(d == 1);
                } else {
                    assert(q <= m / 2) by (nonlinear_arith)
                        requires q == m / d, d >= 2;
                    if k == 1 {
                    } else {
                        lemma_pow2_strictly_increases(1, k as nat);
                    }
                }
            }
            q + 1
        }
    }
}

/// The magnitude bits of the number nearest to `m * 2^s` units.
pub(crate) fn round_scaled(m: u64, s: i32) -> (b: u32)
    requires
        m < 0x8000_0000_0000_0000,
        -10_000 < s < 10_000,
    ensures
        b == nearest_scaled(m as nat, s as int),
{
    let ghost n = m as nat * raised(s as int);
    let ghost d = raised(-s);
    proof {
        lemma2_to64();
        if s >= 0 {
            lemma_pow2_pos(s as nat);
        } else {
            lemma_pow2_pos((-s) as nat);
        }
    }
    if m == 0 {
        proof {
            lemma_quantum_unique(0, d, 0);
            assert(d * pow2(0) == d);
            lemma_half_even_exact(0, d);
        }
        return 0;
    }
    let l: i32 = bit_length(m) as i32;
    let e: i32 = if l + s > 24 { l + s - 24 } else { 0 };
    let k: i32 = e - s;
    proof {
        lemma_scaled_quantum(m as nat, s as int, l as nat, e as nat);
    }
    if e >= 255 {
        return INFINITY;
    }
    let q: u64 = if k <= 0 {
        proof {
            let c = pow2((-k) as nat);
            lemma_pow2_adds((-k) as nat, e as nat);
            lemma_pow2_pos(e as nat);
            assert(m * pow2(s as nat) == (m * c) * pow2(e as nat)) by (nonlinear_arith)
                requires pow2(s as nat) == c * pow2(e as nat);
            lemma_half_even_exact((m * c) as nat, pow2(e as nat));
            assert(d == 1);
            lemma_pow2_adds(l as nat, (-k) as nat);
            lemma_pow2_pos((-k) as nat);
            assert(m * c < pow2(l as nat) * c) by (nonlinear_arith)
                requires m < pow2(l as nat), c > 0;
            if l - k < 24 {
                lemma_pow2_strictly_increases((l - k) as nat, 24);
            }
        }
        m * power_of_two((-k) as u32)
    } else {
        proof {
            lemma_scaled_half_even(m as nat, s as int, e as nat);
        }
        round_shifted(m, k as u32)
    };
    proof {
        lemma_quantum_bounds(n, d);
        lemma_scaled_significand(n, d, e as nat);
    }
    let b: u32 = e as u32 * 0x80_0000 + q as u32;
    if b >= INFINITY {
        INFINITY
    } else {
        b
    }
}

/// The quantum of `m * 2^s` follows from the number of digits of `m`.
proof fn lemma_scaled_quantum(m: nat, s: int, l: nat, e: nat)
    requires
        m < pow2(l),
        l > 0,
        m >= pow2((l - 1) as nat),
        e == (if l + s > 24 { l + s - 24 } else { 0 }),
    ensures
        quantum(m * raised(s), raised(-s)) == e,
{
    let u = raised(s);
    let d = raised(-s);
    let su: nat = if s >= 0 { s as nat } else { 0 };
    let sd: nat = if s >= 0 { 0 } else { (-s) as nat };
    lemma2_to64();
    assert(u == pow2(su));
    assert(d == pow2(sd));
    lemma_pow2_pos(su);
    lemma_pow2_pos(sd);
    lemma_pow2_adds(l, su);
    lemma_pow2_adds(sd, 24 + e);
    assert(m * u < pow2(l) * u) by (nonlinear_arith)
        requires m < pow2(l), u > 0;
    if l + su < sd + 24 + e {
        lemma_pow2_strictly_increases(l + su, sd + 24 + e);
    }
    if e > 0 {
        lemma_pow2_adds((l - 1) as nat, su);
        lemma_pow2_adds(sd, (23 + e) as nat);
        assert(m * u >= pow2((l - 1) as nat) * u) by (nonlinear_arith)
            requires m >= pow2((l - 1) as nat), u > 0;
        assert(l - 1 + su == sd + 23 + e);
    }
    lemma_quantum_unique(m * u, d, e);
}

/// Rounding `m * 2^s` at the quantum `e` drops `e - s` digits of `m`.
pub(crate) proof fn lemma_scaled_half_even(m: nat, s: int, e: nat)
    requires
        e > s,
    ensures
        half_even(m * raised(s), raised(-s) * pow2(e)) == half_even(m, pow2((e - s) as nat)),
{
    lemma2_to64();
    if s >= 0 {
        lemma_pow2_adds((e - s) as nat, s as nat);
        lemma_pow2_pos((e - s) as nat);
        lemma_pow2_pos(s as nat);
        lemma_half_even_scale(m, pow2((e - s) as nat), pow2(s as nat));
        assert(raised(-s) == 1);
    } else {
        lemma_pow2_adds((-s) as nat, e);
        assert(m * 1 == m);
    }
}

/// Values below a power of two that is not too large round to finite numbers.
pub(crate) proof fn lemma_nearest_finite(n: nat, d: nat, bound: nat)
    requires
        d > 0,
        bound <= 250,
        n < d * pow2(24 + bound),
    ensures
        nearest_magnitude(n, d) < INFINITY,
{
    let e = quantum(n, d);
    lemma_quantum_bounds(n, d);
    if e > bound {
        if 24 + bound < 23 + e {
            lemma_pow2_strictly_increases(24 + bound, (23 + e) as nat);
        }
        assert(d * pow2(24 + bound) <= d * pow2((23 + e) as nat)) by (nonlinear_arith)
            requires pow2(24 + bound) <= pow2((23 + e) as nat);
        assert(false);
    }
    lemma_scaled_significand(n, d, e);
}

/// A rounded significand has at most twenty-four binary digits, or is `2^24`.
proof fn lemma_scaled_significand(n: nat, d: nat, e: nat)
    requires
        d > 0,
        n < d * pow2(24 + e),
    ensures
        half_even(n, d * pow2(e)) <= 0x100_0000,
{
    lemma2_to64();
    lemma_pow2_adds(24, e);
    lemma_pow2_pos(e);
    let c = d * pow2(e);
    assert(c > 0) by (nonlinear_arith)
        requires d > 0, pow2(e) > 0, c == d * pow2(e);
    assert(n < 0x100_0000 * c) by (nonlinear_arith)
        requires n < d * pow2(24 + e), pow2(24 + e) == 0x100_0000 * pow2(e), c == d * pow2(e);
    lemma_fundamental_div_mod(n as int, c as int);
    assert(n / c < 0x100_0000) by (nonlinear_arith)
        requires n < 0x100_0000 * c, n == c * (n / c) + n % c, 0 <= n % c, c > 0;
}

/// A number is nearest to what differs from it by less than a quarter of its quantum.
pub(crate) proof fn lemma_nearest_perturbed(m: nat, e: nat, t: nat)
    requires
        e >= 1,
        0x80_0000 <= m < 0x100_0000,
        4 * t < pow2(e),
        e * 0x80_0000 + m < INFINITY,
    ensures
        nearest_magnitude(m * pow2(e) + t, 1) == e * 0x80_0000 + m,
        m * pow2(e) >= t,
        nearest_magnitude((m * pow2(e) - t) as nat, 1) == e * 0x80_0000 + m,
{
    let p = pow2(e);
    let h = pow2((e - 1) as nat);
    lemma2_to64();
    lemma_pow2_unfold(e);
    lemma_pow2_pos(e);
    lemma_pow2_adds(24, e);
    lemma_pow2_adds(23, e);
    lemma_pow2_adds(24, (e - 1) as nat);
    lemma_pow2_adds(23, (e - 1) as nat);
    let n = m * p + t;
    assert(0x80_0000 * p <= m * p <= 0xFF_FFFF * p) by (nonlinear_arith)
        requires 0x80_0000 <= m < 0x100_0000, p > 0;
    lemma_quantum_unique(n, 1, e);
    lemma_fundamental_div_mod_converse(n as int, p as int, m as int, t as int);
    assert(1 * p == p);
    if t > 0 {
        let n2 = (m * p - t) as nat;
        if m > 0x80_0000 {
            assert(m * p >= 0x80_0001 * p) by (nonlinear_arith)
                requires m >= 0x80_0001, p > 0;
            lemma_quantum_unique(n2, 1, e);
            assert(n2 == (m - 1) * p + (p - t)) by (nonlinear_arith)
                requires n2 == m * p - t;
            lemma_fundamental_div_mod_converse(n2 as int, p as int, m - 1, p - t);
        } else {
            assert(n2 == 0x100_0000 * h - t);
            lemma_quantum_unique(n2, 1, (e - 1) as nat);
            lemma_fundamental_div_mod_converse(n2 as int, h as int, 0xFF_FFFF, h - t);
            assert(1 * h == h);
            assert(half_even(n2, h) == 0x100_0000);
        }
    } else {
        assert(m * p - t == n);
    }
}

} // verus!

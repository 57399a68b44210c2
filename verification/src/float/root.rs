//! Square roots.
use super::rounding::{bit_length, power_of_two, round_scaled, INFINITY};
use super::F32;
use vstd::arithmetic::div_mod::*;
use vstd::arithmetic::power2::*;
use vstd::prelude::*;

verus! {

/// Whether `q` is the integer part of the square root of `n`.
pub open spec fn is_floor_root(q: nat, n: nat) -> bool {
    q * q <= n < (q + 1) * (q + 1)
}

/// The integer part of the square root of `n`.
pub open spec fn floor_root(n: nat) -> nat {
    choose|q: nat| is_floor_root(q, n)
}

/// The magnitude bits of the number nearest to the square root of `n` units.
pub open spec fn root_magnitude(n: nat) -> nat {
    let e = super::rounding::quantum(floor_root(n), 1);
    let m = floor_root(n) / pow2(e);
    let middle = (2 * m + 1) * pow2(e);
    if 4 * n > middle * middle || (4 * n == middle * middle && m % 2 == 1) {
        e * 0x80_0000 + m + 1
    } else {
        e * 0x80_0000 + m
    }
}

impl F32 {
    /// The square root, correctly rounded. The root of a value in units has to be multiplied
    /// by the root of the `2^149` units of one.
    #[verifier::opaque]
    pub open spec fn root(self) -> F32 {
        if self.zero() {
            self
        } else if self.nan() || self.negative() {
            F32::invalid()
        } else if self.infinite() {
            self
        } else {
            F32::signed(false, root_magnitude(self.units() * pow2(149)))
        }
    }

    /// The square root, correctly rounded.
    pub fn sqrt(self) -> (r: F32)
        ensures
            r == self.root(),
    {
        proof {
            reveal(F32::root);
        }
        let a: u32 = self.magnitude_bits();
        if a == 0 {
            return self;
        }
        if a > INFINITY || self.is_sign_negative() {
            return F32 { bits: 0x7FC0_0000 };
        }
        if a == INFINITY {
            return self;
        }
        let (e, m) = self.split();
        let l: u32 = bit_length(m);
        proof {
            lemma2_to64();
            lemma2_to64_rest();
            if l > 24 {
                lemma_pow2_strictly_increases(23, (l - 1) as nat);
                if l > 25 {
                    lemma_pow2_strictly_increases(24, (l - 1) as nat);
                }
                assert(false);
            }
        }
        let k: u32 = if (e as u32 + 149 - (62 - l)) % 2 == 0 { 62 - l } else { 61 - l };
        let ghost c = pow2(k as nat);
        proof {
            lemma_pow2_pos(k as nat);
            lemma_pow2_adds(l as nat, k as nat);
            lemma_pow2_adds((l - 1) as nat, k as nat);
            assert(m * c < pow2((l + k) as nat)) by (nonlinear_arith)
                requires m < pow2(l as nat), pow2(l as nat) * c == pow2((l + k) as nat), c > 0;
            assert(m * c >= pow2((l - 1 + k) as nat)) by (nonlinear_arith)
                requires
                    m >= pow2((l - 1) as nat),
                    pow2((l - 1) as nat) * c == pow2((l - 1 + k) as nat),
                    c > 0,
            ;
        }
        let x: u64 = m * power_of_two(k);
        let s: i32 = (e + 149 - k as i32) / 2;
        let q: u64 = integer_root(x);
        proof {
            assert(q >= 0x400_0000) by (nonlinear_arith)
                requires x >= 0x1000_0000_0000_0000, x < (q + 1) * (q + 1);
            assert(q < 0x8000_0000) by (nonlinear_arith)
                requires x < 0x4000_0000_0000_0000, q * q <= x;
            assert(q * q <= x);
        }
        assert(q * q < 0x1_0000_0000_0000_0000) by (nonlinear_arith)
            requires q < 0x8000_0000;
        let j: u64 = if q * q == x || q % 2 == 1 { q } else { q + 1 };
        proof {
            lemma_pow2_adds(s as nat, s as nat);
            lemma_pow2_adds(e as nat, 149);
            lemma_pow2_adds(k as nat, (2 * s) as nat);
            let w = pow2(s as nat);
            assert(e + 149 == k + 2 * s);
            assert(self.units() * pow2(149) == x * (w * w)) by (nonlinear_arith)
                requires
                    self.units() == m * pow2(e as nat),
                    pow2(e as nat) * pow2(149) == c * (w * w),
                    x == m * c,
            ;
            lemma_pow2_pos(s as nat);
            lemma_pow2_adds(32, s as nat);
            lemma_pow2_strictly_increases((s + 32) as nat, 274);
            assert(j * w < 1 * pow2(274)) by (nonlinear_arith)
                requires j < 0x1_0000_0000, w > 0, 0x1_0000_0000 * w < pow2(274);
            super::rounding::lemma_nearest_finite(j as nat * w, 1, 250);
            lemma_root_jammed(x as nat, q as nat, j as nat, s as nat);
        }
        F32::compose(false, round_scaled(j, s))
    }
}

/// The integer part of the square root of `x`.
fn integer_root(x: u64) -> (q: u64)
    requires
        x < 0x4000_0000_0000_0000,
    ensures
        is_floor_root(q as nat, x as nat),
{
    let mut low: u64 = 0;
    let mut high: u64 = 0x8000_0000;
    while high - low > 1
        invariant
            low < high <= 0x8000_0000,
            low * low <= x < high * high,
        decreases high - low,
    {
        let mid: u64 = low + (high - low) / 2;
        assert(mid * mid < 0x1_0000_0000_0000_0000) by (nonlinear_arith)
            requires mid < 0x8000_0000;
        if mid * mid <= x {
            low = mid;
        } else {
            high = mid;
        }
    }
    low
}

/// A number has one integer root.
pub proof fn integer_roots_are_unique(q: nat, n: nat)
    requires
        is_floor_root(q, n),
    ensures
        floor_root(n) == q,
{
    let p = floor_root(n);
    assert(is_floor_root(p, n));
    if p < q {
        assert((p + 1) * (p + 1) <= q * q) by (nonlinear_arith)
            requires p + 1 <= q;
    } else if q < p {
        assert((q + 1) * (q + 1) <= p * p) by (nonlinear_arith)
            requires q + 1 <= p;
    }
}

/// Every natural number has an integer root.
proof fn lemma_floor_root_exists(n: nat)
    ensures
        is_floor_root(floor_root(n), n),
{
    assert(n < (n + 1) * (n + 1)) by (nonlinear_arith);
    lemma_root_search(n, n);
    let q = choose|q: nat| is_floor_root(q, n);
}

proof fn lemma_root_search(n: nat, bound: nat)
    requires
        n < (bound + 1) * (bound + 1),
    ensures
        exists|q: nat| is_floor_root(q, n),
    decreases bound,
{
    if bound * bound <= n {
        assert(is_floor_root(bound, n));
    } else {
        assert(bound > 0) by (nonlinear_arith)
            requires bound * bound > n;
        let b = (bound - 1) as nat;
        assert((b + 1) * (b + 1) == bound * bound);
        lemma_root_search(n, b);
    }
}

/// Where the integer root of `x * 4^s` lies.
proof fn lemma_root_scaled(x: nat, q: nat, s: nat)
    requires
        is_floor_root(q, x),
    ensures
        floor_root(x * (pow2(s) * pow2(s))) / pow2(s) == q,
{
    let w = pow2(s);
    let n = x * (w * w);
    lemma_pow2_pos(s);
    lemma_floor_root_exists(n);
    let f = floor_root(n);
    // q w <= f < (q + 1) w
    assert((q * w) * (q * w) <= n) by (nonlinear_arith)
        requires q * q <= x, n == x * (w * w);
    assert(((q + 1) * w) * ((q + 1) * w) > n) by (nonlinear_arith)
        requires (q + 1) * (q + 1) > x, n == x * (w * w), w > 0;
    if f < q * w {
        assert((f + 1) * (f + 1) <= (q * w) * (q * w)) by (nonlinear_arith)
            requires f + 1 <= q * w;
    }
    if f >= (q + 1) * w {
        assert(f * f >= ((q + 1) * w) * ((q + 1) * w)) by (nonlinear_arith)
            requires f >= (q + 1) * w;
    }
    assert(f == q * w + (f - q * w));
    assert(f - q * w < w) by (nonlinear_arith)
        requires f < (q + 1) * w;
    lemma_fundamental_div_mod_converse(f as int, w as int, q as int, f - q * w);
}

/// Rounding the jammed root of `x` rounds the root of `x * 4^s`.
proof fn lemma_root_jammed(x: nat, q: nat, j: nat, s: nat)
    requires
        is_floor_root(q, x),
        q >= 0x400_0000,
        j == (if q * q == x || q % 2 == 1 { q } else { q + 1 }),
        super::rounding::nearest_scaled(j, s as int) < INFINITY,
    ensures
        super::rounding::nearest_scaled(j, s as int) == root_magnitude(x * (pow2(s) * pow2(s))),
{
    let w = pow2(s);
    let n = x * (w * w);
    let f = floor_root(n);
    lemma_pow2_pos(s);
    lemma2_to64();
    lemma_root_scaled(x, q, s);
    lemma_fundamental_div_mod(f as int, w as int);
    let e = super::rounding::quantum(f, 1);
    super::rounding::lemma_quantum_bounds(f, 1);
    let fr = f % w;
    assert(f >= q * w && f < (q + 1) * w) by (nonlinear_arith)
        requires f == w * q + fr, 0 <= fr < w;
    // The quantum exceeds s by two at least.
    lemma_pow2_adds(26, s);
    assert(f >= 0x400_0000 * w) by (nonlinear_arith)
        requires f >= q * w, q >= 0x400_0000;
    if e < s + 2 {
        if 24 + e < s + 26 {
            lemma_pow2_strictly_increases(24 + e, s + 26);
        }
        assert(false);
    }
    let t = (e - s) as nat;
    let h = pow2((t - 1) as nat);
    lemma_pow2_pos(t);
    lemma_pow2_pos((t - 1) as nat);
    lemma_pow2_unfold(t);
    lemma_pow2_unfold((t - 1) as nat);
    lemma_pow2_adds(t, s);
    // The quantum of the jammed root.
    let hi = pow2((24 + t) as nat);
    let lo = pow2((23 + t) as nat);
    lemma_pow2_adds(24 + t, s);
    lemma_pow2_adds((23 + t) as nat, s);
    lemma_pow2_unfold((24 + t) as nat);
    lemma_pow2_unfold((23 + t) as nat);
    assert(q < hi) by (nonlinear_arith)
        requires q * w <= f, f < 1 * (hi * w), w > 0;
    assert(q >= lo) by (nonlinear_arith)
        requires f < (q + 1) * w, f >= 1 * (lo * w), w > 0;
    assert(j < hi);
    assert(j * w < 1 * (hi * w)) by (nonlinear_arith)
        requires j < hi, w > 0;
    assert(j * w >= 1 * (lo * w)) by (nonlinear_arith)
        requires j >= lo, w > 0;
    super::rounding::lemma_quantum_unique(j * w, 1, e);
    assert(super::rounding::raised(s as int) == w);
    assert(super::rounding::raised(-(s as int)) == 1);
    super::rounding::lemma_scaled_half_even(j, s as int, e);
    // The significands agree.
    let g = pow2(t);
    let m = q / g;
    lemma_fundamental_div_mod(q as int, g as int);
    let r = q % g;
    assert(f / pow2(e) == m) by {
        lemma_div_denominator(f as int, w as int, g as int);
        assert(w * g == pow2(e)) by (nonlinear_arith)
            requires g * w == pow2(e);
    }
    let jr = (r + (j - q)) as nat;
    assert(q % 2 == r % 2) by {
        assert(q == 2 * (h * m) + r) by (nonlinear_arith)
            requires q == g * m + r, g == 2 * h;
    }
    assert(j == m * g + jr) by (nonlinear_arith)
        requires q == g * m + r, jr == r + (j - q);
    lemma_fundamental_div_mod_converse(j as int, g as int, m as int, jr as int);
    // Both round up beyond b = m g + h.
    let b = m * g + h;
    let middle = (2 * m + 1) * pow2(e);
    assert(middle == 2 * (b * w)) by (nonlinear_arith)
        requires middle == (2 * m + 1) * (g * w), b == m * g + h, g == 2 * h;
    assert(4 * n > middle * middle <==> x > b * b) by {
        assert(middle * middle == 4 * ((b * b) * (w * w))) by (nonlinear_arith)
            requires middle == 2 * (b * w);
        let ww = w * w;
        assert(ww > 0) by (nonlinear_arith)
            requires ww == w * w, w > 0;
        assert(x * ww > (b * b) * ww <==> x > b * b) by (nonlinear_arith)
            requires ww > 0;
    }
    assert(4 * n == middle * middle <==> x == b * b) by {
        assert(middle * middle == 4 * ((b * b) * (w * w))) by (nonlinear_arith)
            requires middle == 2 * (b * w);
        let ww = w * w;
        assert(ww > 0) by (nonlinear_arith)
            requires ww == w * w, w > 0;
        assert(x * ww == (b * b) * ww <==> x == b * b) by (nonlinear_arith)
            requires ww > 0;
    }
    assert(b % 2 == 0) by {
        let hh = pow2((t - 2) as nat);
        assert(h == 2 * hh);
        assert(b == 2 * (m * h + hh)) by (nonlinear_arith)
            requires b == m * g + h, g == 2 * h, h == 2 * hh;
    }
    if q > b {
        assert(q * q > b * b) by (nonlinear_arith)
            requires q > b;
    } else if q < b {
        assert((q + 1) * (q + 1) <= b * b) by (nonlinear_arith)
            requires q + 1 <= b;
    }
    assert(1 * pow2(e) == pow2(e));
}

/// The root of an exact square is exact.
pub proof fn squares_have_exact_roots(a: F32, m: nat, k: nat)
    requires
        a.finite(),
        !a.negative(),
        !a.zero(),
        a.units() * pow2(149) == (m * pow2(k)) * (m * pow2(k)),
        m < 0x100_0000,
        k <= 200,
    ensures
        a.root() == super::exact::exactly(m, k),
        a.root().finite(),
        !a.root().negative(),
        a.root().units() == m * pow2(k),
{
    reveal(F32::root);
    let q = m * pow2(k);
    let n = q * q;
    lemma_pow2_pos(k);
    assert(is_floor_root(q, n)) by {
        assert(n < (q + 1) * (q + 1)) by (nonlinear_arith)
            requires n == q * q;
    }
    integer_roots_are_unique(q, n);
    let e = super::rounding::quantum(q, 1);
    super::rounding::lemma_quantum_bounds(q, 1);
    lemma_pow2_pos(e);
    if e > k {
        lemma_pow2_adds(24, k);
        lemma2_to64();
        assert(m * pow2(k) < pow2(24 + k)) by (nonlinear_arith)
            requires m < 0x100_0000, pow2(24 + k) == 0x100_0000 * pow2(k), pow2(k) > 0;
        if 24 + k < 23 + e {
            vstd::arithmetic::power2::lemma_pow2_strictly_increases(24 + k, (23 + e) as nat);
        }
        assert(false);
    }
    let d = (k - e) as nat;
    lemma_pow2_adds(d, e);
    let x = m * pow2(d);
    assert(q == x * pow2(e)) by (nonlinear_arith)
        requires q == m * pow2(k), pow2(k) == pow2(d) * pow2(e), x == m * pow2(d);
    super::rounding::lemma_half_even_exact(x, pow2(e));
    assert(q / pow2(e) == x) by {
        vstd::arithmetic::div_mod::lemma_div_multiples_vanish(x as int, pow2(e) as int);
        assert(pow2(e) * x == x * pow2(e)) by (nonlinear_arith);
    }
    let middle = (2 * x + 1) * pow2(e);
    assert(4 * n < middle * middle) by (nonlinear_arith)
        requires n == q * q, q == x * pow2(e), middle == (2 * x + 1) * pow2(e), pow2(e) > 0;
    assert(1 * pow2(e) == pow2(e));
    super::exact::short_numbers_are_exact(m, k);
}

} // verus!

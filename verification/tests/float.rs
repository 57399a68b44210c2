//! The arithmetic agrees with that of the machine.
use liteparse::float::F32;

fn samples() -> Vec<f32> {
    let mut v = vec![
        0.0,
        -0.0,
        1.0,
        -1.0,
        0.1,
        0.3,
        1.5,
        -2.25,
        3.0,
        1e-45,
        -1e-45,
        1.1754942e-38,
        1.1754944e-38,
        3.4028235e38,
        -3.4028235e38,
        16777215.0,
        16777216.0,
        16777217.0,
        0.333_333_34,
        612.0,
        792.0,
        1280.0,
        0.5,
        2.5,
        -0.5,
        -2.5,
        2147483647.0,
        4294967296.0,
        1e20,
        f32::INFINITY,
        f32::NEG_INFINITY,
        f32::NAN,
    ];
    let mut state: u32 = 12345;
    for _ in 0..120 {
        state = state.wrapping_mul(1664525).wrapping_add(1013904223);
        v.push(f32::from_bits(state));
    }
    v
}

fn f(v: f32) -> F32 {
    F32::from_bits(v.to_bits())
}

fn same(a: F32, b: f32) -> bool {
    if b.is_nan() {
        a.is_nan()
    } else {
        a.to_bits() == b.to_bits()
    }
}

#[test]
fn sums_products_and_quotients_are_rounded() {
    for a in samples() {
        for b in samples() {
            assert!(same(f(a).add(f(b)), a + b), "{a} + {b}");
            assert!(same(f(a).sub(f(b)), a - b), "{a} - {b}");
            assert!(same(f(a).mul(f(b)), a * b), "{a} * {b}");
            assert!(same(f(a).div(f(b)), a / b), "{a} / {b}");
        }
    }
}

#[test]
fn comparisons_agree() {
    for a in samples() {
        for b in samples() {
            assert_eq!(f(a).lt(f(b)), a < b);
            assert_eq!(f(a).le(f(b)), a <= b);
            assert_eq!(f(a).gt(f(b)), a > b);
            assert_eq!(f(a).ge(f(b)), a >= b);
            let total = f(a).total_rank() < f(b).total_rank();
            assert_eq!(total, a.total_cmp(&b) == std::cmp::Ordering::Less);
            if a != b {
                assert!(same(f(a).min(f(b)), a.min(b)));
                assert!(same(f(a).max(f(b)), a.max(b)));
            }
        }
    }
}

#[test]
fn roots_and_signs_agree() {
    for a in samples() {
        assert!(same(f(a).sqrt(), a.sqrt()), "sqrt {a}");
        assert!(same(f(a).abs(), a.abs()));
        assert!(same(f(a).neg(), -a));
    }
}

#[test]
fn conversions_agree() {
    for a in samples() {
        assert_eq!(f(a).floor_i32(), a.floor() as i32, "floor {a}");
        assert_eq!(f(a).ceil_i32(), a.ceil() as i32, "ceil {a}");
        assert_eq!(f(a).round_u32(), a.round() as u32, "round {a}");
        assert_eq!(f(a).round_usize(), a.round() as usize);
        assert_eq!(f(a).trunc_usize(), a as usize);
        assert!(same(f(a).floor(), a.floor()) || a.floor() == 0.0);
    }
    for n in [0u32, 1, 2, 3, 255, 16777215, 16777217, 16777219, u32::MAX, u32::MAX - 128] {
        assert!(same(F32::from_u32(n), n as f32));
        assert!(same(F32::from_u64(n as u64 * 65537), (n as u64 * 65537) as f32));
        assert!(same(F32::from_usize(n as usize), n as usize as f32));
    }
    assert!(same(F32::fraction(1, 10), 0.1));
    assert!(same(F32::fraction(45, 100), 0.45));
    assert!(same(F32::fraction(1, 3), 1.0 / 3.0));
}

#[test]
fn values_are_clamped() {
    assert!(same(f(5.0).clamp(f(0.0), f(2.0)), 2.0));
    assert!(same(f(-5.0).clamp(f(0.0), f(2.0)), 0.0));
    assert!(same(f(1.0).clamp(f(0.0), f(2.0)), 1.0));
}

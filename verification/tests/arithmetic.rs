//! The integer arithmetic against the machine's own.

use sbpl_pso::binary64::Binary64;

fn of(x: f64) -> Binary64 {
    Binary64 { bits: x.to_bits() }
}

fn same(got: Binary64, want: f64) -> bool {
    let got = f64::from_bits(got.bits);
    got.to_bits() == want.to_bits() || (got.is_nan() && want.is_nan())
}

fn next(state: &mut u64) -> u64 {
    let mut x = *state;
    x ^= x << 13;
    x ^= x >> 7;
    x ^= x << 17;
    *state = x;
    x
}

/// Bit patterns with every exponent, and pairs with nearby exponents.
fn sample(state: &mut u64) -> (f64, f64) {
    let a = next(state);
    let b = next(state);
    match next(state) % 4 {
        0 => (f64::from_bits(a), f64::from_bits(b)),
        1 => {
            // Close exponents.
            let e = (a >> 52) & 0x7ff;
            let near = (e + next(state) % 140).saturating_sub(70).min(0x7ff);
            (
                f64::from_bits(a),
                f64::from_bits((b & 0x800f_ffff_ffff_ffff) | (near << 52)),
            )
        }
        2 => ((a as i64 as f64) / 1000.0, (b as i64 >> 20) as f64 / 7.0),
        _ => {
            // Subnormal and barely normal values.
            (
                f64::from_bits(a & 0x801f_ffff_ffff_ffff),
                f64::from_bits(b & 0x800f_ffff_ffff_ffff),
            )
        }
    }
}

const SPECIAL: [f64; 16] = [
    0.0,
    -0.0,
    1.0,
    -1.0,
    f64::MAX,
    f64::MIN,
    f64::MIN_POSITIVE,
    5e-324,
    -5e-324,
    f64::INFINITY,
    f64::NEG_INFINITY,
    f64::NAN,
    0.1,
    1.5,
    9007199254740993.0,
    1e-308,
];

fn check_pair(x: f64, y: f64) {
    let (a, b) = (of(x), of(y));
    assert!(same(a.plus(b), x + y), "{x:e} + {y:e}");
    assert!(same(a.minus(b), x - y), "{x:e} - {y:e}");
    assert!(same(a.times(b), x * y), "{x:e} * {y:e}");
    assert!(same(a.over(b), x / y), "{x:e} / {y:e}");
    assert_eq!(a.lt(b), x < y, "{x:e} < {y:e}");
    assert_eq!(a.le(b), x <= y, "{x:e} <= {y:e}");
    assert_eq!(a.same_value(b), x == y, "{x:e} == {y:e}");
    if x != 0.0 || y != 0.0 {
        assert!(same(a.min(b), x.min(y)), "min {x:e} {y:e}");
        assert!(same(a.max(b), x.max(y)), "max {x:e} {y:e}");
    }
    assert_eq!(a.is_finite(), x.is_finite());
    assert_eq!(a.is_nan(), x.is_nan());
    assert_eq!(a.is_infinite(), x.is_infinite());
}

#[test]
fn operations_agree_on_special_values() {
    for x in SPECIAL {
        for y in SPECIAL {
            check_pair(x, y);
        }
    }
}

#[test]
fn operations_agree_on_random_values() {
    let mut state = 0x1234_5678_9abc_def1u64;
    for _ in 0..400_000 {
        let (x, y) = sample(&mut state);
        check_pair(x, y);
    }
}

#[test]
fn counts_convert_to_the_nearest_number() {
    let mut state = 0x0bad_cafe_dead_beefu64;
    for shift in 0..64 {
        for _ in 0..200 {
            let n = next(&mut state) >> shift;
            assert!(same(Binary64::of_count(n), n as f64), "{n}");
        }
    }
    assert!(same(Binary64::of_count(0), 0.0));
    assert!(same(Binary64::of_count(u64::MAX), u64::MAX as f64));
}

#[test]
fn clamp_restricts_to_the_interval() {
    for (x, lo, hi) in [(0.5, 0.0, 1.0), (-3.0, -1.0, 1.0), (7.0, -1.0, 1.0), (1.0, 1.0, 1.0)] {
        assert!(same(of(x).clamp(of(lo), of(hi)), f64::clamp(x, lo, hi)));
    }
    assert!(of(f64::NAN).clamp(of(0.0), of(1.0)).is_nan());
}

#[test]
fn negation_flips_the_sign_only() {
    for x in SPECIAL {
        assert_eq!(of(x).negated().bits, (-x).to_bits());
    }
}

#[test]
fn numbers_cancel() {
    for x in [1.0, -3.5, 1e-320, 1.7e308, 0.1, -0.0, 4770.0] {
        assert_eq!(of(x).minus(of(x)).bits, 0, "{x}");
        if x != 0.0 {
            assert!(same(of(x).over(of(x)), 1.0), "{x}");
            assert!(same(of(0.0).over(of(x)), 0.0 / x), "{x}");
        }
    }
    assert!(of(2.0).minus(of(1.0)).bits < 1 << 63);
}

#[test]
fn counts_are_exact() {
    for n in [0u64, 1, 2, 3, 4770, 9710, (1 << 53) - 1, 1 << 53, (1 << 53) + 1, u64::MAX] {
        assert!(same(Binary64::of_count(n), n as f64), "{n}");
    }
}

//! How magnitudes and fluxes go together.
//!
//! Exact values are whole numbers of units of 2^-1074, so that what holds up to
//! rounding is stated as a comparison of products.
use crate::binary64::{
    law_difference_with_itself, law_signs_are_kept, lemma_negated_units, lemma_rounded_zero,
    lemma_units_positive, Binary64,
};
use crate::closeness::{lemma_half_a_step, lemma_shift_ordered, lemma_sum_is_close};
use crate::elementary::Elementary;
use crate::ladder::{
    lemma_rounded_exists, lemma_step, lemma_step_parts, rounded, step_shift, step_significand,
    step_units, BINADE, INFINITE_STEP, UNIT_EXPONENT,
};
use crate::magnitude::{
    law_times_one, lemma_one_is_unit, lemma_rounded_at_most, lemma_units_ordered,
    lemma_units_within,
};
use crate::model::{flux_of, powers_have_no_sign};
use crate::numbers::{LN_10, MAGNITUDE_SCALE, ONE, TEN, ZERO_POINT};
use vstd::arithmetic::power2::{
    lemma2_to64, lemma2_to64_rest, lemma_pow2_adds, lemma_pow2_pos, lemma_pow2_unfold, pow2,
};
use vstd::prelude::*;

verus! {

/// At the zero point, without an error, the flux is one, without an error.
pub proof fn law_unit_flux_at_zero_point(f: spec_fn(Elementary) -> Binary64)
    requires
        f(Elementary::Pow(Binary64 { bits: TEN }, Binary64::zero())) == (Binary64 { bits: ONE }),
    ensures
        flux_of(Binary64 { bits: ZERO_POINT }, Binary64::zero(), f) == (
            Binary64 { bits: ONE },
            Binary64::zero(),
        ),
{
    let zero = Binary64::zero();
    let scale = Binary64 { bits: MAGNITUDE_SCALE };
    law_difference_with_itself(Binary64 { bits: ZERO_POINT });
    lemma_zero_part(scale);
    lemma_zero_part(Binary64 { bits: LN_10 });
    law_times_one(zero);
}

/// Zero times, and zero over, a positive finite number.
proof fn lemma_zero_part(a: Binary64)
    requires
        a.is_finite(),
        Binary64::zero().lt(a),
    ensures
        Binary64::zero().times(a) == Binary64::zero(),
        Binary64::zero().over(a) == Binary64::zero(),
{
    reveal(Binary64::spec_times);
    reveal(Binary64::spec_over);
    lemma_one_is_unit();
    lemma_units_positive(0);
    lemma_units_positive(a.step());
    let unit = pow2(UNIT_EXPONENT as nat);
    lemma_rounded_zero(unit);
    lemma_rounded_zero(step_units(a.step()));
    assert(0 * step_units(a.step()) == 0 && 0 * unit == 0) by (nonlinear_arith);
}

/// A flux has no sign, and its error has none where the magnitude's has none.
pub proof fn law_fluxes_of_magnitudes_have_no_sign(
    mag: Binary64,
    mag_err: Binary64,
    f: spec_fn(Elementary) -> Binary64,
)
    requires
        powers_have_no_sign(f),
    ensures
        !flux_of(mag, mag_err, f).0.negative(),
        !mag_err.negative() ==> !flux_of(mag, mag_err, f).1.negative(),
{
    let flux = flux_of(mag, mag_err, f).0;
    law_signs_are_kept(flux, mag_err);
    law_signs_are_kept(flux.times(mag_err), Binary64 { bits: LN_10 });
    law_signs_are_kept(
        flux.times(mag_err).times(Binary64 { bits: LN_10 }),
        Binary64 { bits: MAGNITUDE_SCALE },
    );
}

/// `y` is `x` to within one rounding: by 2^-52 of it at most.
pub open spec fn once_rounded(x: nat, y: nat) -> bool {
    let e = BINADE as int;
    (e - 1) * x <= e * y && e * y <= (e + 1) * x
}

/// `y` is `x` to within three roundings.
pub open spec fn thrice_rounded(x: nat, y: nat) -> bool {
    let e = BINADE as int;
    (e - 1) * ((e - 1) * ((e - 1) * x)) <= e * (e * (e * y)) && e * (e * (e * y)) <= (e + 1) * ((e
        + 1) * ((e + 1) * x))
}

/// A finite number at or above the least normal one.
pub open spec fn is_normal(a: Binary64) -> bool {
    BINADE <= a.step() < INFINITE_STEP
}

/// Rounding to a normal step moves a value by 2^-52 of it at most.
proof fn lemma_once_rounded(n: nat, d: nat)
    requires
        d > 0,
        BINADE <= rounded(n, d) < INFINITE_STEP,
    ensures
        once_rounded(n, step_units(rounded(n, d)) * d),
{
    let m = rounded(n, d);
    lemma_rounded_exists(n, d);
    lemma_half_a_step(n, d);
    let b = BINADE as int;
    let p = pow2(step_shift(m)) as int;
    let hi = step_significand(m) as int;
    let v = step_units(m) * d;
    lemma_step_parts(m);
    lemma_pow2_pos(step_shift(m));
    assert(hi >= b);
    assert(v == hi * p * d);
    let g = p * d;
    assert(v == hi * g) by (nonlinear_arith)
        requires
            v == hi * p * d,
            g == p * d,
    ;
    assert(g >= 0) by (nonlinear_arith)
        requires
            g == p * d,
            p > 0,
            d > 0,
    ;
    assert(b * g <= v) by (nonlinear_arith)
        requires
            v == hi * g,
            hi >= b,
            g >= 0,
    ;
    assert((b - 1) * n <= b * v && b * v <= (b + 1) * n) by (nonlinear_arith)
        requires
            -g <= 2 * n - 2 * v <= g,
            b * g <= v,
            b >= 4,
            g >= 0,
            n >= 0,
    ;
}

/// Nothing underflows or overflows on the way to the error of a flux.
pub open spec fn smooth_error(
    mag: Binary64,
    mag_err: Binary64,
    f: spec_fn(Elementary) -> Binary64,
) -> bool {
    let flux = flux_of(mag, mag_err, f).0;
    let first = flux.times(mag_err);
    let second = first.times(Binary64 { bits: LN_10 });
    &&& flux.is_finite() && mag_err.is_finite()
    &&& is_normal(first) && is_normal(second)
    &&& is_normal(flux_of(mag, mag_err, f).1)
}

/// The relative error of a flux is that of its magnitude times ln 10 over 2.5: the
/// error times 2.5 is the flux times the magnitude's error times ln 10, to within
/// the three roundings of the computation.
pub proof fn law_error_over_flux(
    mag: Binary64,
    mag_err: Binary64,
    f: spec_fn(Elementary) -> Binary64,
)
    requires
        smooth_error(mag, mag_err, f),
    ensures
        thrice_rounded(
            step_units(flux_of(mag, mag_err, f).0.step()) * step_units(mag_err.step())
                * step_units(LN_10 as nat),
            step_units(flux_of(mag, mag_err, f).1.step()) * step_units(MAGNITUDE_SCALE as nat)
                * pow2(UNIT_EXPONENT as nat),
        ),
{
    reveal(Binary64::spec_times);
    reveal(Binary64::spec_over);
    lemma_one_is_unit();
    let ln_10 = Binary64 { bits: LN_10 };
    let scale = Binary64 { bits: MAGNITUDE_SCALE };
    let flux = flux_of(mag, mag_err, f).0;
    let first = flux.times(mag_err);
    let second = first.times(ln_10);
    let third = second.over(scale);
    let unit = pow2(UNIT_EXPONENT as nat);
    let a = step_units(flux.step());
    let b = step_units(mag_err.step());
    let l = step_units(LN_10 as nat);
    let c = step_units(MAGNITUDE_SCALE as nat);
    lemma_units_positive(MAGNITUDE_SCALE as nat);
    let x1 = step_units(first.step());
    let x2 = step_units(second.step());
    let x3 = step_units(third.step());
    lemma_rounded_exists(a * b, unit);
    lemma_rounded_exists(x1 * l, unit);
    lemma_rounded_exists(x2 * unit, c);
    lemma_once_rounded(a * b, unit);
    lemma_once_rounded(x1 * l, unit);
    lemma_once_rounded(x2 * unit, c);
    lemma_scaled(a * b, x1 * unit, l);
    lemma_scaled(x1 * l, x2 * unit, unit);
    lemma_scaled(x2 * unit, x3 * c, unit);
    let y0 = a * b * l;
    let y1 = (x1 * unit) * l;
    let y2 = (x2 * unit) * unit;
    let y3 = (x3 * c) * unit;
    assert((x1 * l) * unit == y1) by (nonlinear_arith)
        requires
            y1 == (x1 * unit) * l,
    ;
    lemma_chained(y0, y1, y2, y3);
}

/// Both sides of a rounding may be scaled.
proof fn lemma_scaled(x: nat, y: nat, c: nat)
    requires
        once_rounded(x, y),
    ensures
        once_rounded(x * c, y * c),
{
    let e = BINADE as int;
    assert((e - 1) * (x * c) <= e * (y * c) && e * (y * c) <= (e + 1) * (x * c))
        by (nonlinear_arith)
        requires
            (e - 1) * x <= e * y,
            e * y <= (e + 1) * x,
            c >= 0,
    ;
}

/// Three roundings in a row.
proof fn lemma_chained(x: nat, y: nat, z: nat, w: nat)
    requires
        once_rounded(x, y),
        once_rounded(y, z),
        once_rounded(z, w),
    ensures
        thrice_rounded(x, w),
{
    let e = BINADE as int;
    let lo = e - 1;
    let hi = e + 1;
    assert(lo * (lo * x) <= lo * (e * y)) by (nonlinear_arith)
        requires
            lo * x <= e * y,
            lo >= 0,
    ;
    assert(hi * (e * y) <= hi * (hi * x)) by (nonlinear_arith)
        requires
            e * y <= hi * x,
            hi >= 0,
    ;
    assert(e * (lo * y) <= e * (e * z) && e * (e * z) <= e * (hi * y)) by (nonlinear_arith)
        requires
            lo * y <= e * z,
            e * z <= hi * y,
            e >= 0,
    ;
    assert(lo * (e * y) == e * (lo * y) && hi * (e * y) == e * (hi * y)) by (nonlinear_arith);
    let u = e * (e * z);
    assert(lo * (lo * x) <= u <= hi * (hi * x));
    assert(lo * (lo * (lo * x)) <= lo * u && hi * u <= hi * (hi * (hi * x))) by (nonlinear_arith)
        requires
            lo * (lo * x) <= u,
            u <= hi * (hi * x),
            lo >= 0,
            hi >= 0,
    ;
    assert(e * (e * (lo * z)) <= e * (e * (e * w)) && e * (e * (e * w)) <= e * (e * (hi * z)))
        by (nonlinear_arith)
        requires
            lo * z <= e * w,
            e * w <= hi * z,
            e >= 0,
    ;
    assert(lo * u == e * (e * (lo * z)) && hi * u == e * (e * (hi * z))) by (nonlinear_arith)
        requires
            u == e * (e * z),
    ;
}

/// The powers of ten that a magnitude, and one 2.5 magnitudes less, stand for.
pub open spec fn exponents(mag: Binary64) -> (Binary64, Binary64) {
    let scale = Binary64 { bits: MAGNITUDE_SCALE };
    let zero_point = Binary64 { bits: ZERO_POINT };
    (zero_point.minus(mag).over(scale), zero_point.minus(mag.minus(scale)).over(scale))
}

/// The bit pattern of 1000.
pub const THOUSAND: u64 = 0x408f_4000_0000_0000;

/// The bit pattern of 1536.
const CEILING: u64 = 0x4098_0000_0000_0000;

/// Values of the constants of the magnitude scale.
#[verifier::spinoff_prover]
proof fn lemma_scale_values()
    ensures
        ({
            let unit = pow2(UNIT_EXPONENT as nat);
            &&& unit > 0
            &&& 2 * step_units(MAGNITUDE_SCALE as nat) == 5 * unit
            &&& step_units(ZERO_POINT as nat) <= 24 * unit
            &&& step_units(THOUSAND as nat) == 1000 * unit
            &&& step_units(CEILING as nat) == 1536 * unit
        }),
{
    lemma_one_is_unit();
    let unit = pow2(UNIT_EXPONENT as nat);
    lemma2_to64();
    lemma2_to64_rest();
    let q = pow2(1022);
    lemma_pow2_adds(52, 1022);
    assert(unit == 0x10_0000_0000_0000 * q);
    lemma_pow2_unfold(1023);
    lemma_pow2_adds(4, 1022);
    lemma_pow2_adds(9, 1022);
    lemma_pow2_adds(10, 1022);
    assert(2 * step_units(MAGNITUDE_SCALE as nat) == 5 * unit) by {
        lemma_step(1023, 0x14_0000_0000_0000);
        assert(step_units(MAGNITUDE_SCALE as nat) == 0x14_0000_0000_0000 * (2 * q));
        assert(2 * (0x14_0000_0000_0000 * (2 * q)) == 5 * (0x10_0000_0000_0000 * q))
            by (nonlinear_arith);
    }
    assert(step_units(ZERO_POINT as nat) <= 24 * unit) by {
        lemma_step(1026, 0x18_0000_0000_0000);
        assert(step_units(0x4038_0000_0000_0000) == 0x18_0000_0000_0000 * (16 * q));
        assert(0x18_0000_0000_0000 * (16 * q) == 24 * (0x10_0000_0000_0000 * q))
            by (nonlinear_arith);
        lemma_units_ordered(ZERO_POINT as nat, 0x4038_0000_0000_0000);
    }
    assert(step_units(THOUSAND as nat) == 1000 * unit) by {
        lemma_step(1031, 0x1f_4000_0000_0000);
        assert(step_units(THOUSAND as nat) == 0x1f_4000_0000_0000 * (512 * q));
        assert(0x1f_4000_0000_0000 * (512 * q) == 1000 * (0x10_0000_0000_0000 * q))
            by (nonlinear_arith);
    }
    assert(step_units(CEILING as nat) == 1536 * unit) by {
        lemma_step(1032, 0x18_0000_0000_0000);
        assert(step_units(CEILING as nat) == 0x18_0000_0000_0000 * (1024 * q));
        assert(0x18_0000_0000_0000 * (1024 * q) == 1536 * (0x10_0000_0000_0000 * q))
            by (nonlinear_arith);
    }
}

/// Up to 1536 the spacing is 2^-42 at most.
proof fn lemma_ceiling_spacing(m: nat)
    requires
        m <= CEILING,
    ensures
        pow2(step_shift(m)) <= pow2(1032),
{
    lemma_shift_ordered(m, CEILING as nat);
    assert(step_shift(CEILING as nat) == 1032);
}

/// A quotient by 2.5 of no more than 1536 is off by 2^-43 at most.
proof fn lemma_quotient_is_close(a: Binary64)
    requires
        a.step() <= CEILING,
    ensures
        ({
            let scale = Binary64 { bits: MAGNITUDE_SCALE };
            let x = a.over(scale);
            &&& x.is_finite()
            &&& -5 * pow2(1032) <= 4 * a.units() - 10 * x.units() <= 5 * pow2(1032)
        }),
{
    reveal(Binary64::spec_over);
    lemma_scale_values();
    let scale = Binary64 { bits: MAGNITUDE_SCALE };
    let unit = pow2(UNIT_EXPONENT as nat);
    let c = step_units(MAGNITUDE_SCALE as nat);
    let v = step_units(a.step());
    lemma_units_ordered(a.step(), CEILING as nat);
    assert(v * unit <= step_units(CEILING as nat) * c) by (nonlinear_arith)
        requires
            0 <= v <= step_units(CEILING as nat),
            2 * c == 5 * unit,
            unit > 0,
    ;
    lemma_rounded_at_most(v * unit, c, CEILING as nat);
    let m = rounded(v * unit, c);
    lemma_half_a_step(v * unit, c);
    lemma_ceiling_spacing(m);
    let g = pow2(step_shift(m));
    let t = pow2(1032);
    let y = step_units(m);
    assert(-5 * t <= 4 * v - 10 * y <= 5 * t) by (nonlinear_arith)
        requires
            -(g * c) <= 2 * (v * unit) - 2 * (y * c) <= g * c,
            2 * c == 5 * unit,
            unit > 0,
            0 <= g <= t,
    ;
    let x = a.over(scale);
    assert(x == crate::binary64::signed(a.negative(), m));
}

/// Taking 2.5 magnitudes away adds one to the exponent of the flux, up to 2^-41,
/// for magnitudes from -1000 to 1000.
pub proof fn law_exponent_of_a_shift(mag: Binary64)
    requires
        mag.step() <= THOUSAND,
    ensures
        ({
            let (before, after) = exponents(mag);
            &&& before.is_finite()
            &&& after.is_finite()
            &&& -(pow2(1033) as int) <= after.units() - before.units() - pow2(
                UNIT_EXPONENT as nat,
            ) <= pow2(1033)
        }),
{
    let scale = Binary64 { bits: MAGNITUDE_SCALE };
    let zero_point = Binary64 { bits: ZERO_POINT };
    let unit = pow2(UNIT_EXPONENT as nat) as int;
    let t = pow2(1032) as int;
    lemma_scale_values();
    lemma_spacing_is_small();
    assert(step_shift(CEILING as nat) == 1032);
    lemma_pow2_unfold(1033);
    lemma_units_within(mag, THOUSAND as nat);
    lemma_negated_units(scale);
    lemma_negated_units(mag);
    lemma_sum_is_close(mag, scale.negated(), CEILING as nat);
    let moved = mag.minus(scale);
    lemma_negated_units(moved);
    lemma_sum_is_close(zero_point, mag.negated(), CEILING as nat);
    lemma_sum_is_close(zero_point, moved.negated(), CEILING as nat);
    lemma_quotient_is_close(zero_point.minus(mag));
    lemma_quotient_is_close(zero_point.minus(moved));
}

/// 2^-42 is less than one.
proof fn lemma_spacing_is_small()
    ensures
        pow2(1032) <= pow2(UNIT_EXPONENT as nat),
{
    vstd::arithmetic::power2::lemma_pow2_strictly_increases(1032, UNIT_EXPONENT as nat);
}

/// Powers of ten whose exponents are one apart, up to `slack` units, are tenfold,
/// between `lo / scale` and `hi / scale` times, as long as neither is below the
/// normal numbers or overflows.
pub open spec fn powers_step_tenfold(
    f: spec_fn(Elementary) -> Binary64,
    slack: nat,
    lo: nat,
    hi: nat,
    scale: nat,
) -> bool {
    forall|x: Binary64, y: Binary64|
        #![trigger f(Elementary::Pow(Binary64 { bits: TEN }, x)), f(
            Elementary::Pow(Binary64 { bits: TEN }, y),
        )]
        x.is_finite() && y.is_finite() && -(slack as int) <= y.units() - x.units() - pow2(
            UNIT_EXPONENT as nat,
        ) <= slack && is_normal(f(Elementary::Pow(Binary64 { bits: TEN }, x))) && is_normal(
            f(Elementary::Pow(Binary64 { bits: TEN }, y)),
        ) ==> {
            let a = step_units(f(Elementary::Pow(Binary64 { bits: TEN }, x)).step());
            let b = step_units(f(Elementary::Pow(Binary64 { bits: TEN }, y)).step());
            lo * (10 * a) <= scale * b && scale * b <= hi * (10 * a)
        }
}

/// Taking 2.5 magnitudes away makes the flux tenfold, as closely as the powers of
/// ten are tenfold.
pub proof fn law_shift_by_two_and_a_half_magnitudes(
    mag: Binary64,
    mag_err: Binary64,
    f: spec_fn(Elementary) -> Binary64,
    lo: nat,
    hi: nat,
    scale: nat,
)
    requires
        mag.step() <= THOUSAND,
        powers_step_tenfold(f, pow2(1033), lo, hi, scale),
        is_normal(flux_of(mag, mag_err, f).0),
        is_normal(flux_of(mag.minus(Binary64 { bits: MAGNITUDE_SCALE }), mag_err, f).0),
    ensures
        ({
            let faint = flux_of(mag, mag_err, f).0;
            let bright = flux_of(mag.minus(Binary64 { bits: MAGNITUDE_SCALE }), mag_err, f).0;
            let a = step_units(faint.step());
            let b = step_units(bright.step());
            lo * (10 * a) <= scale * b && scale * b <= hi * (10 * a)
        }),
{
    law_exponent_of_a_shift(mag);
    let (before, after) = exponents(mag);
    let a = f(Elementary::Pow(Binary64 { bits: TEN }, before));
    let b = f(Elementary::Pow(Binary64 { bits: TEN }, after));
    assert(a == flux_of(mag, mag_err, f).0);
    assert(b == flux_of(mag.minus(Binary64 { bits: MAGNITUDE_SCALE }), mag_err, f).0);
}

/// What is thrice rounded from tenfold values is tenfold up to the roundings.
proof fn lemma_tenfold_errors(x1: nat, y1: nat, x2: nat, y2: nat, lo: nat, hi: nat, scale: nat)
    requires
        thrice_rounded(x1, y1),
        thrice_rounded(x2, y2),
        lo * (10 * x1) <= scale * x2,
        scale * x2 <= hi * (10 * x1),
    ensures
        cube(BINADE - 1) * (scale * y2) <= cube(BINADE + 1) * (hi * (10 * y1)),
        cube(BINADE - 1) * (lo * (10 * y1)) <= cube(BINADE + 1) * (scale * y2),
{
    let e = BINADE as int;
    let l = cube(e - 1);
    let h = cube(e + 1);
    let t = cube(e);
    lemma_cubes(e - 1, x1 as int);
    lemma_cubes(e + 1, x1 as int);
    lemma_cubes(e, y1 as int);
    lemma_cubes(e - 1, x2 as int);
    lemma_cubes(e + 1, x2 as int);
    lemma_cubes(e, y2 as int);
    let (ten_hi, ten_lo) = ((10 * hi) as int, (10 * lo) as int);
    assert(ten_hi * y1 == hi * (10 * y1) && ten_lo * y1 == lo * (10 * y1)) by (nonlinear_arith)
        requires
            ten_hi == 10 * hi,
            ten_lo == 10 * lo,
    ;
    assert(ten_hi * x1 == hi * (10 * x1) && ten_lo * x1 == lo * (10 * x1)) by (nonlinear_arith)
        requires
            ten_hi == 10 * hi,
            ten_lo == 10 * lo,
    ;
    let (x1, y1, x2, y2) = (x1 as int, y1 as int, x2 as int, y2 as int);
    lemma_tenfold(l, h, t, x1, y1, x2, y2, ten_hi, scale as int);
    lemma_tenfold(l, h, t, x2, y2, x1, y1, scale as int, ten_lo);
}

/// The cube of a number.
pub open spec fn cube(e: int) -> int {
    e * (e * e)
}

proof fn lemma_cubes(e: int, x: int)
    requires
        e >= 1,
    ensures
        e * (e * (e * x)) == cube(e) * x,
        cube(e) > 0,
{
    assert(e * (e * (e * x)) == (e * (e * e)) * x) by (nonlinear_arith);
    assert(e * (e * e) > 0) by (nonlinear_arith)
        requires
            e >= 1,
    ;
}

proof fn lemma_tenfold(
    l: int,
    h: int,
    t: int,
    x1: int,
    y1: int,
    x2: int,
    y2: int,
    much: int,
    scale: int,
)
    requires
        l > 0,
        h > 0,
        t > 0,
        l * x1 <= t * y1,
        t * y2 <= h * x2,
        scale * x2 <= much * x1,
        scale >= 0,
        much >= 0,
    ensures
        l * (scale * y2) <= h * (much * y1),
{
    let a = l * (scale * y2);
    let b = h * (much * y1);
    assert(t * a == (l * scale) * (t * y2)) by (nonlinear_arith)
        requires
            a == l * (scale * y2),
    ;
    assert((l * scale) * (t * y2) <= (l * scale) * (h * x2)) by (nonlinear_arith)
        requires
            t * y2 <= h * x2,
            l > 0,
            scale >= 0,
    ;
    assert((l * scale) * (h * x2) == (l * h) * (scale * x2)) by (nonlinear_arith);
    assert((l * h) * (scale * x2) <= (l * h) * (much * x1)) by (nonlinear_arith)
        requires
            scale * x2 <= much * x1,
            l > 0,
            h > 0,
    ;
    assert((l * h) * (much * x1) == (h * much) * (l * x1)) by (nonlinear_arith);
    assert((h * much) * (l * x1) <= (h * much) * (t * y1)) by (nonlinear_arith)
        requires
            l * x1 <= t * y1,
            h > 0,
            much >= 0,
    ;
    assert((h * much) * (t * y1) == t * b) by (nonlinear_arith)
        requires
            b == h * (much * y1),
    ;
    assert(a <= b) by (nonlinear_arith)
        requires
            t * a <= t * b,
            t > 0,
    ;
}

/// Taking 2.5 magnitudes away makes the error of the flux tenfold, as closely as
/// the powers of ten are tenfold and three roundings on either side allow.
pub proof fn law_shift_scales_the_error(
    mag: Binary64,
    mag_err: Binary64,
    f: spec_fn(Elementary) -> Binary64,
    lo: nat,
    hi: nat,
    scale: nat,
)
    requires
        mag.step() <= THOUSAND,
        powers_step_tenfold(f, pow2(1033), lo, hi, scale),
        is_normal(flux_of(mag, mag_err, f).0),
        is_normal(flux_of(mag.minus(Binary64 { bits: MAGNITUDE_SCALE }), mag_err, f).0),
        smooth_error(mag, mag_err, f),
        smooth_error(mag.minus(Binary64 { bits: MAGNITUDE_SCALE }), mag_err, f),
    ensures
        ({
            let faint = flux_of(mag, mag_err, f).1;
            let bright = flux_of(mag.minus(Binary64 { bits: MAGNITUDE_SCALE }), mag_err, f).1;
            let a = step_units(faint.step());
            let b = step_units(bright.step());
            &&& cube(BINADE - 1) * (scale * b) <= cube(BINADE + 1) * (hi * (10 * a))
            &&& cube(BINADE - 1) * (lo * (10 * a)) <= cube(BINADE + 1) * (scale * b)
        }),
{
    let brighter = mag.minus(Binary64 { bits: MAGNITUDE_SCALE });
    let f1 = step_units(flux_of(mag, mag_err, f).0.step());
    let f2 = step_units(flux_of(brighter, mag_err, f).0.step());
    let a = step_units(flux_of(mag, mag_err, f).1.step());
    let b = step_units(flux_of(brighter, mag_err, f).1.step());
    let e = step_units(mag_err.step());
    let l = step_units(LN_10 as nat);
    let c = step_units(MAGNITUDE_SCALE as nat);
    let unit = pow2(UNIT_EXPONENT as nat);
    lemma_scale_values();
    law_shift_by_two_and_a_half_magnitudes(mag, mag_err, f, lo, hi, scale);
    law_error_over_flux(mag, mag_err, f);
    law_error_over_flux(brighter, mag_err, f);
    lemma_weighted(lo * (10 * f1), scale * f2, e * l);
    lemma_weighted(scale * f2, hi * (10 * f1), e * l);
    assert(f1 * e * l == f1 * (e * l) && f2 * e * l == f2 * (e * l)) by (nonlinear_arith);
    let k = e * l;
    assert((lo * (10 * f1)) * k == lo * (10 * (f1 * k))) by (nonlinear_arith);
    assert((hi * (10 * f1)) * k == hi * (10 * (f1 * k))) by (nonlinear_arith);
    assert((scale * f2) * k == scale * (f2 * k)) by (nonlinear_arith);
    lemma_tenfold_errors(f1 * e * l, a * c * unit, f2 * e * l, b * c * unit, lo, hi, scale);
    let w = c * unit;
    assert(w > 0) by (nonlinear_arith)
        requires
            w == c * unit,
            2 * c == 5 * unit,
            unit > 0,
    ;
    assert(a * c * unit == a * w && b * c * unit == b * w) by (nonlinear_arith)
        requires
            w == c * unit,
    ;
    let (less, more) = (cube(BINADE - 1), cube(BINADE + 1));
    let (ten_hi, ten_lo) = ((10 * hi) as int, (10 * lo) as int);
    lemma_cancel_weight(less, scale as int, b as int, more, ten_hi, a as int, w as int);
    lemma_cancel_weight(less, ten_lo, a as int, more, scale as int, b as int, w as int);
    assert(ten_hi * (a * w) == hi * (10 * (a * w)) && ten_lo * (a * w) == lo * (10 * (a * w)))
        by (nonlinear_arith)
        requires
            ten_hi == 10 * hi,
            ten_lo == 10 * lo,
    ;
    assert(ten_hi * a == hi * (10 * a) && ten_lo * a == lo * (10 * a)) by (nonlinear_arith)
        requires
            ten_hi == 10 * hi,
            ten_lo == 10 * lo,
    ;
}

/// A weight on both sides keeps their order.
proof fn lemma_weighted(x: nat, y: nat, k: nat)
    requires
        x <= y,
    ensures
        x * k <= y * k,
{
    assert(x * k <= y * k) by (nonlinear_arith)
        requires
            x <= y,
            k >= 0,
    ;
}

/// A common weight on both sides plays no part.
proof fn lemma_cancel_weight(l: int, s: int, b: int, h: int, m: int, a: int, w: int)
    requires
        w > 0,
    ensures
        l * (s * (b * w)) <= h * (m * (a * w)) ==> l * (s * b) <= h * (m * a),
{
    assert(l * (s * (b * w)) == (l * (s * b)) * w && h * (m * (a * w)) == (h * (m * a)) * w)
        by (nonlinear_arith);
    let x = l * (s * b);
    let y = h * (m * a);
    assert(x * w <= y * w ==> x <= y) by (nonlinear_arith)
        requires
            w > 0,
    ;
}

} // verus!

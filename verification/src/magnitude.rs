//! How the results of arithmetic compare: order, exact cases and scaling.
use crate::binary64::{law_order_is_exact, lemma_negated_units, lemma_units_positive, Binary64};
use crate::ladder::{
    lemma_rounded_exact, lemma_rounded_exists, lemma_step, lemma_step_monotone, rounded,
    step_units, BINADE, INFINITE_STEP, UNIT_EXPONENT,
};
use crate::numbers::{HALF, ONE, TWO};
use vstd::arithmetic::power2::{
    lemma2_to64, lemma2_to64_rest, lemma_pow2_adds, lemma_pow2_pos, lemma_pow2_unfold, pow2,
};
use vstd::prelude::*;

verus! {

/// A lower step is no higher in value.
pub proof fn lemma_units_ordered(a: nat, b: nat)
    requires
        a <= b,
    ensures
        step_units(a) <= step_units(b),
{
    if a < b {
        lemma_step_monotone(a, b);
    }
}

/// The value of a number on a step up to `m`.
pub proof fn lemma_units_within(x: Binary64, m: nat)
    requires
        x.step() <= m,
    ensures
        -(step_units(m) as int) <= x.units() <= step_units(m),
{
    lemma_units_ordered(x.step(), m);
}

/// Rounding keeps the order of values.
pub proof fn lemma_rounded_ordered(n1: nat, d1: nat, n2: nat, d2: nat)
    requires
        d1 > 0,
        d2 > 0,
        n1 * d2 <= n2 * d1,
    ensures
        rounded(n1, d1) <= rounded(n2, d2),
{
    let r1 = rounded(n1, d1);
    let r2 = rounded(n2, d2);
    lemma_rounded_exists(n1, d1);
    lemma_rounded_exists(n2, d2);
    if r1 > r2 {
        let mid1 = step_units((r1 - 1) as nat) + step_units(r1);
        let mid2 = step_units(r2) + step_units(r2 + 1);
        lemma_units_ordered(r2, (r1 - 1) as nat);
        lemma_units_ordered(r2 + 1, r1);
        if r1 > r2 + 1 {
            lemma_step_monotone(r2, (r1 - 1) as nat);
        }
        assert(mid1 * d1 * d2 <= 2 * n1 * d2) by (nonlinear_arith)
            requires
                mid1 * d1 <= 2 * n1,
                d2 > 0,
        ;
        assert(2 * n2 * d1 <= mid2 * d2 * d1) by (nonlinear_arith)
            requires
                2 * n2 <= mid2 * d2,
                d1 > 0,
        ;
        assert(2 * n1 * d2 <= 2 * n2 * d1) by (nonlinear_arith)
            requires
                n1 * d2 <= n2 * d1,
        ;
        assert(mid1 <= mid2) by (nonlinear_arith)
            requires
                mid1 * d1 * d2 <= mid2 * d2 * d1,
                d1 > 0,
                d2 > 0,
        ;
        assert(mid1 == mid2 && r1 == r2 + 1);
        assert(mid1 * d1 == 2 * n1 && 2 * n2 == mid2 * d2) by (nonlinear_arith)
            requires
                mid1 == mid2,
                d1 > 0,
                d2 > 0,
                mid1 * d1 <= 2 * n1,
                2 * n2 <= mid2 * d2,
                n1 * d2 <= n2 * d1,
        ;
    }
}

/// What does not exceed a step rounds to no more.
pub proof fn lemma_rounded_at_most(n: nat, d: nat, m: nat)
    requires
        d > 0,
        m < INFINITE_STEP,
        n <= step_units(m) * d,
    ensures
        rounded(n, d) <= m,
{
    lemma_rounded_exact(m, d);
    assert(n * d <= (step_units(m) * d) * d) by (nonlinear_arith)
        requires
            n <= step_units(m) * d,
            d > 0,
    ;
    lemma_rounded_ordered(n, d, step_units(m) * d, d);
}

/// A sum that does not exceed a step exactly does not exceed it rounded.
pub proof fn lemma_sum_at_most(a: Binary64, b: Binary64, m: nat)
    requires
        a.is_finite(),
        b.is_finite(),
        m < INFINITE_STEP,
        -(step_units(m) as int) <= a.units() + b.units() <= step_units(m),
    ensures
        a.plus(b).step() <= m,
{
    reveal(Binary64::spec_plus);
    let exact = a.units() + b.units();
    if exact < 0 {
        lemma_rounded_at_most((-exact) as nat, 1, m);
    } else {
        lemma_rounded_at_most(exact as nat, 1, m);
    }
}

/// A product that does not exceed a step exactly does not exceed it rounded.
pub proof fn lemma_product_at_most(a: Binary64, b: Binary64, m: nat)
    requires
        a.is_finite(),
        b.is_finite(),
        m < INFINITE_STEP,
        step_units(a.step()) * step_units(b.step()) <= step_units(m) * pow2(UNIT_EXPONENT as nat),
    ensures
        a.times(b).step() <= m,
{
    reveal(Binary64::spec_times);
    lemma_pow2_pos(UNIT_EXPONENT as nat);
    lemma_rounded_at_most(
        step_units(a.step()) * step_units(b.step()),
        pow2(UNIT_EXPONENT as nat),
        m,
    );
}

/// Sums are ordered as their exact values are.
pub proof fn law_sums_are_ordered(a: Binary64, b: Binary64, c: Binary64, d: Binary64)
    requires
        a.is_finite(),
        b.is_finite(),
        c.is_finite(),
        d.is_finite(),
        a.units() + b.units() <= c.units() + d.units(),
    ensures
        a.plus(b).le(c.plus(d)),
{
    reveal(Binary64::spec_plus);
    let x = a.units() + b.units();
    let y = c.units() + d.units();
    if x < 0 {
        lemma_rounded_exists((-x) as nat, 1);
    } else {
        lemma_rounded_exists(x as nat, 1);
    }
    if y < 0 {
        lemma_rounded_exists((-y) as nat, 1);
        lemma_rounded_ordered((-y) as nat, 1, (-x) as nat, 1);
    } else {
        lemma_rounded_exists(y as nat, 1);
        if x >= 0 {
            lemma_rounded_ordered(x as nat, 1, y as nat, 1);
        }
    }
}

/// Adding zero changes no value.
pub proof fn law_adding_zero(a: Binary64, z: Binary64)
    requires
        a.is_finite(),
        z.same_value(Binary64::zero()),
    ensures
        a.plus(z).same_value(a),
{
    reveal(Binary64::spec_plus);
    lemma_units_positive(a.step());
    lemma_units_positive(z.step());
    lemma_rounded_exact(a.step(), 1);
}

/// The value of one is the unit of the ladder of magnitudes.
pub proof fn lemma_one_is_unit()
    ensures
        step_units(ONE as nat) == pow2(UNIT_EXPONENT as nat),
        pow2(UNIT_EXPONENT as nat) > 0,
{
    lemma_step(1022, BINADE as nat);
    lemma_pow2_adds(52, 1022);
    lemma2_to64();
    lemma2_to64_rest();
    lemma_pow2_pos(UNIT_EXPONENT as nat);
}

/// A finite number times one is itself.
pub proof fn law_times_one(a: Binary64)
    requires
        a.is_finite(),
    ensures
        a.times(Binary64 { bits: ONE }) == a,
        (Binary64 { bits: ONE }).times(a) == a,
{
    reveal(Binary64::spec_times);
    lemma_one_is_unit();
    let unit = pow2(UNIT_EXPONENT as nat);
    lemma_rounded_exact(a.step(), unit);
    assert(unit * step_units(a.step()) == step_units(a.step()) * unit) by (nonlinear_arith);
}

/// One and one make two, and half of that is one.
pub proof fn law_mean_of_ones()
    ensures
        (Binary64 { bits: HALF }).times(
            (Binary64 { bits: ONE }).plus(Binary64 { bits: ONE }),
        ) == (Binary64 { bits: ONE }),
{
    reveal(Binary64::spec_plus);
    reveal(Binary64::spec_times);
    lemma_one_is_unit();
    let unit = pow2(UNIT_EXPONENT as nat);
    let one = Binary64 { bits: ONE };
    let two = Binary64 { bits: TWO };
    lemma2_to64();
    lemma2_to64_rest();
    lemma_pow2_unfold(1023);
    lemma_pow2_unfold(1022);
    lemma_step(1023, BINADE as nat);
    lemma_step(1021, BINADE as nat);
    lemma_step(1022, BINADE as nat);
    let p = pow2(1021);
    assert(step_units(TWO as nat) == 2 * unit && 2 * step_units(HALF as nat) == unit) by {
        assert(BINADE as nat * (2 * pow2(1022)) == 2 * (BINADE as nat * pow2(1022)))
            by (nonlinear_arith);
        assert(BINADE as nat * (2 * p) == 2 * (BINADE as nat * p)) by (nonlinear_arith);
    }
    lemma_rounded_exact(TWO as nat, 1);
    assert(one.units() + one.units() == step_units(TWO as nat) * 1);
    assert(one.plus(one) == two);
    lemma_rounded_exact(ONE as nat, unit);
    assert(step_units(HALF as nat) * step_units(TWO as nat) == step_units(ONE as nat) * unit)
        by (nonlinear_arith)
        requires
            step_units(TWO as nat) == 2 * unit,
            2 * step_units(HALF as nat) == unit,
            step_units(ONE as nat) == unit,
    ;
}

/// The difference of two numbers in order is above zero.
pub proof fn law_difference_in_order(low: Binary64, high: Binary64)
    requires
        low.lt(high),
    ensures
        Binary64::zero().lt(high.minus(low)),
{
    reveal(Binary64::spec_plus);
    lemma_negated_units(low);
    if low.is_finite() && high.is_finite() {
        law_order_is_exact(low, high);
        let exact = high.units() - low.units();
        lemma_rounded_exists(exact as nat, 1);
        lemma_one_step();
        lemma_rounded_exact(1, 1);
        lemma_rounded_ordered(1, 1, exact as nat, 1);
    }
}

/// The first step is one unit.
proof fn lemma_one_step()
    ensures
        step_units(1) == 1,
{
    lemma_step(0, 1);
    lemma2_to64();
}

/// Opposite multiples of a positive number are in order.
pub proof fn law_opposite_multiples(part: Binary64, span: Binary64)
    requires
        Binary64::zero().lt(span),
        Binary64::zero().lt(part),
        part.is_finite(),
    ensures
        part.negated().times(span).le(part.times(span)),
{
    reveal(Binary64::spec_times);
    lemma_negated_units(part);
    lemma_one_is_unit();
    if span.is_finite() {
        lemma_rounded_exists(
            step_units(part.step()) * step_units(span.step()),
            pow2(UNIT_EXPONENT as nat),
        );
    }
}

/// Where arithmetic gives a number: on finite terms, on terms without a sign, on
/// squares, and on a finite divisor other than zero.
pub proof fn law_results_are_numbers(a: Binary64, b: Binary64)
    ensures
        a.is_finite() && b.is_finite() ==> !a.plus(b).is_nan() && !a.minus(b).is_nan()
            && !a.times(b).is_nan(),
        !a.is_nan() && !b.is_nan() && !a.negative() && !b.negative() ==> !a.plus(b).is_nan(),
        !a.is_nan() ==> !a.times(a).is_nan(),
        !a.is_nan() && b.is_finite() && !b.same_value(Binary64::zero()) ==> !a.over(b).is_nan(),
{
    reveal(Binary64::spec_plus);
    reveal(Binary64::spec_times);
    reveal(Binary64::spec_over);
    lemma_one_is_unit();
    let unit = pow2(UNIT_EXPONENT as nat);
    let sum = a.units() + b.units();
    lemma_negated_units(b);
    let difference = a.units() - b.units();
    if sum < 0 {
        lemma_rounded_exists((-sum) as nat, 1);
    } else {
        lemma_rounded_exists(sum as nat, 1);
    }
    if difference < 0 {
        lemma_rounded_exists((-difference) as nat, 1);
    } else {
        lemma_rounded_exists(difference as nat, 1);
    }
    lemma_rounded_exists(step_units(a.step()) * step_units(b.step()), unit);
    lemma_rounded_exists(step_units(a.step()) * step_units(a.step()), unit);
    lemma_units_positive(b.step());
    if step_units(b.step()) > 0 {
        lemma_rounded_exists(step_units(a.step()) * unit, step_units(b.step()));
    }
}

/// A count other than zero is a finite number above zero.
pub proof fn law_counts_are_positive(n: u64)
    requires
        n > 0,
    ensures
        Binary64::of_count(n).is_finite(),
        Binary64::zero().lt(Binary64::of_count(n)),
{
    reveal(Binary64::spec_of_count);
    lemma_one_is_unit();
    let unit = pow2(UNIT_EXPONENT as nat);
    lemma2_to64();
    lemma2_to64_rest();
    lemma_step(1086, BINADE as nat);
    lemma_pow2_adds(52, 1086);
    lemma_pow2_adds(64, 1074);
    let top: nat = 0x43f0_0000_0000_0000;
    assert(step_units(top) == pow2(64) * unit);
    assert(n * unit <= step_units(top) * 1 && unit * 1 <= n * unit) by (nonlinear_arith)
        requires
            0 < n <= pow2(64),
            unit > 0,
            step_units(top) == pow2(64) * unit,
    ;
    lemma_rounded_at_most(n as nat * unit, 1, top);
    lemma_rounded_exact(ONE as nat, 1);
    lemma_rounded_ordered(unit, 1, n as nat * unit, 1);
}

/// The larger of two magnitudes has the larger square.
pub proof fn law_squares_are_ordered(a: Binary64, b: Binary64)
    requires
        a.step() <= b.step(),
        !b.is_nan(),
    ensures
        a.times(a).le(b.times(b)),
{
    reveal(Binary64::spec_times);
    lemma_one_is_unit();
    let unit = pow2(UNIT_EXPONENT as nat);
    let x = step_units(a.step());
    let y = step_units(b.step());
    lemma_units_ordered(a.step(), b.step());
    lemma_rounded_exists(x * x, unit);
    lemma_rounded_exists(y * y, unit);
    assert((x * x) * unit <= (y * y) * unit) by (nonlinear_arith)
        requires
            0 <= x <= y,
            unit > 0,
    ;
    lemma_rounded_ordered(x * x, unit, y * y, unit);
}

/// Quotients of numbers without a sign by one positive number are ordered as the
/// numbers are.
pub proof fn law_quotients_are_ordered(a: Binary64, b: Binary64, d: Binary64)
    requires
        a.le(b),
        !a.negative(),
        !b.negative(),
        d.is_finite(),
        Binary64::zero().lt(d),
    ensures
        a.over(d).le(b.over(d)),
{
    reveal(Binary64::spec_over);
    let unit = pow2(UNIT_EXPONENT as nat);
    let v = step_units(d.step());
    let x = step_units(a.step());
    let y = step_units(b.step());
    lemma_units_positive(d.step());
    lemma_units_ordered(a.step(), b.step());
    lemma_rounded_exists(x * unit, v);
    lemma_rounded_exists(y * unit, v);
    assert((x * unit) * v <= (y * unit) * v) by (nonlinear_arith)
        requires
            0 <= x <= y,
            unit >= 0,
            v >= 0,
    ;
    lemma_rounded_ordered(x * unit, v, y * unit, v);
}

/// Sums of numbers without a sign are ordered as their terms are.
pub proof fn law_sums_of_magnitudes_are_ordered(
    a: Binary64,
    b: Binary64,
    c: Binary64,
    d: Binary64,
)
    requires
        a.le(c),
        b.le(d),
        !a.negative(),
        !b.negative(),
        !c.negative(),
        !d.negative(),
    ensures
        a.plus(b).le(c.plus(d)),
{
    if c.is_finite() && d.is_finite() {
        law_order_is_exact(a, c);
        law_order_is_exact(b, d);
        law_sums_are_ordered(a, b, c, d);
    } else {
        reveal(Binary64::spec_plus);
        let sum = a.units() + b.units();
        lemma_rounded_exists(sum as nat, 1);
    }
}

} // verus!

//! The results of arithmetic, told by the exact ones.
//!
//! Of all finite numbers, what an operation gives is the one nearest to the exact
//! result, and of two equally near ones that with an even significand.
use crate::binary64::{lemma_negated_units, lemma_units_positive, signed, Binary64};
use crate::ladder::{
    lemma_rounded_exists, lemma_step_monotone, rounded, rounds_to, step_units, INFINITE_STEP,
    UNIT_EXPONENT,
};
use crate::magnitude::{lemma_one_is_unit, lemma_rounded_at_most};
use crate::numbers::{INFINITY, MINUS_INFINITY};
use vstd::arithmetic::power2::pow2;
use vstd::math::abs;
use vstd::prelude::*;

verus! {

/// What a bit pattern stands for: the top bit is the sign, the next eleven the
/// exponent, the rest the significand. Values count in units of 2^-1074; the greatest
/// exponent is for infinities and not-a-number.
pub proof fn law_bits_are_values(a: Binary64)
    ensures
        ({
            let exponent = (a.bits as int / 0x10_0000_0000_0000) % 2048;
            let fraction = a.bits as int % 0x10_0000_0000_0000;
            &&& a.negative() <==> a.bits as int / 0x8000_0000_0000_0000 == 1
            &&& a.is_nan() <==> exponent == 2047 && fraction != 0
            &&& a.is_finite() <==> exponent < 2047
            &&& exponent == 0 ==> abs(a.units()) == fraction
            &&& 0 < exponent < 2047 ==> abs(a.units()) == (0x10_0000_0000_0000 + fraction) * pow2(
                (exponent - 1) as nat,
            )
            &&& a.negative() ==> a.units() <= 0
            &&& !a.negative() ==> a.units() >= 0
        }),
{
    let b: int = 0x10_0000_0000_0000;
    let m = a.step() as int;
    assert(vstd::arithmetic::power2::pow2(0) == 1) by {
        vstd::arithmetic::power2::lemma2_to64();
    }
    if a.negative() {
        assert(a.bits as int == m + 2048 * b);
        assert((m + 2048 * b) / b == m / b + 2048);
        assert((m + 2048 * b) % b == m % b);
    }
    assert(0 <= m / b < 2048);
    let k = crate::ladder::step_shift(a.step());
    let hi = crate::ladder::step_significand(a.step());
    if m < b {
        assert(hi * pow2(0) == hi) by (nonlinear_arith)
            requires
                pow2(0) == 1,
        ;
    }
}

/// Comparisons: not-a-number compares with nothing; the infinities lie beyond all
/// other numbers; finite numbers compare by value, and the two zeros are of one value.
pub proof fn law_comparisons(a: Binary64, b: Binary64)
    ensures
        a.is_nan() || b.is_nan() ==> !a.lt(b) && !a.le(b) && !a.same_value(b),
        !a.is_nan() && !b.is_nan() ==> (a.le(b) <==> !b.lt(a)) && (a.same_value(b) <==> a.le(b)
            && b.le(a)),
        a.is_finite() && b.is_finite() ==> (a.lt(b) <==> a.units() < b.units()),
        a.is_finite() ==> a.lt(Binary64 { bits: INFINITY }) && (Binary64 {
            bits: MINUS_INFINITY,
        }).lt(a),
        (Binary64 { bits: MINUS_INFINITY }).lt(Binary64 { bits: INFINITY }),
        !(Binary64 { bits: INFINITY }).lt(a),
        !a.lt(Binary64 { bits: MINUS_INFINITY }),
{
    if a.is_finite() && b.is_finite() {
        crate::binary64::law_order_is_exact(a, b);
    }
}

/// The lesser and the greater of two numbers, and a number kept between two others.
/// The first of two stands unless the other is strictly beyond it or it is
/// not-a-number; a number that is within its bounds, or no number, is kept.
pub proof fn law_choices(a: Binary64, b: Binary64, low: Binary64, high: Binary64)
    ensures
        !a.is_nan() && !b.lt(a) ==> a.min(b) == a,
        a.is_nan() || b.lt(a) ==> a.min(b) == b,
        !a.is_nan() && !a.lt(b) ==> a.max(b) == a,
        a.is_nan() || a.lt(b) ==> a.max(b) == b,
        a.lt(low) ==> a.clamp(low, high) == low,
        high.lt(a) && !a.lt(low) ==> a.clamp(low, high) == high,
        !a.lt(low) && !high.lt(a) ==> a.clamp(low, high) == a,
        a.negated().negative() != a.negative(),
        a.negated().step() == a.step(),
        a.negated().negated() == a,
{
}

/// No step is nearer than the one that is rounded to, and where another is as near, it
/// is even.
proof fn lemma_no_step_is_nearer(n: nat, d: nat, m: nat, k: nat)
    requires
        d > 0,
        rounds_to(n, d, m),
        m < INFINITE_STEP,
    ensures
        abs(step_units(m) * d - n) <= abs(step_units(k) * d - n),
        k != m && abs(step_units(m) * d - n) == abs(step_units(k) * d - n) ==> m % 2 == 0,
{
    let um = step_units(m);
    let uk = step_units(k);
    if k < m {
        let ul = step_units((m - 1) as nat);
        lemma_step_monotone((m - 1) as nat, m);
        if k < m - 1 {
            lemma_step_monotone(k, (m - 1) as nat);
        }
        assert(uk * d <= ul * d && ul * d < um * d && (ul + um) * d == ul * d + um * d && (uk < ul
            ==> uk * d < ul * d)) by (nonlinear_arith)
            requires
                uk <= ul < um,
                d > 0,
        ;
    } else if k > m {
        let uh = step_units(m + 1);
        lemma_step_monotone(m, m + 1);
        if k > m + 1 {
            lemma_step_monotone(m + 1, k);
        }
        assert(uh * d <= uk * d && um * d < uh * d && (um + uh) * d == um * d + uh * d && (uh < uk
            ==> uh * d < uk * d)) by (nonlinear_arith)
            requires
                um < uh <= uk,
                d > 0,
        ;
    }
}

/// No finite number is nearer to an exact value n / d, taken with its sign, than what
/// its magnitude rounds to, taken with that sign.
proof fn lemma_no_number_is_nearer(minus: bool, n: nat, d: nat, c: Binary64)
    requires
        d > 0,
        rounded(n, d) < INFINITE_STEP,
        c.is_finite(),
    ensures
        ({
            let r = signed(minus, rounded(n, d));
            let exact = if minus {
                -(n as int)
            } else {
                n as int
            };
            &&& r.is_finite()
            &&& abs(r.units() * d - exact) <= abs(c.units() * d - exact)
            &&& !c.same_value(r) && abs(r.units() * d - exact) == abs(c.units() * d - exact)
                ==> r.step() % 2 == 0
        }),
{
    let m = rounded(n, d);
    let r = signed(minus, m);
    let k = c.step();
    let um = step_units(m);
    let uk = step_units(k);
    lemma_rounded_exists(n, d);
    lemma_no_step_is_nearer(n, d, m, k);
    lemma_no_step_is_nearer(n, d, m, 0);
    lemma_units_positive(0);
    lemma_units_positive(k);
    lemma_units_positive(m);
    assert(r.step() == m && r.negative() == minus);
    assert((-(um as int)) * d == -(um * d) && (-(uk as int)) * d == -(uk * d) && uk * d >= 0 && um
        * d >= 0 && 0 * d == 0 && (uk > 0 ==> uk * d > 0)) by (nonlinear_arith)
        requires
            d > 0,
    ;
    if c.negative() == minus {
        assert(k == m ==> c.same_value(r));
    } else {
        assert(abs(um * d - n) <= n);
        if k == 0 {
            assert(m == 0 ==> c.same_value(r));
        }
    }
}

/// The sum of two finite numbers, where it is finite, is nearest to the exact sum; and
/// it is finite where the exact sum is no further from zero than some finite number.
pub proof fn law_sum_is_nearest(a: Binary64, b: Binary64, c: Binary64)
    requires
        a.is_finite(),
        b.is_finite(),
        c.is_finite(),
    ensures
        ({
            let exact = a.units() + b.units();
            let r = a.plus(b);
            &&& r.is_finite() ==> abs(r.units() - exact) <= abs(c.units() - exact)
            &&& r.is_finite() && !c.same_value(r) && abs(r.units() - exact) == abs(
                c.units() - exact,
            ) ==> r.step() % 2 == 0
            &&& abs(exact) <= abs(c.units()) ==> r.is_finite()
            &&& exact < 0 ==> r.negative()
            &&& exact > 0 ==> !r.negative()
            &&& exact == 0 ==> (r.negative() <==> a.negative() && b.negative())
            &&& a.minus(b) == a.plus(b.negated())
        }),
{
    reveal(Binary64::spec_plus);
    let exact = a.units() + b.units();
    let n = abs(exact);
    lemma_rounded_exists(n, 1);
    if rounded(n, 1) < INFINITE_STEP {
        lemma_no_number_is_nearer(exact < 0, n, 1, c);
    }
    if n <= abs(c.units()) {
        lemma_rounded_at_most(n, 1, c.step());
    }
    if exact == 0 {
        lemma_units_positive(0);
        crate::binary64::lemma_rounded_zero(1);
    }
}

/// The product of two finite numbers, where it is finite, is nearest to the exact
/// product, and has the sign of the exact one.
pub proof fn law_product_is_nearest(a: Binary64, b: Binary64, c: Binary64)
    requires
        a.is_finite(),
        b.is_finite(),
        c.is_finite(),
    ensures
        ({
            let one = pow2(UNIT_EXPONENT as nat);
            let exact = a.units() * b.units();
            let r = a.times(b);
            &&& !r.is_nan()
            &&& r.negative() <==> a.negative() != b.negative()
            &&& r.is_finite() ==> abs(r.units() * one - exact) <= abs(c.units() * one - exact)
            &&& r.is_finite() && !c.same_value(r) && abs(r.units() * one - exact) == abs(
                c.units() * one - exact,
            ) ==> r.step() % 2 == 0
            &&& abs(exact) <= abs(c.units() * one) ==> r.is_finite()
        }),
{
    reveal(Binary64::spec_times);
    lemma_one_is_unit();
    let one = pow2(UNIT_EXPONENT as nat);
    let ua = step_units(a.step());
    let ub = step_units(b.step());
    let exact = a.units() * b.units();
    let n = ua * ub;
    let minus = a.negative() != b.negative();
    assert(exact == if minus { -(n as int) } else { n as int }) by {
        assert((-(ua as int)) * ub == -(ua * ub)) by (nonlinear_arith);
        assert(ua * (-(ub as int)) == -(ua * ub)) by (nonlinear_arith);
        assert((-(ua as int)) * (-(ub as int)) == ua * ub) by (nonlinear_arith);
    }
    lemma_rounded_exists(n, one);
    if rounded(n, one) < INFINITE_STEP {
        lemma_no_number_is_nearer(minus, n, one, c);
    }
    lemma_abs_of_multiple(c, one);
    assert(abs(exact) == n);
    if n <= step_units(c.step()) * one {
        lemma_rounded_at_most(n, one, c.step());
    }
}

proof fn lemma_abs_of_multiple(c: Binary64, one: nat)
    ensures
        abs(c.units() * one) == step_units(c.step()) * one,
{
    let u = step_units(c.step());
    assert((-(u as int)) * one == -(u * one) && u * one >= 0) by (nonlinear_arith);
}

/// The quotient of two finite numbers, the divisor not zero, is where it is finite
/// nearest to the exact quotient, and has the sign of the exact one.
pub proof fn law_quotient_is_nearest(a: Binary64, b: Binary64, c: Binary64)
    requires
        a.is_finite(),
        b.is_finite(),
        c.is_finite(),
        !b.same_value(Binary64::zero()),
    ensures
        ({
            let one = pow2(UNIT_EXPONENT as nat);
            let exact = abs(a.units()) * one;
            let r = a.over(b);
            &&& !r.is_nan()
            &&& r.negative() <==> a.negative() != b.negative()
            &&& r.is_finite() ==> abs(abs(r.units()) * abs(b.units()) - exact) <= abs(
                abs(c.units()) * abs(b.units()) - exact,
            )
            &&& r.is_finite() && abs(c.units()) != abs(r.units()) && abs(
                abs(r.units()) * abs(b.units()) - exact,
            ) == abs(abs(c.units()) * abs(b.units()) - exact) ==> r.step() % 2 == 0
            &&& exact <= abs(c.units()) * abs(b.units()) ==> r.is_finite()
        }),
{
    reveal(Binary64::spec_over);
    lemma_one_is_unit();
    let one = pow2(UNIT_EXPONENT as nat);
    let d = step_units(b.step());
    let n = step_units(a.step()) * one;
    lemma_units_positive(b.step());
    lemma_rounded_exists(n, d);
    let m = rounded(n, d);
    if m < INFINITE_STEP {
        lemma_no_step_is_nearer(n, d, m, c.step());
    }
    if n <= step_units(c.step()) * d {
        lemma_rounded_at_most(n, d, c.step());
    }
}

/// What arithmetic makes of infinities, zeros and not-a-number.
pub proof fn law_special_results(a: Binary64, b: Binary64)
    ensures
        a.is_nan() || b.is_nan() ==> a.plus(b).is_nan() && a.minus(b).is_nan() && a.times(
            b,
        ).is_nan() && a.over(b).is_nan(),
        a.is_infinite() && b.is_infinite() && a.negative() != b.negative() ==> a.plus(b).is_nan(),
        a.is_infinite() && !b.is_nan() && (b.is_finite() || a.negative() == b.negative())
            ==> a.plus(b) == a,
        a.is_finite() && b.is_infinite() ==> a.plus(b) == b,
        a.is_infinite() && b.step() == 0 ==> a.times(b).is_nan() && b.times(a).is_nan(),
        a.is_infinite() && !b.is_nan() && b.step() != 0 ==> a.times(b).is_infinite() && b.times(
            a,
        ).is_infinite(),
        a.is_infinite() && b.is_infinite() ==> a.over(b).is_nan(),
        a.is_infinite() && b.is_finite() ==> a.over(b).is_infinite(),
        a.is_finite() && b.is_infinite() ==> a.over(b).step() == 0,
        a.step() == 0 && b.step() == 0 ==> a.over(b).is_nan(),
        a.is_finite() && a.step() != 0 && b.step() == 0 ==> a.over(b).is_infinite(),
        !a.times(b).is_nan() ==> (a.times(b).negative() <==> a.negative() != b.negative()),
        !a.over(b).is_nan() ==> (a.over(b).negative() <==> a.negative() != b.negative()),
{
    reveal(Binary64::spec_plus);
    reveal(Binary64::spec_times);
    reveal(Binary64::spec_over);
    lemma_negated_units(b);
    lemma_one_is_unit();
    lemma_rounded_exists(
        step_units(a.step()) * step_units(b.step()),
        pow2(UNIT_EXPONENT as nat),
    );
    lemma_units_positive(b.step());
    if step_units(b.step()) > 0 {
        lemma_rounded_exists(
            step_units(a.step()) * pow2(UNIT_EXPONENT as nat),
            step_units(b.step()),
        );
    }
}

/// A count as a number is nearest to the count.
pub proof fn law_count_is_nearest(n: u64, c: Binary64)
    requires
        c.is_finite(),
    ensures
        ({
            let exact = n * pow2(UNIT_EXPONENT as nat);
            let r = Binary64::of_count(n);
            &&& !r.negative()
            &&& r.is_finite() ==> abs(r.units() - exact) <= abs(c.units() - exact)
            &&& r.is_finite() && !c.same_value(r) && abs(r.units() - exact) == abs(
                c.units() - exact,
            ) ==> r.step() % 2 == 0
        }),
{
    reveal(Binary64::spec_of_count);
    let exact = n as nat * pow2(UNIT_EXPONENT as nat);
    lemma_rounded_exists(exact, 1);
    if rounded(exact, 1) < INFINITE_STEP {
        lemma_no_number_is_nearer(false, exact, 1, c);
    }
}

} // verus!

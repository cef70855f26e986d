//! Intervals that hold something, however short a light curve is.
use crate::binary64::{
    law_order_is_exact, lemma_negated_units, lemma_units_positive, Binary64, SIGN,
};
use crate::ladder::{
    lemma_rounded_exact, lemma_rounded_exists, lemma_step, lemma_step_monotone, lemma_step_parts,
    rounded, step_shift, step_significand, step_units, BINADE, INFINITE_STEP, UNIT_EXPONENT,
};
use crate::magnitude::{
    law_adding_zero, law_difference_in_order, law_sums_are_ordered, lemma_one_is_unit,
    lemma_product_at_most, lemma_rounded_ordered, lemma_units_ordered,
};
use crate::numbers::{HUNDREDTH, ONE, TEN, TWO};
use vstd::arithmetic::div_mod::{
    lemma_div_is_ordered, lemma_fundamental_div_mod, lemma_fundamental_div_mod_converse,
};
use vstd::arithmetic::power2::{
    lemma2_to64, lemma2_to64_rest, lemma_pow2_adds, lemma_pow2_pos, lemma_pow2_strictly_increases,
    lemma_pow2_unfold, pow2,
};
use vstd::prelude::*;

verus! {

/// A hundredth of a positive number is below ten of it.
pub proof fn law_hundredth_is_below_tenfold(span: Binary64)
    requires
        Binary64::zero().lt(span),
        (Binary64 { bits: HUNDREDTH }).times(span).is_finite(),
    ensures
        (Binary64 { bits: HUNDREDTH }).times(span).lt((Binary64 { bits: TEN }).times(span)),
{
    reveal(Binary64::spec_times);
    let part = Binary64 { bits: HUNDREDTH };
    let ten = Binary64 { bits: TEN };
    assert(span.is_finite());
    let m = span.step();
    let v = step_units(m);
    let unit = pow2(UNIT_EXPONENT as nat);
    lemma_one_is_unit();
    lemma_units_positive(m);
    lemma_units_ordered(part.step(), ONE as nat);
    assert(step_units(part.step()) * v <= v * unit) by (nonlinear_arith)
        requires
            0 <= step_units(part.step()) <= unit,
            v >= 0,
    ;
    lemma_product_at_most(part, span, m);
    let n = step_units(ten.step()) * v;
    let r = rounded(n, unit);
    lemma_rounded_exists(n, unit);
    lemma_rounded_exists(step_units(part.step()) * v, unit);
    if r <= m {
        lemma_step_at_most_doubles(m);
        lemma_units_ordered(r, m);
        lemma_units_ordered(r + 1, m + 1);
        lemma_two_is_twice();
        lemma_units_ordered(TWO as nat, ten.step());
        let high = step_units(r) + step_units(r + 1);
        assert(high * unit < 2 * n) by (nonlinear_arith)
            requires
                high <= 3 * v,
                n == step_units(ten.step()) * v,
                step_units(ten.step()) >= 2 * unit,
                v > 0,
                unit > 0,
        ;
    }
}

/// Two is two units of one.
proof fn lemma_two_is_twice()
    ensures
        step_units(TWO as nat) == 2 * pow2(UNIT_EXPONENT as nat),
{
    lemma_one_is_unit();
    lemma_pow2_unfold(1023);
    lemma_step(1023, BINADE as nat);
    lemma_step(1022, BINADE as nat);
    assert(BINADE as nat * (2 * pow2(1022)) == 2 * (BINADE as nat * pow2(1022)))
        by (nonlinear_arith);
}

/// A step above the first is at most twice the one below it.
proof fn lemma_step_at_most_doubles(m: nat)
    requires
        m > 0,
    ensures
        step_units(m + 1) <= 2 * step_units(m),
{
    lemma_step_parts(m);
    let (k, hi) = (step_shift(m), step_significand(m));
    lemma_step(k, hi);
    assert((hi + 1) * pow2(k) <= 2 * (hi * pow2(k))) by (nonlinear_arith)
        requires
            hi >= 1,
            pow2(k) >= 0,
    ;
}

/// A power of two is a step.
proof fn lemma_power_step(j: nat) -> (m: nat)
    requires
        j < 2045,
    ensures
        m < INFINITE_STEP,
        step_units(m) == pow2(j),
{
    lemma2_to64();
    lemma2_to64_rest();
    if j < 52 {
        lemma_pow2_strictly_increases(j, 52);
        lemma_step(0, pow2(j));
        assert(pow2(j) * 1 == pow2(j));
        pow2(j)
    } else {
        let k = (j - 52) as nat;
        lemma_step(k, BINADE as nat);
        lemma_pow2_adds(52, k);
        k * BINADE as nat + BINADE as nat
    }
}

/// The spacing above a step, and that it is no finer than the one below and at most
/// twice as wide.
proof fn lemma_spacing(m: nat) -> (k: nat)
    requires
        m <= 0x7f90_0000_0000_0000,
    ensures
        k < 2045,
        step_units(m + 1) == step_units(m) + pow2(k),
        m > 0 ==> step_units(m) <= step_units((m - 1) as nat) + pow2(k),
        m > 0 ==> pow2(k) <= 2 * (step_units(m) - step_units((m - 1) as nat)),
{
    lemma_step_parts(m);
    let (k, hi) = (step_shift(m), step_significand(m));
    lemma_step(k, hi);
    assert((hi + 1) * pow2(k) == hi * pow2(k) + pow2(k)) by (nonlinear_arith);
    if m >= BINADE {
        lemma_div_is_ordered(m as int, 0x7f90_0000_0000_0000, BINADE as int);
    }
    if m > 0 {
        let l = (m - 1) as nat;
        lemma_step_parts(l);
        let (kl, hl) = (step_shift(l), step_significand(l));
        lemma_step(kl, hl);
        assert((hl + 1) * pow2(kl) == hl * pow2(kl) + pow2(kl)) by (nonlinear_arith);
        assert(kl == k || kl + 1 == k) by {
            if m >= BINADE {
                lemma_neighbour_shift(m);
            }
        }
        if k > 0 {
            lemma_pow2_unfold(k);
        }
        lemma_pow2_pos(kl);
    }
    k
}

/// Neighbouring steps have the same scale, or the next.
proof fn lemma_neighbour_shift(m: nat)
    requires
        m >= BINADE,
    ensures
        step_shift((m - 1) as nat) == step_shift(m) || step_shift((m - 1) as nat) + 1 == step_shift(
            m,
        ),
{
    let b = BINADE as int;
    let l = m - 1;
    lemma_fundamental_div_mod(m as int, b);
    let (q, r) = (m as int / b, m as int % b);
    if r > 0 {
        lemma_fundamental_div_mod_converse(l, b, q, r - 1);
    } else {
        assert(l == b * (q - 1) + (b - 1)) by (nonlinear_arith)
            requires
                m == b * q + r,
                r == 0,
                l == m - 1,
        ;
        lemma_fundamental_div_mod_converse(l, b, q - 1, b - 1);
    }
}

/// A start less two spans is earlier than the start, however short the span.
pub proof fn law_two_spans_earlier(start: Binary64, end: Binary64)
    requires
        start.step() <= 0x7f90_0000_0000_0000,
        end.is_finite(),
        start.lt(end),
    ensures
        start.minus((Binary64 { bits: TWO }).times(end.minus(start))).lt(start),
{
    let span = end.minus(start);
    let two = Binary64 { bits: TWO };
    let m = start.step();
    let k = lemma_spacing(m);
    law_difference_in_order(start, end);
    law_order_is_exact(start, end);
    lemma_negated_units(start);
    lemma_units_positive(m);
    lemma_units_positive(end.step());
    lemma_units_positive(0);
    let exact = end.units() - start.units();
    // The gap to the next number after the start.
    let gap: int = if start.negative() && m > 0 {
        step_units(m) - step_units((m - 1) as nat)
    } else {
        pow2(k) as int
    };
    assert(exact >= gap) by {
        if start.negative() && m > 0 {
            if end.negative() {
                lemma_units_ordered(end.step(), (m - 1) as nat);
            }
        } else {
            assert(!end.negative() && end.step() >= m + 1);
            lemma_units_ordered(m + 1, end.step());
        }
    }
    let j: nat = if start.negative() && m > 0 {
        lemma_gap_below(m)
    } else {
        k
    };
    let g = lemma_power_step(j);
    reveal(Binary64::spec_plus);
    lemma_rounded_exact(g, 1);
    lemma_rounded_exists(exact as nat, 1);
    lemma_rounded_ordered(step_units(g) * 1, 1, exact as nat, 1);
    assert(span.step() >= g);
    lemma_units_ordered(g, span.step());
    let back = two.times(span);
    lemma_doubled(span);
    lemma_negated_units(back);
    if back.is_finite() {
        // The number before the start.
        let p = if start.negative() || m == 0 {
            Binary64 { bits: (SIGN + m + 1) as u64 }
        } else {
            Binary64 { bits: (m - 1) as u64 }
        };
        lemma_pow2_pos(k);
        assert(back.units() == 2 * span.units() && span.units() >= gap);
        if start.negative() || m == 0 {
            assert(p.negative() && p.step() == m + 1);
            assert(p.units() == -(step_units(m) + pow2(k)));
            assert(2 * gap >= pow2(k));
        } else {
            assert(!p.negative() && p.step() == m - 1);
        }
        assert(start.units() - back.units() <= p.units());
        law_sums_are_ordered(start, back.negated(), p, Binary64::zero());
        law_adding_zero(p, Binary64::zero());
    }
}

/// The gap below a step is a power of two.
proof fn lemma_gap_below(m: nat) -> (j: nat)
    requires
        0 < m <= 0x7f90_0000_0000_0000,
    ensures
        j < 2045,
        step_units(m) - step_units((m - 1) as nat) == pow2(j),
{
    lemma_spacing((m - 1) as nat)
}

/// Twice a positive number is twice its value, or infinite.
proof fn lemma_doubled(a: Binary64)
    requires
        Binary64::zero().lt(a),
    ensures
        !(Binary64 { bits: TWO }).times(a).negative(),
        !(Binary64 { bits: TWO }).times(a).is_nan(),
        (Binary64 { bits: TWO }).times(a).is_finite() ==> a.is_finite() && (Binary64 {
            bits: TWO,
        }).times(a).units() == 2 * a.units(),
{
    reveal(Binary64::spec_times);
    let two = Binary64 { bits: TWO };
    lemma_one_is_unit();
    lemma_two_is_twice();
    let unit = pow2(UNIT_EXPONENT as nat);
    let v = step_units(a.step());
    if a.is_finite() {
        let n = step_units(TWO as nat) * v;
        lemma_rounded_exists(n, unit);
        lemma_units_positive(a.step());
        let d = lemma_double_step(a.step());
        assert(n == step_units(d) * unit) by (nonlinear_arith)
            requires
                n == step_units(TWO as nat) * v,
                step_units(TWO as nat) == 2 * unit,
                step_units(d) == 2 * v,
        ;
        if d < INFINITE_STEP {
            lemma_rounded_exact(d, unit);
        } else {
            // The last finite step is below twice the number.
            let r = rounded(n, unit);
            if r < INFINITE_STEP {
                lemma_units_ordered(r, (d - 1) as nat);
                lemma_units_ordered(r + 1, d);
                lemma_step_monotone((d - 1) as nat, d);
                let high = step_units(r) + step_units(r + 1);
                assert(high * unit < 2 * n) by (nonlinear_arith)
                    requires
                        high < 2 * step_units(d),
                        n == step_units(d) * unit,
                        unit > 0,
                ;
            }
        }
    }
}

/// The step of twice a step's value.
proof fn lemma_double_step(m: nat) -> (d: nat)
    requires
        m > 0,
    ensures
        d > 0,
        step_units(d) == 2 * step_units(m),
{
    lemma_step_parts(m);
    let (k, hi) = (step_shift(m), step_significand(m));
    lemma_step(k, hi);
    lemma2_to64();
    if hi < BINADE {
        lemma_step(0, 2 * hi);
        assert(2 * hi * pow2(0) == 2 * (hi * pow2(0))) by (nonlinear_arith);
        2 * hi
    } else {
        lemma_step(k + 1, hi);
        lemma_pow2_unfold(k + 1);
        assert(hi * (2 * pow2(k)) == 2 * (hi * pow2(k))) by (nonlinear_arith);
        (k + 1) * BINADE as nat + hi
    }
}

} // verus!

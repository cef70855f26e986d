//! How far rounding moves a value.
use crate::binary64::{lemma_negated_units, lemma_units_positive, Binary64};
use crate::ladder::{
    lemma_rounded_exists, lemma_step, lemma_step_parts, rounded, step_shift, step_significand,
    step_units, BINADE, INFINITE_STEP,
};
use crate::magnitude::{lemma_rounded_at_most, lemma_sum_at_most, lemma_units_within};
use vstd::arithmetic::div_mod::lemma_div_is_ordered;
use vstd::arithmetic::power2::{
    lemma_pow2_pos, lemma_pow2_strictly_increases, lemma_pow2_unfold, pow2,
};
use vstd::prelude::*;

verus! {

/// Rounding moves a value by half of its step at most.
pub proof fn lemma_half_a_step(n: nat, d: nat)
    requires
        d > 0,
        rounded(n, d) < INFINITE_STEP,
    ensures
        ({
            let m = rounded(n, d);
            let v = step_units(m) * d;
            let g = pow2(step_shift(m)) * d;
            -(g as int) <= 2 * n - 2 * v <= g
        }),
{
    let m = rounded(n, d);
    lemma_rounded_exists(n, d);
    lemma_step_parts(m);
    let k = step_shift(m);
    let hi = step_significand(m);
    let p = pow2(k);
    lemma_step(k, hi);
    assert((step_units(m) + step_units(m + 1)) * d == 2 * (hi * p * d) + p * d) by (nonlinear_arith)
        requires
            step_units(m) == hi * p,
            step_units(m + 1) == (hi + 1) * p,
    ;
    if m > 0 {
        lemma_step_below(m);
        assert((step_units((m - 1) as nat) + step_units(m)) * d >= 2 * (hi * p * d) - p * d)
            by (nonlinear_arith)
            requires
                step_units(m) == hi * p,
                step_units((m - 1) as nat) + p >= hi * p,
                d > 0,
        ;
    } else {
        assert(hi * p * d == 0) by (nonlinear_arith)
            requires
                hi == 0,
        ;
        assert(0 <= p * d) by (nonlinear_arith);
    }
}

/// The step below is no further away than a step's own spacing.
pub proof fn lemma_step_below(m: nat)
    requires
        m > 0,
    ensures
        step_units((m - 1) as nat) + pow2(step_shift(m)) >= step_units(m),
{
    let l = (m - 1) as nat;
    lemma_step_parts(l);
    lemma_step(step_shift(l), step_significand(l));
    let (k, hi) = (step_shift(l), step_significand(l));
    assert(step_units(m) == step_units(l) + pow2(k)) by (nonlinear_arith)
        requires
            step_units(l) == hi * pow2(k),
            step_units(m) == (hi + 1) * pow2(k),
    ;
    lemma_shift_ordered(l, m);
}

/// A later step has no finer spacing.
pub proof fn lemma_shift_ordered(a: nat, b: nat)
    requires
        a <= b,
    ensures
        pow2(step_shift(a)) <= pow2(step_shift(b)),
{
    if b >= BINADE {
        lemma_div_is_ordered(a as int, b as int, BINADE as int);
    }
    let (ka, kb) = (step_shift(a), step_shift(b));
    assert(ka <= kb);
    if ka < kb {
        lemma_pow2_strictly_increases(ka, kb);
    }
}

/// A sum of no more than the step `top` is off by half of the spacing there at most.
pub proof fn lemma_sum_is_close(a: Binary64, b: Binary64, top: nat)
    requires
        a.is_finite(),
        b.is_finite(),
        top < INFINITE_STEP,
        -(step_units(top) as int) <= a.units() + b.units() <= step_units(top),
    ensures
        a.plus(b).step() <= top,
        -(pow2(step_shift(top)) as int) <= 2 * (a.units() + b.units()) - 2 * a.plus(b).units()
            <= pow2(step_shift(top)),
{
    reveal(Binary64::spec_plus);
    let exact = a.units() + b.units();
    let n = if exact < 0 {
        (-exact) as nat
    } else {
        exact as nat
    };
    lemma_sum_at_most(a, b, top);
    lemma_rounded_at_most(n, 1, top);
    lemma_half_a_step(n, 1);
    lemma_shift_ordered(rounded(n, 1), top);
    lemma_pow2_pos(step_shift(top));
    lemma_units_positive(0);
    if exact == 0 {
        assert(a.plus(b).units() == 0);
    }
}

/// The bit pattern of 2^29: in days, more than a million years.
pub const ORDINARY: u64 = 0x41c0_0000_0000_0000;

/// Taking a time away and adding it again comes back to within 2^-22 of where it
/// started, for times of 2^29 at most.
pub proof fn law_return_is_close(x: Binary64, t: Binary64)
    requires
        x.step() <= ORDINARY,
        t.step() <= ORDINARY,
    ensures
        x.minus(t).plus(t).is_finite(),
        -(pow2(1052) as int) <= x.minus(t).plus(t).units() - x.units() <= pow2(1052),
{
    let top: nat = 0x41d0_0000_0000_0000;
    lemma_ordinary_sums();
    lemma_units_within(x, ORDINARY as nat);
    lemma_units_within(t, ORDINARY as nat);
    lemma_negated_units(t);
    lemma_sum_is_close(x, t.negated(), top);
    lemma_sum_is_close(x.minus(t), t, top);
}

/// A time and the span that leads from it to another lead to within 2^-22 of the
/// other, for times of 2^29 at most.
pub proof fn law_span_leads_close(low: Binary64, high: Binary64)
    requires
        low.step() <= ORDINARY,
        high.step() <= ORDINARY,
    ensures
        low.plus(high.minus(low)).is_finite(),
        -(pow2(1052) as int) <= low.plus(high.minus(low)).units() - high.units() <= pow2(1052),
{
    let top: nat = 0x41d0_0000_0000_0000;
    lemma_ordinary_sums();
    lemma_units_within(low, ORDINARY as nat);
    lemma_units_within(high, ORDINARY as nat);
    lemma_negated_units(low);
    lemma_sum_is_close(high, low.negated(), top);
    lemma_sum_is_close(low, high.minus(low), top);
}

/// Sums of two ordinary times stay below 2^30, where the spacing is 2^-22.
#[verifier::spinoff_prover]
proof fn lemma_ordinary_sums()
    ensures
        step_units(0x41d0_0000_0000_0000) == 2 * step_units(ORDINARY as nat),
        step_shift(0x41d0_0000_0000_0000) == 1052,
        pow2(1052) <= step_units(ORDINARY as nat),
{
    lemma_step(1052, 0x10_0000_0000_0000);
    lemma_step(1051, 0x10_0000_0000_0000);
    lemma_pow2_unfold(1052);
    let p = pow2(1051);
    assert(step_units(0x41d0_0000_0000_0000) == 0x10_0000_0000_0000 * (2 * p));
    assert(step_units(ORDINARY as nat) == 0x10_0000_0000_0000 * p);
    assert(0x10_0000_0000_0000 * (2 * p) == 2 * (0x10_0000_0000_0000 * p)) by (nonlinear_arith);
    assert(2 * p <= 0x10_0000_0000_0000 * p) by (nonlinear_arith)
        requires
            p >= 0,
    ;
}

} // verus!

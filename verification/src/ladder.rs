//! The ladder of binary64 magnitudes and rounding to it.
//!
//! Dropping the sign, the finite binary64 values form a strictly increasing
//! ladder. Step `m` is the value whose bit pattern is `m`, and every step is a
//! whole number of units of 2^-1074, the smallest positive value. Infinity is
//! the step that follows the largest finite one; for rounding it counts as the
//! value that step would have if the exponent range went on.
use vstd::arithmetic::power2::{lemma2_to64, lemma_pow2_pos, lemma_pow2_unfold, pow2};
use vstd::prelude::*;

verus! {

/// 2^52: the number of steps in one binade, and the smallest full significand.
pub const BINADE: u64 = 0x10_0000_0000_0000;

/// The step that stands for infinity.
pub const INFINITE_STEP: u64 = 0x7ff0_0000_0000_0000;

/// The exponent of the unit: a step of `u` units is the value u * 2^-1074.
pub const UNIT_EXPONENT: u64 = 1074;

/// Significand of step `m`: below 2^52 for the subnormal steps, else 53 bits.
pub open spec fn step_significand(m: nat) -> nat {
    if m < BINADE {
        m
    } else {
        BINADE as nat + m % (BINADE as nat)
    }
}

/// Binary exponent, in units, that the significand of step `m` is scaled by.
pub open spec fn step_shift(m: nat) -> nat {
    if m < BINADE {
        0
    } else {
        (m / (BINADE as nat) - 1) as nat
    }
}

/// Value of step `m`, in units.
pub open spec fn step_units(m: nat) -> nat {
    step_significand(m) * pow2(step_shift(m))
}

/// Step `m` is what n / d units round to: no neighbour is nearer, and where one
/// is equally near, `m` is the even one of the two.
pub open spec fn rounds_to(n: nat, d: nat, m: nat) -> bool {
    &&& m <= INFINITE_STEP
    &&& m > 0 ==> {
        let low = (step_units((m - 1) as nat) + step_units(m)) * d;
        low < 2 * n || (low == 2 * n && m % 2 == 0)
    }
    &&& m < INFINITE_STEP ==> {
        let high = (step_units(m) + step_units(m + 1)) * d;
        2 * n < high || (2 * n == high && m % 2 == 0)
    }
}

/// The step that n / d units round to, ties going to the even step.
#[verifier::opaque]
pub open spec fn rounded(n: nat, d: nat) -> nat {
    choose|m: nat| rounds_to(n, d, m)
}

/// A significand `hi` of up to 53 bits, scaled by 2^k, is step k * 2^52 + hi,
/// and the step after it is one unit of 2^k further.
pub proof fn lemma_step(k: nat, hi: nat)
    requires
        hi < 2 * BINADE,
        k == 0 || hi >= BINADE,
    ensures
        step_units(k * BINADE as nat + hi) == hi * pow2(k),
        step_units(k * BINADE as nat + hi + 1) == (hi + 1) * pow2(k),
        step_significand(k * BINADE as nat + hi) == hi,
        step_shift(k * BINADE as nat + hi) == k,
{
    let b = BINADE as nat;
    let m = k * b + hi;
    lemma2_to64();
    if hi < BINADE {
        assert(m == hi) by (nonlinear_arith)
            requires
                m == k * b + hi,
                k == 0,
        ;
        if hi + 1 == BINADE {
            assert((m + 1) % b == 0 && (m + 1) / b == 1);
        }
    } else {
        assert(m / b == k + 1 && m % b == hi - b) by {
            assert(m == b * (k + 1) + (hi - b)) by (nonlinear_arith)
                requires
                    m == k * b + hi,
            ;
            vstd::arithmetic::div_mod::lemma_fundamental_div_mod_converse(
                m as int,
                b as int,
                (k + 1) as int,
                hi - b,
            );
        }
        assert(m >= b) by (nonlinear_arith)
            requires
                m == k * b + hi,
                hi >= b,
                k >= 0,
        ;
        if hi + 1 < 2 * BINADE {
            assert((m + 1) / b == k + 1 && (m + 1) % b == hi + 1 - b) by {
                assert(m + 1 == b * (k + 1) + (hi + 1 - b)) by (nonlinear_arith)
                    requires
                        m == k * b + hi,
                ;
                vstd::arithmetic::div_mod::lemma_fundamental_div_mod_converse(
                    (m + 1) as int,
                    b as int,
                    (k + 1) as int,
                    hi + 1 - b,
                );
            }
        } else {
            assert((m + 1) / b == k + 2 && (m + 1) % b == 0) by {
                assert(m + 1 == b * (k + 2) + 0) by (nonlinear_arith)
                    requires
                        m == k * b + hi,
                        hi + 1 == 2 * b,
                ;
                vstd::arithmetic::div_mod::lemma_fundamental_div_mod_converse(
                    (m + 1) as int,
                    b as int,
                    (k + 2) as int,
                    0,
                );
            }
            lemma_pow2_unfold(k + 1);
            assert(step_units(m + 1) == b * pow2(k + 1));
            assert(b * pow2(k + 1) == (hi + 1) * pow2(k)) by (nonlinear_arith)
                requires
                    pow2(k + 1) == 2 * pow2(k),
                    hi + 1 == 2 * b,
            ;
        }
    }
}

/// Every step is its significand scaled by its shift.
pub proof fn lemma_step_parts(m: nat)
    ensures
        step_significand(m) < 2 * BINADE,
        step_shift(m) == 0 || step_significand(m) >= BINADE,
        m == step_shift(m) * BINADE as nat + step_significand(m),
{
    let b = BINADE as nat;
    if m >= BINADE {
        vstd::arithmetic::div_mod::lemma_fundamental_div_mod(m as int, b as int);
        assert(m / b >= 1);
        assert(m == (m / b - 1) * b + (b + m % b)) by (nonlinear_arith)
            requires
                m == b * (m / b) + m % b,
        ;
    }
}

/// Each step is below the next.
pub proof fn lemma_step_increases(m: nat)
    ensures
        step_units(m) < step_units(m + 1),
{
    lemma_step_parts(m);
    let k = step_shift(m);
    let hi = step_significand(m);
    lemma_step(k, hi);
    lemma_pow2_pos(k);
    assert(hi * pow2(k) < (hi + 1) * pow2(k)) by (nonlinear_arith)
        requires
            pow2(k) > 0,
    ;
}

/// The ladder is strictly increasing.
pub proof fn lemma_step_monotone(m1: nat, m2: nat)
    requires
        m1 < m2,
    ensures
        step_units(m1) < step_units(m2),
    decreases m2 - m1,
{
    lemma_step_increases(m1);
    if m1 + 1 < m2 {
        lemma_step_monotone(m1 + 1, m2);
    }
}

/// Only one step can be what a value rounds to.
pub proof fn lemma_rounds_to_unique(n: nat, d: nat, m1: nat, m2: nat)
    requires
        d > 0,
        rounds_to(n, d, m1),
        rounds_to(n, d, m2),
    ensures
        m1 == m2,
{
    if m1 <= m2 {
        lemma_rounds_to_ordered(n, d, m1, m2);
    } else {
        lemma_rounds_to_ordered(n, d, m2, m1);
    }
}

proof fn lemma_rounds_to_ordered(n: nat, d: nat, m1: nat, m2: nat)
    requires
        d > 0,
        m1 <= m2,
        rounds_to(n, d, m1),
        rounds_to(n, d, m2),
    ensures
        m1 == m2,
{
    let low = step_units(m1) + step_units(m1 + 1);
    if m1 + 1 < m2 {
        let high = step_units((m2 - 1) as nat) + step_units(m2);
        lemma_step_monotone(m1, (m2 - 1) as nat);
        lemma_step_monotone(m1 + 1, m2);
        assert(low * d < high * d) by (nonlinear_arith)
            requires
                low < high,
                d > 0,
        ;
    }
}

/// A step that satisfies the rounding condition is the rounded one.
pub proof fn lemma_rounded(n: nat, d: nat, m: nat)
    requires
        d > 0,
        rounds_to(n, d, m),
    ensures
        rounded(n, d) == m,
{
    reveal(rounded);
    lemma_rounds_to_unique(n, d, m, rounded(n, d));
}

/// The last step up to `top` that n / d units reach.
proof fn lemma_floor_step(n: nat, d: nat, top: nat) -> (m: nat)
    requires
        d > 0,
    ensures
        m <= top,
        step_units(m) * d <= n,
        m < top ==> n < step_units(m + 1) * d,
    decreases top,
{
    if top == 0 {
        vstd::arithmetic::mul::lemma_mul_basics(pow2(0) as int);
        vstd::arithmetic::mul::lemma_mul_basics(d as int);
        0
    } else if step_units(top) * d <= n {
        top
    } else {
        lemma_floor_step(n, d, (top - 1) as nat)
    }
}

/// Every value rounds to a step.
pub proof fn lemma_rounded_exists(n: nat, d: nat)
    requires
        d > 0,
    ensures
        rounds_to(n, d, rounded(n, d)),
{
    let top = INFINITE_STEP as nat;
    let m = lemma_floor_step(n, d, top);
    if m > 0 {
        lemma_step_increases((m - 1) as nat);
        let low = step_units((m - 1) as nat) + step_units(m);
        assert(low * d < 2 * n) by (nonlinear_arith)
            requires
                low < 2 * step_units(m),
                step_units(m) * d <= n,
                d > 0,
        ;
    }
    if m < top {
        let mid = (step_units(m) + step_units(m + 1)) * d;
        if 2 * n < mid || (2 * n == mid && m % 2 == 0) {
            lemma_rounded(n, d, m);
        } else {
            if m + 1 < top {
                lemma_step_increases(m + 1);
                let high = step_units(m + 1) + step_units(m + 2);
                assert(2 * n < high * d) by (nonlinear_arith)
                    requires
                        high > 2 * step_units(m + 1),
                        n < step_units(m + 1) * d,
                        d > 0,
                ;
            }
            lemma_rounded(n, d, m + 1);
        }
    } else {
        lemma_rounded(n, d, m);
    }
}

/// A positive factor cancels from a comparison.
pub proof fn lemma_cancel(x: nat, y: nat, c: nat)
    requires
        c > 0,
    ensures
        x * c < y * c <==> x < y,
        x * c == y * c <==> x == y,
        y * c < x * c <==> y < x,
{
    assert(x < y ==> x * c < y * c) by (nonlinear_arith)
        requires
            c > 0,
    ;
    assert(y < x ==> y * c < x * c) by (nonlinear_arith)
        requires
            c > 0,
    ;
}

/// What is on the ladder stays where it is.
pub proof fn lemma_rounded_exact(m: nat, d: nat)
    requires
        d > 0,
        m < INFINITE_STEP,
    ensures
        rounded(step_units(m) * d, d) == m,
{
    let n = step_units(m) * d;
    lemma_step_increases(m);
    let above = step_units(m) + step_units(m + 1);
    assert(2 * n < above * d) by (nonlinear_arith)
        requires
            n == step_units(m) * d,
            2 * step_units(m) < above,
            d > 0,
    ;
    if m > 0 {
        lemma_step_increases((m - 1) as nat);
        let below = step_units((m - 1) as nat) + step_units(m);
        assert(below * d < 2 * n) by (nonlinear_arith)
            requires
                n == step_units(m) * d,
                below < 2 * step_units(m),
                d > 0,
        ;
    }
    lemma_rounded(n, d, m);
}

} // verus!

//! IEEE 754 binary64 numbers, held as bit patterns.
//!
//! Comparison, and addition, subtraction, multiplication and division rounded
//! to nearest with ties to even, are integer computations here and are proved
//! against the exact values. The elementary functions (`ln`, `exp`, powers,
//! roots) have no such short meaning; see [`crate::elementary`].
use crate::ladder::{
    lemma_rounded, lemma_rounded_exact, lemma_rounded_exists, lemma_step, lemma_step_monotone, lemma_step_parts, rounded, step_shift,
    step_significand, step_units, BINADE, INFINITE_STEP, UNIT_EXPONENT,
};
use crate::numbers::ONE;
use crate::rounding::{bit_length, lemma_u128_shl, located, round_scaled, scale_up};
use vstd::arithmetic::power2::{
    lemma2_to64, lemma2_to64_rest, lemma_pow2_adds, lemma_pow2_pos, lemma_pow2_strictly_increases,
    pow2,
};
use vstd::prelude::*;

verus! {

/// The sign bit.
pub const SIGN: u64 = 0x8000_0000_0000_0000;

/// The bit pattern of the quiet not-a-number that operations return.
pub const QUIET_NAN: u64 = 0x7ff8_0000_0000_0000;

/// A binary64 number. `==` compares representations: it tells the two zeros
/// apart and finds a not-a-number equal to itself. For the numeric comparisons
/// see [`Binary64::lt`], [`Binary64::le`] and [`Binary64::same_value`].
#[derive(Clone, Copy, Debug, PartialEq, Eq, Structural)]
pub struct Binary64 {
    pub bits: u64,
}

/// The number with the given sign and magnitude step.
pub open spec fn signed(negative: bool, step: nat) -> Binary64 {
    Binary64 {
        bits: (step + if negative {
            SIGN as nat
        } else {
            0
        }) as u64,
    }
}

impl Binary64 {
    /// Whether the sign bit is set.
    pub open spec fn negative(self) -> bool {
        self.bits >= SIGN
    }

    /// The magnitude, as a step of the ladder of non-negative values.
    pub open spec fn step(self) -> nat {
        if self.negative() {
            (self.bits - SIGN) as nat
        } else {
            self.bits as nat
        }
    }

    /// The exact value of a finite number, in units of 2^-1074.
    pub open spec fn units(self) -> int {
        if self.negative() {
            -(step_units(self.step()) as int)
        } else {
            step_units(self.step()) as int
        }
    }

    /// Position in the numeric order; the two zeros share one.
    pub open spec fn position(self) -> int {
        if self.negative() {
            -(self.step() as int)
        } else {
            self.step() as int
        }
    }

    pub open spec fn spec_is_nan(self) -> bool {
        self.step() > INFINITE_STEP
    }

    pub open spec fn spec_is_infinite(self) -> bool {
        self.step() == INFINITE_STEP
    }

    pub open spec fn spec_is_finite(self) -> bool {
        self.step() < INFINITE_STEP
    }

    pub open spec fn spec_lt(self, other: Binary64) -> bool {
        !self.spec_is_nan() && !other.spec_is_nan() && self.position() < other.position()
    }

    pub open spec fn spec_le(self, other: Binary64) -> bool {
        !self.spec_is_nan() && !other.spec_is_nan() && self.position() <= other.position()
    }

    pub open spec fn spec_same_value(self, other: Binary64) -> bool {
        !self.spec_is_nan() && !other.spec_is_nan() && self.position() == other.position()
    }

    pub open spec fn spec_zero() -> Binary64 {
        Binary64 { bits: 0 }
    }

    pub open spec fn spec_nan() -> Binary64 {
        Binary64 { bits: QUIET_NAN }
    }

    pub open spec fn spec_negated(self) -> Binary64 {
        Binary64 {
            bits: if self.negative() {
                (self.bits - SIGN) as u64
            } else {
                (self.bits + SIGN) as u64
            },
        }
    }

    /// The sum: of finite numbers, the exact sum rounded. An exact sum of zero
    /// is negative only where both numbers are.
    #[verifier::opaque]
    pub open spec fn spec_plus(self, other: Binary64) -> Binary64 {
        if self.spec_is_nan() || other.spec_is_nan() {
            Self::spec_nan()
        } else if self.spec_is_infinite() {
            if other.spec_is_infinite() && self.negative() != other.negative() {
                Self::spec_nan()
            } else {
                self
            }
        } else if other.spec_is_infinite() {
            other
        } else {
            let exact = self.units() + other.units();
            if exact == 0 {
                signed(self.negative() && other.negative(), 0)
            } else if exact < 0 {
                signed(true, rounded((-exact) as nat, 1))
            } else {
                signed(false, rounded(exact as nat, 1))
            }
        }
    }

    pub open spec fn spec_minus(self, other: Binary64) -> Binary64 {
        self.spec_plus(other.spec_negated())
    }

    /// The product: of finite numbers, the exact product rounded.
    #[verifier::opaque]
    pub open spec fn spec_times(self, other: Binary64) -> Binary64 {
        let negative = self.negative() != other.negative();
        if self.spec_is_nan() || other.spec_is_nan() {
            Self::spec_nan()
        } else if self.spec_is_infinite() || other.spec_is_infinite() {
            if self.step() == 0 || other.step() == 0 {
                Self::spec_nan()
            } else {
                signed(negative, INFINITE_STEP as nat)
            }
        } else {
            signed(
                negative,
                rounded(
                    step_units(self.step()) * step_units(other.step()),
                    pow2(UNIT_EXPONENT as nat),
                ),
            )
        }
    }

    /// The quotient: of finite numbers, the exact quotient rounded.
    #[verifier::opaque]
    pub open spec fn spec_over(self, other: Binary64) -> Binary64 {
        let negative = self.negative() != other.negative();
        if self.spec_is_nan() || other.spec_is_nan() {
            Self::spec_nan()
        } else if self.spec_is_infinite() {
            if other.spec_is_infinite() {
                Self::spec_nan()
            } else {
                signed(negative, INFINITE_STEP as nat)
            }
        } else if other.spec_is_infinite() {
            signed(negative, 0)
        } else if other.step() == 0 {
            if self.step() == 0 {
                Self::spec_nan()
            } else {
                signed(negative, INFINITE_STEP as nat)
            }
        } else {
            signed(
                negative,
                rounded(
                    step_units(self.step()) * pow2(UNIT_EXPONENT as nat),
                    step_units(other.step()),
                ),
            )
        }
    }

    /// The number nearest to a count.
    #[verifier::opaque]
    pub open spec fn spec_of_count(n: u64) -> Binary64 {
        signed(false, rounded(n as nat * pow2(UNIT_EXPONENT as nat), 1))
    }

    pub open spec fn spec_min(self, other: Binary64) -> Binary64 {
        if self.spec_is_nan() || other.spec_lt(self) {
            other
        } else {
            self
        }
    }

    pub open spec fn spec_max(self, other: Binary64) -> Binary64 {
        if self.spec_is_nan() || self.spec_lt(other) {
            other
        } else {
            self
        }
    }

    pub open spec fn spec_clamp(self, low: Binary64, high: Binary64) -> Binary64 {
        if self.spec_lt(low) {
            low
        } else if high.spec_lt(self) {
            high
        } else {
            self
        }
    }

    /// Zero, positive.
    #[verifier::when_used_as_spec(spec_zero)]
    pub fn zero() -> (r: Binary64)
        ensures
            r == Self::zero(),
    {
        Binary64 { bits: 0 }
    }

    /// The quiet not-a-number.
    #[verifier::when_used_as_spec(spec_nan)]
    pub fn nan() -> (r: Binary64)
        ensures
            r == Self::nan(),
    {
        Binary64 { bits: QUIET_NAN }
    }

    /// The magnitude as a bit pattern.
    fn magnitude(self) -> (m: u64)
        ensures
            m == self.step(),
            m < SIGN,
    {
        if self.bits >= SIGN {
            self.bits - SIGN
        } else {
            self.bits
        }
    }

    fn sign_bit(self) -> (r: bool)
        ensures
            r == self.negative(),
    {
        self.bits >= SIGN
    }

    fn with_sign(negative: bool, step: u64) -> (r: Binary64)
        requires
            step <= INFINITE_STEP,
        ensures
            r == signed(negative, step as nat),
    {
        if negative {
            Binary64 { bits: step + SIGN }
        } else {
            Binary64 { bits: step }
        }
    }

    #[verifier::when_used_as_spec(spec_is_nan)]
    pub fn is_nan(self) -> (r: bool)
        ensures
            r == self.is_nan(),
    {
        self.magnitude() > INFINITE_STEP
    }

    #[verifier::when_used_as_spec(spec_is_infinite)]
    pub fn is_infinite(self) -> (r: bool)
        ensures
            r == self.is_infinite(),
    {
        self.magnitude() == INFINITE_STEP
    }

    #[verifier::when_used_as_spec(spec_is_finite)]
    pub fn is_finite(self) -> (r: bool)
        ensures
            r == self.is_finite(),
    {
        self.magnitude() < INFINITE_STEP
    }

    /// Numeric less-than; false where either number is not-a-number.
    #[verifier::when_used_as_spec(spec_lt)]
    pub fn lt(self, other: Binary64) -> (r: bool)
        ensures
            r == self.lt(other),
    {
        let a: u64 = self.magnitude();
        let b: u64 = other.magnitude();
        if a > INFINITE_STEP || b > INFINITE_STEP {
            false
        } else if self.sign_bit() {
            if other.sign_bit() {
                b < a
            } else {
                a > 0 || b > 0
            }
        } else {
            !other.sign_bit() && a < b
        }
    }

    /// Numeric less-than-or-equal; false where either number is not-a-number.
    #[verifier::when_used_as_spec(spec_le)]
    pub fn le(self, other: Binary64) -> (r: bool)
        ensures
            r == self.le(other),
    {
        !self.is_nan() && !other.is_nan() && !other.lt(self)
    }

    /// Numeric equality; false where either number is not-a-number.
    #[verifier::when_used_as_spec(spec_same_value)]
    pub fn same_value(self, other: Binary64) -> (r: bool)
        ensures
            r == self.same_value(other),
    {
        self.le(other) && other.le(self)
    }

    /// The smaller number; where one is not-a-number, the other.
    #[verifier::when_used_as_spec(spec_min)]
    pub fn min(self, other: Binary64) -> (r: Binary64)
        ensures
            r == self.min(other),
    {
        if self.is_nan() || other.lt(self) {
            other
        } else {
            self
        }
    }

    /// The larger number; where one is not-a-number, the other.
    #[verifier::when_used_as_spec(spec_max)]
    pub fn max(self, other: Binary64) -> (r: Binary64)
        ensures
            r == self.max(other),
    {
        if self.is_nan() || self.lt(other) {
            other
        } else {
            self
        }
    }

    /// Restricts a number to an interval; not-a-number stays. Bounds out of order
    /// take a number below the lower one to it, and others to the upper one.
    #[verifier::when_used_as_spec(spec_clamp)]
    pub fn clamp(self, low: Binary64, high: Binary64) -> (r: Binary64)
        ensures
            r == self.clamp(low, high),
    {
        if self.lt(low) {
            low
        } else if high.lt(self) {
            high
        } else {
            self
        }
    }

    /// The number with its sign flipped.
    #[verifier::when_used_as_spec(spec_negated)]
    pub fn negated(self) -> (r: Binary64)
        ensures
            r == self.negated(),
    {
        if self.bits >= SIGN {
            Binary64 { bits: self.bits - SIGN }
        } else {
            Binary64 { bits: self.bits + SIGN }
        }
    }

    /// The sum, rounded to nearest.
    #[verifier::when_used_as_spec(spec_plus)]
    pub fn plus(self, other: Binary64) -> (r: Binary64)
        ensures
            r == self.plus(other),
    {
        reveal(Binary64::spec_plus);
        let a: u64 = self.magnitude();
        let b: u64 = other.magnitude();
        if a > INFINITE_STEP || b > INFINITE_STEP {
            Self::nan()
        } else if a == INFINITE_STEP {
            if b == INFINITE_STEP && self.sign_bit() != other.sign_bit() {
                Self::nan()
            } else {
                self
            }
        } else if b == INFINITE_STEP {
            other
        } else {
            let opposed: bool = self.sign_bit() != other.sign_bit();
            proof {
                lemma_units_positive(a as nat);
                lemma_units_positive(b as nat);
                if a < b {
                    lemma_step_monotone(a as nat, b as nat);
                } else if b < a {
                    lemma_step_monotone(b as nat, a as nat);
                }
            }
            if a == b && (opposed || a == 0) {
                Self::with_sign(self.sign_bit() && other.sign_bit(), 0)
            } else if a >= b {
                Self::with_sign(self.sign_bit(), combine(a, b, opposed))
            } else {
                Self::with_sign(other.sign_bit(), combine(b, a, opposed))
            }
        }
    }

    /// The difference, rounded to nearest.
    #[verifier::when_used_as_spec(spec_minus)]
    pub fn minus(self, other: Binary64) -> (r: Binary64)
        ensures
            r == self.minus(other),
    {
        self.plus(other.negated())
    }

    /// The product, rounded to nearest.
    #[verifier::when_used_as_spec(spec_times)]
    pub fn times(self, other: Binary64) -> (r: Binary64)
        ensures
            r == self.times(other),
    {
        reveal(Binary64::spec_times);
        let a: u64 = self.magnitude();
        let b: u64 = other.magnitude();
        let negative: bool = self.sign_bit() != other.sign_bit();
        if a > INFINITE_STEP || b > INFINITE_STEP {
            Self::nan()
        } else if a == INFINITE_STEP || b == INFINITE_STEP {
            if a == 0 || b == 0 {
                Self::nan()
            } else {
                Self::with_sign(negative, INFINITE_STEP)
            }
        } else {
            Self::with_sign(negative, multiply(a, b))
        }
    }

    /// The quotient, rounded to nearest.
    #[verifier::when_used_as_spec(spec_over)]
    pub fn over(self, other: Binary64) -> (r: Binary64)
        ensures
            r == self.over(other),
    {
        reveal(Binary64::spec_over);
        let a: u64 = self.magnitude();
        let b: u64 = other.magnitude();
        let negative: bool = self.sign_bit() != other.sign_bit();
        if a > INFINITE_STEP || b > INFINITE_STEP {
            Self::nan()
        } else if a == INFINITE_STEP {
            if b == INFINITE_STEP {
                Self::nan()
            } else {
                Self::with_sign(negative, INFINITE_STEP)
            }
        } else if b == INFINITE_STEP {
            Self::with_sign(negative, 0)
        } else if b == 0 {
            if a == 0 {
                Self::nan()
            } else {
                Self::with_sign(negative, INFINITE_STEP)
            }
        } else {
            Self::with_sign(negative, divide(a, b))
        }
    }

    /// The number nearest to a count.
    #[verifier::when_used_as_spec(spec_of_count)]
    pub fn of_count(n: u64) -> (r: Binary64)
        ensures
            r == Self::of_count(n),
    {
        reveal(Binary64::spec_of_count);
        let ghost unit = pow2(UNIT_EXPONENT as nat);
        if n == 0 {
            proof {
                lemma_rounded_zero(1);
                vstd::arithmetic::mul::lemma_mul_basics(unit as int);
            }
            Self::zero()
        } else {
            proof {
                lemma2_to64_rest();
                lemma_pow2_strictly_increases(64, 127);
                lemma2_to64();
            }
            let step: u64 = round_scaled(n as u128, 1074, false);
            proof {
                assert(located(n as nat, 1074, false, n as nat * unit, 1));
                lemma_rounded(n as nat * unit, 1, step as nat);
            }
            Self::with_sign(false, step)
        }
    }
}

/// The numeric order of finite numbers is the order of their exact values.
pub proof fn law_order_is_exact(a: Binary64, b: Binary64)
    requires
        a.is_finite(),
        b.is_finite(),
    ensures
        a.lt(b) <==> a.units() < b.units(),
        a.le(b) <==> a.units() <= b.units(),
        a.same_value(b) <==> a.units() == b.units(),
{
    lemma_units_positive(a.step());
    lemma_units_positive(b.step());
    if a.step() < b.step() {
        lemma_step_monotone(a.step(), b.step());
    } else if b.step() < a.step() {
        lemma_step_monotone(b.step(), a.step());
    }
}

/// Operations on numbers without a sign give a number without a sign, or
/// not-a-number, which carries none either; so does squaring.
pub proof fn law_signs_are_kept(a: Binary64, b: Binary64)
    ensures
        !a.times(a).negative(),
        !a.negative() && !b.negative() ==> !a.plus(b).negative() && !a.times(b).negative()
            && !a.over(b).negative(),
{
    reveal(Binary64::spec_plus);
    reveal(Binary64::spec_times);
    reveal(Binary64::spec_over);
    let unit = pow2(UNIT_EXPONENT as nat);
    lemma_pow2_pos(UNIT_EXPONENT as nat);
    lemma_rounded_exists(step_units(a.step()) * step_units(a.step()), unit);
    lemma_rounded_exists(step_units(a.step()) * step_units(b.step()), unit);
    lemma_rounded_exists((step_units(a.step()) + step_units(b.step())) as nat, 1);
    lemma_units_positive(b.step());
    if step_units(b.step()) > 0 {
        lemma_rounded_exists(step_units(a.step()) * unit, step_units(b.step()));
    }
}

/// A count has no sign.
pub proof fn law_counts_have_no_sign(n: u64)
    ensures
        !Binary64::of_count(n).negative(),
{
    reveal(Binary64::spec_of_count);
    lemma_rounded_exists(n as nat * pow2(UNIT_EXPONENT as nat), 1);
}

/// The step of a count between two powers of two.
proof fn lemma_count_step(n: nat, bits: nat) -> (m: nat)
    requires
        bits <= 52,
        pow2(bits) <= n < pow2(bits + 1),
    ensures
        m < INFINITE_STEP,
        step_units(m) == n * pow2(UNIT_EXPONENT as nat),
{
    let up = pow2((52 - bits) as nat);
    let hi = n * up;
    let k = 1022 + bits;
    lemma2_to64();
    lemma2_to64_rest();
    lemma_pow2_adds(bits, (52 - bits) as nat);
    lemma_pow2_adds(bits + 1, (52 - bits) as nat);
    lemma_pow2_pos((52 - bits) as nat);
    assert(pow2(bits) * up <= hi && hi < pow2(bits + 1) * up) by (nonlinear_arith)
        requires
            hi == n * up,
            pow2(bits) <= n < pow2(bits + 1),
            up > 0,
    ;
    lemma_step(k, hi);
    lemma_pow2_adds((52 - bits) as nat, k);
    assert(hi * pow2(k) == n * (up * pow2(k))) by (nonlinear_arith)
        requires
            hi == n * up,
    ;
    k * BINADE as nat + hi
}

/// The power of two that a count has reached.
proof fn lemma_count_bits(n: nat, limit: nat) -> (bits: nat)
    requires
        0 < n < pow2(limit),
    ensures
        bits < limit,
        pow2(bits) <= n < pow2(bits + 1),
    decreases limit,
{
    lemma2_to64();
    if limit == 0 {
        0
    } else if n >= pow2((limit - 1) as nat) {
        (limit - 1) as nat
    } else {
        lemma_count_bits(n, (limit - 1) as nat)
    }
}

/// A count below 2^53 is held exactly.
pub proof fn law_counts_are_exact(n: u64)
    requires
        n < 0x20_0000_0000_0000,
    ensures
        Binary64::of_count(n).is_finite(),
        Binary64::of_count(n).units() == n * pow2(UNIT_EXPONENT as nat),
{
    reveal(Binary64::spec_of_count);
    let unit = pow2(UNIT_EXPONENT as nat);
    lemma2_to64();
    lemma2_to64_rest();
    if n == 0 {
        lemma_rounded_zero(1);
        vstd::arithmetic::mul::lemma_mul_basics(unit as int);
        lemma_units_positive(0);
    } else {
        let bits = lemma_count_bits(n as nat, 53);
        let m = lemma_count_step(n as nat, bits);
        lemma_rounded_exact(m, 1);
        assert(step_units(m) * 1 == step_units(m));
        assert(rounded(n as nat * unit, 1) == m);
    }
}

/// Negation turns a value round.
pub proof fn lemma_negated_units(a: Binary64)
    ensures
        a.negated().units() == -a.units(),
        a.negated().step() == a.step(),
        a.negated().negative() != a.negative(),
{
}

/// A difference above zero tells the larger number.
pub proof fn law_positive_difference(a: Binary64, b: Binary64)
    requires
        Binary64::zero().lt(a.minus(b)),
    ensures
        b.lt(a),
{
    reveal(Binary64::spec_plus);
    lemma_negated_units(b);
    if a.is_finite() && b.is_finite() {
        law_order_is_exact(b, a);
        let exact = a.units() - b.units();
        if exact < 0 {
            lemma_rounded_exists((-exact) as nat, 1);
        }
    }
}

/// A finite number less itself is zero.
pub proof fn law_difference_with_itself(a: Binary64)
    requires
        a.is_finite(),
    ensures
        a.minus(a) == Binary64::zero(),
{
    reveal(Binary64::spec_plus);
}

/// A finite number other than zero, over itself, is one.
pub proof fn law_quotient_with_itself(a: Binary64)
    requires
        a.is_finite(),
        !a.same_value(Binary64::zero()),
    ensures
        a.over(a) == (Binary64 { bits: ONE }),
{
    reveal(Binary64::spec_over);
    let unit = pow2(UNIT_EXPONENT as nat);
    let d = step_units(a.step());
    lemma_units_positive(a.step());
    lemma_step(1022, BINADE as nat);
    assert(step_units(ONE as nat) == BINADE as nat * pow2(1022));
    lemma_pow2_adds(52, 1022);
    lemma2_to64();
    lemma2_to64_rest();
    assert(step_units(ONE as nat) == unit);
    lemma_rounded_exact(ONE as nat, d);
    assert(d * unit == unit * d) by (nonlinear_arith);
}

/// Zero over anything but zero is zero.
pub proof fn law_zero_quotient(a: Binary64, b: Binary64)
    requires
        a.same_value(Binary64::zero()),
        !b.is_nan(),
        !b.same_value(Binary64::zero()),
    ensures
        a.over(b).same_value(Binary64::zero()),
{
    reveal(Binary64::spec_over);
    lemma_units_positive(a.step());
    lemma_units_positive(b.step());
    vstd::arithmetic::mul::lemma_mul_basics(pow2(UNIT_EXPONENT as nat) as int);
    lemma_rounded_zero(step_units(b.step()));
}

/// Every step but the first has a positive value.
pub proof fn lemma_units_positive(m: nat)
    ensures
        step_units(m) > 0 <==> m > 0,
        step_units(0) == 0,
{
    vstd::arithmetic::mul::lemma_mul_basics(pow2(0) as int);
    if m > 0 {
        lemma_step_monotone(0, m);
    }
}

/// Nothing rounds to nothing.
pub proof fn lemma_rounded_zero(d: nat)
    requires
        d > 0,
    ensures
        rounded(0, d) == 0,
{
    lemma_units_positive(1);
    let high = step_units(0) + step_units(1);
    assert(0 < high * d) by (nonlinear_arith)
        requires
            high > 0,
            d > 0,
    ;
    lemma_rounded(0, d, 0);
}

/// A later step is never scaled by less.
proof fn lemma_shift_monotone(a: nat, b: nat)
    requires
        a <= b,
    ensures
        step_shift(a) <= step_shift(b),
{
    if a >= BINADE {
        vstd::arithmetic::div_mod::lemma_div_is_ordered(a as int, b as int, BINADE as int);
    }
}

/// Significand and shift of a finite magnitude.
fn unpack(m: u64) -> (r: (u64, i32))
    requires
        m < INFINITE_STEP,
    ensures
        r.0 == step_significand(m as nat),
        r.1 == step_shift(m as nat),
        0 <= r.1 < 2046,
        r.0 < 2 * BINADE,
        r.1 > 0 ==> r.0 >= BINADE,
        r.0 == 0 <==> m == 0,
{
    proof {
        lemma_step_parts(m as nat);
    }
    if m < BINADE {
        (m, 0)
    } else {
        (BINADE + m % BINADE, (m / BINADE - 1) as i32)
    }
}

/// The step that the sum, or the difference, of two magnitudes rounds to.
fn combine(large: u64, small: u64, subtract: bool) -> (m: u64)
    requires
        small <= large < INFINITE_STEP,
        large > 0,
        subtract ==> small < large,
    ensures
        m <= INFINITE_STEP,
        !subtract ==> m == rounded(
            (step_units(large as nat) + step_units(small as nat)) as nat,
            1,
        ),
        subtract ==> m == rounded(
            (step_units(large as nat) - step_units(small as nat)) as nat,
            1,
        ),
{
    let (s1, k1) = unpack(large);
    let (s2, k2) = unpack(small);
    let ghost u1 = step_units(large as nat);
    let ghost u2 = step_units(small as nat);
    let ghost exact: nat = if subtract {
        (u1 - u2) as nat
    } else {
        u1 + u2
    };
    proof {
        lemma_shift_monotone(small as nat, large as nat);
        if small < large {
            lemma_step_monotone(small as nat, large as nat);
        }
        lemma_units_positive(large as nat);
        lemma2_to64();
        lemma2_to64_rest();
    }
    let apart: i32 = k1 - k2;
    let step: u64 = if apart <= 70 {
        let ghost w = pow2(apart as nat);
        let ghost p = pow2(k2 as nat);
        proof {
            lemma_pow2_adds(53, 70);
            lemma_pow2_pos(apart as nat);
            if apart < 70 {
                lemma_pow2_strictly_increases(apart as nat, 70);
            }
            assert(s1 * w <= pow2(53) * pow2(70)) by (nonlinear_arith)
                requires
                    s1 <= pow2(53),
                    w <= pow2(70),
                    w >= 0,
                    s1 >= 0,
            ;
            lemma_pow2_adds(59, 64);
            lemma_pow2_adds(63, 64);
            lemma_u128_shl(s1 as u128, apart as u128);
            lemma_pow2_adds(k2 as nat, apart as nat);
            assert(u1 == (s1 * w) * p) by (nonlinear_arith)
                requires
                    u1 == s1 * pow2(k1 as nat),
                    pow2(k1 as nat) == p * w,
            ;
            assert(u2 == s2 * p);
        }
        let lifted: u128 = (s1 as u128) << (apart as u128);
        proof {
            if subtract {
                assert(lifted > s2) by (nonlinear_arith)
                    requires
                        lifted * p > s2 * p,
                        p >= 0,
                ;
                assert(exact == (lifted - s2) * p) by (nonlinear_arith)
                    requires
                        exact == lifted * p - s2 * p,
                ;
            } else {
                assert(exact == (lifted + s2) * p) by (nonlinear_arith)
                    requires
                        exact == lifted * p + s2 * p,
                ;
                assert(lifted > 0) by (nonlinear_arith)
                    requires
                        lifted * p > 0,
                        p >= 0,
                ;
            }
        }
        let sig: u128 = if subtract {
            lifted - s2 as u128
        } else {
            lifted + s2 as u128
        };
        let step: u64 = round_scaled(sig, k2, false);
        proof {
            assert(scale_up(-k2) == 1 && scale_up(k2 as int) == p);
            assert(p * 1 == p && exact * 1 == exact);
            assert(located(sig as nat, k2 as int, false, exact, 1));
        }
        step
    } else {
        let ghost w = pow2(17);
        let ghost p = pow2((k1 - 17) as nat);
        proof {
            lemma_pow2_adds(52, 17);
            lemma_pow2_adds(53, 17);
            lemma_pow2_adds(60, 10);
            lemma_pow2_adds((k1 - 17) as nat, 17);
            assert(s1 * w <= pow2(70) && s1 * w >= pow2(69)) by (nonlinear_arith)
                requires
                    pow2(52) <= s1 <= pow2(53),
                    pow2(70) == pow2(53) * w,
                    pow2(69) == pow2(52) * w,
            ;
            lemma_u128_shl(s1 as u128, 17);
            assert(u1 == (s1 * w) * p) by (nonlinear_arith)
                requires
                    u1 == s1 * pow2(k1 as nat),
                    pow2(k1 as nat) == p * w,
            ;
            // The small magnitude is less than one last place.
            lemma_pow2_adds(53, k2 as nat);
            lemma_pow2_strictly_increases((53 + k2) as nat, (k1 - 17) as nat);
            lemma_pow2_pos(k2 as nat);
            assert(u2 < p) by (nonlinear_arith)
                requires
                    u2 == s2 * pow2(k2 as nat),
                    s2 < pow2(53),
                    pow2((53 + k2) as nat) == pow2(53) * pow2(k2 as nat),
                    pow2((53 + k2) as nat) < p,
                    pow2(k2 as nat) > 0,
            ;
            lemma_units_positive(small as nat);
            lemma_pow2_strictly_increases(54, 69);
            lemma_pow2_adds(63, 64);
            lemma_pow2_strictly_increases(70, 127);
        }
        let lifted: u128 = (s1 as u128) << 17u128;
        let cut: bool = s2 != 0;
        let sig: u128 = if subtract && cut {
            lifted - 1
        } else {
            lifted
        };
        let step: u64 = round_scaled(sig, k1 - 17, cut);
        proof {
            assert((lifted + 1) * p == lifted * p + p && (lifted - 1) * p == lifted * p - p)
                by (nonlinear_arith);
            assert(located(sig as nat, k1 - 17, cut, exact, 1));
        }
        step
    };
    proof {
        lemma_rounded(exact, 1, step as nat);
    }
    step
}

/// The step that the product of two magnitudes rounds to.
fn multiply(a: u64, b: u64) -> (m: u64)
    requires
        a < INFINITE_STEP,
        b < INFINITE_STEP,
    ensures
        m <= INFINITE_STEP,
        m == rounded(
            step_units(a as nat) * step_units(b as nat),
            pow2(UNIT_EXPONENT as nat),
        ),
{
    let (s1, k1) = unpack(a);
    let (s2, k2) = unpack(b);
    let ghost u1 = step_units(a as nat);
    let ghost u2 = step_units(b as nat);
    let ghost unit = pow2(UNIT_EXPONENT as nat);
    proof {
        lemma_pow2_pos(UNIT_EXPONENT as nat);
    }
    if a == 0 || b == 0 {
        proof {
            lemma_units_positive(a as nat);
            lemma_units_positive(b as nat);
            vstd::arithmetic::mul::lemma_mul_basics(u1 as int);
            vstd::arithmetic::mul::lemma_mul_basics(u2 as int);
            lemma_rounded_zero(unit);
        }
        0
    } else {
        proof {
            lemma2_to64_rest();
            lemma_pow2_adds(53, 53);
            assert(0 < s1 * s2 < pow2(106)) by (nonlinear_arith)
                requires
                    0 < s1 < pow2(53),
                    0 < s2 < pow2(53),
                    pow2(106) == pow2(53) * pow2(53),
            ;
            lemma_pow2_strictly_increases(106, 127);
            lemma_pow2_adds(63, 64);
        }
        let sig: u128 = (s1 as u128) * (s2 as u128);
        let exp: i32 = k1 + k2 - 1074;
        let step: u64 = round_scaled(sig, exp, false);
        proof {
            let n = u1 * u2;
            let p1 = pow2(k1 as nat);
            let p2 = pow2(k2 as nat);
            lemma_pow2_adds(k1 as nat, k2 as nat);
            assert(n == sig * pow2((k1 + k2) as nat)) by (nonlinear_arith)
                requires
                    n == (s1 * p1) * (s2 * p2),
                    sig == s1 * s2,
                    pow2((k1 + k2) as nat) == p1 * p2,
            ;
            lemma2_to64();
            if exp >= 0 {
                lemma_pow2_adds(exp as nat, 1074);
                if exp == 0 {
                    assert(scale_up(-exp) == 1);
                }
                assert(n * 1 == sig as nat * (pow2(exp as nat) * unit));
            } else {
                lemma_pow2_adds((k1 + k2) as nat, (-exp) as nat);
                assert(n * pow2((-exp) as nat) == sig as nat * (1 * unit)) by (nonlinear_arith)
                    requires
                        n == sig * pow2((k1 + k2) as nat),
                        unit == pow2((k1 + k2) as nat) * pow2((-exp) as nat),
                ;
            }
            assert(located(sig as nat, exp as int, false, n, unit));
            lemma_rounded(n, unit, step as nat);
        }
        step
    }
}

/// The step that the quotient of two magnitudes rounds to.
fn divide(a: u64, b: u64) -> (m: u64)
    requires
        a < INFINITE_STEP,
        0 < b < INFINITE_STEP,
    ensures
        m <= INFINITE_STEP,
        m == rounded(
            step_units(a as nat) * pow2(UNIT_EXPONENT as nat),
            step_units(b as nat),
        ),
{
    let (s1, k1) = unpack(a);
    let (s2, k2) = unpack(b);
    let ghost u1 = step_units(a as nat);
    let ghost u2 = step_units(b as nat);
    let ghost unit = pow2(UNIT_EXPONENT as nat);
    proof {
        lemma_units_positive(b as nat);
    }
    if a == 0 {
        proof {
            lemma_units_positive(0);
            vstd::arithmetic::mul::lemma_mul_basics(unit as int);
            lemma_rounded_zero(u2);
        }
        0
    } else {
        // A full significand in front, so that the quotient keeps enough places.
        let len: i32 = bit_length(s1 as u128) as i32;
        proof {
            lemma2_to64();
            lemma2_to64_rest();
            if len > 54 {
                lemma_pow2_strictly_increases(53, (len - 1) as nat);
            }
            assert(0 < len <= 53);
        }
        let lift: i32 = 53 - len;
        let ghost w = pow2(lift as nat);
        proof {
            lemma_pow2_adds(len as nat, lift as nat);
            lemma_pow2_adds((len - 1) as nat, lift as nat);
            lemma_pow2_pos(lift as nat);
            assert(pow2(52) <= s1 * w < pow2(53)) by (nonlinear_arith)
                requires
                    pow2((len - 1) as nat) <= s1 < pow2(len as nat),
                    pow2(52) == pow2((len - 1) as nat) * w,
                    pow2(53) == pow2(len as nat) * w,
                    w > 0,
            ;
            lemma_u128_shl(s1 as u128, lift as u128);
        }
        let full: u128 = (s1 as u128) << (lift as u128);
        let ghost t = full as nat * pow2(74);
        proof {
            lemma_pow2_adds(52, 74);
            lemma_pow2_adds(53, 74);
            lemma_pow2_adds(63, 64);
            lemma_pow2_pos(74);
            assert(pow2(126) <= t < pow2(127)) by (nonlinear_arith)
                requires
                    pow2(52) <= full < pow2(53),
                    t == full * pow2(74),
                    pow2(126) == pow2(52) * pow2(74),
                    pow2(127) == pow2(53) * pow2(74),
                    pow2(74) > 0,
            ;
            lemma_u128_shl(full, 74);
        }
        let top: u128 = full << 74u128;
        let below: u128 = s2 as u128;
        let q: u128 = top / below;
        let rem: u128 = top % below;
        let exp: i32 = k1 - lift - k2 + 1000;
        proof {
            vstd::arithmetic::div_mod::lemma_fundamental_div_mod(top as int, below as int);
            lemma_pow2_adds(53, 73);
            assert(q >= pow2(73)) by (nonlinear_arith)
                requires
                    top == below * q + rem,
                    rem < below,
                    below < pow2(53),
                    top >= pow2(53) * pow2(73),
            {
                if q < pow2(73) {
                    assert(below * (q + 1) <= pow2(53) * pow2(73)) by (nonlinear_arith)
                        requires
                            below <= pow2(53),
                            q + 1 <= pow2(73),
                            below >= 0,
                            q + 1 >= 0,
                    ;
                    assert(below * (q + 1) == below * q + below) by (nonlinear_arith);
                }
            }
            lemma_pow2_strictly_increases(54, 73);
            assert(q <= top) by (nonlinear_arith)
                requires
                    top == below * q + rem,
                    below >= 1,
                    rem >= 0,
                    q >= 0,
            ;
        }
        let cut: bool = rem != 0;
        let step: u64 = round_scaled(q, exp, cut);
        proof {
            let n = u1 * unit;
            let e1 = scale_up(exp as int);
            let e2 = scale_up(-exp);
            let p1 = pow2(k1 as nat);
            let p2 = pow2(k2 as nat);
            let z = e1 * p2;
            // Both sides of the division as the same multiple of z.
            let left = (k1 + 1074 + if exp < 0 {
                -exp
            } else {
                0
            }) as nat;
            assert(p1 * unit * e2 == pow2(left)) by {
                lemma_pow2_adds(k1 as nat, 1074);
                if exp < 0 {
                    lemma_pow2_adds((k1 + 1074) as nat, (-exp) as nat);
                }
            }
            assert(w * pow2(74) * z == pow2(left)) by {
                lemma_pow2_adds(lift as nat, 74);
                lemma_pow2_adds((lift + 74) as nat, k2 as nat);
                if exp >= 0 {
                    lemma_pow2_adds((lift + 74 + k2) as nat, exp as nat);
                }
                assert(w * pow2(74) * (e1 * p2) == (w * pow2(74) * p2) * e1) by (nonlinear_arith);
            }
            assert(n * e2 == top * z) by (nonlinear_arith)
                requires
                    n == (s1 * p1) * unit,
                    p1 * unit * e2 == w * pow2(74) * z,
                    top == (s1 * w) * pow2(74),
            ;
            assert(e1 * u2 == below * z) by (nonlinear_arith)
                requires
                    u2 == below * p2,
                    z == e1 * p2,
            ;
            assert(z > 0) by {
                lemma_pow2_pos(k2 as nat);
                if exp >= 0 {
                    lemma_pow2_pos(exp as nat);
                }
                assert(e1 * p2 > 0) by (nonlinear_arith)
                    requires
                        e1 > 0,
                        p2 > 0,
                ;
            }
            assert(q * (below * z) + rem * z == top * z && (q + 1) * (below * z) == top * z + (below
                - rem) * z) by (nonlinear_arith)
                requires
                    top == below * q + rem,
            ;
            assert(rem > 0 ==> rem * z > 0) by (nonlinear_arith)
                requires
                    z > 0,
            ;
            assert((below - rem) * z > 0) by (nonlinear_arith)
                requires
                    z > 0,
                    below > rem,
            ;
            assert(rem == 0 ==> rem * z == 0) by (nonlinear_arith);
            assert(located(q as nat, exp as int, cut, n, u2));
            lemma_rounded(n, u2, step as nat);
        }
        step
    }
}

} // verus!

//! Rounding of scaled integers to the ladder of binary64 magnitudes.
use crate::ladder::{
    lemma_cancel, lemma_step, lemma_step_increases, lemma_step_monotone, rounds_to, step_units,
    BINADE, INFINITE_STEP,
};
use vstd::arithmetic::power2::{
    lemma2_to64, lemma2_to64_rest, lemma_pow2_adds, lemma_pow2_pos, lemma_pow2_strictly_increases,
    lemma_pow2_unfold, pow2,
};
use vstd::bits::{lemma_u128_shr_is_div, lemma_u64_shr_is_div};
use vstd::prelude::*;
use vstd::std_specs::bits::axiom_u64_leading_zeros;

verus! {

/// 2^e for a non-negative `e`, else 1.
pub open spec fn scale_up(e: int) -> nat {
    if e >= 0 {
        pow2(e as nat)
    } else {
        1
    }
}

/// n / d units lie at sig * 2^exp, or, where something was cut off below the
/// last place, strictly between that and (sig + 1) * 2^exp.
pub open spec fn located(sig: nat, exp: int, cut: bool, n: nat, d: nat) -> bool {
    let place = scale_up(exp) * d;
    let value = n * scale_up(-exp);
    if cut {
        sig * place < value < (sig + 1) * place
    } else {
        value == sig * place
    }
}

/// Between two neighbouring steps, the nearer one is what a value rounds to.
proof fn lemma_round_between(n: nat, d: nat, k: nat, hi: nat, up: bool)
    requires
        d > 0,
        hi < 2 * BINADE,
        k == 0 || hi >= BINADE,
        hi * pow2(k) * d <= n < (hi + 1) * pow2(k) * d,
        up ==> (2 * hi + 1) * pow2(k) * d < 2 * n || (2 * n == (2 * hi + 1) * pow2(k) * d && hi % 2
            == 1),
        !up ==> 2 * n < (2 * hi + 1) * pow2(k) * d || (2 * n == (2 * hi + 1) * pow2(k) * d && hi % 2
            == 0),
    ensures
        k < 2046 ==> rounds_to(n, d, k * BINADE as nat + hi + if up { 1nat } else { 0nat }),
        k >= 2046 ==> rounds_to(n, d, INFINITE_STEP as nat),
        k < 2046 ==> k * BINADE + hi + 1 <= INFINITE_STEP,
{
    let p = pow2(k);
    let base = k * BINADE as nat + hi;
    lemma_pow2_pos(k);
    lemma_step(k, hi);
    assert((step_units(base) + step_units(base + 1)) * d == (2 * hi + 1) * p * d)
        by (nonlinear_arith)
        requires
            step_units(base) == hi * p,
            step_units(base + 1) == (hi + 1) * p,
    ;
    if k >= 2046 {
        assert(base >= INFINITE_STEP) by (nonlinear_arith)
            requires
                base == k * BINADE as nat + hi,
                k >= 2046,
                hi >= BINADE,
        ;
        let top = INFINITE_STEP as nat;
        lemma_step_increases((top - 1) as nat);
        if base > top {
            lemma_step_monotone(top, base);
        }
        let low = step_units((top - 1) as nat) + step_units(top);
        assert(low * d < 2 * n) by (nonlinear_arith)
            requires
                low < 2 * (hi * p),
                hi * p * d <= n,
                d > 0,
        ;
    } else {
        assert(base + 1 <= INFINITE_STEP) by (nonlinear_arith)
            requires
                base == k * BINADE as nat + hi,
                k < 2046,
                hi < 2 * BINADE,
        ;
        assert(base % 2 == hi % 2) by (nonlinear_arith)
            requires
                base == k * BINADE as nat + hi,
                BINADE == 2 * 0x8_0000_0000_0000,
        ;
        if up {
            if base + 1 < INFINITE_STEP {
                lemma_step_increases(base + 1);
                let high = step_units(base + 1) + step_units(base + 2);
                assert(2 * n < high * d) by (nonlinear_arith)
                    requires
                        high > 2 * ((hi + 1) * p),
                        n < (hi + 1) * p * d,
                        d > 0,
                ;
            }
        } else {
            if base > 0 {
                lemma_step_increases((base - 1) as nat);
                let low = step_units((base - 1) as nat) + step_units(base);
                assert(low * d < 2 * n) by (nonlinear_arith)
                    requires
                        low < 2 * (hi * p),
                        hi * p * d <= n,
                        d > 0,
                ;
            }
        }
    }
}

/// Dropping the last `drop` places of a located value leaves it between two
/// neighbouring steps, the remainder deciding which is nearer.
proof fn lemma_drop(sig: nat, exp: int, cut: bool, drop: nat, hi: nat, rem: nat, up: bool, n: nat, d: nat)
    requires
        d > 0,
        located(sig, exp, cut, n, d),
        drop > 0,
        exp + drop >= 0,
        sig == hi * pow2(drop) + rem,
        rem < pow2(drop),
        up == (rem > pow2((drop - 1) as nat) || (rem == pow2((drop - 1) as nat) && (cut || hi % 2
            == 1))),
    ensures
        ({
            let p = pow2((exp + drop) as nat);
            &&& hi * p * d <= n < (hi + 1) * p * d
            &&& up ==> (2 * hi + 1) * p * d < 2 * n || (2 * n == (2 * hi + 1) * p * d && hi % 2 == 1)
            &&& !up ==> 2 * n < (2 * hi + 1) * p * d || (2 * n == (2 * hi + 1) * p * d && hi % 2
                == 0)
        }),
{
    let k = (exp + drop) as nat;
    let p = pow2(k);
    let big = pow2(drop);
    let half = pow2((drop - 1) as nat);
    let e1 = scale_up(exp);
    let e2 = scale_up(-exp);
    let place = e1 * d;
    let value = n * e2;
    lemma_pow2_unfold(drop);
    assert(big == 2 * half);
    lemma_pow2_pos((drop - 1) as nat);
    lemma_pow2_pos(k);
    lemma2_to64();
    assert(p * e2 == big * e1 && e1 > 0 && e2 > 0) by {
        if exp >= 0 {
            lemma_pow2_adds(exp as nat, drop);
            lemma_pow2_pos(exp as nat);
            assert(big * e1 == e1 * big) by (nonlinear_arith);
            if exp == 0 {
            }
        } else {
            lemma_pow2_adds(k, (-exp) as nat);
            lemma_pow2_pos((-exp) as nat);
        }
    }
    assert(place > 0) by (nonlinear_arith)
        requires
            place == e1 * d,
            e1 > 0,
            d > 0,
    ;
    // The three landmarks, scaled alike.
    assert forall|x: nat| (#[trigger] (x * p * d)) * e2 == x * big * place by {
        assert((x * p * d) * e2 == x * d * (p * e2)) by (nonlinear_arith);
        assert(x * d * (big * e1) == x * big * (e1 * d)) by (nonlinear_arith);
    }
    let mid = hi * big + half;
    assert((2 * hi + 1) * big * place == 2 * (mid * place)) by (nonlinear_arith)
        requires
            mid == hi * big + half,
            big == 2 * half,
    ;
    assert(sig * place <= value < (sig + 1) * place) by (nonlinear_arith)
        requires
            place > 0,
            value == sig * place || sig * place < value < (sig + 1) * place,
    ;
    assert(hi * big * place <= sig * place) by (nonlinear_arith)
        requires
            sig >= hi * big,
            place > 0,
    ;
    assert((hi + 1) * big * place >= (sig + 1) * place) by (nonlinear_arith)
        requires
            sig == hi * big + rem,
            rem < big,
            place > 0,
    ;
    assert((hi * p * d) * e2 == hi * big * place);
    assert(((hi + 1) * p * d) * e2 == (hi + 1) * big * place);
    assert(((2 * hi + 1) * p * d) * e2 == (2 * hi + 1) * big * place);
    lemma_cancel(hi * p * d, n, e2);
    lemma_cancel(n, (hi + 1) * p * d, e2);
    assert((2 * n) * e2 == 2 * value) by (nonlinear_arith)
        requires
            value == n * e2,
    ;
    lemma_cancel(2 * n, (2 * hi + 1) * p * d, e2);
    if rem < half {
        assert(value < mid * place) by (nonlinear_arith)
            requires
                value < (sig + 1) * place,
                sig + 1 <= mid,
                place > 0,
        ;
    } else if rem == half {
        assert(sig == mid);
    } else {
        assert(value > mid * place) by (nonlinear_arith)
            requires
                value >= sig * place,
                sig > mid,
                place > 0,
        ;
    }
}

/// A value that needs no places dropped is itself a step.
proof fn lemma_lift(sig: nat, exp: int, lift: nat, n: nat, d: nat)
    requires
        d > 0,
        located(sig, exp, false, n, d),
        exp >= lift,
    ensures
        ({
            let p = pow2((exp - lift) as nat);
            let hi = sig * pow2(lift);
            &&& hi * p * d <= n < (hi + 1) * p * d
            &&& 2 * n < (2 * hi + 1) * p * d
        }),
{
    let p = pow2((exp - lift) as nat);
    let l = pow2(lift);
    let hi = sig * l;
    lemma_pow2_adds((exp - lift) as nat, lift);
    lemma_pow2_pos((exp - lift) as nat);
    lemma2_to64();
    assert(scale_up(-exp) == 1);
    assert(n == hi * p * d) by (nonlinear_arith)
        requires
            n * 1 == sig * (pow2(exp as nat) * d),
            pow2(exp as nat) == p * l,
            hi == sig * l,
    ;
    assert((hi + 1) * p * d > hi * p * d && (2 * hi + 1) * p * d > 2 * (hi * p * d))
        by (nonlinear_arith)
        requires
            p > 0,
            d > 0,
    ;
}

/// Shifting a u128 left multiplies it by a power of two.
pub proof fn lemma_u128_shl(x: u128, s: u128)
    requires
        s < 128,
        x * pow2(s as nat) <= u128::MAX,
    ensures
        (x << s) == x * pow2(s as nat),
    decreases s,
{
    if s == 0 {
        assert(x << 0u128 == x) by (bit_vector);
        lemma2_to64();
    } else {
        let t: u128 = (s - 1) as u128;
        lemma_pow2_unfold(s as nat);
        lemma_pow2_pos(t as nat);
        assert(x * pow2(s as nat) == 2 * (x * pow2(t as nat))) by (nonlinear_arith)
            requires
                pow2(s as nat) == 2 * pow2(t as nat),
        ;
        lemma_u128_shl(x, t);
        let y: u128 = x << t;
        assert(y <= u128::MAX / 2);
        assert(x << s == 2 * y) by (bit_vector)
            requires
                y == x << t,
                s == t + 1,
                s < 128,
                y <= u128::MAX / 2,
        ;
    }
}

/// Number of bits up to the highest one set.
fn bit_length_u64(x: u64) -> (len: u32)
    ensures
        len <= 64,
        x < pow2(len as nat),
        len > 0 ==> x >= pow2((len - 1) as nat),
{
    let zeros: u32 = x.leading_zeros();
    proof {
        axiom_u64_leading_zeros(x);
        lemma2_to64();
        lemma2_to64_rest();
        let len: u64 = (64 - zeros) as u64;
        if zeros > 0 {
            if len > 0 {
                lemma_u64_shr_is_div(x, len);
                lemma_pow2_pos(len as nat);
                vstd::arithmetic::div_mod::lemma_fundamental_div_mod(x as int, pow2(len as nat) as int);
                vstd::arithmetic::div_mod::lemma_mod_pos_bound(x as int, pow2(len as nat) as int);
                assert(x < pow2(len as nat));
            }
        }
        if len > 0 {
            let t: u64 = (len - 1) as u64;
            assert(x >> t != 0) by (bit_vector)
                requires
                    (x >> t) & 1u64 != 0u64,
            ;
            lemma_u64_shr_is_div(x, t);
            lemma_pow2_pos(t as nat);
            if x < pow2(t as nat) {
                vstd::arithmetic::div_mod::lemma_basic_div(x as int, pow2(t as nat) as int);
            }
        }
    }
    64 - zeros
}

/// Number of bits up to the highest one set.
pub fn bit_length(x: u128) -> (len: u32)
    ensures
        len <= 128,
        x < pow2(len as nat),
        len > 0 ==> x >= pow2((len - 1) as nat),
{
    let high: u64 = (x >> 64) as u64;
    proof {
        assert((x >> 64u128) <= u64::MAX) by (bit_vector);
        lemma_u128_shr_is_div(x, 64);
        lemma2_to64_rest();
        vstd::arithmetic::div_mod::lemma_fundamental_div_mod(x as int, pow2(64) as int);
        vstd::arithmetic::div_mod::lemma_mod_pos_bound(x as int, pow2(64) as int);
    }
    if high == 0 {
        bit_length_u64(x as u64)
    } else {
        let len: u32 = bit_length_u64(high);
        proof {
            let q = pow2(64);
            let rest = x as int % (q as int);
            lemma_pow2_adds(len as nat, 64);
            lemma_pow2_adds((len - 1) as nat, 64);
            assert(x < pow2(len as nat) * q) by (nonlinear_arith)
                requires
                    x == q * high + rest,
                    rest < q,
                    high < pow2(len as nat),
            ;
            assert(x >= pow2((len - 1) as nat) * q) by (nonlinear_arith)
                requires
                    x == q * high + rest,
                    rest >= 0,
                    high >= pow2((len - 1) as nat),
            ;
        }
        len + 64
    }
}

/// The step that sig * 2^exp units round to; `cut` says that something below
/// the last place was left out of `sig`.
pub fn round_scaled(sig: u128, exp: i32, cut: bool) -> (m: u64)
    requires
        0 < sig < pow2(127),
        cut ==> sig >= pow2(54),
        -4000 <= exp <= 4000,
    ensures
        m <= INFINITE_STEP,
        forall|n: nat, d: nat|
            d > 0 && #[trigger] located(sig as nat, exp as int, cut, n, d) ==> rounds_to(
                n,
                d,
                m as nat,
            ),
{
    let len: i32 = bit_length(sig) as i32;
    proof {
        if len > 128 {
            lemma_pow2_strictly_increases(127, (len - 1) as nat);
        }
        lemma2_to64();
        assert(0 < len <= 127);
    }
    let over: i32 = len - 53;
    let drop: i32 = if over > -exp { over } else { -exp };
    if drop <= 0 {
        let lift: i32 = if -over < exp { -over } else { exp };
        let ghost hi_spec = sig as nat * pow2(lift as nat);
        proof {
            assert(!cut) by {
                if cut {
                    lemma_pow2_strictly_increases(53, 54);
                    if len < 53 {
                        lemma_pow2_strictly_increases(len as nat, 53);
                    }
                }
            }
            // sig < 2^len, so the lifted significand stays below 2^53.
            lemma_pow2_adds(len as nat, lift as nat);
            lemma_pow2_pos(lift as nat);
            assert(hi_spec < pow2(len as nat) * pow2(lift as nat)) by (nonlinear_arith)
                requires
                    hi_spec == sig as nat * pow2(lift as nat),
                    sig < pow2(len as nat),
                    pow2(lift as nat) > 0,
            ;
            if len + lift < 53 {
                lemma_pow2_strictly_increases((len + lift) as nat, 53);
            }
            lemma2_to64_rest();
            assert(hi_spec < 2 * BINADE);
            lemma_u128_shl(sig, lift as u128);
        }
        let hi: u64 = (sig << (lift as u128)) as u64;
        let k: i32 = exp - lift;
        proof {
            if k > 0 {
                // The lift was limited by the length, so the significand is full.
                lemma_pow2_adds((len - 1) as nat, lift as nat);
                assert(hi_spec >= pow2((len - 1) as nat) * pow2(lift as nat)) by (nonlinear_arith)
                    requires
                        hi_spec == sig as nat * pow2(lift as nat),
                        sig >= pow2((len - 1) as nat),
                ;
                assert(hi >= BINADE);
            }
        }
        proof {
            assert forall|n: nat, d: nat| d > 0 && #[trigger] located(sig as nat, exp as int, cut, n, d)
                implies (k < 2046 ==> rounds_to(n, d, (k as nat * BINADE as nat + hi as nat)))
                && (k >= 2046 ==> rounds_to(n, d, INFINITE_STEP as nat)) by {
                lemma_lift(sig as nat, exp as int, lift as nat, n, d);
                lemma_round_between(n, d, k as nat, hi as nat, false);
            }
        }
        if k >= 2046 {
            INFINITE_STEP
        } else {
            assert(k * BINADE + hi <= INFINITE_STEP) by (nonlinear_arith)
                requires
                    0 <= k < 2046,
                    hi < 2 * BINADE,
            ;
            (k as u64) * BINADE + hi
        }
    } else if drop >= 128 {
        proof {
            assert(drop == -exp);
            assert forall|n: nat, d: nat| d > 0 && #[trigger] located(sig as nat, exp as int, cut, n, d) implies rounds_to(n, d, 0) by {
                lemma2_to64();
                if drop > 128 {
                    lemma_pow2_strictly_increases(127, (drop - 1) as nat);
                }
                lemma_pow2_strictly_increases((drop - 1) as nat, drop as nat);
                lemma_drop(sig as nat, exp as int, cut, drop as nat, 0, sig as nat, false, n, d);
                lemma_round_between(n, d, 0, 0, false);
            }
        }
        0
    } else {
        let places: u128 = drop as u128;
        let hi: u128 = sig >> places;
        let ghost big = pow2(drop as nat);
        proof {
            lemma_u128_shr_is_div(sig, places);
            lemma_pow2_pos(drop as nat);
            vstd::arithmetic::div_mod::lemma_fundamental_div_mod(sig as int, big as int);
            vstd::arithmetic::div_mod::lemma_mod_pos_bound(sig as int, big as int);
            assert(hi * big <= sig) by (nonlinear_arith)
                requires
                    sig == big * hi + sig as int % (big as int),
                    sig as int % (big as int) >= 0,
            ;
            lemma_u128_shl(hi, places);
            lemma2_to64();
            if drop > 1 {
                lemma_pow2_strictly_increases((drop - 1) as nat, 127);
            }
            assert(pow2(127) == 0x8000_0000_0000_0000_0000_0000_0000_0000) by {
                lemma_pow2_adds(63, 64);
                lemma2_to64_rest();
            }
            assert(pow2((drop - 1) as nat) <= pow2(127)) by {
                if drop - 1 < 127 {
                    lemma_pow2_strictly_increases((drop - 1) as nat, 127);
                }
            }
            lemma_u128_shl(1, (places - 1) as u128);
        }
        let rem: u128 = sig - (hi << places);
        let half: u128 = 1u128 << (places - 1);
        let up: bool = rem > half || (rem == half && (cut || hi % 2 == 1));
        let k: i32 = exp + drop;
        proof {
            assert(hi * big == big * hi) by (nonlinear_arith);
            assert(rem < big);
            // The kept places number at most 53, and exactly 53 unless k is zero.
            lemma2_to64_rest();
            assert(hi < 2 * BINADE) by {
                lemma_pow2_adds(53, drop as nat);
                if len < 53 + drop {
                    lemma_pow2_strictly_increases(len as nat, (53 + drop) as nat);
                }
                assert(sig < pow2(53) * big);
                assert(hi < pow2(53)) by (nonlinear_arith)
                    requires
                        hi * big <= sig,
                        sig < pow2(53) * big,
                ;
            }
            if k > 0 {
                assert(drop == over);
                lemma_pow2_adds(52, drop as nat);
                assert(sig >= pow2(52) * big);
                assert(sig < (hi + 1) * big) by (nonlinear_arith)
                    requires
                        sig == hi * big + rem,
                        rem < big,
                ;
                lemma_cancel(pow2(52), hi as nat + 1, big);
            }
            assert forall|n: nat, d: nat| d > 0 && #[trigger] located(sig as nat, exp as int, cut, n, d)
                implies (k < 2046 ==> rounds_to(
                n,
                d,
                (k as nat * BINADE as nat + hi as nat + if up { 1nat } else { 0nat }),
            )) && (k >= 2046 ==> rounds_to(n, d, INFINITE_STEP as nat)) by {
                lemma_drop(
                    sig as nat,
                    exp as int,
                    cut,
                    drop as nat,
                    hi as nat,
                    rem as nat,
                    up,
                    n,
                    d,
                );
                lemma_round_between(n, d, k as nat, hi as nat, up);
            }
        }
        if k >= 2046 {
            INFINITE_STEP
        } else {
            assert(k * BINADE + hi + 1 <= INFINITE_STEP) by (nonlinear_arith)
                requires
                    0 <= k < 2046,
                    hi < 2 * BINADE,
            ;
            let base: u64 = (k as u64) * BINADE + (hi as u64);
            if up {
                base + 1
            } else {
                base
            }
        }
    }
}

} // verus!

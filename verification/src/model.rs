//! The smoothly broken power law, and magnitudes as fluxes.
//!
//! F(t, nu) = 10^loga * (nu / 1e15)^beta * tau^alpha1
//!            * [0.5 * (1 + tau^(1/D))]^((alpha2 - alpha1) * D)
//! where tau = (t - t0) / tb and D = 10^logd.
use crate::bands::{band_frequency_hz, frequency_of};
use crate::binary64::{
    law_quotient_with_itself, law_signs_are_kept, law_zero_quotient, Binary64,
};
use crate::elementary::{answers, ask, is_function, Elementary};
use crate::magnitude::{law_mean_of_ones, law_times_one};
use crate::numbers::{HALF, LN_10, MAGNITUDE_SCALE, N_PARAMS, ONE, PETA, TEN, ZERO_POINT};
use vstd::prelude::*;

verus! {

/// The product of the model's four factors.
pub open spec fn product(
    ratio: Binary64,
    nu_scaled: Binary64,
    p: Seq<Binary64>,
    f: spec_fn(Elementary) -> Binary64,
) -> Binary64 {
    let ten = Binary64 { bits: TEN };
    let d = f(Elementary::Pow(ten, p[3]));
    let spectral = f(Elementary::Pow(nu_scaled, p[2]));
    let early = f(Elementary::Pow(ratio, p[0]));
    let smooth = f(Elementary::Pow(bend(ratio, p, f), p[1].minus(p[0]).times(d)));
    f(Elementary::Pow(ten, p[4])).times(spectral).times(early).times(smooth)
}

/// The base of the break: 0.5 * (1 + ratio^(1/D)).
pub open spec fn bend(
    ratio: Binary64,
    p: Seq<Binary64>,
    f: spec_fn(Elementary) -> Binary64,
) -> Binary64 {
    let one = Binary64 { bits: ONE };
    let d = f(Elementary::Pow(Binary64 { bits: TEN }, p[3]));
    Binary64 { bits: HALF }.times(one.plus(f(Elementary::Pow(ratio, one.over(d)))))
}

/// The flux at time `t` and scaled frequency `nu_scaled` for the parameters
/// `p = [alpha1, alpha2, beta, logd, loga, tb, t0]`: zero before the onset,
/// not-a-number outside the model's domain.
pub open spec fn flux_at(
    t: Binary64,
    nu_scaled: Binary64,
    p: Seq<Binary64>,
    f: spec_fn(Elementary) -> Binary64,
) -> Binary64 {
    let zero = Binary64::zero();
    let tau = t.minus(p[6]);
    let ratio = tau.over(p[5]);
    let inner = bend(ratio, p, f);
    if p[5].le(zero) || nu_scaled.le(zero) {
        Binary64::nan()
    } else if tau.lt(zero) {
        zero
    } else if ratio.same_value(zero) || !ratio.is_finite() {
        Binary64::nan()
    } else if !inner.is_finite() || inner.le(zero) {
        Binary64::nan()
    } else if product(ratio, nu_scaled, p, f).is_finite() {
        product(ratio, nu_scaled, p, f)
    } else {
        Binary64::nan()
    }
}

/// Evaluates the model at one time and scaled frequency (in units of 1e15 Hz).
pub fn sbpl_model<M: Fn(Elementary) -> Binary64>(
    t: Binary64,
    nu_scaled: Binary64,
    alpha1: Binary64,
    alpha2: Binary64,
    beta: Binary64,
    logd: Binary64,
    loga: Binary64,
    tb: Binary64,
    t0: Binary64,
    math: &M,
) -> (r: Binary64)
    requires
        is_function(*math),
    ensures
        r == flux_at(
            t,
            nu_scaled,
            seq![alpha1, alpha2, beta, logd, loga, tb, t0],
            answers(*math),
        ),
{
    let zero: Binary64 = Binary64::zero();
    let one: Binary64 = Binary64 { bits: ONE };
    let ten: Binary64 = Binary64 { bits: TEN };
    let tau: Binary64 = t.minus(t0);
    if tb.le(zero) || nu_scaled.le(zero) {
        return Binary64::nan();
    }
    if tau.lt(zero) {
        return zero;
    }
    let ratio: Binary64 = tau.over(tb);
    if ratio.same_value(zero) || !ratio.is_finite() {
        return Binary64::nan();
    }
    let d: Binary64 = ask(math, Elementary::Pow(ten, logd));
    let spectral: Binary64 = ask(math, Elementary::Pow(nu_scaled, beta));
    let early: Binary64 = ask(math, Elementary::Pow(ratio, alpha1));
    let inner: Binary64 = Binary64 { bits: HALF }.times(
        one.plus(ask(math, Elementary::Pow(ratio, one.over(d)))),
    );
    if !inner.is_finite() || inner.le(zero) {
        return Binary64::nan();
    }
    let smooth: Binary64 = ask(math, Elementary::Pow(inner, alpha2.minus(alpha1).times(d)));
    let flux: Binary64 = ask(math, Elementary::Pow(ten, loga)).times(spectral).times(early).times(
        smooth,
    );
    if flux.is_finite() {
        flux
    } else {
        Binary64::nan()
    }
}

/// The model of a band at each of the given times; `None` where the band has no
/// known frequency.
pub open spec fn curve(
    p: Seq<Binary64>,
    times: Seq<Binary64>,
    band: Seq<char>,
    f: spec_fn(Elementary) -> Binary64,
) -> Option<Seq<Binary64>> {
    match frequency_of(band) {
        Some(nu) => Some(
            times.map_values(|t: Binary64| flux_at(t, nu.over(Binary64 { bits: PETA }), p, f)),
        ),
        None => None,
    }
}

/// Evaluates the model of a band on a time grid.
pub fn eval_sbpl<M: Fn(Elementary) -> Binary64>(
    params: &[Binary64; N_PARAMS],
    times: &Vec<Binary64>,
    band: &str,
    math: &M,
) -> (r: Option<Vec<Binary64>>)
    requires
        is_function(*math),
    ensures
        match r {
            Some(fluxes) => curve(params@, times@, band@, answers(*math)) == Some(fluxes@),
            None => curve(params@, times@, band@, answers(*math)) is None,
        },
{
    let nu_scaled: Binary64 = match band_frequency_hz(band) {
        Some(nu) => nu.over(Binary64 { bits: PETA }),
        None => {
            return None;
        },
    };
    let mut fluxes: Vec<Binary64> = Vec::with_capacity(times.len());
    let mut i: usize = 0;
    assert(seq![
        params@[0],
        params@[1],
        params@[2],
        params@[3],
        params@[4],
        params@[5],
        params@[6],
    ] =~= params@);
    while i < times.len()
        invariant
            i <= times.len(),
            is_function(*math),
            fluxes.len() == i,
            seq![
                params@[0],
                params@[1],
                params@[2],
                params@[3],
                params@[4],
                params@[5],
                params@[6],
            ] == params@,
            forall|j: int|
                0 <= j < i ==> #[trigger] fluxes@[j] == flux_at(
                    times@[j],
                    nu_scaled,
                    params@,
                    answers(*math),
                ),
        decreases times.len() - i,
    {
        fluxes.push(
            sbpl_model(
                times[i],
                nu_scaled,
                params[0],
                params[1],
                params[2],
                params[3],
                params[4],
                params[5],
                params[6],
                math,
            ),
        );
        i += 1;
    }
    assert(fluxes@ =~= times@.map_values(
        |t: Binary64| flux_at(t, nu_scaled, params@, answers(*math)),
    ));
    Some(fluxes)
}

/// Flux and flux error of a magnitude.
pub open spec fn flux_of(mag: Binary64, mag_err: Binary64, f: spec_fn(Elementary) -> Binary64) -> (
    Binary64,
    Binary64,
) {
    let scale = Binary64 { bits: MAGNITUDE_SCALE };
    let flux = f(
        Elementary::Pow(Binary64 { bits: TEN }, Binary64 { bits: ZERO_POINT }.minus(mag).over(scale)),
    );
    (flux, flux.times(mag_err).times(Binary64 { bits: LN_10 }).over(scale))
}

/// Converts a magnitude with its error to a flux with its error.
pub fn mag_to_flux<M: Fn(Elementary) -> Binary64>(
    mag: Binary64,
    mag_err: Binary64,
    math: &M,
) -> (r: (Binary64, Binary64))
    requires
        is_function(*math),
    ensures
        r == flux_of(mag, mag_err, answers(*math)),
{
    let scale: Binary64 = Binary64 { bits: MAGNITUDE_SCALE };
    let exponent: Binary64 = Binary64 { bits: ZERO_POINT }.minus(mag).over(scale);
    let flux: Binary64 = ask(math, Elementary::Pow(Binary64 { bits: TEN }, exponent));
    let flux_err: Binary64 = flux.times(mag_err).times(Binary64 { bits: LN_10 }).over(scale);
    (flux, flux_err)
}

/// Before the onset the model is zero, whatever the other parameters, as long as
/// the break time and the frequency are not at or below zero.
pub proof fn law_no_flux_before_onset(
    t: Binary64,
    nu_scaled: Binary64,
    p: Seq<Binary64>,
    f: spec_fn(Elementary) -> Binary64,
)
    requires
        t.minus(p[6]).lt(Binary64::zero()),
        !p[5].le(Binary64::zero()),
        !nu_scaled.le(Binary64::zero()),
    ensures
        flux_at(t, nu_scaled, p, f) == Binary64::zero(),
{
}

/// The model is finite, or the quiet not-a-number that marks a domain error.
pub proof fn law_flux_is_finite_or_nan(
    t: Binary64,
    nu_scaled: Binary64,
    p: Seq<Binary64>,
    f: spec_fn(Elementary) -> Binary64,
)
    ensures
        flux_at(t, nu_scaled, p, f).is_finite() || flux_at(t, nu_scaled, p, f) == Binary64::nan(),
{
}

/// A power of a number without a sign has none.
pub open spec fn powers_have_no_sign(f: spec_fn(Elementary) -> Binary64) -> bool {
    forall|x: Binary64, y: Binary64|
        !x.negative() ==> !(#[trigger] f(Elementary::Pow(x, y))).negative()
}

/// The model is never below zero.
pub proof fn law_flux_is_not_negative(
    t: Binary64,
    nu_scaled: Binary64,
    p: Seq<Binary64>,
    f: spec_fn(Elementary) -> Binary64,
)
    requires
        powers_have_no_sign(f),
        !nu_scaled.is_nan(),
    ensures
        !flux_at(t, nu_scaled, p, f).lt(Binary64::zero()),
{
    reveal(Binary64::spec_over);
    let zero = Binary64::zero();
    let ten = Binary64 { bits: TEN };
    let tau = t.minus(p[6]);
    let ratio = tau.over(p[5]);
    if !p[5].le(zero) && !nu_scaled.le(zero) && !tau.lt(zero) && !ratio.same_value(zero)
        && ratio.is_finite() && !bend(ratio, p, f).le(zero) && bend(ratio, p, f).is_finite() {
        assert(!p[5].negative());
        assert(!nu_scaled.negative());
        assert(!ratio.negative()) by {
            if tau.negative() {
                if !tau.is_nan() {
                    law_zero_quotient(tau, p[5]);
                }
            } else {
                law_signs_are_kept(tau, p[5]);
            }
        }
        let d = f(Elementary::Pow(ten, p[3]));
        let amplitude = f(Elementary::Pow(ten, p[4]));
        let spectral = f(Elementary::Pow(nu_scaled, p[2]));
        let early = f(Elementary::Pow(ratio, p[0]));
        law_signs_are_kept(amplitude, spectral);
        law_signs_are_kept(amplitude.times(spectral), early);
        let inner = bend(ratio, p, f);
        let smooth = f(Elementary::Pow(inner, p[1].minus(p[0]).times(d)));
        law_signs_are_kept(amplitude.times(spectral).times(early), smooth);
    }
}

/// One to any power is one.
pub open spec fn one_stays_one(f: spec_fn(Elementary) -> Binary64) -> bool {
    forall|y: Binary64|
        (#[trigger] f(Elementary::Pow(Binary64 { bits: ONE }, y))) == (Binary64 { bits: ONE })
}

/// At the break, where the time since the onset is the break time, the model is the
/// amplitude times the spectral factor, whatever the slopes and the smoothness.
pub proof fn law_flux_at_break(
    t: Binary64,
    nu_scaled: Binary64,
    p: Seq<Binary64>,
    f: spec_fn(Elementary) -> Binary64,
)
    requires
        one_stays_one(f),
        t.minus(p[6]) == p[5],
        p[5].is_finite(),
        Binary64::zero().lt(p[5]),
        Binary64::zero().lt(nu_scaled),
        f(Elementary::Pow(Binary64 { bits: TEN }, p[4])).times(
            f(Elementary::Pow(nu_scaled, p[2])),
        ).is_finite(),
    ensures
        flux_at(t, nu_scaled, p, f) == f(Elementary::Pow(Binary64 { bits: TEN }, p[4])).times(
            f(Elementary::Pow(nu_scaled, p[2])),
        ),
{
    let one = Binary64 { bits: ONE };
    let ratio = t.minus(p[6]).over(p[5]);
    law_quotient_with_itself(p[5]);
    assert(ratio == one);
    law_mean_of_ones();
    assert(bend(ratio, p, f) == one);
    let peak = f(Elementary::Pow(Binary64 { bits: TEN }, p[4])).times(
        f(Elementary::Pow(nu_scaled, p[2])),
    );
    law_times_one(peak);
}

} // verus!

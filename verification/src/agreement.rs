//! How the objective compares with the model itself.
//!
//! The objective adds logarithms where the model multiplies powers. Where both come
//! to the same flux, the objective is the reduced chi-squared of the model; where
//! they come near each other, so do the two values.
use crate::binary64::{
    law_order_is_exact, law_signs_are_kept, lemma_negated_units, lemma_units_positive, Binary64,
};
use crate::cost::{
    bad_frequency, finite_data, lemma_variance_is_positive, objective, raw_sum, reading_of, shape_of,
    summed, variance_of, Reading, SbplObs, Shape,
};
use crate::elementary::Elementary;
use crate::ladder::lemma_rounded_exact;
use crate::magnitude::{
    law_adding_zero, law_counts_are_positive, law_quotients_are_ordered, law_squares_are_ordered,
    law_sums_are_ordered, law_sums_of_magnitudes_are_ordered,
};
use crate::model::{flux_at, law_no_flux_before_onset};
use crate::numbers::TEN_BILLION;
use vstd::prelude::*;

verus! {

/// Chi-squared of the model itself, summed over the first `n` observations; `None`
/// where the model is undefined at one of them.
pub open spec fn model_sum(
    obs: Seq<SbplObs>,
    p: Seq<Binary64>,
    f: spec_fn(Elementary) -> Binary64,
    n: nat,
) -> Option<Binary64>
    decreases n,
{
    if n == 0 {
        Some(Binary64::zero())
    } else {
        let o = obs[n - 1];
        let flux = flux_at(o.time, o.nu_scaled, p, f);
        match model_sum(obs, p, f, (n - 1) as nat) {
            None => None,
            Some(chi2) => if flux.is_nan() {
                None
            } else {
                let residual = o.flux.minus(flux);
                Some(chi2.plus(residual.times(residual).over(variance_of(o))))
            },
        }
    }
}

/// Reduced chi-squared of the model itself; the failure value where the model is
/// undefined at some observation, or there is none.
pub open spec fn model_chi2(
    obs: Seq<SbplObs>,
    p: Seq<Binary64>,
    f: spec_fn(Elementary) -> Binary64,
) -> Binary64 {
    match model_sum(obs, p, f, obs.len()) {
        Some(chi2) if obs.len() > 0 => chi2.over(Binary64::of_count(obs.len() as u64)),
        _ => Binary64 { bits: TEN_BILLION },
    }
}

/// At an observation after the onset, the model as a sum of logarithms comes to the
/// same number, or fails as, the model as a product of powers.
pub open spec fn forms_agree(
    o: SbplObs,
    ln_nu: Binary64,
    p: Seq<Binary64>,
    f: spec_fn(Elementary) -> Binary64,
) -> bool {
    match reading_of(shape_of(p, f), o, ln_nu, f) {
        Reading::Before => true,
        Reading::Invalid => flux_at(o.time, o.nu_scaled, p, f).is_nan(),
        Reading::After(m) => flux_at(o.time, o.nu_scaled, p, f) == m.flux,
    }
}

/// A number less zero squares to what the number squares to.
proof fn lemma_less_zero(a: Binary64)
    ensures
        a.minus(Binary64::zero()).times(a.minus(Binary64::zero())) == a.times(a),
{
    reveal(Binary64::spec_plus);
    if a.is_nan() {
        reveal(Binary64::spec_times);
    } else if a.is_finite() {
        lemma_units_positive(a.step());
        lemma_units_positive(0);
        lemma_negated_units(Binary64::zero());
        lemma_rounded_exact(a.step(), 1);
        assert(a.minus(Binary64::zero()) == a);
    }
}

proof fn lemma_sums_agree(
    obs: Seq<SbplObs>,
    ln_nu: Seq<Binary64>,
    p: Seq<Binary64>,
    f: spec_fn(Elementary) -> Binary64,
    n: nat,
)
    requires
        n <= obs.len(),
        !bad_frequency(obs),
        !p[5].le(Binary64::zero()),
        forall|i: int| 0 <= i < obs.len() ==> forms_agree(#[trigger] obs[i], ln_nu[i], p, f),
    ensures
        summed(shape_of(p, f), obs, ln_nu, f, n) is Some <==> model_sum(obs, p, f, n) is Some,
        summed(shape_of(p, f), obs, ln_nu, f, n) is Some ==> summed(
            shape_of(p, f),
            obs,
            ln_nu,
            f,
            n,
        ).unwrap().0 == model_sum(obs, p, f, n).unwrap(),
    decreases n,
{
    if n > 0 {
        lemma_sums_agree(obs, ln_nu, p, f, (n - 1) as nat);
        let o = obs[n - 1];
        assert(forms_agree(o, ln_nu[n - 1], p, f));
        assert(!o.nu_scaled.le(Binary64::zero()));
        let reading = reading_of(shape_of(p, f), o, ln_nu[n - 1], f);
        if reading == Reading::Before {
            law_no_flux_before_onset(o.time, o.nu_scaled, p, f);
            lemma_less_zero(o.flux);
        }
    }
}

/// The objective is the reduced chi-squared of the model, wherever the two forms of
/// the model agree at the observations after the onset.
pub proof fn law_cost_is_chi2_of_the_model(
    obs: Seq<SbplObs>,
    ln_nu: Seq<Binary64>,
    p: Seq<Binary64>,
    f: spec_fn(Elementary) -> Binary64,
)
    requires
        forall|i: int| 0 <= i < obs.len() ==> forms_agree(#[trigger] obs[i], ln_nu[i], p, f),
    ensures
        objective(obs, ln_nu, p, f).0 == model_chi2(obs, p, f),
{
    let zero = Binary64::zero();
    if bad_frequency(obs) {
        let i = choose|i: int| 0 <= i < obs.len() && (#[trigger] obs[i]).nu_scaled.le(zero);
        lemma_undefined_somewhere(obs, p, f, i, obs.len());
    } else if p[5].le(zero) && obs.len() > 0 {
        lemma_undefined_somewhere(obs, p, f, 0, obs.len());
    } else if obs.len() > 0 {
        lemma_sums_agree(obs, ln_nu, p, f, obs.len());
    }
}

/// One observation at which the model is undefined leaves no sum.
proof fn lemma_undefined_somewhere(
    obs: Seq<SbplObs>,
    p: Seq<Binary64>,
    f: spec_fn(Elementary) -> Binary64,
    i: int,
    n: nat,
)
    requires
        0 <= i < n <= obs.len(),
        flux_at(obs[i].time, obs[i].nu_scaled, p, f).is_nan(),
    ensures
        model_sum(obs, p, f, n) is None,
    decreases n,
{
    if i < n - 1 {
        lemma_undefined_somewhere(obs, p, f, i, (n - 1) as nat);
    }
}

/// What the model leaves of the flux of an observation.
pub open spec fn residual_of(o: SbplObs, reading: Reading) -> Binary64 {
    match reading {
        Reading::After(m) => o.flux.minus(m.flux),
        _ => o.flux,
    }
}

/// Squared residuals over variances, summed over the first `n` observations.
pub open spec fn residual_sum(obs: Seq<SbplObs>, residuals: Seq<Binary64>, n: nat) -> Binary64
    decreases n,
{
    if n == 0 {
        Binary64::zero()
    } else {
        let r = residuals[n - 1];
        residual_sum(obs, residuals, (n - 1) as nat).plus(
            r.times(r).over(variance_of(obs[n - 1])),
        )
    }
}

/// Reduced chi-squared of given residuals.
pub open spec fn residual_chi2(obs: Seq<SbplObs>, residuals: Seq<Binary64>) -> Binary64 {
    residual_sum(obs, residuals, obs.len()).over(Binary64::of_count(obs.len() as u64))
}

proof fn lemma_residuals_are_ordered(
    obs: Seq<SbplObs>,
    small: Seq<Binary64>,
    large: Seq<Binary64>,
    n: nat,
)
    requires
        n <= obs.len(),
        forall|i: int|
            0 <= i < obs.len() ==> finite_data(#[trigger] obs[i]) && residual_between(
                small[i],
                small[i],
                large[i],
            ),
    ensures
        residual_sum(obs, small, n).le(residual_sum(obs, large, n)),
        !residual_sum(obs, small, n).negative(),
        !residual_sum(obs, large, n).negative(),
    decreases n,
{
    if n > 0 {
        lemma_residuals_are_ordered(obs, small, large, (n - 1) as nat);
        let (x, y) = (small[n - 1], large[n - 1]);
        let v = variance_of(obs[n - 1]);
        assert(finite_data(obs[n - 1]));
        lemma_variance_is_positive(obs[n - 1]);
        law_squares_are_ordered(x, y);
        law_signs_are_kept(x, x);
        law_signs_are_kept(y, y);
        law_quotients_are_ordered(x.times(x), y.times(y), v);
        law_signs_are_kept(x.times(x), v);
        law_signs_are_kept(y.times(y), v);
        let (a, c) = (
            residual_sum(obs, small, (n - 1) as nat),
            residual_sum(obs, large, (n - 1) as nat),
        );
        law_sums_of_magnitudes_are_ordered(a, x.times(x).over(v), c, y.times(y).over(v));
        law_signs_are_kept(a, x.times(x).over(v));
        law_signs_are_kept(c, y.times(y).over(v));
    }
}

proof fn lemma_sum_of_residuals(
    s: Shape,
    obs: Seq<SbplObs>,
    ln_nu: Seq<Binary64>,
    f: spec_fn(Elementary) -> Binary64,
    residuals: Seq<Binary64>,
    n: nat,
)
    requires
        n <= obs.len(),
        summed(s, obs, ln_nu, f, n) is Some,
        forall|i: int|
            0 <= i < obs.len() ==> #[trigger] residuals[i] == residual_of(
                obs[i],
                reading_of(s, obs[i], ln_nu[i], f),
            ),
    ensures
        summed(s, obs, ln_nu, f, n).unwrap().0 == residual_sum(obs, residuals, n),
    decreases n,
{
    if n > 0 {
        lemma_sum_of_residuals(s, obs, ln_nu, f, residuals, (n - 1) as nat);
        assert(residuals[n - 1] == residual_of(
            obs[n - 1],
            reading_of(s, obs[n - 1], ln_nu[n - 1], f),
        ));
    }
}

/// The magnitude of a residual lies between two others.
pub open spec fn residual_between(r: Binary64, small: Binary64, large: Binary64) -> bool {
    small.step() <= r.step() && r.step() <= large.step() && !large.is_nan()
}

/// Where the objective does not fail it grows with the residuals. If every residual
/// is known to lie between two magnitudes, however closely the elementary functions
/// allow, then the objective lies between their reduced chi-squared.
pub proof fn law_cost_grows_with_residuals(
    obs: Seq<SbplObs>,
    ln_nu: Seq<Binary64>,
    p: Seq<Binary64>,
    f: spec_fn(Elementary) -> Binary64,
    small: Seq<Binary64>,
    large: Seq<Binary64>,
)
    requires
        obs.len() <= u64::MAX,
        raw_sum(obs, ln_nu, p, f) is Some,
        forall|i: int| 0 <= i < obs.len() ==> finite_data(#[trigger] obs[i]),
        forall|i: int|
            0 <= i < obs.len() ==> residual_between(
                residual_of(#[trigger] obs[i], reading_of(shape_of(p, f), obs[i], ln_nu[i], f)),
                small[i],
                large[i],
            ),
    ensures
        residual_chi2(obs, small).le(objective(obs, ln_nu, p, f).0),
        objective(obs, ln_nu, p, f).0.le(residual_chi2(obs, large)),
{
    let s = shape_of(p, f);
    let own = Seq::new(
        obs.len(),
        |i: int| residual_of(obs[i], reading_of(s, obs[i], ln_nu[i], f)),
    );
    assert forall|i: int| 0 <= i < obs.len() implies finite_data(#[trigger] obs[i])
        && residual_between(own[i], small[i], large[i]) by {
        assert(residual_between(
            residual_of(obs[i], reading_of(s, obs[i], ln_nu[i], f)),
            small[i],
            large[i],
        ));
    }
    lemma_sum_of_residuals(s, obs, ln_nu, f, own, obs.len());
    lemma_residuals_are_ordered(obs, small, own, obs.len());
    lemma_residuals_are_ordered(obs, own, large, obs.len());
    let n = Binary64::of_count(obs.len() as u64);
    law_counts_are_positive(obs.len() as u64);
    let mid = residual_sum(obs, own, obs.len());
    law_quotients_are_ordered(residual_sum(obs, small, obs.len()), mid, n);
    law_quotients_are_ordered(mid, residual_sum(obs, large, obs.len()), n);
}

/// The residual of largest magnitude that a model flux from `low` to `high` leaves.
pub open spec fn largest_residual(o: SbplObs, low: Binary64, high: Binary64) -> Binary64 {
    let (x, y) = (o.flux.minus(low), o.flux.minus(high));
    if y.step() <= x.step() {
        x
    } else {
        y
    }
}

/// The residual of smallest magnitude that a model flux from `low` to `high` leaves.
pub open spec fn smallest_residual(o: SbplObs, low: Binary64, high: Binary64) -> Binary64 {
    let (x, y) = (o.flux.minus(low), o.flux.minus(high));
    if x.lt(Binary64::zero()) {
        x
    } else if Binary64::zero().lt(y) {
        y
    } else {
        Binary64::zero()
    }
}

/// The residual of a model flux from `low` to `high`.
proof fn lemma_residual_between(o: SbplObs, low: Binary64, high: Binary64, flux: Binary64)
    requires
        o.flux.is_finite(),
        low.is_finite(),
        high.is_finite(),
        low.le(flux),
        flux.le(high),
    ensures
        smallest_residual(o, low, high).step() <= o.flux.minus(flux).step(),
        o.flux.minus(flux).step() <= largest_residual(o, low, high).step(),
        !largest_residual(o, low, high).is_nan(),
{
    law_order_is_exact(low, flux);
    law_order_is_exact(flux, high);
    lemma_negated_units(low);
    lemma_negated_units(flux);
    lemma_negated_units(high);
    law_sums_are_ordered(o.flux, flux.negated(), o.flux, low.negated());
    law_sums_are_ordered(o.flux, high.negated(), o.flux, flux.negated());
}

/// Zero taken from a finite number leaves its magnitude.
proof fn lemma_magnitude_less_zero(a: Binary64)
    requires
        a.is_finite(),
    ensures
        a.minus(Binary64::zero()).step() == a.step(),
{
    law_adding_zero(a, Binary64::zero().negated());
}

/// The model is defined at an observation and leaves the given residual.
spec fn leaves(
    o: SbplObs,
    p: Seq<Binary64>,
    f: spec_fn(Elementary) -> Binary64,
    residual: Binary64,
) -> bool {
    let flux = flux_at(o.time, o.nu_scaled, p, f);
    !flux.is_nan() && residual == o.flux.minus(flux)
}

proof fn lemma_model_residuals(
    obs: Seq<SbplObs>,
    p: Seq<Binary64>,
    f: spec_fn(Elementary) -> Binary64,
    residuals: Seq<Binary64>,
    n: nat,
)
    requires
        n <= obs.len(),
        forall|i: int| 0 <= i < obs.len() ==> leaves(#[trigger] obs[i], p, f, residuals[i]),
    ensures
        model_sum(obs, p, f, n) == Some(residual_sum(obs, residuals, n)),
    decreases n,
{
    if n > 0 {
        lemma_model_residuals(obs, p, f, residuals, (n - 1) as nat);
        let o = obs[n - 1];
        assert(leaves(o, p, f, residuals[n - 1]));
    }
}

/// At an observation the model is defined, and both its forms lie from `low` to
/// `high`.
pub open spec fn forms_between(
    o: SbplObs,
    ln_nu: Binary64,
    p: Seq<Binary64>,
    f: spec_fn(Elementary) -> Binary64,
    low: Binary64,
    high: Binary64,
) -> bool {
    let flux = flux_at(o.time, o.nu_scaled, p, f);
    &&& low.is_finite() && high.is_finite()
    &&& low.le(flux) && flux.le(high)
    &&& match reading_of(shape_of(p, f), o, ln_nu, f) {
        Reading::Before => true,
        Reading::Invalid => false,
        Reading::After(m) => low.le(m.flux) && m.flux.le(high),
    }
}

/// The objective is as near to the reduced chi-squared of the model as the two forms
/// of the model are to each other: where both lie from `low` to `high` at every
/// observation, both values lie between the reduced chi-squared of the smallest and
/// that of the largest residuals which that allows.
pub proof fn law_cost_is_near_chi2_of_the_model(
    obs: Seq<SbplObs>,
    ln_nu: Seq<Binary64>,
    p: Seq<Binary64>,
    f: spec_fn(Elementary) -> Binary64,
    low: Seq<Binary64>,
    high: Seq<Binary64>,
)
    requires
        0 < obs.len() <= u64::MAX,
        raw_sum(obs, ln_nu, p, f) is Some,
        forall|i: int| 0 <= i < obs.len() ==> finite_data(#[trigger] obs[i]),
        forall|i: int|
            0 <= i < obs.len() ==> forms_between(
                #[trigger] obs[i],
                ln_nu[i],
                p,
                f,
                low[i],
                high[i],
            ),
    ensures
        ({
            let small = Seq::new(obs.len(), |i: int| smallest_residual(obs[i], low[i], high[i]));
            let large = Seq::new(obs.len(), |i: int| largest_residual(obs[i], low[i], high[i]));
            let cost = objective(obs, ln_nu, p, f).0;
            let chi2 = model_chi2(obs, p, f);
            &&& residual_chi2(obs, small).le(cost) && cost.le(residual_chi2(obs, large))
            &&& residual_chi2(obs, small).le(chi2) && chi2.le(residual_chi2(obs, large))
        }),
{
    let small = Seq::new(obs.len(), |i: int| smallest_residual(obs[i], low[i], high[i]));
    let large = Seq::new(obs.len(), |i: int| largest_residual(obs[i], low[i], high[i]));
    let own = Seq::new(
        obs.len(),
        |i: int| obs[i].flux.minus(flux_at(obs[i].time, obs[i].nu_scaled, p, f)),
    );
    assert forall|i: int| 0 <= i < obs.len() implies residual_between(
        residual_of(#[trigger] obs[i], reading_of(shape_of(p, f), obs[i], ln_nu[i], f)),
        small[i],
        large[i],
    ) && residual_between(own[i], small[i], large[i]) by {
        let o = obs[i];
        assert(finite_data(o));
        assert(forms_between(o, ln_nu[i], p, f, low[i], high[i]));
        let flux = flux_at(o.time, o.nu_scaled, p, f);
        lemma_residual_between(o, low[i], high[i], flux);
        match reading_of(shape_of(p, f), o, ln_nu[i], f) {
            Reading::After(m) => {
                lemma_residual_between(o, low[i], high[i], m.flux);
            },
            _ => {
                assert(!o.nu_scaled.le(Binary64::zero()));
                law_no_flux_before_onset(o.time, o.nu_scaled, p, f);
                lemma_magnitude_less_zero(o.flux);
            },
        }
    }
    law_cost_grows_with_residuals(obs, ln_nu, p, f, small, large);
    assert forall|i: int| 0 <= i < obs.len() implies leaves(#[trigger] obs[i], p, f, own[i]) by {
        assert(forms_between(obs[i], ln_nu[i], p, f, low[i], high[i]));
    }
    lemma_model_residuals(obs, p, f, own, obs.len());
    lemma_residuals_are_ordered(obs, small, own, obs.len());
    lemma_residuals_are_ordered(obs, own, large, obs.len());
    let n = Binary64::of_count(obs.len() as u64);
    law_counts_are_positive(obs.len() as u64);
    let mid = residual_sum(obs, own, obs.len());
    law_quotients_are_ordered(residual_sum(obs, small, obs.len()), mid, n);
    law_quotients_are_ordered(mid, residual_sum(obs, large, obs.len()), n);
}

} // verus!

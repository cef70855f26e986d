//! What the objective and the model are, told step by step.
use crate::bands::frequency_of;
use crate::binary64::Binary64;
use crate::cost::{
    chi2_term, gradient_step, logarithms_of, no_gradient, objective, observations_of, reading_of,
    shape_of, source_cost, summed, variance_of, Reading, SbplObs,
};
use crate::elementary::Elementary;
use crate::model::{curve, flux_at, flux_of};
use crate::numbers::{
    HALF, LN_10, MAGNITUDE_SCALE, MINUS_TWO, N_PARAMS, ONE, PETA, TEN, TEN_BILLION, TINY,
    ZERO_POINT,
};
use crate::source::Source;
use vstd::prelude::*;

verus! {

/// The variance of an observation is the square of its error and 1e-30, whatever its
/// flux, time and frequency: observations with one error have one variance.
pub proof fn law_variance_is_of_the_error(o: SbplObs, other: SbplObs)
    ensures
        variance_of(o) == o.flux_err.times(o.flux_err).plus(Binary64 { bits: TINY }),
        o.flux_err == other.flux_err ==> variance_of(o) == variance_of(other),
        o.flux_err == other.flux_err.negated() ==> variance_of(o) == variance_of(other),
{
    lemma_square_of_negated(other.flux_err);
}

/// A number and its opposite have one square.
proof fn lemma_square_of_negated(a: Binary64)
    ensures
        a.negated().times(a.negated()) == a.times(a),
{
    reveal(Binary64::spec_times);
    crate::binary64::lemma_negated_units(a);
}

/// The share of an observation: the square of what the model leaves of its flux, over
/// the variance, where the model leaves all of it before the onset. There the sign of
/// the flux does not matter.
pub proof fn law_terms_are_squares_over_variance(o: SbplObs, reading: Reading)
    ensures
        ({
            let variance = o.flux_err.times(o.flux_err).plus(Binary64 { bits: TINY });
            let opposite = SbplObs {
                time: o.time,
                nu_scaled: o.nu_scaled,
                flux: o.flux.negated(),
                flux_err: o.flux_err,
            };
            &&& reading == Reading::Before ==> chi2_term(o, reading) == o.flux.times(o.flux).over(
                variance,
            )
            &&& reading == Reading::Before ==> chi2_term(opposite, reading) == chi2_term(o, reading)
            &&& reading matches Reading::After(m) ==> chi2_term(o, reading) == o.flux.minus(
                m.flux,
            ).times(o.flux.minus(m.flux)).over(variance)
        }),
{
    lemma_square_of_negated(o.flux);
}

/// The sign of the flux of an observation before the onset does not matter to the
/// objective.
pub proof fn law_sign_before_the_onset_is_lost(
    obs: Seq<SbplObs>,
    ln_nu: Seq<Binary64>,
    p: Seq<Binary64>,
    f: spec_fn(Elementary) -> Binary64,
    k: int,
)
    requires
        0 <= k < obs.len(),
        obs[k].time.minus(p[6]).lt(Binary64::zero()),
    ensures
        ({
            let opposite = SbplObs {
                time: obs[k].time,
                nu_scaled: obs[k].nu_scaled,
                flux: obs[k].flux.negated(),
                flux_err: obs[k].flux_err,
            };
            objective(obs.update(k, opposite), ln_nu, p, f) == objective(obs, ln_nu, p, f)
        }),
{
    let opposite = SbplObs {
        time: obs[k].time,
        nu_scaled: obs[k].nu_scaled,
        flux: obs[k].flux.negated(),
        flux_err: obs[k].flux_err,
    };
    let more = obs.update(k, opposite);
    lemma_sign_in_sum(obs, more, ln_nu, p, f, k, obs.len());
    if crate::cost::bad_frequency(obs) {
        let i = choose|i: int|
            0 <= i < obs.len() && (#[trigger] obs[i]).nu_scaled.le(Binary64::zero());
        assert(more[i].nu_scaled.le(Binary64::zero()));
    }
    if crate::cost::bad_frequency(more) {
        let i = choose|i: int|
            0 <= i < more.len() && (#[trigger] more[i]).nu_scaled.le(Binary64::zero());
        assert(obs[i].nu_scaled.le(Binary64::zero()));
    }
}

proof fn lemma_sign_in_sum(
    obs: Seq<SbplObs>,
    more: Seq<SbplObs>,
    ln_nu: Seq<Binary64>,
    p: Seq<Binary64>,
    f: spec_fn(Elementary) -> Binary64,
    k: int,
    n: nat,
)
    requires
        0 <= k < obs.len(),
        n <= obs.len(),
        obs[k].time.minus(p[6]).lt(Binary64::zero()),
        more == obs.update(
            k,
            (SbplObs {
                time: obs[k].time,
                nu_scaled: obs[k].nu_scaled,
                flux: obs[k].flux.negated(),
                flux_err: obs[k].flux_err,
            }),
        ),
    ensures
        summed(shape_of(p, f), more, ln_nu, f, n) == summed(shape_of(p, f), obs, ln_nu, f, n),
    decreases n,
{
    if n > 0 {
        lemma_sign_in_sum(obs, more, ln_nu, p, f, k, (n - 1) as nat);
        law_terms_are_squares_over_variance(obs[k], Reading::Before);
    }
}

/// The objective, step by step. For each observation: the time since the onset; the
/// logarithm of that time in break times; its power 1/D; the base of the break; its
/// logarithm; and the model, whose logarithm is the sum of those of amplitude,
/// spectral factor, early power law and break. The objective fails without
/// observations, with a frequency or a break time at or below zero, and where some
/// observation after the onset is outside the model's domain; failing, it is 1e10
/// with a zero gradient. Else chi-squared is summed up observation by observation,
/// and divided by their number.
pub proof fn law_objective_step_by_step(
    obs: Seq<SbplObs>,
    ln_nu: Seq<Binary64>,
    p: Seq<Binary64>,
    f: spec_fn(Elementary) -> Binary64,
    d: Binary64,
    tau: Seq<Binary64>,
    ln_ratio: Seq<Binary64>,
    q: Seq<Binary64>,
    inner: Seq<Binary64>,
    ln_inner: Seq<Binary64>,
    model: Seq<Binary64>,
    chi2: Seq<Binary64>,
)
    requires
        d == f(Elementary::Pow(Binary64 { bits: TEN }, p[3])),
        forall|i: int| 0 <= i < obs.len() ==> #[trigger] tau[i] == obs[i].time.minus(p[6]),
        forall|i: int|
            0 <= i < obs.len() ==> #[trigger] ln_ratio[i] == f(Elementary::Ln(tau[i].over(p[5]))),
        forall|i: int|
            0 <= i < obs.len() ==> #[trigger] q[i] == f(
                Elementary::Exp(ln_ratio[i].times(Binary64 { bits: ONE }.over(d))),
            ),
        forall|i: int|
            0 <= i < obs.len() ==> #[trigger] inner[i] == (Binary64 { bits: HALF }).times(
                (Binary64 { bits: ONE }).plus(q[i]),
            ),
        forall|i: int| 0 <= i < obs.len() ==> #[trigger] ln_inner[i] == f(Elementary::Ln(inner[i])),
        forall|i: int|
            0 <= i < obs.len() ==> #[trigger] model[i] == f(
                Elementary::Exp(
                    p[4].times(Binary64 { bits: LN_10 }).plus(p[2].times(ln_nu[i])).plus(
                        p[0].times(ln_ratio[i]),
                    ).plus(p[1].minus(p[0]).times(d).times(ln_inner[i])),
                ),
            ),
        chi2[0] == Binary64::zero(),
        forall|i: int|
            0 <= i < obs.len() ==> {
                let e = (#[trigger] obs[i]).flux_err;
                let left = obs[i].flux.minus(model[i]);
                chi2[i + 1] == chi2[i].plus(
                    if tau[i].lt(Binary64::zero()) {
                        obs[i].flux.times(obs[i].flux).over(
                            e.times(e).plus(Binary64 { bits: TINY }),
                        )
                    } else {
                        left.times(left).over(e.times(e).plus(Binary64 { bits: TINY }))
                    },
                )
            },
    ensures
        ({
            let zero = Binary64::zero();
            let fails = obs.len() == 0 || p[5].le(zero) || (exists|i: int|
                0 <= i < obs.len() && (#[trigger] obs[i]).nu_scaled.le(zero)) || (exists|i: int|
                0 <= i < obs.len() && !(#[trigger] tau[i]).lt(zero) && (tau[i].over(
                    p[5],
                ).same_value(zero) || !tau[i].over(p[5]).is_finite() || !inner[i].is_finite()
                    || inner[i].le(zero) || !model[i].is_finite()));
            &&& objective(obs, ln_nu, p, f).1.len() == N_PARAMS
            &&& fails ==> objective(obs, ln_nu, p, f).0 == (Binary64 { bits: TEN_BILLION })
            &&& fails ==> forall|j: int|
                0 <= j < N_PARAMS ==> #[trigger] objective(obs, ln_nu, p, f).1[j] == zero
            &&& !fails ==> objective(obs, ln_nu, p, f).0 == chi2[obs.len() as int].over(
                Binary64::of_count(obs.len() as u64),
            )
        }),
{
    let s = shape_of(p, f);
    let zero = Binary64::zero();
    lemma_sum_step_by_step(
        obs,
        ln_nu,
        p,
        f,
        d,
        tau,
        ln_ratio,
        q,
        inner,
        ln_inner,
        model,
        chi2,
        obs.len(),
    );
}

proof fn lemma_sum_step_by_step(
    obs: Seq<SbplObs>,
    ln_nu: Seq<Binary64>,
    p: Seq<Binary64>,
    f: spec_fn(Elementary) -> Binary64,
    d: Binary64,
    tau: Seq<Binary64>,
    ln_ratio: Seq<Binary64>,
    q: Seq<Binary64>,
    inner: Seq<Binary64>,
    ln_inner: Seq<Binary64>,
    model: Seq<Binary64>,
    chi2: Seq<Binary64>,
    n: nat,
)
    requires
        n <= obs.len(),
        d == f(Elementary::Pow(Binary64 { bits: TEN }, p[3])),
        forall|i: int| 0 <= i < obs.len() ==> #[trigger] tau[i] == obs[i].time.minus(p[6]),
        forall|i: int|
            0 <= i < obs.len() ==> #[trigger] ln_ratio[i] == f(Elementary::Ln(tau[i].over(p[5]))),
        forall|i: int|
            0 <= i < obs.len() ==> #[trigger] q[i] == f(
                Elementary::Exp(ln_ratio[i].times(Binary64 { bits: ONE }.over(d))),
            ),
        forall|i: int|
            0 <= i < obs.len() ==> #[trigger] inner[i] == (Binary64 { bits: HALF }).times(
                (Binary64 { bits: ONE }).plus(q[i]),
            ),
        forall|i: int| 0 <= i < obs.len() ==> #[trigger] ln_inner[i] == f(Elementary::Ln(inner[i])),
        forall|i: int|
            0 <= i < obs.len() ==> #[trigger] model[i] == f(
                Elementary::Exp(
                    p[4].times(Binary64 { bits: LN_10 }).plus(p[2].times(ln_nu[i])).plus(
                        p[0].times(ln_ratio[i]),
                    ).plus(p[1].minus(p[0]).times(d).times(ln_inner[i])),
                ),
            ),
        chi2[0] == Binary64::zero(),
        forall|i: int|
            0 <= i < obs.len() ==> {
                let e = (#[trigger] obs[i]).flux_err;
                let left = obs[i].flux.minus(model[i]);
                chi2[i + 1] == chi2[i].plus(
                    if tau[i].lt(Binary64::zero()) {
                        obs[i].flux.times(obs[i].flux).over(
                            e.times(e).plus(Binary64 { bits: TINY }),
                        )
                    } else {
                        left.times(left).over(e.times(e).plus(Binary64 { bits: TINY }))
                    },
                )
            },
    ensures
        ({
            let zero = Binary64::zero();
            let fails = exists|i: int|
                0 <= i < n && !(#[trigger] tau[i]).lt(zero) && (tau[i].over(p[5]).same_value(zero)
                    || !tau[i].over(p[5]).is_finite() || !inner[i].is_finite() || inner[i].le(zero)
                    || !model[i].is_finite());
            let sum = summed(shape_of(p, f), obs, ln_nu, f, n);
            &&& sum is None <==> fails
            &&& sum is Some ==> sum.unwrap().0 == chi2[n as int] && sum.unwrap().1.len() == N_PARAMS
        }),
    decreases n,
{
    if n > 0 {
        lemma_sum_step_by_step(
            obs,
            ln_nu,
            p,
            f,
            d,
            tau,
            ln_ratio,
            q,
            inner,
            ln_inner,
            model,
            chi2,
            (n - 1) as nat,
        );
        let i = n - 1;
        let o = obs[i];
        assert(tau[i] == o.time.minus(p[6]));
        assert(ln_ratio[i] == f(Elementary::Ln(tau[i].over(p[5]))));
        assert(q[i] == f(Elementary::Exp(ln_ratio[i].times(Binary64 { bits: ONE }.over(d)))));
        assert(ln_inner[i] == f(Elementary::Ln(inner[i])));
        let zero = Binary64::zero();
        let bad = !tau[i].lt(zero) && (tau[i].over(p[5]).same_value(zero) || !tau[i].over(
            p[5],
        ).is_finite() || !inner[i].is_finite() || inner[i].le(zero) || !model[i].is_finite());
        assert(bad <==> reading_of(shape_of(p, f), o, ln_nu[i], f) == Reading::Invalid);
    }
}

/// The gradient, step by step, where the objective does not fail: each observation
/// after the onset adds, for each parameter, d chi2 / d ln F times d ln F / d
/// parameter; the sums are divided by the number of observations.
pub proof fn law_gradient_step_by_step(
    obs: Seq<SbplObs>,
    ln_nu: Seq<Binary64>,
    p: Seq<Binary64>,
    f: spec_fn(Elementary) -> Binary64,
    d: Binary64,
    tau: Seq<Binary64>,
    ln_ratio: Seq<Binary64>,
    q: Seq<Binary64>,
    inner: Seq<Binary64>,
    ln_inner: Seq<Binary64>,
    model: Seq<Binary64>,
    w: Seq<Binary64>,
    bend: Seq<Binary64>,
    slope: Seq<Binary64>,
    grad: Seq<Seq<Binary64>>,
)
    requires
        obs.len() > 0,
        !p[5].le(Binary64::zero()),
        forall|i: int|
            0 <= i < obs.len() ==> !(#[trigger] obs[i]).nu_scaled.le(Binary64::zero()),
        d == f(Elementary::Pow(Binary64 { bits: TEN }, p[3])),
        forall|i: int| 0 <= i < obs.len() ==> #[trigger] tau[i] == obs[i].time.minus(p[6]),
        forall|i: int|
            0 <= i < obs.len() ==> #[trigger] ln_ratio[i] == f(Elementary::Ln(tau[i].over(p[5]))),
        forall|i: int|
            0 <= i < obs.len() ==> #[trigger] q[i] == f(
                Elementary::Exp(ln_ratio[i].times(Binary64 { bits: ONE }.over(d))),
            ),
        forall|i: int|
            0 <= i < obs.len() ==> #[trigger] inner[i] == (Binary64 { bits: HALF }).times(
                (Binary64 { bits: ONE }).plus(q[i]),
            ),
        forall|i: int| 0 <= i < obs.len() ==> #[trigger] ln_inner[i] == f(Elementary::Ln(inner[i])),
        forall|i: int|
            0 <= i < obs.len() ==> #[trigger] model[i] == f(
                Elementary::Exp(
                    p[4].times(Binary64 { bits: LN_10 }).plus(p[2].times(ln_nu[i])).plus(
                        p[0].times(ln_ratio[i]),
                    ).plus(p[1].minus(p[0]).times(d).times(ln_inner[i])),
                ),
            ),
        forall|i: int|
            0 <= i < obs.len() && !(#[trigger] tau[i]).lt(Binary64::zero()) ==> !tau[i].over(
                p[5],
            ).same_value(Binary64::zero()) && tau[i].over(p[5]).is_finite() && inner[i].is_finite()
                && !inner[i].le(Binary64::zero()) && model[i].is_finite(),
        forall|i: int|
            0 <= i < obs.len() ==> {
                let e = obs[i].flux_err;
                #[trigger] w[i] == (Binary64 { bits: MINUS_TWO }).times(
                    obs[i].flux.minus(model[i]),
                ).times(model[i]).over(e.times(e).plus(Binary64 { bits: TINY }))
            },
        forall|i: int|
            0 <= i < obs.len() ==> #[trigger] bend[i] == (Binary64 { bits: HALF }).times(q[i]).over(
                inner[i],
            ),
        forall|i: int|
            0 <= i < obs.len() ==> #[trigger] slope[i] == p[0].plus(
                p[1].minus(p[0]).times(bend[i]),
            ),
        forall|j: int| 0 <= j < N_PARAMS ==> #[trigger] grad[0][j] == Binary64::zero(),
        forall|i: int, j: int|
            0 <= i < obs.len() && 0 <= j < N_PARAMS && (#[trigger] tau[i]).lt(Binary64::zero())
                ==> grad[i + 1][j] == #[trigger] grad[i][j],
        forall|i: int|
            0 <= i < obs.len() && !(#[trigger] tau[i]).lt(Binary64::zero()) ==> {
                let ln_10 = Binary64 { bits: LN_10 };
                &&& grad[i + 1][0] == grad[i][0].plus(
                    w[i].times(ln_ratio[i].minus(d.times(ln_inner[i]))),
                )
                &&& grad[i + 1][1] == grad[i][1].plus(w[i].times(d).times(ln_inner[i]))
                &&& grad[i + 1][2] == grad[i][2].plus(w[i].times(ln_nu[i]))
                &&& grad[i + 1][3] == grad[i][3].plus(
                    w[i].times(ln_10).times(p[1].minus(p[0])).times(
                        d.times(ln_inner[i]).minus(bend[i].times(ln_ratio[i])),
                    ),
                )
                &&& grad[i + 1][4] == grad[i][4].plus(w[i].times(ln_10))
                &&& grad[i + 1][5] == grad[i][5].minus(w[i].times(slope[i]).over(p[5]))
                &&& grad[i + 1][6] == grad[i][6].minus(w[i].times(slope[i]).over(tau[i]))
            },
    ensures
        objective(obs, ln_nu, p, f).1.len() == N_PARAMS,
        forall|j: int|
            0 <= j < N_PARAMS ==> #[trigger] objective(obs, ln_nu, p, f).1[j]
                == grad[obs.len() as int][j].over(Binary64::of_count(obs.len() as u64)),
{
    lemma_gradient_step_by_step(
        obs,
        ln_nu,
        p,
        f,
        d,
        tau,
        ln_ratio,
        q,
        inner,
        ln_inner,
        model,
        w,
        bend,
        slope,
        grad,
        obs.len(),
    );
}

proof fn lemma_gradient_step_by_step(
    obs: Seq<SbplObs>,
    ln_nu: Seq<Binary64>,
    p: Seq<Binary64>,
    f: spec_fn(Elementary) -> Binary64,
    d: Binary64,
    tau: Seq<Binary64>,
    ln_ratio: Seq<Binary64>,
    q: Seq<Binary64>,
    inner: Seq<Binary64>,
    ln_inner: Seq<Binary64>,
    model: Seq<Binary64>,
    w: Seq<Binary64>,
    bend: Seq<Binary64>,
    slope: Seq<Binary64>,
    grad: Seq<Seq<Binary64>>,
    n: nat,
)
    requires
        n <= obs.len(),
        d == f(Elementary::Pow(Binary64 { bits: TEN }, p[3])),
        forall|i: int| 0 <= i < obs.len() ==> #[trigger] tau[i] == obs[i].time.minus(p[6]),
        forall|i: int|
            0 <= i < obs.len() ==> #[trigger] ln_ratio[i] == f(Elementary::Ln(tau[i].over(p[5]))),
        forall|i: int|
            0 <= i < obs.len() ==> #[trigger] q[i] == f(
                Elementary::Exp(ln_ratio[i].times(Binary64 { bits: ONE }.over(d))),
            ),
        forall|i: int|
            0 <= i < obs.len() ==> #[trigger] inner[i] == (Binary64 { bits: HALF }).times(
                (Binary64 { bits: ONE }).plus(q[i]),
            ),
        forall|i: int| 0 <= i < obs.len() ==> #[trigger] ln_inner[i] == f(Elementary::Ln(inner[i])),
        forall|i: int|
            0 <= i < obs.len() ==> #[trigger] model[i] == f(
                Elementary::Exp(
                    p[4].times(Binary64 { bits: LN_10 }).plus(p[2].times(ln_nu[i])).plus(
                        p[0].times(ln_ratio[i]),
                    ).plus(p[1].minus(p[0]).times(d).times(ln_inner[i])),
                ),
            ),
        forall|i: int|
            0 <= i < obs.len() && !(#[trigger] tau[i]).lt(Binary64::zero()) ==> !tau[i].over(
                p[5],
            ).same_value(Binary64::zero()) && tau[i].over(p[5]).is_finite() && inner[i].is_finite()
                && !inner[i].le(Binary64::zero()) && model[i].is_finite(),
        forall|i: int|
            0 <= i < obs.len() ==> {
                let e = obs[i].flux_err;
                #[trigger] w[i] == (Binary64 { bits: MINUS_TWO }).times(
                    obs[i].flux.minus(model[i]),
                ).times(model[i]).over(e.times(e).plus(Binary64 { bits: TINY }))
            },
        forall|i: int|
            0 <= i < obs.len() ==> #[trigger] bend[i] == (Binary64 { bits: HALF }).times(q[i]).over(
                inner[i],
            ),
        forall|i: int|
            0 <= i < obs.len() ==> #[trigger] slope[i] == p[0].plus(
                p[1].minus(p[0]).times(bend[i]),
            ),
        forall|j: int| 0 <= j < N_PARAMS ==> #[trigger] grad[0][j] == Binary64::zero(),
        forall|i: int, j: int|
            0 <= i < obs.len() && 0 <= j < N_PARAMS && (#[trigger] tau[i]).lt(Binary64::zero())
                ==> grad[i + 1][j] == #[trigger] grad[i][j],
        forall|i: int|
            0 <= i < obs.len() && !(#[trigger] tau[i]).lt(Binary64::zero()) ==> {
                let ln_10 = Binary64 { bits: LN_10 };
                &&& grad[i + 1][0] == grad[i][0].plus(
                    w[i].times(ln_ratio[i].minus(d.times(ln_inner[i]))),
                )
                &&& grad[i + 1][1] == grad[i][1].plus(w[i].times(d).times(ln_inner[i]))
                &&& grad[i + 1][2] == grad[i][2].plus(w[i].times(ln_nu[i]))
                &&& grad[i + 1][3] == grad[i][3].plus(
                    w[i].times(ln_10).times(p[1].minus(p[0])).times(
                        d.times(ln_inner[i]).minus(bend[i].times(ln_ratio[i])),
                    ),
                )
                &&& grad[i + 1][4] == grad[i][4].plus(w[i].times(ln_10))
                &&& grad[i + 1][5] == grad[i][5].minus(w[i].times(slope[i]).over(p[5]))
                &&& grad[i + 1][6] == grad[i][6].minus(w[i].times(slope[i]).over(tau[i]))
            },
    ensures
        ({
            let sum = summed(shape_of(p, f), obs, ln_nu, f, n);
            &&& sum is Some
            &&& sum.unwrap().1.len() == N_PARAMS
            &&& forall|j: int| 0 <= j < N_PARAMS ==> #[trigger] sum.unwrap().1[j] == grad[n as int][j]
        }),
    decreases n,
{
    if n == 0 {
        assert forall|j: int| 0 <= j < N_PARAMS implies #[trigger] no_gradient()[j]
            == grad[0][j] by {}
    } else {
        lemma_gradient_step_by_step(
            obs,
            ln_nu,
            p,
            f,
            d,
            tau,
            ln_ratio,
            q,
            inner,
            ln_inner,
            model,
            w,
            bend,
            slope,
            grad,
            (n - 1) as nat,
        );
        let i = n - 1;
        let o = obs[i];
        let s = shape_of(p, f);
        let before = summed(s, obs, ln_nu, f, (n - 1) as nat).unwrap().1;
        let reading = reading_of(s, o, ln_nu[i], f);
        let after = gradient_step(before, s, o, ln_nu[i], reading);
        assert(tau[i] == o.time.minus(p[6]));
        assert(ln_ratio[i] == f(Elementary::Ln(tau[i].over(p[5]))));
        assert(q[i] == f(Elementary::Exp(ln_ratio[i].times(Binary64 { bits: ONE }.over(d)))));
        assert(inner[i] == (Binary64 { bits: HALF }).times(Binary64 { bits: ONE }.plus(q[i])));
        assert(ln_inner[i] == f(Elementary::Ln(inner[i])));
        assert(before[0] == grad[i][0] && before[1] == grad[i][1] && before[2] == grad[i][2]
            && before[3] == grad[i][3] && before[4] == grad[i][4] && before[5] == grad[i][5]
            && before[6] == grad[i][6]);
        if tau[i].lt(Binary64::zero()) {
            assert(reading == Reading::Before);
            assert forall|j: int| 0 <= j < N_PARAMS implies #[trigger] after[j]
                == grad[n as int][j] by {
                assert(grad[i + 1][j] == grad[i][j]);
                assert(before[j] == grad[i][j]);
            }
        } else {
            assert(reading is After);
            let m = reading->After_0;
            assert(m.flux == model[i] && m.inner == inner[i] && m.q == q[i] && m.ln_inner
                == ln_inner[i] && m.ln_ratio == ln_ratio[i] && m.tau == tau[i]);
            assert(w[i] == (Binary64 { bits: MINUS_TWO }).times(o.flux.minus(m.flux)).times(
                m.flux,
            ).over(variance_of(o)));
            assert(bend[i] == (Binary64 { bits: HALF }).times(m.q).over(m.inner));
            assert(slope[i] == p[0].plus(p[1].minus(p[0]).times(bend[i])));
            assert(after[0] == grad[n as int][0]);
            assert(after[1] == grad[n as int][1]);
            assert(after[2] == grad[n as int][2]);
            assert(after[3] == grad[n as int][3]);
            assert(after[4] == grad[n as int][4]);
            assert(after[5] == grad[n as int][5]);
            assert(after[6] == grad[n as int][6]);
        }
    }
}

/// What the objective of a source is made of: its times, scaled frequencies, fluxes
/// and errors, in order, and the natural logarithms of the frequencies.
pub proof fn law_source_is_what_is_fitted(
    s: Source,
    p: Seq<Binary64>,
    f: spec_fn(Elementary) -> Binary64,
)
    ensures
        observations_of(s).len() == s.times.len(),
        logarithms_of(s, f).len() == s.times.len(),
        forall|i: int|
            0 <= i < s.times.len() ==> {
                let o = #[trigger] observations_of(s)[i];
                &&& o.time == s.times[i]
                &&& o.nu_scaled == s.nu_scaled[i]
                &&& o.flux == s.flux[i]
                &&& o.flux_err == s.flux_err[i]
            },
        forall|i: int|
            0 <= i < s.times.len() ==> #[trigger] logarithms_of(s, f)[i] == f(
                Elementary::Ln(s.nu_scaled[i]),
            ),
        source_cost(s, f)(p) == objective(observations_of(s), logarithms_of(s, f), p, f).0,
{
}

/// The model in full. It has no value where break time or frequency is at or below
/// zero, and is zero before the onset. After it, it is the product of the amplitude
/// 10^loga, the spectral factor nu^beta, the early power law ratio^alpha1 and the
/// break, wherever ratio, break and product are within their domain.
pub proof fn law_model_is_a_product(
    t: Binary64,
    nu: Binary64,
    p: Seq<Binary64>,
    f: spec_fn(Elementary) -> Binary64,
)
    ensures
        ({
            let zero = Binary64::zero();
            let one = Binary64 { bits: ONE };
            let ten = Binary64 { bits: TEN };
            let tau = t.minus(p[6]);
            let ratio = tau.over(p[5]);
            let d = f(Elementary::Pow(ten, p[3]));
            let inner = (Binary64 { bits: HALF }).times(
                one.plus(f(Elementary::Pow(ratio, one.over(d)))),
            );
            let whole = f(Elementary::Pow(ten, p[4])).times(f(Elementary::Pow(nu, p[2]))).times(
                f(Elementary::Pow(ratio, p[0])),
            ).times(f(Elementary::Pow(inner, p[1].minus(p[0]).times(d))));
            let posed = !p[5].le(zero) && !nu.le(zero);
            let sound = !ratio.same_value(zero) && ratio.is_finite() && inner.is_finite()
                && !inner.le(zero) && whole.is_finite();
            &&& !posed ==> flux_at(t, nu, p, f) == Binary64::nan()
            &&& posed && tau.lt(zero) ==> flux_at(t, nu, p, f) == zero
            &&& posed && !tau.lt(zero) && sound ==> flux_at(t, nu, p, f) == whole
            &&& posed && !tau.lt(zero) && !sound ==> flux_at(t, nu, p, f) == Binary64::nan()
        }),
{
}

/// The model of a band is the model at the band's frequency, in units of 1e15 Hz, at
/// each of the times in turn; a band without a frequency has none.
pub proof fn law_curve_is_the_model_at_each_time(
    p: Seq<Binary64>,
    times: Seq<Binary64>,
    band: Seq<char>,
    f: spec_fn(Elementary) -> Binary64,
)
    ensures
        curve(p, times, band, f) is Some <==> frequency_of(band) is Some,
        curve(p, times, band, f) matches Some(fluxes) ==> {
            let nu = (frequency_of(band)->0).over(Binary64 { bits: PETA });
            &&& fluxes.len() == times.len()
            &&& forall|i: int|
                0 <= i < times.len() ==> #[trigger] fluxes[i] == flux_at(times[i], nu, p, f)
        },
{
}

/// A magnitude as a flux: ten to the power of what it is below the zero point over
/// 2.5, with an error that is the flux times the magnitude's error times ln 10 over
/// 2.5.
pub proof fn law_flux_of_a_magnitude(
    mag: Binary64,
    mag_err: Binary64,
    f: spec_fn(Elementary) -> Binary64,
)
    ensures
        flux_of(mag, mag_err, f).0 == f(
            Elementary::Pow(
                Binary64 { bits: TEN },
                (Binary64 { bits: ZERO_POINT }).minus(mag).over(Binary64 { bits: MAGNITUDE_SCALE }),
            ),
        ),
        flux_of(mag, mag_err, f).1 == flux_of(mag, mag_err, f).0.times(mag_err).times(
            Binary64 { bits: LN_10 },
        ).over(Binary64 { bits: MAGNITUDE_SCALE }),
{
}

} // verus!

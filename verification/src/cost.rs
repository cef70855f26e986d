//! The reduced chi-squared objective and its gradient.
use crate::binary64::{law_counts_have_no_sign, law_signs_are_kept, lemma_units_positive, Binary64};
use crate::elementary::{answers, ask, is_function, Elementary};
use crate::magnitude::{
    law_adding_zero, law_counts_are_positive, law_results_are_numbers, law_sums_are_ordered,
};
use crate::numbers::{HALF, LN_10, MINUS_TWO, N_PARAMS, ONE, TEN, TEN_BILLION, TINY};
use crate::source::{PreparedSource, Source};
use vstd::prelude::*;

verus! {

/// One observation in the flattened fitting space: flux normalised by the
/// source's largest flux, frequency scaled by 1e15 Hz.
#[derive(Clone, Copy, Debug, PartialEq, Eq, Structural)]
pub struct SbplObs {
    pub time: Binary64,
    pub nu_scaled: Binary64,
    pub flux: Binary64,
    pub flux_err: Binary64,
}

/// What one parameter vector fixes for all observations.
#[derive(Clone, Copy, Debug, PartialEq, Eq, Structural)]
pub struct Shape {
    pub alpha1: Binary64,
    pub alpha2: Binary64,
    pub beta: Binary64,
    pub tb: Binary64,
    pub t0: Binary64,
    /// Break smoothness D = 10^logd.
    pub d: Binary64,
    /// 1 / D
    pub inv_d: Binary64,
    /// (alpha2 - alpha1) * D
    pub k: Binary64,
    /// ln(10^loga)
    pub ln_amp: Binary64,
}

/// The model at one observation, in logarithms.
#[derive(Clone, Copy, Debug, PartialEq, Eq, Structural)]
pub struct Modelled {
    pub tau: Binary64,
    pub ln_ratio: Binary64,
    /// ratio^(1/D)
    pub q: Binary64,
    pub inner: Binary64,
    pub ln_inner: Binary64,
    pub flux: Binary64,
}

/// Where one observation stands under a parameter vector.
#[derive(Clone, Copy, Debug, PartialEq, Eq, Structural)]
pub enum Reading {
    /// Before the onset, where the model is zero.
    Before,
    /// Outside the model's domain.
    Invalid,
    /// After the onset.
    After(Modelled),
}

/// The shape that a parameter vector describes.
pub open spec fn shape_of(p: Seq<Binary64>, f: spec_fn(Elementary) -> Binary64) -> Shape {
    let d = f(Elementary::Pow(Binary64 { bits: TEN }, p[3]));
    Shape {
        alpha1: p[0],
        alpha2: p[1],
        beta: p[2],
        tb: p[5],
        t0: p[6],
        d,
        inv_d: Binary64 { bits: ONE }.over(d),
        k: p[1].minus(p[0]).times(d),
        ln_amp: p[4].times(Binary64 { bits: LN_10 }),
    }
}

/// Variance of an observation, kept away from zero.
pub open spec fn variance_of(o: SbplObs) -> Binary64 {
    o.flux_err.times(o.flux_err).plus(Binary64 { bits: TINY })
}

/// The model at an observation: ln F is the sum of the logarithms of amplitude,
/// spectral factor, early power law and smooth break.
pub open spec fn reading_of(
    s: Shape,
    o: SbplObs,
    ln_nu: Binary64,
    f: spec_fn(Elementary) -> Binary64,
) -> Reading {
    let tau = o.time.minus(s.t0);
    let ratio = tau.over(s.tb);
    let ln_ratio = f(Elementary::Ln(ratio));
    let q = f(Elementary::Exp(ln_ratio.times(s.inv_d)));
    let inner = Binary64 { bits: HALF }.times(Binary64 { bits: ONE }.plus(q));
    let ln_inner = f(Elementary::Ln(inner));
    let ln_flux = s.ln_amp.plus(s.beta.times(ln_nu)).plus(s.alpha1.times(ln_ratio)).plus(
        s.k.times(ln_inner),
    );
    let flux = f(Elementary::Exp(ln_flux));
    if tau.lt(Binary64::zero()) {
        Reading::Before
    } else if ratio.same_value(Binary64::zero()) || !ratio.is_finite() {
        Reading::Invalid
    } else if !inner.is_finite() || inner.le(Binary64::zero()) {
        Reading::Invalid
    } else if !flux.is_finite() {
        Reading::Invalid
    } else {
        Reading::After(Modelled { tau, ln_ratio, q, inner, ln_inner, flux })
    }
}

/// Squared residual over variance.
pub open spec fn chi2_term(o: SbplObs, reading: Reading) -> Binary64 {
    match reading {
        Reading::After(m) => {
            let residual = o.flux.minus(m.flux);
            residual.times(residual).over(variance_of(o))
        },
        _ => o.flux.times(o.flux).over(variance_of(o)),
    }
}

/// The gradient of the sum so far, with one observation's share added. The share
/// of a parameter is d chi2 / d ln F times d ln F / d parameter.
pub open spec fn gradient_step(
    grad: Seq<Binary64>,
    s: Shape,
    o: SbplObs,
    ln_nu: Binary64,
    reading: Reading,
) -> Seq<Binary64> {
    match reading {
        Reading::After(m) => {
            let residual = o.flux.minus(m.flux);
            let w = Binary64 { bits: MINUS_TWO }.times(residual).times(m.flux).over(variance_of(o));
            let bend = Binary64 { bits: HALF }.times(m.q).over(m.inner);
            let rise = s.alpha2.minus(s.alpha1);
            let slope = s.alpha1.plus(rise.times(bend));
            let ln_10 = Binary64 { bits: LN_10 };
            seq![
                grad[0].plus(w.times(m.ln_ratio.minus(s.d.times(m.ln_inner)))),
                grad[1].plus(w.times(s.d).times(m.ln_inner)),
                grad[2].plus(w.times(ln_nu)),
                grad[3].plus(
                    w.times(ln_10).times(rise).times(
                        s.d.times(m.ln_inner).minus(bend.times(m.ln_ratio)),
                    ),
                ),
                grad[4].plus(w.times(ln_10)),
                grad[5].minus(w.times(slope).over(s.tb)),
                grad[6].minus(w.times(slope).over(m.tau)),
            ]
        },
        _ => grad,
    }
}

/// Seven zeros.
pub open spec fn no_gradient() -> Seq<Binary64> {
    Seq::new(N_PARAMS as nat, |i: int| Binary64::zero())
}

/// Chi-squared and gradient summed over the first `n` observations; `None` where
/// one of them is outside the model's domain.
pub open spec fn summed(
    s: Shape,
    obs: Seq<SbplObs>,
    ln_nu: Seq<Binary64>,
    f: spec_fn(Elementary) -> Binary64,
    n: nat,
) -> Option<(Binary64, Seq<Binary64>)>
    decreases n,
{
    if n == 0 {
        Some((Binary64::zero(), no_gradient()))
    } else {
        let i = n - 1;
        let reading = reading_of(s, obs[i], ln_nu[i], f);
        match summed(s, obs, ln_nu, f, (n - 1) as nat) {
            None => None,
            Some((chi2, grad)) => if reading == Reading::Invalid {
                None
            } else {
                Some(
                    (
                        chi2.plus(chi2_term(obs[i], reading)),
                        gradient_step(grad, s, obs[i], ln_nu[i], reading),
                    ),
                )
            },
        }
    }
}

/// Some observation has no positive frequency.
pub open spec fn bad_frequency(obs: Seq<SbplObs>) -> bool {
    exists|i: int| 0 <= i < obs.len() && (#[trigger] obs[i]).nu_scaled.le(Binary64::zero())
}

/// The sum that the objective divides, or `None` where the objective fails.
pub open spec fn raw_sum(
    obs: Seq<SbplObs>,
    ln_nu: Seq<Binary64>,
    p: Seq<Binary64>,
    f: spec_fn(Elementary) -> Binary64,
) -> Option<(Binary64, Seq<Binary64>)> {
    if obs.len() == 0 || bad_frequency(obs) || p[5].le(Binary64::zero()) {
        None
    } else {
        summed(shape_of(p, f), obs, ln_nu, f, obs.len())
    }
}

/// Reduced chi-squared and its gradient at `p`; the failure value, with a zero
/// gradient, where the model is undefined at some observation.
pub open spec fn objective(
    obs: Seq<SbplObs>,
    ln_nu: Seq<Binary64>,
    p: Seq<Binary64>,
    f: spec_fn(Elementary) -> Binary64,
) -> (Binary64, Seq<Binary64>) {
    match raw_sum(obs, ln_nu, p, f) {
        None => (Binary64 { bits: TEN_BILLION }, no_gradient()),
        Some((chi2, grad)) => {
            let n = Binary64::of_count(obs.len() as u64);
            (chi2.over(n), grad.map_values(|g: Binary64| g.over(n)))
        },
    }
}

/// The objective, as a function of the parameters alone.
pub open spec fn cost_function(
    obs: Seq<SbplObs>,
    ln_nu: Seq<Binary64>,
    f: spec_fn(Elementary) -> Binary64,
) -> spec_fn(Seq<Binary64>) -> Binary64 {
    |p: Seq<Binary64>| objective(obs, ln_nu, p, f).0
}

/// Where the objective fails its gradient is zero.
pub proof fn law_failure_has_no_gradient(
    obs: Seq<SbplObs>,
    ln_nu: Seq<Binary64>,
    p: Seq<Binary64>,
    f: spec_fn(Elementary) -> Binary64,
)
    requires
        raw_sum(obs, ln_nu, p, f) is None,
    ensures
        objective(obs, ln_nu, p, f).0 == (Binary64 { bits: TEN_BILLION }),
        forall|i: int|
            0 <= i < N_PARAMS ==> objective(obs, ln_nu, p, f).1[i] == Binary64::zero(),
{
}

/// The objective is never below zero.
pub proof fn law_cost_is_not_negative(
    obs: Seq<SbplObs>,
    ln_nu: Seq<Binary64>,
    p: Seq<Binary64>,
    f: spec_fn(Elementary) -> Binary64,
)
    ensures
        !objective(obs, ln_nu, p, f).0.lt(Binary64::zero()),
        !objective(obs, ln_nu, p, f).0.negative(),
{
    if raw_sum(obs, ln_nu, p, f) is Some {
        lemma_sum_is_not_negative(shape_of(p, f), obs, ln_nu, f, obs.len());
        law_counts_have_no_sign(obs.len() as u64);
        law_signs_are_kept(
            raw_sum(obs, ln_nu, p, f).unwrap().0,
            Binary64::of_count(obs.len() as u64),
        );
    }
}

proof fn lemma_sum_is_not_negative(
    s: Shape,
    obs: Seq<SbplObs>,
    ln_nu: Seq<Binary64>,
    f: spec_fn(Elementary) -> Binary64,
    n: nat,
)
    requires
        summed(s, obs, ln_nu, f, n) is Some,
    ensures
        !summed(s, obs, ln_nu, f, n).unwrap().0.negative(),
    decreases n,
{
    if n > 0 {
        lemma_sum_is_not_negative(s, obs, ln_nu, f, (n - 1) as nat);
        let o = obs[n - 1];
        let reading = reading_of(s, o, ln_nu[n - 1], f);
        let variance = variance_of(o);
        let residual = match reading {
            Reading::After(m) => o.flux.minus(m.flux),
            _ => o.flux,
        };
        law_signs_are_kept(o.flux_err, o.flux_err);
        law_signs_are_kept(o.flux_err.times(o.flux_err), Binary64 { bits: TINY });
        law_signs_are_kept(residual, residual);
        law_signs_are_kept(residual.times(residual), variance);
        law_signs_are_kept(
            summed(s, obs, ln_nu, f, (n - 1) as nat).unwrap().0,
            chi2_term(o, reading),
        );
    }
}

/// The observation has a finite flux and a finite variance.
pub open spec fn finite_data(o: SbplObs) -> bool {
    o.flux.is_finite() && variance_of(o).is_finite()
}

/// A variance that is finite is above zero.
pub proof fn lemma_variance_is_positive(o: SbplObs)
    requires
        variance_of(o).is_finite(),
    ensures
        Binary64::zero().lt(variance_of(o)),
{
    let square = o.flux_err.times(o.flux_err);
    let tiny = Binary64 { bits: TINY };
    law_signs_are_kept(o.flux_err, o.flux_err);
    law_signs_are_kept(square, tiny);
    if square.is_finite() {
        lemma_units_positive(square.step());
        lemma_units_positive(0);
        law_sums_are_ordered(tiny, Binary64::zero(), square, tiny);
        law_adding_zero(tiny, Binary64::zero());
    } else {
        reveal(Binary64::spec_plus);
    }
}

proof fn lemma_sum_is_a_number(
    s: Shape,
    obs: Seq<SbplObs>,
    ln_nu: Seq<Binary64>,
    f: spec_fn(Elementary) -> Binary64,
    n: nat,
)
    requires
        n <= obs.len(),
        summed(s, obs, ln_nu, f, n) is Some,
        forall|i: int| 0 <= i < obs.len() ==> finite_data(#[trigger] obs[i]),
    ensures
        !summed(s, obs, ln_nu, f, n).unwrap().0.is_nan(),
    decreases n,
{
    if n > 0 {
        lemma_sum_is_a_number(s, obs, ln_nu, f, (n - 1) as nat);
        lemma_sum_is_not_negative(s, obs, ln_nu, f, (n - 1) as nat);
        let o = obs[n - 1];
        assert(finite_data(o));
        let reading = reading_of(s, o, ln_nu[n - 1], f);
        let variance = variance_of(o);
        let residual = match reading {
            Reading::After(m) => o.flux.minus(m.flux),
            _ => o.flux,
        };
        if let Reading::After(m) = reading {
            law_results_are_numbers(o.flux, m.flux);
        }
        lemma_variance_is_positive(o);
        law_results_are_numbers(residual, residual);
        law_results_are_numbers(residual.times(residual), variance);
        law_signs_are_kept(residual, residual);
        law_signs_are_kept(residual.times(residual), variance);
        law_results_are_numbers(
            summed(s, obs, ln_nu, f, (n - 1) as nat).unwrap().0,
            chi2_term(o, reading),
        );
    }
}

/// On finite fluxes and variances the objective is a number at every parameter
/// vector, whatever the elementary functions answer.
pub proof fn law_cost_is_a_number(
    obs: Seq<SbplObs>,
    ln_nu: Seq<Binary64>,
    p: Seq<Binary64>,
    f: spec_fn(Elementary) -> Binary64,
)
    requires
        obs.len() <= u64::MAX,
        forall|i: int| 0 <= i < obs.len() ==> finite_data(#[trigger] obs[i]),
    ensures
        !objective(obs, ln_nu, p, f).0.is_nan(),
{
    if raw_sum(obs, ln_nu, p, f) is Some {
        lemma_sum_is_a_number(shape_of(p, f), obs, ln_nu, f, obs.len());
        law_counts_are_positive(obs.len() as u64);
        law_results_are_numbers(
            raw_sum(obs, ln_nu, p, f).unwrap().0,
            Binary64::of_count(obs.len() as u64),
        );
    }
}

/// Once the sum has failed it stays failed.
proof fn lemma_failure_stays(
    s: Shape,
    obs: Seq<SbplObs>,
    ln_nu: Seq<Binary64>,
    f: spec_fn(Elementary) -> Binary64,
    k: nat,
    n: nat,
)
    requires
        k <= n,
        summed(s, obs, ln_nu, f, k) is None,
    ensures
        summed(s, obs, ln_nu, f, n) is None,
    decreases n,
{
    if k < n {
        lemma_failure_stays(s, obs, ln_nu, f, k, (n - 1) as nat);
    }
}

/// The model at one observation.
fn read<M: Fn(Elementary) -> Binary64>(s: &Shape, o: &SbplObs, ln_nu: Binary64, math: &M) -> (r:
    Reading)
    requires
        is_function(*math),
    ensures
        r == reading_of(*s, *o, ln_nu, answers(*math)),
{
    let tau: Binary64 = o.time.minus(s.t0);
    if tau.lt(Binary64::zero()) {
        return Reading::Before;
    }
    let ratio: Binary64 = tau.over(s.tb);
    if ratio.same_value(Binary64::zero()) || !ratio.is_finite() {
        return Reading::Invalid;
    }
    let ln_ratio: Binary64 = ask(math, Elementary::Ln(ratio));
    let q: Binary64 = ask(math, Elementary::Exp(ln_ratio.times(s.inv_d)));
    let inner: Binary64 = Binary64 { bits: HALF }.times(Binary64 { bits: ONE }.plus(q));
    if !inner.is_finite() || inner.le(Binary64::zero()) {
        return Reading::Invalid;
    }
    let ln_inner: Binary64 = ask(math, Elementary::Ln(inner));
    let ln_flux: Binary64 = s.ln_amp.plus(s.beta.times(ln_nu)).plus(s.alpha1.times(ln_ratio)).plus(
        s.k.times(ln_inner),
    );
    let flux: Binary64 = ask(math, Elementary::Exp(ln_flux));
    if !flux.is_finite() {
        return Reading::Invalid;
    }
    Reading::After(Modelled { tau, ln_ratio, q, inner, ln_inner, flux })
}

/// One observation's share of the sum.
fn term(o: &SbplObs, reading: &Reading) -> (r: Binary64)
    ensures
        r == chi2_term(*o, *reading),
{
    let variance: Binary64 = o.flux_err.times(o.flux_err).plus(Binary64 { bits: TINY });
    match reading {
        Reading::After(m) => {
            let residual: Binary64 = o.flux.minus(m.flux);
            residual.times(residual).over(variance)
        },
        _ => o.flux.times(o.flux).over(variance),
    }
}

/// The gradient with one observation's share added.
fn climb(grad: Vec<Binary64>, s: &Shape, o: &SbplObs, ln_nu: Binary64, reading: &Reading) -> (r: Vec<
    Binary64,
>)
    requires
        grad.len() == N_PARAMS,
    ensures
        r@ == gradient_step(grad@, *s, *o, ln_nu, *reading),
        r.len() == N_PARAMS,
{
    match reading {
        Reading::After(m) => {
            let variance: Binary64 = o.flux_err.times(o.flux_err).plus(Binary64 { bits: TINY });
            let residual: Binary64 = o.flux.minus(m.flux);
            let w: Binary64 = Binary64 { bits: MINUS_TWO }.times(residual).times(m.flux).over(
                variance,
            );
            let bend: Binary64 = Binary64 { bits: HALF }.times(m.q).over(m.inner);
            let rise: Binary64 = s.alpha2.minus(s.alpha1);
            let slope: Binary64 = s.alpha1.plus(rise.times(bend));
            let ln_10: Binary64 = Binary64 { bits: LN_10 };
            let mut next: Vec<Binary64> = Vec::with_capacity(N_PARAMS);
            next.push(grad[0].plus(w.times(m.ln_ratio.minus(s.d.times(m.ln_inner)))));
            next.push(grad[1].plus(w.times(s.d).times(m.ln_inner)));
            next.push(grad[2].plus(w.times(ln_nu)));
            next.push(
                grad[3].plus(
                    w.times(ln_10).times(rise).times(
                        s.d.times(m.ln_inner).minus(bend.times(m.ln_ratio)),
                    ),
                ),
            );
            next.push(grad[4].plus(w.times(ln_10)));
            next.push(grad[5].minus(w.times(slope).over(s.tb)));
            next.push(grad[6].minus(w.times(slope).over(m.tau)));
            assert(next@ =~= gradient_step(grad@, *s, *o, ln_nu, *reading));
            next
        },
        _ => grad,
    }
}

/// Seven zeros.
fn zeros() -> (r: Vec<Binary64>)
    ensures
        r@ == no_gradient(),
        r.len() == N_PARAMS,
{
    let mut v: Vec<Binary64> = Vec::with_capacity(N_PARAMS);
    let mut i: usize = 0;
    while i < N_PARAMS
        invariant
            i <= N_PARAMS,
            v.len() == i,
            forall|j: int| 0 <= j < i ==> v@[j] == Binary64::zero(),
        decreases N_PARAMS - i,
    {
        v.push(Binary64::zero());
        i += 1;
    }
    assert(v@ =~= no_gradient());
    v
}

/// The observations of a source.
pub open spec fn observations_of(s: Source) -> Seq<SbplObs> {
    Seq::new(
        s.times.len(),
        |i: int|
            SbplObs {
                time: s.times[i],
                nu_scaled: s.nu_scaled[i],
                flux: s.flux[i],
                flux_err: s.flux_err[i],
            },
    )
}

/// The logarithms of the frequencies of a source.
pub open spec fn logarithms_of(s: Source, f: spec_fn(Elementary) -> Binary64) -> Seq<Binary64> {
    Seq::new(s.times.len(), |i: int| f(Elementary::Ln(s.nu_scaled[i])))
}

/// The objective of a source.
pub open spec fn source_cost(s: Source, f: spec_fn(Elementary) -> Binary64) -> spec_fn(
    Seq<Binary64>,
) -> Binary64 {
    cost_function(observations_of(s), logarithms_of(s, f), f)
}

/// Reduced chi-squared objective for one prepared source.
#[derive(Debug)]
pub struct SbplCost {
    observations: Vec<SbplObs>,
    /// Natural logarithm of the scaled frequency, per observation.
    ln_nu: Vec<Binary64>,
    /// Some observation has no positive frequency, so the model is undefined
    /// there for every parameter vector.
    bad_nu: bool,
}

impl Clone for SbplCost {
    fn clone(&self) -> (r: SbplCost)
        ensures
            r.obs() == self.obs(),
            r.log_frequencies() == self.log_frequencies(),
    {
        proof {
            use_type_invariant(self);
        }
        let observations: Vec<SbplObs> = self.observations.clone();
        let ln_nu: Vec<Binary64> = self.ln_nu.clone();
        assert(observations@ =~= self.observations@);
        assert(ln_nu@ =~= self.ln_nu@);
        SbplCost { observations, ln_nu, bad_nu: self.bad_nu }
    }
}

impl SbplCost {
    /// The observations.
    pub closed spec fn obs(&self) -> Seq<SbplObs> {
        self.observations@
    }

    /// The logarithms of their frequencies.
    pub closed spec fn log_frequencies(&self) -> Seq<Binary64> {
        self.ln_nu@
    }

    #[verifier::type_invariant]
    spec fn consistent(&self) -> bool {
        &&& self.ln_nu.len() == self.observations.len()
        &&& self.bad_nu == bad_frequency(self.observations@)
    }

    /// Builds the objective of a prepared source.
    pub fn new<M: Fn(Elementary) -> Binary64>(prep: &PreparedSource, math: &M) -> (r: SbplCost)
        requires
            prep@.complete(),
            is_function(*math),
        ensures
            r.obs() == observations_of(prep@),
            r.log_frequencies() == logarithms_of(prep@, answers(*math)),
    {
        let mut observations: Vec<SbplObs> = Vec::new();
        let mut ln_nu: Vec<Binary64> = Vec::new();
        let mut bad_nu: bool = false;
        let mut i: usize = 0;
        while i < prep.times.len()
            invariant
                prep@.complete(),
                is_function(*math),
                i <= prep.times.len(),
                observations.len() == i,
                ln_nu.len() == i,
                forall|j: int|
                    0 <= j < i ==> #[trigger] observations@[j] == observations_of(prep@)[j],
                forall|j: int|
                    0 <= j < i ==> #[trigger] ln_nu@[j] == logarithms_of(prep@, answers(*math))[j],
                bad_nu == bad_frequency(observations@),
            decreases prep.times.len() - i,
        {
            let o: SbplObs = SbplObs {
                time: prep.times[i],
                nu_scaled: prep.nu_scaled[i],
                flux: prep.flux[i],
                flux_err: prep.flux_err[i],
            };
            let ghost before = observations@;
            observations.push(o);
            ln_nu.push(ask(math, Elementary::Ln(o.nu_scaled)));
            if o.nu_scaled.le(Binary64::zero()) {
                bad_nu = true;
            }
            proof {
                assert(observations@[i as int] == o);
                if bad_frequency(before) {
                    let k = choose|k: int|
                        0 <= k < before.len() && (#[trigger] before[k]).nu_scaled.le(
                            Binary64::zero(),
                        );
                    assert(observations@[k] == before[k]);
                }
                if bad_frequency(observations@) && !o.nu_scaled.le(Binary64::zero()) {
                    let k = choose|k: int|
                        0 <= k < observations@.len() && (
                        #[trigger] observations@[k]).nu_scaled.le(Binary64::zero());
                    assert(before[k] == observations@[k]);
                }
            }
            i += 1;
        }
        assert(observations@ =~= observations_of(prep@));
        assert(ln_nu@ =~= logarithms_of(prep@, answers(*math)));
        SbplCost { observations, ln_nu, bad_nu }
    }

    /// The flattened observations backing this objective.
    pub fn observations(&self) -> (r: &Vec<SbplObs>)
        ensures
            r@ == self.obs(),
    {
        &self.observations
    }

    /// Reduced chi-squared at `p = [alpha1, alpha2, beta, logd, loga, tb, t0]`.
    pub fn eval<M: Fn(Elementary) -> Binary64>(&self, p: &Vec<Binary64>, math: &M) -> (r: Binary64)
        requires
            p.len() >= N_PARAMS,
            is_function(*math),
        ensures
            r == objective(self.obs(), self.log_frequencies(), p@, answers(*math)).0,
    {
        self.chi2(p, math, false).0
    }

    /// [`Self::eval`] together with its analytic gradient.
    pub fn eval_with_grad<M: Fn(Elementary) -> Binary64>(&self, p: &Vec<Binary64>, math: &M) -> (r: (
        Binary64,
        Vec<Binary64>,
    ))
        requires
            p.len() >= N_PARAMS,
            is_function(*math),
        ensures
            r.0 == objective(self.obs(), self.log_frequencies(), p@, answers(*math)).0,
            r.1@ == objective(self.obs(), self.log_frequencies(), p@, answers(*math)).1,
            r.1.len() == N_PARAMS,
    {
        self.chi2(p, math, true)
    }

    /// The cost at a parameter vector and, where it is wanted, its gradient; else zeros.
    pub fn chi2<M: Fn(Elementary) -> Binary64>(
        &self,
        p: &Vec<Binary64>,
        math: &M,
        wanted: bool,
    ) -> (r: (Binary64, Vec<Binary64>))
        requires
            p.len() >= N_PARAMS,
            is_function(*math),
        ensures
            r.0 == objective(self.obs(), self.log_frequencies(), p@, answers(*math)).0,
            wanted ==> r.1@ == objective(
                self.obs(),
                self.log_frequencies(),
                p@,
                answers(*math),
            ).1,
            !wanted ==> r.1@ == no_gradient(),
            r.1.len() == N_PARAMS,
    {
        proof {
            use_type_invariant(self);
        }
        let ghost f = answers(*math);
        let ghost obs = self.obs();
        let ghost lns = self.log_frequencies();
        if self.observations.len() == 0 || self.bad_nu || p[5].le(Binary64::zero()) {
            return (Binary64 { bits: TEN_BILLION }, zeros());
        }
        let d: Binary64 = ask(math, Elementary::Pow(Binary64 { bits: TEN }, p[3]));
        let shape: Shape = Shape {
            alpha1: p[0],
            alpha2: p[1],
            beta: p[2],
            tb: p[5],
            t0: p[6],
            d,
            inv_d: Binary64 { bits: ONE }.over(d),
            k: p[1].minus(p[0]).times(d),
            ln_amp: p[4].times(Binary64 { bits: LN_10 }),
        };
        assert(shape == shape_of(p@, f));
        let mut chi2: Binary64 = Binary64::zero();
        let mut grad: Vec<Binary64> = zeros();
        let mut i: usize = 0;
        while i < self.observations.len()
            invariant
                is_function(*math),
                f == answers(*math),
                i <= self.observations.len(),
                self.ln_nu.len() == self.observations.len(),
                obs == self.observations@,
                lns == self.ln_nu@,
                shape == shape_of(p@, f),
                grad.len() == N_PARAMS,
                summed(shape, obs, lns, f, i as nat) is Some,
                summed(shape, obs, lns, f, i as nat).unwrap().0 == chi2,
                wanted ==> summed(shape, obs, lns, f, i as nat).unwrap().1 == grad@,
                !wanted ==> grad@ == no_gradient(),
                raw_sum(obs, lns, p@, f) == summed(shape, obs, lns, f, obs.len()),
                obs == self.obs(),
                lns == self.log_frequencies(),
            decreases self.observations.len() - i,
        {
            let o: &SbplObs = &self.observations[i];
            let reading: Reading = read(&shape, o, self.ln_nu[i], math);
            if let Reading::Invalid = reading {
                proof {
                    assert(summed(shape, obs, lns, f, (i + 1) as nat) is None);
                    lemma_failure_stays(shape, obs, lns, f, (i + 1) as nat, obs.len());
                }
                return (Binary64 { bits: TEN_BILLION }, zeros());
            }
            chi2 = chi2.plus(term(o, &reading));
            if wanted {
                grad = climb(grad, &shape, o, self.ln_nu[i], &reading);
            }
            i += 1;
        }
        let n: Binary64 = Binary64::of_count(self.observations.len() as u64);
        if !wanted {
            return (chi2.over(n), grad);
        }
        let mut mean: Vec<Binary64> = Vec::with_capacity(N_PARAMS);
        let mut j: usize = 0;
        while j < N_PARAMS
            invariant
                j <= N_PARAMS,
                grad.len() == N_PARAMS,
                mean.len() == j,
                forall|k: int| 0 <= k < j ==> mean@[k] == grad@[k].over(n),
            decreases N_PARAMS - j,
        {
            mean.push(grad[j].over(n));
            j += 1;
        }
        assert(mean@ =~= grad@.map_values(|g: Binary64| g.over(n)));
        (chi2.over(n), mean)
    }
}

} // verus!

//! Search configuration, prepared sources and fit results.
use crate::binary64::Binary64;
use crate::numbers::{MINUS_TEN, N_PARAMS, TEN};
use vstd::prelude::*;

verus! {

/// Tunable search parameters, including optional bound overrides.
///
/// `alpha1_min = 0` enforces a rising phase before the break and
/// `alpha2_max = 0` a declining one after it; together they put the break at
/// the peak of the light curve. `tb_lower` and `tb_upper` replace the bounds
/// for the break time that are otherwise derived from the data.
#[derive(Clone, Copy, Debug, PartialEq, Eq, Structural)]
pub struct PsoConfig {
    pub n_restarts: usize,
    pub n_particles: usize,
    pub n_iters: usize,
    pub seed: u64,
    pub alpha1_min: Binary64,
    pub alpha1_max: Binary64,
    pub alpha2_min: Binary64,
    pub alpha2_max: Binary64,
    /// Lower bound for the break time, in days; `None` for 1% of the data span, or
    /// 0.01 day where that is more and still below the upper bound.
    pub tb_lower: Option<Binary64>,
    /// Upper bound for the break time, in days; `None` for ten data spans, at
    /// most 10 000 days.
    pub tb_upper: Option<Binary64>,
}

impl Default for PsoConfig {
    fn default() -> (r: PsoConfig)
        ensures
            r == (PsoConfig {
                n_restarts: 3,
                n_particles: 30,
                n_iters: 200,
                seed: 1234,
                alpha1_min: Binary64 { bits: MINUS_TEN },
                alpha1_max: Binary64 { bits: TEN },
                alpha2_min: Binary64 { bits: MINUS_TEN },
                alpha2_max: Binary64 { bits: TEN },
                tb_lower: None,
                tb_upper: None,
            }),
    {
        PsoConfig {
            n_restarts: 3,
            n_particles: 30,
            n_iters: 200,
            seed: 1234,
            alpha1_min: Binary64 { bits: MINUS_TEN },
            alpha1_max: Binary64 { bits: TEN },
            alpha2_min: Binary64 { bits: MINUS_TEN },
            alpha2_max: Binary64 { bits: TEN },
            tb_lower: None,
            tb_upper: None,
        }
    }
}

/// Fitted parameters and uncertainty estimates for one source.
#[derive(Clone, Copy, Debug, PartialEq, Eq, Structural)]
pub struct SbplResult {
    /// Temporal power-law index before the break.
    pub alpha1: Option<Binary64>,
    /// Temporal power-law index after the break.
    pub alpha2: Option<Binary64>,
    /// Spectral index.
    pub beta: Option<Binary64>,
    /// Decimal logarithm of the break smoothness.
    pub logd: Option<Binary64>,
    /// Decimal logarithm of the physical flux amplitude.
    pub loga: Option<Binary64>,
    /// Break time, in days.
    pub tb: Option<Binary64>,
    /// Onset time, in days.
    pub t0: Option<Binary64>,
    /// Standard deviations of the physical parameters across restarts.
    pub alpha1_err: Option<Binary64>,
    pub alpha2_err: Option<Binary64>,
    pub beta_err: Option<Binary64>,
    pub logd_err: Option<Binary64>,
    pub loga_err: Option<Binary64>,
    pub tb_err: Option<Binary64>,
    pub t0_err: Option<Binary64>,
    /// Reduced chi-squared of the best fit.
    pub reduced_chi2: Option<Binary64>,
    /// Number of observations used, across all bands.
    pub n_obs: usize,
    /// Number of bands used.
    pub n_bands: usize,
}

impl SbplResult {
    /// A result without a fit.
    pub open spec fn spec_empty(n_obs: usize, n_bands: usize) -> SbplResult {
        SbplResult {
            alpha1: None,
            alpha2: None,
            beta: None,
            logd: None,
            loga: None,
            tb: None,
            t0: None,
            alpha1_err: None,
            alpha2_err: None,
            beta_err: None,
            logd_err: None,
            loga_err: None,
            tb_err: None,
            t0_err: None,
            reduced_chi2: None,
            n_obs,
            n_bands,
        }
    }

    /// A result without a fit.
    #[verifier::when_used_as_spec(spec_empty)]
    pub fn empty(n_obs: usize, n_bands: usize) -> (r: SbplResult)
        ensures
            r == Self::empty(n_obs, n_bands),
    {
        SbplResult {
            alpha1: None,
            alpha2: None,
            beta: None,
            logd: None,
            loga: None,
            tb: None,
            t0: None,
            alpha1_err: None,
            alpha2_err: None,
            beta_err: None,
            logd_err: None,
            loga_err: None,
            tb_err: None,
            t0_err: None,
            reduced_chi2: None,
            n_obs,
            n_bands,
        }
    }
}

/// One source flattened into the form the optimisers consume: normalised
/// observations, the search bounds, and what maps fitted parameters back to
/// physical units.
#[derive(Debug)]
pub struct PreparedSource {
    /// Observation times, in days.
    pub times: Vec<Binary64>,
    /// Effective frequency per observation, in units of 1e15 Hz.
    pub nu_scaled: Vec<Binary64>,
    /// Flux over the largest flux.
    pub flux: Vec<Binary64>,
    /// Flux error over the largest flux.
    pub flux_err: Vec<Binary64>,
    /// Lower search bound per parameter.
    pub lower: [Binary64; N_PARAMS],
    /// Upper search bound per parameter.
    pub upper: [Binary64; N_PARAMS],
    /// The largest flux.
    pub max_flux: Binary64,
    /// Earliest observation time.
    pub t_ref: Binary64,
    /// Number of usable observations.
    pub n_obs: usize,
    /// Number of bands with a known effective frequency.
    pub n_bands: usize,
    /// Key of this source's random streams, derived from its observations.
    pub seed_key: u64,
}

/// What a [`PreparedSource`] holds.
#[verifier::ext_equal]
pub struct Source {
    pub times: Seq<Binary64>,
    pub nu_scaled: Seq<Binary64>,
    pub flux: Seq<Binary64>,
    pub flux_err: Seq<Binary64>,
    pub lower: Seq<Binary64>,
    pub upper: Seq<Binary64>,
    pub max_flux: Binary64,
    pub t_ref: Binary64,
    pub n_obs: usize,
    pub n_bands: usize,
    pub seed_key: u64,
}

impl Source {
    /// Every observation is complete.
    pub open spec fn complete(self) -> bool {
        &&& self.nu_scaled.len() >= self.times.len()
        &&& self.flux.len() >= self.times.len()
        &&& self.flux_err.len() >= self.times.len()
    }
}

impl View for PreparedSource {
    type V = Source;

    open spec fn view(&self) -> Source {
        Source {
            times: self.times@,
            nu_scaled: self.nu_scaled@,
            flux: self.flux@,
            flux_err: self.flux_err@,
            lower: self.lower@,
            upper: self.upper@,
            max_flux: self.max_flux,
            t_ref: self.t_ref,
            n_obs: self.n_obs,
            n_bands: self.n_bands,
            seed_key: self.seed_key,
        }
    }
}

impl Clone for PreparedSource {
    fn clone(&self) -> (r: PreparedSource)
        ensures
            r@ == self@,
    {
        let r: PreparedSource = PreparedSource {
            times: self.times.clone(),
            nu_scaled: self.nu_scaled.clone(),
            flux: self.flux.clone(),
            flux_err: self.flux_err.clone(),
            lower: self.lower,
            upper: self.upper,
            max_flux: self.max_flux,
            t_ref: self.t_ref,
            n_obs: self.n_obs,
            n_bands: self.n_bands,
            seed_key: self.seed_key,
        };
        assert(r@ =~= self@);
        r
    }
}

/// Outcome of preparing a source.
#[derive(Debug)]
pub enum Preparation {
    /// The source has enough data to fit.
    Ready(PreparedSource),
    /// Too little data: fewer than 7 observations or 2 bands, or no time span.
    Unfittable(SbplResult),
    /// There was no band at all.
    Empty,
}

impl Clone for Preparation {
    fn clone(&self) -> (r: Preparation)
        ensures
            r@ == self@,
    {
        match self {
            Preparation::Ready(source) => Preparation::Ready(source.clone()),
            Preparation::Unfittable(result) => Preparation::Unfittable(*result),
            Preparation::Empty => Preparation::Empty,
        }
    }
}

/// What a [`Preparation`] holds.
pub enum Prepared {
    Ready(Source),
    Unfittable(SbplResult),
    Empty,
}

impl View for Preparation {
    type V = Prepared;

    open spec fn view(&self) -> Prepared {
        match self {
            Preparation::Ready(source) => Prepared::Ready(source@),
            Preparation::Unfittable(result) => Prepared::Unfittable(*result),
            Preparation::Empty => Prepared::Empty,
        }
    }
}

} // verus!

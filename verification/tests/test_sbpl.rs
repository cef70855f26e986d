//! The fitter on synthetic light curves.

use argmin::solver::linesearch::MoreThuenteLineSearch;
use argmin::solver::quasinewton::LBFGS;
use rand::rngs::SmallRng;
use rand::{Rng, SeedableRng};
use sbpl_pso::polish::ScaledCost;
use sbpl_pso::{
    band_frequency_hz, fit_sbpl, load_csv, prepare_source, sbpl_model, BandData, BandMap, Binary64,
    Draw, Elementary, Preparation, PreparedSource, PsoConfig, SbplCost, SbplResult, N_PARAMS,
};

fn to(x: f64) -> Binary64 {
    Binary64 { bits: x.to_bits() }
}

fn from(x: Binary64) -> f64 {
    f64::from_bits(x.bits)
}

fn math(q: Elementary) -> Binary64 {
    to(match q {
        Elementary::Pow(x, y) => from(x).powf(from(y)),
        Elementary::Ln(x) => from(x).ln(),
        Elementary::Exp(x) => from(x).exp(),
        Elementary::Log10(x) => from(x).log10(),
        Elementary::Sqrt(x) => from(x).sqrt(),
    })
}

fn number(s: &str) -> Option<Binary64> {
    s.parse::<f64>().ok().map(to)
}

fn seeded(seed: u64) -> SmallRng {
    SmallRng::seed_from_u64(seed)
}

fn draw(g: &SmallRng, q: Draw) -> (Binary64, SmallRng) {
    let mut g = g.clone();
    let x: f64 = match q {
        Draw::Unit => g.random(),
        Draw::Range(lo, hi) => g.random_range(from(lo)..from(hi)),
    };
    (to(x), g)
}

struct Problem<'a>(&'a ScaledCost<'a>);

impl argmin::core::CostFunction for Problem<'_> {
    type Param = Vec<f64>;
    type Output = f64;
    fn cost(&self, xs: &Vec<f64>) -> Result<f64, argmin::core::Error> {
        let xs: Vec<Binary64> = xs.iter().map(|&x| to(x)).collect();
        Ok(from(self.0.cost(&xs, &math)))
    }
}

impl argmin::core::Gradient for Problem<'_> {
    type Param = Vec<f64>;
    type Gradient = Vec<f64>;
    fn gradient(&self, xs: &Vec<f64>) -> Result<Vec<f64>, argmin::core::Error> {
        let xs: Vec<Binary64> = xs.iter().map(|&x| to(x)).collect();
        Ok(self.0.gradient(&xs, &math).into_iter().map(from).collect())
    }
}

fn minimise(scaled: &ScaledCost, start: &Vec<Binary64>) -> Option<Vec<Binary64>> {
    let solver = LBFGS::new(MoreThuenteLineSearch::new(), 10).with_tolerance_grad(1e-7).ok()?;
    let xs: Vec<f64> = start.iter().map(|&x| from(x)).collect();
    let result = argmin::core::Executor::new(Problem(scaled), solver)
        .configure(|state| state.param(xs).max_iters(200))
        .run()
        .ok()?;
    result.state().best_param.clone().map(|xs| xs.into_iter().map(to).collect())
}

fn fit(bands: &BandMap, config: &PsoConfig) -> Option<SbplResult> {
    fit_sbpl(bands, config, &seeded, &draw, &minimise, &math)
}

fn model(t: f64, nu_scaled: f64, p: [f64; N_PARAMS]) -> f64 {
    from(sbpl_model(
        to(t),
        to(nu_scaled),
        to(p[0]),
        to(p[1]),
        to(p[2]),
        to(p[3]),
        to(p[4]),
        to(p[5]),
        to(p[6]),
        &math,
    ))
}

const C_ANGSTROM_PER_SEC: f64 = 2.997_924_58e18;

fn band_freq(lambda_angstrom: f64) -> f64 {
    C_ANGSTROM_PER_SEC / lambda_angstrom
}

fn xorshift(state: &mut u64) -> f64 {
    let mut x = *state;
    x ^= x << 13;
    x ^= x >> 7;
    x ^= x << 17;
    *state = x;
    (x >> 11) as f64 / ((1u64 << 53) as f64)
}

fn normal(rng: &mut u64) -> f64 {
    let u1 = xorshift(rng).max(1e-15);
    let u2 = xorshift(rng);
    (-2.0 * u1.ln()).sqrt() * (2.0 * std::f64::consts::PI * u2).cos()
}

/// A 3-band (g, r, i) synthetic source in flux space.
fn generate_sbpl_source(n_per_band: usize, seed: u64, p: [f64; N_PARAMS]) -> BandMap {
    let mut rng = seed.max(1);
    let bands: &[(&str, f64)] = &[("g", 4770.0), ("r", 6231.0), ("i", 7625.0)];
    let (tb, t0) = (p[5], p[6]);
    let t_start = t0 + 0.5;
    let t_end = t0 + tb * 10.0;
    let noise_frac = 0.05;

    let mut result = BandMap::new();
    for &(name, lambda) in bands {
        let nu_scaled = band_freq(lambda) / 1e15;
        let mut bd = BandData::new();
        for j in 0..n_per_band {
            let t = t_start + (t_end - t_start) * (j as f64) / (n_per_band as f64 - 1.0).max(1.0);
            let flux_true = model(t, nu_scaled, p);
            if !flux_true.is_finite() || flux_true <= 0.0 {
                continue;
            }
            let noise_sigma = flux_true.abs() * noise_frac + 1e-20;
            let flux_obs = flux_true + noise_sigma * normal(&mut rng);
            bd.times.push(to(t));
            bd.fluxes.push(to(flux_obs));
            bd.flux_errs.push(to(noise_sigma));
        }
        result.insert(name.to_string(), bd);
    }
    result
}

/// A multi-band source with fixed flux and small noise.
fn generate_flat_source(n_per_band: usize, seed: u64) -> BandMap {
    let mut rng = seed.max(1);
    let mut result = BandMap::new();
    for band in ["g", "r", "i"] {
        let mut bd = BandData::new();
        let base_flux = 1e-17 * (1.0 + xorshift(&mut rng));
        for j in 0..n_per_band {
            let t = 2460000.0 + j as f64 * 3.0;
            let noise = base_flux * 0.05 * normal(&mut rng);
            bd.times.push(to(t));
            bd.fluxes.push(to(base_flux + noise));
            bd.flux_errs.push(to(base_flux * 0.05));
        }
        result.insert(band.to_string(), bd);
    }
    result
}

#[test]
fn sbpl_model_zero_before_t0() {
    let val = model(0.0, 1.0, [1.5, -1.5, -0.7, -0.3, 0.0, 10.0, 5.0]);
    assert_eq!(val, 0.0, "model should return 0.0 before t0");
}

#[test]
fn sbpl_model_positive_after_t0() {
    let nu_scaled = from(band_frequency_hz("r").unwrap()) / 1e15;
    let val = model(15.0, nu_scaled, [1.5, -1.5, -0.7, -0.3, 0.0, 10.0, 5.0]);
    assert!(val > 0.0 && val.is_finite(), "model should be positive after t0, got {val}");
}

#[test]
fn band_frequencies_are_positive() {
    for band in &["g", "r", "i", "z", "y", "ztfg", "ztfr", "lsstz", "lssty"] {
        let nu = from(band_frequency_hz(band).unwrap());
        assert!(nu > 0.0, "frequency for {band} should be positive");
    }
}

#[test]
fn load_csv_parses_lsst_zy_filter_names() {
    let text = "mjd,mag,mag_err,filter\n1.0,20.0,0.1,lsstz\n2.0,20.5,0.1,lssty\n3.0,21.0,0.1,lsstg\n";
    let obs = load_csv(&text.as_bytes().to_vec(), &number, &math).expect("load_csv should succeed");

    let bands: Vec<&str> = obs.iter().map(|o| o.band.as_str()).collect();
    assert!(bands.contains(&"z"), "expected a 'z' observation, got {bands:?}");
    assert!(bands.contains(&"y"), "expected a 'y' observation, got {bands:?}");
    assert!(bands.contains(&"g"), "expected a 'g' observation, got {bands:?}");
}

#[test]
fn fit_sbpl_returns_some_on_sbpl_source() {
    let bands = generate_sbpl_source(40, 1234, [1.5, -1.5, -0.7, -0.3, 12.0, 10.0, 5.0]);
    let result = fit(&bands, &PsoConfig::default());
    assert!(result.is_some(), "fit_sbpl must return Some for a valid source");
}

#[test]
fn fit_sbpl_returns_some_on_flat_source() {
    let bands = generate_flat_source(30, 42);
    let result = fit(&bands, &PsoConfig::default());
    assert!(result.is_some(), "fit_sbpl must return Some even for flat input");
}

#[test]
fn fit_sbpl_returns_none_on_empty_map() {
    let bands = BandMap::new();
    let result = fit(&bands, &PsoConfig::default());
    assert!(result.is_none(), "fit_sbpl should return None for empty map");
}

#[test]
fn fit_sbpl_chi2_non_negative() {
    let bands = generate_sbpl_source(40, 999, [1.0, -1.0, -0.6, -0.3, 12.0, 3.0, 0.0]);
    let result = fit(&bands, &PsoConfig::default()).unwrap();
    if let Some(chi2) = result.reduced_chi2.map(from) {
        assert!(chi2 >= 0.0 && chi2.is_finite(), "reduced_chi2={chi2} should be >= 0 and finite");
    }
}

#[test]
fn fit_sbpl_n_obs_and_n_bands_correct() {
    // 40 points x 3 bands = 120 observations
    let bands = generate_sbpl_source(40, 12345, [2.0, -2.0, -0.8, -0.3, 12.0, 10.0, 5.0]);
    let result = fit(&bands, &PsoConfig::default()).unwrap();
    assert_eq!(result.n_bands, 3, "expected 3 bands");
    assert_eq!(result.n_obs, 120, "expected 120 obs (40 per band)");
}

#[test]
fn fit_sbpl_errors_non_negative_when_set() {
    let bands = generate_sbpl_source(40, 9999, [1.0, -1.0, -0.6, -0.3, 12.0, 3.0, 0.0]);
    let result = fit(&bands, &PsoConfig::default()).unwrap();
    for (name, val) in [
        ("alpha1_err", result.alpha1_err),
        ("alpha2_err", result.alpha2_err),
        ("beta_err", result.beta_err),
        ("logd_err", result.logd_err),
        ("loga_err", result.loga_err),
        ("tb_err", result.tb_err),
        ("t0_err", result.t0_err),
    ] {
        if let Some(e) = val.map(from) {
            assert!(e >= 0.0 && e.is_finite(), "{name}={e} should be >= 0 and finite");
        }
    }
}

#[test]
fn fit_sbpl_insufficient_bands_returns_empty() {
    let mut bands = BandMap::new();
    let mut bd = BandData::new();
    for j in 0..20 {
        bd.times.push(to(j as f64));
        bd.fluxes.push(to(1e-17));
        bd.flux_errs.push(to(1e-18));
    }
    bands.insert("r".to_string(), bd);

    let result = fit(&bands, &PsoConfig::default()).unwrap();
    assert!(result.alpha1.is_none(), "should not fit with only 1 band");
}

#[test]
fn fit_sbpl_recovers_spectral_index_direction() {
    let bands = generate_sbpl_source(40, 1234, [2.0, -2.3, -0.8, -0.3, 12.0, 10.0, 5.0]);
    let result =
        fit(&bands, &PsoConfig::default()).expect("fit_sbpl should return Some for SBPL source");

    if let Some(chi2) = result.reduced_chi2.map(from) {
        assert!(chi2.is_finite() && chi2 >= 0.0, "reduced_chi2 must be non-negative");
    }
    // With a well-constrained synthetic source the chi2 should be near 1.
    if let Some(chi2) = result.reduced_chi2.map(from) {
        assert!(chi2 < 100.0, "chi2={chi2} unreasonably large on clean synthetic data");
    }
    assert!(from(result.beta.unwrap()) < 0.0, "bluer bands are brighter");
}

const TRUE_PARAMS: [f64; N_PARAMS] = [1.5, -1.8, -0.7, -0.4, 12.0, 10.0, 5.0];

fn prepared_source(seed: u64) -> PreparedSource {
    let bands = generate_sbpl_source(30, seed, TRUE_PARAMS);
    match prepare_source(&bands, &PsoConfig::default()) {
        Preparation::Ready(p) => p,
        other => panic!("synthetic source not fittable: {other:?}"),
    }
}

fn vector(p: &[f64]) -> Vec<Binary64> {
    p.iter().map(|&x| to(x)).collect()
}

/// Reduced chi-squared built directly from `sbpl_model`.
fn reference_chi2(prep: &PreparedSource, p: [f64; N_PARAMS]) -> f64 {
    let mut chi2 = 0.0;
    for i in 0..prep.times.len() {
        let m = model(from(prep.times[i]), from(prep.nu_scaled[i]), p);
        if !m.is_finite() {
            return 1e10;
        }
        let r = from(prep.flux[i]) - m;
        let e = from(prep.flux_err[i]);
        chi2 += r * r / (e * e + 1e-30);
    }
    chi2 / prep.times.len() as f64
}

#[test]
fn sbpl_cost_matches_sbpl_model() {
    let prep = prepared_source(4242);
    let cost = SbplCost::new(&prep, &math);
    let latest = prep.times.iter().map(|&t| from(t)).fold(f64::NEG_INFINITY, f64::max);
    let duration = latest - from(prep.t_ref);
    let mut rng = 0x5eed_u64;
    for i in 0..500 {
        let mut p = [0.0; N_PARAMS];
        for d in 0..N_PARAMS {
            let (lo, hi) = (from(prep.lower[d]), from(prep.upper[d]));
            p[d] = lo + xorshift(&mut rng) * (hi - lo);
        }
        if i % 2 == 1 {
            // Put t0 inside the data so some points sit before it.
            p[6] = from(prep.t_ref) + xorshift(&mut rng) * duration;
        }
        let (got, want) = (from(cost.eval(&vector(&p), &math)), reference_chi2(&prep, p));
        assert!(
            got == want || ((got - want) / want).abs() < 1e-10,
            "params {p:?}: eval {got:e} vs sbpl_model {want:e}"
        );
        assert_eq!(from(cost.eval_with_grad(&vector(&p), &math).0), got);
    }
}

#[test]
fn sbpl_cost_gradient_matches_finite_differences() {
    let prep = prepared_source(4242);
    let cost = SbplCost::new(&prep, &math);
    let mut truth = TRUE_PARAMS;
    truth[4] -= from(prep.max_flux).log10(); // the fit works in normalised flux

    let mut points = Vec::new();
    let mut rng = 0xfeed_u64;
    for _ in 0..8 {
        let mut p = truth;
        for d in 0..6 {
            p[d] += (xorshift(&mut rng) - 0.5) * 0.4 * p[d].abs().max(0.5);
        }
        p[6] -= 5.0 * xorshift(&mut rng);
        points.push(p);
    }
    // t0 half-way between two observations: the first few points are before it.
    let mut inside = truth;
    let mut times: Vec<f64> = prep.times.iter().map(|&t| from(t)).collect();
    times.sort_by(|a, b| a.partial_cmp(b).unwrap());
    times.dedup();
    inside[6] = 0.5 * (times[3] + times[4]);
    points.push(inside);

    for p in points {
        let (c, grad) = cost.eval_with_grad(&vector(&p), &math);
        let grad: Vec<f64> = grad.into_iter().map(from).collect();
        assert!(from(c) < 1e10, "test point {p:?} is invalid");
        let scale = grad.iter().fold(0.0f64, |m, g| m.max(g.abs()));
        for d in 0..N_PARAMS {
            let h = 1e-6 * (from(prep.upper[d]) - from(prep.lower[d]));
            let (mut hi, mut lo) = (p, p);
            hi[d] += h;
            lo[d] -= h;
            let fd = (from(cost.eval(&vector(&hi), &math)) - from(cost.eval(&vector(&lo), &math)))
                / (2.0 * h);
            assert!(
                (fd - grad[d]).abs() <= 1e-5 * (grad[d].abs() + 1e-3 * scale),
                "d{d} at {p:?}: analytic {:e} vs finite difference {fd:e}",
                grad[d]
            );
        }
    }
}

#[test]
fn sbpl_cost_sentinel_has_zero_gradient() {
    let prep = prepared_source(4242);
    let cost = SbplCost::new(&prep, &math);
    let mut p = TRUE_PARAMS;
    p[5] = -1.0; // tb <= 0 is invalid everywhere
    let (c, grad) = cost.eval_with_grad(&vector(&p), &math);
    assert_eq!(from(c), 1e10);
    assert_eq!(grad.into_iter().map(from).collect::<Vec<f64>>(), vec![0.0; N_PARAMS]);
}

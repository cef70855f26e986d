//! Batches of sources, with the processor standing in for a device.

use std::cell::Cell;

use argmin::solver::linesearch::MoreThuenteLineSearch;
use argmin::solver::quasinewton::LBFGS;
use rand::rngs::SmallRng;
use rand::{Rng, SeedableRng};
use sbpl_pso::batch_fit::{
    batch_fit, batch_pso, objectives, polish_end, polish_job, restart_seed, seeds_of_restarts,
    to_absolute_time,
};
use sbpl_pso::polish::ScaledCost;
use sbpl_pso::side_by_side::{batch_pso_restarts, is_steerable, shifted_bounds};
use sbpl_pso::survey::SourceData;
use sbpl_pso::{
    assemble_result, band_frequency_hz, fit_prepared, lbfgs_refine, prepare_source, sbpl_model,
    BandData, BandMap, Binary64, Draw, Elementary, Preparation, PreparedSource, PsoConfig, SbplCost,
    SbplResult, N_PARAMS,
};

fn to(x: f64) -> Binary64 {
    Binary64 { bits: x.to_bits() }
}

fn from(x: Binary64) -> f64 {
    f64::from_bits(x.bits)
}

fn math(q: Elementary) -> Binary64 {
    to(match q {
        Elementary::Pow(x, y) => from(x).powf(from(y)),
        Elementary::Ln(x) => from(x).ln(),
        Elementary::Exp(x) => from(x).exp(),
        Elementary::Log10(x) => from(x).log10(),
        Elementary::Sqrt(x) => from(x).sqrt(),
    })
}

fn seeded(seed: u64) -> SmallRng {
    SmallRng::seed_from_u64(seed)
}

fn draw(g: &SmallRng, q: Draw) -> (Binary64, SmallRng) {
    let mut g = g.clone();
    let x: f64 = match q {
        Draw::Unit => g.random(),
        Draw::Range(lo, hi) => g.random_range(from(lo)..from(hi)),
    };
    (to(x), g)
}

struct Problem<'a>(&'a ScaledCost<'a>);

impl argmin::core::CostFunction for Problem<'_> {
    type Param = Vec<f64>;
    type Output = f64;
    fn cost(&self, xs: &Vec<f64>) -> Result<f64, argmin::core::Error> {
        let xs: Vec<Binary64> = xs.iter().map(|&x| to(x)).collect();
        Ok(from(self.0.cost(&xs, &math)))
    }
}

impl argmin::core::Gradient for Problem<'_> {
    type Param = Vec<f64>;
    type Gradient = Vec<f64>;
    fn gradient(&self, xs: &Vec<f64>) -> Result<Vec<f64>, argmin::core::Error> {
        let xs: Vec<Binary64> = xs.iter().map(|&x| to(x)).collect();
        Ok(self.0.gradient(&xs, &math).into_iter().map(from).collect())
    }
}

fn minimise(scaled: &ScaledCost, start: &Vec<Binary64>) -> Option<Vec<Binary64>> {
    let solver = LBFGS::new(MoreThuenteLineSearch::new(), 10).with_tolerance_grad(1e-7).ok()?;
    let xs: Vec<f64> = start.iter().map(|&x| from(x)).collect();
    let result = argmin::core::Executor::new(Problem(scaled), solver)
        .configure(|state| state.param(xs).max_iters(200))
        .run()
        .ok()?;
    result.state().best_param.clone().map(|xs| xs.into_iter().map(to).collect())
}


fn model(t: f64, nu_scaled: f64, p: [f64; N_PARAMS]) -> f64 {
    from(sbpl_model(
        to(t),
        to(nu_scaled),
        to(p[0]),
        to(p[1]),
        to(p[2]),
        to(p[3]),
        to(p[4]),
        to(p[5]),
        to(p[6]),
        &math,
    ))
}

/// Stands in for a device kernel: scores each particle with the objective of its
/// source and counts dispatches.
struct Stand {
    problems: Vec<SbplCost>,
    particles_per_source: usize,
}

impl Stand {
    fn new(preps: &[PreparedSource], particles_per_source: usize) -> Stand {
        let problems = preps.iter().map(|p| SbplCost::new(p, &math)).collect();
        Stand { problems, particles_per_source }
    }

    fn score(&self, preps: &[PreparedSource], positions: &Vec<Binary64>) -> Vec<Binary64> {
        let mut costs = Vec::new();
        for (i, x) in positions.chunks(N_PARAMS).enumerate() {
            let s = i / self.particles_per_source;
            let mut p = x.to_vec();
            p[6] = p[6].plus(preps[s].t_ref);
            costs.push(self.problems[s].eval(&p, &math));
        }
        assert_eq!(costs.len(), preps.len() * self.particles_per_source);
        costs
    }
}

/// Two-band light curve on a Julian-date time axis, with deterministic
/// multiplicative noise.
fn synthetic(seed: u64, tb: f64, t0: f64) -> PreparedSource {
    let mut state = seed;
    let mut noise = || {
        state = state
            .wrapping_mul(6_364_136_223_846_793_005)
            .wrapping_add(1_442_695_040_888_963_407);
        (state >> 11) as f64 / (1u64 << 53) as f64 - 0.5
    };
    let mut bands = BandMap::new();
    for name in ["g", "r"] {
        let nu_scaled = from(band_frequency_hz(name).unwrap()) / 1e15;
        let mut bd = BandData::new();
        for j in 0..15 {
            let t = t0 + 0.5 + j as f64 * tb / 3.0;
            let f = model(t, nu_scaled, [1.5, -2.0, -0.6, -0.5, 2.0, tb, t0]);
            bd.times.push(to(t));
            bd.fluxes.push(to(f * (1.0 + 0.1 * noise())));
            bd.flux_errs.push(to(0.05 * f));
        }
        bands.insert(name.to_string(), bd);
    }
    match prepare_source(&bands, &PsoConfig::default()) {
        Preparation::Ready(p) => p,
        other => panic!("synthetic source not fittable: {other:?}"),
    }
}

fn sources() -> Vec<PreparedSource> {
    vec![
        synthetic(1, 12.0, 2_458_200.0),
        synthetic(2, 30.0, 2_458_310.0),
        synthetic(3, 5.0, 2_458_005.0),
    ]
}

fn config() -> PsoConfig {
    PsoConfig { n_particles: 8, n_iters: 15, n_restarts: 3, ..PsoConfig::default() }
}

#[test]
fn side_by_side_restarts_match_separate_passes() {
    let preps = sources();
    let config = config();
    let seeds: Vec<u64> =
        (0..config.n_restarts).map(|r| restart_seed(config.seed, r as u64)).collect();

    let dispatches = Cell::new(0);
    let make_eval = |n: usize| -> Result<Stand, String> { Ok(Stand::new(&preps, n)) };
    let eval = |stand: &Stand, x: &Vec<Binary64>| -> Result<Vec<Binary64>, String> {
        dispatches.set(dispatches.get() + 1);
        Ok(stand.score(&preps, x))
    };
    let together = batch_pso_restarts(
        &make_eval,
        &eval,
        &preps,
        config.n_particles,
        config.n_iters,
        &seeds,
        &seeded,
        &draw,
    )
    .unwrap();
    assert_eq!(dispatches.get(), config.n_iters + 1);

    for (r, &seed) in seeds.iter().enumerate() {
        let alone = batch_pso(
            &make_eval,
            &eval,
            &preps,
            config.n_particles,
            config.n_iters,
            seed,
            &seeded,
            &draw,
        )
        .unwrap();
        for s in 0..preps.len() {
            assert_eq!(
                together[s * seeds.len() + r], alone[s],
                "source {s}, restart {r}: side-by-side swarm diverged"
            );
        }
    }
}

/// Positions can be kept between bounds that are in order.
#[test]
fn bounds_out_of_order_cannot_be_steered_between() {
    let mut prep = sources().remove(0);
    assert!(is_steerable(&prep));
    prep.lower[5] = prep.upper[5];
    assert!(is_steerable(&prep));
    prep.lower[5] = prep.upper[5].plus(to(1.0));
    assert!(!is_steerable(&prep));
    prep.lower[5] = to(f64::NAN);
    assert!(!is_steerable(&prep));
}

/// Every parameter of a batch fit but the amplitude is within its bounds, whatever
/// the evaluator answers; the onset up to the rounding of the reference time.
#[test]
fn batch_fits_stay_in_bounds() {
    let preps = sources();
    let config = config();
    let honest = |stand: &Stand, x: &Vec<Binary64>| stand.score(&preps, x);
    let wild = |_: &Stand, x: &Vec<Binary64>| -> Vec<Binary64> {
        (0..x.len() / N_PARAMS).map(|i| to(if i % 3 == 0 { f64::NAN } else { -(i as f64) })).collect()
    };
    let make_eval = |n: usize| -> Result<Stand, String> { Ok(Stand::new(&preps, n)) };
    for trusty in [true, false] {
        let eval = |stand: &Stand, x: &Vec<Binary64>| -> Result<Vec<Binary64>, String> {
            Ok(if trusty { honest(stand, x) } else { wild(stand, x) })
        };
        let results =
            batch_fit(&make_eval, &eval, &preps, &config, &seeded, &draw, &minimise, &math).unwrap();
        for (r, prep) in results.iter().zip(&preps) {
            for (v, d) in
                [(r.alpha1, 0), (r.alpha2, 1), (r.beta, 2), (r.logd, 3), (r.tb, 5), (r.t0, 6)]
            {
                let v = from(v.unwrap());
                let (low, high) = (from(prep.lower[d]), from(prep.upper[d]));
                let slack = if d == 6 { 2f64.powi(-22) } else { 0.0 };
                assert!(low - slack <= v && v <= high.max(low + (high - low)) + slack);
            }
        }
    }
}

/// Jobs are numbered restart by restart, ends are listed source by source.
#[test]
fn jobs_polish_their_own_restart() {
    let preps = sources();
    let problems = objectives(&preps, &math);
    let n_restarts = 2;
    assert_eq!(seeds_of_restarts(7, n_restarts), vec![restart_seed(7, 0), restart_seed(7, 1)]);
    let mut ends: Vec<(Vec<Binary64>, Binary64)> = Vec::new();
    for prep in &preps {
        for r in 0..n_restarts {
            let (lower, upper) = shifted_bounds(prep);
            let part = to(0.3 + 0.2 * r as f64);
            let at = |d: usize| lower[d].plus(upper[d].minus(lower[d]).times(part));
            ends.push(((0..N_PARAMS).map(at).collect(), to(0.0)));
        }
    }
    for job in 0..n_restarts * preps.len() {
        let (r, s) = (job / preps.len(), job % preps.len());
        let end = &ends[s * n_restarts + r].0;
        assert_eq!(
            polish_job(&preps, &problems, &ends, n_restarts, job, &minimise, &math),
            polish_end(&preps[s], &problems[s], end, &minimise, &math)
        );
    }
}

/// One pass and one polish per restart, in turn, give what a batch fit gives.
#[test]
fn batch_fit_matches_sequential_restarts() {
    let preps = sources();
    let config = config();

    let dispatches = Cell::new(0);
    let make_eval = |n: usize| -> Result<Stand, String> { Ok(Stand::new(&preps, n)) };
    let eval = |stand: &Stand, x: &Vec<Binary64>| -> Result<Vec<Binary64>, String> {
        dispatches.set(dispatches.get() + 1);
        Ok(stand.score(&preps, x))
    };
    let fitted =
        batch_fit(&make_eval, &eval, &preps, &config, &seeded, &draw, &minimise, &math).unwrap();
    assert_eq!(dispatches.get(), config.n_iters + 1);

    let mut restarts: Vec<Vec<(Vec<Binary64>, Binary64)>> = vec![Vec::new(); preps.len()];
    for r in 0..config.n_restarts {
        let pso = batch_pso(
            &make_eval,
            &eval,
            &preps,
            config.n_particles,
            config.n_iters,
            restart_seed(config.seed, r as u64),
            &seeded,
            &draw,
        )
        .unwrap();
        for (s, (mut params, _)) in pso.into_iter().enumerate() {
            params[6] = params[6].plus(preps[s].t_ref);
            let problem = SbplCost::new(&preps[s], &math);
            let cost = problem.eval(&params, &math);
            restarts[s].push(lbfgs_refine(
                &problem,
                params,
                cost,
                &preps[s].lower,
                &preps[s].upper,
                &minimise,
                &math,
            ));
        }
    }
    for (s, prep) in preps.iter().enumerate() {
        let expected = assemble_result(prep, &restarts[s], &math);
        assert_eq!(
            format!("{:?}", fitted[s]),
            format!("{expected:?}"),
            "source {s} fitted differently"
        );
    }
}

#[test]
fn empty_batches_need_no_evaluator() {
    let make_eval = |_: usize| -> Result<Stand, String> { Err("no device".to_string()) };
    let eval = |_: &Stand, _: &Vec<Binary64>| -> Result<Vec<Binary64>, String> {
        panic!("nothing to score")
    };
    let none: Vec<PreparedSource> = Vec::new();
    let fitted = batch_fit(&make_eval, &eval, &none, &config(), &seeded, &draw, &minimise, &math);
    assert_eq!(fitted.unwrap().len(), 0);

    // Without restarts there is nothing to search either.
    let preps = sources();
    let idle = PsoConfig { n_restarts: 0, ..config() };
    let fitted =
        batch_fit(&make_eval, &eval, &preps, &idle, &seeded, &draw, &minimise, &math).unwrap();
    assert_eq!(fitted.len(), 3);
    for (result, prep) in fitted.iter().zip(&preps) {
        assert_eq!(*result, SbplResult::empty(prep.n_obs, prep.n_bands));
    }
}

#[test]
fn evaluator_errors_are_handed_on() {
    let preps = sources();
    let config = config();
    let broken = |_: usize| -> Result<Stand, String> { Err("no device".to_string()) };
    let eval = |stand: &Stand, x: &Vec<Binary64>| -> Result<Vec<Binary64>, String> {
        Ok(stand.score(&preps, x))
    };
    let r = batch_fit(&broken, &eval, &preps, &config, &seeded, &draw, &minimise, &math);
    assert_eq!(r.unwrap_err(), "no device");

    // The evaluator fails in its fourth generation.
    let make_eval = |n: usize| -> Result<Stand, String> { Ok(Stand::new(&preps, n)) };
    let calls = Cell::new(0);
    let flaky = |stand: &Stand, x: &Vec<Binary64>| -> Result<Vec<Binary64>, String> {
        calls.set(calls.get() + 1);
        if calls.get() == 4 {
            Err("launch failed".to_string())
        } else {
            Ok(stand.score(&preps, x))
        }
    };
    let r = batch_pso(
        &make_eval,
        &flaky,
        &preps,
        config.n_particles,
        config.n_iters,
        7,
        &seeded,
        &draw,
    );
    assert_eq!(r.unwrap_err(), "launch failed");
    assert_eq!(calls.get(), 4);
}

#[test]
fn restart_seeds_differ() {
    assert_eq!(restart_seed(1234, 0), 1234);
    assert_eq!(restart_seed(1234, 1), 1234u64.wrapping_add(0x9E37_79B9_7F4A_7C15));
    assert_eq!(restart_seed(u64::MAX, 1), 0x9E37_79B9_7F4A_7C14);
    let mut seen: Vec<u64> = (0..1000).map(|r| restart_seed(99, r)).collect();
    seen.sort();
    seen.dedup();
    assert_eq!(seen.len(), 1000);
}

#[test]
fn bounds_are_relative_to_the_reference_time() {
    let prep = synthetic(1, 12.0, 2_458_200.0);
    let (lower, upper) = shifted_bounds(&prep);
    for d in 0..6 {
        assert_eq!(lower[d], prep.lower[d]);
        assert_eq!(upper[d], prep.upper[d]);
    }
    assert_eq!(from(lower[6]), from(prep.lower[6]) - from(prep.t_ref));
    assert_eq!(from(upper[6]), 0.0);

    let ends = vec![(vec![to(1.0); N_PARAMS], to(3.0))];
    let absolute = to_absolute_time(&vec![prep.clone()], &ends);
    assert_eq!(from(absolute[0].0[6]), 1.0 + from(prep.t_ref));
    assert_eq!(from(absolute[0].0[5]), 1.0);
    assert_eq!(from(absolute[0].1), 3.0);
}

// ---------------------------------------------------------------------------
// Three-band sources
// ---------------------------------------------------------------------------

fn xorshift(state: &mut u64) -> f64 {
    let mut x = *state;
    x ^= x << 13;
    x ^= x >> 7;
    x ^= x << 17;
    *state = x;
    (x >> 11) as f64 / ((1u64 << 53) as f64)
}

fn normal(rng: &mut u64) -> f64 {
    let u1 = xorshift(rng).max(1e-15);
    let u2 = xorshift(rng);
    (-2.0 * u1.ln()).sqrt() * (2.0 * std::f64::consts::PI * u2).cos()
}

fn synthetic_source(n_per_band: usize, seed: u64, p: [f64; N_PARAMS]) -> BandMap {
    let mut rng = seed.max(1);
    let bands: &[(&str, f64)] = &[("g", 4770.0), ("r", 6231.0), ("i", 7625.0)];
    let (tb, t0) = (p[5], p[6]);
    let t_start = t0 + 0.5;
    let t_end = t0 + tb * 10.0;
    let noise_frac = 0.05;

    let mut result = BandMap::new();
    for &(name, lambda) in bands {
        let nu_scaled = (2.997_924_58e18 / lambda) / 1e15;
        let mut bd = BandData::new();
        for i in 0..n_per_band {
            let frac = i as f64 / (n_per_band - 1).max(1) as f64;
            let t = t_start + frac * (t_end - t_start);
            let f = model(t, nu_scaled, p);
            if !f.is_finite() || f <= 0.0 {
                continue;
            }
            let err = (f * noise_frac).max(1e-12);
            bd.times.push(to(t));
            bd.fluxes.push(to(f + err * normal(&mut rng)));
            bd.flux_errs.push(to(err));
        }
        result.insert(name.to_string(), bd);
    }
    result
}

/// A small batch of distinct synthetic sources, each with a different shape.
fn make_batch(config: &PsoConfig) -> Vec<SourceData> {
    let specs: &[[f64; N_PARAMS]] = &[
        [1.5, -2.0, -0.6, -0.5, 2.0, 12.0, 2_458_200.0],
        [0.8, -1.2, -0.4, -1.0, 1.5, 25.0, 2_458_310.0],
        [2.2, -3.0, -0.9, -0.3, 2.5, 6.0, 2_458_005.0],
        [1.0, -1.8, -0.2, -0.8, 1.0, 40.0, 2_458_440.0],
        [1.7, -2.4, -0.7, -0.6, 2.2, 18.0, 2_458_150.0],
    ];
    specs
        .iter()
        .enumerate()
        .map(|(i, &p)| {
            let bands = synthetic_source(40, 1000 + i as u64, p);
            match prepare_source(&bands, config) {
                Preparation::Ready(prepared) => {
                    SourceData { name: format!("synthetic_{i}"), prepared }
                }
                other => panic!("synthetic source {i} was not fittable: {other:?}"),
            }
        })
        .collect()
}

fn small_config() -> PsoConfig {
    PsoConfig { n_particles: 24, n_iters: 60, n_restarts: 2, ..PsoConfig::default() }
}

fn fit_batch(sources: &[SourceData], config: &PsoConfig) -> Vec<SbplResult> {
    let preps: Vec<PreparedSource> = sources.iter().map(|s| s.prepared.clone()).collect();
    let make_eval = |n: usize| -> Result<Stand, String> { Ok(Stand::new(&preps, n)) };
    let eval = |stand: &Stand, x: &Vec<Binary64>| -> Result<Vec<Binary64>, String> {
        Ok(stand.score(&preps, x))
    };
    batch_fit(&make_eval, &eval, &preps, config, &seeded, &draw, &minimise, &math)
        .expect("batch fit")
}

#[test]
fn gpu_batch_fit_returns_one_finite_result_per_source() {
    let config = small_config();
    let sources = make_batch(&config);
    let results = fit_batch(&sources, &config);

    assert_eq!(results.len(), sources.len());
    for (r, s) in results.iter().zip(sources.iter()) {
        let chi2 = from(r.reduced_chi2.expect("reduced_chi2 must be set"));
        assert!(chi2.is_finite() && chi2 >= 0.0, "bad chi2 {chi2}");
        assert_eq!(r.n_obs, s.prepared.n_obs);
        assert_eq!(r.n_bands, s.prepared.n_bands);
        for name in ["alpha1", "alpha2", "beta", "logd", "loga", "tb", "t0"] {
            let v = match name {
                "alpha1" => r.alpha1,
                "alpha2" => r.alpha2,
                "beta" => r.beta,
                "logd" => r.logd,
                "loga" => r.loga,
                "tb" => r.tb,
                _ => r.t0,
            };
            assert!(v.map(from).is_some_and(f64::is_finite), "{name} is not finite");
        }
    }
}

/// The onset comes back on the original time axis, not relative to the reference
/// time that the evaluator works with.
#[test]
fn gpu_t0_is_returned_in_absolute_time() {
    let config = small_config();
    let sources = make_batch(&config);
    let results = fit_batch(&sources, &config);

    for (r, s) in results.iter().zip(sources.iter()) {
        let t0 = from(r.t0.unwrap());
        let lower = from(s.prepared.lower[6]);
        let upper = from(s.prepared.upper[6]);
        assert!(
            t0 >= lower - 1e-6 && t0 <= upper + 1e-6,
            "t0 {t0} outside absolute-time bounds [{lower}, {upper}]"
        );
    }
}

/// A source's fit does not depend on which other sources share its batch.
#[test]
fn gpu_results_are_independent_of_batch_composition() {
    let config = small_config();
    let sources = make_batch(&config);
    let full = fit_batch(&sources, &config);

    let solo_src = vec![SourceData {
        name: sources[2].name.clone(),
        prepared: sources[2].prepared.clone(),
    }];
    let solo = fit_batch(&solo_src, &config);

    assert_eq!(solo.len(), 1);
    let (a, b) = (&full[2], &solo[0]);
    assert_eq!(
        a.reduced_chi2, b.reduced_chi2,
        "source 2 fit differently in a batch of {} than alone",
        sources.len()
    );
    assert_eq!(a.tb, b.tb);
    assert_eq!(a.t0, b.t0);
    assert_eq!(a, b);
}

/// Both ways of searching minimise the same objective, so neither should be
/// systematically worse.
#[test]
fn gpu_and_cpu_agree_on_synthetic_sources() {
    let config = small_config();
    let sources = make_batch(&config);

    let gpu = fit_batch(&sources, &config);
    let cpu: Vec<SbplResult> = sources
        .iter()
        .map(|s| fit_prepared(&s.prepared, &config, &seeded, &draw, &minimise, &math))
        .collect();

    for (i, (g, c)) in gpu.iter().zip(cpu.iter()).enumerate() {
        let gv = from(g.reduced_chi2.unwrap());
        let cv = from(c.reduced_chi2.unwrap());
        assert!(
            gv < 10.0 * cv.max(1.0),
            "source {i}: gpu chi2 {gv:.3} is far worse than cpu chi2 {cv:.3}"
        );
    }

    let gpu_med = median(gpu.iter().filter_map(|r| r.reduced_chi2).map(from).collect());
    let cpu_med = median(cpu.iter().filter_map(|r| r.reduced_chi2).map(from).collect());
    assert!(
        gpu_med < 5.0 * cpu_med.max(1.0),
        "gpu median chi2 {gpu_med:.3} vs cpu {cpu_med:.3}"
    );
}

fn median(mut v: Vec<f64>) -> f64 {
    assert!(!v.is_empty());
    v.sort_by(|a, b| a.partial_cmp(b).unwrap());
    v[v.len() / 2]
}

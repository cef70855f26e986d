//! Preparing, searching, polishing and assembling, against the machine's own
//! arithmetic.

use argmin::solver::linesearch::MoreThuenteLineSearch;
use argmin::solver::quasinewton::LBFGS;
use rand::rngs::SmallRng;
use rand::{Rng, SeedableRng};
use sbpl_pso::fingerprint::content_hash;
use sbpl_pso::fit::can_fit;
use sbpl_pso::numbers;
use sbpl_pso::polish::{accept, ScaledCost};
use sbpl_pso::search::{is_searchable, pso_search};
use sbpl_pso::{
    assemble_result, band_frequency_hz, band_wavelength, eval_sbpl, fit_prepared, lbfgs_refine,
    prepare_source, sbpl_model, BandData, BandMap, Binary64, Draw, Elementary, Preparation,
    PreparedSource, PsoConfig, SbplCost, SbplObs, SbplResult, N_PARAMS,
};

fn to(x: f64) -> Binary64 {
    Binary64 { bits: x.to_bits() }
}

fn from(x: Binary64) -> f64 {
    f64::from_bits(x.bits)
}

fn math(q: Elementary) -> Binary64 {
    to(match q {
        Elementary::Pow(x, y) => from(x).powf(from(y)),
        Elementary::Ln(x) => from(x).ln(),
        Elementary::Exp(x) => from(x).exp(),
        Elementary::Log10(x) => from(x).log10(),
        Elementary::Sqrt(x) => from(x).sqrt(),
    })
}

fn seeded(seed: u64) -> SmallRng {
    SmallRng::seed_from_u64(seed)
}

fn draw(g: &SmallRng, q: Draw) -> (Binary64, SmallRng) {
    let mut g = g.clone();
    let x: f64 = match q {
        Draw::Unit => g.random(),
        Draw::Range(lo, hi) => g.random_range(from(lo)..from(hi)),
    };
    (to(x), g)
}

struct Problem<'a>(&'a ScaledCost<'a>);

impl argmin::core::CostFunction for Problem<'_> {
    type Param = Vec<f64>;
    type Output = f64;
    fn cost(&self, xs: &Vec<f64>) -> Result<f64, argmin::core::Error> {
        let xs: Vec<Binary64> = xs.iter().map(|&x| to(x)).collect();
        Ok(from(self.0.cost(&xs, &math)))
    }
}

impl argmin::core::Gradient for Problem<'_> {
    type Param = Vec<f64>;
    type Gradient = Vec<f64>;
    fn gradient(&self, xs: &Vec<f64>) -> Result<Vec<f64>, argmin::core::Error> {
        let xs: Vec<Binary64> = xs.iter().map(|&x| to(x)).collect();
        Ok(self.0.gradient(&xs, &math).into_iter().map(from).collect())
    }
}

fn minimise(scaled: &ScaledCost, start: &Vec<Binary64>) -> Option<Vec<Binary64>> {
    let solver = LBFGS::new(MoreThuenteLineSearch::new(), 10).with_tolerance_grad(1e-7).ok()?;
    let xs: Vec<f64> = start.iter().map(|&x| from(x)).collect();
    let result = argmin::core::Executor::new(Problem(scaled), solver)
        .configure(|state| state.param(xs).max_iters(200))
        .run()
        .ok()?;
    result.state().best_param.clone().map(|xs| xs.into_iter().map(to).collect())
}


fn row(xs: &[f64]) -> Vec<Binary64> {
    xs.iter().map(|&x| to(x)).collect()
}

fn plain(xs: &[Binary64]) -> Vec<f64> {
    xs.iter().map(|&x| from(x)).collect()
}

#[test]
fn constants_are_what_they_are_called() {
    for (bits, value) in [
        (numbers::ONE, 1.0),
        (numbers::TWO, 2.0),
        (numbers::MINUS_TWO, -2.0),
        (numbers::HALF, 0.5),
        (numbers::MINUS_THREE, -3.0),
        (numbers::FIVE, 5.0),
        (numbers::MINUS_FIVE, -5.0),
        (numbers::TEN, 10.0),
        (numbers::MINUS_TEN, -10.0),
        (numbers::TEN_THOUSAND, 10_000.0),
        (numbers::TEN_BILLION, 1e10),
        (numbers::PETA, 1e15),
        (numbers::HUNDREDTH, 0.01),
        (numbers::TENTH, 0.1),
        (numbers::MINUS_TENTH, -0.1),
        (numbers::TINY, 1e-30),
        (numbers::LN_10, std::f64::consts::LN_10),
        (numbers::INERTIA, 0.7298),
        (numbers::ATTRACTION, 1.4962),
        (numbers::LIGHT_SPEED, 2.997_924_58e18),
        (numbers::ZERO_POINT, 23.9),
        (numbers::MAGNITUDE_SCALE, 2.5),
        (numbers::ONE_PERCENT_MORE, 1.01),
        (numbers::INFINITY, f64::INFINITY),
        (numbers::MINUS_INFINITY, f64::NEG_INFINITY),
    ] {
        assert_eq!(f64::from_bits(bits), value);
    }
}

#[test]
fn bands_have_wavelengths() {
    for (names, lambda) in [
        (vec!["g", "ztfg", "lsstg", "ZTF_g"], 4770.0),
        (vec!["r", "ztfr", "lsstr", "ZTF_r"], 6231.0),
        (vec!["i", "ztfi", "lssti", "ZTF_i"], 7625.0),
        (vec!["z", "ztfz", "lsstz"], 9100.0),
        (vec!["y", "lssty"], 9710.0),
        (vec!["u", "lsstu"], 3540.0),
    ] {
        for name in names {
            assert_eq!(band_wavelength(name).map(from), Some(lambda), "{name}");
            assert_eq!(
                band_frequency_hz(name).map(from),
                Some(2.997_924_58e18 / lambda),
                "{name}"
            );
        }
    }
    for name in ["", "G", "ZTF_z", "ztfy", "lssty ", "w"] {
        assert!(band_wavelength(name).is_none(), "{name}");
        assert!(band_frequency_hz(name).is_none(), "{name}");
    }
}

/// The model in the machine's own arithmetic.
fn native_model(t: f64, nu: f64, p: [f64; N_PARAMS]) -> f64 {
    let [alpha1, alpha2, beta, logd, loga, tb, t0] = p;
    let tau = t - t0;
    if tb <= 0.0 || nu <= 0.0 {
        return f64::NAN;
    }
    if tau < 0.0 {
        return 0.0;
    }
    let ratio = tau / tb;
    if ratio == 0.0 || !ratio.is_finite() {
        return f64::NAN;
    }
    let d = 10f64.powf(logd);
    let inner = 0.5 * (1.0 + ratio.powf(1.0 / d));
    if !inner.is_finite() || inner <= 0.0 {
        return f64::NAN;
    }
    let flux = 10f64.powf(loga)
        * nu.powf(beta)
        * ratio.powf(alpha1)
        * inner.powf((alpha2 - alpha1) * d);
    if flux.is_finite() {
        flux
    } else {
        f64::NAN
    }
}

fn model(t: f64, nu: f64, p: [f64; N_PARAMS]) -> f64 {
    let v = row(&p);
    from(sbpl_model(to(t), to(nu), v[0], v[1], v[2], v[3], v[4], v[5], v[6], &math))
}

#[test]
fn model_matches_native_arithmetic() {
    let mut g = seeded(5);
    for _ in 0..5000 {
        let p = [
            g.random_range(-10.0..10.0),
            g.random_range(-10.0..10.0),
            g.random_range(-5.0..5.0),
            g.random_range(-3.0..0.5),
            g.random_range(-10.0..10.0),
            g.random_range(-1.0..50.0),
            g.random_range(-20.0..20.0),
        ];
        let (t, nu) = (g.random_range(-25.0..60.0), g.random_range(-0.1..1.0));
        let (got, want) = (model(t, nu, p), native_model(t, nu, p));
        assert!(got == want || (got.is_nan() && want.is_nan()), "{t} {nu} {p:?}: {got} {want}");
    }
}

#[test]
fn model_domain_is_guarded() {
    let p = [1.5, -1.5, -0.7, -0.3, 0.0, 10.0, 5.0];
    assert!(model(15.0, 0.5, [1.5, -1.5, -0.7, -0.3, 0.0, 0.0, 5.0]).is_nan());
    assert!(model(15.0, 0.0, p).is_nan());
    assert!(model(5.0, 0.5, p).is_nan()); // at the onset
    assert_eq!(model(4.0, 0.5, p), 0.0);
    assert!(model(f64::INFINITY, 0.5, p).is_nan());
    assert!(model(15.0, 0.5, [1.5, -1.5, -0.7, -0.3, 400.0, 10.0, 5.0]).is_nan());
    // At the break, with unit frequency and amplitude, the model is one.
    assert_eq!(model(15.0, 1.0, p), 1.0);
}

#[test]
fn curves_are_evaluated_band_by_band() {
    let p = [1.5, -1.5, -0.7, -0.3, 0.5, 10.0, 5.0];
    let params: [Binary64; N_PARAMS] = [0, 1, 2, 3, 4, 5, 6].map(|i: usize| to(p[i]));
    let times = row(&[0.0, 7.5, 15.0, 100.0]);
    let got = eval_sbpl(&params, &times, "lsstz", &math).unwrap();
    let nu = 2.997_924_58e18 / 9100.0 / 1e15;
    let want: Vec<f64> = [0.0, 7.5, 15.0, 100.0].iter().map(|&t| native_model(t, nu, p)).collect();
    assert_eq!(plain(&got), want);
    assert!(eval_sbpl(&params, &times, "w", &math).is_none());
}

fn band(times: &[f64], fluxes: &[f64], errs: &[f64]) -> BandData {
    BandData { times: row(times), fluxes: row(fluxes), flux_errs: row(errs) }
}

fn ready(bands: &BandMap, config: &PsoConfig) -> PreparedSource {
    match prepare_source(bands, config) {
        Preparation::Ready(p) => p,
        other => panic!("{other:?}"),
    }
}

fn two_bands() -> BandMap {
    let mut bands = BandMap::new();
    bands.insert(
        "r".to_string(),
        band(&[10.0, 12.0, 11.0, f64::NAN], &[2.0, 8.0, 4.0, 1.0], &[0.5, 0.5, 0.25, 1.0]),
    );
    bands.insert(
        "g".to_string(),
        band(
            &[15.0, 13.0, 14.0, 20.0, 1.0, 2.0, 3.0],
            &[1.0, 3.0, -1.0, 5.0, f64::INFINITY, 1.0, 1.0],
            &[0.5, 0.5, 0.5, 0.5, 0.5, 0.0, -1.0],
        ),
    );
    bands.insert("unknown".to_string(), band(&[0.0, 100.0], &[1e9, 1.0], &[1.0, 1.0]));
    bands
}

#[test]
fn sources_are_flattened_and_normalised() {
    let p = ready(&two_bands(), &PsoConfig::default());
    assert_eq!(plain(&p.times), vec![15.0, 13.0, 14.0, 20.0, 10.0, 12.0, 11.0]);
    assert_eq!(plain(&p.flux), vec![0.125, 0.375, -0.125, 0.625, 0.25, 1.0, 0.5]);
    assert_eq!(plain(&p.flux_err), vec![0.0625, 0.0625, 0.0625, 0.0625, 0.0625, 0.0625, 0.03125]);
    let (g, r) = (2.997_924_58e18 / 4770.0 / 1e15, 2.997_924_58e18 / 6231.0 / 1e15);
    assert_eq!(plain(&p.nu_scaled), vec![g, g, g, g, r, r, r]);
    assert_eq!(from(p.max_flux), 8.0);
    assert_eq!(from(p.t_ref), 10.0);
    assert_eq!((p.n_obs, p.n_bands), (7, 2));
    assert_eq!(plain(&p.lower), vec![-10.0, -10.0, -5.0, -3.0, -10.0, 0.1, -10.0]);
    assert_eq!(plain(&p.upper), vec![10.0, 10.0, 5.0, 0.0, 10.0, 100.0, 10.0]);
    assert_eq!(p.seed_key, native_hash(&plain(&p.times), &plain(&p.flux), &plain(&p.flux_err)));
}

#[test]
fn bounds_can_be_overridden() {
    let config = PsoConfig {
        alpha1_min: to(0.0),
        alpha1_max: to(4.0),
        alpha2_min: to(-3.0),
        alpha2_max: to(0.0),
        tb_lower: Some(to(0.5)),
        tb_upper: Some(to(7.0)),
        ..PsoConfig::default()
    };
    let p = ready(&two_bands(), &config);
    assert_eq!(plain(&p.lower), vec![0.0, -3.0, -5.0, -3.0, -10.0, 0.5, -10.0]);
    assert_eq!(plain(&p.upper), vec![4.0, 0.0, 5.0, 0.0, 10.0, 7.0, 10.0]);
}

#[test]
fn break_time_bounds_follow_the_span() {
    let spread = |span: f64| {
        let mut bands = BandMap::new();
        for name in ["g", "r"] {
            let times: Vec<f64> = (0..5).map(|i| span * i as f64 / 4.0).collect();
            bands.insert(name.to_string(), band(&times, &[1.0; 5], &[0.1; 5]));
        }
        let p = ready(&bands, &PsoConfig::default());
        (from(p.lower[5]), from(p.upper[5]))
    };
    assert_eq!(spread(0.5), (0.01, 5.0));
    // As long as it is below the upper bound, 0.01 day is the least.
    assert_eq!(spread(0.002), (0.01, 10.0 * 0.002));
    assert_eq!(spread(0.0005), (0.01 * 0.0005, 10.0 * 0.0005));
    assert_eq!(spread(20.0), (0.2, 200.0));
    assert_eq!(spread(100.0), (1.0, 1000.0));
    assert_eq!(spread(4000.0), (40.0, 10_000.0));
}

#[test]
fn too_little_data_is_not_fitted() {
    let unfittable = |bands: &BandMap| match prepare_source(bands, &PsoConfig::default()) {
        Preparation::Unfittable(r) => r,
        other => panic!("{other:?}"),
    };
    // One band.
    let mut bands = BandMap::new();
    bands.insert("g".to_string(), band(&[1., 2., 3., 4., 5., 6., 7.], &[1.0; 7], &[1.0; 7]));
    assert_eq!(unfittable(&bands), SbplResult::empty(7, 1));
    // A second band without observations does not count.
    bands.insert("r".to_string(), BandData::new());
    assert_eq!(unfittable(&bands), SbplResult::empty(7, 1));
    // One whose observations are all unusable does.
    bands.insert("r".to_string(), band(&[1.0], &[f64::NAN], &[1.0]));
    assert_eq!(ready(&bands, &PsoConfig::default()).n_bands, 2);
    // Six observations.
    let mut bands = BandMap::new();
    bands.insert("g".to_string(), band(&[1., 2., 3.], &[1.0; 3], &[1.0; 3]));
    bands.insert("r".to_string(), band(&[1., 2., 3.], &[1.0; 3], &[1.0; 3]));
    assert_eq!(unfittable(&bands), SbplResult::empty(6, 2));
    // No time span.
    let mut bands = BandMap::new();
    bands.insert("g".to_string(), band(&[1.0; 4], &[1.0; 4], &[1.0; 4]));
    bands.insert("r".to_string(), band(&[1.0; 4], &[1.0; 4], &[1.0; 4]));
    assert_eq!(unfittable(&bands), SbplResult::empty(8, 2));
    // No known band.
    let mut bands = BandMap::new();
    bands.insert("w".to_string(), band(&[1.0; 4], &[1.0; 4], &[1.0; 4]));
    assert_eq!(unfittable(&bands), SbplResult::empty(0, 0));
    // No band.
    assert!(matches!(
        prepare_source(&BandMap::new(), &PsoConfig::default()),
        Preparation::Empty
    ));
}

#[test]
fn without_a_positive_flux_the_unit_is_one() {
    let mut bands = BandMap::new();
    for name in ["g", "r"] {
        bands.insert(name.to_string(), band(&[1., 2., 3., 4.], &[-1.0, 0.0, -2.0, -3.0], &[1.0; 4]));
    }
    let p = ready(&bands, &PsoConfig::default());
    assert_eq!(from(p.max_flux), 1.0);
    assert_eq!(plain(&p.flux)[..4], [-1.0, 0.0, -2.0, -3.0]);
}

#[test]
fn unknown_bands_change_nothing() {
    let with = ready(&two_bands(), &PsoConfig::default());
    let mut bands = two_bands();
    bands.insert("another".to_string(), band(&[-5.0], &[1e30], &[1.0]));
    let without = ready(&bands, &PsoConfig::default());
    assert_eq!(format!("{with:?}"), format!("{without:?}"));
}

/// Rows that cannot be used change nothing, wherever they stand.
#[test]
fn unusable_rows_change_nothing() {
    let clean = ready(&two_bands(), &PsoConfig::default());
    for (time, flux, err) in [
        (f64::NAN, 1.0, 1.0),
        (f64::INFINITY, 1.0, 1.0),
        (12.5, f64::NEG_INFINITY, 1.0),
        (12.5, 1.0, f64::NAN),
        (12.5, 1.0, f64::INFINITY),
        (12.5, 1.0, 0.0),
        (12.5, 1.0, -1.0),
    ] {
        for i in 0..5 {
            let mut r = band(
                &[10.0, 12.0, 11.0, f64::NAN],
                &[2.0, 8.0, 4.0, 1.0],
                &[0.5, 0.5, 0.25, 1.0],
            );
            r.times.insert(i, to(time));
            r.fluxes.insert(i, to(flux));
            r.flux_errs.insert(i, to(err));
            let mut bands = two_bands();
            bands.insert("r".to_string(), r);
            let other = ready(&bands, &PsoConfig::default());
            assert_eq!(format!("{clean:?}"), format!("{other:?}"));
        }
    }
}

/// However short a light curve is, the default bounds leave room to search.
#[test]
fn short_light_curves_are_fitted() {
    let config = PsoConfig { n_particles: 4, n_iters: 4, n_restarts: 1, ..PsoConfig::default() };
    for (start, step) in [(0.0, 2f64.powi(-13)), (59000.0, 2f64.powi(-20)), (-1.0, 2f64.powi(-53))] {
        let mut bands = BandMap::new();
        for name in ["g", "r"] {
            let times: Vec<f64> = (0..4).map(|i| start + step * i as f64).collect();
            bands.insert(name.to_string(), band(&times, &[1.0, 2.0, 3.0, 2.0], &[0.1; 4]));
        }
        let prep = ready(&bands, &config);
        assert!(can_fit(&prep, &config));
        let r = fit_prepared(&prep, &config, &seeded, &draw, &minimise, &math);
        let tb = from(r.tb.unwrap());
        assert!(from(prep.lower[5]) <= tb && tb <= from(prep.upper[5]));
    }
}

fn native_hash(times: &[f64], flux: &[f64], err: &[f64]) -> u64 {
    let mut h: u64 = 0xcbf2_9ce4_8422_2325;
    let mut mix = |v: u64| {
        for byte in v.to_le_bytes() {
            h ^= byte as u64;
            h = h.wrapping_mul(0x100_0000_01b3);
        }
    };
    mix(times.len() as u64);
    for i in 0..times.len() {
        mix(times[i].to_bits());
        mix(flux[i].to_bits());
        mix(err[i].to_bits());
    }
    h
}

#[test]
fn keys_depend_on_content() {
    let key = |t: &[f64], f: &[f64], e: &[f64]| content_hash(&row(t), &row(f), &row(e));
    assert_eq!(key(&[1.0, 2.0], &[3.0, 4.0], &[5.0, 6.0]),
        native_hash(&[1.0, 2.0], &[3.0, 4.0], &[5.0, 6.0]));
    assert_eq!(key(&[], &[], &[]), 0xa8c7_f832_281a_39c5);
    assert_ne!(key(&[1.0, 2.0], &[3.0, 4.0], &[5.0, 6.0]), key(&[2.0, 1.0], &[4.0, 3.0], &[6.0, 5.0]));
    assert_ne!(key(&[0.0], &[0.0], &[0.0]), key(&[-0.0], &[0.0], &[0.0]));
}

/// A span of twenty days is searched for breaks up to two hundred days.
#[test]
fn breaks_reach_ten_spans() {
    let mut bands = BandMap::new();
    bands.insert("g".to_string(), band(&[0.0, 5.0, 10.0, 20.0], &[1.0; 4], &[0.1; 4]));
    bands.insert("r".to_string(), band(&[0.0, 5.0, 10.0], &[1.0; 3], &[0.1; 3]));
    let p = ready(&bands, &PsoConfig::default());
    assert_eq!(from(p.upper[5]), 200.0);
}

/// All fluxes and errors in a unit that is a power of two away change nothing but
/// the largest flux.
#[test]
fn flux_units_do_not_matter() {
    let scaled = |by: f64| {
        let mut bands = BandMap::new();
        for (name, data) in [
            ("g", [[15.0, 13.0, 14.0, 20.0], [1.1, 3.3, -1.7, 5.9], [0.5, 0.31, 0.5, 0.77]]),
            ("r", [[10.0, 12.0, 11.0, 19.0], [2.3, 8.1, 4.4, f64::NAN], [0.5, 0.5, 0.25, 1.0]]),
        ] {
            let fluxes: Vec<f64> = data[1].iter().map(|x| x * by).collect();
            let errs: Vec<f64> = data[2].iter().map(|x| x * by).collect();
            bands.insert(name.to_string(), band(&data[0], &fluxes, &errs));
        }
        ready(&bands, &PsoConfig::default())
    };
    let one = scaled(1.0);
    for by in [1024.0, 0.125, 2f64.powi(-300)] {
        let other = scaled(by);
        assert_eq!(from(other.max_flux), by * from(one.max_flux));
        let PreparedSource { times, nu_scaled, flux, flux_err, lower, upper, .. } = other;
        assert_eq!((&times, &nu_scaled), (&one.times, &one.nu_scaled));
        assert_eq!((&flux, &flux_err), (&one.flux, &one.flux_err));
        assert_eq!((lower, upper), (one.lower, one.upper));
        assert_eq!((other.n_obs, other.n_bands), (one.n_obs, one.n_bands));
        assert_eq!((other.t_ref, other.seed_key), (one.t_ref, one.seed_key));
    }
}

/// At the break the model is the amplitude times the spectral factor.
#[test]
fn model_at_the_break() {
    for (alpha1, alpha2, logd) in [(1.0, -1.0, -0.5), (3.25, 0.5, -2.0), (-2.0, -7.0, 0.0)] {
        let p = [alpha1, alpha2, 0.6, logd, 0.3, 4.5, -1.5];
        assert_eq!(model(3.0, 0.7, p), 10f64.powf(0.3) * 0.7f64.powf(0.6));
    }
}

/// A source with a peak, and its cost in the machine's own arithmetic.
fn peaked() -> PreparedSource {
    let mut bands = BandMap::new();
    for (name, gain) in [("g", 1.0), ("r", 1.3), ("i", 1.7)] {
        let times: Vec<f64> = (0..12).map(|i| 2.0 * i as f64).collect();
        let fluxes: Vec<f64> =
            times.iter().map(|t| gain * (1.0 + t) / (1.0 + (t / 8.0).powi(3))).collect();
        let errs: Vec<f64> = fluxes.iter().map(|f| 0.05 * f).collect();
        bands.insert(name.to_string(), band(&times, &fluxes, &errs));
    }
    ready(&bands, &PsoConfig::default())
}

fn native_cost(obs: &[SbplObs], p: &[f64]) -> (f64, [f64; N_PARAMS]) {
    const FAIL: (f64, [f64; N_PARAMS]) = (1e10, [0.0; N_PARAMS]);
    let ln10 = std::f64::consts::LN_10;
    let (alpha1, alpha2, beta, logd, loga, tb, t0) = (p[0], p[1], p[2], p[3], p[4], p[5], p[6]);
    if obs.is_empty() || obs.iter().any(|o| from(o.nu_scaled) <= 0.0) || tb <= 0.0 {
        return FAIL;
    }
    let d = 10f64.powf(logd);
    let inv_d = 1.0 / d;
    let k = (alpha2 - alpha1) * d;
    let ln_amp = loga * ln10;
    let mut chi2 = 0.0;
    let mut grad = [0.0; N_PARAMS];
    for o in obs {
        let ln_nu = from(o.nu_scaled).ln();
        let (flux, err) = (from(o.flux), from(o.flux_err));
        let err_sq = err * err + 1e-30;
        let tau = from(o.time) - t0;
        if tau < 0.0 {
            chi2 += flux * flux / err_sq;
            continue;
        }
        let ratio = tau / tb;
        if ratio == 0.0 || !ratio.is_finite() {
            return FAIL;
        }
        let ln_ratio = ratio.ln();
        let q = (ln_ratio * inv_d).exp();
        let inner = 0.5 * (1.0 + q);
        if !inner.is_finite() || inner <= 0.0 {
            return FAIL;
        }
        let ln_inner = inner.ln();
        let m = (ln_amp + beta * ln_nu + alpha1 * ln_ratio + k * ln_inner).exp();
        if !m.is_finite() {
            return FAIL;
        }
        let residual = flux - m;
        chi2 += residual * residual / err_sq;
        let w = -2.0 * residual * m / err_sq;
        let s = 0.5 * q / inner;
        let slope = alpha1 + (alpha2 - alpha1) * s;
        grad[0] += w * (ln_ratio - d * ln_inner);
        grad[1] += w * d * ln_inner;
        grad[2] += w * ln_nu;
        grad[3] += w * ln10 * (alpha2 - alpha1) * (d * ln_inner - s * ln_ratio);
        grad[4] += w * ln10;
        grad[5] -= w * slope / tb;
        grad[6] -= w * slope / tau;
    }
    let n = obs.len() as f64;
    for g in &mut grad {
        *g /= n;
    }
    (chi2 / n, grad)
}

#[test]
fn cost_matches_native_arithmetic() {
    let prep = peaked();
    let cost = SbplCost::new(&prep, &math);
    assert_eq!(cost.observations().len(), 36);
    let mut g = seeded(11);
    for i in 0..300 {
        let mut p = [0.0; N_PARAMS];
        for d in 0..N_PARAMS {
            p[d] = g.random_range(from(prep.lower[d])..from(prep.upper[d]));
        }
        if i % 3 == 0 {
            p[6] = g.random_range(0.0..20.0);
        }
        if i % 50 == 0 {
            p[6] = 4.0; // an observation at the onset
        }
        let (want, slope) = native_cost(cost.observations(), &p);
        let (got, grad) = cost.eval_with_grad(&row(&p), &math);
        assert_eq!(from(got), want, "{p:?}");
        assert_eq!(from(cost.eval(&row(&p), &math)), want);
        assert_eq!(plain(&grad), slope.to_vec(), "{p:?}");
        assert!(from(got) >= 0.0);
    }
}

/// One observation at the break of a unit power law, half a unit above it.
#[test]
fn gradients_come_only_when_wanted() {
    let prep = PreparedSource {
        times: row(&[1.0]),
        nu_scaled: row(&[1.0]),
        flux: row(&[1.5]),
        flux_err: row(&[1.0]),
        n_obs: 1,
        n_bands: 1,
        ..peaked()
    };
    let problem = SbplCost::new(&prep, &math);
    let p = row(&[1.0, 1.0, 0.0, 0.0, 0.0, 1.0, 0.0]);
    let ln_10 = from(Binary64 { bits: numbers::LN_10 });
    let (cost, grad) = problem.chi2(&p, &math, true);
    assert_eq!(from(cost), 0.25);
    assert_eq!(plain(&grad), vec![0.0, 0.0, 0.0, 0.0, -ln_10, 1.0, 1.0]);
    assert_eq!(problem.eval_with_grad(&p, &math), (cost, grad));
    assert_eq!(problem.chi2(&p, &math, false), (cost, vec![to(0.0); N_PARAMS]));
    assert_eq!(problem.eval(&p, &math), cost);
}

/// The objective is the reduced chi-squared of the model, as closely as sums of
/// logarithms and products of powers agree.
#[test]
fn cost_is_near_chi2_of_the_model() {
    let prep = peaked();
    let problem = SbplCost::new(&prep, &math);
    for p in [
        [1.0, -1.0, 0.2, -0.5, 0.1, 8.0, -1.0],
        [2.0, -2.0, -0.4, -1.5, -0.3, 12.0, -0.25],
        [0.5, -3.0, 0.0, -0.2, 0.4, 3.0, 5.0],
    ] {
        let mut chi2 = 0.0;
        for o in problem.observations() {
            let r = from(o.flux) - model(from(o.time), from(o.nu_scaled), p);
            chi2 += r * r / (from(o.flux_err).powi(2) + 1e-30);
        }
        let want = chi2 / problem.observations().len() as f64;
        let got = from(problem.eval(&row(&p), &math));
        assert!((got - want).abs() <= 1e-10 * want.max(1.0), "{got} {want}");
    }
}

#[test]
fn cost_fails_on_bad_frequencies() {
    let mut prep = peaked();
    prep.nu_scaled[5] = to(0.0);
    let cost = SbplCost::new(&prep, &math);
    let p = row(&[1.0, -1.0, 0.0, -0.5, 0.0, 5.0, -1.0]);
    let (c, grad) = cost.eval_with_grad(&p, &math);
    assert_eq!(from(c), 1e10);
    assert_eq!(plain(&grad), vec![0.0; N_PARAMS]);
    // So it does without observations.
    prep.times.clear();
    assert_eq!(from(SbplCost::new(&prep, &math).eval(&p, &math)), 1e10);
}

/// The search in the machine's own arithmetic.
fn native_search(
    obs: &[SbplObs],
    lower: &[f64],
    upper: &[f64],
    n_particles: usize,
    n_iters: usize,
    rng: &mut SmallRng,
) -> (Vec<f64>, f64) {
    let cost = |p: &[f64]| native_cost(obs, p).0;
    let span: Vec<f64> = lower.iter().zip(upper).map(|(&lo, &hi)| hi - lo).collect();
    let mut pos: Vec<Vec<f64>> = (0..n_particles)
        .map(|_| lower.iter().zip(upper).map(|(&lo, &hi)| rng.random_range(lo..hi)).collect())
        .collect();
    let mut vel: Vec<Vec<f64>> = (0..n_particles)
        .map(|_| span.iter().map(|&s| rng.random_range(-0.1 * s..0.1 * s)).collect())
        .collect();
    let mut best = pos.clone();
    let mut best_cost: Vec<f64> = pos.iter().map(|p| cost(p)).collect();
    let mut first = 0;
    for i in 1..n_particles {
        if best_cost[i] < best_cost[first] {
            first = i;
        }
    }
    let mut lead = best[first].clone();
    let mut lead_cost = best_cost[first];
    for _ in 0..n_iters {
        for i in 0..n_particles {
            for d in 0..lower.len() {
                let r1: f64 = rng.random();
                let r2: f64 = rng.random();
                vel[i][d] = 0.7298 * vel[i][d]
                    + 1.4962 * r1 * (best[i][d] - pos[i][d])
                    + 1.4962 * r2 * (lead[d] - pos[i][d]);
                pos[i][d] = (pos[i][d] + vel[i][d]).clamp(lower[d], upper[d]);
            }
            let c = cost(&pos[i]);
            if c < best_cost[i] {
                best_cost[i] = c;
                best[i] = pos[i].clone();
            }
            if c < lead_cost {
                lead_cost = c;
                lead = pos[i].clone();
            }
        }
    }
    (lead, lead_cost)
}

#[test]
fn search_matches_native_arithmetic() {
    let prep = peaked();
    let problem = SbplCost::new(&prep, &math);
    let (lower, upper) = (plain(&prep.lower), plain(&prep.upper));
    let mut rng = seeded(77);
    let (want, want_cost) =
        native_search(problem.observations(), &lower, &upper, 9, 25, &mut rng);
    let (got, got_cost, mut after) =
        pso_search(&problem, &prep.lower, &prep.upper, 9, 25, seeded(77), &draw, &math);
    assert_eq!(plain(&got), want);
    assert_eq!(from(got_cost), want_cost);
    // Both have drawn the same numbers.
    assert_eq!(after.random::<u64>(), rng.random::<u64>());

    // The reported cost is that of the reported position, within the bounds, and
    // no worse than with fewer sweeps.
    assert_eq!(problem.eval(&got, &math), got_cost);
    for d in 0..N_PARAMS {
        assert!(lower[d] <= from(got[d]) && from(got[d]) <= upper[d]);
    }
    let (_, early, _) =
        pso_search(&problem, &prep.lower, &prep.upper, 9, 3, seeded(77), &draw, &math);
    assert!(from(got_cost) <= from(early));
}

#[test]
fn polishing_keeps_or_improves() {
    let prep = peaked();
    let problem = SbplCost::new(&prep, &math);
    let (start, start_cost, _) =
        pso_search(&problem, &prep.lower, &prep.upper, 8, 10, seeded(3), &draw, &math);
    let (best, cost) = lbfgs_refine(
        &problem,
        start.clone(),
        start_cost,
        &prep.lower,
        &prep.upper,
        &minimise,
        &math,
    );
    assert!(from(cost) < from(start_cost), "the minimiser improves on ten sweeps");
    assert_eq!(problem.eval(&best, &math), cost);

    // A minimiser that fails, or answers with too few numbers, changes nothing.
    let fails = |_: &ScaledCost, _: &Vec<Binary64>| -> Option<Vec<Binary64>> { None };
    let empty = |_: &ScaledCost, _: &Vec<Binary64>| -> Option<Vec<Binary64>> { Some(Vec::new()) };
    let kept = (start.clone(), start_cost);
    assert_eq!(
        lbfgs_refine(&problem, start.clone(), start_cost, &prep.lower, &prep.upper, &fails, &math),
        kept
    );
    assert_eq!(
        lbfgs_refine(&problem, start.clone(), start_cost, &prep.lower, &prep.upper, &empty, &math),
        kept
    );
    // Nor does one that answers with where it started.
    let stays =
        |_: &ScaledCost, xs: &Vec<Binary64>| -> Option<Vec<Binary64>> { Some(xs.clone()) };
    let (_, cost) =
        lbfgs_refine(&problem, start.clone(), start_cost, &prep.lower, &prep.upper, &stays, &math);
    assert!(from(cost) <= from(start_cost));
}

fn unit_cube(prep: &PreparedSource) -> (Vec<Binary64>, Vec<Binary64>) {
    let scale = (0..N_PARAMS).map(|d| prep.upper[d].minus(prep.lower[d])).collect();
    (prep.lower.to_vec(), scale)
}

#[test]
fn suggestions_are_judged_by_their_cost() {
    let prep = peaked();
    let problem = SbplCost::new(&prep, &math);
    let (lower, scale) = unit_cube(&prep);
    let scaled = ScaledCost { inner: &problem, lower, scale };
    let start = row(&[1.0, -1.0, 0.0, -0.5, 0.0, 5.0, -1.0]);
    let xs = row(&[0.55, 0.4, 0.4, 0.8, 0.5, 0.01, 0.9]);
    let at = scaled.unscale(&xs);
    let cost = problem.eval(&at, &math);
    let above = to(from(cost) * 2.0);
    assert_eq!(
        accept(&scaled, &Some(xs.clone()), start.clone(), above, &math),
        (at.clone(), cost)
    );
    // Not below the start's cost.
    assert_eq!(accept(&scaled, &Some(xs.clone()), start.clone(), cost, &math), (start.clone(), cost));
    assert_eq!(accept(&scaled, &None, start.clone(), above, &math), (start.clone(), above));
    let short = Some(xs[..6].to_vec());
    assert_eq!(accept(&scaled, &short, start.clone(), above, &math), (start, above));
}

#[test]
fn unit_cube_is_bounded() {
    let prep = peaked();
    let problem = SbplCost::new(&prep, &math);
    let (lower, scale) = unit_cube(&prep);
    let scaled = ScaledCost { inner: &problem, lower: lower.clone(), scale: scale.clone() };
    let inside = row(&[0.5, 0.25, 0.5, 0.75, 0.5, 0.125, 0.5]);
    let at = scaled.unscale(&inside);
    for d in 0..N_PARAMS {
        let want = from(lower[d]) + from(inside[d]) * from(scale[d]);
        assert_eq!(from(at[d]), want);
    }
    let (cost, grad) = problem.eval_with_grad(&at, &math);
    assert_eq!(scaled.cost(&inside, &math), cost);
    let slope = scaled.gradient(&inside, &math);
    for d in 0..N_PARAMS {
        assert_eq!(from(slope[d]), from(grad[d]) * from(scale[d]));
    }
    // Beyond the cube the cost is flat.
    let mut outside = inside.clone();
    outside[1] = to(-0.5);
    outside[5] = to(1.5);
    let mut face = inside.clone();
    face[1] = to(0.0);
    face[5] = to(1.0);
    assert_eq!(scaled.unscale(&outside), scaled.unscale(&face));
    let slope = scaled.gradient(&outside, &math);
    assert_eq!(from(slope[1]), 0.0);
    assert_eq!(from(slope[5]), 0.0);
    assert_eq!(from(slope[0]), from(scaled.gradient(&face, &math)[0]));
}

#[test]
fn results_are_assembled_from_restarts() {
    let mut prep = peaked();
    prep.max_flux = to(100.0);
    let restarts = vec![
        (row(&[1.0, -1.0, 0.5, -0.5, 1.0, 5.0, -1.0]), to(3.0)),
        (row(&[2.0, -3.0, 0.5, -1.5, 2.0, 7.0, -2.0]), to(2.0)),
        (row(&[1.0]), to(0.5)), // not a full set of parameters
        (row(&[3.0, -2.0, 0.5, -1.0, 3.0, 6.0, -3.0]), to(2.0)),
    ];
    let r = assemble_result(&prep, &restarts, &math);
    let got = [r.alpha1, r.alpha2, r.beta, r.logd, r.loga, r.tb, r.t0];
    assert_eq!(got.map(|v| from(v.unwrap())), [2.0, -3.0, 0.5, -1.5, 4.0, 7.0, -2.0]);
    let sd = (2.0f64 / 3.0).sqrt();
    let errs = [r.alpha1_err, r.alpha2_err, r.beta_err, r.loga_err, r.tb_err, r.t0_err];
    assert_eq!(errs.map(|v| from(v.unwrap())), [sd, sd, 0.0, sd, sd, sd]);
    let logd_sd = (0.5f64 / 3.0).sqrt();
    assert_eq!(from(r.logd_err.unwrap()), logd_sd);
    assert_eq!(from(r.reduced_chi2.unwrap()), 2.0);
    assert_eq!((r.n_obs, r.n_bands), (36, 3));
}

#[test]
fn results_without_restarts_are_empty() {
    let prep = peaked();
    assert_eq!(assemble_result(&prep, &Vec::new(), &math), SbplResult::empty(36, 3));
    let short = vec![(row(&[1.0, 2.0]), to(0.5))];
    assert_eq!(assemble_result(&prep, &short, &math), SbplResult::empty(36, 3));
}

#[test]
fn numbers_that_are_not_finite_are_left_out() {
    let prep = peaked();
    let restarts =
        vec![(row(&[f64::NAN, -1.0, 0.5, -0.5, 1.0, 5.0, -1.0]), to(f64::INFINITY))];
    let r = assemble_result(&prep, &restarts, &math);
    // No cost is below infinity, so the lower bounds stand.
    assert_eq!(r.alpha1.map(from), Some(-10.0));
    assert_eq!(r.reduced_chi2, None);
    assert_eq!(r.alpha1_err, None);
    assert_eq!(r.alpha2_err.map(from), Some(0.0));
}

#[test]
fn fits_are_repeatable() {
    let prep = peaked();
    let config = PsoConfig { n_particles: 6, n_iters: 10, n_restarts: 2, ..PsoConfig::default() };
    let run = |c: &PsoConfig| fit_prepared(&prep, c, &seeded, &draw, &minimise, &math);
    assert_eq!(run(&config), run(&config));
    let other = PsoConfig { seed: 4321, ..config };
    assert_ne!(run(&config), run(&other));
    let none = PsoConfig { n_restarts: 0, n_particles: 0, ..config };
    assert_eq!(run(&none), SbplResult::empty(36, 3));
}

/// Searching needs particles and room between the bounds.
#[test]
fn searches_need_particles_and_room() {
    let prep = peaked();
    let config = PsoConfig::default();
    assert!(is_searchable(&prep.lower, &prep.upper));
    assert!(can_fit(&prep, &config));
    assert!(!can_fit(&prep, &PsoConfig { n_particles: 0, ..config }));
    assert!(can_fit(&prep, &PsoConfig { n_particles: 0, n_restarts: 0, ..config }));
    for value in [from(prep.upper[5]), f64::NAN] {
        let mut shut = prep.clone();
        shut.lower[5] = to(value);
        assert!(!is_searchable(&shut.lower, &shut.upper));
        assert!(!can_fit(&shut, &config));
        assert!(can_fit(&shut, &PsoConfig { n_restarts: 0, ..config }));
    }
}

/// The reported parameters lie within the bounds they were searched in.
#[test]
fn fits_stay_in_bounds() {
    let prep = peaked();
    let (lower, upper) = (plain(&prep.lower), plain(&prep.upper));
    for seed in [1, 2, 3] {
        let config =
            PsoConfig { n_particles: 5, n_iters: 8, n_restarts: 2, seed, ..PsoConfig::default() };
        let r = fit_prepared(&prep, &config, &seeded, &draw, &minimise, &math);
        for (v, d) in [(r.alpha1, 0), (r.alpha2, 1), (r.beta, 2), (r.logd, 3), (r.tb, 5), (r.t0, 6)] {
            let v = from(v.unwrap());
            assert!(lower[d] <= v && v <= upper[d].max(lower[d] + (upper[d] - lower[d])));
        }
    }
}

#[test]
fn default_configuration() {
    let c = PsoConfig::default();
    assert_eq!((c.n_restarts, c.n_particles, c.n_iters, c.seed), (3, 30, 200, 1234));
    assert_eq!((from(c.alpha1_min), from(c.alpha1_max)), (-10.0, 10.0));
    assert_eq!((from(c.alpha2_min), from(c.alpha2_max)), (-10.0, 10.0));
    assert!(c.tb_lower.is_none() && c.tb_upper.is_none());
}

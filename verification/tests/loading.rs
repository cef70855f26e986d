//! Loading tables, preparing sources, and lining up batches.

use argmin::solver::linesearch::MoreThuenteLineSearch;
use argmin::solver::quasinewton::LBFGS;
use rand::rngs::SmallRng;
use rand::{Rng, SeedableRng};
use sbpl_pso::lineup::{Lineup, Slot};
use sbpl_pso::photometry::{observations_in, LoadError};
use sbpl_pso::polish::ScaledCost;
use sbpl_pso::survey::{load_source, prepare_csv, select_csv_files, source_from, Rejection};
use sbpl_pso::{
    fit_sbpl, fit_sbpl_csv, load_csv, mag_to_flux, obs_to_band_map, try_fit_sbpl_csv, Binary64, Draw,
    Elementary, Obs, Preparation, PsoConfig, SbplResult,
};

fn to(x: f64) -> Binary64 {
    Binary64 { bits: x.to_bits() }
}

fn from(x: Binary64) -> f64 {
    f64::from_bits(x.bits)
}

fn math(q: Elementary) -> Binary64 {
    to(match q {
        Elementary::Pow(x, y) => from(x).powf(from(y)),
        Elementary::Ln(x) => from(x).ln(),
        Elementary::Exp(x) => from(x).exp(),
        Elementary::Log10(x) => from(x).log10(),
        Elementary::Sqrt(x) => from(x).sqrt(),
    })
}

fn number(s: &str) -> Option<Binary64> {
    s.parse::<f64>().ok().map(to)
}

fn seeded(seed: u64) -> SmallRng {
    SmallRng::seed_from_u64(seed)
}

fn draw(g: &SmallRng, q: Draw) -> (Binary64, SmallRng) {
    let mut g = g.clone();
    let x: f64 = match q {
        Draw::Unit => g.random(),
        Draw::Range(lo, hi) => g.random_range(from(lo)..from(hi)),
    };
    (to(x), g)
}

struct Problem<'a>(&'a ScaledCost<'a>);

impl argmin::core::CostFunction for Problem<'_> {
    type Param = Vec<f64>;
    type Output = f64;
    fn cost(&self, xs: &Vec<f64>) -> Result<f64, argmin::core::Error> {
        let xs: Vec<Binary64> = xs.iter().map(|&x| to(x)).collect();
        Ok(from(self.0.cost(&xs, &math)))
    }
}

impl argmin::core::Gradient for Problem<'_> {
    type Param = Vec<f64>;
    type Gradient = Vec<f64>;
    fn gradient(&self, xs: &Vec<f64>) -> Result<Vec<f64>, argmin::core::Error> {
        let xs: Vec<Binary64> = xs.iter().map(|&x| to(x)).collect();
        Ok(self.0.gradient(&xs, &math).into_iter().map(from).collect())
    }
}

fn minimise(scaled: &ScaledCost, start: &Vec<Binary64>) -> Option<Vec<Binary64>> {
    let solver = LBFGS::new(MoreThuenteLineSearch::new(), 10).with_tolerance_grad(1e-7).ok()?;
    let xs: Vec<f64> = start.iter().map(|&x| from(x)).collect();
    let result = argmin::core::Executor::new(Problem(scaled), solver)
        .configure(|state| state.param(xs).max_iters(200))
        .run()
        .ok()?;
    result.state().best_param.clone().map(|xs| xs.into_iter().map(to).collect())
}


fn load(text: &str) -> Result<Vec<Obs>, LoadError> {
    load_csv(&text.as_bytes().to_vec(), &number, &math)
}

/// Time, flux, flux error and band of each observation.
fn plain(obs: &[Obs]) -> Vec<(f64, f64, f64, String)> {
    obs.iter().map(|o| (from(o.time), from(o.flux), from(o.flux_err), o.band.clone())).collect()
}

fn expected(time: f64, mag: f64, err: f64, band: &str) -> (f64, f64, f64, String) {
    let flux = 10.0_f64.powf((23.9 - mag) / 2.5);
    (time, flux, flux * err * std::f64::consts::LN_10 / 2.5, band.to_string())
}

#[test]
fn magnitudes_become_fluxes() {
    let (flux, err) = mag_to_flux(to(23.9), to(0.1), &math);
    assert_eq!(from(flux), 1.0);
    assert_eq!(from(err), 0.1 * std::f64::consts::LN_10 / 2.5);
    let (flux, _) = mag_to_flux(to(21.4), to(0.1), &math);
    assert_eq!(from(flux), 10.0);
}

#[test]
fn numeric_filter_codes_are_read() {
    let text = "jd,magpsf,sigmapsf,fid\n1.5,20.0,0.1,1\n2.5,19.0,0.2, 2 \n3.5,18.0,0.3,+3\n";
    assert_eq!(
        plain(&load(text).unwrap()),
        vec![
            expected(1.5, 20.0, 0.1, "g"),
            expected(2.5, 19.0, 0.2, "r"),
            expected(3.5, 18.0, 0.3, "i"),
        ]
    );
}

#[test]
fn filter_names_are_read() {
    let mut text = "mjd,mag,mag_err,filter\n".to_string();
    let names = [
        ("g", "g"), ("ZTF_g", "g"), ("ztfg", "g"), ("lsstg", "g"),
        ("r", "r"), ("ZTF_r", "r"), ("ztfr", "r"), ("lsstr", "r"),
        ("i", "i"), ("ZTF_i", "i"), ("ztfi", "i"), ("lssti", "i"),
        ("z", "z"), ("ztfz", "z"), ("lsstz", "z"),
        ("y", "y"), (" lssty ", "y"),
    ];
    for (name, _) in names {
        text += &format!("1.0,20.0,0.1,{name}\n");
    }
    // Neither of these is loaded.
    text += "1.0,20.0,0.1,u\n1.0,20.0,0.1,lsstu\n1.0,20.0,0.1,G\n1.0,20.0,0.1,\n";
    let obs = load(&text).unwrap();
    let bands: Vec<&str> = obs.iter().map(|o| o.band.as_str()).collect();
    let wanted: Vec<&str> = names.iter().map(|&(_, band)| band).collect();
    assert_eq!(bands, wanted);
}

#[test]
fn first_names_of_columns_come_first() {
    // The first of several columns of one name counts, and `jd` before `mjd`.
    let text = "mjd,jd,mag,magpsf,mag_err,sigmapsf,filter,fid,jd\n\
                1,2,10,20.0,7,0.1,g,2,3\n";
    assert_eq!(plain(&load(text).unwrap()), vec![expected(2.0, 20.0, 0.1, "r")]);
}

#[test]
fn unusable_rows_are_skipped() {
    let mut text = "jd,mag,mag_err,fid\n".to_string();
    for row in [
        "x,20.0,0.1,1",        // no time
        " 1.0,20.0,0.1,1",     // a time is not trimmed
        "NaN,20.0,0.1,1",      // no finite time
        "inf,20.0,0.1,1",
        "1.0,,0.1,1",          // no magnitude
        "1.0,NaN,0.1,1",       // no finite flux
        "1.0,-inf,0.1,1",
        "1.0,inf,0.1,1",       // no positive flux
        "1.0,20.0,,1",         // no error
        "1.0,20.0,0,1",        // no positive error
        "1.0,20.0,-0.1,1",
        "1.0,20.0,NaN,1",
        "1.0,20.0,inf,1",      // no finite flux error
        "1.0,20.0,0.1,0",      // no band
        "1.0,20.0,0.1,4",
        "1.0,20.0,0.1,g",
        "1.0,20.0,0.1,4294967297",
        "1.0,20.0,0.1",        // too short
        "1.0",
    ] {
        text += row;
        text += "\n";
    }
    assert!(matches!(load(&text), Err(LoadError::NoObservations)));
    text += "1.0, 20.0 , 0.1 ,1,more,cells\n";
    assert_eq!(plain(&load(&text).unwrap()), vec![expected(1.0, 20.0, 0.1, "g")]);
}

#[test]
fn tables_without_columns_are_refused() {
    assert!(matches!(load("time,mag,mag_err,fid\n1,2,3,1\n"), Err(LoadError::NoTimeColumn)));
    assert!(matches!(load("jd,m,mag_err,fid\n1,2,3,1\n"), Err(LoadError::NoMagnitudeColumn)));
    assert!(matches!(load("jd,mag,err,fid\n1,2,3,1\n"), Err(LoadError::NoErrorColumn)));
    // Without a filter column no row has a band.
    assert!(matches!(load("jd,mag,mag_err\n1,2,3\n"), Err(LoadError::NoObservations)));
    assert!(matches!(load(""), Err(LoadError::NoTimeColumn)));
}

#[test]
fn undecodable_tables_are_refused() {
    let mut bytes = b"jd,mag,mag_err,fid,\xff\n1,20,0.1,1,x\n".to_vec();
    match load_csv(&bytes, &number, &math) {
        Err(LoadError::Headers(e)) => assert!(e.contains("UTF-8"), "{e}"),
        other => panic!("{other:?}"),
    }
    bytes = b"jd,mag,mag_err,fid\n1,20,0.1,1\n2,\xff,0.1,1\n3,20,0.1,1\n".to_vec();
    match load_csv(&bytes, &number, &math) {
        Err(LoadError::Row(e)) => assert!(e.contains("UTF-8") && e.contains("line 3"), "{e}"),
        other => panic!("{other:?}"),
    }
}

#[test]
fn quoted_cells_are_unquoted() {
    let text = "\"jd\",mag,mag_err,filter\r\n\"1.0\",\"20.0\",0.1,\"g\"\r\n";
    assert_eq!(plain(&load(text).unwrap()), vec![expected(1.0, 20.0, 0.1, "g")]);
}

#[test]
fn cells_are_enough() {
    let row = |cells: &[&str]| -> Vec<String> { cells.iter().map(|c| c.to_string()).collect() };
    let headers = row(&["jd", "mag", "mag_err", "fid"]);
    let rows = vec![Ok(row(&["1.0", "20.0", "0.1", "2"])), Ok(row(&["2.0"]))];
    let obs = observations_in(&headers, &rows, &number, &math).unwrap();
    assert_eq!(plain(&obs), vec![expected(1.0, 20.0, 0.1, "r")]);

    // The first error counts, whatever was read before it.
    let rows = vec![
        Ok(row(&["1.0", "20.0", "0.1", "2"])),
        Err("first".to_string()),
        Err("second".to_string()),
    ];
    match observations_in(&headers, &rows, &number, &math) {
        Err(LoadError::Row(e)) => assert_eq!(e, "first"),
        other => panic!("{other:?}"),
    }
}

#[test]
fn load_errors_have_messages() {
    let text = |e: LoadError| e.describe("a.csv");
    assert_eq!(text(LoadError::Headers("bad".to_string())), "Cannot read headers: bad");
    assert_eq!(text(LoadError::NoTimeColumn), "CSV must have 'jd' or 'mjd' column");
    assert_eq!(text(LoadError::NoMagnitudeColumn), "CSV must have 'magpsf' or 'mag' column");
    assert_eq!(text(LoadError::NoErrorColumn), "CSV must have 'sigmapsf' or 'mag_err' column");
    assert_eq!(text(LoadError::Row("bad".to_string())), "Parse error: bad");
    assert_eq!(text(LoadError::NoObservations), "No valid g/r/i/z/y observations in a.csv");
}

#[test]
fn observations_are_grouped_in_order() {
    let text = "jd,mag,mag_err,fid\n1,20,0.1,1\n2,20,0.1,2\n3,20,0.1,1\n4,20,0.1,1\n";
    let bands = obs_to_band_map(&load(text).unwrap());
    let times = |name: &str| -> Vec<f64> {
        bands.get(name).unwrap().times.iter().map(|&t| from(t)).collect()
    };
    assert_eq!(times("g"), vec![1.0, 3.0, 4.0]);
    assert_eq!(times("r"), vec![2.0]);
    assert!(bands.get("i").is_none());
    assert!(!bands.is_empty());
    assert!(obs_to_band_map(&Vec::new()).is_empty());
}

/// Ten observations in each of two bands.
fn good_table() -> String {
    let mut text = "mjd,mag,mag_err,filter\n".to_string();
    for i in 0..10 {
        let mag = 18.0 + 0.1 * ((i as f64) - 4.0).powi(2);
        text += &format!("{}.5,{},0.05,g\n{}.75,{},0.05,r\n", 59000 + i, mag, 59000 + i, mag + 0.2);
    }
    text
}

#[test]
fn tables_become_sources() {
    let bytes = good_table().into_bytes();
    let config = PsoConfig::default();
    let source = prepare_csv(&bytes, "a".to_string(), &config, &number, &math).unwrap();
    assert_eq!(source.name, "a");
    assert_eq!(source.prepared.n_obs, 20);
    assert_eq!(source.prepared.n_bands, 2);
    assert_eq!(from(source.prepared.t_ref), 59000.5);

    let loaded = load_source(&bytes, "b".to_string(), &config, &number, &math).unwrap();
    assert_eq!(loaded.obs.len(), 20);
    assert_eq!(loaded.source.prepared.seed_key, source.prepared.seed_key);
}

#[test]
fn refused_tables_say_why() {
    let config = PsoConfig::default();
    let short = b"jd,mag,mag_err,fid\n1,20,0.1,1\n2,20,0.1,2\n".to_vec();
    let e = prepare_csv(&short, "a".to_string(), &config, &number, &math).unwrap_err();
    assert_eq!(e.describe("a.csv"), "too little data: 2 obs across 2 bands");

    let empty = b"jd,mag,mag_err,fid\n".to_vec();
    let e = prepare_csv(&empty, "a".to_string(), &config, &number, &math).unwrap_err();
    assert!(matches!(e, Rejection::Table(LoadError::NoObservations)));
    assert_eq!(e.describe("a.csv"), "No valid g/r/i/z/y observations in a.csv");

    let e = source_from("a".to_string(), Preparation::Empty).unwrap_err();
    assert_eq!(e.describe("a.csv"), "no usable bands");
    let e = Rejection::Unreadable("gone".to_string());
    assert_eq!(e.describe("a.csv"), "Cannot open a.csv: gone");
}

#[test]
fn tables_are_fitted() {
    let bytes = good_table().into_bytes();
    let config = PsoConfig { n_particles: 10, n_iters: 20, n_restarts: 2, ..PsoConfig::default() };
    let result =
        fit_sbpl_csv(&bytes, &config, &seeded, &draw, &minimise, &number, &math).unwrap();
    assert_eq!((result.n_obs, result.n_bands), (20, 2));
    assert!(result.reduced_chi2.is_some());
    // The same table fits the same way again, and as its bands do.
    let again = fit_sbpl_csv(&bytes, &config, &seeded, &draw, &minimise, &number, &math).unwrap();
    assert_eq!(result, again);
    let bands = obs_to_band_map(&load_csv(&bytes, &number, &math).unwrap());
    let direct = fit_sbpl(&bands, &config, &seeded, &draw, &minimise, &math);
    assert_eq!(Some(result), direct);

    let none = b"jd,mag,mag_err,fid\n".to_vec();
    let e = fit_sbpl_csv(&none, &config, &seeded, &draw, &minimise, &number, &math).unwrap_err();
    assert!(matches!(e, LoadError::NoObservations));
}

#[test]
fn tables_that_cannot_be_searched_are_told_apart() {
    let run = |bytes: &Vec<u8>, config: &PsoConfig| {
        try_fit_sbpl_csv(bytes, config, &seeded, &draw, &minimise, &number, &math)
    };
    let bytes = good_table().into_bytes();
    let config = PsoConfig { n_particles: 4, n_iters: 5, n_restarts: 1, ..PsoConfig::default() };
    let fit = fit_sbpl_csv(&bytes, &config, &seeded, &draw, &minimise, &number, &math).unwrap();
    assert_eq!(run(&bytes, &config).unwrap(), Some(fit));

    // Without particles, or without room for a slope, there is nothing to search.
    let idle = PsoConfig { n_particles: 0, ..config };
    assert_eq!(run(&bytes, &idle).unwrap(), None);
    let narrow = PsoConfig { alpha1_min: to(1.0), alpha1_max: to(1.0), ..config };
    assert_eq!(run(&bytes, &narrow).unwrap(), None);
    // Without a restart that does not matter.
    let at_rest = PsoConfig { n_restarts: 0, ..idle };
    assert_eq!(run(&bytes, &at_rest).unwrap(), Some(SbplResult::empty(20, 2)));

    // Neither do particles where nothing is fitted.
    let short = b"jd,mag,mag_err,fid\n1,20,0.1,1\n2,20,0.1,2\n".to_vec();
    assert_eq!(run(&short, &idle).unwrap(), Some(SbplResult::empty(2, 2)));
    let none = b"jd,mag,mag_err,fid\n".to_vec();
    assert!(matches!(run(&none, &idle), Err(LoadError::NoObservations)));
}

/// At the zero point the flux is one; 2.5 magnitudes make a factor of ten; the
/// relative error of the flux is the magnitude's error times ln 10 over 2.5.
#[test]
fn magnitudes_and_fluxes_go_together() {
    let flux = |mag: f64, err: f64| {
        let (f, e) = mag_to_flux(to(mag), to(err), &math);
        (from(f), from(e))
    };
    assert_eq!(flux(23.9, 0.0), (1.0, 0.0));
    for mag in [12.5, 17.31, 20.0, 23.9, 26.04] {
        let (f, e) = flux(mag, 0.07);
        assert!(f > 0.0 && e > 0.0);
        let (brighter, its_error) = flux(mag - 2.5, 0.07);
        assert!((brighter / f - 10.0).abs() < 1e-9);
        assert!((its_error / e - 10.0).abs() < 1e-9);
        assert!((e / f - 0.07 * std::f64::consts::LN_10 / 2.5).abs() < 1e-15);
    }
}

#[test]
fn tables_are_found_among_files() {
    let names: Vec<String> = [
        "b.csv", "a.csv", ".csv", "a.CSV", "csv", "x.csv.gz", "a..csv", "B.csv", "a.csv", "\u{e9}.csv",
        "a.tsv", "z.c.csv",
    ]
    .iter()
    .map(|s| s.to_string())
    .collect();
    let found = select_csv_files(&names);
    assert_eq!(
        found,
        vec!["B.csv", "a..csv", "a.csv", "a.csv", "b.csv", "z.c.csv", "\u{e9}.csv"]
    );
    assert!(select_csv_files(&Vec::new()).is_empty());
}

#[test]
fn reports_line_up_with_inputs() {
    let config = PsoConfig::default();
    let good = good_table().into_bytes();
    let bad = b"jd,mag,mag_err,fid\n".to_vec();
    let mut lineup = Lineup::new();
    lineup.add_input(load_source(&bad, "0".to_string(), &config, &number, &math));
    lineup.add_input(load_source(&good, "1".to_string(), &config, &number, &math));
    lineup.add_input(Err(Rejection::Unreadable("gone".to_string())));
    lineup.add_input(load_source(&good, "3".to_string(), &config, &number, &math));
    let names: Vec<&str> = lineup.sources().iter().map(|s| s.name.as_str()).collect();
    assert_eq!(names, vec!["1", "3"]);

    let results = vec![SbplResult::empty(1, 1), SbplResult::empty(3, 3)];
    let report = lineup.report(&results);
    assert_eq!(report, vec![None, Some(results[0]), None, Some(results[1])]);
    assert_eq!(lineup.slots().len(), 4);
    match &lineup.slots()[3] {
        Slot::Ready { index, obs } => assert_eq!((*index, obs.len()), (1, 20)),
        Slot::Rejected(e) => panic!("{e:?}"),
    }

    // Inputs that all fail still get a slot each.
    let mut lineup = Lineup::new();
    lineup.add_input(Err(Rejection::NoBands));
    lineup.add_input(Err(Rejection::NoBands));
    assert!(lineup.sources().is_empty());
    assert_eq!(lineup.report(&Vec::new()), vec![None, None]);
}

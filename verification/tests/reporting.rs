//! Texts, devices, benchmarks and reports.

use sbpl_pso::bench::{chi2_stats, compare_fits, data_dir, parse_usize_flag};
use sbpl_pso::device::{fits_evaluator, misfit, pack_sources, plan_launch, threadgroups, too_many, Launch};
use sbpl_pso::report::param_entries;
use sbpl_pso::survey::SourceData;
use sbpl_pso::text::{comes_before, decimal, parse_unsigned, same_text, trim};
use sbpl_pso::{
    prepare_source, BandData, BandMap, Binary64, Elementary, Preparation, PreparedSource, PsoConfig,
    SbplResult, PARAM_NAMES,
};

fn to(x: f64) -> Binary64 {
    Binary64 { bits: x.to_bits() }
}

fn from(x: Binary64) -> f64 {
    f64::from_bits(x.bits)
}

fn math(q: Elementary) -> Binary64 {
    to(match q {
        Elementary::Pow(x, y) => from(x).powf(from(y)),
        Elementary::Ln(x) => from(x).ln(),
        Elementary::Exp(x) => from(x).exp(),
        Elementary::Log10(x) => from(x).log10(),
        Elementary::Sqrt(x) => from(x).sqrt(),
    })
}

#[test]
fn texts_are_trimmed() {
    for s in ["", " ", "a", " a", "a\t", "\u{3000}a b\u{a0}\n", "\u{200b}a", "\u{85}\u{2028}"] {
        assert_eq!(trim(s), s.trim(), "{s:?}");
    }
    for u in 0..0x3100u32 {
        if let Some(c) = char::from_u32(u) {
            let s = format!("{c}x{c}");
            assert_eq!(trim(&s), s.trim(), "{u:x}");
        }
    }
}

#[test]
fn unsigned_numerals_are_read() {
    for s in [
        "", "+", "-", "0", "+0", "-0", "007", "12", "+12", "++1", "1 ", " 1", "1.0", "1e3", "4294967295",
        "4294967296", "99999999999999999999999", "\u{661}",
    ] {
        let want = s.parse::<u32>().ok().map(u64::from);
        assert_eq!(parse_unsigned(s, u32::MAX as u64), want, "{s:?}");
        assert_eq!(parse_unsigned(s, u64::MAX), s.parse::<u64>().ok(), "{s:?}");
    }
    assert_eq!(parse_unsigned("18446744073709551615", u64::MAX), Some(u64::MAX));
    assert_eq!(parse_unsigned("18446744073709551616", u64::MAX), None);
}

#[test]
fn decimals_read_back() {
    for n in [0, 7, 10, 99, 100, 12345, 4294967296, u64::MAX] {
        assert_eq!(decimal(n), n.to_string());
        assert_eq!(parse_unsigned(&decimal(n), u64::MAX), Some(n));
    }
}

#[test]
fn texts_are_ordered_by_code_point() {
    let words = ["", "a", "ab", "abc", "b", "B", "aB", "\u{e9}", "\u{10000}", "\u{ffff}"];
    for a in words {
        for b in words {
            assert_eq!(comes_before(a, b), a < b, "{a:?} {b:?}");
            assert_eq!(same_text(a, b), a == b);
        }
    }
}

fn args(list: &[&str]) -> Vec<String> {
    list.iter().map(|s| s.to_string()).collect()
}

#[test]
fn flags_are_read() {
    let a = args(&["bench", "dir", "--n-iters", "40", "--n-restarts", "x", "--n-restarts", "5", "--last"]);
    assert_eq!(parse_usize_flag(&a, "--n-iters"), Some(40));
    assert_eq!(parse_usize_flag(&a, "--n-restarts"), None); // the first use counts
    assert_eq!(parse_usize_flag(&a, "--n-particles"), None);
    assert_eq!(parse_usize_flag(&a, "--last"), None);
    assert_eq!(parse_usize_flag(&Vec::new(), "--last"), None);
    assert_eq!(parse_usize_flag(&args(&["-f", "+7"]), "-f"), Some(7));
}

#[test]
fn data_directory_is_found() {
    assert_eq!(data_dir(&args(&["bench", "--n-iters", "40", "data", "more"])), Some(3));
    assert_eq!(data_dir(&args(&["bench", "--cpu-compare", "12"])), None);
    assert_eq!(data_dir(&args(&["bench", "-x"])), Some(1));
    assert_eq!(data_dir(&args(&["bench", ""])), Some(1));
    assert_eq!(data_dir(&args(&["bench"])), None);
    assert_eq!(data_dir(&Vec::new()), None);
}

fn with_chi2(v: Option<f64>) -> SbplResult {
    SbplResult { reduced_chi2: v.map(to), ..SbplResult::empty(7, 2) }
}

#[test]
fn chi2_is_summarised() {
    let results: Vec<SbplResult> =
        [Some(3.0), None, Some(1.0), Some(2.5), Some(0.5)].into_iter().map(with_chi2).collect();
    let (n, mean, median) = chi2_stats(&results);
    assert_eq!((n, from(mean), from(median)), (4, 1.75, 2.5));
    let (n, mean, median) = chi2_stats(&vec![with_chi2(Some(2.0)); 3]);
    assert_eq!((n, from(mean), from(median)), (3, 2.0, 2.0));
    let (n, mean, median) = chi2_stats(&vec![with_chi2(None)]);
    assert_eq!(n, 0);
    assert!(from(mean).is_nan() && from(median).is_nan());
}

#[test]
fn fits_are_compared() {
    let a: Vec<SbplResult> =
        [Some(1.0), Some(1.0), Some(1.005), Some(1.02), None, Some(1.0)].into_iter().map(with_chi2).collect();
    let b: Vec<SbplResult> =
        [Some(2.0), Some(1.0), Some(1.0), Some(1.0), Some(1.0), None].into_iter().map(with_chi2).collect();
    assert_eq!(compare_fits(&a, &b), (2, 1, 3));
    assert_eq!(compare_fits(&a, &b[..2].to_vec()), (2, 0, 0));
}

fn source(shift: f64) -> PreparedSource {
    let mut bands = BandMap::new();
    for (name, gain) in [("g", 1.0), ("r", 2.0)] {
        let mut bd = BandData::new();
        for i in 0..4 {
            bd.times.push(to(shift + i as f64));
            bd.fluxes.push(to(gain * (1.0 + i as f64)));
            bd.flux_errs.push(to(0.5));
        }
        bands.insert(name.to_string(), bd);
    }
    match prepare_source(&bands, &PsoConfig::default()) {
        Preparation::Ready(p) => p,
        other => panic!("{other:?}"),
    }
}

#[test]
fn batches_are_packed_source_by_source() {
    let sources = vec![
        SourceData { name: "a".to_string(), prepared: source(100.0) },
        SourceData { name: "b".to_string(), prepared: source(2_458_000.0) },
    ];
    let p = pack_sources(&sources, &math);
    assert_eq!(p.offsets, vec![0, 8, 16]);
    assert_eq!(p.names, vec!["a", "b"]);
    assert_eq!(p.preps.len(), 2);
    assert_eq!(p.times.len(), 16);
    for (s, data) in sources.iter().enumerate() {
        let prep = &data.prepared;
        assert_eq!(p.preps[s].seed_key, prep.seed_key);
        for i in 0..8 {
            let at = p.offsets[s] as usize + i;
            assert_eq!(from(p.times[at]), from(prep.times[i]) - from(prep.t_ref));
            assert_eq!(from(p.log10_nu[at]), from(prep.nu_scaled[i]).log10());
            assert_eq!(p.flux[at], prep.flux[i]);
            assert_eq!(from(p.flux_err_sq[at]), from(prep.flux_err[i]) * from(prep.flux_err[i]));
        }
    }
    let none = pack_sources(&Vec::new(), &math);
    assert_eq!(none.offsets, vec![0]);
    assert!(none.times.is_empty());
}

#[test]
fn launches_are_planned() {
    assert_eq!(plan_launch(5, 90), Some(Launch { total: 450, grid: 57, block: 256 }));
    assert_eq!(plan_launch(1, 8), Some(Launch { total: 8, grid: 1, block: 256 }));
    assert_eq!(plan_launch(3, 3), Some(Launch { total: 9, grid: 2, block: 256 }));
    assert_eq!(plan_launch(0, 30), Some(Launch { total: 0, grid: 1, block: 256 }));
    // One particle takes 32 threads, and a launch has at most 2^31 - 1.
    let most = 0x7fff_ffff / 32;
    assert_eq!(
        plan_launch(1, most),
        Some(Launch { total: most, grid: 8_388_608, block: 256 })
    );
    assert_eq!(plan_launch(1, most + 1), None);
    assert_eq!(plan_launch(usize::MAX, 2), None);
    for total in [0, 1, 7, 8, 9, 450, most + 1] {
        assert_eq!(threadgroups(total), ((total as u64 * 32).div_ceil(256).max(1)) as usize);
    }
    assert_eq!(
        too_many(70_000_000, 90),
        "70000000 sources x 90 particles is too many for one kernel launch; split the batch"
    );
}

#[test]
fn evaluator_arguments_are_checked() {
    assert!(fits_evaluator(3, 21, 3));
    assert!(!fits_evaluator(3, 20, 3));
    assert!(!fits_evaluator(3, 21, 4));
    assert!(!fits_evaluator(usize::MAX, 21, usize::MAX));
    assert_eq!(
        misfit(3, 22, 4),
        "eval_batch: evaluator holds 3 particles, got 3 positions and 4 costs"
    );
}

#[test]
fn results_are_reported_by_name() {
    let mut r = SbplResult::empty(7, 2);
    r.alpha1 = Some(to(1.0));
    r.t0 = Some(to(7.0));
    r.alpha1_err = Some(to(8.0));
    r.t0_err = Some(to(14.0));
    let entries = param_entries(&r);
    let names: Vec<&str> = entries.iter().map(|e| e.0).collect();
    let mut wanted: Vec<String> = PARAM_NAMES.iter().map(|n| n.to_string()).collect();
    wanted.extend(PARAM_NAMES.iter().map(|n| format!("{n}_err")));
    assert_eq!(names, wanted);
    let values: Vec<Option<f64>> = entries.iter().map(|e| e.1.map(from)).collect();
    assert_eq!(values[0], Some(1.0));
    assert_eq!(values[6], Some(7.0));
    assert_eq!(values[7], Some(8.0));
    assert_eq!(values[13], Some(14.0));
    assert_eq!(values.iter().filter(|v| v.is_none()).count(), 10);
}

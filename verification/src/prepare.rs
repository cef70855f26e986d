//! From bands to a flattened, normalised fitting problem.
use crate::bands::{
    band_frequency_hz, frequency_of, known_name, known_names, law_known_names_are_complete, N_KNOWN,
};
use crate::binary64::{
    law_positive_difference, law_quotient_with_itself, law_signs_are_kept, Binary64,
};
use crate::cost::SbplObs;
use crate::fingerprint::{content_hash, content_key};
use crate::light_curve::{grouped, BandData, BandMap, Seen, Series};
use crate::magnitude::law_results_are_numbers;
use crate::numbers::{
    FIVE, HUNDREDTH, INFINITY, MINUS_FIVE, MINUS_INFINITY, MINUS_TEN, MINUS_THREE,
    N_PARAMS, ONE, PETA, TEN, TEN_THOUSAND, TWO,
};
use crate::room::{law_hundredth_is_below_tenfold, law_two_spans_earlier};
use crate::source::{Preparation, Prepared, PreparedSource, PsoConfig, SbplResult, Source};
use vstd::prelude::*;

verus! {

/// Fewest observations a fit is tried on.
pub const MIN_OBS: usize = 7;

/// Fewest bands a fit is tried on.
pub const MIN_BANDS: usize = 2;

/// Every known band has a flux and an error for each time.
pub open spec fn bands_complete(bands: Map<Seq<char>, Series>) -> bool {
    forall|name: Seq<char>|
        #[trigger] bands.dom().contains(name) && frequency_of(name) is Some ==> {
            &&& bands[name].fluxes.len() >= bands[name].times.len()
            &&& bands[name].flux_errs.len() >= bands[name].times.len()
        }
}

/// An observation that can be fitted: everything finite, the error positive.
pub open spec fn usable(o: SbplObs) -> bool {
    &&& o.time.is_finite()
    &&& o.flux.is_finite()
    &&& o.flux_err.is_finite()
    &&& Binary64::zero().lt(o.flux_err)
}

/// The observations of a band at frequency `nu`.
pub open spec fn band_rows(s: Series, nu: Binary64) -> Seq<SbplObs> {
    Seq::new(
        s.times.len(),
        |i: int|
            SbplObs {
                time: s.times[i],
                nu_scaled: nu.over(Binary64 { bits: PETA }),
                flux: s.fluxes[i],
                flux_err: s.flux_errs[i],
            },
    )
}

/// The usable observations of the first `k` known bands, band by band.
pub open spec fn usable_rows(bands: Map<Seq<char>, Series>, k: nat) -> Seq<SbplObs>
    decreases k,
{
    if k == 0 {
        seq![]
    } else {
        let name = known_names()[k - 1];
        let before = usable_rows(bands, (k - 1) as nat);
        if bands.dom().contains(name) {
            before + band_rows(bands[name], frequency_of(name)->0).filter(|o: SbplObs| usable(o))
        } else {
            before
        }
    }
}

/// How many of the first `k` known bands have an observation, usable or not.
pub open spec fn bands_present(bands: Map<Seq<char>, Series>, k: nat) -> nat
    decreases k,
{
    if k == 0 {
        0
    } else {
        let name = known_names()[k - 1];
        bands_present(bands, (k - 1) as nat) + if bands.dom().contains(name)
            && bands[name].times.len() > 0 {
            1nat
        } else {
            0
        }
    }
}

/// The earliest time.
pub open spec fn earliest(rows: Seq<SbplObs>) -> Binary64
    decreases rows.len(),
{
    if rows.len() == 0 {
        Binary64 { bits: INFINITY }
    } else {
        earliest(rows.drop_last()).min(rows.last().time)
    }
}

/// The latest time.
pub open spec fn latest(rows: Seq<SbplObs>) -> Binary64
    decreases rows.len(),
{
    if rows.len() == 0 {
        Binary64 { bits: MINUS_INFINITY }
    } else {
        latest(rows.drop_last()).max(rows.last().time)
    }
}

/// The largest of the positive fluxes.
pub open spec fn brightest(rows: Seq<SbplObs>) -> Binary64
    decreases rows.len(),
{
    if rows.len() == 0 {
        Binary64 { bits: MINUS_INFINITY }
    } else if rows.last().flux.is_finite() && Binary64::zero().lt(rows.last().flux) {
        brightest(rows.drop_last()).max(rows.last().flux)
    } else {
        brightest(rows.drop_last())
    }
}

/// What fluxes are divided by: the largest positive flux, or 1 without one.
pub open spec fn flux_unit(rows: Seq<SbplObs>) -> Binary64 {
    if Binary64::zero().lt(brightest(rows)) {
        brightest(rows)
    } else {
        Binary64 { bits: ONE }
    }
}

/// Where the search for the break time ends, in days: ten spans, at most 10 000.
pub open spec fn latest_break(c: PsoConfig, span: Binary64) -> Binary64 {
    match c.tb_upper {
        Some(tb) => tb,
        None => Binary64 { bits: TEN }.times(span).min(Binary64 { bits: TEN_THOUSAND }),
    }
}

/// Where the search for the break time begins, in days: 1% of the span, raised to
/// 0.01 as long as that is below where the search ends.
pub open spec fn earliest_break(c: PsoConfig, span: Binary64) -> Binary64 {
    let part = Binary64 { bits: HUNDREDTH }.times(span);
    let raised = part.max(Binary64 { bits: HUNDREDTH });
    match c.tb_lower {
        Some(tb) => tb,
        None => if raised.lt(latest_break(c, span)) {
            raised
        } else {
            part
        },
    }
}

/// Lower search bounds. The onset may precede the data by two spans.
pub open spec fn lower_bounds(c: PsoConfig, start: Binary64, span: Binary64) -> Seq<Binary64> {
    seq![
        c.alpha1_min,
        c.alpha2_min,
        Binary64 { bits: MINUS_FIVE },
        Binary64 { bits: MINUS_THREE },
        Binary64 { bits: MINUS_TEN },
        earliest_break(c, span),
        start.minus(Binary64 { bits: TWO }.times(span)),
    ]
}

/// Upper search bounds. The onset is no later than the first observation.
pub open spec fn upper_bounds(c: PsoConfig, start: Binary64, span: Binary64) -> Seq<Binary64> {
    seq![
        c.alpha1_max,
        c.alpha2_max,
        Binary64 { bits: FIVE },
        Binary64::zero(),
        Binary64 { bits: TEN },
        latest_break(c, span),
        start,
    ]
}

/// The fitting problem that usable observations make.
pub open spec fn source_of(rows: Seq<SbplObs>, n_bands: usize, c: PsoConfig) -> Source {
    let start = earliest(rows);
    let span = latest(rows).minus(start);
    let unit = flux_unit(rows);
    let times = rows.map_values(|o: SbplObs| o.time);
    let flux = rows.map_values(|o: SbplObs| o.flux.over(unit));
    let flux_err = rows.map_values(|o: SbplObs| o.flux_err.over(unit));
    Source {
        times,
        nu_scaled: rows.map_values(|o: SbplObs| o.nu_scaled),
        flux,
        flux_err,
        lower: lower_bounds(c, start, span),
        upper: upper_bounds(c, start, span),
        max_flux: unit,
        t_ref: start,
        n_obs: rows.len() as usize,
        n_bands,
        seed_key: content_key(times, flux, flux_err),
    }
}

/// What preparing a source gives.
pub open spec fn prepared(bands: Map<Seq<char>, Series>, c: PsoConfig) -> Prepared {
    let rows = usable_rows(bands, N_KNOWN as nat);
    let n_bands = bands_present(bands, N_KNOWN as nat) as usize;
    if bands == Map::<Seq<char>, Series>::empty() {
        Prepared::Empty
    } else if rows.len() < MIN_OBS || n_bands < MIN_BANDS || latest(rows).minus(earliest(rows)).le(
        Binary64::zero(),
    ) {
        Prepared::Unfittable(SbplResult::empty(rows.len() as usize, n_bands))
    } else {
        Prepared::Ready(source_of(rows, n_bands, c))
    }
}

/// Appends a band's usable observations.
fn collect(rows: Vec<SbplObs>, data: &BandData, nu: Binary64) -> (r: Vec<SbplObs>)
    requires
        data.fluxes.len() >= data.times.len(),
        data.flux_errs.len() >= data.times.len(),
    ensures
        r@ == rows@ + band_rows(data@, nu).filter(|o: SbplObs| usable(o)),
{
    reveal(Seq::filter);
    let ghost all = band_rows(data@, nu);
    let ghost test = |o: SbplObs| usable(o);
    let ghost before = rows@;
    let nu_scaled: Binary64 = nu.over(Binary64 { bits: PETA });
    let mut out: Vec<SbplObs> = rows;
    let mut i: usize = 0;
    assert(all.subrange(0, 0).filter(test) =~= seq![]);
    assert(out@ =~= before + all.subrange(0, 0).filter(test));
    while i < data.times.len()
        invariant
            i <= data.times.len(),
            data.fluxes.len() >= data.times.len(),
            data.flux_errs.len() >= data.times.len(),
            all == band_rows(data@, nu),
            nu_scaled == nu.over(Binary64 { bits: PETA }),
            test == (|o: SbplObs| usable(o)),
            out@ == before + all.subrange(0, i as int).filter(test),
        decreases data.times.len() - i,
    {
        let o: SbplObs = SbplObs {
            time: data.times[i],
            nu_scaled,
            flux: data.fluxes[i],
            flux_err: data.flux_errs[i],
        };
        assert(o == all[i as int]);
        proof {
            let more = all.subrange(0, i + 1);
            assert(more.drop_last() =~= all.subrange(0, i as int));
            assert(more.last() == o);
            reveal(Seq::filter);
            assert(test(o) == usable(o));
        }
        if o.time.is_finite() && o.flux.is_finite() && o.flux_err.is_finite() && Binary64::zero().lt(
            o.flux_err,
        ) {
            out.push(o);
            assert(out@ =~= before + all.subrange(0, i + 1).filter(test));
        }
        i += 1;
    }
    assert(all.subrange(0, data.times.len() as int) =~= all);
    out
}

/// The usable observations, and the number of bands present.
fn flatten(bands: &BandMap) -> (r: (Vec<SbplObs>, usize))
    requires
        bands_complete(bands@),
    ensures
        r.0@ == usable_rows(bands@, N_KNOWN as nat),
        r.1 == bands_present(bands@, N_KNOWN as nat),
{
    let mut rows: Vec<SbplObs> = Vec::new();
    let mut n_bands: usize = 0;
    let mut k: usize = 0;
    while k < N_KNOWN
        invariant
            k <= N_KNOWN,
            bands_complete(bands@),
            rows@ == usable_rows(bands@, k as nat),
            n_bands == bands_present(bands@, k as nat),
            n_bands <= k,
        decreases N_KNOWN - k,
    {
        let name: &str = known_name(k);
        proof {
            assert(known_names()[k as int] == name@);
        }
        match bands.get(name) {
            Some(data) => {
                proof {
                    law_known_names_are_complete(name@);
                    assert(known_names().contains(name@));
                    assert(bands@.dom().contains(name@));
                }
                if let Some(nu) = band_frequency_hz(name) {
                    rows = collect(rows, data, nu);
                    if data.times.len() > 0 {
                        n_bands += 1;
                    }
                }
            },
            None => {},
        }
        k += 1;
    }
    (rows, n_bands)
}

/// Earliest and latest time.
fn extent(rows: &Vec<SbplObs>) -> (r: (Binary64, Binary64))
    ensures
        r.0 == earliest(rows@),
        r.1 == latest(rows@),
{
    let mut t_min: Binary64 = Binary64 { bits: INFINITY };
    let mut t_max: Binary64 = Binary64 { bits: MINUS_INFINITY };
    let mut i: usize = 0;
    assert(rows@.subrange(0, 0) =~= seq![]);
    while i < rows.len()
        invariant
            i <= rows.len(),
            t_min == earliest(rows@.subrange(0, i as int)),
            t_max == latest(rows@.subrange(0, i as int)),
        decreases rows.len() - i,
    {
        assert(rows@.subrange(0, i + 1).drop_last() =~= rows@.subrange(0, i as int));
        t_min = t_min.min(rows[i].time);
        t_max = t_max.max(rows[i].time);
        i += 1;
    }
    assert(rows@.subrange(0, rows.len() as int) =~= rows@);
    (t_min, t_max)
}

/// What fluxes are divided by.
fn unit_of(rows: &Vec<SbplObs>) -> (r: Binary64)
    ensures
        r == flux_unit(rows@),
{
    let mut top: Binary64 = Binary64 { bits: MINUS_INFINITY };
    let mut i: usize = 0;
    assert(rows@.subrange(0, 0) =~= seq![]);
    while i < rows.len()
        invariant
            i <= rows.len(),
            top == brightest(rows@.subrange(0, i as int)),
        decreases rows.len() - i,
    {
        assert(rows@.subrange(0, i + 1).drop_last() =~= rows@.subrange(0, i as int));
        let flux: Binary64 = rows[i].flux;
        if flux.is_finite() && Binary64::zero().lt(flux) {
            top = top.max(flux);
        }
        i += 1;
    }
    assert(rows@.subrange(0, rows.len() as int) =~= rows@);
    if Binary64::zero().lt(top) {
        top
    } else {
        Binary64 { bits: ONE }
    }
}

/// The fitting problem that usable observations make.
fn assemble(
    rows: &Vec<SbplObs>,
    n_bands: usize,
    c: &PsoConfig,
    start: Binary64,
    span: Binary64,
) -> (r: PreparedSource)
    requires
        start == earliest(rows@),
        span == latest(rows@).minus(start),
    ensures
        r@ == source_of(rows@, n_bands, *c),
{
    let unit: Binary64 = unit_of(rows);
    let mut times: Vec<Binary64> = Vec::new();
    let mut nu_scaled: Vec<Binary64> = Vec::new();
    let mut flux: Vec<Binary64> = Vec::new();
    let mut flux_err: Vec<Binary64> = Vec::new();
    let mut i: usize = 0;
    while i < rows.len()
        invariant
            i <= rows.len(),
            times.len() == i,
            nu_scaled.len() == i,
            flux.len() == i,
            flux_err.len() == i,
            forall|j: int| 0 <= j < i ==> times@[j] == rows@[j].time,
            forall|j: int| 0 <= j < i ==> nu_scaled@[j] == rows@[j].nu_scaled,
            forall|j: int| 0 <= j < i ==> flux@[j] == rows@[j].flux.over(unit),
            forall|j: int| 0 <= j < i ==> flux_err@[j] == rows@[j].flux_err.over(unit),
        decreases rows.len() - i,
    {
        let o: SbplObs = rows[i];
        times.push(o.time);
        nu_scaled.push(o.nu_scaled);
        flux.push(o.flux.over(unit));
        flux_err.push(o.flux_err.over(unit));
        i += 1;
    }
    let tb_upper: Binary64 = match c.tb_upper {
        Some(tb) => tb,
        None => Binary64 { bits: TEN }.times(span).min(Binary64 { bits: TEN_THOUSAND }),
    };
    let tb_lower: Binary64 = match c.tb_lower {
        Some(tb) => tb,
        None => {
            let part: Binary64 = Binary64 { bits: HUNDREDTH }.times(span);
            let raised: Binary64 = part.max(Binary64 { bits: HUNDREDTH });
            if raised.lt(tb_upper) {
                raised
            } else {
                part
            }
        },
    };
    let seed_key: u64 = content_hash(&times, &flux, &flux_err);
    let r: PreparedSource = PreparedSource {
        times,
        nu_scaled,
        flux,
        flux_err,
        lower: [
            c.alpha1_min,
            c.alpha2_min,
            Binary64 { bits: MINUS_FIVE },
            Binary64 { bits: MINUS_THREE },
            Binary64 { bits: MINUS_TEN },
            tb_lower,
            start.minus(Binary64 { bits: TWO }.times(span)),
        ],
        upper: [
            c.alpha1_max,
            c.alpha2_max,
            Binary64 { bits: FIVE },
            Binary64::zero(),
            Binary64 { bits: TEN },
            tb_upper,
            start,
        ],
        max_flux: unit,
        t_ref: start,
        n_obs: rows.len(),
        n_bands,
        seed_key,
    };
    proof {
        let s = source_of(rows@, n_bands, *c);
        assert(r.times@ =~= s.times);
        assert(r.nu_scaled@ =~= s.nu_scaled);
        assert(r.flux@ =~= s.flux);
        assert(r.flux_err@ =~= s.flux_err);
        assert(r.lower@ =~= s.lower);
        assert(r.upper@ =~= s.upper);
    }
    r
}

/// Flattens and normalises bands, and derives the search bounds.
pub fn prepare_source(bands: &BandMap, config: &PsoConfig) -> (r: Preparation)
    requires
        bands_complete(bands@),
    ensures
        r@ == prepared(bands@, *config),
{
    if bands.is_empty() {
        return Preparation::Empty;
    }
    let (rows, n_bands) = flatten(bands);
    if rows.len() < MIN_OBS || n_bands < MIN_BANDS {
        return Preparation::Unfittable(SbplResult::empty(rows.len(), n_bands));
    }
    let (t_min, t_max) = extent(&rows);
    let duration: Binary64 = t_max.minus(t_min);
    if duration.le(Binary64::zero()) {
        return Preparation::Unfittable(SbplResult::empty(rows.len(), n_bands));
    }
    Preparation::Ready(assemble(&rows, n_bands, config, t_min, duration))
}

/// Observations grouped by band are complete.
pub proof fn law_grouping_is_complete(obs: Seq<Seen>)
    ensures
        bands_complete(grouped(obs)),
{
}

pub proof fn lemma_rows_are_usable(bands: Map<Seq<char>, Series>, k: nat)
    requires
        k <= N_KNOWN,
    ensures
        forall|i: int|
            0 <= i < usable_rows(bands, k).len() ==> usable(#[trigger] usable_rows(bands, k)[i]),
    decreases k,
{
    if k > 0 {
        lemma_rows_are_usable(bands, (k - 1) as nat);
        broadcast use vstd::seq_lib::group_filter_ensures;

        let name = known_names()[k - 1];
        let test = |o: SbplObs| usable(o);
        let all = band_rows(bands[name], frequency_of(name)->0);
        let before = usable_rows(bands, (k - 1) as nat);
        assert forall|i: int| 0 <= i < usable_rows(bands, k).len() implies usable(
            #[trigger] usable_rows(bands, k)[i],
        ) by {
            if i < before.len() {
                assert(usable(before[i]));
                assert(usable_rows(bands, k)[i] == before[i]);
            } else {
                assert(usable_rows(bands, k)[i] == all.filter(test)[i - before.len()]);
                assert(test(all.filter(test)[i - before.len()]));
            }
        }
    }
}

/// Of finite times, the earliest and the latest bound the others and are
/// among them.
pub proof fn law_extent(rows: Seq<SbplObs>)
    requires
        rows.len() > 0,
        forall|i: int| 0 <= i < rows.len() ==> (#[trigger] rows[i]).time.is_finite(),
    ensures
        forall|i: int| 0 <= i < rows.len() ==> earliest(rows).le((#[trigger] rows[i]).time),
        forall|i: int| 0 <= i < rows.len() ==> (#[trigger] rows[i]).time.le(latest(rows)),
        exists|i: int| 0 <= i < rows.len() && (#[trigger] rows[i]).time == earliest(rows),
        exists|i: int| 0 <= i < rows.len() && (#[trigger] rows[i]).time == latest(rows),
    decreases rows.len(),
{
    let before = rows.drop_last();
    let last = rows.len() - 1;
    assert(rows[last].time.is_finite());
    if before.len() > 0 {
        assert forall|i: int| 0 <= i < before.len() implies (#[trigger] before[i]).time.is_finite() by {
            assert(rows[i].time.is_finite());
        }
        law_extent(before);
        let a = choose|i: int|
            0 <= i < before.len() && (#[trigger] before[i]).time == earliest(before);
        let b = choose|i: int|
            0 <= i < before.len() && (#[trigger] before[i]).time == latest(before);
        assert(rows[a].time == earliest(before));
        assert(rows[b].time == latest(before));
        assert forall|i: int| 0 <= i < rows.len() implies earliest(rows).le(
            (#[trigger] rows[i]).time,
        ) && rows[i].time.le(latest(rows)) by {
            if i < last {
                assert(before[i] == rows[i]);
            }
        }
    } else {
        assert(earliest(before) == (Binary64 { bits: INFINITY }));
        assert(latest(before) == (Binary64 { bits: MINUS_INFINITY }));
    }
}

/// Among observations with a positive flux, the largest flux is one of them, and
/// none is larger.
pub proof fn law_largest_flux(rows: Seq<SbplObs>)
    requires
        forall|i: int| 0 <= i < rows.len() ==> (#[trigger] rows[i]).flux.is_finite(),
    ensures
        ({
            let some = exists|i: int|
                0 <= i < rows.len() && Binary64::zero().lt((#[trigger] rows[i]).flux);
            let top = brightest(rows);
            &&& some ==> exists|i: int| 0 <= i < rows.len() && (#[trigger] rows[i]).flux == top
            &&& some ==> Binary64::zero().lt(top)
            &&& !some ==> top == (Binary64 { bits: MINUS_INFINITY })
            &&& forall|i: int| 0 <= i < rows.len() ==> (some ==> (#[trigger] rows[i]).flux.le(top))
        }),
    decreases rows.len(),
{
    if rows.len() > 0 {
        let before = rows.drop_last();
        let last = rows.len() - 1;
        assert forall|i: int| 0 <= i < before.len() implies (#[trigger] before[i]).flux.is_finite() by {
            assert(rows[i].flux.is_finite());
        }
        law_largest_flux(before);
        assert(rows[last].flux.is_finite());
        let zero = Binary64::zero();
        let was = exists|i: int| 0 <= i < before.len() && zero.lt((#[trigger] before[i]).flux);
        if was {
            let i = choose|i: int| 0 <= i < before.len() && zero.lt((#[trigger] before[i]).flux);
            assert(zero.lt(rows[i].flux));
            let k = choose|k: int|
                0 <= k < before.len() && (#[trigger] before[k]).flux == brightest(before);
            assert(rows[k].flux == brightest(before));
        }
        let some = exists|i: int| 0 <= i < rows.len() && zero.lt((#[trigger] rows[i]).flux);
        if some && !was {
            let i = choose|i: int| 0 <= i < rows.len() && zero.lt((#[trigger] rows[i]).flux);
            if i < last {
                assert(before[i] == rows[i]);
            }
            assert(zero.lt(rows[last].flux));
        }
        assert forall|i: int| 0 <= i < rows.len() && some implies (#[trigger] rows[i]).flux.le(
            brightest(rows),
        ) by {
            if i < last {
                assert(before[i] == rows[i]);
                if !was {
                    assert(!zero.lt(before[i].flux));
                }
            }
        }
    }
}

/// Where some usable observation has a positive flux, normalising takes the
/// largest flux to one.
pub proof fn law_largest_flux_becomes_one(bands: Map<Seq<char>, Series>, c: PsoConfig)
    requires
        prepared(bands, c) is Ready,
        exists|i: int|
            0 <= i < usable_rows(bands, N_KNOWN as nat).len() && Binary64::zero().lt(
                (#[trigger] usable_rows(bands, N_KNOWN as nat)[i]).flux,
            ),
    ensures
        (prepared(bands, c)->Ready_0).flux.contains(Binary64 { bits: ONE }),
{
    let rows = usable_rows(bands, N_KNOWN as nat);
    let s = prepared(bands, c)->Ready_0;
    lemma_rows_are_usable(bands, N_KNOWN as nat);
    assert forall|i: int| 0 <= i < rows.len() implies (#[trigger] rows[i]).flux.is_finite() by {
        assert(usable(rows[i]));
    }
    law_largest_flux(rows);
    let k = choose|k: int| 0 <= k < rows.len() && (#[trigger] rows[k]).flux == brightest(rows);
    assert(rows[k].flux.is_finite());
    law_quotient_with_itself(rows[k].flux);
    assert(s.flux[k] == (Binary64 { bits: ONE }));
}

/// A source that is ready to fit has at least seven observations in at least
/// two bands, a frequency, a flux and an error for each of its times, seven
/// bounds on either side, and an onset no later than the reference time.
pub proof fn law_ready_sources(bands: Map<Seq<char>, Series>, c: PsoConfig)
    requires
        prepared(bands, c) is Ready,
        usable_rows(bands, N_KNOWN as nat).len() <= usize::MAX,
    ensures
        ({
            let s = prepared(bands, c)->Ready_0;
            &&& s.complete()
            &&& s.times.len() == s.n_obs
            &&& s.nu_scaled.len() == s.n_obs
            &&& s.flux.len() == s.n_obs
            &&& s.flux_err.len() == s.n_obs
            &&& s.n_obs >= MIN_OBS
            &&& s.n_bands >= MIN_BANDS
            &&& s.lower.len() == N_PARAMS
            &&& s.upper.len() == N_PARAMS
            &&& s.upper[6] == s.t_ref
        }),
{
}

/// The reference time of a source that is ready to fit is its earliest time,
/// and all its times are finite.
pub proof fn law_reference_time(bands: Map<Seq<char>, Series>, c: PsoConfig)
    requires
        prepared(bands, c) is Ready,
    ensures
        ({
            let s = prepared(bands, c)->Ready_0;
            &&& s.t_ref.is_finite()
            &&& s.times.contains(s.t_ref)
            &&& forall|i: int|
                0 <= i < s.times.len() ==> (#[trigger] s.times[i]).is_finite() && s.t_ref.le(
                    s.times[i],
                )
        }),
{
    let rows = usable_rows(bands, N_KNOWN as nat);
    let s = prepared(bands, c)->Ready_0;
    lemma_rows_are_usable(bands, N_KNOWN as nat);
    assert forall|i: int| 0 <= i < rows.len() implies (#[trigger] rows[i]).time.is_finite() by {
        assert(usable(rows[i]));
    }
    law_extent(rows);
    let a = choose|i: int| 0 <= i < rows.len() && (#[trigger] rows[i]).time == earliest(rows);
    assert(s.times[a] == s.t_ref);
    assert forall|i: int| 0 <= i < s.times.len() implies (#[trigger] s.times[i]).is_finite()
        && s.t_ref.le(s.times[i]) by {
        assert(s.times[i] == rows[i].time);
    }
}

/// Without an override the break time is searched from 1% of the span, or from 0.01
/// day where that is more and still below the upper bound, up to ten spans, at most
/// 10 000 days.
pub proof fn law_break_time_bounds(bands: Map<Seq<char>, Series>, c: PsoConfig)
    requires
        prepared(bands, c) is Ready,
    ensures
        ({
            let s = prepared(bands, c)->Ready_0;
            let rows = usable_rows(bands, N_KNOWN as nat);
            let span = latest(rows).minus(earliest(rows));
            let part = Binary64 { bits: HUNDREDTH }.times(span);
            let least = Binary64 { bits: HUNDREDTH };
            let tenfold = Binary64 { bits: TEN }.times(span);
            let most = Binary64 { bits: TEN_THOUSAND };
            &&& c.tb_lower is None && least.le(part) ==> s.lower[5] == part
            &&& c.tb_lower is None && part.lt(least) ==> s.lower[5] == if least.lt(s.upper[5]) {
                least
            } else {
                part
            }
            &&& c.tb_upper is None ==> s.upper[5].le(most)
            &&& c.tb_upper is None && tenfold.le(most) ==> s.upper[5] == tenfold
            &&& c.tb_lower is Some ==> s.lower[5] == c.tb_lower->0
            &&& c.tb_upper is Some ==> s.upper[5] == c.tb_upper->0
        }),
{
}

/// The span of a source that is ready to fit is above zero.
pub proof fn lemma_ready_span(bands: Map<Seq<char>, Series>, c: PsoConfig)
    requires
        prepared(bands, c) is Ready,
    ensures
        ({
            let rows = usable_rows(bands, N_KNOWN as nat);
            &&& earliest(rows).is_finite()
            &&& latest(rows).is_finite()
            &&& earliest(rows).lt(latest(rows))
            &&& Binary64::zero().lt(latest(rows).minus(earliest(rows)))
        }),
{
    let rows = usable_rows(bands, N_KNOWN as nat);
    lemma_rows_are_usable(bands, N_KNOWN as nat);
    assert forall|i: int| 0 <= i < rows.len() implies (#[trigger] rows[i]).time.is_finite() by {
        assert(usable(rows[i]));
    }
    law_extent(rows);
    law_results_are_numbers(latest(rows), earliest(rows));
    law_positive_difference(latest(rows), earliest(rows));
}

/// The default bounds of the break time have room between them, as long as 1% of
/// the span is below 10 000 days.
pub proof fn law_default_break_times_have_room(bands: Map<Seq<char>, Series>, c: PsoConfig)
    requires
        prepared(bands, c) is Ready,
        c.tb_lower is None,
        c.tb_upper is None,
        ({
            let rows = usable_rows(bands, N_KNOWN as nat);
            let span = latest(rows).minus(earliest(rows));
            (Binary64 { bits: HUNDREDTH }).times(span).lt(Binary64 { bits: TEN_THOUSAND })
        }),
    ensures
        ({
            let s = prepared(bands, c)->Ready_0;
            s.lower[5].lt(s.upper[5])
        }),
{
    let rows = usable_rows(bands, N_KNOWN as nat);
    lemma_ready_span(bands, c);
    let span = latest(rows).minus(earliest(rows));
    law_signs_are_kept(Binary64 { bits: HUNDREDTH }, span);
    law_hundredth_is_below_tenfold(span);
}

/// The onset of a source that is ready to fit can precede its first observation, as
/// long as that is no further than 2^1018 days from zero.
pub proof fn law_onset_has_room(bands: Map<Seq<char>, Series>, c: PsoConfig)
    requires
        prepared(bands, c) is Ready,
        (prepared(bands, c)->Ready_0).t_ref.step() <= 0x7f90_0000_0000_0000,
    ensures
        ({
            let s = prepared(bands, c)->Ready_0;
            s.lower[6].lt(s.upper[6])
        }),
{
    let rows = usable_rows(bands, N_KNOWN as nat);
    lemma_ready_span(bands, c);
    law_two_spans_earlier(earliest(rows), latest(rows));
}

/// The random key of a source depends on its observations alone: sources with
/// the same times, fluxes and errors have the same key, whatever their bounds.
pub proof fn law_key_is_content(
    bands1: Map<Seq<char>, Series>,
    c1: PsoConfig,
    bands2: Map<Seq<char>, Series>,
    c2: PsoConfig,
)
    requires
        prepared(bands1, c1) is Ready,
        prepared(bands2, c2) is Ready,
        (prepared(bands1, c1)->Ready_0).times == (prepared(bands2, c2)->Ready_0).times,
        (prepared(bands1, c1)->Ready_0).flux == (prepared(bands2, c2)->Ready_0).flux,
        (prepared(bands1, c1)->Ready_0).flux_err == (prepared(bands2, c2)->Ready_0).flux_err,
    ensures
        (prepared(bands1, c1)->Ready_0).seed_key == (prepared(bands2, c2)->Ready_0).seed_key,
{
}

/// Bands without a known frequency are skipped.
pub proof fn law_unknown_bands_are_skipped(
    bands: Map<Seq<char>, Series>,
    name: Seq<char>,
    extra: Series,
    c: PsoConfig,
)
    requires
        frequency_of(name) is None,
        bands != Map::<Seq<char>, Series>::empty(),
    ensures
        prepared(bands.insert(name, extra), c) == prepared(bands, c),
{
    let more = bands.insert(name, extra);
    lemma_unknown_band(bands, name, extra, N_KNOWN as nat);
    assert(more.dom().contains(name));
    assert(more != Map::<Seq<char>, Series>::empty());
}

proof fn lemma_unknown_band(
    bands: Map<Seq<char>, Series>,
    name: Seq<char>,
    extra: Series,
    k: nat,
)
    requires
        frequency_of(name) is None,
        k <= N_KNOWN,
    ensures
        usable_rows(bands.insert(name, extra), k) == usable_rows(bands, k),
        bands_present(bands.insert(name, extra), k) == bands_present(bands, k),
    decreases k,
{
    if k > 0 {
        lemma_unknown_band(bands, name, extra, (k - 1) as nat);
        law_known_names_are_complete(known_names()[k - 1]);
        assert(known_names().contains(known_names()[k - 1]));
    }
}

/// A band with one more row, at place `i`.
pub open spec fn with_row(
    s: Series,
    i: int,
    time: Binary64,
    flux: Binary64,
    flux_err: Binary64,
) -> Series {
    Series {
        times: s.times.insert(i, time),
        fluxes: s.fluxes.insert(i, flux),
        flux_errs: s.flux_errs.insert(i, flux_err),
    }
}

/// What fails a test does not show in what a filter keeps.
proof fn lemma_filter_skips<A>(all: Seq<A>, test: spec_fn(A) -> bool, i: int, a: A)
    requires
        0 <= i <= all.len(),
        !test(a),
    ensures
        all.insert(i, a).filter(test) == all.filter(test),
    decreases all.len(),
{
    reveal(Seq::filter);
    let more = all.insert(i, a);
    if i == all.len() {
        assert(more.drop_last() =~= all);
    } else {
        assert(more.drop_last() =~= all.drop_last().insert(i, a));
        assert(more.last() == all.last());
        lemma_filter_skips(all.drop_last(), test, i, a);
    }
}

/// A row that is not finite throughout, or without a positive error, changes nothing
/// in a band that has a row already. In an empty band it would count as the band's
/// first observation.
pub proof fn law_unusable_rows_are_skipped(
    bands: Map<Seq<char>, Series>,
    name: Seq<char>,
    i: int,
    time: Binary64,
    flux: Binary64,
    flux_err: Binary64,
    c: PsoConfig,
)
    requires
        bands_complete(bands),
        bands.dom().contains(name),
        bands[name].times.len() > 0,
        0 <= i <= bands[name].times.len(),
        !time.is_finite() || !flux.is_finite() || !flux_err.is_finite() || !Binary64::zero().lt(
            flux_err,
        ),
    ensures
        prepared(bands.insert(name, with_row(bands[name], i, time, flux, flux_err)), c) == prepared(
            bands,
            c,
        ),
{
    let more = bands.insert(name, with_row(bands[name], i, time, flux, flux_err));
    lemma_unusable_row(bands, name, i, time, flux, flux_err, N_KNOWN as nat);
    assert(more.dom().contains(name));
    assert(more != Map::<Seq<char>, Series>::empty());
    assert(bands != Map::<Seq<char>, Series>::empty());
}

proof fn lemma_unusable_row(
    bands: Map<Seq<char>, Series>,
    name: Seq<char>,
    i: int,
    time: Binary64,
    flux: Binary64,
    flux_err: Binary64,
    k: nat,
)
    requires
        bands_complete(bands),
        bands.dom().contains(name),
        bands[name].times.len() > 0,
        0 <= i <= bands[name].times.len(),
        !time.is_finite() || !flux.is_finite() || !flux_err.is_finite() || !Binary64::zero().lt(
            flux_err,
        ),
        k <= N_KNOWN,
    ensures
        ({
            let more = bands.insert(name, with_row(bands[name], i, time, flux, flux_err));
            &&& usable_rows(more, k) == usable_rows(bands, k)
            &&& bands_present(more, k) == bands_present(bands, k)
        }),
    decreases k,
{
    let more = bands.insert(name, with_row(bands[name], i, time, flux, flux_err));
    if k > 0 {
        lemma_unusable_row(bands, name, i, time, flux, flux_err, (k - 1) as nat);
        let known = known_names()[k - 1];
        law_known_names_are_complete(known);
        assert(known_names().contains(known));
        if known == name {
            let nu = frequency_of(name)->0;
            let all = band_rows(bands[name], nu);
            let o = SbplObs {
                time,
                nu_scaled: nu.over(Binary64 { bits: PETA }),
                flux,
                flux_err,
            };
            assert(band_rows(more[name], nu) =~= all.insert(i, o));
            lemma_filter_skips(all, |o: SbplObs| usable(o), i, o);
        }
    }
}

} // verus!

//! Fitting one source.
use crate::bands::N_KNOWN;
use crate::binary64::{law_counts_have_no_sign, law_signs_are_kept, Binary64};
use crate::cost::{
    law_cost_is_not_negative, logarithms_of, observations_of, source_cost, SbplCost,
};
use crate::elementary::{answers, ask, is_function, Elementary};
use crate::generator::{draws_in_range, is_generator, is_seeding, seeds, sow, stream, Draw};
use crate::light_curve::{BandMap, Series};
use crate::numbers::{HUNDREDTH, INFINITY, N_PARAMS, TEN_THOUSAND};
use crate::polish::{
    inside_rounded, is_minimiser, law_polishing_never_worsens, law_polishing_stays_in_bounds,
    lbfgs_refine, refined, suggestions, suggests_numbers, ScaledCost, Task,
};
use crate::prepare::{
    bands_complete, bands_present, earliest, latest, law_default_break_times_have_room,
    law_onset_has_room, prepare_source, prepared, usable_rows, MIN_BANDS, MIN_OBS,
};
use crate::search::{
    is_searchable, law_search_is_truthful, law_search_reports_numbers_in_bounds, pso_search,
    searchable, searched,
};
use crate::source::{Preparation, Prepared, PreparedSource, PsoConfig, SbplResult, Source};
use crate::swarm::{copied, lemma_moderate_span, moderate, ordered, MODERATE};
use vstd::prelude::*;

verus! {

/// Parameters and their cost, for each restart.
pub open spec fn restarts_of(restarts: Seq<(Vec<Binary64>, Binary64)>) -> Seq<
    (Seq<Binary64>, Binary64),
> {
    restarts.map_values(|r: (Vec<Binary64>, Binary64)| (r.0@, r.1))
}

/// The restarts that have a number for every parameter.
pub open spec fn whole(restarts: Seq<(Seq<Binary64>, Binary64)>) -> Seq<(Seq<Binary64>, Binary64)> {
    restarts.filter(|r: (Seq<Binary64>, Binary64)| r.0.len() == N_PARAMS)
}

/// The restart of least cost, the first of equal ones; `lower` with an infinite
/// cost where no cost is below that.
pub open spec fn leading(
    restarts: Seq<(Seq<Binary64>, Binary64)>,
    lower: Seq<Binary64>,
) -> (Seq<Binary64>, Binary64)
    decreases restarts.len(),
{
    if restarts.len() == 0 {
        (lower, Binary64 { bits: INFINITY })
    } else {
        let so_far = leading(restarts.drop_last(), lower);
        if restarts.last().1.lt(so_far.1) {
            restarts.last()
        } else {
            so_far
        }
    }
}

/// Fitted parameters in physical flux units: the amplitude is shifted by the
/// logarithm of what the fluxes were divided by.
pub open spec fn physical(p: Seq<Binary64>, shift: Binary64) -> Seq<Binary64> {
    p.update(4, p[4].plus(shift))
}

/// The sum of one column over the first `n` rows.
pub open spec fn column_sum(rows: Seq<Seq<Binary64>>, i: int, n: nat) -> Binary64
    decreases n,
{
    if n == 0 {
        Binary64::zero()
    } else {
        column_sum(rows, i, (n - 1) as nat).plus(rows[n - 1][i])
    }
}

/// The sum of the squared deviations of one column over the first `n` rows.
pub open spec fn squares_sum(rows: Seq<Seq<Binary64>>, i: int, mean: Binary64, n: nat) -> Binary64
    decreases n,
{
    if n == 0 {
        Binary64::zero()
    } else {
        let off = rows[n - 1][i].minus(mean);
        squares_sum(rows, i, mean, (n - 1) as nat).plus(off.times(off))
    }
}

/// The standard deviation of one column.
pub open spec fn spread(
    rows: Seq<Seq<Binary64>>,
    i: int,
    f: spec_fn(Elementary) -> Binary64,
) -> Binary64 {
    let n = Binary64::of_count(rows.len() as u64);
    let mean = column_sum(rows, i, rows.len()).over(n);
    f(Elementary::Sqrt(squares_sum(rows, i, mean, rows.len()).over(n)))
}

pub open spec fn spec_finite(v: Binary64) -> Option<Binary64> {
    if v.is_finite() {
        Some(v)
    } else {
        None
    }
}

/// A number, where it is finite.
#[verifier::when_used_as_spec(spec_finite)]
pub fn finite(v: Binary64) -> (r: Option<Binary64>)
    ensures
        r == finite(v),
{
    if v.is_finite() {
        Some(v)
    } else {
        None
    }
}

/// What the restarts of a source amount to: the best of them in physical units,
/// and the spread of each parameter across them.
pub open spec fn assembled(
    s: Source,
    restarts: Seq<(Seq<Binary64>, Binary64)>,
    f: spec_fn(Elementary) -> Binary64,
) -> SbplResult {
    let kept = whole(restarts);
    let shift = f(Elementary::Log10(s.max_flux));
    let best = leading(kept, s.lower);
    let p = physical(best.0, shift);
    let rows = kept.map_values(|r: (Seq<Binary64>, Binary64)| physical(r.0, shift));
    if kept.len() == 0 {
        SbplResult::empty(s.n_obs, s.n_bands)
    } else {
        SbplResult {
            alpha1: finite(p[0]),
            alpha2: finite(p[1]),
            beta: finite(p[2]),
            logd: finite(p[3]),
            loga: finite(p[4]),
            tb: finite(p[5]),
            t0: finite(p[6]),
            alpha1_err: finite(spread(rows, 0, f)),
            alpha2_err: finite(spread(rows, 1, f)),
            beta_err: finite(spread(rows, 2, f)),
            logd_err: finite(spread(rows, 3, f)),
            loga_err: finite(spread(rows, 4, f)),
            tb_err: finite(spread(rows, 5, f)),
            t0_err: finite(spread(rows, 6, f)),
            reduced_chi2: finite(best.1),
            n_obs: s.n_obs,
            n_bands: s.n_bands,
        }
    }
}

/// The standard deviation of one column.
fn spread_of<M: Fn(Elementary) -> Binary64>(rows: &Vec<Vec<Binary64>>, i: usize, math: &M) -> (r:
    Binary64)
    requires
        i < N_PARAMS,
        forall|j: int| 0 <= j < rows.len() ==> (#[trigger] rows@[j]).len() == N_PARAMS,
        is_function(*math),
    ensures
        r == spread(
            Seq::new(rows@.len(), |j: int| rows@[j]@),
            i as int,
            answers(*math),
        ),
{
    let ghost table = Seq::new(rows@.len(), |j: int| rows@[j]@);
    let n: Binary64 = Binary64::of_count(rows.len() as u64);
    let mut sum: Binary64 = Binary64::zero();
    let mut k: usize = 0;
    while k < rows.len()
        invariant
            k <= rows.len(),
            i < N_PARAMS,
            forall|j: int| 0 <= j < rows.len() ==> (#[trigger] rows@[j]).len() == N_PARAMS,
            table == Seq::new(rows@.len(), |j: int| rows@[j]@),
            sum == column_sum(table, i as int, k as nat),
        decreases rows.len() - k,
    {
        assert(rows@[k as int].len() == N_PARAMS);
        sum = sum.plus(rows[k][i]);
        k += 1;
    }
    let mean: Binary64 = sum.over(n);
    let mut squares: Binary64 = Binary64::zero();
    k = 0;
    while k < rows.len()
        invariant
            k <= rows.len(),
            i < N_PARAMS,
            forall|j: int| 0 <= j < rows.len() ==> (#[trigger] rows@[j]).len() == N_PARAMS,
            table == Seq::new(rows@.len(), |j: int| rows@[j]@),
            squares == squares_sum(table, i as int, mean, k as nat),
        decreases rows.len() - k,
    {
        assert(rows@[k as int].len() == N_PARAMS);
        let off: Binary64 = rows[k][i].minus(mean);
        squares = squares.plus(off.times(off));
        k += 1;
    }
    ask(math, Elementary::Sqrt(squares.over(n)))
}

/// Turns the restarts of a source into its result.
pub fn assemble_result<M: Fn(Elementary) -> Binary64>(
    prep: &PreparedSource,
    restarts: &Vec<(Vec<Binary64>, Binary64)>,
    math: &M,
) -> (r: SbplResult)
    requires
        is_function(*math),
    ensures
        r == assembled(prep@, restarts_of(restarts@), answers(*math)),
{
    let ghost f = answers(*math);
    let ghost all = restarts_of(restarts@);
    let ghost test = |r: (Seq<Binary64>, Binary64)| r.0.len() == N_PARAMS;
    let shift: Binary64 = ask(math, Elementary::Log10(prep.max_flux));
    let mut rows: Vec<Vec<Binary64>> = Vec::with_capacity(restarts.len());
    let mut best: Vec<Binary64> = Vec::with_capacity(N_PARAMS);
    let mut d: usize = 0;
    while d < N_PARAMS
        invariant
            d <= N_PARAMS,
            best@ == prep.lower@.subrange(0, d as int),
        decreases N_PARAMS - d,
    {
        best.push(prep.lower[d]);
        d += 1;
        assert(best@ =~= prep.lower@.subrange(0, d as int));
    }
    let mut best_cost: Binary64 = Binary64 { bits: INFINITY };
    let mut i: usize = 0;
    proof {
        reveal(Seq::filter);
        assert(all.subrange(0, 0).filter(test) =~= seq![]);
        assert(prep.lower@.subrange(0, N_PARAMS as int) =~= prep.lower@);
    }
    while i < restarts.len()
        invariant
            i <= restarts.len(),
            all == restarts_of(restarts@),
            test == (|r: (Seq<Binary64>, Binary64)| r.0.len() == N_PARAMS),
            best.len() == N_PARAMS,
            rows.len() == all.subrange(0, i as int).filter(test).len(),
            forall|j: int|
                0 <= j < rows.len() ==> {
                    &&& (#[trigger] rows@[j]).len() == N_PARAMS
                    &&& rows@[j]@ == physical(all.subrange(0, i as int).filter(test)[j].0, shift)
                },
            (best@, best_cost) == leading(all.subrange(0, i as int).filter(test), prep.lower@),
        decreases restarts.len() - i,
    {
        let ghost before = all.subrange(0, i as int).filter(test);
        let ghost more = all.subrange(0, i + 1);
        proof {
            reveal(Seq::filter);
            assert(more.drop_last() =~= all.subrange(0, i as int));
            assert(more.last() == (restarts@[i as int].0@, restarts@[i as int].1));
            assert(before.push(more.last()).drop_last() =~= before);
        }
        let params: &Vec<Binary64> = &restarts[i].0;
        let cost: Binary64 = restarts[i].1;
        if params.len() == N_PARAMS {
            let mut row: Vec<Binary64> = copied(params);
            row.set(4, params[4].plus(shift));
            assert(row@ == physical(params@, shift));
            rows.push(row);
            if cost.lt(best_cost) {
                best_cost = cost;
                best = copied(params);
            }
        }
        i += 1;
    }
    assert(all.subrange(0, restarts.len() as int) =~= all);
    if rows.len() == 0 {
        return SbplResult::empty(prep.n_obs, prep.n_bands);
    }
    best.set(4, best[4].plus(shift));
    proof {
        let kept = whole(all);
        assert(Seq::new(rows@.len(), |j: int| rows@[j]@) =~= kept.map_values(
            |r: (Seq<Binary64>, Binary64)| physical(r.0, shift),
        ));
    }
    SbplResult {
        alpha1: finite(best[0]),
        alpha2: finite(best[1]),
        beta: finite(best[2]),
        logd: finite(best[3]),
        loga: finite(best[4]),
        tb: finite(best[5]),
        t0: finite(best[6]),
        alpha1_err: finite(spread_of(&rows, 0, math)),
        alpha2_err: finite(spread_of(&rows, 1, math)),
        beta_err: finite(spread_of(&rows, 2, math)),
        logd_err: finite(spread_of(&rows, 3, math)),
        loga_err: finite(spread_of(&rows, 4, math)),
        tb_err: finite(spread_of(&rows, 5, math)),
        t0_err: finite(spread_of(&rows, 6, math)),
        reduced_chi2: finite(best_cost),
        n_obs: prep.n_obs,
        n_bands: prep.n_bands,
    }
}

/// The first `n` restarts of a fit, one after another on one generator: each
/// searches, then polishes what it found.
pub open spec fn restarted<R>(
    s: Source,
    c: PsoConfig,
    g: R,
    next: spec_fn(R, Draw) -> (Binary64, R),
    suggest: spec_fn(Task) -> Option<Seq<Binary64>>,
    f: spec_fn(Elementary) -> Binary64,
    n: nat,
) -> (Seq<(Seq<Binary64>, Binary64)>, R)
    decreases n,
{
    if n == 0 {
        (seq![], g)
    } else {
        let so_far = restarted(s, c, g, next, suggest, f, (n - 1) as nat);
        let end = searched(
            source_cost(s, f),
            s.lower,
            s.upper,
            so_far.1,
            next,
            c.n_particles as nat,
            c.n_iters as nat,
        );
        let polished = refined(
            observations_of(s),
            logarithms_of(s, f),
            end.lead,
            end.lead_cost,
            s.lower,
            s.upper,
            suggest,
            f,
        );
        (so_far.0.push(polished), end.generator)
    }
}

/// The fit of a prepared source.
pub open spec fn fitted<R>(
    s: Source,
    c: PsoConfig,
    sown: spec_fn(u64) -> R,
    next: spec_fn(R, Draw) -> (Binary64, R),
    suggest: spec_fn(Task) -> Option<Seq<Binary64>>,
    f: spec_fn(Elementary) -> Binary64,
) -> SbplResult {
    assembled(
        s,
        restarted(s, c, sown(c.seed), next, suggest, f, c.n_restarts as nat).0,
        f,
    )
}

/// Restarts have what a search needs: particles, and room between the bounds.
pub open spec fn may_fit(s: Source, c: PsoConfig) -> bool {
    c.n_restarts > 0 ==> c.n_particles > 0 && searchable(s.lower, s.upper)
}

/// Whether the restarts of a prepared source can search.
pub fn can_fit(prep: &PreparedSource, config: &PsoConfig) -> (r: bool)
    ensures
        r == may_fit(prep@, *config),
{
    config.n_restarts == 0 || (config.n_particles > 0 && is_searchable(&prep.lower, &prep.upper))
}

/// Runs the restarts of a fit and assembles its result.
pub fn fit_prepared<
    R,
    S: Fn(u64) -> R,
    D: Fn(&R, Draw) -> (Binary64, R),
    F: Fn(&ScaledCost, &Vec<Binary64>) -> Option<Vec<Binary64>>,
    M: Fn(Elementary) -> Binary64,
>(
    prep: &PreparedSource,
    config: &PsoConfig,
    seeded: &S,
    draw: &D,
    minimise: &F,
    math: &M,
) -> (r: SbplResult)
    requires
        prep@.complete(),
        may_fit(prep@, *config),
        is_seeding(*seeded),
        is_generator(*draw),
        is_minimiser(*minimise),
        is_function(*math),
    ensures
        r == fitted(
            prep@,
            *config,
            seeds(*seeded),
            stream(*draw),
            suggestions(*minimise),
            answers(*math),
        ),
{
    let ghost s = prep@;
    let ghost next = stream(*draw);
    let ghost suggest = suggestions(*minimise);
    let ghost f = answers(*math);
    let problem: SbplCost = SbplCost::new(prep, math);
    let mut g: R = sow(seeded, config.seed);
    let ghost first = g;
    let mut restarts: Vec<(Vec<Binary64>, Binary64)> = Vec::new();
    let mut k: usize = 0;
    assert(restarts_of(restarts@) =~= seq![]);
    while k < config.n_restarts
        invariant
            k <= config.n_restarts,
            may_fit(prep@, *config),
            is_generator(*draw),
            is_minimiser(*minimise),
            is_function(*math),
            s == prep@,
            next == stream(*draw),
            suggest == suggestions(*minimise),
            f == answers(*math),
            problem.obs() == observations_of(s),
            problem.log_frequencies() == logarithms_of(s, f),
            restarts_of(restarts@) == restarted(s, *config, first, next, suggest, f, k as nat).0,
            g == restarted(s, *config, first, next, suggest, f, k as nat).1,
        decreases config.n_restarts - k,
    {
        let (found, found_cost, after) = pso_search(
            &problem,
            &prep.lower,
            &prep.upper,
            config.n_particles,
            config.n_iters,
            g,
            draw,
            math,
        );
        g = after;
        let polished: (Vec<Binary64>, Binary64) = lbfgs_refine(
            &problem,
            found,
            found_cost,
            &prep.lower,
            &prep.upper,
            minimise,
            math,
        );
        let ghost before = restarts@;
        restarts.push(polished);
        assert(restarts_of(restarts@) =~= restarts_of(before).push((polished.0@, polished.1)));
        k += 1;
    }
    assemble_result(prep, &restarts, math)
}

/// The fit of the bands of a source: nothing without a band, a result without a
/// fit on too little data.
pub open spec fn fitted_bands<R>(
    bands: Map<Seq<char>, Series>,
    c: PsoConfig,
    sown: spec_fn(u64) -> R,
    next: spec_fn(R, Draw) -> (Binary64, R),
    suggest: spec_fn(Task) -> Option<Seq<Binary64>>,
    f: spec_fn(Elementary) -> Binary64,
) -> Option<SbplResult> {
    match prepared(bands, c) {
        Prepared::Empty => None,
        Prepared::Unfittable(result) => Some(result),
        Prepared::Ready(s) => Some(fitted(s, c, sown, next, suggest, f)),
    }
}

/// Where bands are enough to be fitted, their restarts have what a search needs.
pub open spec fn may_fit_bands(bands: Map<Seq<char>, Series>, c: PsoConfig) -> bool {
    prepared(bands, c) is Ready ==> may_fit(prepared(bands, c)->Ready_0, c)
}

/// Fits the model to multi-band data. Bands without a known effective frequency
/// are skipped.
pub fn fit_sbpl<
    R,
    S: Fn(u64) -> R,
    D: Fn(&R, Draw) -> (Binary64, R),
    F: Fn(&ScaledCost, &Vec<Binary64>) -> Option<Vec<Binary64>>,
    M: Fn(Elementary) -> Binary64,
>(
    bands: &BandMap,
    config: &PsoConfig,
    seeded: &S,
    draw: &D,
    minimise: &F,
    math: &M,
) -> (r: Option<SbplResult>)
    requires
        bands_complete(bands@),
        may_fit_bands(bands@, *config),
        is_seeding(*seeded),
        is_generator(*draw),
        is_minimiser(*minimise),
        is_function(*math),
    ensures
        r == fitted_bands(
            bands@,
            *config,
            seeds(*seeded),
            stream(*draw),
            suggestions(*minimise),
            answers(*math),
        ),
{
    match prepare_source(bands, config) {
        Preparation::Empty => None,
        Preparation::Unfittable(result) => Some(result),
        Preparation::Ready(prep) => Some(
            fit_prepared(&prep, config, seeded, draw, minimise, math),
        ),
    }
}

/// A source that is ready to fit has room to search exactly where the configured
/// slopes, the break time and the onset have room.
pub proof fn law_room_to_search(bands: Map<Seq<char>, Series>, c: PsoConfig)
    requires
        prepared(bands, c) is Ready,
    ensures
        ({
            let s = prepared(bands, c)->Ready_0;
            searchable(s.lower, s.upper) <==> {
                &&& c.alpha1_min.lt(c.alpha1_max)
                &&& c.alpha2_min.lt(c.alpha2_max)
                &&& s.lower[5].lt(s.upper[5])
                &&& s.lower[6].lt(s.upper[6])
            }
        }),
{
    let s = prepared(bands, c)->Ready_0;
    let room = |d: int| s.lower[d].lt(s.upper[d]);
    assert(room(2) && room(3) && room(4));
    if searchable(s.lower, s.upper) {
        assert(s.lower[0].lt(s.upper[0]));
        assert(s.lower[1].lt(s.upper[1]));
        assert(s.lower[5].lt(s.upper[5]));
        assert(s.lower[6].lt(s.upper[6]));
    }
}

/// On the default break times, and slopes in order, a source that is ready to fit
/// has room to search, as long as 1% of its span is below 10 000 days and its first
/// observation no further than 2^1018 days from zero.
pub proof fn law_default_sources_have_room(bands: Map<Seq<char>, Series>, c: PsoConfig)
    requires
        prepared(bands, c) is Ready,
        c.alpha1_min.lt(c.alpha1_max),
        c.alpha2_min.lt(c.alpha2_max),
        c.tb_lower is None,
        c.tb_upper is None,
        ({
            let rows = usable_rows(bands, N_KNOWN as nat);
            let span = latest(rows).minus(earliest(rows));
            (Binary64 { bits: HUNDREDTH }).times(span).lt(Binary64 { bits: TEN_THOUSAND })
        }),
        (prepared(bands, c)->Ready_0).t_ref.step() <= MODERATE,
    ensures
        ({
            let s = prepared(bands, c)->Ready_0;
            searchable(s.lower, s.upper)
        }),
        c.n_particles > 0 ==> may_fit_bands(bands, c),
{
    law_default_break_times_have_room(bands, c);
    law_onset_has_room(bands, c);
    law_room_to_search(bands, c);
}

/// A fit is missing only where there is no band at all.
pub proof fn law_no_fit_without_bands<R>(
    bands: Map<Seq<char>, Series>,
    c: PsoConfig,
    sown: spec_fn(u64) -> R,
    next: spec_fn(R, Draw) -> (Binary64, R),
    suggest: spec_fn(Task) -> Option<Seq<Binary64>>,
    f: spec_fn(Elementary) -> Binary64,
)
    ensures
        fitted_bands(bands, c, sown, next, suggest, f) is None <==> bands == Map::<
            Seq<char>,
            Series,
        >::empty(),
{
}

/// On fewer than seven usable observations or two bands the result has no fit.
pub proof fn law_too_little_data_gives_no_fit<R>(
    bands: Map<Seq<char>, Series>,
    c: PsoConfig,
    sown: spec_fn(u64) -> R,
    next: spec_fn(R, Draw) -> (Binary64, R),
    suggest: spec_fn(Task) -> Option<Seq<Binary64>>,
    f: spec_fn(Elementary) -> Binary64,
)
    requires
        bands != Map::<Seq<char>, Series>::empty(),
        usable_rows(bands, N_KNOWN as nat).len() < MIN_OBS || bands_present(bands, N_KNOWN as nat)
            < MIN_BANDS,
    ensures
        fitted_bands(bands, c, sown, next, suggest, f) == Some(
            SbplResult::empty(
                usable_rows(bands, N_KNOWN as nat).len() as usize,
                bands_present(bands, N_KNOWN as nat) as usize,
            ),
        ),
{
}

/// A result counts the observations and bands of its source, whatever the
/// restarts found.
pub proof fn law_counts_are_carried(
    s: Source,
    restarts: Seq<(Seq<Binary64>, Binary64)>,
    f: spec_fn(Elementary) -> Binary64,
)
    ensures
        assembled(s, restarts, f).n_obs == s.n_obs,
        assembled(s, restarts, f).n_bands == s.n_bands,
{
}

/// The leading restart is one of the restarts and none has a lower cost, unless
/// no restart has a cost below infinity.
pub proof fn law_leading_restart(
    restarts: Seq<(Seq<Binary64>, Binary64)>,
    lower: Seq<Binary64>,
)
    ensures
        ({
            let best = leading(restarts, lower);
            &&& restarts.contains(best) || best == (lower, Binary64 { bits: INFINITY })
            &&& forall|i: int| 0 <= i < restarts.len() ==> !(#[trigger] restarts[i]).1.lt(best.1)
        }),
    decreases restarts.len(),
{
    if restarts.len() > 0 {
        let before = restarts.drop_last();
        law_leading_restart(before, lower);
        let was = leading(before, lower);
        if before.contains(was) {
            let i = choose|i: int| 0 <= i < before.len() && before[i] == was;
            assert(restarts[i] == was);
        }
        assert(restarts[restarts.len() - 1] == restarts.last());
        assert forall|i: int| 0 <= i < restarts.len() implies !(#[trigger] restarts[i]).1.lt(
            leading(restarts, lower).1,
        ) by {
            if i < before.len() {
                assert(!before[i].1.lt(was.1));
            }
        }
    }
}

/// What a filter keeps was there.
proof fn lemma_kept_was_there<A>(all: Seq<A>, test: spec_fn(A) -> bool, j: int)
    requires
        0 <= j < all.filter(test).len(),
    ensures
        all.contains(all.filter(test)[j]),
    decreases all.len(),
{
    reveal(Seq::filter);
    if all.len() > 0 {
        let before = all.drop_last();
        if j < before.filter(test).len() {
            lemma_kept_was_there(before, test, j);
            let i = choose|i: int| 0 <= i < before.len() && before[i] == before.filter(test)[j];
            assert(all[i] == all.filter(test)[j]);
        } else {
            assert(all[all.len() - 1] == all.filter(test)[j]);
        }
    }
}

/// The reported reduced chi-squared is finite and that of the best restart: no
/// restart with a number for every parameter has a lower cost.
pub proof fn law_reported_cost_is_least(
    s: Source,
    restarts: Seq<(Seq<Binary64>, Binary64)>,
    f: spec_fn(Elementary) -> Binary64,
)
    requires
        assembled(s, restarts, f).reduced_chi2 is Some,
    ensures
        ({
            let least = assembled(s, restarts, f).reduced_chi2->0;
            &&& least.is_finite()
            &&& exists|i: int|
                0 <= i < restarts.len() && (#[trigger] restarts[i]).0.len() == N_PARAMS
                    && restarts[i].1 == least
            &&& forall|i: int|
                0 <= i < restarts.len() && (#[trigger] restarts[i]).0.len() == N_PARAMS
                    ==> !restarts[i].1.lt(least)
        }),
{
    broadcast use vstd::seq_lib::group_filter_ensures;

    let test = |r: (Seq<Binary64>, Binary64)| r.0.len() == N_PARAMS;
    let kept = whole(restarts);
    let best = leading(kept, s.lower);
    law_leading_restart(kept, s.lower);
    assert(best != (s.lower, Binary64 { bits: INFINITY }));
    let j = choose|j: int| 0 <= j < kept.len() && kept[j] == best;
    lemma_kept_was_there(restarts, test, j);
    assert(test(kept[j]));
    let i = choose|i: int| 0 <= i < restarts.len() && restarts[i] == best;
    assert(restarts[i].0.len() == N_PARAMS && restarts[i].1 == best.1);
    assert forall|i: int|
        0 <= i < restarts.len() && (#[trigger] restarts[i]).0.len() == N_PARAMS implies !restarts[i].1.lt(
        best.1,
    ) by {
        assert(test(restarts[i]));
        assert(kept.contains(restarts[i]));
        let k = choose|k: int| 0 <= k < kept.len() && kept[k] == restarts[i];
        assert(!kept[k].1.lt(best.1));
    }
}

/// A square root of a number without a sign has none.
pub open spec fn roots_have_no_sign(f: spec_fn(Elementary) -> Binary64) -> bool {
    forall|x: Binary64|
        !x.negative() ==> !(#[trigger] f(Elementary::Sqrt(x))).negative()
}

proof fn lemma_spread_has_no_sign(
    rows: Seq<Seq<Binary64>>,
    i: int,
    f: spec_fn(Elementary) -> Binary64,
)
    requires
        roots_have_no_sign(f),
    ensures
        !spread(rows, i, f).negative(),
{
    let n = Binary64::of_count(rows.len() as u64);
    let mean = column_sum(rows, i, rows.len()).over(n);
    lemma_squares_have_no_sign(rows, i, mean, rows.len());
    law_counts_have_no_sign(rows.len() as u64);
    law_signs_are_kept(squares_sum(rows, i, mean, rows.len()), n);
}

proof fn lemma_squares_have_no_sign(
    rows: Seq<Seq<Binary64>>,
    i: int,
    mean: Binary64,
    n: nat,
)
    ensures
        !squares_sum(rows, i, mean, n).negative(),
    decreases n,
{
    if n > 0 {
        let off = rows[n - 1][i].minus(mean);
        lemma_squares_have_no_sign(rows, i, mean, (n - 1) as nat);
        law_signs_are_kept(off, off);
        law_signs_are_kept(squares_sum(rows, i, mean, (n - 1) as nat), off.times(off));
    }
}

/// An uncertainty that is reported is finite and not negative.
pub open spec fn sound_error(e: Option<Binary64>) -> bool {
    e is Some ==> (e->0).is_finite() && Binary64::zero().le(e->0)
}

/// Reported uncertainties are finite and not negative.
pub proof fn law_errors_are_not_negative(
    s: Source,
    restarts: Seq<(Seq<Binary64>, Binary64)>,
    f: spec_fn(Elementary) -> Binary64,
)
    requires
        roots_have_no_sign(f),
    ensures
        sound_error(assembled(s, restarts, f).alpha1_err),
        sound_error(assembled(s, restarts, f).alpha2_err),
        sound_error(assembled(s, restarts, f).beta_err),
        sound_error(assembled(s, restarts, f).logd_err),
        sound_error(assembled(s, restarts, f).loga_err),
        sound_error(assembled(s, restarts, f).tb_err),
        sound_error(assembled(s, restarts, f).t0_err),
{
    let shift = f(Elementary::Log10(s.max_flux));
    let rows = whole(restarts).map_values(|r: (Seq<Binary64>, Binary64)| physical(r.0, shift));
    lemma_spread_has_no_sign(rows, 0, f);
    lemma_spread_has_no_sign(rows, 1, f);
    lemma_spread_has_no_sign(rows, 2, f);
    lemma_spread_has_no_sign(rows, 3, f);
    lemma_spread_has_no_sign(rows, 4, f);
    lemma_spread_has_no_sign(rows, 5, f);
    lemma_spread_has_no_sign(rows, 6, f);
}

/// Every restart of a fit reports the cost of the parameters it reports.
pub proof fn law_restarts_are_truthful<R>(
    s: Source,
    c: PsoConfig,
    g: R,
    next: spec_fn(R, Draw) -> (Binary64, R),
    suggest: spec_fn(Task) -> Option<Seq<Binary64>>,
    f: spec_fn(Elementary) -> Binary64,
    n: nat,
)
    requires
        c.n_particles > 0,
    ensures
        ({
            let restarts = restarted(s, c, g, next, suggest, f, n).0;
            &&& restarts.len() == n
            &&& forall|i: int|
                0 <= i < n ==> (#[trigger] restarts[i]).1 == source_cost(s, f)(restarts[i].0)
        }),
    decreases n,
{
    if n > 0 {
        law_restarts_are_truthful(s, c, g, next, suggest, f, (n - 1) as nat);
        let so_far = restarted(s, c, g, next, suggest, f, (n - 1) as nat);
        law_search_is_truthful(
            source_cost(s, f),
            s.lower,
            s.upper,
            so_far.1,
            next,
            c.n_particles as nat,
            c.n_iters as nat,
        );
        let end = searched(
            source_cost(s, f),
            s.lower,
            s.upper,
            so_far.1,
            next,
            c.n_particles as nat,
            c.n_iters as nat,
        );
        law_polishing_never_worsens(
            observations_of(s),
            logarithms_of(s, f),
            end.lead,
            end.lead_cost,
            s.lower,
            s.upper,
            suggest,
            f,
        );
        let all = restarted(s, c, g, next, suggest, f, n).0;
        assert forall|i: int| 0 <= i < n implies (#[trigger] all[i]).1 == source_cost(s, f)(
            all[i].0,
        ) by {
            if i < n - 1 {
                assert(all[i] == so_far.0[i]);
            }
        }
    }
}

/// The reduced chi-squared of a fit, where it is reported, is finite and not
/// negative.
pub proof fn law_reduced_chi2_is_not_negative<R>(
    s: Source,
    c: PsoConfig,
    sown: spec_fn(u64) -> R,
    next: spec_fn(R, Draw) -> (Binary64, R),
    suggest: spec_fn(Task) -> Option<Seq<Binary64>>,
    f: spec_fn(Elementary) -> Binary64,
)
    requires
        c.n_particles > 0,
    ensures
        sound_error(fitted(s, c, sown, next, suggest, f).reduced_chi2),
{
    let restarts = restarted(s, c, sown(c.seed), next, suggest, f, c.n_restarts as nat).0;
    if assembled(s, restarts, f).reduced_chi2 is Some {
        law_reported_cost_is_least(s, restarts, f);
        law_restarts_are_truthful(
            s,
            c,
            sown(c.seed),
            next,
            suggest,
            f,
            c.n_restarts as nat,
        );
        let least = assembled(s, restarts, f).reduced_chi2->0;
        let i = choose|i: int|
            0 <= i < restarts.len() && (#[trigger] restarts[i]).0.len() == N_PARAMS
                && restarts[i].1 == least;
        law_cost_is_not_negative(
            observations_of(s),
            logarithms_of(s, f),
            restarts[i].0,
            f,
        );
    }
}

/// The parameters of every restart lie between the bounds.
pub proof fn law_restarts_stay_in_bounds<R>(
    s: Source,
    c: PsoConfig,
    g: R,
    next: spec_fn(R, Draw) -> (Binary64, R),
    suggest: spec_fn(Task) -> Option<Seq<Binary64>>,
    f: spec_fn(Elementary) -> Binary64,
    n: nat,
)
    requires
        c.n_particles > 0,
        searchable(s.lower, s.upper),
        moderate(s.lower, s.upper),
        draws_in_range(next),
        suggests_numbers(suggest),
    ensures
        ({
            let restarts = restarted(s, c, g, next, suggest, f, n).0;
            &&& restarts.len() == n
            &&& forall|i: int|
                0 <= i < n ==> inside_rounded((#[trigger] restarts[i]).0, s.lower, s.upper)
        }),
    decreases n,
{
    if n > 0 {
        law_restarts_stay_in_bounds(s, c, g, next, suggest, f, (n - 1) as nat);
        let so_far = restarted(s, c, g, next, suggest, f, (n - 1) as nat);
        let count = c.n_particles as nat;
        let sweeps = c.n_iters as nat;
        let cost = source_cost(s, f);
        law_search_reports_numbers_in_bounds(cost, s.lower, s.upper, so_far.1, next, count, sweeps);
        let end = searched(cost, s.lower, s.upper, so_far.1, next, count, sweeps);
        law_polishing_stays_in_bounds(
            observations_of(s),
            logarithms_of(s, f),
            end.lead,
            end.lead_cost,
            s.lower,
            s.upper,
            suggest,
            f,
        );
        let all = restarted(s, c, g, next, suggest, f, n).0;
        assert forall|i: int| 0 <= i < n implies inside_rounded(
            (#[trigger] all[i]).0,
            s.lower,
            s.upper,
        ) by {
            if i < n - 1 {
                assert(all[i] == so_far.0[i]);
            }
        }
    }
}

/// A reported parameter is a number between its bounds, the upper one counting as
/// it stands or as the lower one plus the rounded span.
pub open spec fn reported_between(v: Option<Binary64>, low: Binary64, high: Binary64) -> bool {
    &&& v is Some
    &&& low.le(v->0)
    &&& (v->0).le(high) || (v->0).le(low.plus(high.minus(low)))
}

/// A fit with a restart reports every parameter but the amplitude, which is in
/// physical units, between the bounds it was searched in.
pub proof fn law_fit_stays_in_bounds<R>(
    s: Source,
    c: PsoConfig,
    sown: spec_fn(u64) -> R,
    next: spec_fn(R, Draw) -> (Binary64, R),
    suggest: spec_fn(Task) -> Option<Seq<Binary64>>,
    f: spec_fn(Elementary) -> Binary64,
)
    requires
        c.n_particles > 0,
        c.n_restarts > 0,
        s.lower.len() == N_PARAMS,
        searchable(s.lower, s.upper),
        moderate(s.lower, s.upper),
        draws_in_range(next),
        suggests_numbers(suggest),
    ensures
        ({
            let r = fitted(s, c, sown, next, suggest, f);
            &&& reported_between(r.alpha1, s.lower[0], s.upper[0])
            &&& reported_between(r.alpha2, s.lower[1], s.upper[1])
            &&& reported_between(r.beta, s.lower[2], s.upper[2])
            &&& reported_between(r.logd, s.lower[3], s.upper[3])
            &&& reported_between(r.tb, s.lower[5], s.upper[5])
            &&& reported_between(r.t0, s.lower[6], s.upper[6])
        }),
{
    let n = c.n_restarts as nat;
    law_restarts_stay_in_bounds(s, c, sown(c.seed), next, suggest, f, n);
    let restarts = restarted(s, c, sown(c.seed), next, suggest, f, n).0;
    assert forall|i: int| 0 <= i < restarts.len() implies (#[trigger] restarts[i]).0.len()
        == N_PARAMS by {
        assert(inside_rounded(restarts[i].0, s.lower, s.upper));
    }
    let row = lemma_reported_row(s, restarts, f);
    assert(inside_rounded(row, s.lower, s.upper)) by {
        if row == s.lower {
            lemma_lower_is_inside(s.lower, s.upper);
        } else {
            let i = choose|i: int| 0 <= i < restarts.len() && (#[trigger] restarts[i]).0 == row;
            assert(inside_rounded(restarts[i].0, s.lower, s.upper));
        }
    }
    assert forall|d: int| 0 <= d < N_PARAMS implies reported_between(
        finite(#[trigger] row[d]),
        s.lower[d],
        s.upper[d],
    ) by {
        assert(s.lower[d].step() <= MODERATE);
        lemma_moderate_span(s.lower[d], s.upper[d]);
    }
}

/// Lower bounds in order are between the bounds.
pub proof fn lemma_lower_is_inside(lower: Seq<Binary64>, upper: Seq<Binary64>)
    requires
        lower.len() == N_PARAMS,
        searchable(lower, upper) || ordered(lower, upper),
    ensures
        inside_rounded(lower, lower, upper),
{
    assert forall|d: int| 0 <= d < N_PARAMS implies (#[trigger] lower[d]).le(lower[d])
        && lower[d].le(upper[d]) by {
        assert(lower[d].lt(upper[d]) || lower[d].le(upper[d]));
    }
}

/// The row that a result reports, up to the amplitude: one of the restarts, or the
/// lower bounds.
pub proof fn lemma_reported_row(
    s: Source,
    restarts: Seq<(Seq<Binary64>, Binary64)>,
    f: spec_fn(Elementary) -> Binary64,
) -> (row: Seq<Binary64>)
    requires
        restarts.len() > 0,
        s.lower.len() == N_PARAMS,
        forall|i: int| 0 <= i < restarts.len() ==> (#[trigger] restarts[i]).0.len() == N_PARAMS,
    ensures
        row == s.lower || exists|i: int|
            0 <= i < restarts.len() && (#[trigger] restarts[i]).0 == row,
        ({
            let r = assembled(s, restarts, f);
            &&& r.alpha1 == finite(row[0])
            &&& r.alpha2 == finite(row[1])
            &&& r.beta == finite(row[2])
            &&& r.logd == finite(row[3])
            &&& r.tb == finite(row[5])
            &&& r.t0 == finite(row[6])
        }),
{
    broadcast use vstd::seq_lib::group_filter_ensures;

    let test = |r: (Seq<Binary64>, Binary64)| r.0.len() == N_PARAMS;
    let kept = whole(restarts);
    assert(restarts[0].0.len() == N_PARAMS);
    assert(test(restarts[0]) && kept.contains(restarts[0]));
    let best = leading(kept, s.lower);
    law_leading_restart(kept, s.lower);
    assert(best.0.len() == N_PARAMS && (best.0 == s.lower || restarts.contains(best))) by {
        if kept.contains(best) {
            let j = choose|j: int| 0 <= j < kept.len() && kept[j] == best;
            lemma_kept_was_there(restarts, test, j);
        }
    }
    if restarts.contains(best) {
        let i = choose|i: int| 0 <= i < restarts.len() && restarts[i] == best;
        assert(restarts[i].0 == best.0);
    }
    best.0
}

} // verus!

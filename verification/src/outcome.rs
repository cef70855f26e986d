//! What polishing and reporting give, told by what goes in.
use crate::binary64::Binary64;
use crate::cost::{objective, SbplObs};
use crate::elementary::Elementary;
use crate::fit::{
    assembled, column_sum, fitted, fitted_bands, leading, restarted, spread, squares_sum, whole,
};
use crate::generator::Draw;
use crate::light_curve::Series;
use crate::numbers::{INFINITY, N_PARAMS, ONE};
use crate::polish::{refined, scaled_down, scaled_gradient, spans, unscaled, Task};
use crate::prepare::prepared;
use crate::source::{Prepared, PsoConfig, SbplResult, Source};
use vstd::prelude::*;

verus! {

/// A point of the unit cube stands for the point as far between the bounds, each
/// coordinate by itself and none beyond zero and one; along a coordinate beyond them
/// the gradient is zero, along the others that of the objective times the span.
pub proof fn law_unit_cube(
    lower: Seq<Binary64>,
    scale: Seq<Binary64>,
    grad: Seq<Binary64>,
    xs: Seq<Binary64>,
)
    ensures
        unscaled(lower, scale, xs).len() == xs.len(),
        scaled_gradient(grad, scale, xs).len() == xs.len(),
        forall|i: int|
            0 <= i < xs.len() ==> {
                let x = xs[i];
                let zero = Binary64::zero();
                let one = Binary64 { bits: ONE };
                let r = #[trigger] unscaled(lower, scale, xs)[i];
                &&& x.lt(zero) ==> r == lower[i].plus(zero.times(scale[i]))
                &&& one.lt(x) ==> r == lower[i].plus(one.times(scale[i]))
                &&& !x.lt(zero) && !one.lt(x) ==> r == lower[i].plus(x.times(scale[i]))
            },
        forall|i: int|
            0 <= i < xs.len() ==> {
                let x = xs[i];
                let g = #[trigger] scaled_gradient(grad, scale, xs)[i];
                let within = !x.is_nan() && !x.lt(Binary64::zero()) && !(Binary64 { bits: ONE }).lt(
                    x,
                );
                &&& within ==> g == grad[i].times(scale[i])
                &&& !within ==> g == Binary64::zero()
            },
{
}

/// Polishing, step by step. The minimiser gets the observations and their
/// frequencies' logarithms, the lower bounds, the spans, and where to start: how far
/// between its bounds each parameter is, kept between zero and one. What it suggests
/// stands for a point between the bounds, which is taken where it has all the
/// parameters and its cost is finite and below that of the start; else, and where
/// nothing is suggested, the start stays.
pub proof fn law_polishing_step_by_step(
    obs: Seq<SbplObs>,
    ln_nu: Seq<Binary64>,
    start: Seq<Binary64>,
    start_cost: Binary64,
    lower: Seq<Binary64>,
    upper: Seq<Binary64>,
    suggest: spec_fn(Task) -> Option<Seq<Binary64>>,
    f: spec_fn(Elementary) -> Binary64,
    task: Task,
    best: Seq<Binary64>,
)
    requires
        task.obs == obs,
        task.log_frequencies == ln_nu,
        task.lower == lower,
        task.scale.len() == N_PARAMS,
        task.start.len() == N_PARAMS,
        forall|i: int|
            0 <= i < N_PARAMS ==> #[trigger] task.scale[i] == upper[i].minus(lower[i]),
        forall|i: int|
            0 <= i < N_PARAMS ==> #[trigger] task.start[i] == start[i].minus(lower[i]).over(
                upper[i].minus(lower[i]),
            ).clamp(Binary64::zero(), Binary64 { bits: ONE }),
        best.len() == N_PARAMS,
        suggest(task) matches Some(xs) ==> forall|i: int|
            0 <= i < N_PARAMS ==> #[trigger] best[i] == lower[i].plus(
                xs[i].clamp(Binary64::zero(), Binary64 { bits: ONE }).times(
                    upper[i].minus(lower[i]),
                ),
            ),
    ensures
        ({
            let r = refined(obs, ln_nu, start, start_cost, lower, upper, suggest, f);
            let cost = objective(obs, ln_nu, best, f).0;
            let taken = suggest(task) is Some && (suggest(task)->0).len() == N_PARAMS && cost.lt(
                start_cost,
            ) && cost.is_finite();
            &&& taken ==> r == (best, cost)
            &&& !taken ==> r == (start, start_cost)
        }),
{
    let scale = spans(lower, upper);
    assert(task.scale =~= scale) by {
        assert forall|i: int| 0 <= i < N_PARAMS implies task.scale[i] == scale[i] by {
            assert(task.scale[i] == upper[i].minus(lower[i]));
        }
    }
    assert(task.start =~= scaled_down(start, lower, scale)) by {
        assert forall|i: int| 0 <= i < N_PARAMS implies task.start[i] == scaled_down(
            start,
            lower,
            scale,
        )[i] by {
            assert(task.start[i] == start[i].minus(lower[i]).over(upper[i].minus(lower[i])).clamp(
                Binary64::zero(),
                Binary64 { bits: ONE },
            ));
        }
    }
    if suggest(task) is Some && (suggest(task)->0).len() == N_PARAMS {
        let xs = suggest(task)->0;
        assert forall|i: int| 0 <= i < N_PARAMS implies best[i] == unscaled(
            lower,
            scale,
            xs,
        )[i] by {
            assert(best[i] == lower[i].plus(
                xs[i].clamp(Binary64::zero(), Binary64 { bits: ONE }).times(
                    upper[i].minus(lower[i]),
                ),
            ));
        }
        assert(best =~= unscaled(lower, scale, xs));
    }
}

/// The reported error of a parameter is its standard deviation over the restarts: the
/// square root of the mean square of what each is off the mean. Sums are made row by
/// row, and divided by the number of rows.
pub proof fn law_spread_is_a_standard_deviation(
    rows: Seq<Seq<Binary64>>,
    j: int,
    f: spec_fn(Elementary) -> Binary64,
    sums: Seq<Binary64>,
    mean: Binary64,
    squares: Seq<Binary64>,
)
    requires
        sums[0] == Binary64::zero(),
        forall|i: int| 0 <= i < rows.len() ==> sums[i + 1] == sums[i].plus(#[trigger] rows[i][j]),
        mean == sums[rows.len() as int].over(Binary64::of_count(rows.len() as u64)),
        squares[0] == Binary64::zero(),
        forall|i: int|
            0 <= i < rows.len() ==> squares[i + 1] == squares[i].plus(
                (#[trigger] rows[i][j]).minus(mean).times(rows[i][j].minus(mean)),
            ),
    ensures
        spread(rows, j, f) == f(
            Elementary::Sqrt(
                squares[rows.len() as int].over(Binary64::of_count(rows.len() as u64)),
            ),
        ),
{
    lemma_column(rows, j, sums, rows.len());
    lemma_squares(rows, j, mean, squares, rows.len());
}

proof fn lemma_column(rows: Seq<Seq<Binary64>>, j: int, sums: Seq<Binary64>, n: nat)
    requires
        n <= rows.len(),
        sums[0] == Binary64::zero(),
        forall|i: int| 0 <= i < rows.len() ==> sums[i + 1] == sums[i].plus(#[trigger] rows[i][j]),
    ensures
        column_sum(rows, j, n) == sums[n as int],
    decreases n,
{
    if n > 0 {
        lemma_column(rows, j, sums, (n - 1) as nat);
        assert(sums[n - 1 + 1] == sums[n - 1].plus(rows[n - 1][j]));
    }
}

proof fn lemma_squares(
    rows: Seq<Seq<Binary64>>,
    j: int,
    mean: Binary64,
    squares: Seq<Binary64>,
    n: nat,
)
    requires
        n <= rows.len(),
        squares[0] == Binary64::zero(),
        forall|i: int|
            0 <= i < rows.len() ==> squares[i + 1] == squares[i].plus(
                (#[trigger] rows[i][j]).minus(mean).times(rows[i][j].minus(mean)),
            ),
    ensures
        squares_sum(rows, j, mean, n) == squares[n as int],
    decreases n,
{
    if n > 0 {
        lemma_squares(rows, j, mean, squares, (n - 1) as nat);
        assert(squares[n - 1 + 1] == squares[n - 1].plus(
            rows[n - 1][j].minus(mean).times(rows[n - 1][j].minus(mean)),
        ));
    }
}

/// Where every row is whole, all of them are kept.
proof fn lemma_all_whole(restarts: Seq<(Seq<Binary64>, Binary64)>)
    requires
        forall|i: int| 0 <= i < restarts.len() ==> (#[trigger] restarts[i]).0.len() == N_PARAMS,
    ensures
        whole(restarts) == restarts,
    decreases restarts.len(),
{
    reveal(Seq::filter);
    if restarts.len() > 0 {
        assert forall|i: int| 0 <= i < restarts.len() - 1 implies (
        #[trigger] restarts.drop_last()[i]).0.len() == N_PARAMS by {
            assert(restarts[i].0.len() == N_PARAMS);
        }
        lemma_all_whole(restarts.drop_last());
        assert(restarts.last() == restarts[restarts.len() - 1]);
        assert(restarts.drop_last().push(restarts.last()) =~= restarts);
    } else {
        assert(whole(restarts) =~= restarts);
    }
}

/// The leading restart is the first of those with the least cost.
proof fn lemma_first_of_the_least(
    restarts: Seq<(Seq<Binary64>, Binary64)>,
    lower: Seq<Binary64>,
    k: int,
)
    requires
        0 <= k < restarts.len(),
        restarts[k].1.lt(Binary64 { bits: INFINITY }),
        forall|i: int| 0 <= i < restarts.len() ==> !(#[trigger] restarts[i]).1.lt(restarts[k].1),
        forall|i: int|
            0 <= i < k ==> (#[trigger] restarts[i]).1.is_nan() || restarts[k].1.lt(restarts[i].1),
    ensures
        leading(restarts, lower) == restarts[k],
    decreases restarts.len(),
{
    let before = restarts.drop_last();
    if k < restarts.len() - 1 {
        assert forall|i: int| 0 <= i < before.len() implies !(#[trigger] before[i]).1.lt(
            before[k].1,
        ) by {
            assert(restarts[i] == before[i]);
        }
        assert forall|i: int| 0 <= i < k implies (#[trigger] before[i]).1.is_nan()
            || before[k].1.lt(before[i].1) by {
            assert(restarts[i] == before[i]);
        }
        lemma_first_of_the_least(before, lower, k);
        assert(!restarts[restarts.len() - 1].1.lt(restarts[k].1));
    } else {
        crate::fit::law_leading_restart(before, lower);
        let was = leading(before, lower);
        if before.contains(was) {
            let i = choose|i: int| 0 <= i < before.len() && before[i] == was;
            assert(restarts[i] == was);
            lemma_leading_is_a_number(before, lower);
        }
    }
}

/// The cost of the leading restart is a number.
proof fn lemma_leading_is_a_number(
    restarts: Seq<(Seq<Binary64>, Binary64)>,
    lower: Seq<Binary64>,
)
    ensures
        !leading(restarts, lower).1.is_nan(),
    decreases restarts.len(),
{
    if restarts.len() > 0 {
        lemma_leading_is_a_number(restarts.drop_last(), lower);
    }
}

/// What a fit reports of its restarts. The parameters and the cost are those of the
/// first restart of least cost, the amplitude moved by the decimal logarithm of what
/// the fluxes were divided by; the errors are the spreads over all the restarts, moved
/// likewise; each number is reported where it is finite. Number of observations and of
/// bands are those of the source.
pub proof fn law_report_is_of_the_best_restart(
    s: Source,
    restarts: Seq<(Seq<Binary64>, Binary64)>,
    f: spec_fn(Elementary) -> Binary64,
    k: int,
    rows: Seq<Seq<Binary64>>,
)
    requires
        0 <= k < restarts.len(),
        restarts[k].1.lt(Binary64 { bits: INFINITY }),
        forall|i: int| 0 <= i < restarts.len() ==> (#[trigger] restarts[i]).0.len() == N_PARAMS,
        forall|i: int| 0 <= i < restarts.len() ==> !(#[trigger] restarts[i]).1.lt(restarts[k].1),
        forall|i: int|
            0 <= i < k ==> (#[trigger] restarts[i]).1.is_nan() || restarts[k].1.lt(restarts[i].1),
        rows.len() == restarts.len(),
        forall|i: int|
            0 <= i < rows.len() ==> #[trigger] rows[i] == restarts[i].0.update(
                4,
                restarts[i].0[4].plus(f(Elementary::Log10(s.max_flux))),
            ),
    ensures
        ({
            let r = assembled(s, restarts, f);
            let p = rows[k];
            &&& r.alpha1 == if p[0].is_finite() { Some(p[0]) } else { None }
            &&& r.alpha2 == if p[1].is_finite() { Some(p[1]) } else { None }
            &&& r.beta == if p[2].is_finite() { Some(p[2]) } else { None }
            &&& r.logd == if p[3].is_finite() { Some(p[3]) } else { None }
            &&& r.loga == if p[4].is_finite() { Some(p[4]) } else { None }
            &&& r.tb == if p[5].is_finite() { Some(p[5]) } else { None }
            &&& r.t0 == if p[6].is_finite() { Some(p[6]) } else { None }
            &&& r.reduced_chi2 == if restarts[k].1.is_finite() { Some(restarts[k].1) } else { None }
            &&& r.n_obs == s.n_obs
            &&& r.n_bands == s.n_bands
        }),
        ({
            let r = assembled(s, restarts, f);
            let e = Seq::new(N_PARAMS as nat, |j: int| spread(rows, j, f));
            &&& r.alpha1_err == if e[0].is_finite() { Some(e[0]) } else { None }
            &&& r.alpha2_err == if e[1].is_finite() { Some(e[1]) } else { None }
            &&& r.beta_err == if e[2].is_finite() { Some(e[2]) } else { None }
            &&& r.logd_err == if e[3].is_finite() { Some(e[3]) } else { None }
            &&& r.loga_err == if e[4].is_finite() { Some(e[4]) } else { None }
            &&& r.tb_err == if e[5].is_finite() { Some(e[5]) } else { None }
            &&& r.t0_err == if e[6].is_finite() { Some(e[6]) } else { None }
        }),
{
    lemma_all_whole(restarts);
    lemma_first_of_the_least(restarts, s.lower, k);
    let shift = f(Elementary::Log10(s.max_flux));
    let moved = restarts.map_values(
        |r: (Seq<Binary64>, Binary64)| crate::fit::physical(r.0, shift),
    );
    assert(whole(restarts).map_values(
        |r: (Seq<Binary64>, Binary64)| crate::fit::physical(r.0, shift),
    ) == moved);
    assert forall|i: int| 0 <= i < rows.len() implies rows[i] == moved[i] by {
        assert(rows[i] == restarts[i].0.update(4, restarts[i].0[4].plus(shift)));
    }
    assert(rows =~= moved);
    assert(rows[k] == crate::fit::physical(restarts[k].0, shift));
}

/// A restart without a number for each parameter does not show in the report; without
/// restarts nothing is reported but the counts.
pub proof fn law_partial_restarts_do_not_show(
    s: Source,
    restarts: Seq<(Seq<Binary64>, Binary64)>,
    f: spec_fn(Elementary) -> Binary64,
    i: int,
    extra: (Seq<Binary64>, Binary64),
)
    requires
        0 <= i <= restarts.len(),
        extra.0.len() != N_PARAMS,
    ensures
        assembled(s, restarts.insert(i, extra), f) == assembled(s, restarts, f),
        ({
            let r = assembled(s, seq![], f);
            &&& r.alpha1 is None && r.alpha2 is None && r.beta is None && r.logd is None
            &&& r.loga is None && r.tb is None && r.t0 is None && r.reduced_chi2 is None
            &&& r.alpha1_err is None && r.alpha2_err is None && r.beta_err is None
            &&& r.logd_err is None && r.loga_err is None && r.tb_err is None && r.t0_err is None
            &&& r.n_obs == s.n_obs
            &&& r.n_bands == s.n_bands
        }),
{
    reveal(Seq::filter);
    lemma_partial_is_dropped(restarts, i, extra);
    assert(whole(seq![]).len() == 0);
}

proof fn lemma_partial_is_dropped(
    restarts: Seq<(Seq<Binary64>, Binary64)>,
    i: int,
    extra: (Seq<Binary64>, Binary64),
)
    requires
        0 <= i <= restarts.len(),
        extra.0.len() != N_PARAMS,
    ensures
        whole(restarts.insert(i, extra)) == whole(restarts),
    decreases restarts.len(),
{
    reveal(Seq::filter);
    let more = restarts.insert(i, extra);
    if i == restarts.len() {
        assert(more.drop_last() =~= restarts);
    } else {
        assert(more.drop_last() =~= restarts.drop_last().insert(i, extra));
        assert(more.last() == restarts.last());
        lemma_partial_is_dropped(restarts.drop_last(), i, extra);
    }
}

/// A fit reports the configured number of restarts, made with one generator sown from
/// the configured seed; a light curve is fitted where it can be prepared, and told by
/// its counts where there is too little of it.
pub proof fn law_fit_is_of_the_configured_restarts<R>(
    bands: Map<Seq<char>, Series>,
    s: Source,
    c: PsoConfig,
    sown: spec_fn(u64) -> R,
    next: spec_fn(R, Draw) -> (Binary64, R),
    suggest: spec_fn(Task) -> Option<Seq<Binary64>>,
    f: spec_fn(Elementary) -> Binary64,
)
    ensures
        fitted(s, c, sown, next, suggest, f) == assembled(
            s,
            restarted(s, c, sown(c.seed), next, suggest, f, c.n_restarts as nat).0,
            f,
        ),
        prepared(bands, c) is Empty ==> fitted_bands(bands, c, sown, next, suggest, f) is None,
        prepared(bands, c) matches Prepared::Unfittable(r) ==> fitted_bands(
            bands,
            c,
            sown,
            next,
            suggest,
            f,
        ) == Some(r),
        prepared(bands, c) matches Prepared::Ready(ready) ==> fitted_bands(
            bands,
            c,
            sown,
            next,
            suggest,
            f,
        ) == Some(
            assembled(
                ready,
                restarted(ready, c, sown(c.seed), next, suggest, f, c.n_restarts as nat).0,
                f,
            ),
        ),
{
}

/// A result without a fit holds its counts and nothing else.
pub proof fn law_result_without_a_fit(n_obs: usize, n_bands: usize)
    ensures
        ({
            let r = SbplResult::empty(n_obs, n_bands);
            &&& r.alpha1 is None && r.alpha2 is None && r.beta is None && r.logd is None
            &&& r.loga is None && r.tb is None && r.t0 is None && r.reduced_chi2 is None
            &&& r.alpha1_err is None && r.alpha2_err is None && r.beta_err is None
            &&& r.logd_err is None && r.loga_err is None && r.tb_err is None && r.t0_err is None
            &&& r.n_obs == n_obs
            &&& r.n_bands == n_bands
        }),
{
}

/// Where no restart has a cost below infinity, no reduced chi-squared is reported, and
/// the parameters are the lower bounds, the amplitude moved.
pub proof fn law_report_without_a_finite_cost(
    s: Source,
    restarts: Seq<(Seq<Binary64>, Binary64)>,
    f: spec_fn(Elementary) -> Binary64,
)
    requires
        restarts.len() > 0,
        s.lower.len() == N_PARAMS,
        forall|i: int| 0 <= i < restarts.len() ==> (#[trigger] restarts[i]).0.len() == N_PARAMS,
        forall|i: int|
            0 <= i < restarts.len() ==> !(#[trigger] restarts[i]).1.lt(Binary64 { bits: INFINITY }),
    ensures
        ({
            let r = assembled(s, restarts, f);
            let p = s.lower.update(4, s.lower[4].plus(f(Elementary::Log10(s.max_flux))));
            &&& r.alpha1 == if p[0].is_finite() { Some(p[0]) } else { None }
            &&& r.alpha2 == if p[1].is_finite() { Some(p[1]) } else { None }
            &&& r.beta == if p[2].is_finite() { Some(p[2]) } else { None }
            &&& r.logd == if p[3].is_finite() { Some(p[3]) } else { None }
            &&& r.loga == if p[4].is_finite() { Some(p[4]) } else { None }
            &&& r.tb == if p[5].is_finite() { Some(p[5]) } else { None }
            &&& r.t0 == if p[6].is_finite() { Some(p[6]) } else { None }
            &&& r.reduced_chi2 is None
        }),
{
    lemma_all_whole(restarts);
    lemma_none_leads(restarts, s.lower);
}

proof fn lemma_none_leads(restarts: Seq<(Seq<Binary64>, Binary64)>, lower: Seq<Binary64>)
    requires
        forall|i: int|
            0 <= i < restarts.len() ==> !(#[trigger] restarts[i]).1.lt(Binary64 { bits: INFINITY }),
    ensures
        leading(restarts, lower) == (lower, Binary64 { bits: INFINITY }),
    decreases restarts.len(),
{
    if restarts.len() > 0 {
        let before = restarts.drop_last();
        assert forall|i: int| 0 <= i < before.len() implies !(#[trigger] before[i]).1.lt(
            Binary64 { bits: INFINITY },
        ) by {
            assert(restarts[i] == before[i]);
        }
        lemma_none_leads(before, lower);
        assert(restarts.last() == restarts[restarts.len() - 1]);
    }
}

} // verus!

//! Polishing a search result with a local minimiser.
//!
//! The minimiser itself is supplied by the caller. It works in the unit cube:
//! all parameters are mapped to [0, 1] between their bounds, so that it sees a
//! well-conditioned problem.
use crate::binary64::{
    law_order_is_exact, law_signs_are_kept, lemma_negated_units, lemma_rounded_zero,
    lemma_units_positive, Binary64,
};
use crate::cost::{cost_function, objective, SbplCost, SbplObs};
use crate::elementary::{answers, is_function, Elementary};
use crate::ladder::{step_units, UNIT_EXPONENT};
use crate::magnitude::{
    law_adding_zero, law_difference_in_order, law_sums_are_ordered, lemma_one_is_unit,
    lemma_product_at_most, lemma_units_ordered,
};
use crate::numbers::{N_PARAMS, ONE};
use crate::search::cost_of;
use crate::swarm::{inside, lemma_moderate_span, moderate, ordered, MODERATE};
use vstd::arithmetic::power2::pow2;
use vstd::prelude::*;

verus! {

/// A point of the unit cube, between the bounds. Coordinates outside the cube
/// are brought back to its faces.
pub open spec fn unscaled(lower: Seq<Binary64>, scale: Seq<Binary64>, xs: Seq<Binary64>) -> Seq<
    Binary64,
> {
    Seq::new(
        xs.len(),
        |i: int|
            lower[i].plus(
                xs[i].clamp(Binary64::zero(), Binary64 { bits: ONE }).times(scale[i]),
            ),
    )
}

/// The gradient in the unit cube. The cost is flat in a coordinate that has
/// left the cube.
pub open spec fn scaled_gradient(
    grad: Seq<Binary64>,
    scale: Seq<Binary64>,
    xs: Seq<Binary64>,
) -> Seq<Binary64> {
    Seq::new(
        xs.len(),
        |i: int|
            if Binary64::zero().le(xs[i]) && xs[i].le(Binary64 { bits: ONE }) {
                grad[i].times(scale[i])
            } else {
                Binary64::zero()
            },
    )
}

/// The objective over the unit cube.
pub struct ScaledCost<'a> {
    pub inner: &'a SbplCost,
    pub lower: Vec<Binary64>,
    /// Upper bound less lower bound.
    pub scale: Vec<Binary64>,
}

impl<'a> ScaledCost<'a> {
    /// There is a bound and a scale for every parameter.
    pub open spec fn wf(&self) -> bool {
        self.lower.len() == N_PARAMS && self.scale.len() == N_PARAMS
    }

    /// The parameters that a point of the unit cube stands for.
    pub fn unscale(&self, xs: &Vec<Binary64>) -> (r: Vec<Binary64>)
        requires
            xs.len() <= self.lower.len(),
            xs.len() <= self.scale.len(),
        ensures
            r@ == unscaled(self.lower@, self.scale@, xs@),
    {
        let mut r: Vec<Binary64> = Vec::with_capacity(xs.len());
        let mut i: usize = 0;
        while i < xs.len()
            invariant
                i <= xs.len(),
                xs.len() <= self.lower.len(),
                xs.len() <= self.scale.len(),
                r.len() == i,
                forall|j: int|
                    0 <= j < i ==> #[trigger] r@[j] == unscaled(self.lower@, self.scale@, xs@)[j],
            decreases xs.len() - i,
        {
            let x: Binary64 = xs[i].clamp(Binary64::zero(), Binary64 { bits: ONE });
            r.push(self.lower[i].plus(x.times(self.scale[i])));
            i += 1;
        }
        assert(r@ =~= unscaled(self.lower@, self.scale@, xs@));
        r
    }

    /// The cost at a point of the unit cube.
    pub fn cost<M: Fn(Elementary) -> Binary64>(&self, xs: &Vec<Binary64>, math: &M) -> (r: Binary64)
        requires
            self.wf(),
            xs.len() == N_PARAMS,
            is_function(*math),
        ensures
            r == objective(
                self.inner.obs(),
                self.inner.log_frequencies(),
                unscaled(self.lower@, self.scale@, xs@),
                answers(*math),
            ).0,
    {
        self.inner.eval(&self.unscale(xs), math)
    }

    /// The gradient at a point of the unit cube.
    pub fn gradient<M: Fn(Elementary) -> Binary64>(&self, xs: &Vec<Binary64>, math: &M) -> (r: Vec<
        Binary64,
    >)
        requires
            self.wf(),
            xs.len() == N_PARAMS,
            is_function(*math),
        ensures
            r@ == scaled_gradient(
                objective(
                    self.inner.obs(),
                    self.inner.log_frequencies(),
                    unscaled(self.lower@, self.scale@, xs@),
                    answers(*math),
                ).1,
                self.scale@,
                xs@,
            ),
    {
        let (_, grad) = self.inner.eval_with_grad(&self.unscale(xs), math);
        let mut r: Vec<Binary64> = Vec::with_capacity(N_PARAMS);
        let mut i: usize = 0;
        while i < N_PARAMS
            invariant
                i <= N_PARAMS,
                self.wf(),
                xs.len() == N_PARAMS,
                grad.len() == N_PARAMS,
                r.len() == i,
                forall|j: int|
                    0 <= j < i ==> #[trigger] r@[j] == scaled_gradient(
                        grad@,
                        self.scale@,
                        xs@,
                    )[j],
            decreases N_PARAMS - i,
        {
            let x: Binary64 = xs[i];
            if Binary64::zero().le(x) && x.le(Binary64 { bits: ONE }) {
                r.push(grad[i].times(self.scale[i]));
            } else {
                r.push(Binary64::zero());
            }
            i += 1;
        }
        assert(r@ =~= scaled_gradient(grad@, self.scale@, xs@));
        r
    }
}

/// What a minimiser is asked: an objective over the unit cube, and where to
/// start.
#[verifier::ext_equal]
pub struct Task {
    pub obs: Seq<SbplObs>,
    pub log_frequencies: Seq<Binary64>,
    pub lower: Seq<Binary64>,
    pub scale: Seq<Binary64>,
    pub start: Seq<Binary64>,
}

/// The task that a call of a minimiser sets.
pub open spec fn task_of(scaled: ScaledCost, start: Seq<Binary64>) -> Task {
    Task {
        obs: scaled.inner.obs(),
        log_frequencies: scaled.inner.log_frequencies(),
        lower: scaled.lower@,
        scale: scaled.scale@,
        start,
    }
}

/// The numbers of a suggestion.
pub open spec fn numbers_of(answer: Option<Vec<Binary64>>) -> Option<Seq<Binary64>> {
    match answer {
        Some(xs) => Some(xs@),
        None => None,
    }
}

/// `minimise` answers every task, and the same task always alike: with a point
/// of the unit cube, or with nothing where it fails.
pub open spec fn is_minimiser<F: Fn(&ScaledCost, &Vec<Binary64>) -> Option<Vec<Binary64>>>(
    minimise: F,
) -> bool {
    &&& forall|p: &ScaledCost, x: &Vec<Binary64>| #[trigger] call_requires(minimise, (p, x))
    &&& forall|
        p1: &ScaledCost,
        x1: &Vec<Binary64>,
        y1: Option<Vec<Binary64>>,
        p2: &ScaledCost,
        x2: &Vec<Binary64>,
        y2: Option<Vec<Binary64>>,
    |
        #[trigger] call_ensures(minimise, (p1, x1), y1) && #[trigger] call_ensures(
            minimise,
            (p2, x2),
            y2,
        ) && task_of(*p1, x1@) == task_of(*p2, x2@) ==> numbers_of(y1) == numbers_of(y2)
}

/// `minimise` can come to that suggestion on that task.
pub open spec fn may_suggest<F: Fn(&ScaledCost, &Vec<Binary64>) -> Option<Vec<Binary64>>>(
    minimise: F,
    task: Task,
    answer: Option<Seq<Binary64>>,
) -> bool {
    exists|p: &ScaledCost, x: &Vec<Binary64>, y: Option<Vec<Binary64>>|
        #[trigger] call_ensures(minimise, (p, x), y) && task_of(*p, x@) == task && numbers_of(y)
            == answer
}

/// What `minimise` suggests.
pub open spec fn suggestions<F: Fn(&ScaledCost, &Vec<Binary64>) -> Option<Vec<Binary64>>>(
    minimise: F,
) -> spec_fn(Task) -> Option<Seq<Binary64>> {
    |task: Task| choose|answer: Option<Seq<Binary64>>| may_suggest(minimise, task, answer)
}

/// Upper bounds less lower bounds.
pub open spec fn spans(lower: Seq<Binary64>, upper: Seq<Binary64>) -> Seq<Binary64> {
    Seq::new(N_PARAMS as nat, |i: int| upper[i].minus(lower[i]))
}

/// The point of the unit cube that stands for the given parameters.
pub open spec fn scaled_down(
    start: Seq<Binary64>,
    lower: Seq<Binary64>,
    scale: Seq<Binary64>,
) -> Seq<Binary64> {
    Seq::new(
        N_PARAMS as nat,
        |i: int|
            start[i].minus(lower[i]).over(scale[i]).clamp(
                Binary64::zero(),
                Binary64 { bits: ONE },
            ),
    )
}

/// What is kept of a suggestion: the parameters it stands for where their cost
/// is finite and below the cost at the start, else the start. A suggestion
/// without a number for every parameter is none.
pub open spec fn accepted(
    suggestion: Option<Seq<Binary64>>,
    start: Seq<Binary64>,
    start_cost: Binary64,
    lower: Seq<Binary64>,
    scale: Seq<Binary64>,
    cost: spec_fn(Seq<Binary64>) -> Binary64,
) -> (Seq<Binary64>, Binary64) {
    match suggestion {
        None => (start, start_cost),
        Some(xs) => {
            let best = unscaled(lower, scale, xs);
            if xs.len() == N_PARAMS && cost(best).lt(start_cost) && cost(best).is_finite() {
                (best, cost(best))
            } else {
                (start, start_cost)
            }
        },
    }
}

/// Keeps a suggestion, or the start.
pub fn accept<M: Fn(Elementary) -> Binary64>(
    scaled: &ScaledCost,
    suggestion: &Option<Vec<Binary64>>,
    start: Vec<Binary64>,
    start_cost: Binary64,
    math: &M,
) -> (r: (Vec<Binary64>, Binary64))
    requires
        scaled.wf(),
        is_function(*math),
    ensures
        (r.0@, r.1) == accepted(
            numbers_of(*suggestion),
            start@,
            start_cost,
            scaled.lower@,
            scaled.scale@,
            cost_of(*scaled.inner, answers(*math)),
        ),
{
    match suggestion {
        None => (start, start_cost),
        Some(xs) => {
            if xs.len() != N_PARAMS {
                return (start, start_cost);
            }
            let best: Vec<Binary64> = scaled.unscale(xs);
            let cost: Binary64 = scaled.inner.eval(&best, math);
            if cost.lt(start_cost) && cost.is_finite() {
                (best, cost)
            } else {
                (start, start_cost)
            }
        },
    }
}

/// The result of polishing `start` with a minimiser.
pub open spec fn refined(
    obs: Seq<SbplObs>,
    log_frequencies: Seq<Binary64>,
    start: Seq<Binary64>,
    start_cost: Binary64,
    lower: Seq<Binary64>,
    upper: Seq<Binary64>,
    suggest: spec_fn(Task) -> Option<Seq<Binary64>>,
    f: spec_fn(Elementary) -> Binary64,
) -> (Seq<Binary64>, Binary64) {
    let scale = spans(lower, upper);
    let task = Task {
        obs,
        log_frequencies,
        lower,
        scale,
        start: scaled_down(start, lower, scale),
    };
    accepted(
        suggest(task),
        start,
        start_cost,
        lower,
        scale,
        cost_function(obs, log_frequencies, f),
    )
}

/// Polishes a search result within its bounds. Returns the start unchanged
/// where the minimiser fails or does not improve on it.
pub fn lbfgs_refine<
    F: Fn(&ScaledCost, &Vec<Binary64>) -> Option<Vec<Binary64>>,
    M: Fn(Elementary) -> Binary64,
>(
    problem: &SbplCost,
    start: Vec<Binary64>,
    start_cost: Binary64,
    lower: &[Binary64; N_PARAMS],
    upper: &[Binary64; N_PARAMS],
    minimise: &F,
    math: &M,
) -> (r: (Vec<Binary64>, Binary64))
    requires
        start.len() == N_PARAMS,
        is_minimiser(*minimise),
        is_function(*math),
    ensures
        (r.0@, r.1) == refined(
            problem.obs(),
            problem.log_frequencies(),
            start@,
            start_cost,
            lower@,
            upper@,
            suggestions(*minimise),
            answers(*math),
        ),
        r.0.len() == N_PARAMS,
{
    let mut low: Vec<Binary64> = Vec::with_capacity(N_PARAMS);
    let mut scale: Vec<Binary64> = Vec::with_capacity(N_PARAMS);
    let mut xs: Vec<Binary64> = Vec::with_capacity(N_PARAMS);
    let mut i: usize = 0;
    while i < N_PARAMS
        invariant
            i <= N_PARAMS,
            start.len() == N_PARAMS,
            low.len() == i,
            scale.len() == i,
            xs.len() == i,
            forall|j: int| 0 <= j < i ==> #[trigger] low@[j] == lower@[j],
            forall|j: int| 0 <= j < i ==> #[trigger] scale@[j] == spans(lower@, upper@)[j],
            forall|j: int|
                0 <= j < i ==> #[trigger] xs@[j] == scaled_down(
                    start@,
                    lower@,
                    spans(lower@, upper@),
                )[j],
        decreases N_PARAMS - i,
    {
        let span: Binary64 = upper[i].minus(lower[i]);
        low.push(lower[i]);
        scale.push(span);
        xs.push(
            start[i].minus(lower[i]).over(span).clamp(Binary64::zero(), Binary64 { bits: ONE }),
        );
        i += 1;
    }
    assert(low@ =~= lower@);
    assert(scale@ =~= spans(lower@, upper@));
    assert(xs@ =~= scaled_down(start@, lower@, spans(lower@, upper@)));
    let scaled: ScaledCost = ScaledCost { inner: problem, lower: low, scale };
    let suggestion: Option<Vec<Binary64>> = minimise(&scaled, &xs);
    proof {
        let task = task_of(scaled, xs@);
        assert(may_suggest(*minimise, task, numbers_of(suggestion)));
        let y = suggestions(*minimise)(task);
        assert(may_suggest(*minimise, task, y));
        assert(y == numbers_of(suggestion));
    }
    accept(&scaled, &suggestion, start, start_cost, math)
}

/// A point of the unit cube, and any that the cube's faces bring back to it,
/// stand for the same parameters: beyond the bounds the cost is flat.
pub proof fn law_cost_is_flat_beyond_bounds(
    lower: Seq<Binary64>,
    scale: Seq<Binary64>,
    xs: Seq<Binary64>,
)
    ensures
        unscaled(
            lower,
            scale,
            xs.map_values(|x: Binary64| x.clamp(Binary64::zero(), Binary64 { bits: ONE })),
        ) == unscaled(lower, scale, xs),
{
    assert(unscaled(
        lower,
        scale,
        xs.map_values(|x: Binary64| x.clamp(Binary64::zero(), Binary64 { bits: ONE })),
    ) =~= unscaled(lower, scale, xs));
}

/// Polishing never makes a cost worse: it keeps the start, or lowers the cost to
/// that of the parameters it returns.
pub proof fn law_polishing_never_worsens(
    obs: Seq<SbplObs>,
    log_frequencies: Seq<Binary64>,
    start: Seq<Binary64>,
    start_cost: Binary64,
    lower: Seq<Binary64>,
    upper: Seq<Binary64>,
    suggest: spec_fn(Task) -> Option<Seq<Binary64>>,
    f: spec_fn(Elementary) -> Binary64,
)
    ensures
        ({
            let r = refined(
                obs,
                log_frequencies,
                start,
                start_cost,
                lower,
                upper,
                suggest,
                f,
            );
            r == (start, start_cost) || (r.1.lt(start_cost) && r.1.is_finite() && r.1 == objective(
                obs,
                log_frequencies,
                r.0,
                f,
            ).0)
        }),
{
}

/// Every coordinate is a number between its bounds, where an upper bound counts
/// either as it stands or as the lower bound plus the rounded span.
pub open spec fn inside_rounded(
    row: Seq<Binary64>,
    lower: Seq<Binary64>,
    upper: Seq<Binary64>,
) -> bool {
    &&& row.len() == N_PARAMS
    &&& forall|d: int|
        0 <= d < N_PARAMS ==> {
            &&& lower[d].le(#[trigger] row[d])
            &&& row[d].le(upper[d]) || row[d].le(lower[d].plus(upper[d].minus(lower[d])))
        }
}

/// No suggestion holds a not-a-number.
pub open spec fn suggests_numbers(suggest: spec_fn(Task) -> Option<Seq<Binary64>>) -> bool {
    forall|task: Task, i: int|
        suggest(task) is Some && 0 <= i < (suggest(task)->0).len()
            ==> !(#[trigger] (suggest(task)->0)[i]).is_nan()
}

/// One coordinate of a point of the unit cube lies between the bounds.
proof fn lemma_unscaled_is_between(low: Binary64, high: Binary64, x: Binary64)
    requires
        low.le(high),
        low.step() <= MODERATE,
        high.step() <= MODERATE,
        !x.is_nan(),
    ensures
        ({
            let span = high.minus(low);
            let y = low.plus(x.clamp(Binary64::zero(), Binary64 { bits: ONE }).times(span));
            low.le(y) && y.le(low.plus(span))
        }),
{
    let span = high.minus(low);
    let c = x.clamp(Binary64::zero(), Binary64 { bits: ONE });
    let part = c.times(span);
    lemma_moderate_span(low, high);
    assert(span.step() == 0 || !span.negative()) by {
        if low.lt(high) {
            law_difference_in_order(low, high);
        } else {
            reveal(Binary64::spec_plus);
            law_order_is_exact(low, high);
            lemma_negated_units(low);
        }
    }
    lemma_one_is_unit();
    lemma_units_ordered(c.step(), ONE as nat);
    let unit = pow2(UNIT_EXPONENT as nat);
    assert(step_units(c.step()) * step_units(span.step()) <= step_units(span.step()) * unit)
        by (nonlinear_arith)
        requires
            0 <= step_units(c.step()) <= unit,
            0 <= step_units(span.step()),
    ;
    lemma_product_at_most(c, span, span.step());
    lemma_units_ordered(part.step(), span.step());
    assert(0 <= part.units() <= span.units()) by {
        reveal(Binary64::spec_times);
        lemma_units_positive(c.step());
        lemma_units_positive(part.step());
        if span.step() == 0 {
            lemma_units_positive(0);
        } else if c.negative() {
            lemma_rounded_zero(unit);
            assert(0 * step_units(span.step()) == 0) by (nonlinear_arith);
        } else {
            law_signs_are_kept(c, span);
        }
    }
    lemma_units_positive(0);
    law_sums_are_ordered(low, Binary64::zero(), low, part);
    law_adding_zero(low, Binary64::zero());
    law_sums_are_ordered(low, part, low, span);
}

/// Polishing keeps the start, or gives a point between the bounds.
pub proof fn lemma_polished_or_start(
    obs: Seq<SbplObs>,
    log_frequencies: Seq<Binary64>,
    start: Seq<Binary64>,
    start_cost: Binary64,
    lower: Seq<Binary64>,
    upper: Seq<Binary64>,
    suggest: spec_fn(Task) -> Option<Seq<Binary64>>,
    f: spec_fn(Elementary) -> Binary64,
)
    requires
        ordered(lower, upper),
        moderate(lower, upper),
        suggests_numbers(suggest),
    ensures
        ({
            let r = refined(obs, log_frequencies, start, start_cost, lower, upper, suggest, f).0;
            r == start || inside_rounded(r, lower, upper)
        }),
{
    let r = refined(obs, log_frequencies, start, start_cost, lower, upper, suggest, f).0;
    let scale = spans(lower, upper);
    let task = Task {
        obs,
        log_frequencies,
        lower,
        scale,
        start: scaled_down(start, lower, scale),
    };
    if r != start {
        let xs = suggest(task)->0;
        assert forall|d: int| 0 <= d < N_PARAMS implies {
            &&& lower[d].le(#[trigger] r[d])
            &&& r[d].le(upper[d]) || r[d].le(lower[d].plus(upper[d].minus(lower[d])))
        } by {
            assert(lower[d].le(upper[d]));
            assert(lower[d].step() <= MODERATE);
            assert(!xs[d].is_nan());
            lemma_unscaled_is_between(lower[d], upper[d], xs[d]);
        }
    }
}

/// Polishing a point between the bounds gives a point between the bounds.
pub proof fn law_polishing_stays_in_bounds(
    obs: Seq<SbplObs>,
    log_frequencies: Seq<Binary64>,
    start: Seq<Binary64>,
    start_cost: Binary64,
    lower: Seq<Binary64>,
    upper: Seq<Binary64>,
    suggest: spec_fn(Task) -> Option<Seq<Binary64>>,
    f: spec_fn(Elementary) -> Binary64,
)
    requires
        inside(start, lower, upper),
        ordered(lower, upper),
        moderate(lower, upper),
        suggests_numbers(suggest),
    ensures
        inside_rounded(
            refined(obs, log_frequencies, start, start_cost, lower, upper, suggest, f).0,
            lower,
            upper,
        ),
{
    lemma_polished_or_start(obs, log_frequencies, start, start_cost, lower, upper, suggest, f);
    assert forall|d: int| 0 <= d < N_PARAMS implies lower[d].le(#[trigger] start[d])
        && start[d].le(upper[d]) by {}
}

} // verus!

//! Particle swarm search of one source.
use crate::binary64::Binary64;
use crate::cost::{cost_function, finite_data, law_cost_is_a_number, SbplCost, SbplObs};
use crate::elementary::{answers, is_function, Elementary};
use crate::generator::{
    answerable, draws_in_range, is_generator, law_generators_draw_in_range, obliges, pull, stream,
    Draw,
};
use crate::magnitude::{law_difference_in_order, law_opposite_multiples};
use crate::numbers::{MINUS_TENTH, N_PARAMS, TENTH};
use crate::swarm::{
    calm, contained, copied, enclosed, front, inside, law_moving_is_truthful,
    law_scoring_is_truthful, law_settling_is_contained, law_settling_is_enclosed,
    law_settling_is_truthful, law_steps_stay_contained, law_steps_stay_enclosed,
    lemma_first_velocity, moderate, ordered, settled, truthful, within, Flier, Flock, Swarm, FASTEST,
    MODERATE,
};
use vstd::prelude::*;

verus! {

/// The first `n` numbers of a row, each drawn from its own range.
pub open spec fn drawn_row<R>(
    low: Seq<Binary64>,
    high: Seq<Binary64>,
    g: R,
    next: spec_fn(R, Draw) -> (Binary64, R),
    n: nat,
) -> (Seq<Binary64>, R)
    decreases n,
{
    if n == 0 {
        (seq![], g)
    } else {
        let so_far = drawn_row(low, high, g, next, (n - 1) as nat);
        let drawn = next(so_far.1, Draw::Range(low[n - 1], high[n - 1]));
        (so_far.0.push(drawn.0), drawn.1)
    }
}

/// `count` rows, one after another.
pub open spec fn drawn_rows<R>(
    low: Seq<Binary64>,
    high: Seq<Binary64>,
    g: R,
    next: spec_fn(R, Draw) -> (Binary64, R),
    count: nat,
) -> (Seq<Seq<Binary64>>, R)
    decreases count,
{
    if count == 0 {
        (seq![], g)
    } else {
        let so_far = drawn_rows(low, high, g, next, (count - 1) as nat);
        let row = drawn_row(low, high, so_far.1, next, N_PARAMS as nat);
        (so_far.0.push(row.0), row.1)
    }
}

/// A multiple of each span between the bounds.
pub open spec fn span_part(part: Binary64, lower: Seq<Binary64>, upper: Seq<Binary64>) -> Seq<
    Binary64,
> {
    Seq::new(N_PARAMS as nat, |d: int| part.times(upper[d].minus(lower[d])))
}

/// Every lower bound is below its upper bound: there is room to search.
pub open spec fn searchable(lower: Seq<Binary64>, upper: Seq<Binary64>) -> bool {
    forall|d: int| 0 <= d < N_PARAMS ==> (#[trigger] lower[d]).lt(upper[d])
}

/// Whether there is room to search between the bounds.
pub fn is_searchable(lower: &[Binary64; N_PARAMS], upper: &[Binary64; N_PARAMS]) -> (r: bool)
    ensures
        r == searchable(lower@, upper@),
{
    let mut d: usize = 0;
    while d < N_PARAMS
        invariant
            d <= N_PARAMS,
            forall|e: int| 0 <= e < d ==> (#[trigger] lower@[e]).lt(upper@[e]),
        decreases N_PARAMS - d,
    {
        if !lower[d].lt(upper[d]) {
            assert(!lower@[d as int].lt(upper@[d as int]));
            return false;
        }
        d += 1;
    }
    true
}

/// Where there is room to search, every range that a search draws from is in
/// order.
proof fn lemma_ranges_are_ordered(lower: Seq<Binary64>, upper: Seq<Binary64>)
    requires
        searchable(lower, upper),
    ensures
        ordered(lower, upper),
        ordered(
            span_part(Binary64 { bits: MINUS_TENTH }, lower, upper),
            span_part(Binary64 { bits: TENTH }, lower, upper),
        ),
{
    let slow = span_part(Binary64 { bits: MINUS_TENTH }, lower, upper);
    let fast = span_part(Binary64 { bits: TENTH }, lower, upper);
    assert forall|d: int| 0 <= d < N_PARAMS implies (#[trigger] lower[d]).le(upper[d]) by {
        assert(lower[d].lt(upper[d]));
    }
    assert forall|d: int| 0 <= d < N_PARAMS implies (#[trigger] slow[d]).le(fast[d]) by {
        assert(lower[d].lt(upper[d]));
        law_difference_in_order(lower[d], upper[d]);
        law_opposite_multiples(Binary64 { bits: TENTH }, upper[d].minus(lower[d]));
    }
}

/// The first positions, drawn from within the bounds; then the first
/// velocities, a tenth of a span at most.
pub open spec fn scattered<R>(
    lower: Seq<Binary64>,
    upper: Seq<Binary64>,
    g: R,
    next: spec_fn(R, Draw) -> (Binary64, R),
    count: nat,
) -> (Seq<Seq<Binary64>>, Seq<Seq<Binary64>>, R) {
    let positions = drawn_rows(lower, upper, g, next, count);
    let velocities = drawn_rows(
        span_part(Binary64 { bits: MINUS_TENTH }, lower, upper),
        span_part(Binary64 { bits: TENTH }, lower, upper),
        positions.1,
        next,
        count,
    );
    (positions.0, velocities.0, velocities.1)
}

/// The swarm a search starts with.
pub open spec fn first_swarm<R>(
    cost: spec_fn(Seq<Binary64>) -> Binary64,
    lower: Seq<Binary64>,
    upper: Seq<Binary64>,
    g: R,
    next: spec_fn(R, Draw) -> (Binary64, R),
    count: nat,
) -> Flock<R> {
    let start = scattered(lower, upper, g, next, count);
    settled(start.0, start.1, start.0.map_values(cost), start.2)
}

/// One sweep over the first `n` particles. Each is moved and scored in turn, so
/// it sees the improvements of those before it.
pub open spec fn swept<R>(
    flock: Flock<R>,
    cost: spec_fn(Seq<Binary64>) -> Binary64,
    lower: Seq<Binary64>,
    upper: Seq<Binary64>,
    next: spec_fn(R, Draw) -> (Binary64, R),
    n: nat,
) -> Flock<R>
    decreases n,
{
    if n == 0 {
        flock
    } else {
        let so_far = swept(flock, cost, lower, upper, next, (n - 1) as nat);
        let moved = so_far.moved_at(n - 1, lower, upper, next);
        moved.scored_at(n - 1, cost(moved.particles[n - 1].position))
    }
}

/// The swarm after `k` sweeps.
pub open spec fn searched<R>(
    cost: spec_fn(Seq<Binary64>) -> Binary64,
    lower: Seq<Binary64>,
    upper: Seq<Binary64>,
    g: R,
    next: spec_fn(R, Draw) -> (Binary64, R),
    count: nat,
    k: nat,
) -> Flock<R>
    decreases k,
{
    if k == 0 {
        first_swarm(cost, lower, upper, g, next, count)
    } else {
        swept(
            searched(cost, lower, upper, g, next, count, (k - 1) as nat),
            cost,
            lower,
            upper,
            next,
            count,
        )
    }
}

/// The objective that is searched.
pub open spec fn cost_of(problem: SbplCost, f: spec_fn(Elementary) -> Binary64) -> spec_fn(
    Seq<Binary64>,
) -> Binary64 {
    cost_function(problem.obs(), problem.log_frequencies(), f)
}

/// Draws rows of numbers.
fn draw_rows<R, D: Fn(&R, Draw) -> (Binary64, R)>(
    low: &Vec<Binary64>,
    high: &Vec<Binary64>,
    generator: R,
    draw: &D,
    count: usize,
) -> (r: (Vec<Vec<Binary64>>, R))
    requires
        low.len() == N_PARAMS,
        high.len() == N_PARAMS,
        is_generator(*draw),
        ordered(low@, high@),
    ensures
        ({
            let rows = drawn_rows(low@, high@, generator, stream(*draw), count as nat);
            &&& r.0.len() == count
            &&& rows.0.len() == count
            &&& forall|i: int|
                0 <= i < count ==> (#[trigger] r.0@[i])@ == rows.0[i] && r.0@[i].len() == N_PARAMS
            &&& r.1 == rows.1
        }),
{
    let ghost next = stream(*draw);
    let ghost seed = generator;
    let mut g: R = generator;
    let mut rows: Vec<Vec<Binary64>> = Vec::with_capacity(count);
    let mut i: usize = 0;
    while i < count
        invariant
            i <= count,
            low.len() == N_PARAMS,
            high.len() == N_PARAMS,
            is_generator(*draw),
            ordered(low@, high@),
            next == stream(*draw),
            rows.len() == i,
            drawn_rows(low@, high@, seed, next, i as nat).0.len() == i,
            forall|j: int|
                0 <= j < i ==> (#[trigger] rows@[j])@ == drawn_rows(
                    low@,
                    high@,
                    seed,
                    next,
                    i as nat,
                ).0[j] && rows@[j].len() == N_PARAMS,
            g == drawn_rows(low@, high@, seed, next, i as nat).1,
        decreases count - i,
    {
        let ghost mid = g;
        let mut row: Vec<Binary64> = Vec::with_capacity(N_PARAMS);
        let mut d: usize = 0;
        while d < N_PARAMS
            invariant
                d <= N_PARAMS,
                low.len() == N_PARAMS,
                high.len() == N_PARAMS,
                is_generator(*draw),
                ordered(low@, high@),
                next == stream(*draw),
                row@ == drawn_row(low@, high@, mid, next, d as nat).0,
                row.len() == d,
                g == drawn_row(low@, high@, mid, next, d as nat).1,
            decreases N_PARAMS - d,
        {
            assert(low@[d as int].le(high@[d as int]));
            let (x, after) = pull(draw, &g, Draw::Range(low[d], high[d]));
            row.push(x);
            g = after;
            d += 1;
        }
        rows.push(row);
        i += 1;
    }
    (rows, g)
}

/// The index of the least cost.
pub fn best_of(costs: &Vec<Binary64>) -> (r: usize)
    requires
        costs.len() > 0,
    ensures
        r == front(costs@, costs@.len()),
        r < costs.len(),
{
    let mut best: usize = 0;
    let mut i: usize = 1;
    while i < costs.len()
        invariant
            1 <= i <= costs.len(),
            best < i,
            best == front(costs@, i as nat),
        decreases costs.len() - i,
    {
        if costs[i].lt(costs[best]) {
            best = i;
        }
        i += 1;
    }
    best
}

/// A swarm at rest at scored positions.
pub fn settle<R>(
    positions: Vec<Vec<Binary64>>,
    velocities: Vec<Vec<Binary64>>,
    costs: &Vec<Binary64>,
    generator: R,
) -> (r: Swarm<R>)
    requires
        positions.len() > 0,
        velocities.len() == positions.len(),
        costs.len() == positions.len(),
        forall|i: int| 0 <= i < positions.len() ==> (#[trigger] positions@[i]).len() == N_PARAMS,
        forall|i: int| 0 <= i < positions.len() ==> (#[trigger] velocities@[i]).len() == N_PARAMS,
    ensures
        r.wf(),
        r.fliers.len() == positions.len(),
        r@ == settled(
            Seq::new(positions@.len(), |i: int| positions@[i]@),
            Seq::new(velocities@.len(), |i: int| velocities@[i]@),
            costs@,
            generator,
        ),
{
    let first: usize = best_of(costs);
    let lead: Vec<Binary64> = copied(&positions[first]);
    let mut fliers: Vec<Flier> = Vec::with_capacity(positions.len());
    let mut i: usize = 0;
    while i < positions.len()
        invariant
            i <= positions.len(),
            velocities.len() == positions.len(),
            costs.len() == positions.len(),
            forall|j: int| 0 <= j < positions.len() ==> (#[trigger] positions@[j]).len() == N_PARAMS,
            forall|j: int|
                0 <= j < positions.len() ==> (#[trigger] velocities@[j]).len() == N_PARAMS,
            fliers.len() == i,
            forall|j: int|
                0 <= j < i ==> {
                    &&& (#[trigger] fliers@[j]).wf()
                    &&& fliers@[j].position@ == positions@[j]@
                    &&& fliers@[j].velocity@ == velocities@[j]@
                    &&& fliers@[j].best@ == positions@[j]@
                    &&& fliers@[j].best_cost == costs@[j]
                },
        decreases positions.len() - i,
    {
        fliers.push(
            Flier {
                position: copied(&positions[i]),
                velocity: copied(&velocities[i]),
                best: copied(&positions[i]),
                best_cost: costs[i],
            },
        );
        i += 1;
    }
    let r: Swarm<R> = Swarm { fliers, lead, lead_cost: costs[first], generator };
    proof {
        let s = settled(
            Seq::new(positions@.len(), |i: int| positions@[i]@),
            Seq::new(velocities@.len(), |i: int| velocities@[i]@),
            costs@,
            generator,
        );
        assert(r@.particles =~= s.particles);
    }
    r
}

/// Searches for the parameters of least cost. Returns the best position found,
/// its cost, and the generator to go on with. The position is between the bounds.
pub fn pso_search<
    R,
    D: Fn(&R, Draw) -> (Binary64, R),
    M: Fn(Elementary) -> Binary64,
>(
    problem: &SbplCost,
    lower: &[Binary64; N_PARAMS],
    upper: &[Binary64; N_PARAMS],
    n_particles: usize,
    n_iters: usize,
    generator: R,
    draw: &D,
    math: &M,
) -> (r: (Vec<Binary64>, Binary64, R))
    requires
        n_particles > 0,
        searchable(lower@, upper@),
        is_generator(*draw),
        is_function(*math),
    ensures
        ({
            let end = searched(
                cost_of(*problem, answers(*math)),
                lower@,
                upper@,
                generator,
                stream(*draw),
                n_particles as nat,
                n_iters as nat,
            );
            &&& r.0@ == end.lead
            &&& r.0.len() == N_PARAMS
            &&& r.1 == end.lead_cost
            &&& r.2 == end.generator
        }),
        r.1 == cost_of(*problem, answers(*math))(r.0@),
        within(r.0@, lower@, upper@),
        moderate(lower@, upper@) ==> inside(r.0@, lower@, upper@),
{
    let ghost next = stream(*draw);
    let ghost cost = cost_of(*problem, answers(*math));
    let ghost seed = generator;
    let mut low: Vec<Binary64> = Vec::with_capacity(N_PARAMS);
    let mut high: Vec<Binary64> = Vec::with_capacity(N_PARAMS);
    let mut slow: Vec<Binary64> = Vec::with_capacity(N_PARAMS);
    let mut fast: Vec<Binary64> = Vec::with_capacity(N_PARAMS);
    let mut d: usize = 0;
    while d < N_PARAMS
        invariant
            d <= N_PARAMS,
            low@ == lower@.subrange(0, d as int),
            high@ == upper@.subrange(0, d as int),
            slow@ == span_part(Binary64 { bits: MINUS_TENTH }, lower@, upper@).subrange(
                0,
                d as int,
            ),
            fast@ == span_part(Binary64 { bits: TENTH }, lower@, upper@).subrange(0, d as int),
        decreases N_PARAMS - d,
    {
        let span: Binary64 = upper[d].minus(lower[d]);
        low.push(lower[d]);
        high.push(upper[d]);
        slow.push(Binary64 { bits: MINUS_TENTH }.times(span));
        fast.push(Binary64 { bits: TENTH }.times(span));
        d += 1;
        assert(low@ =~= lower@.subrange(0, d as int));
        assert(high@ =~= upper@.subrange(0, d as int));
        assert(slow@ =~= span_part(Binary64 { bits: MINUS_TENTH }, lower@, upper@).subrange(
            0,
            d as int,
        ));
        assert(fast@ =~= span_part(Binary64 { bits: TENTH }, lower@, upper@).subrange(0, d as int));
    }
    assert(low@ =~= lower@);
    assert(high@ =~= upper@);
    assert(slow@ =~= span_part(Binary64 { bits: MINUS_TENTH }, lower@, upper@));
    assert(fast@ =~= span_part(Binary64 { bits: TENTH }, lower@, upper@));
    proof {
        lemma_ranges_are_ordered(lower@, upper@);
    }
    let (positions, g) = draw_rows(&low, &high, generator, draw, n_particles);
    let (velocities, g) = draw_rows(&slow, &fast, g, draw, n_particles);
    let mut costs: Vec<Binary64> = Vec::with_capacity(n_particles);
    let mut i: usize = 0;
    while i < n_particles
        invariant
            i <= n_particles,
            positions.len() == n_particles,
            forall|j: int| 0 <= j < n_particles ==> (#[trigger] positions@[j]).len() == N_PARAMS,
            is_function(*math),
            cost == cost_of(*problem, answers(*math)),
            costs.len() == i,
            forall|j: int| 0 <= j < i ==> #[trigger] costs@[j] == cost(positions@[j]@),
        decreases n_particles - i,
    {
        costs.push(problem.eval(&positions[i], math));
        i += 1;
    }
    proof {
        let start = scattered(lower@, upper@, seed, next, n_particles as nat);
        assert(Seq::new(positions@.len(), |i: int| positions@[i]@) =~= start.0);
        assert(Seq::new(velocities@.len(), |i: int| velocities@[i]@) =~= start.1);
        assert(costs@ =~= start.0.map_values(cost));
    }
    let mut swarm: Swarm<R> = settle(positions, velocities, &costs, g);
    let mut k: usize = 0;
    while k < n_iters
        invariant
            k <= n_iters,
            swarm.wf(),
            swarm.fliers.len() == n_particles,
            is_generator(*draw),
            is_function(*math),
            next == stream(*draw),
            cost == cost_of(*problem, answers(*math)),
            swarm@ == searched(cost, lower@, upper@, seed, next, n_particles as nat, k as nat),
        decreases n_iters - k,
    {
        let ghost before = swarm@;
        let mut i: usize = 0;
        while i < n_particles
            invariant
                i <= n_particles,
                swarm.wf(),
                swarm.fliers.len() == n_particles,
                is_generator(*draw),
                is_function(*math),
                next == stream(*draw),
                cost == cost_of(*problem, answers(*math)),
                swarm@ == swept(before, cost, lower@, upper@, next, i as nat),
            decreases n_particles - i,
        {
            swarm.advance(i, lower, upper, draw);
            assert(swarm@.particles.len() == n_particles);
            assert(swarm@.particles[i as int].position == swarm.fliers@[i as int].position@);
            assert(swarm.fliers@[i as int].wf());
            let c: Binary64 = problem.eval(&swarm.fliers[i].position, math);
            swarm.score(i, c);
            i += 1;
            assert(swarm@.particles.len() == n_particles);
        }
        k += 1;
    }
    proof {
        let (n, k) = (n_particles as nat, n_iters as nat);
        law_generators_draw_in_range(*draw);
        law_search_is_truthful(cost, lower@, upper@, seed, next, n, k);
        law_search_stays_in_bounds(cost, lower@, upper@, seed, next, n, k);
        if moderate(lower@, upper@) {
            law_search_reports_numbers_in_bounds(cost, lower@, upper@, seed, next, n, k);
        }
    }
    let Swarm { fliers, lead, lead_cost, generator } = swarm;
    (lead, lead_cost, generator)
}

proof fn lemma_sweep_is_truthful<R>(
    flock: Flock<R>,
    cost: spec_fn(Seq<Binary64>) -> Binary64,
    lower: Seq<Binary64>,
    upper: Seq<Binary64>,
    next: spec_fn(R, Draw) -> (Binary64, R),
    n: nat,
)
    requires
        truthful(flock, cost),
        n <= flock.particles.len(),
    ensures
        truthful(swept(flock, cost, lower, upper, next, n), cost),
        swept(flock, cost, lower, upper, next, n).particles.len() == flock.particles.len(),
    decreases n,
{
    if n > 0 {
        lemma_sweep_is_truthful(flock, cost, lower, upper, next, (n - 1) as nat);
        let so_far = swept(flock, cost, lower, upper, next, (n - 1) as nat);
        law_moving_is_truthful(so_far, n - 1, lower, upper, next, cost);
        law_scoring_is_truthful(so_far.moved_at(n - 1, lower, upper, next), n - 1, cost);
    }
}

proof fn lemma_count<R>(
    low: Seq<Binary64>,
    high: Seq<Binary64>,
    g: R,
    next: spec_fn(R, Draw) -> (Binary64, R),
    count: nat,
)
    ensures
        drawn_rows(low, high, g, next, count).0.len() == count,
    decreases count,
{
    if count > 0 {
        lemma_count(low, high, g, next, (count - 1) as nat);
    }
}

/// A search reports the cost of the position it reports, and no particle has
/// been anywhere better.
pub proof fn law_search_is_truthful<R>(
    cost: spec_fn(Seq<Binary64>) -> Binary64,
    lower: Seq<Binary64>,
    upper: Seq<Binary64>,
    g: R,
    next: spec_fn(R, Draw) -> (Binary64, R),
    count: nat,
    k: nat,
)
    requires
        count > 0,
    ensures
        truthful(searched(cost, lower, upper, g, next, count, k), cost),
        searched(cost, lower, upper, g, next, count, k).particles.len() == count,
    decreases k,
{
    if k == 0 {
        let start = scattered(lower, upper, g, next, count);
        lemma_count(lower, upper, g, next, count);
        law_settling_is_truthful(start.0, start.1, cost, start.2);
    } else {
        law_search_is_truthful(cost, lower, upper, g, next, count, (k - 1) as nat);
        lemma_sweep_is_truthful(
            searched(cost, lower, upper, g, next, count, (k - 1) as nat),
            cost,
            lower,
            upper,
            next,
            count,
        );
    }
}

/// More sweeps never make the reported cost worse.
pub proof fn law_search_never_worsens<R>(
    cost: spec_fn(Seq<Binary64>) -> Binary64,
    lower: Seq<Binary64>,
    upper: Seq<Binary64>,
    g: R,
    next: spec_fn(R, Draw) -> (Binary64, R),
    count: nat,
    fewer: nat,
    more: nat,
)
    requires
        count > 0,
        fewer <= more,
    ensures
        !searched(cost, lower, upper, g, next, count, fewer).lead_cost.lt(
            searched(cost, lower, upper, g, next, count, more).lead_cost,
        ),
    decreases more,
{
    if fewer < more {
        let before = searched(cost, lower, upper, g, next, count, (more - 1) as nat);
        law_search_never_worsens(cost, lower, upper, g, next, count, fewer, (more - 1) as nat);
        law_search_is_truthful(cost, lower, upper, g, next, count, (more - 1) as nat);
        lemma_sweep_lead(before, cost, lower, upper, next, count);
    }
}

/// Where the cost is a number everywhere between the bounds, more sweeps report the
/// same cost or a lower one.
pub proof fn law_more_sweeps_lower_the_cost<R>(
    cost: spec_fn(Seq<Binary64>) -> Binary64,
    lower: Seq<Binary64>,
    upper: Seq<Binary64>,
    g: R,
    next: spec_fn(R, Draw) -> (Binary64, R),
    count: nat,
    fewer: nat,
    more: nat,
)
    requires
        count > 0,
        fewer <= more,
        draws_in_range(next),
        searchable(lower, upper),
        forall|p: Seq<Binary64>| within(p, lower, upper) ==> !(#[trigger] cost(p)).is_nan(),
    ensures
        searched(cost, lower, upper, g, next, count, more).lead_cost.le(
            searched(cost, lower, upper, g, next, count, fewer).lead_cost,
        ),
{
    let short = searched(cost, lower, upper, g, next, count, fewer);
    let long = searched(cost, lower, upper, g, next, count, more);
    law_search_never_worsens(cost, lower, upper, g, next, count, fewer, more);
    law_search_is_truthful(cost, lower, upper, g, next, count, fewer);
    law_search_is_truthful(cost, lower, upper, g, next, count, more);
    law_search_stays_in_bounds(cost, lower, upper, g, next, count, fewer);
    law_search_stays_in_bounds(cost, lower, upper, g, next, count, more);
    assert(!cost(short.lead).is_nan() && !cost(long.lead).is_nan());
}

/// On finite fluxes and variances, more sweeps report the same cost or a lower one,
/// whatever the bounds, the draws and the elementary functions.
pub proof fn law_more_sweeps_fit_better<R>(
    obs: Seq<SbplObs>,
    ln_nu: Seq<Binary64>,
    f: spec_fn(Elementary) -> Binary64,
    lower: Seq<Binary64>,
    upper: Seq<Binary64>,
    g: R,
    next: spec_fn(R, Draw) -> (Binary64, R),
    count: nat,
    fewer: nat,
    more: nat,
)
    requires
        count > 0,
        fewer <= more,
        obs.len() <= u64::MAX,
        forall|i: int| 0 <= i < obs.len() ==> finite_data(#[trigger] obs[i]),
    ensures
        ({
            let cost = cost_function(obs, ln_nu, f);
            searched(cost, lower, upper, g, next, count, more).lead_cost.le(
                searched(cost, lower, upper, g, next, count, fewer).lead_cost,
            )
        }),
{
    let cost = cost_function(obs, ln_nu, f);
    let short = searched(cost, lower, upper, g, next, count, fewer);
    let long = searched(cost, lower, upper, g, next, count, more);
    law_search_never_worsens(cost, lower, upper, g, next, count, fewer, more);
    law_search_is_truthful(cost, lower, upper, g, next, count, fewer);
    law_search_is_truthful(cost, lower, upper, g, next, count, more);
    law_cost_is_a_number(obs, ln_nu, short.lead, f);
    law_cost_is_a_number(obs, ln_nu, long.lead, f);
}

/// A sweep keeps the lead, or lowers it.
proof fn lemma_sweep_lead<R>(
    flock: Flock<R>,
    cost: spec_fn(Seq<Binary64>) -> Binary64,
    lower: Seq<Binary64>,
    upper: Seq<Binary64>,
    next: spec_fn(R, Draw) -> (Binary64, R),
    n: nat,
)
    ensures
        ({
            let after = swept(flock, cost, lower, upper, next, n).lead_cost;
            after == flock.lead_cost || after.lt(flock.lead_cost)
        }),
    decreases n,
{
    if n > 0 {
        lemma_sweep_lead(flock, cost, lower, upper, next, (n - 1) as nat);
    }
}

proof fn lemma_rows_in_range<R>(
    lower: Seq<Binary64>,
    upper: Seq<Binary64>,
    g: R,
    next: spec_fn(R, Draw) -> (Binary64, R),
    count: nat,
)
    requires
        draws_in_range(next),
        ordered(lower, upper),
    ensures
        drawn_rows(lower, upper, g, next, count).0.len() == count,
        forall|i: int|
            0 <= i < count ==> inside(
                #[trigger] drawn_rows(lower, upper, g, next, count).0[i],
                lower,
                upper,
            ),
    decreases count,
{
    if count > 0 {
        lemma_rows_in_range(lower, upper, g, next, (count - 1) as nat);
        let so_far = drawn_rows(lower, upper, g, next, (count - 1) as nat);
        lemma_row_in_range(lower, upper, so_far.1, next, N_PARAMS as nat);
        let all = drawn_rows(lower, upper, g, next, count).0;
        assert forall|i: int| 0 <= i < count implies inside(#[trigger] all[i], lower, upper) by {
            if i < count - 1 {
                assert(all[i] == so_far.0[i]);
            }
        }
    }
}

proof fn lemma_row_in_range<R>(
    lower: Seq<Binary64>,
    upper: Seq<Binary64>,
    g: R,
    next: spec_fn(R, Draw) -> (Binary64, R),
    n: nat,
)
    requires
        draws_in_range(next),
        n <= N_PARAMS,
        ordered(lower, upper),
    ensures
        drawn_row(lower, upper, g, next, n).0.len() == n,
        forall|d: int|
            0 <= d < n ==> {
                let x = #[trigger] drawn_row(lower, upper, g, next, n).0[d];
                lower[d].le(x) && x.le(upper[d])
            },
    decreases n,
{
    if n > 0 {
        lemma_row_in_range(lower, upper, g, next, (n - 1) as nat);
        assert(lower[n - 1].le(upper[n - 1]));
        let so_far = drawn_row(lower, upper, g, next, (n - 1) as nat);
        let q = Draw::Range(lower[n - 1], upper[n - 1]);
        assert(answerable(q));
        assert(obliges(q, next(so_far.1, q).0));
    }
}

proof fn lemma_sweep_is_contained<R>(
    flock: Flock<R>,
    cost: spec_fn(Seq<Binary64>) -> Binary64,
    lower: Seq<Binary64>,
    upper: Seq<Binary64>,
    next: spec_fn(R, Draw) -> (Binary64, R),
    n: nat,
)
    requires
        contained(flock, lower, upper),
        ordered(lower, upper),
        n <= flock.particles.len(),
    ensures
        contained(swept(flock, cost, lower, upper, next, n), lower, upper),
        swept(flock, cost, lower, upper, next, n).particles.len() == flock.particles.len(),
    decreases n,
{
    if n > 0 {
        lemma_sweep_is_contained(flock, cost, lower, upper, next, (n - 1) as nat);
        let so_far = swept(flock, cost, lower, upper, next, (n - 1) as nat);
        let moved = so_far.moved_at(n - 1, lower, upper, next);
        let c = cost(moved.particles[n - 1].position);
        law_steps_stay_contained(so_far, n - 1, lower, upper, next, c);
        law_steps_stay_contained(moved, n - 1, lower, upper, next, c);
    }
}

/// Every coordinate of the position a search reports is within the bounds, or
/// not-a-number, which only bounds near the limits of the number range can lead to.
pub proof fn law_search_stays_in_bounds<R>(
    cost: spec_fn(Seq<Binary64>) -> Binary64,
    lower: Seq<Binary64>,
    upper: Seq<Binary64>,
    g: R,
    next: spec_fn(R, Draw) -> (Binary64, R),
    count: nat,
    k: nat,
)
    requires
        count > 0,
        draws_in_range(next),
        searchable(lower, upper),
    ensures
        contained(searched(cost, lower, upper, g, next, count, k), lower, upper),
        searched(cost, lower, upper, g, next, count, k).particles.len() == count,
    decreases k,
{
    assert(ordered(lower, upper)) by {
        assert forall|d: int| 0 <= d < N_PARAMS implies (#[trigger] lower[d]).le(upper[d]) by {
            assert(lower[d].lt(upper[d]));
        }
    }
    if k == 0 {
        let start = scattered(lower, upper, g, next, count);
        lemma_rows_in_range(lower, upper, g, next, count);
        assert forall|i: int| 0 <= i < start.0.len() implies within(
            #[trigger] start.0[i],
            lower,
            upper,
        ) by {
            assert(inside(start.0[i], lower, upper));
        }
        law_settling_is_contained(
            start.0,
            start.1,
            start.0.map_values(cost),
            start.2,
            lower,
            upper,
        );
    } else {
        law_search_stays_in_bounds(cost, lower, upper, g, next, count, (k - 1) as nat);
        lemma_sweep_is_contained(
            searched(cost, lower, upper, g, next, count, (k - 1) as nat),
            cost,
            lower,
            upper,
            next,
            count,
        );
    }
}

proof fn lemma_velocities_are_calm<R>(
    lower: Seq<Binary64>,
    upper: Seq<Binary64>,
    g: R,
    next: spec_fn(R, Draw) -> (Binary64, R),
    count: nat,
)
    requires
        draws_in_range(next),
        searchable(lower, upper),
        moderate(lower, upper),
    ensures
        ({
            let slow = span_part(Binary64 { bits: MINUS_TENTH }, lower, upper);
            let fast = span_part(Binary64 { bits: TENTH }, lower, upper);
            let rows = drawn_rows(slow, fast, g, next, count).0;
            &&& rows.len() == count
            &&& forall|i: int| 0 <= i < count ==> calm(#[trigger] rows[i])
        }),
    decreases count,
{
    if count > 0 {
        let slow = span_part(Binary64 { bits: MINUS_TENTH }, lower, upper);
        let fast = span_part(Binary64 { bits: TENTH }, lower, upper);
        lemma_velocities_are_calm(lower, upper, g, next, (count - 1) as nat);
        lemma_ranges_are_ordered(lower, upper);
        let so_far = drawn_rows(slow, fast, g, next, (count - 1) as nat);
        lemma_row_in_range(slow, fast, so_far.1, next, N_PARAMS as nat);
        let row = drawn_row(slow, fast, so_far.1, next, N_PARAMS as nat).0;
        assert forall|d: int| 0 <= d < N_PARAMS implies (#[trigger] row[d]).step() <= FASTEST by {
            assert(lower[d].step() <= MODERATE);
            lemma_first_velocity(lower[d], upper[d], row[d]);
        }
        let all = drawn_rows(slow, fast, g, next, count).0;
        assert forall|i: int| 0 <= i < count implies calm(#[trigger] all[i]) by {
            if i < count - 1 {
                assert(all[i] == so_far.0[i]);
            }
        }
    }
}

proof fn lemma_sweep_is_enclosed<R>(
    flock: Flock<R>,
    cost: spec_fn(Seq<Binary64>) -> Binary64,
    lower: Seq<Binary64>,
    upper: Seq<Binary64>,
    next: spec_fn(R, Draw) -> (Binary64, R),
    n: nat,
)
    requires
        enclosed(flock, lower, upper),
        draws_in_range(next),
        moderate(lower, upper),
        n <= flock.particles.len(),
    ensures
        enclosed(swept(flock, cost, lower, upper, next, n), lower, upper),
        swept(flock, cost, lower, upper, next, n).particles.len() == flock.particles.len(),
    decreases n,
{
    if n > 0 {
        lemma_sweep_is_enclosed(flock, cost, lower, upper, next, (n - 1) as nat);
        let so_far = swept(flock, cost, lower, upper, next, (n - 1) as nat);
        let moved = so_far.moved_at(n - 1, lower, upper, next);
        let c = cost(moved.particles[n - 1].position);
        law_steps_stay_enclosed(so_far, n - 1, lower, upper, next, c);
        law_steps_stay_enclosed(moved, n - 1, lower, upper, next, c);
    }
}

/// Between bounds of moderate magnitude, every coordinate of the position a search
/// reports is a number within them.
pub proof fn law_search_reports_numbers_in_bounds<R>(
    cost: spec_fn(Seq<Binary64>) -> Binary64,
    lower: Seq<Binary64>,
    upper: Seq<Binary64>,
    g: R,
    next: spec_fn(R, Draw) -> (Binary64, R),
    count: nat,
    k: nat,
)
    requires
        count > 0,
        draws_in_range(next),
        searchable(lower, upper),
        moderate(lower, upper),
    ensures
        inside(searched(cost, lower, upper, g, next, count, k).lead, lower, upper),
{
    lemma_search_is_enclosed(cost, lower, upper, g, next, count, k);
}

proof fn lemma_search_is_enclosed<R>(
    cost: spec_fn(Seq<Binary64>) -> Binary64,
    lower: Seq<Binary64>,
    upper: Seq<Binary64>,
    g: R,
    next: spec_fn(R, Draw) -> (Binary64, R),
    count: nat,
    k: nat,
)
    requires
        count > 0,
        draws_in_range(next),
        searchable(lower, upper),
        moderate(lower, upper),
    ensures
        enclosed(searched(cost, lower, upper, g, next, count, k), lower, upper),
        searched(cost, lower, upper, g, next, count, k).particles.len() == count,
    decreases k,
{
    if k == 0 {
        let start = scattered(lower, upper, g, next, count);
        lemma_ranges_are_ordered(lower, upper);
        lemma_rows_in_range(lower, upper, g, next, count);
        let positions = drawn_rows(lower, upper, g, next, count);
        lemma_velocities_are_calm(lower, upper, positions.1, next, count);
        law_settling_is_enclosed(
            start.0,
            start.1,
            start.0.map_values(cost),
            start.2,
            lower,
            upper,
        );
    } else {
        lemma_search_is_enclosed(cost, lower, upper, g, next, count, (k - 1) as nat);
        lemma_sweep_is_enclosed(
            searched(cost, lower, upper, g, next, count, (k - 1) as nat),
            cost,
            lower,
            upper,
            next,
            count,
        );
    }
}

} // verus!

//! What searches and restarts do, told by the draws they make.
//!
//! A search asks its generator for one number after another. The requests depend on
//! the bounds, the number of particles and the number of sweeps alone, so what is
//! left of the generator, and what each particle does, can be told from them.
use crate::binary64::Binary64;
use crate::cost::{logarithms_of, objective, observations_of, source_cost, SbplCost};
use crate::elementary::Elementary;
use crate::fit::restarted;
use crate::generator::{drained, law_draining_goes_on, Draw};
use crate::numbers::{ATTRACTION, INERTIA, MINUS_TENTH, N_PARAMS, TENTH};
use crate::polish::{refined, Task};
use crate::search::{cost_of, drawn_row, drawn_rows, searchable, searched, span_part, swept};
use crate::source::{PsoConfig, Source};
use crate::swarm::{flight, Flock, Particle};
use vstd::arithmetic::div_mod::{
    lemma_fundamental_div_mod_converse, lemma_mod_multiples_vanish,
};
use vstd::prelude::*;

verus! {

/// That many unit draws.
pub open spec fn unit_draws(n: nat) -> Seq<Draw> {
    Seq::new(n, |i: int| Draw::Unit)
}

/// That many draws, from the ranges of one row after another.
spec fn range_draws(low: Seq<Binary64>, high: Seq<Binary64>, n: nat) -> Seq<Draw> {
    Seq::new(n, |i: int| Draw::Range(low[i % N_PARAMS as int], high[i % N_PARAMS as int]))
}

proof fn lemma_units_add(a: nat, b: nat)
    ensures
        unit_draws(a) + unit_draws(b) == unit_draws(a + b),
{
    assert(unit_draws(a) + unit_draws(b) =~= unit_draws(a + b));
}

/// One request more.
proof fn lemma_drained_push<R>(
    g: R,
    requests: Seq<Draw>,
    q: Draw,
    next: spec_fn(R, Draw) -> (Binary64, R),
)
    ensures
        drained(g, requests.push(q), next) == next(drained(g, requests, next), q).1,
{
    assert(requests.push(q).drop_last() =~= requests);
}

/// A row draws its ranges in order.
proof fn lemma_row_draws<R>(
    low: Seq<Binary64>,
    high: Seq<Binary64>,
    g: R,
    next: spec_fn(R, Draw) -> (Binary64, R),
    n: nat,
)
    requires
        n <= N_PARAMS,
    ensures
        drawn_row(low, high, g, next, n).1 == drained(g, range_draws(low, high, n), next),
        drawn_row(low, high, g, next, n).0.len() == n,
        forall|d: int|
            0 <= d < n ==> #[trigger] drawn_row(low, high, g, next, n).0[d] == next(
                drained(g, range_draws(low, high, d as nat), next),
                Draw::Range(low[d], high[d]),
            ).0,
    decreases n,
{
    if n > 0 {
        let m = (n - 1) as nat;
        lemma_row_draws(low, high, g, next, m);
        let q = Draw::Range(low[m as int], high[m as int]);
        lemma_drained_push(g, range_draws(low, high, m), q, next);
        assert(range_draws(low, high, m).push(q) =~= range_draws(low, high, n));
    }
}

/// Whole rows before, and a part of one behind them.
proof fn lemma_ranges_add(low: Seq<Binary64>, high: Seq<Binary64>, rows: nat, n: nat)
    ensures
        range_draws(low, high, rows * N_PARAMS as nat) + range_draws(low, high, n) == range_draws(
            low,
            high,
            rows * N_PARAMS as nat + n,
        ),
{
    let w = N_PARAMS as int;
    let a = range_draws(low, high, rows * N_PARAMS as nat);
    let b = range_draws(low, high, n);
    let c = range_draws(low, high, rows * N_PARAMS as nat + n);
    assert forall|i: int| 0 <= i < c.len() implies (a + b)[i] == c[i] by {
        if i >= a.len() {
            let j = i - a.len();
            assert(i % w == j % w) by {
                lemma_mod_multiples_vanish(rows as int, j, w);
                assert(w * rows + j == i) by (nonlinear_arith)
                    requires
                        j == i - rows * w,
                ;
            }
        }
    }
    assert(a + b =~= c);
}

/// Rows are drawn one after another.
proof fn lemma_rows_draw<R>(
    low: Seq<Binary64>,
    high: Seq<Binary64>,
    g: R,
    next: spec_fn(R, Draw) -> (Binary64, R),
    count: nat,
)
    ensures
        drawn_rows(low, high, g, next, count).1 == drained(
            g,
            range_draws(low, high, count * N_PARAMS as nat),
            next,
        ),
        drawn_rows(low, high, g, next, count).0.len() == count,
        forall|i: int|
            0 <= i < count ==> (#[trigger] drawn_rows(low, high, g, next, count).0[i]).len()
                == N_PARAMS,
        forall|i: int, d: int|
            0 <= i < count && 0 <= d < N_PARAMS ==> #[trigger] drawn_rows(
                low,
                high,
                g,
                next,
                count,
            ).0[i][d] == next(
                drained(g, range_draws(low, high, (i * N_PARAMS + d) as nat), next),
                Draw::Range(low[d], high[d]),
            ).0,
    decreases count,
{
    let w = N_PARAMS as nat;
    if count == 0 {
        assert(range_draws(low, high, 0) =~= seq![]);
    } else {
        let m = (count - 1) as nat;
        lemma_rows_draw(low, high, g, next, m);
        let so_far = drawn_rows(low, high, g, next, m);
        let before = range_draws(low, high, m * w);
        lemma_row_draws(low, high, so_far.1, next, w);
        law_draining_goes_on(g, before, range_draws(low, high, w), next);
        lemma_ranges_add(low, high, m, w);
        assert(m * w + w == count * w) by (nonlinear_arith)
            requires
                m == count - 1,
        ;
        let all = drawn_rows(low, high, g, next, count).0;
        assert forall|i: int, d: int| 0 <= i < count && 0 <= d < N_PARAMS implies #[trigger] all[i][d]
            == next(
            drained(g, range_draws(low, high, (i * N_PARAMS + d) as nat), next),
            Draw::Range(low[d], high[d]),
        ).0 by {
            if i < m {
                assert(all[i] == so_far.0[i]);
                assert(so_far.0[i][d] == all[i][d]);
            } else {
                let row = drawn_row(low, high, so_far.1, next, w).0;
                assert(all[i] == row);
                assert(row[d] == all[i][d]);
                law_draining_goes_on(g, before, range_draws(low, high, d as nat), next);
                lemma_ranges_add(low, high, m, d as nat);
            }
        }
        assert forall|i: int| 0 <= i < count implies (#[trigger] all[i]).len() == N_PARAMS by {
            if i < m {
                assert(all[i] == so_far.0[i]);
            }
        }
    }
}

/// A step draws two unit numbers per coordinate.
pub proof fn lemma_flight_draws<R>(
    p: Particle,
    lead: Seq<Binary64>,
    lower: Seq<Binary64>,
    upper: Seq<Binary64>,
    g: R,
    next: spec_fn(R, Draw) -> (Binary64, R),
    n: nat,
)
    ensures
        ({
            let step = flight(p, lead, lower, upper, g, next, n);
            &&& step.generator == drained(g, unit_draws(2 * n), next)
            &&& step.position.len() == n
            &&& step.velocity.len() == n
            &&& forall|d: int|
                0 <= d < n ==> {
                    let first = next(drained(g, unit_draws((2 * d) as nat), next), Draw::Unit).0;
                    let second = next(
                        drained(g, unit_draws((2 * d + 1) as nat), next),
                        Draw::Unit,
                    ).0;
                    let pull = Binary64 { bits: ATTRACTION };
                    #[trigger] step.velocity[d] == Binary64 { bits: INERTIA }.times(
                        p.velocity[d],
                    ).plus(pull.times(first).times(p.best[d].minus(p.position[d]))).plus(
                        pull.times(second).times(lead[d].minus(p.position[d])),
                    )
                }
            &&& forall|d: int|
                0 <= d < n ==> #[trigger] step.position[d] == p.position[d].plus(
                    step.velocity[d],
                ).clamp(lower[d], upper[d])
        }),
    decreases n,
{
    if n == 0 {
        assert(unit_draws(0) =~= seq![]);
    } else {
        let m = (n - 1) as nat;
        lemma_flight_draws(p, lead, lower, upper, g, next, m);
        lemma_drained_push(g, unit_draws(2 * m), Draw::Unit, next);
        assert(unit_draws(2 * m).push(Draw::Unit) =~= unit_draws(2 * m + 1));
        lemma_drained_push(g, unit_draws(2 * m + 1), Draw::Unit, next);
        assert(unit_draws(2 * m + 1).push(Draw::Unit) =~= unit_draws(2 * n));
    }
}

/// In a sweep the particles are visited in order. Each is moved once, with two unit
/// draws per coordinate: its velocity is what inertia leaves of it, and random pulls
/// towards its own best and towards the lead; its position is kept between the
/// bounds. Then it is scored once, and its best and the lead follow where the score
/// is below theirs. Nothing else changes.
pub proof fn law_sweep_visits_each_particle<R>(
    flock: Flock<R>,
    cost: spec_fn(Seq<Binary64>) -> Binary64,
    lower: Seq<Binary64>,
    upper: Seq<Binary64>,
    next: spec_fn(R, Draw) -> (Binary64, R),
    i: nat,
)
    requires
        i < flock.particles.len(),
    ensures
        swept(flock, cost, lower, upper, next, 0) == flock,
        ({
            let old_flock = swept(flock, cost, lower, upper, next, i);
            let new_flock = swept(flock, cost, lower, upper, next, i + 1);
            let was = old_flock.particles[i as int];
            let is = new_flock.particles[i as int];
            let g = old_flock.generator;
            let score = cost(is.position);
            &&& old_flock.particles.len() == flock.particles.len()
            &&& new_flock.particles.len() == flock.particles.len()
            &&& new_flock.generator == drained(g, unit_draws(14), next)
            &&& forall|j: int|
                0 <= j < flock.particles.len() && j != i ==> #[trigger] new_flock.particles[j]
                    == old_flock.particles[j]
            &&& is.position.len() == N_PARAMS
            &&& is.velocity.len() == N_PARAMS
            &&& forall|d: int|
                0 <= d < N_PARAMS ==> {
                    let first = next(drained(g, unit_draws((2 * d) as nat), next), Draw::Unit).0;
                    let second = next(
                        drained(g, unit_draws((2 * d + 1) as nat), next),
                        Draw::Unit,
                    ).0;
                    let pull = Binary64 { bits: ATTRACTION };
                    #[trigger] is.velocity[d] == Binary64 { bits: INERTIA }.times(
                        was.velocity[d],
                    ).plus(pull.times(first).times(was.best[d].minus(was.position[d]))).plus(
                        pull.times(second).times(old_flock.lead[d].minus(was.position[d])),
                    )
                }
            &&& forall|d: int|
                0 <= d < N_PARAMS ==> #[trigger] is.position[d] == was.position[d].plus(
                    is.velocity[d],
                ).clamp(lower[d], upper[d])
            &&& score.lt(was.best_cost) ==> is.best == is.position && is.best_cost == score
            &&& !score.lt(was.best_cost) ==> is.best == was.best && is.best_cost == was.best_cost
            &&& score.lt(old_flock.lead_cost) ==> new_flock.lead == is.position
                && new_flock.lead_cost == score
            &&& !score.lt(old_flock.lead_cost) ==> new_flock.lead == old_flock.lead
                && new_flock.lead_cost == old_flock.lead_cost
        }),
{
    lemma_swept_length(flock, cost, lower, upper, next, i);
    let so_far = swept(flock, cost, lower, upper, next, i);
    let w = N_PARAMS as nat;
    lemma_flight_draws(
        so_far.particles[i as int],
        so_far.lead,
        lower,
        upper,
        so_far.generator,
        next,
        w,
    );
}

proof fn lemma_swept_length<R>(
    flock: Flock<R>,
    cost: spec_fn(Seq<Binary64>) -> Binary64,
    lower: Seq<Binary64>,
    upper: Seq<Binary64>,
    next: spec_fn(R, Draw) -> (Binary64, R),
    n: nat,
)
    requires
        n <= flock.particles.len(),
    ensures
        swept(flock, cost, lower, upper, next, n).particles.len() == flock.particles.len(),
    decreases n,
{
    if n > 0 {
        lemma_swept_length(flock, cost, lower, upper, next, (n - 1) as nat);
    }
}

/// Every sweep that a search is asked for is made, over every particle.
pub proof fn law_every_sweep_is_made<R>(
    cost: spec_fn(Seq<Binary64>) -> Binary64,
    lower: Seq<Binary64>,
    upper: Seq<Binary64>,
    g: R,
    next: spec_fn(R, Draw) -> (Binary64, R),
    count: nat,
    k: nat,
)
    ensures
        searched(cost, lower, upper, g, next, count, k + 1) == swept(
            searched(cost, lower, upper, g, next, count, k),
            cost,
            lower,
            upper,
            next,
            count,
        ),
        searched(cost, lower, upper, g, next, count, k).particles.len() == count,
    decreases k,
{
    if k == 0 {
        lemma_rows_draw(lower, upper, g, next, count);
    } else {
        law_every_sweep_is_made(cost, lower, upper, g, next, count, (k - 1) as nat);
        lemma_swept_length(
            searched(cost, lower, upper, g, next, count, (k - 1) as nat),
            cost,
            lower,
            upper,
            next,
            count,
        );
    }
}

/// The first positions are drawn particle by particle and coordinate by coordinate,
/// each between its bounds; then, in the same order, the first velocities, each up to
/// a tenth of the span either way. Every particle remembers where it starts, and the
/// lead is the start of some particle.
pub proof fn law_first_swarm_is_drawn<R>(
    cost: spec_fn(Seq<Binary64>) -> Binary64,
    lower: Seq<Binary64>,
    upper: Seq<Binary64>,
    g: R,
    next: spec_fn(R, Draw) -> (Binary64, R),
    count: nat,
    requests: Seq<Draw>,
)
    requires
        count > 0,
        requests.len() == 14 * count,
        forall|i: int|
            0 <= i < 7 * count ==> #[trigger] requests[i] == Draw::Range(lower[i % 7], upper[i % 7]),
        forall|i: int|
            7 * count <= i < 14 * count ==> #[trigger] requests[i] == Draw::Range(
                Binary64 { bits: MINUS_TENTH }.times(upper[i % 7].minus(lower[i % 7])),
                Binary64 { bits: TENTH }.times(upper[i % 7].minus(lower[i % 7])),
            ),
    ensures
        ({
            let flock = searched(cost, lower, upper, g, next, count, 0);
            &&& flock.generator == drained(g, requests, next)
            &&& flock.particles.len() == count
            &&& exists|i: int|
                0 <= i < count && flock.lead == (#[trigger] flock.particles[i]).position
                    && flock.lead_cost == cost(flock.lead)
            &&& forall|i: int|
                0 <= i < count ==> {
                    let p = #[trigger] flock.particles[i];
                    &&& p.position.len() == N_PARAMS
                    &&& p.velocity.len() == N_PARAMS
                    &&& p.best == p.position
                    &&& p.best_cost == cost(p.position)
                    &&& !p.best_cost.lt(flock.lead_cost)
                }
            &&& forall|i: int, d: int|
                0 <= i < count && 0 <= d < N_PARAMS ==> {
                    let at = 7 * i + d;
                    let late = 7 * count + at;
                    &&& #[trigger] flock.particles[i].position[d] == next(
                        drained(g, requests.subrange(0, at), next),
                        requests[at],
                    ).0
                    &&& flock.particles[i].velocity[d] == next(
                        drained(g, requests.subrange(0, late), next),
                        requests[late],
                    ).0
                }
        }),
        ({
            let flock = searched(cost, lower, upper, g, next, count, 0);
            (forall|i: int|
                0 <= i < count ==> !(#[trigger] flock.particles[i]).best_cost.is_nan()) ==> exists|
                k: int,
            |
                {
                    &&& 0 <= k < count
                    &&& flock.lead == (#[trigger] flock.particles[k]).position
                    &&& forall|i: int|
                        0 <= i < k ==> flock.lead_cost.lt(
                            (#[trigger] flock.particles[i]).best_cost,
                        )
                }
        }),
{
    let w = N_PARAMS as nat;
    let slow = span_part(Binary64 { bits: MINUS_TENTH }, lower, upper);
    let fast = span_part(Binary64 { bits: TENTH }, lower, upper);
    let flock = searched(cost, lower, upper, g, next, count, 0);
    let first = drawn_rows(lower, upper, g, next, count);
    let second = drawn_rows(slow, fast, first.1, next, count);
    lemma_rows_draw(lower, upper, g, next, count);
    lemma_rows_draw(slow, fast, first.1, next, count);
    let a = range_draws(lower, upper, count * w);
    let b = range_draws(slow, fast, count * w);
    assert(count * w == 7 * count) by (nonlinear_arith)
        requires
            w == 7,
    ;
    law_draining_goes_on(g, a, b, next);
    assert forall|i: int| 0 <= i < requests.len() implies (a + b)[i] == requests[i] by {
        if i >= 7 * count {
            let j = i - 7 * count;
            assert(j % 7 == i % 7) by {
                lemma_mod_multiples_vanish(count as int, j, 7);
            }
        }
    }
    assert(a + b =~= requests);
    crate::search::law_search_is_truthful(cost, lower, upper, g, next, count, 0);
    crate::swarm::lemma_front_is_one_of(first.0.map_values(cost), count);
    let costs = first.0.map_values(cost);
    let lead = crate::swarm::front(costs, count);
    if forall|i: int| 0 <= i < count ==> !(#[trigger] flock.particles[i]).best_cost.is_nan() {
        assert forall|i: int| 0 <= i < count implies !(#[trigger] costs[i]).is_nan() by {
            assert(flock.particles[i].best_cost == costs[i]);
        }
        crate::swarm::lemma_front_is_first(costs, count);
        assert forall|i: int| 0 <= i < lead implies flock.lead_cost.lt(
            (#[trigger] flock.particles[i]).best_cost,
        ) by {
            assert(flock.particles[i].best_cost == costs[i]);
        }
    }
    assert(flock.lead == flock.particles[lead].position);
    assert forall|i: int, d: int| 0 <= i < count && 0 <= d < N_PARAMS implies {
        let at = 7 * i + d;
        let late = 7 * count + at;
        &&& #[trigger] flock.particles[i].position[d] == next(
            drained(g, requests.subrange(0, at), next),
            requests[at],
        ).0
        &&& flock.particles[i].velocity[d] == next(
            drained(g, requests.subrange(0, late), next),
            requests[late],
        ).0
    } by {
        let at = 7 * i + d;
        assert(at < 7 * count);
        lemma_fundamental_div_mod_converse(at, 7, i, d);
        assert(flock.particles[i].position == first.0[i]);
        assert(flock.particles[i].velocity == second.0[i]);
        assert(first.0[i][d] == flock.particles[i].position[d]);
        assert(second.0[i][d] == flock.particles[i].velocity[d]);
        assert(requests.subrange(0, at) =~= range_draws(lower, upper, at as nat));
        let late = 7 * count + at;
        assert(requests.subrange(0, late) =~= a + range_draws(slow, fast, at as nat)) by {
            assert forall|j: int| 0 <= j < late implies requests[j] == (a + range_draws(
                slow,
                fast,
                at as nat,
            ))[j] by {
                assert((a + b)[j] == requests[j]);
            }
        }
        law_draining_goes_on(g, a, range_draws(slow, fast, at as nat), next);
        assert(late % 7 == d) by {
            lemma_fundamental_div_mod_converse(late, 7, count + i, d);
        }
    }
    assert forall|i: int| 0 <= i < count implies {
        let p = #[trigger] flock.particles[i];
        &&& p.position.len() == N_PARAMS
        &&& p.velocity.len() == N_PARAMS
        &&& p.best == p.position
        &&& p.best_cost == cost(p.position)
        &&& !p.best_cost.lt(flock.lead_cost)
    } by {
        assert(flock.particles[i].position == first.0[i]);
        assert(flock.particles[i].velocity == second.0[i]);
        assert(first.0[i].len() == N_PARAMS);
        assert(second.0[i].len() == N_PARAMS);
    }
}

proof fn lemma_swept_generator<R>(
    flock: Flock<R>,
    cost: spec_fn(Seq<Binary64>) -> Binary64,
    lower: Seq<Binary64>,
    upper: Seq<Binary64>,
    next: spec_fn(R, Draw) -> (Binary64, R),
    n: nat,
)
    requires
        n <= flock.particles.len(),
    ensures
        swept(flock, cost, lower, upper, next, n).generator == drained(
            flock.generator,
            unit_draws(14 * n),
            next,
        ),
    decreases n,
{
    if n == 0 {
        assert(unit_draws(0) =~= seq![]);
    } else {
        let m = (n - 1) as nat;
        lemma_swept_generator(flock, cost, lower, upper, next, m);
        law_sweep_visits_each_particle(flock, cost, lower, upper, next, m);
        law_draining_goes_on(flock.generator, unit_draws(14 * m), unit_draws(14), next);
        lemma_units_add(14 * m, 14);
    }
}

/// A search makes 14 draws per particle to start with, and 14 more per particle in
/// every sweep: what is left of the generator is what these draws leave.
pub proof fn law_search_makes_these_draws<R>(
    cost: spec_fn(Seq<Binary64>) -> Binary64,
    lower: Seq<Binary64>,
    upper: Seq<Binary64>,
    g: R,
    next: spec_fn(R, Draw) -> (Binary64, R),
    count: nat,
    k: nat,
    requests: Seq<Draw>,
)
    requires
        count > 0,
        requests.len() == 14 * count * (1 + k),
        forall|i: int|
            0 <= i < 7 * count ==> #[trigger] requests[i] == Draw::Range(lower[i % 7], upper[i % 7]),
        forall|i: int|
            7 * count <= i < 14 * count ==> #[trigger] requests[i] == Draw::Range(
                Binary64 { bits: MINUS_TENTH }.times(upper[i % 7].minus(lower[i % 7])),
                Binary64 { bits: TENTH }.times(upper[i % 7].minus(lower[i % 7])),
            ),
        forall|i: int| 14 * count <= i < requests.len() ==> #[trigger] requests[i] == Draw::Unit,
    ensures
        searched(cost, lower, upper, g, next, count, k).generator == drained(g, requests, next),
    decreases k,
{
    let size = 14 * count;
    if k == 0 {
        assert(14 * count * (1 + k) == 14 * count) by (nonlinear_arith)
            requires
                k == 0,
        ;
        law_first_swarm_is_drawn(cost, lower, upper, g, next, count, requests);
    } else {
        let m = (k - 1) as nat;
        assert(14 * count * (1 + k) == 14 * count * (1 + m) + 14 * count && 14 * count * (1 + m)
            >= 14 * count) by (nonlinear_arith)
            requires
                k == m + 1,
        ;
        let before = requests.subrange(0, (14 * count * (1 + m)) as int);
        law_search_makes_these_draws(cost, lower, upper, g, next, count, m, before);
        law_every_sweep_is_made(cost, lower, upper, g, next, count, m);
        let flock = searched(cost, lower, upper, g, next, count, m);
        lemma_swept_generator(flock, cost, lower, upper, next, count);
        law_draining_goes_on(g, before, unit_draws(14 * count), next);
        assert(before + unit_draws(14 * count) =~= requests);
    }
}

/// The restarts of a fit share one stream of draws. A restart makes the draws `one`,
/// so all that `n` restarts draw is `one` over and over; restart `i` searches with
/// the generator that is left after `i` times those draws, and polishes what its
/// search found.
pub proof fn law_restarts_share_the_draws<R>(
    s: Source,
    c: PsoConfig,
    g: R,
    next: spec_fn(R, Draw) -> (Binary64, R),
    suggest: spec_fn(Task) -> Option<Seq<Binary64>>,
    f: spec_fn(Elementary) -> Binary64,
    n: nat,
    one: Seq<Draw>,
    all: Seq<Draw>,
)
    requires
        c.n_particles > 0,
        one.len() == 14 * c.n_particles * (1 + c.n_iters),
        forall|i: int|
            0 <= i < 7 * c.n_particles ==> #[trigger] one[i] == Draw::Range(
                s.lower[i % 7],
                s.upper[i % 7],
            ),
        forall|i: int|
            7 * c.n_particles <= i < 14 * c.n_particles ==> #[trigger] one[i] == Draw::Range(
                Binary64 { bits: MINUS_TENTH }.times(s.upper[i % 7].minus(s.lower[i % 7])),
                Binary64 { bits: TENTH }.times(s.upper[i % 7].minus(s.lower[i % 7])),
            ),
        forall|i: int| 14 * c.n_particles <= i < one.len() ==> #[trigger] one[i] == Draw::Unit,
        all.len() == n * one.len(),
        forall|j: int| 0 <= j < all.len() ==> #[trigger] all[j] == one[j % one.len() as int],
    ensures
        restarted(s, c, g, next, suggest, f, n).1 == drained(g, all, next),
        restarted(s, c, g, next, suggest, f, n).0.len() == n,
        forall|i: int|
            0 <= i < n ==> {
                let end = searched(
                    source_cost(s, f),
                    s.lower,
                    s.upper,
                    drained(g, all.subrange(0, i * one.len()), next),
                    next,
                    c.n_particles as nat,
                    c.n_iters as nat,
                );
                #[trigger] restarted(s, c, g, next, suggest, f, n).0[i] == refined(
                    observations_of(s),
                    logarithms_of(s, f),
                    end.lead,
                    end.lead_cost,
                    s.lower,
                    s.upper,
                    suggest,
                    f,
                )
            },
    decreases n,
{
    let size = one.len();
    if n == 0 {
        assert(all.len() == 0) by (nonlinear_arith)
            requires
                all.len() == n * size,
                n == 0,
        ;
    } else {
        let m = (n - 1) as nat;
        assert(m * size + size == n * size && m * size >= 0) by (nonlinear_arith)
            requires
                m == n - 1,
        ;
        let before = all.subrange(0, (m * size) as int);
        assert forall|j: int| 0 <= j < before.len() implies #[trigger] before[j] == one[j
            % size as int] by {
            assert(before[j] == all[j]);
        }
        law_restarts_share_the_draws(s, c, g, next, suggest, f, m, one, before);
        let so_far = restarted(s, c, g, next, suggest, f, m);
        law_search_makes_these_draws(
            source_cost(s, f),
            s.lower,
            s.upper,
            so_far.1,
            next,
            c.n_particles as nat,
            c.n_iters as nat,
            one,
        );
        law_draining_goes_on(g, before, one, next);
        assert forall|j: int| 0 <= j < all.len() implies (before + one)[j] == all[j] by {
            if j >= m * size {
                let d = j - m * size;
                lemma_fundamental_div_mod_converse(j, size as int, m as int, d);
            }
        }
        assert(before + one =~= all);
        let ends = restarted(s, c, g, next, suggest, f, n).0;
        assert forall|i: int| 0 <= i < n implies {
            let end = searched(
                source_cost(s, f),
                s.lower,
                s.upper,
                drained(g, all.subrange(0, i * size), next),
                next,
                c.n_particles as nat,
                c.n_iters as nat,
            );
            #[trigger] ends[i] == refined(
                observations_of(s),
                logarithms_of(s, f),
                end.lead,
                end.lead_cost,
                s.lower,
                s.upper,
                suggest,
                f,
            )
        } by {
            if i < m {
                assert(ends[i] == so_far.0[i]);
                assert(0 <= i * size <= m * size) by (nonlinear_arith)
                    requires
                        0 <= i <= m,
                ;
                assert(before.subrange(0, i * size) =~= all.subrange(0, i * size));
            } else {
                assert(i * size == m * size);
            }
        }
    }
}

/// A fit may be broken off and taken up again: `k` restarts, and `n` more on the
/// generator that they leave, are the first `k + n` restarts.
pub proof fn law_restarts_go_on<R>(
    s: Source,
    c: PsoConfig,
    g: R,
    next: spec_fn(R, Draw) -> (Binary64, R),
    suggest: spec_fn(Task) -> Option<Seq<Binary64>>,
    f: spec_fn(Elementary) -> Binary64,
    k: nat,
    n: nat,
)
    ensures
        ({
            let first = restarted(s, c, g, next, suggest, f, k);
            let more = restarted(s, c, first.1, next, suggest, f, n);
            restarted(s, c, g, next, suggest, f, k + n) == (first.0 + more.0, more.1)
        }),
    decreases n,
{
    let first = restarted(s, c, g, next, suggest, f, k);
    let more = restarted(s, c, first.1, next, suggest, f, n);
    let all = restarted(s, c, g, next, suggest, f, k + n);
    if n == 0 {
        assert(first.0 + more.0 =~= all.0);
    } else {
        law_restarts_go_on(s, c, g, next, suggest, f, k, (n - 1) as nat);
        assert(k + (n - 1) as nat == (k + n - 1) as nat);
        assert(first.0 + more.0 =~= all.0);
    }
}

/// What a search minimises is the objective of its problem; it can search where each
/// lower bound is below the upper one.
pub proof fn law_search_is_of_the_objective(
    problem: SbplCost,
    f: spec_fn(Elementary) -> Binary64,
    p: Seq<Binary64>,
    lower: Seq<Binary64>,
    upper: Seq<Binary64>,
)
    ensures
        cost_of(problem, f)(p) == objective(problem.obs(), problem.log_frequencies(), p, f).0,
        searchable(lower, upper) <==> lower[0].lt(upper[0]) && lower[1].lt(upper[1])
            && lower[2].lt(upper[2]) && lower[3].lt(upper[3]) && lower[4].lt(upper[4])
            && lower[5].lt(upper[5]) && lower[6].lt(upper[6]),
{
}

} // verus!

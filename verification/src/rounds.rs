//! What the swarms of a batch do, told generation by generation.
use crate::batch_fit::{gathered, polished_batch, polished_end, restart_seed, restart_seeds};
use crate::binary64::Binary64;
use crate::conduct::{lemma_flight_draws, unit_draws};
use crate::cost::{logarithms_of, objective, observations_of};
use crate::elementary::Elementary;
use crate::fit::assembled;
use crate::generator::{drained, Draw};
use crate::numbers::{ATTRACTION, INERTIA, MINUS_TENTH, N_PARAMS, TENTH};
use crate::polish::{refined, Task};
use crate::side_by_side::{
    asked, batch_ends, batch_rows, flown, hatched, judged, packed, part, parts, placed, replayed,
    settings, sources_of, steerable, swarm_size, Setting,
};
use crate::source::{PreparedSource, Source};
use crate::swarm::{
    front, lemma_front_is_first, lemma_front_is_least, lemma_front_is_one_of, Flock,
};
use vstd::arithmetic::div_mod::lemma_fundamental_div_mod_converse;
use vstd::prelude::*;

verus! {

/// The swarm of source `s` and seed `r` stands at place s * n + r, where n is the
/// number of seeds. Its generator is sown from the seed xor the source's key, and its
/// bounds are the source's, the onset counted from the reference time.
pub proof fn law_swarm_settings<R>(
    sources: Seq<Source>,
    batch_seeds: Seq<u64>,
    sown: spec_fn(u64) -> R,
    s: int,
    r: int,
)
    requires
        0 <= s < sources.len(),
        0 <= r < batch_seeds.len(),
        sources[s].lower.len() == N_PARAMS,
        sources[s].upper.len() == N_PARAMS,
    ensures
        settings(sources, batch_seeds, sown).len() == sources.len() * batch_seeds.len(),
        0 <= s * batch_seeds.len() + r < sources.len() * batch_seeds.len(),
        ({
            let start = settings(sources, batch_seeds, sown)[s * batch_seeds.len() + r];
            &&& start.generator == sown(batch_seeds[r] ^ sources[s].seed_key)
            &&& start.lower.len() == N_PARAMS
            &&& start.upper.len() == N_PARAMS
            &&& start.lower[6] == sources[s].lower[6].minus(sources[s].t_ref)
            &&& start.upper[6] == sources[s].upper[6].minus(sources[s].t_ref)
            &&& forall|d: int|
                0 <= d < 6 ==> #[trigger] start.lower[d] == sources[s].lower[d] && start.upper[d]
                    == sources[s].upper[d]
        }),
{
    let n = batch_seeds.len() as int;
    assert(0 <= s * n + r < sources.len() * n) by (nonlinear_arith)
        requires
            0 <= s < sources.len(),
            0 <= r < n,
    ;
    lemma_fundamental_div_mod_converse(s * n + r, n, s, r);
}

/// Where different seeds give different generators, the swarms of one source on
/// different seeds start with different generators, and so do swarms on one seed of
/// sources with different keys.
pub proof fn law_seeds_set_swarms_apart<R>(
    sources: Seq<Source>,
    batch_seeds: Seq<u64>,
    sown: spec_fn(u64) -> R,
    s1: int,
    r1: int,
    s2: int,
    r2: int,
)
    requires
        forall|a: u64, b: u64| #[trigger] sown(a) == #[trigger] sown(b) ==> a == b,
        0 <= s1 < sources.len(),
        0 <= s2 < sources.len(),
        0 <= r1 < batch_seeds.len(),
        0 <= r2 < batch_seeds.len(),
    ensures
        ({
            let starts = settings(sources, batch_seeds, sown);
            let first = starts[s1 * batch_seeds.len() + r1].generator;
            let second = starts[s2 * batch_seeds.len() + r2].generator;
            &&& sources[s1].seed_key == sources[s2].seed_key ==> (first == second
                <==> batch_seeds[r1] == batch_seeds[r2])
            &&& batch_seeds[r1] == batch_seeds[r2] ==> (first == second <==> sources[s1].seed_key
                == sources[s2].seed_key)
        }),
{
    let n = batch_seeds.len() as int;
    assert(0 <= s1 * n + r1 < sources.len() * n) by (nonlinear_arith)
        requires
            0 <= s1 < sources.len(),
            0 <= r1 < n,
    ;
    assert(0 <= s2 * n + r2 < sources.len() * n) by (nonlinear_arith)
        requires
            0 <= s2 < sources.len(),
            0 <= r2 < n,
    ;
    lemma_fundamental_div_mod_converse(s1 * n + r1, n, s1, r1);
    lemma_fundamental_div_mod_converse(s2 * n + r2, n, s2, r2);
    let a = batch_seeds[r1];
    let b = batch_seeds[r2];
    let x = sources[s1].seed_key;
    let y = sources[s2].seed_key;
    assert(x == y ==> (a ^ x == b ^ y <==> a == b)) by (bit_vector);
    assert(a == b ==> (a ^ x == b ^ y <==> x == y)) by (bit_vector);
}

/// The seed of the first restart is the configured one, and each further restart adds
/// the same step, wrapping round.
pub proof fn law_restart_seeds_step(seed: u64, r: u64, n: nat)
    requires
        r < u64::MAX,
    ensures
        restart_seed(seed, 0) == seed,
        restart_seed(seed, (r + 1) as u64) == (restart_seed(seed, r) + 0x9e37_79b9_7f4a_7c15)
            % 0x1_0000_0000_0000_0000,
        restart_seeds(seed, n).len() == n,
        forall|i: int|
            0 <= i < n ==> #[trigger] restart_seeds(seed, n)[i] == restart_seed(seed, i as u64),
{
    let m: int = 0x1_0000_0000_0000_0000;
    let step: int = 0x9e37_79b9_7f4a_7c15;
    let a = (r * step) % m;
    let b = ((r + 1) * step) % m;
    assert((r + 1) * step == r * step + step) by (nonlinear_arith);
    assert(b == (a + step) % m) by {
        vstd::arithmetic::div_mod::lemma_add_mod_noop(r * step, step, m);
        vstd::arithmetic::div_mod::lemma_small_mod(step as nat, m as nat);
    }
    vstd::arithmetic::div_mod::lemma_add_mod_noop(seed as int, (r + 1) * step, m);
    vstd::arithmetic::div_mod::lemma_add_mod_noop(seed as int, r * step, m);
    vstd::arithmetic::div_mod::lemma_add_mod_noop(seed + r * step, step, m);
    vstd::arithmetic::div_mod::lemma_small_mod(seed as nat, m as nat);
    vstd::arithmetic::div_mod::lemma_small_mod(step as nat, m as nat);
    assert(restart_seed(seed, r) == (seed + a) % m);
    assert(restart_seed(seed, (r + 1) as u64) == (seed + b) % m);
}

/// A swarm of a batch holds as many particles as asked for, and at least one.
pub proof fn law_swarms_are_not_empty(n: usize)
    ensures
        swarm_size(n) >= 1,
        n >= 1 ==> swarm_size(n) == n,
        swarm_size(0) == 1,
{
}

/// The first swarm, drawn particle by particle and coordinate by coordinate: a place
/// between the bounds, then a speed of up to a tenth of the span either way. A
/// coordinate without room between its bounds is not drawn: it rests at the lower
/// one. Every particle remembers where it starts, with the score it got, and the lead
/// is the start of some particle, of no higher a score than any other.
pub proof fn law_batch_swarm_is_drawn<R>(
    start: Setting<R>,
    next: spec_fn(R, Draw) -> (Binary64, R),
    count: nat,
    log: Seq<Seq<Binary64>>,
    places: Seq<Binary64>,
    speeds: Seq<Binary64>,
    g: Seq<R>,
)
    requires
        count > 0,
        log.len() > 0,
        log[0].len() == count,
        places.len() == 7 * count,
        g[0] == start.generator,
        forall|j: int|
            0 <= j < places.len() ==> {
                let low = start.lower[j % 7];
                let high = start.upper[j % 7];
                let span = high.minus(low);
                let place = next(g[j], Draw::Range(low, high));
                let speed = next(
                    place.1,
                    Draw::Range(
                        (Binary64 { bits: MINUS_TENTH }).times(span),
                        (Binary64 { bits: TENTH }).times(span),
                    ),
                );
                let room = Binary64::zero().lt(span);
                &&& #[trigger] places[j] == if room { place.0 } else { low }
                &&& speeds[j] == if room { speed.0 } else { Binary64::zero() }
                &&& g[j + 1] == if room { speed.1 } else { g[j] }
            },
    ensures
        ({
            let flock = replayed(start, next, count, log, 0);
            &&& flock.particles.len() == count
            &&& flock.generator == g[7 * count as int]
            &&& asked(start, next, count, log, 0).len() == count
            &&& forall|i: int|
                0 <= i < count ==> {
                    let p = #[trigger] flock.particles[i];
                    &&& p.position.len() == N_PARAMS
                    &&& p.velocity.len() == N_PARAMS
                    &&& p.best == p.position
                    &&& p.best_cost == log[0][i]
                    &&& asked(start, next, count, log, 0)[i] == p.position
                }
            &&& forall|i: int, d: int|
                0 <= i < count && 0 <= d < N_PARAMS ==> #[trigger] flock.particles[i].position[d]
                    == places[7 * i + d] && flock.particles[i].velocity[d] == speeds[7 * i + d]
            &&& exists|i: int|
                0 <= i < count && flock.lead == (#[trigger] flock.particles[i]).position
                    && flock.lead_cost == log[0][i]
            &&& forall|i: int| 0 <= i < count ==> !(#[trigger] log[0][i]).lt(flock.lead_cost)
        }),
        ({
            let flock = replayed(start, next, count, log, 0);
            (forall|i: int| 0 <= i < count ==> !(#[trigger] log[0][i]).is_nan()) ==> exists|k: int|
                {
                    &&& 0 <= k < count
                    &&& flock.lead == (#[trigger] flock.particles[k]).position
                    &&& flock.lead_cost == log[0][k]
                    &&& forall|i: int| 0 <= i < k ==> flock.lead_cost.lt(#[trigger] log[0][i])
                }
        }),
{
    lemma_hatched(start, next, places, speeds, g, count);
    lemma_front_is_one_of(log[0], count);
    lemma_front_is_least(log[0], count);
    if forall|i: int| 0 <= i < count ==> !(#[trigger] log[0][i]).is_nan() {
        lemma_front_is_first(log[0], count);
    }
    let flock = replayed(start, next, count, log, 0);
    let first = hatched(start, next, count);
    assert(flock.lead == flock.particles[front(log[0], count)].position);
    assert forall|i: int, d: int| 0 <= i < count && 0 <= d < N_PARAMS implies
        #[trigger] flock.particles[i].position[d] == places[7 * i + d]
        && flock.particles[i].velocity[d] == speeds[7 * i + d] by {
        assert(first.0[i][d] == places[7 * i + d]);
    }
}

proof fn lemma_placed<R>(
    start: Setting<R>,
    next: spec_fn(R, Draw) -> (Binary64, R),
    places: Seq<Binary64>,
    speeds: Seq<Binary64>,
    g: Seq<R>,
    i: int,
    n: nat,
)
    requires
        0 <= i,
        7 * i + 7 <= places.len(),
        n <= N_PARAMS,
        forall|j: int|
            0 <= j < places.len() ==> {
                let low = start.lower[j % 7];
                let high = start.upper[j % 7];
                let span = high.minus(low);
                let place = next(g[j], Draw::Range(low, high));
                let speed = next(
                    place.1,
                    Draw::Range(
                        (Binary64 { bits: MINUS_TENTH }).times(span),
                        (Binary64 { bits: TENTH }).times(span),
                    ),
                );
                let room = Binary64::zero().lt(span);
                &&& #[trigger] places[j] == if room { place.0 } else { low }
                &&& speeds[j] == if room { speed.0 } else { Binary64::zero() }
                &&& g[j + 1] == if room { speed.1 } else { g[j] }
            },
    ensures
        ({
            let one = placed(start.lower, start.upper, g[7 * i], next, n);
            &&& one.position.len() == n
            &&& one.velocity.len() == n
            &&& one.generator == g[7 * i + n]
            &&& forall|d: int|
                0 <= d < n ==> #[trigger] one.position[d] == places[7 * i + d] && one.velocity[d]
                    == speeds[7 * i + d]
        }),
    decreases n,
{
    if n > 0 {
        lemma_placed(start, next, places, speeds, g, i, (n - 1) as nat);
        let j = 7 * i + n - 1;
        lemma_fundamental_div_mod_converse(j, 7, i, n - 1);
        let low = start.lower[n - 1];
        let high = start.upper[n - 1];
        let place = next(g[j], Draw::Range(low, high));
        if Binary64::zero().lt(high.minus(low)) {
            assert(places[j] == place.0);
        } else {
            assert(places[j] == low);
        }
        assert(g[j + 1] == g[7 * i + n]);
    }
}

proof fn lemma_hatched<R>(
    start: Setting<R>,
    next: spec_fn(R, Draw) -> (Binary64, R),
    places: Seq<Binary64>,
    speeds: Seq<Binary64>,
    g: Seq<R>,
    count: nat,
)
    requires
        7 * count <= places.len(),
        g[0] == start.generator,
        forall|j: int|
            0 <= j < places.len() ==> {
                let low = start.lower[j % 7];
                let high = start.upper[j % 7];
                let span = high.minus(low);
                let place = next(g[j], Draw::Range(low, high));
                let speed = next(
                    place.1,
                    Draw::Range(
                        (Binary64 { bits: MINUS_TENTH }).times(span),
                        (Binary64 { bits: TENTH }).times(span),
                    ),
                );
                let room = Binary64::zero().lt(span);
                &&& #[trigger] places[j] == if room { place.0 } else { low }
                &&& speeds[j] == if room { speed.0 } else { Binary64::zero() }
                &&& g[j + 1] == if room { speed.1 } else { g[j] }
            },
    ensures
        ({
            let first = hatched(start, next, count);
            &&& first.0.len() == count
            &&& first.1.len() == count
            &&& first.2 == g[7 * count as int]
            &&& forall|i: int|
                0 <= i < count ==> (#[trigger] first.0[i]).len() == N_PARAMS && first.1[i].len()
                    == N_PARAMS
            &&& forall|i: int, d: int|
                0 <= i < count && 0 <= d < N_PARAMS ==> #[trigger] first.0[i][d] == places[7 * i
                    + d] && first.1[i][d] == speeds[7 * i + d]
        }),
    decreases count,
{
    if count > 0 {
        let m = (count - 1) as nat;
        lemma_hatched(start, next, places, speeds, g, m);
        lemma_placed(start, next, places, speeds, g, m as int, N_PARAMS as nat);
        let before = hatched(start, next, m);
        let first = hatched(start, next, count);
        let one = placed(start.lower, start.upper, before.2, next, N_PARAMS as nat);
        assert(7 * m + 7 == 7 * count);
        assert forall|i: int, d: int| 0 <= i < count && 0 <= d < N_PARAMS implies
            #[trigger] first.0[i][d] == places[7 * i + d] && first.1[i][d] == speeds[7 * i + d] by {
            if i < m {
                assert(first.0[i] == before.0[i]);
                assert(before.0[i][d] == places[7 * i + d]);
            } else {
                assert(first.0[i] == one.position);
                assert(one.position[d] == places[7 * i + d]);
            }
        }
        assert forall|i: int| 0 <= i < count implies (#[trigger] first.0[i]).len() == N_PARAMS
            && first.1[i].len() == N_PARAMS by {
            if i < m {
                assert(first.0[i] == before.0[i]);
            }
        }
    }
}

/// In a generation all the particles of a swarm move before any is scored. They move
/// in order, each with two unit draws per coordinate: its velocity is what inertia
/// leaves of it, and random pulls towards its own best and towards the lead; its
/// position is kept between the bounds. Bests and lead stay as they were.
pub proof fn law_all_particles_move<R>(
    flock: Flock<R>,
    lower: Seq<Binary64>,
    upper: Seq<Binary64>,
    next: spec_fn(R, Draw) -> (Binary64, R),
    i: nat,
)
    requires
        i < flock.particles.len(),
    ensures
        flown(flock, lower, upper, next, 0) == flock,
        ({
            let old_flock = flown(flock, lower, upper, next, i);
            let new_flock = flown(flock, lower, upper, next, i + 1);
            let was = old_flock.particles[i as int];
            let is = new_flock.particles[i as int];
            let g = old_flock.generator;
            &&& old_flock.particles.len() == flock.particles.len()
            &&& new_flock.particles.len() == flock.particles.len()
            &&& old_flock.particles[i as int] == flock.particles[i as int]
            &&& new_flock.lead == flock.lead
            &&& new_flock.lead_cost == flock.lead_cost
            &&& new_flock.generator == drained(g, unit_draws(14), next)
            &&& forall|j: int|
                0 <= j < flock.particles.len() && j != i ==> #[trigger] new_flock.particles[j]
                    == old_flock.particles[j]
            &&& is.best == was.best
            &&& is.best_cost == was.best_cost
            &&& is.position.len() == N_PARAMS
            &&& is.velocity.len() == N_PARAMS
            &&& forall|d: int|
                0 <= d < N_PARAMS ==> {
                    let first = next(drained(g, unit_draws((2 * d) as nat), next), Draw::Unit).0;
                    let second = next(
                        drained(g, unit_draws((2 * d + 1) as nat), next),
                        Draw::Unit,
                    ).0;
                    let pull = Binary64 { bits: ATTRACTION };
                    #[trigger] is.velocity[d] == (Binary64 { bits: INERTIA }).times(
                        was.velocity[d],
                    ).plus(pull.times(first).times(was.best[d].minus(was.position[d]))).plus(
                        pull.times(second).times(flock.lead[d].minus(was.position[d])),
                    )
                }
            &&& forall|d: int|
                0 <= d < N_PARAMS ==> #[trigger] is.position[d] == was.position[d].plus(
                    is.velocity[d],
                ).clamp(lower[d], upper[d])
        }),
{
    lemma_flown_so_far(flock, lower, upper, next, i);
    let so_far = flown(flock, lower, upper, next, i);
    lemma_flight_draws(
        so_far.particles[i as int],
        so_far.lead,
        lower,
        upper,
        so_far.generator,
        next,
        N_PARAMS as nat,
    );
}

proof fn lemma_flown_so_far<R>(
    flock: Flock<R>,
    lower: Seq<Binary64>,
    upper: Seq<Binary64>,
    next: spec_fn(R, Draw) -> (Binary64, R),
    n: nat,
)
    requires
        n <= flock.particles.len(),
    ensures
        ({
            let moved = flown(flock, lower, upper, next, n);
            &&& moved.particles.len() == flock.particles.len()
            &&& moved.lead == flock.lead
            &&& moved.lead_cost == flock.lead_cost
            &&& forall|j: int|
                n <= j < flock.particles.len() ==> #[trigger] moved.particles[j]
                    == flock.particles[j]
        }),
    decreases n,
{
    if n > 0 {
        lemma_flown_so_far(flock, lower, upper, next, (n - 1) as nat);
    }
}

/// Once all have moved, the particles are scored in order: where a score is below a
/// particle's best, or below the lead's, its position and score take that place.
/// Nothing else changes.
pub proof fn law_all_particles_are_scored<R>(flock: Flock<R>, costs: Seq<Binary64>, i: nat)
    requires
        i < flock.particles.len(),
    ensures
        judged(flock, costs, 0) == flock,
        ({
            let old_flock = judged(flock, costs, i);
            let new_flock = judged(flock, costs, i + 1);
            let was = old_flock.particles[i as int];
            let is = new_flock.particles[i as int];
            let score = costs[i as int];
            &&& old_flock.particles.len() == flock.particles.len()
            &&& new_flock.particles.len() == flock.particles.len()
            &&& was == flock.particles[i as int]
            &&& new_flock.generator == flock.generator
            &&& forall|j: int|
                0 <= j < flock.particles.len() && j != i ==> #[trigger] new_flock.particles[j]
                    == old_flock.particles[j]
            &&& is.position == was.position
            &&& is.velocity == was.velocity
            &&& score.lt(was.best_cost) ==> is.best == was.position && is.best_cost == score
            &&& !score.lt(was.best_cost) ==> is.best == was.best && is.best_cost == was.best_cost
            &&& score.lt(old_flock.lead_cost) ==> new_flock.lead == was.position
                && new_flock.lead_cost == score
            &&& !score.lt(old_flock.lead_cost) ==> new_flock.lead == old_flock.lead
                && new_flock.lead_cost == old_flock.lead_cost
        }),
{
    lemma_judged_so_far(flock, costs, i);
}

proof fn lemma_judged_so_far<R>(flock: Flock<R>, costs: Seq<Binary64>, n: nat)
    requires
        n <= flock.particles.len(),
    ensures
        ({
            let scored = judged(flock, costs, n);
            &&& scored.particles.len() == flock.particles.len()
            &&& scored.generator == flock.generator
            &&& forall|j: int|
                n <= j < flock.particles.len() ==> #[trigger] scored.particles[j]
                    == flock.particles[j]
        }),
    decreases n,
{
    if n > 0 {
        lemma_judged_so_far(flock, costs, (n - 1) as nat);
    }
}

/// Every generation of a swarm is its last one with all particles moved, and scored by
/// what that generation was given; what it asks to be scored is where they moved to.
pub proof fn law_every_generation_is_flown<R>(
    start: Setting<R>,
    next: spec_fn(R, Draw) -> (Binary64, R),
    count: nat,
    log: Seq<Seq<Binary64>>,
    k: nat,
)
    ensures
        ({
            let moved = flown(
                replayed(start, next, count, log, k),
                start.lower,
                start.upper,
                next,
                count,
            );
            &&& replayed(start, next, count, log, k).particles.len() == count
            &&& replayed(start, next, count, log, k + 1) == judged(moved, log[k as int + 1], count)
            &&& asked(start, next, count, log, k + 1).len() == count
            &&& forall|i: int|
                0 <= i < count ==> #[trigger] asked(start, next, count, log, k + 1)[i]
                    == moved.particles[i].position
        }),
    decreases k,
{
    if k == 0 {
        lemma_hatched_length(start, next, count);
    } else {
        law_every_generation_is_flown(start, next, count, log, (k - 1) as nat);
        let before = replayed(start, next, count, log, (k - 1) as nat);
        lemma_flown_so_far(before, start.lower, start.upper, next, count);
        lemma_judged_so_far(
            flown(before, start.lower, start.upper, next, count),
            log[k as int],
            count,
        );
    }
    let now = replayed(start, next, count, log, k);
    lemma_flown_so_far(now, start.lower, start.upper, next, count);
}

proof fn lemma_hatched_length<R>(
    start: Setting<R>,
    next: spec_fn(R, Draw) -> (Binary64, R),
    count: nat,
)
    ensures
        hatched(start, next, count).0.len() == count,
        hatched(start, next, count).1.len() == count,
    decreases count,
{
    if count > 0 {
        lemma_hatched_length(start, next, (count - 1) as nat);
    }
}

/// What a batch asks to be scored, and where its swarms end. Row sw * count + i of a
/// generation is particle `i` of swarm `sw`, and number 7 * row + d of what is handed
/// to the evaluator is its coordinate `d`; the swarm's scores are those of its own
/// rows, and its end is its lead.
pub proof fn law_batch_goes_swarm_by_swarm<R>(
    starts: Seq<Setting<R>>,
    next: spec_fn(R, Draw) -> (Binary64, R),
    count: nat,
    log: Seq<Seq<Binary64>>,
    k: nat,
    sw: int,
    own: Seq<Seq<Binary64>>,
    i: int,
    d: int,
)
    requires
        0 <= sw < starts.len(),
        0 <= i < count,
        0 <= d < N_PARAMS,
        own.len() == log.len(),
        forall|m: int|
            0 <= m < log.len() ==> (#[trigger] log[m]).len() == starts.len() * count
                && own[m].len() == count,
        forall|m: int, j: int|
            0 <= m < log.len() && 0 <= j < count ==> #[trigger] own[m][j] == log[m][sw * count + j],
    ensures
        ({
            let rows = batch_rows(starts, next, count, log, k);
            let at = sw * count + i;
            let flock = replayed(starts[sw], next, count, own, k);
            &&& rows.len() == starts.len() * count
            &&& 0 <= at < rows.len()
            &&& rows[at] == asked(starts[sw], next, count, own, k)[i]
            &&& packed(rows).len() == 7 * rows.len()
            &&& packed(rows)[7 * at + d] == rows[at][d]
            &&& batch_ends(starts, next, count, log, k).len() == starts.len()
            &&& batch_ends(starts, next, count, log, k)[sw] == (flock.lead, flock.lead_cost)
        }),
{
    let at = sw * count + i;
    let rows = batch_rows(starts, next, count, log, k);
    assert(0 <= sw * count && sw * count + count <= starts.len() * count && 0 <= at < starts.len()
        * count) by (nonlinear_arith)
        requires
            0 <= sw < starts.len(),
            0 <= i < count,
            at == sw * count + i,
    ;
    lemma_fundamental_div_mod_converse(at, count as int, sw, i);
    assert forall|m: int| 0 <= m < log.len() implies own[m] == parts(log, sw, count)[m] by {
        assert(log[m].len() == starts.len() * count);
        assert forall|j: int| 0 <= j < count implies own[m][j] == part(log[m], sw, count)[j] by {
            assert(own[m][j] == log[m][sw * count + j]);
        }
        assert(own[m] =~= part(log[m], sw, count));
    }
    assert(own =~= parts(log, sw, count));
    assert(rows.len() * N_PARAMS as nat == 7 * rows.len()) by (nonlinear_arith);
    lemma_fundamental_div_mod_converse(7 * at + d, 7, at, d);
}

/// Where a swarm ended is brought to absolute time before it is polished: the
/// reference time is added to the onset, nothing else changes, and the cost is that of
/// the source's own objective there.
pub proof fn law_ends_are_polished_in_absolute_time(
    s: Source,
    end: Seq<Binary64>,
    suggest: spec_fn(Task) -> Option<Seq<Binary64>>,
    f: spec_fn(Elementary) -> Binary64,
    start: Seq<Binary64>,
)
    requires
        end.len() == N_PARAMS,
        start.len() == N_PARAMS,
        start[6] == end[6].plus(s.t_ref),
        forall|d: int| 0 <= d < 6 ==> #[trigger] start[d] == end[d],
    ensures
        polished_end(s, end, suggest, f) == refined(
            observations_of(s),
            logarithms_of(s, f),
            start,
            objective(observations_of(s), logarithms_of(s, f), start, f).0,
            s.lower,
            s.upper,
            suggest,
            f,
        ),
{
    assert(start =~= end.update(6, end[6].plus(s.t_ref)));
}

/// The polished ends of a batch are listed restart by restart: that of restart `r` of
/// source `s` at place r * n + s, where n is the number of sources. The result of a
/// source is made of its own.
pub proof fn law_polished_ends_are_listed_restart_by_restart(
    sources: Seq<Source>,
    ends: Seq<(Seq<Binary64>, Binary64)>,
    n_restarts: nat,
    suggest: spec_fn(Task) -> Option<Seq<Binary64>>,
    f: spec_fn(Elementary) -> Binary64,
    polished: Seq<(Seq<Binary64>, Binary64)>,
    own: Seq<(Seq<Binary64>, Binary64)>,
    r: int,
    s: int,
)
    requires
        0 <= r < n_restarts,
        0 <= s < sources.len(),
        own.len() == n_restarts,
        forall|i: int|
            0 <= i < n_restarts ==> #[trigger] own[i] == polished[i * sources.len() + s],
    ensures
        ({
            let list = polished_batch(sources, ends, n_restarts, suggest, f);
            let at = r * sources.len() + s;
            &&& list.len() == n_restarts * sources.len()
            &&& 0 <= at < list.len()
            &&& list[at] == polished_end(sources[s], ends[s * n_restarts + r].0, suggest, f)
            &&& gathered(sources, polished, n_restarts, f).len() == sources.len()
            &&& gathered(sources, polished, n_restarts, f)[s] == assembled(sources[s], own, f)
        }),
{
    let n = sources.len() as int;
    assert(0 <= r * n + s < n_restarts * n) by (nonlinear_arith)
        requires
            0 <= r < n_restarts,
            0 <= s < n,
    ;
    lemma_fundamental_div_mod_converse(r * n + s, n, r, s);
    assert(own =~= Seq::new(n_restarts, |i: int| polished[i * sources.len() + s])) by {
        assert forall|i: int| 0 <= i < n_restarts implies own[i] == polished[i * sources.len()
            + s] by {}
    }
}

/// The lead among scores is found going through them: it is the first, until one is
/// strictly below it.
pub proof fn law_lead_is_found_in_passing(costs: Seq<Binary64>, n: nat)
    requires
        n >= 1,
    ensures
        front(costs, 1) == 0,
        costs[n as int].lt(costs[front(costs, n)]) ==> front(costs, n + 1) == n,
        !costs[n as int].lt(costs[front(costs, n)]) ==> front(costs, n + 1) == front(costs, n),
{
}

/// A swarm can be steered if each lower bound is at or below the upper one, the onset
/// counted from the reference time.
pub proof fn law_when_a_swarm_can_be_steered(s: Source)
    requires
        s.lower.len() == N_PARAMS,
        s.upper.len() == N_PARAMS,
    ensures
        steerable(s) <==> s.lower[0].le(s.upper[0]) && s.lower[1].le(s.upper[1]) && s.lower[2].le(
            s.upper[2],
        ) && s.lower[3].le(s.upper[3]) && s.lower[4].le(s.upper[4]) && s.lower[5].le(s.upper[5])
            && s.lower[6].minus(s.t_ref).le(s.upper[6].minus(s.t_ref)),
{
    let lower = s.lower.update(6, s.lower[6].minus(s.t_ref));
    let upper = s.upper.update(6, s.upper[6].minus(s.t_ref));
    if steerable(s) {
        assert(lower[0].le(upper[0]) && lower[1].le(upper[1]) && lower[2].le(upper[2])
            && lower[3].le(upper[3]) && lower[4].le(upper[4]) && lower[5].le(upper[5])
            && lower[6].le(upper[6]));
    }
}

/// The sources of a batch are those handed in, in order.
pub proof fn law_sources_are_in_order(preps: Seq<PreparedSource>, i: int)
    requires
        0 <= i < preps.len(),
    ensures
        sources_of(preps).len() == preps.len(),
        ({
            let s = sources_of(preps)[i];
            let p = preps[i];
            &&& s.times == p.times@ && s.nu_scaled == p.nu_scaled@
            &&& s.flux == p.flux@ && s.flux_err == p.flux_err@
            &&& s.lower == p.lower@ && s.upper == p.upper@
            &&& s.max_flux == p.max_flux && s.t_ref == p.t_ref
            &&& s.n_obs == p.n_obs && s.n_bands == p.n_bands
            &&& s.seed_key == p.seed_key
        }),
{
}

} // verus!

//! Many swarms side by side, scored together.
//!
//! All swarms move, then one evaluation scores every particle of every swarm,
//! then all swarms take in their scores. The evaluation is supplied by the
//! caller, who may run it on a device.
use crate::binary64::{law_positive_difference, Binary64};
use crate::generator::{is_generator, is_seeding, pull, seeds, sow, stream, Draw};
use crate::magnitude::law_opposite_multiples;
use crate::numbers::{INFINITY, MINUS_TENTH, N_PARAMS, TENTH};
use crate::search::best_of;
use crate::source::{PreparedSource, Source};
use crate::swarm::{copied, ordered, settled, Flier, Flight, Flock, Particle, Swarm};
use vstd::arithmetic::div_mod::{
    lemma_fundamental_div_mod, lemma_fundamental_div_mod_converse, lemma_multiply_divide_lt,
};
use vstd::arithmetic::mul::lemma_mul_is_commutative;
use vstd::prelude::*;

verus! {

/// Bounds with the onset relative to the reference time.
pub open spec fn shifted(bounds: Seq<Binary64>, t_ref: Binary64) -> Seq<Binary64> {
    bounds.update(6, bounds[6].minus(t_ref))
}

/// Search bounds of a source, with the onset relative to its reference time.
pub fn shifted_bounds(prep: &PreparedSource) -> (r: (
    [Binary64; N_PARAMS],
    [Binary64; N_PARAMS],
))
    ensures
        r.0@ == shifted(prep@.lower, prep@.t_ref),
        r.1@ == shifted(prep@.upper, prep@.t_ref),
{
    let mut lower: [Binary64; N_PARAMS] = prep.lower;
    let mut upper: [Binary64; N_PARAMS] = prep.upper;
    lower[6] = prep.lower[6].minus(prep.t_ref);
    upper[6] = prep.upper[6].minus(prep.t_ref);
    assert(lower@ =~= shifted(prep@.lower, prep@.t_ref));
    assert(upper@ =~= shifted(prep@.upper, prep@.t_ref));
    (lower, upper)
}

/// No lower bound exceeds its upper bound, with the onset relative to the reference
/// time: positions can be kept between them.
pub open spec fn steerable(s: Source) -> bool {
    ordered(shifted(s.lower, s.t_ref), shifted(s.upper, s.t_ref))
}

/// Whether positions can be kept between the bounds of a source.
pub fn is_steerable(prep: &PreparedSource) -> (r: bool)
    ensures
        r == steerable(prep@),
{
    let (lower, upper) = shifted_bounds(prep);
    let mut d: usize = 0;
    while d < N_PARAMS
        invariant
            d <= N_PARAMS,
            lower@ == shifted(prep@.lower, prep@.t_ref),
            upper@ == shifted(prep@.upper, prep@.t_ref),
            forall|e: int| 0 <= e < d ==> (#[trigger] lower@[e]).le(upper@[e]),
        decreases N_PARAMS - d,
    {
        if !lower[d].le(upper[d]) {
            assert(!lower@[d as int].le(upper@[d as int]));
            return false;
        }
        d += 1;
    }
    true
}

/// What a swarm starts from.
#[verifier::reject_recursive_types(R)]
pub struct Setting<R> {
    pub lower: Seq<Binary64>,
    pub upper: Seq<Binary64>,
    pub generator: R,
}

/// The setting of a source's swarm. Its generator depends on the seed and on
/// the content of the source, not on its place in a batch.
pub open spec fn setting_of<R>(s: Source, seed: u64, sown: spec_fn(u64) -> R) -> Setting<R> {
    Setting {
        lower: shifted(s.lower, s.t_ref),
        upper: shifted(s.upper, s.t_ref),
        generator: sown(seed ^ s.seed_key),
    }
}

/// The settings of a batch: one swarm per source and seed, source by source.
pub open spec fn settings<R>(
    sources: Seq<Source>,
    batch_seeds: Seq<u64>,
    sown: spec_fn(u64) -> R,
) -> Seq<Setting<R>> {
    Seq::new(
        sources.len() * batch_seeds.len(),
        |sw: int|
            setting_of(
                sources[sw / batch_seeds.len() as int],
                batch_seeds[sw % batch_seeds.len() as int],
                sown,
            ),
    )
}

/// The first `n` coordinates of a particle's first position and velocity. A
/// coordinate without room between its bounds starts at the lower one, at rest.
pub open spec fn placed<R>(
    lower: Seq<Binary64>,
    upper: Seq<Binary64>,
    g: R,
    next: spec_fn(R, Draw) -> (Binary64, R),
    n: nat,
) -> Flight<R>
    decreases n,
{
    if n == 0 {
        Flight { position: seq![], velocity: seq![], generator: g }
    } else {
        let so_far = placed(lower, upper, g, next, (n - 1) as nat);
        let d = n - 1;
        let span = upper[d].minus(lower[d]);
        if Binary64::zero().lt(span) {
            let place = next(so_far.generator, Draw::Range(lower[d], upper[d]));
            let speed = next(
                place.1,
                Draw::Range(
                    Binary64 { bits: MINUS_TENTH }.times(span),
                    Binary64 { bits: TENTH }.times(span),
                ),
            );
            Flight {
                position: so_far.position.push(place.0),
                velocity: so_far.velocity.push(speed.0),
                generator: speed.1,
            }
        } else {
            Flight {
                position: so_far.position.push(lower[d]),
                velocity: so_far.velocity.push(Binary64::zero()),
                generator: so_far.generator,
            }
        }
    }
}

/// The first positions and velocities of `count` particles.
pub open spec fn hatched<R>(
    start: Setting<R>,
    next: spec_fn(R, Draw) -> (Binary64, R),
    count: nat,
) -> (Seq<Seq<Binary64>>, Seq<Seq<Binary64>>, R)
    decreases count,
{
    if count == 0 {
        (seq![], seq![], start.generator)
    } else {
        let so_far = hatched(start, next, (count - 1) as nat);
        let one = placed(start.lower, start.upper, so_far.2, next, N_PARAMS as nat);
        (so_far.0.push(one.position), so_far.1.push(one.velocity), one.generator)
    }
}

/// The swarm with its first `n` particles moved.
pub open spec fn flown<R>(
    flock: Flock<R>,
    lower: Seq<Binary64>,
    upper: Seq<Binary64>,
    next: spec_fn(R, Draw) -> (Binary64, R),
    n: nat,
) -> Flock<R>
    decreases n,
{
    if n == 0 {
        flock
    } else {
        flown(flock, lower, upper, next, (n - 1) as nat).moved_at(n - 1, lower, upper, next)
    }
}

/// The swarm with its first `n` particles scored.
pub open spec fn judged<R>(flock: Flock<R>, costs: Seq<Binary64>, n: nat) -> Flock<R>
    decreases n,
{
    if n == 0 {
        flock
    } else {
        judged(flock, costs, (n - 1) as nat).scored_at(n - 1, costs[n - 1])
    }
}

/// Where the particles stand.
pub open spec fn positions_of<R>(flock: Flock<R>) -> Seq<Seq<Binary64>> {
    flock.particles.map_values(|p: Particle| p.position)
}

/// A swarm after `k` generations, given the scores it got in each.
pub open spec fn replayed<R>(
    start: Setting<R>,
    next: spec_fn(R, Draw) -> (Binary64, R),
    count: nat,
    log: Seq<Seq<Binary64>>,
    k: nat,
) -> Flock<R>
    decreases k,
{
    if k == 0 {
        let first = hatched(start, next, count);
        settled(first.0, first.1, log[0], first.2)
    } else {
        let before = replayed(start, next, count, log, (k - 1) as nat);
        judged(flown(before, start.lower, start.upper, next, count), log[k as int], count)
    }
}

/// The positions that a swarm has scored in generation `k`.
pub open spec fn asked<R>(
    start: Setting<R>,
    next: spec_fn(R, Draw) -> (Binary64, R),
    count: nat,
    log: Seq<Seq<Binary64>>,
    k: nat,
) -> Seq<Seq<Binary64>> {
    if k == 0 {
        hatched(start, next, count).0
    } else {
        positions_of(
            flown(
                replayed(start, next, count, log, (k - 1) as nat),
                start.lower,
                start.upper,
                next,
                count,
            ),
        )
    }
}

/// One swarm's share of the scores of a batch.
pub open spec fn part(costs: Seq<Binary64>, sw: int, count: nat) -> Seq<Binary64> {
    costs.subrange(sw * count, sw * count + count)
}

/// One swarm's share of each generation's scores.
pub open spec fn parts(log: Seq<Seq<Binary64>>, sw: int, count: nat) -> Seq<Seq<Binary64>> {
    log.map_values(|costs: Seq<Binary64>| part(costs, sw, count))
}

/// The positions that a batch has scored in generation `k`: swarm by swarm,
/// then particle by particle.
pub open spec fn batch_rows<R>(
    starts: Seq<Setting<R>>,
    next: spec_fn(R, Draw) -> (Binary64, R),
    count: nat,
    log: Seq<Seq<Binary64>>,
    k: nat,
) -> Seq<Seq<Binary64>> {
    Seq::new(
        starts.len() * count,
        |i: int|
            asked(
                starts[i / count as int],
                next,
                count,
                parts(log, i / count as int, count),
                k,
            )[i % count as int],
    )
}

/// Rows of parameters as one row of numbers.
pub open spec fn packed(rows: Seq<Seq<Binary64>>) -> Seq<Binary64> {
    Seq::new(
        rows.len() * N_PARAMS as nat,
        |j: int| rows[j / N_PARAMS as int][j % N_PARAMS as int],
    )
}

/// `eval` scores every particle of a batch, one cost for each.
pub open spec fn is_evaluator<V, E, L: Fn(&V, &Vec<Binary64>) -> Result<Vec<Binary64>, E>>(
    eval: L,
) -> bool {
    &&& forall|v: &V, x: &Vec<Binary64>| #[trigger] call_requires(eval, (v, x))
    &&& forall|v: &V, x: &Vec<Binary64>, y: Vec<Binary64>| #[trigger]
        call_ensures(eval, (v, x), Ok(y)) ==> y.len() * N_PARAMS == x.len()
}

/// `eval` may score these positions so.
pub open spec fn may_score<V, E, L: Fn(&V, &Vec<Binary64>) -> Result<Vec<Binary64>, E>>(
    eval: L,
    v: V,
    positions: Seq<Binary64>,
    costs: Seq<Binary64>,
) -> bool {
    exists|x: &Vec<Binary64>, y: Vec<Binary64>| #[trigger]
        call_ensures(eval, (&v, x), Ok(y)) && x@ == positions && y@ == costs
}

/// `eval` may fail on these positions so.
pub open spec fn may_fail<V, E, L: Fn(&V, &Vec<Binary64>) -> Result<Vec<Binary64>, E>>(
    eval: L,
    v: V,
    positions: Seq<Binary64>,
    e: E,
) -> bool {
    exists|x: &Vec<Binary64>| #[trigger]
        call_ensures(eval, (&v, x), Err::<Vec<Binary64>, E>(e)) && x@ == positions
}

/// `log` holds scores that `eval` may have given to the generations of a batch.
pub open spec fn may_log<R, V, E, L: Fn(&V, &Vec<Binary64>) -> Result<Vec<Binary64>, E>>(
    eval: L,
    v: V,
    starts: Seq<Setting<R>>,
    next: spec_fn(R, Draw) -> (Binary64, R),
    count: nat,
    log: Seq<Seq<Binary64>>,
) -> bool {
    forall|k: int|
        0 <= k < log.len() ==> may_score::<V, E, L>(
            eval,
            v,
            packed(batch_rows(starts, next, count, log, k as nat)),
            #[trigger] log[k],
        )
}

/// Where a replayed swarm ends.
pub open spec fn end_of<R>(
    start: Setting<R>,
    next: spec_fn(R, Draw) -> (Binary64, R),
    count: nat,
    log: Seq<Seq<Binary64>>,
    k: nat,
) -> (Seq<Binary64>, Binary64) {
    let flock = replayed(start, next, count, log, k);
    (flock.lead, flock.lead_cost)
}

/// Where the swarms of a batch end.
pub open spec fn batch_ends<R>(
    starts: Seq<Setting<R>>,
    next: spec_fn(R, Draw) -> (Binary64, R),
    count: nat,
    log: Seq<Seq<Binary64>>,
    k: nat,
) -> Seq<(Seq<Binary64>, Binary64)> {
    Seq::new(starts.len(), |sw: int| end_of(starts[sw], next, count, parts(log, sw, count), k))
}

/// Later scores do not change earlier generations.
proof fn lemma_replay_push<R>(
    start: Setting<R>,
    next: spec_fn(R, Draw) -> (Binary64, R),
    count: nat,
    log: Seq<Seq<Binary64>>,
    more: Seq<Binary64>,
    k: nat,
)
    requires
        k < log.len(),
    ensures
        replayed(start, next, count, log.push(more), k) == replayed(start, next, count, log, k),
    decreases k,
{
    if k > 0 {
        lemma_replay_push(start, next, count, log, more, (k - 1) as nat);
    }
}

/// Later scores do not change what earlier generations asked.
proof fn lemma_rows_push<R>(
    starts: Seq<Setting<R>>,
    next: spec_fn(R, Draw) -> (Binary64, R),
    count: nat,
    log: Seq<Seq<Binary64>>,
    more: Seq<Binary64>,
    k: nat,
)
    requires
        k <= log.len(),
    ensures
        batch_rows(starts, next, count, log.push(more), k) == batch_rows(
            starts,
            next,
            count,
            log,
            k,
        ),
{
    assert forall|sw: int| #[trigger]
        asked(starts[sw], next, count, parts(log.push(more), sw, count), k) == asked(
            starts[sw],
            next,
            count,
            parts(log, sw, count),
            k,
        ) by {
        assert(parts(log.push(more), sw, count) =~= parts(log, sw, count).push(
            part(more, sw, count),
        ));
        if k > 0 {
            lemma_replay_push(
                starts[sw],
                next,
                count,
                parts(log, sw, count),
                part(more, sw, count),
                (k - 1) as nat,
            );
        }
    }
    assert(batch_rows(starts, next, count, log.push(more), k) =~= batch_rows(
        starts,
        next,
        count,
        log,
        k,
    ));
}

/// Puts `count` particles at their first positions.
fn hatch<R, D: Fn(&R, Draw) -> (Binary64, R)>(
    lower: &[Binary64; N_PARAMS],
    upper: &[Binary64; N_PARAMS],
    generator: R,
    draw: &D,
    count: usize,
) -> (r: Swarm<R>)
    requires
        count > 0,
        is_generator(*draw),
    ensures
        r.wf(),
        r.fliers.len() == count,
        ({
            let first = hatched(
                Setting { lower: lower@, upper: upper@, generator },
                stream(*draw),
                count as nat,
            );
            &&& first.0.len() == count
            &&& first.1.len() == count
            &&& forall|i: int|
                0 <= i < count ==> {
                    &&& (#[trigger] r.fliers@[i]).position@ == first.0[i]
                    &&& r.fliers@[i].velocity@ == first.1[i]
                }
            &&& r.generator == first.2
        }),
{
    let ghost next = stream(*draw);
    let ghost start = Setting { lower: lower@, upper: upper@, generator };
    let mut g: R = generator;
    let mut fliers: Vec<Flier> = Vec::with_capacity(count);
    let mut i: usize = 0;
    while i < count
        invariant
            i <= count,
            is_generator(*draw),
            next == stream(*draw),
            start.lower == lower@,
            start.upper == upper@,
            fliers.len() == i,
            hatched(start, next, i as nat).0.len() == i,
            hatched(start, next, i as nat).1.len() == i,
            forall|j: int|
                0 <= j < i ==> {
                    &&& (#[trigger] fliers@[j]).wf()
                    &&& fliers@[j].position@ == hatched(start, next, i as nat).0[j]
                    &&& fliers@[j].velocity@ == hatched(start, next, i as nat).1[j]
                },
            g == hatched(start, next, i as nat).2,
        decreases count - i,
    {
        let ghost mid = g;
        let mut position: Vec<Binary64> = Vec::with_capacity(N_PARAMS);
        let mut velocity: Vec<Binary64> = Vec::with_capacity(N_PARAMS);
        let mut d: usize = 0;
        while d < N_PARAMS
            invariant
                d <= N_PARAMS,
                is_generator(*draw),
                next == stream(*draw),
                position.len() == d,
                velocity.len() == d,
                position@ == placed(lower@, upper@, mid, next, d as nat).position,
                velocity@ == placed(lower@, upper@, mid, next, d as nat).velocity,
                g == placed(lower@, upper@, mid, next, d as nat).generator,
            decreases N_PARAMS - d,
        {
            let span: Binary64 = upper[d].minus(lower[d]);
            if Binary64::zero().lt(span) {
                proof {
                    law_positive_difference(upper@[d as int], lower@[d as int]);
                    law_opposite_multiples(Binary64 { bits: TENTH }, span);
                }
                let (x, g1) = pull(draw, &g, Draw::Range(lower[d], upper[d]));
                let (v, g2) = pull(
                    draw,
                    &g1,
                    Draw::Range(
                        Binary64 { bits: MINUS_TENTH }.times(span),
                        Binary64 { bits: TENTH }.times(span),
                    ),
                );
                position.push(x);
                velocity.push(v);
                g = g2;
            } else {
                position.push(lower[d]);
                velocity.push(Binary64::zero());
            }
            d += 1;
        }
        let best: Vec<Binary64> = copied(&position);
        fliers.push(Flier { position, velocity, best, best_cost: Binary64 { bits: INFINITY } });
        i += 1;
    }
    let lead: Vec<Binary64> = copied(&fliers[0].position);
    Swarm { fliers, lead, lead_cost: Binary64 { bits: INFINITY }, generator: g }
}

/// Takes in the scores of a swarm's first positions.
fn settle_in<R>(swarm: &mut Swarm<R>, costs: &Vec<Binary64>, from: usize)
    requires
        old(swarm).wf(),
        old(swarm).fliers.len() > 0,
        from + old(swarm).fliers.len() <= costs.len(),
    ensures
        final(swarm).wf(),
        final(swarm).fliers.len() == old(swarm).fliers.len(),
        final(swarm)@ == settled(
            positions_of(old(swarm)@),
            old(swarm)@.particles.map_values(|p: Particle| p.velocity),
            costs@.subrange(from as int, from + old(swarm).fliers.len()),
            old(swarm)@.generator,
        ),
{
    let n: usize = swarm.fliers.len();
    let ghost before = swarm@;
    let ghost own = costs@.subrange(from as int, from + n);
    let mut share: Vec<Binary64> = Vec::with_capacity(n);
    let mut i: usize = 0;
    while i < n
        invariant
            i <= n,
            n == swarm.fliers.len(),
            from + n <= costs.len(),
            own == costs@.subrange(from as int, from + n),
            swarm.wf(),
            swarm.generator == before.generator,
            before.particles.len() == n,
            share@ == own.subrange(0, i as int),
            forall|j: int|
                0 <= j < n ==> {
                    &&& (#[trigger] swarm.fliers@[j]).position@ == before.particles[j].position
                    &&& swarm.fliers@[j].velocity@ == before.particles[j].velocity
                },
            forall|j: int|
                0 <= j < i ==> {
                    &&& (#[trigger] swarm.fliers@[j]).best@ == before.particles[j].position
                    &&& swarm.fliers@[j].best_cost == own[j]
                },
        decreases n - i,
    {
        assert(swarm.fliers@[i as int].wf());
        let cost: Binary64 = costs[from + i];
        share.push(cost);
        swarm.fliers[i].best = copied(&swarm.fliers[i].position);
        swarm.fliers[i].best_cost = cost;
        i += 1;
        assert(share@ =~= own.subrange(0, i as int));
    }
    assert(share@ =~= own);
    let first: usize = best_of(&share);
    assert(swarm.fliers@[first as int].wf());
    swarm.lead = copied(&swarm.fliers[first].position);
    swarm.lead_cost = share[first];
    proof {
        let s = settled(
            positions_of(before),
            before.particles.map_values(|p: Particle| p.velocity),
            own,
            before.generator,
        );
        assert(swarm@.particles =~= s.particles);
    }
}

/// Moves every particle of a swarm.
fn fly_all<R, D: Fn(&R, Draw) -> (Binary64, R)>(
    swarm: &mut Swarm<R>,
    lower: &[Binary64; N_PARAMS],
    upper: &[Binary64; N_PARAMS],
    draw: &D,
)
    requires
        old(swarm).wf(),
        is_generator(*draw),
    ensures
        final(swarm).wf(),
        final(swarm).fliers.len() == old(swarm).fliers.len(),
        final(swarm)@ == flown(
            old(swarm)@,
            lower@,
            upper@,
            stream(*draw),
            old(swarm).fliers.len() as nat,
        ),
{
    let n: usize = swarm.fliers.len();
    let ghost before = swarm@;
    let mut i: usize = 0;
    while i < n
        invariant
            i <= n,
            n == swarm.fliers.len(),
            swarm.wf(),
            is_generator(*draw),
            swarm@ == flown(before, lower@, upper@, stream(*draw), i as nat),
        decreases n - i,
    {
        let ghost count = swarm@.particles.len();
        swarm.advance(i, lower, upper, draw);
        assert(swarm@.particles.len() == count);
        i += 1;
    }
}

/// Takes in the scores of a swarm.
fn judge<R>(swarm: &mut Swarm<R>, costs: &Vec<Binary64>, from: usize)
    requires
        old(swarm).wf(),
        from + old(swarm).fliers.len() <= costs.len(),
    ensures
        final(swarm).wf(),
        final(swarm).fliers.len() == old(swarm).fliers.len(),
        final(swarm)@ == judged(
            old(swarm)@,
            costs@.subrange(from as int, from + old(swarm).fliers.len()),
            old(swarm).fliers.len() as nat,
        ),
{
    let n: usize = swarm.fliers.len();
    let ghost before = swarm@;
    let ghost own = costs@.subrange(from as int, from + n);
    let mut i: usize = 0;
    while i < n
        invariant
            i <= n,
            n == swarm.fliers.len(),
            from + n <= costs.len(),
            own == costs@.subrange(from as int, from + n),
            swarm.wf(),
            swarm@ == judged(before, own, i as nat),
        decreases n - i,
    {
        let ghost count = swarm@.particles.len();
        swarm.score(i, costs[from + i]);
        assert(swarm@.particles.len() == count);
        i += 1;
    }
}

/// The positions of all swarms, swarm by swarm.
pub open spec fn rows_of<R>(flocks: Seq<Flock<R>>, count: nat) -> Seq<Seq<Binary64>> {
    Seq::new(
        flocks.len() * count,
        |i: int| flocks[i / count as int].particles[i % count as int].position,
    )
}

/// The swarms' models.
pub open spec fn flocks_of<R>(swarms: Seq<Swarm<R>>) -> Seq<Flock<R>> {
    swarms.map_values(|s: Swarm<R>| s@)
}

/// Packs the positions of all swarms into one row.
fn pack<R>(swarms: &Vec<Swarm<R>>, count: usize) -> (r: Vec<Binary64>)
    requires
        count > 0,
        swarms.len() * count * N_PARAMS <= usize::MAX,
        forall|sw: int|
            0 <= sw < swarms.len() ==> (#[trigger] swarms@[sw]).wf() && swarms@[sw].fliers.len()
                == count,
    ensures
        r@ == packed(rows_of(flocks_of(swarms@), count as nat)),
        r.len() == swarms.len() * count * N_PARAMS,
{
    let ghost rows = rows_of(flocks_of(swarms@), count as nat);
    assert(swarms.len() * count >= 0) by (nonlinear_arith);
    let total: usize = swarms.len() * count;
    let mut r: Vec<Binary64> = Vec::with_capacity(total * N_PARAMS);
    let mut i: usize = 0;
    while i < total
        invariant
            i <= total,
            count > 0,
            total == swarms.len() * count,
            rows == rows_of(flocks_of(swarms@), count as nat),
            rows.len() == total,
            forall|sw: int|
                0 <= sw < swarms.len() ==> (#[trigger] swarms@[sw]).wf()
                    && swarms@[sw].fliers.len() == count,
            r.len() == i * N_PARAMS,
            forall|j: int| 0 <= j < r.len() ==> #[trigger] r@[j] == packed(rows)[j],
        decreases total - i,
    {
        let sw: usize = i / count;
        let p: usize = i % count;
        proof {
            lemma_mul_is_commutative(swarms.len() as int, count as int);
            lemma_multiply_divide_lt(i as int, count as int, swarms.len() as int);
            assert(swarms@[sw as int].wf());
            assert(swarms@[sw as int].fliers@[p as int].wf());
        }
        let row: &Vec<Binary64> = &swarms[sw].fliers[p].position;
        assert(row@ == rows[i as int]);
        let mut d: usize = 0;
        while d < N_PARAMS
            invariant
                d <= N_PARAMS,
                row.len() == N_PARAMS,
                i < total,
                rows.len() == total,
                row@ == rows[i as int],
                r.len() == i * N_PARAMS + d,
                forall|j: int| 0 <= j < r.len() ==> #[trigger] r@[j] == packed(rows)[j],
            decreases N_PARAMS - d,
        {
            proof {
                let j = i * N_PARAMS + d;
                assert(j / 7 == i && j % 7 == d);
            }
            r.push(row[d]);
            d += 1;
        }
        i += 1;
    }
    assert(r@ =~= packed(rows));
    r
}

/// Bounds on where a swarm's share of the scores lies.
proof fn lemma_share(sw: int, swarms: int, count: int)
    requires
        0 <= sw < swarms,
        0 < count,
    ensures
        0 <= sw * count,
        sw * count + count <= swarms * count,
        forall|p: int|
            0 <= p < count ==> (#[trigger] (sw * count + p)) / count == sw && (sw * count + p)
                % count == p,
{
    assert(sw * count + count <= swarms * count && 0 <= sw * count) by (nonlinear_arith)
        requires
            0 <= sw < swarms,
            0 < count,
    ;
    assert forall|p: int| 0 <= p < count implies (#[trigger] (sw * count + p)) / count == sw && (sw
        * count + p) % count == p by {
        lemma_fundamental_div_mod_converse(sw * count + p, count, sw, p);
    }
}

/// What the swarms of a batch have come to after generation `k`.
spec fn at_generation<R>(
    swarms: Seq<Swarm<R>>,
    starts: Seq<Setting<R>>,
    next: spec_fn(R, Draw) -> (Binary64, R),
    count: nat,
    log: Seq<Seq<Binary64>>,
    k: nat,
) -> bool {
    &&& swarms.len() == starts.len()
    &&& forall|sw: int|
        0 <= sw < swarms.len() ==> {
            &&& (#[trigger] swarms[sw]).wf()
            &&& swarms[sw].fliers.len() == count
            &&& swarms[sw]@ == replayed(starts[sw], next, count, parts(log, sw, count), k)
        }
}

/// The last generation's scores, swarm by swarm.
proof fn lemma_last_part(
    log: Seq<Seq<Binary64>>,
    costs: Seq<Binary64>,
    sw: int,
    count: nat,
)
    ensures
        parts(log.push(costs), sw, count) == parts(log, sw, count).push(part(costs, sw, count)),
{
    assert(parts(log.push(costs), sw, count) =~= parts(log, sw, count).push(
        part(costs, sw, count),
    ));
}

/// The log grows by what the evaluator answered.
proof fn lemma_log_grows<R, V, E, L: Fn(&V, &Vec<Binary64>) -> Result<Vec<Binary64>, E>>(
    eval: L,
    v: V,
    starts: Seq<Setting<R>>,
    next: spec_fn(R, Draw) -> (Binary64, R),
    count: nat,
    log: Seq<Seq<Binary64>>,
    costs: Seq<Binary64>,
)
    requires
        may_log::<R, V, E, L>(eval, v, starts, next, count, log),
        may_score::<V, E, L>(
            eval,
            v,
            packed(batch_rows(starts, next, count, log, log.len())),
            costs,
        ),
    ensures
        may_log::<R, V, E, L>(eval, v, starts, next, count, log.push(costs)),
{
    let more = log.push(costs);
    assert forall|k: int| 0 <= k < more.len() implies may_score::<V, E, L>(
        eval,
        v,
        packed(batch_rows(starts, next, count, more, k as nat)),
        #[trigger] more[k],
    ) by {
        lemma_rows_push(starts, next, count, log, costs, k as nat);
        if k < log.len() {
            assert(may_score::<V, E, L>(
                eval,
                v,
                packed(batch_rows(starts, next, count, log, k as nat)),
                log[k],
            ));
        }
    }
}

/// The positions that all swarms stand at are those the batch asks about next.
proof fn lemma_rows_match<R>(
    swarms: Seq<Swarm<R>>,
    starts: Seq<Setting<R>>,
    next: spec_fn(R, Draw) -> (Binary64, R),
    count: nat,
    log: Seq<Seq<Binary64>>,
    k: nat,
)
    requires
        count > 0,
        swarms.len() == starts.len(),
        forall|sw: int|
            0 <= sw < swarms.len() ==> positions_of((#[trigger] swarms[sw])@) == asked(
                starts[sw],
                next,
                count,
                parts(log, sw, count),
                k,
            ) && swarms[sw].fliers.len() == count,
    ensures
        rows_of(flocks_of(swarms), count) == batch_rows(starts, next, count, log, k),
{
    let a = rows_of(flocks_of(swarms), count);
    let b = batch_rows(starts, next, count, log, k);
    assert forall|i: int| 0 <= i < a.len() implies a[i] == b[i] by {
        let sw = i / count as int;
        let p = i % count as int;
        lemma_mul_is_commutative(swarms.len() as int, count as int);
        lemma_multiply_divide_lt(i, count as int, swarms.len() as int);
        lemma_fundamental_div_mod(i, count as int);
        assert(sw >= 0) by (nonlinear_arith)
            requires
                sw == i / count as int,
                i >= 0,
                count > 0,
        ;
        assert(positions_of(swarms[sw]@)[p] == swarms[sw]@.particles[p].position);
    }
    assert(a =~= b);
}

/// What a search of a batch states of its outcome: the lead of every swarm, as
/// the scores that the evaluator gave lead to it; or an error of the evaluator.
pub open spec fn batch_outcome<
    R,
    V,
    E,
    K: Fn(usize) -> Result<V, E>,
    L: Fn(&V, &Vec<Binary64>) -> Result<Vec<Binary64>, E>,
>(
    make_eval: K,
    eval: L,
    starts: Seq<Setting<R>>,
    next: spec_fn(R, Draw) -> (Binary64, R),
    per_source: usize,
    count: nat,
    n_iters: nat,
    outcome: Result<Seq<(Seq<Binary64>, Binary64)>, E>,
) -> bool {
    match outcome {
        Ok(ends) => exists|v: V, log: Seq<Seq<Binary64>>|
            {
                &&& call_ensures(make_eval, (per_source,), Ok(v))
                &&& log.len() == n_iters + 1
                &&& #[trigger] may_log::<R, V, E, L>(eval, v, starts, next, count, log)
                &&& ends == batch_ends(starts, next, count, log, n_iters)
            },
        Err(e) => {
            ||| call_ensures(make_eval, (per_source,), Err::<V, E>(e))
            ||| exists|v: V, log: Seq<Seq<Binary64>>|
                {
                    &&& call_ensures(make_eval, (per_source,), Ok(v))
                    &&& log.len() <= n_iters
                    &&& #[trigger] may_log::<R, V, E, L>(eval, v, starts, next, count, log)
                    &&& may_fail::<V, E, L>(
                        eval,
                        v,
                        packed(batch_rows(starts, next, count, log, log.len())),
                        e,
                    )
                }
        },
    }
}

/// Parameters and costs, as numbers.
pub open spec fn ends_of<E>(r: Result<Vec<(Vec<Binary64>, Binary64)>, E>) -> Result<
    Seq<(Seq<Binary64>, Binary64)>,
    E,
> {
    match r {
        Ok(best) => Ok(best@.map_values(|b: (Vec<Binary64>, Binary64)| (b.0@, b.1))),
        Err(e) => Err(e),
    }
}

/// The models of prepared sources.
pub open spec fn sources_of(preps: Seq<PreparedSource>) -> Seq<Source> {
    preps.map_values(|p: PreparedSource| p@)
}

/// A swarm holds at least one particle.
pub open spec fn swarm_size(n_particles: usize) -> usize {
    if n_particles == 0 {
        1
    } else {
        n_particles
    }
}

/// Searches every source of a batch once per seed, all swarms side by side: one
/// evaluation per generation scores them all. Returns each swarm's best
/// parameters, relative to the source's reference time, and their cost, source
/// by source and seed by seed.
///
/// `make_eval` is called once, with the number of particles per source.
pub fn batch_pso_restarts<
    R,
    S: Fn(u64) -> R,
    D: Fn(&R, Draw) -> (Binary64, R),
    V,
    E,
    K: Fn(usize) -> Result<V, E>,
    L: Fn(&V, &Vec<Binary64>) -> Result<Vec<Binary64>, E>,
>(
    make_eval: &K,
    eval: &L,
    preps: &Vec<PreparedSource>,
    n_particles: usize,
    n_iters: usize,
    batch_seeds: &Vec<u64>,
    seeded: &S,
    draw: &D,
) -> (r: Result<Vec<(Vec<Binary64>, Binary64)>, E>)
    requires
        preps.len() * batch_seeds.len() * swarm_size(n_particles) * N_PARAMS <= usize::MAX,
        n_iters > 0 && batch_seeds.len() > 0 ==> forall|s: int|
            0 <= s < preps.len() ==> steerable((#[trigger] preps@[s])@),
        forall|n: usize| #[trigger] call_requires(*make_eval, (n,)),
        is_evaluator(*eval),
        is_seeding(*seeded),
        is_generator(*draw),
    ensures
        preps.len() == 0 || batch_seeds.len() == 0 ==> r is Ok && r->Ok_0@.len() == 0,
        preps.len() > 0 && batch_seeds.len() > 0 ==> batch_outcome(
            *make_eval,
            *eval,
            settings(sources_of(preps@), batch_seeds@, seeds(*seeded)),
            stream(*draw),
            (batch_seeds.len() * swarm_size(n_particles)) as usize,
            swarm_size(n_particles) as nat,
            n_iters as nat,
            ends_of(r),
        ),
        r is Ok ==> r->Ok_0@.len() == preps.len() * batch_seeds.len() && forall|i: int|
            0 <= i < r->Ok_0@.len() ==> (#[trigger] r->Ok_0@[i]).0.len() == N_PARAMS,
{
    let n_sources: usize = preps.len();
    let per: usize = batch_seeds.len();
    if n_sources == 0 || per == 0 {
        assert(n_sources * per == 0) by (nonlinear_arith)
            requires
                n_sources == 0 || per == 0,
        ;
        return Ok(Vec::new());
    }
    let count: usize = if n_particles == 0 {
        1
    } else {
        n_particles
    };
    let ghost next = stream(*draw);
    let ghost sown = seeds(*seeded);
    let ghost starts = settings(sources_of(preps@), batch_seeds@, sown);
    assert(n_sources * per <= usize::MAX && n_sources * per * count <= usize::MAX && per * count
        <= usize::MAX && n_sources * per > 0) by (nonlinear_arith)
        requires
            n_sources > 0,
            per > 0,
            count > 0,
            n_sources * per * count * 7 <= usize::MAX,
    ;
    let n_swarms: usize = n_sources * per;
    let evaluator: V = match make_eval(per * count) {
        Ok(v) => v,
        Err(e) => {
            return Err(e);
        },
    };
    let mut bounds: Vec<([Binary64; N_PARAMS], [Binary64; N_PARAMS])> = Vec::with_capacity(
        n_swarms,
    );
    let mut swarms: Vec<Swarm<R>> = Vec::with_capacity(n_swarms);
    let mut sw: usize = 0;
    while sw < n_swarms
        invariant
            sw <= n_swarms,
            n_sources == preps.len(),
            per == batch_seeds.len(),
            per > 0,
            count > 0,
            n_swarms == n_sources * per,
            is_seeding(*seeded),
            is_generator(*draw),
            next == stream(*draw),
            sown == seeds(*seeded),
            starts == settings(sources_of(preps@), batch_seeds@, sown),
            starts.len() == n_swarms,
            bounds.len() == sw,
            swarms.len() == sw,
            forall|i: int|
                0 <= i < sw ==> {
                    &&& (#[trigger] bounds@[i]).0@ == starts[i].lower
                    &&& bounds@[i].1@ == starts[i].upper
                },
            forall|i: int|
                0 <= i < sw ==> {
                    &&& (#[trigger] swarms@[i]).wf()
                    &&& swarms@[i].fliers.len() == count
                    &&& positions_of(swarms@[i]@) == hatched(starts[i], next, count as nat).0
                    &&& swarms@[i]@.particles.map_values(|p: Particle| p.velocity) == hatched(
                        starts[i],
                        next,
                        count as nat,
                    ).1
                    &&& swarms@[i].generator == hatched(starts[i], next, count as nat).2
                },
        decreases n_swarms - sw,
    {
        let source: usize = sw / per;
        let restart: usize = sw % per;
        proof {
            lemma_mul_is_commutative(n_sources as int, per as int);
            lemma_multiply_divide_lt(sw as int, per as int, n_sources as int);
        }
        let prep: &PreparedSource = &preps[source];
        assert(prep@ == sources_of(preps@)[source as int]);
        let (lower, upper) = shifted_bounds(prep);
        let generator: R = sow(seeded, batch_seeds[restart] ^ prep.seed_key);
        let ghost start = Setting { lower: lower@, upper: upper@, generator };
        assert(start == starts[sw as int]);
        let swarm: Swarm<R> = hatch(&lower, &upper, generator, draw, count);
        proof {
            let first = hatched(start, next, count as nat);
            assert(positions_of(swarm@) =~= first.0);
            assert(swarm@.particles.map_values(|p: Particle| p.velocity) =~= first.1);
        }
        bounds.push((lower, upper));
        swarms.push(swarm);
        sw += 1;
    }
    let ghost mut log: Seq<Seq<Binary64>> = seq![];
    proof {
        lemma_rows_match(swarms@, starts, next, count as nat, log, 0);
    }
    let positions: Vec<Binary64> = pack(&swarms, count);
    let costs: Vec<Binary64> = match eval(&evaluator, &positions) {
        Ok(costs) => costs,
        Err(e) => {
            proof {
                assert(may_log::<R, V, E, L>(*eval, evaluator, starts, next, count as nat, log));
                assert(may_fail::<V, E, L>(*eval, evaluator, positions@, e));
            }
            return Err(e);
        },
    };
    assert(costs.len() == n_swarms * count);
    proof {
        assert(may_score::<V, E, L>(*eval, evaluator, positions@, costs@));
        lemma_log_grows::<R, V, E, L>(
            *eval,
            evaluator,
            starts,
            next,
            count as nat,
            log,
            costs@,
        );
    }
    sw = 0;
    while sw < n_swarms
        invariant
            sw <= n_swarms,
            count > 0,
            starts.len() == n_swarms,
            swarms.len() == n_swarms,
            costs.len() == n_swarms * count,
            forall|i: int|
                0 <= i < n_swarms ==> {
                    &&& (#[trigger] swarms@[i]).wf()
                    &&& swarms@[i].fliers.len() == count
                },
            forall|i: int|
                sw <= i < n_swarms ==> {
                    &&& positions_of((#[trigger] swarms@[i])@) == hatched(
                        starts[i],
                        next,
                        count as nat,
                    ).0
                    &&& swarms@[i]@.particles.map_values(|p: Particle| p.velocity) == hatched(
                        starts[i],
                        next,
                        count as nat,
                    ).1
                    &&& swarms@[i].generator == hatched(starts[i], next, count as nat).2
                },
            forall|i: int|
                0 <= i < sw ==> (#[trigger] swarms@[i])@ == replayed(
                    starts[i],
                    next,
                    count as nat,
                    parts(seq![costs@], i, count as nat),
                    0,
                ),
        decreases n_swarms - sw,
    {
        proof {
            lemma_share(sw as int, n_swarms as int, count as int);
            assert(parts(seq![costs@], sw as int, count as nat)[0] == part(
                costs@,
                sw as int,
                count as nat,
            ));
        }
        settle_in(&mut swarms[sw], &costs, sw * count);
        sw += 1;
    }
    proof {
        assert(log.push(costs@) =~= seq![costs@]);
        log = seq![costs@];
    }
    let mut k: usize = 0;
    while k < n_iters
        invariant
            k <= n_iters,
            count > 0,
            n_swarms * count * N_PARAMS <= usize::MAX,
            n_swarms * count <= usize::MAX,
            starts.len() == n_swarms,
            per * count <= usize::MAX,
            is_evaluator(*eval),
            is_generator(*draw),
            next == stream(*draw),
            bounds.len() == n_swarms,
            forall|i: int|
                0 <= i < n_swarms ==> {
                    &&& (#[trigger] bounds@[i]).0@ == starts[i].lower
                    &&& bounds@[i].1@ == starts[i].upper
                },
            call_ensures(*make_eval, ((per * count) as usize,), Ok(evaluator)),
            log.len() == k + 1,
            may_log::<R, V, E, L>(*eval, evaluator, starts, next, count as nat, log),
            at_generation(swarms@, starts, next, count as nat, log, k as nat),
            per == batch_seeds.len(),
            preps.len() > 0,
            per > 0,
            count == swarm_size(n_particles),
            starts == settings(sources_of(preps@), batch_seeds@, seeds(*seeded)),
        decreases n_iters - k,
    {
        sw = 0;
        while sw < n_swarms
            invariant
                sw <= n_swarms,
                starts.len() == n_swarms,
                is_generator(*draw),
                next == stream(*draw),
                bounds.len() == n_swarms,
                swarms.len() == n_swarms,
                forall|i: int|
                    0 <= i < n_swarms ==> {
                        &&& (#[trigger] bounds@[i]).0@ == starts[i].lower
                        &&& bounds@[i].1@ == starts[i].upper
                    },
                forall|i: int|
                    0 <= i < n_swarms ==> {
                        &&& (#[trigger] swarms@[i]).wf()
                        &&& swarms@[i].fliers.len() == count
                    },
                forall|i: int|
                    sw <= i < n_swarms ==> (#[trigger] swarms@[i])@ == replayed(
                        starts[i],
                        next,
                        count as nat,
                        parts(log, i, count as nat),
                        k as nat,
                    ),
                forall|i: int|
                    0 <= i < sw ==> (#[trigger] swarms@[i])@ == flown(
                        replayed(
                            starts[i],
                            next,
                            count as nat,
                            parts(log, i, count as nat),
                            k as nat,
                        ),
                        starts[i].lower,
                        starts[i].upper,
                        next,
                        count as nat,
                    ),
            decreases n_swarms - sw,
        {
            assert(bounds@[sw as int].0@ == starts[sw as int].lower);
            fly_all(&mut swarms[sw], &bounds[sw].0, &bounds[sw].1, draw);
            sw += 1;
        }
        proof {
            lemma_rows_match(swarms@, starts, next, count as nat, log, (k + 1) as nat);
        }
        let positions: Vec<Binary64> = pack(&swarms, count);
        let costs: Vec<Binary64> = match eval(&evaluator, &positions) {
            Ok(costs) => costs,
            Err(e) => {
                proof {
                    assert(may_fail::<V, E, L>(*eval, evaluator, positions@, e));
                }
                return Err(e);
            },
        };
        assert(costs.len() == n_swarms * count);
        let ghost before = log;
        proof {
            assert(may_score::<V, E, L>(*eval, evaluator, positions@, costs@));
            lemma_log_grows::<R, V, E, L>(
                *eval,
                evaluator,
                starts,
                next,
                count as nat,
                log,
                costs@,
            );
            log = log.push(costs@);
        }
        sw = 0;
        while sw < n_swarms
            invariant
                sw <= n_swarms,
                count > 0,
                starts.len() == n_swarms,
                swarms.len() == n_swarms,
                costs.len() == n_swarms * count,
                log == before.push(costs@),
                before.len() == k + 1,
                forall|i: int|
                    0 <= i < n_swarms ==> {
                        &&& (#[trigger] swarms@[i]).wf()
                        &&& swarms@[i].fliers.len() == count
                    },
                forall|i: int|
                    sw <= i < n_swarms ==> (#[trigger] swarms@[i])@ == flown(
                        replayed(
                            starts[i],
                            next,
                            count as nat,
                            parts(before, i, count as nat),
                            k as nat,
                        ),
                        starts[i].lower,
                        starts[i].upper,
                        next,
                        count as nat,
                    ),
                forall|i: int|
                    0 <= i < sw ==> (#[trigger] swarms@[i])@ == replayed(
                        starts[i],
                        next,
                        count as nat,
                        parts(log, i, count as nat),
                        (k + 1) as nat,
                    ),
            decreases n_swarms - sw,
        {
            proof {
                lemma_share(sw as int, n_swarms as int, count as int);
                lemma_last_part(before, costs@, sw as int, count as nat);
                lemma_replay_push(
                    starts[sw as int],
                    next,
                    count as nat,
                    parts(before, sw as int, count as nat),
                    part(costs@, sw as int, count as nat),
                    k as nat,
                );
            }
            judge(&mut swarms[sw], &costs, sw * count);
            sw += 1;
        }
        k += 1;
    }
    let mut best: Vec<(Vec<Binary64>, Binary64)> = Vec::with_capacity(n_swarms);
    sw = 0;
    while sw < n_swarms
        invariant
            sw <= n_swarms,
            at_generation(swarms@, starts, next, count as nat, log, n_iters as nat),
            starts.len() == n_swarms,
            best.len() == sw,
            forall|i: int|
                0 <= i < sw ==> {
                    &&& (#[trigger] best@[i]).0.len() == N_PARAMS
                    &&& best@[i].0@ == swarms@[i]@.lead
                    &&& best@[i].1 == swarms@[i]@.lead_cost
                },
        decreases n_swarms - sw,
    {
        assert(swarms@[sw as int].wf());
        best.push((copied(&swarms[sw].lead), swarms[sw].lead_cost));
        sw += 1;
    }
    proof {
        let ends = best@.map_values(|b: (Vec<Binary64>, Binary64)| (b.0@, b.1));
        assert(ends =~= batch_ends(starts, next, count as nat, log, n_iters as nat));
    }
    Ok(best)
}

} // verus!

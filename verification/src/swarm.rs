//! Particles, and what moves them.
use crate::binary64::{lemma_negated_units, lemma_units_positive, Binary64};
use crate::generator::{draws_in_range, is_generator, obliges, pull, stream, Draw};
use crate::ladder::{lemma_step, step_units, UNIT_EXPONENT};
use crate::magnitude::{
    lemma_one_is_unit, lemma_product_at_most, lemma_sum_at_most, lemma_units_ordered,
    lemma_units_within,
};
use crate::numbers::{ATTRACTION, INERTIA, MINUS_TENTH, N_PARAMS, ONE, TENTH};
use vstd::arithmetic::power2::{lemma_pow2_pos, lemma_pow2_unfold, pow2};
use vstd::prelude::*;

verus! {

/// One particle.
#[verifier::ext_equal]
pub struct Particle {
    pub position: Seq<Binary64>,
    pub velocity: Seq<Binary64>,
    /// The best position this particle has been at.
    pub best: Seq<Binary64>,
    pub best_cost: Binary64,
}

/// A swarm: its particles, the best position any of them has led it to, and
/// the generator it draws from.
#[verifier::reject_recursive_types(R)]
#[verifier::ext_equal]
pub struct Flock<R> {
    pub particles: Seq<Particle>,
    pub lead: Seq<Binary64>,
    pub lead_cost: Binary64,
    pub generator: R,
}

/// Where one step takes a particle.
#[verifier::reject_recursive_types(R)]
pub struct Flight<R> {
    pub position: Seq<Binary64>,
    pub velocity: Seq<Binary64>,
    pub generator: R,
}

/// The velocity of one coordinate after a step: inertia, and a random pull
/// towards the particle's own best and towards the lead.
pub open spec fn turned(
    position: Binary64,
    velocity: Binary64,
    best: Binary64,
    lead: Binary64,
    r1: Binary64,
    r2: Binary64,
) -> Binary64 {
    let pull = Binary64 { bits: ATTRACTION };
    Binary64 { bits: INERTIA }.times(velocity).plus(
        pull.times(r1).times(best.minus(position)),
    ).plus(pull.times(r2).times(lead.minus(position)))
}

/// The first `n` coordinates of one step: two unit draws each, and a position
/// kept within the bounds.
pub open spec fn flight<R>(
    p: Particle,
    lead: Seq<Binary64>,
    lower: Seq<Binary64>,
    upper: Seq<Binary64>,
    g: R,
    next: spec_fn(R, Draw) -> (Binary64, R),
    n: nat,
) -> Flight<R>
    decreases n,
{
    if n == 0 {
        Flight { position: seq![], velocity: seq![], generator: g }
    } else {
        let so_far = flight(p, lead, lower, upper, g, next, (n - 1) as nat);
        let d = n - 1;
        let first = next(so_far.generator, Draw::Unit);
        let second = next(first.1, Draw::Unit);
        let v = turned(
            p.position[d],
            p.velocity[d],
            p.best[d],
            lead[d],
            first.0,
            second.0,
        );
        Flight {
            position: so_far.position.push(p.position[d].plus(v).clamp(lower[d], upper[d])),
            velocity: so_far.velocity.push(v),
            generator: second.1,
        }
    }
}

/// The index of the least of the first `n` costs; of equal ones, the first.
pub open spec fn front(costs: Seq<Binary64>, n: nat) -> int
    decreases n,
{
    if n <= 1 {
        0
    } else {
        let so_far = front(costs, (n - 1) as nat);
        if costs[n - 1].lt(costs[so_far]) {
            n - 1
        } else {
            so_far
        }
    }
}

/// A swarm at rest at its first positions, once they have been scored.
pub open spec fn settled<R>(
    positions: Seq<Seq<Binary64>>,
    velocities: Seq<Seq<Binary64>>,
    costs: Seq<Binary64>,
    generator: R,
) -> Flock<R> {
    let first = front(costs, positions.len());
    Flock {
        particles: Seq::new(
            positions.len(),
            |i: int|
                Particle {
                    position: positions[i],
                    velocity: velocities[i],
                    best: positions[i],
                    best_cost: costs[i],
                },
        ),
        lead: positions[first],
        lead_cost: costs[first],
        generator,
    }
}

impl Particle {
    /// The particle at its next position.
    pub open spec fn at(self, position: Seq<Binary64>, velocity: Seq<Binary64>) -> Particle {
        Particle { position, velocity, ..self }
    }

    /// The particle once its position has been scored.
    pub open spec fn scored(self, cost: Binary64) -> Particle {
        if cost.lt(self.best_cost) {
            Particle { best: self.position, best_cost: cost, ..self }
        } else {
            self
        }
    }
}

impl<R> Flock<R> {
    /// The swarm once its `i`th particle has been scored.
    pub open spec fn scored_at(self, i: int, cost: Binary64) -> Flock<R> {
        let led = cost.lt(self.lead_cost);
        Flock {
            particles: self.particles.update(i, self.particles[i].scored(cost)),
            lead: if led {
                self.particles[i].position
            } else {
                self.lead
            },
            lead_cost: if led {
                cost
            } else {
                self.lead_cost
            },
            generator: self.generator,
        }
    }

    /// The swarm once its `i`th particle has moved.
    pub open spec fn moved_at(
        self,
        i: int,
        lower: Seq<Binary64>,
        upper: Seq<Binary64>,
        next: spec_fn(R, Draw) -> (Binary64, R),
    ) -> Flock<R> {
        let p = self.particles[i];
        let step = flight(p, self.lead, lower, upper, self.generator, next, N_PARAMS as nat);
        Flock {
            particles: self.particles.update(i, p.at(step.position, step.velocity)),
            generator: step.generator,
            ..self
        }
    }
}

/// One particle, in memory.
pub struct Flier {
    pub position: Vec<Binary64>,
    pub velocity: Vec<Binary64>,
    pub best: Vec<Binary64>,
    pub best_cost: Binary64,
}

impl View for Flier {
    type V = Particle;

    open spec fn view(&self) -> Particle {
        Particle {
            position: self.position@,
            velocity: self.velocity@,
            best: self.best@,
            best_cost: self.best_cost,
        }
    }
}

impl Flier {
    /// Every vector has one number per parameter.
    pub open spec fn wf(&self) -> bool {
        &&& self.position.len() == N_PARAMS
        &&& self.velocity.len() == N_PARAMS
        &&& self.best.len() == N_PARAMS
    }

    /// Moves one step.
    pub fn fly<R, D: Fn(&R, Draw) -> (Binary64, R)>(
        &mut self,
        lead: &Vec<Binary64>,
        lower: &[Binary64; N_PARAMS],
        upper: &[Binary64; N_PARAMS],
        generator: &mut R,
        draw: &D,
    )
        requires
            old(self).wf(),
            lead.len() == N_PARAMS,
            is_generator(*draw),
        ensures
            final(self).wf(),
            ({
                let step = flight(
                    old(self)@,
                    lead@,
                    lower@,
                    upper@,
                    *old(generator),
                    stream(*draw),
                    N_PARAMS as nat,
                );
                &&& final(self)@ == old(self)@.at(step.position, step.velocity)
                &&& *final(generator) == step.generator
            }),
    {
        let ghost before = self@;
        let ghost next = stream(*draw);
        let ghost seed = *generator;
        let mut position: Vec<Binary64> = Vec::with_capacity(N_PARAMS);
        let mut velocity: Vec<Binary64> = Vec::with_capacity(N_PARAMS);
        let mut d: usize = 0;
        while d < N_PARAMS
            invariant
                d <= N_PARAMS,
                self.wf(),
                self@ == before,
                lead.len() == N_PARAMS,
                is_generator(*draw),
                next == stream(*draw),
                position@ == flight(before, lead@, lower@, upper@, seed, next, d as nat).position,
                velocity@ == flight(before, lead@, lower@, upper@, seed, next, d as nat).velocity,
                *generator == flight(before, lead@, lower@, upper@, seed, next, d as nat).generator,
                position.len() == d,
                velocity.len() == d,
            decreases N_PARAMS - d,
        {
            let (r1, g1) = pull(draw, &*generator, Draw::Unit);
            let (r2, g2) = pull(draw, &g1, Draw::Unit);
            *generator = g2;
            let attraction: Binary64 = Binary64 { bits: ATTRACTION };
            let here: Binary64 = self.position[d];
            let v: Binary64 = Binary64 { bits: INERTIA }.times(self.velocity[d]).plus(
                attraction.times(r1).times(self.best[d].minus(here)),
            ).plus(attraction.times(r2).times(lead[d].minus(here)));
            velocity.push(v);
            position.push(here.plus(v).clamp(lower[d], upper[d]));
            d += 1;
        }
        self.position = position;
        self.velocity = velocity;
    }
}

/// A copy of a row of numbers.
pub fn copied(v: &Vec<Binary64>) -> (r: Vec<Binary64>)
    ensures
        r@ == v@,
{
    let r: Vec<Binary64> = v.clone();
    assert(r@ =~= v@);
    r
}

/// A swarm, in memory.
#[verifier::reject_recursive_types(R)]
pub struct Swarm<R> {
    pub fliers: Vec<Flier>,
    pub lead: Vec<Binary64>,
    pub lead_cost: Binary64,
    pub generator: R,
}

impl<R> View for Swarm<R> {
    type V = Flock<R>;

    open spec fn view(&self) -> Flock<R> {
        Flock {
            particles: Seq::new(self.fliers@.len(), |i: int| self.fliers@[i]@),
            lead: self.lead@,
            lead_cost: self.lead_cost,
            generator: self.generator,
        }
    }
}

impl<R> Swarm<R> {
    /// Every position has one number per parameter.
    pub open spec fn wf(&self) -> bool {
        &&& self.lead.len() == N_PARAMS
        &&& forall|i: int| 0 <= i < self.fliers@.len() ==> (#[trigger] self.fliers@[i]).wf()
    }

    /// Moves the `i`th particle.
    pub fn advance<D: Fn(&R, Draw) -> (Binary64, R)>(
        &mut self,
        i: usize,
        lower: &[Binary64; N_PARAMS],
        upper: &[Binary64; N_PARAMS],
        draw: &D,
    )
        requires
            old(self).wf(),
            i < old(self).fliers.len(),
            is_generator(*draw),
        ensures
            final(self).wf(),
            final(self)@ == old(self)@.moved_at(i as int, lower@, upper@, stream(*draw)),
    {
        let ghost before = self@;
        self.fliers[i].fly(&self.lead, lower, upper, &mut self.generator, draw);
        assert(self@.particles =~= before.moved_at(
            i as int,
            lower@,
            upper@,
            stream(*draw),
        ).particles);
    }

    /// Scores the `i`th particle.
    pub fn score(&mut self, i: usize, cost: Binary64)
        requires
            old(self).wf(),
            i < old(self).fliers.len(),
        ensures
            final(self).wf(),
            final(self)@ == old(self)@.scored_at(i as int, cost),
    {
        let ghost before = self@;
        if cost.lt(self.fliers[i].best_cost) {
            self.fliers[i].best = copied(&self.fliers[i].position);
            self.fliers[i].best_cost = cost;
        }
        if cost.lt(self.lead_cost) {
            self.lead_cost = cost;
            self.lead = copied(&self.fliers[i].position);
        }
        assert(self@.particles =~= before.scored_at(i as int, cost).particles);
    }
}

/// The costs a swarm remembers are the costs of the positions it remembers, and
/// no particle's best is below the lead.
pub open spec fn truthful<R>(flock: Flock<R>, cost: spec_fn(Seq<Binary64>) -> Binary64) -> bool {
    &&& flock.lead_cost == cost(flock.lead)
    &&& forall|i: int|
        0 <= i < flock.particles.len() ==> {
            let p = #[trigger] flock.particles[i];
            p.best_cost == cost(p.best) && !p.best_cost.lt(flock.lead_cost)
        }
}

/// No cost among the first `n` is below the cost at the front.
pub proof fn lemma_front_is_least(costs: Seq<Binary64>, n: nat)
    requires
        1 <= n <= costs.len(),
    ensures
        0 <= front(costs, n) < n,
        forall|i: int| 0 <= i < n ==> !(#[trigger] costs[i]).lt(costs[front(costs, n)]),
    decreases n,
{
    if n > 1 {
        lemma_front_is_least(costs, (n - 1) as nat);
    }
}

/// The front is one of the first `n`.
pub proof fn lemma_front_is_one_of(costs: Seq<Binary64>, n: nat)
    requires
        1 <= n,
    ensures
        0 <= front(costs, n) < n,
    decreases n,
{
    if n > 1 {
        lemma_front_is_one_of(costs, (n - 1) as nat);
    }
}

/// Of equal costs, all of them numbers, the front is the first.
pub proof fn lemma_front_is_first(costs: Seq<Binary64>, n: nat)
    requires
        1 <= n,
        forall|i: int| 0 <= i < n ==> !(#[trigger] costs[i]).is_nan(),
    ensures
        0 <= front(costs, n) < n,
        forall|i: int| 0 <= i < n ==> costs[front(costs, n)].le(#[trigger] costs[i]),
        forall|i: int| 0 <= i < front(costs, n) ==> costs[front(costs, n)].lt(#[trigger] costs[i]),
    decreases n,
{
    assert(!costs[n - 1].is_nan());
    if n > 1 {
        lemma_front_is_first(costs, (n - 1) as nat);
    }
}

/// A swarm is truthful once its first positions have been scored.
pub proof fn law_settling_is_truthful<R>(
    positions: Seq<Seq<Binary64>>,
    velocities: Seq<Seq<Binary64>>,
    cost: spec_fn(Seq<Binary64>) -> Binary64,
    generator: R,
)
    requires
        positions.len() > 0,
    ensures
        truthful(settled(positions, velocities, positions.map_values(cost), generator), cost),
{
    let costs = positions.map_values(cost);
    lemma_front_is_least(costs, costs.len());
    let flock = settled(positions, velocities, costs, generator);
    assert forall|i: int| 0 <= i < flock.particles.len() implies {
        let p = #[trigger] flock.particles[i];
        p.best_cost == cost(p.best) && !p.best_cost.lt(flock.lead_cost)
    } by {
        assert(costs[i] == cost(positions[i]));
    }
}

/// Moving a particle leaves a swarm truthful, and its lead where it was.
pub proof fn law_moving_is_truthful<R>(
    flock: Flock<R>,
    i: int,
    lower: Seq<Binary64>,
    upper: Seq<Binary64>,
    next: spec_fn(R, Draw) -> (Binary64, R),
    cost: spec_fn(Seq<Binary64>) -> Binary64,
)
    requires
        truthful(flock, cost),
        0 <= i < flock.particles.len(),
    ensures
        truthful(flock.moved_at(i, lower, upper, next), cost),
        flock.moved_at(i, lower, upper, next).lead_cost == flock.lead_cost,
        flock.moved_at(i, lower, upper, next).particles.len() == flock.particles.len(),
{
    let moved = flock.moved_at(i, lower, upper, next);
    assert forall|j: int| 0 <= j < moved.particles.len() implies {
        let p = #[trigger] moved.particles[j];
        p.best_cost == cost(p.best) && !p.best_cost.lt(moved.lead_cost)
    } by {
        assert(flock.particles[j].best_cost == cost(flock.particles[j].best));
    }
}

/// Scoring a particle by the cost of its position leaves a swarm truthful, and
/// never makes its lead worse.
pub proof fn law_scoring_is_truthful<R>(
    flock: Flock<R>,
    i: int,
    cost: spec_fn(Seq<Binary64>) -> Binary64,
)
    requires
        truthful(flock, cost),
        0 <= i < flock.particles.len(),
    ensures
        truthful(flock.scored_at(i, cost(flock.particles[i].position)), cost),
        !flock.lead_cost.lt(flock.scored_at(i, cost(flock.particles[i].position)).lead_cost),
        flock.scored_at(i, cost(flock.particles[i].position)).particles.len()
            == flock.particles.len(),
{
    let c = cost(flock.particles[i].position);
    let after = flock.scored_at(i, c);
    assert forall|j: int| 0 <= j < after.particles.len() implies {
        let p = #[trigger] after.particles[j];
        p.best_cost == cost(p.best) && !p.best_cost.lt(after.lead_cost)
    } by {
        assert(flock.particles[j].best_cost == cost(flock.particles[j].best));
    }
}

/// Every coordinate is within its bounds, or not-a-number.
pub open spec fn within(
    row: Seq<Binary64>,
    lower: Seq<Binary64>,
    upper: Seq<Binary64>,
) -> bool {
    &&& row.len() == N_PARAMS
    &&& forall|d: int|
        0 <= d < N_PARAMS ==> (#[trigger] row[d]).is_nan() || (lower[d].le(row[d]) && row[d].le(
            upper[d],
        ))
}

/// The lower bounds do not exceed the upper ones.
pub open spec fn ordered(lower: Seq<Binary64>, upper: Seq<Binary64>) -> bool {
    forall|d: int| 0 <= d < N_PARAMS ==> (#[trigger] lower[d]).le(upper[d])
}

/// All positions a swarm stands at or remembers are within the bounds.
pub open spec fn contained<R>(
    flock: Flock<R>,
    lower: Seq<Binary64>,
    upper: Seq<Binary64>,
) -> bool {
    &&& within(flock.lead, lower, upper)
    &&& forall|i: int|
        0 <= i < flock.particles.len() ==> within(
            (#[trigger] flock.particles[i]).position,
            lower,
            upper,
        ) && within(flock.particles[i].best, lower, upper)
}

proof fn lemma_flight_is_within<R>(
    p: Particle,
    lead: Seq<Binary64>,
    lower: Seq<Binary64>,
    upper: Seq<Binary64>,
    g: R,
    next: spec_fn(R, Draw) -> (Binary64, R),
    n: nat,
)
    requires
        n <= N_PARAMS,
        ordered(lower, upper),
    ensures
        flight(p, lead, lower, upper, g, next, n).position.len() == n,
        forall|d: int|
            0 <= d < n ==> {
                let x = #[trigger] flight(p, lead, lower, upper, g, next, n).position[d];
                x.is_nan() || (lower[d].le(x) && x.le(upper[d]))
            },
    decreases n,
{
    if n > 0 {
        lemma_flight_is_within(p, lead, lower, upper, g, next, (n - 1) as nat);
        assert(lower[n - 1].le(upper[n - 1]));
    }
}

/// Moving and scoring a particle keep a swarm within the bounds.
pub proof fn law_steps_stay_contained<R>(
    flock: Flock<R>,
    i: int,
    lower: Seq<Binary64>,
    upper: Seq<Binary64>,
    next: spec_fn(R, Draw) -> (Binary64, R),
    c: Binary64,
)
    requires
        contained(flock, lower, upper),
        ordered(lower, upper),
        0 <= i < flock.particles.len(),
    ensures
        contained(flock.moved_at(i, lower, upper, next), lower, upper),
        contained(flock.scored_at(i, c), lower, upper),
{
    lemma_flight_is_within(
        flock.particles[i],
        flock.lead,
        lower,
        upper,
        flock.generator,
        next,
        N_PARAMS as nat,
    );
    let moved = flock.moved_at(i, lower, upper, next);
    assert forall|j: int| 0 <= j < moved.particles.len() implies within(
        (#[trigger] moved.particles[j]).position,
        lower,
        upper,
    ) && within(moved.particles[j].best, lower, upper) by {
        assert(within(flock.particles[j].best, lower, upper));
    }
    let scored = flock.scored_at(i, c);
    assert forall|j: int| 0 <= j < scored.particles.len() implies within(
        (#[trigger] scored.particles[j]).position,
        lower,
        upper,
    ) && within(scored.particles[j].best, lower, upper) by {
        assert(within(flock.particles[j].best, lower, upper));
    }
    assert(within(flock.particles[i].position, lower, upper));
}

/// A swarm at rest within the bounds is contained in them.
pub proof fn law_settling_is_contained<R>(
    positions: Seq<Seq<Binary64>>,
    velocities: Seq<Seq<Binary64>>,
    costs: Seq<Binary64>,
    generator: R,
    lower: Seq<Binary64>,
    upper: Seq<Binary64>,
)
    requires
        0 < positions.len() <= costs.len(),
        forall|i: int| 0 <= i < positions.len() ==> within(#[trigger] positions[i], lower, upper),
    ensures
        contained(settled(positions, velocities, costs, generator), lower, upper),
{
    lemma_front_is_least(costs, positions.len());
    let flock = settled(positions, velocities, costs, generator);
    assert forall|i: int| 0 <= i < flock.particles.len() implies within(
        (#[trigger] flock.particles[i]).position,
        lower,
        upper,
    ) && within(flock.particles[i].best, lower, upper) by {
        assert(within(positions[i], lower, upper));
    }
}

/// Bounds of a magnitude of 2^1018 at most: between such bounds no velocity
/// overflows.
pub const MODERATE: u64 = 0x7f90_0000_0000_0000;

/// A velocity of 2^1023, which no particle between moderate bounds exceeds.
pub const FASTEST: u64 = 0x7fe0_0000_0000_0000;

/// No bound exceeds 2^1018 in magnitude.
pub open spec fn moderate(lower: Seq<Binary64>, upper: Seq<Binary64>) -> bool {
    forall|d: int|
        0 <= d < N_PARAMS ==> (#[trigger] lower[d]).step() <= MODERATE && upper[d].step()
            <= MODERATE
}

/// Every coordinate is a number within its bounds.
pub open spec fn inside(row: Seq<Binary64>, lower: Seq<Binary64>, upper: Seq<Binary64>) -> bool {
    &&& row.len() == N_PARAMS
    &&& forall|d: int|
        0 <= d < N_PARAMS ==> lower[d].le(#[trigger] row[d]) && row[d].le(upper[d])
}

/// No velocity exceeds the fastest.
pub open spec fn calm(velocity: Seq<Binary64>) -> bool {
    &&& velocity.len() == N_PARAMS
    &&& forall|d: int| 0 <= d < N_PARAMS ==> (#[trigger] velocity[d]).step() <= FASTEST
}

/// All positions a swarm stands at or remembers are numbers within the bounds,
/// and no particle is too fast.
pub open spec fn enclosed<R>(
    flock: Flock<R>,
    lower: Seq<Binary64>,
    upper: Seq<Binary64>,
) -> bool {
    &&& inside(flock.lead, lower, upper)
    &&& forall|i: int|
        0 <= i < flock.particles.len() ==> {
            &&& inside((#[trigger] flock.particles[i]).position, lower, upper)
            &&& inside(flock.particles[i].best, lower, upper)
            &&& calm(flock.particles[i].velocity)
        }
}

/// Multiples of the moderate magnitude that bound the parts of a velocity.
#[verifier::spinoff_prover]
proof fn lemma_levels()
    ensures
        step_units(MODERATE as nat) > 0,
        step_units(ONE as nat) > 0,
        step_units(0x7fa0_0000_0000_0000) == 2 * step_units(MODERATE as nat),
        step_units(0x7fa8_0000_0000_0000) == 3 * step_units(MODERATE as nat),
        step_units(0x7fd8_0000_0000_0000) == 24 * step_units(MODERATE as nat),
        step_units(0x7fdb_0000_0000_0000) == 27 * step_units(MODERATE as nat),
        step_units(0x7fde_0000_0000_0000) == 30 * step_units(MODERATE as nat),
        step_units(FASTEST as nat) == 32 * step_units(MODERATE as nat),
        step_units(0x7fe0_8000_0000_0000) == 33 * step_units(MODERATE as nat),
        2 * step_units(0x3ff8_0000_0000_0000) == 3 * step_units(ONE as nat),
        4 * step_units(0x3fe8_0000_0000_0000) == 3 * step_units(ONE as nat),
{
    let p = pow2(2040);
    let q = pow2(1021);
    lemma_pow2_pos(2040);
    lemma_pow2_pos(1021);
    lemma_pow2_unfold(2041);
    lemma_pow2_unfold(2042);
    lemma_pow2_unfold(2043);
    lemma_pow2_unfold(2044);
    lemma_pow2_unfold(2045);
    lemma_pow2_unfold(1022);
    lemma_step(2040, 0x10_0000_0000_0000);
    lemma_step(2041, 0x10_0000_0000_0000);
    lemma_step(2041, 0x18_0000_0000_0000);
    lemma_step(2044, 0x18_0000_0000_0000);
    lemma_step(2044, 0x1b_0000_0000_0000);
    lemma_step(2044, 0x1e_0000_0000_0000);
    lemma_step(2045, 0x10_0000_0000_0000);
    lemma_step(2045, 0x10_8000_0000_0000);
    lemma_step(1022, 0x10_0000_0000_0000);
    lemma_step(1022, 0x18_0000_0000_0000);
    lemma_step(1021, 0x18_0000_0000_0000);
    let w = step_units(MODERATE as nat);
    let one = step_units(ONE as nat);
    assert(w == 0x10_0000_0000_0000 * p);
    assert(one == 0x10_0000_0000_0000 * (2 * q));
    lemma_units_positive(MODERATE as nat);
    lemma_units_positive(ONE as nat);
    assert(step_units(0x7fa0_0000_0000_0000) == 2 * w) by {
        assert(step_units(0x7fa0_0000_0000_0000) == 0x10_0000_0000_0000 * (2 * p));
        assert(0x10_0000_0000_0000 * (2 * p) == 2 * (0x10_0000_0000_0000 * p)) by (nonlinear_arith);
    }
    assert(step_units(0x7fa8_0000_0000_0000) == 3 * w) by {
        assert(step_units(0x7fa8_0000_0000_0000) == 0x18_0000_0000_0000 * (2 * p));
        assert(0x18_0000_0000_0000 * (2 * p) == 3 * (0x10_0000_0000_0000 * p)) by (nonlinear_arith);
    }
    assert(step_units(0x7fd8_0000_0000_0000) == 24 * w) by {
        assert(step_units(0x7fd8_0000_0000_0000) == 0x18_0000_0000_0000 * (16 * p));
        assert(0x18_0000_0000_0000 * (16 * p) == 24 * (0x10_0000_0000_0000 * p)) by (nonlinear_arith);
    }
    assert(step_units(0x7fdb_0000_0000_0000) == 27 * w) by {
        assert(step_units(0x7fdb_0000_0000_0000) == 0x1b_0000_0000_0000 * (16 * p));
        assert(0x1b_0000_0000_0000 * (16 * p) == 27 * (0x10_0000_0000_0000 * p)) by (nonlinear_arith);
    }
    assert(step_units(0x7fde_0000_0000_0000) == 30 * w) by {
        assert(step_units(0x7fde_0000_0000_0000) == 0x1e_0000_0000_0000 * (16 * p));
        assert(0x1e_0000_0000_0000 * (16 * p) == 30 * (0x10_0000_0000_0000 * p)) by (nonlinear_arith);
    }
    assert(step_units(FASTEST as nat) == 32 * w) by {
        assert(step_units(FASTEST as nat) == 0x10_0000_0000_0000 * (32 * p));
        assert(0x10_0000_0000_0000 * (32 * p) == 32 * (0x10_0000_0000_0000 * p)) by (nonlinear_arith);
    }
    assert(step_units(0x7fe0_8000_0000_0000) == 33 * w) by {
        assert(step_units(0x7fe0_8000_0000_0000) == 0x10_8000_0000_0000 * (32 * p));
        assert(0x10_8000_0000_0000 * (32 * p) == 33 * (0x10_0000_0000_0000 * p)) by (nonlinear_arith);
    }
    assert(2 * step_units(0x3ff8_0000_0000_0000) == 3 * one) by {
        assert(step_units(0x3ff8_0000_0000_0000) == 0x18_0000_0000_0000 * (2 * q));
        assert(2 * (0x18_0000_0000_0000 * (2 * q)) == 3 * (0x10_0000_0000_0000 * (2 * q)))
            by (nonlinear_arith);
    }
    assert(4 * step_units(0x3fe8_0000_0000_0000) == 3 * one) by {
        assert(step_units(0x3fe8_0000_0000_0000) == 0x18_0000_0000_0000 * q);
        assert(4 * (0x18_0000_0000_0000 * q) == 3 * (0x10_0000_0000_0000 * (2 * q)))
            by (nonlinear_arith);
    }
}

/// The velocity of a coordinate that stays between moderate bounds is not too
/// fast, and the next position is a number.
proof fn lemma_turned_is_calm(
    position: Binary64,
    velocity: Binary64,
    best: Binary64,
    lead: Binary64,
    r1: Binary64,
    r2: Binary64,
    lower: Binary64,
    upper: Binary64,
)
    requires
        lower.le(position) && position.le(upper),
        lower.le(best) && best.le(upper),
        lower.le(lead) && lead.le(upper),
        lower.step() <= MODERATE,
        upper.step() <= MODERATE,
        velocity.step() <= FASTEST,
        Binary64::zero().le(r1) && r1.lt(Binary64 { bits: ONE }),
        Binary64::zero().le(r2) && r2.lt(Binary64 { bits: ONE }),
    ensures
        turned(position, velocity, best, lead, r1, r2).step() <= FASTEST,
        !position.plus(turned(position, velocity, best, lead, r1, r2)).is_nan(),
{
    lemma_levels();
    lemma_one_is_unit();
    let w = step_units(MODERATE as nat) as int;
    let unit = pow2(UNIT_EXPONENT as nat) as int;
    let pull = Binary64 { bits: ATTRACTION };
    let inertia = Binary64 { bits: INERTIA };
    lemma_units_within(position, MODERATE as nat);
    lemma_units_within(best, MODERATE as nat);
    lemma_units_within(lead, MODERATE as nat);
    lemma_negated_units(position);
    lemma_sum_at_most(best, position.negated(), 0x7fa0_0000_0000_0000);
    lemma_sum_at_most(lead, position.negated(), 0x7fa0_0000_0000_0000);
    lemma_pulled(r1, best.minus(position));
    lemma_pulled(r2, lead.minus(position));
    lemma_units_ordered(inertia.step(), 0x3fe8_0000_0000_0000);
    lemma_units_ordered(velocity.step(), FASTEST as nat);
    assert(step_units(inertia.step()) * step_units(velocity.step()) <= (24 * w) * unit)
        by (nonlinear_arith)
        requires
            0 <= 4 * step_units(inertia.step()) <= 3 * unit,
            0 <= step_units(velocity.step()) <= 32 * w,
            w > 0,
            unit > 0,
    ;
    lemma_product_at_most(inertia, velocity, 0x7fd8_0000_0000_0000);
    let kept = inertia.times(velocity);
    let own = pull.times(r1).times(best.minus(position));
    let led = pull.times(r2).times(lead.minus(position));
    lemma_units_within(kept, 0x7fd8_0000_0000_0000);
    lemma_units_within(own, 0x7fa8_0000_0000_0000);
    lemma_units_within(led, 0x7fa8_0000_0000_0000);
    lemma_sum_at_most(kept, own, 0x7fdb_0000_0000_0000);
    lemma_units_within(kept.plus(own), 0x7fdb_0000_0000_0000);
    lemma_sum_at_most(kept.plus(own), led, 0x7fde_0000_0000_0000);
    let v = kept.plus(own).plus(led);
    lemma_units_within(v, FASTEST as nat);
    lemma_sum_at_most(position, v, 0x7fe0_8000_0000_0000);
}

/// A random pull over a moderate distance.
proof fn lemma_pulled(r: Binary64, way: Binary64)
    requires
        Binary64::zero().le(r) && r.lt(Binary64 { bits: ONE }),
        way.step() <= 0x7fa0_0000_0000_0000,
    ensures
        (Binary64 { bits: ATTRACTION }).times(r).times(way).step() <= 0x7fa8_0000_0000_0000,
{
    lemma_levels();
    lemma_one_is_unit();
    let w = step_units(MODERATE as nat) as int;
    let unit = pow2(UNIT_EXPONENT as nat) as int;
    let pull = Binary64 { bits: ATTRACTION };
    lemma_units_ordered(pull.step(), 0x3ff8_0000_0000_0000);
    lemma_units_ordered(r.step(), ONE as nat);
    assert(step_units(pull.step()) * step_units(r.step()) <= step_units(0x3ff8_0000_0000_0000)
        * unit) by (nonlinear_arith)
        requires
            0 <= step_units(pull.step()) <= step_units(0x3ff8_0000_0000_0000),
            0 <= step_units(r.step()) <= unit,
    ;
    lemma_product_at_most(pull, r, 0x3ff8_0000_0000_0000);
    let x = pull.times(r);
    lemma_units_ordered(x.step(), 0x3ff8_0000_0000_0000);
    lemma_units_ordered(way.step(), 0x7fa0_0000_0000_0000);
    assert(step_units(x.step()) * step_units(way.step()) <= (3 * w) * unit) by (nonlinear_arith)
        requires
            0 <= 2 * step_units(x.step()) <= 3 * unit,
            0 <= step_units(way.step()) <= 2 * w,
            w > 0,
            unit > 0,
    ;
    lemma_product_at_most(x, way, 0x7fa8_0000_0000_0000);
}

proof fn lemma_flight_is_inside<R>(
    p: Particle,
    lead: Seq<Binary64>,
    lower: Seq<Binary64>,
    upper: Seq<Binary64>,
    g: R,
    next: spec_fn(R, Draw) -> (Binary64, R),
    n: nat,
)
    requires
        n <= N_PARAMS,
        draws_in_range(next),
        moderate(lower, upper),
        inside(p.position, lower, upper),
        inside(p.best, lower, upper),
        inside(lead, lower, upper),
        calm(p.velocity),
    ensures
        ({
            let step = flight(p, lead, lower, upper, g, next, n);
            &&& step.position.len() == n
            &&& step.velocity.len() == n
            &&& forall|d: int|
                0 <= d < n ==> lower[d].le(#[trigger] step.position[d]) && step.position[d].le(
                    upper[d],
                )
            &&& forall|d: int| 0 <= d < n ==> (#[trigger] step.velocity[d]).step() <= FASTEST
        }),
    decreases n,
{
    if n > 0 {
        lemma_flight_is_inside(p, lead, lower, upper, g, next, (n - 1) as nat);
        let so_far = flight(p, lead, lower, upper, g, next, (n - 1) as nat);
        let d = n - 1;
        let first = next(so_far.generator, Draw::Unit);
        let second = next(first.1, Draw::Unit);
        assert(obliges(Draw::Unit, first.0));
        assert(obliges(Draw::Unit, second.0));
        assert(lower[d].step() <= MODERATE);
        assert(lower[d].le(p.position[d]));
        assert(lower[d].le(p.best[d]));
        assert(lower[d].le(lead[d]));
        assert(p.velocity[d].step() <= FASTEST);
        lemma_turned_is_calm(
            p.position[d],
            p.velocity[d],
            p.best[d],
            lead[d],
            first.0,
            second.0,
            lower[d],
            upper[d],
        );
    }
}

/// Between moderate bounds, moving and scoring a particle keep every coordinate a
/// number within them.
pub proof fn law_steps_stay_enclosed<R>(
    flock: Flock<R>,
    i: int,
    lower: Seq<Binary64>,
    upper: Seq<Binary64>,
    next: spec_fn(R, Draw) -> (Binary64, R),
    c: Binary64,
)
    requires
        enclosed(flock, lower, upper),
        draws_in_range(next),
        moderate(lower, upper),
        0 <= i < flock.particles.len(),
    ensures
        enclosed(flock.moved_at(i, lower, upper, next), lower, upper),
        enclosed(flock.scored_at(i, c), lower, upper),
{
    assert(inside(flock.particles[i].position, lower, upper));
    lemma_flight_is_inside(
        flock.particles[i],
        flock.lead,
        lower,
        upper,
        flock.generator,
        next,
        N_PARAMS as nat,
    );
    let moved = flock.moved_at(i, lower, upper, next);
    assert forall|j: int| 0 <= j < moved.particles.len() implies {
        &&& inside((#[trigger] moved.particles[j]).position, lower, upper)
        &&& inside(moved.particles[j].best, lower, upper)
        &&& calm(moved.particles[j].velocity)
    } by {
        assert(inside(flock.particles[j].best, lower, upper));
    }
    let scored = flock.scored_at(i, c);
    assert forall|j: int| 0 <= j < scored.particles.len() implies {
        &&& inside((#[trigger] scored.particles[j]).position, lower, upper)
        &&& inside(scored.particles[j].best, lower, upper)
        &&& calm(scored.particles[j].velocity)
    } by {
        assert(inside(flock.particles[j].best, lower, upper));
    }
}

/// A swarm at rest at numbers within the bounds is enclosed by them.
pub proof fn law_settling_is_enclosed<R>(
    positions: Seq<Seq<Binary64>>,
    velocities: Seq<Seq<Binary64>>,
    costs: Seq<Binary64>,
    generator: R,
    lower: Seq<Binary64>,
    upper: Seq<Binary64>,
)
    requires
        0 < positions.len(),
        forall|i: int| 0 <= i < positions.len() ==> inside(#[trigger] positions[i], lower, upper),
        forall|i: int| 0 <= i < positions.len() ==> calm(#[trigger] velocities[i]),
    ensures
        enclosed(settled(positions, velocities, costs, generator), lower, upper),
{
    lemma_front_is_one_of(costs, positions.len());
    let flock = settled(positions, velocities, costs, generator);
    assert(inside(positions[front(costs, positions.len())], lower, upper));
    assert forall|i: int| 0 <= i < flock.particles.len() implies {
        &&& inside((#[trigger] flock.particles[i]).position, lower, upper)
        &&& inside(flock.particles[i].best, lower, upper)
        &&& calm(flock.particles[i].velocity)
    } by {
        assert(inside(positions[i], lower, upper));
        assert(calm(velocities[i]));
    }
}

/// The span between moderate bounds is finite, and so is what it leads to from the
/// lower one.
pub proof fn lemma_moderate_span(low: Binary64, high: Binary64)
    requires
        low.step() <= MODERATE,
        high.step() <= MODERATE,
    ensures
        high.minus(low).step() <= 0x7fa0_0000_0000_0000,
        low.plus(high.minus(low)).is_finite(),
{
    lemma_levels();
    lemma_units_within(low, MODERATE as nat);
    lemma_units_within(high, MODERATE as nat);
    lemma_negated_units(low);
    lemma_sum_at_most(high, low.negated(), 0x7fa0_0000_0000_0000);
    lemma_units_within(high.minus(low), 0x7fa0_0000_0000_0000);
    lemma_sum_at_most(low, high.minus(low), 0x7fa8_0000_0000_0000);
}

/// A moderate time that is taken away and added again stays finite.
pub proof fn lemma_moderate_return(x: Binary64, t: Binary64)
    requires
        x.step() <= MODERATE,
        t.step() <= MODERATE,
    ensures
        x.minus(t).is_finite(),
        x.minus(t).plus(t).is_finite(),
{
    lemma_levels();
    lemma_moderate_span(t, x);
    lemma_units_within(x.minus(t), 0x7fa0_0000_0000_0000);
    lemma_units_within(t, MODERATE as nat);
    lemma_sum_at_most(x.minus(t), t, 0x7fa8_0000_0000_0000);
}

/// A first velocity, a tenth of the span at most, is not too fast.
pub proof fn lemma_first_velocity(low: Binary64, high: Binary64, v: Binary64)
    requires
        low.step() <= MODERATE,
        high.step() <= MODERATE,
        (Binary64 { bits: MINUS_TENTH }).times(high.minus(low)).le(v),
        v.le((Binary64 { bits: TENTH }).times(high.minus(low))),
    ensures
        v.step() <= FASTEST,
{
    lemma_levels();
    lemma_one_is_unit();
    let unit = pow2(UNIT_EXPONENT as nat) as int;
    let tenth = Binary64 { bits: TENTH };
    let minus = Binary64 { bits: MINUS_TENTH };
    lemma_moderate_span(low, high);
    let span = high.minus(low);
    lemma_units_ordered(tenth.step(), ONE as nat);
    lemma_units_ordered(span.step(), 0x7fa0_0000_0000_0000);
    assert(minus.step() == tenth.step());
    assert(step_units(tenth.step()) * step_units(span.step()) <= step_units(0x7fa0_0000_0000_0000)
        * unit) by (nonlinear_arith)
        requires
            0 <= step_units(tenth.step()) <= unit,
            0 <= step_units(span.step()) <= step_units(0x7fa0_0000_0000_0000),
    ;
    lemma_product_at_most(tenth, span, 0x7fa0_0000_0000_0000);
    lemma_product_at_most(minus, span, 0x7fa0_0000_0000_0000);
}

} // verus!

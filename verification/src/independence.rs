//! Swarms that are scored particle by particle do not notice each other.
use crate::binary64::{law_positive_difference, Binary64};
use crate::generator::{answerable, draws_in_range, obliges, Draw};
use crate::magnitude::law_opposite_multiples;
use crate::numbers::{MINUS_TENTH, N_PARAMS, TENTH};
use crate::side_by_side::{
    asked, batch_ends, batch_rows, flown, hatched, is_evaluator, judged, may_log, may_score, packed, part,
    parts, placed, positions_of, replayed, setting_of, settings, Setting,
};
use crate::source::Source;
use crate::swarm::{
    calm, contained, enclosed, flight, inside, law_moving_is_truthful, law_scoring_is_truthful,
    law_settling_is_contained, law_settling_is_enclosed, law_settling_is_truthful,
    law_steps_stay_contained, law_steps_stay_enclosed, lemma_first_velocity, moderate, ordered,
    settled, truthful, within, Flock, Particle, FASTEST, MODERATE,
};
use vstd::arithmetic::div_mod::lemma_fundamental_div_mod_converse;
use vstd::prelude::*;

verus! {

/// A swarm on its own after `k` generations, scored by a cost function.
pub open spec fn lone<R>(
    cost: spec_fn(Seq<Binary64>) -> Binary64,
    start: Setting<R>,
    next: spec_fn(R, Draw) -> (Binary64, R),
    count: nat,
    k: nat,
) -> Flock<R>
    decreases k,
{
    if k == 0 {
        let first = hatched(start, next, count);
        settled(first.0, first.1, first.0.map_values(cost), first.2)
    } else {
        let before = lone(cost, start, next, count, (k - 1) as nat);
        let moved = flown(before, start.lower, start.upper, next, count);
        judged(moved, positions_of(moved).map_values(cost), count)
    }
}

/// Where a swarm on its own ends.
pub open spec fn lone_end<R>(
    cost: spec_fn(Seq<Binary64>) -> Binary64,
    start: Setting<R>,
    next: spec_fn(R, Draw) -> (Binary64, R),
    count: nat,
    k: nat,
) -> (Seq<Binary64>, Binary64) {
    let flock = lone(cost, start, next, count, k);
    (flock.lead, flock.lead_cost)
}

/// A swarm whose scores are the costs of its positions runs as it would alone.
pub proof fn law_honest_scores_replay<R>(
    cost: spec_fn(Seq<Binary64>) -> Binary64,
    start: Setting<R>,
    next: spec_fn(R, Draw) -> (Binary64, R),
    count: nat,
    log: Seq<Seq<Binary64>>,
    k: nat,
)
    requires
        forall|j: int|
            0 <= j <= k ==> #[trigger] log[j] == asked(
                start,
                next,
                count,
                log,
                j as nat,
            ).map_values(cost),
    ensures
        replayed(start, next, count, log, k) == lone(cost, start, next, count, k),
    decreases k,
{
    assert(log[k as int] == asked(start, next, count, log, k).map_values(cost));
    if k > 0 {
        law_honest_scores_replay(cost, start, next, count, log, (k - 1) as nat);
    }
}

/// `eval` scores particle by particle: the cost of a particle is a function of
/// its source and of its own position.
pub open spec fn scores_each<V, E, L: Fn(&V, &Vec<Binary64>) -> Result<Vec<Binary64>, E>>(
    eval: L,
    v: V,
    per_source: int,
    cost: spec_fn(int, Seq<Binary64>) -> Binary64,
) -> bool {
    forall|x: &Vec<Binary64>, y: Vec<Binary64>, i: int|
        #![trigger call_ensures(eval, (&v, x), Ok(y)), y@[i]]
        call_ensures(eval, (&v, x), Ok(y)) && 0 <= i < y.len() ==> y@[i] == cost(
            i / per_source,
            x@.subrange(i * N_PARAMS, i * N_PARAMS + N_PARAMS),
        )
}

proof fn lemma_placed_length<R>(
    lower: Seq<Binary64>,
    upper: Seq<Binary64>,
    g: R,
    next: spec_fn(R, Draw) -> (Binary64, R),
    n: nat,
)
    ensures
        placed(lower, upper, g, next, n).position.len() == n,
    decreases n,
{
    if n > 0 {
        lemma_placed_length(lower, upper, g, next, (n - 1) as nat);
    }
}

proof fn lemma_flight_length<R>(
    p: Particle,
    lead: Seq<Binary64>,
    lower: Seq<Binary64>,
    upper: Seq<Binary64>,
    g: R,
    next: spec_fn(R, Draw) -> (Binary64, R),
    n: nat,
)
    ensures
        flight(p, lead, lower, upper, g, next, n).position.len() == n,
    decreases n,
{
    if n > 0 {
        lemma_flight_length(p, lead, lower, upper, g, next, (n - 1) as nat);
    }
}

proof fn lemma_hatched_lengths<R>(
    start: Setting<R>,
    next: spec_fn(R, Draw) -> (Binary64, R),
    count: nat,
)
    ensures
        hatched(start, next, count).0.len() == count,
        hatched(start, next, count).1.len() == count,
        forall|i: int|
            0 <= i < count ==> (#[trigger] hatched(start, next, count).0[i]).len() == N_PARAMS,
    decreases count,
{
    if count > 0 {
        lemma_hatched_lengths(start, next, (count - 1) as nat);
        let so_far = hatched(start, next, (count - 1) as nat);
        lemma_placed_length(start.lower, start.upper, so_far.2, next, N_PARAMS as nat);
    }
}

proof fn lemma_flown_lengths<R>(
    flock: Flock<R>,
    lower: Seq<Binary64>,
    upper: Seq<Binary64>,
    next: spec_fn(R, Draw) -> (Binary64, R),
    n: nat,
)
    requires
        n <= flock.particles.len(),
    ensures
        flown(flock, lower, upper, next, n).particles.len() == flock.particles.len(),
        forall|i: int|
            0 <= i < n ==> (#[trigger] flown(
                flock,
                lower,
                upper,
                next,
                n,
            ).particles[i]).position.len() == N_PARAMS,
    decreases n,
{
    if n > 0 {
        lemma_flown_lengths(flock, lower, upper, next, (n - 1) as nat);
        let so_far = flown(flock, lower, upper, next, (n - 1) as nat);
        lemma_flight_length(
            so_far.particles[n - 1],
            so_far.lead,
            lower,
            upper,
            so_far.generator,
            next,
            N_PARAMS as nat,
        );
    }
}

/// Scoring leaves every particle where it is.
proof fn lemma_judging_moves_nothing<R>(flock: Flock<R>, costs: Seq<Binary64>, n: nat)
    requires
        n <= flock.particles.len(),
    ensures
        judged(flock, costs, n).particles.len() == flock.particles.len(),
        forall|i: int|
            0 <= i < flock.particles.len() ==> (#[trigger] judged(
                flock,
                costs,
                n,
            ).particles[i]).position == flock.particles[i].position,
    decreases n,
{
    if n > 0 {
        lemma_judging_moves_nothing(flock, costs, (n - 1) as nat);
    }
}

proof fn lemma_replayed_length<R>(
    start: Setting<R>,
    next: spec_fn(R, Draw) -> (Binary64, R),
    count: nat,
    log: Seq<Seq<Binary64>>,
    k: nat,
)
    ensures
        replayed(start, next, count, log, k).particles.len() == count,
    decreases k,
{
    lemma_hatched_lengths(start, next, count);
    if k > 0 {
        lemma_replayed_length(start, next, count, log, (k - 1) as nat);
        let before = replayed(start, next, count, log, (k - 1) as nat);
        lemma_flown_lengths(before, start.lower, start.upper, next, count);
        lemma_judging_moves_nothing(
            flown(before, start.lower, start.upper, next, count),
            log[k as int],
            count,
        );
    }
}

/// Every swarm asks for one row of parameters per particle.
proof fn lemma_asked_lengths<R>(
    start: Setting<R>,
    next: spec_fn(R, Draw) -> (Binary64, R),
    count: nat,
    log: Seq<Seq<Binary64>>,
    k: nat,
)
    ensures
        asked(start, next, count, log, k).len() == count,
        forall|p: int|
            0 <= p < count ==> (#[trigger] asked(start, next, count, log, k)[p]).len() == N_PARAMS,
{
    lemma_hatched_lengths(start, next, count);
    if k > 0 {
        lemma_replayed_length(start, next, count, log, (k - 1) as nat);
        let before = replayed(start, next, count, log, (k - 1) as nat);
        lemma_flown_lengths(before, start.lower, start.upper, next, count);
        let moved = flown(before, start.lower, start.upper, next, count);
        assert forall|p: int| 0 <= p < count implies (#[trigger] asked(
            start,
            next,
            count,
            log,
            k,
        )[p]).len() == N_PARAMS by {
            assert(moved.particles[p].position.len() == N_PARAMS);
        }
    }
}

/// The row of a particle, out of the packed rows.
proof fn lemma_unpacked(rows: Seq<Seq<Binary64>>, i: int)
    requires
        0 <= i < rows.len(),
        rows[i].len() == N_PARAMS,
    ensures
        packed(rows).subrange(i * N_PARAMS, i * N_PARAMS + N_PARAMS) == rows[i],
{
    assert(0 <= i * N_PARAMS && i * N_PARAMS + N_PARAMS <= rows.len() * N_PARAMS);
    let cut = packed(rows).subrange(i * N_PARAMS, i * N_PARAMS + N_PARAMS);
    assert forall|d: int| 0 <= d < N_PARAMS implies cut[d] == rows[i][d] by {
        let j = i * 7 + d;
        assert(j / 7 == i && j % 7 == d);
        assert(cut[d] == packed(rows)[j]);
    }
    assert(cut =~= rows[i]);
}

/// The place of a particle in a batch.
proof fn lemma_place(s: int, r: int, p: int, n_sources: int, per: int, count: int)
    requires
        0 <= s < n_sources,
        0 <= r < per,
        0 <= p < count,
    ensures
        0 <= s * per + r < n_sources * per,
        (s * per + r) / per == s,
        (s * per + r) % per == r,
        0 <= (s * per + r) * count + p < (n_sources * per) * count,
        ((s * per + r) * count + p) / count == s * per + r,
        ((s * per + r) * count + p) % count == p,
        ((s * per + r) * count + p) / (per * count) == s,
{
    assert(0 <= s * per && s * per + per <= n_sources * per) by (nonlinear_arith)
        requires
            0 <= s < n_sources,
            0 <= r < per,
    ;
    lemma_fundamental_div_mod_converse(s * per + r, per, s, r);
    let sw = s * per + r;
    let all = n_sources * per;
    assert(0 <= sw * count && sw * count + count <= all * count) by (nonlinear_arith)
        requires
            0 <= sw < all,
            0 < count,
    ;
    lemma_fundamental_div_mod_converse(sw * count + p, count, sw, p);
    assert(sw * count + p == s * (per * count) + (r * count + p)) by (nonlinear_arith)
        requires
            sw == s * per + r,
    ;
    assert(0 <= r * count && r * count + count <= per * count) by (nonlinear_arith)
        requires
            0 <= r < per,
            0 < count,
    ;
    lemma_fundamental_div_mod_converse(sw * count + p, per * count, s, r * count + p);
}

/// Each swarm of a batch that is scored particle by particle ends where it would
/// on its own: its end depends on its source, its seed and the cost function of
/// its source, not on what else is in the batch.
pub proof fn law_swarms_are_independent<
    R,
    V,
    E,
    L: Fn(&V, &Vec<Binary64>) -> Result<Vec<Binary64>, E>,
>(
    eval: L,
    v: V,
    sources: Seq<Source>,
    batch_seeds: Seq<u64>,
    sown: spec_fn(u64) -> R,
    next: spec_fn(R, Draw) -> (Binary64, R),
    count: nat,
    log: Seq<Seq<Binary64>>,
    cost: spec_fn(int, Seq<Binary64>) -> Binary64,
    s: int,
    r: int,
    k: nat,
)
    requires
        count > 0,
        log.len() == k + 1,
        may_log::<R, V, E, L>(eval, v, settings(sources, batch_seeds, sown), next, count, log),
        scores_each::<V, E, L>(eval, v, batch_seeds.len() * count as int, cost),
        is_evaluator::<V, E, L>(eval),
        0 <= s < sources.len(),
        0 <= r < batch_seeds.len(),
    ensures
        batch_ends(settings(sources, batch_seeds, sown), next, count, log, k)[s * batch_seeds.len()
            + r] == lone_end(
            |p: Seq<Binary64>| cost(s, p),
            setting_of(sources[s], batch_seeds[r], sown),
            next,
            count,
            k,
        ),
{
    let per = batch_seeds.len() as int;
    let starts = settings(sources, batch_seeds, sown);
    let sw = s * per + r;
    let start = setting_of(sources[s], batch_seeds[r], sown);
    let own = parts(log, sw, count);
    let own_cost = |p: Seq<Binary64>| cost(s, p);
    lemma_place(s, r, 0, sources.len() as int, per, count as int);
    assert(starts[sw] == start);
    assert forall|j: int| 0 <= j <= k implies #[trigger] own[j] == asked(
        start,
        next,
        count,
        own,
        j as nat,
    ).map_values(own_cost) by {
        let rows = batch_rows(starts, next, count, log, j as nat);
        let wanted = asked(start, next, count, own, j as nat);
        lemma_asked_lengths(start, next, count, own, j as nat);
        assert(may_score::<V, E, L>(eval, v, packed(rows), log[j]));
        let (x, y) = choose|x: &Vec<Binary64>, y: Vec<Binary64>| #[trigger]
            call_ensures(eval, (&v, x), Ok(y)) && x@ == packed(rows) && y@ == log[j];
        assert(y.len() * N_PARAMS == x.len());
        assert(log[j].len() == rows.len());
        assert(own[j] == part(log[j], sw, count));
        assert(0 <= sw * count && sw * count + count <= log[j].len()) by {
            lemma_place(s, r, 0, sources.len() as int, per, count as int);
            lemma_place(s, r, count - 1, sources.len() as int, per, count as int);
        }
        assert forall|p: int| 0 <= p < count implies own[j][p] == wanted.map_values(own_cost)[p] by {
            lemma_place(s, r, p, sources.len() as int, per, count as int);
            let i = sw * count + p;
            assert(rows[i] == wanted[p]);
            lemma_unpacked(rows, i);
            assert(y@[i] == cost(
                i / (per * count),
                x@.subrange(i * N_PARAMS, i * N_PARAMS + N_PARAMS),
            ));
            assert(part(log[j], sw, count)[p] == log[j][sw * count + p]);
            assert(own[j][p] == log[j][i]);
        }
        assert(own[j] =~= wanted.map_values(own_cost));
    }
    law_honest_scores_replay(own_cost, start, next, count, own, k);
}

/// Restarts side by side end where separate passes end: restart `r` of a source
/// in a batch of many seeds ends where that source ends in a batch of the one
/// seed `r`, as long as both score particle by particle with the same costs.
pub proof fn law_restarts_match_separate_passes<
    R,
    V1,
    E1,
    L1: Fn(&V1, &Vec<Binary64>) -> Result<Vec<Binary64>, E1>,
    V2,
    E2,
    L2: Fn(&V2, &Vec<Binary64>) -> Result<Vec<Binary64>, E2>,
>(
    eval1: L1,
    v1: V1,
    log1: Seq<Seq<Binary64>>,
    eval2: L2,
    v2: V2,
    log2: Seq<Seq<Binary64>>,
    sources: Seq<Source>,
    batch_seeds: Seq<u64>,
    sown: spec_fn(u64) -> R,
    next: spec_fn(R, Draw) -> (Binary64, R),
    count: nat,
    cost: spec_fn(int, Seq<Binary64>) -> Binary64,
    s: int,
    r: int,
    k: nat,
)
    requires
        count > 0,
        0 <= s < sources.len(),
        0 <= r < batch_seeds.len(),
        log1.len() == k + 1,
        log2.len() == k + 1,
        may_log::<R, V1, E1, L1>(
            eval1,
            v1,
            settings(sources, batch_seeds, sown),
            next,
            count,
            log1,
        ),
        may_log::<R, V2, E2, L2>(
            eval2,
            v2,
            settings(sources, seq![batch_seeds[r]], sown),
            next,
            count,
            log2,
        ),
        scores_each::<V1, E1, L1>(eval1, v1, batch_seeds.len() * count as int, cost),
        scores_each::<V2, E2, L2>(eval2, v2, count as int, cost),
        is_evaluator::<V1, E1, L1>(eval1),
        is_evaluator::<V2, E2, L2>(eval2),
    ensures
        batch_ends(settings(sources, batch_seeds, sown), next, count, log1, k)[s
            * batch_seeds.len() + r] == batch_ends(
            settings(sources, seq![batch_seeds[r]], sown),
            next,
            count,
            log2,
            k,
        )[s],
{
    law_swarms_are_independent::<R, V1, E1, L1>(
        eval1,
        v1,
        sources,
        batch_seeds,
        sown,
        next,
        count,
        log1,
        cost,
        s,
        r,
        k,
    );
    let one = seq![batch_seeds[r]];
    assert(sources.len() * one.len() == sources.len()) by (nonlinear_arith)
        requires
            one.len() == 1,
    ;
    law_swarms_are_independent::<R, V2, E2, L2>(
        eval2,
        v2,
        sources,
        one,
        sown,
        next,
        count,
        log2,
        cost,
        s,
        0,
        k,
    );
}

/// What a source's swarm comes to does not depend on the rest of the batch: the
/// same source ends alike in two batches, wherever it stands in them.
pub proof fn law_batch_composition_does_not_matter<
    R,
    V1,
    E1,
    L1: Fn(&V1, &Vec<Binary64>) -> Result<Vec<Binary64>, E1>,
    V2,
    E2,
    L2: Fn(&V2, &Vec<Binary64>) -> Result<Vec<Binary64>, E2>,
>(
    eval1: L1,
    v1: V1,
    log1: Seq<Seq<Binary64>>,
    sources1: Seq<Source>,
    cost1: spec_fn(int, Seq<Binary64>) -> Binary64,
    s1: int,
    eval2: L2,
    v2: V2,
    log2: Seq<Seq<Binary64>>,
    sources2: Seq<Source>,
    cost2: spec_fn(int, Seq<Binary64>) -> Binary64,
    s2: int,
    batch_seeds: Seq<u64>,
    sown: spec_fn(u64) -> R,
    next: spec_fn(R, Draw) -> (Binary64, R),
    count: nat,
    r: int,
    k: nat,
)
    requires
        count > 0,
        0 <= s1 < sources1.len(),
        0 <= s2 < sources2.len(),
        sources1[s1] == sources2[s2],
        forall|p: Seq<Binary64>| #[trigger] cost1(s1, p) == cost2(s2, p),
        0 <= r < batch_seeds.len(),
        log1.len() == k + 1,
        log2.len() == k + 1,
        may_log::<R, V1, E1, L1>(
            eval1,
            v1,
            settings(sources1, batch_seeds, sown),
            next,
            count,
            log1,
        ),
        may_log::<R, V2, E2, L2>(
            eval2,
            v2,
            settings(sources2, batch_seeds, sown),
            next,
            count,
            log2,
        ),
        scores_each::<V1, E1, L1>(eval1, v1, batch_seeds.len() * count as int, cost1),
        scores_each::<V2, E2, L2>(eval2, v2, batch_seeds.len() * count as int, cost2),
        is_evaluator::<V1, E1, L1>(eval1),
        is_evaluator::<V2, E2, L2>(eval2),
    ensures
        batch_ends(settings(sources1, batch_seeds, sown), next, count, log1, k)[s1
            * batch_seeds.len() + r] == batch_ends(
            settings(sources2, batch_seeds, sown),
            next,
            count,
            log2,
            k,
        )[s2 * batch_seeds.len() + r],
{
    law_swarms_are_independent::<R, V1, E1, L1>(
        eval1,
        v1,
        sources1,
        batch_seeds,
        sown,
        next,
        count,
        log1,
        cost1,
        s1,
        r,
        k,
    );
    law_swarms_are_independent::<R, V2, E2, L2>(
        eval2,
        v2,
        sources2,
        batch_seeds,
        sown,
        next,
        count,
        log2,
        cost2,
        s2,
        r,
        k,
    );
    assert((|p: Seq<Binary64>| cost1(s1, p)) =~= (|p: Seq<Binary64>| cost2(s2, p)));
}

proof fn lemma_flying_is_truthful<R>(
    flock: Flock<R>,
    cost: spec_fn(Seq<Binary64>) -> Binary64,
    lower: Seq<Binary64>,
    upper: Seq<Binary64>,
    next: spec_fn(R, Draw) -> (Binary64, R),
    n: nat,
)
    requires
        truthful(flock, cost),
        n <= flock.particles.len(),
    ensures
        truthful(flown(flock, lower, upper, next, n), cost),
        flown(flock, lower, upper, next, n).lead_cost == flock.lead_cost,
        flown(flock, lower, upper, next, n).particles.len() == flock.particles.len(),
    decreases n,
{
    if n > 0 {
        lemma_flying_is_truthful(flock, cost, lower, upper, next, (n - 1) as nat);
        law_moving_is_truthful(
            flown(flock, lower, upper, next, (n - 1) as nat),
            n - 1,
            lower,
            upper,
            next,
            cost,
        );
    }
}

proof fn lemma_judging_is_truthful<R>(
    flock: Flock<R>,
    cost: spec_fn(Seq<Binary64>) -> Binary64,
    n: nat,
)
    requires
        truthful(flock, cost),
        n <= flock.particles.len(),
    ensures
        ({
            let after = judged(flock, positions_of(flock).map_values(cost), n);
            &&& truthful(after, cost)
            &&& after.particles.len() == flock.particles.len()
            &&& after.lead_cost == flock.lead_cost || after.lead_cost.lt(flock.lead_cost)
        }),
    decreases n,
{
    if n > 0 {
        let costs = positions_of(flock).map_values(cost);
        lemma_judging_is_truthful(flock, cost, (n - 1) as nat);
        lemma_judging_moves_nothing(flock, costs, (n - 1) as nat);
        let so_far = judged(flock, costs, (n - 1) as nat);
        assert(so_far.particles[n - 1].position == flock.particles[n - 1].position);
        law_scoring_is_truthful(so_far, n - 1, cost);
    }
}

/// A swarm on its own reports the cost of the position it reports, and no
/// particle of it has been anywhere better.
pub proof fn law_lone_is_truthful<R>(
    cost: spec_fn(Seq<Binary64>) -> Binary64,
    start: Setting<R>,
    next: spec_fn(R, Draw) -> (Binary64, R),
    count: nat,
    k: nat,
)
    requires
        count > 0,
    ensures
        truthful(lone(cost, start, next, count, k), cost),
        lone(cost, start, next, count, k).particles.len() == count,
    decreases k,
{
    lemma_hatched_lengths(start, next, count);
    if k == 0 {
        let first = hatched(start, next, count);
        law_settling_is_truthful(first.0, first.1, cost, first.2);
    } else {
        law_lone_is_truthful(cost, start, next, count, (k - 1) as nat);
        let before = lone(cost, start, next, count, (k - 1) as nat);
        lemma_flying_is_truthful(before, cost, start.lower, start.upper, next, count);
        let moved = flown(before, start.lower, start.upper, next, count);
        lemma_judging_is_truthful(moved, cost, count);
    }
}

/// More generations never make the cost that a swarm reports worse.
pub proof fn law_lone_never_worsens<R>(
    cost: spec_fn(Seq<Binary64>) -> Binary64,
    start: Setting<R>,
    next: spec_fn(R, Draw) -> (Binary64, R),
    count: nat,
    fewer: nat,
    more: nat,
)
    requires
        count > 0,
        fewer <= more,
    ensures
        !lone(cost, start, next, count, fewer).lead_cost.lt(
            lone(cost, start, next, count, more).lead_cost,
        ),
    decreases more,
{
    if fewer < more {
        law_lone_never_worsens(cost, start, next, count, fewer, (more - 1) as nat);
        law_lone_is_truthful(cost, start, next, count, (more - 1) as nat);
        let before = lone(cost, start, next, count, (more - 1) as nat);
        lemma_flying_is_truthful(before, cost, start.lower, start.upper, next, count);
        lemma_judging_is_truthful(
            flown(before, start.lower, start.upper, next, count),
            cost,
            count,
        );
    }
}

proof fn lemma_placed_within<R>(
    lower: Seq<Binary64>,
    upper: Seq<Binary64>,
    g: R,
    next: spec_fn(R, Draw) -> (Binary64, R),
    n: nat,
)
    requires
        draws_in_range(next),
        ordered(lower, upper),
        n <= N_PARAMS,
    ensures
        placed(lower, upper, g, next, n).position.len() == n,
        forall|d: int|
            0 <= d < n ==> {
                let x = #[trigger] placed(lower, upper, g, next, n).position[d];
                lower[d].le(x) && x.le(upper[d])
            },
    decreases n,
{
    if n > 0 {
        lemma_placed_within(lower, upper, g, next, (n - 1) as nat);
        let d = n - 1;
        assert(lower[d].le(upper[d]));
        if Binary64::zero().lt(upper[d].minus(lower[d])) {
            law_positive_difference(upper[d], lower[d]);
            let so_far = placed(lower, upper, g, next, (n - 1) as nat);
            let q = Draw::Range(lower[d], upper[d]);
            assert(answerable(q));
            assert(obliges(q, next(so_far.generator, q).0));
        }
    }
}

proof fn lemma_hatched_within<R>(
    start: Setting<R>,
    next: spec_fn(R, Draw) -> (Binary64, R),
    count: nat,
)
    requires
        draws_in_range(next),
        ordered(start.lower, start.upper),
    ensures
        hatched(start, next, count).0.len() == count,
        forall|i: int|
            0 <= i < count ==> inside(
                #[trigger] hatched(start, next, count).0[i],
                start.lower,
                start.upper,
            ),
    decreases count,
{
    if count > 0 {
        lemma_hatched_within(start, next, (count - 1) as nat);
        let so_far = hatched(start, next, (count - 1) as nat);
        lemma_placed_within(start.lower, start.upper, so_far.2, next, N_PARAMS as nat);
        let all = hatched(start, next, count).0;
        assert forall|i: int| 0 <= i < count implies inside(
            #[trigger] all[i],
            start.lower,
            start.upper,
        ) by {
            if i < count - 1 {
                assert(all[i] == so_far.0[i]);
            }
        }
    }
}

proof fn lemma_flying_is_contained<R>(
    flock: Flock<R>,
    lower: Seq<Binary64>,
    upper: Seq<Binary64>,
    next: spec_fn(R, Draw) -> (Binary64, R),
    n: nat,
)
    requires
        contained(flock, lower, upper),
        ordered(lower, upper),
        n <= flock.particles.len(),
    ensures
        contained(flown(flock, lower, upper, next, n), lower, upper),
        flown(flock, lower, upper, next, n).particles.len() == flock.particles.len(),
    decreases n,
{
    if n > 0 {
        lemma_flying_is_contained(flock, lower, upper, next, (n - 1) as nat);
        law_steps_stay_contained(
            flown(flock, lower, upper, next, (n - 1) as nat),
            n - 1,
            lower,
            upper,
            next,
            Binary64::zero(),
        );
    }
}

proof fn lemma_judging_is_contained<R>(
    flock: Flock<R>,
    lower: Seq<Binary64>,
    upper: Seq<Binary64>,
    next: spec_fn(R, Draw) -> (Binary64, R),
    costs: Seq<Binary64>,
    n: nat,
)
    requires
        contained(flock, lower, upper),
        ordered(lower, upper),
        n <= flock.particles.len(),
    ensures
        contained(judged(flock, costs, n), lower, upper),
        judged(flock, costs, n).particles.len() == flock.particles.len(),
    decreases n,
{
    if n > 0 {
        lemma_judging_is_contained(flock, lower, upper, next, costs, (n - 1) as nat);
        law_steps_stay_contained(
            judged(flock, costs, (n - 1) as nat),
            n - 1,
            lower,
            upper,
            next,
            costs[n - 1],
        );
    }
}

/// Every coordinate that a swarm on its own reports is within the bounds, or
/// not-a-number.
pub proof fn law_lone_stays_in_bounds<R>(
    cost: spec_fn(Seq<Binary64>) -> Binary64,
    start: Setting<R>,
    next: spec_fn(R, Draw) -> (Binary64, R),
    count: nat,
    k: nat,
)
    requires
        count > 0,
        draws_in_range(next),
        ordered(start.lower, start.upper),
    ensures
        contained(lone(cost, start, next, count, k), start.lower, start.upper),
        lone(cost, start, next, count, k).particles.len() == count,
    decreases k,
{
    if k == 0 {
        let first = hatched(start, next, count);
        lemma_hatched_within(start, next, count);
        assert forall|i: int| 0 <= i < first.0.len() implies within(
            #[trigger] first.0[i],
            start.lower,
            start.upper,
        ) by {
            assert(inside(first.0[i], start.lower, start.upper));
        }
        law_settling_is_contained(
            first.0,
            first.1,
            first.0.map_values(cost),
            first.2,
            start.lower,
            start.upper,
        );
    } else {
        law_lone_stays_in_bounds(cost, start, next, count, (k - 1) as nat);
        let before = lone(cost, start, next, count, (k - 1) as nat);
        lemma_flying_is_contained(before, start.lower, start.upper, next, count);
        let moved = flown(before, start.lower, start.upper, next, count);
        lemma_judging_is_contained(
            moved,
            start.lower,
            start.upper,
            next,
            positions_of(moved).map_values(cost),
            count,
        );
    }
}

proof fn lemma_placed_is_calm<R>(
    lower: Seq<Binary64>,
    upper: Seq<Binary64>,
    g: R,
    next: spec_fn(R, Draw) -> (Binary64, R),
    n: nat,
)
    requires
        draws_in_range(next),
        moderate(lower, upper),
        n <= N_PARAMS,
    ensures
        placed(lower, upper, g, next, n).velocity.len() == n,
        forall|d: int|
            0 <= d < n ==> (#[trigger] placed(lower, upper, g, next, n).velocity[d]).step()
                <= FASTEST,
    decreases n,
{
    if n > 0 {
        lemma_placed_is_calm(lower, upper, g, next, (n - 1) as nat);
        let d = n - 1;
        let span = upper[d].minus(lower[d]);
        assert(lower[d].step() <= MODERATE);
        if Binary64::zero().lt(span) {
            let so_far = placed(lower, upper, g, next, (n - 1) as nat);
            let place = next(so_far.generator, Draw::Range(lower[d], upper[d]));
            let q = Draw::Range(
                Binary64 { bits: MINUS_TENTH }.times(span),
                Binary64 { bits: TENTH }.times(span),
            );
            law_opposite_multiples(Binary64 { bits: TENTH }, span);
            assert(answerable(q));
            assert(obliges(q, next(place.1, q).0));
            lemma_first_velocity(lower[d], upper[d], next(place.1, q).0);
        }
    }
}

proof fn lemma_hatched_is_calm<R>(
    start: Setting<R>,
    next: spec_fn(R, Draw) -> (Binary64, R),
    count: nat,
)
    requires
        draws_in_range(next),
        moderate(start.lower, start.upper),
    ensures
        hatched(start, next, count).1.len() == count,
        forall|i: int| 0 <= i < count ==> calm(#[trigger] hatched(start, next, count).1[i]),
    decreases count,
{
    if count > 0 {
        lemma_hatched_is_calm(start, next, (count - 1) as nat);
        let so_far = hatched(start, next, (count - 1) as nat);
        lemma_placed_is_calm(start.lower, start.upper, so_far.2, next, N_PARAMS as nat);
        let all = hatched(start, next, count).1;
        assert forall|i: int| 0 <= i < count implies calm(#[trigger] all[i]) by {
            if i < count - 1 {
                assert(all[i] == so_far.1[i]);
            }
        }
    }
}

proof fn lemma_flying_is_enclosed<R>(
    flock: Flock<R>,
    lower: Seq<Binary64>,
    upper: Seq<Binary64>,
    next: spec_fn(R, Draw) -> (Binary64, R),
    n: nat,
)
    requires
        enclosed(flock, lower, upper),
        draws_in_range(next),
        moderate(lower, upper),
        n <= flock.particles.len(),
    ensures
        enclosed(flown(flock, lower, upper, next, n), lower, upper),
        flown(flock, lower, upper, next, n).particles.len() == flock.particles.len(),
    decreases n,
{
    if n > 0 {
        lemma_flying_is_enclosed(flock, lower, upper, next, (n - 1) as nat);
        let so_far = flown(flock, lower, upper, next, (n - 1) as nat);
        law_steps_stay_enclosed(so_far, n - 1, lower, upper, next, Binary64::zero());
    }
}

proof fn lemma_judging_is_enclosed<R>(
    flock: Flock<R>,
    lower: Seq<Binary64>,
    upper: Seq<Binary64>,
    next: spec_fn(R, Draw) -> (Binary64, R),
    costs: Seq<Binary64>,
    n: nat,
)
    requires
        enclosed(flock, lower, upper),
        draws_in_range(next),
        moderate(lower, upper),
        n <= flock.particles.len(),
    ensures
        enclosed(judged(flock, costs, n), lower, upper),
        judged(flock, costs, n).particles.len() == flock.particles.len(),
    decreases n,
{
    if n > 0 {
        lemma_judging_is_enclosed(flock, lower, upper, next, costs, (n - 1) as nat);
        let so_far = judged(flock, costs, (n - 1) as nat);
        law_steps_stay_enclosed(so_far, n - 1, lower, upper, next, costs[n - 1]);
    }
}

proof fn lemma_lone_is_enclosed<R>(
    cost: spec_fn(Seq<Binary64>) -> Binary64,
    start: Setting<R>,
    next: spec_fn(R, Draw) -> (Binary64, R),
    count: nat,
    k: nat,
)
    requires
        count > 0,
        draws_in_range(next),
        ordered(start.lower, start.upper),
        moderate(start.lower, start.upper),
    ensures
        enclosed(lone(cost, start, next, count, k), start.lower, start.upper),
        lone(cost, start, next, count, k).particles.len() == count,
    decreases k,
{
    if k == 0 {
        let first = hatched(start, next, count);
        lemma_hatched_within(start, next, count);
        lemma_hatched_is_calm(start, next, count);
        law_settling_is_enclosed(
            first.0,
            first.1,
            first.0.map_values(cost),
            first.2,
            start.lower,
            start.upper,
        );
    } else {
        lemma_lone_is_enclosed(cost, start, next, count, (k - 1) as nat);
        let before = lone(cost, start, next, count, (k - 1) as nat);
        lemma_flying_is_enclosed(before, start.lower, start.upper, next, count);
        let moved = flown(before, start.lower, start.upper, next, count);
        lemma_judging_is_enclosed(
            moved,
            start.lower,
            start.upper,
            next,
            positions_of(moved).map_values(cost),
            count,
        );
    }
}

/// Between bounds of moderate magnitude, every coordinate that a swarm on its own
/// reports is a number within them.
pub proof fn law_lone_reports_numbers_in_bounds<R>(
    cost: spec_fn(Seq<Binary64>) -> Binary64,
    start: Setting<R>,
    next: spec_fn(R, Draw) -> (Binary64, R),
    count: nat,
    k: nat,
)
    requires
        count > 0,
        draws_in_range(next),
        ordered(start.lower, start.upper),
        moderate(start.lower, start.upper),
    ensures
        inside(lone(cost, start, next, count, k).lead, start.lower, start.upper),
{
    lemma_lone_is_enclosed(cost, start, next, count, k);
}

proof fn lemma_replayed_is_enclosed<R>(
    start: Setting<R>,
    next: spec_fn(R, Draw) -> (Binary64, R),
    count: nat,
    log: Seq<Seq<Binary64>>,
    k: nat,
)
    requires
        count > 0,
        draws_in_range(next),
        ordered(start.lower, start.upper),
        moderate(start.lower, start.upper),
    ensures
        enclosed(replayed(start, next, count, log, k), start.lower, start.upper),
        replayed(start, next, count, log, k).particles.len() == count,
    decreases k,
{
    let (lower, upper) = (start.lower, start.upper);
    if k == 0 {
        let first = hatched(start, next, count);
        lemma_hatched_within(start, next, count);
        lemma_hatched_is_calm(start, next, count);
        law_settling_is_enclosed(first.0, first.1, log[0], first.2, lower, upper);
    } else {
        lemma_replayed_is_enclosed(start, next, count, log, (k - 1) as nat);
        let before = replayed(start, next, count, log, (k - 1) as nat);
        lemma_flying_is_enclosed(before, lower, upper, next, count);
        let moved = flown(before, lower, upper, next, count);
        lemma_judging_is_enclosed(moved, lower, upper, next, log[k as int], count);
    }
}

/// Every swarm of a batch ends at numbers within its bounds, whatever scores it was
/// given, as long as the bounds are in order and of moderate magnitude.
pub proof fn law_batch_ends_stay_in_bounds<R>(
    starts: Seq<Setting<R>>,
    next: spec_fn(R, Draw) -> (Binary64, R),
    count: nat,
    log: Seq<Seq<Binary64>>,
    k: nat,
    sw: int,
)
    requires
        count > 0,
        draws_in_range(next),
        0 <= sw < starts.len(),
        ordered(starts[sw].lower, starts[sw].upper),
        moderate(starts[sw].lower, starts[sw].upper),
    ensures
        inside(
            batch_ends(starts, next, count, log, k)[sw].0,
            starts[sw].lower,
            starts[sw].upper,
        ),
{
    lemma_replayed_is_enclosed(starts[sw], next, count, parts(log, sw, count), k);
}

} // verus!

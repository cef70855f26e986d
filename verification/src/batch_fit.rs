//! Fitting a batch of sources.
use crate::binary64::{law_difference_with_itself, law_order_is_exact, Binary64};
use crate::closeness::{law_return_is_close, law_span_leads_close, ORDINARY};
use crate::cost::{logarithms_of, observations_of, source_cost, SbplCost};
use crate::elementary::{answers, is_function, Elementary};
use crate::fit::{
    assemble_result, assembled, finite, lemma_lower_is_inside, lemma_reported_row, reported_between,
    restarts_of,
};
use crate::generator::{draws_in_range, is_generator, is_seeding, seeds, stream, Draw};
use crate::independence::{
    law_batch_composition_does_not_matter, law_batch_ends_stay_in_bounds,
    law_restarts_match_separate_passes, scores_each,
};
use crate::light_curve::Series;
use crate::magnitude::law_sums_are_ordered;
use crate::numbers::N_PARAMS;
use crate::polish::{
    inside_rounded, is_minimiser, lbfgs_refine, lemma_polished_or_start, refined, suggestions,
    suggests_numbers, ScaledCost, Task,
};
use crate::prepare::{law_reference_time, prepared};
use crate::side_by_side::{
    batch_ends, batch_outcome, batch_pso_restarts, ends_of, is_evaluator, may_log, settings, shifted,
    sources_of, steerable, swarm_size,
};
use crate::source::{PreparedSource, PsoConfig, SbplResult, Source};
use crate::swarm::{
    copied, inside, lemma_moderate_return, lemma_moderate_span, moderate, ordered, MODERATE,
};
use vstd::arithmetic::div_mod::{
    lemma_fundamental_div_mod_converse, lemma_mul_mod_noop, lemma_multiply_divide_lt,
    lemma_small_mod,
};
use vstd::arithmetic::mul::{lemma_mul_is_associative, lemma_mul_is_commutative};
use vstd::arithmetic::power2::pow2;
use vstd::prelude::*;

verus! {

/// What sets the seeds of restarts apart: an odd number.
pub const SEED_STEP: u64 = 0x9e37_79b9_7f4a_7c15;

/// The inverse of the step, modulo 2^64.
const SEED_STEP_INVERSE: u64 = 0xf1de_83e1_9937_733d;

pub open spec fn spec_restart_seed(seed: u64, r: u64) -> u64 {
    seed.wrapping_add(r.wrapping_mul(SEED_STEP))
}

/// The seed of restart `r`.
#[verifier::when_used_as_spec(spec_restart_seed)]
pub fn restart_seed(seed: u64, r: u64) -> (s: u64)
    ensures
        s == restart_seed(seed, r),
{
    seed.wrapping_add(r.wrapping_mul(SEED_STEP))
}

/// The first restart runs on the seed itself, and no two restarts share a seed.
pub proof fn law_restart_seeds_differ(seed: u64, r1: u64, r2: u64)
    ensures
        restart_seed(seed, 0) == seed,
        restart_seed(seed, r1) == restart_seed(seed, r2) <==> r1 == r2,
{
    lemma_step_is_undone(r1);
    lemma_step_is_undone(r2);
}

proof fn lemma_step_is_undone(r: u64)
    ensures
        (r.wrapping_mul(SEED_STEP) * SEED_STEP_INVERSE) % 0x1_0000_0000_0000_0000 == r,
{
    let m: int = 0x1_0000_0000_0000_0000;
    let k = SEED_STEP as int;
    let inv = SEED_STEP_INVERSE as int;
    let x = r as int;
    assert((k * inv) % m == 1);
    assert(r.wrapping_mul(SEED_STEP) == (x * k) % m);
    lemma_mul_mod_noop((x * k) % m, inv, m);
    lemma_mul_mod_noop(x * k, inv, m);
    lemma_small_mod(((x * k) % m) as nat, m as nat);
    assert((((x * k) % m) * inv) % m == ((x * k) * inv) % m);
    lemma_mul_is_associative(x, k, inv);
    lemma_mul_mod_noop(x, k * inv, m);
    lemma_small_mod(r as nat, m as nat);
    assert((x * (k * inv)) % m == x);
}

/// Parameters with the onset in absolute time.
pub open spec fn absolute(p: Seq<Binary64>, t_ref: Binary64) -> Seq<Binary64> {
    p.update(6, p[6].plus(t_ref))
}

/// Where a swarm ended, in absolute time and polished.
pub open spec fn polished_end(
    s: Source,
    end: Seq<Binary64>,
    suggest: spec_fn(Task) -> Option<Seq<Binary64>>,
    f: spec_fn(Elementary) -> Binary64,
) -> (Seq<Binary64>, Binary64) {
    let start = absolute(end, s.t_ref);
    refined(
        observations_of(s),
        logarithms_of(s, f),
        start,
        source_cost(s, f)(start),
        s.lower,
        s.upper,
        suggest,
        f,
    )
}

/// Brings where a swarm ended back to absolute time and polishes it. The polish
/// and the reported cost are those of the source's own objective.
pub fn polish_end<
    F: Fn(&ScaledCost, &Vec<Binary64>) -> Option<Vec<Binary64>>,
    M: Fn(Elementary) -> Binary64,
>(
    prep: &PreparedSource,
    problem: &SbplCost,
    end: &Vec<Binary64>,
    minimise: &F,
    math: &M,
) -> (r: (Vec<Binary64>, Binary64))
    requires
        end.len() == N_PARAMS,
        problem.obs() == observations_of(prep@),
        problem.log_frequencies() == logarithms_of(prep@, answers(*math)),
        is_minimiser(*minimise),
        is_function(*math),
    ensures
        (r.0@, r.1) == polished_end(prep@, end@, suggestions(*minimise), answers(*math)),
        r.0.len() == N_PARAMS,
{
    let mut start: Vec<Binary64> = copied(end);
    start.set(6, end[6].plus(prep.t_ref));
    let cost: Binary64 = problem.eval(&start, math);
    lbfgs_refine(problem, start, cost, &prep.lower, &prep.upper, minimise, math)
}

/// The result of every source, from polished restarts that are listed restart by
/// restart.
pub open spec fn gathered(
    sources: Seq<Source>,
    polished: Seq<(Seq<Binary64>, Binary64)>,
    n_restarts: nat,
    f: spec_fn(Elementary) -> Binary64,
) -> Seq<SbplResult> {
    Seq::new(
        sources.len(),
        |s: int|
            assembled(
                sources[s],
                Seq::new(n_restarts, |r: int| polished[r * sources.len() + s]),
                f,
            ),
    )
}

/// Bounds on where a restart is listed.
proof fn lemma_listed(r: int, s: int, n_restarts: int, n_sources: int)
    requires
        0 <= r < n_restarts,
        0 <= s < n_sources,
    ensures
        0 <= r * n_sources + s < n_restarts * n_sources,
        (r * n_sources + s) / n_sources == r,
        (r * n_sources + s) % n_sources == s,
        0 <= s * n_restarts + r < n_sources * n_restarts,
{
    assert(0 <= r * n_sources && r * n_sources + n_sources <= n_restarts * n_sources)
        by (nonlinear_arith)
        requires
            0 <= r < n_restarts,
            0 <= s < n_sources,
    ;
    assert(0 <= s * n_restarts && s * n_restarts + n_restarts <= n_sources * n_restarts)
        by (nonlinear_arith)
        requires
            0 <= r < n_restarts,
            0 <= s < n_sources,
    ;
    lemma_fundamental_div_mod_converse(r * n_sources + s, n_sources, r, s);
}

/// Assembles the result of every source.
pub fn gather<M: Fn(Elementary) -> Binary64>(
    preps: &Vec<PreparedSource>,
    polished: &Vec<(Vec<Binary64>, Binary64)>,
    n_restarts: usize,
    math: &M,
) -> (r: Vec<SbplResult>)
    requires
        polished.len() == n_restarts * preps.len(),
        is_function(*math),
    ensures
        r@ == gathered(
            sources_of(preps@),
            restarts_of(polished@),
            n_restarts as nat,
            answers(*math),
        ),
{
    let n_sources: usize = preps.len();
    let ghost want = gathered(
        sources_of(preps@),
        restarts_of(polished@),
        n_restarts as nat,
        answers(*math),
    );
    let mut results: Vec<SbplResult> = Vec::with_capacity(n_sources);
    let mut s: usize = 0;
    while s < n_sources
        invariant
            s <= n_sources,
            n_sources == preps.len(),
            polished.len() == n_restarts * n_sources,
            is_function(*math),
            want == gathered(
                sources_of(preps@),
                restarts_of(polished@),
                n_restarts as nat,
                answers(*math),
            ),
            results@ == want.subrange(0, s as int),
        decreases n_sources - s,
    {
        let mut restarts: Vec<(Vec<Binary64>, Binary64)> = Vec::with_capacity(n_restarts);
        let mut r: usize = 0;
        while r < n_restarts
            invariant
                r <= n_restarts,
                s < n_sources,
                polished.len() == n_restarts * n_sources,
                restarts.len() == r,
                forall|j: int|
                    0 <= j < r ==> {
                        &&& (#[trigger] restarts@[j]).0@ == polished@[j * n_sources + s].0@
                        &&& restarts@[j].1 == polished@[j * n_sources + s].1
                    },
            decreases n_restarts - r,
        {
            proof {
                lemma_listed(r as int, s as int, n_restarts as int, n_sources as int);
                assert(0 <= r * n_sources) by (nonlinear_arith);
            }
            let at: usize = r * n_sources + s;
            restarts.push((copied(&polished[at].0), polished[at].1));
            r += 1;
        }
        proof {
            let own = Seq::new(
                n_restarts as nat,
                |r: int| restarts_of(polished@)[r * sources_of(preps@).len() + s],
            );
            assert forall|r: int| 0 <= r < n_restarts implies restarts_of(restarts@)[r]
                == own[r] by {
                lemma_listed(r, s as int, n_restarts as int, n_sources as int);
                assert(restarts@[r].0@ == polished@[r * n_sources + s].0@);
            }
            assert(restarts_of(restarts@) =~= own);
        }
        results.push(assemble_result(&preps[s], &restarts, math));
        s += 1;
        assert(results@ =~= want.subrange(0, s as int));
    }
    assert(want.subrange(0, n_sources as int) =~= want);
    results
}

/// The polished restarts of a batch, restart by restart, from where its swarms
/// ended.
pub open spec fn polished_batch(
    sources: Seq<Source>,
    ends: Seq<(Seq<Binary64>, Binary64)>,
    n_restarts: nat,
    suggest: spec_fn(Task) -> Option<Seq<Binary64>>,
    f: spec_fn(Elementary) -> Binary64,
) -> Seq<(Seq<Binary64>, Binary64)> {
    Seq::new(
        n_restarts * sources.len(),
        |job: int|
            {
                let r = job / sources.len() as int;
                let s = job % sources.len() as int;
                polished_end(sources[s], ends[s * n_restarts + r].0, suggest, f)
            },
    )
}

/// The results of a batch, from where its swarms ended.
pub open spec fn batch_results(
    sources: Seq<Source>,
    ends: Seq<(Seq<Binary64>, Binary64)>,
    n_restarts: nat,
    suggest: spec_fn(Task) -> Option<Seq<Binary64>>,
    f: spec_fn(Elementary) -> Binary64,
) -> Seq<SbplResult> {
    gathered(sources, polished_batch(sources, ends, n_restarts, suggest, f), n_restarts, f)
}

/// The seeds of all restarts.
pub open spec fn restart_seeds(seed: u64, n: nat) -> Seq<u64> {
    Seq::new(n, |r: int| restart_seed(seed, r as u64))
}

/// Lists the seeds of all restarts.
pub fn seeds_of_restarts(seed: u64, n: usize) -> (r: Vec<u64>)
    ensures
        r@ == restart_seeds(seed, n as nat),
{
    let mut list: Vec<u64> = Vec::with_capacity(n);
    let mut i: usize = 0;
    while i < n
        invariant
            i <= n,
            list@ == restart_seeds(seed, i as nat),
        decreases n - i,
    {
        list.push(restart_seed(seed, i as u64));
        i += 1;
        assert(list@ =~= restart_seeds(seed, i as nat));
    }
    list
}

/// The objectives of the sources.
pub fn objectives<M: Fn(Elementary) -> Binary64>(preps: &Vec<PreparedSource>, math: &M) -> (r: Vec<
    SbplCost,
>)
    requires
        forall|s: int| 0 <= s < preps.len() ==> (#[trigger] preps@[s])@.complete(),
        is_function(*math),
    ensures
        r.len() == preps.len(),
        forall|s: int|
            0 <= s < preps.len() ==> {
                &&& (#[trigger] r@[s]).obs() == observations_of(preps@[s]@)
                &&& r@[s].log_frequencies() == logarithms_of(preps@[s]@, answers(*math))
            },
{
    let mut problems: Vec<SbplCost> = Vec::with_capacity(preps.len());
    let mut s: usize = 0;
    while s < preps.len()
        invariant
            s <= preps.len(),
            forall|s: int| 0 <= s < preps.len() ==> (#[trigger] preps@[s])@.complete(),
            is_function(*math),
            problems.len() == s,
            forall|i: int|
                0 <= i < s ==> {
                    &&& (#[trigger] problems@[i]).obs() == observations_of(preps@[i]@)
                    &&& problems@[i].log_frequencies() == logarithms_of(preps@[i]@, answers(*math))
                },
        decreases preps.len() - s,
    {
        assert(preps@[s as int]@.complete());
        problems.push(SbplCost::new(&preps[s], math));
        s += 1;
    }
    problems
}

/// Polishes one restart of one source. Jobs are numbered restart by restart, and
/// ends are listed source by source.
pub fn polish_job<
    F: Fn(&ScaledCost, &Vec<Binary64>) -> Option<Vec<Binary64>>,
    M: Fn(Elementary) -> Binary64,
>(
    preps: &Vec<PreparedSource>,
    problems: &Vec<SbplCost>,
    ends: &Vec<(Vec<Binary64>, Binary64)>,
    n_restarts: usize,
    job: usize,
    minimise: &F,
    math: &M,
) -> (one: (Vec<Binary64>, Binary64))
    requires
        job < n_restarts * preps.len(),
        ends.len() == preps.len() * n_restarts,
        forall|i: int| 0 <= i < ends.len() ==> (#[trigger] ends@[i]).0.len() == N_PARAMS,
        problems.len() == preps.len(),
        forall|s: int|
            0 <= s < preps.len() ==> {
                &&& (#[trigger] problems@[s]).obs() == observations_of(preps@[s]@)
                &&& problems@[s].log_frequencies() == logarithms_of(preps@[s]@, answers(*math))
            },
        is_minimiser(*minimise),
        is_function(*math),
    ensures
        (one.0@, one.1) == polished_batch(
            sources_of(preps@),
            ends@.map_values(|b: (Vec<Binary64>, Binary64)| (b.0@, b.1)),
            n_restarts as nat,
            suggestions(*minimise),
            answers(*math),
        )[job as int],
        one.0.len() == N_PARAMS,
{
    let n_sources: usize = preps.len();
    assert(n_sources > 0) by (nonlinear_arith)
        requires
            job < n_restarts * n_sources,
    ;
    let r: usize = job / n_sources;
    let s: usize = job % n_sources;
    proof {
        lemma_mul_is_commutative(n_restarts as int, n_sources as int);
        lemma_multiply_divide_lt(job as int, n_sources as int, n_restarts as int);
        lemma_listed(r as int, s as int, n_restarts as int, n_sources as int);
        assert(0 <= s * n_restarts) by (nonlinear_arith);
    }
    let at: usize = s * n_restarts + r;
    assert(problems@[s as int].obs() == observations_of(preps@[s as int]@));
    assert(ends@[at as int].0.len() == N_PARAMS);
    polish_end(&preps[s], &problems[s], &ends[at].0, minimise, math)
}

/// Fits every source of a batch: all restarts search side by side, each end is
/// polished, and each source's restarts are assembled into its result.
pub fn batch_fit<
    R,
    S: Fn(u64) -> R,
    D: Fn(&R, Draw) -> (Binary64, R),
    V,
    E,
    K: Fn(usize) -> Result<V, E>,
    L: Fn(&V, &Vec<Binary64>) -> Result<Vec<Binary64>, E>,
    F: Fn(&ScaledCost, &Vec<Binary64>) -> Option<Vec<Binary64>>,
    M: Fn(Elementary) -> Binary64,
>(
    make_eval: &K,
    eval: &L,
    preps: &Vec<PreparedSource>,
    config: &PsoConfig,
    seeded: &S,
    draw: &D,
    minimise: &F,
    math: &M,
) -> (r: Result<Vec<SbplResult>, E>)
    requires
        preps.len() * config.n_restarts * swarm_size(config.n_particles) * N_PARAMS <= usize::MAX,
        forall|s: int| 0 <= s < preps.len() ==> (#[trigger] preps@[s])@.complete(),
        config.n_iters > 0 && config.n_restarts > 0 ==> forall|s: int|
            0 <= s < preps.len() ==> steerable((#[trigger] preps@[s])@),
        forall|n: usize| #[trigger] call_requires(*make_eval, (n,)),
        is_evaluator(*eval),
        is_seeding(*seeded),
        is_generator(*draw),
        is_minimiser(*minimise),
        is_function(*math),
    ensures
        preps.len() == 0 || config.n_restarts == 0 ==> r is Ok && r->Ok_0@ == batch_results(
            sources_of(preps@),
            seq![],
            0,
            suggestions(*minimise),
            answers(*math),
        ),
        preps.len() > 0 && config.n_restarts > 0 ==> match r {
            Ok(results) => exists|ends: Seq<(Seq<Binary64>, Binary64)>|
                {
                    &&& #[trigger] batch_outcome(
                        *make_eval,
                        *eval,
                        settings(
                            sources_of(preps@),
                            restart_seeds(config.seed, config.n_restarts as nat),
                            seeds(*seeded),
                        ),
                        stream(*draw),
                        (config.n_restarts * swarm_size(config.n_particles)) as usize,
                        swarm_size(config.n_particles) as nat,
                        config.n_iters as nat,
                        Ok(ends),
                    )
                    &&& results@ == batch_results(
                        sources_of(preps@),
                        ends,
                        config.n_restarts as nat,
                        suggestions(*minimise),
                        answers(*math),
                    )
                },
            Err(e) => batch_outcome(
                *make_eval,
                *eval,
                settings(
                    sources_of(preps@),
                    restart_seeds(config.seed, config.n_restarts as nat),
                    seeds(*seeded),
                ),
                stream(*draw),
                (config.n_restarts * swarm_size(config.n_particles)) as usize,
                swarm_size(config.n_particles) as nat,
                config.n_iters as nat,
                Err(e),
            ),
        },
{
    let ghost sources = sources_of(preps@);
    let ghost suggest = suggestions(*minimise);
    let ghost f = answers(*math);
    let n_sources: usize = preps.len();
    let n_restarts: usize = config.n_restarts;
    let problems: Vec<SbplCost> = objectives(preps, math);
    let list: Vec<u64> = seeds_of_restarts(config.seed, n_restarts);
    let found: Vec<(Vec<Binary64>, Binary64)> = match batch_pso_restarts(
        make_eval,
        eval,
        preps,
        config.n_particles,
        config.n_iters,
        &list,
        seeded,
        draw,
    ) {
        Ok(found) => found,
        Err(e) => {
            return Err(e);
        },
    };
    let ghost ends = found@.map_values(|b: (Vec<Binary64>, Binary64)| (b.0@, b.1));
    proof {
        assert(n_restarts * n_sources <= usize::MAX) by (nonlinear_arith)
            requires
                n_sources * n_restarts * swarm_size(config.n_particles) * 7 <= usize::MAX,
                swarm_size(config.n_particles) >= 1,
        ;
    }
    let jobs: usize = n_restarts * n_sources;
    let ghost want = polished_batch(sources, ends, n_restarts as nat, suggest, f);
    let mut polished: Vec<(Vec<Binary64>, Binary64)> = Vec::with_capacity(jobs);
    let mut job: usize = 0;
    assert(restarts_of(polished@) =~= want.subrange(0, 0));
    while job < jobs
        invariant
            job <= jobs,
            n_sources == preps.len(),
            jobs == n_restarts * n_sources,
            found.len() == n_sources * n_restarts,
            forall|i: int| 0 <= i < found.len() ==> (#[trigger] found@[i]).0.len() == N_PARAMS,
            ends == found@.map_values(|b: (Vec<Binary64>, Binary64)| (b.0@, b.1)),
            sources == sources_of(preps@),
            suggest == suggestions(*minimise),
            f == answers(*math),
            is_minimiser(*minimise),
            is_function(*math),
            problems.len() == n_sources,
            forall|s: int|
                0 <= s < n_sources ==> {
                    &&& (#[trigger] problems@[s]).obs() == observations_of(preps@[s]@)
                    &&& problems@[s].log_frequencies() == logarithms_of(preps@[s]@, f)
                },
            want == polished_batch(sources, ends, n_restarts as nat, suggest, f),
            want.len() == jobs,
            restarts_of(polished@) == want.subrange(0, job as int),
        decreases jobs - job,
    {
        let one: (Vec<Binary64>, Binary64) = polish_job(
            preps,
            &problems,
            &found,
            n_restarts,
            job,
            minimise,
            math,
        );
        let ghost before = polished@;
        polished.push(one);
        proof {
            assert((one.0@, one.1) == want[job as int]);
            assert(restarts_of(polished@) =~= restarts_of(before).push((one.0@, one.1)));
            assert(restarts_of(polished@) =~= want.subrange(0, job + 1));
        }
        job += 1;
    }
    assert(want.subrange(0, jobs as int) =~= want);
    let results: Vec<SbplResult> = gather(preps, &polished, n_restarts, math);
    proof {
        assert(restarts_of(polished@).len() == polished@.len());
        if n_sources > 0 && n_restarts > 0 {
            assert(ends_of::<E>(Ok(found)) == Ok::<Seq<(Seq<Binary64>, Binary64)>, E>(ends));
        } else {
            assert(jobs == 0) by (nonlinear_arith)
                requires
                    jobs == n_restarts * n_sources,
                    n_sources == 0 || n_restarts == 0,
            ;
            lemma_no_restarts(sources, ends, n_restarts as nat, suggest, f);
        }
    }
    Ok(results)
}

/// Without a source or a restart, where swarms ended plays no part.
proof fn lemma_no_restarts(
    sources: Seq<Source>,
    ends: Seq<(Seq<Binary64>, Binary64)>,
    n_restarts: nat,
    suggest: spec_fn(Task) -> Option<Seq<Binary64>>,
    f: spec_fn(Elementary) -> Binary64,
)
    requires
        sources.len() == 0 || n_restarts == 0,
    ensures
        batch_results(sources, ends, n_restarts, suggest, f) == batch_results(
            sources,
            seq![],
            0,
            suggest,
            f,
        ),
{
    let a = batch_results(sources, ends, n_restarts, suggest, f);
    let b = batch_results(sources, seq![], 0, suggest, f);
    let pa = polished_batch(sources, ends, n_restarts, suggest, f);
    let pb = polished_batch(sources, seq![], 0, suggest, f);
    assert forall|s: int| 0 <= s < sources.len() implies a[s] == b[s] by {
        assert(Seq::new(n_restarts, |r: int| pa[r * sources.len() + s]) =~= Seq::new(
            0,
            |r: int| pb[r * sources.len() + s],
        ));
    }
    assert(a =~= b);
}

/// One pass over a batch, on one seed. Returns each source's best parameters,
/// relative to its reference time, and their cost.
pub fn batch_pso<
    R,
    S: Fn(u64) -> R,
    D: Fn(&R, Draw) -> (Binary64, R),
    V,
    E,
    K: Fn(usize) -> Result<V, E>,
    L: Fn(&V, &Vec<Binary64>) -> Result<Vec<Binary64>, E>,
>(
    make_eval: &K,
    eval: &L,
    preps: &Vec<PreparedSource>,
    n_particles: usize,
    n_iters: usize,
    seed: u64,
    seeded: &S,
    draw: &D,
) -> (r: Result<Vec<(Vec<Binary64>, Binary64)>, E>)
    requires
        preps.len() * swarm_size(n_particles) * N_PARAMS <= usize::MAX,
        n_iters > 0 ==> forall|s: int|
            0 <= s < preps.len() ==> steerable((#[trigger] preps@[s])@),
        forall|n: usize| #[trigger] call_requires(*make_eval, (n,)),
        is_evaluator(*eval),
        is_seeding(*seeded),
        is_generator(*draw),
    ensures
        preps.len() == 0 ==> r is Ok && r->Ok_0@.len() == 0,
        preps.len() > 0 ==> batch_outcome(
            *make_eval,
            *eval,
            settings(sources_of(preps@), seq![seed], seeds(*seeded)),
            stream(*draw),
            swarm_size(n_particles),
            swarm_size(n_particles) as nat,
            n_iters as nat,
            ends_of(r),
        ),
        r is Ok ==> r->Ok_0@.len() == preps.len() && forall|i: int|
            0 <= i < r->Ok_0@.len() ==> (#[trigger] r->Ok_0@[i]).0.len() == N_PARAMS,
{
    let mut list: Vec<u64> = Vec::with_capacity(1);
    list.push(seed);
    assert(list@ =~= seq![seed]);
    assert(preps.len() * list.len() == preps.len()) by (nonlinear_arith)
        requires
            list.len() == 1,
    ;
    batch_pso_restarts(make_eval, eval, preps, n_particles, n_iters, &list, seeded, draw)
}

/// Brings the ends of a pass back to absolute time.
pub fn to_absolute_time(preps: &Vec<PreparedSource>, ends: &Vec<(Vec<Binary64>, Binary64)>) -> (r:
    Vec<(Vec<Binary64>, Binary64)>)
    requires
        ends.len() == preps.len(),
        forall|i: int| 0 <= i < ends.len() ==> (#[trigger] ends@[i]).0.len() == N_PARAMS,
    ensures
        r.len() == ends.len(),
        forall|i: int|
            0 <= i < r.len() ==> {
                &&& (#[trigger] r@[i]).0@ == absolute(ends@[i].0@, preps@[i].t_ref)
                &&& r@[i].1 == ends@[i].1
            },
{
    let mut out: Vec<(Vec<Binary64>, Binary64)> = Vec::with_capacity(ends.len());
    let mut i: usize = 0;
    while i < ends.len()
        invariant
            i <= ends.len(),
            ends.len() == preps.len(),
            forall|i: int| 0 <= i < ends.len() ==> (#[trigger] ends@[i]).0.len() == N_PARAMS,
            out.len() == i,
            forall|j: int|
                0 <= j < i ==> {
                    &&& (#[trigger] out@[j]).0@ == absolute(ends@[j].0@, preps@[j].t_ref)
                    &&& out@[j].1 == ends@[j].1
                },
        decreases ends.len() - i,
    {
        assert(ends@[i as int].0.len() == N_PARAMS);
        let mut p: Vec<Binary64> = copied(&ends[i].0);
        p.set(6, ends[i].0[6].plus(preps[i].t_ref));
        out.push((p, ends[i].1));
        i += 1;
    }
    out
}

/// A source that is ready to fit has its latest onset at its reference time:
/// relative to that time, at zero.
pub proof fn law_relative_onset_ends_at_zero(bands: Map<Seq<char>, Series>, c: PsoConfig)
    requires
        prepared(bands, c) is Ready,
    ensures
        ({
            let s = prepared(bands, c)->Ready_0;
            shifted(s.upper, s.t_ref)[6] == Binary64::zero()
        }),
{
    law_reference_time(bands, c);
    law_difference_with_itself((prepared(bands, c)->Ready_0).t_ref);
}

/// Every source of a batch has one result, which counts its observations and
/// bands.
pub proof fn law_one_result_per_source(
    sources: Seq<Source>,
    ends: Seq<(Seq<Binary64>, Binary64)>,
    n_restarts: nat,
    suggest: spec_fn(Task) -> Option<Seq<Binary64>>,
    f: spec_fn(Elementary) -> Binary64,
)
    ensures
        ({
            let results = batch_results(sources, ends, n_restarts, suggest, f);
            &&& results.len() == sources.len()
            &&& forall|s: int|
                0 <= s < sources.len() ==> (#[trigger] results[s]).n_obs == sources[s].n_obs
                    && results[s].n_bands == sources[s].n_bands
        }),
{
}

/// Whatever its evaluator answers, every swarm of a batch ends at numbers within the
/// bounds of its source, relative to the reference time, as long as these are in
/// order and of moderate magnitude.
pub proof fn law_batch_searches_stay_in_bounds<
    R,
    V,
    E,
    K: Fn(usize) -> Result<V, E>,
    L: Fn(&V, &Vec<Binary64>) -> Result<Vec<Binary64>, E>,
>(
    make_eval: K,
    eval: L,
    sources: Seq<Source>,
    batch_seeds: Seq<u64>,
    sown: spec_fn(u64) -> R,
    next: spec_fn(R, Draw) -> (Binary64, R),
    per_source: usize,
    count: nat,
    n_iters: nat,
    ends: Seq<(Seq<Binary64>, Binary64)>,
    s: int,
    r: int,
)
    requires
        count > 0,
        draws_in_range(next),
        0 <= s < sources.len(),
        0 <= r < batch_seeds.len(),
        steerable(sources[s]),
        moderate(
            shifted(sources[s].lower, sources[s].t_ref),
            shifted(sources[s].upper, sources[s].t_ref),
        ),
        batch_outcome(
            make_eval,
            eval,
            settings(sources, batch_seeds, sown),
            next,
            per_source,
            count,
            n_iters,
            Ok(ends),
        ),
    ensures
        inside(
            ends[s * batch_seeds.len() + r].0,
            shifted(sources[s].lower, sources[s].t_ref),
            shifted(sources[s].upper, sources[s].t_ref),
        ),
{
    let starts = settings(sources, batch_seeds, sown);
    let n = batch_seeds.len() as int;
    let sw = s * n + r;
    lemma_listed(s, r, sources.len() as int, n);
    let (v, log) = choose|v: V, log: Seq<Seq<Binary64>>|
        {
            &&& call_ensures(make_eval, (per_source,), Ok(v))
            &&& log.len() == n_iters + 1
            &&& #[trigger] may_log::<R, V, E, L>(eval, v, starts, next, count, log)
            &&& ends == batch_ends(starts, next, count, log, n_iters)
        };
    law_batch_ends_stay_in_bounds(starts, next, count, log, n_iters, sw);
}

/// A reported onset is a number between its bounds, up to the rounding of the
/// polish or that of taking the reference time away and adding it again.
pub open spec fn reported_onset(
    v: Option<Binary64>,
    low: Binary64,
    high: Binary64,
    t_ref: Binary64,
) -> bool {
    ||| reported_between(v, low, high)
    ||| v is Some && low.minus(t_ref).plus(t_ref).le(v->0) && (v->0).le(
        high.minus(t_ref).plus(t_ref),
    )
}

/// Parameters of a batch in absolute time: between the bounds, the onset up to the
/// rounding of taking the reference time away and adding it again.
spec fn inside_absolute(row: Seq<Binary64>, s: Source) -> bool {
    &&& row.len() == N_PARAMS
    &&& forall|d: int|
        0 <= d < N_PARAMS - 1 ==> reported_between(
            finite(#[trigger] row[d]),
            s.lower[d],
            s.upper[d],
        )
    &&& reported_onset(finite(row[6]), s.lower[6], s.upper[6], s.t_ref)
}

/// A row between the bounds is one of finite numbers.
proof fn lemma_inside_absolute(row: Seq<Binary64>, s: Source)
    requires
        inside_rounded(row, s.lower, s.upper),
        moderate(s.lower, s.upper),
    ensures
        inside_absolute(row, s),
{
    assert forall|d: int| 0 <= d < N_PARAMS implies reported_between(
        finite(#[trigger] row[d]),
        s.lower[d],
        s.upper[d],
    ) by {
        assert(s.lower[d].step() <= MODERATE);
        assert(s.lower[d].le(row[d]));
        lemma_moderate_span(s.lower[d], s.upper[d]);
    }
}

/// Where a swarm ended between the relative bounds, brought back to absolute time.
proof fn lemma_absolute_end(end: Seq<Binary64>, s: Source)
    requires
        s.lower.len() == N_PARAMS,
        s.upper.len() == N_PARAMS,
        moderate(s.lower, s.upper),
        s.t_ref.step() <= MODERATE,
        inside(end, shifted(s.lower, s.t_ref), shifted(s.upper, s.t_ref)),
    ensures
        inside_absolute(absolute(end, s.t_ref), s),
{
    let row = absolute(end, s.t_ref);
    let low = shifted(s.lower, s.t_ref);
    let high = shifted(s.upper, s.t_ref);
    assert forall|d: int| 0 <= d < N_PARAMS - 1 implies reported_between(
        finite(#[trigger] row[d]),
        s.lower[d],
        s.upper[d],
    ) by {
        assert(row[d] == end[d]);
        assert(low[d].le(end[d]) && end[d].le(high[d]));
        assert(s.lower[d].step() <= MODERATE);
    }
    assert(s.lower[6].step() <= MODERATE);
    assert(low[6].le(end[6]) && end[6].le(high[6]));
    lemma_moderate_return(s.lower[6], s.t_ref);
    lemma_moderate_return(s.upper[6], s.t_ref);
    law_order_is_exact(low[6], end[6]);
    law_order_is_exact(end[6], high[6]);
    law_sums_are_ordered(low[6], s.t_ref, end[6], s.t_ref);
    law_sums_are_ordered(end[6], s.t_ref, high[6], s.t_ref);
}

/// Each restart of a source that ended between the relative bounds is polished to
/// parameters between the absolute ones.
proof fn lemma_polished_end_inside(
    s: Source,
    end: Seq<Binary64>,
    suggest: spec_fn(Task) -> Option<Seq<Binary64>>,
    f: spec_fn(Elementary) -> Binary64,
)
    requires
        s.lower.len() == N_PARAMS,
        s.upper.len() == N_PARAMS,
        ordered(s.lower, s.upper),
        moderate(s.lower, s.upper),
        s.t_ref.step() <= MODERATE,
        suggests_numbers(suggest),
        inside(end, shifted(s.lower, s.t_ref), shifted(s.upper, s.t_ref)),
    ensures
        inside_absolute(polished_end(s, end, suggest, f).0, s),
{
    let start = absolute(end, s.t_ref);
    lemma_absolute_end(end, s);
    lemma_polished_or_start(
        observations_of(s),
        logarithms_of(s, f),
        start,
        source_cost(s, f)(start),
        s.lower,
        s.upper,
        suggest,
        f,
    );
    let row = polished_end(s, end, suggest, f).0;
    if row != start {
        lemma_inside_absolute(row, s);
    }
}

/// A batch fit with a restart reports every parameter of a source but the amplitude,
/// which is in physical units, between the source's bounds. The onset, which is
/// searched relative to the reference time, comes back in absolute time: between its
/// bounds up to the rounding of taking the reference time away and adding it again.
pub proof fn law_batch_fit_stays_in_bounds(
    sources: Seq<Source>,
    ends: Seq<(Seq<Binary64>, Binary64)>,
    n_restarts: nat,
    suggest: spec_fn(Task) -> Option<Seq<Binary64>>,
    f: spec_fn(Elementary) -> Binary64,
    s: int,
)
    requires
        0 <= s < sources.len(),
        n_restarts > 0,
        sources[s].lower.len() == N_PARAMS,
        sources[s].upper.len() == N_PARAMS,
        ordered(sources[s].lower, sources[s].upper),
        moderate(sources[s].lower, sources[s].upper),
        sources[s].t_ref.step() <= MODERATE,
        suggests_numbers(suggest),
        forall|r: int|
            0 <= r < n_restarts ==> inside(
                (#[trigger] ends[s * n_restarts + r]).0,
                shifted(sources[s].lower, sources[s].t_ref),
                shifted(sources[s].upper, sources[s].t_ref),
            ),
    ensures
        ({
            let r = batch_results(sources, ends, n_restarts, suggest, f)[s];
            let (low, high) = (sources[s].lower, sources[s].upper);
            &&& reported_between(r.alpha1, low[0], high[0])
            &&& reported_between(r.alpha2, low[1], high[1])
            &&& reported_between(r.beta, low[2], high[2])
            &&& reported_between(r.logd, low[3], high[3])
            &&& reported_between(r.tb, low[5], high[5])
            &&& reported_onset(r.t0, low[6], high[6], sources[s].t_ref)
        }),
{
    let x = sources[s];
    law_batch_fit_is_sequential(sources, ends, n_restarts, suggest, f, s);
    let restarts = Seq::new(
        n_restarts,
        |r: int| polished_end(x, ends[s * n_restarts + r].0, suggest, f),
    );
    assert forall|r: int| 0 <= r < restarts.len() implies inside_absolute(
        (#[trigger] restarts[r]).0,
        x,
    ) by {
        assert(inside(
            ends[s * n_restarts + r].0,
            shifted(x.lower, x.t_ref),
            shifted(x.upper, x.t_ref),
        ));
        lemma_polished_end_inside(x, ends[s * n_restarts + r].0, suggest, f);
    }
    assert forall|r: int| 0 <= r < restarts.len() implies (#[trigger] restarts[r]).0.len()
        == N_PARAMS by {
        assert(inside_absolute(restarts[r].0, x));
    }
    let row = lemma_reported_row(x, restarts, f);
    assert(inside_absolute(row, x)) by {
        if row == x.lower {
            lemma_lower_is_inside(x.lower, x.upper);
            lemma_inside_absolute(row, x);
        } else {
            let i = choose|i: int| 0 <= i < restarts.len() && (#[trigger] restarts[i]).0 == row;
            assert(inside_absolute(restarts[i].0, x));
        }
    }
}

/// An onset reported so lies within its bounds up to 2^-22 day, for times no further
/// than 2^29 days from zero.
pub proof fn law_reported_onset_is_close(
    v: Option<Binary64>,
    low: Binary64,
    high: Binary64,
    t_ref: Binary64,
)
    requires
        reported_onset(v, low, high, t_ref),
        low.step() <= ORDINARY,
        high.step() <= ORDINARY,
        t_ref.step() <= ORDINARY,
    ensures
        v is Some,
        (v->0).is_finite(),
        low.units() - pow2(1052) <= (v->0).units() <= high.units() + pow2(1052),
{
    law_return_is_close(low, t_ref);
    law_return_is_close(high, t_ref);
    law_span_leads_close(low, high);
    let x = v->0;
    if reported_between(v, low, high) {
        law_order_is_exact(low, x);
        if x.le(high) {
            law_order_is_exact(x, high);
        } else {
            law_order_is_exact(x, low.plus(high.minus(low)));
        }
    } else {
        law_order_is_exact(low.minus(t_ref).plus(t_ref), x);
        law_order_is_exact(x, high.minus(t_ref).plus(t_ref));
    }
}

/// A batch fit is what one pass and one polish per restart, in turn, amount to:
/// the result of a source is assembled from the polished ends of its own
/// restarts, in order.
pub proof fn law_batch_fit_is_sequential(
    sources: Seq<Source>,
    ends: Seq<(Seq<Binary64>, Binary64)>,
    n_restarts: nat,
    suggest: spec_fn(Task) -> Option<Seq<Binary64>>,
    f: spec_fn(Elementary) -> Binary64,
    s: int,
)
    requires
        0 <= s < sources.len(),
    ensures
        batch_results(sources, ends, n_restarts, suggest, f)[s] == assembled(
            sources[s],
            Seq::new(
                n_restarts,
                |r: int| polished_end(sources[s], ends[s * n_restarts + r].0, suggest, f),
            ),
            f,
        ),
{
    let polished = polished_batch(sources, ends, n_restarts, suggest, f);
    let a = Seq::new(n_restarts, |r: int| polished[r * sources.len() + s]);
    let b = Seq::new(
        n_restarts,
        |r: int| polished_end(sources[s], ends[s * n_restarts + r].0, suggest, f),
    );
    assert forall|r: int| 0 <= r < n_restarts implies a[r] == b[r] by {
        lemma_listed(r, s, n_restarts as int, sources.len() as int);
    }
    assert(a =~= b);
}

/// The fit of a source does not depend on the batch it is in: two batches that are
/// scored particle by particle, with the same costs for that source, give it the
/// same result, wherever it stands in them.
pub proof fn law_fits_do_not_depend_on_the_batch<
    R,
    V1,
    E1,
    L1: Fn(&V1, &Vec<Binary64>) -> Result<Vec<Binary64>, E1>,
    V2,
    E2,
    L2: Fn(&V2, &Vec<Binary64>) -> Result<Vec<Binary64>, E2>,
>(
    eval1: L1,
    v1: V1,
    log1: Seq<Seq<Binary64>>,
    sources1: Seq<Source>,
    cost1: spec_fn(int, Seq<Binary64>) -> Binary64,
    s1: int,
    eval2: L2,
    v2: V2,
    log2: Seq<Seq<Binary64>>,
    sources2: Seq<Source>,
    cost2: spec_fn(int, Seq<Binary64>) -> Binary64,
    s2: int,
    batch_seeds: Seq<u64>,
    sown: spec_fn(u64) -> R,
    next: spec_fn(R, Draw) -> (Binary64, R),
    count: nat,
    k: nat,
    suggest: spec_fn(Task) -> Option<Seq<Binary64>>,
    f: spec_fn(Elementary) -> Binary64,
)
    requires
        count > 0,
        0 <= s1 < sources1.len(),
        0 <= s2 < sources2.len(),
        sources1[s1] == sources2[s2],
        forall|p: Seq<Binary64>| #[trigger] cost1(s1, p) == cost2(s2, p),
        log1.len() == k + 1,
        log2.len() == k + 1,
        may_log::<R, V1, E1, L1>(
            eval1,
            v1,
            settings(sources1, batch_seeds, sown),
            next,
            count,
            log1,
        ),
        may_log::<R, V2, E2, L2>(
            eval2,
            v2,
            settings(sources2, batch_seeds, sown),
            next,
            count,
            log2,
        ),
        scores_each::<V1, E1, L1>(eval1, v1, batch_seeds.len() * count as int, cost1),
        scores_each::<V2, E2, L2>(eval2, v2, batch_seeds.len() * count as int, cost2),
        is_evaluator::<V1, E1, L1>(eval1),
        is_evaluator::<V2, E2, L2>(eval2),
    ensures
        batch_results(
            sources1,
            batch_ends(settings(sources1, batch_seeds, sown), next, count, log1, k),
            batch_seeds.len(),
            suggest,
            f,
        )[s1] == batch_results(
            sources2,
            batch_ends(settings(sources2, batch_seeds, sown), next, count, log2, k),
            batch_seeds.len(),
            suggest,
            f,
        )[s2],
{
    let n = batch_seeds.len();
    let ends1 = batch_ends(settings(sources1, batch_seeds, sown), next, count, log1, k);
    let ends2 = batch_ends(settings(sources2, batch_seeds, sown), next, count, log2, k);
    law_batch_fit_is_sequential(sources1, ends1, n, suggest, f, s1);
    law_batch_fit_is_sequential(sources2, ends2, n, suggest, f, s2);
    let a = Seq::new(n, |r: int| polished_end(sources1[s1], ends1[s1 * n + r].0, suggest, f));
    let b = Seq::new(n, |r: int| polished_end(sources2[s2], ends2[s2 * n + r].0, suggest, f));
    assert forall|r: int| 0 <= r < n implies a[r] == b[r] by {
        law_batch_composition_does_not_matter::<R, V1, E1, L1, V2, E2, L2>(
            eval1,
            v1,
            log1,
            sources1,
            cost1,
            s1,
            eval2,
            v2,
            log2,
            sources2,
            cost2,
            s2,
            batch_seeds,
            sown,
            next,
            count,
            r,
            k,
        );
    }
    assert(a =~= b);
}

/// A batch fit gives what its restarts give in turn: one pass over the batch per
/// seed, each of its ends polished, and the ends of a source assembled.
pub proof fn law_batch_fit_matches_separate_passes<
    R,
    V1,
    E1,
    L1: Fn(&V1, &Vec<Binary64>) -> Result<Vec<Binary64>, E1>,
    V2,
    E2,
    L2: Fn(&V2, &Vec<Binary64>) -> Result<Vec<Binary64>, E2>,
>(
    eval1: L1,
    v1: V1,
    log1: Seq<Seq<Binary64>>,
    eval2: L2,
    v2: Seq<V2>,
    logs2: Seq<Seq<Seq<Binary64>>>,
    sources: Seq<Source>,
    batch_seeds: Seq<u64>,
    sown: spec_fn(u64) -> R,
    next: spec_fn(R, Draw) -> (Binary64, R),
    count: nat,
    cost: spec_fn(int, Seq<Binary64>) -> Binary64,
    s: int,
    k: nat,
    suggest: spec_fn(Task) -> Option<Seq<Binary64>>,
    f: spec_fn(Elementary) -> Binary64,
)
    requires
        count > 0,
        0 <= s < sources.len(),
        log1.len() == k + 1,
        may_log::<R, V1, E1, L1>(
            eval1,
            v1,
            settings(sources, batch_seeds, sown),
            next,
            count,
            log1,
        ),
        scores_each::<V1, E1, L1>(eval1, v1, batch_seeds.len() * count as int, cost),
        is_evaluator::<V1, E1, L1>(eval1),
        is_evaluator::<V2, E2, L2>(eval2),
        forall|r: int|
            0 <= r < batch_seeds.len() ==> {
                &&& (#[trigger] logs2[r]).len() == k + 1
                &&& may_log::<R, V2, E2, L2>(
                    eval2,
                    v2[r],
                    settings(sources, seq![batch_seeds[r]], sown),
                    next,
                    count,
                    logs2[r],
                )
                &&& scores_each::<V2, E2, L2>(eval2, v2[r], count as int, cost)
            },
    ensures
        batch_results(
            sources,
            batch_ends(settings(sources, batch_seeds, sown), next, count, log1, k),
            batch_seeds.len(),
            suggest,
            f,
        )[s] == assembled(
            sources[s],
            Seq::new(
                batch_seeds.len(),
                |r: int|
                    polished_end(
                        sources[s],
                        batch_ends(
                            settings(sources, seq![batch_seeds[r]], sown),
                            next,
                            count,
                            logs2[r],
                            k,
                        )[s].0,
                        suggest,
                        f,
                    ),
            ),
            f,
        ),
{
    let n = batch_seeds.len();
    let ends = batch_ends(settings(sources, batch_seeds, sown), next, count, log1, k);
    law_batch_fit_is_sequential(sources, ends, n, suggest, f, s);
    let a = Seq::new(n, |r: int| polished_end(sources[s], ends[s * n + r].0, suggest, f));
    let b = Seq::new(
        n,
        |r: int|
            polished_end(
                sources[s],
                batch_ends(
                    settings(sources, seq![batch_seeds[r]], sown),
                    next,
                    count,
                    logs2[r],
                    k,
                )[s].0,
                suggest,
                f,
            ),
    );
    assert forall|r: int| 0 <= r < n implies a[r] == b[r] by {
        assert(logs2[r].len() == k + 1);
        law_restarts_match_separate_passes::<R, V1, E1, L1, V2, E2, L2>(
            eval1,
            v1,
            log1,
            eval2,
            v2[r],
            logs2[r],
            sources,
            batch_seeds,
            sown,
            next,
            count,
            cost,
            s,
            r,
            k,
        );
    }
    assert(a =~= b);
}

} // verus!

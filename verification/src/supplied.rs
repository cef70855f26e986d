//! What the caller supplies is what is used.
//!
//! Functions, generators, seeds, minimisers and readers of numbers enter contracts
//! under names. Each name stands for what the supplied function gives.
use crate::binary64::Binary64;
use crate::elementary::{answers, is_function, Elementary};
use crate::generator::{is_generator, is_seeding, seeds, stream, Draw};
use crate::photometry::{is_number_reader, may_read, readings};
use crate::polish::{is_minimiser, may_suggest, numbers_of, suggestions, task_of, ScaledCost, Task};
use crate::side_by_side::{
    batch_ends, batch_outcome, batch_rows, may_fail, may_log, may_score, packed, Setting,
};
use vstd::prelude::*;

verus! {

/// The value of an elementary function is what was answered to that very request.
pub proof fn law_answers_are_given<M: Fn(Elementary) -> Binary64>(
    math: M,
    q: Elementary,
    y: Binary64,
)
    requires
        is_function(math),
        call_ensures(math, (q,), y),
    ensures
        answers(math)(q) == y,
{
}

/// The number drawn, and the generator left, are what was drawn from that generator at
/// that very request.
pub proof fn law_draws_are_given<R, D: Fn(&R, Draw) -> (Binary64, R)>(
    draw: D,
    g: R,
    q: Draw,
    y: (Binary64, R),
)
    requires
        is_generator(draw),
        call_ensures(draw, (&g, q), y),
    ensures
        stream(draw)(g, q) == y,
{
    let x = stream(draw)(g, q);
    assert(call_ensures(draw, (&g, q), x));
}

/// A generator sown from a seed is what was made of that very seed.
pub proof fn law_seeds_are_given<R, S: Fn(u64) -> R>(seeded: S, seed: u64, g: R)
    requires
        is_seeding(seeded),
        call_ensures(seeded, (seed,), g),
    ensures
        seeds(seeded)(seed) == g,
{
}

/// What is suggested is what the minimiser gave for that very problem and start.
pub proof fn law_suggestions_are_given<
    F: Fn(&ScaledCost, &Vec<Binary64>) -> Option<Vec<Binary64>>,
>(
    minimise: F,
    p: &ScaledCost,
    x: &Vec<Binary64>,
    y: Option<Vec<Binary64>>,
)
    requires
        is_minimiser(minimise),
        call_ensures(minimise, (p, x), y),
    ensures
        ({
            let task = Task {
                obs: p.inner.obs(),
                log_frequencies: p.inner.log_frequencies(),
                lower: p.lower@,
                scale: p.scale@,
                start: x@,
            };
            &&& y is None ==> suggestions(minimise)(task) is None
            &&& y matches Some(xs) ==> suggestions(minimise)(task) == Some(xs@)
        }),
{
    let task = task_of(*p, x@);
    assert(may_suggest(minimise, task, numbers_of(y)));
    let answer = suggestions(minimise)(task);
    assert(may_suggest(minimise, task, answer));
}

/// A number that is read is what was read in a text of those very characters.
pub proof fn law_readings_are_given<N: Fn(&str) -> Option<Binary64>>(
    number: N,
    s: &str,
    value: Option<Binary64>,
)
    requires
        is_number_reader(number),
        call_ensures(number, (s,), value),
    ensures
        readings(number)(s@) == value,
{
    assert(may_read(number, s@, value));
    let other = readings(number)(s@);
    assert(may_read(number, s@, other));
}

/// The scores of a generation are what the evaluator gave for the positions of that
/// very generation, packed.
pub proof fn law_generations_are_scored_by_the_evaluator<
    R,
    V,
    E,
    L: Fn(&V, &Vec<Binary64>) -> Result<Vec<Binary64>, E>,
>(
    eval: L,
    v: V,
    starts: Seq<Setting<R>>,
    next: spec_fn(R, Draw) -> (Binary64, R),
    count: nat,
    log: Seq<Seq<Binary64>>,
    k: int,
) -> (r: (Vec<Binary64>, Vec<Binary64>))
    requires
        may_log::<R, V, E, L>(eval, v, starts, next, count, log),
        0 <= k < log.len(),
    ensures
        call_ensures(eval, (&v, &r.0), Ok::<Vec<Binary64>, E>(r.1)),
        r.0@ == packed(batch_rows(starts, next, count, log, k as nat)),
        r.1@ == log[k],
{
    let positions = packed(batch_rows(starts, next, count, log, k as nat));
    assert(may_score::<V, E, L>(eval, v, positions, log[k]));
    let (x, y) = choose|x: &Vec<Binary64>, y: Vec<Binary64>| #[trigger]
        call_ensures(eval, (&v, x), Ok::<Vec<Binary64>, E>(y)) && x@ == positions && y@ == log[k];
    (*x, y)
}

/// Where a batch search succeeds, its evaluator was made for that many particles per
/// source, and scored each generation, the first and one per sweep; the ends are where
/// those scores lead.
pub proof fn law_batch_ends_come_from_its_scores<
    R,
    V,
    E,
    K: Fn(usize) -> Result<V, E>,
    L: Fn(&V, &Vec<Binary64>) -> Result<Vec<Binary64>, E>,
>(
    make_eval: K,
    eval: L,
    starts: Seq<Setting<R>>,
    next: spec_fn(R, Draw) -> (Binary64, R),
    per_source: usize,
    count: nat,
    n_iters: nat,
    ends: Seq<(Seq<Binary64>, Binary64)>,
) -> (r: (V, Seq<Seq<Binary64>>))
    requires
        batch_outcome(
            make_eval,
            eval,
            starts,
            next,
            per_source,
            count,
            n_iters,
            Ok::<Seq<(Seq<Binary64>, Binary64)>, E>(ends),
        ),
    ensures
        call_ensures(make_eval, (per_source,), Ok::<V, E>(r.0)),
        r.1.len() == n_iters + 1,
        may_log::<R, V, E, L>(eval, r.0, starts, next, count, r.1),
        ends == batch_ends(starts, next, count, r.1, n_iters),
{
    let (v, log) = choose|v: V, log: Seq<Seq<Binary64>>|
        {
            &&& call_ensures(make_eval, (per_source,), Ok::<V, E>(v))
            &&& log.len() == n_iters + 1
            &&& #[trigger] may_log::<R, V, E, L>(eval, v, starts, next, count, log)
            &&& ends == batch_ends(starts, next, count, log, n_iters)
        };
    (v, log)
}

/// Where a batch search fails, the error is the one with which its evaluator could not
/// be made, or that it gave for the positions of the first generation that it did not
/// score.
pub proof fn law_batch_errors_come_from_its_evaluator<
    R,
    V,
    E,
    K: Fn(usize) -> Result<V, E>,
    L: Fn(&V, &Vec<Binary64>) -> Result<Vec<Binary64>, E>,
>(
    make_eval: K,
    eval: L,
    starts: Seq<Setting<R>>,
    next: spec_fn(R, Draw) -> (Binary64, R),
    per_source: usize,
    count: nat,
    n_iters: nat,
    e: E,
)
    requires
        batch_outcome(
            make_eval,
            eval,
            starts,
            next,
            per_source,
            count,
            n_iters,
            Err::<Seq<(Seq<Binary64>, Binary64)>, E>(e),
        ),
        !call_ensures(make_eval, (per_source,), Err::<V, E>(e)),
    ensures
        exists|v: V, log: Seq<Seq<Binary64>>, x: &Vec<Binary64>|
            {
                &&& call_ensures(make_eval, (per_source,), Ok::<V, E>(v))
                &&& log.len() <= n_iters
                &&& #[trigger] call_ensures(eval, (&v, x), Err::<Vec<Binary64>, E>(e))
                &&& x@ == packed(#[trigger] batch_rows(starts, next, count, log, log.len()))
            },
{
    let (v, log) = choose|v: V, log: Seq<Seq<Binary64>>|
        {
            &&& call_ensures(make_eval, (per_source,), Ok::<V, E>(v))
            &&& log.len() <= n_iters
            &&& #[trigger] may_log::<R, V, E, L>(eval, v, starts, next, count, log)
            &&& may_fail::<V, E, L>(
                eval,
                v,
                packed(batch_rows(starts, next, count, log, log.len())),
                e,
            )
        };
    let x = choose|x: &Vec<Binary64>| #[trigger]
        call_ensures(eval, (&v, x), Err::<Vec<Binary64>, E>(e)) && x@ == packed(
            batch_rows(starts, next, count, log, log.len()),
        );
    assert(call_ensures(eval, (&v, x), Err::<Vec<Binary64>, E>(e)));
}

} // verus!

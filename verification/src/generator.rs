//! Random numbers, supplied by the caller.
//!
//! A generator is a value: a draw takes one and gives a number together with
//! the generator to draw from next. What a function here does with random
//! numbers is thereby a function of the generator it starts from.
use crate::binary64::Binary64;
use crate::numbers::ONE;
use vstd::prelude::*;

verus! {

/// A request for a random number.
#[derive(Clone, Copy, Debug, PartialEq, Eq, Structural)]
pub enum Draw {
    /// From zero to one, one excluded.
    Unit,
    /// From the first number to the second.
    Range(Binary64, Binary64),
}

/// The request has an answer: a range must not run backwards.
pub open spec fn answerable(q: Draw) -> bool {
    match q {
        Draw::Unit => true,
        Draw::Range(low, high) => low.le(high),
    }
}

/// The number is one that was asked for.
pub open spec fn obliges(q: Draw, x: Binary64) -> bool {
    match q {
        Draw::Unit => Binary64::zero().le(x) && x.lt(Binary64 { bits: ONE }),
        Draw::Range(low, high) => low.le(x) && x.le(high),
    }
}

/// `draw` answers every request that has an answer with a number that was asked
/// for, and the same request to the same generator always alike.
pub open spec fn is_generator<R, D: Fn(&R, Draw) -> (Binary64, R)>(draw: D) -> bool {
    &&& forall|g: &R, q: Draw| answerable(q) ==> #[trigger] call_requires(draw, (g, q))
    &&& forall|g: &R, q: Draw, x: (Binary64, R)|
        answerable(q) && #[trigger] call_ensures(draw, (g, q), x) ==> obliges(q, x.0)
    &&& forall|g: &R, q: Draw, x: (Binary64, R), y: (Binary64, R)|
        call_ensures(draw, (g, q), x) && call_ensures(draw, (g, q), y) ==> x == y
}

/// What `draw` gives. Where it gives nothing, the least number that was asked
/// for stands in.
pub open spec fn stream<R, D: Fn(&R, Draw) -> (Binary64, R)>(draw: D) -> spec_fn(R, Draw) -> (
    Binary64,
    R,
) {
    |g: R, q: Draw|
        if exists|y: (Binary64, R)| call_ensures(draw, (&g, q), y) {
            choose|y: (Binary64, R)| call_ensures(draw, (&g, q), y)
        } else {
            match q {
                Draw::Unit => (Binary64::zero(), g),
                Draw::Range(low, high) => (low, g),
            }
        }
}

/// Every request that has an answer is answered with a number that was asked for.
pub open spec fn draws_in_range<R>(next: spec_fn(R, Draw) -> (Binary64, R)) -> bool {
    forall|g: R, q: Draw| answerable(q) ==> obliges(q, (#[trigger] next(g, q)).0)
}

/// The numbers that a generator gives are those that were asked for.
pub proof fn law_generators_draw_in_range<R, D: Fn(&R, Draw) -> (Binary64, R)>(draw: D)
    requires
        is_generator(draw),
    ensures
        draws_in_range(stream(draw)),
{
    let next = stream(draw);
    assert forall|g: R, q: Draw| answerable(q) implies obliges(q, (#[trigger] next(g, q)).0) by {
        if exists|y: (Binary64, R)| call_ensures(draw, (&g, q), y) {
            assert(call_ensures(draw, (&g, q), next(g, q)));
        }
    }
}

/// The generator that is left after these requests, one after another.
pub open spec fn drained<R>(
    g: R,
    requests: Seq<Draw>,
    next: spec_fn(R, Draw) -> (Binary64, R),
) -> R
    decreases requests.len(),
{
    if requests.len() == 0 {
        g
    } else {
        next(drained(g, requests.drop_last(), next), requests.last()).1
    }
}

/// Requests may be made in two goes.
pub proof fn law_draining_goes_on<R>(
    g: R,
    first: Seq<Draw>,
    second: Seq<Draw>,
    next: spec_fn(R, Draw) -> (Binary64, R),
)
    ensures
        drained(g, first + second, next) == drained(drained(g, first, next), second, next),
    decreases second.len(),
{
    let all = first + second;
    if second.len() == 0 {
        assert(all =~= first);
    } else {
        assert(all.drop_last() =~= first + second.drop_last());
        law_draining_goes_on(g, first, second.drop_last(), next);
    }
}

/// Draws one number.
pub fn pull<R, D: Fn(&R, Draw) -> (Binary64, R)>(draw: &D, g: &R, request: Draw) -> (r: (
    Binary64,
    R,
))
    requires
        is_generator(*draw),
        answerable(request),
    ensures
        r == stream(*draw)(*g, request),
        obliges(request, r.0),
{
    draw(g, request)
}

/// `seeded` makes a generator of every seed, and of the same seed always the
/// same one.
pub open spec fn is_seeding<R, S: Fn(u64) -> R>(seeded: S) -> bool {
    &&& forall|seed: u64| #[trigger] call_requires(seeded, (seed,))
    &&& forall|seed: u64, x: R, y: R|
        call_ensures(seeded, (seed,), x) && call_ensures(seeded, (seed,), y) ==> x == y
}

/// The generators that `seeded` makes.
pub open spec fn seeds<R, S: Fn(u64) -> R>(seeded: S) -> spec_fn(u64) -> R {
    |seed: u64| choose|g: R| call_ensures(seeded, (seed,), g)
}

/// Makes a generator.
pub fn sow<R, S: Fn(u64) -> R>(seeded: &S, seed: u64) -> (r: R)
    requires
        is_seeding(*seeded),
    ensures
        r == seeds(*seeded)(seed),
{
    seeded(seed)
}

} // verus!

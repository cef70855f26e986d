//! Preparation does not notice the unit of flux.
//!
//! Fluxes are divided by the largest of them, so measuring all fluxes and errors
//! in a unit that is a power of two larger or smaller changes nothing but that
//! largest flux.
use crate::bands::{frequency_of, known_names, N_KNOWN};
use crate::binary64::{law_order_is_exact, lemma_units_positive, Binary64};
use crate::cost::SbplObs;
use crate::ladder::{
    lemma_cancel, lemma_rounded, lemma_rounded_exists, rounded, rounds_to, step_units, INFINITE_STEP,
    UNIT_EXPONENT,
};
use crate::light_curve::Series;
use crate::numbers::MINUS_INFINITY;
use crate::prepare::{
    band_rows, bands_present, brightest, earliest, flux_unit, latest, law_largest_flux,
    lemma_rows_are_usable, prepared, source_of, usable, usable_rows,
};
use crate::source::{PsoConfig, Source};
use vstd::arithmetic::power2::{lemma_pow2_pos, pow2};
use vstd::prelude::*;

verus! {

/// `b` is exactly `a` times 2^up / 2^down. What is not finite stays that way.
pub open spec fn rescaled(a: Binary64, b: Binary64, up: nat, down: nat) -> bool {
    &&& a.is_finite() <==> b.is_finite()
    &&& a.is_finite() ==> {
        &&& a.negative() == b.negative()
        &&& step_units(b.step()) * pow2(down) == step_units(a.step()) * pow2(up)
    }
}

/// The same times, with all fluxes and errors rescaled.
pub open spec fn rescaled_series(a: Series, b: Series, up: nat, down: nat) -> bool {
    &&& a.times == b.times
    &&& forall|i: int|
        0 <= i < a.times.len() ==> rescaled(#[trigger] a.fluxes[i], b.fluxes[i], up, down)
    &&& forall|i: int|
        0 <= i < a.times.len() ==> rescaled(#[trigger] a.flux_errs[i], b.flux_errs[i], up, down)
}

/// The same bands, with all fluxes and errors rescaled.
pub open spec fn rescaled_bands(
    a: Map<Seq<char>, Series>,
    b: Map<Seq<char>, Series>,
    up: nat,
    down: nat,
) -> bool {
    &&& a.dom() == b.dom()
    &&& forall|name: Seq<char>|
        a.dom().contains(name) ==> rescaled_series(#[trigger] a[name], b[name], up, down)
}

/// The same observation, with flux and error rescaled.
spec fn rescaled_row(a: SbplObs, b: SbplObs, up: nat, down: nat) -> bool {
    &&& a.time == b.time
    &&& a.nu_scaled == b.nu_scaled
    &&& rescaled(a.flux, b.flux, up, down)
    &&& rescaled(a.flux_err, b.flux_err, up, down)
}

/// The same observations, with fluxes and errors rescaled.
spec fn rescaled_rows(a: Seq<SbplObs>, b: Seq<SbplObs>, up: nat, down: nat) -> bool {
    &&& a.len() == b.len()
    &&& forall|i: int| 0 <= i < a.len() ==> rescaled_row(#[trigger] a[i], b[i], up, down)
}

/// A quotient rounds as any multiple of it does.
proof fn lemma_rounded_multiple(n: nat, d: nat, c: nat)
    requires
        d > 0,
        c > 0,
    ensures
        rounded(n * c, d * c) == rounded(n, d),
{
    lemma_rounded_exists(n, d);
    let m = rounded(n, d);
    assert(d * c > 0) by (nonlinear_arith)
        requires
            d > 0,
            c > 0,
    ;
    if m > 0 {
        let s = step_units((m - 1) as nat) + step_units(m);
        lemma_cancel(s * d, 2 * n, c);
        assert(s * d * c == s * (d * c) && 2 * n * c == 2 * (n * c)) by (nonlinear_arith);
    }
    if m < INFINITE_STEP {
        let s = step_units(m) + step_units(m + 1);
        lemma_cancel(s * d, 2 * n, c);
        assert(s * d * c == s * (d * c) && 2 * n * c == 2 * (n * c)) by (nonlinear_arith);
    }
    assert(rounds_to(n * c, d * c, m));
    lemma_rounded(n * c, d * c, m);
}

/// The quotient of two numbers does not notice that both are rescaled.
proof fn lemma_same_quotient(
    a: Binary64,
    b: Binary64,
    m: Binary64,
    w: Binary64,
    up: nat,
    down: nat,
)
    requires
        rescaled(a, b, up, down),
        rescaled(m, w, up, down),
        a.is_finite(),
        m.is_finite(),
        Binary64::zero().lt(m),
    ensures
        a.over(m) == b.over(w),
{
    reveal(Binary64::spec_over);
    let p = pow2(up);
    let q = pow2(down);
    let unit = pow2(UNIT_EXPONENT as nat);
    lemma_pow2_pos(up);
    lemma_pow2_pos(down);
    let (ua, ub) = (step_units(a.step()), step_units(b.step()));
    let (um, uw) = (step_units(m.step()), step_units(w.step()));
    lemma_units_positive(m.step());
    lemma_units_positive(w.step());
    assert(uw > 0) by (nonlinear_arith)
        requires
            uw * q == um * p,
            um > 0,
            p > 0,
    ;
    assert((ua * unit) * p == (ub * unit) * q) by (nonlinear_arith)
        requires
            ub * q == ua * p,
    ;
    lemma_rounded_multiple(ua * unit, um, p);
    lemma_rounded_multiple(ub * unit, uw, q);
}

/// Rescaling keeps the order of finite numbers, and zero.
proof fn lemma_same_order(
    a: Binary64,
    b: Binary64,
    m: Binary64,
    w: Binary64,
    up: nat,
    down: nat,
)
    requires
        rescaled(a, b, up, down),
        rescaled(m, w, up, down),
        a.is_finite(),
        m.is_finite(),
    ensures
        a.lt(m) <==> b.lt(w),
        Binary64::zero().lt(a) <==> Binary64::zero().lt(b),
{
    let p = pow2(up) as int;
    let q = pow2(down) as int;
    lemma_pow2_pos(up);
    lemma_pow2_pos(down);
    law_order_is_exact(a, m);
    law_order_is_exact(b, w);
    law_order_is_exact(Binary64::zero(), a);
    law_order_is_exact(Binary64::zero(), b);
    lemma_units_positive(0);
    let (ua, ub, um, uw) = (a.units(), b.units(), m.units(), w.units());
    assert(ub * q == ua * p) by (nonlinear_arith)
        requires
            step_units(b.step()) * q == step_units(a.step()) * p,
            ub == step_units(b.step()) && ua == step_units(a.step()) || ub == -step_units(b.step())
                && ua == -step_units(a.step()),
    ;
    assert(uw * q == um * p) by (nonlinear_arith)
        requires
            step_units(w.step()) * q == step_units(m.step()) * p,
            uw == step_units(w.step()) && um == step_units(m.step()) || uw == -step_units(w.step())
                && um == -step_units(m.step()),
    ;
    assert(ua < um <==> ua * p < um * p) by (nonlinear_arith)
        requires
            p > 0,
    ;
    assert(ub < uw <==> ub * q < uw * q) by (nonlinear_arith)
        requires
            q > 0,
    ;
    assert(0 < ua <==> 0 < ua * p) by (nonlinear_arith)
        requires
            p > 0,
    ;
    assert(0 < ub <==> 0 < ub * q) by (nonlinear_arith)
        requires
            q > 0,
    ;
}

proof fn lemma_same_use(a: SbplObs, b: SbplObs, up: nat, down: nat)
    requires
        rescaled_row(a, b, up, down),
    ensures
        usable(a) <==> usable(b),
{
    if a.flux_err.is_finite() {
        lemma_same_order(a.flux_err, b.flux_err, a.flux_err, b.flux_err, up, down);
    }
}

proof fn lemma_same_selection(a: Seq<SbplObs>, b: Seq<SbplObs>, up: nat, down: nat)
    requires
        rescaled_rows(a, b, up, down),
    ensures
        rescaled_rows(
            a.filter(|o: SbplObs| usable(o)),
            b.filter(|o: SbplObs| usable(o)),
            up,
            down,
        ),
    decreases a.len(),
{
    reveal(Seq::filter);
    if a.len() > 0 {
        let (x, y) = (a.drop_last(), b.drop_last());
        assert forall|i: int| 0 <= i < x.len() implies rescaled_row(
            #[trigger] x[i],
            y[i],
            up,
            down,
        ) by {
            assert(rescaled_row(a[i], b[i], up, down));
        }
        lemma_same_selection(x, y, up, down);
        assert(rescaled_row(a[a.len() - 1], b[a.len() - 1], up, down));
        lemma_same_use(a.last(), b.last(), up, down);
    }
}

proof fn lemma_same_rows(
    a: Map<Seq<char>, Series>,
    b: Map<Seq<char>, Series>,
    up: nat,
    down: nat,
    k: nat,
)
    requires
        rescaled_bands(a, b, up, down),
    ensures
        rescaled_rows(usable_rows(a, k), usable_rows(b, k), up, down),
        bands_present(a, k) == bands_present(b, k),
    decreases k,
{
    if k > 0 {
        lemma_same_rows(a, b, up, down, (k - 1) as nat);
        let name = known_names()[k - 1];
        if a.dom().contains(name) {
            let nu = frequency_of(name)->0;
            let (x, y) = (band_rows(a[name], nu), band_rows(b[name], nu));
            assert(rescaled_series(a[name], b[name], up, down));
            assert forall|i: int| 0 <= i < x.len() implies rescaled_row(
                #[trigger] x[i],
                y[i],
                up,
                down,
            ) by {
                assert(rescaled(a[name].fluxes[i], b[name].fluxes[i], up, down));
                assert(rescaled(a[name].flux_errs[i], b[name].flux_errs[i], up, down));
            }
            lemma_same_selection(x, y, up, down);
        }
    }
}

proof fn lemma_same_extent(a: Seq<SbplObs>, b: Seq<SbplObs>, up: nat, down: nat)
    requires
        rescaled_rows(a, b, up, down),
    ensures
        earliest(a) == earliest(b),
        latest(a) == latest(b),
    decreases a.len(),
{
    if a.len() > 0 {
        let (x, y) = (a.drop_last(), b.drop_last());
        assert forall|i: int| 0 <= i < x.len() implies rescaled_row(
            #[trigger] x[i],
            y[i],
            up,
            down,
        ) by {
            assert(rescaled_row(a[i], b[i], up, down));
        }
        lemma_same_extent(x, y, up, down);
        assert(rescaled_row(a[a.len() - 1], b[a.len() - 1], up, down));
    }
}

proof fn lemma_same_peak(a: Seq<SbplObs>, b: Seq<SbplObs>, up: nat, down: nat)
    requires
        rescaled_rows(a, b, up, down),
    ensures
        ({
            let none = Binary64 { bits: MINUS_INFINITY };
            let (x, y) = (brightest(a), brightest(b));
            ||| x == none && y == none
            ||| x.is_finite() && Binary64::zero().lt(x) && rescaled(x, y, up, down)
        }),
    decreases a.len(),
{
    if a.len() > 0 {
        let (x, y) = (a.drop_last(), b.drop_last());
        assert forall|i: int| 0 <= i < x.len() implies rescaled_row(
            #[trigger] x[i],
            y[i],
            up,
            down,
        ) by {
            assert(rescaled_row(a[i], b[i], up, down));
        }
        lemma_same_peak(x, y, up, down);
        assert(rescaled_row(a[a.len() - 1], b[a.len() - 1], up, down));
        let (p, q) = (a.last().flux, b.last().flux);
        if p.is_finite() {
            lemma_same_order(p, q, p, q, up, down);
            if brightest(x).is_finite() {
                lemma_same_order(brightest(x), brightest(y), p, q, up, down);
            }
        }
    }
}

/// Rescaling all fluxes and errors by one power of two changes nothing in a
/// prepared source but the largest flux, which is rescaled with them: the
/// normalised observations, the bounds and the random key stay the same. Some
/// usable observation must have a positive flux to normalise by.
pub proof fn law_flux_unit_does_not_matter(
    a: Map<Seq<char>, Series>,
    b: Map<Seq<char>, Series>,
    c: PsoConfig,
    up: nat,
    down: nat,
)
    requires
        rescaled_bands(a, b, up, down),
        prepared(a, c) is Ready,
        exists|i: int|
            0 <= i < usable_rows(a, N_KNOWN as nat).len() && Binary64::zero().lt(
                (#[trigger] usable_rows(a, N_KNOWN as nat)[i]).flux,
            ),
    ensures
        prepared(b, c) is Ready,
        ({
            let s = prepared(a, c)->Ready_0;
            let t = prepared(b, c)->Ready_0;
            &&& t == (Source { max_flux: t.max_flux, ..s })
            &&& rescaled(s.max_flux, t.max_flux, up, down)
        }),
{
    let k = N_KNOWN as nat;
    let (x, y) = (usable_rows(a, k), usable_rows(b, k));
    lemma_same_rows(a, b, up, down, k);
    lemma_same_extent(x, y, up, down);
    lemma_same_peak(x, y, up, down);
    lemma_positive_peak(a);
    if b == Map::<Seq<char>, Series>::empty() {
        assert(a.dom() =~= Set::<Seq<char>>::empty());
        assert(a =~= Map::<Seq<char>, Series>::empty());
    }
    let s = source_of(x, bands_present(a, k) as usize, c);
    let t = source_of(y, bands_present(b, k) as usize, c);
    let (m, w) = (brightest(x), brightest(y));
    lemma_same_order(m, w, m, w, up, down);
    assert(flux_unit(x) == m && flux_unit(y) == w);
    assert forall|i: int| 0 <= i < x.len() implies {
        &&& s.times[i] == #[trigger] t.times[i]
        &&& s.nu_scaled[i] == t.nu_scaled[i]
        &&& s.flux[i] == t.flux[i]
        &&& s.flux_err[i] == t.flux_err[i]
    } by {
        assert(rescaled_row(x[i], y[i], up, down));
        lemma_rows_are_usable(a, k);
        assert(usable(x[i]));
        lemma_same_quotient(x[i].flux, y[i].flux, m, w, up, down);
        lemma_same_quotient(x[i].flux_err, y[i].flux_err, m, w, up, down);
    }
    assert(s.times =~= t.times);
    assert(s.nu_scaled =~= t.nu_scaled) by {
        assert forall|i: int| 0 <= i < x.len() implies s.nu_scaled[i] == t.nu_scaled[i] by {
            assert(s.times[i] == t.times[i]);
        }
    }
    assert(s.flux =~= t.flux) by {
        assert forall|i: int| 0 <= i < x.len() implies s.flux[i] == t.flux[i] by {
            assert(s.times[i] == t.times[i]);
        }
    }
    assert(s.flux_err =~= t.flux_err) by {
        assert forall|i: int| 0 <= i < x.len() implies s.flux_err[i] == t.flux_err[i] by {
            assert(s.times[i] == t.times[i]);
        }
    }
}

/// Where some usable flux is positive, so is the largest.
proof fn lemma_positive_peak(bands: Map<Seq<char>, Series>)
    requires
        exists|i: int|
            0 <= i < usable_rows(bands, N_KNOWN as nat).len() && Binary64::zero().lt(
                (#[trigger] usable_rows(bands, N_KNOWN as nat)[i]).flux,
            ),
    ensures
        Binary64::zero().lt(brightest(usable_rows(bands, N_KNOWN as nat))),
{
    let rows = usable_rows(bands, N_KNOWN as nat);
    lemma_rows_are_usable(bands, N_KNOWN as nat);
    assert forall|i: int| 0 <= i < rows.len() implies (#[trigger] rows[i]).flux.is_finite() by {
        assert(usable(rows[i]));
    }
    law_largest_flux(rows);
}

} // verus!

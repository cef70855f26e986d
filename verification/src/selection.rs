//! What a prepared source is, told by the observations it is made of.
use crate::bands::{frequency_of, known_names, law_known_names_ascend, N_KNOWN};
use crate::binary64::{lemma_negated_units, Binary64};
use crate::cost::SbplObs;
use crate::fingerprint::{content_bytes, content_key, key_of, le_bytes};
use crate::light_curve::Series;
use crate::magnitude::law_difference_in_order;
use crate::numbers::{
    FIVE, HUNDREDTH, MINUS_FIVE, MINUS_TEN, MINUS_THREE, N_PARAMS, ONE, PETA, TEN, TEN_THOUSAND,
    TWO,
};
use crate::prepare::{
    band_rows, bands_present, earliest, latest, law_extent, law_largest_flux,
    law_reference_time, lemma_ready_span, lemma_rows_are_usable, prepared, usable, usable_rows,
};
use crate::source::{Prepared, PsoConfig, SbplResult};
use crate::text::{law_text_order, law_text_order_is_transitive, text_before};
use vstd::prelude::*;

verus! {

/// Search bounds of a source that is ready to fit, told by its own times. The span is
/// what lies between the reference time and a time that no other exceeds. Slopes are
/// searched as configured; the onset may precede the reference time by two spans and
/// is never later than it; the break time is searched up to ten spans, at most 10 000
/// days, from 1% of the span, or from 0.01 where that is more and below the end.
pub proof fn law_search_bounds(bands: Map<Seq<char>, Series>, c: PsoConfig, j: int)
    requires
        prepared(bands, c) is Ready,
        0 <= j < (prepared(bands, c)->Ready_0).times.len(),
        forall|i: int|
            0 <= i < (prepared(bands, c)->Ready_0).times.len() ==> (
            #[trigger] (prepared(bands, c)->Ready_0).times[i]).le(
                (prepared(bands, c)->Ready_0).times[j],
            ),
    ensures
        ({
            let s = prepared(bands, c)->Ready_0;
            let span = s.times[j].minus(s.t_ref);
            let part = Binary64 { bits: HUNDREDTH }.times(span);
            let least = Binary64 { bits: HUNDREDTH };
            let tenfold = Binary64 { bits: TEN }.times(span);
            let most = Binary64 { bits: TEN_THOUSAND };
            &&& s.lower.len() == N_PARAMS
            &&& s.upper.len() == N_PARAMS
            &&& s.lower[0] == c.alpha1_min
            &&& s.upper[0] == c.alpha1_max
            &&& s.lower[1] == c.alpha2_min
            &&& s.upper[1] == c.alpha2_max
            &&& s.lower[2] == (Binary64 { bits: MINUS_FIVE })
            &&& s.upper[2] == (Binary64 { bits: FIVE })
            &&& s.lower[3] == (Binary64 { bits: MINUS_THREE })
            &&& s.upper[3] == Binary64::zero()
            &&& s.lower[4] == (Binary64 { bits: MINUS_TEN })
            &&& s.upper[4] == (Binary64 { bits: TEN })
            &&& c.tb_upper is Some ==> s.upper[5] == c.tb_upper->0
            &&& c.tb_upper is None && most.lt(tenfold) ==> s.upper[5] == most
            &&& c.tb_upper is None && !most.lt(tenfold) ==> s.upper[5] == tenfold
            &&& c.tb_lower is Some ==> s.lower[5] == c.tb_lower->0
            &&& c.tb_lower is None && !part.lt(least) ==> s.lower[5] == part
            &&& c.tb_lower is None && part.lt(least) && least.lt(s.upper[5]) ==> s.lower[5] == least
            &&& c.tb_lower is None && part.lt(least) && !least.lt(s.upper[5]) ==> s.lower[5] == part
            &&& s.lower[6] == s.t_ref.minus(Binary64 { bits: TWO }.times(span))
            &&& s.upper[6] == s.t_ref
        }),
{
    let s = prepared(bands, c)->Ready_0;
    let rows = usable_rows(bands, N_KNOWN as nat);
    law_reference_time(bands, c);
    lemma_ready_span(bands, c);
    lemma_rows_are_usable(bands, N_KNOWN as nat);
    assert forall|i: int| 0 <= i < rows.len() implies (#[trigger] rows[i]).time.is_finite() by {
        assert(usable(rows[i]));
    }
    law_extent(rows);
    let b = choose|i: int| 0 <= i < rows.len() && (#[trigger] rows[i]).time == latest(rows);
    assert(s.times[b] == rows[b].time);
    assert(s.times[j] == rows[j].time);
    lemma_same_value_same_difference(s.times[j], latest(rows), s.t_ref);
    let span = s.times[j].minus(s.t_ref);
    crate::magnitude::law_results_are_numbers(s.times[j], s.t_ref);
    crate::binary64::law_signs_are_kept(Binary64 { bits: HUNDREDTH }, span);
    crate::binary64::law_signs_are_kept(Binary64 { bits: TEN }, span);
    lemma_multiples_are_numbers(Binary64 { bits: HUNDREDTH }, span);
    lemma_multiples_are_numbers(Binary64 { bits: TEN }, span);
}

/// A multiple of a number above zero by a finite number above zero is a number.
proof fn lemma_multiples_are_numbers(part: Binary64, span: Binary64)
    requires
        part.is_finite(),
        Binary64::zero().lt(part),
        Binary64::zero().lt(span),
    ensures
        !part.times(span).is_nan(),
{
    if span.is_finite() {
        crate::magnitude::law_results_are_numbers(part, span);
    } else {
        reveal(Binary64::spec_times);
    }
}

/// Two finite numbers of one value differ by the same from a third of another value.
proof fn lemma_same_value_same_difference(a: Binary64, b: Binary64, c: Binary64)
    requires
        a.is_finite(),
        b.is_finite(),
        c.is_finite(),
        a.same_value(b),
        c.lt(a),
    ensures
        a.minus(c) == b.minus(c),
{
    reveal(Binary64::spec_plus);
    lemma_negated_units(c);
    crate::binary64::law_order_is_exact(a, b);
    crate::binary64::law_order_is_exact(c, a);
}

/// What a source that is ready to fit holds: the usable observations of the 19 known
/// bands, their fluxes and errors divided by the largest positive flux (or by one,
/// without a positive flux), and a key of times, fluxes and errors.
pub proof fn law_source_holds_the_observations(bands: Map<Seq<char>, Series>, c: PsoConfig)
    requires
        prepared(bands, c) is Ready,
        usable_rows(bands, 19).len() <= usize::MAX,
        bands_present(bands, 19) <= usize::MAX,
    ensures
        ({
            let s = prepared(bands, c)->Ready_0;
            let rows = usable_rows(bands, 19);
            let some = exists|i: int|
                0 <= i < rows.len() && Binary64::zero().lt((#[trigger] rows[i]).flux);
            &&& s.n_obs == rows.len()
            &&& s.n_bands == bands_present(bands, 19)
            &&& s.times.len() == rows.len()
            &&& s.nu_scaled.len() == rows.len()
            &&& s.flux.len() == rows.len()
            &&& s.flux_err.len() == rows.len()
            &&& forall|i: int|
                0 <= i < rows.len() ==> {
                    let o = #[trigger] rows[i];
                    &&& s.times[i] == o.time
                    &&& s.nu_scaled[i] == o.nu_scaled
                    &&& s.flux[i] == o.flux.over(s.max_flux)
                    &&& s.flux_err[i] == o.flux_err.over(s.max_flux)
                    &&& some ==> o.flux.le(s.max_flux)
                }
            &&& some ==> exists|i: int|
                0 <= i < rows.len() && (#[trigger] rows[i]).flux == s.max_flux
            &&& !some ==> s.max_flux == (Binary64 { bits: ONE })
            &&& s.seed_key == content_key(s.times, s.flux, s.flux_err)
        }),
{
    let rows = usable_rows(bands, 19);
    lemma_rows_are_usable(bands, 19);
    assert forall|i: int| 0 <= i < rows.len() implies (#[trigger] rows[i]).flux.is_finite() by {
        assert(usable(rows[i]));
    }
    law_largest_flux(rows);
}

/// Whether a light curve can be fitted: none without bands; with bands, at least
/// seven usable observations, at least two known bands with an observation, and two
/// usable observations at different times. What cannot be fitted is told by its
/// counts alone.
pub proof fn law_when_a_source_is_ready(bands: Map<Seq<char>, Series>, c: PsoConfig)
    requires
        usable_rows(bands, 19).len() <= usize::MAX,
        bands_present(bands, 19) <= usize::MAX,
    ensures
        ({
            let rows = usable_rows(bands, 19);
            let none = bands == Map::<Seq<char>, Series>::empty();
            let apart = exists|i: int, j: int|
                0 <= i < rows.len() && 0 <= j < rows.len() && (#[trigger] rows[i]).time.lt(
                    (#[trigger] rows[j]).time,
                );
            &&& prepared(bands, c) is Empty <==> none
            &&& prepared(bands, c) is Ready <==> !none && rows.len() >= 7 && bands_present(bands, 19)
                >= 2 && apart
            &&& prepared(bands, c) matches Prepared::Unfittable(r) ==> r == SbplResult::empty(
                rows.len() as usize,
                bands_present(bands, 19) as usize,
            )
        }),
{
    let rows = usable_rows(bands, 19);
    lemma_rows_are_usable(bands, 19);
    assert forall|i: int| 0 <= i < rows.len() implies (#[trigger] rows[i]).time.is_finite() by {
        assert(usable(rows[i]));
    }
    if rows.len() > 0 {
        law_extent(rows);
        let a = choose|i: int| 0 <= i < rows.len() && (#[trigger] rows[i]).time == earliest(rows);
        let b = choose|i: int| 0 <= i < rows.len() && (#[trigger] rows[i]).time == latest(rows);
        crate::magnitude::law_results_are_numbers(rows[b].time, rows[a].time);
        if rows[a].time.lt(rows[b].time) {
            law_difference_in_order(rows[a].time, rows[b].time);
        } else if Binary64::zero().lt(rows[b].time.minus(rows[a].time)) {
            crate::binary64::law_positive_difference(rows[b].time, rows[a].time);
        }
        assert forall|i: int, j: int|
            0 <= i < rows.len() && 0 <= j < rows.len() && (#[trigger] rows[i]).time.lt(
                (#[trigger] rows[j]).time,
            ) implies rows[a].time.lt(rows[b].time) by {}
    }
}

/// The known names are all different.
proof fn lemma_known_names_differ(i: int, j: int)
    requires
        0 <= i < j < N_KNOWN,
    ensures
        text_before(known_names()[i], known_names()[j]),
        known_names()[i] != known_names()[j],
    decreases j,
{
    law_known_names_ascend(j - 1);
    if i < j - 1 {
        lemma_known_names_differ(i, j - 1);
        law_text_order_is_transitive(
            known_names()[i],
            known_names()[j - 1],
            known_names()[j],
        );
    }
    law_text_order(known_names()[i], known_names()[i]);
}

/// Rows of later bands do not show among those of the first `k`.
proof fn lemma_later_bands(bands: Map<Seq<char>, Series>, more: Map<Seq<char>, Series>, k: nat)
    requires
        k <= N_KNOWN,
        forall|i: int|
            0 <= i < k ==> {
                let name = #[trigger] known_names()[i];
                &&& bands.dom().contains(name) <==> more.dom().contains(name)
                &&& bands[name] == more[name]
            },
    ensures
        usable_rows(more, k) == usable_rows(bands, k),
        bands_present(more, k) == bands_present(bands, k),
    decreases k,
{
    if k > 0 {
        lemma_later_bands(bands, more, (k - 1) as nat);
        assert(known_names()[k - 1] == known_names()[k - 1]);
    }
}

/// Which observations are used, and in what order. The known bands are gone through
/// in ascending order of their names, and a band that is absent or has no row adds
/// nothing. Where a row is appended to a band, the usable rows up to that band get it
/// at their end, with the band's frequency in units of 1e15 Hz, if it is finite
/// throughout and its error above zero; if not, they stay as they are. A band counts
/// from its first row on.
pub proof fn law_rows_band_by_band(
    bands: Map<Seq<char>, Series>,
    k: int,
    time: Binary64,
    flux: Binary64,
    flux_err: Binary64,
)
    requires
        0 <= k < 19,
        bands.dom().contains(known_names()[k]) ==> bands[known_names()[k]].fluxes.len()
            == bands[known_names()[k]].times.len() && bands[known_names()[k]].flux_errs.len()
            == bands[known_names()[k]].times.len(),
    ensures
        usable_rows(bands, 0).len() == 0,
        bands_present(bands, 0) == 0,
        ({
            let name = known_names()[k];
            !bands.dom().contains(name) || bands[name].times.len() == 0 ==> {
                &&& usable_rows(bands, (k + 1) as nat) == usable_rows(bands, k as nat)
                &&& bands_present(bands, (k + 1) as nat) == bands_present(bands, k as nat)
            }
        }),
        ({
            let name = known_names()[k];
            let s = bands[name];
            let more = bands.insert(
                name,
                (Series {
                    times: s.times.push(time),
                    fluxes: s.fluxes.push(flux),
                    flux_errs: s.flux_errs.push(flux_err),
                }),
            );
            let fits = time.is_finite() && flux.is_finite() && flux_err.is_finite()
                && Binary64::zero().lt(flux_err);
            let row = SbplObs {
                time,
                nu_scaled: (frequency_of(name)->0).over(Binary64 { bits: PETA }),
                flux,
                flux_err,
            };
            bands.dom().contains(name) ==> {
                &&& usable_rows(more, k as nat) == usable_rows(bands, k as nat)
                &&& bands_present(more, k as nat) == bands_present(bands, k as nat)
                &&& fits ==> usable_rows(more, (k + 1) as nat) == usable_rows(
                    bands,
                    (k + 1) as nat,
                ).push(row)
                &&& !fits ==> usable_rows(more, (k + 1) as nat) == usable_rows(
                    bands,
                    (k + 1) as nat,
                )
                &&& bands_present(more, (k + 1) as nat) == bands_present(bands, k as nat) + 1
            }
        }),
{
    reveal(Seq::filter);
    let name = known_names()[k];
    let nu = frequency_of(name)->0;
    let test = |o: SbplObs| usable(o);
    if bands.dom().contains(name) {
        let s = bands[name];
        let longer = Series {
            times: s.times.push(time),
            fluxes: s.fluxes.push(flux),
            flux_errs: s.flux_errs.push(flux_err),
        };
        let more = bands.insert(name, longer);
        assert forall|i: int| 0 <= i < k implies {
            let other = #[trigger] known_names()[i];
            &&& bands.dom().contains(other) <==> more.dom().contains(other)
            &&& bands[other] == more[other]
        } by {
            lemma_known_names_differ(i, k);
        }
        lemma_later_bands(bands, more, k as nat);
        let before = usable_rows(bands, k as nat);
        let all = band_rows(s, nu);
        let row = SbplObs { time, nu_scaled: nu.over(Binary64 { bits: PETA }), flux, flux_err };
        assert(band_rows(longer, nu) =~= all.push(row));
        assert(all.push(row).drop_last() =~= all);
        assert(before + all.filter(test).push(row) =~= (before + all.filter(test)).push(row));
        if s.times.len() == 0 {
            assert(all =~= seq![]);
            assert(before + all.filter(test) =~= before);
        }
    }
}

/// The key of a light curve is 64-bit FNV-1a: it starts from the offset basis, and
/// each byte is mixed in by exclusive or and a wrapping multiplication by the prime.
pub proof fn law_key_mixes_bytes(bytes: Seq<u8>, b: u8)
    ensures
        key_of(seq![]) == 0xcbf2_9ce4_8422_2325u64,
        key_of(bytes.push(b)) == ((key_of(bytes) ^ (b as u64)) * 0x100_0000_01b3)
            % 0x1_0000_0000_0000_0000,
{
    assert(bytes.push(b).drop_last() =~= bytes);
}

/// The bytes that a key is made of: the number of observations, then, observation by
/// observation, time, flux and error, eight bytes each, least significant first.
pub proof fn law_key_reads_every_number(
    times: Seq<Binary64>,
    flux: Seq<Binary64>,
    flux_err: Seq<Binary64>,
    n: nat,
)
    requires
        times.len() <= u64::MAX,
    ensures
        content_key(times, flux, flux_err) == key_of(
            content_bytes(times, flux, flux_err, times.len()),
        ),
        content_bytes(times, flux, flux_err, n).len() == 8 + 24 * n,
        forall|k: int|
            0 <= k < 8 ==> #[trigger] content_bytes(times, flux, flux_err, n)[k] == (
            times.len() as u64 >> ((8 * k) as u64)) & 0xff,
        forall|i: int, k: int|
            0 <= i < n && 0 <= k < 8 ==> {
                let bytes = content_bytes(times, flux, flux_err, n);
                &&& bytes[8 + 24 * i + k] == (#[trigger] times[i].bits >> #[trigger] ((8
                    * k) as u64)) & 0xff
                &&& bytes[16 + 24 * i + k] == (flux[i].bits >> ((8 * k) as u64)) & 0xff
                &&& bytes[24 + 24 * i + k] == (flux_err[i].bits >> ((8 * k) as u64)) & 0xff
            },
    decreases n,
{
    if n == 0 {
        assert forall|k: int| 0 <= k < 8 implies #[trigger] content_bytes(
            times,
            flux,
            flux_err,
            n,
        )[k] == (times.len() as u64 >> ((8 * k) as u64)) & 0xff by {
            lemma_low_byte(times.len() as u64 >> ((8 * k) as u64));
        }
    } else {
        let m = (n - 1) as nat;
        law_key_reads_every_number(times, flux, flux_err, m);
        let before = content_bytes(times, flux, flux_err, m);
        let bytes = content_bytes(times, flux, flux_err, n);
        assert forall|k: int| 0 <= k < 8 implies #[trigger] bytes[k] == (times.len() as u64 >> ((8
            * k) as u64)) & 0xff by {
            assert(bytes[k] == before[k]);
        }
        assert forall|i: int, k: int| 0 <= i < n && 0 <= k < 8 implies {
            &&& bytes[8 + 24 * i + k] == (#[trigger] times[i].bits >> #[trigger] ((8 * k) as u64))
                & 0xff
            &&& bytes[16 + 24 * i + k] == (flux[i].bits >> ((8 * k) as u64)) & 0xff
            &&& bytes[24 + 24 * i + k] == (flux_err[i].bits >> ((8 * k) as u64)) & 0xff
        } by {
            if i < m {
                assert(bytes[8 + 24 * i + k] == before[8 + 24 * i + k]);
                assert(bytes[16 + 24 * i + k] == before[16 + 24 * i + k]);
                assert(bytes[24 + 24 * i + k] == before[24 + 24 * i + k]);
                assert(times[i].bits >> ((8 * k) as u64) == times[i].bits >> ((8 * k) as u64));
            } else {
                let shift = (8 * k) as u64;
                lemma_low_byte(times[i].bits >> shift);
                lemma_low_byte(flux[i].bits >> shift);
                lemma_low_byte(flux_err[i].bits >> shift);
                assert(bytes[8 + 24 * i + k] == le_bytes(times[i].bits)[k]);
                assert(bytes[16 + 24 * i + k] == le_bytes(flux[i].bits)[k]);
                assert(bytes[24 + 24 * i + k] == le_bytes(flux_err[i].bits)[k]);
            }
        }
    }
}

/// The low byte of a number.
proof fn lemma_low_byte(v: u64)
    ensures
        (#[verifier::truncate] (v as u8)) == v & 0xff,
{
    assert((v as u8) == v & 0xff) by (bit_vector);
}

/// There are 19 known names.
pub proof fn law_known_names_are_nineteen()
    ensures
        known_names().len() == 19,
{
}

/// Fluxes and errors beyond the last time of a band do not show.
pub proof fn law_only_timed_rows_show(
    bands: Map<Seq<char>, Series>,
    name: Seq<char>,
    fluxes: Seq<Binary64>,
    flux_errs: Seq<Binary64>,
    k: nat,
)
    requires
        k <= 19,
        bands.dom().contains(name),
        bands[name].fluxes.len() >= bands[name].times.len(),
        bands[name].flux_errs.len() >= bands[name].times.len(),
    ensures
        ({
            let s = bands[name];
            let more = bands.insert(
                name,
                (Series {
                    times: s.times,
                    fluxes: s.fluxes + fluxes,
                    flux_errs: s.flux_errs + flux_errs,
                }),
            );
            &&& usable_rows(more, k) == usable_rows(bands, k)
            &&& bands_present(more, k) == bands_present(bands, k)
        }),
    decreases k,
{
    if k > 0 {
        law_only_timed_rows_show(bands, name, fluxes, flux_errs, (k - 1) as nat);
        if known_names()[k - 1] == name {
            let s = bands[name];
            let longer = Series {
                times: s.times,
                fluxes: s.fluxes + fluxes,
                flux_errs: s.flux_errs + flux_errs,
            };
            let nu = frequency_of(name)->0;
            assert(band_rows(longer, nu) =~= band_rows(s, nu));
        }
    }
}

} // verus!

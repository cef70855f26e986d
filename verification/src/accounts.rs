//! What benchmarks, devices and reports are given, told item by item.
use crate::bench::{
    ascending, flag_place, flag_value, is_summary, names_directory, reported, standing, standings,
    total, Standing,
};
use crate::binary64::Binary64;
use crate::device::{
    blocks_for, fluxes, joined, log_frequencies, relative_times, squared_errors, start_of, BLOCK,
    LANES,
};
use crate::elementary::Elementary;
use crate::fit::restarts_of;
use crate::light_curve::{all_seen, Obs};
use crate::lineup::{ready_before, Slot};
use crate::numbers::ONE_PERCENT_MORE;
use crate::report::{error_names, error_values, parameter_names, parameter_values};
use crate::source::{SbplResult, Source};
use crate::table::texts;
use crate::text::{text_before, unsigned_value};
use vstd::prelude::*;

verus! {

/// The number behind a flag is that behind its first use: whatever follows does not
/// matter. A flag that is not used, or used last, has none.
pub proof fn law_number_behind_a_flag(
    before: Seq<Seq<char>>,
    flag: Seq<char>,
    value: Seq<char>,
    after: Seq<Seq<char>>,
)
    requires
        forall|i: int| 0 <= i < before.len() ==> #[trigger] before[i] != flag,
    ensures
        flag_value(before + seq![flag, value] + after, flag) == unsigned_value(
            value,
            usize::MAX as nat,
        ),
        flag_value(before, flag) is None,
        flag_value(before.push(flag), flag) is None,
{
    let all = before + seq![flag, value] + after;
    let n = before.len() as int;
    assert(all[n] == flag);
    assert(all[n + 1] == value);
    assert forall|j: int| 0 <= j < n implies #[trigger] all[j] != flag by {
        assert(all[j] == before[j]);
    }
    assert(flag_place(all, flag, n));
    let k = choose|k: int| flag_place(all, flag, k);
    assert(flag_place(all, flag, k));
    if k < n {
        assert(all[k] != flag);
    } else if n < k {
        assert(all[n] != flag);
    }
    if exists|i: int| flag_place(before, flag, i) {
        let i = choose|i: int| flag_place(before, flag, i);
        assert(before[i] != flag);
    }
    let last = before.push(flag);
    if exists|i: int| flag_place(last, flag, i) {
        let i = choose|i: int| flag_place(last, flag, i);
        assert(last[i] == before[i]);
        assert(before[i] != flag);
    }
}

/// An argument names a directory unless it starts with two dashes or is a number.
pub proof fn law_arguments_that_name_a_directory(s: Seq<char>)
    ensures
        names_directory(s) <==> !(s.len() >= 2 && s[0] == '-' && s[1] == '-') && unsigned_value(
            s,
            usize::MAX as nat,
        ) is None,
{
}

/// The reduced chi-squareds of results, in order, without those that have none.
pub proof fn law_reported_one_by_one(results: Seq<SbplResult>, r: SbplResult)
    ensures
        reported(seq![]).len() == 0,
        r.reduced_chi2 is None ==> reported(results.push(r)) == reported(results),
        r.reduced_chi2 matches Some(v) ==> reported(results.push(r)) == reported(results).push(v),
{
    assert(results.push(r).drop_last() =~= results);
}

/// A summary: the number of values, the sum of the values in ascending order over their
/// number, and the value in the middle, the upper of two. Without values the latter two
/// are not-a-number.
pub proof fn law_summary(
    values: Seq<Binary64>,
    sorted: Seq<Binary64>,
    r: (usize, Binary64, Binary64),
    sums: Seq<Binary64>,
)
    requires
        is_summary(values, sorted, r),
        sums[0] == Binary64::zero(),
        forall|i: int| 0 <= i < sorted.len() ==> sums[i + 1] == sums[i].plus(#[trigger] sorted[i]),
    ensures
        sorted.to_multiset() == values.to_multiset(),
        forall|i: int, j: int|
            0 <= i < j < sorted.len() ==> !(#[trigger] sorted[j]).lt(#[trigger] sorted[i]),
        sorted.len() == values.len(),
        r.0 == values.len(),
        values.len() == 0 ==> r.1.is_nan() && r.2.is_nan(),
        values.len() > 0 ==> r.1 == sums[values.len() as int].over(
            Binary64::of_count(values.len() as u64),
        ),
        values.len() > 0 ==> r.2 == sorted[values.len() as int / 2],
{
    lemma_total(sorted, sums, sorted.len());
    assert(sorted.subrange(0, sorted.len() as int) =~= sorted);
}

proof fn lemma_total(v: Seq<Binary64>, sums: Seq<Binary64>, n: nat)
    requires
        n <= v.len(),
        sums[0] == Binary64::zero(),
        forall|i: int| 0 <= i < v.len() ==> sums[i + 1] == sums[i].plus(#[trigger] v[i]),
    ensures
        total(v.subrange(0, n as int)) == sums[n as int],
    decreases n,
{
    if n > 0 {
        lemma_total(v, sums, (n - 1) as nat);
        let part = v.subrange(0, n as int);
        assert(part.drop_last() =~= v.subrange(0, n - 1));
        assert(part.last() == v[n - 1]);
        assert(sums[n - 1 + 1] == sums[n - 1].plus(v[n - 1]));
    }
}

/// A fit stands better than another if its reduced chi-squared is no greater, close if
/// it is greater, but no greater than 1.01 times the other, and worse else, also where
/// either has none. Standings are counted pair by pair.
pub proof fn law_standings(
    a: Seq<SbplResult>,
    b: Seq<SbplResult>,
    wanted: Standing,
    n: nat,
)
    ensures
        ({
            let x = a[n as int].reduced_chi2;
            let y = b[n as int].reduced_chi2;
            let both = x is Some && y is Some;
            let better = both && (x->0).le(y->0);
            let close = both && !better && (x->0).le(
                (y->0).times(Binary64 { bits: ONE_PERCENT_MORE }),
            );
            let this = if better {
                Standing::Better
            } else if close {
                Standing::Close
            } else {
                Standing::Worse
            };
            &&& standing(a[n as int], b[n as int]) == this
            &&& standings(a, b, wanted, 0) == 0
            &&& standings(a, b, wanted, n + 1) == standings(a, b, wanted, n) + if this == wanted {
                1int
            } else {
                0
            }
        }),
{
}

/// What a device gets of a source: times since the reference time, decimal logarithms
/// of the frequencies, fluxes, and squared errors, one of each per observation.
pub proof fn law_columns_of_a_source(s: Source, f: spec_fn(Elementary) -> Binary64)
    ensures
        relative_times(s).len() == s.times.len(),
        log_frequencies(s, f).len() == s.times.len(),
        fluxes(s).len() == s.times.len(),
        squared_errors(s).len() == s.times.len(),
        forall|i: int|
            0 <= i < s.times.len() ==> #[trigger] relative_times(s)[i] == s.times[i].minus(s.t_ref),
        forall|i: int|
            0 <= i < s.times.len() ==> #[trigger] log_frequencies(s, f)[i] == f(
                Elementary::Log10(s.nu_scaled[i]),
            ),
        forall|i: int| 0 <= i < s.times.len() ==> #[trigger] fluxes(s)[i] == s.flux[i],
        forall|i: int|
            0 <= i < s.times.len() ==> #[trigger] squared_errors(s)[i] == s.flux_err[i].times(
                s.flux_err[i],
            ),
{
}

/// The columns of a batch are those of its sources, one after another, and the
/// observations of each source start where those of the one before it end.
pub proof fn law_columns_are_joined_one_by_one(
    parts: Seq<Seq<Binary64>>,
    one: Seq<Binary64>,
    sources: Seq<Source>,
    s: int,
)
    requires
        0 <= s < sources.len(),
    ensures
        joined(seq![]).len() == 0,
        joined(parts.push(one)) == joined(parts) + one,
        start_of(sources, 0) == 0,
        start_of(sources, s + 1) == start_of(sources, s) + sources[s].times.len(),
{
    assert(parts.push(one).drop_last() =~= parts);
    let first = sources.subrange(0, s + 1).map_values(|x: Source| relative_times(x));
    assert(first.drop_last() =~= sources.subrange(0, s).map_values(|x: Source| relative_times(x)));
    assert(first.last() == relative_times(sources[s]));
}

/// A block holds 256 threads, of which 32 share a particle; blocks are as many as are
/// needed, and at least one.
pub proof fn law_blocks(threads: nat)
    ensures
        BLOCK == 256,
        LANES == 32,
        blocks_for(0) == 1,
        256 * blocks_for(threads) >= threads,
        threads > 0 ==> 256 * (blocks_for(threads) - 1) < threads,
{
}

/// The names under which a result is reported, and what stands under each.
pub proof fn law_reported_names(r: SbplResult)
    ensures
        parameter_names() == seq!["alpha1"@, "alpha2"@, "beta"@, "logd"@, "loga"@, "tb"@, "t0"@],
        parameter_values(r) == seq![r.alpha1, r.alpha2, r.beta, r.logd, r.loga, r.tb, r.t0],
        error_names() == seq![
            "alpha1_err"@,
            "alpha2_err"@,
            "beta_err"@,
            "logd_err"@,
            "loga_err"@,
            "tb_err"@,
            "t0_err"@,
        ],
        error_values(r) == seq![
            r.alpha1_err,
            r.alpha2_err,
            r.beta_err,
            r.logd_err,
            r.loga_err,
            r.tb_err,
            r.t0_err,
        ],
{
}

/// The inputs in a batch are counted one by one.
pub proof fn law_inputs_are_counted(slots: Seq<Slot>, n: nat)
    ensures
        ready_before(slots, 0) == 0,
        slots[n as int] is Ready ==> ready_before(slots, n + 1) == ready_before(slots, n) + 1,
        slots[n as int] is Rejected ==> ready_before(slots, n + 1) == ready_before(slots, n),
{
}

/// Names in ascending order: none comes before an earlier one.
pub proof fn law_names_ascend(names: Seq<Seq<char>>, i: int, j: int)
    requires
        crate::survey::ascending(names),
        0 <= i < j < names.len(),
    ensures
        !text_before(names[j], names[i]),
{
}

/// Observations, texts and restarts are taken as they stand, in order.
pub proof fn law_values_are_in_order(
    obs: Seq<Obs>,
    cells: Seq<String>,
    restarts: Seq<(Vec<Binary64>, Binary64)>,
    i: int,
)
    ensures
        all_seen(obs).len() == obs.len(),
        texts(cells).len() == cells.len(),
        restarts_of(restarts).len() == restarts.len(),
        0 <= i < obs.len() ==> {
            let o = all_seen(obs)[i];
            &&& o.time == obs[i].time && o.flux == obs[i].flux
            &&& o.flux_err == obs[i].flux_err && o.band == obs[i].band@
        },
        0 <= i < cells.len() ==> texts(cells)[i] == cells[i]@,
        0 <= i < restarts.len() ==> restarts_of(restarts)[i] == (restarts[i].0@, restarts[i].1),
{
}

} // verus!

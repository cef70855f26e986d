//! What a device needs to know of a batch: packed observations, the shape of a
//! launch, and the shape of its arguments.
use crate::binary64::Binary64;
use crate::elementary::{answers, ask, is_function, Elementary};
use crate::numbers::N_PARAMS;
use crate::source::{PreparedSource, Source};
use crate::survey::SourceData;
use crate::text::{decimal, decimal_text};
use vstd::prelude::*;
use vstd::string::*;

verus! {

/// The rows of several sources, one after another.
pub open spec fn joined(parts: Seq<Seq<Binary64>>) -> Seq<Binary64>
    decreases parts.len(),
{
    if parts.len() == 0 {
        seq![]
    } else {
        joined(parts.drop_last()) + parts.last()
    }
}

/// Observation times relative to the reference time.
pub open spec fn relative_times(s: Source) -> Seq<Binary64> {
    s.times.map_values(|t: Binary64| t.minus(s.t_ref))
}

/// Decimal logarithms of the scaled frequencies.
pub open spec fn log_frequencies(s: Source, f: spec_fn(Elementary) -> Binary64) -> Seq<Binary64> {
    Seq::new(s.times.len(), |i: int| f(Elementary::Log10(s.nu_scaled[i])))
}

/// Fluxes of the observations.
pub open spec fn fluxes(s: Source) -> Seq<Binary64> {
    Seq::new(s.times.len(), |i: int| s.flux[i])
}

/// Squared errors of the observations.
pub open spec fn squared_errors(s: Source) -> Seq<Binary64> {
    Seq::new(s.times.len(), |i: int| s.flux_err[i].times(s.flux_err[i]))
}

/// The observations of a batch, packed source by source. The observations of
/// source `s` stand from `offsets[s]` up to `offsets[s + 1]`.
#[derive(Debug)]
pub struct PackedBatch {
    /// Times relative to each source's reference time.
    pub times: Vec<Binary64>,
    /// Decimal logarithms of the frequencies, in units of 1e15 Hz.
    pub log10_nu: Vec<Binary64>,
    pub flux: Vec<Binary64>,
    pub flux_err_sq: Vec<Binary64>,
    pub offsets: Vec<i32>,
    /// The sources' preparations, in batch order.
    pub preps: Vec<PreparedSource>,
    /// The sources' names, in batch order.
    pub names: Vec<String>,
}

/// The first sources of a batch.
pub open spec fn batch_sources(sources: Seq<SourceData>) -> Seq<Source> {
    sources.map_values(|s: SourceData| s.prepared@)
}

/// Where the observations of source `s` start.
pub open spec fn start_of(sources: Seq<Source>, s: int) -> nat {
    joined(sources.subrange(0, s).map_values(|x: Source| relative_times(x))).len()
}

/// Packs the observations of a batch.
pub fn pack_sources<M: Fn(Elementary) -> Binary64>(sources: &Vec<SourceData>, math: &M) -> (r:
    PackedBatch)
    requires
        forall|s: int| 0 <= s < sources.len() ==> (#[trigger] sources@[s]).prepared@.complete(),
        is_function(*math),
    ensures
        ({
            let all = batch_sources(sources@);
            let f = answers(*math);
            &&& r.times@ == joined(all.map_values(|x: Source| relative_times(x)))
            &&& r.log10_nu@ == joined(all.map_values(|x: Source| log_frequencies(x, f)))
            &&& r.flux@ == joined(all.map_values(|x: Source| fluxes(x)))
            &&& r.flux_err_sq@ == joined(all.map_values(|x: Source| squared_errors(x)))
            &&& r.offsets@ == Seq::new(
                all.len() + 1,
                |s: int| #[verifier::truncate] (start_of(all, s) as i32),
            )
            &&& r.preps@.map_values(|p: PreparedSource| p@) == all
            &&& r.names@.map_values(|n: String| n@) == sources@.map_values(
                |s: SourceData| s.name@,
            )
        }),
{
    let ghost all = batch_sources(sources@);
    let ghost f = answers(*math);
    let ghost t = |x: Source| relative_times(x);
    let ghost n = |x: Source| log_frequencies(x, f);
    let ghost l = |x: Source| fluxes(x);
    let ghost e = |x: Source| squared_errors(x);
    let mut times: Vec<Binary64> = Vec::new();
    let mut log10_nu: Vec<Binary64> = Vec::new();
    let mut flux: Vec<Binary64> = Vec::new();
    let mut flux_err_sq: Vec<Binary64> = Vec::new();
    let mut offsets: Vec<i32> = Vec::new();
    let mut preps: Vec<PreparedSource> = Vec::new();
    let mut names: Vec<String> = Vec::new();
    offsets.push(0);
    let mut k: usize = 0;
    proof {
        assert(all.subrange(0, 0).map_values(t) =~= seq![]);
        assert(all.subrange(0, 0).map_values(n) =~= seq![]);
        assert(all.subrange(0, 0).map_values(l) =~= seq![]);
        assert(all.subrange(0, 0).map_values(e) =~= seq![]);
        assert(preps@.map_values(|p: PreparedSource| p@) =~= all.subrange(0, 0));
        assert(names@.map_values(|n: String| n@) =~= sources@.subrange(0, 0).map_values(
            |s: SourceData| s.name@,
        ));
        assert(start_of(all, 0) == 0);
    }
    while k < sources.len()
        invariant
            k <= sources.len(),
            forall|s: int| 0 <= s < sources.len() ==> (#[trigger] sources@[s]).prepared@.complete(),
            is_function(*math),
            all == batch_sources(sources@),
            f == answers(*math),
            t == (|x: Source| relative_times(x)),
            n == (|x: Source| log_frequencies(x, f)),
            l == (|x: Source| fluxes(x)),
            e == (|x: Source| squared_errors(x)),
            times@ == joined(all.subrange(0, k as int).map_values(t)),
            log10_nu@ == joined(all.subrange(0, k as int).map_values(n)),
            flux@ == joined(all.subrange(0, k as int).map_values(l)),
            flux_err_sq@ == joined(all.subrange(0, k as int).map_values(e)),
            offsets.len() == k + 1,
            forall|s: int|
                0 <= s <= k ==> #[trigger] offsets@[s] == (#[verifier::truncate] (start_of(
                    all,
                    s,
                ) as i32)),
            preps@.map_values(|p: PreparedSource| p@) == all.subrange(0, k as int),
            names@.map_values(|n: String| n@) == sources@.subrange(0, k as int).map_values(
                |s: SourceData| s.name@,
            ),
        decreases sources.len() - k,
    {
        let p: &PreparedSource = &sources[k].prepared;
        assert(sources@[k as int].prepared@.complete());
        let ghost before = (times@, log10_nu@, flux@, flux_err_sq@);
        let mut i: usize = 0;
        while i < p.times.len()
            invariant
                i <= p.times.len(),
                p@.complete(),
                is_function(*math),
                f == answers(*math),
                times@ == before.0 + relative_times(p@).subrange(0, i as int),
                log10_nu@ == before.1 + log_frequencies(p@, f).subrange(0, i as int),
                flux@ == before.2 + fluxes(p@).subrange(0, i as int),
                flux_err_sq@ == before.3 + squared_errors(p@).subrange(0, i as int),
            decreases p.times.len() - i,
        {
            times.push(p.times[i].minus(p.t_ref));
            log10_nu.push(ask(math, Elementary::Log10(p.nu_scaled[i])));
            flux.push(p.flux[i]);
            flux_err_sq.push(p.flux_err[i].times(p.flux_err[i]));
            i += 1;
            assert(times@ =~= before.0 + relative_times(p@).subrange(0, i as int));
            assert(log10_nu@ =~= before.1 + log_frequencies(p@, f).subrange(0, i as int));
            assert(flux@ =~= before.2 + fluxes(p@).subrange(0, i as int));
            assert(flux_err_sq@ =~= before.3 + squared_errors(p@).subrange(0, i as int));
        }
        offsets.push(#[verifier::truncate] (times.len() as i32));
        preps.push(p.clone());
        let ghost named = names@;
        let name: String = sources[k].name.clone();
        names.push(name);
        proof {
            let more = all.subrange(0, k + 1);
            assert(more.drop_last() =~= all.subrange(0, k as int));
            assert(more.map_values(t).drop_last() =~= all.subrange(0, k as int).map_values(t));
            assert(more.map_values(n).drop_last() =~= all.subrange(0, k as int).map_values(n));
            assert(more.map_values(l).drop_last() =~= all.subrange(0, k as int).map_values(l));
            assert(more.map_values(e).drop_last() =~= all.subrange(0, k as int).map_values(e));
            let m = p.times.len() as int;
            assert(relative_times(p@).subrange(0, m) =~= relative_times(p@));
            assert(log_frequencies(p@, f).subrange(0, m) =~= log_frequencies(p@, f));
            assert(fluxes(p@).subrange(0, m) =~= fluxes(p@));
            assert(squared_errors(p@).subrange(0, m) =~= squared_errors(p@));
            assert(preps@.map_values(|p: PreparedSource| p@) =~= more);
            assert(names@.map_values(|n: String| n@) =~= named.map_values(|n: String| n@).push(
                name@,
            ));
            assert(sources@.subrange(0, k + 1).map_values(|s: SourceData| s.name@)
                =~= sources@.subrange(0, k as int).map_values(|s: SourceData| s.name@).push(
                name@,
            ));
            assert(start_of(all, k + 1) == times.len());
        }
        k += 1;
    }
    proof {
        assert(all.subrange(0, sources.len() as int) =~= all);
        assert(sources@.subrange(0, sources.len() as int) =~= sources@);
        assert(offsets@ =~= Seq::new(
            all.len() + 1,
            |s: int| #[verifier::truncate] (start_of(all, s) as i32),
        ));
    }
    PackedBatch { times, log10_nu, flux, flux_err_sq, offsets, preps, names }
}

/// A column of a batch with one number per observation.
spec fn is_column(column: spec_fn(Source) -> Seq<Binary64>) -> bool {
    forall|x: Source| (#[trigger] column(x)).len() == x.times.len()
}

/// All columns of a batch are equally long.
proof fn lemma_columns_are_even(sources: Seq<Source>, column: spec_fn(Source) -> Seq<Binary64>)
    requires
        is_column(column),
    ensures
        joined(sources.map_values(column)).len() == joined(
            sources.map_values(|x: Source| relative_times(x)),
        ).len(),
    decreases sources.len(),
{
    let t = |x: Source| relative_times(x);
    if sources.len() > 0 {
        let before = sources.drop_last();
        lemma_columns_are_even(before, column);
        assert(sources.map_values(column).drop_last() =~= before.map_values(column));
        assert(sources.map_values(t).drop_last() =~= before.map_values(t));
        assert(column(sources.last()).len() == sources.last().times.len());
    }
}

proof fn lemma_slice_of_column(
    sources: Seq<Source>,
    column: spec_fn(Source) -> Seq<Binary64>,
    s: int,
)
    requires
        0 <= s < sources.len(),
        is_column(column),
    ensures
        start_of(sources, s + 1) == start_of(sources, s) + sources[s].times.len(),
        start_of(sources, s + 1) <= joined(sources.map_values(column)).len(),
        joined(sources.map_values(column)).subrange(
            start_of(sources, s) as int,
            start_of(sources, s + 1) as int,
        ) == column(sources[s]),
    decreases sources.len(),
{
    let t = |x: Source| relative_times(x);
    let upto = sources.subrange(0, s + 1).map_values(t);
    assert(upto.drop_last() =~= sources.subrange(0, s).map_values(t));
    assert(upto.last() == relative_times(sources[s]));
    let (from, to) = (start_of(sources, s) as int, start_of(sources, s + 1) as int);
    let all = sources.map_values(column);
    let before = sources.drop_last();
    assert(all.drop_last() =~= before.map_values(column));
    if s == sources.len() - 1 {
        assert(sources.subrange(0, s) =~= before);
        lemma_columns_are_even(before, column);
        assert(column(sources[s]).len() == sources[s].times.len());
        assert(joined(all).subrange(from, to) =~= column(sources[s]));
    } else {
        lemma_slice_of_column(before, column, s);
        assert(before.subrange(0, s) =~= sources.subrange(0, s));
        assert(before.subrange(0, s + 1) =~= sources.subrange(0, s + 1));
        assert(joined(all).subrange(from, to) =~= joined(before.map_values(column)).subrange(
            from,
            to,
        ));
    }
}

/// Between the starts of a source and of the next stand its own observations: its
/// relative times, the logarithms of its frequencies, its fluxes and its squared
/// errors.
pub proof fn law_slices_are_sources(
    sources: Seq<Source>,
    f: spec_fn(Elementary) -> Binary64,
    s: int,
)
    requires
        0 <= s < sources.len(),
    ensures
        start_of(sources, s + 1) == start_of(sources, s) + sources[s].times.len(),
        ({
            let (from, to) = (start_of(sources, s) as int, start_of(sources, s + 1) as int);
            let times = joined(sources.map_values(|x: Source| relative_times(x)));
            let log10_nu = joined(sources.map_values(|x: Source| log_frequencies(x, f)));
            let flux = joined(sources.map_values(|x: Source| fluxes(x)));
            let flux_err_sq = joined(sources.map_values(|x: Source| squared_errors(x)));
            &&& to <= times.len() && times.subrange(from, to) == relative_times(sources[s])
            &&& to <= log10_nu.len() && log10_nu.subrange(from, to) == log_frequencies(
                sources[s],
                f,
            )
            &&& to <= flux.len() && flux.subrange(from, to) == fluxes(sources[s])
            &&& to <= flux_err_sq.len() && flux_err_sq.subrange(from, to) == squared_errors(
                sources[s],
            )
        }),
{
    lemma_slice_of_column(sources, |x: Source| relative_times(x), s);
    lemma_slice_of_column(sources, |x: Source| log_frequencies(x, f), s);
    lemma_slice_of_column(sources, |x: Source| fluxes(x), s);
    lemma_slice_of_column(sources, |x: Source| squared_errors(x), s);
}

/// Threads that score one particle together.
pub const LANES: usize = 32;

/// Threads per block.
pub const BLOCK: usize = 256;

/// Most threads in a launch: the device counts them in a signed 32-bit number.
pub const MAX_THREADS: usize = 0x7fff_ffff;

/// The shape of a kernel launch.
#[derive(Clone, Copy, Debug, PartialEq, Eq, Structural)]
pub struct Launch {
    /// Particles of all sources.
    pub total: usize,
    /// Number of blocks.
    pub grid: usize,
    /// Threads per block.
    pub block: usize,
}

/// The least number of blocks that hold that many threads, and at least one.
pub open spec fn blocks_for(threads: nat) -> nat {
    if threads == 0 {
        1
    } else {
        (threads + BLOCK - 1) as nat / BLOCK as nat
    }
}

/// Plans a launch with one group of lanes per particle; `None` where that takes
/// more threads than a launch may have.
pub fn plan_launch(n_sources: usize, n_particles: usize) -> (r: Option<Launch>)
    ensures
        match r {
            Some(launch) => {
                &&& n_sources * n_particles * LANES <= MAX_THREADS
                &&& launch.total == n_sources * n_particles
                &&& launch.grid == blocks_for((n_sources * n_particles * LANES) as nat)
                &&& launch.block == BLOCK
            },
            None => n_sources * n_particles * LANES > MAX_THREADS,
        },
{
    let total: usize = match n_sources.checked_mul(n_particles) {
        Some(total) => total,
        None => {
            return None;
        },
    };
    if total > MAX_THREADS / LANES {
        return None;
    }
    let threads: usize = total * LANES;
    let grid: usize = if threads == 0 {
        1
    } else {
        (threads - 1) / BLOCK + 1
    };
    Some(Launch { total, grid, block: BLOCK })
}

/// The number of blocks for that many particles, on a device that sets no limit to
/// the threads of a launch.
pub fn threadgroups(total: usize) -> (r: usize)
    ensures
        r == blocks_for((total * LANES) as nat),
{
    if total == 0 {
        1
    } else {
        let groups: usize = (total - 1) / (BLOCK / LANES) + 1;
        proof {
            let q: int = (total - 1) as int / 8;
            let r: int = (total - 1) as int % 8;
            assert(total * LANES + BLOCK - 1 == 256 * (q + 1) + (32 * r + 31));
            assert((256 * (q + 1) + (32 * r + 31)) / 256 == q + 1);
        }
        groups
    }
}

/// The blocks of a launch hold a group of lanes for every particle, and no block
/// could be spared.
pub proof fn law_launch_covers_all_particles(threads: nat)
    ensures
        blocks_for(threads) * BLOCK >= threads,
        threads > 0 ==> (blocks_for(threads) - 1) * BLOCK < threads,
{
}

/// The message for a batch that is too large for one launch.
pub fn too_many(n_sources: usize, n_particles: usize) -> (r: String)
    ensures
        r@ == decimal_text(n_sources as nat) + " sources x "@ + decimal_text(n_particles as nat)
            + " particles is too many for one kernel launch; split the batch"@,
{
    decimal(n_sources as u64).concat(" sources x ").concat(
        decimal(n_particles as u64).as_str(),
    ).concat(" particles is too many for one kernel launch; split the batch")
}

/// Whether positions and costs fit an evaluator for `total` particles.
pub fn fits_evaluator(total: usize, n_positions: usize, n_costs: usize) -> (r: bool)
    ensures
        r == (n_positions == total * N_PARAMS && n_costs == total),
{
    match total.checked_mul(N_PARAMS) {
        Some(wanted) => n_positions == wanted && n_costs == total,
        None => false,
    }
}

/// The message for arguments that do not fit an evaluator.
pub fn misfit(total: usize, n_positions: usize, n_costs: usize) -> (r: String)
    ensures
        r@ == "eval_batch: evaluator holds "@ + decimal_text(total as nat) + " particles, got "@
            + decimal_text((n_positions / N_PARAMS) as nat) + " positions and "@ + decimal_text(
            n_costs as nat,
        ) + " costs"@,
{
    "eval_batch: evaluator holds ".to_owned().concat(decimal(total as u64).as_str()).concat(
        " particles, got ",
    ).concat(decimal((n_positions / N_PARAMS) as u64).as_str()).concat(" positions and ").concat(
        decimal(n_costs as u64).as_str(),
    ).concat(" costs")
}

} // verus!

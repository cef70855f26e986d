//! From tables to batches of sources, and back to one report per table.
use crate::binary64::Binary64;
use crate::elementary::{answers, is_function, Elementary};
use crate::fit::{can_fit, fit_sbpl, fitted_bands, may_fit_bands};
use crate::generator::{is_generator, is_seeding, seeds, stream, Draw};
use crate::light_curve::{
    all_seen, grouped, law_observations_make_bands, obs_to_band_map, BandMap, Obs, Seen,
};
use crate::photometry::{
    is_number_reader, load_csv, loaded, message, readings, LoadError, LoadFailure,
};
use crate::polish::{is_minimiser, suggestions, ScaledCost};
use crate::prepare::{law_grouping_is_complete, prepare_source, prepared};
use crate::source::{Preparation, Prepared, PreparedSource, PsoConfig, SbplResult, Source};
use crate::table::texts;
use crate::text::{
    comes_before, decimal, decimal_text, law_text_order, law_text_order_is_transitive, same_text,
    text_before,
};
use vstd::prelude::*;
use vstd::string::*;

verus! {

/// Where a table gives a source to fit, its restarts have what a search needs.
pub open spec fn may_fit_table(table: Result<Seq<Seen>, LoadFailure>, c: PsoConfig) -> bool {
    table is Ok ==> may_fit_bands(grouped(table->Ok_0), c)
}

/// Loads a photometry table and fits its source.
pub fn fit_sbpl_csv<
    R,
    S: Fn(u64) -> R,
    D: Fn(&R, Draw) -> (Binary64, R),
    F: Fn(&ScaledCost, &Vec<Binary64>) -> Option<Vec<Binary64>>,
    N: Fn(&str) -> Option<Binary64>,
    M: Fn(Elementary) -> Binary64,
>(
    bytes: &Vec<u8>,
    config: &PsoConfig,
    seeded: &S,
    draw: &D,
    minimise: &F,
    number: &N,
    math: &M,
) -> (r: Result<SbplResult, LoadError>)
    requires
        may_fit_table(loaded(bytes@, readings(*number), answers(*math)), *config),
        is_seeding(*seeded),
        is_generator(*draw),
        is_minimiser(*minimise),
        is_number_reader(*number),
        is_function(*math),
    ensures
        match loaded(bytes@, readings(*number), answers(*math)) {
            Err(e) => r is Err && (r->Err_0)@ == e,
            Ok(obs) => r is Ok && fitted_bands(
                grouped(obs),
                *config,
                seeds(*seeded),
                stream(*draw),
                suggestions(*minimise),
                answers(*math),
            ) == Some(r->Ok_0),
        },
{
    let obs: Vec<Obs> = match load_csv(bytes, number, math) {
        Ok(obs) => obs,
        Err(e) => {
            return Err(e);
        },
    };
    proof {
        law_grouping_is_complete(all_seen(obs@));
        law_observations_make_bands(all_seen(obs@));
    }
    let bands: BandMap = obs_to_band_map(&obs);
    Ok(fit_sbpl(&bands, config, seeded, draw, minimise, math).unwrap())
}

/// Loads a photometry table and fits its source, or gives nothing where it has a
/// source to fit and the restarts cannot search.
pub fn try_fit_sbpl_csv<
    R,
    S: Fn(u64) -> R,
    D: Fn(&R, Draw) -> (Binary64, R),
    F: Fn(&ScaledCost, &Vec<Binary64>) -> Option<Vec<Binary64>>,
    N: Fn(&str) -> Option<Binary64>,
    M: Fn(Elementary) -> Binary64,
>(
    bytes: &Vec<u8>,
    config: &PsoConfig,
    seeded: &S,
    draw: &D,
    minimise: &F,
    number: &N,
    math: &M,
) -> (r: Result<Option<SbplResult>, LoadError>)
    requires
        is_seeding(*seeded),
        is_generator(*draw),
        is_minimiser(*minimise),
        is_number_reader(*number),
        is_function(*math),
    ensures
        match loaded(bytes@, readings(*number), answers(*math)) {
            Err(e) => r is Err && (r->Err_0)@ == e,
            Ok(obs) => r is Ok && r->Ok_0 == if may_fit_bands(grouped(obs), *config) {
                fitted_bands(
                    grouped(obs),
                    *config,
                    seeds(*seeded),
                    stream(*draw),
                    suggestions(*minimise),
                    answers(*math),
                )
            } else {
                None
            },
        },
{
    let obs: Vec<Obs> = match load_csv(bytes, number, math) {
        Ok(obs) => obs,
        Err(e) => {
            return Err(e);
        },
    };
    proof {
        law_grouping_is_complete(all_seen(obs@));
    }
    let bands: BandMap = obs_to_band_map(&obs);
    if let Preparation::Ready(prep) = prepare_source(&bands, config) {
        if !can_fit(&prep, config) {
            return Ok(None);
        }
    }
    match fit_sbpl_csv(bytes, config, seeded, draw, minimise, number, math) {
        Ok(result) => Ok(Some(result)),
        Err(e) => Err(e),
    }
}

/// One prepared light curve.
#[derive(Debug)]
pub struct SourceData {
    pub name: String,
    pub prepared: PreparedSource,
}

/// Why a table is not fitted.
#[derive(Debug)]
pub enum Rejection {
    /// The file cannot be read.
    Unreadable(String),
    /// The table gives no observations.
    Table(LoadError),
    /// There is too little data.
    TooLittle { n_obs: usize, n_bands: usize },
    /// There is no band.
    NoBands,
}

/// What a [`Rejection`] holds.
pub enum Refusal {
    Unreadable(Seq<char>),
    Table(LoadFailure),
    TooLittle { n_obs: usize, n_bands: usize },
    NoBands,
}

impl View for Rejection {
    type V = Refusal;

    open spec fn view(&self) -> Refusal {
        match self {
            Rejection::Unreadable(e) => Refusal::Unreadable(e@),
            Rejection::Table(e) => Refusal::Table(e@),
            Rejection::TooLittle { n_obs, n_bands } => Refusal::TooLittle {
                n_obs: *n_obs,
                n_bands: *n_bands,
            },
            Rejection::NoBands => Refusal::NoBands,
        }
    }
}

/// The message for a refusal of the table at `path`.
pub open spec fn refusal_message(e: Refusal, path: Seq<char>) -> Seq<char> {
    match e {
        Refusal::Unreadable(text) => "Cannot open "@ + path + ": "@ + text,
        Refusal::Table(failure) => message(failure, path),
        Refusal::TooLittle { n_obs, n_bands } => "too little data: "@ + decimal_text(n_obs as nat)
            + " obs across "@ + decimal_text(n_bands as nat) + " bands"@,
        Refusal::NoBands => "no usable bands"@,
    }
}

impl Rejection {
    /// The message for this rejection of the table at `path`.
    pub fn describe(&self, path: &str) -> (r: String)
        ensures
            r@ == refusal_message(self@, path@),
    {
        match self {
            Rejection::Unreadable(e) => "Cannot open ".to_owned().concat(path).concat(": ").concat(
                e.as_str(),
            ),
            Rejection::Table(e) => e.describe(path),
            Rejection::TooLittle { n_obs, n_bands } => "too little data: ".to_owned().concat(
                decimal(*n_obs as u64).as_str(),
            ).concat(" obs across ").concat(decimal(*n_bands as u64).as_str()).concat(" bands"),
            Rejection::NoBands => "no usable bands".to_owned(),
        }
    }
}

/// A prepared source, or why there is none.
pub open spec fn source_in(p: Prepared) -> Result<Source, Refusal> {
    match p {
        Prepared::Ready(s) => Ok(s),
        Prepared::Unfittable(result) => Err(
            Refusal::TooLittle { n_obs: result.n_obs, n_bands: result.n_bands },
        ),
        Prepared::Empty => Err(Refusal::NoBands),
    }
}

/// The source in the bytes of a table, or why there is none.
pub open spec fn table_source(
    bytes: Seq<u8>,
    c: PsoConfig,
    number: spec_fn(Seq<char>) -> Option<Binary64>,
    f: spec_fn(Elementary) -> Binary64,
) -> Result<Source, Refusal> {
    match loaded(bytes, number, f) {
        Err(e) => Err(Refusal::Table(e)),
        Ok(obs) => source_in(prepared(grouped(obs), c)),
    }
}

/// A loaded light curve: its observations, and its prepared source.
#[derive(Debug)]
pub struct Loaded {
    pub obs: Vec<Obs>,
    pub source: SourceData,
}

/// Turns a preparation into a source, or into the reason why there is none.
pub fn source_from(name: String, preparation: Preparation) -> (r: Result<SourceData, Rejection>)
    ensures
        match source_in(preparation@) {
            Ok(s) => r is Ok && (r->Ok_0).prepared@ == s && (r->Ok_0).name@ == name@,
            Err(e) => r is Err && (r->Err_0)@ == e,
        },
{
    match preparation {
        Preparation::Ready(prepared) => Ok(SourceData { name, prepared }),
        Preparation::Unfittable(result) => Err(
            Rejection::TooLittle { n_obs: result.n_obs, n_bands: result.n_bands },
        ),
        Preparation::Empty => Err(Rejection::NoBands),
    }
}

/// Loads and prepares a table, keeping its observations.
pub fn load_source<N: Fn(&str) -> Option<Binary64>, M: Fn(Elementary) -> Binary64>(
    bytes: &Vec<u8>,
    name: String,
    config: &PsoConfig,
    number: &N,
    math: &M,
) -> (r: Result<Loaded, Rejection>)
    requires
        is_number_reader(*number),
        is_function(*math),
    ensures
        match table_source(bytes@, *config, readings(*number), answers(*math)) {
            Ok(s) => {
                &&& r is Ok
                &&& (r->Ok_0).source.prepared@ == s
                &&& (r->Ok_0).source.name@ == name@
                &&& loaded(bytes@, readings(*number), answers(*math)) == Ok::<
                    Seq<Seen>,
                    LoadFailure,
                >(all_seen((r->Ok_0).obs@))
            },
            Err(e) => r is Err && (r->Err_0)@ == e,
        },
{
    let obs: Vec<Obs> = match load_csv(bytes, number, math) {
        Ok(obs) => obs,
        Err(e) => {
            return Err(Rejection::Table(e));
        },
    };
    proof {
        law_grouping_is_complete(all_seen(obs@));
    }
    let bands: BandMap = obs_to_band_map(&obs);
    match source_from(name, prepare_source(&bands, config)) {
        Ok(source) => Ok(Loaded { obs, source }),
        Err(e) => Err(e),
    }
}

/// Loads and prepares a table.
pub fn prepare_csv<N: Fn(&str) -> Option<Binary64>, M: Fn(Elementary) -> Binary64>(
    bytes: &Vec<u8>,
    name: String,
    config: &PsoConfig,
    number: &N,
    math: &M,
) -> (r: Result<SourceData, Rejection>)
    requires
        is_number_reader(*number),
        is_function(*math),
    ensures
        match table_source(bytes@, *config, readings(*number), answers(*math)) {
            Ok(s) => r is Ok && (r->Ok_0).prepared@ == s && (r->Ok_0).name@ == name@,
            Err(e) => r is Err && (r->Err_0)@ == e,
        },
{
    match load_source(bytes, name, config, number, math) {
        Ok(loaded) => Ok(loaded.source),
        Err(e) => Err(e),
    }
}

/// Whether a file name has the extension `csv`: something before the dot, and
/// `csv` after it.
pub open spec fn has_csv_extension(name: Seq<char>) -> bool {
    name.len() > 4 && name.subrange(name.len() - 4, name.len() as int) == ".csv"@
}

/// Texts in ascending order.
pub open spec fn ascending(names: Seq<Seq<char>>) -> bool {
    forall|i: int, j: int|
        0 <= i < j < names.len() ==> !text_before(#[trigger] names[j], #[trigger] names[i])
}

/// Whether a file name has the extension `csv`.
fn is_csv(name: &str) -> (r: bool)
    ensures
        r == has_csv_extension(name@),
{
    let n: usize = name.unicode_len();
    n > 4 && same_text(name.substring_char(n - 4, n), ".csv")
}

/// A text put before the first that it precedes leaves texts in ascending order.
proof fn lemma_insertion_ascends(before: Seq<Seq<char>>, x: Seq<char>, at: int)
    requires
        ascending(before),
        0 <= at <= before.len(),
        forall|j: int| 0 <= j < at ==> !text_before(x, #[trigger] before[j]),
        at < before.len() ==> text_before(x, before[at]),
    ensures
        ascending(before.insert(at, x)),
{
    let after = before.insert(at, x);
    assert forall|i: int, j: int| 0 <= i < j < after.len() implies !text_before(
        #[trigger] after[j],
        #[trigger] after[i],
    ) by {
        if i < at && j == at {
            assert(after[i] == before[i]);
        } else if i == at {
            let y = before[j - 1];
            assert(after[j] == y);
            if text_before(y, x) {
                law_text_order_is_transitive(y, x, before[at]);
                law_text_order(y, y);
            }
        } else {
            let a = if i < at {
                i
            } else {
                i - 1
            };
            let b = if j < at {
                j
            } else {
                j - 1
            };
            assert(after[i] == before[a]);
            assert(after[j] == before[b]);
        }
    }
}

/// Puts a name in its place among ascending names.
fn insert_sorted(names: &mut Vec<String>, name: String)
    requires
        ascending(texts(old(names)@)),
    ensures
        ascending(texts(final(names)@)),
        texts(final(names)@).to_multiset() == texts(old(names)@).to_multiset().insert(name@),
{
    let ghost before = texts(names@);
    let ghost x = name@;
    let mut k: usize = 0;
    while k < names.len() && !comes_before(name.as_str(), names[k].as_str())
        invariant
            k <= names.len(),
            before == texts(names@),
            x == name@,
            forall|j: int| 0 <= j < k ==> !text_before(x, #[trigger] before[j]),
        decreases names.len() - k,
    {
        k += 1;
    }
    let ghost at = k as int;
    names.insert(k, name);
    proof {
        let after = texts(names@);
        assert(after =~= before.insert(at, x));
        lemma_insertion_ascends(before, x, at);
        vstd::seq_lib::to_multiset_insert(before, at, x);
    }
}

/// Chooses the tables among the files of a directory, in ascending order.
pub fn select_csv_files(names: &Vec<String>) -> (r: Vec<String>)
    ensures
        ascending(texts(r@)),
        texts(r@).to_multiset() == texts(names@).filter(
            |name: Seq<char>| has_csv_extension(name),
        ).to_multiset(),
{
    let ghost all = texts(names@);
    let ghost test = |name: Seq<char>| has_csv_extension(name);
    let mut chosen: Vec<String> = Vec::new();
    let mut i: usize = 0;
    proof {
        reveal(Seq::filter);
        assert(all.subrange(0, 0).filter(test) =~= seq![]);
        assert(texts(chosen@) =~= seq![]);
    }
    while i < names.len()
        invariant
            i <= names.len(),
            all == texts(names@),
            test == (|name: Seq<char>| has_csv_extension(name)),
            ascending(texts(chosen@)),
            texts(chosen@).to_multiset() == all.subrange(0, i as int).filter(test).to_multiset(),
        decreases names.len() - i,
    {
        proof {
            reveal(Seq::filter);
            let more = all.subrange(0, i + 1);
            assert(more.drop_last() =~= all.subrange(0, i as int));
            assert(more.last() == names@[i as int]@);
            vstd::seq_lib::to_multiset_build(
                all.subrange(0, i as int).filter(test),
                more.last(),
            );
        }
        if is_csv(names[i].as_str()) {
            insert_sorted(&mut chosen, names[i].clone());
        }
        i += 1;
    }
    assert(all.subrange(0, names.len() as int) =~= all);
    chosen
}

} // verus!

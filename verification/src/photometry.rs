//! Photometry tables: from bytes to observations.
use crate::binary64::Binary64;
use crate::elementary::{answers, is_function, Elementary};
use crate::light_curve::{all_seen, Obs, Seen};
use crate::model::{flux_of, mag_to_flux};
use crate::table::{csv_headers, csv_rows, read_headers, read_rows, row_texts, texts};
use crate::text::{parse_unsigned, same_text, trim, trimmed, unsigned_value};
use vstd::prelude::*;
use vstd::string::*;

verus! {

/// `number` reads every text, and equal texts always alike.
pub open spec fn is_number_reader<N: Fn(&str) -> Option<Binary64>>(number: N) -> bool {
    &&& forall|s: &str| #[trigger] call_requires(number, (s,))
    &&& forall|s: &str, t: &str, x: Option<Binary64>, y: Option<Binary64>| #[trigger]
        call_ensures(number, (s,), x) && #[trigger] call_ensures(number, (t,), y) && s@ == t@
            ==> x == y
}

/// `number` may read this text so.
pub open spec fn may_read<N: Fn(&str) -> Option<Binary64>>(
    number: N,
    text: Seq<char>,
    value: Option<Binary64>,
) -> bool {
    exists|s: &str| #[trigger] call_ensures(number, (s,), value) && s@ == text
}

/// The numbers that `number` reads.
pub open spec fn readings<N: Fn(&str) -> Option<Binary64>>(number: N) -> spec_fn(Seq<char>) -> Option<
    Binary64,
> {
    |text: Seq<char>| choose|value: Option<Binary64>| may_read(number, text, value)
}

/// Reads a number.
fn read_number<N: Fn(&str) -> Option<Binary64>>(number: &N, s: &str) -> (r: Option<Binary64>)
    requires
        is_number_reader(*number),
    ensures
        r == readings(*number)(s@),
{
    let r: Option<Binary64> = number(s);
    proof {
        assert(may_read(*number, s@, r));
        let value = readings(*number)(s@);
        assert(may_read(*number, s@, value));
    }
    r
}

/// Why a table gives no observations.
#[derive(Debug)]
pub enum LoadError {
    /// The first row cannot be read.
    Headers(String),
    /// There is neither a `jd` nor an `mjd` column.
    NoTimeColumn,
    /// There is neither a `magpsf` nor a `mag` column.
    NoMagnitudeColumn,
    /// There is neither a `sigmapsf` nor a `mag_err` column.
    NoErrorColumn,
    /// A row cannot be read.
    Row(String),
    /// No row is a valid observation.
    NoObservations,
}

/// What a [`LoadError`] holds.
pub enum LoadFailure {
    Headers(Seq<char>),
    NoTimeColumn,
    NoMagnitudeColumn,
    NoErrorColumn,
    Row(Seq<char>),
    NoObservations,
}

impl View for LoadError {
    type V = LoadFailure;

    open spec fn view(&self) -> LoadFailure {
        match self {
            LoadError::Headers(e) => LoadFailure::Headers(e@),
            LoadError::NoTimeColumn => LoadFailure::NoTimeColumn,
            LoadError::NoMagnitudeColumn => LoadFailure::NoMagnitudeColumn,
            LoadError::NoErrorColumn => LoadFailure::NoErrorColumn,
            LoadError::Row(e) => LoadFailure::Row(e@),
            LoadError::NoObservations => LoadFailure::NoObservations,
        }
    }
}

/// The message for a failure on the table at `path`.
pub open spec fn message(e: LoadFailure, path: Seq<char>) -> Seq<char> {
    match e {
        LoadFailure::Headers(text) => "Cannot read headers: "@ + text,
        LoadFailure::NoTimeColumn => "CSV must have 'jd' or 'mjd' column"@,
        LoadFailure::NoMagnitudeColumn => "CSV must have 'magpsf' or 'mag' column"@,
        LoadFailure::NoErrorColumn => "CSV must have 'sigmapsf' or 'mag_err' column"@,
        LoadFailure::Row(text) => "Parse error: "@ + text,
        LoadFailure::NoObservations => "No valid g/r/i/z/y observations in "@ + path,
    }
}

impl LoadError {
    /// The message for this error on the table at `path`.
    pub fn describe(&self, path: &str) -> (r: String)
        ensures
            r@ == message(self@, path@),
    {
        match self {
            LoadError::Headers(e) => "Cannot read headers: ".to_owned().concat(e.as_str()),
            LoadError::NoTimeColumn => "CSV must have 'jd' or 'mjd' column".to_owned(),
            LoadError::NoMagnitudeColumn => "CSV must have 'magpsf' or 'mag' column".to_owned(),
            LoadError::NoErrorColumn => "CSV must have 'sigmapsf' or 'mag_err' column".to_owned(),
            LoadError::Row(e) => "Parse error: ".to_owned().concat(e.as_str()),
            LoadError::NoObservations => "No valid g/r/i/z/y observations in ".to_owned().concat(
                path,
            ),
        }
    }
}

/// The first column of that name.
pub open spec fn is_column(headers: Seq<Seq<char>>, name: Seq<char>, i: int) -> bool {
    &&& 0 <= i < headers.len()
    &&& headers[i] == name
    &&& forall|j: int| 0 <= j < i ==> #[trigger] headers[j] != name
}

/// Where the first column of that name stands.
pub open spec fn column(headers: Seq<Seq<char>>, name: Seq<char>) -> Option<int> {
    if headers.contains(name) {
        Some(choose|i: int| is_column(headers, name, i))
    } else {
        None
    }
}

/// Where the first column of the first name stands, or else of the second.
pub open spec fn either_column(
    headers: Seq<Seq<char>>,
    name: Seq<char>,
    other: Seq<char>,
) -> Option<int> {
    match column(headers, name) {
        Some(i) => Some(i),
        None => column(headers, other),
    }
}

/// The columns that observations are read from.
pub struct Columns {
    pub time: int,
    pub mag: int,
    pub err: int,
    pub fid: Option<int>,
    pub filter: Option<int>,
}

/// A cell, where the row reaches that far.
pub open spec fn cell(row: Seq<Seq<char>>, i: int) -> Option<Seq<char>> {
    if 0 <= i < row.len() {
        Some(row[i])
    } else {
        None
    }
}

/// The band of a numeric filter code.
pub open spec fn fid_band(text: Seq<char>) -> Option<Seq<char>> {
    match unsigned_value(trimmed(text), u32::MAX as nat) {
        Some(n) => if n == 1 {
            Some("g"@)
        } else if n == 2 {
            Some("r"@)
        } else if n == 3 {
            Some("i"@)
        } else {
            None
        },
        None => None,
    }
}

/// The band of a filter name.
pub open spec fn filter_band(text: Seq<char>) -> Option<Seq<char>> {
    let name = trimmed(text);
    if name == "g"@ || name == "ZTF_g"@ || name == "ztfg"@ || name == "lsstg"@ {
        Some("g"@)
    } else if name == "r"@ || name == "ZTF_r"@ || name == "ztfr"@ || name == "lsstr"@ {
        Some("r"@)
    } else if name == "i"@ || name == "ZTF_i"@ || name == "ztfi"@ || name == "lssti"@ {
        Some("i"@)
    } else if name == "z"@ || name == "ztfz"@ || name == "lsstz"@ {
        Some("z"@)
    } else if name == "y"@ || name == "lssty"@ {
        Some("y"@)
    } else {
        None
    }
}

/// The band of a row: by filter code where the table has codes, else by name.
pub open spec fn row_band(row: Seq<Seq<char>>, c: Columns) -> Option<Seq<char>> {
    match c.fid {
        Some(i) => match cell(row, i) {
            Some(text) => fid_band(text),
            None => None,
        },
        None => match c.filter {
            Some(i) => match cell(row, i) {
                Some(text) => filter_band(text),
                None => None,
            },
            None => None,
        },
    }
}

/// The number in a cell.
pub open spec fn cell_number(
    row: Seq<Seq<char>>,
    i: int,
    trimming: bool,
    number: spec_fn(Seq<char>) -> Option<Binary64>,
) -> Option<Binary64> {
    match cell(row, i) {
        Some(text) => number(
            if trimming {
                trimmed(text)
            } else {
                text
            },
        ),
        None => None,
    }
}

/// The observation in a row. There is none where the time, the magnitude or its
/// error is missing or not finite, the error is not positive, the band is
/// unknown, or the flux comes out non-finite or not positive.
pub open spec fn row_observation(
    row: Seq<Seq<char>>,
    c: Columns,
    number: spec_fn(Seq<char>) -> Option<Binary64>,
    f: spec_fn(Elementary) -> Binary64,
) -> Option<Seen> {
    let time = cell_number(row, c.time, false, number);
    let mag = cell_number(row, c.mag, true, number);
    let err = cell_number(row, c.err, true, number);
    let band = row_band(row, c);
    let fluxes = flux_of(mag->0, err->0, f);
    if time is Some && (time->0).is_finite() && mag is Some && err is Some && Binary64::zero().lt(
        err->0,
    ) && band is Some && fluxes.0.is_finite() && fluxes.1.is_finite() && !fluxes.0.le(
        Binary64::zero(),
    ) {
        Some(Seen { time: time->0, flux: fluxes.0, flux_err: fluxes.1, band: band->0 })
    } else {
        None
    }
}

/// The observations in the first `n` rows, or the first error among them.
pub open spec fn rows_observations(
    rows: Seq<Result<Seq<Seq<char>>, Seq<char>>>,
    c: Columns,
    number: spec_fn(Seq<char>) -> Option<Binary64>,
    f: spec_fn(Elementary) -> Binary64,
    n: nat,
) -> Result<Seq<Seen>, LoadFailure>
    decreases n,
{
    if n == 0 {
        Ok(seq![])
    } else {
        match rows_observations(rows, c, number, f, (n - 1) as nat) {
            Err(e) => Err(e),
            Ok(so_far) => match rows[n - 1] {
                Err(e) => Err(LoadFailure::Row(e)),
                Ok(row) => match row_observation(row, c, number, f) {
                    Some(o) => Ok(so_far.push(o)),
                    None => Ok(so_far),
                },
            },
        }
    }
}

/// The columns of a table, or the first that is missing.
pub open spec fn columns_of(headers: Seq<Seq<char>>) -> Result<Columns, LoadFailure> {
    match either_column(headers, "jd"@, "mjd"@) {
        None => Err(LoadFailure::NoTimeColumn),
        Some(time) => match either_column(headers, "magpsf"@, "mag"@) {
            None => Err(LoadFailure::NoMagnitudeColumn),
            Some(mag) => match either_column(headers, "sigmapsf"@, "mag_err"@) {
                None => Err(LoadFailure::NoErrorColumn),
                Some(err) => Ok(
                    Columns {
                        time,
                        mag,
                        err,
                        fid: column(headers, "fid"@),
                        filter: column(headers, "filter"@),
                    },
                ),
            },
        },
    }
}

/// The observations of a table.
pub open spec fn table_observations(
    headers: Seq<Seq<char>>,
    rows: Seq<Result<Seq<Seq<char>>, Seq<char>>>,
    number: spec_fn(Seq<char>) -> Option<Binary64>,
    f: spec_fn(Elementary) -> Binary64,
) -> Result<Seq<Seen>, LoadFailure> {
    match columns_of(headers) {
        Err(e) => Err(e),
        Ok(c) => match rows_observations(rows, c, number, f, rows.len()) {
            Err(e) => Err(e),
            Ok(obs) => if obs.len() == 0 {
                Err(LoadFailure::NoObservations)
            } else {
                Ok(obs)
            },
        },
    }
}

/// The observations in the bytes of a table.
pub open spec fn loaded(
    bytes: Seq<u8>,
    number: spec_fn(Seq<char>) -> Option<Binary64>,
    f: spec_fn(Elementary) -> Binary64,
) -> Result<Seq<Seen>, LoadFailure> {
    match csv_headers(bytes, true) {
        Err(e) => Err(LoadFailure::Headers(e)),
        Ok(headers) => table_observations(headers, csv_rows(bytes, true), number, f),
    }
}

/// What loading gives, as plain values.
pub open spec fn outcome_of(r: Result<Vec<Obs>, LoadError>) -> Result<Seq<Seen>, LoadFailure> {
    match r {
        Ok(obs) => Ok(all_seen(obs@)),
        Err(e) => Err(e@),
    }
}

/// A column's place, as a number of the machine.
spec fn placed(r: Option<usize>) -> Option<int> {
    match r {
        Some(i) => Some(i as int),
        None => None,
    }
}

/// Finds the first column of that name.
fn find_column(headers: &Vec<String>, name: &str) -> (r: Option<usize>)
    ensures
        placed(r) == column(texts(headers@), name@),
{
    let ghost all = texts(headers@);
    let mut i: usize = 0;
    while i < headers.len()
        invariant
            i <= headers.len(),
            all == texts(headers@),
            forall|j: int| 0 <= j < i ==> #[trigger] all[j] != name@,
        decreases headers.len() - i,
    {
        if same_text(headers[i].as_str(), name) {
            proof {
                assert(all[i as int] == name@);
                assert(all.contains(name@));
                assert(is_column(all, name@, i as int));
                let k = choose|k: int| is_column(all, name@, k);
                assert(is_column(all, name@, k));
                assert(k == i) by {
                    if k < i {
                        assert(all[k] != name@);
                    }
                    if i < k {
                        assert(all[i as int] != name@);
                    }
                }
            }
            return Some(i);
        }
        i += 1;
    }
    None
}

/// Finds the first column of the first name, or else of the second.
fn find_either(headers: &Vec<String>, name: &str, other: &str) -> (r: Option<usize>)
    ensures
        placed(r) == either_column(texts(headers@), name@, other@),
{
    match find_column(headers, name) {
        Some(i) => Some(i),
        None => find_column(headers, other),
    }
}

/// Reads the number in a cell.
fn number_at<N: Fn(&str) -> Option<Binary64>>(
    row: &Vec<String>,
    i: usize,
    trimming: bool,
    number: &N,
) -> (r: Option<Binary64>)
    requires
        is_number_reader(*number),
    ensures
        r == cell_number(texts(row@), i as int, trimming, readings(*number)),
{
    if i >= row.len() {
        return None;
    }
    if trimming {
        read_number(number, trim(row[i].as_str()))
    } else {
        read_number(number, row[i].as_str())
    }
}

/// What an optional text holds.
spec fn text_of(s: Option<&'static str>) -> Option<Seq<char>> {
    match s {
        Some(s) => Some(s@),
        None => None,
    }
}

/// The band of a numeric filter code.
fn band_of_fid(s: &str) -> (r: Option<&'static str>)
    ensures
        text_of(r) == fid_band(s@),
{
    match parse_unsigned(trim(s), u32::MAX as u64) {
        Some(1) => Some("g"),
        Some(2) => Some("r"),
        Some(3) => Some("i"),
        _ => None,
    }
}

/// The band of a filter name.
fn band_of_filter(s: &str) -> (r: Option<&'static str>)
    ensures
        text_of(r) == filter_band(s@),
{
    let name: &str = trim(s);
    if same_text(name, "g") || same_text(name, "ZTF_g") || same_text(name, "ztfg") || same_text(
        name,
        "lsstg",
    ) {
        Some("g")
    } else if same_text(name, "r") || same_text(name, "ZTF_r") || same_text(name, "ztfr")
        || same_text(name, "lsstr") {
        Some("r")
    } else if same_text(name, "i") || same_text(name, "ZTF_i") || same_text(name, "ztfi")
        || same_text(name, "lssti") {
        Some("i")
    } else if same_text(name, "z") || same_text(name, "ztfz") || same_text(name, "lsstz") {
        Some("z")
    } else if same_text(name, "y") || same_text(name, "lssty") {
        Some("y")
    } else {
        None
    }
}

/// The columns of a table, found.
struct Found {
    time: usize,
    mag: usize,
    err: usize,
    fid: Option<usize>,
    filter: Option<usize>,
}

impl Found {
    spec fn columns(&self) -> Columns {
        Columns {
            time: self.time as int,
            mag: self.mag as int,
            err: self.err as int,
            fid: placed(self.fid),
            filter: placed(self.filter),
        }
    }
}

/// Finds the columns of a table.
fn find_columns(headers: &Vec<String>) -> (r: Result<Found, LoadError>)
    ensures
        match r {
            Ok(found) => columns_of(texts(headers@)) == Ok::<Columns, LoadFailure>(
                found.columns(),
            ),
            Err(e) => columns_of(texts(headers@)) == Err::<Columns, LoadFailure>(e@),
        },
{
    let time: usize = match find_either(headers, "jd", "mjd") {
        Some(i) => i,
        None => {
            return Err(LoadError::NoTimeColumn);
        },
    };
    let mag: usize = match find_either(headers, "magpsf", "mag") {
        Some(i) => i,
        None => {
            return Err(LoadError::NoMagnitudeColumn);
        },
    };
    let err: usize = match find_either(headers, "sigmapsf", "mag_err") {
        Some(i) => i,
        None => {
            return Err(LoadError::NoErrorColumn);
        },
    };
    Ok(
        Found {
            time,
            mag,
            err,
            fid: find_column(headers, "fid"),
            filter: find_column(headers, "filter"),
        },
    )
}

/// What an optional observation holds.
spec fn seen_in(o: Option<Obs>) -> Option<Seen> {
    match o {
        Some(o) => Some(o@),
        None => None,
    }
}

/// Reads the observation in a row.
fn observe<N: Fn(&str) -> Option<Binary64>, M: Fn(Elementary) -> Binary64>(
    row: &Vec<String>,
    c: &Found,
    number: &N,
    math: &M,
) -> (r: Option<Obs>)
    requires
        is_number_reader(*number),
        is_function(*math),
    ensures
        seen_in(r) == row_observation(
            texts(row@),
            c.columns(),
            readings(*number),
            answers(*math),
        ),
{
    let time: Binary64 = match number_at(row, c.time, false, number) {
        Some(v) => v,
        None => {
            return None;
        },
    };
    if !time.is_finite() {
        return None;
    }
    let mag: Binary64 = match number_at(row, c.mag, true, number) {
        Some(v) => v,
        None => {
            return None;
        },
    };
    let mag_err: Binary64 = match number_at(row, c.err, true, number) {
        Some(v) => v,
        None => {
            return None;
        },
    };
    if !Binary64::zero().lt(mag_err) {
        return None;
    }
    let band: Option<&'static str> = match c.fid {
        Some(i) => if i < row.len() {
            band_of_fid(row[i].as_str())
        } else {
            None
        },
        None => match c.filter {
            Some(i) => if i < row.len() {
                band_of_filter(row[i].as_str())
            } else {
                None
            },
            None => None,
        },
    };
    let band: &'static str = match band {
        Some(name) => name,
        None => {
            return None;
        },
    };
    let (flux, flux_err) = mag_to_flux(mag, mag_err, math);
    if !flux.is_finite() || !flux_err.is_finite() || flux.le(Binary64::zero()) {
        return None;
    }
    Some(Obs { time, flux, flux_err, band: band.to_owned() })
}

/// The rows of a table, as texts.
pub open spec fn rows_texts(rows: Seq<Result<Vec<String>, String>>) -> Seq<
    Result<Seq<Seq<char>>, Seq<char>>,
> {
    rows.map_values(|row: Result<Vec<String>, String>| row_texts(row))
}

/// Once a row has failed the table fails.
proof fn lemma_failure_stays(
    rows: Seq<Result<Seq<Seq<char>>, Seq<char>>>,
    c: Columns,
    number: spec_fn(Seq<char>) -> Option<Binary64>,
    f: spec_fn(Elementary) -> Binary64,
    k: nat,
    n: nat,
)
    requires
        k <= n,
        rows_observations(rows, c, number, f, k) is Err,
    ensures
        rows_observations(rows, c, number, f, n) == rows_observations(rows, c, number, f, k),
    decreases n,
{
    if k < n {
        lemma_failure_stays(rows, c, number, f, k, (n - 1) as nat);
    }
}

/// Turns the cells of a table into observations.
pub fn observations_in<N: Fn(&str) -> Option<Binary64>, M: Fn(Elementary) -> Binary64>(
    headers: &Vec<String>,
    rows: &Vec<Result<Vec<String>, String>>,
    number: &N,
    math: &M,
) -> (r: Result<Vec<Obs>, LoadError>)
    requires
        is_number_reader(*number),
        is_function(*math),
    ensures
        outcome_of(r) == table_observations(
            texts(headers@),
            rows_texts(rows@),
            readings(*number),
            answers(*math),
        ),
{
    let ghost all = rows_texts(rows@);
    let ghost read = readings(*number);
    let ghost f = answers(*math);
    let found: Found = match find_columns(headers) {
        Ok(found) => found,
        Err(e) => {
            return Err(e);
        },
    };
    let ghost c = found.columns();
    let mut obs: Vec<Obs> = Vec::new();
    let mut i: usize = 0;
    assert(all_seen(obs@) =~= seq![]);
    while i < rows.len()
        invariant
            i <= rows.len(),
            is_number_reader(*number),
            is_function(*math),
            all == rows_texts(rows@),
            read == readings(*number),
            f == answers(*math),
            c == found.columns(),
            columns_of(texts(headers@)) == Ok::<Columns, LoadFailure>(c),
            rows_observations(all, c, read, f, i as nat) == Ok::<Seq<Seen>, LoadFailure>(
                all_seen(obs@),
            ),
        decreases rows.len() - i,
    {
        assert(all[i as int] == row_texts(rows@[i as int]));
        match &rows[i] {
            Err(e) => {
                let text: String = e.clone();
                proof {
                    lemma_failure_stays(all, c, read, f, (i + 1) as nat, all.len());
                }
                return Err(LoadError::Row(text));
            },
            Ok(row) => {
                let ghost before = obs@;
                if let Some(o) = observe(row, &found, number, math) {
                    obs.push(o);
                    assert(all_seen(obs@) =~= all_seen(before).push(o@));
                }
            },
        }
        i += 1;
    }
    if obs.len() == 0 {
        return Err(LoadError::NoObservations);
    }
    Ok(obs)
}

/// Loads a photometry table and converts its magnitudes to fluxes.
///
/// The table has the columns `jd` (or `mjd`), `magpsf` (or `mag`), `sigmapsf` (or
/// `mag_err`), and either `fid` (1 for g, 2 for r, 3 for i) or `filter`. Rows with
/// missing or non-finite values are skipped.
pub fn load_csv<N: Fn(&str) -> Option<Binary64>, M: Fn(Elementary) -> Binary64>(
    bytes: &Vec<u8>,
    number: &N,
    math: &M,
) -> (r: Result<Vec<Obs>, LoadError>)
    requires
        is_number_reader(*number),
        is_function(*math),
    ensures
        outcome_of(r) == loaded(bytes@, readings(*number), answers(*math)),
{
    let headers: Vec<String> = match read_headers(bytes, true) {
        Ok(headers) => headers,
        Err(e) => {
            return Err(LoadError::Headers(e));
        },
    };
    let rows: Vec<Result<Vec<String>, String>> = read_rows(bytes, true);
    observations_in(&headers, &rows, number, math)
}

/// A band that observations are loaded for.
pub open spec fn is_loaded_band(band: Seq<char>) -> bool {
    band == "g"@ || band == "r"@ || band == "i"@ || band == "z"@ || band == "y"@
}

/// Every observation that is loaded has a finite time, a finite positive flux, a
/// finite error, and one of the bands g, r, i, z and y.
pub proof fn law_loaded_observations_are_valid(
    headers: Seq<Seq<char>>,
    rows: Seq<Result<Seq<Seq<char>>, Seq<char>>>,
    number: spec_fn(Seq<char>) -> Option<Binary64>,
    f: spec_fn(Elementary) -> Binary64,
)
    requires
        table_observations(headers, rows, number, f) is Ok,
    ensures
        ({
            let obs = table_observations(headers, rows, number, f)->Ok_0;
            &&& obs.len() > 0
            &&& forall|i: int|
                0 <= i < obs.len() ==> {
                    let o = #[trigger] obs[i];
                    &&& o.time.is_finite()
                    &&& o.flux.is_finite()
                    &&& Binary64::zero().lt(o.flux)
                    &&& o.flux_err.is_finite()
                    &&& is_loaded_band(o.band)
                }
        }),
{
    let c = columns_of(headers)->Ok_0;
    lemma_rows_are_valid(rows, c, number, f, rows.len());
}

proof fn lemma_rows_are_valid(
    rows: Seq<Result<Seq<Seq<char>>, Seq<char>>>,
    c: Columns,
    number: spec_fn(Seq<char>) -> Option<Binary64>,
    f: spec_fn(Elementary) -> Binary64,
    n: nat,
)
    requires
        rows_observations(rows, c, number, f, n) is Ok,
    ensures
        ({
            let obs = rows_observations(rows, c, number, f, n)->Ok_0;
            forall|i: int|
                0 <= i < obs.len() ==> {
                    let o = #[trigger] obs[i];
                    &&& o.time.is_finite()
                    &&& o.flux.is_finite()
                    &&& Binary64::zero().lt(o.flux)
                    &&& o.flux_err.is_finite()
                    &&& is_loaded_band(o.band)
                }
        }),
    decreases n,
{
    if n > 0 {
        lemma_rows_are_valid(rows, c, number, f, (n - 1) as nat);
    }
}

} // verus!

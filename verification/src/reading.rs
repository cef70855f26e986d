//! What texts and tables are read as, told by what they are made of.
use crate::bands::{frequency_of, wavelength_of};
use crate::binary64::Binary64;
use crate::elementary::Elementary;
use crate::light_curve::{grouped, lemma_grouped_push, Seen};
use crate::model::flux_of;
use crate::numbers::LIGHT_SPEED;
use crate::photometry::{
    column, columns_of, is_column, loaded, message, row_band, row_observation, rows_observations,
    table_observations, Columns, LoadFailure,
};
use crate::prepare::prepared;
use crate::source::{Prepared, PsoConfig};
use crate::survey::{has_csv_extension, refusal_message, table_source, Refusal};
use crate::table::{csv_headers, csv_rows};
use crate::text::{
    decimal_text, digits_value, is_digit, is_space, numeral_digits, text_before, trimmed,
    unsigned_value, without_tail,
};
use vstd::prelude::*;

verus! {

/// Trimming takes white space off both ends and nothing else: what is left starts and
/// ends with something else, or is empty.
pub proof fn law_trimming(lead: Seq<char>, s: Seq<char>, tail: Seq<char>)
    requires
        forall|i: int| 0 <= i < lead.len() ==> is_space(#[trigger] lead[i]),
        forall|i: int| 0 <= i < tail.len() ==> is_space(#[trigger] tail[i]),
        s.len() > 0 ==> !is_space(s[0]) && !is_space(s[s.len() - 1]),
    ensures
        trimmed(lead + s + tail) == s,
    decreases lead.len() + tail.len(),
{
    let all = lead + s + tail;
    if lead.len() > 0 {
        assert(is_space(lead[0]));
        assert(all.drop_first() =~= lead.drop_first() + s + tail);
        assert forall|i: int| 0 <= i < lead.drop_first().len() implies is_space(
            #[trigger] lead.drop_first()[i],
        ) by {
            assert(is_space(lead[i + 1]));
        }
        law_trimming(lead.drop_first(), s, tail);
    } else if s.len() > 0 {
        assert(all =~= s + tail);
        assert(all[0] == s[0]);
        lemma_tail_goes(s, tail);
    } else if tail.len() > 0 {
        assert(is_space(tail[0]));
        assert(all.drop_first() =~= lead + s + tail.drop_first());
        assert forall|i: int| 0 <= i < tail.drop_first().len() implies is_space(
            #[trigger] tail.drop_first()[i],
        ) by {
            assert(is_space(tail[i + 1]));
        }
        law_trimming(lead, s, tail.drop_first());
    } else {
        assert(all =~= s);
    }
}

proof fn lemma_tail_goes(s: Seq<char>, tail: Seq<char>)
    requires
        s.len() > 0,
        !is_space(s[s.len() - 1]),
        forall|i: int| 0 <= i < tail.len() ==> is_space(#[trigger] tail[i]),
    ensures
        without_tail(s + tail) == s,
    decreases tail.len(),
{
    let all = s + tail;
    if tail.len() > 0 {
        assert(is_space(tail[tail.len() - 1]));
        assert(all.drop_last() =~= s + tail.drop_last());
        assert forall|i: int| 0 <= i < tail.drop_last().len() implies is_space(
            #[trigger] tail.drop_last()[i],
        ) by {
            assert(is_space(tail[i]));
        }
        lemma_tail_goes(s, tail.drop_last());
    } else {
        assert(all =~= s);
    }
}

/// What counts as white space: the 25 characters of Unicode's White_Space.
pub proof fn law_white_space(c: char)
    ensures
        is_space(c) <==> {
            let u = c as u32;
            ||| u == 0x09 || u == 0x0a || u == 0x0b || u == 0x0c || u == 0x0d || u == 0x20
            ||| u == 0x85 || u == 0xa0 || u == 0x1680
            ||| u == 0x2000 || u == 0x2001 || u == 0x2002 || u == 0x2003 || u == 0x2004
            ||| u == 0x2005 || u == 0x2006 || u == 0x2007 || u == 0x2008 || u == 0x2009
            ||| u == 0x200a || u == 0x2028 || u == 0x2029 || u == 0x202f || u == 0x205f
            ||| u == 0x3000
        },
{
}

/// Numerals. A digit denotes its value; a digit behind a numeral makes ten times its
/// value and the digit's; one plus sign may stand in front; a value above the limit is
/// none.
pub proof fn law_numerals(d: Seq<char>, v: nat, c: char, max: nat)
    requires
        unsigned_value(d, v) == Some(v),
        0x30 <= c as u32 <= 0x39,
    ensures
        unsigned_value(d.push(c), max) == if 10 * v + (c as u32 - 0x30) <= max {
            Some((10 * v + (c as u32 - 0x30)) as nat)
        } else {
            None
        },
        unsigned_value(seq![c], max) == if c as u32 - 0x30 <= max {
            Some((c as u32 - 0x30) as nat)
        } else {
            None
        },
        unsigned_value(d, max) == if v <= max {
            Some(v)
        } else {
            None
        },
        d[0] != '+' ==> unsigned_value(seq!['+'] + d, max) == unsigned_value(d, max),
{
    let digits = numeral_digits(d);
    let more = d.push(c);
    assert(numeral_digits(more) =~= digits.push(c)) by {
        if d[0] == '+' {
            assert(more.drop_first() =~= d.drop_first().push(c));
        }
    }
    assert(digits.push(c).drop_last() =~= digits);
    let grown = digits.push(c);
    assert forall|i: int| 0 <= i < grown.len() implies is_digit(#[trigger] grown[i]) by {
        if i < digits.len() {
            assert(is_digit(digits[i]));
        }
    }
    let one = seq![c];
    assert(one.drop_last() =~= seq![]);
    assert(digits_value(seq![]) == 0);
    assert(digits_value(one) == (c as u32 - 0x30) as nat);
    assert(numeral_digits(one) == one);
    assert forall|i: int| 0 <= i < one.len() implies is_digit(#[trigger] one[i]) by {}
    if d[0] != '+' {
        assert((seq!['+'] + d).drop_first() =~= d);
    }
}

/// What is no numeral: an empty text, a plus sign alone, and a text with something
/// other than a digit in it, but for a plus sign in front.
pub proof fn law_no_numerals(s: Seq<char>, i: int, max: nat)
    ensures
        unsigned_value(seq![], max) is None,
        unsigned_value(seq!['+'], max) is None,
        0 <= i < s.len() && !(0x30 <= s[i] as u32 <= 0x39) && (i > 0 || s[i] != '+')
            ==> unsigned_value(s, max) is None,
{
    assert(seq!['+'].drop_first().len() == 0);
    if 0 <= i < s.len() && !(0x30 <= s[i] as u32 <= 0x39) && (i > 0 || s[i] != '+') {
        let d = numeral_digits(s);
        if s[0] == '+' {
            assert(d[i - 1] == s[i]);
            assert(!is_digit(d[i - 1]));
        } else {
            assert(!is_digit(d[i]));
        }
    }
}

/// Decimal notation: a digit for a number below ten, and for one from ten on the last
/// digit behind the notation of the rest.
pub proof fn law_decimal_notation(n: nat, d: nat)
    requires
        d < 10,
    ensures
        decimal_text(d) == seq![(0x30 + d) as char],
        n > 0 ==> decimal_text(10 * n + d) == decimal_text(n).push((0x30 + d) as char),
{
    if n > 0 {
        assert((10 * n + d) / 10 == n);
        assert((10 * n + d) % 10 == d);
        assert(decimal_text(n) + seq![(0x30 + d) as char] =~= decimal_text(n).push(
            (0x30 + d) as char,
        ));
    }
}

/// Texts are ordered by their first difference: what they begin with alike does not
/// matter, the end of a text comes before anything, and characters go by code point.
pub proof fn law_texts_are_ordered_by_their_first_difference(
    p: Seq<char>,
    a: Seq<char>,
    b: Seq<char>,
)
    ensures
        text_before(p + a, p + b) == text_before(a, b),
        a.len() == 0 ==> (text_before(a, b) <==> b.len() > 0),
        b.len() == 0 ==> !text_before(a, b),
        a.len() > 0 && b.len() > 0 && a[0] != b[0] ==> (text_before(a, b) <==> (a[0] as int) < (
        b[0] as int)),
    decreases p.len(),
{
    if p.len() > 0 {
        assert((p + a).drop_first() =~= p.drop_first() + a);
        assert((p + b).drop_first() =~= p.drop_first() + b);
        law_texts_are_ordered_by_their_first_difference(p.drop_first(), a, b);
    } else {
        assert(p + a =~= a);
        assert(p + b =~= b);
    }
}

/// A file counts as a table if its name is something and `.csv` behind it.
pub proof fn law_tables_end_in_csv(stem: Seq<char>, name: Seq<char>)
    ensures
        has_csv_extension(stem + ".csv"@) <==> stem.len() > 0,
        has_csv_extension(name) ==> exists|s: Seq<char>|
            s.len() > 0 && #[trigger] (s + ".csv"@) == name,
{
    reveal_strlit(".csv");
    let whole = stem + ".csv"@;
    assert(whole.subrange(whole.len() - 4, whole.len() as int) =~= ".csv"@);
    if has_csv_extension(name) {
        let s = name.subrange(0, name.len() - 4);
        assert(s + ".csv"@ =~= name);
    }
}

/// Wavelengths, in angstrom, by band name, and frequencies as the speed of light over
/// them; no other name has either.
pub proof fn law_bands_have_these_wavelengths(band: Seq<char>)
    ensures
        ({
            let green = band == "g"@ || band == "ztfg"@ || band == "lsstg"@ || band == "ZTF_g"@;
            let red = band == "r"@ || band == "ztfr"@ || band == "lsstr"@ || band == "ZTF_r"@;
            let near = band == "i"@ || band == "ztfi"@ || band == "lssti"@ || band == "ZTF_i"@;
            let far = band == "z"@ || band == "ztfz"@ || band == "lsstz"@;
            let farther = band == "y"@ || band == "lssty"@;
            let violet = band == "u"@ || band == "lsstu"@;
            &&& green ==> wavelength_of(band) == Some(4770u64)
            &&& red && !green ==> wavelength_of(band) == Some(6231u64)
            &&& near && !green && !red ==> wavelength_of(band) == Some(7625u64)
            &&& far && !green && !red && !near ==> wavelength_of(band) == Some(9100u64)
            &&& farther && !green && !red && !near && !far ==> wavelength_of(band) == Some(9710u64)
            &&& violet && !green && !red && !near && !far && !farther ==> wavelength_of(band)
                == Some(3540u64)
            &&& !green && !red && !near && !far && !farther && !violet ==> wavelength_of(band)
                is None
            &&& frequency_of(band) is Some <==> wavelength_of(band) is Some
            &&& wavelength_of(band) matches Some(angstrom) ==> frequency_of(band) == Some(
                (Binary64 { bits: LIGHT_SPEED }).over(Binary64::of_count(angstrom)),
            )
        }),
{
}

/// The band of a row in a table with filter codes is that of its code, 1, 2 or 3; in
/// one with filter names alone, that of its name; white space round either does not
/// matter.
pub proof fn law_band_of_a_row(row: Seq<Seq<char>>, c: Columns)
    ensures
        ({
            let code = c.fid is Some && 0 <= c.fid->0 < row.len();
            let n = unsigned_value(trimmed(row[c.fid->0]), u32::MAX as nat);
            &&& c.fid is Some && !code ==> row_band(row, c) is None
            &&& code && n == Some(1nat) ==> row_band(row, c) == Some("g"@)
            &&& code && n == Some(2nat) ==> row_band(row, c) == Some("r"@)
            &&& code && n == Some(3nat) ==> row_band(row, c) == Some("i"@)
            &&& code && n != Some(1nat) && n != Some(2nat) && n != Some(3nat) ==> row_band(row, c)
                is None
        }),
        ({
            let named = c.fid is None && c.filter is Some && 0 <= c.filter->0 < row.len();
            let name = trimmed(row[c.filter->0]);
            let green = name == "g"@ || name == "ZTF_g"@ || name == "ztfg"@ || name == "lsstg"@;
            let red = name == "r"@ || name == "ZTF_r"@ || name == "ztfr"@ || name == "lsstr"@;
            let near = name == "i"@ || name == "ZTF_i"@ || name == "ztfi"@ || name == "lssti"@;
            let far = name == "z"@ || name == "ztfz"@ || name == "lsstz"@;
            let farther = name == "y"@ || name == "lssty"@;
            &&& c.fid is None && !named ==> row_band(row, c) is None
            &&& named && green ==> row_band(row, c) == Some("g"@)
            &&& named && !green && red ==> row_band(row, c) == Some("r"@)
            &&& named && !green && !red && near ==> row_band(row, c) == Some("i"@)
            &&& named && !green && !red && !near && far ==> row_band(row, c) == Some("z"@)
            &&& named && !green && !red && !near && !far && farther ==> row_band(row, c) == Some(
                "y"@,
            )
            &&& named && !green && !red && !near && !far && !farther ==> row_band(row, c) is None
        }),
{
}

/// A column is the first of its name.
pub proof fn law_columns_are_the_first_of_their_name(
    headers: Seq<Seq<char>>,
    name: Seq<char>,
    i: int,
)
    ensures
        (0 <= i < headers.len() && headers[i] == name && forall|j: int|
            0 <= j < i ==> #[trigger] headers[j] != name) ==> column(headers, name) == Some(i),
        column(headers, name) is None <==> forall|j: int|
            0 <= j < headers.len() ==> #[trigger] headers[j] != name,
{
    if 0 <= i < headers.len() && headers[i] == name && forall|j: int|
        0 <= j < i ==> #[trigger] headers[j] != name {
        assert(is_column(headers, name, i));
        assert(headers.contains(name));
        let k = choose|k: int| is_column(headers, name, k);
        assert(is_column(headers, name, k));
        if k < i {
            assert(headers[k] != name);
        } else if i < k {
            assert(headers[i] != name);
        }
    }
    if headers.contains(name) {
        let j = choose|j: int| 0 <= j < headers.len() && headers[j] == name;
        assert(headers[j] == name);
    }
    if exists|j: int| 0 <= j < headers.len() && #[trigger] headers[j] == name {
        let j = choose|j: int| 0 <= j < headers.len() && #[trigger] headers[j] == name;
        assert(headers.contains(name));
    }
}

/// The columns of a table: the time in `jd`, or else in `mjd`; the magnitude in
/// `magpsf`, or else in `mag`; its error in `sigmapsf`, or else in `mag_err`; the band
/// in `fid` and `filter`, where they are there. The first of the three that is missing
/// is what is reported.
pub proof fn law_columns_of_a_table(headers: Seq<Seq<char>>)
    ensures
        ({
            let time = if column(headers, "jd"@) is Some {
                column(headers, "jd"@)
            } else {
                column(headers, "mjd"@)
            };
            let mag = if column(headers, "magpsf"@) is Some {
                column(headers, "magpsf"@)
            } else {
                column(headers, "mag"@)
            };
            let err = if column(headers, "sigmapsf"@) is Some {
                column(headers, "sigmapsf"@)
            } else {
                column(headers, "mag_err"@)
            };
            &&& time is None ==> columns_of(headers) == Err::<Columns, LoadFailure>(
                LoadFailure::NoTimeColumn,
            )
            &&& time is Some && mag is None ==> columns_of(headers) == Err::<Columns, LoadFailure>(
                LoadFailure::NoMagnitudeColumn,
            )
            &&& time is Some && mag is Some && err is None ==> columns_of(headers) == Err::<
                Columns,
                LoadFailure,
            >(LoadFailure::NoErrorColumn)
            &&& time is Some && mag is Some && err is Some ==> {
                &&& columns_of(headers) matches Ok(c)
                &&& Some(c.time) == time
                &&& Some(c.mag) == mag
                &&& Some(c.err) == err
                &&& c.fid == column(headers, "fid"@)
                &&& c.filter == column(headers, "filter"@)
            }
        }),
{
}

/// The observation in a row. The time is read as it stands, magnitude and error
/// without white space round them. There is an observation where all three are read,
/// the time is finite, the error above zero, the band known, and the flux that the
/// magnitude comes to is finite, with a finite error, and not at or below zero.
pub proof fn law_observation_in_a_row(
    row: Seq<Seq<char>>,
    c: Columns,
    number: spec_fn(Seq<char>) -> Option<Binary64>,
    f: spec_fn(Elementary) -> Binary64,
)
    ensures
        ({
            let reaches = 0 <= c.time < row.len() && 0 <= c.mag < row.len() && 0 <= c.err
                < row.len();
            let time = number(row[c.time]);
            let mag = number(trimmed(row[c.mag]));
            let err = number(trimmed(row[c.err]));
            let zero = Binary64::zero();
            let flux = flux_of(mag->0, err->0, f).0;
            let flux_err = flux_of(mag->0, err->0, f).1;
            let sound = reaches && time is Some && mag is Some && err is Some && (
            time->0).is_finite() && zero.lt(err->0) && row_band(row, c) is Some && flux.is_finite()
                && flux_err.is_finite() && !flux.le(zero);
            &&& !sound ==> row_observation(row, c, number, f) is None
            &&& sound ==> row_observation(row, c, number, f) == Some(
                (Seen { time: time->0, flux, flux_err, band: row_band(row, c)->0 }),
            )
        }),
{
}

/// A table is read row by row. `seen` is what has been seen up to each row: nothing at
/// first, then what was seen before and the row's observation, if it holds one. If no
/// row fails, what was seen at the end is read, if there is any; else reading ends with
/// the error of the first row that fails.
pub proof fn law_table_is_read_row_by_row(
    headers: Seq<Seq<char>>,
    rows: Seq<Result<Seq<Seq<char>>, Seq<char>>>,
    number: spec_fn(Seq<char>) -> Option<Binary64>,
    f: spec_fn(Elementary) -> Binary64,
    c: Columns,
    seen: Seq<Seq<Seen>>,
    k: int,
)
    requires
        columns_of(headers) == Ok::<Columns, LoadFailure>(c),
        0 <= k <= rows.len(),
        forall|i: int| 0 <= i < k ==> (#[trigger] rows[i]) is Ok,
        seen[0].len() == 0,
        forall|i: int|
            0 <= i < k ==> seen[i + 1] == match row_observation(
                (#[trigger] rows[i])->Ok_0,
                c,
                number,
                f,
            ) {
                Some(o) => seen[i].push(o),
                None => seen[i],
            },
    ensures
        k == rows.len() && seen[k].len() > 0 ==> table_observations(headers, rows, number, f) == Ok::<
            Seq<Seen>,
            LoadFailure,
        >(seen[k]),
        k == rows.len() && seen[k].len() == 0 ==> table_observations(headers, rows, number, f)
            == Err::<Seq<Seen>, LoadFailure>(LoadFailure::NoObservations),
        k < rows.len() && rows[k] is Err ==> table_observations(headers, rows, number, f) == Err::<
            Seq<Seen>,
            LoadFailure,
        >(LoadFailure::Row(rows[k]->Err_0)),
{
    lemma_rows_so_far(rows, number, f, c, seen, k, k as nat);
    if k < rows.len() && rows[k] is Err {
        lemma_error_stays(rows, number, f, c, k, rows.len());
    }
}

proof fn lemma_rows_so_far(
    rows: Seq<Result<Seq<Seq<char>>, Seq<char>>>,
    number: spec_fn(Seq<char>) -> Option<Binary64>,
    f: spec_fn(Elementary) -> Binary64,
    c: Columns,
    seen: Seq<Seq<Seen>>,
    k: int,
    n: nat,
)
    requires
        n <= k <= rows.len(),
        forall|i: int| 0 <= i < k ==> (#[trigger] rows[i]) is Ok,
        seen[0].len() == 0,
        forall|i: int|
            0 <= i < k ==> seen[i + 1] == match row_observation(
                (#[trigger] rows[i])->Ok_0,
                c,
                number,
                f,
            ) {
                Some(o) => seen[i].push(o),
                None => seen[i],
            },
    ensures
        rows_observations(rows, c, number, f, n) == Ok::<Seq<Seen>, LoadFailure>(seen[n as int]),
    decreases n,
{
    if n > 0 {
        lemma_rows_so_far(rows, number, f, c, seen, k, (n - 1) as nat);
        assert(rows[n - 1] is Ok);
    } else {
        assert(seen[0] =~= seq![]);
    }
}

proof fn lemma_error_stays(
    rows: Seq<Result<Seq<Seq<char>>, Seq<char>>>,
    number: spec_fn(Seq<char>) -> Option<Binary64>,
    f: spec_fn(Elementary) -> Binary64,
    c: Columns,
    k: int,
    n: nat,
)
    requires
        0 <= k < n <= rows.len(),
        rows[k] is Err,
        rows_observations(rows, c, number, f, k as nat) is Ok,
    ensures
        rows_observations(rows, c, number, f, n) == Err::<Seq<Seen>, LoadFailure>(
            LoadFailure::Row(rows[k]->Err_0),
        ),
    decreases n,
{
    if k < n - 1 {
        lemma_error_stays(rows, number, f, c, k, (n - 1) as nat);
    }
}

/// The bytes of a table are read as headers and rows that need not be of one length:
/// without headers there is nothing, without its columns neither.
pub proof fn law_bytes_are_read_as_a_table(
    bytes: Seq<u8>,
    number: spec_fn(Seq<char>) -> Option<Binary64>,
    f: spec_fn(Elementary) -> Binary64,
    c: PsoConfig,
)
    ensures
        csv_headers(bytes, true) matches Err(e) ==> loaded(bytes, number, f) == Err::<
            Seq<Seen>,
            LoadFailure,
        >(LoadFailure::Headers(e)),
        csv_headers(bytes, true) matches Ok(headers) ==> {
            &&& columns_of(headers) matches Err(e) ==> loaded(bytes, number, f) == Err::<
                Seq<Seen>,
                LoadFailure,
            >(e)
            &&& loaded(bytes, number, f) == table_observations(
                headers,
                csv_rows(bytes, true),
                number,
                f,
            )
        },
        loaded(bytes, number, f) matches Err(e) ==> table_source(bytes, c, number, f) matches Err(
            Refusal::Table(failure),
        ) && failure == e,
        loaded(bytes, number, f) matches Ok(obs) ==> match prepared(grouped(obs), c) {
            Prepared::Ready(s) => table_source(bytes, c, number, f) matches Ok(source) && source
                == s,
            Prepared::Unfittable(r) => table_source(bytes, c, number, f) matches Err(
                Refusal::TooLittle { n_obs, n_bands },
            ) && n_obs == r.n_obs && n_bands == r.n_bands,
            Prepared::Empty => table_source(bytes, c, number, f) matches Err(Refusal::NoBands),
        },
{
}

/// Observations are grouped one by one: one more goes to the end of its band, which
/// begins with it if it is the first of that band; the other bands stay as they are.
pub proof fn law_observations_are_grouped_one_by_one(obs: Seq<Seen>, o: Seen, name: Seq<char>)
    ensures
        grouped(seq![]).dom() == Set::<Seq<char>>::empty(),
        ({
            let before = grouped(obs);
            let after = grouped(obs.push(o));
            let known = before.dom().contains(o.band);
            let none = Seq::<Binary64>::empty();
            &&& after.dom() == before.dom().insert(o.band)
            &&& name != o.band && before.dom().contains(name) ==> after[name] == before[name]
            &&& after[o.band].times == (if known { before[o.band].times } else { none }).push(
                o.time,
            )
            &&& after[o.band].fluxes == (if known { before[o.band].fluxes } else { none }).push(
                o.flux,
            )
            &&& after[o.band].flux_errs == (if known { before[o.band].flux_errs } else { none }).push(
                o.flux_err,
            )
        }),
{
    lemma_grouped_push(obs, o);
    assert(grouped(seq![]).dom() =~= Set::<Seq<char>>::empty());
    assert(grouped(obs.push(o)).dom() =~= grouped(obs).dom().insert(o.band));
}

/// The messages for what can be wrong with a table.
pub proof fn law_messages(
    e: LoadFailure,
    path: Seq<char>,
    text: Seq<char>,
    n_obs: usize,
    n_bands: usize,
)
    ensures
        message(LoadFailure::Headers(text), path) == "Cannot read headers: "@ + text,
        message(LoadFailure::NoTimeColumn, path) == "CSV must have 'jd' or 'mjd' column"@,
        message(LoadFailure::NoMagnitudeColumn, path) == "CSV must have 'magpsf' or 'mag' column"@,
        message(LoadFailure::NoErrorColumn, path) == "CSV must have 'sigmapsf' or 'mag_err' column"@,
        message(LoadFailure::Row(text), path) == "Parse error: "@ + text,
        message(LoadFailure::NoObservations, path) == "No valid g/r/i/z/y observations in "@ + path,
        refusal_message(Refusal::Unreadable(text), path) == "Cannot open "@ + path + ": "@ + text,
        refusal_message(Refusal::Table(e), path) == message(e, path),
        refusal_message(Refusal::TooLittle { n_obs, n_bands }, path) == "too little data: "@
            + decimal_text(n_obs as nat) + " obs across "@ + decimal_text(n_bands as nat)
            + " bands"@,
        refusal_message(Refusal::NoBands, path) == "no usable bands"@,
{
}

} // verus!

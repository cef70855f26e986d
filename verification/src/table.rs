//! Comma-separated tables, as the `csv` crate reads them.
use vstd::prelude::*;

verus! {

/// The texts of a row of cells.
pub open spec fn texts(cells: Seq<String>) -> Seq<Seq<char>> {
    cells.map_values(|cell: String| cell@)
}

/// The texts of a row, or of the error in its place.
pub open spec fn row_texts(row: Result<Vec<String>, String>) -> Result<
    Seq<Seq<char>>,
    Seq<char>,
> {
    match row {
        Ok(cells) => Ok(texts(cells@)),
        Err(e) => Err(e@),
    }
}

/// What `csv::Reader::headers` gives for a table: the cells of its first row, or
/// the text of an error.
pub uninterp spec fn csv_headers(bytes: Seq<u8>, flexible: bool) -> Result<
    Seq<Seq<char>>,
    Seq<char>,
>;

/// What `csv::Reader::records` gives for a table: row by row after the first, the
/// cells, or the text of an error.
pub uninterp spec fn csv_rows(bytes: Seq<u8>, flexible: bool) -> Seq<
    Result<Seq<Seq<char>>, Seq<char>>,
>;

/// Reads the first row of a table with `csv::Reader::headers`, on a reader with
/// default settings but for `flexible`. Taken on trust: the outcome depends on
/// the bytes and on that setting alone.
#[verifier::external_body]
pub(crate) fn read_headers(bytes: &Vec<u8>, flexible: bool) -> (r: Result<Vec<String>, String>)
    ensures
        row_texts(r) == csv_headers(bytes@, flexible),
{
    let mut reader = csv::ReaderBuilder::new().flexible(flexible).from_reader(bytes.as_slice());
    match reader.headers() {
        Ok(record) => Ok(record.iter().map(|cell| cell.to_string()).collect()),
        Err(e) => Err(e.to_string()),
    }
}

/// Reads the rows after the first with `csv::Reader::records`, on a reader with
/// default settings but for `flexible`. Taken on trust: the outcome depends on
/// the bytes and on that setting alone.
#[verifier::external_body]
pub(crate) fn read_rows(bytes: &Vec<u8>, flexible: bool) -> (r: Vec<Result<Vec<String>, String>>)
    ensures
        r@.map_values(|row: Result<Vec<String>, String>| row_texts(row)) == csv_rows(
            bytes@,
            flexible,
        ),
{
    let mut reader = csv::ReaderBuilder::new().flexible(flexible).from_reader(bytes.as_slice());
    reader.records().map(
        |row|
            match row {
                Ok(record) => Ok(record.iter().map(|cell| cell.to_string()).collect()),
                Err(e) => Err(e.to_string()),
            },
    ).collect()
}

} // verus!

use vstd::prelude::*;

verus! {

/// The header row that csv's reader finds in `data`, if it can be read.
pub uninterp spec fn csv_header_of(data: Seq<u8>) -> Option<Seq<Seq<char>>>;

/// The records (header row excluded) that csv's reader yields for `data`
/// before its first failure, and whether such a failure came.
pub uninterp spec fn csv_records_of(data: Seq<u8>) -> (Seq<Seq<Seq<char>>>, bool);

/// The line that csv's writer produces for one record, if it can write it.
pub uninterp spec fn csv_line_of(fields: Seq<Seq<char>>) -> Option<Seq<u8>>;

/// The text of a table: one line per row, in order, if every row can be written.
pub open spec fn table_text(rows: Seq<Seq<Seq<char>>>) -> Option<Seq<u8>>
    decreases rows.len(),
{
    if rows.len() == 0 {
        Some(Seq::empty())
    } else {
        match (table_text(rows.drop_last()), csv_line_of(rows.last())) {
            (Some(t), Some(l)) => Some(t + l),
            _ => None,
        }
    }
}

/// Relies on csv's `ReaderBuilder` (delimiter `;`, records of any length) and
/// `Reader::headers`: the first record of `data`, or the error met reading it.
#[verifier::external_body]
pub(crate) fn read_header(data: &[u8]) -> (r: Result<Vec<String>, csv::Error>)
    ensures
        match r {
            Ok(h) => csv_header_of(data@) == Some(h.deep_view()),
            Err(_) => csv_header_of(data@) is None,
        },
{
    let mut rdr = csv::ReaderBuilder::new().delimiter(b';').flexible(true).from_reader(data);
    Ok(rdr.headers()?.iter().map(String::from).collect())
}

/// Relies on csv's `ReaderBuilder` (delimiter `;`, records of any length) and
/// `Reader::records`: the records after the header row, up to the first error.
#[verifier::external_body]
pub(crate) fn read_records(data: &[u8]) -> (r: (Vec<Vec<String>>, Option<csv::Error>))
    ensures
        csv_records_of(data@) == (r.0.deep_view(), r.1 is Some),
{
    let mut rdr = csv::ReaderBuilder::new().delimiter(b';').flexible(true).from_reader(data);
    let mut rows: Vec<Vec<String>> = Vec::new();
    for rec in rdr.records() {
        match rec {
            Ok(rec) => rows.push(rec.iter().map(String::from).collect()),
            Err(e) => return (rows, Some(e)),
        }
    }
    (rows, None)
}

/// Relies on csv's `WriterBuilder` (delimiter `;`) and `Writer::write_record`:
/// the bytes of one record written on its own, terminator included.
#[verifier::external_body]
pub(crate) fn encode_record(fields: &Vec<String>) -> (r: Result<Vec<u8>, csv::Error>)
    ensures
        match r {
            Ok(b) => csv_line_of(fields.deep_view()) == Some(b@),
            Err(_) => csv_line_of(fields.deep_view()) is None,
        },
{
    let mut wtr = csv::WriterBuilder::new().delimiter(b';').from_writer(Vec::new());
    wtr.write_record(fields)?;
    wtr.into_inner().map_err(|e| csv::Error::from(e.into_error()))
}

} // verus!

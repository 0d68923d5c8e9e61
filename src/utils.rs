use chrono::{Datelike, Timelike};
use vstd::prelude::*;

use crate::errors::HeaderError;
use crate::records::{csv_header_of, read_header};
use crate::text::{chars_of, contains_seq, contains_str, push_char};

verus! {

/// Characters that may not stand in a file or directory name.
pub const INVALID_CHARS: [char; 14] = [
    '$', '%', '^', '*', '/', ' ', '.', ':', '<', '>', '"', '\\', '|', '?',
];

/// Whether `c` may not stand in a file or directory name.
pub open spec fn is_invalid_char(c: char) -> bool {
    c == '$' || c == '%' || c == '^' || c == '*' || c == '/' || c == ' ' || c == '.' || c == ':'
        || c == '<' || c == '>' || c == '"' || c == '\\' || c == '|' || c == '?'
}

/// `s` with every invalid character replaced by `_`.
pub open spec fn sanitized(s: Seq<char>) -> Seq<char> {
    s.map_values(|c: char| if is_invalid_char(c) { '_' } else { c })
}

fn is_invalid(c: char) -> (r: bool)
    ensures
        r == is_invalid_char(c),
{
    let mut i: usize = 0;
    while i < INVALID_CHARS.len()
        invariant
            0 <= i <= 14,
            INVALID_CHARS@ == seq!['$', '%', '^', '*', '/', ' ', '.', ':', '<', '>', '"', '\\', '|', '?'],
            forall|k: int| 0 <= k < i ==> INVALID_CHARS@[k] != c,
        decreases 14 - i,
    {
        if INVALID_CHARS[i] == c {
            return true;
        }
        i = i + 1;
    }
    false
}

/// Replaces every character that may not stand in a file name by `_`.
pub fn replace_all_invalid_characters(field: &str) -> (r: String)
    ensures
        r@ == sanitized(field@),
{
    let cs = chars_of(field);
    let mut r = String::new();
    let mut i: usize = 0;
    while i < cs.len()
        invariant
            i <= cs@.len(),
            cs@ == field@,
            r@ == sanitized(cs@.take(i as int)),
        decreases cs@.len() - i,
    {
        let c = cs[i];
        if is_invalid(c) {
            push_char(&mut r, '_');
        } else {
            push_char(&mut r, c);
        }
        assert(cs@.take(i + 1) == cs@.take(i as int).push(c));
        i = i + 1;
    }
    assert(cs@.take(i as int) == cs@);
    r
}

/// Whether `i` is the first position of `names` whose name contains `field`.
pub open spec fn is_first_match(names: Seq<Seq<char>>, field: Seq<char>, i: int) -> bool {
    &&& 0 <= i < names.len()
    &&& contains_seq(names[i], field)
    &&& forall|j: int| 0 <= j < i ==> !contains_seq(#[trigger] names[j], field)
}

/// Whether no name of `names` contains `field`.
pub open spec fn no_match(names: Seq<Seq<char>>, field: Seq<char>) -> bool {
    forall|j: int| 0 <= j < names.len() ==> !contains_seq(#[trigger] names[j], field)
}

/// The first position of `names` whose name contains `field`, if any.
pub open spec fn first_match(names: Seq<Seq<char>>, field: Seq<char>) -> Option<int> {
    if exists|i: int| is_first_match(names, field, i) {
        Some(choose|i: int| is_first_match(names, field, i))
    } else {
        None
    }
}

/// The first match is the only one.
pub proof fn lemma_first_match(names: Seq<Seq<char>>, field: Seq<char>, i: int)
    requires
        is_first_match(names, field, i),
    ensures
        first_match(names, field) == Some(i),
{
    let c = choose|k: int| is_first_match(names, field, k);
    assert(c == i) by {
        if c < i {
            assert(!contains_seq(names[c], field));
        } else if c > i {
            assert(!contains_seq(names[i], field));
        }
    }
}

/// Looks up a column of a header row by name.
pub trait Header: Sized {
    /// The names of the columns.
    spec fn header_names(&self) -> Seq<Seq<char>>;

    /// The first column whose name contains `field`.
    fn get_field(&mut self, field: &str) -> (r: Result<usize, HeaderError>)
        ensures
            *final(self) == *old(self),
            match r {
                Ok(i) => is_first_match(old(self).header_names(), field@, i as int),
                Err(_) => no_match(old(self).header_names(), field@),
            },
    ;
}

impl Header for Vec<String> {
    open spec fn header_names(&self) -> Seq<Seq<char>> {
        self.deep_view()
    }

    fn get_field(&mut self, name: &str) -> (r: Result<usize, HeaderError>) {
        let mut i: usize = 0;
        while i < self.len()
            invariant
                i <= self@.len(),
                forall|j: int| 0 <= j < i ==> !contains_seq(#[trigger] self.deep_view()[j], name@),
            decreases self@.len() - i,
        {
            if contains_str(self[i].as_str(), name) {
                return Ok(i);
            }
            i = i + 1;
        }
        Err(HeaderError)
    }
}

/// A calendar date and a time of day, as the parts a spreadsheet date is built from.
#[derive(Debug, Clone, Copy, PartialEq, Eq, Structural)]
pub struct DateTime {
    pub year: i32,
    pub month: u32,
    pub day: u32,
    pub hour: u32,
    pub minute: u32,
    pub second: u32,
}

impl DateTime {
    /// The parts as (year, month, day, hour, minute, second).
    pub open spec fn parts(&self) -> (int, int, int, int, int, int) {
        (
            self.year as int,
            self.month as int,
            self.day as int,
            self.hour as int,
            self.minute as int,
            self.second as int,
        )
    }
}

/// The date and time that chrono reads from `s` in the format
/// `%-d.%-m.%Y %H:%M:%S`, as (year, month, day, hour, minute, second).
pub uninterp spec fn date_time_of(s: Seq<char>) -> Option<(int, int, int, int, int, int)>;

/// Relies on chrono's `NaiveDateTime::parse_from_str` with the format
/// `%-d.%-m.%Y %H:%M:%S`, and on its date and time accessors.
#[verifier::external_body]
fn parse_date_time(field: &str) -> (r: Option<DateTime>)
    ensures
        match r {
            Some(d) => date_time_of(field@) == Some(d.parts()),
            None => date_time_of(field@) is None,
        },
{
    let t = chrono::NaiveDateTime::parse_from_str(field, "%-d.%-m.%Y %H:%M:%S").ok()?;
    Some(DateTime {
        year: t.year(),
        month: t.month(),
        day: t.day(),
        hour: t.hour(),
        minute: t.minute(),
        second: t.second(),
    })
}

/// Reads a cell as a date and time written `day.month.year hour:minute:second`.
pub fn try_parse_time(field: &str) -> (r: Result<DateTime, ()>)
    ensures
        match r {
            Ok(d) => date_time_of(field@) == Some(d.parts()),
            Err(_) => date_time_of(field@) is None,
        },
{
    match parse_date_time(field) {
        Some(d) => Ok(d),
        None => Err(()),
    }
}

/// A spreadsheet cell: a date, or text as it stands.
#[derive(Debug, Clone, PartialEq, Eq)]
pub enum SheetCell {
    Date(DateTime),
    Text(String),
}

/// Whether `c` is the cell written for the text `field`: a date where the text
/// reads as one, else the text unchanged.
pub open spec fn is_cell_of(c: SheetCell, field: Seq<char>) -> bool {
    match date_time_of(field) {
        Some(p) => c matches SheetCell::Date(d) && d.parts() == p,
        None => c matches SheetCell::Text(t) && t@ == field,
    }
}

/// The cell written for the text `field`.
pub fn sheet_cell(field: &String) -> (c: SheetCell)
    ensures
        is_cell_of(c, field@),
{
    match try_parse_time(field.as_str()) {
        Ok(d) => SheetCell::Date(d),
        Err(_) => SheetCell::Text(field.clone()),
    }
}

/// The header row of the delimited text `data`; a header row that cannot be
/// read is an invalid header.
pub fn get_headers(data: &[u8]) -> (r: Result<Vec<String>, HeaderError>)
    ensures
        match r {
            Ok(h) => csv_header_of(data@) == Some(h.deep_view()),
            Err(_) => csv_header_of(data@) is None,
        },
{
    match read_header(data) {
        Ok(h) => Ok(h),
        Err(_) => Err(HeaderError),
    }
}

/// Sanitizing twice gives what sanitizing once gives, and the result holds no
/// invalid character.
pub proof fn lemma_sanitize_idempotent(s: Seq<char>)
    ensures
        sanitized(sanitized(s)) == sanitized(s),
        forall|i: int| 0 <= i < sanitized(s).len() ==> !is_invalid_char(#[trigger] sanitized(s)[i]),
{
    assert(sanitized(sanitized(s)) =~= sanitized(s));
}

} // verus!

use vstd::prelude::*;

use crate::group::{
    grouped, groups_view, insert_row, lemma_grouped, lemma_total_rows_prefix,
    lemma_with_category_len, passed, passes_filter, total_rows, Group, GroupView,
};
use crate::errors::{Failure, TransformError};
use crate::records::{
    csv_header_of, csv_line_of, csv_records_of, encode_record, read_header, read_records, table_text,
};
use crate::text::{lowercase, push_char};
use crate::utils::{
    first_match, is_cell_of, lemma_first_match, replace_all_invalid_characters, sanitized,
    sheet_cell, Header, SheetCell,
};

verus! {

/// One step of a running job, with the running count it reached.
#[derive(Debug, Clone, Copy, PartialEq, Eq, Structural)]
pub enum Progress {
    /// Records that passed the filter so far.
    RecordsRead(usize),
    /// Table lines produced so far, header lines included.
    TableLines(u128),
    /// Spreadsheet rows produced so far, header rows included.
    SheetLines(u128),
}

/// Receives the progress of a running job, in the order it happens.
pub trait ProgressSink {
    fn report(&mut self, event: Progress);
}

/// What a job is asked to do: the category field, the input file and output
/// directory (as path text), and an optional filter (field, expected value).
#[derive(Clone, Debug)]
pub struct Options {
    selected_category: String,
    pub input: String,
    pub output: String,
    filter: Option<(String, String)>,
}

/// The filter as plain values.
pub open spec fn filter_view(f: Option<(String, String)>) -> Option<(Seq<char>, Seq<char>)> {
    match f {
        Some((field, value)) => Some((field@, value@)),
        None => None,
    }
}

/// A resolved filter (column and expected value) as plain values.
pub open spec fn column_filter_view(f: Option<(usize, String)>) -> Option<(int, Seq<char>)> {
    match f {
        Some((i, value)) => Some((i as int, value@)),
        None => None,
    }
}

fn clone_filter(f: &Option<(String, String)>) -> (r: Option<(String, String)>)
    ensures
        r == *f,
{
    match f {
        Some((field, value)) => Some((field.clone(), value.clone())),
        None => None,
    }
}

impl Options {
    /// The category field's name.
    pub closed spec fn category(&self) -> Seq<char> {
        self.selected_category@
    }

    /// The input path.
    pub closed spec fn input_path(&self) -> Seq<char> {
        self.input@
    }

    /// The output path.
    pub closed spec fn output_path(&self) -> Seq<char> {
        self.output@
    }

    /// The filter as plain values.
    pub closed spec fn filter_spec(&self) -> Option<(Seq<char>, Seq<char>)> {
        filter_view(self.filter)
    }

    /// Options with the given category, paths and filter.
    pub fn new(
        selected_category: String,
        input: String,
        output: String,
        filter: Option<(String, String)>,
    ) -> (r: Options)
        ensures
            r.category() == selected_category@,
            r.input_path() == input@,
            r.output_path() == output@,
            r.filter_spec() == filter_view(filter),
    {
        Options { selected_category, input, output, filter }
    }

    /// Replaces the filter, and returns a copy of the options as they now are.
    pub fn set_filter(&mut self, filter: Option<(String, String)>) -> (r: Self)
        ensures
            final(self).category() == old(self).category(),
            final(self).input_path() == old(self).input_path(),
            final(self).output_path() == old(self).output_path(),
            final(self).filter_spec() == filter_view(filter),
            r == *final(self),
    {
        self.filter = filter;
        Options {
            selected_category: self.selected_category.clone(),
            input: self.input.clone(),
            output: self.output.clone(),
            filter: clone_filter(&self.filter),
        }
    }

    /// The category field's name.
    pub fn get_selected_category(&self) -> (r: String)
        ensures
            r@ == self.category(),
    {
        self.selected_category.clone()
    }

    /// The filter, if one is set.
    pub fn get_filter(&self) -> (r: Option<(String, String)>)
        ensures
            filter_view(r) == self.filter_spec(),
    {
        clone_filter(&self.filter)
    }
}

/// The columns of the category and of the filter in a header row, if both
/// fields resolve; the filter comes with its expected value.
pub open spec fn columns_of(
    names: Seq<Seq<char>>,
    category: Seq<char>,
    filter: Option<(Seq<char>, Seq<char>)>,
) -> Option<(int, Option<(int, Seq<char>)>)> {
    match first_match(names, category) {
        None => None,
        Some(c) => match filter {
            None => Some((c, None)),
            Some((field, value)) => match first_match(names, field) {
                None => None,
                Some(f) => Some((c, Some((f, value)))),
            },
        },
    }
}

/// What reading `data` gives: the number of records that pass the filter and
/// their groups, or the kind of failure met first.
pub open spec fn read_spec(
    data: Seq<u8>,
    header_row: Seq<Seq<char>>,
    category: Seq<char>,
    filter: Option<(Seq<char>, Seq<char>)>,
) -> Result<(nat, Seq<GroupView>), Failure> {
    match csv_header_of(data) {
        None => Err(Failure::InvalidHeader),
        Some(names) => match columns_of(names, category, filter) {
            None => Err(Failure::HeaderResolution),
            Some((c, f)) => if csv_records_of(data).1 {
                Err(Failure::RowParse)
            } else {
                let p = passed(csv_records_of(data).0, f);
                Ok((p.len(), grouped(p, header_row, c, category)))
            },
        },
    }
}

/// The name of a job's directory, before sanitizing: the category, or
/// `category_field_value` when a filter is set.
pub open spec fn job_directory(category: Seq<char>, filter: Option<(Seq<char>, Seq<char>)>) -> Seq<
    char,
> {
    match filter {
        Some((field, value)) => category + seq!['_'] + field + seq!['_'] + value,
        None => category,
    }
}

/// The cells of a sheet as plain values.
pub open spec fn cells_view(cells: Seq<Vec<SheetCell>>) -> Seq<Seq<SheetCell>> {
    cells.map_values(|row: Vec<SheetCell>| row@)
}

/// Whether `cells` is the sheet written for `rows`: one cell per field, in place.
pub open spec fn is_sheet_of(cells: Seq<Seq<SheetCell>>, rows: Seq<Seq<Seq<char>>>) -> bool {
    &&& cells.len() == rows.len()
    &&& forall|i: int|
        0 <= i < rows.len() ==> (#[trigger] cells[i]).len() == rows[i].len() && forall|k: int|
            0 <= k < rows[i].len() ==> is_cell_of(#[trigger] cells[i][k], rows[i][k])
}

/// The counters of a finished job.
#[derive(Debug, Clone, Copy, PartialEq, Eq, Structural)]
pub struct RunStats {
    /// Records that passed the filter.
    pub records_read: usize,
    /// Table lines written, header lines left out.
    pub csv_lines_written: usize,
    /// Spreadsheet rows written, header rows left out.
    pub spreadsheet_lines_written: usize,
    /// Groups formed.
    pub group_count: usize,
}

/// What is written for one group: two file names and their contents.
pub struct GroupOutput {
    pub csv_name: String,
    pub xlsx_name: String,
    pub table: Vec<u8>,
    pub cells: Vec<Vec<SheetCell>>,
}

/// What a job produces: its counters, the name of the directory to create under
/// the output path, and the files of each group.
pub struct JobOutput {
    pub stats: RunStats,
    pub directory: String,
    pub files: Vec<GroupOutput>,
}

/// Whether `o` is what is written for the group `g`.
pub open spec fn output_of(o: GroupOutput, g: GroupView) -> bool {
    &&& o.csv_name@ == sanitized(g.name) + ".csv"@
    &&& o.xlsx_name@ == sanitized(g.name) + ".xlsx"@
    &&& table_text(g.rows) == Some(o.table@)
    &&& is_sheet_of(cells_view(o.cells@), g.rows)
}

/// Whether `out` is the output of a job whose reading gave `n` records in the
/// groups `gs`, writing into the directory named `dir`.
pub open spec fn job_output_of(out: JobOutput, n: nat, gs: Seq<GroupView>, dir: Seq<char>) -> bool {
    &&& out.stats.records_read == n
    &&& out.stats.group_count == gs.len()
    &&& out.stats.csv_lines_written == total_rows(gs)
    &&& out.stats.spreadsheet_lines_written == total_rows(gs)
    &&& out.directory@ == dir
    &&& out.files@.len() == gs.len()
    &&& forall|j: int| 0 <= j < gs.len() ==> output_of(#[trigger] out.files@[j], gs[j])
}

/// Whether every group's table can be written.
pub open spec fn all_encodable(gs: Seq<GroupView>) -> bool {
    forall|j: int| 0 <= j < gs.len() ==> (#[trigger] table_text(gs[j].rows)) is Some
}

/// The outcome of reading: how many records passed the filter, how many groups
/// they formed, and the groups.
pub struct Classification {
    pub records_read: usize,
    pub group_count: usize,
    pub groups: Vec<Group>,
}

fn row_passes(row: &Vec<String>, filter: &Option<(usize, String)>) -> (r: bool)
    ensures
        r == passes_filter(row.deep_view(), column_filter_view(*filter)),
{
    match filter {
        Some((i, value)) => *i < row.len() && row[*i] == *value,
        None => true,
    }
}

/// A job: options, the header row that starts every group, and where progress goes.
pub struct Transformer<S> {
    pub sink: S,
    options: Options,
    headers: Vec<String>,
}

impl<S> Transformer<S> {
    /// The options of the job.
    pub closed spec fn options_spec(&self) -> Options {
        self.options
    }

    /// Where progress goes.
    pub closed spec fn sink_spec(&self) -> S {
        self.sink
    }

    /// The header row that starts every group.
    pub closed spec fn header_row(&self) -> Seq<Seq<char>> {
        self.headers.deep_view()
    }
}

impl<S: ProgressSink> Transformer<S> {
    /// A job with the given progress sink, options and header row.
    pub fn new(sink: S, options: Options, headers: Vec<String>) -> (r: Transformer<S>)
        ensures
            r.sink_spec() == sink,
            r.options_spec() == options,
            r.header_row() == headers.deep_view(),
    {
        Transformer { sink, options, headers }
    }

    /// The sanitized name of the directory that the job writes into.
    pub fn job_directory_name(&self) -> (r: String)
        ensures
            r@ == sanitized(
                job_directory(self.options_spec().category(), self.options_spec().filter_spec()),
            ),
    {
        match &self.options.filter {
            Some((field, value)) => {
                let mut name = self.options.selected_category.clone();
                push_char(&mut name, '_');
                name.append(field.as_str());
                push_char(&mut name, '_');
                name.append(value.as_str());
                assert(name@ =~= job_directory(
                    self.options.category(),
                    self.options.filter_spec(),
                ));
                replace_all_invalid_characters(name.as_str())
            },
            None => replace_all_invalid_characters(self.options.selected_category.as_str()),
        }
    }

    /// The file names, table then spreadsheet, of the group named `name`.
    pub fn get_csv_xlsx_path(&self, name: &String) -> (r: (String, String))
        ensures
            r.0@ == sanitized(name@) + ".csv"@,
            r.1@ == sanitized(name@) + ".xlsx"@,
    {
        let valid_name = replace_all_invalid_characters(name.as_str());
        let mut path_csv = valid_name.clone();
        path_csv.append(".csv");
        let mut path_xlsx = valid_name;
        path_xlsx.append(".xlsx");
        (path_csv, path_xlsx)
    }

    /// The input and output paths of the job.
    pub fn get_input_output_path(&self) -> (r: Option<(String, String)>)
        ensures
            r matches Some((i, o)) && i@ == self.options_spec().input_path()
                && o@ == self.options_spec().output_path(),
    {
        Some((self.options.input.clone(), self.options.output.clone()))
    }

    /// Writes `records` as delimited text, one line each, reporting the running
    /// line count after each; `csv_wl` ends raised by the lines past the header.
    pub fn write_csv(&mut self, records: &Vec<Vec<String>>, csv_wl: &mut u128) -> (r: Result<
        Vec<u8>,
        TransformError,
    >)
        requires
            records@.len() >= 1,
            *old(csv_wl) + records@.len() <= u128::MAX,
        ensures
            final(self).options_spec() == old(self).options_spec(),
            final(self).header_row() == old(self).header_row(),
            match r {
                Ok(t) => {
                    &&& table_text(records.deep_view()) == Some(t@)
                    &&& *final(csv_wl) == *old(csv_wl) + records@.len() - 1
                },
                Err(e) => {
                    &&& table_text(records.deep_view()) is None
                    &&& e.kind() == Failure::Encode
                    &&& *old(csv_wl) < *final(csv_wl) <= *old(csv_wl) + records@.len()
                },
            },
    {
        let ghost rows = records.deep_view();
        let mut text: Vec<u8> = Vec::new();
        let mut i: usize = 0;
        while i < records.len()
            invariant
                i <= records@.len(),
                rows == records.deep_view(),
                self.options == old(self).options,
                self.headers == old(self).headers,
                *old(csv_wl) + records@.len() <= u128::MAX,
                *csv_wl == *old(csv_wl) + i,
                table_text(rows.take(i as int)) == Some(text@),
            decreases records@.len() - i,
        {
            assert(rows.take(i + 1).drop_last() =~= rows.take(i as int));
            assert(rows.take(i + 1).last() == records@[i as int].deep_view());
            *csv_wl = *csv_wl + 1;
            self.sink.report(Progress::TableLines(*csv_wl));
            match encode_record(&records[i]) {
                Ok(line) => {
                    let mut line = line;
                    text.append(&mut line);
                },
                Err(e) => {
                    proof {
                        lemma_table_text_none(rows, i as int + 1);
                    }
                    return Err(TransformError::Encode(e));
                },
            }
            i = i + 1;
        }
        assert(rows.take(i as int) =~= rows);
        *csv_wl = *csv_wl - 1;
        Ok(text)
    }

    /// Lays `records` out as spreadsheet cells, a date where a field reads as
    /// one, reporting the running row count after each row; `excel_wl` ends
    /// raised by the rows past the header.
    pub fn write_xlsx(&mut self, records: &Vec<Vec<String>>, excel_wl: &mut u128) -> (r: Vec<
        Vec<SheetCell>,
    >)
        requires
            records@.len() >= 1,
            *old(excel_wl) + records@.len() <= u128::MAX,
        ensures
            final(self).options_spec() == old(self).options_spec(),
            final(self).header_row() == old(self).header_row(),
            is_sheet_of(cells_view(r@), records.deep_view()),
            *final(excel_wl) == *old(excel_wl) + records@.len() - 1,
    {
        let mut cells: Vec<Vec<SheetCell>> = Vec::new();
        let mut i: usize = 0;
        while i < records.len()
            invariant
                i <= records@.len(),
                self.options == old(self).options,
                self.headers == old(self).headers,
                *old(excel_wl) + records@.len() <= u128::MAX,
                *excel_wl == *old(excel_wl) + i,
                is_sheet_of(cells_view(cells@), records.deep_view().take(i as int)),
            decreases records@.len() - i,
        {
            *excel_wl = *excel_wl + 1;
            self.sink.report(Progress::SheetLines(*excel_wl));
            let record = &records[i];
            let mut row: Vec<SheetCell> = Vec::new();
            let mut k: usize = 0;
            while k < record.len()
                invariant
                    k <= record@.len(),
                    row@.len() == k,
                    forall|m: int| 0 <= m < k ==> is_cell_of(#[trigger] row@[m], record@[m]@),
                decreases record@.len() - k,
            {
                row.push(sheet_cell(&record[k]));
                k = k + 1;
            }
            let ghost prev = cells_view(cells@);
            cells.push(row);
            assert(is_sheet_of(cells_view(cells@), records.deep_view().take(i + 1))) by {
                let cv = cells_view(cells@);
                let rv = records.deep_view().take(i + 1);
                let pv = records.deep_view().take(i as int);
                assert(cv =~= prev.push(row@));
                assert(cv.len() == rv.len());
                assert forall|a: int| 0 <= a < rv.len() implies (#[trigger] cv[a]).len()
                    == rv[a].len() && forall|b: int|
                    0 <= b < rv[a].len() ==> is_cell_of(#[trigger] cv[a][b], rv[a][b]) by {
                    if a == i {
                        assert(cv[a] == row@);
                        assert(rv[a] =~= record.deep_view());
                    } else {
                        assert(cv[a] == prev[a]);
                        assert(rv[a] == pv[a]);
                    }
                }
            }
            i = i + 1;
        }
        assert(records.deep_view().take(i as int) =~= records.deep_view());
        *excel_wl = *excel_wl - 1;
        cells
    }

    /// Runs the job on the input `data`: reads and groups its records, then
    /// produces each group's table and sheet.
    pub fn execute(&mut self, data: &[u8]) -> (r: Result<JobOutput, TransformError>)
        ensures
            final(self).options_spec() == old(self).options_spec(),
            final(self).header_row() == old(self).header_row(),
            ({
                let read = read_spec(
                    data@,
                    old(self).header_row(),
                    old(self).options_spec().category(),
                    old(self).options_spec().filter_spec(),
                );
                let dir = sanitized(
                    job_directory(
                        old(self).options_spec().category(),
                        old(self).options_spec().filter_spec(),
                    ),
                );
                match r {
                    Ok(out) => read matches Ok((n, gs)) && all_encodable(gs) && job_output_of(
                        out,
                        n,
                        gs,
                        dir,
                    ),
                    Err(e) => match read {
                        Err(k) => e.kind() == k,
                        Ok((n, gs)) => e.kind() == Failure::Encode && !all_encodable(gs),
                    },
                }
            }),
    {
        let c = match self.read_csv(data) {
            Ok(c) => c,
            Err(e) => return Err(e),
        };
        let ghost gv = groups_view(c.groups@);
        proof {
            let names = csv_header_of(data@)->Some_0;
            let cols = columns_of(names, self.options.category(), self.options.filter_spec())->Some_0;
            let p = passed(csv_records_of(data@).0, cols.1);
            lemma_grouped(p, self.headers.deep_view(), cols.0, self.options.category());
            lemma_with_category_len(p, cols.0);
            assert forall|k: int| 0 <= k < gv.len() implies (#[trigger] gv[k]).rows.len() >= 1 by {
                assert(gv[k] == grouped(p, self.headers.deep_view(), cols.0, self.options.category())[k]);
            }
            lemma_total_rows_prefix(gv, gv.len() as int);
        }
        let directory = self.job_directory_name();
        let mut csv_wl: u128 = 0;
        let mut excel_wl: u128 = 0;
        let mut files: Vec<GroupOutput> = Vec::new();
        let mut j: usize = 0;
        while j < c.groups.len()
            invariant
                j <= c.groups@.len(),
                gv == groups_view(c.groups@),
                read_spec(
                    data@,
                    old(self).header_row(),
                    old(self).options_spec().category(),
                    old(self).options_spec().filter_spec(),
                ) == Ok::<(nat, Seq<GroupView>), Failure>((c.records_read as nat, gv)),
                directory@ == sanitized(
                    job_directory(
                        old(self).options_spec().category(),
                        old(self).options_spec().filter_spec(),
                    ),
                ),
                c.group_count == gv.len(),
                self.options == old(self).options,
                self.header_row() == old(self).header_row(),
                forall|k: int| 0 <= k < gv.len() ==> (#[trigger] gv[k]).rows.len() >= 1,
                total_rows(gv) <= c.records_read,
                csv_wl == total_rows(gv.take(j as int)),
                excel_wl == total_rows(gv.take(j as int)),
                files@.len() == j,
                forall|m: int| 0 <= m < j ==> output_of(#[trigger] files@[m], gv[m]),
                forall|m: int| 0 <= m < j ==> (#[trigger] table_text(gv[m].rows)) is Some,
            decreases c.groups@.len() - j,
        {
            let group = &c.groups[j];
            assert(group@ == gv[j as int]);
            proof {
                lemma_total_rows_prefix(gv, j as int);
                assert(gv.take(j + 1).drop_last() =~= gv.take(j as int));
            }
            assert(csv_wl + group.rows@.len() <= u128::MAX) by {
                assert(group.rows.len() <= usize::MAX);
                assert(c.records_read <= usize::MAX);
            }
            let (csv_name, xlsx_name) = self.get_csv_xlsx_path(&group.name);
            let table = match self.write_csv(&group.rows, &mut csv_wl) {
                Ok(t) => t,
                Err(e) => {
                    assert(!all_encodable(gv)) by {
                        assert(table_text(gv[j as int].rows) is None);
                    }
                    return Err(e);
                },
            };
            let cells = self.write_xlsx(&group.rows, &mut excel_wl);
            let out = GroupOutput { csv_name, xlsx_name, table, cells };
            assert(output_of(out, gv[j as int]));
            files.push(out);
            j = j + 1;
        }
        proof {
            assert(gv.take(j as int) =~= gv);
        }
        let stats = RunStats {
            records_read: c.records_read,
            csv_lines_written: csv_wl as usize,
            spreadsheet_lines_written: excel_wl as usize,
            group_count: c.group_count,
        };
        Ok(JobOutput { stats, directory, files })
    }

    /// Reads `data`: resolves the category and filter fields against its header
    /// row, then groups the records.
    pub fn read_csv(&mut self, data: &[u8]) -> (r: Result<Classification, TransformError>)
        ensures
            final(self).options_spec() == old(self).options_spec(),
            final(self).header_row() == old(self).header_row(),
            match r {
                Ok(c) => {
                    &&& read_spec(
                        data@,
                        old(self).header_row(),
                        old(self).options_spec().category(),
                        old(self).options_spec().filter_spec(),
                    ) == Ok::<(nat, Seq<GroupView>), Failure>(
                        (c.records_read as nat, groups_view(c.groups@)),
                    )
                    &&& c.group_count == c.groups@.len()
                },
                Err(e) => read_spec(
                    data@,
                    old(self).header_row(),
                    old(self).options_spec().category(),
                    old(self).options_spec().filter_spec(),
                ) == Err::<(nat, Seq<GroupView>), Failure>(e.kind()),
            },
    {
        let mut header = match read_header(data) {
            Ok(h) => h,
            Err(e) => return Err(TransformError::InvalidHeader(e)),
        };
        let ghost names = header.deep_view();
        let category_idx = match header.get_field(self.options.selected_category.as_str()) {
            Ok(i) => i,
            Err(e) => return Err(TransformError::HeaderResolution(e)),
        };
        proof {
            lemma_first_match(names, self.options.category(), category_idx as int);
        }
        let filter: Option<(usize, String)> = match &self.options.filter {
            Some((field, value)) => match header.get_field(field.as_str()) {
                Ok(i) => {
                    proof {
                        lemma_first_match(names, field@, i as int);
                    }
                    Some((i, value.clone()))
                },
                Err(e) => return Err(TransformError::HeaderResolution(e)),
            },
            None => None,
        };
        assert(columns_of(names, self.options.category(), self.options.filter_spec()) == Some(
            (category_idx as int, column_filter_view(filter)),
        ));
        let (records, failure) = read_records(data);
        if let Some(e) = failure {
            return Err(TransformError::RowParse(e));
        }
        Ok(self.classify_records(&records, category_idx, &filter))
    }

    /// Sorts the records that pass `filter` into groups by the lower-cased
    /// value of column `category_idx`, reporting each record that passes.
    pub fn classify_records(
        &mut self,
        records: &Vec<Vec<String>>,
        category_idx: usize,
        filter: &Option<(usize, String)>,
    ) -> (r: Classification)
        ensures
            final(self).options_spec() == old(self).options_spec(),
            final(self).header_row() == old(self).header_row(),
            r.records_read == passed(records.deep_view(), column_filter_view(*filter)).len(),
            groups_view(r.groups@) == grouped(
                passed(records.deep_view(), column_filter_view(*filter)),
                old(self).header_row(),
                category_idx as int,
                old(self).options_spec().category(),
            ),
            r.group_count == r.groups@.len(),
    {
        let ghost rows = records.deep_view();
        let ghost f = column_filter_view(*filter);
        let ghost header = self.headers.deep_view();
        let ghost field = self.options.category();
        let ghost cat = category_idx as int;
        let mut groups: Vec<Group> = Vec::new();
        let mut records_read: usize = 0;
        let mut group_count: usize = 0;
        let mut i: usize = 0;
        while i < records.len()
            invariant
                i <= records@.len(),
                rows == records.deep_view(),
                f == column_filter_view(*filter),
                header == self.headers.deep_view(),
                field == self.options.category(),
                cat == category_idx as int,
                self.options == old(self).options,
                self.headers == old(self).headers,
                records_read == passed(rows.take(i as int), f).len(),
                records_read <= i,
                groups_view(groups@) == grouped(passed(rows.take(i as int), f), header, cat, field),
                group_count == groups@.len(),
                group_count <= i,
            decreases records@.len() - i,
        {
            let row = &records[i];
            let ghost before = passed(rows.take(i as int), f);
            assert(rows.take(i + 1).drop_last() =~= rows.take(i as int));
            assert(rows.take(i + 1).last() == row.deep_view());
            if row_passes(row, filter) {
                assert(passed(rows.take(i + 1), f) == before.push(row.deep_view()));
                records_read = records_read + 1;
                self.sink.report(Progress::RecordsRead(records_read));
                assert(before.push(row.deep_view()).drop_last() =~= before);
                if category_idx < row.len() {
                    let key = lowercase(row[category_idx].as_str());
                    proof {
                        lemma_grouped(before, header, cat, field);
                    }
                    let started = insert_row(
                        &mut groups,
                        &self.headers,
                        row,
                        key,
                        &row[category_idx],
                        &self.options.selected_category,
                    );
                    if started {
                        group_count = group_count + 1;
                    }
                }
            } else {
                assert(passed(rows.take(i + 1), f) == before);
            }
            i = i + 1;
        }
        assert(rows.take(i as int) =~= rows);
        Classification { records_read, group_count, groups }
    }
}

proof fn lemma_table_text_none(rows: Seq<Seq<Seq<char>>>, n: int)
    requires
        0 < n <= rows.len(),
        csv_line_of(rows[n - 1]) is None,
    ensures
        table_text(rows) is None,
    decreases rows.len(),
{
    if n < rows.len() {
        lemma_table_text_none(rows.drop_last(), n);
    }
}

} // verus!

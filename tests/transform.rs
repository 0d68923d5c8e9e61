use csv_wizard::errors::TransformError;
use csv_wizard::transform::{JobOutput, Options, Progress, ProgressSink, Transformer};
use csv_wizard::utils::{DateTime, SheetCell};

struct Collect {
    events: Vec<Progress>,
}

impl ProgressSink for Collect {
    fn report(&mut self, event: Progress) {
        self.events.push(event);
    }
}

const CITIES: &str = "id;city;amount\n1;Berlin;10\n2;berlin;20\n3;Munich;5\n";

fn header() -> Vec<String> {
    vec!["id".to_string(), "city".to_string(), "amount".to_string()]
}

fn row(cells: &[&str]) -> Vec<String> {
    cells.iter().map(|c| c.to_string()).collect()
}

fn job(category: &str, filter: Option<(&str, &str)>) -> Transformer<Collect> {
    let filter = filter.map(|(f, v)| (f.to_string(), v.to_string()));
    let options = Options::new(category.to_string(), "in.csv".to_string(), "out".to_string(), filter);
    Transformer::new(Collect { events: Vec::new() }, options, header())
}

fn run(category: &str, filter: Option<(&str, &str)>, data: &str) -> (Transformer<Collect>, Result<JobOutput, TransformError>) {
    let mut t = job(category, filter);
    let r = t.execute(data.as_bytes());
    (t, r)
}

fn text(b: &[u8]) -> String {
    String::from_utf8(b.to_vec()).unwrap()
}

#[test]
fn end_to_end_two_groups() {
    let (_, r) = run("city", None, CITIES);
    let out = r.unwrap();
    assert_eq!(out.stats.group_count, 2);
    assert_eq!(out.stats.records_read, 3);
    assert_eq!(out.stats.csv_lines_written, 3);
    assert_eq!(out.stats.spreadsheet_lines_written, 3);
    assert_eq!(out.directory, "city");
    assert_eq!(out.files.len(), 2);
    let berlin = out.files.iter().find(|f| f.csv_name == "Berlin.csv").unwrap();
    assert_eq!(berlin.xlsx_name, "Berlin.xlsx");
    assert_eq!(text(&berlin.table), "id;city;amount\n1;Berlin;10\n2;berlin;20\n");
    assert_eq!(berlin.cells.len(), 3);
    let munich = out.files.iter().find(|f| f.csv_name == "Munich.csv").unwrap();
    assert_eq!(text(&munich.table), "id;city;amount\n3;Munich;5\n");
    assert_eq!(munich.cells.len(), 2);
}

#[test]
fn filter_keeps_matching_rows_only() {
    let (_, r) = run("city", Some(("amount", "10")), CITIES);
    let out = r.unwrap();
    assert_eq!(out.stats.records_read, 1);
    assert_eq!(out.stats.group_count, 1);
    assert_eq!(out.stats.csv_lines_written, 1);
    assert_eq!(out.directory, "city_amount_10");
    assert_eq!(out.files[0].csv_name, "Berlin.csv");
    assert_eq!(text(&out.files[0].table), "id;city;amount\n1;Berlin;10\n");
}

#[test]
fn filter_is_case_sensitive_and_exact() {
    let data = "id;city;amount\n1;Berlin;10\n2;Munich;100\n";
    let (_, r) = run("amount", Some(("city", "berlin")), data);
    let out = r.unwrap();
    assert_eq!(out.stats.records_read, 0);
    assert_eq!(out.stats.group_count, 0);
    assert!(out.files.is_empty());
}

#[test]
fn case_insensitive_groups_keep_first_casing() {
    let data = "id;name\n1;foo\n2;Foo\n3;FOO\n";
    let mut t = Transformer::new(Collect { events: Vec::new() }, Options::new("name".to_string(), String::new(), String::new(), None), row(&["id", "name"]));
    let out = t.execute(data.as_bytes()).unwrap();
    assert_eq!(out.stats.group_count, 1);
    assert_eq!(out.files[0].csv_name, "foo.csv");
    assert_eq!(text(&out.files[0].table), "id;name\n1;foo\n2;Foo\n3;FOO\n");
}

#[test]
fn short_row_is_counted_but_not_grouped() {
    let data = "id;city;amount\n1;Berlin;10\n4\n3;Munich;5\n";
    let (_, r) = run("city", None, data);
    let out = r.unwrap();
    assert_eq!(out.stats.records_read, 3);
    assert_eq!(out.stats.group_count, 2);
    assert_eq!(out.stats.csv_lines_written, 2);
}

#[test]
fn empty_category_value_gets_stand_in_name() {
    let data = "id;city;amount\n1;;10\n";
    let (_, r) = run("city", None, data);
    let out = r.unwrap();
    assert_eq!(out.files[0].csv_name, "Empty_city.csv");
}

#[test]
fn group_names_are_sanitized() {
    let data = "id;city;amount\n1;a/b c.d;10\n";
    let (_, r) = run("city", Some(("amount", "1.0")), data.replace(";10", ";1.0").as_str());
    let out = r.unwrap();
    assert_eq!(out.files[0].csv_name, "a_b_c_d.csv");
    assert_eq!(out.directory, "city_amount_1_0");
}

#[test]
fn header_match_is_by_containment() {
    let data = "start_date;date\nx;y\n";
    let mut t = Transformer::new(Collect { events: Vec::new() }, Options::new("date".to_string(), String::new(), String::new(), None), row(&["start_date", "date"]));
    let out = t.execute(data.as_bytes()).unwrap();
    assert_eq!(out.files[0].csv_name, "x.csv");
}

#[test]
fn unknown_category_is_header_resolution_error() {
    let (_, r) = run("country", None, CITIES);
    assert!(matches!(r, Err(TransformError::HeaderResolution(_))));
}

#[test]
fn unknown_filter_field_is_header_resolution_error() {
    let (_, r) = run("city", Some(("price", "1")), CITIES);
    assert!(matches!(r, Err(TransformError::HeaderResolution(_))));
}

#[test]
fn unreadable_header_is_invalid_header() {
    let mut t = job("city", None);
    let r = t.execute(b"id;\xff\xfe;amount\n1;x;2\n");
    assert!(matches!(r, Err(TransformError::InvalidHeader(_))));
}

#[test]
fn unreadable_row_is_row_parse_error() {
    let mut t = job("city", None);
    let r = t.execute(b"id;city;amount\n1;Berlin;10\n2;\xff\xfe;3\n");
    assert!(matches!(r, Err(TransformError::RowParse(_))));
    assert!(t.sink.events.is_empty());
}

#[test]
fn dates_become_date_cells() {
    let data = "id;city;when\n1;Berlin;1.3.2022 14:23:22\n2;Berlin;not a date\n";
    let mut t = Transformer::new(Collect { events: Vec::new() }, Options::new("city".to_string(), String::new(), String::new(), None), row(&["id", "city", "when"]));
    let out = t.execute(data.as_bytes()).unwrap();
    let cells = &out.files[0].cells;
    let expected = DateTime { year: 2022, month: 3, day: 1, hour: 14, minute: 23, second: 22 };
    assert_eq!(cells[1][2], SheetCell::Date(expected));
    assert_eq!(cells[2][2], SheetCell::Text("not a date".to_string()));
    assert_eq!(cells[0][2], SheetCell::Text("when".to_string()));
}

#[test]
fn progress_is_reported_in_order() {
    let (t, r) = run("city", Some(("amount", "10")), CITIES);
    r.unwrap();
    assert_eq!(
        t.sink.events,
        vec![
            Progress::RecordsRead(1),
            Progress::TableLines(1),
            Progress::TableLines(2),
            Progress::SheetLines(1),
            Progress::SheetLines(2),
        ]
    );
}

#[test]
fn running_counts_accumulate_over_groups() {
    let (t, r) = run("city", None, CITIES);
    r.unwrap();
    let table: Vec<u128> = t.sink.events.iter().filter_map(|e| match e {
        Progress::TableLines(n) => Some(*n),
        _ => None,
    }).collect();
    assert_eq!(table, vec![1, 2, 3, 3, 4]);
    let read: Vec<usize> = t.sink.events.iter().filter_map(|e| match e {
        Progress::RecordsRead(n) => Some(*n),
        _ => None,
    }).collect();
    assert_eq!(read, vec![1, 2, 3]);
}

#[test]
fn rerun_gives_same_groups() {
    let (_, a) = run("city", None, CITIES);
    let (_, b) = run("city", None, CITIES);
    let (a, b) = (a.unwrap(), b.unwrap());
    assert_eq!(a.stats, b.stats);
    for (x, y) in a.files.iter().zip(b.files.iter()) {
        assert_eq!(x.csv_name, y.csv_name);
        assert_eq!(x.table, y.table);
    }
}

#[test]
fn classify_records_counts_and_groups() {
    let mut t = job("city", None);
    let records = vec![row(&["1", "Berlin", "10"]), row(&["2", "BERLIN", "20"]), row(&["3"])];
    let c = t.classify_records(&records, 1, &None);
    assert_eq!(c.records_read, 3);
    assert_eq!(c.group_count, 1);
    assert_eq!(c.groups[0].key, "berlin");
    assert_eq!(c.groups[0].name, "Berlin");
    assert_eq!(c.groups[0].rows, vec![header(), records[0].clone(), records[1].clone()]);
}

#[test]
fn classify_records_with_filter_on_short_row() {
    let mut t = job("city", None);
    let records = vec![row(&["1", "Berlin", "10"]), row(&["2", "Munich"])];
    let c = t.classify_records(&records, 1, &Some((2, "10".to_string())));
    assert_eq!(c.records_read, 1);
    assert_eq!(c.group_count, 1);
}

#[test]
fn write_csv_counts_lines_past_header() {
    let mut t = job("city", None);
    let mut wl: u128 = 5;
    let rows = vec![header(), row(&["1", "a;b", "x"])];
    let bytes = t.write_csv(&rows, &mut wl).unwrap();
    assert_eq!(wl, 6);
    assert_eq!(text(&bytes), "id;city;amount\n1;\"a;b\";x\n");
}

#[test]
fn write_xlsx_counts_rows_past_header() {
    let mut t = job("city", None);
    let mut wl: u128 = 0;
    let cells = t.write_xlsx(&vec![header()], &mut wl);
    assert_eq!(wl, 0);
    assert_eq!(cells.len(), 1);
}

#[test]
fn read_csv_reports_counts() {
    let mut t = job("city", None);
    let c = t.read_csv(CITIES.as_bytes()).unwrap();
    assert_eq!(c.records_read, 3);
    assert_eq!(c.group_count, 2);
}

#[test]
fn file_names_of_group() {
    let t = job("city", None);
    let (c, x) = t.get_csv_xlsx_path(&"New York?".to_string());
    assert_eq!(c, "New_York_.csv");
    assert_eq!(x, "New_York_.xlsx");
}

#[test]
fn job_directory_name_without_and_with_filter() {
    assert_eq!(job("my city", None).job_directory_name(), "my_city");
    assert_eq!(job("city", Some(("a:b", "c"))).job_directory_name(), "city_a_b_c");
}

#[test]
fn input_output_paths() {
    let t = job("city", None);
    assert_eq!(t.get_input_output_path(), Some(("in.csv".to_string(), "out".to_string())));
}

#[test]
fn options_filter_and_category() {
    let mut o = Options::new("city".to_string(), "i".to_string(), "o".to_string(), None);
    assert_eq!(o.get_filter(), None);
    let copy = o.set_filter(Some(("amount".to_string(), "10".to_string())));
    assert_eq!(o.get_filter(), Some(("amount".to_string(), "10".to_string())));
    assert_eq!(copy.get_filter(), o.get_filter());
    assert_eq!(copy.get_selected_category(), "city");
    assert_eq!(copy.input, "i");
    assert_eq!(copy.output, "o");
}

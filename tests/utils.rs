use csv_wizard::errors::{DirectoryError, HeaderError};
use csv_wizard::utils::{get_headers, replace_all_invalid_characters, sheet_cell, try_parse_time, DateTime, Header, SheetCell};

#[test]
fn sanitize_replaces_every_invalid_character() {
    assert_eq!(replace_all_invalid_characters("$%^*/ .:<>\"\\|?"), "______________");
    assert_eq!(replace_all_invalid_characters("a b.c"), "a_b_c");
    assert_eq!(replace_all_invalid_characters("Keep-Case_09"), "Keep-Case_09");
    assert_eq!(replace_all_invalid_characters(""), "");
}

#[test]
fn sanitize_is_idempotent() {
    for s in ["a b", "x/y:z", "plain", "ä ö.ü", ""] {
        let once = replace_all_invalid_characters(s);
        assert_eq!(replace_all_invalid_characters(&once), once);
    }
}

#[test]
fn get_field_takes_first_containing_header() {
    let mut h: Vec<String> = vec!["start_date".to_string(), "date".to_string(), "x".to_string()];
    assert_eq!(h.get_field("date"), Ok(0));
    assert_eq!(h.get_field("x"), Ok(2));
    assert_eq!(h.get_field(""), Ok(0));
    assert_eq!(h.get_field("missing"), Err(HeaderError));
}

#[test]
fn parse_time_reads_day_month_year() {
    let d = try_parse_time("1.3.2022 14:23:22").unwrap();
    assert_eq!(d, DateTime { year: 2022, month: 3, day: 1, hour: 14, minute: 23, second: 22 });
    let d = try_parse_time("31.12.1999 00:00:00").unwrap();
    assert_eq!(d, DateTime { year: 1999, month: 12, day: 31, hour: 0, minute: 0, second: 0 });
}

#[test]
fn parse_time_rejects_other_text() {
    assert_eq!(try_parse_time("not a date"), Err(()));
    assert_eq!(try_parse_time("2022-03-01 14:23:22"), Err(()));
    assert_eq!(try_parse_time("32.1.2022 10:00:00"), Err(()));
    assert_eq!(try_parse_time(""), Err(()));
}

#[test]
fn sheet_cell_keeps_text_unchanged() {
    assert_eq!(sheet_cell(&"not a date".to_string()), SheetCell::Text("not a date".to_string()));
    assert!(matches!(sheet_cell(&"1.3.2022 14:23:22".to_string()), SheetCell::Date(_)));
}

#[test]
fn headers_of_data() {
    assert_eq!(get_headers(b"a;b;c\n1;2;3\n"), Ok(vec!["a".to_string(), "b".to_string(), "c".to_string()]));
    assert_eq!(get_headers(b""), Ok(vec![]));
    assert_eq!(get_headers(b"\xff;b\n"), Err(HeaderError));
}

#[test]
fn error_messages() {
    assert_eq!(HeaderError.message(), "Invalid header!");
    assert!(DirectoryError.message().starts_with("directory already exist!"));
}

use clog::log::Log;
use clog::record::{DecodeError, Record};
use clog::render::{column_widths, format_row, render, selects};
use clog::text::{join_chars, split_chars};

fn strings(v: &[&str]) -> Vec<String> {
    v.iter().map(|s| s.to_string()).collect()
}

fn sample_log() -> Log {
    Log {
        records: vec![
            Record::Header { columns: strings(&["A", "BB"]) },
            Record::Contact { fields: strings(&["x", "yy"]) },
        ],
    }
}

#[test]
fn widths_over_headers_and_contacts() {
    let log = sample_log();
    assert_eq!(column_widths(&log, "!*"), vec![1, 2]);
    assert_eq!(render(&log, "!*"), strings(&[" A │ BB │", " x │ yy │"]));
}

#[test]
fn header_filter_drops_contacts() {
    let log = sample_log();
    assert_eq!(column_widths(&log, "!"), vec![1, 2]);
    assert_eq!(render(&log, "!"), strings(&[" A │ BB │"]));
}

#[test]
fn excluded_records_do_not_widen_columns() {
    let log = Log {
        records: vec![
            Record::Header { columns: strings(&["A", "B"]) },
            Record::Contact { fields: strings(&["xxx", "yy", "zzzz"]) },
        ],
    };
    assert_eq!(column_widths(&log, "!"), vec![1, 1]);
    assert_eq!(render(&log, "!"), strings(&[" A │ B │"]));
    assert_eq!(column_widths(&log, "!*"), vec![3, 2, 4]);
    assert_eq!(render(&log, "!*"), strings(&[" A   │ B  │", " xxx │ yy │ zzzz │"]));
}

#[test]
fn comments_and_settings_alone_render_nothing() {
    let log = Log {
        records: vec![
            Record::Comment { comment: "note".to_string() },
            Record::VarSet { setting: "a".to_string(), value: "b".to_string() },
        ],
    };
    assert!(render(&log, "!*").is_empty());
    assert!(column_widths(&log, "!*").is_empty());
}

#[test]
fn comments_and_settings_render_when_chosen() {
    let log = Log {
        records: vec![
            Record::Comment { comment: "a note".to_string() },
            Record::VarSet { setting: "k".to_string(), value: "v".to_string() },
        ],
    };
    assert_eq!(column_widths(&log, "#$"), vec![6, 1]);
    assert_eq!(render(&log, "#$"), strings(&[" a note │", " k      │ v │"]));
}

#[test]
fn record_without_fields_prints_no_line() {
    let log = Log {
        records: vec![
            Record::Header { columns: vec![] },
            Record::Contact { fields: strings(&["x"]) },
        ],
    };
    assert_eq!(render(&log, "!*"), strings(&[" x │"]));
}

#[test]
fn empty_log_renders_nothing() {
    let log = Log::new();
    assert!(log.records.is_empty());
    assert!(render(&log, "!*").is_empty());
}

#[test]
fn row_pads_to_width() {
    assert_eq!(format_row(&strings(&["ab", "c"]), &vec![4, 1, 9]), " ab   │ c │");
    assert_eq!(format_row(&vec![], &vec![3]), "");
}

#[test]
fn kind_selection() {
    assert!(selects("!*", '*'));
    assert!(!selects("!*", '#'));
    assert!(!selects("", '!'));
}

#[test]
fn split_and_join() {
    assert_eq!(split_chars("a b  c", ' '), strings(&["a", "b", "", "c"]));
    assert_eq!(split_chars("", ' '), strings(&[""]));
    assert_eq!(join_chars(&strings(&["a", "", "c"]), " "), "a  c");
    assert_eq!(join_chars(&[], " "), "");
}

#[test]
fn load_text() {
    let log = Log::from_text("! Name Phone\n* Ada 555\n# hi\n$ theme dark\n").unwrap();
    assert_eq!(
        log.records,
        vec![
            Record::Header { columns: strings(&["Name", "Phone"]) },
            Record::Contact { fields: strings(&["Ada", "555"]) },
            Record::Comment { comment: "hi".to_string() },
            Record::VarSet { setting: "theme".to_string(), value: "dark".to_string() },
        ]
    );
}

#[test]
fn load_text_without_final_newline() {
    let log = Log::from_text("! A\n* x").unwrap();
    assert_eq!(log.records.len(), 2);
    assert!(Log::from_text("").unwrap().records.is_empty());
}

#[test]
fn load_fails_on_first_bad_line() {
    assert_eq!(
        Log::from_text("! A\nbad\n$ a b c\n").err(),
        Some(DecodeError::UnrecognizedIndicator { found: Some('b') })
    );
    assert_eq!(
        Log::from_text("! A\n$ a b c\nbad\n").err(),
        Some(DecodeError::MalformedRecord { field_count: 3 })
    );
    assert_eq!(
        Log::from_text("! A\n\n* x\n").err(),
        Some(DecodeError::UnrecognizedIndicator { found: None })
    );
}

#[test]
fn persist_text() {
    let log = Log::from_text("! Name Phone\n$ theme dark\n# a  b\n").unwrap();
    let text = log.to_text();
    assert_eq!(text, "! Name Phone\n$ theme dark\n# a  b\n");
    assert_eq!(Log::from_text(&text).unwrap().records, log.records);
}

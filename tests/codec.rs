use clog::record::{DecodeError, Record};

fn strings(v: &[&str]) -> Vec<String> {
    v.iter().map(|s| s.to_string()).collect()
}

#[test]
fn decode_header() {
    let r = Record::from_line("! Name Phone").unwrap();
    assert_eq!(r, Record::Header { columns: strings(&["Name", "Phone"]) });
    assert_eq!(r.to_char(), '!');
}

#[test]
fn decode_contact() {
    let r = Record::from_line("* Ada Lovelace 555-1234").unwrap();
    assert_eq!(r, Record::Contact { fields: strings(&["Ada", "Lovelace", "555-1234"]) });
    assert_eq!(r.to_char(), '*');
}

#[test]
fn decode_varset() {
    let r = Record::from_line("$ a b").unwrap();
    assert_eq!(r, Record::VarSet { setting: "a".to_string(), value: "b".to_string() });
    assert_eq!(r.to_char(), '$');
}

#[test]
fn decode_varset_three_fields_is_malformed() {
    assert_eq!(
        Record::from_line("$ a b c"),
        Err(DecodeError::MalformedRecord { field_count: 3 })
    );
}

#[test]
fn decode_varset_one_field_is_malformed() {
    assert_eq!(
        Record::from_line("$ theme"),
        Err(DecodeError::MalformedRecord { field_count: 1 })
    );
    assert_eq!(
        Record::from_line("$"),
        Err(DecodeError::MalformedRecord { field_count: 0 })
    );
}

#[test]
fn decode_comment_rejoins_fields() {
    let r = Record::from_line("# meeting notes").unwrap();
    assert_eq!(r, Record::Comment { comment: "meeting notes".to_string() });
    assert_eq!(r.to_char(), '#');
}

#[test]
fn decode_empty_line_is_unrecognized() {
    assert_eq!(
        Record::from_line(""),
        Err(DecodeError::UnrecognizedIndicator { found: None })
    );
}

#[test]
fn decode_line_without_indicator_is_unrecognized() {
    assert_eq!(
        Record::from_line("Name Phone"),
        Err(DecodeError::UnrecognizedIndicator { found: Some('N') })
    );
    assert_eq!(
        Record::from_line(" ! x"),
        Err(DecodeError::UnrecognizedIndicator { found: Some(' ') })
    );
}

#[test]
fn decode_indicator_alone_has_no_fields() {
    assert_eq!(Record::from_line("!"), Ok(Record::Header { columns: vec![] }));
    assert_eq!(Record::from_line("*"), Ok(Record::Contact { fields: vec![] }));
}

#[test]
fn decode_keeps_empty_fields_between_double_spaces() {
    assert_eq!(
        Record::from_line("* a  b"),
        Ok(Record::Contact { fields: strings(&["a", "", "b"]) })
    );
}

#[test]
fn encode_each_kind() {
    assert_eq!(Record::Header { columns: strings(&["Name", "Phone"]) }.to_string(), "! Name Phone");
    assert_eq!(Record::Contact { fields: strings(&["Ada", "555"]) }.to_string(), "* Ada 555");
    assert_eq!(
        Record::VarSet { setting: "theme".to_string(), value: "dark".to_string() }.to_string(),
        "$ theme dark"
    );
    assert_eq!(Record::Comment { comment: "a note".to_string() }.to_string(), "# a note");
}

#[test]
fn decode_encode_decode_is_stable() {
    for line in ["! Name Phone", "* Ada Lovelace 555-1234", "$ theme dark", "# meeting  notes", "#"] {
        let first = Record::from_line(line).unwrap();
        let again = Record::from_line(&first.to_string()).unwrap();
        assert_eq!(again, first);
    }
}

#[test]
fn display_fields_per_kind() {
    assert_eq!(
        Record::VarSet { setting: "a".to_string(), value: "b".to_string() }.display_fields(),
        strings(&["a", "b"])
    );
    assert_eq!(
        Record::Comment { comment: "x y".to_string() }.display_fields(),
        strings(&["x y"])
    );
    assert_eq!(Record::Header { columns: strings(&["A"]) }.display_fields(), strings(&["A"]));
}

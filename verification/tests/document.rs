use data_inspector::csv_read::{detect_delimiter, parse_csv_records};
use data_inspector::document::{
    detect_headers, load_csv, load_json, parse_json_text, parse_source_text, CsvDocument,
};
use data_inspector::json::JsonValue;

fn member<'a>(value: &'a JsonValue, key: &str) -> Option<&'a JsonValue> {
    match value {
        JsonValue::Object(members) => members.iter().find(|(k, _)| k == key).map(|(_, v)| v),
        _ => None,
    }
}

fn is_text(value: Option<&JsonValue>, expected: &str) -> bool {
    matches!(value, Some(JsonValue::String(s)) if s == expected)
}

#[test]
fn detects_common_delimiters() {
    assert_eq!(detect_delimiter("name,email\nAda,ada@example.com\n"), b',');
    assert_eq!(detect_delimiter("name;email\nAda;ada@example.com\n"), b';');
    assert_eq!(
        detect_delimiter("name\temail\nAda\tada@example.com\n"),
        b'\t'
    );
}

#[test]
fn detects_simple_header_row() {
    let records: Vec<Vec<String>> = vec![
        vec!["name".into(), "age".into(), "active".into()],
        vec!["Ada".into(), "37".into(), "true".into()],
    ];
    assert!(detect_headers(&records));
}

#[test]
fn detects_headerless_numeric_records() {
    let records: Vec<Vec<String>> = vec![
        vec!["1".into(), "19.73".into(), "true".into()],
        vec!["2".into(), "39.46".into(), "false".into()],
    ];
    assert!(!detect_headers(&records));
}

#[test]
fn parses_quoted_delimiters_and_multiline_cells() {
    let records = parse_csv_records(
        "id,note\n1,\"comma, stays inside\"\n2,\"line one\nline two\"\n",
        b',',
    )
    .expect("quoted CSV should parse");

    assert_eq!(records.len(), 3);
    assert_eq!(records[1][1], "comma, stays inside");
    assert_eq!(records[2][1], "line one\nline two");
}

#[test]
fn toggles_csv_header_layout_without_losing_first_row() {
    let mut document = CsvDocument {
        path: "test.csv".to_string(),
        headers: vec!["name".into(), "email".into()],
        rows: vec![vec!["Ada".into(), "ada@example.com".into()]],
        raw_text: "name,email\nAda,ada@example.com\n".into(),
        size_bytes: 0,
        delimiter: b',',
        has_headers: true,
    };

    document.set_has_headers(false);
    assert_eq!(document.headers, vec!["Column 1", "Column 2"]);
    assert_eq!(document.rows[0], vec!["name", "email"]);

    document.set_has_headers(true);
    assert_eq!(document.headers, vec!["name", "email"]);
    assert_eq!(document.rows, vec![vec!["Ada", "ada@example.com"]]);
}

#[test]
fn keeps_bom_in_raw_source_but_excludes_it_from_parsing() {
    let raw = "\u{feff}{\"name\":\"Ada\"}";
    assert!(raw.starts_with('\u{feff}'));
    assert_eq!(parse_source_text(raw), "{\"name\":\"Ada\"}");

    let value = parse_json_text(raw).expect("BOM-prefixed JSON should parse");
    assert!(is_text(member(&value, "name"), "Ada"));
}

#[test]
fn loaded_json_preserves_bom_in_raw_view_source() {
    let bytes = b"\xEF\xBB\xBF{\"name\":\"Ada\"}".to_vec();
    let document =
        load_json("bom.json".to_string(), bytes).expect("BOM-prefixed JSON should load");

    assert!(document.raw_text.starts_with('\u{feff}'));
    match &document.value {
        JsonValue::Object(members) => {
            assert_eq!(members.len(), 1);
            assert_eq!(members[0].0, "name");
            assert!(matches!(&members[0].1, JsonValue::String(s) if s == "Ada"));
        }
        other => panic!("expected an object, got {other:?}"),
    }
    assert_eq!(document.node_count, 2);
    assert_eq!(document.max_depth, 1);
}

#[test]
fn loaded_csv_preserves_bom_without_polluting_first_header() {
    let bytes = b"\xEF\xBB\xBFname,age\nAda,37\n".to_vec();
    let document =
        load_csv("bom.csv".to_string(), "csv", bytes).expect("BOM-prefixed CSV should load");

    assert!(document.raw_text.starts_with('\u{feff}'));
    assert_eq!(document.headers, vec!["name", "age"]);
    assert_eq!(document.rows, vec![vec!["Ada", "37"]]);
}

#[test]
fn rejects_non_utf8_source_with_clear_error() {
    let bytes = vec![0xFF, 0xFE, b'a', b',', b'b'];
    let error = load_csv("invalid.csv".to_string(), "csv", bytes)
        .expect_err("invalid UTF-8 CSV must be rejected");

    assert_eq!(error, "This file is not valid UTF-8 CSV.");
}

#[test]
fn reports_json_line_and_column_for_invalid_input() {
    let error = parse_json_text("{\n  \"name\": \"Ada\",\n}\n")
        .expect_err("trailing comma must be rejected");
    assert!(error.starts_with("Invalid JSON at line 3, column"));
}

#[test]
fn delimiter_detection_ignores_delimiters_inside_quotes() {
    let semicolon = "id;note\n1;\"comma, stays inside\"\n2;\"another, comma\"\n";
    assert_eq!(detect_delimiter(semicolon), b';');
}

#[test]
fn flexible_csv_parser_keeps_ragged_records_for_normalization() {
    let records = parse_csv_records("a,b,c\n1,2\n3,4,5\n", b',')
        .expect("ragged CSV should parse in flexible mode");
    assert_eq!(records[0].len(), 3);
    assert_eq!(records[1].len(), 2);
    assert_eq!(records[2].len(), 3);
}

use data_inspector::csv_read::delimiter_score;
use data_inspector::document::{
    csv_format_label, csv_table, detect_headers, document_format, generated_column_name, is_data_like,
    json_error_message, load_csv, load_json, parse_json_text, CsvDocument, DataDocument,
    DocumentFormat, JsonDocument,
};
use data_inspector::json::{document_metrics, JsonValue};
use data_inspector::number::is_float_text;
use data_inspector::state::{AppState, DataSelection};
use data_inspector::table::{
    cell_location, cell_value, column_copy_text, compare_csv_values, csv_bool,
    csv_delimiter_label, csv_preferred_width_chars, csv_selection, csv_value_type,
    inspector_cell_value, normalize_query, row_copy_text, visible_csv_rows,
};
use data_inspector::text::{decimal_string, eq_ignore_ascii_case, trimmed, truncate};
use data_inspector::tree::{
    collect_visible_nodes, copyable_value, inspector_value, is_simple_identifier,
    json_path_for_key, node_info, pointer_escape, value_summary, value_type,
};
use std::cmp::Ordering;

fn s(text: &str) -> String {
    text.to_string()
}

fn person() -> JsonValue {
    JsonValue::Object(vec![
        (s("name"), JsonValue::String(s("Ada"))),
        (
            s("tags"),
            JsonValue::Array(vec![JsonValue::String(s("x")), JsonValue::String(s("y"))]),
        ),
    ])
}

fn people_table(has_headers: bool) -> CsvDocument {
    CsvDocument {
        path: s("people.csv"),
        headers: vec![s("name"), s("age")],
        rows: vec![vec![s("Ada"), s("37")], vec![s("Bob"), s("")]],
        raw_text: s("name,age\nAda,37\nBob,\n"),
        size_bytes: 21,
        delimiter: b',',
        has_headers,
    }
}

// ---------------------------------------------------------------- text

#[test]
fn renders_decimal_numbers() {
    assert_eq!(decimal_string(0), "0");
    assert_eq!(decimal_string(7), "7");
    assert_eq!(decimal_string(1024), "1024");
    assert_eq!(decimal_string(usize::MAX), usize::MAX.to_string());
}

#[test]
fn trims_unicode_white_space() {
    assert_eq!(trimmed("  a b \t\n"), "a b");
    assert_eq!(trimmed("\u{3000}x\u{a0}"), "x");
    assert_eq!(trimmed("   "), "");
}

#[test]
fn truncates_with_ellipsis() {
    assert_eq!(truncate("abcdef", 3), "abc\u{2026}");
    assert_eq!(truncate("abc", 3), "abc");
    assert_eq!(truncate("", 0), "");
}

#[test]
fn compares_ignoring_ascii_case() {
    assert!(eq_ignore_ascii_case("TrUe", "true"));
    assert!(!eq_ignore_ascii_case("true", "truth"));
    assert!(!eq_ignore_ascii_case("\u{c9}", "\u{e9}"));
}

// ---------------------------------------------------------------- numbers

#[test]
fn recognises_float_syntax() {
    for accepted in ["0", "19.73", "-1", "+.5", "5.", "1e5", "2.5E-3", "inf", "-Infinity", "NaN"] {
        assert!(is_float_text(accepted), "{accepted} should be a number");
        assert!(accepted.parse::<f64>().is_ok());
    }
    for refused in ["", ".", "e5", "1e", "1e+", "--1", "1_000", " 1", "0x10", "infinit", "1.2.3"] {
        assert!(!is_float_text(refused), "{refused} should not be a number");
        assert!(refused.parse::<f64>().is_err());
    }
}

// ---------------------------------------------------------------- documents

#[test]
fn classifies_data_like_cells() {
    assert!(is_data_like(" null "));
    assert!(is_data_like("FALSE"));
    assert!(is_data_like("  "));
    assert!(is_data_like("3.5e2"));
    assert!(!is_data_like("name"));
    assert!(!is_data_like("-"));
}

#[test]
fn duplicate_titles_rule_out_a_header_row() {
    let records: Vec<Vec<String>> = vec![vec![s("Name"), s(" name ")], vec![s("1"), s("2")]];
    assert!(!detect_headers(&records));
    let blank: Vec<Vec<String>> = vec![vec![s("id"), s(" ")], vec![s("1"), s("2")]];
    assert!(!detect_headers(&blank));
    let mixed: Vec<Vec<String>> = vec![vec![s("a"), s("1")], vec![s("2"), s("3")]];
    assert!(detect_headers(&mixed));
    assert!(!detect_headers(&[]));
}

#[test]
fn names_generated_columns() {
    assert_eq!(generated_column_name(1), "Column 1");
    assert_eq!(generated_column_name(12), "Column 12");
}

#[test]
fn chooses_format_from_extension() {
    assert_eq!(document_format("json"), Ok(DocumentFormat::Json));
    assert_eq!(document_format("JSON"), Ok(DocumentFormat::Json));
    assert_eq!(document_format("TsV"), Ok(DocumentFormat::Csv));
    assert_eq!(document_format("csv"), Ok(DocumentFormat::Csv));
    assert_eq!(
        document_format("txt"),
        Err(s("Unsupported file type. Open a JSON, CSV, or TSV file."))
    );
    assert!(document_format("").is_err());
}

#[test]
fn formats_json_errors() {
    assert_eq!(
        json_error_message(3, 1, "trailing comma"),
        "Invalid JSON at line 3, column 1: trailing comma"
    );
}

#[test]
fn scores_delimiters_by_consistency_width_and_count() {
    // two records of two fields: 2 * 10000 + 2 * 100 + 2
    assert_eq!(delimiter_score("a,b\nc,d\n", b','), 20202);
    // single-field records score their count
    assert_eq!(delimiter_score("a,b\nc,d\n", b';'), 2);
    assert_eq!(delimiter_score("", b','), 0);
}

#[test]
fn loads_tsv_and_fills_ragged_records() {
    let document = load_csv(s("t.tsv"), "TSV", b"a\tb\tc\n1\t2\n".to_vec()).expect("TSV loads");
    assert_eq!(document.delimiter, b'\t');
    assert!(document.has_headers);
    assert_eq!(document.headers, vec!["a", "b", "c"]);
    assert_eq!(document.rows, vec![vec!["1", "2", ""]]);
    assert_eq!(document.size_bytes, 10);
}

#[test]
fn loads_headerless_csv_with_generated_names() {
    let document = load_csv(s("n.csv"), "csv", b"1,2\n3,4\n".to_vec()).expect("CSV loads");
    assert!(!document.has_headers);
    assert_eq!(document.headers, vec!["Column 1", "Column 2"]);
    assert_eq!(document.rows.len(), 2);
}

#[test]
fn rejects_empty_csv() {
    let error = load_csv(s("e.csv"), "csv", b" \n\t\n".to_vec()).expect_err("empty CSV");
    assert_eq!(error, "This CSV file is empty.");
    let bom_only = load_csv(s("e.csv"), "csv", b"\xEF\xBB\xBF".to_vec()).expect_err("empty CSV");
    assert_eq!(bom_only, "This CSV file is empty.");
}

#[test]
fn header_override_round_trips_on_generated_names() {
    let mut document = load_csv(s("n.csv"), "csv", b"x,y\n1,2\n".to_vec()).expect("CSV loads");
    // "x","y" look like titles, so the first row is taken as header
    assert!(document.has_headers);
    document.set_has_headers(false);
    assert_eq!(document.headers, vec!["Column 1", "Column 2"]);
    assert_eq!(document.rows, vec![vec!["x", "y"], vec!["1", "2"]]);
    document.set_has_headers(false);
    assert_eq!(document.rows.len(), 2);
    document.set_has_headers(true);
    assert_eq!(document.headers, vec!["x", "y"]);
    assert_eq!(document.rows, vec![vec!["1", "2"]]);
}

#[test]
fn measures_json_documents() {
    let value = JsonValue::Object(vec![(
        s("a"),
        JsonValue::Array(vec![
            JsonValue::Number(s("1")),
            JsonValue::Array(vec![JsonValue::Number(s("2"))]),
        ]),
    )]);
    assert_eq!(document_metrics(&value), (5, 3));
    assert_eq!(document_metrics(&JsonValue::Null), (1, 0));
    assert_eq!(document_metrics(&JsonValue::Array(vec![])), (1, 0));
    let document = JsonDocument::from_parts(s("x.json"), value, s("{}"), 2);
    assert_eq!(document.node_count, 5);
    assert_eq!(document.max_depth, 3);
    let data = DataDocument::Json(document);
    assert_eq!(data.format_name(), "JSON");
    assert_eq!(data.path(), "x.json");
    assert_eq!(data.raw_text(), "{}");
    assert_eq!(data.size_bytes(), 2);
}

// ---------------------------------------------------------------- tree

#[test]
fn describes_json_values() {
    let value = person();
    assert_eq!(value_type(&value), "Object");
    assert_eq!(value_summary(&value), "2 keys");
    assert_eq!(inspector_value(&value), "Object with 2 keys");
    let one = JsonValue::Array(vec![JsonValue::Null]);
    assert_eq!(value_summary(&one), "1 item");
    assert_eq!(inspector_value(&one), "Array with 1 item");
    assert_eq!(value_summary(&JsonValue::Bool(false)), "false");
    assert_eq!(value_summary(&JsonValue::Number(s("2.5"))), "2.5");
    let long = "x".repeat(100);
    assert_eq!(value_summary(&JsonValue::String(long.clone())).chars().count(), 97);
    assert_eq!(inspector_value(&JsonValue::String(long.clone())), long);
}

#[test]
fn forms_paths_and_pointers() {
    assert!(is_simple_identifier("_x1"));
    assert!(!is_simple_identifier("1x"));
    assert!(!is_simple_identifier(""));
    assert_eq!(json_path_for_key("$", "name"), "$.name");
    assert_eq!(json_path_for_key("$", "a b"), "$[\"a b\"]");
    assert_eq!(json_path_for_key("$.x", "say \"hi\"\n"), "$.x[\"say \\\"hi\\\"\\n\"]");
    assert_eq!(json_path_for_key("$", "\u{1}"), "$[\"\\u0001\"]");
    assert_eq!(pointer_escape("a/b~c"), "a~1b~0c");
}

#[test]
fn lists_expanded_nodes_in_document_order() {
    let value = person();
    let rows = collect_visible_nodes(&value, &[s("")], "");
    let labels: Vec<&str> = rows.iter().map(|n| n.label.as_str()).collect();
    assert_eq!(labels, vec!["Root", "name", "tags"]);
    assert_eq!(rows[1].display_path, "$.name");
    assert_eq!(rows[1].pointer, "/name");
    assert_eq!(rows[2].summary, "2 items");
    assert_eq!(rows[2].depth, 1);
    assert!(rows[2].is_container);

    let opened = collect_visible_nodes(&value, &[s(""), s("/tags")], "");
    let paths: Vec<&str> = opened.iter().map(|n| n.display_path.as_str()).collect();
    assert_eq!(paths, vec!["$", "$.name", "$.tags", "$.tags[0]", "$.tags[1]"]);
    assert_eq!(opened[4].pointer, "/tags/1");
    assert_eq!(opened[4].label, "[1]");

    let collapsed = collect_visible_nodes(&value, &[], "");
    assert_eq!(collapsed.len(), 1);
}

#[test]
fn searching_lists_matching_nodes_at_any_depth() {
    let value = person();
    let found = collect_visible_nodes(&value, &[], "ada");
    assert_eq!(found.len(), 1);
    assert_eq!(found[0].pointer, "/name");
    let deep = collect_visible_nodes(&value, &[], "[1]");
    assert_eq!(deep.len(), 1);
    assert_eq!(deep[0].summary, "y");
}

#[test]
fn pointers_of_rows_address_their_values() {
    let value = JsonValue::Object(vec![
        (s("a/b"), JsonValue::Number(s("1"))),
        (s("~"), JsonValue::Array(vec![JsonValue::Bool(true)])),
    ]);
    let rows = collect_visible_nodes(&value, &[s(""), s("/~0")], "");
    assert_eq!(rows.len(), 4);
    for row in &rows {
        let target = value.pointer(&row.pointer).expect("row pointer resolves");
        assert_eq!(value_type(target), row.node_type);
        assert_eq!(value_summary(target), row.summary);
    }
    assert!(value.pointer("/~0/01").is_none());
    assert!(value.pointer("/~0/+0").is_none());
    assert!(value.pointer("/~0/1").is_none());
    assert!(value.pointer("a").is_none());
    assert!(matches!(value.pointer("/~0/0"), Some(JsonValue::Bool(true))));
    assert!(matches!(value.pointer("/a~1b"), Some(JsonValue::Number(n)) if n == "1"));
}

#[test]
fn node_info_reads_the_value() {
    let node = node_info("k", "$.k", "/k", &JsonValue::Null, 4);
    assert_eq!(node.node_type, "Null");
    assert_eq!(node.summary, "null");
    assert_eq!(node.child_count, 0);
    assert_eq!(node.depth, 4);
    assert!(!node.is_container);
}

// ---------------------------------------------------------------- table

#[test]
fn infers_cell_types() {
    assert_eq!(csv_value_type("  37 "), "Number");
    assert_eq!(csv_value_type("TRUE"), "Boolean");
    assert_eq!(csv_value_type(" "), "Empty");
    assert_eq!(csv_value_type("Ada"), "Text");
    assert_eq!(csv_value_type("1e"), "Text");
    assert_eq!(csv_bool("False"), Some(false));
    assert_eq!(csv_bool("yes"), None);
}

#[test]
fn labels_delimiters() {
    assert_eq!(csv_delimiter_label(b';'), "Semicolon (;)");
    assert_eq!(csv_delimiter_label(b'\t'), "Tab");
    assert_eq!(csv_delimiter_label(b','), "Comma (,)");
    assert_eq!(csv_delimiter_label(b'|'), "Comma (,)");
}

#[test]
fn prefers_column_widths_within_bounds() {
    let mut document = people_table(true);
    assert_eq!(csv_preferred_width_chars(&document, 0), 8);
    document.rows[0][0] = "x".repeat(40);
    assert_eq!(csv_preferred_width_chars(&document, 0), 30);
    document.rows[0][0] = s("short\r\ntwelve chars");
    assert_eq!(csv_preferred_width_chars(&document, 0), 12);
    document.headers[1] = s("a rather long title");
    assert_eq!(csv_preferred_width_chars(&document, 1), 19);
    assert_eq!(csv_preferred_width_chars(&document, 5), 8);
}

#[test]
fn filters_rows_by_search() {
    let document = people_table(true);
    assert_eq!(visible_csv_rows(&document, ""), vec![0, 1]);
    assert_eq!(visible_csv_rows(&document, "bo"), vec![1]);
    assert_eq!(visible_csv_rows(&document, "ad"), vec![0]);
    assert_eq!(visible_csv_rows(&document, "zz"), Vec::<usize>::new());
    assert_eq!(normalize_query("  AdA "), "ada");
}

#[test]
fn copies_rows_and_columns_with_empty_cells() {
    let document = people_table(true);
    assert_eq!(row_copy_text(&document, 1), Some(s("Bob\t")));
    assert_eq!(row_copy_text(&document, 2), None);
    assert_eq!(column_copy_text(&document, 1), "age\n37\n");
    assert_eq!(column_copy_text(&people_table(false), 0), "Ada\nBob");
    assert_eq!(column_copy_text(&document, 9), "\n\n");
    assert_eq!(cell_value(&document, 1, 1), "");
    assert_eq!(cell_value(&document, 0, 0), "Ada");
}

#[test]
fn selects_cells_with_their_location() {
    let document = people_table(true);
    let selection = csv_selection(&document, 0, 1).expect("cell exists");
    assert_eq!(selection.value, "37");
    assert_eq!(selection.column_name, "age");
    assert_eq!(cell_location(&selection), "Row 1 \u{b7} age");
    assert_eq!(inspector_cell_value(&selection), "37");
    assert!(csv_selection(&document, 0, 2).is_none());
    assert!(csv_selection(&document, 5, 0).is_none());
}

#[test]
fn sorts_cells() {
    assert_eq!(compare_csv_values("", "a", None), Ordering::Less);
    assert_eq!(compare_csv_values("a", " ", None), Ordering::Greater);
    assert_eq!(compare_csv_values("2", "10", Some(Ordering::Less)), Ordering::Less);
    assert_eq!(compare_csv_values("true", "False", None), Ordering::Greater);
    assert_eq!(compare_csv_values("b", "A", None), Ordering::Greater);
    assert_eq!(compare_csv_values("Abc", "abc", None), Ordering::Equal);
    assert_eq!(compare_csv_values("ab", "abc", None), Ordering::Less);
}

// ---------------------------------------------------------------- session

#[test]
fn failed_open_keeps_the_open_document() {
    let mut state = AppState::new();
    let loaded = load_csv(s("p.csv"), "csv", b"name\nAda\n".to_vec()).map(DataDocument::Csv);
    assert_eq!(state.apply_load(loaded), None);
    assert!(state.document.is_some());
    let failed = load_csv(s("e.csv"), "csv", b"".to_vec()).map(DataDocument::Csv);
    assert_eq!(state.apply_load(failed), Some(s("This CSV file is empty.")));
    match &state.document {
        Some(DataDocument::Csv(document)) => assert_eq!(document.path, "p.csv"),
        _ => panic!("the table stays open"),
    }
}

#[test]
fn opening_json_selects_and_expands_the_root() {
    let mut state = AppState::new();
    let document = JsonDocument::from_parts(s("p.json"), person(), s("{}"), 2);
    state.open_document(DataDocument::Json(document));
    assert_eq!(state.expanded, vec![s("")]);
    match &state.selected {
        Some(DataSelection::Json(node)) => {
            assert_eq!(node.label, "Root");
            assert_eq!(node.display_path, "$");
        }
        _ => panic!("root is selected"),
    }
    state.refresh_visible_nodes();
    assert_eq!(state.visible_nodes.len(), 3);
    state.toggle_expanded("/tags");
    state.refresh_visible_nodes();
    assert_eq!(state.visible_nodes.len(), 5);
    state.toggle_expanded("/tags");
    assert_eq!(state.expanded, vec![s("")]);
    assert!(state.select_row(1));
    assert!(!state.select_row(9));
    state.set_search("  TAGS ");
    assert_eq!(state.query, "tags");
    state.close();
    assert!(state.document.is_none());
}

#[test]
fn header_switch_clears_the_selection() {
    let mut state = AppState::new();
    state.open_document(DataDocument::Csv(people_table(true)));
    assert!(state.select_cell(0, 0));
    assert!(!state.select_cell(3, 0));
    assert!(state.selected.is_some());
    assert!(!state.set_header_override(true));
    assert!(state.selected.is_some());
    assert!(state.set_header_override(false));
    assert!(state.selected.is_none());
    match &state.document {
        Some(DataDocument::Csv(document)) => {
            assert_eq!(document.headers, vec!["Column 1", "Column 2"]);
            assert_eq!(document.rows.len(), 3);
        }
        _ => panic!("table stays open"),
    }
}

// ---------------------------------------------------------------- added

fn rows(cells: &[&[&str]]) -> Vec<Vec<String>> {
    cells.iter().map(|row| row.iter().map(|c| s(c)).collect()).collect()
}

#[test]
fn builds_tables_from_records() {
    let (headers, body, has_headers) =
        csv_table(rows(&[&["name", "age"], &["Ada", "37"], &["Bob"]])).expect("a table");
    assert!(has_headers);
    assert_eq!(headers, vec!["name", "age"]);
    assert_eq!(body, rows(&[&["Ada", "37"], &["Bob", ""]]));

    let (headers, body, has_headers) =
        csv_table(rows(&[&["1", "2"], &["3", "4", "5"]])).expect("a table");
    assert!(!has_headers);
    assert_eq!(headers, vec!["Column 1", "Column 2", "Column 3"]);
    assert_eq!(body, rows(&[&["1", "2", ""], &["3", "4", "5"]]));

    assert_eq!(
        csv_table(Vec::new()),
        Err(s("This CSV file contains no records."))
    );
    assert_eq!(
        csv_table(vec![Vec::new()]),
        Err(s("This CSV file contains no columns."))
    );
}

#[test]
fn parses_json_into_the_tree() {
    let value = parse_json_text("{\"b\": [1, 2.5, true, null], \"a\": \"x\"}").expect("JSON");
    match &value {
        JsonValue::Object(members) => {
            assert_eq!(members.len(), 2);
            assert_eq!(members[0].0, "a");
            assert_eq!(members[1].0, "b");
            match &members[1].1 {
                JsonValue::Array(items) => {
                    assert!(matches!(&items[0], JsonValue::Number(n) if n == "1"));
                    assert!(matches!(&items[1], JsonValue::Number(n) if n == "2.5"));
                    assert!(matches!(&items[2], JsonValue::Bool(true)));
                    assert!(matches!(&items[3], JsonValue::Null));
                }
                other => panic!("expected an array, got {other:?}"),
            }
        }
        other => panic!("expected an object, got {other:?}"),
    }
    let error = parse_json_text("[1,").expect_err("unterminated array");
    assert!(error.starts_with("Invalid JSON at line 1, column "));
}

#[test]
fn loading_json_reports_each_failure() {
    assert_eq!(
        load_json(s("bad.json"), vec![0xFF, b'{', b'}']).map(|d| d.node_count),
        Err(s("This file is not valid UTF-8 JSON."))
    );
    let error = load_json(s("bad.json"), b"{\"a\" 1}".to_vec()).expect_err("missing colon");
    assert!(error.starts_with("Invalid JSON at line 1, column"));
    let document = load_json(s("ok.json"), b"[[1], {}]".to_vec()).expect("valid JSON");
    assert_eq!(document.path, "ok.json");
    assert_eq!(document.size_bytes, 9);
    assert_eq!(document.node_count, 4);
    assert_eq!(document.max_depth, 2);
}

#[test]
fn copies_values_as_text_or_pretty_json() {
    assert_eq!(copyable_value(&JsonValue::String(s("Ada"))), "Ada");
    assert_eq!(copyable_value(&JsonValue::Null), "null");
    assert_eq!(copyable_value(&JsonValue::Bool(false)), "false");
    assert_eq!(copyable_value(&JsonValue::Number(s("2.5"))), "2.5");
    assert_eq!(
        copyable_value(&person()),
        "{\n  \"name\": \"Ada\",\n  \"tags\": [\n    \"x\",\n    \"y\"\n  ]\n}"
    );
    assert_eq!(copyable_value(&JsonValue::Array(Vec::new())), "[]");
}

#[test]
fn copies_the_selected_item_and_value() {
    let mut state = AppState::new();
    assert_eq!(state.selected_value_text(), None);
    assert_eq!(state.selected_item_text(), None);
    let document = JsonDocument::from_parts(s("p.json"), person(), s("{}"), 2);
    state.open_document(DataDocument::Json(document));
    state.refresh_visible_nodes();
    assert!(state.select_row(1));
    assert_eq!(state.selected_value_text(), Some(s("Ada")));
    assert_eq!(state.selected_item_text(), Some(s("\"Ada\"")));
    assert!(state.select_row(2));
    assert_eq!(state.selected_item_text(), Some(s("[\n  \"x\",\n  \"y\"\n]")));

    state.open_document(DataDocument::Csv(people_table(true)));
    assert!(state.select_cell(0, 1));
    assert_eq!(state.selected_value_text(), Some(s("37")));
    assert_eq!(state.selected_item_text(), None);
}

#[test]
fn comparing_the_other_way_round_reverses_the_order() {
    let pairs = [("", "a"), ("2", "10"), ("true", "False"), ("b", "A"), ("Abc", "abc"), ("ab", "abc")];
    for (a, b) in pairs {
        for numeric in [None, Some(Ordering::Less), Some(Ordering::Equal), Some(Ordering::Greater)] {
            let back = numeric.map(Ordering::reverse);
            assert_eq!(
                compare_csv_values(b, a, back),
                compare_csv_values(a, b, numeric).reverse()
            );
        }
        assert_eq!(compare_csv_values(a, a, None), Ordering::Equal);
        assert_eq!(compare_csv_values(a, a, Some(Ordering::Equal)), Ordering::Equal);
    }
}

#[test]
fn a_successful_open_selects_like_opening() {
    let mut state = AppState::new();
    let loaded = load_json(s("p.json"), b"{\"k\": 1}".to_vec()).map(DataDocument::Json);
    assert_eq!(state.apply_load(loaded), None);
    assert!(state.visible_nodes.is_empty());
    match &state.selected {
        Some(DataSelection::Json(node)) => {
            assert_eq!(node.label, "Root");
            assert_eq!(node.pointer, "");
        }
        _ => panic!("the root is selected"),
    }
    let loaded = load_csv(s("p.csv"), "csv", b"name\nAda\n".to_vec()).map(DataDocument::Csv);
    assert_eq!(state.apply_load(loaded), None);
    assert!(state.selected.is_none());
}

#[test]
fn header_switch_keeps_the_file_facts() {
    let mut state = AppState::new();
    state.open_document(DataDocument::Csv(people_table(true)));
    state.set_search("Ada");
    assert!(state.set_header_override(false));
    assert_eq!(state.query, "ada");
    assert_eq!(state.expanded, vec![s("")]);
    match &state.document {
        Some(DataDocument::Csv(document)) => {
            assert_eq!(document.path, "people.csv");
            assert_eq!(document.raw_text, "name,age\nAda,37\nBob,\n");
            assert_eq!(document.delimiter, b',');
            assert!(!document.has_headers);
        }
        _ => panic!("table stays open"),
    }
}

#[test]
fn labels_the_table_format() {
    assert_eq!(csv_format_label(true), "CSV \u{b7} headers detected");
    assert_eq!(csv_format_label(false), "CSV \u{b7} generated column names");
}

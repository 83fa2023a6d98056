use rcol::args::AppArgs;
use rcol::processor::{process_input, TableData};
use rcol::serial::format_output;
use rcol::width::{strip_ansi, visible_width};

fn table(headers: Vec<&str>, rows: Vec<Vec<&str>>, sel: Vec<usize>) -> TableData {
    TableData {
        headers: headers.into_iter().map(|s| s.to_string()).collect(),
        rows: rows
            .into_iter()
            .map(|r| r.into_iter().map(|s| s.to_string()).collect())
            .collect(),
        original_column_indices: sel,
    }
}

#[test]
fn reversed_range_reorders_a_row() {
    let lines = vec!["a b c".to_string()];
    let mut args = AppArgs::default();
    args.nhl = true;
    args.columns = vec!["3:1".to_string()];
    let result = process_input(lines, &args).unwrap();
    assert_eq!(result.rows[0], vec!["c", "b", "a"]);
    assert_eq!(result.original_column_indices, vec![2, 1, 0]);
}

#[test]
fn projection_pads_missing_fields() {
    let lines = vec!["a b".to_string(), "x".to_string()];
    let mut args = AppArgs::default();
    args.nhl = true;
    args.columns = vec!["1:3".to_string()];
    let result = process_input(lines, &args).unwrap();
    assert_eq!(result.rows[0], vec!["a", "b", ""]);
    assert_eq!(result.rows[1], vec!["x", "", ""]);
    for row in &result.rows {
        assert_eq!(row.len(), result.original_column_indices.len());
    }
}

#[test]
fn numeric_sort_orders_by_value_not_text() {
    let lines = vec![
        "x 10".to_string(),
        "y 2".to_string(),
        "z 1".to_string(),
    ];
    let mut args = AppArgs::default();
    args.nhl = true;
    args.sortcol = Some(2);
    let result = process_input(lines, &args).unwrap();
    assert_eq!(result.rows[0][1], "1");
    assert_eq!(result.rows[1][1], "2");
    assert_eq!(result.rows[2][1], "10");
}

#[test]
fn grouping_blanks_repeats_and_inserts_separator() {
    let lines = vec![
        "Sales Alice".to_string(),
        "Sales Bob".to_string(),
        "Eng Carl".to_string(),
    ];
    let mut args = AppArgs::default();
    args.nhl = true;
    args.gcol = Some(1);
    let result = process_input(lines, &args).unwrap();
    assert_eq!(result.rows.len(), 4);
    assert_eq!(result.rows[0], vec!["Sales", "Alice"]);
    assert_eq!(result.rows[1], vec!["", "Bob"]);
    assert_eq!(result.rows[2], vec!["", ""]);
    assert_eq!(result.rows[3], vec!["Eng", "Carl"]);
}

#[test]
fn visible_width_ignores_csi_sequences() {
    let plain = "hello";
    let colored = "\u{1b}[31mhello\u{1b}[0m";
    assert_eq!(visible_width(colored), visible_width(plain));
    assert_eq!(visible_width(plain), 5);
}

#[test]
fn strip_ansi_removes_osc_hyperlink() {
    let s = "\u{1b}]8;;file:///tmp/x\u{1b}\\Cargo.lock\u{1b}]8;;\u{1b}\\";
    assert_eq!(strip_ansi(s), "Cargo.lock");
}

#[test]
fn wide_characters_count_two_cells() {
    assert_eq!(visible_width("\u{65e5}\u{672c}"), 4);
}

#[test]
fn rendering_twice_is_byte_identical() {
    let args = AppArgs::default();
    let t1 = table(vec!["Name", "Age"], vec![vec!["Alice", "30"]], vec![0, 1]);
    let t2 = table(vec!["Name", "Age"], vec![vec!["Alice", "30"]], vec![0, 1]);
    let out1 = format_output(t1, &args);
    let out2 = format_output(t2, &args);
    assert_eq!(out1, out2);
}

#[test]
fn end_to_end_default_config() {
    let lines = vec![
        "Name Age".to_string(),
        "Alice 30".to_string(),
        "Bob 25".to_string(),
    ];
    let args = AppArgs::default();
    let result = process_input(lines, &args).unwrap();
    assert_eq!(result.headers, vec!["Name", "Age"]);
    assert_eq!(result.rows, vec![vec!["Alice", "30"], vec!["Bob", "25"]]);
    let text = format_output(result, &args);
    let lines: Vec<&str> = text.lines().collect();
    assert_eq!(lines[0], " Name    Age ");
    assert_eq!(lines[1], " Alice    30 ");
    assert_eq!(lines[2], " Bob      25 ");
}

#[test]
fn end_to_end_no_headline_with_explicit_header() {
    let lines = vec![
        "Name Age".to_string(),
        "Alice 30".to_string(),
        "Bob 25".to_string(),
    ];
    let mut args = AppArgs::default();
    args.nhl = true;
    args.header = Some("A B".to_string());
    let result = process_input(lines, &args).unwrap();
    assert_eq!(result.headers, vec!["A", "B"]);
    assert_eq!(result.rows.len(), 3);
    assert_eq!(result.rows[0], vec!["Name", "Age"]);
}

#[test]
fn invalid_filter_pattern_is_reported() {
    let mut args = AppArgs::default();
    args.filter = Some("[".to_string());
    let err = process_input(vec!["x".to_string()], &args).unwrap_err();
    assert!(err.starts_with("Invalid filter regex: "));
}

#[test]
fn invalid_column_specs_are_reported() {
    let mut args = AppArgs::default();
    args.columns = vec!["0".to_string()];
    let err = process_input(vec!["a b".to_string()], &args).unwrap_err();
    assert_eq!(err, "Column numbers must be 1-based");

    args.columns = vec!["abc".to_string()];
    let err = process_input(vec!["a b".to_string()], &args).unwrap_err();
    assert_eq!(err, "Invalid column number: abc");

    args.columns = vec!["1:2:3".to_string()];
    let err = process_input(vec!["a b".to_string()], &args).unwrap_err();
    assert_eq!(err, "Invalid range format: 1:2:3");

    args.columns = vec!["x:2".to_string()];
    let err = process_input(vec!["a b".to_string()], &args).unwrap_err();
    assert_eq!(err, "Invalid range start: x");

    args.columns = vec!["2:y".to_string()];
    let err = process_input(vec!["a b".to_string()], &args).unwrap_err();
    assert_eq!(err, "Invalid range end: y");
}

#[test]
fn csv_output_quotes_and_joins() {
    let mut args = AppArgs::default();
    args.csv = true;
    let t = table(
        vec!["Name", "Age"],
        vec![vec!["Alice, A.", "30"], vec!["Bob", "25"]],
        vec![0, 1],
    );
    let text = format_output(t, &args);
    assert_eq!(text, "Name,Age\n\"Alice, A.\",30\nBob,25\n");
}

#[test]
fn json_output_builds_objects() {
    let mut args = AppArgs::default();
    args.json = true;
    let t = table(vec!["Name", "Age"], vec![vec!["Alice", "30"]], vec![0, 1]);
    let text = format_output(t, &args);
    assert!(text.contains("\"Name\": \"Alice\""));
    assert!(text.contains("\"Age\": \"30\""));
    assert!(text.starts_with("["));
}

#[test]
fn json_title_column_keys_by_first_field() {
    let mut args = AppArgs::default();
    args.json = true;
    args.jtc = true;
    let t = table(
        vec!["Name", "Age"],
        vec![vec!["Alice", "30"], vec!["Bob", "25"]],
        vec![0, 1],
    );
    let text = format_output(t, &args);
    assert!(text.contains("\"Alice\""));
    assert!(text.contains("\"Bob\""));
    assert!(text.contains("\"Age\": \"30\""));
}

#[test]
fn yaml_output_builds_mappings() {
    let mut args = AppArgs::default();
    args.yaml = true;
    let t = table(vec!["Name", "Age"], vec![vec!["Alice", "30"]], vec![0, 1]);
    let text = format_output(t, &args);
    assert!(text.contains("Name: Alice"));
    assert!(text.contains("Age: '30'") || text.contains("Age: \"30\"") || text.contains("Age: 30"));
}

#[test]
fn html_output_wraps_cells() {
    let mut args = AppArgs::default();
    args.html = true;
    let t = table(vec!["Name"], vec![vec!["Alice"]], vec![0]);
    let text = format_output(t, &args);
    assert!(text.contains("<table>"));
    assert!(text.contains("<th>Name</th>"));
    assert!(text.contains("<td>Alice</td>"));
    assert!(text.contains("</table>"));
}

#[test]
fn bordered_table_draws_box() {
    let mut args = AppArgs::default();
    args.pp = true;
    let t = table(vec!["A"], vec![vec!["1"]], vec![0]);
    let text = format_output(t, &args);
    assert!(text.contains("\u{250c}"));
    assert!(text.contains("\u{2514}"));
    assert!(text.contains("\u{2502}"));
    assert!(text.contains("\u{2500}"));
}

#[test]
fn numbering_row_shows_source_columns() {
    let mut args = AppArgs::default();
    args.num = true;
    let t = table(vec!["B", "A"], vec![vec!["2", "1"]], vec![1, 0]);
    let text = format_output(t, &args);
    let first = text.lines().next().unwrap();
    assert_eq!(first, " 2   1 ");
}

#[test]
fn infinities_and_nan_sort_like_floats() {
    let lines = vec![
        "a inf".to_string(),
        "b 5".to_string(),
        "c -inf".to_string(),
    ];
    let mut args = AppArgs::default();
    args.nhl = true;
    args.sortcol = Some(2);
    let result = process_input(lines, &args).unwrap();
    assert_eq!(result.rows[0][1], "-inf");
    assert_eq!(result.rows[1][1], "5");
    assert_eq!(result.rows[2][1], "inf");
}

#[test]
fn header_leading_dash_right_aligns() {
    let args = AppArgs::default();
    let t = table(vec!["-N"], vec![vec!["abc"]], vec![0]);
    let text = format_output(t, &args);
    let lines: Vec<&str> = text.lines().collect();
    assert_eq!(lines[0], "   N ");
    assert_eq!(lines[1], " abc ");
}

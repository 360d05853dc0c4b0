use table_filter::columns::{parse_col_identifier, parse_headers, HeaderTable};
use table_filter::errors::TfError;
use table_filter::pipeline::run_pipeline;
use table_filter::render::compute_widths;
use table_filter::rows::{keep_row, parse_row, row_matches};
use table_filter::sort::sort_rows;
use table_filter::specs::{parse_match_arg, parse_transform_arg, ColSpec};
use table_filter::transform::{apply_transformers, extract_days, parse_age_to_date};

fn s(x: &str) -> String {
    x.to_string()
}

fn strings(xs: &[&str]) -> Vec<String> {
    xs.iter().map(|x| x.to_string()).collect()
}

fn table(names: &[&str]) -> HeaderTable {
    HeaderTable { names: strings(names) }
}

#[test]
fn resolve_positional() {
    let t = table(&["ID", "NAME"]);
    assert_eq!(parse_col_identifier("$1", &t), Ok(0));
    assert_eq!(parse_col_identifier("$2", &t), Ok(1));
    assert_eq!(parse_col_identifier("$5", &t), Ok(4));
    assert_eq!(parse_col_identifier("\"$3\"", &t), Ok(2));
}

#[test]
fn resolve_positional_rejects_non_positive() {
    let t = table(&["ID"]);
    assert_eq!(parse_col_identifier("$0", &t), Err(TfError::InvalidColumnNumber));
    assert_eq!(parse_col_identifier("$-1", &t), Err(TfError::InvalidColumnNumber));
    assert_eq!(parse_col_identifier("$", &t), Err(TfError::InvalidColumnNumber));
    assert_eq!(parse_col_identifier("$x", &t), Err(TfError::InvalidColumnNumber));
    assert_eq!(
        parse_col_identifier("$99999999999999999999999999", &t),
        Err(TfError::InvalidColumnNumber)
    );
}

#[test]
fn resolve_name_case_insensitive() {
    let t = table(&["ID", "NAME"]);
    let a = parse_col_identifier("id", &t);
    let b = parse_col_identifier("ID", &t);
    let c = parse_col_identifier("Id", &t);
    assert_eq!(a, Ok(0));
    assert_eq!(a, b);
    assert_eq!(b, c);
    assert_eq!(parse_col_identifier("name", &t), Ok(1));
}

#[test]
fn resolve_unknown_name() {
    let t = table(&["ID"]);
    assert_eq!(
        parse_col_identifier("missing", &t),
        Err(TfError::ColumnNotFound(s("missing")))
    );
    assert_eq!(
        parse_col_identifier("\"missing\"", &t),
        Err(TfError::ColumnNotFound(s("missing")))
    );
}

#[test]
fn headers_last_duplicate_wins() {
    let lines = strings(&["id|x|id"]);
    let t = parse_headers(&lines, 1, "|").unwrap();
    assert_eq!(t.names, strings(&["ID", "X", "ID"]));
    assert_eq!(parse_col_identifier("id", &t), Ok(2));
}

#[test]
fn headers_row_out_of_bounds() {
    let lines = strings(&["a|b"]);
    assert_eq!(parse_headers(&lines, 2, "|").unwrap_err(), TfError::InvalidHeaderRow);
    assert_eq!(parse_headers(&lines, 0, "|").unwrap_err(), TfError::InvalidHeaderRow);
}

#[test]
fn rows_split_and_trim() {
    let row = parse_row("  a | b  |c", "|");
    assert_eq!(row, strings(&["a", "b", "c"]));
    let row = parse_row("a||b", "|");
    assert_eq!(row, strings(&["a", "", "b"]));
    let row = parse_row("a--b--c", "--");
    assert_eq!(row, strings(&["a", "b", "c"]));
}

fn match_spec(t: &HeaderTable, json: &str) -> ColSpec {
    parse_match_arg(json, t).unwrap()
}

#[test]
fn match_filter_substring_or() {
    let t = table(&["A", "B"]);
    let row = strings(&["5", "x"]);
    assert!(row_matches(&row, &match_spec(&t, "{\"$1\": [\"5\"]}")));
    assert!(!row_matches(&row, &match_spec(&t, "{\"$1\": [\"6\"]}")));
    assert!(!row_matches(&row, &match_spec(&t, "{\"$1\": [\"5\"], \"$2\": [\"y\"]}")));
    assert!(row_matches(&row, &match_spec(&t, "{\"$1\": [\"6\", \"5\"]}")));
}

#[test]
fn match_filter_missing_column_is_empty() {
    let t = table(&["A"]);
    let row = strings(&["5"]);
    // a missing column reads as the empty string, which holds only ""
    assert!(!row_matches(&row, &match_spec(&t, "{\"$3\": [\"5\"]}")));
    assert!(row_matches(&row, &match_spec(&t, "{\"$3\": [\"\"]}")));
}

#[test]
fn match_spec_errors() {
    let t = table(&["A"]);
    assert_eq!(parse_match_arg("not json", &t).unwrap_err(), TfError::InvalidJson);
    assert_eq!(parse_match_arg("[1,2]", &t).unwrap_err(), TfError::MalformedMatchSpec);
    assert_eq!(parse_match_arg("{\"A\": 3}", &t).unwrap_err(), TfError::MalformedMatchSpec);
    assert_eq!(
        parse_match_arg("{\"A\": [\"x\", 3]}", &t).unwrap_err(),
        TfError::MalformedMatchSpec
    );
    assert_eq!(
        parse_match_arg("{\"NOPE\": \"x\"}", &t).unwrap_err(),
        TfError::ColumnNotFound(s("NOPE"))
    );
    assert_eq!(
        parse_match_arg("{\"$0\": \"x\"}", &t).unwrap_err(),
        TfError::InvalidColumnNumber
    );
}

#[test]
fn transform_spec_errors() {
    let t = table(&["A"]);
    assert_eq!(parse_transform_arg("{", &t).unwrap_err(), TfError::InvalidJson);
    assert_eq!(parse_transform_arg("7", &t).unwrap_err(), TfError::MalformedTransformSpec);
    assert_eq!(
        parse_transform_arg("{\"A\": {}}", &t).unwrap_err(),
        TfError::MalformedTransformSpec
    );
}

#[test]
fn transform_to_lower() {
    let t = table(&["A", "B"]);
    let spec = parse_transform_arg("{\"A\": \"$TO_LOWER\"}", &t).unwrap();
    let mut row = strings(&["HeLLo", "KEEP"]);
    apply_transformers(&mut row, &spec);
    assert_eq!(row, strings(&["hello", "KEEP"]));
}

#[test]
fn transform_to_lower_twice_is_once() {
    let t = table(&["A"]);
    let spec_once = parse_transform_arg("{\"A\": \"$TO_LOWER\"}", &t).unwrap();
    let spec_twice = parse_transform_arg("{\"A\": [\"$TO_LOWER\", \"$TO_LOWER\"]}", &t).unwrap();
    for case in ["MiXeD", "ΑΣΔ", "ΒΟΣ ΑΣ", "straße", "ÄÖÜ"] {
        let mut once = vec![s(case)];
        let mut twice = vec![s(case)];
        apply_transformers(&mut once, &spec_once);
        apply_transformers(&mut twice, &spec_twice);
        assert_eq!(once, twice);
    }
}

#[test]
fn transform_unknown_op_is_noop() {
    let t = table(&["A"]);
    let spec = parse_transform_arg("{\"A\": [\"$NO_SUCH_OP\"]}", &t).unwrap();
    let mut row = strings(&["unchanged"]);
    apply_transformers(&mut row, &spec);
    assert_eq!(row, strings(&["unchanged"]));
}

#[test]
fn age_extraction_ignores_trailer() {
    assert_eq!(extract_days("3"), Some(3));
    assert_eq!(extract_days("3 days"), Some(3));
    assert_eq!(extract_days("3d"), Some(3));
    assert_eq!(extract_days("about 12 days ago"), Some(12));
    assert_eq!(extract_days("no digits"), None);
    // a run too long for a signed word counts as zero days
    assert_eq!(extract_days("99999999999999999999999999"), Some(0));
}

#[test]
fn age_to_date_same_output_for_equal_counts() {
    // "3" and "3 days" extract the same count, so the rendered timestamps
    // agree; retry across an unlucky second boundary
    let mut agreed = false;
    for _ in 0..5 {
        if parse_age_to_date("3") == parse_age_to_date("3 days") {
            agreed = true;
            break;
        }
    }
    assert!(agreed);
}

#[test]
fn age_to_date_shape_and_no_digit_passthrough() {
    assert_eq!(parse_age_to_date("no digits here"), s("no digits here"));
    let stamp = parse_age_to_date("0");
    assert_eq!(stamp.len(), 19);
    let bytes = stamp.as_bytes();
    assert_eq!(bytes[4], b'-');
    assert_eq!(bytes[7], b'-');
    assert_eq!(bytes[10], b' ');
    assert_eq!(bytes[13], b':');
    assert_eq!(bytes[16], b':');
    // the cell changed: the age was replaced by a timestamp
    assert_ne!(stamp, s("0"));
}

#[test]
fn age_to_date_overflow_becomes_now() {
    // an overflowing run counts as zero days: the cell still becomes a
    // timestamp, now's
    let stamp = parse_age_to_date("99999999999999999999999999 days");
    assert_eq!(stamp.len(), 19);
    let bytes = stamp.as_bytes();
    assert_eq!(bytes[4], b'-');
    assert_eq!(bytes[7], b'-');
    assert_eq!(bytes[10], b' ');
    let mut agreed = false;
    for _ in 0..5 {
        if parse_age_to_date("99999999999999999999999999") == parse_age_to_date("0") {
            agreed = true;
            break;
        }
    }
    assert!(agreed);
}

#[test]
fn empty_projection_drops_all_empty_display() {
    let cols = vec![1usize];
    // the only displayed column is empty, other columns are not
    assert!(!keep_row(&strings(&["full", ""]), &cols));
    assert!(keep_row(&strings(&["", "full"]), &cols));
    // missing cells read as empty
    assert!(!keep_row(&strings(&["full"]), &cols));
}

#[test]
fn sort_stable_both_directions() {
    let rows = vec![
        strings(&["b", "1"]),
        strings(&["a", "2"]),
        strings(&["a", "3"]),
    ];
    let asc = sort_rows(&rows, 0, false);
    assert_eq!(
        asc,
        vec![strings(&["a", "2"]), strings(&["a", "3"]), strings(&["b", "1"])]
    );
    let desc = sort_rows(&rows, 0, true);
    assert_eq!(
        desc,
        vec![strings(&["b", "1"]), strings(&["a", "2"]), strings(&["a", "3"])]
    );
}

#[test]
fn sort_missing_key_reads_empty() {
    let rows = vec![strings(&["b", "x"]), strings(&["a"])];
    let asc = sort_rows(&rows, 1, false);
    // the second row has no cell in the sort column: its key is ""
    assert_eq!(asc, vec![strings(&["a"]), strings(&["b", "x"])]);
}

#[test]
fn width_is_max_of_header_and_cells_plus_two() {
    let t = table(&["ID"]);
    let rows = vec![strings(&["1"]), strings(&["100"])];
    let w = compute_widths(&rows, &vec![0usize], &t);
    assert_eq!(w, vec![5usize]);
    // header longer than every cell
    let rows = vec![strings(&["7"])];
    let w = compute_widths(&rows, &vec![0usize], &t);
    assert_eq!(w, vec![4usize]);
}

#[test]
fn pipeline_end_to_end() {
    let lines = strings(&["ID|NAME", "1|alice", "2|"]);
    let cols = strings(&["ID", "NAME"]);
    let out = run_pipeline(&lines, 1, 0, 0, &cols, "|", None, None, false, None, true).unwrap();
    assert_eq!(
        out,
        "ID    |  NAME   \n------+---------\n1     |  alice  \n2     |         \n"
    );
}

#[test]
fn pipeline_end_to_end_with_match() {
    let lines = strings(&["ID|NAME", "1|alice", "2|"]);
    let cols = strings(&["ID", "NAME"]);
    let out = run_pipeline(
        &lines,
        1,
        0,
        0,
        &cols,
        "|",
        Some("{\"NAME\": [\"a\"]}"),
        None,
        false,
        None,
        true,
    )
    .unwrap();
    assert_eq!(out, "ID    |  NAME   \n------+---------\n1     |  alice  \n");
}

#[test]
fn pipeline_no_headers_and_skip_results() {
    let lines = strings(&["ID|N", "1|a", "2|b", "3|c"]);
    let cols = strings(&["ID"]);
    let out = run_pipeline(&lines, 1, 0, 2, &cols, "|", None, None, false, None, false).unwrap();
    assert_eq!(out, "3   \n");
    // skipping more results than there are leaves nothing
    let out = run_pipeline(&lines, 1, 0, 9, &cols, "|", None, None, false, None, false).unwrap();
    assert_eq!(out, "");
}

#[test]
fn pipeline_sort_descending_keeps_tie_order() {
    let lines = strings(&["K|V", "a|1", "b|2", "a|3"]);
    let cols = strings(&["K", "V"]);
    let asc = run_pipeline(
        &lines, 1, 0, 0, &cols, "|", None, Some("K"), false, None, false,
    )
    .unwrap();
    assert_eq!(asc, "a    |  1  \na    |  3  \nb    |  2  \n");
    let desc = run_pipeline(
        &lines, 1, 0, 0, &cols, "|", None, Some("K"), true, None, false,
    )
    .unwrap();
    assert_eq!(desc, "b    |  2  \na    |  1  \na    |  3  \n");
}

#[test]
fn pipeline_errors() {
    let lines = strings(&["ID|NAME", "1|x"]);
    let cols = strings(&["ID"]);
    assert_eq!(
        run_pipeline(&lines, 9, 0, 0, &cols, "|", None, None, false, None, true).unwrap_err(),
        TfError::InvalidHeaderRow
    );
    let bad_cols = strings(&["NOPE"]);
    assert_eq!(
        run_pipeline(&lines, 1, 0, 0, &bad_cols, "|", None, None, false, None, true).unwrap_err(),
        TfError::ColumnNotFound(s("NOPE"))
    );
    assert_eq!(
        run_pipeline(&lines, 1, 0, 0, &cols, "|", Some("nope"), None, false, None, true)
            .unwrap_err(),
        TfError::InvalidJson
    );
    assert_eq!(
        run_pipeline(&lines, 1, 0, 0, &cols, "|", None, Some("$9x"), false, None, true)
            .unwrap_err(),
        TfError::InvalidColumnNumber
    );
}

#[test]
fn pipeline_skip_lines() {
    let lines = strings(&["ID", "garbage", "7"]);
    let cols = strings(&["ID"]);
    let out = run_pipeline(&lines, 1, 1, 0, &cols, "|", None, None, false, None, false).unwrap();
    assert_eq!(out, "7   \n");
}

#[test]
fn pipeline_duplicate_output_column() {
    let lines = strings(&["ID|N", "1|x"]);
    let cols = strings(&["ID", "ID"]);
    let out = run_pipeline(&lines, 1, 0, 0, &cols, "|", None, None, false, None, false).unwrap();
    assert_eq!(out, "1     |  1   \n");
}

#[test]
fn pipeline_box_drawing_separator() {
    let lines = strings(&["ID│NAME", "1│Ada"]);
    let cols = strings(&["NAME"]);
    let out = run_pipeline(&lines, 1, 0, 0, &cols, "│", None, None, false, None, false).unwrap();
    assert_eq!(out, "Ada   \n");
}

#[test]
fn pipeline_transform_to_lower() {
    let lines = strings(&["ID|NAME", "1|ADA"]);
    let cols = strings(&["NAME"]);
    let out = run_pipeline(
        &lines,
        1,
        0,
        0,
        &cols,
        "|",
        None,
        None,
        false,
        Some("{\"NAME\": \"$TO_LOWER\"}"),
        false,
    )
    .unwrap();
    assert_eq!(out, "ada   \n");
}

#[test]
fn pipeline_trims_cells_and_headers() {
    let lines = strings(&["  id  |  name ", " 1 |  x  "]);
    let cols = strings(&["Id"]);
    let out = run_pipeline(&lines, 1, 0, 0, &cols, "|", None, None, false, None, true).unwrap();
    assert_eq!(out, "ID  \n------\n1   \n");
}

#[test]
fn pipeline_empty_projection_drops_row() {
    // the second row holds a value only outside the displayed column
    let lines = strings(&["A|B", "x|1", "y|"]);
    let cols = strings(&["B"]);
    let out = run_pipeline(&lines, 1, 0, 0, &cols, "|", None, None, false, None, false).unwrap();
    assert_eq!(out, "1  \n");
}

#[test]
fn error_messages() {
    assert_eq!(TfError::InvalidColumnNumber.message(), s("Invalid column number"));
    assert_eq!(
        TfError::ColumnNotFound(s("X")).message(),
        s("Column name 'X' not found in headers")
    );
    assert_eq!(TfError::InvalidHeaderRow.message(), s("Invalid headers row"));
}

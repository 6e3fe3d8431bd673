use html2csv::extract::extract_traces;
use html2csv::normalize::{normalize_table, trace_table, usize_string, Cell};
use html2csv::source::is_url;
use html2csv::spans::parse_span;
use html2csv::text::{str_eq, trim_ascii, trim_string};

fn cell(text: &str, colspan: usize, rowspan: usize) -> Cell {
    Cell { content: text.to_string(), colspan, rowspan }
}

#[test]
fn normalize_simple_grid() {
    let rows = vec![
        vec![cell("a", 1, 1), cell("b", 1, 1)],
        vec![cell("c", 1, 1), cell("d", 1, 1)],
    ];
    let t = normalize_table(&rows).unwrap();
    assert_eq!(t, vec![vec!["a", "b"], vec!["c", "d"]]);
}

#[test]
fn normalize_colspan_rowspan_grid() {
    let rows = vec![
        vec![cell("Merged 1", 2, 1)],
        vec![cell("Cell 1", 1, 1), cell("Cell 2", 1, 1)],
        vec![cell("Merged 2", 1, 2), cell("Cell 3", 1, 1)],
        vec![cell("Cell 4", 1, 1)],
    ];
    let t = normalize_table(&rows).unwrap();
    assert_eq!(t.len(), 4);
    assert_eq!(t[0], vec!["Merged 1", ""]);
    assert_eq!(t[1], vec!["Cell 1", "Cell 2"]);
    assert_eq!(t[2], vec!["Merged 2", "Cell 3"]);
    assert_eq!(t[3], vec!["", "Cell 4"]);
}

#[test]
fn normalize_rejects_zero_span() {
    assert!(normalize_table(&vec![vec![cell("x", 0, 1)]]).is_none());
    assert!(normalize_table(&vec![vec![cell("x", 1, 0)]]).is_none());
}

#[test]
fn normalize_empty_rows_are_padded() {
    let rows = vec![vec![], vec![cell("A", 1, 1)]];
    let t = normalize_table(&rows).unwrap();
    assert_eq!(t, vec![vec![""], vec!["A"]]);
}

#[test]
fn normalize_rectangularizes_growing_widths() {
    let rows = vec![
        vec![cell("a", 1, 1)],
        vec![cell("b", 1, 1), cell("c", 1, 1), cell("d", 1, 1)],
    ];
    let t = normalize_table(&rows).unwrap();
    assert_eq!(t, vec![vec!["a", "", ""], vec!["b", "c", "d"]]);
}

#[test]
fn normalize_of_no_rows_is_empty() {
    let rows: Vec<Vec<Cell>> = vec![];
    let t = normalize_table(&rows).unwrap();
    assert_eq!(t.len(), 0);
}

#[test]
fn normalize_rowspan_carries_down_three_rows() {
    let rows = vec![
        vec![cell("tall", 1, 3), cell("a", 1, 1)],
        vec![cell("b", 1, 1)],
        vec![cell("c", 1, 1)],
    ];
    let t = normalize_table(&rows).unwrap();
    assert_eq!(t[0], vec!["tall", "a"]);
    assert_eq!(t[1], vec!["", "b"]);
    assert_eq!(t[2], vec!["", "c"]);
}

#[test]
fn span_attribute_defaults() {
    assert_eq!(parse_span(&None), 1);
    assert_eq!(parse_span(&Some("3".to_string())), 3);
    assert_eq!(parse_span(&Some("12".to_string())), 12);
    assert_eq!(parse_span(&Some("1".to_string())), 1);
    assert_eq!(parse_span(&Some("0".to_string())), 1);
    assert_eq!(parse_span(&Some("".to_string())), 1);
    assert_eq!(parse_span(&Some("abc".to_string())), 1);
    assert_eq!(parse_span(&Some("-2".to_string())), 1);
    assert_eq!(parse_span(&Some("+5".to_string())), 5);
    assert_eq!(parse_span(&Some("+0".to_string())), 1);
    assert_eq!(parse_span(&Some("+".to_string())), 1);
    assert_eq!(parse_span(&Some("++2".to_string())), 1);
    assert_eq!(parse_span(&Some("2x".to_string())), 1);
    assert_eq!(parse_span(&Some("999999999999999999999999999999".to_string())), 1);
}

#[test]
fn trim_strips_ascii_whitespace_at_both_ends() {
    assert_eq!(trim_ascii("  a b \t\n"), "a b");
    assert_eq!(trim_ascii(" \t \r\n "), "");
    assert_eq!(trim_ascii(""), "");
    assert_eq!(trim_ascii("x"), "x");
    assert_eq!(trim_string(&"\nkeep  inner\t".to_string()), "keep  inner");
}

#[test]
fn string_equality_by_characters() {
    assert!(str_eq("table", "table"));
    assert!(!str_eq("table", "tr"));
    assert!(!str_eq("td", "th"));
    assert!(str_eq("", ""));
}

#[test]
fn url_sources_are_recognized() {
    assert!(is_url("http://example.org/page.html"));
    assert!(is_url("https://example.org/page.html"));
    assert!(!is_url("ftp://example.org/page.html"));
    assert!(!is_url("page.html"));
    assert!(!is_url("http:/broken"));
    assert!(!is_url("http"));
}

#[test]
fn numbers_render_in_decimal() {
    assert_eq!(usize_string(0), "0");
    assert_eq!(usize_string(7), "7");
    assert_eq!(usize_string(10), "10");
    assert_eq!(usize_string(4096), "4096");
}

#[test]
fn trace_lines_show_grid_construction() {
    let rows = vec![
        vec![cell("a", 2, 1)],
        vec![cell("b", 1, 2), cell("c", 1, 1)],
    ];
    let lines = trace_table(&rows).unwrap();
    assert_eq!(lines.len(), 2);
    assert_eq!(lines[0], "Columns: 2, Cells: ['a', 2, 1], ");
    assert_eq!(lines[1], "Columns: 2, Cells: ['b', 1, 2], ['c', 1, 1]");
}

#[test]
fn extraction_trace_covers_every_table() {
    let html = "<html><body><table><tr><td colspan=\"2\">x</td></tr></table></body></html>";
    let lines = extract_traces(html);
    assert_eq!(lines.len(), 1);
    assert_eq!(lines[0], "Columns: 2, Cells: ['x', 2, 1], ");
}

use html2csv::extract::extract_tables;

#[test]
fn test_extract_tables_single_table() {
    let html = r#"
        <html>
            <body>
                <table>
                    <tr><td>Cell 1</td><td>Cell 2</td></tr>
                    <tr><td>Cell 3</td><td>Cell 4</td></tr>
                </table>
            </body>
        </html>
        "#;

    let tables = extract_tables(html);
    assert_eq!(tables.len(), 1);
    assert_eq!(tables[0].len(), 2);
    assert_eq!(tables[0][0], vec!["Cell 1", "Cell 2"]);
    assert_eq!(tables[0][1], vec!["Cell 3", "Cell 4"]);
}

#[test]
fn test_extract_tables_multiple_tables() {
    let html = r#"
        <html>
            <body>
                <table>
                    <tr><td>A1</td><td>A2</td></tr>
                    <tr><td>A3</td><td>A4</td></tr>
                </table>
                <table>
                    <tr><td>B1</td><td>B2</td></tr>
                    <tr><td>B3</td><td>B4</td></tr>
                </table>
            </body>
        </html>
        "#;

    let tables = extract_tables(html);
    assert_eq!(tables.len(), 2);
    assert_eq!(tables[0].len(), 2);
    assert_eq!(tables[0][0], vec!["A1", "A2"]);
    assert_eq!(tables[0][1], vec!["A3", "A4"]);
    assert_eq!(tables[1].len(), 2);
    assert_eq!(tables[1][0], vec!["B1", "B2"]);
    assert_eq!(tables[1][1], vec!["B3", "B4"]);
}

#[test]
fn test_extract_tables_with_colspan_rowspan() {
    let html = r#"
        <html>
            <body>
                <table>
                    <tr><td colspan="2">Merged 1</td></tr>
                    <tr><td>Cell 1</td><td>Cell 2</td></tr>
                    <tr><td rowspan="2">Merged 2</td><td>Cell 3</td></tr>
                    <tr><td>Cell 4</td></tr>
                </table>
            </body>
        </html>
        "#;

    let tables = extract_tables(html);
    assert_eq!(tables.len(), 1);
    assert_eq!(tables[0].len(), 4);
    assert_eq!(tables[0][0], vec!["Merged 1", ""]);
    assert_eq!(tables[0][1], vec!["Cell 1", "Cell 2"]);
    assert_eq!(tables[0][2], vec!["Merged 2", "Cell 3"]);
    assert_eq!(tables[0][3], vec!["", "Cell 4"]);
}

#[test]
fn test_extract_tables_with_nested_tables() {
    let html = r#"
        <html>
            <body>
                <table>
                    <tr>
                        <td>Main Table Cell 1</td>
                        <td>
                            <table>
                                <tr><td>Nested Table Cell 1</td></tr>
                                <tr><td>Nested Table Cell 2</td></tr>
                            </table>
                        </td>
                    </tr>
                    <tr><td>Main Table Cell 2</td><td>Main Table Cell 3</td></tr>
                </table>
            </body>
        </html>
        "#;

    let tables = extract_tables(html);
    assert_eq!(tables.len(), 2);

    // Main table assertions
    assert_eq!(tables[0].len(), 2);
    assert_eq!(tables[0][0], vec!["Main Table Cell 1", ""]);
    assert_eq!(tables[0][1], vec!["Main Table Cell 2", "Main Table Cell 3"]);

    // Nested table assertions
    assert_eq!(tables[1].len(), 2);
    assert_eq!(tables[1][0], vec!["Nested Table Cell 1"]);
    assert_eq!(tables[1][1], vec!["Nested Table Cell 2"]);
}

#[test]
fn overflowing_rowspan_is_bounded_by_table_height() {
    let html = r#"<html><body><table><tr><td rowspan="5">X</td></tr></table></body></html>"#;
    let tables = extract_tables(html);
    assert_eq!(tables.len(), 1);
    assert_eq!(tables[0].len(), 1);
    assert_eq!(tables[0][0], vec!["X"]);
}

#[test]
fn no_tables_in_document() {
    let html = r#"<html><body><p>nothing tabular here</p></body></html>"#;
    let tables = extract_tables(html);
    assert_eq!(tables.len(), 0);
}

#[test]
fn whitespace_is_trimmed_from_cell_ends_only() {
    let html = "<html><body><table><tr><td>   </td><td> hi  there \t</td></tr></table></body></html>";
    let tables = extract_tables(html);
    assert_eq!(tables.len(), 1);
    assert_eq!(tables[0][0], vec!["", "hi  there"]);
}

#[test]
fn invalid_span_attributes_behave_like_one() {
    let html = r#"<html><body>
        <table><tr><td colspan="abc" rowspan="0">A</td><td colspan="-3">B</td></tr></table>
        <table><tr><td colspan="1" rowspan="1">A</td><td colspan="1">B</td></tr></table>
    </body></html>"#;
    let tables = extract_tables(html);
    assert_eq!(tables.len(), 2);
    assert_eq!(tables[0], tables[1]);
}

#[test]
fn extraction_is_deterministic() {
    let html = r#"<html><body><table>
        <tr><td colspan="2">top</td></tr>
        <tr><td rowspan="2">left</td><td>a</td></tr>
        <tr><td>b</td></tr>
    </table></body></html>"#;
    let first = extract_tables(html);
    let second = extract_tables(html);
    assert_eq!(first, second);
}

#[test]
fn round_trip_of_rendered_normalized_table() {
    let html = r#"<html><body><table>
        <tr><td>alpha</td><td>beta</td></tr>
        <tr><td>gamma</td><td>delta</td></tr>
    </table></body></html>"#;
    let first = extract_tables(html);
    assert_eq!(first.len(), 1);

    let mut rendered = String::new();
    rendered.push_str("<html><body><table>");
    for row in &first[0] {
        rendered.push_str("<tr>");
        for cell in row {
            rendered.push_str("<td>");
            rendered.push_str(cell);
            rendered.push_str("</td>");
        }
        rendered.push_str("</tr>");
    }
    rendered.push_str("</table></body></html>");

    let second = extract_tables(&rendered);
    assert_eq!(first, second);
}

#[test]
fn interleaved_colspan_and_rowspan() {
    // a two-column spanning cell that also spans two rows
    let html = r#"<html><body><table>
        <tr><td colspan="2" rowspan="2">big</td><td>r1</td></tr>
        <tr><td>r2</td></tr>
        <tr><td>x</td><td>y</td><td>z</td></tr>
    </table></body></html>"#;
    let tables = extract_tables(html);
    assert_eq!(tables.len(), 1);
    assert_eq!(tables[0].len(), 3);
    // every row has the table's full width
    for row in &tables[0] {
        assert_eq!(row.len(), tables[0][0].len());
    }
    assert_eq!(tables[0][0], vec!["big", "", "r1"]);
    // the carried placeholder occupies one slot; the rest is padding
    assert_eq!(tables[0][1], vec!["", "r2", ""]);
    assert_eq!(tables[0][2], vec!["x", "y", "z"]);
}

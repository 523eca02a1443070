use docray::flow::FlowTableCell;
use docray::html_table::render_html_table;
use docray::markdown::{escape_html_attr, escape_html_text, render_html_segments, Segment};

#[test]
fn html_escaping_helpers_neutralize_metacharacters() {
    assert_eq!(escape_html_text("a<b>&c"), "a&lt;b&gt;&amp;c");
    assert_eq!(escape_html_attr("x\"y'z<&>"), "x&quot;y&#39;z&lt;&amp;&gt;");
}

#[test]
fn borderless_bold_cell_renders_strong_in_html() {
    let mut bold = Segment {
        text: "Bad<x>".into(),
        bold: true,
        italic: false,
        href: None,
    };
    bold.href = None;
    assert_eq!(
        render_html_segments(std::slice::from_ref(&bold)),
        "<strong>Bad&lt;x&gt;</strong>"
    );
}

#[test]
fn hostile_cell_text_cannot_break_out_of_html_table() {
    let cells = vec![
        FlowTableCell {
            row: 0,
            col: 0,
            row_span: 1,
            col_span: 2,
            content: "</td><script>alert(1)</script>".into(),
            runs: Vec::new(),
            blocks: None,
        },
        FlowTableCell {
            row: 1,
            col: 0,
            row_span: 1,
            col_span: 1,
            content: "\"onmouseover=alert(2)".into(),
            runs: Vec::new(),
            blocks: None,
        },
        FlowTableCell {
            row: 1,
            col: 1,
            row_span: 1,
            col_span: 1,
            content: "safe".into(),
            runs: Vec::new(),
            blocks: None,
        },
    ];
    let html = render_html_table(2, 2, &cells);
    assert!(!html.contains("<script>"), "{html:?}");
    assert!(!html.contains("</td><script>"), "{html:?}");
    assert!(html.contains("&lt;/td&gt;&lt;script&gt;alert(1)&lt;/script&gt;"), "{html:?}");
    assert!(html.contains("<td>\"onmouseover=alert(2)</td>"), "{html:?}");
    assert_eq!(html.matches("</th>").count(), 1);
    assert_eq!(html.matches("</td>").count(), 2);
}

fn plain_cell(row: usize, col: usize, row_span: usize, col_span: usize, content: &str) -> FlowTableCell {
    FlowTableCell { row, col, row_span, col_span, content: content.into(), runs: Vec::new(), blocks: None }
}

#[test]
fn merged_header_table_renders_exact_html() {
    let mut cells = vec![plain_cell(0, 0, 1, 3, "Summary")];
    for (r, values) in [["Alpha", "2", "$4"], ["Beta", "5", "$9"]].iter().enumerate() {
        for (c, value) in values.iter().enumerate() {
            cells.push(plain_cell(r + 1, c, 1, 1, value));
        }
    }
    assert_eq!(
        render_html_table(3, 3, &cells),
        "<table>\n<thead>\n<tr>\n<th colspan=\"3\">Summary</th>\n</tr>\n</thead>\n<tbody>\n\
         <tr>\n<td>Alpha</td>\n<td>2</td>\n<td>$4</td>\n</tr>\n\
         <tr>\n<td>Beta</td>\n<td>5</td>\n<td>$9</td>\n</tr>\n</tbody>\n</table>"
    );
}

#[test]
fn html_table_rowspan_covers_cells_below_and_empty_table_is_empty() {
    let cells = vec![plain_cell(0, 0, 2, 1, "tall"), plain_cell(0, 1, 1, 1, "a"), plain_cell(1, 1, 1, 1, "b")];
    assert_eq!(
        render_html_table(2, 2, &cells),
        "<table>\n<thead>\n<tr>\n<th rowspan=\"2\">tall</th>\n<th>a</th>\n</tr>\n</thead>\n<tbody>\n<tr>\n<td>b</td>\n</tr>\n</tbody>\n</table>"
    );
    assert_eq!(render_html_table(0, 2, &cells), "");
    assert_eq!(
        render_html_table(1, 1, &Vec::new()),
        "<table>\n<thead>\n<tr>\n<th></th>\n</tr>\n</thead>\n</table>"
    );
}

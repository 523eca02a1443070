//! Tables with merged cells as raw HTML: the one Markdown-embeddable form that
//! can say `colspan` and `rowspan`. Every cell's text is HTML-escaped and only
//! integer span attributes reach a tag, so cell text cannot leave its cell.
use vstd::prelude::*;
use crate::flow::FlowTableCell;
use crate::flow_markdown::{segments_from_text, text_segments};
use crate::markdown::{render_html_segments, rendered_state, segment_views};
use crate::text::{chars_of, decimal, push_chars, push_decimal, push_str, string_of};

verus! {

/// A cell's text as inline HTML: its runs as styled segments, the text
/// between runs styled like the first run.
pub open spec fn cell_html(cell: FlowTableCell) -> Seq<char> {
    let bold = cell.runs@.len() > 0 && cell.runs@[0].font.bold;
    let italic = cell.runs@.len() > 0 && cell.runs@[0].font.italic;
    rendered_state(text_segments(cell.content@, bold, italic, cell.runs@), false, true).0
}

/// `cell`, which lies inside the table, spans over row `r` and column `c`
/// without starting there.
pub open spec fn spans_over(cell: FlowTableCell, rows: nat, cols: nat, r: int, c: int) -> bool {
    let row_end = if cell.row + if cell.row_span > 0 { cell.row_span as int } else { 1 } < rows {
        cell.row + if cell.row_span > 0 { cell.row_span as int } else { 1 }
    } else {
        rows as int
    };
    let col_end = if cell.col + if cell.col_span > 0 { cell.col_span as int } else { 1 } < cols {
        cell.col + if cell.col_span > 0 { cell.col_span as int } else { 1 }
    } else {
        cols as int
    };
    &&& cell.row < rows && cell.col < cols
    &&& cell.row <= r < row_end
    &&& cell.col <= c < col_end
    &&& !(r == cell.row && c == cell.col)
}

/// Some cell spans over row `r`, column `c` (see `spans_over`).
pub open spec fn covered(cells: Seq<FlowTableCell>, rows: nat, cols: nat, r: int, c: int) -> bool {
    exists|k: int| 0 <= k < cells.len() && spans_over(#[trigger] cells[k], rows, cols, r, c)
}

/// The last cell of `cells` that starts at row `r`, column `c`.
pub open spec fn anchor(cells: Seq<FlowTableCell>, r: int, c: int) -> Option<FlowTableCell>
    decreases cells.len(),
{
    if cells.len() == 0 {
        None
    } else if cells.last().row == r && cells.last().col == c {
        Some(cells.last())
    } else {
        anchor(cells.drop_last(), r, c)
    }
}

/// The span attributes of a cell: `colspan` and `rowspan` where above one.
pub open spec fn span_attrs(cell: FlowTableCell) -> Seq<char> {
    (if cell.col_span > 1 {
        " colspan=\""@ + decimal(cell.col_span as nat) + "\""@
    } else {
        Seq::empty()
    }) + (if cell.row_span > 1 {
        " rowspan=\""@ + decimal(cell.row_span as nat) + "\""@
    } else {
        Seq::empty()
    })
}

pub open spec fn cell_tag(header: bool) -> Seq<char> {
    if header {
        "th"@
    } else {
        "td"@
    }
}

/// The element for row `r`, column `c`: nothing where a cell spans over it,
/// the anchored cell where one starts there, an empty cell otherwise.
pub open spec fn html_slot(cells: Seq<FlowTableCell>, rows: nat, cols: nat, r: int, c: int, header: bool) -> Seq<
    char,
> {
    if covered(cells, rows, cols, r, c) {
        Seq::empty()
    } else {
        let (attrs, content) = match anchor(cells, r, c) {
            Some(cell) => (span_attrs(cell), cell_html(cell)),
            None => (Seq::empty(), Seq::empty()),
        };
        "<"@ + cell_tag(header) + attrs + ">"@ + content + "</"@ + cell_tag(header) + ">\n"@
    }
}

pub open spec fn html_slots(cells: Seq<FlowTableCell>, rows: nat, cols: nat, r: int, n: nat, header: bool) -> Seq<
    char,
>
    decreases n,
{
    if n == 0 {
        Seq::empty()
    } else {
        html_slots(cells, rows, cols, r, (n - 1) as nat, header) + html_slot(cells, rows, cols, r, n - 1, header)
    }
}

pub open spec fn html_row(cells: Seq<FlowTableCell>, rows: nat, cols: nat, r: int, header: bool) -> Seq<char> {
    "<tr>\n"@ + html_slots(cells, rows, cols, r, cols, header) + "</tr>\n"@
}

/// The body rows `1..n`.
pub open spec fn html_body_rows(cells: Seq<FlowTableCell>, rows: nat, cols: nat, n: nat) -> Seq<char>
    decreases n,
{
    if n <= 1 {
        Seq::empty()
    } else {
        html_body_rows(cells, rows, cols, (n - 1) as nat) + html_row(cells, rows, cols, n - 1, false)
    }
}

/// A table as HTML: row 0 as the header (`<th>` in `<thead>`), the others as
/// `<td>` rows in `<tbody>`; empty where it has no rows or columns.
pub open spec fn html_table(rows: nat, cols: nat, cells: Seq<FlowTableCell>) -> Seq<char> {
    if rows == 0 || cols == 0 {
        Seq::empty()
    } else {
        "<table>\n<thead>\n"@ + html_row(cells, rows, cols, 0, true) + "</thead>\n"@ + (if rows > 1 {
            "<tbody>\n"@ + html_body_rows(cells, rows, cols, rows) + "</tbody>\n"@
        } else {
            Seq::empty()
        }) + "</table>"@
    }
}

fn cell_html_of(cell: &FlowTableCell) -> (r: Vec<char>)
    ensures
        r@ == cell_html(*cell),
{
    let bold = cell.runs.len() > 0 && cell.runs[0].font.bold;
    let italic = cell.runs.len() > 0 && cell.runs[0].font.italic;
    let segments = segments_from_text(cell.content.as_str(), bold, italic, &cell.runs);
    let html = render_html_segments(segments.as_slice());
    chars_of(html.as_str())
}

fn spans_over_exec(cell: &FlowTableCell, rows: usize, cols: usize, r: usize, c: usize) -> (b: bool)
    ensures
        b == spans_over(*cell, rows as nat, cols as nat, r as int, c as int),
{
    if cell.row >= rows || cell.col >= cols {
        return false;
    }
    let rspan: usize = if cell.row_span > 0 {
        cell.row_span
    } else {
        1
    };
    let cspan: usize = if cell.col_span > 0 {
        cell.col_span
    } else {
        1
    };
    let row_end: usize = if rspan < rows - cell.row {
        cell.row + rspan
    } else {
        rows
    };
    let col_end: usize = if cspan < cols - cell.col {
        cell.col + cspan
    } else {
        cols
    };
    cell.row <= r && r < row_end && cell.col <= c && c < col_end && !(r == cell.row && c == cell.col)
}

fn is_covered(cells: &Vec<FlowTableCell>, rows: usize, cols: usize, r: usize, c: usize) -> (b: bool)
    ensures
        b == covered(cells@, rows as nat, cols as nat, r as int, c as int),
{
    let mut k: usize = 0;
    while k < cells.len()
        invariant
            k <= cells.len(),
            forall|q: int| 0 <= q < k ==> !spans_over(#[trigger] cells@[q], rows as nat, cols as nat, r as int, c as int),
        decreases cells.len() - k,
    {
        if spans_over_exec(&cells[k], rows, cols, r, c) {
            return true;
        }
        k += 1;
    }
    false
}

fn anchor_index(cells: &Vec<FlowTableCell>, r: usize, c: usize) -> (i: Option<usize>)
    ensures
        match anchor(cells@, r as int, c as int) {
            Some(cell) => i matches Some(k) && k < cells@.len() && cells@[k as int] == cell,
            None => i is None,
        },
{
    let mut k = cells.len();
    assert(cells@.subrange(0, cells@.len() as int) =~= cells@);
    while k > 0
        invariant
            k <= cells.len(),
            anchor(cells@, r as int, c as int) == anchor(cells@.subrange(0, k as int), r as int, c as int),
        decreases k,
    {
        proof {
            let p = cells@.subrange(0, k as int);
            assert(p.drop_last() =~= cells@.subrange(0, k - 1));
            assert(p.last() == cells@[k - 1]);
        }
        if cells[k - 1].row == r && cells[k - 1].col == c {
            return Some(k - 1);
        }
        k -= 1;
    }
    None
}

fn push_tag(out: &mut Vec<char>, header: bool)
    ensures
        final(out)@ == old(out)@ + cell_tag(header),
{
    if header {
        push_str(out, "th");
    } else {
        push_str(out, "td");
    }
}

fn push_span_attrs(out: &mut Vec<char>, cell: &FlowTableCell)
    ensures
        final(out)@ == old(out)@ + span_attrs(*cell),
{
    let ghost start = out@;
    if cell.col_span > 1 {
        push_str(out, " colspan=\"");
        push_decimal(out, cell.col_span as u64);
        push_str(out, "\"");
    }
    let ghost mid = out@;
    assert(mid == start + (if cell.col_span > 1 {
        " colspan=\""@ + decimal(cell.col_span as nat) + "\""@
    } else {
        Seq::<char>::empty()
    }));
    if cell.row_span > 1 {
        push_str(out, " rowspan=\"");
        push_decimal(out, cell.row_span as u64);
        push_str(out, "\"");
    }
    assert(out@ =~= start + span_attrs(*cell));
}

fn push_slot(
    out: &mut Vec<char>,
    cells: &Vec<FlowTableCell>,
    html: &Vec<Vec<char>>,
    rows: usize,
    cols: usize,
    r: usize,
    c: usize,
    header: bool,
)
    requires
        html@.len() == cells@.len(),
        forall|q: int| 0 <= q < cells@.len() ==> #[trigger] html@[q]@ == cell_html(cells@[q]),
    ensures
        final(out)@ == old(out)@ + html_slot(cells@, rows as nat, cols as nat, r as int, c as int, header),
{
    if is_covered(cells, rows, cols, r, c) {
        assert(out@ =~= old(out)@ + html_slot(cells@, rows as nat, cols as nat, r as int, c as int, header));
        return;
    }
    let ghost start = out@;
    push_str(out, "<");
    push_tag(out, header);
    match anchor_index(cells, r, c) {
        Some(k) => {
            push_span_attrs(out, &cells[k]);
            push_str(out, ">");
            push_chars(out, &html[k]);
            let ghost cell = cells@[k as int];
            assert(out@ =~= start + "<"@ + cell_tag(header) + span_attrs(cell) + ">"@ + cell_html(cell));
        },
        None => {
            push_str(out, ">");
            assert(out@ =~= start + "<"@ + cell_tag(header) + Seq::<char>::empty() + ">"@ + Seq::<char>::empty());
        },
    }
    push_str(out, "</");
    push_tag(out, header);
    push_str(out, ">\n");
    assert(out@ =~= start + html_slot(cells@, rows as nat, cols as nat, r as int, c as int, header));
}

fn push_row(
    out: &mut Vec<char>,
    cells: &Vec<FlowTableCell>,
    html: &Vec<Vec<char>>,
    rows: usize,
    cols: usize,
    r: usize,
    header: bool,
)
    requires
        html@.len() == cells@.len(),
        forall|q: int| 0 <= q < cells@.len() ==> #[trigger] html@[q]@ == cell_html(cells@[q]),
    ensures
        final(out)@ == old(out)@ + html_row(cells@, rows as nat, cols as nat, r as int, header),
{
    let ghost start = out@;
    push_str(out, "<tr>\n");
    let ghost mid = out@;
    let mut c: usize = 0;
    while c < cols
        invariant
            c <= cols,
            html@.len() == cells@.len(),
            forall|q: int| 0 <= q < cells@.len() ==> #[trigger] html@[q]@ == cell_html(cells@[q]),
            out@ == mid + html_slots(cells@, rows as nat, cols as nat, r as int, c as nat, header),
        decreases cols - c,
    {
        push_slot(out, cells, html, rows, cols, r, c, header);
        c += 1;
    }
    push_str(out, "</tr>\n");
    assert(out@ =~= start + html_row(cells@, rows as nat, cols as nat, r as int, header));
}

/// Renders a table with merged cells as HTML (see `html_table`).
pub fn render_html_table(rows: usize, cols: usize, cells: &Vec<FlowTableCell>) -> (r: String)
    ensures
        r@ == html_table(rows as nat, cols as nat, cells@),
{
    if rows == 0 || cols == 0 {
        return String::new();
    }
    let mut html: Vec<Vec<char>> = Vec::new();
    let mut k: usize = 0;
    while k < cells.len()
        invariant
            k <= cells.len(),
            html@.len() == k,
            forall|q: int| 0 <= q < k ==> #[trigger] html@[q]@ == cell_html(cells@[q]),
        decreases cells.len() - k,
    {
        html.push(cell_html_of(&cells[k]));
        k += 1;
    }
    let mut out = chars_of("<table>\n<thead>\n");
    push_row(&mut out, cells, &html, rows, cols, 0, true);
    push_str(&mut out, "</thead>\n");
    let ghost head = out@;
    if rows > 1 {
        push_str(&mut out, "<tbody>\n");
        let ghost body_start = out@;
        let mut r: usize = 1;
        while r < rows
            invariant
                1 <= r <= rows,
                html@.len() == cells@.len(),
                forall|q: int| 0 <= q < cells@.len() ==> #[trigger] html@[q]@ == cell_html(cells@[q]),
                out@ == body_start + html_body_rows(cells@, rows as nat, cols as nat, r as nat),
            decreases rows - r,
        {
            push_row(&mut out, cells, &html, rows, cols, r, false);
            r += 1;
        }
        push_str(&mut out, "</tbody>\n");
    }
    push_str(&mut out, "</table>");
    assert(out@ =~= html_table(rows as nat, cols as nat, cells@));
    string_of(&out)
}

} // verus!

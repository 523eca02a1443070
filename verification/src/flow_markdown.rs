//! Markdown rendering of flow documents: a paragraph's runs as styled
//! segments, lists, headings and quotes, tables as GFM tables, images and
//! breaks as markers, followed by the document's warnings and hidden items.
use vstd::prelude::*;
use crate::docx::{join_lines, opt_chars};
use crate::relationships::split_on;
use crate::flow::{Block, FlowExtraction, FlowTableCell, Section, Story, TextRun};
use crate::markdown::{
    heading_level_of, heading_role, render_segments_styled, rendered_state, segment_view,
    segment_views, trailing_context, write_trailing_context, Segment, SegmentView,
};
use crate::model::{BreakKind, HiddenItem, ListInfo, ListKind};
use crate::text::{chars_of, push_chars, push_str, replace_all, replaced, slice_chars, string_of};

verus! {

/// The first position at or after `i` where `pat` occurs in `s`.
pub open spec fn first_from(s: Seq<char>, i: int, pat: Seq<char>) -> Option<int>
    decreases s.len() - i,
{
    if i < 0 || i + pat.len() > s.len() {
        None
    } else if s.subrange(i, i + pat.len()) == pat {
        Some(i)
    } else {
        proof {
            if pat.len() == 0 {
                assert(s.subrange(i, i + pat.len()) =~= pat);
            }
        }
        first_from(s, i + 1, pat)
    }
}

fn occurs_here(v: &Vec<char>, i: usize, pat: &Vec<char>) -> (r: bool)
    requires
        i + pat.len() <= v.len(),
    ensures
        r == (v@.subrange(i as int, i + pat.len()) == pat@),
{
    let mut k: usize = 0;
    while k < pat.len()
        invariant
            k <= pat.len(),
            i + pat.len() <= v.len(),
            forall|j: int| 0 <= j < k ==> v@[i + j] == pat@[j],
        decreases pat.len() - k,
    {
        if v[i + k] != pat[k] {
            assert(v@.subrange(i as int, i + pat.len())[k as int] != pat@[k as int]);
            return false;
        }
        k += 1;
    }
    assert(v@.subrange(i as int, i + pat.len()) =~= pat@);
    true
}

/// The first occurrence of `pat` in `v` at or after `from`.
fn find_from(v: &Vec<char>, from: usize, pat: &Vec<char>) -> (r: Option<usize>)
    ensures
        match first_from(v@, from as int, pat@) {
            Some(i) => r == Some(i as usize),
            None => r is None,
        },
{
    let mut i = from;
    while i <= v.len() && pat.len() <= v.len() - i
        invariant
            first_from(v@, from as int, pat@) == first_from(v@, i as int, pat@),
            from <= i,
        decreases v.len() + 1 - i,
    {
        if occurs_here(v, i, pat) {
            return Some(i);
        }
        if pat.len() == 0 {
            assert(v@.subrange(i as int, i as int) =~= pat@);
        }
        i += 1;
    }
    None
}

pub open spec fn seg_of(text: Seq<char>, bold: bool, italic: bool, href: Option<Seq<char>>) -> SegmentView {
    SegmentView { text, bold, italic, href }
}

pub open spec fn run_segment(run: TextRun) -> SegmentView {
    seg_of(run.content@, run.font.bold, run.font.italic, opt_chars(run.href))
}

/// The segments of `runs` laid over `content`, and the position reached:
/// each run is found in the content after the position reached, the text
/// skipped on the way taking the paragraph's style; a run not found is
/// taken as it is.
pub open spec fn run_segments(content: Seq<char>, bold: bool, italic: bool, runs: Seq<TextRun>) -> (
    Seq<SegmentView>,
    int,
)
    decreases runs.len(),
{
    if runs.len() == 0 {
        (Seq::empty(), 0)
    } else {
        let (prev, cursor) = run_segments(content, bold, italic, runs.drop_last());
        let run = runs.last();
        match first_from(content, cursor, run.content@) {
            Some(start) => (
                prev + (if start > cursor {
                    seq![seg_of(content.subrange(cursor, start), bold, italic, None)]
                } else {
                    Seq::empty()
                }) + seq![run_segment(run)],
                start + run.content@.len(),
            ),
            None => (prev.push(run_segment(run)), cursor),
        }
    }
}

/// The segments of a paragraph's text: its runs laid over its content (see
/// `run_segments`), then the content after the last run found; the whole
/// content in the paragraph's style where there are no runs.
pub open spec fn text_segments(content: Seq<char>, bold: bool, italic: bool, runs: Seq<TextRun>) -> Seq<SegmentView> {
    if runs.len() == 0 {
        seq![seg_of(content, bold, italic, None)]
    } else {
        let (segs, cursor) = run_segments(content, bold, italic, runs);
        if cursor < content.len() {
            segs.push(seg_of(content.subrange(cursor, content.len() as int), bold, italic, None))
        } else {
            segs
        }
    }
}

proof fn lemma_first_from_bounds(s: Seq<char>, i: int, pat: Seq<char>)
    ensures
        first_from(s, i, pat) matches Some(j) ==> i <= j && j + pat.len() <= s.len() && s.subrange(
            j,
            j + pat.len(),
        ) == pat,
    decreases s.len() - i,
{
    if i < 0 || i + pat.len() > s.len() {
    } else if s.subrange(i, i + pat.len()) == pat {
    } else {
        if pat.len() == 0 {
            assert(s.subrange(i, i + pat.len()) =~= pat);
        }
        lemma_first_from_bounds(s, i + 1, pat);
    }
}

fn make_segment(text: String, bold: bool, italic: bool, href: Option<String>) -> (s: Segment)
    ensures
        segment_view(s) == seg_of(text@, bold, italic, opt_chars(href)),
{
    Segment { text, bold, italic, href }
}

fn copy_href(h: &Option<String>) -> (r: Option<String>)
    ensures
        opt_chars(r) == opt_chars(*h),
{
    match h {
        Some(x) => Some(x.clone()),
        None => None,
    }
}

/// The segments of `content` with `runs` (see `text_segments`), where the
/// paragraph's own style is `bold` and `italic`.
pub fn segments_from_text(content: &str, bold: bool, italic: bool, runs: &Vec<TextRun>) -> (r: Vec<Segment>)
    ensures
        segment_views(r@) == text_segments(content@, bold, italic, runs@),
{
    let c = chars_of(content);
    if runs.len() == 0 {
        let mut only: Vec<Segment> = Vec::new();
        only.push(make_segment(content.to_string(), bold, italic, None));
        assert(segment_views(only@) =~= seq![seg_of(content@, bold, italic, None)]);
        return only;
    }
    let mut result: Vec<Segment> = Vec::new();
    let mut cursor: usize = 0;
    let mut i: usize = 0;
    while i < runs.len()
        invariant
            i <= runs.len(),
            c@ == content@,
            (segment_views(result@), cursor as int) == run_segments(c@, bold, italic, runs@.subrange(0, i as int)),
            cursor <= c.len(),
        decreases runs.len() - i,
    {
        let run = &runs[i];
        proof {
            let p = runs@.subrange(0, i + 1);
            assert(p.drop_last() =~= runs@.subrange(0, i as int));
            assert(p.last() == *run);
        }
        let pat = chars_of(run.content.as_str());
        let ghost before = segment_views(result@);
        match find_from(&c, cursor, &pat) {
            Some(start) => {
                let ghost cur0 = cursor as int;
                proof {
                    lemma_first_from_bounds(c@, cursor as int, pat@);
                }
                if start > cursor {
                    let piece = slice_chars(&c, cursor, start);
                    result.push(make_segment(string_of(&piece), bold, italic, None));
                }
                result.push(make_segment(run.content.clone(), run.font.bold, run.font.italic, copy_href(&run.href)));
                proof {
                    assert(segment_views(result@) =~= before + (if start > cur0 {
                        seq![seg_of(c@.subrange(cur0, start as int), bold, italic, None)]
                    } else {
                        Seq::<SegmentView>::empty()
                    }) + seq![run_segment(*run)]);
                }
                cursor = start + pat.len();
            },
            None => {
                result.push(make_segment(run.content.clone(), run.font.bold, run.font.italic, copy_href(&run.href)));
                assert(segment_views(result@) =~= before.push(run_segment(*run)));
            },
        }
        i += 1;
    }
    proof {
        assert(runs@.subrange(0, runs@.len() as int) =~= runs@);
    }
    if cursor < c.len() {
        let rest = slice_chars(&c, cursor, c.len());
        let ghost before = segment_views(result@);
        result.push(make_segment(string_of(&rest), bold, italic, None));
        assert(segment_views(result@) =~= before.push(
            seg_of(c@.subrange(cursor as int, c@.len() as int), bold, italic, None),
        ));
    }
    result
}

/// Segments given a link where they have none.
pub open spec fn with_fallback(segs: Seq<SegmentView>, href: Option<Seq<char>>) -> Seq<SegmentView> {
    match href {
        None => segs,
        Some(h) => Seq::new(
            segs.len(),
            |i: int|
                if segs[i].href is None {
                    SegmentView { href: Some(h), ..segs[i] }
                } else {
                    segs[i]
                },
        ),
    }
}

/// The Markdown of a paragraph's text and runs (styled as its first run
/// where it has runs), links defaulting to `fallback`, bold suppressed where
/// `suppress_bold` holds.
pub open spec fn runs_markdown(
    content: Seq<char>,
    runs: Seq<TextRun>,
    fallback: Option<Seq<char>>,
    suppress_bold: bool,
) -> Seq<char> {
    let bold = runs.len() > 0 && runs[0].font.bold;
    let italic = runs.len() > 0 && runs[0].font.italic;
    rendered_state(with_fallback(text_segments(content, bold, italic, runs), fallback), suppress_bold, false).0
}

/// Renders a paragraph's text with its runs as Markdown (see
/// `runs_markdown`).
pub fn render_runs(content: &str, runs: &Vec<TextRun>, fallback_href: Option<&str>, suppress_bold: bool) -> (r: String)
    ensures
        r@ == runs_markdown(
            content@,
            runs@,
            match fallback_href {
                Some(h) => Some(h@),
                None => None,
            },
            suppress_bold,
        ),
{
    let bold = runs.len() > 0 && runs[0].font.bold;
    let italic = runs.len() > 0 && runs[0].font.italic;
    let segments = segments_from_text(content, bold, italic, runs);
    match fallback_href {
        None => render_segments_styled(&segments, suppress_bold),
        Some(h) => {
            let ghost sv = segment_views(segments@);
            let mut linked: Vec<Segment> = Vec::new();
            let mut i: usize = 0;
            while i < segments.len()
                invariant
                    i <= segments.len(),
                    sv == segment_views(segments@),
                    segment_views(linked@) == with_fallback(sv, Some(h@)).subrange(0, i as int),
                decreases segments.len() - i,
            {
                let seg = &segments[i];
                let href = match &seg.href {
                    Some(x) => Some(x.clone()),
                    None => Some(h.to_string()),
                };
                let ghost before = segment_views(linked@);
                linked.push(Segment { text: seg.text.clone(), bold: seg.bold, italic: seg.italic, href });
                proof {
                    assert(segment_views(linked@) =~= before.push(with_fallback(sv, Some(h@))[i as int]));
                    assert(with_fallback(sv, Some(h@)).subrange(0, i as int + 1) =~= with_fallback(
                        sv,
                        Some(h@),
                    ).subrange(0, i as int).push(with_fallback(sv, Some(h@))[i as int]));
                }
                i += 1;
            }
            assert(with_fallback(sv, Some(h@)).subrange(0, segments@.len() as int) =~= with_fallback(
                sv,
                Some(h@),
            ));
            render_segments_styled(&linked, suppress_bold)
        },
    }
}

/// `s` with a carriage return at its end removed.
pub open spec fn strip_cr(l: Seq<char>) -> Seq<char> {
    if l.len() > 0 && l.last() == '\r' {
        l.drop_last()
    } else {
        l
    }
}

/// The lines of `s`, as `str::lines` gives them.
pub open spec fn str_lines(s: Seq<char>) -> Seq<Seq<char>> {
    let pieces = split_on(s, '\n');
    let kept = if pieces.last().len() == 0 {
        pieces.drop_last()
    } else {
        pieces
    };
    kept.map_values(|l: Seq<char>| strip_cr(l))
}

/// A block quote: each line of `s` after `> `.
pub open spec fn quoted(s: Seq<char>) -> Seq<char> {
    join_lines(str_lines(s).map_values(|l: Seq<char>| "> "@ + l))
}

proof fn lemma_split_nonempty(s: Seq<char>, c: char)
    ensures
        split_on(s, c).len() >= 1,
    decreases s.len(),
{
    if s.len() > 0 {
        lemma_split_nonempty(s.drop_last(), c);
    }
}

fn quote_lines(v: &Vec<char>) -> (r: Vec<char>)
    ensures
        r@ == quoted(v@),
{
    let mut pieces: Vec<Vec<char>> = Vec::new();
    let mut cur: Vec<char> = Vec::new();
    let mut i: usize = 0;
    while i < v.len()
        invariant
            i <= v.len(),
            pieces@.map_values(|p: Vec<char>| p@).push(cur@) == split_on(v@.subrange(0, i as int), '\n'),
        decreases v.len() - i,
    {
        proof {
            let p = v@.subrange(0, i + 1);
            assert(p.drop_last() =~= v@.subrange(0, i as int));
            assert(p.last() == v@[i as int]);
            lemma_split_nonempty(v@.subrange(0, i as int), '\n');
        }
        let ghost before = pieces@.map_values(|p: Vec<char>| p@);
        let ghost cur0 = cur@;
        if v[i] == '\n' {
            let done = cur;
            pieces.push(done);
            cur = Vec::new();
            proof {
                assert(pieces@.map_values(|p: Vec<char>| p@) =~= before.push(cur0));
                assert(pieces@.map_values(|p: Vec<char>| p@).push(cur@) =~= before.push(cur0).push(Seq::<char>::empty()));
            }
        } else {
            cur.push(v[i]);
            proof {
                let sp = before.push(cur0);
                assert(sp.drop_last() =~= before);
                assert(sp.last() == cur0);
                assert(pieces@.map_values(|p: Vec<char>| p@).push(cur@) =~= sp.drop_last().push(sp.last().push(v@[i as int])));
            }
        }
        i += 1;
    }
    assert(v@.subrange(0, v@.len() as int) =~= v@);
    let ghost all = split_on(v@, '\n');
    if cur.len() > 0 {
        pieces.push(cur);
    } else {
        assert(pieces@.map_values(|p: Vec<char>| p@) =~= all.drop_last());
    }
    let ghost kept = if all.last().len() == 0 {
        all.drop_last()
    } else {
        all
    };
    assert(pieces@.map_values(|p: Vec<char>| p@) =~= kept);
    let ghost lines = kept.map_values(|l: Seq<char>| strip_cr(l)).map_values(|l: Seq<char>| "> "@ + l);
    let mut out: Vec<char> = Vec::new();
    let mut k: usize = 0;
    while k < pieces.len()
        invariant
            k <= pieces.len(),
            pieces@.map_values(|p: Vec<char>| p@) == kept,
            lines == kept.map_values(|l: Seq<char>| strip_cr(l)).map_values(|l: Seq<char>| "> "@ + l),
            out@ == join_lines(lines.subrange(0, k as int)),
        decreases pieces.len() - k,
    {
        proof {
            let p = lines.subrange(0, k + 1);
            assert(p.drop_last() =~= lines.subrange(0, k as int));
            assert(p.last() == lines[k as int]);
            assert(kept[k as int] == pieces@[k as int]@);
        }
        if k > 0 {
            push_str(&mut out, "\n");
        }
        push_str(&mut out, "> ");
        let line = &pieces[k];
        let n = line.len();
        if n > 0 && line[n - 1] == '\r' {
            let trimmed = slice_chars(line, 0, n - 1);
            push_chars(&mut out, &trimmed);
            proof {
                assert(trimmed@ =~= line@.drop_last());
            }
        } else {
            push_chars(&mut out, line);
        }
        proof {
            if k == 0 {
                assert(lines.subrange(0, 1) =~= seq![lines[0]]);
            }
            assert(out@ =~= join_lines(lines.subrange(0, k as int + 1)));
        }
        k += 1;
    }
    assert(lines.subrange(0, pieces@.len() as int) =~= lines);
    assert(quoted(v@) == join_lines(lines));
    out
}

/// The heading level of a paragraph: its role's (`h1`.. as at most six),
/// one for a title; none for list items.
pub open spec fn heading_of(role: Seq<char>, list: Option<ListInfo>) -> Option<nat> {
    if list is Some {
        None
    } else {
        match heading_level_of(role) {
            Some(l) => Some(
                if l < 6 {
                    l
                } else {
                    6nat
                },
            ),
            None => if role == "title"@ {
                Some(1nat)
            } else {
                None
            },
        }
    }
}

pub open spec fn repeated(s: Seq<char>, n: nat) -> Seq<char>
    decreases n,
{
    if n == 0 {
        Seq::empty()
    } else {
        repeated(s, (n - 1) as nat) + s
    }
}

/// A paragraph as a Markdown line: a list item (indented two spaces a
/// level, `1.` or `-`), a heading (`#` a level), a block quote, or its text.
pub open spec fn paragraph_line(role: Seq<char>, runs: Seq<TextRun>, content: Seq<char>, list: Option<ListInfo>) -> Seq<char> {
    let level = heading_of(role, list);
    let rendered = runs_markdown(content, runs, None, level is Some);
    match list {
        Some(l) => repeated("  "@, l.level as nat) + (if l.kind == ListKind::Ordered {
            "1."@
        } else {
            "-"@
        }) + " "@ + rendered,
        None => match level {
            Some(n) => repeated("#"@, n) + " "@ + rendered,
            None => if role == "quote"@ {
                quoted(rendered)
            } else {
                rendered
            },
        },
    }
}

fn push_repeated(out: &mut Vec<char>, s: &str, n: usize)
    ensures
        final(out)@ == old(out)@ + repeated(s@, n as nat),
{
    let mut i: usize = 0;
    while i < n
        invariant
            i <= n,
            out@ == old(out)@ + repeated(s@, i as nat),
        decreases n - i,
    {
        push_str(out, s);
        i += 1;
        assert(out@ =~= old(out)@ + repeated(s@, i as nat));
    }
}

/// Renders a paragraph as its Markdown line (see `paragraph_line`).
pub fn paragraph_markdown(role: &str, runs: &Vec<TextRun>, content: &str, list: &Option<ListInfo>) -> (r: Vec<char>)
    ensures
        r@ == paragraph_line(role@, runs@, content@, *list),
{
    proof {
        reveal_strlit("title");
        reveal_strlit("quote");
    }
    let level: Option<usize> = if list.is_some() {
        None
    } else {
        match heading_role(role) {
            Some(l) => Some(
                if l < 6 {
                    l
                } else {
                    6
                },
            ),
            None => if crate::text::str_eq(role, "title") {
                Some(1)
            } else {
                None
            },
        }
    };
    let rendered = render_runs(content, runs, None, level.is_some());
    let mut out: Vec<char> = Vec::new();
    match list {
        Some(l) => {
            push_repeated(&mut out, "  ", l.level as usize);
            match l.kind {
                ListKind::Ordered => push_str(&mut out, "1."),
                ListKind::Bullet => push_str(&mut out, "-"),
            }
            push_str(&mut out, " ");
            push_str(&mut out, rendered.as_str());
        },
        None => match level {
            Some(n) => {
                push_repeated(&mut out, "#", n);
                push_str(&mut out, " ");
                push_str(&mut out, rendered.as_str());
            },
            None => if crate::text::str_eq(role, "quote") {
                let v = chars_of(rendered.as_str());
                out = quote_lines(&v);
            } else {
                push_str(&mut out, rendered.as_str());
            },
        },
    }
    out
}

/// A table cell's Markdown: its runs rendered, line breaks kept inside the
/// cell.
pub open spec fn cell_markdown(cell: FlowTableCell) -> Seq<char> {
    replaced(runs_markdown(cell.content@, cell.runs@, None, false), "<br>\n"@, "<br>"@)
}

/// What the grid holds at row `r`, column `c`: the last cell placed there.
pub open spec fn grid_value(cells: Seq<FlowTableCell>, r: int, c: int) -> Seq<char>
    decreases cells.len(),
{
    if cells.len() == 0 {
        Seq::empty()
    } else if cells.last().row == r && cells.last().col == c {
        cell_markdown(cells.last())
    } else {
        grid_value(cells.drop_last(), r, c)
    }
}

pub open spec fn join_with(vals: Seq<Seq<char>>, sep: Seq<char>) -> Seq<char>
    decreases vals.len(),
{
    if vals.len() == 0 {
        Seq::empty()
    } else if vals.len() == 1 {
        vals[0]
    } else {
        join_with(vals.drop_last(), sep) + sep + vals.last()
    }
}

/// A GFM table row.
pub open spec fn table_row(vals: Seq<Seq<char>>) -> Seq<char> {
    "| "@ + join_with(vals, " | "@) + " |"@
}

pub open spec fn row_values(cells: Seq<FlowTableCell>, r: int, cols: nat) -> Seq<Seq<char>> {
    Seq::new(cols, |c: int| grid_value(cells, r, c))
}

/// The rows after the header, each on its own line.
pub open spec fn later_rows(cells: Seq<FlowTableCell>, n: nat, cols: nat) -> Seq<char>
    decreases n,
{
    if n <= 1 {
        Seq::empty()
    } else {
        later_rows(cells, (n - 1) as nat, cols) + "\n"@ + table_row(row_values(cells, n - 1, cols))
    }
}

/// A flow table as a GFM table: the first row as the header, a delimiter
/// row, then the other rows; empty where it has no rows or columns.
pub open spec fn flow_table(rows: nat, cols: nat, cells: Seq<FlowTableCell>) -> Seq<char> {
    if rows == 0 || cols == 0 {
        Seq::empty()
    } else {
        table_row(row_values(cells, 0, cols)) + "\n"@ + table_row(Seq::new(cols, |c: int| "---"@))
            + later_rows(cells, rows, cols)
    }
}

fn grid_at(cells: &Vec<FlowTableCell>, rendered: &Vec<Vec<char>>, r: usize, c: usize) -> (v: Vec<char>)
    requires
        rendered@.len() == cells@.len(),
        forall|k: int| 0 <= k < cells@.len() ==> #[trigger] rendered@[k]@ == cell_markdown(cells@[k]),
    ensures
        v@ == grid_value(cells@, r as int, c as int),
{
    let mut k = cells.len();
    assert(cells@.subrange(0, cells@.len() as int) =~= cells@);
    while k > 0
        invariant
            k <= cells.len(),
            rendered@.len() == cells@.len(),
            forall|q: int| 0 <= q < cells@.len() ==> #[trigger] rendered@[q]@ == cell_markdown(cells@[q]),
            grid_value(cells@, r as int, c as int) == grid_value(cells@.subrange(0, k as int), r as int, c as int),
        decreases k,
    {
        proof {
            let p = cells@.subrange(0, k as int);
            assert(p.drop_last() =~= cells@.subrange(0, k - 1));
            assert(p.last() == cells@[k - 1]);
        }
        if cells[k - 1].row == r && cells[k - 1].col == c {
            return rendered[k - 1].clone();
        }
        k -= 1;
    }
    Vec::new()
}

fn push_row(out: &mut Vec<char>, vals: &Vec<Vec<char>>)
    ensures
        final(out)@ == old(out)@ + table_row(vals@.map_values(|v: Vec<char>| v@)),
{
    let ghost vs = vals@.map_values(|v: Vec<char>| v@);
    let ghost start = out@;
    push_str(out, "| ");
    let ghost mid = out@;
    let mut i: usize = 0;
    while i < vals.len()
        invariant
            i <= vals.len(),
            vs == vals@.map_values(|v: Vec<char>| v@),
            out@ == mid + join_with(vs.subrange(0, i as int), " | "@),
        decreases vals.len() - i,
    {
        proof {
            let p = vs.subrange(0, i + 1);
            assert(p.drop_last() =~= vs.subrange(0, i as int));
            assert(p.last() == vals@[i as int]@);
        }
        if i > 0 {
            push_str(out, " | ");
        }
        push_chars(out, &vals[i]);
        proof {
            if i == 0 {
                assert(vs.subrange(0, 1) =~= seq![vs[0]]);
            }
            assert(out@ =~= mid + join_with(vs.subrange(0, i as int + 1), " | "@));
        }
        i += 1;
    }
    assert(vs.subrange(0, vals@.len() as int) =~= vs);
    push_str(out, " |");
    assert(out@ =~= start + table_row(vs));
}

/// Renders a flow table as GFM (see `flow_table`).
pub fn render_flow_table(rows: usize, cols: usize, cells: &Vec<FlowTableCell>) -> (r: String)
    ensures
        r@ == flow_table(rows as nat, cols as nat, cells@),
{
    if rows == 0 || cols == 0 {
        return String::new();
    }
    let mut rendered: Vec<Vec<char>> = Vec::new();
    let mut k: usize = 0;
    while k < cells.len()
        invariant
            k <= cells.len(),
            rendered@.len() == k,
            forall|q: int| 0 <= q < k ==> #[trigger] rendered@[q]@ == cell_markdown(cells@[q]),
        decreases cells.len() - k,
    {
        let md = render_runs(cells[k].content.as_str(), &cells[k].runs, None, false);
        let v = chars_of(md.as_str());
        let kept = replace_all(&v, &['<', 'b', 'r', '>', '\n'], &['<', 'b', 'r', '>']);
        proof {
            reveal_strlit("<br>\n");
            reveal_strlit("<br>");
            assert(seq!['<', 'b', 'r', '>', '\n'] =~= "<br>\n"@);
            assert(seq!['<', 'b', 'r', '>'] =~= "<br>"@);
        }
        rendered.push(kept);
        k += 1;
    }
    let mut out: Vec<char> = Vec::new();
    let mut r: usize = 0;
    while r < rows
        invariant
            r <= rows,
            rows > 0,
            cols > 0,
            rendered@.len() == cells@.len(),
            forall|q: int| 0 <= q < cells@.len() ==> #[trigger] rendered@[q]@ == cell_markdown(cells@[q]),
            r == 0 ==> out@.len() == 0,
            r > 0 ==> out@ == table_row(row_values(cells@, 0, cols as nat)) + "\n"@ + table_row(
                Seq::new(cols as nat, |c: int| "---"@),
            ) + later_rows(cells@, r as nat, cols as nat),
        decreases rows - r,
    {
        let mut vals: Vec<Vec<char>> = Vec::new();
        let mut c: usize = 0;
        while c < cols
            invariant
                c <= cols,
                rendered@.len() == cells@.len(),
                forall|q: int| 0 <= q < cells@.len() ==> #[trigger] rendered@[q]@ == cell_markdown(cells@[q]),
                vals@.map_values(|v: Vec<char>| v@) == row_values(cells@, r as int, cols as nat).subrange(0, c as int),
            decreases cols - c,
        {
            let v = grid_at(cells, &rendered, r, c);
            let ghost before = vals@.map_values(|v: Vec<char>| v@);
            let ghost vv = v@;
            vals.push(v);
            assert(vals@.map_values(|v: Vec<char>| v@) =~= before.push(vv));
            assert(row_values(cells@, r as int, cols as nat)[c as int] == vv);
            assert(vals@.map_values(|v: Vec<char>| v@) =~= row_values(cells@, r as int, cols as nat).subrange(
                0,
                c as int + 1,
            ));
            c += 1;
        }
        assert(vals@.map_values(|v: Vec<char>| v@) =~= row_values(cells@, r as int, cols as nat));
        if r == 0 {
            push_row(&mut out, &vals);
            push_str(&mut out, "\n");
            let mut dashes: Vec<Vec<char>> = Vec::new();
            let mut c2: usize = 0;
            while c2 < cols
                invariant
                    c2 <= cols,
                    dashes@.map_values(|v: Vec<char>| v@) == Seq::new(cols as nat, |c: int| "---"@).subrange(
                        0,
                        c2 as int,
                    ),
                decreases cols - c2,
            {
                let mut d: Vec<char> = Vec::new();
                push_str(&mut d, "---");
                let ghost before = dashes@.map_values(|v: Vec<char>| v@);
                let ghost dv = d@;
                assert(dv =~= "---"@);
                dashes.push(d);
                assert(dashes@.map_values(|v: Vec<char>| v@) =~= before.push(dv));
                assert(dashes@.map_values(|v: Vec<char>| v@) =~= Seq::new(cols as nat, |c: int| "---"@).subrange(
                    0,
                    c2 as int + 1,
                ));
                c2 += 1;
            }
            assert(dashes@.map_values(|v: Vec<char>| v@) =~= Seq::new(cols as nat, |c: int| "---"@));
            push_row(&mut out, &dashes);
            assert(later_rows(cells@, 1, cols as nat) =~= Seq::<char>::empty());
            assert(out@ =~= table_row(row_values(cells@, 0, cols as nat)) + "\n"@ + table_row(
                Seq::new(cols as nat, |c: int| "---"@),
            ) + later_rows(cells@, 1, cols as nat));
        } else {
            let ghost before = out@;
            push_str(&mut out, "\n");
            push_row(&mut out, &vals);
            assert(out@ =~= before + "\n"@ + table_row(row_values(cells@, r as int, cols as nat)));
        }
        r += 1;
    }
    string_of(&out)
}

/// The texts the breaks before a block stand for: a rule for a page or
/// section break, nothing for a column break.
pub open spec fn break_texts(kinds: Seq<BreakKind>) -> Seq<Seq<char>>
    decreases kinds.len(),
{
    if kinds.len() == 0 {
        Seq::empty()
    } else {
        break_texts(kinds.drop_last()) + if kinds.last() == BreakKind::Column {
            Seq::<Seq<char>>::empty()
        } else {
            seq!["---"@]
        }
    }
}

proof fn lemma_break_texts_push(s: Seq<BreakKind>, k: BreakKind)
    ensures
        break_texts(s.push(k)) == break_texts(s) + break_texts(seq![k]),
        break_texts(seq![k]) == if k == BreakKind::Column {
            Seq::<Seq<char>>::empty()
        } else {
            seq!["---"@]
        },
{
    assert(s.push(k).drop_last() =~= s);
    assert(seq![k].drop_last() =~= Seq::<BreakKind>::empty());
    assert(break_texts(Seq::<BreakKind>::empty()) =~= Seq::<Seq<char>>::empty());
    assert(break_texts(seq![k]) =~= (if k == BreakKind::Column {
        Seq::<Seq<char>>::empty()
    } else {
        seq!["---"@]
    }));
}

/// The Markdown blocks of a block, in order (empty ones are dropped when
/// written).
pub open spec fn block_texts(b: Block) -> Seq<Seq<char>>
    decreases b,
{
    match b {
        Block::Paragraph { role, runs, content, list, breaks_before, .. } => break_texts(breaks_before@)
            + seq![paragraph_line(role@, runs@, content@, list)],
        Block::Table { rows, cols, cells, .. } => seq![flow_table(rows as nat, cols as nat, cells@)],
        Block::Image { .. } => seq!["<!-- image -->"@],
        Block::Textbox { blocks, .. } => blocks_texts(blocks@),
        Block::Break { kind } => break_texts(seq![kind]),
    }
}

pub open spec fn blocks_texts(s: Seq<Block>) -> Seq<Seq<char>>
    decreases s,
{
    if s.len() == 0 {
        Seq::empty()
    } else {
        blocks_texts(s.drop_last()) + block_texts(s.last())
    }
}

/// Markdown blocks written one after another, blank lines between them:
/// the output and whether a block has been written.
pub open spec fn written(out: Seq<char>, wrote: bool, texts: Seq<Seq<char>>) -> (Seq<char>, bool)
    decreases texts.len(),
{
    if texts.len() == 0 {
        (out, wrote)
    } else {
        let (o, w) = written(out, wrote, texts.drop_last());
        let t = texts.last();
        if t.len() == 0 {
            (o, w)
        } else {
            (o + (if w {
                "\n\n"@
            } else {
                Seq::empty()
            }) + t, true)
        }
    }
}

pub proof fn lemma_written_append(out: Seq<char>, wrote: bool, a: Seq<Seq<char>>, b: Seq<Seq<char>>)
    ensures
        written(out, wrote, a + b) == written(written(out, wrote, a).0, written(out, wrote, a).1, b),
    decreases b.len(),
{
    if b.len() == 0 {
        assert(a + b =~= a);
    } else {
        lemma_written_append(out, wrote, a, b.drop_last());
        assert((a + b).drop_last() =~= a + b.drop_last());
        assert((a + b).last() == b.last());
    }
}

/// Writes Markdown blocks, blank lines between them.
pub struct BlockWriter {
    pub output: Vec<char>,
    pub wrote_block: bool,
}

impl BlockWriter {
    pub fn new() -> (w: BlockWriter)
        ensures
            w.output@.len() == 0,
            !w.wrote_block,
    {
        BlockWriter { output: Vec::new(), wrote_block: false }
    }

    /// Writes one block; an empty one is skipped.
    pub fn block(&mut self, text: &[char])
        ensures
            (final(self).output@, final(self).wrote_block) == written(
                old(self).output@,
                old(self).wrote_block,
                seq![text@],
            ),
    {
        proof {
            assert(seq![text@].drop_last() =~= Seq::<Seq<char>>::empty());
            assert(written(old(self).output@, old(self).wrote_block, Seq::<Seq<char>>::empty()) == (
                old(self).output@,
                old(self).wrote_block,
            ));
            assert(seq![text@].last() == text@);
        }
        if text.len() == 0 {
            return;
        }
        if self.wrote_block {
            push_str(&mut self.output, "\n\n");
        }
        push_chars(&mut self.output, text);
        self.wrote_block = true;
        assert(self.output@ =~= old(self).output@ + (if old(self).wrote_block {
            "\n\n"@
        } else {
            Seq::empty()
        }) + text@);
    }

    /// Writes the block a break stands for (see `break_texts`).
    pub fn write_break(&mut self, kind: BreakKind)
        ensures
            (final(self).output@, final(self).wrote_block) == written(
                old(self).output@,
                old(self).wrote_block,
                break_texts(seq![kind]),
            ),
    {
        proof {
            reveal_strlit("---");
            lemma_break_texts_push(Seq::empty(), kind);
        }
        match kind {
            BreakKind::Column => {
                assert(written(old(self).output@, old(self).wrote_block, Seq::<Seq<char>>::empty()) == (
                    old(self).output@,
                    old(self).wrote_block,
                ));
            },
            _ => {
                self.block(&['-', '-', '-']);
                assert(seq!['-', '-', '-'] =~= "---"@);
            },
        }
    }

    fn write_breaks(&mut self, kinds: &Vec<BreakKind>)
        ensures
            (final(self).output@, final(self).wrote_block) == written(
                old(self).output@,
                old(self).wrote_block,
                break_texts(kinds@),
            ),
    {
        let mut i: usize = 0;
        while i < kinds.len()
            invariant
                i <= kinds.len(),
                (self.output@, self.wrote_block) == written(
                    old(self).output@,
                    old(self).wrote_block,
                    break_texts(kinds@.subrange(0, i as int)),
                ),
            decreases kinds.len() - i,
        {
            proof {
                let p = kinds@.subrange(0, i + 1);
                assert(p.drop_last() =~= kinds@.subrange(0, i as int));
                assert(p.last() == kinds@[i as int]);
                lemma_break_texts_push(kinds@.subrange(0, i as int), kinds@[i as int]);
                assert(kinds@.subrange(0, i as int).push(kinds@[i as int]) =~= p);
                lemma_written_append(
                    old(self).output@,
                    old(self).wrote_block,
                    break_texts(kinds@.subrange(0, i as int)),
                    break_texts(seq![kinds@[i as int]]),
                );
            }
            self.write_break(kinds[i]);
            i += 1;
        }
        assert(kinds@.subrange(0, kinds.len() as int) =~= kinds@);
    }

    fn write_block(&mut self, block: &Block)
        ensures
            (final(self).output@, final(self).wrote_block) == written(
                old(self).output@,
                old(self).wrote_block,
                block_texts(*block),
            ),
        decreases block,
    {
        match block {
            Block::Paragraph { role, runs, content, list, breaks_before, .. } => {
                self.write_breaks(breaks_before);
                let line = paragraph_markdown(role.as_str(), runs, content.as_str(), list);
                let ghost mid = (self.output@, self.wrote_block);
                self.block(&line);
                proof {
                    lemma_written_append(
                        old(self).output@,
                        old(self).wrote_block,
                        break_texts(breaks_before@),
                        seq![line@],
                    );
                }
            },
            Block::Table { rows, cols, cells, .. } => {
                let t = render_flow_table(*rows, *cols, cells);
                let v = chars_of(t.as_str());
                self.block(&v);
            },
            Block::Image { .. } => {
                proof {
                    reveal_strlit("<!-- image -->");
                }
                let v = chars_of("<!-- image -->");
                self.block(&v);
            },
            Block::Textbox { blocks, .. } => {
                self.write_flow_blocks(blocks);
            },
            Block::Break { kind } => {
                self.write_break(*kind);
            },
        }
    }

    /// Writes the Markdown blocks of `blocks` (see `blocks_texts`).
    pub fn write_flow_blocks(&mut self, blocks: &Vec<Block>)
        ensures
            (final(self).output@, final(self).wrote_block) == written(
                old(self).output@,
                old(self).wrote_block,
                blocks_texts(blocks@),
            ),
        decreases blocks,
    {
        let mut i: usize = 0;
        while i < blocks.len()
            invariant
                i <= blocks.len(),
                (self.output@, self.wrote_block) == written(
                    old(self).output@,
                    old(self).wrote_block,
                    blocks_texts(blocks@.subrange(0, i as int)),
                ),
            decreases blocks.len() - i,
        {
            proof {
                let p = blocks@.subrange(0, i + 1);
                assert(p.drop_last() =~= blocks@.subrange(0, i as int));
                assert(p.last() == blocks@[i as int]);
                lemma_written_append(
                    old(self).output@,
                    old(self).wrote_block,
                    blocks_texts(blocks@.subrange(0, i as int)),
                    block_texts(blocks@[i as int]),
                );
            }
            self.write_block(&blocks[i]);
            i += 1;
        }
        assert(blocks@.subrange(0, blocks.len() as int) =~= blocks@);
    }
}

pub open spec fn story_blocks(s: Story) -> Seq<Block> {
    match s {
        Story::Default { blocks } => blocks@,
        Story::First { blocks } => blocks@,
        Story::Even { blocks } => blocks@,
    }
}

pub open spec fn stories_texts(s: Seq<Story>) -> Seq<Seq<char>>
    decreases s.len(),
{
    if s.len() == 0 {
        Seq::empty()
    } else {
        stories_texts(s.drop_last()) + blocks_texts(story_blocks(s.last()))
    }
}

/// A section's Markdown blocks: its headers, its body, its footers.
pub open spec fn section_texts(s: Section) -> Seq<Seq<char>> {
    stories_texts(s.headers@) + blocks_texts(s.blocks@) + stories_texts(s.footers@)
}

pub open spec fn document_texts(s: Seq<Section>) -> Seq<Seq<char>>
    decreases s.len(),
{
    if s.len() == 0 {
        Seq::empty()
    } else {
        document_texts(s.drop_last()) + section_texts(s.last())
    }
}

/// The hidden items of all sections, in order.
pub open spec fn all_hidden(s: Seq<Section>) -> Seq<HiddenItem>
    decreases s.len(),
{
    if s.len() == 0 {
        Seq::empty()
    } else {
        all_hidden(s.drop_last()) + s.last().hidden@
    }
}

/// The Markdown of a flow document: its sections' blocks (see
/// `section_texts`) separated by blank lines, then (after a blank line) its
/// warnings and hidden items (see `trailing_context`), and a final newline
/// where anything was written.
pub open spec fn flow_markdown(x: FlowExtraction) -> Seq<char> {
    let (body, wrote) = written(Seq::empty(), false, document_texts(x.sections@));
    let hidden = all_hidden(x.sections@);
    let has_context = x.warnings@.len() > 0 || hidden.len() > 0;
    body + (if wrote && has_context {
        "\n\n"@
    } else {
        Seq::empty()
    }) + trailing_context(x.warnings@, hidden) + (if wrote || has_context {
        "\n"@
    } else {
        Seq::empty()
    })
}

impl Story {
    pub fn blocks(&self) -> (r: &Vec<Block>)
        ensures
            r@ == story_blocks(*self),
    {
        match self {
            Story::Default { blocks } => blocks,
            Story::First { blocks } => blocks,
            Story::Even { blocks } => blocks,
        }
    }
}

impl BlockWriter {
    fn write_stories(&mut self, stories: &Vec<Story>)
        ensures
            (final(self).output@, final(self).wrote_block) == written(
                old(self).output@,
                old(self).wrote_block,
                stories_texts(stories@),
            ),
    {
        let mut i: usize = 0;
        while i < stories.len()
            invariant
                i <= stories.len(),
                (self.output@, self.wrote_block) == written(
                    old(self).output@,
                    old(self).wrote_block,
                    stories_texts(stories@.subrange(0, i as int)),
                ),
            decreases stories.len() - i,
        {
            proof {
                let p = stories@.subrange(0, i + 1);
                assert(p.drop_last() =~= stories@.subrange(0, i as int));
                assert(p.last() == stories@[i as int]);
                lemma_written_append(
                    old(self).output@,
                    old(self).wrote_block,
                    stories_texts(stories@.subrange(0, i as int)),
                    blocks_texts(story_blocks(stories@[i as int])),
                );
            }
            self.write_flow_blocks(stories[i].blocks());
            i += 1;
        }
        assert(stories@.subrange(0, stories.len() as int) =~= stories@);
    }
}

impl FlowExtraction {
    /// Writes the document's Markdown (see `flow_markdown`) after `output`.
    pub fn write_markdown(&self, output: &mut Vec<char>)
        ensures
            final(output)@ == old(output)@ + flow_markdown(*self),
    {
        let mut state = BlockWriter::new();
        let mut i: usize = 0;
        let mut hidden: Vec<HiddenItem> = Vec::new();
        while i < self.sections.len()
            invariant
                i <= self.sections.len(),
                (state.output@, state.wrote_block) == written(
                    Seq::empty(),
                    false,
                    document_texts(self.sections@.subrange(0, i as int)),
                ),
                hidden@ == all_hidden(self.sections@.subrange(0, i as int)),
            decreases self.sections.len() - i,
        {
            let section = &self.sections[i];
            proof {
                let p = self.sections@.subrange(0, i + 1);
                assert(p.drop_last() =~= self.sections@.subrange(0, i as int));
                assert(p.last() == *section);
                let before = document_texts(self.sections@.subrange(0, i as int));
                lemma_written_append(Seq::empty(), false, before, stories_texts(section.headers@));
                lemma_written_append(
                    Seq::empty(),
                    false,
                    before + stories_texts(section.headers@),
                    blocks_texts(section.blocks@),
                );
                lemma_written_append(
                    Seq::empty(),
                    false,
                    before + stories_texts(section.headers@) + blocks_texts(section.blocks@),
                    stories_texts(section.footers@),
                );
                assert(document_texts(p) =~= before + stories_texts(section.headers@) + blocks_texts(
                    section.blocks@,
                ) + stories_texts(section.footers@));
            }
            state.write_stories(&section.headers);
            state.write_flow_blocks(&section.blocks);
            state.write_stories(&section.footers);
            let ghost h0 = hidden@;
            let mut k: usize = 0;
            while k < section.hidden.len()
                invariant
                    k <= section.hidden.len(),
                    hidden@ == h0 + section.hidden@.subrange(0, k as int),
                decreases section.hidden.len() - k,
            {
                hidden.push(section.hidden[k].duplicate());
                assert(hidden@ =~= h0 + section.hidden@.subrange(0, k as int + 1));
                k += 1;
            }
            proof {
                assert(section.hidden@.subrange(0, section.hidden@.len() as int) =~= section.hidden@);
                let p = self.sections@.subrange(0, i + 1);
                assert(all_hidden(p) =~= h0 + section.hidden@);
            }
            i += 1;
        }
        proof {
            assert(self.sections@.subrange(0, self.sections@.len() as int) =~= self.sections@);
        }
        let wrote_document = state.wrote_block;
        let has_context = self.warnings.len() > 0 || hidden.len() > 0;
        push_chars(output, &state.output);
        if wrote_document && has_context {
            push_str(output, "\n\n");
        }
        write_trailing_context(output, self.warnings.as_slice(), hidden.as_slice());
        if wrote_document || has_context {
            push_str(output, "\n");
        }
        proof {
            assert(output@ =~= old(output)@ + flow_markdown(*self));
        }
    }

    /// The document's Markdown (see `flow_markdown`).
    pub fn to_markdown(&self) -> (r: String)
        ensures
            r@ == flow_markdown(*self),
    {
        let mut out: Vec<char> = Vec::new();
        self.write_markdown(&mut out);
        assert(out@ =~= flow_markdown(*self));
        string_of(&out)
    }
}

} // verus!

//! The lean rendering of paged documents at element or word granularity.
//! Coordinates and sizes come already written as numbers (rounded to a
//! tenth, without a trailing `.0`); the rendering composes the records: one
//! per line, document text escaped so that it can never start a record of
//! its own.
use vstd::prelude::*;
use crate::granularity::{granularity_name, Granularity};
use crate::lean::{
    collapse_warning, collapsed, escape_text, escaped, font_token, hidden_block, lean_font_name,
    lean_style_parts, style_token, write_hidden,
};
use crate::model::HiddenItem;
use crate::text::{chars_of, decimal, push_chars, push_decimal, push_signed_decimal, push_str, signed_decimal, string_of};

verus! {

/// A text run with its size already written.
pub struct LeanRun {
    pub content: String,
    pub font_name: String,
    pub size: String,
    pub bold: bool,
    pub italic: bool,
    pub fill: Option<[u8; 3]>,
    pub href: Option<String>,
}

/// A word and its box, written.
pub struct LeanWord {
    pub text: String,
    pub bbox: String,
}

pub enum LeanTextContent {
    Element(String),
    Words(Vec<LeanWord>),
}

/// A text element: box and size written.
pub struct LeanText {
    pub bbox: String,
    pub content: LeanTextContent,
    pub font_name: String,
    pub size: String,
    pub bold: bool,
    pub italic: bool,
    pub fill: Option<[u8; 3]>,
    pub runs: Option<Vec<LeanRun>>,
}

pub struct LeanCell {
    pub row: usize,
    pub col: usize,
    pub row_span: usize,
    pub col_span: usize,
    pub bbox: String,
    pub content: String,
    pub runs: Option<Vec<LeanRun>>,
}

pub struct LeanTable {
    pub bbox: String,
    pub rows: usize,
    pub cols: usize,
    pub cells: Vec<LeanCell>,
}

pub struct LeanPoint {
    pub category: Option<String>,
    pub value: String,
}

pub struct LeanSeries {
    pub name: Option<String>,
    pub points: Vec<LeanPoint>,
}

pub struct LeanChart {
    pub bbox: String,
    pub chart_type: String,
    pub title: Option<String>,
    pub series: Vec<LeanSeries>,
}

pub enum LeanElement {
    Text(LeanText),
    Table(LeanTable),
    Chart(LeanChart),
    Image(String),
    Path(String),
    Annotation { bbox: String, subtype: String, uri: Option<String> },
}

/// A page: its number, its size written, rotation, whether it is scanned,
/// its elements and hidden items.
pub struct LeanPage {
    pub page_number: u32,
    pub width: String,
    pub height: String,
    pub rotation: i32,
    pub scanned: bool,
    pub elements: Vec<LeanElement>,
    pub hidden: Vec<HiddenItem>,
}

/// A paged document at element or word granularity.
pub struct LeanDocument {
    pub granularity: Granularity,
    pub schema_version: String,
    pub warnings: Vec<String>,
    pub pages: Vec<LeanPage>,
}

pub open spec fn element_legend() -> Seq<char> {
    "#legend T x0 y0 x1 y1 font size style text | r font size style [href#<uri>] text | TB x0 y0 x1 y1 rows cols | c row col rowspan colspan x0 y0 x1 y1 font size style text | CH x0 y0 x1 y1 type [title] | s series-name | p [category] value | I/P x0 y0 x1 y1 | A x0 y0 x1 y1 subtype uri | pt, top-left origin"@
}

pub open spec fn word_legend() -> Seq<char> {
    "#legend T x0 y0 x1 y1 font size style | w x0 y0 x1 y1 word | r font size style [href#<uri>] text | TB x0 y0 x1 y1 rows cols | c row col rowspan colspan x0 y0 x1 y1 font size style text | CH x0 y0 x1 y1 type [title] | s series-name | p [category] value | I/P x0 y0 x1 y1 | A x0 y0 x1 y1 subtype uri | pt, top-left origin"@
}

pub open spec fn legacy_element_legend() -> Seq<char> {
    "#legend T x0 y0 x1 y1 font size style text | I/P x0 y0 x1 y1 | A x0 y0 x1 y1 subtype uri | pt, top-left origin"@
}

pub open spec fn legacy_word_legend() -> Seq<char> {
    "#legend T x0 y0 x1 y1 font size style | w x0 y0 x1 y1 word | I/P x0 y0 x1 y1 | A x0 y0 x1 y1 subtype uri | pt, top-left origin"@
}

pub open spec fn page_hidden_legend() -> Seq<char> {
    "#legend <hidden> kind [element-id] content | non-visible document context"@
}

/// A run record.
pub open spec fn lean_run_line(r: LeanRun) -> Seq<char> {
    "r "@ + font_token(r.font_name@) + " "@ + r.size@ + " "@ + style_token(r.bold, r.italic, r.fill) + " "@
        + match r.href {
        Some(h) => "href#<"@ + escaped(h@) + "> "@,
        None => Seq::empty(),
    } + escaped(r.content@) + "\n"@
}

pub open spec fn lean_run_lines(runs: Seq<LeanRun>) -> Seq<char>
    decreases runs.len(),
{
    if runs.len() == 0 {
        Seq::empty()
    } else {
        lean_run_lines(runs.drop_last()) + lean_run_line(runs.last())
    }
}

/// Run records, written where there is more than one run or some run is a
/// link.
pub open spec fn lean_runs(runs: Option<Vec<LeanRun>>) -> Seq<char> {
    match runs {
        Some(v) => if v@.len() > 1 || exists|i: int| 0 <= i < v@.len() && (#[trigger] v@[i]).href is Some {
            lean_run_lines(v@)
        } else {
            Seq::empty()
        },
        None => Seq::empty(),
    }
}

pub open spec fn word_lines(words: Seq<LeanWord>) -> Seq<char>
    decreases words.len(),
{
    if words.len() == 0 {
        Seq::empty()
    } else {
        word_lines(words.drop_last()) + "w "@ + words.last().bbox@ + " "@ + escaped(words.last().text@) + "\n"@
    }
}

pub open spec fn text_lean(t: LeanText) -> Seq<char> {
    let head = "T "@ + t.bbox@ + " "@ + font_token(t.font_name@) + " "@ + t.size@ + " "@ + style_token(
        t.bold,
        t.italic,
        t.fill,
    );
    match t.content {
        LeanTextContent::Element(text) => head + " "@ + escaped(text@) + "\n"@ + lean_runs(t.runs),
        LeanTextContent::Words(words) => head + "\n"@ + lean_runs(t.runs) + word_lines(words@),
    }
}

/// A cell record: font, size and style from its first run, `-` where it has
/// none.
pub open spec fn cell_lean(c: LeanCell) -> Seq<char> {
    let first = match c.runs {
        Some(v) => if v@.len() > 0 {
            Some(v@[0])
        } else {
            None
        },
        None => None,
    };
    let (font, size, style) = match first {
        Some(r) => (font_token(r.font_name@), r.size@, style_token(r.bold, r.italic, r.fill)),
        None => ("-"@, "-"@, "-"@),
    };
    "c "@ + decimal(c.row as nat) + " "@ + decimal(c.col as nat) + " "@ + decimal(c.row_span as nat) + " "@
        + decimal(c.col_span as nat) + " "@ + c.bbox@ + " "@ + font + " "@ + size + " "@ + style + " "@
        + escaped(c.content@) + "\n"@ + lean_runs(c.runs)
}

pub open spec fn cells_lean_of(cells: Seq<LeanCell>) -> Seq<char>
    decreases cells.len(),
{
    if cells.len() == 0 {
        Seq::empty()
    } else {
        cells_lean_of(cells.drop_last()) + cell_lean(cells.last())
    }
}

pub open spec fn point_line(p: LeanPoint) -> Seq<char> {
    "p "@ + match p.category {
        Some(c) => escaped(c@) + " "@,
        None => Seq::empty(),
    } + escaped(p.value@) + "\n"@
}

pub open spec fn point_lines(points: Seq<LeanPoint>) -> Seq<char>
    decreases points.len(),
{
    if points.len() == 0 {
        Seq::empty()
    } else {
        point_lines(points.drop_last()) + point_line(points.last())
    }
}

pub open spec fn series_lines(series: Seq<LeanSeries>) -> Seq<char>
    decreases series.len(),
{
    if series.len() == 0 {
        Seq::empty()
    } else {
        let s = series.last();
        series_lines(series.drop_last()) + match s.name {
            Some(n) => "s "@ + escaped(n@) + "\n"@,
            None => Seq::empty(),
        } + point_lines(s.points@)
    }
}

pub open spec fn chart_lean(c: LeanChart) -> Seq<char> {
    "CH "@ + c.bbox@ + " "@ + c.chart_type@ + match c.title {
        Some(t) => " "@ + escaped(t@),
        None => Seq::empty(),
    } + "\n"@ + series_lines(c.series@)
}

/// The records of an element.
pub open spec fn element_lean(e: LeanElement) -> Seq<char> {
    match e {
        LeanElement::Text(t) => text_lean(t),
        LeanElement::Table(t) => "TB "@ + t.bbox@ + " "@ + decimal(t.rows as nat) + " "@ + decimal(t.cols as nat)
            + "\n"@ + cells_lean_of(t.cells@),
        LeanElement::Chart(c) => chart_lean(c),
        LeanElement::Image(b) => "I "@ + b@ + "\n"@,
        LeanElement::Path(b) => "P "@ + b@ + "\n"@,
        LeanElement::Annotation { bbox, subtype, uri } => "A "@ + bbox@ + " "@ + subtype@ + " "@ + match uri {
            Some(u) => escaped(u@),
            None => "-"@,
        } + "\n"@,
    }
}

pub open spec fn elements_lean(s: Seq<LeanElement>) -> Seq<char>
    decreases s.len(),
{
    if s.len() == 0 {
        Seq::empty()
    } else {
        elements_lean(s.drop_last()) + element_lean(s.last())
    }
}

/// A page: its header record, its elements, its hidden block.
pub open spec fn page_lean(p: LeanPage) -> Seq<char> {
    "#page "@ + decimal(p.page_number as nat) + " "@ + p.width@ + "x"@ + p.height@ + (if p.rotation != 0 {
        " rot="@ + signed_decimal(p.rotation as int)
    } else {
        Seq::empty()
    }) + (if p.scanned {
        " scanned"@
    } else {
        Seq::empty()
    }) + "\n"@ + elements_lean(p.elements@) + hidden_block(p.hidden@)
}

pub open spec fn pages_lean(s: Seq<LeanPage>) -> Seq<char>
    decreases s.len(),
{
    if s.len() == 0 {
        Seq::empty()
    } else {
        pages_lean(s.drop_last()) + page_lean(s.last())
    }
}

pub open spec fn page_warning_lines(w: Seq<String>) -> Seq<char>
    decreases w.len(),
{
    if w.len() == 0 {
        Seq::empty()
    } else {
        page_warning_lines(w.drop_last()) + "#warning "@ + collapsed(w.last()@, false) + "\n"@
    }
}

/// Whether some element carries more than a box: text with runs, a table or
/// a chart.
pub open spec fn has_structured_detail(pages: Seq<LeanPage>) -> bool {
    exists|i: int, j: int|
        0 <= i < pages.len() && 0 <= j < pages[i].elements@.len() && match #[trigger] pages[i].elements@[j] {
            LeanElement::Text(t) => t.runs is Some,
            LeanElement::Table(_) => true,
            LeanElement::Chart(_) => true,
            _ => false,
        }
}

/// The lean rendering of a paged document: a header with granularity,
/// schema version, page count and (where there are any) warning count; the
/// legend (the full one where some element carries more than a box); the
/// hidden legend where some page has hidden items; the warnings; the pages.
pub open spec fn document_lean(d: LeanDocument) -> Seq<char> {
    "#docray "@ + granularity_name(d.granularity) + " v"@ + d.schema_version@ + " pages="@ + decimal(
        d.pages@.len(),
    ) + (if d.warnings@.len() > 0 {
        " warnings="@ + decimal(d.warnings@.len())
    } else {
        Seq::empty()
    }) + "\n"@ + (if has_structured_detail(d.pages@) {
        if d.granularity == Granularity::Word {
            word_legend()
        } else {
            element_legend()
        }
    } else {
        if d.granularity == Granularity::Word {
            legacy_word_legend()
        } else {
            legacy_element_legend()
        }
    }) + "\n"@ + (if exists|i: int| 0 <= i < d.pages@.len() && (#[trigger] d.pages@[i]).hidden@.len() > 0 {
        page_hidden_legend() + "\n"@
    } else {
        Seq::empty()
    }) + page_warning_lines(d.warnings@) + pages_lean(d.pages@)
}

fn write_lean_run(out: &mut Vec<char>, r: &LeanRun)
    ensures
        final(out)@ == old(out)@ + lean_run_line(*r),
{
    let font = lean_font_name(r.font_name.as_str());
    let style = lean_style_parts(r.bold, r.italic, r.fill);
    let href_part: Vec<char> = match &r.href {
        Some(h) => {
            let mut v = chars_of("href#<");
            let e = escape_text(h.as_str());
            push_str(&mut v, e.as_str());
            push_str(&mut v, "> ");
            v
        },
        None => Vec::new(),
    };
    let c = escape_text(r.content.as_str());
    let mut line = chars_of("r ");
    push_str(&mut line, font.as_str());
    push_str(&mut line, " ");
    push_str(&mut line, r.size.as_str());
    push_str(&mut line, " ");
    push_str(&mut line, style.as_str());
    push_str(&mut line, " ");
    push_chars(&mut line, &href_part);
    push_str(&mut line, c.as_str());
    push_str(&mut line, "\n");
    assert(href_part@ == match r.href {
        Some(h) => "href#<"@ + escaped(h@) + "> "@,
        None => Seq::<char>::empty(),
    });
    assert(line@ == lean_run_line(*r));
    push_chars(out, &line);
}

fn write_lean_runs(out: &mut Vec<char>, runs: &Option<Vec<LeanRun>>)
    ensures
        final(out)@ == old(out)@ + lean_runs(*runs),
{
    let v = match runs {
        Some(v) => v,
        None => {
            assert(out@ =~= old(out)@ + lean_runs(*runs));
            return;
        },
    };
    let mut linked = false;
    let mut i: usize = 0;
    while i < v.len()
        invariant
            i <= v.len(),
            linked == exists|k: int| 0 <= k < i && (#[trigger] v@[k]).href is Some,
        decreases v.len() - i,
    {
        if v[i].href.is_some() {
            linked = true;
        }
        i += 1;
    }
    if !(v.len() > 1 || linked) {
        assert(out@ =~= old(out)@ + lean_runs(*runs));
        return;
    }
    let ghost start = out@;
    let mut j: usize = 0;
    while j < v.len()
        invariant
            j <= v.len(),
            out@ == start + lean_run_lines(v@.subrange(0, j as int)),
        decreases v.len() - j,
    {
        proof {
            let p = v@.subrange(0, j + 1);
            assert(p.drop_last() =~= v@.subrange(0, j as int));
            assert(p.last() == v@[j as int]);
        }
        write_lean_run(out, &v[j]);
        j += 1;
        assert(out@ =~= start + lean_run_lines(v@.subrange(0, j as int)));
    }
    assert(v@.subrange(0, v@.len() as int) =~= v@);
}

fn write_words(out: &mut Vec<char>, words: &Vec<LeanWord>)
    ensures
        final(out)@ == old(out)@ + word_lines(words@),
{
    let ghost start = out@;
    let mut i: usize = 0;
    while i < words.len()
        invariant
            i <= words.len(),
            out@ == start + word_lines(words@.subrange(0, i as int)),
        decreases words.len() - i,
    {
        proof {
            let p = words@.subrange(0, i + 1);
            assert(p.drop_last() =~= words@.subrange(0, i as int));
            assert(p.last() == words@[i as int]);
        }
        let mut line = chars_of("w ");
        push_str(&mut line, words[i].bbox.as_str());
        push_str(&mut line, " ");
        let e = escape_text(words[i].text.as_str());
        push_str(&mut line, e.as_str());
        push_str(&mut line, "\n");
        push_chars(out, &line);
        i += 1;
        assert(out@ =~= start + word_lines(words@.subrange(0, i as int)));
    }
    assert(words@.subrange(0, words@.len() as int) =~= words@);
}

fn write_text(out: &mut Vec<char>, t: &LeanText)
    ensures
        final(out)@ == old(out)@ + text_lean(*t),
{
    let font = lean_font_name(t.font_name.as_str());
    let style = lean_style_parts(t.bold, t.italic, t.fill);
    let mut head = chars_of("T ");
    push_str(&mut head, t.bbox.as_str());
    push_str(&mut head, " ");
    push_str(&mut head, font.as_str());
    push_str(&mut head, " ");
    push_str(&mut head, t.size.as_str());
    push_str(&mut head, " ");
    push_str(&mut head, style.as_str());
    let ghost h = head@;
    push_chars(out, &head);
    let ghost s1 = out@;
    match &t.content {
        LeanTextContent::Element(text) => {
            let mut tail = chars_of(" ");
            let e = escape_text(text.as_str());
            push_str(&mut tail, e.as_str());
            push_str(&mut tail, "\n");
            push_chars(out, &tail);
            let ghost s2 = out@;
            write_lean_runs(out, &t.runs);
            assert(out@ =~= old(out)@ + (h + " "@ + escaped(text@) + "\n"@ + lean_runs(t.runs)));
        },
        LeanTextContent::Words(words) => {
            push_str(out, "\n");
            write_lean_runs(out, &t.runs);
            write_words(out, words);
            assert(out@ =~= old(out)@ + (h + "\n"@ + lean_runs(t.runs) + word_lines(words@)));
        },
    }
}

fn write_cell(out: &mut Vec<char>, c: &LeanCell)
    ensures
        final(out)@ == old(out)@ + cell_lean(*c),
{
    proof {
        reveal_strlit("-");
    }
    let (font, size, style) = match &c.runs {
        Some(v) => if v.len() > 0 {
            (
                lean_font_name(v[0].font_name.as_str()),
                v[0].size.clone(),
                lean_style_parts(v[0].bold, v[0].italic, v[0].fill),
            )
        } else {
            ("-".to_string(), "-".to_string(), "-".to_string())
        },
        None => ("-".to_string(), "-".to_string(), "-".to_string()),
    };
    let mut line = chars_of("c ");
    push_decimal(&mut line, c.row as u64);
    push_str(&mut line, " ");
    push_decimal(&mut line, c.col as u64);
    push_str(&mut line, " ");
    push_decimal(&mut line, c.row_span as u64);
    push_str(&mut line, " ");
    push_decimal(&mut line, c.col_span as u64);
    push_str(&mut line, " ");
    push_str(&mut line, c.bbox.as_str());
    push_str(&mut line, " ");
    push_str(&mut line, font.as_str());
    push_str(&mut line, " ");
    push_str(&mut line, size.as_str());
    push_str(&mut line, " ");
    push_str(&mut line, style.as_str());
    push_str(&mut line, " ");
    let e = escape_text(c.content.as_str());
    push_str(&mut line, e.as_str());
    push_str(&mut line, "\n");
    let ghost l = line@;
    push_chars(out, &line);
    write_lean_runs(out, &c.runs);
    assert(out@ =~= old(out)@ + (l + lean_runs(c.runs)));
}

fn write_cells(out: &mut Vec<char>, cells: &Vec<LeanCell>)
    ensures
        final(out)@ == old(out)@ + cells_lean_of(cells@),
{
    let ghost start = out@;
    let mut i: usize = 0;
    while i < cells.len()
        invariant
            i <= cells.len(),
            out@ == start + cells_lean_of(cells@.subrange(0, i as int)),
        decreases cells.len() - i,
    {
        proof {
            let p = cells@.subrange(0, i + 1);
            assert(p.drop_last() =~= cells@.subrange(0, i as int));
            assert(p.last() == cells@[i as int]);
        }
        write_cell(out, &cells[i]);
        i += 1;
        assert(out@ =~= start + cells_lean_of(cells@.subrange(0, i as int)));
    }
    assert(cells@.subrange(0, cells@.len() as int) =~= cells@);
}

fn write_points(out: &mut Vec<char>, points: &Vec<LeanPoint>)
    ensures
        final(out)@ == old(out)@ + point_lines(points@),
{
    let ghost start = out@;
    let mut i: usize = 0;
    while i < points.len()
        invariant
            i <= points.len(),
            out@ == start + point_lines(points@.subrange(0, i as int)),
        decreases points.len() - i,
    {
        proof {
            let p = points@.subrange(0, i + 1);
            assert(p.drop_last() =~= points@.subrange(0, i as int));
            assert(p.last() == points@[i as int]);
        }
        let point = &points[i];
        let mut line = chars_of("p ");
        match &point.category {
            Some(c) => {
                let mut cat = escape_text(c.as_str());
                push_str(&mut line, cat.as_str());
                push_str(&mut line, " ");
            },
            None => {},
        }
        let v = escape_text(point.value.as_str());
        push_str(&mut line, v.as_str());
        push_str(&mut line, "\n");
        assert(line@ =~= point_line(*point));
        push_chars(out, &line);
        i += 1;
        assert(out@ =~= start + point_lines(points@.subrange(0, i as int)));
    }
    assert(points@.subrange(0, points@.len() as int) =~= points@);
}

fn write_chart(out: &mut Vec<char>, c: &LeanChart)
    ensures
        final(out)@ == old(out)@ + chart_lean(*c),
{
    let mut head = chars_of("CH ");
    push_str(&mut head, c.bbox.as_str());
    push_str(&mut head, " ");
    push_str(&mut head, c.chart_type.as_str());
    match &c.title {
        Some(t) => {
            push_str(&mut head, " ");
            let e = escape_text(t.as_str());
            push_str(&mut head, e.as_str());
        },
        None => {},
    }
    push_str(&mut head, "\n");
    assert(head@ =~= "CH "@ + c.bbox@ + " "@ + c.chart_type@ + match c.title {
        Some(t) => " "@ + escaped(t@),
        None => Seq::<char>::empty(),
    } + "\n"@);
    let ghost h = head@;
    push_chars(out, &head);
    let ghost start = out@;
    let mut i: usize = 0;
    while i < c.series.len()
        invariant
            i <= c.series.len(),
            out@ == start + series_lines(c.series@.subrange(0, i as int)),
        decreases c.series.len() - i,
    {
        proof {
            let p = c.series@.subrange(0, i + 1);
            assert(p.drop_last() =~= c.series@.subrange(0, i as int));
            assert(p.last() == c.series@[i as int]);
        }
        let series = &c.series[i];
        let ghost before = out@;
        match &series.name {
            Some(n) => {
                let mut line = chars_of("s ");
                let e = escape_text(n.as_str());
                push_str(&mut line, e.as_str());
                push_str(&mut line, "\n");
                push_chars(out, &line);
            },
            None => {},
        }
        let ghost mid = out@;
        write_points(out, &series.points);
        proof {
            let name_part = match &series.name {
                Some(n) => "s "@ + escaped(n@) + "\n"@,
                None => Seq::<char>::empty(),
            };
            assert(mid =~= before + name_part);
            assert(out@ =~= before + (name_part + point_lines(series.points@)));
        }
        i += 1;
        assert(out@ =~= start + series_lines(c.series@.subrange(0, i as int)));
    }
    assert(c.series@.subrange(0, c.series@.len() as int) =~= c.series@);
    assert(out@ =~= old(out)@ + (h + series_lines(c.series@)));
}

fn write_element(out: &mut Vec<char>, e: &LeanElement)
    ensures
        final(out)@ == old(out)@ + element_lean(*e),
{
    match e {
        LeanElement::Text(t) => write_text(out, t),
        LeanElement::Table(t) => {
            let mut head = chars_of("TB ");
            push_str(&mut head, t.bbox.as_str());
            push_str(&mut head, " ");
            push_decimal(&mut head, t.rows as u64);
            push_str(&mut head, " ");
            push_decimal(&mut head, t.cols as u64);
            push_str(&mut head, "\n");
            let ghost h = head@;
            push_chars(out, &head);
            write_cells(out, &t.cells);
            assert(out@ =~= old(out)@ + (h + cells_lean_of(t.cells@)));
        },
        LeanElement::Chart(c) => write_chart(out, c),
        LeanElement::Image(b) => {
            let mut line = chars_of("I ");
            push_str(&mut line, b.as_str());
            push_str(&mut line, "\n");
            push_chars(out, &line);
        },
        LeanElement::Path(b) => {
            let mut line = chars_of("P ");
            push_str(&mut line, b.as_str());
            push_str(&mut line, "\n");
            push_chars(out, &line);
        },
        LeanElement::Annotation { bbox, subtype, uri } => {
            proof {
                reveal_strlit("-");
            }
            let mut line = chars_of("A ");
            push_str(&mut line, bbox.as_str());
            push_str(&mut line, " ");
            push_str(&mut line, subtype.as_str());
            push_str(&mut line, " ");
            match uri {
                Some(u) => {
                    let x = escape_text(u.as_str());
                    push_str(&mut line, x.as_str());
                },
                None => push_str(&mut line, "-"),
            }
            push_str(&mut line, "\n");
            push_chars(out, &line);
        },
    }
}

fn write_page(out: &mut Vec<char>, p: &LeanPage)
    ensures
        final(out)@ == old(out)@ + page_lean(*p),
{
    let mut head = chars_of("#page ");
    push_decimal(&mut head, p.page_number as u64);
    push_str(&mut head, " ");
    push_str(&mut head, p.width.as_str());
    push_str(&mut head, "x");
    push_str(&mut head, p.height.as_str());
    if p.rotation != 0 {
        push_str(&mut head, " rot=");
        push_signed_decimal(&mut head, p.rotation as i64);
    }
    if p.scanned {
        push_str(&mut head, " scanned");
    }
    push_str(&mut head, "\n");
    assert(head@ =~= "#page "@ + decimal(p.page_number as nat) + " "@ + p.width@ + "x"@ + p.height@ + (if p.rotation
        != 0 {
        " rot="@ + signed_decimal(p.rotation as int)
    } else {
        Seq::<char>::empty()
    }) + (if p.scanned {
        " scanned"@
    } else {
        Seq::<char>::empty()
    }) + "\n"@);
    let ghost h = head@;
    push_chars(out, &head);
    let ghost start = out@;
    let mut i: usize = 0;
    while i < p.elements.len()
        invariant
            i <= p.elements.len(),
            out@ == start + elements_lean(p.elements@.subrange(0, i as int)),
        decreases p.elements.len() - i,
    {
        proof {
            let q = p.elements@.subrange(0, i + 1);
            assert(q.drop_last() =~= p.elements@.subrange(0, i as int));
            assert(q.last() == p.elements@[i as int]);
        }
        write_element(out, &p.elements[i]);
        i += 1;
        assert(out@ =~= start + elements_lean(p.elements@.subrange(0, i as int)));
    }
    assert(p.elements@.subrange(0, p.elements@.len() as int) =~= p.elements@);
    let ghost mid = out@;
    write_hidden(out, p.hidden.as_slice());
    assert(out@ =~= old(out)@ + (h + elements_lean(p.elements@) + hidden_block(p.hidden@)));
}

impl LeanDocument {
    /// Writes the lean rendering (see `document_lean`) after `output`.
    #[verifier::rlimit(60)]
    pub fn write_lean(&self, output: &mut Vec<char>)
        ensures
            final(output)@ == old(output)@ + document_lean(*self),
    {
        proof {
            reveal_strlit("#legend T x0 y0 x1 y1 font size style text | r font size style [href#<uri>] text | TB x0 y0 x1 y1 rows cols | c row col rowspan colspan x0 y0 x1 y1 font size style text | CH x0 y0 x1 y1 type [title] | s series-name | p [category] value | I/P x0 y0 x1 y1 | A x0 y0 x1 y1 subtype uri | pt, top-left origin");
        }
        let mut head = chars_of("#docray ");
        push_str(&mut head, self.granularity.as_str());
        push_str(&mut head, " v");
        push_str(&mut head, self.schema_version.as_str());
        push_str(&mut head, " pages=");
        push_decimal(&mut head, self.pages.len() as u64);
        if self.warnings.len() > 0 {
            push_str(&mut head, " warnings=");
            push_decimal(&mut head, self.warnings.len() as u64);
        }
        push_str(&mut head, "\n");
        let mut detail = false;
        let mut i: usize = 0;
        while i < self.pages.len()
            invariant
                i <= self.pages.len(),
                detail == exists|a: int, b: int|
                    0 <= a < i && 0 <= b < self.pages@[a].elements@.len() && match #[trigger] self.pages@[a].elements@[b] {
                        LeanElement::Text(t) => t.runs is Some,
                        LeanElement::Table(_) => true,
                        LeanElement::Chart(_) => true,
                        _ => false,
                    },
            decreases self.pages.len() - i,
        {
            let page = &self.pages[i];
            let mut j: usize = 0;
            let ghost before = detail;
            while j < page.elements.len()
                invariant
                    j <= page.elements.len(),
                    *page == self.pages@[i as int],
                    detail == (before || exists|b: int|
                        0 <= b < j && match #[trigger] page.elements@[b] {
                            LeanElement::Text(t) => t.runs is Some,
                            LeanElement::Table(_) => true,
                            LeanElement::Chart(_) => true,
                            _ => false,
                        }),
                decreases page.elements.len() - j,
            {
                let counts = match &page.elements[j] {
                    LeanElement::Text(t) => t.runs.is_some(),
                    LeanElement::Table(_) => true,
                    LeanElement::Chart(_) => true,
                    _ => false,
                };
                if counts {
                    detail = true;
                }
                j += 1;
            }
            i += 1;
        }
        let word = match self.granularity {
            Granularity::Word => true,
            _ => false,
        };
        let legend = if detail {
            if word {
                "#legend T x0 y0 x1 y1 font size style | w x0 y0 x1 y1 word | r font size style [href#<uri>] text | TB x0 y0 x1 y1 rows cols | c row col rowspan colspan x0 y0 x1 y1 font size style text | CH x0 y0 x1 y1 type [title] | s series-name | p [category] value | I/P x0 y0 x1 y1 | A x0 y0 x1 y1 subtype uri | pt, top-left origin"
            } else {
                "#legend T x0 y0 x1 y1 font size style text | r font size style [href#<uri>] text | TB x0 y0 x1 y1 rows cols | c row col rowspan colspan x0 y0 x1 y1 font size style text | CH x0 y0 x1 y1 type [title] | s series-name | p [category] value | I/P x0 y0 x1 y1 | A x0 y0 x1 y1 subtype uri | pt, top-left origin"
            }
        } else {
            if word {
                "#legend T x0 y0 x1 y1 font size style | w x0 y0 x1 y1 word | I/P x0 y0 x1 y1 | A x0 y0 x1 y1 subtype uri | pt, top-left origin"
            } else {
                "#legend T x0 y0 x1 y1 font size style text | I/P x0 y0 x1 y1 | A x0 y0 x1 y1 subtype uri | pt, top-left origin"
            }
        };
        push_str(&mut head, legend);
        push_str(&mut head, "\n");
        let mut any_hidden = false;
        let mut k: usize = 0;
        while k < self.pages.len()
            invariant
                k <= self.pages.len(),
                any_hidden == exists|a: int| 0 <= a < k && (#[trigger] self.pages@[a]).hidden@.len() > 0,
            decreases self.pages.len() - k,
        {
            if self.pages[k].hidden.len() > 0 {
                any_hidden = true;
            }
            k += 1;
        }
        if any_hidden {
            push_str(&mut head, "#legend <hidden> kind [element-id] content | non-visible document context");
            push_str(&mut head, "\n");
        }
        let ghost h = head@;
        push_chars(output, &head);
        let ghost mid = output@;
        let mut w: usize = 0;
        while w < self.warnings.len()
            invariant
                w <= self.warnings.len(),
                output@ == mid + page_warning_lines(self.warnings@.subrange(0, w as int)),
            decreases self.warnings.len() - w,
        {
            proof {
                let p = self.warnings@.subrange(0, w + 1);
                assert(p.drop_last() =~= self.warnings@.subrange(0, w as int));
                assert(p.last() == self.warnings@[w as int]);
            }
            let mut line = chars_of("#warning ");
            let c = collapse_warning(self.warnings[w].as_str());
            push_str(&mut line, c.as_str());
            push_str(&mut line, "\n");
            push_chars(output, &line);
            w += 1;
            assert(output@ =~= mid + page_warning_lines(self.warnings@.subrange(0, w as int)));
        }
        assert(self.warnings@.subrange(0, self.warnings@.len() as int) =~= self.warnings@);
        let ghost mid2 = output@;
        let mut s: usize = 0;
        while s < self.pages.len()
            invariant
                s <= self.pages.len(),
                output@ == mid2 + pages_lean(self.pages@.subrange(0, s as int)),
            decreases self.pages.len() - s,
        {
            proof {
                let p = self.pages@.subrange(0, s + 1);
                assert(p.drop_last() =~= self.pages@.subrange(0, s as int));
                assert(p.last() == self.pages@[s as int]);
            }
            write_page(output, &self.pages[s]);
            s += 1;
            assert(output@ =~= mid2 + pages_lean(self.pages@.subrange(0, s as int)));
        }
        assert(self.pages@.subrange(0, self.pages@.len() as int) =~= self.pages@);
        proof {
            assert(detail == has_structured_detail(self.pages@));
            assert(h == "#docray "@ + granularity_name(self.granularity) + " v"@ + self.schema_version@ + " pages="@
                + decimal(self.pages@.len()) + (if self.warnings@.len() > 0 {
                " warnings="@ + decimal(self.warnings@.len())
            } else {
                Seq::empty()
            }) + "\n"@ + (if has_structured_detail(self.pages@) {
                if self.granularity == Granularity::Word {
                    word_legend()
                } else {
                    element_legend()
                }
            } else {
                if self.granularity == Granularity::Word {
                    legacy_word_legend()
                } else {
                    legacy_element_legend()
                }
            }) + "\n"@ + (if exists|i: int| 0 <= i < self.pages@.len() && (#[trigger] self.pages@[i]).hidden@.len() > 0 {
                page_hidden_legend() + "\n"@
            } else {
                Seq::empty()
            }));
        }
        assert(output@ =~= old(output)@ + document_lean(*self));
    }

    /// The lean rendering (see `document_lean`).
    pub fn to_lean(&self) -> (r: String)
        ensures
            r@ == document_lean(*self),
    {
        let mut out: Vec<char> = Vec::new();
        self.write_lean(&mut out);
        assert(out@ =~= document_lean(*self));
        string_of(&out)
    }
}

} // verus!

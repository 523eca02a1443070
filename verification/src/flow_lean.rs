//! The lean rendering of flow documents: one record per line, document
//! text escaped so that it can never start a record of its own.
use vstd::prelude::*;
use crate::docx::opt_chars;
use crate::flow::{Block, FlowExtraction, FlowTableCell, Section, Story, TextRun};
use crate::flow_markdown::story_blocks;
use crate::lean::{
    break_name, break_name_of, collapse_warning, collapsed, escape_text, escaped, font_token,
    hidden_block, lean_font_name, lean_style_parts, list_kind_code, list_kind_code_of,
    paragraph_record, paragraph_record_of, style_token, write_hidden,
};
use crate::model::{BreakKind, HiddenItem, ListInfo};
use crate::story::Numbers;
use crate::text::{chars_of, decimal, push_chars, push_decimal, push_str, string_of};
use crate::xml::texts;

verus! {

/// The legend of the flow records.
pub open spec fn flow_legend() -> Seq<char> {
    "#legend #section width height | H1..H9/TI/Q/P text | LI level o|b label text | r font size style [href#<uri>] text | TB cols col-width... | c row col rowspan colspan text | I [width height] | BR page|column|section | ~page N | pt, authored flow; no resolved coordinates"@
}

/// The legend of the hidden block.
pub open spec fn hidden_legend() -> Seq<char> {
    "#legend <hidden> kind [element-id] content | non-visible document context"@
}

/// The lean rendering of a numeral the reader read, or nothing.
pub open spec fn lean_reading(n: Numbers, t: Seq<char>, unit: nat) -> Seq<char> {
    match n.readings.get_spec(t) {
        Some(r) => {
            let v = if unit == 0 {
                r.twips_lean
            } else if unit == 1 {
                r.emu_lean
            } else {
                r.size_lean
            };
            match v {
                Some(x) => x@,
                None => Seq::empty(),
            }
        },
        None => Seq::empty(),
    }
}

fn lean_of(numbers: &Numbers, t: &str, unit: u8) -> (r: String)
    requires
        unit <= 2,
    ensures
        r@ == lean_reading(*numbers, t@, unit as nat),
{
    match numbers.readings.get(t) {
        Some(reading) => {
            let v = if unit == 0 {
                &reading.twips_lean
            } else if unit == 1 {
                &reading.emu_lean
            } else {
                &reading.size_lean
            };
            match v {
                Some(x) => x.clone(),
                None => String::new(),
            }
        },
        None => String::new(),
    }
}

/// A run's size as written: its numeral's, or 11 points by default.
pub open spec fn run_size(n: Numbers, run: TextRun) -> Seq<char> {
    match run.font.size {
        Some(t) => lean_reading(n, t@, 2),
        None => "11"@,
    }
}

/// A run record.
pub open spec fn run_line(n: Numbers, run: TextRun) -> Seq<char> {
    "r "@ + font_token(run.font.name@) + " "@ + run_size(n, run) + " "@ + style_token(
        run.font.bold,
        run.font.italic,
        run.fill,
    ) + " "@ + match run.href {
        Some(h) => "href#<"@ + escaped(h@) + "> "@,
        None => Seq::empty(),
    } + escaped(run.content@) + "\n"@
}

pub open spec fn run_lines(n: Numbers, runs: Seq<TextRun>) -> Seq<char>
    decreases runs.len(),
{
    if runs.len() == 0 {
        Seq::empty()
    } else {
        run_lines(n, runs.drop_last()) + run_line(n, runs.last())
    }
}

/// The run records of a paragraph or cell: written where there is more
/// than one run or some run is a link.
pub open spec fn runs_lean(n: Numbers, runs: Seq<TextRun>) -> Seq<char> {
    if runs.len() > 1 || exists|i: int| 0 <= i < runs.len() && (#[trigger] runs[i]).href is Some {
        run_lines(n, runs)
    } else {
        Seq::empty()
    }
}

pub open spec fn break_lines(kinds: Seq<BreakKind>) -> Seq<char>
    decreases kinds.len(),
{
    if kinds.len() == 0 {
        Seq::empty()
    } else {
        break_lines(kinds.drop_last()) + "BR "@ + break_name_of(kinds.last()) + "\n"@
    }
}

pub open spec fn width_list(n: Numbers, widths: Seq<String>) -> Seq<char>
    decreases widths.len(),
{
    if widths.len() == 0 {
        Seq::empty()
    } else {
        width_list(n, widths.drop_last()) + " "@ + lean_reading(n, widths.last()@, 0)
    }
}

/// The records of a paragraph: its breaks, its page hint, its list item or
/// paragraph record, its runs.
pub open spec fn paragraph_lean(
    n: Numbers,
    role: Seq<char>,
    runs: Seq<TextRun>,
    content: Seq<char>,
    list: Option<ListInfo>,
    approx_page: Option<u32>,
    breaks: Seq<BreakKind>,
) -> Seq<char> {
    break_lines(breaks) + match approx_page {
        Some(p) => "~page "@ + decimal(p as nat) + "\n"@,
        None => Seq::empty(),
    } + match list {
        Some(l) => "LI "@ + decimal(l.level as nat) + " "@ + list_kind_code_of(l.kind) + " "@ + escaped(l.label@)
            + " "@ + escaped(content) + "\n"@,
        None => paragraph_record_of(role) + " "@ + escaped(content) + "\n"@,
    } + runs_lean(n, runs)
}

/// The page hint written before a block that carries one.
pub open spec fn page_hint(p: Option<u32>) -> Seq<char> {
    match p {
        Some(p) => "~page "@ + decimal(p as nat) + "\n"@,
        None => Seq::empty(),
    }
}

pub open spec fn image_lean(n: Numbers, width: Option<String>, height: Option<String>) -> Seq<char> {
    match (width, height) {
        (Some(w), Some(h)) => "I "@ + lean_reading(n, w@, 1) + " "@ + lean_reading(n, h@, 1) + "\n"@,
        _ => "I\n"@,
    }
}

/// The records of a block.
pub open spec fn block_lean(n: Numbers, b: Block) -> Seq<char>
    decreases b,
{
    match b {
        Block::Paragraph { role, runs, content, list, approx_page, breaks_before, .. } => paragraph_lean(
            n,
            role@,
            runs@,
            content@,
            list,
            approx_page,
            breaks_before@,
        ),
        Block::Table { col_widths, cols, cells, approx_page, .. } => page_hint(approx_page) + "TB "@ + decimal(cols as nat) + width_list(
            n,
            col_widths@,
        ) + "\n"@ + cells_lean(n, cells@),
        Block::Image { width, height, .. } => image_lean(n, width, height),
        Block::Textbox { blocks, .. } => blocks_lean(n, blocks@),
        Block::Break { kind } => "BR "@ + break_name_of(kind) + "\n"@,
    }
}

pub open spec fn blocks_lean(n: Numbers, s: Seq<Block>) -> Seq<char>
    decreases s,
{
    if s.len() == 0 {
        Seq::empty()
    } else {
        blocks_lean(n, s.drop_last()) + block_lean(n, s.last())
    }
}

/// A cell record.
pub open spec fn cell_head(c: FlowTableCell) -> Seq<char> {
    "c "@ + decimal(c.row as nat) + " "@ + decimal(c.col as nat) + " "@ + decimal(c.row_span as nat) + " "@
        + decimal(c.col_span as nat) + " "@ + escaped(c.content@) + "\n"@
}

/// The records of table cells, each followed by its runs and nested blocks.
pub open spec fn cells_lean(n: Numbers, s: Seq<FlowTableCell>) -> Seq<char>
    decreases s,
{
    if s.len() == 0 {
        Seq::empty()
    } else {
        let c = s.last();
        cells_lean(n, s.drop_last()) + cell_head(c) + runs_lean(n, c.runs@) + match c.blocks {
            Some(v) => blocks_lean(n, v@),
            None => Seq::empty(),
        }
    }
}

pub open spec fn stories_lean(n: Numbers, s: Seq<Story>) -> Seq<char>
    decreases s.len(),
{
    if s.len() == 0 {
        Seq::empty()
    } else {
        stories_lean(n, s.drop_last()) + blocks_lean(n, story_blocks(s.last()))
    }
}

/// A section: its page size (US Letter where none is given), its headers,
/// body and footers, and its hidden block.
pub open spec fn section_lean(n: Numbers, s: Section) -> Seq<char> {
    "#section "@ + match s.page_width {
        Some(w) => lean_reading(n, w@, 0),
        None => "612"@,
    } + " "@ + match s.page_height {
        Some(h) => lean_reading(n, h@, 0),
        None => "792"@,
    } + "\n"@ + stories_lean(n, s.headers@) + blocks_lean(n, s.blocks@) + stories_lean(n, s.footers@)
        + hidden_block(s.hidden@)
}

pub open spec fn sections_lean(n: Numbers, s: Seq<Section>) -> Seq<char>
    decreases s.len(),
{
    if s.len() == 0 {
        Seq::empty()
    } else {
        sections_lean(n, s.drop_last()) + section_lean(n, s.last())
    }
}

pub open spec fn warning_lines(w: Seq<String>) -> Seq<char>
    decreases w.len(),
{
    if w.len() == 0 {
        Seq::empty()
    } else {
        warning_lines(w.drop_last()) + "#warning "@ + collapsed(w.last()@, false) + "\n"@
    }
}

/// The lean rendering of a flow document: a header with its schema
/// version, section count and (where there are any) warning count, the
/// legends, its warnings, then its sections.
pub open spec fn flow_lean(n: Numbers, x: FlowExtraction) -> Seq<char> {
    "#docray element v"@ + x.schema_version@ + " sections="@ + decimal(x.sections@.len()) + (if x.warnings@.len()
        > 0 {
        " warnings="@ + decimal(x.warnings@.len())
    } else {
        Seq::empty()
    }) + "\n"@ + flow_legend() + "\n"@ + (if exists|i: int|
        0 <= i < x.sections@.len() && (#[trigger] x.sections@[i]).hidden@.len() > 0 {
        hidden_legend() + "\n"@
    } else {
        Seq::empty()
    }) + warning_lines(x.warnings@) + sections_lean(n, x.sections@)
}

fn write_run(out: &mut Vec<char>, run: &TextRun, numbers: &Numbers)
    ensures
        final(out)@ == old(out)@ + run_line(*numbers, *run),
{
    proof {
        reveal_strlit("11");
    }
    let font = lean_font_name(run.font.name.as_str());
    let size = match &run.font.size {
        Some(t) => lean_of(numbers, t.as_str(), 2),
        None => "11".to_string(),
    };
    let style = lean_style_parts(run.font.bold, run.font.italic, run.fill);
    let href_part: Vec<char> = match &run.href {
        Some(h) => {
            let mut v = chars_of("href#<");
            let e = escape_text(h.as_str());
            push_str(&mut v, e.as_str());
            push_str(&mut v, "> ");
            v
        },
        None => Vec::new(),
    };
    let c = escape_text(run.content.as_str());
    let mut line = chars_of("r ");
    push_str(&mut line, font.as_str());
    push_str(&mut line, " ");
    push_str(&mut line, size.as_str());
    push_str(&mut line, " ");
    push_str(&mut line, style.as_str());
    push_str(&mut line, " ");
    push_chars(&mut line, &href_part);
    push_str(&mut line, c.as_str());
    push_str(&mut line, "\n");
    assert(href_part@ == match run.href {
        Some(h) => "href#<"@ + escaped(h@) + "> "@,
        None => Seq::<char>::empty(),
    });
    assert(size@ == run_size(*numbers, *run));
    assert(line@ == run_line(*numbers, *run));
    push_chars(out, &line);
}

fn write_runs(out: &mut Vec<char>, runs: &Vec<TextRun>, numbers: &Numbers)
    ensures
        final(out)@ == old(out)@ + runs_lean(*numbers, runs@),
{
    let mut linked = false;
    let mut i: usize = 0;
    while i < runs.len()
        invariant
            i <= runs.len(),
            linked == exists|k: int| 0 <= k < i && (#[trigger] runs@[k]).href is Some,
        decreases runs.len() - i,
    {
        if runs[i].href.is_some() {
            linked = true;
        }
        i += 1;
    }
    if !(runs.len() > 1 || linked) {
        assert(out@ =~= old(out)@ + runs_lean(*numbers, runs@));
        return;
    }
    let ghost start = out@;
    let mut j: usize = 0;
    while j < runs.len()
        invariant
            j <= runs.len(),
            out@ == start + run_lines(*numbers, runs@.subrange(0, j as int)),
        decreases runs.len() - j,
    {
        proof {
            let p = runs@.subrange(0, j + 1);
            assert(p.drop_last() =~= runs@.subrange(0, j as int));
            assert(p.last() == runs@[j as int]);
        }
        write_run(out, &runs[j], numbers);
        j += 1;
        assert(out@ =~= start + run_lines(*numbers, runs@.subrange(0, j as int)));
    }
    assert(runs@.subrange(0, runs@.len() as int) =~= runs@);
}

fn write_breaks(out: &mut Vec<char>, kinds: &Vec<BreakKind>)
    ensures
        final(out)@ == old(out)@ + break_lines(kinds@),
{
    let ghost start = out@;
    let mut i: usize = 0;
    while i < kinds.len()
        invariant
            i <= kinds.len(),
            out@ == start + break_lines(kinds@.subrange(0, i as int)),
        decreases kinds.len() - i,
    {
        proof {
            let p = kinds@.subrange(0, i + 1);
            assert(p.drop_last() =~= kinds@.subrange(0, i as int));
            assert(p.last() == kinds@[i as int]);
        }
        push_str(out, "BR ");
        push_str(out, break_name(kinds[i]));
        push_str(out, "\n");
        i += 1;
        assert(out@ =~= start + break_lines(kinds@.subrange(0, i as int)));
    }
    assert(kinds@.subrange(0, kinds@.len() as int) =~= kinds@);
}

fn write_widths(out: &mut Vec<char>, widths: &Vec<String>, numbers: &Numbers)
    ensures
        final(out)@ == old(out)@ + width_list(*numbers, widths@),
{
    let ghost start = out@;
    let mut i: usize = 0;
    while i < widths.len()
        invariant
            i <= widths.len(),
            out@ == start + width_list(*numbers, widths@.subrange(0, i as int)),
        decreases widths.len() - i,
    {
        proof {
            let p = widths@.subrange(0, i + 1);
            assert(p.drop_last() =~= widths@.subrange(0, i as int));
            assert(p.last() == widths@[i as int]);
        }
        push_str(out, " ");
        let w = lean_of(numbers, widths[i].as_str(), 0);
        push_str(out, w.as_str());
        i += 1;
        assert(out@ =~= start + width_list(*numbers, widths@.subrange(0, i as int)));
    }
    assert(widths@.subrange(0, widths@.len() as int) =~= widths@);
}

#[verifier::rlimit(80)]
fn write_cell_head(out: &mut Vec<char>, cell: &FlowTableCell)
    ensures
        final(out)@ == old(out)@ + cell_head(*cell),
{
    push_str(out, "c ");
    push_decimal(out, cell.row as u64);
    push_str(out, " ");
    push_decimal(out, cell.col as u64);
    push_str(out, " ");
    push_decimal(out, cell.row_span as u64);
    push_str(out, " ");
    push_decimal(out, cell.col_span as u64);
    push_str(out, " ");
    let c = escape_text(cell.content.as_str());
    push_str(out, c.as_str());
    push_str(out, "\n");
    assert(out@ =~= old(out)@ + cell_head(*cell));
}

fn write_page_hint(out: &mut Vec<char>, p: &Option<u32>)
    ensures
        final(out)@ == old(out)@ + page_hint(*p),
{
    match p {
        Some(v) => {
            push_str(out, "~page ");
            push_decimal(out, *v as u64);
            push_str(out, "\n");
            assert(out@ =~= old(out)@ + page_hint(*p));
        },
        None => {
            assert(out@ =~= old(out)@ + page_hint(*p));
        },
    }
}

fn write_paragraph(
    out: &mut Vec<char>,
    role: &String,
    runs: &Vec<TextRun>,
    content: &String,
    list: &Option<ListInfo>,
    approx_page: &Option<u32>,
    breaks: &Vec<BreakKind>,
    numbers: &Numbers,
)
    ensures
        final(out)@ == old(out)@ + paragraph_lean(*numbers, role@, runs@, content@, *list, *approx_page, breaks@),
{
    let page: Vec<char> = match approx_page {
        Some(p) => {
            let mut v = chars_of("~page ");
            push_decimal(&mut v, *p as u64);
            push_str(&mut v, "\n");
            v
        },
        None => Vec::new(),
    };
    let c = escape_text(content.as_str());
    let record: Vec<char> = match list {
        Some(l) => {
            let mut v = chars_of("LI ");
            push_decimal(&mut v, l.level as u64);
            push_str(&mut v, " ");
            push_str(&mut v, list_kind_code(l.kind));
            push_str(&mut v, " ");
            let label = escape_text(l.label.as_str());
            push_str(&mut v, label.as_str());
            push_str(&mut v, " ");
            push_str(&mut v, c.as_str());
            push_str(&mut v, "\n");
            v
        },
        None => {
            let mut v = chars_of(paragraph_record(role.as_str()));
            push_str(&mut v, " ");
            push_str(&mut v, c.as_str());
            push_str(&mut v, "\n");
            v
        },
    };
    let ghost page_spec = match *approx_page {
        Some(p) => "~page "@ + decimal(p as nat) + "\n"@,
        None => Seq::<char>::empty(),
    };
    let ghost record_spec = match list {
        Some(l) => "LI "@ + decimal(l.level as nat) + " "@ + list_kind_code_of(l.kind) + " "@ + escaped(l.label@)
            + " "@ + escaped(content@) + "\n"@,
        None => paragraph_record_of(role@) + " "@ + escaped(content@) + "\n"@,
    };
    assert(page@ == page_spec);
    assert(record@ == record_spec);
    let ghost s0 = out@;
    write_breaks(out, breaks);
    let ghost s1 = out@;
    push_chars(out, &page);
    let ghost s2 = out@;
    push_chars(out, &record);
    let ghost s3 = out@;
    write_runs(out, runs, numbers);
    let ghost s4 = out@;
    proof {
        let bl = break_lines(breaks@);
        let rl = runs_lean(*numbers, runs@);
        assert(s4 == s0 + bl + page_spec + record_spec + rl);
        assert(s4 =~= s0 + (bl + page_spec + record_spec + rl));
    }
}

fn write_image(out: &mut Vec<char>, width: &Option<String>, height: &Option<String>, numbers: &Numbers)
    ensures
        final(out)@ == old(out)@ + image_lean(*numbers, *width, *height),
{
    match (width, height) {
        (Some(w), Some(h)) => {
            push_str(out, "I ");
            let a = lean_of(numbers, w.as_str(), 1);
            push_str(out, a.as_str());
            push_str(out, " ");
            let b = lean_of(numbers, h.as_str(), 1);
            push_str(out, b.as_str());
            push_str(out, "\n");
        },
        _ => {
            push_str(out, "I\n");
        },
    }
    assert(out@ =~= old(out)@ + image_lean(*numbers, *width, *height));
}

fn write_cells(out: &mut Vec<char>, cells: &Vec<FlowTableCell>, numbers: &Numbers)
    ensures
        final(out)@ == old(out)@ + cells_lean(*numbers, cells@),
    decreases cells,
{
    let ghost start = out@;
    let mut i: usize = 0;
    while i < cells.len()
        invariant
            i <= cells.len(),
            out@ == start + cells_lean(*numbers, cells@.subrange(0, i as int)),
        decreases cells.len() - i,
    {
        let cell = &cells[i];
        proof {
            let p = cells@.subrange(0, i + 1);
            assert(p.drop_last() =~= cells@.subrange(0, i as int));
            assert(p.last() == *cell);
        }
        let ghost before = out@;
        write_cell_head(out, cell);
        let ghost b1 = out@;
        write_runs(out, &cell.runs, numbers);
        let ghost b2 = out@;
        match &cell.blocks {
            Some(v) => {
                proof {
                    assert(decreases_to!(cells@[i as int] => cells@[i as int].blocks));
                }
                write_lean_blocks(out, v, numbers);
            },
            None => {},
        }
        proof {
            let tail = match &cell.blocks {
                Some(v) => blocks_lean(*numbers, v@),
                None => Seq::empty(),
            };
            assert(out@ =~= b2 + tail);
            assert(out@ =~= before + (cell_head(*cell) + runs_lean(*numbers, cell.runs@) + tail));
        }
        i += 1;
        assert(out@ =~= start + cells_lean(*numbers, cells@.subrange(0, i as int)));
    }
    assert(cells@.subrange(0, cells@.len() as int) =~= cells@);
}

fn write_block(out: &mut Vec<char>, block: &Block, numbers: &Numbers)
    ensures
        final(out)@ == old(out)@ + block_lean(*numbers, *block),
    decreases block,
{
    match block {
        Block::Paragraph { role, runs, content, list, approx_page, breaks_before, .. } => {
            write_paragraph(out, role, runs, content, list, approx_page, breaks_before, numbers);
        },
        Block::Table { col_widths, cols, cells, approx_page, .. } => {
            let ghost b0 = out@;
            write_page_hint(out, approx_page);
            push_str(out, "TB ");
            push_decimal(out, *cols as u64);
            write_widths(out, col_widths, numbers);
            push_str(out, "\n");
            let ghost b1 = out@;
            write_cells(out, cells, numbers);
            assert(out@ =~= b0 + (page_hint(*approx_page) + "TB "@ + decimal(*cols as nat) + width_list(*numbers, col_widths@) + "\n"@
                + cells_lean(*numbers, cells@)));
        },
        Block::Image { width, height, .. } => {
            write_image(out, width, height, numbers);
        },
        Block::Textbox { blocks, .. } => {
            write_lean_blocks(out, blocks, numbers);
        },
        Block::Break { kind } => {
            push_str(out, "BR ");
            push_str(out, break_name(*kind));
            push_str(out, "\n");
            assert(out@ =~= old(out)@ + ("BR "@ + break_name_of(*kind) + "\n"@));
        },
    }
}

/// Writes the records of `blocks` (see `blocks_lean`).
pub fn write_lean_blocks(out: &mut Vec<char>, blocks: &Vec<Block>, numbers: &Numbers)
    ensures
        final(out)@ == old(out)@ + blocks_lean(*numbers, blocks@),
    decreases blocks,
{
    let ghost start = out@;
    let mut i: usize = 0;
    while i < blocks.len()
        invariant
            i <= blocks.len(),
            out@ == start + blocks_lean(*numbers, blocks@.subrange(0, i as int)),
        decreases blocks.len() - i,
    {
        proof {
            let p = blocks@.subrange(0, i + 1);
            assert(p.drop_last() =~= blocks@.subrange(0, i as int));
            assert(p.last() == blocks@[i as int]);
        }
        write_block(out, &blocks[i], numbers);
        i += 1;
        assert(out@ =~= start + blocks_lean(*numbers, blocks@.subrange(0, i as int)));
    }
    assert(blocks@.subrange(0, blocks@.len() as int) =~= blocks@);
}

fn write_stories(out: &mut Vec<char>, stories: &Vec<Story>, numbers: &Numbers)
    ensures
        final(out)@ == old(out)@ + stories_lean(*numbers, stories@),
{
    let ghost start = out@;
    let mut i: usize = 0;
    while i < stories.len()
        invariant
            i <= stories.len(),
            out@ == start + stories_lean(*numbers, stories@.subrange(0, i as int)),
        decreases stories.len() - i,
    {
        proof {
            let p = stories@.subrange(0, i + 1);
            assert(p.drop_last() =~= stories@.subrange(0, i as int));
            assert(p.last() == stories@[i as int]);
        }
        write_lean_blocks(out, stories[i].blocks(), numbers);
        i += 1;
        assert(out@ =~= start + stories_lean(*numbers, stories@.subrange(0, i as int)));
    }
    assert(stories@.subrange(0, stories@.len() as int) =~= stories@);
}

fn write_section(out: &mut Vec<char>, section: &Section, numbers: &Numbers)
    ensures
        final(out)@ == old(out)@ + section_lean(*numbers, *section),
{
    proof {
        reveal_strlit("612");
        reveal_strlit("792");
    }
    push_str(out, "#section ");
    let w = match &section.page_width {
        Some(t) => lean_of(numbers, t.as_str(), 0),
        None => "612".to_string(),
    };
    push_str(out, w.as_str());
    push_str(out, " ");
    let h = match &section.page_height {
        Some(t) => lean_of(numbers, t.as_str(), 0),
        None => "792".to_string(),
    };
    push_str(out, h.as_str());
    push_str(out, "\n");
    write_stories(out, &section.headers, numbers);
    write_lean_blocks(out, &section.blocks, numbers);
    write_stories(out, &section.footers, numbers);
    write_hidden(out, section.hidden.as_slice());
    assert(out@ =~= old(out)@ + section_lean(*numbers, *section));
}

impl FlowExtraction {
    /// Writes the document's lean rendering (see `flow_lean`) after `output`;
    /// `numbers` gives how its numerals are written.
    #[verifier::rlimit(80)]
    pub fn write_lean(&self, numbers: &Numbers, output: &mut Vec<char>)
        ensures
            final(output)@ == old(output)@ + flow_lean(*numbers, *self),
    {
        push_str(output, "#docray element v");
        push_str(output, self.schema_version.as_str());
        push_str(output, " sections=");
        push_decimal(output, self.sections.len() as u64);
        if self.warnings.len() > 0 {
            push_str(output, " warnings=");
            push_decimal(output, self.warnings.len() as u64);
        }
        push_str(output, "\n");
        push_str(
            output,
            "#legend #section width height | H1..H9/TI/Q/P text | LI level o|b label text | r font size style [href#<uri>] text | TB cols col-width... | c row col rowspan colspan text | I [width height] | BR page|column|section | ~page N | pt, authored flow; no resolved coordinates",
        );
        push_str(output, "\n");
        let mut any_hidden = false;
        let mut i: usize = 0;
        while i < self.sections.len()
            invariant
                i <= self.sections.len(),
                any_hidden == exists|k: int| 0 <= k < i && (#[trigger] self.sections@[k]).hidden@.len() > 0,
            decreases self.sections.len() - i,
        {
            if self.sections[i].hidden.len() > 0 {
                any_hidden = true;
            }
            i += 1;
        }
        if any_hidden {
            push_str(output, "#legend <hidden> kind [element-id] content | non-visible document context");
            push_str(output, "\n");
        }
        let ghost mid = output@;
        let mut w: usize = 0;
        while w < self.warnings.len()
            invariant
                w <= self.warnings.len(),
                output@ == mid + warning_lines(self.warnings@.subrange(0, w as int)),
            decreases self.warnings.len() - w,
        {
            proof {
                let p = self.warnings@.subrange(0, w + 1);
                assert(p.drop_last() =~= self.warnings@.subrange(0, w as int));
                assert(p.last() == self.warnings@[w as int]);
            }
            push_str(output, "#warning ");
            let c = collapse_warning(self.warnings[w].as_str());
            push_str(output, c.as_str());
            push_str(output, "\n");
            w += 1;
            assert(output@ =~= mid + warning_lines(self.warnings@.subrange(0, w as int)));
        }
        assert(self.warnings@.subrange(0, self.warnings@.len() as int) =~= self.warnings@);
        let ghost mid2 = output@;
        let mut s: usize = 0;
        while s < self.sections.len()
            invariant
                s <= self.sections.len(),
                output@ == mid2 + sections_lean(*numbers, self.sections@.subrange(0, s as int)),
            decreases self.sections.len() - s,
        {
            proof {
                let p = self.sections@.subrange(0, s + 1);
                assert(p.drop_last() =~= self.sections@.subrange(0, s as int));
                assert(p.last() == self.sections@[s as int]);
            }
            write_section(output, &self.sections[s], numbers);
            s += 1;
            assert(output@ =~= mid2 + sections_lean(*numbers, self.sections@.subrange(0, s as int)));
        }
        assert(self.sections@.subrange(0, self.sections@.len() as int) =~= self.sections@);
        proof {
            reveal_strlit("#legend #section width height | H1..H9/TI/Q/P text | LI level o|b label text | r font size style [href#<uri>] text | TB cols col-width... | c row col rowspan colspan text | I [width height] | BR page|column|section | ~page N | pt, authored flow; no resolved coordinates");
        }
        assert(output@ =~= old(output)@ + flow_lean(*numbers, *self));
    }

    /// The document's lean rendering (see `flow_lean`).
    pub fn to_lean(&self, numbers: &Numbers) -> (r: String)
        ensures
            r@ == flow_lean(*numbers, *self),
    {
        let mut out: Vec<char> = Vec::new();
        self.write_lean(numbers, &mut out);
        assert(out@ =~= flow_lean(*numbers, *self));
        string_of(&out)
    }
}

} // verus!

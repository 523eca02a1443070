//! Reading a word-processing document's stories into flow blocks: runs and
//! their merging, paragraph segments, the story block cap, tables, drawings
//! and text boxes, header, footer and note stories, and the whole document.
use vstd::prelude::*;
use crate::docx::{
    alt_text_of, alternative_text, attr_chars, comment_last, desc_text, first_desc, hex_text, sha256_of, DocxExtractor, begin_effect, block_id, collect_inline_events, end_effect, event_view,
    event_views, field_state, frame_of, instruction_effect, items, join_lines, node_events, opt_chars,
    placement_frame, separate_effect, shows_text, EventView, FieldMachine, FieldState, IdAllocator,
    InlineEvent, NoteKind,
};
use crate::error::ExtractError;
use crate::relationships::{
    opt_rel_view, relationships_of, rels_path_of, resolve_target, resolved_target, Relationships,
};
use crate::flow::{
    lemma_para_text_append, lemma_runs_text_append, para_text, runs_text, Block, FlowTableCell, Font,
    FlowExtraction, Length, Margins, Placement, Section, Story, TextRun,
};
use crate::model::{
    BreakKind, DocMetadata, FlowDocumentInfo, FlowLayout, HiddenItem, ListInfo, PlacementFrame, Source,
};
use crate::opc::{entry_views, has_entry, lemma_part_of_has_entry, package_parts, read_parts};
use crate::numbering::{counter_at, next_outcome, Counters, ListView, Numbering, ResolvedList};
use crate::strmap::{lookup, StrMap};
use crate::styles::{
    attr_of, child_node, opt_node, opt_str, opt_u32, paragraph_of, quoted_message, sizes_view, ParagraphStyle, ResolvedRun, RunProps, Styles,
};
use crate::text::{decimal, parse_unsigned, push_decimal, push_str, str_eq, string_of};
use crate::theme::Theme;
use crate::xml::{
    all_named, built_from_events, local_part, parse_outcome, preprocessed_root, resolve_node, strs, texts, Node,
    sorted_tree, NodeView, MAX_XML_NODES,
};

verus! {

/// How deep text boxes and tables may nest.
pub const MAX_TEXTBOX_DEPTH: usize = 8;

/// How many blocks one story may hold.
pub const MAX_BLOCKS_PER_STORY: usize = 250_000;

/// How many runs a paragraph keeps after merging; the text of the others
/// joins the last one kept.
pub const MAX_RUNS_PER_PARAGRAPH: usize = 100;

/// What the caller's number reader made of a numeral: whether it reads as a
/// finite number, and, where it reads as a size in half points (finite and
/// not below zero), the key of the point size it stands for (equal keys
/// stand for equal sizes); and, for the lean rendering, the points it stands
/// for as a length in twips, as an extent in English metric units, and as a
/// size in half points, each written as the lean format writes numbers.
pub struct NumberReading {
    pub finite: bool,
    pub size_key: Option<u64>,
    pub twips_lean: Option<String>,
    pub emu_lean: Option<String>,
    pub size_lean: Option<String>,
}

/// The readings of the numerals of a document, and the key of the default
/// run size (11 points). A numeral without a reading does not read as a
/// number.
pub struct Numbers {
    pub readings: StrMap<NumberReading>,
    pub default_size_key: u64,
}

pub open spec fn reads_finite(n: Numbers, t: Seq<char>) -> bool {
    match n.readings.get_spec(t) {
        Some(r) => r.finite,
        None => false,
    }
}

pub open spec fn size_reading(n: Numbers, t: Seq<char>) -> Option<u64> {
    match n.readings.get_spec(t) {
        Some(r) => r.size_key,
        None => None,
    }
}

impl Numbers {
    pub fn finite(&self, t: &str) -> (r: bool)
        ensures
            r == reads_finite(*self, t@),
    {
        match self.readings.get(t) {
            Some(r) => r.finite,
            None => false,
        }
    }

    pub fn size_key(&self, t: &str) -> (r: Option<u64>)
        ensures
            r == size_reading(*self, t@),
    {
        match self.readings.get(t) {
            Some(r) => r.size_key,
            None => None,
        }
    }
}

/// The size numeral a layer decides: the one it reads first, or its
/// fallback, whichever reads as a size first.
pub open spec fn size_choice(n: Numbers, p: (Option<Seq<char>>, Option<Seq<char>>)) -> Option<Seq<char>> {
    if p.0 is Some && size_reading(n, p.0->0) is Some {
        p.0
    } else if p.1 is Some && size_reading(n, p.1->0) is Some {
        p.1
    } else {
        None
    }
}

/// The size numeral of the topmost layer that decides one.
pub open spec fn picked_size(n: Numbers, s: Seq<(Option<Seq<char>>, Option<Seq<char>>)>) -> Option<Seq<char>>
    decreases s.len(),
{
    if s.len() == 0 {
        None
    } else if size_choice(n, s.last()) is Some {
        size_choice(n, s.last())
    } else {
        picked_size(n, s.drop_last())
    }
}

fn pick_size(sizes: &Vec<(Option<String>, Option<String>)>, numbers: &Numbers) -> (r: (Option<String>, u64))
    ensures
        opt_chars(r.0) == picked_size(*numbers, sizes_view(sizes@)),
        r.1 == match picked_size(*numbers, sizes_view(sizes@)) {
            Some(t) => size_reading(*numbers, t)->0,
            None => numbers.default_size_key,
        },
{
    let ghost sv = sizes_view(sizes@);
    let mut chosen: Option<String> = None;
    let mut key: u64 = numbers.default_size_key;
    let mut i: usize = 0;
    while i < sizes.len()
        invariant
            i <= sizes.len(),
            sv == sizes_view(sizes@),
            opt_chars(chosen) == picked_size(*numbers, sv.subrange(0, i as int)),
            key == match picked_size(*numbers, sv.subrange(0, i as int)) {
                Some(t) => size_reading(*numbers, t)->0,
                None => numbers.default_size_key,
            },
        decreases sizes.len() - i,
    {
        proof {
            assert(sv.subrange(0, i as int + 1).drop_last() =~= sv.subrange(0, i as int));
            assert(sv.subrange(0, i as int + 1).last() == sv[i as int]);
        }
        let pair = &sizes[i];
        let mut done = false;
        match &pair.0 {
            Some(t) => match numbers.size_key(t.as_str()) {
                Some(k) => {
                    chosen = Some(t.clone());
                    key = k;
                    done = true;
                },
                None => {},
            },
            None => {},
        }
        if !done {
            match &pair.1 {
                Some(t) => match numbers.size_key(t.as_str()) {
                    Some(k) => {
                        chosen = Some(t.clone());
                        key = k;
                    },
                    None => {},
                },
                None => {},
            }
        }
        i += 1;
    }
    proof {
        assert(sv.subrange(0, sizes.len() as int) =~= sv);
    }
    (chosen, key)
}

/// The run of `content` formatted as `resolved`, linked to `href`.
pub open spec fn run_spec(r: TextRun, content: Seq<char>, resolved: ResolvedRun, href: Option<Seq<char>>, n: Numbers) -> bool {
    let picked = picked_size(n, sizes_view(resolved.sizes@));
    &&& r.content@ == content
    &&& r.font.name@ == resolved.name@
    &&& opt_chars(r.font.size) == picked
    &&& r.font.size_key == match picked {
        Some(t) => size_reading(n, t)->0,
        None => n.default_size_key,
    }
    &&& r.font.bold == resolved.bold
    &&& r.font.italic == resolved.italic
    &&& r.fill == resolved.fill
    &&& opt_chars(r.href) == href
}

pub fn make_run(content: String, resolved: ResolvedRun, href: Option<String>, numbers: &Numbers) -> (r: TextRun)
    ensures
        run_spec(r, content@, resolved, opt_chars(href), *numbers),
{
    let (size, size_key) = pick_size(&resolved.sizes, numbers);
    TextRun {
        content,
        font: Font { name: resolved.name, size, size_key, bold: resolved.bold, italic: resolved.italic },
        fill: resolved.fill,
        href,
    }
}

/// Two runs look alike: same face, size, weight, slant, color and link.
pub open spec fn same_format(a: TextRun, b: TextRun) -> bool {
    &&& a.font.name@ == b.font.name@
    &&& a.font.size_key == b.font.size_key
    &&& a.font.bold == b.font.bold
    &&& a.font.italic == b.font.italic
    &&& a.fill == b.fill
    &&& opt_chars(a.href) == opt_chars(b.href)
}

fn same_fill(a: &Option<[u8; 3]>, b: &Option<[u8; 3]>) -> (r: bool)
    ensures
        r == (*a == *b),
{
    match (a, b) {
        (Some(x), Some(y)) => {
            if x[0] == y[0] && x[1] == y[1] && x[2] == y[2] {
                assert(x@ =~= y@);
                assert(*x == *y);
                true
            } else {
                false
            }
        },
        (None, None) => true,
        _ => false,
    }
}

fn same_link(a: &Option<String>, b: &Option<String>) -> (r: bool)
    ensures
        r == (opt_chars(*a) == opt_chars(*b)),
{
    match (a, b) {
        (Some(x), Some(y)) => str_eq(x.as_str(), y.as_str()),
        (None, None) => true,
        _ => false,
    }
}

fn alike(a: &TextRun, b: &TextRun) -> (r: bool)
    ensures
        r == same_format(*a, *b),
{
    str_eq(a.font.name.as_str(), b.font.name.as_str()) && a.font.size_key == b.font.size_key
        && a.font.bold == b.font.bold && a.font.italic == b.font.italic && same_fill(&a.fill, &b.fill)
        && same_link(&a.href, &b.href)
}

/// A run with `extra` appended to its text.
pub open spec fn extended(a: TextRun, b: TextRun, extra: Seq<char>) -> bool {
    &&& b.content@ == a.content@ + extra
    &&& b.font == a.font
    &&& b.fill == a.fill
    &&& b.href == a.href
}

/// Adds `run` after `runs`, joining it to the last run where the two look
/// alike.
pub fn merge_run(runs: &mut Vec<TextRun>, run: TextRun)
    ensures
        runs_text(final(runs)@) == runs_text(old(runs)@) + run.content@,
        if old(runs)@.len() > 0 && same_format(old(runs)@.last(), run) {
            &&& final(runs)@.len() == old(runs)@.len()
            &&& final(runs)@.drop_last() == old(runs)@.drop_last()
            &&& extended(old(runs)@.last(), final(runs)@.last(), run.content@)
        } else {
            final(runs)@ == old(runs)@.push(run)
        },
{
    if runs.len() > 0 && alike(&runs[runs.len() - 1], &run) {
        let mut last = runs.pop().unwrap();
        let ghost first = last;
        last.content.append(run.content.as_str());
        runs.push(last);
        proof {
            assert(final(runs)@.drop_last() =~= old(runs)@.drop_last());
            assert(runs@.drop_last() =~= old(runs)@.drop_last());
            assert(old(runs)@.drop_last().push(first) =~= old(runs)@);
            assert(runs_text(runs@) =~= runs_text(old(runs)@) + run.content@);
        }
    } else {
        let ghost before = runs@;
        runs.push(run);
        proof {
            assert(runs@.drop_last() =~= before);
            assert(runs_text(runs@) =~= runs_text(before) + run.content@);
        }
    }
}

pub open spec fn run_cap_warning() -> Seq<char> {
    "paragraph run soft cap 100 exceeded after adjacent-run merging; excess text coalesced"@
}

/// Keeps at most `MAX_RUNS_PER_PARAGRAPH` runs: the text of the others joins
/// the last run kept, with a warning.
pub fn enforce_run_soft_cap(runs: &mut Vec<TextRun>, warnings: &mut Vec<String>)
    ensures
        runs_text(final(runs)@) == runs_text(old(runs)@),
        if old(runs)@.len() <= MAX_RUNS_PER_PARAGRAPH {
            &&& final(runs)@ == old(runs)@
            &&& final(warnings)@ == old(warnings)@
        } else {
            &&& final(runs)@.len() == MAX_RUNS_PER_PARAGRAPH
            &&& final(runs)@.subrange(0, MAX_RUNS_PER_PARAGRAPH - 1) == old(runs)@.subrange(
                0,
                MAX_RUNS_PER_PARAGRAPH - 1,
            )
            &&& extended(
                old(runs)@[MAX_RUNS_PER_PARAGRAPH - 1],
                final(runs)@[MAX_RUNS_PER_PARAGRAPH - 1],
                runs_text(old(runs)@.subrange(MAX_RUNS_PER_PARAGRAPH as int, old(runs)@.len() as int)),
            )
            &&& texts(final(warnings)@) == texts(old(warnings)@).push(run_cap_warning())
        },
{
    if runs.len() <= MAX_RUNS_PER_PARAGRAPH {
        return;
    }
    let ghost w0 = texts(warnings@);
    warnings.push("paragraph run soft cap 100 exceeded after adjacent-run merging; excess text coalesced".to_string());
    let rest = runs.split_off(MAX_RUNS_PER_PARAGRAPH);
    let ghost kept = runs@;
    let mut excess = String::new();
    let mut i: usize = 0;
    while i < rest.len()
        invariant
            i <= rest.len(),
            excess@ == runs_text(rest@.subrange(0, i as int)),
        decreases rest.len() - i,
    {
        proof {
            assert(rest@.subrange(0, i as int + 1).drop_last() =~= rest@.subrange(0, i as int));
        }
        excess.append(rest[i].content.as_str());
        i += 1;
    }
    let mut last = runs.pop().unwrap();
    let ghost first = last;
    last.content.append(excess.as_str());
    runs.push(last);
    proof {
        assert(rest@.subrange(0, rest@.len() as int) =~= rest@);
        assert(old(runs)@ =~= kept + rest@);
        assert(rest@ =~= old(runs)@.subrange(MAX_RUNS_PER_PARAGRAPH as int, old(runs)@.len() as int));
        assert(kept == kept.drop_last().push(first));
        assert(runs@ =~= kept.drop_last().push(last));
        assert(runs@.subrange(0, MAX_RUNS_PER_PARAGRAPH - 1) =~= old(runs)@.subrange(
            0,
            MAX_RUNS_PER_PARAGRAPH - 1,
        ));
        lemma_runs_text_append(kept, rest@);
        assert(runs@.drop_last() =~= kept.drop_last());
        assert(runs_text(runs@) =~= runs_text(kept.drop_last()) + first.content@ + excess@);
        assert(runs_text(kept) =~= runs_text(kept.drop_last()) + first.content@);
        assert(texts(warnings@) =~= w0.push(run_cap_warning()));
    }
}

/// A story's reading state: its fields, list counters, breaks waiting for
/// the next block, the page it is on, and how many blocks it holds.
pub struct StoryState {
    pub fields: FieldMachine,
    pub counters: Counters,
    pub pending_breaks: Vec<BreakKind>,
    pub current_page: u32,
    pub block_count: usize,
}

impl StoryState {
    pub open spec fn wf(&self) -> bool {
        self.fields.wf() && self.counters.values.wf()
    }

    /// The state a header, footer, note, cell or text box story starts in.
    pub fn new() -> (s: StoryState)
        ensures
            s.wf(),
            field_state(s.fields) == (FieldState { stack: Seq::empty(), overflow: 0 }),
            s.pending_breaks@.len() == 0,
            s.current_page == 0,
            s.block_count == 0,
            s.counters.values.entries@.len() == 0,
            forall|id: Seq<char>| #[trigger] counter_at(s.counters, id) is None,
    {
        StoryState {
            fields: FieldMachine::new(),
            counters: Counters::new(),
            pending_breaks: Vec::new(),
            current_page: 0,
            block_count: 0,
        }
    }

    /// The state the body starts in: on page one.
    pub fn body() -> (s: StoryState)
        ensures
            s.wf(),
            field_state(s.fields) == (FieldState { stack: Seq::empty(), overflow: 0 }),
            s.pending_breaks@.len() == 0,
            s.current_page == 1,
            s.block_count == 0,
    {
        let mut s = StoryState::new();
        s.current_page = 1;
        s
    }
}

/// The parts of a package, by name.
pub struct Parts {
    pub entries: Vec<(String, Vec<u8>)>,
}

/// The bytes of the first part named `name`.
pub open spec fn part_of(entries: Seq<(String, Vec<u8>)>, name: Seq<char>) -> Option<Seq<u8>>
    decreases entries.len(),
{
    if entries.len() == 0 {
        None
    } else if entries[0].0@ == name {
        Some(entries[0].1@)
    } else {
        part_of(entries.drop_first(), name)
    }
}

impl Parts {
    pub fn read(&self, name: &str) -> (r: Option<&Vec<u8>>)
        ensures
            match part_of(self.entries@, name@) {
                Some(b) => r matches Some(v) && v@ == b,
                None => r is None,
            },
    {
        let mut i: usize = 0;
        assert(self.entries@.subrange(0, self.entries@.len() as int) =~= self.entries@);
        while i < self.entries.len()
            invariant
                i <= self.entries.len(),
                part_of(self.entries@, name@) == part_of(self.entries@.subrange(i as int, self.entries@.len() as int), name@),
            decreases self.entries.len() - i,
        {
            proof {
                let rest = self.entries@.subrange(i as int, self.entries@.len() as int);
                assert(rest.drop_first() =~= self.entries@.subrange(i as int + 1, self.entries@.len() as int));
                assert(rest[0] == self.entries@[i as int]);
            }
            if str_eq(self.entries[i].0.as_str(), name) {
                return Some(&self.entries[i].1);
            }
            i += 1;
        }
        None
    }

    pub fn contains(&self, name: &str) -> (r: bool)
        ensures
            r == part_of(self.entries@, name@) is Some,
    {
        self.read(name).is_some()
    }
}

/// What the reading of a document's stories draws on: its parts, the
/// readings of its numerals, its styles, numbering, theme, comments and
/// notes; and the warnings raised so far.
pub struct Context {
    pub parts: Parts,
    pub numbers: Numbers,
    pub styles: Styles,
    pub numbering: Numbering,
    pub theme: Theme,
    pub comments: StrMap<String>,
    pub footnotes: StrMap<Node>,
    pub endnotes: StrMap<Node>,
    pub warnings: Vec<String>,
}

/// The two contexts differ at most in their warnings.
pub open spec fn same_sources(a: Context, b: Context) -> bool {
    &&& a.parts == b.parts
    &&& a.numbers == b.numbers
    &&& a.styles == b.styles
    &&& a.numbering == b.numbering
    &&& a.theme == b.theme
    &&& a.comments == b.comments
    &&& a.footnotes == b.footnotes
    &&& a.endnotes == b.endnotes
}

/// `b` is `a` with more at its end.
pub open spec fn grows<T>(a: Seq<T>, b: Seq<T>) -> bool {
    a.len() <= b.len() && b.subrange(0, a.len() as int) == a
}

pub proof fn lemma_grows_trans<T>(a: Seq<T>, b: Seq<T>, c: Seq<T>)
    requires
        grows(a, b),
        grows(b, c),
    ensures
        grows(a, c),
{
    assert(c.subrange(0, a.len() as int) =~= c.subrange(0, b.len() as int).subrange(0, a.len() as int));
}

pub proof fn lemma_grows_refl<T>(a: Seq<T>)
    ensures
        grows(a, a),
{
    assert(a.subrange(0, a.len() as int) =~= a);
}

pub proof fn lemma_grows_append<T>(a: Seq<T>, x: Seq<T>)
    ensures
        grows(a, a + x),
{
    assert((a + x).subrange(0, a.len() as int) =~= a);
}

/// A paragraph block made of `runs` joined: its text is theirs, and at most
/// `MAX_RUNS_PER_PARAGRAPH` of them remain.
pub open spec fn paragraph_wf(b: Block) -> bool {
    match b {
        Block::Paragraph { runs, content, .. } => content@ == runs_text(runs@) && runs@.len()
            <= MAX_RUNS_PER_PARAGRAPH,
        _ => true,
    }
}

pub open spec fn all_paragraphs_wf(s: Seq<Block>) -> bool {
    forall|i: int| 0 <= i < s.len() ==> #[trigger] paragraph_wf(s[i])
}

/// The list membership a paragraph segment carries: the paragraph's own on
/// its first segment only.
pub open spec fn segment_list(first: bool, list: Option<ResolvedList>) -> Option<ListInfo> {
    if first {
        match list {
            Some(l) => Some(l.info),
            None => None,
        }
    } else {
        None
    }
}

/// The page hint of a paragraph segment: the current page (at least one)
/// where pages are tracked.
pub open spec fn segment_page(track_pages: bool, page: u32) -> Option<u32> {
    if track_pages {
        Some(if page >= 1 {
            page
        } else {
            1
        })
    } else {
        None
    }
}

fn copy_list(list: &Option<ResolvedList>) -> (r: Option<ListInfo>)
    ensures
        r == segment_list(true, *list),
{
    match list {
        Some(l) => Some(l.info.duplicate()),
        None => None,
    }
}

/// Ends the current paragraph segment: its runs (capped) become a paragraph
/// block with the next id, the paragraph's role, the list membership on the
/// first segment, the page hint where pages are tracked, and the breaks
/// waiting before it. Nothing happens where there are no runs and the
/// paragraph has already produced a block.
#[verifier::rlimit(30)]
pub fn flush_paragraph_segment(
    blocks: &mut Vec<Block>,
    runs: &mut Vec<TextRun>,
    style: &ParagraphStyle,
    list: &Option<ResolvedList>,
    first_segment: &mut bool,
    ids: &mut IdAllocator,
    state: &mut StoryState,
    track_pages: bool,
    emitted_any: &mut bool,
    ctx: &mut Context,
)
    ensures
        final(state).fields == old(state).fields,
        final(state).counters == old(state).counters,
        final(state).current_page == old(state).current_page,
        final(state).block_count == old(state).block_count,
        final(ids).prefix == old(ids).prefix,
        same_sources(*final(ctx), *old(ctx)),
        grows(texts(old(ctx).warnings@), texts(final(ctx).warnings@)),
        para_text(final(blocks)@) + runs_text(final(runs)@) == para_text(old(blocks)@) + runs_text(old(runs)@),
        all_paragraphs_wf(old(blocks)@) ==> all_paragraphs_wf(final(blocks)@),
        if old(runs)@.len() == 0 && *old(emitted_any) {
            &&& final(blocks)@ == old(blocks)@
            &&& final(runs)@ == old(runs)@
            &&& *final(first_segment) == *old(first_segment)
            &&& *final(emitted_any) == *old(emitted_any)
            &&& final(ids).next == old(ids).next
            &&& final(state).pending_breaks@ == old(state).pending_breaks@
        } else {
            &&& final(blocks)@.len() == old(blocks)@.len() + 1
            &&& final(blocks)@.drop_last() == old(blocks)@
            &&& final(runs)@.len() == 0
            &&& !*final(first_segment)
            &&& *final(emitted_any)
            &&& final(ids).next >= old(ids).next
            &&& final(state).pending_breaks@.len() == 0
            &&& final(blocks)@.last() matches Block::Paragraph {
                id,
                role,
                content,
                list: l,
                placement,
                approx_page,
                breaks_before,
                ..
            } && id@ == block_id(old(ids).prefix@, old(ids).next as nat) && role@ == style.role@
                && content@ == runs_text(old(runs)@) && l == segment_list(*old(first_segment), *list)
                && placement is None && approx_page == segment_page(track_pages, old(state).current_page)
                && breaks_before@ == old(state).pending_breaks@
        },
{
    if runs.len() == 0 && *emitted_any {
        proof {
            lemma_grows_refl(texts(ctx.warnings@));
        }
        return;
    }
    let ghost r0 = runs@;
    enforce_run_soft_cap(runs, &mut ctx.warnings);
    proof {
        if r0.len() > MAX_RUNS_PER_PARAGRAPH {
            lemma_grows_append(texts(old(ctx).warnings@), seq![run_cap_warning()]);
            assert(texts(old(ctx).warnings@).push(run_cap_warning()) =~= texts(old(ctx).warnings@) + seq![run_cap_warning()]);
        } else {
            lemma_grows_refl(texts(ctx.warnings@));
        }
    }
    let mut content = String::new();
    let mut i: usize = 0;
    while i < runs.len()
        invariant
            i <= runs.len(),
            content@ == runs_text(runs@.subrange(0, i as int)),
        decreases runs.len() - i,
    {
        proof {
            assert(runs@.subrange(0, i as int + 1).drop_last() =~= runs@.subrange(0, i as int));
        }
        content.append(runs[i].content.as_str());
        i += 1;
    }
    proof {
        assert(runs@.subrange(0, runs@.len() as int) =~= runs@);
    }
    let mut breaks_before: Vec<BreakKind> = Vec::new();
    breaks_before.append(&mut state.pending_breaks);
    let mut taken: Vec<TextRun> = Vec::new();
    taken.append(runs);
    let id = ids.next();
    let page = if state.current_page >= 1 {
        state.current_page
    } else {
        1
    };
    let segment = if *first_segment {
        copy_list(list)
    } else {
        None
    };
    let block = Block::Paragraph {
        id,
        role: style.role.clone(),
        runs: taken,
        content,
        list: segment,
        placement: None,
        approx_page: if track_pages {
            Some(page)
        } else {
            None
        },
        breaks_before,
    };
    let ghost b0 = blocks@;
    blocks.push(block);
    *first_segment = false;
    *emitted_any = true;
    proof {
        assert(blocks@.drop_last() =~= b0);
        assert(runs@ =~= Seq::<TextRun>::empty());
        assert(runs_text(runs@) =~= Seq::<char>::empty());
        assert(para_text(blocks@) =~= para_text(b0) + runs_text(r0));
        assert forall|k: int| 0 <= k < blocks@.len() && all_paragraphs_wf(b0) implies #[trigger] paragraph_wf(
            blocks@[k],
        ) by {
            if k < b0.len() {
                assert(blocks@[k] == b0[k]);
            }
        }
    }
}

/// How many blocks a block stands for: itself and every block nested in it.
pub open spec fn block_total(b: Block) -> nat
    decreases b,
{
    1 + match b {
        Block::Textbox { blocks, .. } => blocks_total(blocks@),
        Block::Table { cells, .. } => cells_total(cells@),
        _ => 0,
    }
}

pub open spec fn blocks_total(s: Seq<Block>) -> nat
    decreases s,
{
    if s.len() == 0 {
        0
    } else {
        blocks_total(s.drop_last()) + block_total(s.last())
    }
}

pub open spec fn cells_total(s: Seq<FlowTableCell>) -> nat
    decreases s,
{
    if s.len() == 0 {
        0
    } else {
        cells_total(s.drop_last()) + match s.last().blocks {
            Some(v) => blocks_total(v@),
            None => 0,
        }
    }
}

/// `n`, or `usize::MAX` where it is larger.
pub open spec fn saturated(n: nat) -> usize {
    if n <= usize::MAX {
        n as usize
    } else {
        usize::MAX
    }
}

fn count_seq(blocks: &Vec<Block>) -> (r: usize)
    ensures
        r == saturated(blocks_total(blocks@)),
    decreases blocks,
{
    let mut total: usize = 0;
    let mut i: usize = 0;
    while i < blocks.len()
        invariant
            i <= blocks.len(),
            total == saturated(blocks_total(blocks@.subrange(0, i as int))),
        decreases blocks.len() - i,
    {
        proof {
            assert(blocks@.subrange(0, i as int + 1).drop_last() =~= blocks@.subrange(0, i as int));
            assert(blocks@.subrange(0, i as int + 1).last() == blocks@[i as int]);
        }
        let n = count_blocks(&blocks[i]);
        total = total.saturating_add(n);
        i += 1;
    }
    proof {
        assert(blocks@.subrange(0, blocks@.len() as int) =~= blocks@);
    }
    total
}

fn count_cells(cells: &Vec<FlowTableCell>) -> (r: usize)
    ensures
        r == saturated(cells_total(cells@)),
    decreases cells,
{
    let mut total: usize = 0;
    let mut i: usize = 0;
    while i < cells.len()
        invariant
            i <= cells.len(),
            total == saturated(cells_total(cells@.subrange(0, i as int))),
        decreases cells.len() - i,
    {
        proof {
            assert(cells@.subrange(0, i as int + 1).drop_last() =~= cells@.subrange(0, i as int));
            assert(cells@.subrange(0, i as int + 1).last() == cells@[i as int]);
        }
        match &cells[i].blocks {
            Some(v) => {
                proof {
                    assert(decreases_to!(cells@[i as int] => cells@[i as int].blocks));
                }
                let n = count_seq(v);
                total = total.saturating_add(n);
            },
            None => {},
        }
        i += 1;
    }
    proof {
        assert(cells@.subrange(0, cells@.len() as int) =~= cells@);
    }
    total
}

/// The number of blocks `block` stands for (see `block_total`), at most
/// `usize::MAX`.
pub fn count_blocks(block: &Block) -> (r: usize)
    ensures
        r == saturated(block_total(*block)),
    decreases block,
{
    match block {
        Block::Textbox { blocks, .. } => {
            let n = count_seq(blocks);
            n.saturating_add(1)
        },
        Block::Table { cells, .. } => {
            let n = count_cells(cells);
            n.saturating_add(1)
        },
        _ => 1,
    }
}

pub open spec fn block_cap_warning() -> Seq<char> {
    "story block limit 250000 exceeded; remaining content skipped"@
}

/// Moves the blocks of `source` to the end of `destination`: breaks waiting
/// in `state` go into the next paragraph's breaks, or before the next other
/// block as break blocks. Once the story holds more than
/// `MAX_BLOCKS_PER_STORY` blocks, the block that crossed the limit and the
/// rest of `source` are dropped with a warning.
#[verifier::rlimit(40)]
pub fn push_blocks(
    destination: &mut Vec<Block>,
    source: &mut Vec<Block>,
    state: &mut StoryState,
    ctx: &mut Context,
)
    ensures
        grows(old(destination)@, final(destination)@),
        final(source)@.len() == 0,
        final(state).fields == old(state).fields,
        final(state).counters == old(state).counters,
        final(state).current_page == old(state).current_page,
        same_sources(*final(ctx), *old(ctx)),
        texts(final(ctx).warnings@) == texts(old(ctx).warnings@) || texts(final(ctx).warnings@)
            == texts(old(ctx).warnings@).push(block_cap_warning()),
        grows(texts(old(ctx).warnings@), texts(final(ctx).warnings@)),
        texts(final(ctx).warnings@) == texts(old(ctx).warnings@) ==> para_text(final(destination)@)
            == para_text(old(destination)@) + para_text(old(source)@),
        all_paragraphs_wf(old(destination)@) && all_paragraphs_wf(old(source)@) ==> all_paragraphs_wf(
            final(destination)@,
        ),
{
    let ghost d0 = destination@;
    let ghost s0 = source@;
    let ghost n = s0.len();
    let len0 = source.len();
    assert(n == len0);
    let ghost wf0 = all_paragraphs_wf(d0) && all_paragraphs_wf(s0);
    let mut rev: Vec<Block> = Vec::new();
    while source.len() > 0
        invariant
            source@ == s0.subrange(0, source@.len() as int),
            rev@.len() == s0.len() - source@.len(),
            forall|j: int| 0 <= j < rev@.len() ==> #[trigger] rev@[j] == s0[s0.len() - 1 - j],
        decreases source.len(),
    {
        let b = source.pop().unwrap();
        rev.push(b);
    }
    proof {
        lemma_grows_refl(destination@);
        assert(s0.subrange(0, 0) =~= Seq::<Block>::empty());
    }
    let mut k: usize = 0;
    while rev.len() > 0
        invariant
            d0 == old(destination)@,
            s0 == old(source)@,
            source@.len() == 0,
            n <= usize::MAX,
            k + rev@.len() == n,
            n == s0.len(),
            forall|j: int| 0 <= j < rev@.len() ==> #[trigger] rev@[j] == s0[s0.len() - 1 - j],
            grows(d0, destination@),
            state.fields == old(state).fields,
            state.counters == old(state).counters,
            state.current_page == old(state).current_page,
            same_sources(*ctx, *old(ctx)),
            texts(ctx.warnings@) == texts(old(ctx).warnings@),
            para_text(destination@) == para_text(d0) + para_text(s0.subrange(0, k as int)),
            wf0 ==> all_paragraphs_wf(destination@),
            wf0 == (all_paragraphs_wf(d0) && all_paragraphs_wf(s0)),
        decreases rev.len(),
    {
        let ghost dk = destination@;
        let block = rev.pop().unwrap();
        proof {
            assert(block == s0[k as int]);
            assert(s0.subrange(0, k as int + 1).drop_last() =~= s0.subrange(0, k as int));
            assert(s0.subrange(0, k as int + 1).last() == s0[k as int]);
        }
        let mut placed = block;
        if state.pending_breaks.len() > 0 {
            match placed {
                Block::Paragraph { id, role, runs, content, list, placement, approx_page, mut breaks_before } => {
                    breaks_before.append(&mut state.pending_breaks);
                    placed = Block::Paragraph { id, role, runs, content, list, placement, approx_page, breaks_before };
                },
                other => {
                    let mut j: usize = 0;
                    proof {
                        lemma_grows_refl(dk);
                    }
                    while j < state.pending_breaks.len()
                        invariant
                            d0 == old(destination)@,
                            wf0 == (all_paragraphs_wf(d0) && all_paragraphs_wf(s0)),
                            j <= state.pending_breaks.len(),
                            grows(d0, destination@),
                            grows(dk, destination@),
                            para_text(destination@) == para_text(dk),
                            wf0 ==> all_paragraphs_wf(destination@),
                        decreases state.pending_breaks.len() - j,
                    {
                        let ghost before = destination@;
                        let kind = state.pending_breaks[j];
                        destination.push(Block::Break { kind });
                        proof {
                            assert(destination@.drop_last() =~= before);
                            lemma_grows_append(before, seq![Block::Break { kind }]);
                            assert(before + seq![Block::Break { kind }] =~= destination@);
                            lemma_grows_trans(d0, before, destination@);
                            lemma_grows_trans(dk, before, destination@);
                            assert forall|q: int| 0 <= q < destination@.len() && wf0 implies #[trigger] paragraph_wf(
                                destination@[q],
                            ) by {
                                if q < before.len() {
                                    assert(destination@[q] == before[q]);
                                }
                            }
                        }
                        j += 1;
                    }
                    state.pending_breaks.clear();
                    placed = other;
                },
            }
        }
        let count = count_blocks(&placed);
        state.block_count = state.block_count.saturating_add(count);
        if state.block_count > MAX_BLOCKS_PER_STORY {
            ctx.warnings.push("story block limit 250000 exceeded; remaining content skipped".to_string());
            proof {
                assert(texts(ctx.warnings@) =~= texts(old(ctx).warnings@).push(block_cap_warning()));
                lemma_grows_append(texts(old(ctx).warnings@), seq![block_cap_warning()]);
                assert(texts(old(ctx).warnings@) + seq![block_cap_warning()] =~= texts(ctx.warnings@));
            }
            return;
        }
        let ghost before = destination@;
        destination.push(placed);
        k += 1;
        proof {
            assert(destination@.drop_last() =~= before);
            lemma_grows_append(before, seq![placed]);
            assert(before + seq![placed] =~= destination@);
            lemma_grows_trans(d0, before, destination@);
            assert(para_text(destination@) == para_text(before) + match placed {
                Block::Paragraph { content, .. } => content@,
                _ => Seq::empty(),
            });
            assert(para_text(destination@) =~= para_text(d0) + para_text(s0.subrange(0, k as int)));
            assert forall|q: int| 0 <= q < destination@.len() && wf0 implies #[trigger] paragraph_wf(
                destination@[q],
            ) by {
                if q < before.len() {
                    assert(destination@[q] == before[q]);
                } else {
                    assert(paragraph_wf(s0[k - 1]));
                }
            }
        }
    }
    proof {
        assert(s0.subrange(0, n as int) =~= s0);
        lemma_grows_refl(texts(ctx.warnings@));
    }
}

/// Ends a story: breaks still waiting become break blocks, and open fields
/// are closed (see `FieldMachine::finish`).
pub fn finish_story(blocks: &mut Vec<Block>, state: &mut StoryState, ctx: &mut Context)
    requires
        old(state).fields.wf(),
    ensures
        grows(old(blocks)@, final(blocks)@),
        para_text(final(blocks)@) == para_text(old(blocks)@),
        all_paragraphs_wf(old(blocks)@) ==> all_paragraphs_wf(final(blocks)@),
        final(state).fields.wf(),
        field_state(final(state).fields) == (FieldState { stack: Seq::empty(), overflow: 0 }),
        final(state).counters == old(state).counters,
        final(state).current_page == old(state).current_page,
        final(state).block_count == old(state).block_count,
        final(state).pending_breaks@.len() == 0,
        same_sources(*final(ctx), *old(ctx)),
        grows(texts(old(ctx).warnings@), texts(final(ctx).warnings@)),
{
    let ghost b0 = blocks@;
    let mut j: usize = 0;
    proof {
        lemma_grows_refl(b0);
    }
    while j < state.pending_breaks.len()
        invariant
            j <= state.pending_breaks.len(),
            grows(b0, blocks@),
            para_text(blocks@) == para_text(b0),
            all_paragraphs_wf(b0) ==> all_paragraphs_wf(blocks@),
        decreases state.pending_breaks.len() - j,
    {
        let ghost before = blocks@;
        let kind = state.pending_breaks[j];
        blocks.push(Block::Break { kind });
        proof {
            assert(blocks@.drop_last() =~= before);
            lemma_grows_append(before, seq![Block::Break { kind }]);
            assert(before + seq![Block::Break { kind }] =~= blocks@);
            lemma_grows_trans(b0, before, blocks@);
            assert forall|q: int| 0 <= q < blocks@.len() && all_paragraphs_wf(b0) implies #[trigger] paragraph_wf(
                blocks@[q],
            ) by {
                if q < before.len() {
                    assert(blocks@[q] == before[q]);
                }
            }
        }
        j += 1;
    }
    state.pending_breaks.clear();
    let ghost w0 = texts(ctx.warnings@);
    state.fields.finish(&mut ctx.warnings);
    proof {
        let extra = texts(ctx.warnings@).subrange(w0.len() as int, texts(ctx.warnings@).len() as int);
        assert(texts(ctx.warnings@) =~= w0 + extra);
        lemma_grows_append(w0, extra);
    }
}

/// A numeral that reads as a finite number, else nothing.
pub open spec fn measured(n: Numbers, t: Option<Seq<char>>) -> Option<Seq<char>> {
    match t {
        Some(v) => if reads_finite(n, v) {
            Some(v)
        } else {
            None
        },
        None => None,
    }
}

/// A length as values: whether it is in twips, and its numeral.
pub open spec fn length_view(l: Option<Length>) -> Option<(bool, Seq<char>)> {
    match l {
        Some(Length::Twips(t)) => Some((true, t@)),
        Some(Length::Emu(t)) => Some((false, t@)),
        None => None,
    }
}

pub open spec fn in_twips(m: Option<Seq<char>>) -> Option<(bool, Seq<char>)> {
    match m {
        Some(t) => Some((true, t)),
        None => None,
    }
}

pub open spec fn in_emu(m: Option<Seq<char>>) -> Option<(bool, Seq<char>)> {
    match m {
        Some(t) => Some((false, t)),
        None => None,
    }
}

fn finite_text(numbers: &Numbers, t: Option<&str>) -> (r: Option<String>)
    ensures
        opt_chars(r) == measured(*numbers, opt_str(t)),
{
    match t {
        Some(v) => if numbers.finite(v) {
            Some(v.to_string())
        } else {
            None
        },
        None => None,
    }
}

fn twips_length(numbers: &Numbers, t: Option<&str>) -> (r: Option<Length>)
    ensures
        length_view(r) == in_twips(measured(*numbers, opt_str(t))),
{
    match finite_text(numbers, t) {
        Some(v) => Some(Length::Twips(v)),
        None => None,
    }
}

fn emu_length(numbers: &Numbers, t: Option<&str>) -> (r: Option<Length>)
    ensures
        length_view(r) == in_emu(measured(*numbers, opt_str(t))),
{
    match finite_text(numbers, t) {
        Some(v) => Some(Length::Emu(v)),
        None => None,
    }
}

fn opt_attr<'a>(n: Option<&'a Node>, name: &str) -> (r: Option<&'a str>)
    ensures
        opt_str(r) == match n {
            Some(x) => attr_chars(*x, name@),
            None => None,
        },
{
    match n {
        Some(x) => x.attr(name),
        None => None,
    }
}

fn opt_child<'a>(n: Option<&'a Node>, name: &str) -> (r: Option<&'a Node>)
    ensures
        opt_node(r) == match n {
            Some(x) => child_node(*x, name@),
            None => None,
        },
{
    match n {
        Some(x) => x.child(name),
        None => None,
    }
}

fn opt_text_of(n: Option<&Node>) -> (r: Option<&str>)
    ensures
        opt_str(r) == match n {
            Some(x) => Some(x.text@),
            None => None,
        },
{
    match n {
        Some(x) => Some(x.text.as_str()),
        None => None,
    }
}

pub open spec fn attr_in(n: Option<Node>, name: Seq<char>) -> Option<Seq<char>> {
    match n {
        Some(x) => attr_chars(x, name),
        None => None,
    }
}

pub open spec fn text_in(n: Option<Node>) -> Option<Seq<char>> {
    match n {
        Some(x) => Some(x.text@),
        None => None,
    }
}

pub open spec fn child_in(n: Option<Node>, name: Seq<char>) -> Option<Node> {
    match n {
        Some(x) => child_node(x, name),
        None => None,
    }
}

/// The floating position of a table (`tblpPr`): frame from its horizontal
/// anchor (page where it has none), offsets in twips, alignments as written.
pub fn table_placement(node: &Node, numbers: &Numbers) -> (p: Placement)
    ensures
        p.frame == frame_of(
            match attr_chars(*node, "horzAnchor"@) {
                Some(v) => v,
                None => "page"@,
            },
        ),
        length_view(p.x) == in_twips(measured(*numbers, attr_chars(*node, "tblpX"@))),
        length_view(p.y) == in_twips(measured(*numbers, attr_chars(*node, "tblpY"@))),
        p.width is None,
        p.height is None,
        opt_chars(p.align_h) == attr_chars(*node, "tblpXSpec"@),
        opt_chars(p.align_v) == attr_chars(*node, "tblpYSpec"@),
{
    let anchor = match node.attr("horzAnchor") {
        Some(v) => v,
        None => "page",
    };
    Placement {
        frame: placement_frame(anchor),
        x: twips_length(numbers, node.attr("tblpX")),
        y: twips_length(numbers, node.attr("tblpY")),
        width: None,
        height: None,
        align_h: match node.attr("tblpXSpec") {
            Some(v) => Some(v.to_string()),
            None => None,
        },
        align_v: match node.attr("tblpYSpec") {
            Some(v) => Some(v.to_string()),
            None => None,
        },
    }
}

/// The position of an anchored drawing: frame from the horizontal
/// position's `relativeFrom`, else the vertical one's, else paragraph;
/// offsets (`posOffset`) in English metric units; alignments as written.
pub fn anchor_placement(anchor: &Node, numbers: &Numbers) -> (p: Placement)
    ensures
        ({
            let h = child_node(*anchor, "positionH"@);
            let v = child_node(*anchor, "positionV"@);
            let rel = if attr_in(h, "relativeFrom"@) is Some {
                attr_in(h, "relativeFrom"@)
            } else {
                attr_in(v, "relativeFrom"@)
            };
            &&& p.frame == match rel {
                Some(r) => frame_of(r),
                None => PlacementFrame::Paragraph,
            }
            &&& length_view(p.x) == in_emu(measured(*numbers, text_in(child_in(h, "posOffset"@))))
            &&& length_view(p.y) == in_emu(measured(*numbers, text_in(child_in(v, "posOffset"@))))
            &&& p.width is None
            &&& p.height is None
            &&& opt_chars(p.align_h) == text_in(child_in(h, "align"@))
            &&& opt_chars(p.align_v) == text_in(child_in(v, "align"@))
        }),
{
    let horizontal = anchor.child("positionH");
    let vertical = anchor.child("positionV");
    let rel = match opt_attr(horizontal, "relativeFrom") {
        Some(r) => Some(r),
        None => opt_attr(vertical, "relativeFrom"),
    };
    let frame = match rel {
        Some(r) => placement_frame(r),
        None => PlacementFrame::Paragraph,
    };
    Placement {
        frame,
        x: emu_length(numbers, opt_text_of(opt_child(horizontal, "posOffset"))),
        y: emu_length(numbers, opt_text_of(opt_child(vertical, "posOffset"))),
        width: None,
        height: None,
        align_h: match opt_text_of(opt_child(horizontal, "align")) {
            Some(t) => Some(t.to_string()),
            None => None,
        },
        align_v: match opt_text_of(opt_child(vertical, "align")) {
            Some(t) => Some(t.to_string()),
            None => None,
        },
    }
}

/// The texts a block contributes to its container's text: a paragraph's
/// text where it has one, a table's non-empty cell texts, a text box's
/// blocks' texts.
pub open spec fn block_parts(b: Block) -> Seq<Seq<char>>
    decreases b,
{
    match b {
        Block::Paragraph { content, .. } => if content@.len() > 0 {
            seq![content@]
        } else {
            Seq::empty()
        },
        Block::Table { cells, .. } => cell_parts(cells@),
        Block::Textbox { blocks, .. } => text_parts(blocks@),
        _ => Seq::empty(),
    }
}

pub open spec fn text_parts(s: Seq<Block>) -> Seq<Seq<char>>
    decreases s,
{
    if s.len() == 0 {
        Seq::empty()
    } else {
        text_parts(s.drop_last()) + block_parts(s.last())
    }
}

pub open spec fn cell_parts(s: Seq<FlowTableCell>) -> Seq<Seq<char>>
    decreases s.len(),
{
    if s.len() == 0 {
        Seq::empty()
    } else {
        cell_parts(s.drop_last()) + if s.last().content@.len() > 0 {
            seq![s.last().content@]
        } else {
            Seq::empty()
        }
    }
}

fn collect_one(block: &Block, parts: &mut Vec<String>)
    ensures
        texts(final(parts)@) == texts(old(parts)@) + block_parts(*block),
    decreases block,
{
    match block {
        Block::Paragraph { content, .. } => {
            if !content.as_str().is_empty() {
                let ghost p0 = texts(parts@);
                parts.push(content.clone());
                assert(texts(parts@) =~= p0 + seq![content@]);
            } else {
                assert(texts(parts@) =~= texts(old(parts)@) + Seq::<Seq<char>>::empty());
            }
        },
        Block::Table { cells, .. } => {
            let ghost p0 = texts(parts@);
            let mut i: usize = 0;
            while i < cells.len()
                invariant
                    i <= cells.len(),
                    texts(parts@) == p0 + cell_parts(cells@.subrange(0, i as int)),
                decreases cells.len() - i,
            {
                proof {
                    assert(cells@.subrange(0, i as int + 1).drop_last() =~= cells@.subrange(0, i as int));
                    assert(cells@.subrange(0, i as int + 1).last() == cells@[i as int]);
                }
                let ghost before = texts(parts@);
                if !cells[i].content.as_str().is_empty() {
                    parts.push(cells[i].content.clone());
                    assert(texts(parts@) =~= before + seq![cells@[i as int].content@]);
                } else {
                    assert(texts(parts@) =~= before + Seq::<Seq<char>>::empty());
                }
                i += 1;
            }
            proof {
                assert(cells@.subrange(0, cells@.len() as int) =~= cells@);
            }
        },
        Block::Textbox { blocks, .. } => {
            collect_block_text(blocks, parts);
        },
        _ => {
            assert(texts(parts@) =~= texts(old(parts)@) + Seq::<Seq<char>>::empty());
        },
    }
}

/// Appends the texts of `blocks` (see `text_parts`) to `parts`.
pub fn collect_block_text(blocks: &Vec<Block>, parts: &mut Vec<String>)
    ensures
        texts(final(parts)@) == texts(old(parts)@) + text_parts(blocks@),
    decreases blocks,
{
    let ghost p0 = texts(parts@);
    let mut i: usize = 0;
    while i < blocks.len()
        invariant
            i <= blocks.len(),
            texts(parts@) == p0 + text_parts(blocks@.subrange(0, i as int)),
        decreases blocks.len() - i,
    {
        proof {
            assert(blocks@.subrange(0, i as int + 1).drop_last() =~= blocks@.subrange(0, i as int));
            assert(blocks@.subrange(0, i as int + 1).last() == blocks@[i as int]);
        }
        let ghost before = texts(parts@);
        collect_one(&blocks[i], parts);
        proof {
            assert(texts(parts@) =~= p0 + text_parts(blocks@.subrange(0, i as int + 1)));
        }
        i += 1;
    }
    proof {
        assert(blocks@.subrange(0, blocks@.len() as int) =~= blocks@);
    }
}

/// The text of `blocks`: their texts (see `text_parts`), one per line.
pub fn block_text(blocks: &Vec<Block>) -> (r: String)
    ensures
        r@ == join_lines(text_parts(blocks@)),
{
    let mut parts: Vec<String> = Vec::new();
    collect_block_text(blocks, &mut parts);
    assert(texts(parts@) =~= text_parts(blocks@));
    let mut out = String::new();
    let mut i: usize = 0;
    while i < parts.len()
        invariant
            i <= parts.len(),
            out@ == join_lines(texts(parts@).subrange(0, i as int)),
        decreases parts.len() - i,
    {
        proof {
            assert(texts(parts@).subrange(0, i as int + 1).drop_last() =~= texts(parts@).subrange(0, i as int));
            assert(texts(parts@).subrange(0, i as int + 1).last() == parts@[i as int]@);
        }
        if i > 0 {
            out.append("\n");
        } else {
            assert(texts(parts@).subrange(0, 1) =~= seq![parts@[0]@]);
        }
        out.append(parts[i].as_str());
        i += 1;
    }
    proof {
        assert(texts(parts@).subrange(0, parts@.len() as int) =~= texts(parts@));
    }
    out
}

/// A note reference met in a story: the note and the block it belongs to.
pub struct NoteReference {
    pub kind: NoteKind,
    pub id: String,
    pub block_id: String,
}

/// The inline events of a paragraph: those of each of its children but its
/// properties, in order.
pub open spec fn paragraph_events(children: Seq<Node>, rels: Relationships) -> Seq<EventView>
    decreases children.len(),
{
    if children.len() == 0 {
        Seq::empty()
    } else {
        paragraph_events(children.drop_last(), rels) + if local_part(children.last().name@) == "pPr"@ {
            Seq::empty()
        } else {
            node_events(children.last(), rels, None).events
        }
    }
}

/// The field machine after one event.
pub open spec fn field_step(st: FieldState, e: EventView) -> FieldState {
    match e {
        EventView::FieldBegin => begin_effect(st, Seq::empty()).state,
        EventView::FieldSeparate => separate_effect(st, Seq::empty(), Seq::empty()).state,
        EventView::FieldEnd => end_effect(st, Seq::empty(), Seq::empty()).state,
        EventView::Instruction(v) => instruction_effect(st, v, Seq::empty(), Seq::empty()).state,
        _ => st,
    }
}

/// The field machine after `events`, from `st`.
pub open spec fn fields_after(events: Seq<EventView>, st: FieldState) -> FieldState
    decreases events.len(),
{
    if events.len() == 0 {
        st
    } else {
        field_step(fields_after(events.drop_last(), st), events.last())
    }
}

/// The text that shows of `events` from `st`: each text event's text where
/// the field machine lets text show at that point, in order.
pub open spec fn shown_text(events: Seq<EventView>, st: FieldState) -> Seq<char>
    decreases events.len(),
{
    if events.len() == 0 {
        Seq::empty()
    } else {
        shown_text(events.drop_last(), st) + match events.last() {
            EventView::Text(c, _, _) => if shows_text(fields_after(events.drop_last(), st)) {
                c
            } else {
                Seq::empty()
            },
            _ => Seq::empty(),
        }
    }
}

/// The kinds of the markers a section carries only while it is read: its
/// header and footer references and its note references.
pub open spec fn is_marker(kind: Seq<char>) -> bool {
    kind == "__sect_pr"@ || kind == "__note_ref"@
}

/// Every item of `after` of a marker kind has the kind of an item of
/// `before`: reading adds no marker of a new kind.
pub open spec fn no_new_markers(before: Seq<HiddenItem>, after: Seq<HiddenItem>) -> bool {
    forall|j: int|
        0 <= j < after.len() && is_marker(#[trigger] after[j].kind@) ==> exists|k: int|
            0 <= k < before.len() && (#[trigger] before[k]).kind@ == after[j].kind@
}

proof fn lemma_markers_refl(h: Seq<HiddenItem>)
    ensures
        no_new_markers(h, h),
{
    assert forall|j: int| 0 <= j < h.len() && is_marker(#[trigger] h[j].kind@) implies exists|k: int|
        0 <= k < h.len() && (#[trigger] h[k]).kind@ == h[j].kind@ by {
        assert(h[j].kind@ == h[j].kind@);
    }
}

proof fn lemma_markers_trans(a: Seq<HiddenItem>, b: Seq<HiddenItem>, c: Seq<HiddenItem>)
    requires
        no_new_markers(a, b),
        no_new_markers(b, c),
    ensures
        no_new_markers(a, c),
{
    assert forall|j: int| 0 <= j < c.len() && is_marker(#[trigger] c[j].kind@) implies exists|k: int|
        0 <= k < a.len() && (#[trigger] a[k]).kind@ == c[j].kind@ by {
        let kb = choose|k: int| 0 <= k < b.len() && (#[trigger] b[k]).kind@ == c[j].kind@;
        assert(is_marker(b[kb].kind@));
        let ka = choose|k: int| 0 <= k < a.len() && (#[trigger] a[k]).kind@ == b[kb].kind@;
        assert(a[ka].kind@ == c[j].kind@);
    }
}

/// Items that keep the kinds of the items before them, or take a kind that
/// is no marker, add no marker.
proof fn lemma_kinds_kept(h: Seq<HiddenItem>, after: Seq<HiddenItem>)
    requires
        forall|j: int|
            0 <= j < after.len() ==> (j < h.len() && (#[trigger] after[j]).kind@ == h[j].kind@) || !is_marker(
                after[j].kind@,
            ),
    ensures
        no_new_markers(h, after),
{
    assert forall|j: int| 0 <= j < after.len() && is_marker(#[trigger] after[j].kind@) implies exists|k: int|
        0 <= k < h.len() && (#[trigger] h[k]).kind@ == after[j].kind@ by {
        assert(h[j].kind@ == after[j].kind@);
    }
}

proof fn lemma_markers_push(h: Seq<HiddenItem>, item: HiddenItem)
    requires
        !is_marker(item.kind@),
    ensures
        no_new_markers(h, h.push(item)),
{
    lemma_kinds_kept(h, h.push(item));
}

proof fn lemma_field_not_marker()
    ensures
        !is_marker("field"@),
        !is_marker("comment"@),
        !is_marker("alt"@),
        !is_marker("footnote"@),
        !is_marker("tracked-insert"@),
        !is_marker("tracked-delete"@),
{
    reveal_strlit("field");
    reveal_strlit("comment");
    reveal_strlit("alt");
    reveal_strlit("footnote");
    reveal_strlit("tracked-insert");
    reveal_strlit("tracked-delete");
    reveal_strlit("__sect_pr");
    reveal_strlit("__note_ref");
    assert("__sect_pr"@[0] == '_' && "__note_ref"@[0] == '_');
    assert("field"@[0] == 'f' && "comment"@[0] == 'c' && "alt"@[0] == 'a' && "footnote"@[0] == 'f');
    assert("tracked-insert"@[0] == 't' && "tracked-delete"@[0] == 't');
}

/// A field machine step records only `field` items.
proof fn lemma_field_items_markers(h: Seq<HiddenItem>, after: Seq<HiddenItem>, target: Seq<char>, t: Seq<char>)
    requires
        items(after) == items(h) || items(after) == items(h).push(("field"@, Some(target), t)) || (exists|
            idx: int,
        |
            0 <= idx < h.len() && items(after) == items(h).update(idx, ("field"@, Some(target), t))),
    ensures
        no_new_markers(h, after),
{
    lemma_field_not_marker();
    assert(items(after).len() == after.len());
    assert(items(h).len() == h.len());
    assert forall|j: int| 0 <= j < after.len() implies (j < h.len() && (#[trigger] after[j]).kind@ == h[j].kind@)
        || !is_marker(after[j].kind@) by {
        assert(items(after)[j] == crate::docx::item_view(after[j]));
        if j < h.len() {
            assert(items(h)[j] == crate::docx::item_view(h[j]));
        }
    }
    lemma_kinds_kept(h, after);
}

proof fn lemma_pushed_field_markers(h: Seq<HiddenItem>, after: Seq<HiddenItem>, target: Seq<char>, i: Seq<char>)
    requires
        items(after) == crate::docx::pushed_field(items(h), target, i),
    ensures
        no_new_markers(h, after),
{
    lemma_field_items_markers(h, after, target, crate::text::trim(i));
}

proof fn lemma_upserted_field_markers(h: Seq<HiddenItem>, after: Seq<HiddenItem>, target: Seq<char>, i: Seq<char>)
    requires
        items(after) == crate::docx::upserted_field(items(h), target, i),
    ensures
        no_new_markers(h, after),
{
    let t = crate::text::trim(i);
    let idx = crate::docx::last_field_at(items(h), target);
    if t.len() != 0 && idx >= 0 {
        crate::docx::lemma_last_field_at_bounds(items(h), target);
        assert(0 <= idx < h.len());
    }
    lemma_field_items_markers(h, after, target, t);
}

proof fn lemma_separate_markers(st: FieldState, target: Seq<char>, h: Seq<HiddenItem>, after: Seq<HiddenItem>)
    requires
        items(after) == separate_effect(st, target, items(h)).hidden,
    ensures
        no_new_markers(h, after),
{
    if st.overflow > 0 || st.stack.len() == 0 {
        lemma_field_items_markers(h, after, target, Seq::empty());
    } else {
        lemma_pushed_field_markers(h, after, target, st.stack.last().0);
    }
}

proof fn lemma_end_markers(st: FieldState, target: Seq<char>, h: Seq<HiddenItem>, after: Seq<HiddenItem>)
    requires
        items(after) == end_effect(st, target, items(h)).hidden,
    ensures
        no_new_markers(h, after),
{
    if st.overflow > 0 || st.stack.len() == 0 {
        lemma_field_items_markers(h, after, target, Seq::empty());
    } else {
        lemma_pushed_field_markers(h, after, target, st.stack.last().0);
    }
}

proof fn lemma_instruction_markers(
    st: FieldState,
    value: Seq<char>,
    target: Seq<char>,
    h: Seq<HiddenItem>,
    after: Seq<HiddenItem>,
)
    requires
        items(after) == instruction_effect(st, value, target, items(h)).hidden,
    ensures
        no_new_markers(h, after),
{
    if st.overflow > 0 {
        lemma_field_items_markers(h, after, target, Seq::empty());
    } else if st.stack.len() > 0 {
        lemma_upserted_field_markers(h, after, target, st.stack.last().0 + value);
    } else {
        lemma_pushed_field_markers(h, after, target, value);
    }
}

/// The hidden events of a paragraph are tracked insertions and deletions.
proof fn lemma_paragraph_tracked(children: Seq<Node>, rels: Relationships)
    ensures
        crate::docx::tracked_kinds(paragraph_events(children, rels)),
    decreases children.len(),
{
    if children.len() > 0 {
        lemma_paragraph_tracked(children.drop_last(), rels);
        let tail = if local_part(children.last().name@) == "pPr"@ {
            Seq::<EventView>::empty()
        } else {
            node_events(children.last(), rels, None).events
        };
        if local_part(children.last().name@) != "pPr"@ {
            crate::docx::lemma_node_tracked(children.last(), rels, None);
        }
        crate::docx::lemma_tracked_concat(paragraph_events(children.drop_last(), rels), tail);
    }
}

/// `item` is a `comment` item with text `content` on block `target`.
pub open spec fn is_comment_on(item: HiddenItem, target: Seq<char>, content: Seq<char>) -> bool {
    &&& item.kind@ == "comment"@
    &&& item.content@ == content
    &&& item.element matches Some(e) && e@ == target
}

fn has_comment(hidden: &Vec<HiddenItem>, target: &str, content: &str) -> (r: bool)
    ensures
        r == exists|i: int| 0 <= i < hidden@.len() && is_comment_on(#[trigger] hidden@[i], target@, content@),
{
    let mut i: usize = 0;
    while i < hidden.len()
        invariant
            i <= hidden.len(),
            forall|k: int| 0 <= k < i ==> !is_comment_on(#[trigger] hidden@[k], target@, content@),
        decreases hidden.len() - i,
    {
        let item = &hidden[i];
        if str_eq(item.kind.as_str(), "comment") && str_eq(item.content.as_str(), content) {
            match &item.element {
                Some(e) => if str_eq(e.as_str(), target) {
                    assert(is_comment_on(hidden@[i as int], target@, content@));
                    return true;
                },
                None => {},
            }
        }
        i += 1;
    }
    false
}

/// The texts of `parts`, one after another.
pub open spec fn joined(parts: Seq<&str>) -> Seq<char>
    decreases parts.len(),
{
    if parts.len() == 0 {
        Seq::empty()
    } else {
        joined(parts.drop_last()) + parts.last()@
    }
}

fn text_of(parts: &[&str]) -> (r: String)
    ensures
        r@ == joined(parts@),
{
    let mut out: Vec<char> = Vec::new();
    let mut i: usize = 0;
    assert(parts@.subrange(0, 0) =~= Seq::<&str>::empty());
    while i < parts.len()
        invariant
            i <= parts.len(),
            out@ == joined(parts@.subrange(0, i as int)),
        decreases parts.len() - i,
    {
        proof {
            let p = parts@.subrange(0, i + 1);
            assert(p.drop_last() =~= parts@.subrange(0, i as int));
        }
        push_str(&mut out, parts[i]);
        i += 1;
    }
    assert(parts@.subrange(0, parts@.len() as int) =~= parts@);
    string_of(&out)
}

fn with_number(before: &str, n: usize, after: &str) -> (r: String)
    ensures
        r@ == before@ + decimal(n as nat) + after@,
{
    let mut out: Vec<char> = Vec::new();
    push_str(&mut out, before);
    push_decimal(&mut out, n as u64);
    push_str(&mut out, after);
    assert(out@ =~= before@ + decimal(n as nat) + after@);
    string_of(&out)
}

/// The run properties a numbering level gives its paragraph's runs.
fn list_run(list: &Option<ResolvedList>) -> (r: Option<&RunProps>)
    ensures
        match *list {
            Some(l) => match l.run {
                Some(x) => r == Some(&x),
                None => r is None,
            },
            None => r is None,
        },
{
    match list {
        Some(l) => match &l.run {
            Some(x) => Some(x),
            None => None,
        },
        None => None,
    }
}

proof fn lemma_fields_step(ev: Seq<EventView>, i: int, st: FieldState)
    requires
        0 <= i < ev.len(),
    ensures
        fields_after(ev.subrange(0, i + 1), st) == field_step(fields_after(ev.subrange(0, i), st), ev[i]),
        shown_text(ev.subrange(0, i + 1), st) == shown_text(ev.subrange(0, i), st) + match ev[i] {
            EventView::Text(c, _, _) => if shows_text(fields_after(ev.subrange(0, i), st)) {
                c
            } else {
                Seq::empty()
            },
            _ => Seq::empty(),
        },
{
    assert(ev.subrange(0, i + 1).drop_last() =~= ev.subrange(0, i));
    assert(ev.subrange(0, i + 1).last() == ev[i]);
}

/// `li` is the list membership `v` describes.
pub open spec fn list_info_is(li: ListInfo, v: ListView) -> bool {
    li.list_id@ == v.list_id && li.level == v.level && li.kind == v.kind && li.label@ == v.label
}

/// The list membership a paragraph takes: what numbering its style's
/// numbering reference next gives, with the counters `counters`.
pub open spec fn paragraph_list(styles: Styles, numbering: Numbering, counters: Counters, paragraph: Node) -> Option<
    ListView,
> {
    let style = paragraph_of(styles, child_node(paragraph, "pPr"@)).0;
    match style.num_id {
        Some(id) => next_outcome(numbering, counter_at(counters, id), id, style.num_level).list,
        None => None,
    }
}

/// `b` is a paragraph block whose list membership is `v`.
pub open spec fn carries_list(b: Block, v: ListView) -> bool {
    match b {
        Block::Paragraph { list: Some(li), .. } => list_info_is(li, v),
        _ => false,
    }
}

/// `b` is a paragraph block with the role `role` and the list membership `l`.
pub open spec fn paragraph_with(b: Block, role: Seq<char>, l: Option<ListInfo>) -> bool {
    match b {
        Block::Paragraph { role: r, list, .. } => r@ == role && list == l,
        _ => false,
    }
}

/// The paragraph blocks among `blocks` all have the role `role`; any list
/// membership they carry is `lv`; and (unless `first`, when there is no
/// paragraph block yet) one of them carries `lv` where it is a membership.
pub open spec fn paragraph_marks(blocks: Seq<Block>, role: Seq<char>, lv: Option<ListView>, first: bool) -> bool {
    &&& forall|k: int|
        0 <= k < blocks.len() ==> (#[trigger] blocks[k] matches Block::Paragraph { role: r, list: l, .. } ==> r@
            == role && (l matches Some(li) ==> lv matches Some(v) && list_info_is(li, v)))
    &&& (first ==> forall|k: int| 0 <= k < blocks.len() ==> !(#[trigger] blocks[k] is Paragraph))
    &&& (!first && lv is Some ==> exists|k: int| 0 <= k < blocks.len() && carries_list(#[trigger] blocks[k], lv->Some_0))
}

/// The list a segment's first paragraph takes, as `lv` describes it.
pub open spec fn list_as(list: Option<ResolvedList>, lv: Option<ListView>) -> bool {
    match list {
        Some(rl) => lv matches Some(v) && list_info_is(rl.info, v),
        None => lv is None,
    }
}

proof fn lemma_marks_flush(
    before: Seq<Block>,
    after: Seq<Block>,
    role: Seq<char>,
    list: Option<ResolvedList>,
    lv: Option<ListView>,
    first: bool,
    first_after: bool,
)
    requires
        paragraph_marks(before, role, lv, first),
        list_as(list, lv),
        (after == before && first_after == first) || (after.drop_last() == before && after.len() == before.len() + 1
            && !first_after && paragraph_with(after.last(), role, segment_list(first, list))),
    ensures
        paragraph_marks(after, role, lv, first_after),
{
    if !(after == before && first_after == first) {
        assert forall|k: int| 0 <= k < before.len() implies after[k] == before[k] by {
            assert(after.drop_last()[k] == before[k]);
        }
        if first && lv is Some {
            assert(carries_list(after[after.len() - 1], lv->Some_0));
        }
        if !first && lv is Some {
            let k = choose|k: int| 0 <= k < before.len() && carries_list(#[trigger] before[k], lv->Some_0);
            assert(after[k] == before[k]);
        }
    }
}

proof fn lemma_marks_other(before: Seq<Block>, b: Block, role: Seq<char>, lv: Option<ListView>, first: bool)
    requires
        paragraph_marks(before, role, lv, first),
        !(b is Paragraph),
    ensures
        paragraph_marks(before.push(b), role, lv, first),
{
    let after = before.push(b);
    assert forall|k: int| 0 <= k < before.len() implies after[k] == before[k] by {}
    if !first && lv is Some {
        let k = choose|k: int| 0 <= k < before.len() && carries_list(#[trigger] before[k], lv->Some_0);
        assert(after[k] == before[k]);
    }
}

/// Reads a paragraph into blocks. Its inline events (see
/// `paragraph_events`) are read in order: text that shows (see
/// `shown_text`) is formatted and merged into runs; field characters and
/// instructions drive the field machine; tracked changes and comments
/// become hidden items on the block being read; note references are
/// recorded; breaks and page hints end the current segment (page hints move
/// to the next page where pages are tracked); drawings end a segment that
/// has runs and become image or text box blocks. The paragraph text of the
/// result is exactly the text that shows.
#[verifier::rlimit(100)]
pub fn extract_paragraph(
    paragraph: &Node,
    rels: &Relationships,
    ids: &mut IdAllocator,
    state: &mut StoryState,
    hidden: &mut Vec<HiddenItem>,
    note_refs: &mut Vec<NoteReference>,
    ctx: &mut Context,
    textbox_depth: usize,
    track_pages: bool,
) -> (r: Result<Vec<Block>, ExtractError>)
    requires
        old(state).wf(),
        textbox_depth <= MAX_TEXTBOX_DEPTH,
    ensures
        final(state).wf(),
        final(state).block_count == old(state).block_count,
        final(state).current_page >= old(state).current_page,
        final(ids).prefix == old(ids).prefix,
        final(ids).next >= old(ids).next,
        same_sources(*final(ctx), *old(ctx)),
        grows(texts(old(ctx).warnings@), texts(final(ctx).warnings@)),
        r matches Ok(blocks) ==> {
            let ev = paragraph_events(paragraph.children@, *rels);
            let st = field_state(old(state).fields);
            &&& para_text(blocks@) == shown_text(ev, st)
            &&& field_state(final(state).fields) == fields_after(ev, st)
            &&& all_paragraphs_wf(blocks@)
            &&& ({
                let role = paragraph_of(old(ctx).styles, child_node(*paragraph, "pPr"@)).0.role;
                let lv = paragraph_list(old(ctx).styles, old(ctx).numbering, old(state).counters, *paragraph);
                paragraph_marks(blocks@, role, lv, false) || paragraph_marks(blocks@, role, lv, true)
            })
        },
        no_new_markers(old(hidden)@, final(hidden)@),
        r matches Err(e) ==> e is ParseFailure && has_escaping_target(*rels),
    decreases MAX_TEXTBOX_DEPTH - textbox_depth, 1nat,
{
    let ghost ctx0 = *ctx;
    let ghost w0 = texts(ctx.warnings@);
    let ghost st0 = field_state(state.fields);
    let p_pr = paragraph.child("pPr");
    let style = ctx.styles.paragraph(p_pr, &mut ctx.warnings);
    let list = match &style.num_id {
        Some(num_id) => ctx.numbering.next(&mut state.counters, num_id.as_str(), style.num_level, &mut ctx.warnings),
        None => None,
    };
    let ghost lv = paragraph_list(ctx0.styles, ctx0.numbering, old(state).counters, *paragraph);
    proof {
        assert(list_as(list, lv));
    }
    proof {
        let w = texts(ctx.warnings@);
        assert(w =~= w0 + w.subrange(w0.len() as int, w.len() as int));
        lemma_grows_append(w0, w.subrange(w0.len() as int, w.len() as int));
    }
    let mut events: Vec<InlineEvent> = Vec::new();
    let mut c: usize = 0;
    while c < paragraph.children.len()
        invariant
            c <= paragraph.children.len(),
            event_views(events@) == paragraph_events(paragraph.children@.subrange(0, c as int), *rels),
            ctx0 == *old(ctx),
            w0 == texts(old(ctx).warnings@),
            same_sources(*ctx, ctx0),
            grows(w0, texts(ctx.warnings@)),
        decreases paragraph.children.len() - c,
    {
        let child = &paragraph.children[c];
        proof {
            let sub = paragraph.children@.subrange(0, c as int + 1);
            assert(sub.drop_last() =~= paragraph.children@.subrange(0, c as int));
            assert(sub.last() == paragraph.children@[c as int]);
        }
        let ghost wb = texts(ctx.warnings@);
        let ghost eb = event_views(events@);
        if !str_eq(child.local_name().as_str(), "pPr") {
            collect_inline_events(child, rels, None, &mut events, &mut ctx.warnings);
            proof {
                let x = node_events(*child, *rels, None);
                lemma_grows_append(wb, x.warnings);
                lemma_grows_trans(w0, wb, texts(ctx.warnings@));
            }
        } else {
            assert(event_views(events@) =~= eb + Seq::<EventView>::empty());
        }
        c += 1;
    }
    proof {
        assert(paragraph.children@.subrange(0, paragraph.children@.len() as int) =~= paragraph.children@);
    }
    let ghost ev = event_views(events@);
    let mut blocks: Vec<Block> = Vec::new();
    let mut runs: Vec<TextRun> = Vec::new();
    let mut first_segment = true;
    let mut emitted_any = false;
    if style.page_break_before {
        state.pending_breaks.push(BreakKind::Page);
    }
    let ghost prefix0 = ids.prefix;
    let ghost next0 = ids.next;
    let ghost count0 = state.block_count;
    let mut i: usize = 0;
    proof {
        assert(ev.subrange(0, 0) =~= Seq::<EventView>::empty());
        lemma_paragraph_tracked(paragraph.children@, *rels);
        lemma_markers_refl(hidden@);
        lemma_field_not_marker();
    }
    while i < events.len()
        invariant
            i <= events.len(),
            ev == event_views(events@),
            ev == paragraph_events(paragraph.children@, *rels),
            crate::docx::tracked_kinds(ev),
            no_new_markers(old(hidden)@, hidden@),
            textbox_depth <= MAX_TEXTBOX_DEPTH,
            state.wf(),
            state.block_count == count0,
            state.current_page >= old(state).current_page,
            field_state(state.fields) == fields_after(ev.subrange(0, i as int), st0),
            para_text(blocks@) + runs_text(runs@) == shown_text(ev.subrange(0, i as int), st0),
            all_paragraphs_wf(blocks@),
            list_as(list, lv),
            paragraph_marks(blocks@, style.role@, lv, first_segment),
            ids.prefix == prefix0,
            ids.next >= next0,
            prefix0 == old(ids).prefix,
            next0 == old(ids).next,
            count0 == old(state).block_count,
            ctx0 == *old(ctx),
            w0 == texts(old(ctx).warnings@),
            same_sources(*ctx, ctx0),
            grows(w0, texts(ctx.warnings@)),
        decreases events.len() - i,
    {
        proof {
            lemma_fields_step(ev, i as int, st0);
            assert(ev[i as int] == event_view(events@[i as int]));
        }
        let target = ids.peek();
        let ghost wb = texts(ctx.warnings@);
        let ghost fb = field_state(state.fields);
        match &events[i] {
            InlineEvent::Text { content, properties, href } => {
                if state.fields.visible() && !content.as_str().is_empty() {
                    let props: Option<&Node> = match properties {
                        Some(p) => Some(p),
                        None => None,
                    };
                    let resolved = ctx.styles.resolve_run(&style, list_run(&list), props, &ctx.theme, &mut ctx.warnings);
                    proof {
                        let w = texts(ctx.warnings@);
                        assert(w =~= wb + w.subrange(wb.len() as int, w.len() as int));
                        lemma_grows_append(wb, w.subrange(wb.len() as int, w.len() as int));
                        lemma_grows_trans(w0, wb, w);
                    }
                    let link = match href {
                        Some(h) => Some(h.clone()),
                        None => None,
                    };
                    let run = make_run(content.clone(), resolved, link, &ctx.numbers);
                    merge_run(&mut runs, run);
                } else {
                    proof {
                        if content@.len() == 0 {
                            assert(content@ =~= Seq::<char>::empty());
                        }
                    }
                }
            },
            InlineEvent::FieldBegin => {
                state.fields.begin(&mut ctx.warnings);
                proof {
                    lemma_grows_append(wb, begin_effect(fb, Seq::empty()).warnings);
                    lemma_grows_trans(w0, wb, texts(ctx.warnings@));
                }
            },
            InlineEvent::FieldSeparate => {
                let ghost hbefore = hidden@;
                state.fields.separate(target.as_str(), hidden, &mut ctx.warnings);
                proof {
                    lemma_separate_markers(fb, target@, hbefore, hidden@);
                    lemma_markers_trans(old(hidden)@, hbefore, hidden@);
                    let e = separate_effect(fb, target@, items(old(hidden)@));
                    lemma_grows_append(wb, separate_effect(fb, target@, items(hidden@)).warnings);
                    lemma_grows_trans(w0, wb, texts(ctx.warnings@));
                }
            },
            InlineEvent::FieldEnd => {
                let ghost hb = items(hidden@);
                let ghost hbefore = hidden@;
                state.fields.end(target.as_str(), hidden, &mut ctx.warnings);
                proof {
                    lemma_end_markers(fb, target@, hbefore, hidden@);
                    lemma_markers_trans(old(hidden)@, hbefore, hidden@);
                    lemma_grows_append(wb, end_effect(fb, target@, hb).warnings);
                    lemma_grows_trans(w0, wb, texts(ctx.warnings@));
                }
            },
            InlineEvent::Instruction(value) => {
                let ghost hb = items(hidden@);
                let ghost hbefore = hidden@;
                state.fields.instruction(value.as_str(), target.as_str(), hidden, &mut ctx.warnings);
                proof {
                    lemma_instruction_markers(fb, value@, target@, hbefore, hidden@);
                    lemma_markers_trans(old(hidden)@, hbefore, hidden@);
                    lemma_grows_append(wb, instruction_effect(fb, value@, target@, hb).warnings);
                    lemma_grows_trans(w0, wb, texts(ctx.warnings@));
                }
            },
            InlineEvent::Hidden { kind, content } => {
                let ghost hbefore = hidden@;
                hidden.push(HiddenItem { kind: kind.clone(), element: Some(target), content: content.clone() });
                proof {
                    lemma_grows_refl(wb);
                    lemma_field_not_marker();
                    assert(ev[i as int] == EventView::Hidden(kind@, content@));
                    assert(hidden@.last().kind@ == kind@);
                    assert(hidden@ == hbefore.push(hidden@.last()));
                    lemma_markers_push(hbefore, hidden@.last());
                    lemma_markers_trans(old(hidden)@, hbefore, hidden@);
                }
            },
            InlineEvent::Comment(id) => {
                match ctx.comments.get(id.as_str()) {
                    Some(content) => {
                        if !has_comment(hidden, target.as_str(), content.as_str()) {
                            let ghost hbefore = hidden@;
                            hidden.push(HiddenItem {
                                kind: "comment".to_string(),
                                element: Some(target),
                                content: content.clone(),
                            });
                            proof {
                                lemma_field_not_marker();
                                assert(hidden@.last().kind@ == "comment"@);
                                assert(hidden@ == hbefore.push(hidden@.last()));
                                lemma_markers_push(hbefore, hidden@.last());
                                lemma_markers_trans(old(hidden)@, hbefore, hidden@);
                            }
                        }
                        proof {
                            lemma_grows_refl(wb);
                        }
                    },
                    None => {
                        let m = quoted_message("comment ", id.as_str(), " is referenced but missing");
                        ctx.warnings.push(m);
                        proof {
                            assert(texts(ctx.warnings@) =~= wb + seq![m@]);
                            lemma_grows_append(wb, seq![m@]);
                            lemma_grows_trans(w0, wb, texts(ctx.warnings@));
                        }
                    },
                }
            },
            InlineEvent::Note(kind, id) => {
                note_refs.push(NoteReference { kind: *kind, id: id.clone(), block_id: target });
            },
            InlineEvent::Break(kind) => {
                let ghost bb = blocks@;
                let ghost fb0 = first_segment;
                flush_paragraph_segment(
                    &mut blocks,
                    &mut runs,
                    &style,
                    &list,
                    &mut first_segment,
                    ids,
                    state,
                    track_pages,
                    &mut emitted_any,
                    ctx,
                );
                proof {
                    lemma_marks_flush(bb, blocks@, style.role@, list, lv, fb0, first_segment);
                }
                proof {
                    lemma_grows_trans(w0, wb, texts(ctx.warnings@));
                }
                state.pending_breaks.push(*kind);
            },
            InlineEvent::PageHint => {
                let ghost bb = blocks@;
                let ghost fb0 = first_segment;
                flush_paragraph_segment(
                    &mut blocks,
                    &mut runs,
                    &style,
                    &list,
                    &mut first_segment,
                    ids,
                    state,
                    track_pages,
                    &mut emitted_any,
                    ctx,
                );
                proof {
                    lemma_marks_flush(bb, blocks@, style.role@, list, lv, fb0, first_segment);
                }
                proof {
                    lemma_grows_trans(w0, wb, texts(ctx.warnings@));
                }
                if track_pages {
                    state.current_page = state.current_page.saturating_add(1);
                }
            },
            InlineEvent::Drawing(drawing) => {
                if runs.len() > 0 {
                    let ghost bb = blocks@;
                    let ghost fb0 = first_segment;
                    flush_paragraph_segment(
                        &mut blocks,
                        &mut runs,
                        &style,
                        &list,
                        &mut first_segment,
                        ids,
                        state,
                        track_pages,
                        &mut emitted_any,
                        ctx,
                    );
                    proof {
                        lemma_marks_flush(bb, blocks@, style.role@, list, lv, fb0, first_segment);
                    }
                    proof {
                        lemma_grows_trans(w0, wb, texts(ctx.warnings@));
                    }
                }
                let ghost wd = texts(ctx.warnings@);
                let ghost hbefore = hidden@;
                let made = extract_drawing(drawing, rels, ids, hidden, note_refs, ctx, textbox_depth);
                proof {
                    lemma_markers_trans(old(hidden)@, hbefore, hidden@);
                    lemma_grows_trans(w0, wd, texts(ctx.warnings@));
                }
                match made {
                    Ok(Some(block)) => {
                        let ghost before = blocks@;
                        proof {
                            lemma_marks_other(before, block, style.role@, lv, first_segment);
                        }
                        blocks.push(block);
                        emitted_any = true;
                        proof {
                            assert(blocks@.drop_last() =~= before);
                            assert(para_text(blocks@) == para_text(before));
                            assert forall|k: int| 0 <= k < blocks@.len() implies #[trigger] paragraph_wf(blocks@[k]) by {
                                if k < before.len() {
                                    assert(blocks@[k] == before[k]);
                                }
                            }
                        }
                    },
                    Ok(None) => {},
                    Err(e) => {
                        return Err(e);
                    },
                }
            },
        }
        i += 1;
    }
    proof {
        assert(ev.subrange(0, ev.len() as int) =~= ev);
    }
    if runs.len() > 0 || !emitted_any {
        let ghost wb = texts(ctx.warnings@);
        let ghost bb = blocks@;
        let ghost fb0 = first_segment;
        flush_paragraph_segment(
            &mut blocks,
            &mut runs,
            &style,
            &list,
            &mut first_segment,
            ids,
            state,
            track_pages,
            &mut emitted_any,
            ctx,
        );
        proof {
            lemma_marks_flush(bb, blocks@, style.role@, list, lv, fb0, first_segment);
        }
        proof {
            lemma_grows_trans(w0, wb, texts(ctx.warnings@));
        }
    }
    proof {
        assert(runs@.len() == 0);
        assert(runs_text(runs@) =~= Seq::<char>::empty());
        assert(para_text(blocks@) + runs_text(runs@) =~= para_text(blocks@));
    }
    Ok(blocks)
}

impl TextRun {
    pub fn duplicate(&self) -> (r: TextRun)
        ensures
            r == *self,
    {
        TextRun {
            content: self.content.clone(),
            font: Font {
                name: self.font.name.clone(),
                size: match &self.font.size {
                    Some(t) => Some(t.clone()),
                    None => None,
                },
                size_key: self.font.size_key,
                bold: self.font.bold,
                italic: self.font.italic,
            },
            fill: self.fill,
            href: match &self.href {
                Some(t) => Some(t.clone()),
                None => None,
            },
        }
    }
}

/// The runs of the paragraphs among `blocks`, one after another.
pub open spec fn paragraphs_runs(blocks: Seq<Block>) -> Seq<TextRun>
    decreases blocks.len(),
{
    if blocks.len() == 0 {
        Seq::empty()
    } else {
        paragraphs_runs(blocks.drop_last()) + match blocks.last() {
            Block::Paragraph { runs, .. } => runs@,
            _ => Seq::empty(),
        }
    }
}

fn paragraph_runs(blocks: &Vec<Block>) -> (r: Vec<TextRun>)
    ensures
        r@ == paragraphs_runs(blocks@),
{
    let mut out: Vec<TextRun> = Vec::new();
    let mut i: usize = 0;
    assert(blocks@.subrange(0, 0) =~= Seq::<Block>::empty());
    while i < blocks.len()
        invariant
            i <= blocks.len(),
            out@ == paragraphs_runs(blocks@.subrange(0, i as int)),
        decreases blocks.len() - i,
    {
        proof {
            let p = blocks@.subrange(0, i + 1);
            assert(p.drop_last() =~= blocks@.subrange(0, i as int));
            assert(p.last() == blocks@[i as int]);
        }
        match &blocks[i] {
            Block::Paragraph { runs, .. } => {
                let ghost start = out@;
                let mut j: usize = 0;
                while j < runs.len()
                    invariant
                        j <= runs.len(),
                        out@ == start + runs@.subrange(0, j as int),
                    decreases runs.len() - j,
                {
                    out.push(runs[j].duplicate());
                    j += 1;
                    assert(out@ =~= start + runs@.subrange(0, j as int));
                }
                assert(runs@.subrange(0, runs@.len() as int) =~= runs@);
            },
            _ => {
                assert(out@ =~= out@ + Seq::<TextRun>::empty());
            },
        }
        i += 1;
    }
    assert(blocks@.subrange(0, blocks@.len() as int) =~= blocks@);
    out
}

/// Whether some block is neither a paragraph nor a break.
fn holds_other_blocks(blocks: &Vec<Block>) -> (r: bool)
    ensures
        r == exists|i: int| 0 <= i < blocks@.len() && !(#[trigger] blocks@[i] is Paragraph) && !(blocks@[i] is Break),
{
    let mut i: usize = 0;
    while i < blocks.len()
        invariant
            i <= blocks.len(),
            forall|k: int| 0 <= k < i ==> (#[trigger] blocks@[k] is Paragraph) || (blocks@[k] is Break),
        decreases blocks.len() - i,
    {
        match &blocks[i] {
            Block::Paragraph { .. } => {},
            Block::Break { .. } => {},
            _ => {
                return true;
            },
        }
        i += 1;
    }
    false
}

/// The `w:val` of child `name` of an optional node.
fn child_val_in<'a>(n: Option<&'a Node>, name: &str) -> (r: Option<&'a str>)
    ensures
        match attr_of(match n {
            Some(x) => child_node(*x, name@),
            None => None,
        }, "val"@) {
            Some(v) => r matches Some(t) && t@ == v,
            None => r is None,
        },
{
    match opt_child(n, name) {
        Some(c) => c.attr("val"),
        None => None,
    }
}

/// Every cell lies in one of the `rows` rows, spans at least one row and one
/// column, and ends within the `cols` columns (which saturate at the
/// largest `usize`).
pub open spec fn cells_fit(cells: Seq<FlowTableCell>, rows: nat, cols: nat) -> bool {
    forall|i: int|
        0 <= i < cells.len() ==> {
            &&& (#[trigger] cells[i]).row < rows
            &&& 1 <= cells[i].col_span
            &&& 1 <= cells[i].row_span
            &&& (cells[i].col + cells[i].col_span <= cols || cols == usize::MAX)
        }
}

/// Where a cell stands: row, column, row span and column span.
pub open spec fn geo(c: FlowTableCell) -> (usize, usize, usize, usize) {
    (c.row, c.col, c.row_span, c.col_span)
}

pub open spec fn geos(cs: Seq<FlowTableCell>) -> Seq<(usize, usize, usize, usize)> {
    cs.map_values(|c: FlowTableCell| geo(c))
}

pub open spec fn sat_add(a: usize, b: usize) -> usize {
    if a + b > usize::MAX {
        usize::MAX
    } else {
        (a + b) as usize
    }
}

/// The grid columns a `tc` spans: its `gridSpan`, read as a number and held
/// between 1 and 10000, else 1.
pub open spec fn cell_span(tc: Node) -> usize {
    let props = child_node(tc, "tcPr"@);
    let authored = attr_of(
        match props {
            Some(p) => child_node(p, "gridSpan"@),
            None => None,
        },
        "val"@,
    );
    let parsed = match authored {
        Some(v) => match parse_unsigned(v, 10) {
            Some(n) => if n <= usize::MAX {
                Some(n)
            } else {
                None
            },
            None => None,
        },
        None => None,
    };
    match parsed {
        Some(n) => if n < 1 {
            1
        } else if n > 10000 {
            10000
        } else {
            n as usize
        },
        None => 1,
    }
}

/// A `tc` that continues the vertical merge of the cell above it.
pub open spec fn continues_merge(tc: Node) -> bool {
    match child_node(tc, "tcPr"@) {
        Some(p) => match child_node(p, "vMerge"@) {
            Some(m) => match attr_chars(m, "val"@) {
                Some(v) => v == "continue"@,
                None => true,
            },
            None => false,
        },
        None => false,
    }
}

pub open spec fn bump(g: (usize, usize, usize, usize)) -> (usize, usize, usize, usize) {
    (g.0, g.1, sat_add(g.2, 1), g.3)
}

/// A vertical-merge continuation at `column` spanning `span`: the last
/// cell so far at that column with that span grows by one row; none where
/// there is no such cell.
pub open spec fn merge_last(cs: Seq<(usize, usize, usize, usize)>, column: usize, span: usize) -> Option<
    Seq<(usize, usize, usize, usize)>,
>
    decreases cs.len(),
{
    if cs.len() == 0 {
        None
    } else if cs.last().1 == column && cs.last().3 == span {
        Some(cs.drop_last().push(bump(cs.last())))
    } else {
        match merge_last(cs.drop_last(), column, span) {
            Some(x) => Some(x.push(cs.last())),
            None => None,
        }
    }
}

/// The cells after laying out the `tc`s of row `row` from the cells
/// `start`, with the column reached.
pub open spec fn row_layout(start: Seq<(usize, usize, usize, usize)>, row: usize, tcs: Seq<Node>) -> (
    Seq<(usize, usize, usize, usize)>,
    usize,
)
    decreases tcs.len(),
{
    if tcs.len() == 0 {
        (start, 0)
    } else {
        let prev = row_layout(start, row, tcs.drop_last());
        let tc = tcs.last();
        let span = cell_span(tc);
        if continues_merge(tc) {
            (
                match merge_last(prev.0, prev.1, span) {
                    Some(x) => x,
                    None => prev.0,
                },
                sat_add(prev.1, span),
            )
        } else {
            (prev.0.push((row, prev.1, 1usize, span)), sat_add(prev.1, span))
        }
    }
}

/// Where the cells of a table with the rows `rows` stand: one cell for each
/// `tc` that does not continue a vertical merge, at its row and the column
/// that the spans before it reach, with its span; a continuation lengthens
/// the cell above it.
pub open spec fn table_layout(rows: Seq<Node>) -> Seq<(usize, usize, usize, usize)>
    decreases rows.len(),
{
    if rows.len() == 0 {
        Seq::empty()
    } else {
        row_layout(table_layout(rows.drop_last()), (rows.len() - 1) as usize, all_named(rows.last().children@, "tc"@)).0
    }
}

proof fn lemma_merge_at(cs: Seq<(usize, usize, usize, usize)>, column: usize, span: usize, q: int)
    requires
        0 <= q < cs.len(),
        cs[q].1 == column && cs[q].3 == span,
        forall|k: int| q < k < cs.len() ==> !(cs[k].1 == column && cs[k].3 == span),
    ensures
        merge_last(cs, column, span) == Some(cs.update(q, bump(cs[q]))),
    decreases cs.len(),
{
    if q == cs.len() - 1 {
        assert(cs.drop_last().push(bump(cs.last())) =~= cs.update(q, bump(cs[q])));
    } else {
        let d = cs.drop_last();
        assert(!(cs.last().1 == column && cs.last().3 == span));
        lemma_merge_at(d, column, span, q);
        assert(d.update(q, bump(d[q])).push(cs.last()) =~= cs.update(q, bump(cs[q])));
    }
}

proof fn lemma_merge_none(cs: Seq<(usize, usize, usize, usize)>, column: usize, span: usize)
    requires
        forall|k: int| 0 <= k < cs.len() ==> !(cs[k].1 == column && cs[k].3 == span),
    ensures
        merge_last(cs, column, span) is None,
    decreases cs.len(),
{
    if cs.len() > 0 {
        lemma_merge_none(cs.drop_last(), column, span);
    }
}

/// Reads a table: its id, the valid authored column widths of its grid, its
/// rows, and a cell for each `tc` that is not a vertical-merge continuation
/// (a continuation lengthens the nearest earlier cell of its column and
/// span). A cell's paragraphs and tables (nested up to
/// `MAX_TEXTBOX_DEPTH`) are read as a story of their own; the cell keeps its
/// text, its paragraphs' runs, and its blocks where it holds more than
/// paragraphs. A floating table keeps its position.
#[verifier::rlimit(100)]
/// The authored column widths of a table grid: the width of each grid
/// column that reads as a finite number, in order.
pub open spec fn widths_of(columns: Seq<Node>, numbers: Numbers) -> Seq<Seq<char>>
    decreases columns.len(),
{
    if columns.len() == 0 {
        Seq::empty()
    } else {
        let rest = widths_of(columns.drop_last(), numbers);
        match measured(numbers, attr_chars(columns.last(), "w"@)) {
            Some(w) => rest.push(w),
            None => rest,
        }
    }
}

/// The authored column widths of a table (none without a grid).
pub open spec fn grid_widths(table: Node, numbers: Numbers) -> Seq<Seq<char>> {
    match child_node(table, "tblGrid"@) {
        Some(g) => widths_of(all_named(g.children@, "gridCol"@), numbers),
        None => Seq::empty(),
    }
}

pub fn extract_table(
    table: &Node,
    rels: &Relationships,
    ids: &mut IdAllocator,
    hidden: &mut Vec<HiddenItem>,
    note_refs: &mut Vec<NoteReference>,
    ctx: &mut Context,
    depth: usize,
) -> (r: Result<Block, ExtractError>)
    requires
        depth <= MAX_TEXTBOX_DEPTH,
    ensures
        final(ids).prefix == old(ids).prefix,
        final(ids).next >= old(ids).next,
        same_sources(*final(ctx), *old(ctx)),
        grows(texts(old(ctx).warnings@), texts(final(ctx).warnings@)),
        r matches Ok(b) ==> b matches Block::Table { id, rows, cols, cells, col_widths, .. } && id@ == block_id(
            old(ids).prefix@,
            old(ids).next as nat,
        ) && rows == all_named(table.children@, "tr"@).len() && cells_fit(cells@, rows as nat, cols as nat)
            && cols >= col_widths@.len() && texts(col_widths@) == grid_widths(*table, old(ctx).numbers)
            && geos(cells@) == table_layout(all_named(table.children@, "tr"@)),
        no_new_markers(old(hidden)@, final(hidden)@),
        r matches Err(e) ==> e is ParseFailure && has_escaping_target(*rels),
    decreases MAX_TEXTBOX_DEPTH - depth, 2nat,
{
    let ghost ctx0 = *ctx;
    let ghost w0 = texts(ctx.warnings@);
    proof {
        lemma_grows_refl(w0);
        lemma_markers_refl(hidden@);
    }
    let id = ids.next();
    let ghost prefix0 = ids.prefix;
    let ghost next1 = ids.next;
    let grid = table.child("tblGrid");
    let mut col_widths: Vec<String> = Vec::new();
    match grid {
        Some(g) => {
            let columns = g.children_named("gridCol");
            let ghost cv = columns@.map_values(|n: &Node| *n);
            let mut k: usize = 0;
            proof {
                reveal_strlit("w");
                assert(texts(col_widths@) =~= widths_of(cv.subrange(0, 0), ctx.numbers));
            }
            while k < columns.len()
                invariant
                    k <= columns.len(),
                    cv == columns@.map_values(|n: &Node| *n),
                    texts(col_widths@) == widths_of(cv.subrange(0, k as int), ctx.numbers),
                decreases columns.len() - k,
            {
                let ghost p = cv.subrange(0, k as int + 1);
                proof {
                    assert(p.drop_last() =~= cv.subrange(0, k as int));
                    assert(p.last() == *columns@[k as int]);
                }
                let ghost before = col_widths@;
                match finite_text(&ctx.numbers, columns[k].attr("w")) {
                    Some(w) => {
                        col_widths.push(w);
                        proof {
                            assert(texts(col_widths@) =~= texts(before).push(col_widths@.last()@));
                        }
                    },
                    None => {},
                }
                k += 1;
            }
            proof {
                assert(cv.subrange(0, columns.len() as int) =~= cv);
            }
        },
        None => {},
    }
    if grid.is_some() && col_widths.len() == 0 {
        let ghost wb = texts(ctx.warnings@);
        let m = text_of(&[id.as_str(), ": table grid has no valid authored column widths"]);
        ctx.warnings.push(m);
        proof {
            assert(texts(ctx.warnings@) =~= wb + seq![m@]);
            lemma_grows_append(wb, seq![m@]);
            lemma_grows_trans(w0, wb, texts(ctx.warnings@));
        }
    }
    let rows_nodes = table.children_named("tr");
    let ghost rv = rows_nodes@.map_values(|n: &Node| *n);
    proof {
        assert(geos(Seq::<FlowTableCell>::empty()) =~= table_layout(rv.subrange(0, 0)));
    }
    let rows = rows_nodes.len();
    let mut cols = col_widths.len();
    let mut cells: Vec<FlowTableCell> = Vec::new();
    let mut row_index: usize = 0;
    while row_index < rows_nodes.len()
        invariant
            row_index <= rows_nodes.len(),
            rows == rows_nodes.len(),
            cells_fit(cells@, rows as nat, cols as nat),
            cols >= col_widths@.len(),
            texts(col_widths@) == grid_widths(*table, old(ctx).numbers),
            rv == rows_nodes@.map_values(|n: &Node| *n),
            rv == all_named(table.children@, "tr"@),
            geos(cells@) == table_layout(rv.subrange(0, row_index as int)),
            no_new_markers(old(hidden)@, hidden@),
            depth <= MAX_TEXTBOX_DEPTH,
            ids.prefix == prefix0,
            ids.next == next1,
            prefix0 == old(ids).prefix,
            next1 >= old(ids).next,
            ctx0 == *old(ctx),
            w0 == texts(old(ctx).warnings@),
            same_sources(*ctx, ctx0),
            grows(w0, texts(ctx.warnings@)),
        decreases rows_nodes.len() - row_index,
    {
        let row = rows_nodes[row_index];
        let tcs = row.children_named("tc");
        let ghost tv = tcs@.map_values(|n: &Node| *n);
        let ghost g_row = geos(cells@);
        let mut column: usize = 0;
        let mut t: usize = 0;
        proof {
            assert(tv.subrange(0, 0) =~= Seq::<Node>::empty());
        }
        while t < tcs.len()
            invariant
                t <= tcs.len(),
                row_index < rows,
                rows == rows_nodes.len(),
                cells_fit(cells@, rows as nat, cols as nat),
                cols >= col_widths@.len(),
                texts(col_widths@) == grid_widths(*table, old(ctx).numbers),
                rv == rows_nodes@.map_values(|n: &Node| *n),
                rv == all_named(table.children@, "tr"@),
                g_row == table_layout(rv.subrange(0, row_index as int)),
                *row == rv[row_index as int],
                tv == tcs@.map_values(|n: &Node| *n),
                tv == all_named(row.children@, "tc"@),
                geos(cells@) == row_layout(g_row, row_index, tv.subrange(0, t as int)).0,
                column == row_layout(g_row, row_index, tv.subrange(0, t as int)).1,
                no_new_markers(old(hidden)@, hidden@),
                depth <= MAX_TEXTBOX_DEPTH,
                ids.prefix == prefix0,
                ids.next == next1,
                prefix0 == old(ids).prefix,
                next1 >= old(ids).next,
                ctx0 == *old(ctx),
                w0 == texts(old(ctx).warnings@),
                same_sources(*ctx, ctx0),
                grows(w0, texts(ctx.warnings@)),
            decreases tcs.len() - t,
        {
            let cell = tcs[t];
            let ghost pre = tv.subrange(0, t as int);
            let ghost g_before = geos(cells@);
            proof {
                assert(tv.subrange(0, t as int + 1).drop_last() =~= pre);
                assert(tv.subrange(0, t as int + 1).last() == *cell);
                reveal_strlit("continue");
            }
            let properties = cell.child("tcPr");
            let parsed_span = match child_val_in(properties, "gridSpan") {
                Some(v) => crate::text::parse_usize(v),
                None => None,
            };
            let mut span: usize = match parsed_span {
                Some(v) => v,
                None => 1,
            };
            if span < 1 {
                span = 1;
            }
            if span > 10_000 {
                span = 10_000;
            }
            let reach = column.saturating_add(span);
            if reach > cols {
                cols = reach;
            }
            let merge = match opt_child(properties, "vMerge") {
                Some(m) => Some(
                    match m.attr("val") {
                        Some(v) => v,
                        None => "continue",
                    },
                ),
                None => None,
            };
            let continues = match merge {
                Some(v) => str_eq(v, "continue"),
                None => false,
            };
            proof {
                assert(span == cell_span(*cell));
                assert(continues == continues_merge(*cell));
            }
            if continues {
                let mut found = false;
                let mut q: usize = cells.len();
                let ghost n_cells = cells@.len();
                while q > 0
                    invariant_except_break
                        !found,
                        geos(cells@) == g_before,
                        forall|k: int| q <= k < n_cells ==> !(g_before[k].1 == column && g_before[k].3 == span),
                    invariant
                        q <= cells.len(),
                        cells.len() == n_cells,
                        n_cells == g_before.len(),
                        cells_fit(cells@, rows as nat, cols as nat),
                    ensures
                        cells_fit(cells@, rows as nat, cols as nat),
                        found ==> merge_last(g_before, column, span) == Some(geos(cells@)),
                        !found ==> geos(cells@) == g_before && forall|k: int|
                            0 <= k < n_cells ==> !(g_before[k].1 == column && g_before[k].3 == span),
                    decreases q,
                {
                    q -= 1;
                    if cells[q].col == column && cells[q].col_span == span {
                        let ghost before = cells@;
                        proof {
                            assert(g_before[q as int] == geo(before[q as int]));
                            lemma_merge_at(g_before, column, span, q as int);
                        }
                        let mut anchor = cells.remove(q);
                        anchor.row_span = anchor.row_span.saturating_add(1);
                        cells.insert(q, anchor);
                        proof {
                            assert(geos(cells@) =~= g_before.update(q as int, bump(g_before[q as int])));
                            assert forall|i: int| 0 <= i < cells@.len() implies {
                                &&& (#[trigger] cells@[i]).row < rows
                                &&& 1 <= cells@[i].col_span
                                &&& 1 <= cells@[i].row_span
                                &&& (cells@[i].col + cells@[i].col_span <= cols || cols == usize::MAX)
                            } by {
                                if i != q {
                                    assert(cells@[i] == before[i]);
                                }
                            }
                        }
                        found = true;
                        break;
                    }
                }
                if !found {
                    let mut out: Vec<char> = Vec::new();
                    push_str(&mut out, id.as_str());
                    push_str(&mut out, ": vertical-merge continuation at row ");
                    push_decimal(&mut out, row_index as u64);
                    push_str(&mut out, ", column ");
                    push_decimal(&mut out, column as u64);
                    push_str(&mut out, " has no anchor");
                    let ghost wb = texts(ctx.warnings@);
                    let m = string_of(&out);
                    ctx.warnings.push(m);
                    proof {
                        assert(texts(ctx.warnings@) =~= wb + seq![m@]);
                        lemma_grows_append(wb, seq![m@]);
                        lemma_grows_trans(w0, wb, texts(ctx.warnings@));
                    }
                }
                proof {
                    if !found {
                        lemma_merge_none(g_before, column, span);
                    }
                }
                column = column.saturating_add(span);
                t += 1;
                continue;
            }
            let mut cell_state = StoryState::new();
            let mut prefix: Vec<char> = Vec::new();
            push_str(&mut prefix, id.as_str());
            push_str(&mut prefix, "-c");
            push_decimal(&mut prefix, row_index as u64);
            push_str(&mut prefix, "-");
            push_decimal(&mut prefix, column as u64);
            push_str(&mut prefix, "-b");
            let mut cell_ids = IdAllocator::new(string_of(&prefix));
            let mut blocks: Vec<Block> = Vec::new();
            let mut has_nested = false;
            let mut k: usize = 0;
            while k < cell.children.len()
                invariant
                    k <= cell.children.len(),
                    depth <= MAX_TEXTBOX_DEPTH,
                    cell_state.wf(),
                    no_new_markers(old(hidden)@, hidden@),
                    ids.prefix == prefix0,
                    ids.next == next1,
                    prefix0 == old(ids).prefix,
                    next1 >= old(ids).next,
                    ctx0 == *old(ctx),
                    w0 == texts(old(ctx).warnings@),
                    same_sources(*ctx, ctx0),
                    grows(w0, texts(ctx.warnings@)),
                decreases cell.children.len() - k,
            {
                let child = &cell.children[k];
                let name = child.local_name();
                let ghost wb = texts(ctx.warnings@);
                let ghost hb = hidden@;
                if str_eq(name.as_str(), "p") {
                    let got = extract_paragraph(
                        child,
                        rels,
                        &mut cell_ids,
                        &mut cell_state,
                        hidden,
                        note_refs,
                        ctx,
                        depth,
                        false,
                    );
                    let ghost wm = texts(ctx.warnings@);
                    proof {
                        lemma_grows_trans(w0, wb, wm);
                        lemma_markers_trans(old(hidden)@, hb, hidden@);
                    }
                    let mut parsed = match got {
                        Ok(v) => v,
                        Err(e) => {
                            return Err(e);
                        },
                    };
                    push_blocks(&mut blocks, &mut parsed, &mut cell_state, ctx);
                    proof {
                        lemma_grows_trans(w0, wm, texts(ctx.warnings@));
                    }
                } else if str_eq(name.as_str(), "tbl") && depth < MAX_TEXTBOX_DEPTH {
                    let got = extract_table(child, rels, &mut cell_ids, hidden, note_refs, ctx, depth + 1);
                    let ghost wm = texts(ctx.warnings@);
                    proof {
                        lemma_grows_trans(w0, wb, wm);
                        lemma_markers_trans(old(hidden)@, hb, hidden@);
                    }
                    let nested = match got {
                        Ok(v) => v,
                        Err(e) => {
                            return Err(e);
                        },
                    };
                    let mut parsed = vec![nested];
                    push_blocks(&mut blocks, &mut parsed, &mut cell_state, ctx);
                    proof {
                        lemma_grows_trans(w0, wm, texts(ctx.warnings@));
                    }
                    has_nested = true;
                } else if str_eq(name.as_str(), "tbl") {
                    let m = text_of(&[id.as_str(), ": nested table depth limit 8 exceeded; subtree skipped"]);
                    ctx.warnings.push(m);
                    proof {
                        assert(texts(ctx.warnings@) =~= wb + seq![m@]);
                        lemma_grows_append(wb, seq![m@]);
                        lemma_grows_trans(w0, wb, texts(ctx.warnings@));
                    }
                }
                k += 1;
            }
            let ghost wb = texts(ctx.warnings@);
            finish_story(&mut blocks, &mut cell_state, ctx);
            proof {
                lemma_grows_trans(w0, wb, texts(ctx.warnings@));
            }
            let content = block_text(&blocks);
            let runs = paragraph_runs(&blocks);
            if holds_other_blocks(&blocks) {
                has_nested = true;
            }
            let ghost before = cells@;
            proof {
                assert(before == cells@);
            }
            cells.push(
                FlowTableCell {
                    row: row_index,
                    col: column,
                    row_span: 1,
                    col_span: span,
                    content,
                    runs,
                    blocks: if has_nested {
                        Some(blocks)
                    } else {
                        None
                    },
                },
            );
            proof {
                assert(geos(cells@) =~= g_before.push((row_index, column, 1usize, span)));
            }
            proof {
                assert forall|i: int| 0 <= i < cells@.len() implies {
                    &&& (#[trigger] cells@[i]).row < rows
                    &&& 1 <= cells@[i].col_span
                    &&& 1 <= cells@[i].row_span
                    &&& (cells@[i].col + cells@[i].col_span <= cols || cols == usize::MAX)
                } by {
                    if i < before.len() {
                        assert(cells@[i] == before[i]);
                    }
                }
            }
            column = column.saturating_add(span);
            t += 1;
        }
        proof {
            assert(tv.subrange(0, tcs.len() as int) =~= tv);
            assert(rv.subrange(0, row_index as int + 1).drop_last() =~= rv.subrange(0, row_index as int));
            assert(rv.subrange(0, row_index as int + 1).last() == *row);
        }
        row_index += 1;
    }
    let placement = match table.child("tblPr") {
        Some(pr) => match pr.child("tblpPr") {
            Some(pos) => Some(table_placement(pos, &ctx.numbers)),
            None => None,
        },
        None => None,
    };
    proof {
        assert(rows_nodes@.map_values(|n: &Node| *n).len() == rows_nodes@.len());
        assert(rv.subrange(0, rows_nodes.len() as int) =~= rv);
    }
    Ok(Block::Table { id, col_widths, rows, cols, cells, placement, approx_page: None })
}

/// A placement with the drawing's extent as its size.
fn with_extent(placement: Option<Placement>, width: &Option<String>, height: &Option<String>) -> (r: Option<Placement>)
    ensures
        r is Some == placement is Some,
{
    match placement {
        Some(mut p) => {
            p.width = match width {
                Some(w) => Some(Length::Emu(w.clone())),
                None => None,
            };
            p.height = match height {
                Some(h) => Some(Length::Emu(h.clone())),
                None => None,
            };
            Some(p)
        },
        None => None,
    }
}

/// `rels` holds an internal relationship whose target, resolved against
/// the main document part, escapes the package root: the one way in which
/// reading a paragraph, a table or a drawing fails.
pub open spec fn has_escaping_target(rels: Relationships) -> bool {
    exists|id: Seq<char>|
        #[trigger] lookup(rels.by_id.entries@, id) matches Some(rel) && !rel.external && resolved_target(
            "word/document.xml"@,
            rel.target@,
        ) is None
}

/// The text that shows in a story with the children `cs` (paragraphs and
/// tables), starting in the field state `st`: each paragraph's shown text
/// in turn, the field state carried from one paragraph to the next; and the
/// field state at the end.
pub open spec fn story_text(cs: Seq<Node>, rels: Relationships, st: FieldState) -> (Seq<char>, FieldState)
    decreases cs.len(),
{
    if cs.len() == 0 {
        (Seq::empty(), st)
    } else {
        let prev = story_text(cs.drop_last(), rels, st);
        let c = cs.last();
        if local_part(c.name@) == "p"@ {
            let ev = paragraph_events(c.children@, rels);
            (prev.0 + shown_text(ev, prev.1), fields_after(ev, prev.1))
        } else {
            prev
        }
    }
}

pub open spec fn no_fields() -> FieldState {
    FieldState { stack: Seq::empty(), overflow: 0 }
}

proof fn lemma_grows_lacks<T>(a: Seq<T>, b: Seq<T>, x: T)
    requires
        grows(a, b),
        !b.contains(x),
    ensures
        !a.contains(x),
{
    if a.contains(x) {
        let k = choose|k: int| 0 <= k < a.len() && a[k] == x;
        assert(b[k] == b.subrange(0, a.len() as int)[k]);
    }
}

/// The extent element that sizes a drawing: that of its anchor (else its
/// inline container), else the first one inside it.
pub open spec fn drawing_extent(d: Node) -> Option<Node> {
    let container = if first_desc(d, "anchor"@) is Some {
        first_desc(d, "anchor"@)
    } else {
        first_desc(d, "inline"@)
    };
    let from_container = match container {
        Some(c) => child_node(c, "extent"@),
        None => None,
    };
    if from_container is Some {
        from_container
    } else {
        first_desc(d, "extent"@)
    }
}

/// The relationship id of a drawing's image: its blip's embedded (else
/// linked) image, else its VML image data's id.
pub open spec fn image_relation_id(d: Node) -> Option<Seq<char>> {
    let blip_id = match first_desc(d, "blip"@) {
        Some(b) => if attr_chars(b, "embed"@) is Some {
            attr_chars(b, "embed"@)
        } else {
            attr_chars(b, "link"@)
        },
        None => None,
    };
    if blip_id is Some {
        blip_id
    } else {
        attr_in(first_desc(d, "imagedata"@), "id"@)
    }
}

/// The content hash of a drawing's image: the digest of the media part
/// that its internal relationship names, where the package has that part.
pub open spec fn image_media_hash(d: Node, rels: Relationships, entries: Seq<(String, Vec<u8>)>) -> Option<
    Seq<char>,
> {
    match image_relation_id(d) {
        None => None,
        Some(rid) => match lookup(rels.by_id.entries@, rid) {
            None => None,
            Some(rel) => if rel.external {
                None
            } else {
                match resolved_target("word/document.xml"@, rel.target@) {
                    None => None,
                    Some(path) => match part_of(entries, path) {
                        Some(b) => Some(hex_text(sha256_of(b))),
                        None => None,
                    },
                }
            },
        },
    }
}

/// The hidden items went from `before` to `after` by the alternative text
/// `alt` of the element `id`, where there is one.
pub open spec fn alt_recorded(before: Seq<HiddenItem>, after: Seq<HiddenItem>, id: Seq<char>, alt: Option<Seq<char>>) -> bool {
    match alt {
        Some(a) => {
            &&& after.len() == before.len() + 1
            &&& after.subrange(0, before.len() as int) == before
            &&& after.last().kind@ == "alt"@
            &&& after.last().content@ == a
            &&& after.last().element matches Some(e) && e@ == id
        },
        None => after == before,
    }
}

/// The part that drawing relationships are resolved against: the main
/// document part, from which header and footer media (`../media`) resolve
/// alike.
pub fn drawing_part_for_rels(_rels: &Relationships) -> (r: &'static str)
    ensures
        r@ == "word/document.xml"@,
{
    "word/document.xml"
}

fn push_warning(warnings: &mut Vec<String>, m: String)
    ensures
        texts(final(warnings)@) == texts(old(warnings)@).push(m@),
        grows(texts(old(warnings)@), texts(final(warnings)@)),
{
    let ghost wb = texts(warnings@);
    warnings.push(m);
    proof {
        assert(texts(warnings@) =~= wb.push(m@));
        lemma_grows_append(wb, seq![m@]);
        assert(wb + seq![m@] =~= wb.push(m@));
    }
}

/// Reads a drawing (`drawing`, `pict` or `object`). A drawing with a text
/// box becomes a text box block whose paragraphs and tables are read as a
/// story one level deeper (empty, with a warning, at
/// `MAX_TEXTBOX_DEPTH`). Otherwise a drawing with an image reference
/// becomes an image block: its media part (resolved against the main
/// document part) is hashed when it is in the package, and its alternative
/// text becomes a hidden item. Anything else is skipped with a warning.
/// Anchored drawings keep their position, with their extent as its size.
#[verifier::rlimit(100)]
pub fn extract_drawing(
    drawing: &Node,
    rels: &Relationships,
    ids: &mut IdAllocator,
    hidden: &mut Vec<HiddenItem>,
    note_refs: &mut Vec<NoteReference>,
    ctx: &mut Context,
    textbox_depth: usize,
) -> (r: Result<Option<Block>, ExtractError>)
    requires
        textbox_depth <= MAX_TEXTBOX_DEPTH,
    ensures
        final(ids).prefix == old(ids).prefix,
        final(ids).next >= old(ids).next,
        same_sources(*final(ctx), *old(ctx)),
        grows(texts(old(ctx).warnings@), texts(final(ctx).warnings@)),
        r matches Ok(Some(b)) ==> match b {
            Block::Image { id, .. } => id@ == block_id(old(ids).prefix@, old(ids).next as nat),
            Block::Textbox { id, .. } => id@ == block_id(old(ids).prefix@, old(ids).next as nat),
            _ => false,
        },
        r matches Ok(None) ==> final(ids).next == old(ids).next,
        no_new_markers(old(hidden)@, final(hidden)@),
        first_desc(*drawing, "txbxContent"@) is Some ==> (r matches Ok(x) ==> x matches Some(
            Block::Textbox { .. },
        )),
        first_desc(*drawing, "txbxContent"@) matches Some(tb) ==> (r matches Ok(Some(Block::Textbox { blocks, .. }))
            ==> if textbox_depth >= MAX_TEXTBOX_DEPTH {
            blocks@.len() == 0
        } else {
            !texts(final(ctx).warnings@).contains(block_cap_warning()) ==> para_text(blocks@) == story_text(
                tb.children@,
                *rels,
                no_fields(),
            ).0
        }),
        first_desc(*drawing, "txbxContent"@) is None ==> match r {
            Ok(None) => image_relation_id(*drawing) is None && first_desc(*drawing, "imagedata"@) is None
                && final(hidden)@ == old(hidden)@,
            Ok(Some(Block::Image { id, width, height, content_hash, .. })) => {
                &&& !(image_relation_id(*drawing) is None && first_desc(*drawing, "imagedata"@) is None)
                &&& opt_chars(width) == measured(old(ctx).numbers, attr_in(drawing_extent(*drawing), "cx"@))
                &&& opt_chars(height) == measured(old(ctx).numbers, attr_in(drawing_extent(*drawing), "cy"@))
                &&& opt_chars(content_hash) == image_media_hash(*drawing, *rels, old(ctx).parts.entries@)
                &&& alt_recorded(old(hidden)@, final(hidden)@, id@, alt_text_of(*drawing))
            },
            Ok(Some(_)) => false,
            Err(_) => true,
        },
        r matches Err(e) ==> e is ParseFailure && has_escaping_target(*rels),
    decreases MAX_TEXTBOX_DEPTH - textbox_depth, 0nat,
{
    let ghost ctx0 = *ctx;
    let ghost w0 = texts(ctx.warnings@);
    proof {
        lemma_grows_refl(w0);
        lemma_markers_refl(hidden@);
    }
    let container = match drawing.first_descendant("anchor") {
        Some(a) => Some(a),
        None => drawing.first_descendant("inline"),
    };
    let placement = match container {
        Some(c) => if str_eq(c.local_name().as_str(), "anchor") {
            Some(anchor_placement(c, &ctx.numbers))
        } else {
            None
        },
        None => None,
    };
    let extent = match opt_child(container, "extent") {
        Some(e) => Some(e),
        None => drawing.first_descendant("extent"),
    };
    let width = finite_text(&ctx.numbers, opt_attr(extent, "cx"));
    let height = finite_text(&ctx.numbers, opt_attr(extent, "cy"));
    match drawing.first_descendant("txbxContent") {
        Some(textbox) => {
            let id = ids.next();
            let ghost prefix0 = ids.prefix;
            let ghost next1 = ids.next;
            if textbox_depth >= MAX_TEXTBOX_DEPTH {
                push_warning(
                    &mut ctx.warnings,
                    text_of(&[id.as_str(), ": textbox nesting depth limit 8 exceeded; content skipped"]),
                );
                return Ok(Some(Block::Textbox { id, placement, blocks: Vec::new() }));
            }
            let mut nested_ids = IdAllocator::new(text_of(&[id.as_str(), "-b"]));
            let mut state = StoryState::new();
            let mut blocks: Vec<Block> = Vec::new();
            let mut k: usize = 0;
            while k < textbox.children.len()
                invariant
                    k <= textbox.children.len(),
                    textbox_depth < MAX_TEXTBOX_DEPTH,
                    state.wf(),
                    no_new_markers(old(hidden)@, hidden@),
                    ids.prefix == prefix0,
                    ids.next == next1,
                    next1 >= old(ids).next,
                    prefix0 == old(ids).prefix,
                    ctx0 == *old(ctx),
                    w0 == texts(old(ctx).warnings@),
                    same_sources(*ctx, ctx0),
                    grows(w0, texts(ctx.warnings@)),
                    field_state(state.fields) == story_text(textbox.children@.subrange(0, k as int), *rels, no_fields()).1,
                    !texts(ctx.warnings@).contains(block_cap_warning()) ==> para_text(blocks@) == story_text(
                        textbox.children@.subrange(0, k as int),
                        *rels,
                        no_fields(),
                    ).0,
                decreases textbox.children.len() - k,
            {
                let child = &textbox.children[k];
                let ghost sub = textbox.children@.subrange(0, k as int + 1);
                let ghost bt0 = para_text(blocks@);
                let ghost wk = texts(ctx.warnings@);
                proof {
                    assert(sub.drop_last() =~= textbox.children@.subrange(0, k as int));
                    assert(sub.last() == *child);
                    reveal_strlit("p");
                }
                let name = child.local_name();
                let ghost wb = texts(ctx.warnings@);
                let ghost hb = hidden@;
                if str_eq(name.as_str(), "p") {
                    let got = extract_paragraph(
                        child,
                        rels,
                        &mut nested_ids,
                        &mut state,
                        hidden,
                        note_refs,
                        ctx,
                        textbox_depth + 1,
                        false,
                    );
                    let ghost wm = texts(ctx.warnings@);
                    proof {
                        lemma_grows_trans(w0, wb, wm);
                        lemma_markers_trans(old(hidden)@, hb, hidden@);
                    }
                    let mut parsed = match got {
                        Ok(v) => v,
                        Err(e) => {
                            return Err(e);
                        },
                    };
                    let ghost pv = parsed@;
                    push_blocks(&mut blocks, &mut parsed, &mut state, ctx);
                    proof {
                        lemma_grows_trans(w0, wm, texts(ctx.warnings@));
                        let cap = block_cap_warning();
                        let wf = texts(ctx.warnings@);
                        if !wf.contains(cap) {
                            if wf != wm {
                                assert(wf == wm.push(cap));
                                assert(wf[wm.len() as int] == cap);
                            }
                            lemma_grows_lacks(wk, wm, cap);
                        }
                    }
                } else if str_eq(name.as_str(), "tbl") {
                    let got = extract_table(child, rels, &mut nested_ids, hidden, note_refs, ctx, textbox_depth + 1);
                    let ghost wm = texts(ctx.warnings@);
                    proof {
                        lemma_grows_trans(w0, wb, wm);
                        lemma_markers_trans(old(hidden)@, hb, hidden@);
                    }
                    let nested = match got {
                        Ok(v) => v,
                        Err(e) => {
                            return Err(e);
                        },
                    };
                    let mut parsed = vec![nested];
                    let ghost pv = parsed@;
                    proof {
                        assert(pv =~= seq![nested]);
                        assert(pv.drop_last() =~= Seq::<Block>::empty());
                        assert(pv.last() is Table);
                        assert(para_text(Seq::<Block>::empty()) =~= Seq::<char>::empty());
                        assert(para_text(pv) =~= Seq::<char>::empty());
                    }
                    push_blocks(&mut blocks, &mut parsed, &mut state, ctx);
                    proof {
                        lemma_grows_trans(w0, wm, texts(ctx.warnings@));
                        let cap = block_cap_warning();
                        let wf = texts(ctx.warnings@);
                        if !wf.contains(cap) {
                            if wf != wm {
                                assert(wf == wm.push(cap));
                                assert(wf[wm.len() as int] == cap);
                            }
                            lemma_grows_lacks(wk, wm, cap);
                            assert(para_text(blocks@) =~= bt0 + Seq::<char>::empty());
                        }
                    }
                }
                k += 1;
            }
            let ghost wb = texts(ctx.warnings@);
            finish_story(&mut blocks, &mut state, ctx);
            proof {
                lemma_grows_trans(w0, wb, texts(ctx.warnings@));
                assert(textbox.children@.subrange(0, textbox.children@.len() as int) =~= textbox.children@);
                if !texts(ctx.warnings@).contains(block_cap_warning()) {
                    lemma_grows_lacks(wb, texts(ctx.warnings@), block_cap_warning());
                }
            }
            return Ok(Some(Block::Textbox { id, placement: with_extent(placement, &width, &height), blocks }));
        },
        None => {},
    }
    let blip_id: Option<&str> = match drawing.first_descendant("blip") {
        Some(b) => match b.attr("embed") {
            Some(e) => Some(e),
            None => b.attr("link"),
        },
        None => None,
    };
    let imagedata = drawing.first_descendant("imagedata");
    let relation_id = match blip_id {
        Some(x) => Some(x),
        None => opt_attr(imagedata, "id"),
    };
    if relation_id.is_none() && imagedata.is_none() {
        push_warning(&mut ctx.warnings, "drawing has no image or textbox content; subtree skipped".to_string());
        return Ok(None);
    }
    let id = ids.next();
    let mut content_hash: Option<String> = None;
    let relation = match relation_id {
        Some(rid) => rels.get(rid),
        None => None,
    };
    let ghost wb = texts(ctx.warnings@);
    match relation {
        Some(rel) => {
            if rel.external {
                push_warning(&mut ctx.warnings, text_of(&[id.as_str(), ": external image target was not fetched"]));
            } else {
                let media_path = match resolve_target(drawing_part_for_rels(rels), rel.target.as_str()) {
                    Ok(path) => path,
                    Err(e) => {
                        proof {
                            let rid = relation_id->Some_0;
                            assert(lookup(rels.by_id.entries@, rid@) == Some(*rel));
                        }
                        return Err(e);
                    },
                };
                match ctx.parts.read(media_path.as_str()) {
                    Some(bytes) => {
                        content_hash = Some(crate::docx::content_hash(bytes.as_slice()));
                        proof {
                            lemma_grows_refl(wb);
                        }
                    },
                    None => {
                        push_warning(
                            &mut ctx.warnings,
                            text_of(&[id.as_str(), ": referenced image media part is missing: ", media_path.as_str()]),
                        );
                    },
                }
            }
        },
        None => {
            push_warning(&mut ctx.warnings, text_of(&[id.as_str(), ": image media relationship is missing or broken"]));
        },
    }
    proof {
        lemma_grows_trans(w0, wb, texts(ctx.warnings@));
    }
    match alternative_text(drawing) {
        Some(alt) => {
            let ghost hbefore = hidden@;
            let element = id.clone();
            let kind = "alt".to_string();
            proof {
                reveal_strlit("alt");
            }
            hidden.push(HiddenItem { kind, element: Some(element), content: alt });
            proof {
                assert(hidden@.subrange(0, hbefore.len() as int) =~= hbefore);
                lemma_field_not_marker();
                assert(hidden@ == hbefore.push(hidden@.last()));
                lemma_markers_push(hbefore, hidden@.last());
                lemma_markers_trans(old(hidden)@, hbefore, hidden@);
            }
        },
        None => {},
    }
    let sized = with_extent(placement, &width, &height);
    proof {
        assert(opt_chars(width) == measured(old(ctx).numbers, attr_in(drawing_extent(*drawing), "cx"@)));
        assert(opt_chars(height) == measured(old(ctx).numbers, attr_in(drawing_extent(*drawing), "cy"@)));
        assert(opt_chars(content_hash) == image_media_hash(*drawing, *rels, old(ctx).parts.entries@));
        assert(alt_recorded(old(hidden)@, hidden@, id@, alt_text_of(*drawing)));
    }
    Ok(Some(Block::Image { id, width, height, content_hash, placement: sized }))
}

/// How deep markup-compatibility alternates are resolved.
pub const MAX_MC_DEPTH: usize = 32;

/// The namespaces whose markup-compatibility choices are understood.
pub fn supported_mc_namespaces() -> (r: Vec<&'static str>)
    ensures
        r@ == seq![
            "http://schemas.microsoft.com/office/word/2010/wordprocessingShape",
            "http://schemas.microsoft.com/office/word/2010/wordprocessingGroup",
            "http://schemas.microsoft.com/office/word/2010/wordml",
            "http://schemas.microsoft.com/office/word/2012/wordml",
            "http://schemas.openxmlformats.org/wordprocessingml/2006/main",
            "urn:schemas-microsoft-com:vml",
        ],
{
    vec![
        "http://schemas.microsoft.com/office/word/2010/wordprocessingShape",
        "http://schemas.microsoft.com/office/word/2010/wordprocessingGroup",
        "http://schemas.microsoft.com/office/word/2010/wordml",
        "http://schemas.microsoft.com/office/word/2012/wordml",
        "http://schemas.openxmlformats.org/wordprocessingml/2006/main",
        "urn:schemas-microsoft-com:vml",
    ]
}

/// The namespaces of `supported_mc_namespaces`.
pub open spec fn supported_mc_uris() -> Seq<Seq<char>> {
    strs(
        seq![
            "http://schemas.microsoft.com/office/word/2010/wordprocessingShape",
            "http://schemas.microsoft.com/office/word/2010/wordprocessingGroup",
            "http://schemas.microsoft.com/office/word/2010/wordml",
            "http://schemas.microsoft.com/office/word/2012/wordml",
            "http://schemas.openxmlformats.org/wordprocessingml/2006/main",
            "urn:schemas-microsoft-com:vml",
        ],
    )
}

/// What the part `path` of a package with the entries `entries` parses to,
/// where the package has that part.
pub open spec fn part_parse(entries: Seq<(String, Vec<u8>)>, path: Seq<char>) -> Option<Result<NodeView, Seq<char>>> {
    match part_of(entries, path) {
        Some(b) => Some(parse_outcome(b, path, MAX_XML_NODES as nat)),
        None => None,
    }
}

/// `n` is the parsed tree of part `path` with its alternates resolved, and
/// the warnings went from `before` to `after` by the resolution's warnings.
pub open spec fn resolved_part(
    n: Node,
    entries: Seq<(String, Vec<u8>)>,
    path: Seq<char>,
    before: Seq<Seq<char>>,
    after: Seq<Seq<char>>,
) -> bool {
    exists|root: Node|
        #![trigger resolve_node(root, supported_mc_uris(), 0, MAX_MC_DEPTH as nat)]
        part_of(entries, path) is Some && built_from_events(Ok(root), part_of(entries, path)->Some_0, path) && n@ == preprocessed_root(root, supported_mc_uris(), MAX_MC_DEPTH as nat)
            && after == before + resolve_node(root, supported_mc_uris(), 0, MAX_MC_DEPTH as nat).warnings
}

/// Reads part `path` as XML with its markup-compatibility alternates
/// resolved; a missing part is a parse failure.
pub fn xml_required_mc(parts: &Parts, path: &str, warnings: &mut Vec<String>) -> (r: Result<Node, ExtractError>)
    ensures
        grows(texts(old(warnings)@), texts(final(warnings)@)),
        part_of(parts.entries@, path@) is None ==> r is Err,
        r matches Err(e) ==> e is ParseFailure && final(warnings)@ == old(warnings)@,
        part_parse(parts.entries@, path@) matches Some(Ok(_)) ==> r is Ok,
        part_parse(parts.entries@, path@) matches Some(Err(m)) ==> (r matches Err(ExtractError::ParseFailure(e))
            && e@ == m),
        r matches Ok(n) ==> resolved_part(n, parts.entries@, path@, texts(old(warnings)@), texts(final(warnings)@)),
{
    proof {
        lemma_grows_refl(texts(warnings@));
    }
    let bytes = match parts.read(path) {
        Some(b) => b,
        None => {
            return Err(ExtractError::ParseFailure(text_of(&["required part ", path, " is missing"])));
        },
    };
    let root = crate::xml::parse(bytes.as_slice(), path)?;
    let ghost wb = texts(warnings@);
    let supported = supported_mc_namespaces();
    let resolved = crate::xml::preprocess_alternate_content(&root, supported.as_slice(), MAX_MC_DEPTH, warnings);
    proof {
        let w = texts(warnings@);
        assert(w =~= wb + w.subrange(wb.len() as int, w.len() as int));
        lemma_grows_append(wb, w.subrange(wb.len() as int, w.len() as int));
        assert(strs(supported@) == supported_mc_uris());
        assert(resolve_node(root, supported_mc_uris(), 0, MAX_MC_DEPTH as nat).warnings.len() >= 0);
    }
    Ok(resolved)
}

/// Reads part `path`, where the package has it, as `xml_required_mc` does.
pub fn xml_optional_mc(parts: &Parts, path: &str, warnings: &mut Vec<String>) -> (r: Result<
    Option<Node>,
    ExtractError,
>)
    ensures
        grows(texts(old(warnings)@), texts(final(warnings)@)),
        part_of(parts.entries@, path@) is None ==> (r matches Ok(x) && x is None),
        part_of(parts.entries@, path@) is Some ==> (r matches Ok(x) ==> x is Some),
        part_parse(parts.entries@, path@) matches Some(Ok(_)) ==> r is Ok,
        part_parse(parts.entries@, path@) matches Some(Err(m)) ==> (r matches Err(ExtractError::ParseFailure(e))
            && e@ == m),
        r matches Err(e) ==> e is ParseFailure && final(warnings)@ == old(warnings)@,
        r matches Ok(Some(n)) ==> resolved_part(n, parts.entries@, path@, texts(old(warnings)@), texts(final(warnings)@)),
{
    if !parts.contains(path) {
        proof {
            lemma_grows_refl(texts(warnings@));
        }
        return Ok(None);
    }
    let root = xml_required_mc(parts, path, warnings)?;
    Ok(Some(root))
}

/// The comments of the package by id (see `comments_from_root`); none where
/// it has no comments part.
pub fn load_comments(parts: &Parts, warnings: &mut Vec<String>) -> (r: Result<StrMap<String>, ExtractError>)
    ensures
        grows(texts(old(warnings)@), texts(final(warnings)@)),
        r matches Ok(m) ==> m.wf(),
        part_of(parts.entries@, "word/comments.xml"@) is None ==> (r matches Ok(m) && m.entries@.len() == 0),
        part_of(parts.entries@, "word/comments.xml"@) is Some ==> (r matches Ok(m) ==> exists|n: Node|
            #[trigger] resolved_part(n, parts.entries@, "word/comments.xml"@, texts(old(warnings)@), texts(final(warnings)@))
                && forall|id: Seq<char>|
                #[trigger] opt_chars(crate::strmap::lookup(m.entries@, id)) == comment_last(
                    all_named(n.children@, "comment"@),
                    id,
                )),
        part_parse(parts.entries@, "word/comments.xml"@) matches Some(Ok(_)) ==> r is Ok,
        r matches Err(e) ==> e is ParseFailure,
{
    match xml_optional_mc(parts, "word/comments.xml", warnings)? {
        Some(root) => Ok(crate::docx::comments_from_root(&root)),
        None => Ok(StrMap::new()),
    }
}

/// A note id that marks a separator note: it starts with `-`.
pub open spec fn separator_id(id: Seq<char>) -> bool {
    id.len() > 0 && id[0] == '-'
}

/// The last note among `ns` with id `id`, unless that id marks a separator.
pub open spec fn note_last(ns: Seq<Node>, id: Seq<char>) -> Option<NodeView>
    decreases ns.len(),
{
    if ns.len() == 0 {
        None
    } else if attr_chars(ns.last(), "id"@) == Some(id) && !separator_id(id) {
        Some(ns.last()@)
    } else {
        note_last(ns.drop_last(), id)
    }
}

pub open spec fn opt_node_view(o: Option<Node>) -> Option<NodeView> {
    match o {
        Some(n) => Some(n@),
        None => None,
    }
}

/// What `notes` holds for `id` after the notes among `ns` were added to
/// what it held before, `before`.
pub open spec fn notes_after(ns: Seq<Node>, before: Seq<(String, Node)>, id: Seq<char>) -> Option<NodeView> {
    match note_last(ns, id) {
        Some(v) => Some(v),
        None => opt_node_view(lookup(before, id)),
    }
}

/// Adds each `element` child of `root` to `notes` by its id, a later note
/// replacing an earlier one with the same id; notes without an id and
/// separator notes are skipped.
fn collect_notes(root: &Node, element: &str, notes: &mut StrMap<Node>)
    requires
        old(notes).wf(),
    ensures
        final(notes).wf(),
        forall|id: Seq<char>| #[trigger] opt_node_view(lookup(final(notes).entries@, id)) == notes_after(
            all_named(root.children@, element@),
            old(notes).entries@,
            id,
        ),
{
    proof {
        reveal_strlit("id");
    }
    let found = root.children_named(element);
    let ghost fv = found@.map_values(|n: &Node| *n);
    let ghost before = notes.entries@;
    let mut i: usize = 0;
    proof {
        assert forall|id: Seq<char>| #[trigger] opt_node_view(lookup(notes.entries@, id)) == notes_after(
            fv.subrange(0, 0),
            before,
            id,
        ) by {
            assert(note_last(fv.subrange(0, 0), id) is None);
        }
    }
    while i < found.len()
        invariant
            i <= found.len(),
            fv == found@.map_values(|n: &Node| *n),
            notes.wf(),
            forall|id: Seq<char>| #[trigger] opt_node_view(lookup(notes.entries@, id)) == notes_after(
                fv.subrange(0, i as int),
                before,
                id,
            ),
        decreases found.len() - i,
    {
        let note = found[i];
        let ghost p = fv.subrange(0, i as int + 1);
        proof {
            assert(p.drop_last() =~= fv.subrange(0, i as int));
            assert(p.last() == *note);
        }
        let ghost old_n = *notes;
        match note.attr("id") {
            Some(id) => {
                let v = crate::text::chars_of(id);
                if !(v.len() > 0 && v[0] == '-') {
                    let copy = crate::xml::duplicate(note);
                    notes.insert(id.to_string(), copy);
                    proof {
                        assert forall|q: Seq<char>| #[trigger] opt_node_view(lookup(notes.entries@, q))
                            == notes_after(p, before, q) by {
                            assert(notes.get_spec(q) == lookup(notes.entries@, q));
                            assert(old_n.get_spec(q) == lookup(old_n.entries@, q));
                            assert(opt_node_view(lookup(old_n.entries@, q)) == notes_after(
                                fv.subrange(0, i as int),
                                before,
                                q,
                            ));
                            if q != id@ {
                                assert(notes.get_spec(q) == old_n.get_spec(q));
                            }
                        }
                    }
                } else {
                    proof {
                        assert forall|q: Seq<char>| #[trigger] opt_node_view(lookup(notes.entries@, q))
                            == notes_after(p, before, q) by {
                            assert(opt_node_view(lookup(old_n.entries@, q)) == notes_after(
                                fv.subrange(0, i as int),
                                before,
                                q,
                            ));
                        }
                    }
                }
            },
            None => {
                proof {
                    assert forall|q: Seq<char>| #[trigger] opt_node_view(lookup(notes.entries@, q))
                        == notes_after(p, before, q) by {
                        assert(opt_node_view(lookup(old_n.entries@, q)) == notes_after(
                            fv.subrange(0, i as int),
                            before,
                            q,
                        ));
                    }
                }
            },
        }
        i += 1;
    }
    proof {
        assert(fv.subrange(0, found.len() as int) =~= fv);
    }
}

/// The footnotes and endnotes of the package by id; separator notes (whose
/// ids start with `-`) are left out.
pub fn load_notes(parts: &Parts, warnings: &mut Vec<String>) -> (r: Result<
    (StrMap<Node>, StrMap<Node>),
    ExtractError,
>)
    ensures
        grows(texts(old(warnings)@), texts(final(warnings)@)),
        r matches Ok(m) ==> m.0.wf() && m.1.wf(),
        part_of(parts.entries@, "word/footnotes.xml"@) is None ==> (r matches Ok(m) ==> m.0.entries@.len() == 0),
        part_of(parts.entries@, "word/endnotes.xml"@) is None ==> (r matches Ok(m) ==> m.1.entries@.len() == 0),
        part_of(parts.entries@, "word/footnotes.xml"@) is Some ==> (r matches Ok(m) ==> exists|n: Node, w: Seq<Seq<char>>|
            #[trigger] resolved_part(n, parts.entries@, "word/footnotes.xml"@, texts(old(warnings)@), w)
                && forall|id: Seq<char>|
                #[trigger] opt_node_view(lookup(m.0.entries@, id)) == note_last(
                    all_named(n.children@, "footnote"@),
                    id,
                )),
        part_of(parts.entries@, "word/endnotes.xml"@) is Some ==> (r matches Ok(m) ==> exists|n: Node, w: Seq<Seq<char>>|
            #[trigger] resolved_part(n, parts.entries@, "word/endnotes.xml"@, w, texts(final(warnings)@))
                && forall|id: Seq<char>|
                #[trigger] opt_node_view(lookup(m.1.entries@, id)) == note_last(
                    all_named(n.children@, "endnote"@),
                    id,
                )),
        parses_if_present(parts.entries@, "word/footnotes.xml"@) && parses_if_present(
            parts.entries@,
            "word/endnotes.xml"@,
        ) ==> r is Ok,
        r matches Err(e) ==> e is ParseFailure,
{
    let ghost w0 = texts(warnings@);
    let mut footnotes: StrMap<Node> = StrMap::new();
    let mut endnotes: StrMap<Node> = StrMap::new();
    let ghost empty = footnotes.entries@;
    match xml_optional_mc(parts, "word/footnotes.xml", warnings)? {
        Some(root) => {
            collect_notes(&root, "footnote", &mut footnotes);
            let ghost w1 = texts(warnings@);
            proof {
                assert forall|id: Seq<char>|
                    #[trigger] opt_node_view(lookup(footnotes.entries@, id)) == note_last(
                        all_named(root.children@, "footnote"@),
                        id,
                    ) by {
                    assert(opt_node_view(lookup(footnotes.entries@, id)) == notes_after(
                        all_named(root.children@, "footnote"@),
                        empty,
                        id,
                    ));
                }
                assert(resolved_part(root, parts.entries@, "word/footnotes.xml"@, w0, w1));
            }
        },
        None => {},
    }
    let ghost w1 = texts(warnings@);
    let second = xml_optional_mc(parts, "word/endnotes.xml", warnings);
    proof {
        lemma_grows_trans(w0, w1, texts(warnings@));
    }
    match second? {
        Some(root) => {
            let ghost empty2 = endnotes.entries@;
            collect_notes(&root, "endnote", &mut endnotes);
            proof {
                assert forall|id: Seq<char>|
                    #[trigger] opt_node_view(lookup(endnotes.entries@, id)) == note_last(
                        all_named(root.children@, "endnote"@),
                        id,
                    ) by {
                    assert(opt_node_view(lookup(endnotes.entries@, id)) == notes_after(
                        all_named(root.children@, "endnote"@),
                        empty2,
                        id,
                    ));
                }
                assert(resolved_part(root, parts.entries@, "word/endnotes.xml"@, w1, texts(warnings@)));
            }
        },
        None => {},
    }
    Ok((footnotes, endnotes))
}

/// The document's title and author from its core properties (see
/// `metadata_from_root`); none where there are none.
pub fn metadata(parts: &Parts) -> (r: Result<DocMetadata, ExtractError>)
    ensures
        part_of(parts.entries@, "docProps/core.xml"@) is None ==> (r matches Ok(m) && m.title is None
            && m.author is None),
        part_parse(parts.entries@, "docProps/core.xml"@) matches Some(Err(m)) ==> (r matches Err(
            ExtractError::ParseFailure(e),
        ) && e@ == m),
        part_parse(parts.entries@, "docProps/core.xml"@) matches Some(Ok(_)) ==> (r matches Ok(m) && exists|
            root: Node,
        |
            #![trigger desc_text(root, "title"@)]
            built_from_events(Ok(root), part_of(parts.entries@, "docProps/core.xml"@)->Some_0, "docProps/core.xml"@)
                && opt_chars(m.title) == desc_text(root, "title"@) && opt_chars(m.author) == desc_text(
                root,
                "creator"@,
            )),
        r matches Err(e) ==> e is ParseFailure,
{
    match parts.read("docProps/core.xml") {
        None => Ok(DocMetadata { title: None, author: None }),
        Some(bytes) => {
            let root = crate::xml::parse(bytes.as_slice(), "docProps/core.xml")?;
            Ok(crate::docx::metadata_from_root(&root))
        },
    }
}

/// A section's page geometry: page width and height and margins (valid
/// twips numerals of `pgSz` and `pgMar`), and its column count where it has
/// more than one.
pub fn section_geometry(sect_pr: Option<&Node>, numbers: &Numbers) -> (r: (
    Option<String>,
    Option<String>,
    Margins,
    Option<u32>,
))
    ensures
        ({
            let size = child_in(opt_node(sect_pr), "pgSz"@);
            let margin = child_in(opt_node(sect_pr), "pgMar"@);
            &&& opt_chars(r.0) == measured(*numbers, attr_in(size, "w"@))
            &&& opt_chars(r.1) == measured(*numbers, attr_in(size, "h"@))
            &&& opt_chars(r.2.top) == measured(*numbers, attr_in(margin, "top"@))
            &&& opt_chars(r.2.right) == measured(*numbers, attr_in(margin, "right"@))
            &&& opt_chars(r.2.bottom) == measured(*numbers, attr_in(margin, "bottom"@))
            &&& opt_chars(r.2.left) == measured(*numbers, attr_in(margin, "left"@))
            &&& r.3 == match opt_u32(attr_in(child_in(opt_node(sect_pr), "cols"@), "num"@)) {
                Some(v) => if v > 1 {
                    Some(v)
                } else {
                    None
                },
                None => None,
            }
        }),
{
    let size = opt_child(sect_pr, "pgSz");
    let margin = opt_child(sect_pr, "pgMar");
    let width = finite_text(numbers, opt_attr(size, "w"));
    let height = finite_text(numbers, opt_attr(size, "h"));
    let margins = Margins {
        top: finite_text(numbers, opt_attr(margin, "top")),
        right: finite_text(numbers, opt_attr(margin, "right")),
        bottom: finite_text(numbers, opt_attr(margin, "bottom")),
        left: finite_text(numbers, opt_attr(margin, "left")),
    };
    let columns = match opt_attr(opt_child(sect_pr, "cols"), "num") {
        Some(v) => match crate::text::parse_u32(v) {
            Some(n) => if n > 1 {
                Some(n)
            } else {
                None
            },
            None => None,
        },
        None => None,
    };
    (width, height, margins, columns)
}

/// A section of `blocks`, with its geometry from `sect_pr`. Until stories
/// and notes are attached, the section's hidden items also hold its header
/// and footer references (kind `__sect_pr`, see `serialize_refs`) and its
/// note references (kind `__note_ref`, `footnote:id` or `endnote:id` on the
/// referencing block).
pub fn make_section(
    blocks: Vec<Block>,
    hidden: Vec<HiddenItem>,
    note_refs: Vec<NoteReference>,
    sect_pr: Option<Node>,
    numbers: &Numbers,
) -> (s: Section)
    ensures
        s.blocks == blocks,
        s.headers@.len() == 0,
        s.footers@.len() == 0,
        s.hidden@.len() == hidden@.len() + note_refs@.len() + if sect_pr is Some {
            1int
        } else {
            0
        },
{
    let (page_width, page_height, margins, columns) = section_geometry(sect_pr.as_ref(), numbers);
    let mut section = Section {
        page_width,
        page_height,
        margins,
        columns,
        headers: Vec::new(),
        footers: Vec::new(),
        blocks,
        hidden,
    };
    match &sect_pr {
        Some(node) => {
            section.hidden.push(
                HiddenItem {
                    kind: "__sect_pr".to_string(),
                    element: None,
                    content: crate::docx::serialize_refs(node),
                },
            );
        },
        None => {},
    }
    let ghost h1 = section.hidden@.len();
    let mut i: usize = 0;
    while i < note_refs.len()
        invariant
            i <= note_refs.len(),
            section.hidden@.len() == h1 + i,
            section.blocks == blocks,
            section.headers@.len() == 0,
            section.footers@.len() == 0,
        decreases note_refs.len() - i,
    {
        let reference = &note_refs[i];
        let kind = match reference.kind {
            NoteKind::Footnote => "footnote",
            NoteKind::Endnote => "endnote",
        };
        section.hidden.push(
            HiddenItem {
                kind: "__note_ref".to_string(),
                element: Some(reference.block_id.clone()),
                content: text_of(&[kind, ":", reference.id.as_str()]),
            },
        );
        i += 1;
    }
    section
}

/// A story part's paragraphs ending a section (`pPr/sectPr`) among
/// `children`.
pub open spec fn section_ends(children: Seq<Node>) -> nat
    decreases children.len(),
{
    if children.len() == 0 {
        0
    } else {
        section_ends(children.drop_last()) + if local_part(children.last().name@) == "p"@ && child_in(
            child_node(children.last(), "pPr"@),
            "sectPr"@,
        ) is Some {
            1nat
        } else {
            0
        }
    }
}

/// Reads the body into sections: paragraphs and tables are read in order
/// into one story whose page is tracked; a paragraph with section
/// properties ends a section (after a section break block), and the next
/// section numbers its blocks afresh; the body's own section properties
/// shape the last section. Content kept in other formats is skipped with a
/// warning.
#[verifier::rlimit(100)]
pub fn extract_body(body: &Node, rels: &Relationships, ctx: &mut Context) -> (r: Result<
    (Vec<Section>, u32),
    ExtractError,
>)
    ensures
        same_sources(*final(ctx), *old(ctx)),
        grows(texts(old(ctx).warnings@), texts(final(ctx).warnings@)),
        r matches Ok(x) ==> x.0@.len() == section_ends(body.children@) + 1 && x.1 >= 1,
        r matches Err(e) ==> e is ParseFailure && has_escaping_target(*rels),
{
    let ghost ctx0 = *ctx;
    let ghost w0 = texts(ctx.warnings@);
    proof {
        lemma_grows_refl(w0);
    }
    let mut drafts: Vec<Section> = Vec::new();
    let mut section_index: usize = 0;
    let mut blocks: Vec<Block> = Vec::new();
    let mut hidden: Vec<HiddenItem> = Vec::new();
    let mut refs: Vec<NoteReference> = Vec::new();
    let mut state = StoryState::body();
    let mut ids = IdAllocator::new(with_number("s", 0, "-b"));
    let mut final_sect_pr: Option<Node> = None;
    let mut c: usize = 0;
    while c < body.children.len()
        invariant
            c <= body.children.len(),
            state.wf(),
            state.current_page >= 1,
            drafts@.len() == section_ends(body.children@.subrange(0, c as int)),
            section_index == drafts@.len(),
            section_index <= c,
            ctx0 == *old(ctx),
            w0 == texts(old(ctx).warnings@),
            same_sources(*ctx, ctx0),
            grows(w0, texts(ctx.warnings@)),
        decreases body.children.len() - c,
    {
        let child = &body.children[c];
        proof {
            let sub = body.children@.subrange(0, c as int + 1);
            assert(sub.drop_last() =~= body.children@.subrange(0, c as int));
            assert(sub.last() == body.children@[c as int]);
        }
        let name = child.local_name();
        let ghost wb = texts(ctx.warnings@);
        if str_eq(name.as_str(), "p") {
            let sect_pr = opt_child(child.child("pPr"), "sectPr");
            let got = extract_paragraph(child, rels, &mut ids, &mut state, &mut hidden, &mut refs, ctx, 0, true);
            let ghost wm = texts(ctx.warnings@);
            proof {
                lemma_grows_trans(w0, wb, wm);
            }
            let mut produced = match got {
                Ok(v) => v,
                Err(e) => {
                    return Err(e);
                },
            };
            push_blocks(&mut blocks, &mut produced, &mut state, ctx);
            proof {
                lemma_grows_trans(w0, wm, texts(ctx.warnings@));
            }
            match sect_pr {
                Some(sp) => {
                    blocks.push(Block::Break { kind: BreakKind::Section });
                    let mut done_blocks: Vec<Block> = Vec::new();
                    done_blocks.append(&mut blocks);
                    let mut done_hidden: Vec<HiddenItem> = Vec::new();
                    done_hidden.append(&mut hidden);
                    let mut done_refs: Vec<NoteReference> = Vec::new();
                    done_refs.append(&mut refs);
                    let section = make_section(done_blocks, done_hidden, done_refs, Some(crate::xml::duplicate(sp)), &ctx.numbers);
                    drafts.push(section);
                    section_index += 1;
                    ids = IdAllocator::new(with_number("s", section_index, "-b"));
                },
                None => {},
            }
        } else if str_eq(name.as_str(), "tbl") {
            let got = extract_table(child, rels, &mut ids, &mut hidden, &mut refs, ctx, 0);
            let ghost wm = texts(ctx.warnings@);
            proof {
                lemma_grows_trans(w0, wb, wm);
            }
            let block = match got {
                Ok(v) => v,
                Err(e) => {
                    return Err(e);
                },
            };
            let mut produced = vec![block];
            push_blocks(&mut blocks, &mut produced, &mut state, ctx);
            proof {
                lemma_grows_trans(w0, wm, texts(ctx.warnings@));
            }
        } else if str_eq(name.as_str(), "sectPr") {
            final_sect_pr = Some(crate::xml::duplicate(child));
        } else if str_eq(name.as_str(), "altChunk") || str_eq(name.as_str(), "object") || str_eq(
            name.as_str(),
            "oleObject",
        ) {
            push_warning(
                &mut ctx.warnings,
                text_of(&[name.as_str(), " content is not extracted; fallback text unavailable"]),
            );
            proof {
                lemma_grows_trans(w0, wb, texts(ctx.warnings@));
            }
        }
        c += 1;
    }
    proof {
        assert(body.children@.subrange(0, body.children@.len() as int) =~= body.children@);
    }
    let ghost wb = texts(ctx.warnings@);
    finish_story(&mut blocks, &mut state, ctx);
    proof {
        lemma_grows_trans(w0, wb, texts(ctx.warnings@));
    }
    let last = make_section(blocks, hidden, refs, final_sect_pr, &ctx.numbers);
    drafts.push(last);
    Ok((drafts, state.current_page))
}

/// Reads a header or footer part into blocks numbered under `id_prefix`;
/// its hidden items join the section's. Note references there are not the
/// body's notes: they raise a warning.
#[verifier::rlimit(60)]
pub fn extract_story_part(path: &str, id_prefix: String, section: &mut Section, ctx: &mut Context) -> (r: Result<
    Vec<Block>,
    ExtractError,
>)
    ensures
        same_sources(*final(ctx), *old(ctx)),
        grows(texts(old(ctx).warnings@), texts(final(ctx).warnings@)),
        final(section).blocks == old(section).blocks,
        final(section).headers == old(section).headers,
        final(section).footers == old(section).footers,
        same_geometry(*final(section), *old(section)),
        no_new_markers(old(section).hidden@, final(section).hidden@),
        r matches Err(e) ==> e is ParseFailure,
{
    let ghost ctx0 = *ctx;
    let ghost w0 = texts(ctx.warnings@);
    proof {
        lemma_markers_refl(section.hidden@);
    }
    let root = xml_required_mc(&ctx.parts, path, &mut ctx.warnings)?;
    let ghost w1 = texts(ctx.warnings@);
    let rels_name = crate::relationships::rels_path(path);
    let rels_bytes: Option<&[u8]> = match ctx.parts.read(rels_name.as_str()) {
        Some(b) => Some(b.as_slice()),
        None => None,
    };
    let rels = crate::relationships::relationships(rels_bytes, path)?;
    let mut ids = IdAllocator::new(id_prefix);
    let mut state = StoryState::new();
    let mut refs: Vec<NoteReference> = Vec::new();
    let mut blocks: Vec<Block> = Vec::new();
    let mut c: usize = 0;
    while c < root.children.len()
        invariant
            c <= root.children.len(),
            state.wf(),
            ctx0 == *old(ctx),
            w0 == texts(old(ctx).warnings@),
            same_sources(*ctx, ctx0),
            grows(w0, texts(ctx.warnings@)),
            section.blocks == old(section).blocks,
            section.headers == old(section).headers,
            section.footers == old(section).footers,
            same_geometry(*section, *old(section)),
            no_new_markers(old(section).hidden@, section.hidden@),
        decreases root.children.len() - c,
    {
        let child = &root.children[c];
        let name = child.local_name();
        let ghost wb = texts(ctx.warnings@);
        let ghost hb = section.hidden@;
        if str_eq(name.as_str(), "p") {
            let got = extract_paragraph(child, &rels, &mut ids, &mut state, &mut section.hidden, &mut refs, ctx, 0, false);
            let ghost wm = texts(ctx.warnings@);
            proof {
                lemma_grows_trans(w0, wb, wm);
                lemma_markers_trans(old(section).hidden@, hb, section.hidden@);
            }
            let mut parsed = match got {
                Ok(v) => v,
                Err(e) => {
                    return Err(e);
                },
            };
            push_blocks(&mut blocks, &mut parsed, &mut state, ctx);
            proof {
                lemma_grows_trans(w0, wm, texts(ctx.warnings@));
            }
        } else if str_eq(name.as_str(), "tbl") {
            let got = extract_table(child, &rels, &mut ids, &mut section.hidden, &mut refs, ctx, 0);
            let ghost wm = texts(ctx.warnings@);
            proof {
                lemma_grows_trans(w0, wb, wm);
                lemma_markers_trans(old(section).hidden@, hb, section.hidden@);
            }
            let block = match got {
                Ok(v) => v,
                Err(e) => {
                    return Err(e);
                },
            };
            let mut parsed = vec![block];
            push_blocks(&mut blocks, &mut parsed, &mut state, ctx);
            proof {
                lemma_grows_trans(w0, wm, texts(ctx.warnings@));
            }
        }
        c += 1;
    }
    let ghost wb = texts(ctx.warnings@);
    if refs.len() > 0 {
        push_warning(
            &mut ctx.warnings,
            text_of(&[path, ": note references in a header/footer are not section body notes"]),
        );
    } else {
        proof {
            lemma_grows_refl(wb);
        }
    }
    let ghost wc = texts(ctx.warnings@);
    finish_story(&mut blocks, &mut state, ctx);
    proof {
        lemma_grows_trans(w0, wb, wc);
        lemma_grows_trans(w0, wc, texts(ctx.warnings@));
    }
    Ok(blocks)
}

/// `line` without one trailing carriage return.
pub open spec fn without_cr(line: Seq<char>) -> Seq<char> {
    if line.len() > 0 && line.last() == '\r' {
        line.drop_last()
    } else {
        line
    }
}

/// The lines of `v` after a line begun with `cur`: each ends at a line feed
/// and loses a trailing carriage return; a last line without a line feed
/// counts where it is not empty.
pub open spec fn lines_from(v: Seq<char>, cur: Seq<char>) -> Seq<Seq<char>>
    decreases v.len(),
{
    if v.len() == 0 {
        if cur.len() > 0 {
            seq![without_cr(cur)]
        } else {
            Seq::empty()
        }
    } else if v[0] == '\n' {
        seq![without_cr(cur)] + lines_from(v.subrange(1, v.len() as int), Seq::empty())
    } else {
        lines_from(v.subrange(1, v.len() as int), cur.push(v[0]))
    }
}

proof fn lemma_texts_push(v: Seq<String>, s: String)
    ensures
        texts(v.push(s)) == texts(v).push(s@),
{
    assert(texts(v.push(s)) =~= texts(v).push(s@));
}

/// The lines of `s` (see `lines_from`).
fn lines_of(s: &str) -> (r: Vec<String>)
    ensures
        texts(r@) == lines_from(s@, Seq::empty()),
{
    let v = crate::text::chars_of(s);
    let mut out: Vec<String> = Vec::new();
    let mut cur: Vec<char> = Vec::new();
    let mut i: usize = 0;
    assert(v@.subrange(0, v@.len() as int) =~= v@);
    assert(texts(out@) =~= Seq::<Seq<char>>::empty());
    while i < v.len()
        invariant
            i <= v.len(),
            v@ == s@,
            texts(out@) + lines_from(v@.subrange(i as int, v@.len() as int), cur@) == lines_from(s@, Seq::empty()),
        decreases v.len() - i,
    {
        let ghost rest = v@.subrange(i as int, v@.len() as int);
        let ghost c0 = cur@;
        assert(rest[0] == v@[i as int]);
        assert(rest.subrange(1, rest.len() as int) =~= v@.subrange(i + 1, v@.len() as int));
        if v[i] == '\n' {
            if cur.len() > 0 && cur[cur.len() - 1] == '\r' {
                cur.pop();
            }
            assert(cur@ == without_cr(c0));
            let line = string_of(&cur);
            proof {
                lemma_texts_push(out@, line);
            }
            out.push(line);
            cur = Vec::new();
            assert(cur@ =~= Seq::<char>::empty());
            assert(texts(out@) + lines_from(v@.subrange(i + 1, v@.len() as int), cur@) =~= (texts(out@).drop_last()
                + seq![without_cr(c0)]) + lines_from(v@.subrange(i + 1, v@.len() as int), Seq::empty()));
        } else {
            cur.push(v[i]);
        }
        i += 1;
    }
    let ghost c0 = cur@;
    assert(v@.subrange(v@.len() as int, v@.len() as int) =~= Seq::<char>::empty());
    if cur.len() > 0 {
        if cur[cur.len() - 1] == '\r' {
            cur.pop();
        }
        assert(cur@ == without_cr(c0));
        let line = string_of(&cur);
        proof {
            lemma_texts_push(out@, line);
        }
        out.push(line);
    } else {
        assert(texts(out@) + Seq::<Seq<char>>::empty() =~= texts(out@));
    }
    out
}

/// The pieces of `v` between occurrences of `sep`, the first begun with
/// `cur`.
pub open spec fn pieces_from(v: Seq<char>, sep: char, cur: Seq<char>) -> Seq<Seq<char>>
    decreases v.len(),
{
    if v.len() == 0 {
        seq![cur]
    } else if v[0] == sep {
        seq![cur] + pieces_from(v.subrange(1, v.len() as int), sep, Seq::empty())
    } else {
        pieces_from(v.subrange(1, v.len() as int), sep, cur.push(v[0]))
    }
}

/// The pieces of `s` between occurrences of `sep` (see `pieces_from`).
fn split_char(s: &str, sep: char) -> (r: Vec<String>)
    ensures
        texts(r@) == pieces_from(s@, sep, Seq::empty()),
{
    let v = crate::text::chars_of(s);
    let mut out: Vec<String> = Vec::new();
    let mut cur: Vec<char> = Vec::new();
    let mut i: usize = 0;
    assert(v@.subrange(0, v@.len() as int) =~= v@);
    assert(texts(out@) =~= Seq::<Seq<char>>::empty());
    while i < v.len()
        invariant
            i <= v.len(),
            v@ == s@,
            texts(out@) + pieces_from(v@.subrange(i as int, v@.len() as int), sep, cur@) == pieces_from(
                s@,
                sep,
                Seq::empty(),
            ),
        decreases v.len() - i,
    {
        let ghost rest = v@.subrange(i as int, v@.len() as int);
        let ghost c0 = cur@;
        assert(rest[0] == v@[i as int]);
        assert(rest.subrange(1, rest.len() as int) =~= v@.subrange(i + 1, v@.len() as int));
        if v[i] == sep {
            let piece = string_of(&cur);
            proof {
                lemma_texts_push(out@, piece);
            }
            out.push(piece);
            cur = Vec::new();
            assert(cur@ =~= Seq::<char>::empty());
            assert(texts(out@) + pieces_from(v@.subrange(i + 1, v@.len() as int), sep, cur@) =~= (texts(
                out@,
            ).drop_last() + seq![c0]) + pieces_from(v@.subrange(i + 1, v@.len() as int), sep, Seq::empty()));
        } else {
            cur.push(v[i]);
        }
        i += 1;
    }
    assert(v@.subrange(v@.len() as int, v@.len() as int) =~= Seq::<char>::empty());
    let piece = string_of(&cur);
    proof {
        lemma_texts_push(out@, piece);
    }
    out.push(piece);
    out
}

fn story_of(variant: &str, blocks: Vec<Block>) -> (r: Story)
    ensures
        r == (if variant@ == "first"@ {
            Story::First { blocks }
        } else if variant@ == "even"@ {
            Story::Even { blocks }
        } else {
            Story::Default { blocks }
        }),
{
    if str_eq(variant, "first") {
        Story::First { blocks }
    } else if str_eq(variant, "even") {
        Story::Even { blocks }
    } else {
        Story::Default { blocks }
    }
}

/// No hidden item of `sections` has kind `kind`.
pub open spec fn lacks_kind(sections: Seq<Section>, kind: Seq<char>) -> bool {
    forall|i: int, j: int|
        0 <= i < sections.len() && 0 <= j < sections[i].hidden@.len() ==> (
        #[trigger] sections[i].hidden@[j]).kind@ != kind
}

/// Keeping a marker kind out: `after` adds no marker, and `before` has no
/// item of marker kind `kind`, so `after` has none either.
proof fn lemma_still_lacks(before: Seq<HiddenItem>, after: Seq<HiddenItem>, kind: Seq<char>)
    requires
        no_new_markers(before, after),
        is_marker(kind),
        forall|m: int| 0 <= m < before.len() ==> (#[trigger] before[m]).kind@ != kind,
    ensures
        forall|j: int| 0 <= j < after.len() ==> (#[trigger] after[j]).kind@ != kind,
{
    assert forall|j: int| 0 <= j < after.len() implies (#[trigger] after[j]).kind@ != kind by {
        if after[j].kind@ == kind {
            let k = choose|k: int| 0 <= k < before.len() && (#[trigger] before[k]).kind@ == after[j].kind@;
            assert(before[k].kind@ == kind);
        }
    }
}

/// The items `take_kind` leaves have neither the kind it took nor a kind the
/// items before lacked.
proof fn lemma_no_items_of_kind(s: Seq<HiddenItem>, kind: Seq<char>)
    requires
        forall|m: int| 0 <= m < s.len() ==> (#[trigger] s[m]).kind@ != kind,
    ensures
        items_of_kind(s, kind, true).len() == 0,
    decreases s.len(),
{
    if s.len() > 0 {
        assert(s.last() == s[s.len() - 1]);
        lemma_no_items_of_kind(s.drop_last(), kind);
    }
}

proof fn lemma_items_of_kind_lack(s: Seq<HiddenItem>, kind: Seq<char>, other: Seq<char>, keep: bool)
    requires
        !keep || forall|m: int| 0 <= m < s.len() ==> (#[trigger] s[m]).kind@ != other,
    ensures
        !keep ==> forall|j: int|
            0 <= j < items_of_kind(s, kind, false).len() ==> (#[trigger] items_of_kind(s, kind, false)[j]).kind@
                != kind,
        keep ==> forall|j: int|
            0 <= j < items_of_kind(s, kind, false).len() ==> (#[trigger] items_of_kind(s, kind, false)[j]).kind@
                != other,
    decreases s.len(),
{
    if s.len() > 0 {
        lemma_items_of_kind_lack(s.drop_last(), kind, other, keep);
        let a = items_of_kind(s.drop_last(), kind, false);
        let r = items_of_kind(s, kind, false);
        assert forall|j: int| 0 <= j < r.len() implies (!keep ==> (#[trigger] r[j]).kind@ != kind) && (keep
            ==> r[j].kind@ != other) by {
            if j < a.len() {
                assert(r[j] == a[j]);
            } else {
                assert(r[j] == s.last());
            }
        }
    }
}

/// The items of `s` whose kind is (`keep`) or is not (`!keep`) `kind`, in
/// order.
pub open spec fn items_of_kind(s: Seq<HiddenItem>, kind: Seq<char>, keep: bool) -> Seq<HiddenItem>
    decreases s.len(),
{
    if s.len() == 0 {
        Seq::empty()
    } else {
        items_of_kind(s.drop_last(), kind, keep) + if (s.last().kind@ == kind) == keep {
            seq![s.last()]
        } else {
            Seq::empty()
        }
    }
}

/// Takes every item of kind `kind` out of `hidden`, in order; the others
/// stay, in order.
fn take_kind(hidden: &mut Vec<HiddenItem>, kind: &str) -> (r: Vec<HiddenItem>)
    ensures
        r@ == items_of_kind(old(hidden)@, kind@, true),
        final(hidden)@ == items_of_kind(old(hidden)@, kind@, false),
{
    let ghost orig = hidden@;
    let mut kept: Vec<HiddenItem> = Vec::new();
    let mut taken: Vec<HiddenItem> = Vec::new();
    let mut all: Vec<HiddenItem> = Vec::new();
    all.append(hidden);
    assert(all@ =~= orig);
    let n = all.len();
    let mut rev: Vec<HiddenItem> = Vec::new();
    while all.len() > 0
        invariant
            n == orig.len(),
            all@.len() + rev@.len() == n,
            all@ == orig.subrange(0, all@.len() as int),
            forall|j: int| 0 <= j < rev@.len() ==> #[trigger] rev@[j] == orig[n - 1 - j],
        decreases all.len(),
    {
        let item = all.pop().unwrap();
        rev.push(item);
    }
    assert(orig.subrange(0, 0) =~= Seq::<HiddenItem>::empty());
    while rev.len() > 0
        invariant
            n == orig.len(),
            rev@.len() <= n,
            forall|j: int| 0 <= j < rev@.len() ==> #[trigger] rev@[j] == orig[n - 1 - j],
            taken@ == items_of_kind(orig.subrange(0, n - rev@.len()), kind@, true),
            kept@ == items_of_kind(orig.subrange(0, n - rev@.len()), kind@, false),
            hidden@.len() == 0,
        decreases rev.len(),
    {
        let ghost k = n - rev@.len();
        let item = rev.pop().unwrap();
        proof {
            assert(item == orig[k]);
            let p = orig.subrange(0, k + 1);
            assert(p.drop_last() =~= orig.subrange(0, k));
            assert(p.last() == orig[k]);
        }
        if str_eq(item.kind.as_str(), kind) {
            taken.push(item);
        } else {
            kept.push(item);
        }
    }
    assert(orig.subrange(0, n as int) =~= orig);
    hidden.append(&mut kept);
    assert(hidden@ =~= items_of_kind(orig, kind@, false));
    taken
}

fn section_message(index: usize, middle: &[&str]) -> (r: String)
    ensures
        r@ == "section "@ + decimal(index as nat) + ": "@ + joined(middle@),
{
    let mut out: Vec<char> = Vec::new();
    push_str(&mut out, "section ");
    push_decimal(&mut out, index as u64);
    push_str(&mut out, ": ");
    let ghost head = out@;
    let mut i: usize = 0;
    assert(middle@.subrange(0, 0) =~= Seq::<&str>::empty());
    while i < middle.len()
        invariant
            i <= middle.len(),
            out@ == head + joined(middle@.subrange(0, i as int)),
        decreases middle.len() - i,
    {
        proof {
            let p = middle@.subrange(0, i + 1);
            assert(p.drop_last() =~= middle@.subrange(0, i as int));
        }
        push_str(&mut out, middle[i]);
        i += 1;
    }
    assert(middle@.subrange(0, middle@.len() as int) =~= middle@);
    assert(out@ =~= "section "@ + decimal(index as nat) + ": "@ + joined(middle@));
    string_of(&out)
}

fn reversed<T>(v: Vec<T>) -> (r: Vec<T>)
    ensures
        r@.len() == v@.len(),
        forall|j: int| 0 <= j < r@.len() ==> #[trigger] r@[j] == v@[v@.len() - 1 - j],
{
    let ghost orig = v@;
    let mut all = v;
    let mut rev: Vec<T> = Vec::new();
    while all.len() > 0
        invariant
            rev@.len() + all@.len() == orig.len(),
            all@ == orig.subrange(0, all@.len() as int),
            forall|j: int| 0 <= j < rev@.len() ==> #[trigger] rev@[j] == orig[orig.len() - 1 - j],
        decreases all.len(),
    {
        let item = all.pop().unwrap();
        rev.push(item);
    }
    rev
}

/// Attaches each section's header and footer stories: every reference its
/// section properties recorded (see `make_section`) is resolved through the
/// main document's relationships and its part read (see
/// `extract_story_part`) into a default, first-page or even-page story. A
/// missing or external relationship, or a part that fails to read, is
/// skipped with a warning; a target outside the package fails.
#[verifier::rlimit(60)]
/// `after` keeps the page geometry of `before`.
pub open spec fn same_geometry(after: Section, before: Section) -> bool {
    &&& after.page_width == before.page_width
    &&& after.page_height == before.page_height
    &&& after.margins == before.margins
    &&& after.columns == before.columns
}

pub fn attach_section_stories(sections: Vec<Section>, document_rels: &Relationships, ctx: &mut Context) -> (r: Result<
    Vec<Section>,
    ExtractError,
>)
    ensures
        same_sources(*final(ctx), *old(ctx)),
        grows(texts(old(ctx).warnings@), texts(final(ctx).warnings@)),
        r matches Ok(v) ==> {
            &&& v@.len() == sections@.len()
            &&& forall|i: int| 0 <= i < v@.len() ==> {
                &&& (#[trigger] v@[i]).blocks == sections@[i].blocks
                &&& same_geometry(v@[i], sections@[i])
                &&& v@[i].headers@.len() >= sections@[i].headers@.len()
                &&& v@[i].footers@.len() >= sections@[i].footers@.len()
            }
            &&& lacks_kind(v@, "__sect_pr"@)
        },
        r matches Err(e) ==> e is ParseFailure && has_escaping_target(*document_rels),
{
    let ghost ctx0 = *ctx;
    let ghost w0 = texts(ctx.warnings@);
    proof {
        lemma_grows_refl(w0);
    }
    let n = sections.len();
    let ghost orig = sections@;
    let mut rev = reversed(sections);
    let mut out: Vec<Section> = Vec::new();
    let mut section_index: usize = 0;
    while rev.len() > 0
        invariant
            out@.len() + rev@.len() == n,
            section_index == out@.len(),
            n == orig.len(),
            forall|j: int| 0 <= j < rev@.len() ==> #[trigger] rev@[j] == orig[n - 1 - j],
            forall|j: int| 0 <= j < out@.len() ==> {
                &&& (#[trigger] out@[j]).blocks == orig[j].blocks
                &&& same_geometry(out@[j], orig[j])
                &&& out@[j].headers@.len() >= orig[j].headers@.len()
                &&& out@[j].footers@.len() >= orig[j].footers@.len()
            },
            lacks_kind(out@, "__sect_pr"@),
            ctx0 == *old(ctx),
            w0 == texts(old(ctx).warnings@),
            same_sources(*ctx, ctx0),
            grows(w0, texts(ctx.warnings@)),
        decreases rev.len(),
    {
        let ghost at = out@.len() as int;
        let mut section = rev.pop().unwrap();
        assert(section == orig[at]);
        let ghost before = section;
        let ghost h_in = section.hidden@;
        let found = take_kind(&mut section.hidden, "__sect_pr");
        let ghost hs = section.hidden@;
        proof {
            lemma_items_of_kind_lack(h_in, "__sect_pr"@, "__sect_pr"@, false);
            lemma_markers_refl(hs);
        }
        let encoded: String = if found.len() > 0 {
            found[0].content.clone()
        } else {
            String::new()
        };
        let records = lines_of(encoded.as_str());
        let mut k: usize = 0;
        while k < records.len()
            invariant
                k <= records.len(),
                section.blocks == before.blocks,
                same_geometry(section, before),
                section.headers@.len() >= before.headers@.len(),
                section.footers@.len() >= before.footers@.len(),
                forall|m: int| 0 <= m < hs.len() ==> (#[trigger] hs[m]).kind@ != "__sect_pr"@,
                no_new_markers(hs, section.hidden@),
                ctx0 == *old(ctx),
                w0 == texts(old(ctx).warnings@),
                same_sources(*ctx, ctx0),
                grows(w0, texts(ctx.warnings@)),
            decreases records.len() - k,
        {
            let fields = split_char(records[k].as_str(), '|');
            k += 1;
            if fields.len() < 3 {
                continue;
            }
            let kind = fields[0].as_str();
            let variant = fields[1].as_str();
            let rel_id = fields[2].as_str();
            let ghost wb = texts(ctx.warnings@);
            let relation = match document_rels.get(rel_id) {
                Some(rel) => rel,
                None => {
                    let head = section_message(section_index, &[kind, " relationship "]);
                    push_warning(&mut ctx.warnings, quoted_message(head.as_str(), rel_id, " is missing"));
                    proof {
                        lemma_grows_trans(w0, wb, texts(ctx.warnings@));
                    }
                    continue;
                },
            };
            if relation.external {
                push_warning(&mut ctx.warnings, section_message(section_index, &["external ", kind, " relationship ignored"]));
                proof {
                    lemma_grows_trans(w0, wb, texts(ctx.warnings@));
                }
                continue;
            }
            let path = match resolve_target("word/document.xml", relation.target.as_str()) {
                Ok(p) => p,
                Err(e) => {
                    proof {
                        assert(lookup(document_rels.by_id.entries@, rel_id@) == Some(*relation));
                    }
                    return Err(e);
                },
            };
            let is_header = str_eq(kind, "headerReference");
            let mut prefix: Vec<char> = Vec::new();
            push_str(&mut prefix, "s");
            push_decimal(&mut prefix, section_index as u64);
            push_str(&mut prefix, if is_header {
                "-h"
            } else {
                "-f"
            });
            push_str(&mut prefix, if str_eq(variant, "first") {
                "1"
            } else if str_eq(variant, "even") {
                "2"
            } else {
                "0"
            });
            push_str(&mut prefix, "-b");
            let ghost hb = section.hidden@;
            let got = extract_story_part(path.as_str(), string_of(&prefix), &mut section, ctx);
            let ghost wm = texts(ctx.warnings@);
            proof {
                lemma_grows_trans(w0, wb, wm);
                lemma_markers_trans(hs, hb, section.hidden@);
            }
            match got {
                Ok(blocks) => {
                    let story = story_of(variant, blocks);
                    if is_header {
                        section.headers.push(story);
                    } else {
                        section.footers.push(story);
                    }
                },
                Err(error) => {
                    let head = section_message(section_index, &[kind, " part "]);
                    let detail = error.message();
                    let m = quoted_message(head.as_str(), path.as_str(), text_of(&[" failed to parse: ", detail.as_str()]).as_str());
                    push_warning(&mut ctx.warnings, m);
                    proof {
                        lemma_grows_trans(w0, wm, texts(ctx.warnings@));
                    }
                },
            }
        }
        proof {
            lemma_still_lacks(hs, section.hidden@, "__sect_pr"@);
        }
        let ghost prev = out@;
        out.push(section);
        assert(out@.drop_last() == prev);
        assert forall|i: int, j: int|
            0 <= i < out@.len() && 0 <= j < out@[i].hidden@.len() implies (
            #[trigger] out@[i].hidden@[j]).kind@ != "__sect_pr"@ by {
            if i < prev.len() {
                assert(out@[i] == prev[i]);
            }
        }
        section_index += 1;
    }
    assert(out@.len() == n);
    Ok(out)
}

fn seen_note(seen: &Vec<(NoteKind, String)>, kind: NoteKind, id: &str) -> (r: bool)
    ensures
        r == exists|i: int| 0 <= i < seen@.len() && (#[trigger] seen@[i]).0 == kind && seen@[i].1@ == id@,
{
    let mut i: usize = 0;
    while i < seen.len()
        invariant
            i <= seen.len(),
            forall|k: int| 0 <= k < i ==> !((#[trigger] seen@[k]).0 == kind && seen@[k].1@ == id@),
        decreases seen.len() - i,
    {
        if seen[i].0 == kind && str_eq(seen[i].1.as_str(), id) {
            return true;
        }
        i += 1;
    }
    false
}

/// What reading the relationships of the part `path` gave: `rels`, read from
/// the relationships part `bytes` (where there is one) of a package with the
/// entries `entries`.
pub open spec fn rels_read(
    rels: Relationships,
    bytes: Option<Seq<u8>>,
    entries: Seq<(String, Vec<u8>)>,
    path: Seq<char>,
) -> bool {
    &&& part_of(entries, rels_path_of(path)) == bytes
    &&& (bytes is None ==> rels.by_id.entries@.len() == 0)
    &&& (bytes matches Some(b) ==> exists|root: Node|
        #[trigger] built_from_events(Ok(root), b, rels_path_of(path)) && sorted_tree(root) && forall|i: Seq<char>|
            #[trigger] opt_rel_view(lookup(rels.by_id.entries@, i)) == relationships_of(root, i))
}

proof fn lemma_escaping_unsound(
    rels: Relationships,
    bytes: Option<Seq<u8>>,
    entries: Seq<(String, Vec<u8>)>,
    path: Seq<char>,
)
    requires
        rels_read(rels, bytes, entries, path),
    ensures
        has_escaping_target(rels) ==> !part_rels_sound(entries, path),
{
    if has_escaping_target(rels) {
        let id = choose|id: Seq<char>|
            #[trigger] lookup(rels.by_id.entries@, id) matches Some(rel) && !rel.external && resolved_target(
                "word/document.xml"@,
                rel.target@,
            ) is None;
        match bytes {
            None => {
                assert(lookup(rels.by_id.entries@, id) is None);
            },
            Some(b) => {
                let root = choose|root: Node|
                    #[trigger] built_from_events(Ok(root), b, rels_path_of(path)) && sorted_tree(root) && forall|
                        i: Seq<char>,
                    | #[trigger] opt_rel_view(lookup(rels.by_id.entries@, i)) == relationships_of(root, i);
                assert(opt_rel_view(lookup(rels.by_id.entries@, id)) == relationships_of(root, id));
                assert(root_escapes(root));
            },
        }
    }
}

/// A part that the package does not have, or that parses.
pub open spec fn parses_if_present(entries: Seq<(String, Vec<u8>)>, path: Seq<char>) -> bool {
    match part_parse(entries, path) {
        Some(Err(_)) => false,
        _ => true,
    }
}

/// The main document, parsed and with its alternates resolved, has a body.
pub open spec fn document_has_body(entries: Seq<(String, Vec<u8>)>) -> bool {
    forall|n: Node, w1: Seq<Seq<char>>, w2: Seq<Seq<char>>|
        #[trigger] resolved_part(n, entries, "word/document.xml"@, w1, w2) ==> first_desc(n, "body"@) is Some
}

/// A Word package that reads without a parse failure: its content types are
/// UTF-8, its main document and the other parts it has parse, the main
/// document has a body, and its relationship parts parse with no internal
/// target escaping the package root.
pub open spec fn word_package_sound(entries: Seq<(String, Vec<u8>)>) -> bool {
    &&& (part_of(entries, "[Content_Types].xml"@) matches Some(b) ==> vstd::utf8::valid_utf8(b))
    &&& part_parse(entries, "word/document.xml"@) matches Some(Ok(_))
    &&& parses_if_present(entries, "docProps/core.xml"@)
    &&& parses_if_present(entries, "word/styles.xml"@)
    &&& parses_if_present(entries, "word/numbering.xml"@)
    &&& parses_if_present(entries, "word/theme/theme1.xml"@)
    &&& parses_if_present(entries, "word/comments.xml"@)
    &&& parses_if_present(entries, "word/footnotes.xml"@)
    &&& parses_if_present(entries, "word/endnotes.xml"@)
    &&& document_has_body(entries)
    &&& part_rels_sound(entries, "word/document.xml"@)
    &&& part_rels_sound(entries, "word/footnotes.xml"@)
    &&& part_rels_sound(entries, "word/endnotes.xml"@)
}

/// The relationships declared under `root` hold an internal target that
/// escapes the package root (see `has_escaping_target`).
pub open spec fn root_escapes(root: Node) -> bool {
    exists|id: Seq<char>|
        #[trigger] relationships_of(root, id) matches Some(rv) && !rv.2 && resolved_target(
            "word/document.xml"@,
            rv.0,
        ) is None
}

/// The relationships of the part `path` read without failure: the package
/// has no relationships part for it, or that part parses and none of its
/// internal targets escapes the package root.
pub open spec fn part_rels_sound(entries: Seq<(String, Vec<u8>)>, path: Seq<char>) -> bool {
    match part_of(entries, rels_path_of(path)) {
        None => true,
        Some(b) => parse_outcome(b, rels_path_of(path), MAX_XML_NODES as nat) is Ok && forall|root: Node|
            #[trigger] built_from_events(Ok(root), b, rels_path_of(path)) && sorted_tree(root) ==> !root_escapes(
                root,
            ),
    }
}

/// Attaches the notes each section references, in order of first
/// reference: a note's paragraphs and tables are read as a story whose
/// block numbers continue the section's, appended to the section's blocks,
/// and its text becomes a hidden `footnote` item on the referencing block.
/// A reference to a missing note is skipped with a warning.
#[verifier::rlimit(60)]
pub fn attach_notes(sections: Vec<Section>, ctx: &mut Context) -> (r: Result<Vec<Section>, ExtractError>)
    ensures
        same_sources(*final(ctx), *old(ctx)),
        grows(texts(old(ctx).warnings@), texts(final(ctx).warnings@)),
        r matches Ok(v) ==> {
            &&& v@.len() == sections@.len()
            &&& forall|i: int| 0 <= i < v@.len() ==> {
                &&& sections@[i].blocks@.is_prefix_of((#[trigger] v@[i]).blocks@)
                &&& same_geometry(v@[i], sections@[i])
                &&& v@[i].headers == sections@[i].headers
                &&& v@[i].footers == sections@[i].footers
            }
            &&& lacks_kind(v@, "__note_ref"@)
            &&& (lacks_kind(sections@, "__sect_pr"@) ==> lacks_kind(v@, "__sect_pr"@))
        },
        lacks_kind(sections@, "__note_ref"@) ==> (r matches Ok(v) && forall|i: int|
            0 <= i < v@.len() ==> (#[trigger] v@[i]).blocks@ == sections@[i].blocks@),
        r matches Err(e) ==> e is ParseFailure && !(part_rels_sound(old(ctx).parts.entries@, "word/footnotes.xml"@)
            && part_rels_sound(old(ctx).parts.entries@, "word/endnotes.xml"@)),
{
    let ghost ctx0 = *ctx;
    let ghost w0 = texts(ctx.warnings@);
    proof {
        lemma_grows_refl(w0);
    }
    let n = sections.len();
    let ghost orig = sections@;
    let mut rev = reversed(sections);
    let mut out: Vec<Section> = Vec::new();
    let mut section_index: usize = 0;
    while rev.len() > 0
        invariant
            out@.len() + rev@.len() == n,
            section_index == out@.len(),
            n == orig.len(),
            orig == sections@,
            forall|j: int| 0 <= j < rev@.len() ==> #[trigger] rev@[j] == orig[n - 1 - j],
            forall|j: int| 0 <= j < out@.len() ==> {
                &&& orig[j].blocks@.is_prefix_of((#[trigger] out@[j]).blocks@)
                &&& same_geometry(out@[j], orig[j])
                &&& out@[j].headers == orig[j].headers
                &&& out@[j].footers == orig[j].footers
            },
            lacks_kind(out@, "__note_ref"@),
            lacks_kind(orig, "__sect_pr"@) ==> lacks_kind(out@, "__sect_pr"@),
            lacks_kind(orig, "__note_ref"@) ==> forall|j: int|
                0 <= j < out@.len() ==> (#[trigger] out@[j]).blocks@ == orig[j].blocks@,
            ctx0 == *old(ctx),
            w0 == texts(old(ctx).warnings@),
            same_sources(*ctx, ctx0),
            grows(w0, texts(ctx.warnings@)),
        decreases rev.len(),
    {
        let ghost at = out@.len() as int;
        let mut section = rev.pop().unwrap();
        assert(section == orig[at]);
        let ghost before = section;
        let ghost h_in = section.hidden@;
        let encoded = take_kind(&mut section.hidden, "__note_ref");
        let ghost hs = section.hidden@;
        let ghost had_no_refs = lacks_kind(orig, "__sect_pr"@);
        let ghost no_refs = lacks_kind(orig, "__note_ref"@);
        proof {
            if no_refs {
                assert forall|m: int| 0 <= m < h_in.len() implies (#[trigger] h_in[m]).kind@ != "__note_ref"@ by {
                    assert(orig[at].hidden@[m] == h_in[m]);
                }
                lemma_no_items_of_kind(h_in, "__note_ref"@);
            }
            lemma_items_of_kind_lack(h_in, "__note_ref"@, "__note_ref"@, false);
            if had_no_refs {
                assert forall|m: int| 0 <= m < h_in.len() implies (#[trigger] h_in[m]).kind@ != "__sect_pr"@ by {
                    assert(orig[at].hidden@[m] == h_in[m]);
                }
                lemma_items_of_kind_lack(h_in, "__note_ref"@, "__sect_pr"@, true);
            }
            lemma_markers_refl(hs);
        }
        let mut seen: Vec<(NoteKind, String)> = Vec::new();
        let mut k: usize = 0;
        while k < encoded.len()
            invariant
                k <= encoded.len(),
                before.blocks@.is_prefix_of(section.blocks@),
                same_geometry(section, before),
                section.headers == before.headers,
                section.footers == before.footers,
                had_no_refs == lacks_kind(orig, "__sect_pr"@),
                no_refs == lacks_kind(orig, "__note_ref"@),
                orig == sections@,
                no_refs ==> encoded@.len() == 0,
                encoded@.len() == 0 ==> section.blocks@ == before.blocks@,
                forall|m: int| 0 <= m < hs.len() ==> (#[trigger] hs[m]).kind@ != "__note_ref"@,
                had_no_refs ==> forall|m: int| 0 <= m < hs.len() ==> (#[trigger] hs[m]).kind@ != "__sect_pr"@,
                no_new_markers(hs, section.hidden@),
                ctx0 == *old(ctx),
                w0 == texts(old(ctx).warnings@),
                same_sources(*ctx, ctx0),
                grows(w0, texts(ctx.warnings@)),
            decreases encoded.len() - k,
        {
            let item = &encoded[k];
            k += 1;
            let pieces = split_char(item.content.as_str(), ':');
            if pieces.len() < 2 {
                continue;
            }
            let kind = if str_eq(pieces[0].as_str(), "endnote") {
                NoteKind::Endnote
            } else {
                NoteKind::Footnote
            };
            // the id is everything after the first colon
            let mut id_chars: Vec<char> = Vec::new();
            let mut q: usize = 1;
            while q < pieces.len()
                invariant
                    1 <= q <= pieces.len(),
                decreases pieces.len() - q,
            {
                if q > 1 {
                    id_chars.push(':');
                }
                push_str(&mut id_chars, pieces[q].as_str());
                q += 1;
            }
            let id = string_of(&id_chars);
            let reference_block = match &item.element {
                Some(e) => e.clone(),
                None => String::new(),
            };
            if seen_note(&seen, kind, id.as_str()) {
                continue;
            }
            seen.push((kind, id.clone()));
            let ghost wb = texts(ctx.warnings@);
            let found = match kind {
                NoteKind::Footnote => ctx.footnotes.get(id.as_str()),
                NoteKind::Endnote => ctx.endnotes.get(id.as_str()),
            };
            let note = match found {
                Some(x) => crate::xml::duplicate(x),
                None => {
                    let head = section_message(
                        section_index,
                        &[
                            match kind {
                                NoteKind::Footnote => "Footnote ",
                                NoteKind::Endnote => "Endnote ",
                            },
                        ],
                    );
                    push_warning(&mut ctx.warnings, quoted_message(head.as_str(), id.as_str(), " is referenced but missing"));
                    proof {
                        lemma_grows_trans(w0, wb, texts(ctx.warnings@));
                    }
                    continue;
                },
            };
            let path = match kind {
                NoteKind::Footnote => "word/footnotes.xml",
                NoteKind::Endnote => "word/endnotes.xml",
            };
            let rels_name = crate::relationships::rels_path(path);
            let rels_bytes: Option<&[u8]> = match ctx.parts.read(rels_name.as_str()) {
                Some(b) => Some(b.as_slice()),
                None => None,
            };
            proof {
                reveal_strlit("word/footnotes.xml");
                reveal_strlit("word/endnotes.xml");
                assert(path@ == "word/footnotes.xml"@ || path@ == "word/endnotes.xml"@);
            }
            let rels = match crate::relationships::relationships(rels_bytes, path) {
                Ok(x) => x,
                Err(e) => {
                    proof {
                        assert(!part_rels_sound(ctx0.parts.entries@, path@));
                    }
                    return Err(e);
                },
            };
            proof {
                let ghost rb: Option<Seq<u8>> = match rels_bytes {
                    Some(b) => Some(b@),
                    None => None,
                };
                assert(rels_read(rels, rb, ctx0.parts.entries@, path@));
                lemma_escaping_unsound(rels, rb, ctx0.parts.entries@, path@);
            }
            let mut ids = IdAllocator::new(with_number("s", section_index, "-b"));
            ids.next = section.blocks.len();
            let mut state = StoryState::new();
            let mut nested_refs: Vec<NoteReference> = Vec::new();
            let mut note_blocks: Vec<Block> = Vec::new();
            let mut c: usize = 0;
            proof {
                assert(!no_refs);
            }
            while c < note.children.len()
                invariant
                    c <= note.children.len(),
                    orig == sections@,
                    path@ == "word/footnotes.xml"@ || path@ == "word/endnotes.xml"@,
                    has_escaping_target(rels) ==> !part_rels_sound(ctx0.parts.entries@, path@),
                    !lacks_kind(orig, "__note_ref"@),
                    state.wf(),
                    before.blocks@.is_prefix_of(section.blocks@),
                    same_geometry(section, before),
                    section.headers == before.headers,
                    section.footers == before.footers,
                    no_new_markers(hs, section.hidden@),
                    ctx0 == *old(ctx),
                    w0 == texts(old(ctx).warnings@),
                    same_sources(*ctx, ctx0),
                    grows(w0, texts(ctx.warnings@)),
                decreases note.children.len() - c,
            {
                let child = &note.children[c];
                let name = child.local_name();
                let ghost wc = texts(ctx.warnings@);
                let ghost hb = section.hidden@;
                if str_eq(name.as_str(), "p") {
                    let got = extract_paragraph(
                        child,
                        &rels,
                        &mut ids,
                        &mut state,
                        &mut section.hidden,
                        &mut nested_refs,
                        ctx,
                        0,
                        false,
                    );
                    let ghost wm = texts(ctx.warnings@);
                    proof {
                        lemma_grows_trans(w0, wc, wm);
                        lemma_markers_trans(hs, hb, section.hidden@);
                    }
                    let mut parsed = match got {
                        Ok(v) => v,
                        Err(e) => {
                            return Err(e);
                        },
                    };
                    push_blocks(&mut note_blocks, &mut parsed, &mut state, ctx);
                    proof {
                        lemma_grows_trans(w0, wm, texts(ctx.warnings@));
                    }
                } else if str_eq(name.as_str(), "tbl") {
                    let got = extract_table(child, &rels, &mut ids, &mut section.hidden, &mut nested_refs, ctx, 0);
                    let ghost wm = texts(ctx.warnings@);
                    proof {
                        lemma_grows_trans(w0, wc, wm);
                        lemma_markers_trans(hs, hb, section.hidden@);
                    }
                    let block = match got {
                        Ok(v) => v,
                        Err(e) => {
                            return Err(e);
                        },
                    };
                    let mut parsed = vec![block];
                    push_blocks(&mut note_blocks, &mut parsed, &mut state, ctx);
                    proof {
                        lemma_grows_trans(w0, wm, texts(ctx.warnings@));
                    }
                }
                c += 1;
            }
            let ghost wd = texts(ctx.warnings@);
            finish_story(&mut note_blocks, &mut state, ctx);
            proof {
                lemma_grows_trans(w0, wd, texts(ctx.warnings@));
            }
            let content = block_text(&note_blocks);
            let ghost hf = section.hidden@;
            section.hidden.push(HiddenItem { kind: "footnote".to_string(), element: Some(reference_block), content });
            proof {
                lemma_field_not_marker();
                assert(section.hidden@ == hf.push(section.hidden@.last()));
                lemma_markers_push(hf, section.hidden@.last());
                lemma_markers_trans(hs, hf, section.hidden@);
            }
            let ghost kept = section.blocks@;
            section.blocks.append(&mut note_blocks);
            assert(kept.is_prefix_of(section.blocks@));
        }
        proof {
            lemma_still_lacks(hs, section.hidden@, "__note_ref"@);
            if had_no_refs {
                lemma_still_lacks(hs, section.hidden@, "__sect_pr"@);
            }
        }
        let ghost prev = out@;
        out.push(section);
        assert(out@.drop_last() == prev);
        assert forall|i: int, j: int|
            0 <= i < out@.len() && 0 <= j < out@[i].hidden@.len() implies (#[trigger] out@[i].hidden@[j]).kind@
                != "__note_ref"@ && (had_no_refs ==> out@[i].hidden@[j].kind@ != "__sect_pr"@) by {
            if i < prev.len() {
                assert(out@[i] == prev[i]);
            }
        }
        assert forall|i: int| no_refs && 0 <= i < out@.len() implies (#[trigger] out@[i]).blocks@ == orig[i].blocks@ by {
            if i < prev.len() {
                assert(out@[i] == prev[i]);
            }
        }
        section_index += 1;
    }
    Ok(out)
}

/// The larger of two numbers.
pub open spec fn larger(a: nat, b: nat) -> nat {
    if a >= b {
        a
    } else {
        b
    }
}

/// Of the paragraphs of `b` (nested ones included) that carry a page hint:
/// the most pages one lies beyond the first, and the highest page one lies
/// on; zero where none does.
pub open spec fn block_pages(b: Block) -> (nat, nat)
    decreases b,
{
    match b {
        Block::Paragraph { approx_page, .. } => match approx_page {
            Some(p) => (if p > 0 {
                (p - 1) as nat
            } else {
                0
            }, p as nat),
            None => (0, 0),
        },
        Block::Textbox { blocks, .. } => blocks_pages(blocks@),
        Block::Table { cells, .. } => cells_pages(cells@),
        _ => (0, 0),
    }
}

pub open spec fn blocks_pages(s: Seq<Block>) -> (nat, nat)
    decreases s,
{
    if s.len() == 0 {
        (0, 0)
    } else {
        let a = blocks_pages(s.drop_last());
        let b = block_pages(s.last());
        (larger(a.0, b.0), larger(a.1, b.1))
    }
}

pub open spec fn cells_pages(s: Seq<FlowTableCell>) -> (nat, nat)
    decreases s,
{
    if s.len() == 0 {
        (0, 0)
    } else {
        let a = cells_pages(s.drop_last());
        let b = match s.last().blocks {
            Some(v) => blocks_pages(v@),
            None => (0, 0),
        };
        (larger(a.0, b.0), larger(a.1, b.1))
    }
}

fn scan_cells(cells: &Vec<FlowTableCell>, hints: &mut u32, highest: &mut u32)
    ensures
        *final(hints) == larger(*old(hints) as nat, cells_pages(cells@).0),
        *final(highest) == larger(*old(highest) as nat, cells_pages(cells@).1),
    decreases cells,
{
    let ghost h0 = *hints as nat;
    let ghost t0 = *highest as nat;
    let mut i: usize = 0;
    assert(cells@.subrange(0, 0) =~= Seq::<FlowTableCell>::empty());
    while i < cells.len()
        invariant
            i <= cells.len(),
            *hints == larger(h0, cells_pages(cells@.subrange(0, i as int)).0),
            *highest == larger(t0, cells_pages(cells@.subrange(0, i as int)).1),
        decreases cells.len() - i,
    {
        proof {
            let p = cells@.subrange(0, i + 1);
            assert(p.drop_last() =~= cells@.subrange(0, i as int));
            assert(p.last() == cells@[i as int]);
        }
        match &cells[i].blocks {
            Some(v) => {
                proof {
                    assert(decreases_to!(cells@[i as int] => cells@[i as int].blocks));
                }
                scan_pages(v, hints, highest);
            },
            None => {},
        }
        i += 1;
    }
    assert(cells@.subrange(0, cells@.len() as int) =~= cells@);
}

fn scan_block(block: &Block, hints: &mut u32, highest: &mut u32)
    ensures
        *final(hints) == larger(*old(hints) as nat, block_pages(*block).0),
        *final(highest) == larger(*old(highest) as nat, block_pages(*block).1),
    decreases block,
{
    match block {
        Block::Paragraph { approx_page, .. } => match approx_page {
            Some(page) => {
                let before = if *page > 0 {
                    *page - 1
                } else {
                    0
                };
                if before > *hints {
                    *hints = before;
                }
                if *page > *highest {
                    *highest = *page;
                }
            },
            None => {},
        },
        Block::Textbox { blocks, .. } => scan_pages(blocks, hints, highest),
        Block::Table { cells, .. } => scan_cells(cells, hints, highest),
        _ => {},
    }
}

/// Raises `hints` to the most pages any paragraph among `blocks` (nested
/// ones included) lies beyond the first, and `highest` to the highest page
/// any of them is on.
fn scan_pages(blocks: &Vec<Block>, hints: &mut u32, highest: &mut u32)
    ensures
        *final(hints) == larger(*old(hints) as nat, blocks_pages(blocks@).0),
        *final(highest) == larger(*old(highest) as nat, blocks_pages(blocks@).1),
    decreases blocks,
{
    let ghost h0 = *hints as nat;
    let ghost t0 = *highest as nat;
    let mut i: usize = 0;
    assert(blocks@.subrange(0, 0) =~= Seq::<Block>::empty());
    while i < blocks.len()
        invariant
            i <= blocks.len(),
            *hints == larger(h0, blocks_pages(blocks@.subrange(0, i as int)).0),
            *highest == larger(t0, blocks_pages(blocks@.subrange(0, i as int)).1),
        decreases blocks.len() - i,
    {
        proof {
            let p = blocks@.subrange(0, i + 1);
            assert(p.drop_last() =~= blocks@.subrange(0, i as int));
            assert(p.last() == blocks@[i as int]);
        }
        scan_block(&blocks[i], hints, highest);
        i += 1;
    }
    assert(blocks@.subrange(0, blocks@.len() as int) =~= blocks@);
}

fn cells_without_pages(cells: Vec<FlowTableCell>) -> (r: Vec<FlowTableCell>)
    ensures
        r@.len() == cells@.len(),
        cells_pages(r@) == (0nat, 0nat),
    decreases cells,
{
    let ghost orig = cells;
    let n = cells.len();
    let mut rev = reversed(cells);
    let mut out: Vec<FlowTableCell> = Vec::new();
    while rev.len() > 0
        invariant
            orig == cells,
            n == orig@.len(),
            rev@.len() + out@.len() == n,
            forall|j: int| 0 <= j < rev@.len() ==> #[trigger] rev@[j] == orig@[orig@.len() - 1 - j],
            cells_pages(out@) == (0nat, 0nat),
        decreases rev.len(),
    {
        let k = out.len();
        let cell = rev.pop().unwrap();
        proof {
            assert(cell == orig@[k as int]);
            assert(decreases_to!(orig => orig@));
            assert(decreases_to!(orig@ => orig@[k as int]));
            assert(decreases_to!(orig@[k as int] => orig@[k as int].blocks));
        }
        let blocks = match cell.blocks {
            Some(v) => {
                proof {
                    assert(decreases_to!(orig => v));
                }
                Some(without_pages(v))
            },
            None => None,
        };
        let rebuilt = FlowTableCell {
            row: cell.row,
            col: cell.col,
            row_span: cell.row_span,
            col_span: cell.col_span,
            content: cell.content,
            runs: cell.runs,
            blocks,
        };
        let ghost before = out@;
        out.push(rebuilt);
        assert(out@.drop_last() =~= before);
    }
    out
}

/// `blocks` with the page hints of every paragraph (nested ones included)
/// removed.
fn without_pages(blocks: Vec<Block>) -> (r: Vec<Block>)
    ensures
        r@.len() == blocks@.len(),
        blocks_pages(r@) == (0nat, 0nat),
    decreases blocks,
{
    let ghost orig = blocks;
    let n = blocks.len();
    let mut rev = reversed(blocks);
    let mut out: Vec<Block> = Vec::new();
    while rev.len() > 0
        invariant
            orig == blocks,
            n == orig@.len(),
            rev@.len() + out@.len() == n,
            forall|j: int| 0 <= j < rev@.len() ==> #[trigger] rev@[j] == orig@[orig@.len() - 1 - j],
            blocks_pages(out@) == (0nat, 0nat),
        decreases rev.len(),
    {
        let k = out.len();
        let block = rev.pop().unwrap();
        proof {
            assert(block == orig@[k as int]);
            assert(decreases_to!(orig => orig@));
            assert(decreases_to!(orig@ => orig@[k as int]));
        }
        let rebuilt = match block {
            Block::Paragraph { id, role, runs, content, list, placement, approx_page: _, breaks_before } => {
                Block::Paragraph { id, role, runs, content, list, placement, approx_page: None, breaks_before }
            },
            Block::Textbox { id, placement, blocks: inner } => {
                proof {
                    assert(decreases_to!(orig => inner));
                }
                Block::Textbox { id, placement, blocks: without_pages(inner) }
            },
            Block::Table { id, col_widths, rows, cols, cells, placement, approx_page } => {
                proof {
                    assert(decreases_to!(orig => cells));
                }
                Block::Table { id, col_widths, rows, cols, cells: cells_without_pages(cells), placement, approx_page }
            },
            other => other,
        };
        assert(block_pages(rebuilt) == (0nat, 0nat));
        let ghost before = out@;
        out.push(rebuilt);
        assert(out@.drop_last() =~= before);
        assert(out@.last() == rebuilt);
    }
    out
}

/// A page reading whose first part (pages beyond the first) is zero or
/// below its second (the highest page).
pub open spec fn consistent_pages(x: (nat, nat)) -> bool {
    x.0 == 0 || x.0 + 1 <= x.1
}

proof fn lemma_blocks_pages_consistent(s: Seq<Block>)
    ensures
        consistent_pages(blocks_pages(s)),
    decreases s, 0nat,
{
    if s.len() > 0 {
        lemma_blocks_pages_consistent(s.drop_last());
        lemma_block_pages_consistent(s.last());
    }
}

proof fn lemma_block_pages_consistent(b: Block)
    ensures
        consistent_pages(block_pages(b)),
    decreases b, 1nat,
{
    match b {
        Block::Textbox { blocks, .. } => {
            assert(decreases_to!(b => blocks));
            lemma_blocks_pages_consistent(blocks@);
        },
        Block::Table { cells, .. } => {
            assert(decreases_to!(b => cells));
            lemma_cells_pages_consistent(cells@);
        },
        _ => {},
    }
}

proof fn lemma_cells_pages_consistent(s: Seq<FlowTableCell>)
    ensures
        consistent_pages(cells_pages(s)),
    decreases s, 0nat,
{
    if s.len() > 0 {
        lemma_cells_pages_consistent(s.drop_last());
        match s.last().blocks {
            Some(v) => {
                assert(decreases_to!(s => s.last()));
                lemma_blocks_pages_consistent(v@);
            },
            None => {},
        }
    }
}

proof fn lemma_sections_pages_consistent(s: Seq<Section>)
    ensures
        consistent_pages(sections_pages(s)),
    decreases s.len(),
{
    if s.len() > 0 {
        lemma_sections_pages_consistent(s.drop_last());
        lemma_blocks_pages_consistent(s.last().blocks@);
    }
}

/// Of the paragraphs of `s` that carry a page hint (see `block_pages`), the
/// most pages one lies beyond the first and the highest page one lies on.
pub open spec fn sections_pages(s: Seq<Section>) -> (nat, nat)
    decreases s.len(),
{
    if s.len() == 0 {
        (0, 0)
    } else {
        let a = sections_pages(s.drop_last());
        let b = blocks_pages(s.last().blocks@);
        (larger(a.0, b.0), larger(a.1, b.1))
    }
}

/// The number of blocks of `sections` (see `block_total`).
pub open spec fn sections_total(s: Seq<Section>) -> nat
    decreases s.len(),
{
    if s.len() == 0 {
        0
    } else {
        sections_total(s.drop_last()) + blocks_total(s.last().blocks@)
    }
}

/// The page count a flow document stands for, from its block count: one
/// page per 200 blocks, rounded up, at most `u32::MAX`.
pub open spec fn pages_for_blocks(blocks: nat) -> u32 {
    let pages = blocks / 200 + if blocks % 200 != 0 {
        1nat
    } else {
        0
    };
    if pages <= u32::MAX {
        pages as u32
    } else {
        u32::MAX
    }
}

pub open spec fn block_cap_note() -> Seq<char> {
    "max_pages approximated as block cap for flow documents"@
}

/// Holds a flow document to `max_pages`: by its page hints where it has
/// them, else (with a warning) by its block count, at 200 blocks a page.
pub fn enforce_max_pages(
    max_pages: Option<u32>,
    approx_pages: Option<u32>,
    sections: &Vec<Section>,
    warnings: &mut Vec<String>,
) -> (r: Result<(), ExtractError>)
    ensures
        match max_pages {
            None => r is Ok && final(warnings)@ == old(warnings)@,
            Some(limit) => match approx_pages {
                Some(actual) => final(warnings)@ == old(warnings)@ && if actual > limit {
                    r == Err::<(), ExtractError>(ExtractError::TooManyPages { limit, actual })
                } else {
                    r is Ok
                },
                None => {
                    let blocks = saturated(sections_total(sections@));
                    let cap = saturated((limit * 200) as nat);
                    &&& texts(final(warnings)@) == texts(old(warnings)@).push(block_cap_note())
                    &&& if blocks > cap {
                        r == Err::<(), ExtractError>(
                            ExtractError::TooManyPages { limit, actual: pages_for_blocks(blocks as nat) },
                        )
                    } else {
                        r is Ok
                    }
                },
            },
        },
{
    let limit = match max_pages {
        Some(l) => l,
        None => {
            return Ok(());
        },
    };
    match approx_pages {
        Some(actual) => {
            if actual > limit {
                return Err(ExtractError::TooManyPages { limit, actual });
            }
            return Ok(());
        },
        None => {},
    }
    let ghost w0 = texts(warnings@);
    warnings.push("max_pages approximated as block cap for flow documents".to_string());
    assert(texts(warnings@) =~= w0.push(block_cap_note()));
    let mut blocks: usize = 0;
    let mut i: usize = 0;
    while i < sections.len()
        invariant
            i <= sections.len(),
            blocks == saturated(sections_total(sections@.subrange(0, i as int))),
        decreases sections.len() - i,
    {
        proof {
            assert(sections@.subrange(0, i as int + 1).drop_last() =~= sections@.subrange(0, i as int));
            assert(sections@.subrange(0, i as int + 1).last() == sections@[i as int]);
        }
        let n = count_seq(&sections[i].blocks);
        blocks = blocks.saturating_add(n);
        i += 1;
    }
    proof {
        assert(sections@.subrange(0, sections@.len() as int) =~= sections@);
    }
    let wide: u64 = limit as u64 * 200;
    let cap: usize = if wide <= usize::MAX as u64 {
        wide as usize
    } else {
        usize::MAX
    };
    if blocks > cap {
        let pages = blocks / 200 + if blocks % 200 != 0 {
            1
        } else {
            0
        };
        let actual: u32 = if pages <= u32::MAX as usize {
            pages as u32
        } else {
            u32::MAX
        };
        return Err(ExtractError::TooManyPages { limit, actual });
    }
    Ok(())
}

/// The compound-file signature of legacy and encrypted Office documents.
pub open spec fn is_compound_file(b: Seq<u8>) -> bool {
    &&& b.len() >= 8
    &&& b[0] == 0xd0u8
    &&& b[1] == 0xcfu8
    &&& b[2] == 0x11u8
    &&& b[3] == 0xe0u8
    &&& b[4] == 0xa1u8
    &&& b[5] == 0xb1u8
    &&& b[6] == 0x1au8
    &&& b[7] == 0xe1u8
}

fn compound_file(bytes: &[u8]) -> (r: bool)
    ensures
        r == is_compound_file(bytes@),
{
    bytes.len() >= 8 && bytes[0] == 0xd0 && bytes[1] == 0xcf && bytes[2] == 0x11 && bytes[3] == 0xe0
        && bytes[4] == 0xa1 && bytes[5] == 0xb1 && bytes[6] == 0x1a && bytes[7] == 0xe1
}

fn empty_theme() -> (t: Theme)
    ensures
        t.colors.wf(),
        t.colors.entries@.len() == 0,
        t.major_latin is None && t.major_east_asia is None && t.major_complex_script is None,
        t.minor_latin is None && t.minor_east_asia is None && t.minor_complex_script is None,
{
    Theme {
        colors: StrMap::new(),
        major_latin: None,
        major_east_asia: None,
        major_complex_script: None,
        minor_latin: None,
        minor_east_asia: None,
        minor_complex_script: None,
    }
}

fn part_bytes<'a>(parts: &'a Parts, name: &str) -> (r: Option<&'a [u8]>)
    ensures
        match part_of(parts.entries@, name@) {
            Some(b) => r matches Some(x) && x@ == b,
            None => r is None,
        },
{
    match parts.read(name) {
        Some(b) => Some(b.as_slice()),
        None => None,
    }
}

/// The format a package declares: `docm` where its content types name a
/// macro-enabled main part, else `docx`.
pub open spec fn package_format(entries: Seq<(String, Vec<u8>)>) -> Seq<char> {
    match part_of(entries, "[Content_Types].xml"@) {
        Some(b) => if crate::docx::contains_text(vstd::utf8::decode_utf8(b), "macroEnabled.main+xml"@) {
            "docm"@
        } else {
            "docx"@
        },
        None => "docx"@,
    }
}

/// What an extraction of the package `bytes` with the parts `entries`
/// promises: its schema and layout, the digest and size of the bytes, the
/// format the content types declare (a macro-enabled document warns first
/// that its macros are ignored), the metadata of a package without core
/// properties, at least one section, no internal marker left, and a page
/// count that is past the first page and reaches every page hint.
pub open spec fn extracted_from(x: FlowExtraction, bytes: Seq<u8>, parts_entries: Seq<(String, Vec<u8>)>) -> bool {
    &&& x.schema_version@ == "1.7"@
    &&& x.layout == FlowLayout::Flow
    &&& x.source.sha256@ == hex_text(sha256_of(bytes))
    &&& x.source.size_bytes == bytes.len()
    &&& x.source.format@ == package_format(parts_entries)
    &&& (x.source.format@ == "docm"@ ==> texts(x.warnings@).len() >= 1 && texts(x.warnings@)[0]
        == "macro project ignored"@)
    &&& (part_of(parts_entries, "docProps/core.xml"@) is None ==> x.document.metadata.title is None
        && x.document.metadata.author is None)
    &&& x.sections@.len() >= 1
    &&& lacks_kind(x.sections@, "__sect_pr"@) && lacks_kind(x.sections@, "__note_ref"@)
    &&& match x.approx_pages {
        Some(p) => p >= 2 && p >= sections_pages(x.sections@).1,
        None => sections_pages(x.sections@) == (0nat, 0nat),
    }
}

/// `x` keeps to the page cap `max_pages`: by its page count where it has
/// one, else by its block count at 200 blocks a page.
pub open spec fn within_page_cap(max_pages: Option<u32>, x: FlowExtraction) -> bool {
    match max_pages {
        None => true,
        Some(limit) => match x.approx_pages {
            Some(p) => p <= limit,
            None => saturated(sections_total(x.sections@)) <= saturated((limit * 200) as nat),
        },
    }
}

impl DocxExtractor {
    /// Extracts a Word document. `bytes` is the package as read and
    /// `numbers` the readings of its numerals. A compound-file (legacy or
    /// encrypted) document is refused; the parts are read from the ZIP
    /// container (see `read_parts`), and a package without a main document
    /// part is refused. The main document, styles,
    /// numbering, theme, comments and notes are read; the body becomes
    /// sections (see `extract_body`) with their header and footer stories
    /// and notes attached. The document's page count is the last page that a
    /// paragraph or the end of the body lies on; page hints are kept only
    /// where that is past the first page. `max_pages` is enforced (see
    /// `enforce_max_pages`).
    pub fn extract(&self, bytes: &[u8], numbers: Numbers, max_pages: Option<u32>) -> (r: Result<
        FlowExtraction,
        ExtractError,
    >)
        ensures
            is_compound_file(bytes@) ==> (r matches Err(ExtractError::UnsupportedFormatMessage(m)) && m@
                == "legacy or encrypted Office documents are not supported"@),
            !is_compound_file(bytes@) ==> match package_parts(bytes@) {
                Err(m) => r matches Err(ExtractError::ParseFailure(e)) && e@ == m,
                Ok(es) => !has_entry(es, "word/document.xml"@) ==> (r matches Err(
                    ExtractError::UnsupportedFormatMessage(m),
                ) && m@ == "zip archive is not a Word document"@),
            },
            r matches Ok(x) ==> package_parts(bytes@) is Ok && exists|es: Seq<(String, Vec<u8>)>|
                #[trigger] entry_views(es) == package_parts(bytes@)->Ok_0 && extracted_from(x, bytes@, es),
            r matches Err(e) ==> (e is ParseFailure || e is UnsupportedFormatMessage || e is TooManyPages),
            r matches Ok(x) ==> within_page_cap(max_pages, x),
            !is_compound_file(bytes@) && package_parts(bytes@) is Ok && (forall|ps: Seq<(String, Vec<u8>)>|
                #[trigger] entry_views(ps) == package_parts(bytes@)->Ok_0 ==> word_package_sound(ps)) ==> (r is Ok
                || r matches Err(ExtractError::TooManyPages { .. })),
            r matches Err(ExtractError::TooManyPages { limit, actual }) ==> max_pages == Some(limit),
    {
        if compound_file(bytes) {
            return Err(ExtractError::UnsupportedFormatMessage(
                "legacy or encrypted Office documents are not supported".to_string(),
            ));
        }
        let parts = read_parts(bytes)?;
        proof {
            lemma_part_of_has_entry(parts.entries@, "word/document.xml"@);
        }
        let r = self.extract_package(bytes, parts, numbers, max_pages);
        r
    }

    /// Extracts a Word document whose package `bytes` holds the parts
    /// `parts` (see `extract`).
    #[verifier::rlimit(60)]
    fn extract_package(&self, bytes: &[u8], parts: Parts, numbers: Numbers, max_pages: Option<u32>) -> (r: Result<
        FlowExtraction,
        ExtractError,
    >)
        ensures
            is_compound_file(bytes@) ==> (r matches Err(ExtractError::UnsupportedFormatMessage(m)) && m@
                == "legacy or encrypted Office documents are not supported"@),
            !is_compound_file(bytes@) && part_of(parts.entries@, "word/document.xml"@) is None ==> (r matches Err(
                ExtractError::UnsupportedFormatMessage(m),
            ) && m@ == "zip archive is not a Word document"@),
            r matches Ok(x) ==> extracted_from(x, bytes@, parts.entries@),
            r matches Err(e) ==> (e is ParseFailure || e is UnsupportedFormatMessage || e is TooManyPages),
            r matches Ok(x) ==> within_page_cap(max_pages, x),
            !is_compound_file(bytes@) && word_package_sound(parts.entries@) ==> (r is Ok || r matches Err(
                ExtractError::TooManyPages { .. },
            )),
            r matches Err(ExtractError::TooManyPages { limit, actual }) ==> max_pages == Some(limit),
    {        if compound_file(bytes) {
            return Err(ExtractError::UnsupportedFormatMessage(
                "legacy or encrypted Office documents are not supported".to_string(),
            ));
        }
        if !parts.contains("word/document.xml") {
            return Err(ExtractError::UnsupportedFormatMessage("zip archive is not a Word document".to_string()));
        }
        let mut warnings: Vec<String> = Vec::new();
        let format = crate::docx::source_format(part_bytes(&parts, "[Content_Types].xml"))?;
        if str_eq(format, "docm") {
            warnings.push("macro project ignored".to_string());
        }
        // what the warnings start with stays at their start
        let ghost w_start = texts(warnings@);
        proof {
            lemma_grows_refl(w_start);
        }
        let metadata = metadata(&parts)?;
        let ghost wa = texts(warnings@);
        let document = xml_required_mc(&parts, "word/document.xml", &mut warnings)?;
        proof {
            lemma_grows_trans(w_start, wa, texts(warnings@));
        }
        let ghost wb = texts(warnings@);
        let styles_root = xml_optional_mc(&parts, "word/styles.xml", &mut warnings)?;
        proof {
            lemma_grows_trans(w_start, wb, texts(warnings@));
        }
        let ghost wc = texts(warnings@);
        let numbering_root = xml_optional_mc(&parts, "word/numbering.xml", &mut warnings)?;
        proof {
            lemma_grows_trans(w_start, wc, texts(warnings@));
        }
        let ghost wd = texts(warnings@);
        let theme_root = xml_optional_mc(&parts, "word/theme/theme1.xml", &mut warnings)?;
        proof {
            lemma_grows_trans(w_start, wd, texts(warnings@));
        }
        let ghost we = texts(warnings@);
        let comments = load_comments(&parts, &mut warnings)?;
        proof {
            lemma_grows_trans(w_start, we, texts(warnings@));
        }
        let ghost wf = texts(warnings@);
        let (footnotes, endnotes) = load_notes(&parts, &mut warnings)?;
        proof {
            lemma_grows_trans(w_start, wf, texts(warnings@));
        }
        let rels_name = crate::relationships::rels_path("word/document.xml");
        let rels_part = part_bytes(&parts, rels_name.as_str());
        let document_rels = crate::relationships::relationships(rels_part, "word/document.xml")?;
        proof {
            let rb: Option<Seq<u8>> = match rels_part {
                Some(b) => Some(b@),
                None => None,
            };
            assert(rels_read(document_rels, rb, parts.entries@, "word/document.xml"@));
            lemma_escaping_unsound(document_rels, rb, parts.entries@, "word/document.xml"@);
        }
        let styles = Styles::from_xml(styles_root.as_ref());
        let numbering = Numbering::from_xml(numbering_root.as_ref());
        let theme = match &theme_root {
            Some(root) => Theme::from_xml(root),
            None => empty_theme(),
        };
        let mut ctx = Context { parts, numbers, styles, numbering, theme, comments, footnotes, endnotes, warnings };
        let body = match document.first_descendant("body") {
            Some(b) => b,
            None => {
                return Err(ExtractError::ParseFailure("word/document.xml has no w:body".to_string()));
            },
        };
        let ghost wg = texts(ctx.warnings@);
        let (sections, last_page) = extract_body(body, &document_rels, &mut ctx)?;
        proof {
            lemma_grows_trans(w_start, wg, texts(ctx.warnings@));
        }
        let ghost wh = texts(ctx.warnings@);
        let sections = attach_section_stories(sections, &document_rels, &mut ctx)?;
        proof {
            lemma_grows_trans(w_start, wh, texts(ctx.warnings@));
        }
        let ghost wi = texts(ctx.warnings@);
        let sections = attach_notes(sections, &mut ctx)?;
        proof {
            lemma_grows_trans(w_start, wi, texts(ctx.warnings@));
        }
        // the page the body ends on counts, though no paragraph starts there
        let mut hints: u32 = last_page - 1;
        let mut highest: u32 = last_page;
        let mut i: usize = 0;
        assert(sections@.subrange(0, 0) =~= Seq::<Section>::empty());
        while i < sections.len()
            invariant
                i <= sections.len(),
                last_page >= 1,
                hints == larger((last_page - 1) as nat, sections_pages(sections@.subrange(0, i as int)).0),
                highest == larger(last_page as nat, sections_pages(sections@.subrange(0, i as int)).1),
            decreases sections.len() - i,
        {
            proof {
                let p = sections@.subrange(0, i + 1);
                assert(p.drop_last() =~= sections@.subrange(0, i as int));
                assert(p.last() == sections@[i as int]);
            }
            scan_pages(&sections[i].blocks, &mut hints, &mut highest);
            i += 1;
        }
        assert(sections@.subrange(0, sections@.len() as int) =~= sections@);
        proof {
            lemma_sections_pages_consistent(sections@);
        }
        let n = sections.len();
        let ghost read = sections@;
        let approx_pages = if hints == 0 {
            let mut rev = reversed(sections);
            let mut cleared: Vec<Section> = Vec::new();
            while rev.len() > 0
                invariant
                    cleared@.len() + rev@.len() == n,
                    n == read.len(),
                    sections_pages(cleared@) == (0nat, 0nat),
                    forall|j: int| 0 <= j < rev@.len() ==> #[trigger] rev@[j] == read[n - 1 - j],
                    lacks_kind(read, "__sect_pr"@) && lacks_kind(read, "__note_ref"@),
                    lacks_kind(cleared@, "__sect_pr"@) && lacks_kind(cleared@, "__note_ref"@),
                decreases rev.len(),
            {
                let ghost at = (n - rev@.len()) as int;
                let mut section = rev.pop().unwrap();
                assert(section == read[at]);
                let mut taken: Vec<Block> = Vec::new();
                taken.append(&mut section.blocks);
                section.blocks = without_pages(taken);
                let ghost before = cleared@;
                cleared.push(section);
                assert(cleared@.drop_last() =~= before);
                assert forall|i: int, j: int|
                    0 <= i < cleared@.len() && 0 <= j < cleared@[i].hidden@.len() implies (
                    #[trigger] cleared@[i].hidden@[j]).kind@ != "__sect_pr"@ && cleared@[i].hidden@[j].kind@
                        != "__note_ref"@ by {
                    if i < before.len() {
                        assert(cleared@[i] == before[i]);
                    } else {
                        assert(cleared@[i].hidden@[j] == read[at].hidden@[j]);
                    }
                }
            }
            let ghost wj = texts(ctx.warnings@);
            let note = "no pagination hints; approx_page omitted".to_string();
            proof {
                lemma_texts_push(ctx.warnings@, note);
                lemma_grows_append(wj, seq![note@]);
                assert(wj.push(note@) =~= wj + seq![note@]);
                lemma_grows_trans(w_start, wj, texts(ctx.warnings@.push(note)));
            }
            ctx.warnings.push(note);
            (None, cleared)
        } else {
            (Some(highest), sections)
        };
        let (approx_pages, sections) = approx_pages;
        let ghost wk = texts(ctx.warnings@);
        let capped = enforce_max_pages(max_pages, approx_pages, &sections, &mut ctx.warnings);
        proof {
            // the page check adds at most its note
            if texts(ctx.warnings@) == wk {
                lemma_grows_refl(wk);
            } else {
                assert(texts(ctx.warnings@) == wk.push(block_cap_note()));
                lemma_grows_append(wk, seq![block_cap_note()]);
                assert(wk.push(block_cap_note()) =~= wk + seq![block_cap_note()]);
            }
            lemma_grows_trans(w_start, wk, texts(ctx.warnings@));
            if w_start.len() >= 1 {
                assert(texts(ctx.warnings@).subrange(0, w_start.len() as int)[0] == texts(ctx.warnings@)[0]);
            }
        }
        capped?;
        Ok(FlowExtraction {
            schema_version: "1.7".to_string(),
            layout: FlowLayout::Flow,
            source: Source {
                format: format.to_string(),
                sha256: crate::docx::content_hash(bytes),
                size_bytes: bytes.len() as u64,
            },
            document: FlowDocumentInfo { metadata },
            warnings: ctx.warnings,
            approx_pages,
            sections,
        })
    }
}

/// The attribute values of `attrs`, in order.
pub open spec fn attr_values(attrs: Seq<(String, String)>) -> Seq<Seq<char>>
    decreases attrs.len(),
{
    if attrs.len() == 0 {
        Seq::empty()
    } else {
        attr_values(attrs.drop_last()).push(attrs.last().1@)
    }
}

/// The texts of a tree that may be numerals: each node's attribute values
/// and text, in document order.
pub open spec fn node_numerals(n: Node) -> Seq<Seq<char>>
    decreases n, 1nat,
{
    attr_values(n.attrs.entries@).push(n.text@) + forest_numerals(n.children@)
}

pub open spec fn forest_numerals(s: Seq<Node>) -> Seq<Seq<char>>
    decreases s, 0nat,
{
    if s.len() == 0 {
        Seq::empty()
    } else {
        forest_numerals(s.subrange(0, s.len() - 1)) + node_numerals(s[s.len() - 1])
    }
}

/// Appends the texts of `node` that may be numerals (see `node_numerals`)
/// to `out`: what a number reader is to read for `Numbers`.
pub fn collect_numerals(node: &Node, out: &mut Vec<String>)
    ensures
        texts(final(out)@) == texts(old(out)@) + node_numerals(*node),
    decreases node, 1nat,
{
    let ghost start = texts(out@);
    let mut i: usize = 0;
    assert(start =~= start + attr_values(node.attrs.entries@.subrange(0, 0)));
    while i < node.attrs.entries.len()
        invariant
            i <= node.attrs.entries.len(),
            texts(out@) == start + attr_values(node.attrs.entries@.subrange(0, i as int)),
        decreases node.attrs.entries.len() - i,
    {
        proof {
            let p = node.attrs.entries@.subrange(0, i as int + 1);
            assert(p.drop_last() =~= node.attrs.entries@.subrange(0, i as int));
            assert(p.last() == node.attrs.entries@[i as int]);
        }
        let ghost before = texts(out@);
        out.push(node.attrs.entries[i].1.clone());
        proof {
            assert(texts(out@) =~= before.push(node.attrs.entries@[i as int].1@));
            assert(texts(out@) =~= start + attr_values(node.attrs.entries@.subrange(0, i as int + 1)));
        }
        i += 1;
    }
    assert(node.attrs.entries@.subrange(0, node.attrs.entries@.len() as int) =~= node.attrs.entries@);
    let ghost mid = texts(out@);
    out.push(node.text.clone());
    assert(texts(out@) =~= mid.push(node.text@));
    let ghost mid2 = texts(out@);
    assert(decreases_to!(node => node.children@));
    collect_forest_numerals(&node.children, out);
    proof {
        assert(texts(out@) =~= texts(old(out)@) + node_numerals(*node));
    }
}

fn collect_forest_numerals(nodes: &Vec<Node>, out: &mut Vec<String>)
    ensures
        texts(final(out)@) == texts(old(out)@) + forest_numerals(nodes@),
    decreases nodes@, 0nat,
{
    let ghost start = texts(out@);
    let mut i: usize = 0;
    assert(start =~= start + forest_numerals(nodes@.subrange(0, 0)));
    while i < nodes.len()
        invariant
            i <= nodes.len(),
            texts(out@) == start + forest_numerals(nodes@.subrange(0, i as int)),
        decreases nodes.len() - i,
    {
        let ghost p = nodes@.subrange(0, i as int + 1);
        proof {
            assert(p.subrange(0, p.len() - 1) =~= nodes@.subrange(0, i as int));
            assert(p[p.len() - 1] == nodes@[i as int]);
        }
        assert(decreases_to!(nodes@ => nodes@[i as int]));
        collect_numerals(&nodes[i], out);
        proof {
            assert(texts(out@) =~= start + forest_numerals(p));
        }
        i += 1;
    }
    assert(nodes@.subrange(0, nodes.len() as int) =~= nodes@);
}

} // verus!

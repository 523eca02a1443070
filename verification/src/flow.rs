//! The flow model of a word-processing document: sections of blocks, as the
//! document authors them. Lengths are kept as the numerals the document
//! writes, with their unit; the serialized model around the library turns
//! them into points.
use vstd::prelude::*;
use crate::model::{BreakKind, FlowDocumentInfo, FlowLayout, HiddenItem, ListInfo, PlacementFrame, Source};

verus! {

/// An authored length, as written, in the unit it is written in.
#[derive(Debug)]
pub enum Length {
    /// Twentieths of a point.
    Twips(String),
    /// English metric units (12700 to the point).
    Emu(String),
}

/// Authored placement constraints of a floating block.
#[derive(Debug)]
pub struct Placement {
    pub frame: PlacementFrame,
    pub x: Option<Length>,
    pub y: Option<Length>,
    pub width: Option<Length>,
    pub height: Option<Length>,
    pub align_h: Option<String>,
    pub align_v: Option<String>,
}

/// A run's font: its face, its size (the half-point numeral that decides it,
/// `None` for the default of 11 points, and the key of the size it reads as),
/// and its weight and slant.
#[derive(Debug)]
pub struct Font {
    pub name: String,
    pub size: Option<String>,
    pub size_key: u64,
    pub bold: bool,
    pub italic: bool,
}

/// A stretch of text with one formatting.
#[derive(Debug)]
pub struct TextRun {
    pub content: String,
    pub font: Font,
    pub fill: Option<[u8; 3]>,
    pub href: Option<String>,
}

/// A table cell: its grid position and span, its text, its runs, and its
/// blocks where it holds more than paragraphs.
#[derive(Debug)]
pub struct FlowTableCell {
    pub row: usize,
    pub col: usize,
    pub row_span: usize,
    pub col_span: usize,
    pub content: String,
    pub runs: Vec<TextRun>,
    pub blocks: Option<Vec<Block>>,
}

/// A block of a story. Column widths and image extents are the numerals
/// the document writes (twips for widths, English metric units for extents).
#[derive(Debug)]
pub enum Block {
    Paragraph {
        id: String,
        role: String,
        runs: Vec<TextRun>,
        content: String,
        list: Option<ListInfo>,
        placement: Option<Placement>,
        approx_page: Option<u32>,
        breaks_before: Vec<BreakKind>,
    },
    Table {
        id: String,
        col_widths: Vec<String>,
        rows: usize,
        cols: usize,
        cells: Vec<FlowTableCell>,
        placement: Option<Placement>,
        approx_page: Option<u32>,
    },
    Image {
        id: String,
        width: Option<String>,
        height: Option<String>,
        content_hash: Option<String>,
        placement: Option<Placement>,
    },
    Textbox { id: String, placement: Option<Placement>, blocks: Vec<Block> },
    Break { kind: BreakKind },
}

/// A header or footer story and the pages it is for.
#[derive(Debug)]
pub enum Story {
    Default { blocks: Vec<Block> },
    First { blocks: Vec<Block> },
    Even { blocks: Vec<Block> },
}

/// Page margins as twips numerals; an absent one is an inch.
#[derive(Debug)]
pub struct Margins {
    pub top: Option<String>,
    pub right: Option<String>,
    pub bottom: Option<String>,
    pub left: Option<String>,
}

/// A section: its page size (twips numerals; absent ones are US Letter),
/// margins, column count, header and footer stories, body blocks and hidden
/// context.
#[derive(Debug)]
pub struct Section {
    pub page_width: Option<String>,
    pub page_height: Option<String>,
    pub margins: Margins,
    pub columns: Option<u32>,
    pub headers: Vec<Story>,
    pub footers: Vec<Story>,
    pub blocks: Vec<Block>,
    pub hidden: Vec<HiddenItem>,
}

/// A flow document.
#[derive(Debug)]
pub struct FlowExtraction {
    pub schema_version: String,
    pub layout: FlowLayout,
    pub source: Source,
    pub document: FlowDocumentInfo,
    pub warnings: Vec<String>,
    pub approx_pages: Option<u32>,
    pub sections: Vec<Section>,
}

/// The text of runs, one after another.
pub open spec fn runs_text(s: Seq<TextRun>) -> Seq<char>
    decreases s.len(),
{
    if s.len() == 0 {
        Seq::empty()
    } else {
        runs_text(s.drop_last()) + s.last().content@
    }
}

/// The text of the paragraphs among `s`, one after another.
pub open spec fn para_text(s: Seq<Block>) -> Seq<char>
    decreases s.len(),
{
    if s.len() == 0 {
        Seq::empty()
    } else {
        para_text(s.drop_last()) + match s.last() {
            Block::Paragraph { content, .. } => content@,
            _ => Seq::empty(),
        }
    }
}

pub proof fn lemma_runs_text_append(a: Seq<TextRun>, b: Seq<TextRun>)
    ensures
        runs_text(a + b) == runs_text(a) + runs_text(b),
    decreases b.len(),
{
    if b.len() == 0 {
        assert(a + b =~= a);
        assert(runs_text(a) + runs_text(b) =~= runs_text(a));
    } else {
        lemma_runs_text_append(a, b.drop_last());
        assert((a + b).drop_last() =~= a + b.drop_last());
        assert((a + b).last() == b.last());
        assert(runs_text(a + b) =~= runs_text(a) + runs_text(b));
    }
}

pub proof fn lemma_para_text_append(a: Seq<Block>, b: Seq<Block>)
    ensures
        para_text(a + b) == para_text(a) + para_text(b),
    decreases b.len(),
{
    if b.len() == 0 {
        assert(a + b =~= a);
        assert(para_text(a) + para_text(b) =~= para_text(a));
    } else {
        lemma_para_text_append(a, b.drop_last());
        assert((a + b).drop_last() =~= a + b.drop_last());
        assert((a + b).last() == b.last());
        assert(para_text(a + b) =~= para_text(a) + para_text(b));
    }
}

} // verus!

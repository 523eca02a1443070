//! The integer- and text-valued records of the extraction model. Geometry
//! (coordinates, sizes) is carried by the serialized model around the library.
use vstd::prelude::*;

verus! {

#[derive(Debug, Clone, PartialEq, Eq)]
pub struct Source {
    pub format: String,
    pub sha256: String,
    pub size_bytes: u64,
}

#[derive(Debug, Clone, PartialEq, Eq)]
pub struct DocMetadata {
    pub title: Option<String>,
    pub author: Option<String>,
}

#[derive(Debug, Clone, PartialEq, Eq)]
pub struct DocumentInfo {
    pub page_count: u32,
    pub metadata: DocMetadata,
}

/// Non-visible document context attached to a page or section, optionally
/// naming the element it belongs to.
#[derive(Debug, Clone, PartialEq, Eq)]
pub struct HiddenItem {
    pub kind: String,
    pub element: Option<String>,
    pub content: String,
}

pub fn copy_string(s: &String) -> (r: String)
    ensures
        r == *s,
{
    s.clone()
}

pub fn copy_opt_string(s: &Option<String>) -> (r: Option<String>)
    ensures
        r == *s,
{
    match s {
        Some(v) => Some(v.clone()),
        None => None,
    }
}

impl HiddenItem {
    pub fn duplicate(&self) -> (r: HiddenItem)
        ensures
            r == *self,
    {
        HiddenItem {
            kind: copy_string(&self.kind),
            element: copy_opt_string(&self.element),
            content: copy_string(&self.content),
        }
    }
}

#[derive(Debug, Clone, PartialEq, Eq)]
pub struct ChartPoint {
    pub category: Option<String>,
    pub value: String,
}

#[derive(Debug, Clone, PartialEq, Eq)]
pub struct ChartSeries {
    pub name: Option<String>,
    pub points: Vec<ChartPoint>,
}

#[derive(Debug, Clone, Copy, PartialEq, Eq)]
pub struct TextColor {
    pub fill: Option<[u8; 3]>,
    pub stroke: Option<[u8; 3]>,
}

#[derive(Debug, Clone, PartialEq, Eq)]
pub struct CompactDocMetadata {
    pub title: Option<String>,
    pub author: Option<String>,
}

#[derive(Debug, Clone, PartialEq, Eq)]
pub struct CompactDocumentInfo {
    pub page_count: u32,
    pub metadata: CompactDocMetadata,
}

#[derive(Debug, Clone, PartialEq, Eq)]
pub struct CompactChartPoint {
    pub category: Option<String>,
    pub value: String,
}

#[derive(Debug, Clone, PartialEq, Eq)]
pub struct CompactChartSeries {
    pub name: Option<String>,
    pub points: Vec<CompactChartPoint>,
}

#[derive(Debug, Clone, Copy, PartialEq, Eq)]
pub struct CompactTextColor {
    pub fill: Option<[u8; 3]>,
    pub stroke: Option<[u8; 3]>,
}

#[derive(Debug, Clone, PartialEq, Eq)]
pub struct CompactFlowDocumentInfo {
    pub metadata: CompactDocMetadata,
}

#[derive(Debug, Clone, PartialEq, Eq)]
pub struct FlowDocumentInfo {
    pub metadata: DocMetadata,
}

#[derive(Debug, Clone, Copy, PartialEq, Eq, Structural)]
pub enum FlowLayout {
    Flow,
}

#[derive(Debug, Clone, Copy, PartialEq, Eq, Structural)]
pub enum ListKind {
    Ordered,
    Bullet,
}

#[derive(Debug, Clone, PartialEq, Eq)]
pub struct ListInfo {
    pub list_id: String,
    pub level: u32,
    pub kind: ListKind,
    pub label: String,
}

impl ListInfo {
    pub fn duplicate(&self) -> (r: ListInfo)
        ensures
            r == *self,
    {
        ListInfo {
            list_id: copy_string(&self.list_id),
            level: self.level,
            kind: self.kind,
            label: copy_string(&self.label),
        }
    }
}

#[derive(Debug, Clone, Copy, PartialEq, Eq, Structural)]
pub enum PlacementFrame {
    Page,
    Margin,
    Column,
    Paragraph,
    Line,
}

#[derive(Debug, Clone, Copy, PartialEq, Eq, Structural)]
pub enum BreakKind {
    Page,
    Column,
    Section,
}

#[derive(Debug, Clone, Copy, PartialEq, Eq, Structural)]
pub enum PageKind {
    Text,
    Scanned,
    Image,
    Mixed,
}

/// A color is shown in compact output unless it is absent or pure black.
pub open spec fn visible_color(c: Option<[u8; 3]>) -> Option<[u8; 3]> {
    match c {
        Some(v) => if v[0] == 0 && v[1] == 0 && v[2] == 0 {
            None
        } else {
            Some(v)
        },
        None => None,
    }
}

pub fn drop_black(c: Option<[u8; 3]>) -> (r: Option<[u8; 3]>)
    ensures
        r == visible_color(c),
{
    match c {
        Some(v) => if v[0] == 0 && v[1] == 0 && v[2] == 0 {
            None
        } else {
            Some(v)
        },
        None => None,
    }
}

/// The compact color record: only non-black channels survive, and a record
/// with neither a fill nor a stroke is omitted.
pub fn compact_color(color: &TextColor) -> (r: Option<CompactTextColor>)
    ensures
        (visible_color(color.fill) is None && visible_color(color.stroke) is None) <==> r is None,
        r matches Some(c) ==> c.fill == visible_color(color.fill) && c.stroke == visible_color(
            color.stroke,
        ),
{
    let fill = drop_black(color.fill);
    let stroke = drop_black(color.stroke);
    if fill.is_none() && stroke.is_none() {
        None
    } else {
        Some(CompactTextColor { fill, stroke })
    }
}

/// Serialization predicate: `false` flags are omitted.
pub fn is_false(value: &bool) -> (r: bool)
    ensures
        r == !*value,
{
    !*value
}

} // verus!

//! WordprocessingML styles: run and paragraph properties, style inheritance
//! chains, paragraph roles and the layering of run formatting.
use vstd::prelude::*;
use crate::strmap::{lookup, StrMap};
use crate::text::{
    chars_of, is_alnum, is_ascii_alnum, ascii_lower, parse_u32, parse_unsigned, str_eq, string_of,
    to_ascii_lower,
};
use crate::granularity::{debug_quoted, debug_str};
use crate::text::{decimal, digit_char, push_decimal, push_str};
use crate::theme::{hex_color, opt_color, parse_hex_color, word_color_of, word_font_of, Theme};
use crate::xml::{all_named, attr_value, first_named, preorder, texts, Node};

verus! {

/// How deep a chain of `basedOn` styles is followed.
pub const STYLE_DEPTH_LIMIT: usize = 16;

/// Run formatting as one layer states it; `None` leaves the layer below in
/// force. Sizes are half-point values as written.
pub struct RunProps {
    pub font: Option<String>,
    pub font_theme: Option<String>,
    pub font_cs: Option<String>,
    pub font_cs_theme: Option<String>,
    pub size: Option<String>,
    pub size_cs: Option<String>,
    pub bold: Option<bool>,
    pub italic: Option<bool>,
    pub bold_cs: Option<bool>,
    pub italic_cs: Option<bool>,
    pub color: Option<String>,
    pub theme_color: Option<String>,
    pub theme_tint: Option<String>,
    pub theme_shade: Option<String>,
    pub complex_script: bool,
    pub run_style: Option<String>,
}

/// Paragraph properties that styles can carry.
pub struct ParagraphProps {
    pub outline_level: Option<u32>,
    pub page_break_before: Option<bool>,
    pub num_id: Option<String>,
    pub num_level: Option<u32>,
}

pub open spec fn opt_str(o: Option<&str>) -> Option<Seq<char>> {
    match o {
        Some(s) => Some(s@),
        None => None,
    }
}

pub open spec fn opt_text(o: Option<String>) -> Option<Seq<char>> {
    match o {
        Some(s) => Some(s@),
        None => None,
    }
}

pub open spec fn first_some(a: Option<Seq<char>>, b: Option<Seq<char>>) -> Option<Seq<char>> {
    if a is Some {
        a
    } else {
        b
    }
}

fn owned(o: Option<&str>) -> (r: Option<String>)
    ensures
        opt_text(r) == opt_str(o),
{
    match o {
        Some(s) => Some(s.to_string()),
        None => None,
    }
}

fn first_of<'a>(a: Option<&'a str>, b: Option<&'a str>) -> (r: Option<&'a str>)
    ensures
        opt_str(r) == first_some(opt_str(a), opt_str(b)),
{
    if a.is_some() {
        a
    } else {
        b
    }
}

/// The `val` attribute of the child `child` of `n`.
pub open spec fn child_val_of(n: Node, child: Seq<char>) -> Option<Seq<char>> {
    match first_named(n.children@, child) {
        Some(c) => match attr_value(c.attrs, "val"@) {
            Some(v) => Some(v@),
            None => None,
        },
        None => None,
    }
}

pub fn child_val<'a>(node: &'a Node, child: &str) -> (r: Option<&'a str>)
    ensures
        opt_str(r) == child_val_of(*node, child@),
{
    proof {
        reveal_strlit("val");
    }
    match node.child(child) {
        Some(c) => c.attr("val"),
        None => None,
    }
}

/// A `val` of `0`, `false` or `off` turns a property off; anything else,
/// including no `val`, turns it on.
pub open spec fn on_off_of(n: Node) -> bool {
    match attr_value(n.attrs, "val"@) {
        Some(v) => !(v@ == "0"@ || v@ == "false"@ || v@ == "off"@),
        None => true,
    }
}

pub fn on_off(node: &Node) -> (r: bool)
    ensures
        r == on_off_of(*node),
{
    proof {
        reveal_strlit("val");
    }
    match node.attr("val") {
        Some(v) => !(str_eq(v, "0") || str_eq(v, "false") || str_eq(v, "off")),
        None => true,
    }
}

pub open spec fn child_node(n: Node, child: Seq<char>) -> Option<Node> {
    first_named(n.children@, child)
}

pub open spec fn toggle_of(n: Option<Node>) -> Option<bool> {
    match n {
        Some(x) => Some(on_off_of(x)),
        None => None,
    }
}

pub open spec fn opt_node(n: Option<&Node>) -> Option<Node> {
    match n {
        Some(x) => Some(*x),
        None => None,
    }
}

pub fn toggle(node: Option<&Node>) -> (r: Option<bool>)
    ensures
        r == toggle_of(opt_node(node)),
{
    match node {
        Some(n) => Some(on_off(n)),
        None => None,
    }
}

/// An attribute of an optional node.
pub open spec fn attr_of(n: Option<Node>, name: Seq<char>) -> Option<Seq<char>> {
    match n {
        Some(x) => match attr_value(x.attrs, name) {
            Some(v) => Some(v@),
            None => None,
        },
        None => None,
    }
}

fn attr_in<'a>(n: Option<&'a Node>, name: &str) -> (r: Option<&'a str>)
    ensures
        opt_str(r) == attr_of(opt_node(n), name@),
{
    match n {
        Some(x) => x.attr(name),
        None => None,
    }
}

/// What a run-properties layer holds, as values.
pub struct RunView {
    pub font: Option<Seq<char>>,
    pub font_theme: Option<Seq<char>>,
    pub font_cs: Option<Seq<char>>,
    pub font_cs_theme: Option<Seq<char>>,
    pub size: Option<Seq<char>>,
    pub size_cs: Option<Seq<char>>,
    pub bold: Option<bool>,
    pub italic: Option<bool>,
    pub bold_cs: Option<bool>,
    pub italic_cs: Option<bool>,
    pub color: Option<Seq<char>>,
    pub theme_color: Option<Seq<char>>,
    pub theme_tint: Option<Seq<char>>,
    pub theme_shade: Option<Seq<char>>,
    pub complex_script: bool,
    pub run_style: Option<Seq<char>>,
}

pub open spec fn run_view(r: RunProps) -> RunView {
    RunView {
        font: opt_text(r.font),
        font_theme: opt_text(r.font_theme),
        font_cs: opt_text(r.font_cs),
        font_cs_theme: opt_text(r.font_cs_theme),
        size: opt_text(r.size),
        size_cs: opt_text(r.size_cs),
        bold: r.bold,
        italic: r.italic,
        bold_cs: r.bold_cs,
        italic_cs: r.italic_cs,
        color: opt_text(r.color),
        theme_color: opt_text(r.theme_color),
        theme_tint: opt_text(r.theme_tint),
        theme_shade: opt_text(r.theme_shade),
        complex_script: r.complex_script,
        run_style: opt_text(r.run_style),
    }
}

/// The run properties that an `rPr` element states.
pub open spec fn run_props_of(n: Node) -> RunView {
    let fonts = child_node(n, "rFonts"@);
    let color = child_node(n, "color"@);
    RunView {
        font: first_some(attr_of(fonts, "ascii"@), attr_of(fonts, "hAnsi"@)),
        font_theme: first_some(attr_of(fonts, "asciiTheme"@), attr_of(fonts, "hAnsiTheme"@)),
        font_cs: first_some(attr_of(fonts, "cs"@), attr_of(fonts, "eastAsia"@)),
        font_cs_theme: first_some(attr_of(fonts, "cstheme"@), attr_of(fonts, "eastAsiaTheme"@)),
        size: attr_of(child_node(n, "sz"@), "val"@),
        size_cs: attr_of(child_node(n, "szCs"@), "val"@),
        bold: toggle_of(child_node(n, "b"@)),
        italic: toggle_of(child_node(n, "i"@)),
        bold_cs: toggle_of(child_node(n, "bCs"@)),
        italic_cs: toggle_of(child_node(n, "iCs"@)),
        color: attr_of(color, "val"@),
        theme_color: attr_of(color, "themeColor"@),
        theme_tint: attr_of(color, "themeTint"@),
        theme_shade: attr_of(color, "themeShade"@),
        complex_script: child_node(n, "rtl"@) is Some || child_node(n, "cs"@) is Some,
        run_style: child_val_of(n, "rStyle"@),
    }
}

/// An empty layer.
pub open spec fn empty_run() -> RunView {
    RunView {
        font: None,
        font_theme: None,
        font_cs: None,
        font_cs_theme: None,
        size: None,
        size_cs: None,
        bold: None,
        italic: None,
        bold_cs: None,
        italic_cs: None,
        color: None,
        theme_color: None,
        theme_tint: None,
        theme_shade: None,
        complex_script: false,
        run_style: None,
    }
}

impl RunProps {
    /// A layer that states nothing.
    pub fn empty() -> (r: RunProps)
        ensures
            run_view(r) == empty_run(),
    {
        RunProps {
            font: None,
            font_theme: None,
            font_cs: None,
            font_cs_theme: None,
            size: None,
            size_cs: None,
            bold: None,
            italic: None,
            bold_cs: None,
            italic_cs: None,
            color: None,
            theme_color: None,
            theme_tint: None,
            theme_shade: None,
            complex_script: false,
            run_style: None,
        }
    }

    pub fn duplicate(&self) -> (r: RunProps)
        ensures
            r == *self,
    {
        RunProps {
            font: self.font.clone(),
            font_theme: self.font_theme.clone(),
            font_cs: self.font_cs.clone(),
            font_cs_theme: self.font_cs_theme.clone(),
            size: self.size.clone(),
            size_cs: self.size_cs.clone(),
            bold: self.bold,
            italic: self.italic,
            bold_cs: self.bold_cs,
            italic_cs: self.italic_cs,
            color: self.color.clone(),
            theme_color: self.theme_color.clone(),
            theme_tint: self.theme_tint.clone(),
            theme_shade: self.theme_shade.clone(),
            complex_script: self.complex_script,
            run_style: self.run_style.clone(),
        }
    }
}

/// Reads the run properties of an `rPr` element.
pub fn run_props(node: &Node) -> (r: RunProps)
    ensures
        run_view(r) == run_props_of(*node),
{
    proof {
        reveal_strlit("rFonts");
        reveal_strlit("color");
        reveal_strlit("val");
    }
    let fonts = node.child("rFonts");
    let color = node.child("color");
    RunProps {
        font: owned(first_of(attr_in(fonts, "ascii"), attr_in(fonts, "hAnsi"))),
        font_theme: owned(first_of(attr_in(fonts, "asciiTheme"), attr_in(fonts, "hAnsiTheme"))),
        font_cs: owned(first_of(attr_in(fonts, "cs"), attr_in(fonts, "eastAsia"))),
        font_cs_theme: owned(first_of(attr_in(fonts, "cstheme"), attr_in(fonts, "eastAsiaTheme"))),
        size: owned(attr_in(node.child("sz"), "val")),
        size_cs: owned(attr_in(node.child("szCs"), "val")),
        bold: toggle(node.child("b")),
        italic: toggle(node.child("i")),
        bold_cs: toggle(node.child("bCs")),
        italic_cs: toggle(node.child("iCs")),
        color: owned(attr_in(color, "val")),
        theme_color: owned(attr_in(color, "themeColor")),
        theme_tint: owned(attr_in(color, "themeTint")),
        theme_shade: owned(attr_in(color, "themeShade")),
        complex_script: node.child("rtl").is_some() || node.child("cs").is_some(),
        run_style: owned(child_val(node, "rStyle")),
    }
}

/// `u32::from_str` on an optional value.
pub open spec fn opt_u32(o: Option<Seq<char>>) -> Option<u32> {
    match o {
        Some(s) => match parse_unsigned(s, 10) {
            Some(v) => if v <= u32::MAX {
                Some(v as u32)
            } else {
                None
            },
            None => None,
        },
        None => None,
    }
}

fn parse_opt_u32(o: Option<&str>) -> (r: Option<u32>)
    ensures
        r == opt_u32(opt_str(o)),
{
    match o {
        Some(s) => parse_u32(s),
        None => None,
    }
}

/// What a paragraph-properties layer holds, as values.
pub struct ParagraphView {
    pub outline_level: Option<u32>,
    pub page_break_before: Option<bool>,
    pub num_id: Option<Seq<char>>,
    pub num_level: Option<u32>,
}

pub open spec fn paragraph_view(p: ParagraphProps) -> ParagraphView {
    ParagraphView {
        outline_level: p.outline_level,
        page_break_before: p.page_break_before,
        num_id: opt_text(p.num_id),
        num_level: p.num_level,
    }
}

pub open spec fn empty_paragraph() -> ParagraphView {
    ParagraphView { outline_level: None, page_break_before: None, num_id: None, num_level: None }
}

/// The paragraph properties that a `pPr` element states.
pub open spec fn paragraph_props_of(n: Node) -> ParagraphView {
    let num_pr = child_node(n, "numPr"@);
    ParagraphView {
        outline_level: opt_u32(child_val_of(n, "outlineLvl"@)),
        page_break_before: toggle_of(child_node(n, "pageBreakBefore"@)),
        num_id: match num_pr {
            Some(p) => child_val_of(p, "numId"@),
            None => None,
        },
        num_level: match num_pr {
            Some(p) => opt_u32(child_val_of(p, "ilvl"@)),
            None => None,
        },
    }
}

impl ParagraphProps {
    pub fn empty() -> (r: ParagraphProps)
        ensures
            paragraph_view(r) == empty_paragraph(),
    {
        ParagraphProps { outline_level: None, page_break_before: None, num_id: None, num_level: None }
    }

    pub fn duplicate(&self) -> (r: ParagraphProps)
        ensures
            r == *self,
    {
        ParagraphProps {
            outline_level: self.outline_level,
            page_break_before: self.page_break_before,
            num_id: self.num_id.clone(),
            num_level: self.num_level,
        }
    }
}

/// Reads the paragraph properties of a `pPr` element.
pub fn paragraph_props(node: &Node) -> (r: ParagraphProps)
    ensures
        paragraph_view(r) == paragraph_props_of(*node),
{
    let num_pr = node.child("numPr");
    let num_id = match num_pr {
        Some(p) => owned(child_val(p, "numId")),
        None => None,
    };
    let num_level = match num_pr {
        Some(p) => parse_opt_u32(child_val(p, "ilvl")),
        None => None,
    };
    ParagraphProps {
        outline_level: parse_opt_u32(child_val(node, "outlineLvl")),
        page_break_before: toggle(node.child("pageBreakBefore")),
        num_id,
        num_level,
    }
}

/// A style name reduced to its ASCII letters and digits, lower-cased.
pub open spec fn normalized(s: Seq<char>) -> Seq<char>
    decreases s.len(),
{
    if s.len() == 0 {
        Seq::empty()
    } else if is_ascii_alnum(s.last()) {
        normalized(s.drop_last()).push(ascii_lower(s.last()))
    } else {
        normalized(s.drop_last())
    }
}

pub fn normalize_name(value: &str) -> (r: String)
    ensures
        r@ == normalized(value@),
{
    let v = chars_of(value);
    let mut out: Vec<char> = Vec::new();
    let mut i: usize = 0;
    while i < v.len()
        invariant
            i <= v.len(),
            out@ == normalized(v@.subrange(0, i as int)),
        decreases v.len() - i,
    {
        proof {
            let p = v@.subrange(0, i as int + 1);
            assert(p.drop_last() =~= v@.subrange(0, i as int));
            assert(p.last() == v@[i as int]);
        }
        if is_alnum(v[i]) {
            out.push(to_ascii_lower(v[i]));
        }
        i += 1;
    }
    assert(v@.subrange(0, v.len() as int) =~= v@);
    string_of(&out)
}


/// One style definition.
pub struct Style {
    pub style_type: String,
    pub name: String,
    pub based_on: Option<String>,
    pub linked: Option<String>,
    pub run: RunProps,
    pub paragraph: ParagraphProps,
}

/// The style definitions of a document, by id, and its default run
/// properties.
pub struct Styles {
    pub styles: StrMap<Style>,
    pub defaults: RunProps,
}

/// A paragraph's resolved style: its role (`h1`..`h9`, `title`, `quote` or
/// `body`), page-break and numbering properties, and the run layers that its
/// runs start from.
pub struct ParagraphStyle {
    pub role: String,
    pub page_break_before: bool,
    pub num_id: Option<String>,
    pub num_level: u32,
    pub layers: Vec<RunProps>,
}

/// What a style definition holds, as values.
pub struct StyleView {
    pub style_type: Seq<char>,
    pub name: Seq<char>,
    pub based_on: Option<Seq<char>>,
    pub linked: Option<Seq<char>>,
    pub run: RunView,
    pub paragraph: ParagraphView,
}

pub open spec fn style_view(s: Style) -> StyleView {
    StyleView {
        style_type: s.style_type@,
        name: s.name@,
        based_on: opt_text(s.based_on),
        linked: opt_text(s.linked),
        run: run_view(s.run),
        paragraph: paragraph_view(s.paragraph),
    }
}

/// The style that a `style` element defines under the id `id`, if it
/// defines one there.
pub open spec fn style_decl(n: Node, id: Seq<char>) -> Option<StyleView> {
    match attr_value(n.attrs, "styleId"@) {
        Some(i) => if i@ == id {
            Some(
                StyleView {
                    style_type: match attr_value(n.attrs, "type"@) {
                        Some(t) => t@,
                        None => Seq::empty(),
                    },
                    name: match child_node(n, "name"@) {
                        Some(c) => match attr_value(c.attrs, "val"@) {
                            Some(v) => v@,
                            None => id,
                        },
                        None => id,
                    },
                    based_on: child_val_of(n, "basedOn"@),
                    linked: child_val_of(n, "link"@),
                    run: match child_node(n, "rPr"@) {
                        Some(r) => run_props_of(r),
                        None => empty_run(),
                    },
                    paragraph: match child_node(n, "pPr"@) {
                        Some(p) => paragraph_props_of(p),
                        None => empty_paragraph(),
                    },
                },
            )
        } else {
            None
        },
        None => None,
    }
}

/// The style that the last of the elements `ds` defining `id` defines.
pub open spec fn style_last(ds: Seq<Node>, id: Seq<char>) -> Option<StyleView>
    decreases ds.len(),
{
    if ds.len() == 0 {
        None
    } else if style_decl(ds.last(), id) is Some {
        style_decl(ds.last(), id)
    } else {
        style_last(ds.drop_last(), id)
    }
}

pub open spec fn first_desc_of(n: Node, local: Seq<char>) -> Option<Node> {
    let all = all_named(preorder(n.children@), local);
    if all.len() > 0 {
        Some(all[0])
    } else {
        None
    }
}

/// The document's default run properties: `docDefaults/rPrDefault/rPr`.
pub open spec fn defaults_of(root: Node) -> RunView {
    match first_desc_of(root, "docDefaults"@) {
        Some(d) => match first_desc_of(d, "rPrDefault"@) {
            Some(r) => match child_node(r, "rPr"@) {
                Some(p) => run_props_of(p),
                None => empty_run(),
            },
            None => empty_run(),
        },
        None => empty_run(),
    }
}

pub open spec fn style_at(m: StrMap<Style>, id: Seq<char>) -> Option<StyleView> {
    match lookup(m.entries@, id) {
        Some(s) => Some(style_view(s)),
        None => None,
    }
}

fn owned_or(o: Option<&str>, d: &str) -> (r: String)
    ensures
        r@ == match o {
            Some(s) => s@,
            None => d@,
        },
{
    match o {
        Some(s) => s.to_string(),
        None => d.to_string(),
    }
}

/// The style that a `style` element with id `id` defines.
fn read_style(n: &Node, id: &str) -> (r: Style)
    requires
        attr_value(n.attrs, "styleId"@) matches Some(i) && i@ == id@,
    ensures
        style_decl(*n, id@) == Some(style_view(r)),
{
    proof {
        reveal_strlit("val");
        reveal_strlit("");
        assert(""@ =~= Seq::<char>::empty());
    }
    let name = match n.child("name") {
        Some(c) => owned_or(c.attr("val"), id),
        None => id.to_string(),
    };
    let run = match n.child("rPr") {
        Some(r) => run_props(r),
        None => RunProps::empty(),
    };
    let paragraph = match n.child("pPr") {
        Some(p) => paragraph_props(p),
        None => ParagraphProps::empty(),
    };
    Style {
        style_type: owned_or(n.attr("type"), ""),
        name,
        based_on: owned(child_val(n, "basedOn")),
        linked: owned(child_val(n, "link")),
        run,
        paragraph,
    }
}

/// A message with a quoted value spliced in: `before` + the value's debug
/// form + `after`.
pub fn quoted_message(before: &str, value: &str, after: &str) -> (r: String)
    ensures
        r@ == before@ + debug_str(value@) + after@,
{
    let mut out: Vec<char> = Vec::new();
    push_str(&mut out, before);
    let q = debug_quoted(value);
    push_str(&mut out, q.as_str());
    push_str(&mut out, after);
    string_of(&out)
}

pub open spec fn depth_limit_warning(id: Seq<char>) -> Seq<char> {
    "style chain depth limit 16 exceeded at "@ + debug_str(id)
}

pub open spec fn cycle_warning(id: Seq<char>) -> Seq<char> {
    "style basedOn cycle detected at "@ + debug_str(id)
}

pub open spec fn missing_style_warning(id: Seq<char>) -> Seq<char> {
    "referenced style "@ + debug_str(id) + " is missing"@
}

pub open spec fn type_warning(id: Seq<char>, found: Seq<char>, expected: Seq<char>) -> Seq<char> {
    "style "@ + debug_str(id) + " has type "@ + debug_str(found) + ", expected "@ + expected
}

/// Following `basedOn` from `current`: the styles met (nearest first) and the
/// warnings raised. The walk stops at the depth limit, at a repeated id and
/// at a missing style; the first style is checked against `expected`.
pub open spec fn chain_walk(
    styles: StrMap<Style>,
    current: Option<Seq<char>>,
    visited: Seq<Seq<char>>,
    met: Seq<Style>,
    expected: Option<Seq<char>>,
    warnings: Seq<Seq<char>>,
) -> (Seq<Style>, Seq<Seq<char>>)
    decreases STYLE_DEPTH_LIMIT - met.len(),
{
    match current {
        None => (met, warnings),
        Some(id) => if met.len() >= STYLE_DEPTH_LIMIT {
            (met, warnings.push(depth_limit_warning(id)))
        } else if visited.contains(id) {
            (met, warnings.push(cycle_warning(id)))
        } else {
            match lookup(styles.entries@, id) {
                None => (met, warnings.push(missing_style_warning(id))),
                Some(st) => {
                    let w = if met.len() == 0 && expected is Some && st.style_type@ != expected->0 {
                        warnings.push(type_warning(id, st.style_type@, expected->0))
                    } else {
                        warnings
                    };
                    chain_walk(styles, opt_text(st.based_on), visited.push(id), met.push(st), expected, w)
                },
            }
        },
    }
}

/// The chain of styles that `id` inherits from, base first, and the warnings
/// raised while following it.
pub open spec fn style_chain(styles: StrMap<Style>, id: Seq<char>, expected: Option<Seq<char>>) -> (
    Seq<Style>,
    Seq<Seq<char>>,
) {
    let (met, w) = chain_walk(styles, Some(id), Seq::empty(), Seq::empty(), expected, Seq::empty());
    (met.reverse(), w)
}

fn contains_text(v: &Vec<String>, s: &str) -> (r: bool)
    ensures
        r == texts(v@).contains(s@),
{
    let mut i: usize = 0;
    while i < v.len()
        invariant
            i <= v.len(),
            forall|k: int| 0 <= k < i ==> v@[k]@ != s@,
        decreases v.len() - i,
    {
        if str_eq(v[i].as_str(), s) {
            assert(texts(v@)[i as int] == s@);
            return true;
        }
        i += 1;
    }
    proof {
        if texts(v@).contains(s@) {
            let k = choose|k: int| 0 <= k < texts(v@).len() && texts(v@)[k] == s@;
            assert(v@[k]@ == s@);
        }
    }
    false
}

pub open spec fn refs(v: Seq<&Style>) -> Seq<Style> {
    v.map_values(|s: &Style| *s)
}

impl Styles {
    /// The definitions of a styles part (none where there is no part).
    pub fn from_xml(root: Option<&Node>) -> (r: Styles)
        ensures
            r.styles.wf(),
            forall|id: Seq<char>| #[trigger] style_at(r.styles, id) == match root {
                Some(n) => style_last(all_named(preorder(n.children@), "style"@), id),
                None => None,
            },
            run_view(r.defaults) == match root {
                Some(n) => defaults_of(*n),
                None => empty_run(),
            },
    {
        let mut styles: StrMap<Style> = StrMap::new();
        let root = match root {
            Some(n) => n,
            None => {
                return Styles { styles, defaults: RunProps::empty() };
            },
        };
        proof {
            reveal_strlit("style");
            reveal_strlit("styleId");
        }
        let defaults = match root.first_descendant("docDefaults") {
            Some(d) => match d.first_descendant("rPrDefault") {
                Some(rd) => match rd.child("rPr") {
                    Some(p) => run_props(p),
                    None => RunProps::empty(),
                },
                None => RunProps::empty(),
            },
            None => RunProps::empty(),
        };
        let found = root.descendants("style");
        let ghost ds = found@.map_values(|n: &Node| *n);
        let mut i: usize = 0;
        while i < found.len()
            invariant
                i <= found.len(),
                ds == found@.map_values(|n: &Node| *n),
                styles.wf(),
                forall|id: Seq<char>| #[trigger] style_at(styles, id) == style_last(
                    ds.subrange(0, i as int),
                    id,
                ),
            decreases found.len() - i,
        {
            let n: &Node = found[i];
            let ghost p = ds.subrange(0, i as int + 1);
            proof {
                assert(p.drop_last() =~= ds.subrange(0, i as int));
                assert(p.last() == *n);
            }
            match n.attr("styleId") {
                Some(id) => {
                    let st = read_style(n, id);
                    let ghost old_styles = styles;
                    styles.insert(id.to_string(), st);
                    proof {
                        assert forall|q: Seq<char>| #[trigger] style_at(styles, q) == style_last(p, q) by {
                            assert(styles.get_spec(q) == lookup(styles.entries@, q));
                            assert(style_at(old_styles, q) == style_last(ds.subrange(0, i as int), q));
                            if q != id@ {
                                assert(styles.get_spec(q) == lookup(old_styles.entries@, q));
                                assert(style_decl(*n, q) is None);
                            }
                        }
                    }
                },
                None => {
                    proof {
                        assert forall|q: Seq<char>| #[trigger] style_at(styles, q) == style_last(p, q) by {
                            assert(style_decl(*n, q) is None);
                        }
                    }
                },
            }
            i += 1;
        }
        assert(ds.subrange(0, found.len() as int) =~= ds);
        Styles { styles, defaults }
    }

    /// The chain of styles that `id` inherits from, base first; warnings are
    /// appended to `warnings`.
    pub fn chain(&self, id: &str, expected_type: Option<&str>, warnings: &mut Vec<String>) -> (r: Vec<
        &Style,
    >)
        ensures
            refs(r@) == style_chain(self.styles, id@, opt_str(expected_type)).0,
            texts(final(warnings)@) == texts(old(warnings)@) + style_chain(
                self.styles,
                id@,
                opt_str(expected_type),
            ).1,
    {
        let ghost w0 = texts(warnings@);
        let mut met: Vec<&Style> = Vec::new();
        let mut visited: Vec<String> = Vec::new();
        let mut current: Option<&str> = Some(id);
        let ghost expected = opt_str(expected_type);
        let ghost total = chain_walk(self.styles, Some(id@), Seq::empty(), Seq::empty(), expected, Seq::empty());
        proof {
            assert(texts(visited@) =~= Seq::<Seq<char>>::empty());
            assert(refs(met@) =~= Seq::<Style>::empty());
            assert(texts(warnings@).subrange(w0.len() as int, texts(warnings@).len() as int) =~= Seq::<
                Seq<char>,
            >::empty());
            assert(texts(warnings@).subrange(0, w0.len() as int) =~= w0);
        }
        loop
            invariant_except_break
                chain_walk(self.styles, opt_str(current), texts(visited@), refs(met@), expected, texts(
                    warnings@,
                ).subrange(w0.len() as int, texts(warnings@).len() as int)) == total,
                texts(warnings@).subrange(0, w0.len() as int) == w0,
                w0.len() <= texts(warnings@).len(),
            invariant
                met.len() <= STYLE_DEPTH_LIMIT,
                expected == opt_str(expected_type),
            ensures
                refs(met@) == total.0,
                texts(warnings@) == w0 + total.1,
            decreases STYLE_DEPTH_LIMIT - met.len(),
        {
            let ghost wl = texts(warnings@).subrange(w0.len() as int, texts(warnings@).len() as int);
            proof {
                reveal_strlit("");
                assert(texts(warnings@) =~= w0 + wl);
            }
            let ghost vis0 = texts(visited@);
            let ghost met0 = refs(met@);
            let style_id = match current {
                Some(s) => s,
                None => {
                    assert(texts(warnings@) =~= w0 + wl);
                    break;
                },
            };
            if met.len() >= STYLE_DEPTH_LIMIT {
                warnings.push(quoted_message("style chain depth limit 16 exceeded at ", style_id, ""));
                proof {
                    assert(texts(warnings@) =~= w0 + wl.push(depth_limit_warning(style_id@)));
                }
                break;
            }
            if contains_text(&visited, style_id) {
                warnings.push(quoted_message("style basedOn cycle detected at ", style_id, ""));
                proof {
                    assert(texts(warnings@) =~= w0 + wl.push(cycle_warning(style_id@)));
                }
                break;
            }
            visited.push(style_id.to_string());
            let style = match self.styles.get(style_id) {
                Some(st) => st,
                None => {
                    warnings.push(quoted_message("referenced style ", style_id, " is missing"));
                    proof {
                        assert(texts(warnings@) =~= w0 + wl.push(missing_style_warning(style_id@)));
                    }
                    break;
                },
            };
            let ghost wl2 = if met.len() == 0 && expected is Some && style.style_type@ != expected->0 {
                wl.push(type_warning(style_id@, style.style_type@, expected->0))
            } else {
                wl
            };
            if met.len() == 0 {
                match expected_type {
                    Some(e) => {
                        if !str_eq(style.style_type.as_str(), e) {
                            let mut msg: Vec<char> = Vec::new();
                            push_str(&mut msg, "style ");
                            push_str(&mut msg, debug_quoted(style_id).as_str());
                            push_str(&mut msg, " has type ");
                            push_str(&mut msg, debug_quoted(style.style_type.as_str()).as_str());
                            push_str(&mut msg, ", expected ");
                            push_str(&mut msg, e);
                            warnings.push(string_of(&msg));
                        }
                    },
                    None => {},
                }
            }
            proof {
                assert(texts(warnings@) =~= w0 + wl2);
                assert(texts(visited@) =~= vis0.push(style_id@));
                assert(chain_walk(self.styles, Some(style_id@), vis0, met0, expected, wl) == chain_walk(
                    self.styles,
                    opt_text(style.based_on),
                    vis0.push(style_id@),
                    met0.push(*style),
                    expected,
                    wl2,
                ));
            }
            let ghost before_met = refs(met@);
            met.push(style);
            current = match &style.based_on {
                Some(b) => Some(b.as_str()),
                None => None,
            };
            proof {
                assert(refs(met@) =~= before_met.push(*style));
                assert(texts(warnings@).subrange(w0.len() as int, texts(warnings@).len() as int) =~= wl2);
                assert(texts(warnings@).subrange(0, w0.len() as int) =~= w0);
            }
        }
        let mut out: Vec<&Style> = Vec::new();
        let mut k: usize = met.len();
        while k > 0
            invariant
                k <= met.len(),
                out.len() == met.len() - k,
                forall|i: int| 0 <= i < out.len() ==> out@[i] == met@[met.len() - 1 - i],
            decreases k,
        {
            k -= 1;
            out.push(met[k]);
        }
        assert(refs(out@) =~= refs(met@).reverse());
        out
    }
}


pub open spec fn last_outline(chain: Seq<Style>) -> Option<u32>
    decreases chain.len(),
{
    if chain.len() == 0 {
        None
    } else if chain.last().paragraph.outline_level is Some {
        chain.last().paragraph.outline_level
    } else {
        last_outline(chain.drop_last())
    }
}

pub open spec fn last_page_break(chain: Seq<Style>) -> Option<bool>
    decreases chain.len(),
{
    if chain.len() == 0 {
        None
    } else if chain.last().paragraph.page_break_before is Some {
        chain.last().paragraph.page_break_before
    } else {
        last_page_break(chain.drop_last())
    }
}

pub open spec fn last_num_id(chain: Seq<Style>) -> Option<Seq<char>>
    decreases chain.len(),
{
    if chain.len() == 0 {
        None
    } else if chain.last().paragraph.num_id is Some {
        opt_text(chain.last().paragraph.num_id)
    } else {
        last_num_id(chain.drop_last())
    }
}

pub open spec fn last_num_level(chain: Seq<Style>) -> Option<u32>
    decreases chain.len(),
{
    if chain.len() == 0 {
        None
    } else if chain.last().paragraph.num_level is Some {
        chain.last().paragraph.num_level
    } else {
        last_num_level(chain.drop_last())
    }
}

/// What a resolved paragraph style holds, as values.
pub struct ParagraphStyleView {
    pub role: Seq<char>,
    pub page_break_before: bool,
    pub num_id: Option<Seq<char>>,
    pub num_level: u32,
    pub layers: Seq<RunView>,
}

pub open spec fn runs_of(chain: Seq<Style>) -> Seq<RunView> {
    chain.map_values(|s: Style| run_view(s.run))
}

pub open spec fn layer_views(v: Seq<RunProps>) -> Seq<RunView> {
    v.map_values(|r: RunProps| run_view(r))
}

pub open spec fn paragraph_style_view(p: ParagraphStyle) -> ParagraphStyleView {
    ParagraphStyleView {
        role: p.role@,
        page_break_before: p.page_break_before,
        num_id: opt_text(p.num_id),
        num_level: p.num_level,
        layers: layer_views(p.layers@),
    }
}

/// The role of a paragraph: `h1`..`h9` from an outline level of at most 8,
/// else `title` or `quote` from the (normalized) name of its style, else
/// `body`.
pub open spec fn role_of(outline: Option<u32>, style_name: Seq<char>) -> Seq<char> {
    if outline is Some && outline->0 <= 8 {
        "h"@ + decimal((outline->0 + 1) as nat)
    } else {
        let n = normalized(style_name);
        if n == "title"@ {
            "title"@
        } else if n == "quote"@ || n == "intensequote"@ {
            "quote"@
        } else {
            "body"@
        }
    }
}

/// A paragraph without an outline level of at most 8 whose style name
/// normalizes to `quote` or `intensequote` (Word's `Quote` and `Intense
/// Quote`) has the role `quote`.
pub proof fn quote_styles_give_quote_role(outline: Option<u32>, style_name: Seq<char>)
    requires
        !(outline is Some && outline->0 <= 8),
        normalized(style_name) == seq!['q', 'u', 'o', 't', 'e'] || normalized(style_name) == seq![
            'i',
            'n',
            't',
            'e',
            'n',
            's',
            'e',
            'q',
            'u',
            'o',
            't',
            'e',
        ],
    ensures
        role_of(outline, style_name) == seq!['q', 'u', 'o', 't', 'e'],
{
    reveal_strlit("title");
    reveal_strlit("quote");
    reveal_strlit("intensequote");
    assert("quote"@ =~= seq!['q', 'u', 'o', 't', 'e']);
    assert("intensequote"@ =~= seq!['i', 'n', 't', 'e', 'n', 's', 'e', 'q', 'u', 'o', 't', 'e']);
    assert("title"@[0] != 'q' && "title"@[0] != 'i');
}

/// A paragraph without an outline level of at most 8 whose style name
/// normalizes to `title` has the role `title`; one whose style name
/// normalizes to none of `title`, `quote` and `intensequote` is `body`.
pub proof fn other_styles_give_title_or_body_role(outline: Option<u32>, style_name: Seq<char>)
    requires
        !(outline is Some && outline->0 <= 8),
    ensures
        normalized(style_name) == seq!['t', 'i', 't', 'l', 'e'] ==> role_of(outline, style_name)
            == seq!['t', 'i', 't', 'l', 'e'],
        normalized(style_name) != seq!['t', 'i', 't', 'l', 'e'] && normalized(style_name) != seq![
            'q',
            'u',
            'o',
            't',
            'e',
        ] && normalized(style_name) != seq![
            'i',
            'n',
            't',
            'e',
            'n',
            's',
            'e',
            'q',
            'u',
            'o',
            't',
            'e',
        ] ==> role_of(outline, style_name) == seq!['b', 'o', 'd', 'y'],
{
    reveal_strlit("title");
    reveal_strlit("quote");
    reveal_strlit("intensequote");
    reveal_strlit("body");
    assert("title"@ =~= seq!['t', 'i', 't', 'l', 'e']);
    assert("quote"@ =~= seq!['q', 'u', 'o', 't', 'e']);
    assert("intensequote"@ =~= seq!['i', 'n', 't', 'e', 'n', 's', 'e', 'q', 'u', 'o', 't', 'e']);
    assert("body"@ =~= seq!['b', 'o', 'd', 'y']);
}

/// A paragraph with an outline level `l` of at most 8 is the heading
/// `h(l + 1)`, whatever its style is named.
pub proof fn outline_level_gives_heading_role(l: u32, style_name: Seq<char>)
    requires
        l <= 8,
    ensures
        role_of(Some(l), style_name) == seq!['h', digit_char((l + 1) as nat)],
        '1' <= digit_char((l + 1) as nat) <= '9',
{
    reveal_strlit("h");
    assert("h"@ + decimal((l + 1) as nat) =~= seq!['h', digit_char((l + 1) as nat)]);
}

/// The style of a paragraph with the properties `p_pr`, and the warnings
/// raised while resolving it: direct properties win over those inherited
/// along the style chain (the nearest style first); the run layers are the
/// document defaults, the chain's styles, the character style linked to the
/// paragraph style, and the paragraph mark's own properties.
pub open spec fn paragraph_of(styles: Styles, p_pr: Option<Node>) -> (ParagraphStyleView, Seq<
    Seq<char>,
>) {
    let style_id = match p_pr {
        Some(n) => child_val_of(n, "pStyle"@),
        None => None,
    };
    let (chain, w1) = match style_id {
        Some(id) => style_chain(styles.styles, id, Some("paragraph"@)),
        None => (Seq::empty(), Seq::empty()),
    };
    let direct = match p_pr {
        Some(n) => paragraph_props_of(n),
        None => empty_paragraph(),
    };
    let outline = if direct.outline_level is Some {
        direct.outline_level
    } else {
        last_outline(chain)
    };
    let page_break = if direct.page_break_before is Some {
        direct.page_break_before
    } else {
        last_page_break(chain)
    };
    let num_id = if direct.num_id is Some {
        direct.num_id
    } else {
        last_num_id(chain)
    };
    let num_level = if direct.num_level is Some {
        direct.num_level
    } else {
        last_num_level(chain)
    };
    let linked = if chain.len() > 0 {
        opt_text(chain.last().linked)
    } else {
        None
    };
    let (lchain, w2) = match linked {
        Some(l) => style_chain(styles.styles, l, Some("character"@)),
        None => (Seq::empty(), Seq::empty()),
    };
    let mark = match p_pr {
        Some(n) => match child_node(n, "rPr"@) {
            Some(r) => seq![run_props_of(r)],
            None => Seq::empty(),
        },
        None => Seq::empty(),
    };
    let style_name = if chain.len() > 0 {
        chain.last().name@
    } else {
        match style_id {
            Some(id) => id,
            None => Seq::empty(),
        }
    };
    (
        ParagraphStyleView {
            role: role_of(outline, style_name),
            page_break_before: match page_break {
                Some(b) => b,
                None => false,
            },
            num_id,
            num_level: match num_level {
                Some(l) => if l <= 8 {
                    l
                } else {
                    8
                },
                None => 0,
            },
            layers: seq![run_view(styles.defaults)] + runs_of(chain) + runs_of(lchain) + mark,
        },
        w1 + w2,
    )
}

/// The resolved formatting of a run, except its size: the size texts that
/// the layers state are listed in order, each as the value to read and the
/// one to fall back to when it does not read as a number.
pub struct ResolvedRun {
    pub name: String,
    pub bold: bool,
    pub italic: bool,
    pub fill: Option<[u8; 3]>,
    pub sizes: Vec<(Option<String>, Option<String>)>,
}

/// Formatting accumulated over run layers.
pub struct RunState {
    pub name: Seq<char>,
    pub bold: bool,
    pub italic: bool,
    pub color: Option<Seq<u8>>,
    pub sizes: Seq<(Option<Seq<char>>, Option<Seq<char>>)>,
}

pub open spec fn initial_run_state() -> RunState {
    RunState {
        name: "Calibri"@,
        bold: false,
        italic: false,
        color: Some(seq![0u8, 0u8, 0u8]),
        sizes: Seq::empty(),
    }
}

pub open spec fn pick_bool(complex: bool, cs: Option<bool>, plain: Option<bool>) -> Option<bool> {
    if complex && cs is Some {
        cs
    } else {
        plain
    }
}

/// One layer applied: a stated face (complex-script first for complex runs)
/// or a resolvable theme face replaces the name; a stated bold or italic
/// toggles; a stated color or theme color replaces the color.
pub open spec fn layer_step(st: RunState, l: RunView, complex: bool, theme: Theme) -> RunState {
    let font = if complex {
        first_some(l.font_cs, l.font)
    } else {
        l.font
    };
    let themed = if complex {
        first_some(l.font_cs_theme, l.font_theme)
    } else {
        l.font_theme
    };
    let name = if font is Some {
        font->0
    } else if themed is Some && word_font_of(theme, themed->0) is Some {
        word_font_of(theme, themed->0)->0
    } else {
        st.name
    };
    let sizes = if complex {
        st.sizes.push((l.size_cs, l.size))
    } else {
        st.sizes.push((l.size, None))
    };
    let bold = if pick_bool(complex, l.bold_cs, l.bold) == Some(true) {
        !st.bold
    } else {
        st.bold
    };
    let italic = if pick_bool(complex, l.italic_cs, l.italic) == Some(true) {
        !st.italic
    } else {
        st.italic
    };
    let color = if l.color is Some || l.theme_color is Some {
        let w = word_color_of(theme, l.color, l.theme_color, l.theme_tint, l.theme_shade);
        if w is Some {
            w
        } else {
            match l.color {
                Some(c) => hex_color(c),
                None => None,
            }
        }
    } else {
        st.color
    };
    RunState { name, bold, italic, color, sizes }
}

pub open spec fn layers_fold(ls: Seq<RunView>, complex: bool, theme: Theme) -> RunState
    decreases ls.len(),
{
    if ls.len() == 0 {
        initial_run_state()
    } else {
        layer_step(layers_fold(ls.drop_last(), complex, theme), ls.last(), complex, theme)
    }
}

pub open spec fn sizes_view(v: Seq<(Option<String>, Option<String>)>) -> Seq<(Option<Seq<char>>, Option<Seq<char>>)> {
    v.map_values(|p: (Option<String>, Option<String>)| (opt_text(p.0), opt_text(p.1)))
}

pub open spec fn resolved_view(r: ResolvedRun) -> RunState {
    RunState {
        name: r.name@,
        bold: r.bold,
        italic: r.italic,
        color: opt_color(r.fill),
        sizes: sizes_view(r.sizes@),
    }
}

fn opt_as_str(o: &Option<String>) -> (r: Option<&str>)
    ensures
        opt_str(r) == opt_text(*o),
{
    match o {
        Some(s) => Some(s.as_str()),
        None => None,
    }
}

/// Resolves run layers, bottom first, into a run's formatting.
pub fn resolve_layers(layers: &Vec<RunProps>, complex: bool, theme: &Theme) -> (r: ResolvedRun)
    ensures
        resolved_view(r) == layers_fold(layer_views(layers@), complex, *theme),
{
    proof {
        reveal_strlit("Calibri");
    }
    let mut name = "Calibri".to_string();
    let mut bold = false;
    let mut italic = false;
    let mut color: Option<[u8; 3]> = Some([0u8, 0u8, 0u8]);
    let mut sizes: Vec<(Option<String>, Option<String>)> = Vec::new();
    proof {
        assert(color->0@ =~= seq![0u8, 0u8, 0u8]);
        assert(sizes_view(sizes@) =~= Seq::<(Option<Seq<char>>, Option<Seq<char>>)>::empty());
        assert(layer_views(layers@).subrange(0, 0) =~= Seq::<RunView>::empty());
    }
    let mut i: usize = 0;
    while i < layers.len()
        invariant
            i <= layers.len(),
            (RunState { name: name@, bold, italic, color: opt_color(color), sizes: sizes_view(sizes@) })
                == layers_fold(layer_views(layers@).subrange(0, i as int), complex, *theme),
        decreases layers.len() - i,
    {
        let layer = &layers[i];
        let ghost before = RunState {
            name: name@,
            bold,
            italic,
            color: opt_color(color),
            sizes: sizes_view(sizes@),
        };
        proof {
            let p = layer_views(layers@).subrange(0, i as int + 1);
            assert(p.drop_last() =~= layer_views(layers@).subrange(0, i as int));
            assert(p.last() == run_view(*layer));
        }
        let font = if complex {
            if layer.font_cs.is_some() {
                &layer.font_cs
            } else {
                &layer.font
            }
        } else {
            &layer.font
        };
        let themed = if complex {
            if layer.font_cs_theme.is_some() {
                &layer.font_cs_theme
            } else {
                &layer.font_theme
            }
        } else {
            &layer.font_theme
        };
        match font {
            Some(f) => {
                name = f.clone();
            },
            None => match themed {
                Some(t) => match theme.word_font(t.as_str()) {
                    Some(w) => {
                        name = w;
                    },
                    None => {},
                },
                None => {},
            },
        }
        if complex {
            sizes.push((layer.size_cs.clone(), layer.size.clone()));
        } else {
            sizes.push((layer.size.clone(), None));
        }
        let b = if complex && layer.bold_cs.is_some() {
            layer.bold_cs
        } else {
            layer.bold
        };
        if b == Some(true) {
            bold = !bold;
        }
        let it = if complex && layer.italic_cs.is_some() {
            layer.italic_cs
        } else {
            layer.italic
        };
        if it == Some(true) {
            italic = !italic;
        }
        if layer.color.is_some() || layer.theme_color.is_some() {
            let w = theme.word_color(
                opt_as_str(&layer.color),
                opt_as_str(&layer.theme_color),
                opt_as_str(&layer.theme_tint),
                opt_as_str(&layer.theme_shade),
            );
            color = if w.is_some() {
                w
            } else {
                match &layer.color {
                    Some(c) => parse_hex_color(c.as_str()),
                    None => None,
                }
            };
        }
        proof {
            assert(sizes_view(sizes@) =~= before.sizes.push(
                if complex {
                    (opt_text(layer.size_cs), opt_text(layer.size))
                } else {
                    (opt_text(layer.size), None)
                },
            ));
        }
        i += 1;
    }
    assert(layer_views(layers@).subrange(0, layers.len() as int) =~= layer_views(layers@));
    ResolvedRun { name, bold, italic, fill: color, sizes }
}

fn push_runs(out: &mut Vec<RunProps>, chain: &Vec<&Style>)
    ensures
        layer_views(final(out)@) == layer_views(old(out)@) + runs_of(refs(chain@)),
{
    let ghost start = layer_views(out@);
    let mut i: usize = 0;
    while i < chain.len()
        invariant
            i <= chain.len(),
            layer_views(out@) == start + runs_of(refs(chain@).subrange(0, i as int)),
        decreases chain.len() - i,
    {
        let ghost before = layer_views(out@);
        out.push(chain[i].run.duplicate());
        proof {
            assert(refs(chain@).subrange(0, i as int + 1) =~= refs(chain@).subrange(0, i as int).push(
                *chain@[i as int],
            ));
            assert(runs_of(refs(chain@).subrange(0, i as int + 1)) =~= runs_of(
                refs(chain@).subrange(0, i as int),
            ).push(run_view(chain@[i as int].run)));
            assert(layer_views(out@) =~= before.push(run_view(chain@[i as int].run)));
        }
        i += 1;
    }
    assert(refs(chain@).subrange(0, chain.len() as int) =~= refs(chain@));
}

fn find_outline(chain: &Vec<&Style>) -> (r: Option<u32>)
    ensures
        r == last_outline(refs(chain@)),
{
    let mut k: usize = chain.len();
    assert(refs(chain@).subrange(0, chain.len() as int) =~= refs(chain@));
    while k > 0
        invariant
            k <= chain.len(),
            last_outline(refs(chain@)) == last_outline(refs(chain@).subrange(0, k as int)),
        decreases k,
    {
        let ghost p = refs(chain@).subrange(0, k as int);
        assert(p.drop_last() =~= refs(chain@).subrange(0, k - 1));
        assert(p.last() == *chain@[k - 1]);
        if chain[k - 1].paragraph.outline_level.is_some() {
            return chain[k - 1].paragraph.outline_level;
        }
        k -= 1;
    }
    None
}

fn find_page_break(chain: &Vec<&Style>) -> (r: Option<bool>)
    ensures
        r == last_page_break(refs(chain@)),
{
    let mut k: usize = chain.len();
    assert(refs(chain@).subrange(0, chain.len() as int) =~= refs(chain@));
    while k > 0
        invariant
            k <= chain.len(),
            last_page_break(refs(chain@)) == last_page_break(refs(chain@).subrange(0, k as int)),
        decreases k,
    {
        let ghost p = refs(chain@).subrange(0, k as int);
        assert(p.drop_last() =~= refs(chain@).subrange(0, k - 1));
        assert(p.last() == *chain@[k - 1]);
        if chain[k - 1].paragraph.page_break_before.is_some() {
            return chain[k - 1].paragraph.page_break_before;
        }
        k -= 1;
    }
    None
}

fn find_num_id(chain: &Vec<&Style>) -> (r: Option<String>)
    ensures
        opt_text(r) == last_num_id(refs(chain@)),
{
    let mut k: usize = chain.len();
    assert(refs(chain@).subrange(0, chain.len() as int) =~= refs(chain@));
    while k > 0
        invariant
            k <= chain.len(),
            last_num_id(refs(chain@)) == last_num_id(refs(chain@).subrange(0, k as int)),
        decreases k,
    {
        let ghost p = refs(chain@).subrange(0, k as int);
        assert(p.drop_last() =~= refs(chain@).subrange(0, k - 1));
        assert(p.last() == *chain@[k - 1]);
        if chain[k - 1].paragraph.num_id.is_some() {
            return chain[k - 1].paragraph.num_id.clone();
        }
        k -= 1;
    }
    None
}

fn find_num_level(chain: &Vec<&Style>) -> (r: Option<u32>)
    ensures
        r == last_num_level(refs(chain@)),
{
    let mut k: usize = chain.len();
    assert(refs(chain@).subrange(0, chain.len() as int) =~= refs(chain@));
    while k > 0
        invariant
            k <= chain.len(),
            last_num_level(refs(chain@)) == last_num_level(refs(chain@).subrange(0, k as int)),
        decreases k,
    {
        let ghost p = refs(chain@).subrange(0, k as int);
        assert(p.drop_last() =~= refs(chain@).subrange(0, k - 1));
        assert(p.last() == *chain@[k - 1]);
        if chain[k - 1].paragraph.num_level.is_some() {
            return chain[k - 1].paragraph.num_level;
        }
        k -= 1;
    }
    None
}

fn role_text(outline: Option<u32>, style_name: &str) -> (r: String)
    ensures
        r@ == role_of(outline, style_name@),
{
    proof {
        reveal_strlit("h");
        reveal_strlit("title");
        reveal_strlit("quote");
        reveal_strlit("intensequote");
        reveal_strlit("body");
    }
    match outline {
        Some(l) => if l <= 8 {
            let mut out: Vec<char> = Vec::new();
            out.push('h');
            push_decimal(&mut out, (l + 1) as u64);
            assert(out@ =~= "h"@ + decimal((l + 1) as nat));
            return string_of(&out);
        },
        None => {},
    }
    let n = normalize_name(style_name);
    if str_eq(n.as_str(), "title") {
        "title".to_string()
    } else if str_eq(n.as_str(), "quote") || str_eq(n.as_str(), "intensequote") {
        "quote".to_string()
    } else {
        "body".to_string()
    }
}

impl Styles {
    /// Resolves the style of a paragraph with the properties `p_pr` (see
    /// `paragraph_of`); warnings are appended to `warnings`.
    pub fn paragraph(&self, p_pr: Option<&Node>, warnings: &mut Vec<String>) -> (r: ParagraphStyle)
        ensures
            paragraph_style_view(r) == paragraph_of(*self, opt_node(p_pr)).0,
            texts(final(warnings)@) == texts(old(warnings)@) + paragraph_of(*self, opt_node(p_pr)).1,
    {
        proof {
            reveal_strlit("");
        }
        let ghost w0 = texts(warnings@);
        let style_id = match p_pr {
            Some(n) => child_val(n, "pStyle"),
            None => None,
        };
        let chain: Vec<&Style> = match style_id {
            Some(id) => self.chain(id, Some("paragraph"), warnings),
            None => Vec::new(),
        };
        let ghost w1 = texts(warnings@);
        proof {
            assert(refs(Seq::<&Style>::empty()) =~= Seq::<Style>::empty());
            assert(w0 + Seq::<Seq<char>>::empty() =~= w0);
        }
        let direct = match p_pr {
            Some(n) => paragraph_props(n),
            None => ParagraphProps::empty(),
        };
        let outline = if direct.outline_level.is_some() {
            direct.outline_level
        } else {
            find_outline(&chain)
        };
        let page_break = if direct.page_break_before.is_some() {
            direct.page_break_before
        } else {
            find_page_break(&chain)
        };
        let num_id = if direct.num_id.is_some() {
            direct.num_id.clone()
        } else {
            find_num_id(&chain)
        };
        let num_level = if direct.num_level.is_some() {
            direct.num_level
        } else {
            find_num_level(&chain)
        };
        let linked: Option<&str> = if chain.len() > 0 {
            opt_as_str(&chain[chain.len() - 1].linked)
        } else {
            None
        };
        let lchain: Vec<&Style> = match linked {
            Some(l) => self.chain(l, Some("character"), warnings),
            None => Vec::new(),
        };
        proof {
            assert(texts(warnings@) =~= w1 + (texts(warnings@).subrange(
                w1.len() as int,
                texts(warnings@).len() as int,
            )));
        }
        let mut layers: Vec<RunProps> = Vec::new();
        layers.push(self.defaults.duplicate());
        push_runs(&mut layers, &chain);
        push_runs(&mut layers, &lchain);
        let ghost before_mark = layer_views(layers@);
        match p_pr {
            Some(n) => match n.child("rPr") {
                Some(rp) => {
                    layers.push(run_props(rp));
                },
                None => {},
            },
            None => {},
        }
        let style_name: &str = if chain.len() > 0 {
            chain[chain.len() - 1].name.as_str()
        } else {
            match style_id {
                Some(id) => id,
                None => "",
            }
        };
        let role = role_text(outline, style_name);
        let r = ParagraphStyle {
            role,
            page_break_before: match page_break {
                Some(b) => b,
                None => false,
            },
            num_id,
            num_level: match num_level {
                Some(l) => if l <= 8 {
                    l
                } else {
                    8
                },
                None => 0,
            },
            layers,
        };
        proof {
            let spec = paragraph_of(*self, opt_node(p_pr));
            assert(layer_views(seq![self.defaults]) =~= seq![run_view(self.defaults)]);
            assert(layer_views(r.layers@) =~= spec.0.layers);
            assert(texts(warnings@) =~= w0 + spec.1);
        }
        r
    }

    /// The formatting of a run (see `layer_step`): the paragraph's layers,
    /// then the run's character style chain, then the numbering level's run
    /// properties, then the run's own; warnings are appended to `warnings`.
    pub fn resolve_run(
        &self,
        paragraph: &ParagraphStyle,
        numbering: Option<&RunProps>,
        direct_node: Option<&Node>,
        theme: &Theme,
        warnings: &mut Vec<String>,
    ) -> (r: ResolvedRun)
        ensures
            ({
                let direct = match direct_node {
                    Some(n) => run_props_of(*n),
                    None => empty_run(),
                };
                let (cchain, w) = match direct.run_style {
                    Some(id) => style_chain(self.styles, id, Some("character"@)),
                    None => (Seq::empty(), Seq::empty()),
                };
                let num = match numbering {
                    Some(n) => seq![run_view(*n)],
                    None => Seq::empty(),
                };
                &&& resolved_view(r) == layers_fold(
                    layer_views(paragraph.layers@) + runs_of(cchain) + num + seq![direct],
                    direct.complex_script,
                    *theme,
                )
                &&& texts(final(warnings)@) == texts(old(warnings)@) + w
            }),
    {
        let ghost w0 = texts(warnings@);
        let direct = match direct_node {
            Some(n) => run_props(n),
            None => RunProps::empty(),
        };
        let mut layers: Vec<RunProps> = Vec::new();
        let mut i: usize = 0;
        while i < paragraph.layers.len()
            invariant
                i <= paragraph.layers.len(),
                layer_views(layers@) == layer_views(paragraph.layers@).subrange(0, i as int),
            decreases paragraph.layers.len() - i,
        {
            let d = paragraph.layers[i].duplicate();
            let ghost before = layers@;
            layers.push(d);
            proof {
                assert(d == paragraph.layers@[i as int]);
                assert(layers@ =~= before.push(d));
                assert(layer_views(layers@) =~= layer_views(before).push(run_view(d)));
                assert(layer_views(layers@) =~= layer_views(paragraph.layers@).subrange(0, i as int + 1));
            }
            i += 1;
        }
        assert(layer_views(paragraph.layers@).subrange(0, paragraph.layers.len() as int)
            =~= layer_views(paragraph.layers@));
        let cchain: Vec<&Style> = match &direct.run_style {
            Some(id) => self.chain(id.as_str(), Some("character"), warnings),
            None => Vec::new(),
        };
        proof {
            assert(refs(Seq::<&Style>::empty()) =~= Seq::<Style>::empty());
            assert(w0 + Seq::<Seq<char>>::empty() =~= w0);
        }
        push_runs(&mut layers, &cchain);
        match numbering {
            Some(n) => {
                layers.push(n.duplicate());
            },
            None => {},
        }
        let complex = direct.complex_script;
        let ghost dv = run_view(direct);
        layers.push(direct);
        proof {
            let num = match numbering {
                Some(n) => seq![run_view(*n)],
                None => Seq::empty(),
            };
            assert(layer_views(layers@) =~= layer_views(paragraph.layers@) + runs_of(refs(cchain@))
                + num + seq![dv]);
        }
        resolve_layers(&layers, complex, theme)
    }
}

} // verus!

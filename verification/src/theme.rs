//! DrawingML theme data shared by the word-processing and presentation
//! readers: the color scheme and the major and minor font faces.
use vstd::prelude::*;
use crate::strmap::{lookup, StrMap};
use crate::text::{
    chars_of, digit_of, digit_value, digits_value, is_ascii_hex, parse_unsigned,
    parse_unsigned_bounded, str_eq,
};
use crate::xml::{
    all_named, attr_value, first_named, local_part, preorder, text_map, Node,
};

verus! {

/// A theme: its named colors and its font faces.
pub struct Theme {
    pub colors: StrMap<[u8; 3]>,
    pub major_latin: Option<String>,
    pub major_east_asia: Option<String>,
    pub major_complex_script: Option<String>,
    pub minor_latin: Option<String>,
    pub minor_east_asia: Option<String>,
    pub minor_complex_script: Option<String>,
}

pub open spec fn opt_text(o: Option<String>) -> Option<Seq<char>> {
    match o {
        Some(s) => Some(s@),
        None => None,
    }
}

/// The color stored under `name`, as bytes.
pub open spec fn color_at(m: StrMap<[u8; 3]>, name: Seq<char>) -> Option<Seq<u8>> {
    match lookup(m.entries@, name) {
        Some(c) => Some(c@),
        None => None,
    }
}

/// The value of two hexadecimal digits.
pub open spec fn hex_pair(a: char, b: char) -> nat {
    digit_value(a, 16)->0 * 16 + digit_value(b, 16)->0
}

/// `RRGGBB` as three bytes.
pub open spec fn hex_color(s: Seq<char>) -> Option<Seq<u8>> {
    if s.len() == 6 && forall|i: int| 0 <= i < 6 ==> is_ascii_hex(#[trigger] s[i]) {
        Some(seq![hex_pair(s[0], s[1]) as u8, hex_pair(s[2], s[3]) as u8, hex_pair(s[4], s[5]) as u8])
    } else {
        None
    }
}

proof fn lemma_hex_digit(c: char)
    requires
        is_ascii_hex(c),
    ensures
        digit_value(c, 16) is Some,
        digit_value(c, 16)->0 < 16,
{
}

fn hex_pair_exec(a: char, b: char) -> (r: u8)
    requires
        is_ascii_hex(a),
        is_ascii_hex(b),
    ensures
        r as nat == hex_pair(a, b),
{
    proof {
        lemma_hex_digit(a);
        lemma_hex_digit(b);
    }
    let hi = digit_of(a, 16).unwrap();
    let lo = digit_of(b, 16).unwrap();
    (hi * 16 + lo) as u8
}

/// A color written as six hexadecimal digits, `RRGGBB`.
pub fn parse_hex_color(value: &str) -> (r: Option<[u8; 3]>)
    ensures
        match hex_color(value@) {
            Some(c) => (r matches Some(a) && a@ == c),
            None => r is None,
        },
{
    let v = chars_of(value);
    if v.len() != 6 {
        return None;
    }
    let mut i: usize = 0;
    while i < 6
        invariant
            i <= 6,
            v.len() == 6,
            v@ == value@,
            forall|k: int| 0 <= k < i ==> is_ascii_hex(#[trigger] v@[k]),
        decreases 6 - i,
    {
        let c = v[i];
        if !(('0' <= c && c <= '9') || ('a' <= c && c <= 'f') || ('A' <= c && c <= 'F')) {
            assert(!is_ascii_hex(value@[i as int]));
            assert(!(forall|k: int| 0 <= k < 6 ==> is_ascii_hex(#[trigger] value@[k])));
            return None;
        }
        i += 1;
    }
    let r = [hex_pair_exec(v[0], v[1]), hex_pair_exec(v[2], v[3]), hex_pair_exec(v[4], v[5])];
    proof {
        lemma_hex_digit(v@[0]);
        lemma_hex_digit(v@[2]);
        lemma_hex_digit(v@[4]);
        assert(r@ =~= hex_color(value@)->0);
    }
    Some(r)
}

/// A byte written as two hexadecimal digits (a `+` sign counts as one).
pub open spec fn hex_byte_value(s: Seq<char>) -> Option<nat> {
    if s.len() == 2 {
        parse_unsigned(s, 16)
    } else {
        None
    }
}

proof fn lemma_two_digits(s: Seq<char>)
    requires
        s.len() == 2,
    ensures
        parse_unsigned(s, 16) matches Some(v) ==> v <= 255,
{
    let t = if s[0] == '+' {
        s.drop_first()
    } else {
        s
    };
    if t.len() == 2 {
        let a = t.drop_last();
        assert(a.drop_last() =~= Seq::<char>::empty());
        assert(digits_value(a.drop_last(), 16) == Some(0nat));
        if digits_value(a, 16) is Some {
            assert(digits_value(a, 16)->0 < 16);
        }
    } else if t.len() == 1 {
        assert(t.drop_last() =~= Seq::<char>::empty());
        assert(digits_value(t.drop_last(), 16) == Some(0nat));
    }
}

/// The byte that two hexadecimal digits stand for.
pub fn parse_hex_byte(value: &str) -> (r: Option<u8>)
    ensures
        match hex_byte_value(value@) {
            Some(v) => r == Some(v as u8) && v <= 255,
            None => r is None,
        },
{
    let v = chars_of(value);
    if v.len() != 2 {
        return None;
    }
    proof {
        lemma_two_digits(v@);
    }
    match parse_unsigned_bounded(&v, 16, 255) {
        Some(b) => Some(b as u8),
        None => None,
    }
}

/// Darkening by `shade` (out of 255), then lightening by `tint`, of one channel.
pub open spec fn shade_channel(c: nat, v: nat) -> nat {
    (c * v) / 255
}

pub open spec fn tint_channel(c: nat, v: nat) -> nat {
    (c + ((255 - c) * v) / 255) as nat
}

pub open spec fn tinted(color: Seq<u8>, tint: Option<nat>, shade: Option<nat>) -> Seq<u8> {
    let shaded = match shade {
        Some(v) => color.map_values(|c: u8| shade_channel(c as nat, v) as u8),
        None => color,
    };
    match tint {
        Some(v) => shaded.map_values(|c: u8| tint_channel(c as nat, v) as u8),
        None => shaded,
    }
}

pub open spec fn opt_hex_byte(s: Option<Seq<char>>) -> Option<nat> {
    match s {
        Some(x) => hex_byte_value(x),
        None => None,
    }
}

pub open spec fn opt_str(o: Option<&str>) -> Option<Seq<char>> {
    match o {
        Some(s) => Some(s@),
        None => None,
    }
}

fn shade_byte(c: u8, v: u8) -> (r: u8)
    ensures
        r as nat == shade_channel(c as nat, v as nat),
{
    assert(c as nat * v as nat <= 255 * 255) by (nonlinear_arith)
        requires
            c <= 255,
            v <= 255,
    ;
    let p: u16 = (c as u16) * (v as u16);
    assert(p / 255 <= 255);
    (p / 255) as u8
}

fn tint_byte(c: u8, v: u8) -> (r: u8)
    ensures
        r as nat == tint_channel(c as nat, v as nat),
{
    let rest: u16 = 255 - (c as u16);
    assert(rest as nat * v as nat <= 255 * 255) by (nonlinear_arith)
        requires
            rest <= 255,
            v <= 255,
    ;
    assert((rest as nat * v as nat) / 255 <= rest as nat) by (nonlinear_arith)
        requires
            v <= 255,
    ;
    let p: u16 = rest * (v as u16);
    ((c as u16) + p / 255) as u8
}

/// Word's `themeTint` and `themeShade`: each channel darkened by the shade,
/// then lightened toward white by the tint, both read as hexadecimal bytes.
pub fn apply_word_tint_shade(color: [u8; 3], tint: Option<&str>, shade: Option<&str>) -> (r: [u8; 3])
    ensures
        r@ == tinted(color@, opt_hex_byte(opt_str(tint)), opt_hex_byte(opt_str(shade))),
{
    let mut c = color;
    let s = match shade {
        Some(x) => parse_hex_byte(x),
        None => None,
    };
    if let Some(v) = s {
        c = [shade_byte(c[0], v), shade_byte(c[1], v), shade_byte(c[2], v)];
    }
    let ghost shaded = c@;
    proof {
        assert(shaded =~= match opt_hex_byte(opt_str(shade)) {
            Some(v) => color@.map_values(|x: u8| shade_channel(x as nat, v) as u8),
            None => color@,
        });
    }
    let t = match tint {
        Some(x) => parse_hex_byte(x),
        None => None,
    };
    if let Some(v) = t {
        c = [tint_byte(c[0], v), tint_byte(c[1], v), tint_byte(c[2], v)];
    }
    proof {
        assert(c@ =~= tinted(color@, opt_hex_byte(opt_str(tint)), opt_hex_byte(opt_str(shade))));
    }
    c
}

/// The color that a scheme slot defines directly: its first child, an
/// `srgbClr` (`val`) or a `sysClr` (`lastClr`).
pub open spec fn slot_color(slot: Node) -> Option<Seq<u8>> {
    if slot.children@.len() == 0 {
        None
    } else {
        let n = slot.children@[0];
        if local_part(n.name@) == "srgbClr"@ {
            match attr_value(n.attrs, "val"@) {
                Some(v) => hex_color(v@),
                None => None,
            }
        } else if local_part(n.name@) == "sysClr"@ {
            match attr_value(n.attrs, "lastClr"@) {
                Some(v) => hex_color(v@),
                None => None,
            }
        } else {
            None
        }
    }
}

fn direct_color(slot: &Node) -> (r: Option<[u8; 3]>)
    ensures
        match slot_color(*slot) {
            Some(c) => (r matches Some(a) && a@ == c),
            None => r is None,
        },
{
    proof {
        reveal_strlit("srgbClr");
        reveal_strlit("sysClr");
    }
    if slot.children.len() == 0 {
        return None;
    }
    let n = &slot.children[0];
    let name = n.local_name();
    if str_eq(name.as_str(), "srgbClr") {
        match n.attr("val") {
            Some(v) => parse_hex_color(v),
            None => None,
        }
    } else if str_eq(name.as_str(), "sysClr") {
        match n.attr("lastClr") {
            Some(v) => parse_hex_color(v),
            None => None,
        }
    } else {
        None
    }
}

/// The color of the scheme slot named `name`: the last slot of that name
/// that defines a color.
pub open spec fn scheme_color(slots: Seq<Node>, name: Seq<char>) -> Option<Seq<u8>>
    decreases slots.len(),
{
    if slots.len() == 0 {
        None
    } else if local_part(slots.last().name@) == name && slot_color(slots.last()) is Some {
        slot_color(slots.last())
    } else {
        scheme_color(slots.drop_last(), name)
    }
}

/// The first descendant of `root` with local name `local`.
pub open spec fn first_desc(root: Node, local: Seq<char>) -> Option<Node> {
    let all = all_named(preorder(root.children@), local);
    if all.len() > 0 {
        Some(all[0])
    } else {
        None
    }
}

/// The non-empty `typeface` of the child `child` of `parent`.
pub open spec fn typeface_of(parent: Option<Node>, child: Seq<char>) -> Option<Seq<char>> {
    match parent {
        Some(p) => match first_named(p.children@, child) {
            Some(c) => match attr_value(c.attrs, "typeface"@) {
                Some(t) => if t@.len() > 0 {
                    Some(t@)
                } else {
                    None
                },
                None => None,
            },
            None => None,
        },
        None => None,
    }
}

pub open spec fn font_part(root: Node, which: Seq<char>) -> Option<Node> {
    match first_desc(root, "fontScheme"@) {
        Some(fs) => first_named(fs.children@, which),
        None => None,
    }
}

fn typeface(parent: Option<&Node>, child: &str) -> (r: Option<String>)
    ensures
        opt_text(r) == typeface_of(
            match parent {
                Some(p) => Some(*p),
                None => None,
            },
            child@,
        ),
{
    proof {
        reveal_strlit("typeface");
    }
    match parent {
        Some(p) => match p.child(child) {
            Some(c) => match c.attr("typeface") {
                Some(t) => if t.is_empty() {
                    None
                } else {
                    Some(t.to_string())
                },
                None => None,
            },
            None => None,
        },
        None => None,
    }
}


pub open spec fn or_arial(o: Option<Seq<char>>) -> Seq<char> {
    match o {
        Some(s) => s,
        None => "Arial"@,
    }
}

pub open spec fn either(a: Option<Seq<char>>, b: Option<Seq<char>>) -> Option<Seq<char>> {
    if a is Some {
        a
    } else {
        b
    }
}

/// Every face a theme names is a non-empty name.
pub open spec fn faces_named(t: Theme) -> bool {
    &&& (opt_text(t.major_latin) matches Some(f) ==> f.len() > 0)
    &&& (opt_text(t.major_east_asia) matches Some(f) ==> f.len() > 0)
    &&& (opt_text(t.major_complex_script) matches Some(f) ==> f.len() > 0)
    &&& (opt_text(t.minor_latin) matches Some(f) ==> f.len() > 0)
    &&& (opt_text(t.minor_east_asia) matches Some(f) ==> f.len() > 0)
    &&& (opt_text(t.minor_complex_script) matches Some(f) ==> f.len() > 0)
}

/// In a theme whose faces are named, a theme font token always resolves to
/// a non-empty face (Arial at the last), any other value is a face name
/// already, and a Word theme font never resolves to an empty face.
pub proof fn theme_fonts_are_never_empty(t: Theme, v: Seq<char>)
    requires
        faces_named(t),
    ensures
        is_drawing_token(v) ==> font_of(t, v).len() > 0,
        !is_drawing_token(v) ==> font_of(t, v) == v,
        word_font_of(t, v) matches Some(f) ==> f.len() > 0,
{
    reveal_strlit("Arial");
}

/// DrawingML's theme font tokens (`+mj-lt`, `+mn-ea`, ...) resolved against
/// the theme, falling back to the Latin face and then to Arial; any other
/// value is a face name already.
pub open spec fn font_of(t: Theme, v: Seq<char>) -> Seq<char> {
    if v == "+mj-lt"@ {
        or_arial(opt_text(t.major_latin))
    } else if v == "+mj-ea"@ {
        or_arial(either(opt_text(t.major_east_asia), opt_text(t.major_latin)))
    } else if v == "+mj-cs"@ {
        or_arial(either(opt_text(t.major_complex_script), opt_text(t.major_latin)))
    } else if v == "+mn-lt"@ {
        or_arial(opt_text(t.minor_latin))
    } else if v == "+mn-ea"@ {
        or_arial(either(opt_text(t.minor_east_asia), opt_text(t.minor_latin)))
    } else if v == "+mn-cs"@ {
        or_arial(either(opt_text(t.minor_complex_script), opt_text(t.minor_latin)))
    } else {
        v
    }
}

pub open spec fn is_drawing_token(v: Seq<char>) -> bool {
    v == "+mj-lt"@ || v == "+mj-ea"@ || v == "+mj-cs"@ || v == "+mn-lt"@ || v == "+mn-ea"@ || v
        == "+mn-cs"@
}

/// The theme face that a WordprocessingML theme font token names, if it is
/// one of them.
pub open spec fn word_face(t: Theme, v: Seq<char>) -> Option<Option<Seq<char>>> {
    if v == "majorAscii"@ || v == "majorHAnsi"@ {
        Some(opt_text(t.major_latin))
    } else if v == "majorEastAsia"@ {
        Some(either(opt_text(t.major_east_asia), opt_text(t.major_latin)))
    } else if v == "majorBidi"@ {
        Some(either(opt_text(t.major_complex_script), opt_text(t.major_latin)))
    } else if v == "minorAscii"@ || v == "minorHAnsi"@ {
        Some(opt_text(t.minor_latin))
    } else if v == "minorEastAsia"@ {
        Some(either(opt_text(t.minor_east_asia), opt_text(t.minor_latin)))
    } else if v == "minorBidi"@ {
        Some(either(opt_text(t.minor_complex_script), opt_text(t.minor_latin)))
    } else {
        None
    }
}

/// WordprocessingML theme font tokens (`majorHAnsi`, `minorBidi`, ...); an
/// empty face counts as unresolved. DrawingML tokens resolve as in `font`.
pub open spec fn word_font_of(t: Theme, v: Seq<char>) -> Option<Seq<char>> {
    match word_face(t, v) {
        Some(Some(f)) => if f.len() > 0 {
            Some(f)
        } else {
            None
        },
        Some(None) => None,
        None => if is_drawing_token(v) {
            Some(font_of(t, v))
        } else {
            None
        },
    }
}

fn clone_opt(o: &Option<String>) -> (r: Option<String>)
    ensures
        opt_text(r) == opt_text(*o),
{
    match o {
        Some(s) => Some(s.clone()),
        None => None,
    }
}

fn or_arial_exec(o: Option<String>) -> (r: String)
    ensures
        r@ == or_arial(opt_text(o)),
{
    proof {
        reveal_strlit("Arial");
    }
    match o {
        Some(s) => s,
        None => "Arial".to_string(),
    }
}

fn either_exec(a: &Option<String>, b: &Option<String>) -> (r: Option<String>)
    ensures
        opt_text(r) == either(opt_text(*a), opt_text(*b)),
{
    if a.is_some() {
        clone_opt(a)
    } else {
        clone_opt(b)
    }
}

/// The color of a scheme slot, as bytes.
pub open spec fn opt_color(c: Option<[u8; 3]>) -> Option<Seq<u8>> {
    match c {
        Some(a) => Some(a@),
        None => None,
    }
}

/// Word's run color: the theme slot's color where the slot is set and
/// defined, else the literal hexadecimal value (not `auto`); then tint and
/// shade are applied.
pub open spec fn word_color_of(
    t: Theme,
    value: Option<Seq<char>>,
    theme_color: Option<Seq<char>>,
    tint: Option<Seq<char>>,
    shade: Option<Seq<char>>,
) -> Option<Seq<u8>> {
    let from_theme = match theme_color {
        Some(slot) => t.color_spec(slot),
        None => None,
    };
    let base = if from_theme is Some {
        from_theme
    } else {
        match value {
            Some(v) => if v == "auto"@ {
                None
            } else {
                hex_color(v)
            },
            None => None,
        }
    };
    match base {
        Some(c) => Some(tinted(c, opt_hex_byte(tint), opt_hex_byte(shade))),
        None => None,
    }
}

/// The base color of a DrawingML fill, before its modifiers: its first child,
/// an `srgbClr`, a `schemeClr` (its slot mapped through `color_map`, then
/// looked up in the theme) or a `sysClr`.
pub open spec fn fill_base_of(fill: Node, t: Theme, color_map: StrMap<String>) -> Option<Seq<u8>> {
    if fill.children@.len() == 0 {
        None
    } else {
        let n = fill.children@[0];
        if local_part(n.name@) == "srgbClr"@ {
            match attr_value(n.attrs, "val"@) {
                Some(v) => hex_color(v@),
                None => None,
            }
        } else if local_part(n.name@) == "schemeClr"@ {
            match attr_value(n.attrs, "val"@) {
                Some(v) => {
                    let mapped = match lookup(color_map.entries@, v@) {
                        Some(m) => m@,
                        None => v@,
                    };
                    t.color_spec(mapped)
                },
                None => None,
            }
        } else if local_part(n.name@) == "sysClr"@ {
            match attr_value(n.attrs, "lastClr"@) {
                Some(v) => hex_color(v@),
                None => None,
            }
        } else {
            None
        }
    }
}

/// The base color of a DrawingML fill (see `fill_base_of`); the percentage
/// modifiers under it are applied by the caller.
pub fn drawing_fill_base(fill: &Node, theme: &Theme, color_map: &StrMap<String>) -> (r: Option<
    [u8; 3],
>)
    ensures
        opt_color(r) == fill_base_of(*fill, *theme, *color_map),
{
    proof {
        reveal_strlit("srgbClr");
        reveal_strlit("schemeClr");
        reveal_strlit("sysClr");
    }
    if fill.children.len() == 0 {
        return None;
    }
    let n = &fill.children[0];
    let name = n.local_name();
    if str_eq(name.as_str(), "srgbClr") {
        match n.attr("val") {
            Some(v) => parse_hex_color(v),
            None => None,
        }
    } else if str_eq(name.as_str(), "schemeClr") {
        match n.attr("val") {
            Some(v) => {
                let mapped: &str = match color_map.get(v) {
                    Some(m) => m.as_str(),
                    None => v,
                };
                theme.color(mapped)
            },
            None => None,
        }
    } else if str_eq(name.as_str(), "sysClr") {
        match n.attr("lastClr") {
            Some(v) => parse_hex_color(v),
            None => None,
        }
    } else {
        None
    }
}

impl Default for Theme {
    /// A theme with no colours and no fonts: theme font tokens then resolve
    /// to Arial.
    fn default() -> (t: Theme)
        ensures
            t.colors.wf(),
            t.colors.entries@.len() == 0,
            t.major_latin is None,
            t.major_east_asia is None,
            t.major_complex_script is None,
            t.minor_latin is None,
            t.minor_east_asia is None,
            t.minor_complex_script is None,
            faces_named(t),
    {
        Theme {
            colors: StrMap::new(),
            major_latin: None,
            major_east_asia: None,
            major_complex_script: None,
            minor_latin: None,
            minor_east_asia: None,
            minor_complex_script: None,
        }
    }
}

impl Theme {
    /// The color of a scheme slot.
    pub open spec fn color_spec(&self, slot: Seq<char>) -> Option<Seq<u8>> {
        color_at(self.colors, slot)
    }

    /// Reads the color scheme and font scheme of a theme part.
    pub fn from_xml(root: &Node) -> (t: Theme)
        ensures
            t.colors.wf(),
            forall|name: Seq<char>| #[trigger] t.color_spec(name) == match first_desc(*root, "clrScheme"@) {
                Some(s) => scheme_color(s.children@, name),
                None => None,
            },
            opt_text(t.major_latin) == typeface_of(font_part(*root, "majorFont"@), "latin"@),
            opt_text(t.major_east_asia) == typeface_of(font_part(*root, "majorFont"@), "ea"@),
            opt_text(t.major_complex_script) == typeface_of(font_part(*root, "majorFont"@), "cs"@),
            opt_text(t.minor_latin) == typeface_of(font_part(*root, "minorFont"@), "latin"@),
            opt_text(t.minor_east_asia) == typeface_of(font_part(*root, "minorFont"@), "ea"@),
            opt_text(t.minor_complex_script) == typeface_of(font_part(*root, "minorFont"@), "cs"@),
            faces_named(t),
    {
        let mut colors: StrMap<[u8; 3]> = StrMap::new();
        let scheme = root.first_descendant("clrScheme");
        match scheme {
            Some(s) => {
                let mut i: usize = 0;
                while i < s.children.len()
                    invariant
                        i <= s.children.len(),
                        colors.wf(),
                        forall|name: Seq<char>| #[trigger] color_at(colors, name) == scheme_color(
                            s.children@.subrange(0, i as int),
                            name,
                        ),
                    decreases s.children.len() - i,
                {
                    let slot = &s.children[i];
                    let ghost p = s.children@.subrange(0, i as int + 1);
                    proof {
                        assert(p.drop_last() =~= s.children@.subrange(0, i as int));
                        assert(p.last() == *slot);
                    }
                    match direct_color(slot) {
                        Some(c) => {
                            let name = slot.local_name();
                            let ghost before = colors.entries@;
                            let ghost old_colors = colors;
                            colors.insert(name, c);
                            proof {
                                assert forall|q: Seq<char>| #[trigger] color_at(colors, q) == scheme_color(p, q) by {
                                    assert(colors.get_spec(q) == lookup(colors.entries@, q));
                                    assert(color_at(old_colors, q) == scheme_color(
                                        s.children@.subrange(0, i as int),
                                        q,
                                    ));
                                    if q != local_part(slot.name@) {
                                        assert(colors.get_spec(q) == lookup(before, q));
                                    }
                                }
                            }
                        },
                        None => {},
                    }
                    i += 1;
                }
                assert(s.children@.subrange(0, s.children.len() as int) =~= s.children@);
            },
            None => {},
        }
        let font_scheme = root.first_descendant("fontScheme");
        let (major, minor) = match font_scheme {
            Some(fs) => (fs.child("majorFont"), fs.child("minorFont")),
            None => (None, None),
        };
        proof {
            reveal_strlit("majorFont");
            reveal_strlit("minorFont");
        }
        Theme {
            colors,
            major_latin: typeface(major, "latin"),
            major_east_asia: typeface(major, "ea"),
            major_complex_script: typeface(major, "cs"),
            minor_latin: typeface(minor, "latin"),
            minor_east_asia: typeface(minor, "ea"),
            minor_complex_script: typeface(minor, "cs"),
        }
    }

    /// Resolves DrawingML's `+mj-lt` / `+mn-lt` font tokens; Arial stands in
    /// where the theme names no face.
    pub fn font(&self, value: &str) -> (r: String)
        ensures
            r@ == font_of(*self, value@),
    {
        proof {
            reveal_strlit("+mj-lt");
            reveal_strlit("+mj-ea");
            reveal_strlit("+mj-cs");
            reveal_strlit("+mn-lt");
            reveal_strlit("+mn-ea");
            reveal_strlit("+mn-cs");
        }
        if str_eq(value, "+mj-lt") {
            or_arial_exec(clone_opt(&self.major_latin))
        } else if str_eq(value, "+mj-ea") {
            or_arial_exec(either_exec(&self.major_east_asia, &self.major_latin))
        } else if str_eq(value, "+mj-cs") {
            or_arial_exec(either_exec(&self.major_complex_script, &self.major_latin))
        } else if str_eq(value, "+mn-lt") {
            or_arial_exec(clone_opt(&self.minor_latin))
        } else if str_eq(value, "+mn-ea") {
            or_arial_exec(either_exec(&self.minor_east_asia, &self.minor_latin))
        } else if str_eq(value, "+mn-cs") {
            or_arial_exec(either_exec(&self.minor_complex_script, &self.minor_latin))
        } else {
            value.to_string()
        }
    }

    /// Resolves WordprocessingML theme font tokens such as `majorHAnsi` and
    /// `minorBidi`; an empty theme face is unresolved.
    pub fn word_font(&self, value: &str) -> (r: Option<String>)
        ensures
            opt_text(r) == word_font_of(*self, value@),
    {
        proof {
            reveal_strlit("majorAscii");
            reveal_strlit("majorHAnsi");
            reveal_strlit("majorEastAsia");
            reveal_strlit("majorBidi");
            reveal_strlit("minorAscii");
            reveal_strlit("minorHAnsi");
            reveal_strlit("minorEastAsia");
            reveal_strlit("minorBidi");
            reveal_strlit("+mj-lt");
            reveal_strlit("+mj-ea");
            reveal_strlit("+mj-cs");
            reveal_strlit("+mn-lt");
            reveal_strlit("+mn-ea");
            reveal_strlit("+mn-cs");
        }
        let face: Option<String> = if str_eq(value, "majorAscii") || str_eq(value, "majorHAnsi") {
            clone_opt(&self.major_latin)
        } else if str_eq(value, "majorEastAsia") {
            either_exec(&self.major_east_asia, &self.major_latin)
        } else if str_eq(value, "majorBidi") {
            either_exec(&self.major_complex_script, &self.major_latin)
        } else if str_eq(value, "minorAscii") || str_eq(value, "minorHAnsi") {
            clone_opt(&self.minor_latin)
        } else if str_eq(value, "minorEastAsia") {
            either_exec(&self.minor_east_asia, &self.minor_latin)
        } else if str_eq(value, "minorBidi") {
            either_exec(&self.minor_complex_script, &self.minor_latin)
        } else if str_eq(value, "+mj-lt") || str_eq(value, "+mj-ea") || str_eq(value, "+mj-cs")
            || str_eq(value, "+mn-lt") || str_eq(value, "+mn-ea") || str_eq(value, "+mn-cs") {
            return Some(self.font(value));
        } else {
            return None;
        };
        match face {
            Some(f) => if f.as_str().is_empty() {
                None
            } else {
                Some(f)
            },
            None => None,
        }
    }

    /// The color of a scheme slot.
    pub fn color(&self, slot: &str) -> (r: Option<[u8; 3]>)
        ensures
            opt_color(r) == self.color_spec(slot@),
    {
        match self.colors.get(slot) {
            Some(c) => Some(*c),
            None => None,
        }
    }

    /// A WordprocessingML run color (see `word_color_of`).
    pub fn word_color(
        &self,
        value: Option<&str>,
        theme_color: Option<&str>,
        tint: Option<&str>,
        shade: Option<&str>,
    ) -> (r: Option<[u8; 3]>)
        ensures
            opt_color(r) == word_color_of(
                *self,
                opt_str(value),
                opt_str(theme_color),
                opt_str(tint),
                opt_str(shade),
            ),
    {
        proof {
            reveal_strlit("auto");
        }
        let from_theme = match theme_color {
            Some(slot) => self.color(slot),
            None => None,
        };
        let base = if from_theme.is_some() {
            from_theme
        } else {
            match value {
                Some(v) => if str_eq(v, "auto") {
                    None
                } else {
                    parse_hex_color(v)
                },
                None => None,
            }
        };
        match base {
            Some(c) => Some(apply_word_tint_shade(c, tint, shade)),
            None => None,
        }
    }

}

} // verus!

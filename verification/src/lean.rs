//! Pieces of the line-oriented "lean" rendering: escaping of document text so
//! that it stays on one record line, warning collapsing, style tokens and the
//! record names of flow blocks.
use vstd::prelude::*;
use crate::model::{BreakKind, HiddenItem, ListKind};
use crate::styles::{outline_level_gives_heading_role, role_of};
use crate::text::{
    chars_of, digit_char, hex_byte, hex_numeral, is_ctrl, is_whitespace, is_ws, lemma_hex_numeral_alnum,
    push_chars, push_hex, push_hex_byte, push_str, string_of,
};

verus! {

/// Characters that end a physical line for a reader of the lean format.
pub open spec fn is_line_break(c: char) -> bool {
    c == '\n' || c == '\r' || c == '\u{2028}' || c == '\u{2029}' || c == '\u{85}' || c == '\u{0b}'
        || c == '\u{0c}'
}

/// The escape of one character.
pub open spec fn escape_char(c: char) -> Seq<char> {
    if c == '\\' {
        seq!['\\', '\\']
    } else if c == '\n' {
        seq!['\\', 'n']
    } else if c == '\r' {
        seq!['\\', 'r']
    } else if is_ctrl(c) || c == '\u{2028}' || c == '\u{2029}' {
        seq!['\\', 'u', '{'] + hex_numeral((c as u32) as nat) + seq!['}']
    } else {
        seq![c]
    }
}

/// The escape of a text: each character escaped in turn.
pub open spec fn escaped(s: Seq<char>) -> Seq<char>
    decreases s.len(),
{
    if s.len() == 0 {
        Seq::empty()
    } else {
        escaped(s.drop_last()) + escape_char(s.last())
    }
}

pub proof fn lemma_escape_char_clean(c: char)
    ensures
        forall|k: int|
            0 <= k < escape_char(c).len() ==> !is_ctrl(#[trigger] escape_char(c)[k]) && escape_char(
                c,
            )[k] != '\u{2028}' && escape_char(c)[k] != '\u{2029}',
{
    lemma_hex_numeral_alnum((c as u32) as nat);
    let e = escape_char(c);
    if is_ctrl(c) || c == '\u{2028}' || c == '\u{2029}' {
        if c != '\\' && c != '\n' && c != '\r' {
            let h = hex_numeral((c as u32) as nat);
            assert forall|k: int| 0 <= k < e.len() implies !is_ctrl(#[trigger] e[k]) && e[k]
                != '\u{2028}' && e[k] != '\u{2029}' by {
                if 3 <= k < 3 + h.len() {
                    assert(e[k] == h[k - 3]);
                }
            }
        }
    }
}

/// Escaped text holds no control character and no Unicode line or paragraph
/// separator, so it can never start a new lean record.
pub proof fn escaped_text_stays_on_one_line(s: Seq<char>)
    ensures
        forall|k: int|
            0 <= k < escaped(s).len() ==> !is_ctrl(#[trigger] escaped(s)[k]) && !is_line_break(
                escaped(s)[k],
            ),
    decreases s.len(),
{
    if s.len() > 0 {
        escaped_text_stays_on_one_line(s.drop_last());
        lemma_escape_char_clean(s.last());
        let a = escaped(s.drop_last());
        let b = escape_char(s.last());
        assert forall|k: int| 0 <= k < escaped(s).len() implies !is_ctrl(
            #[trigger] escaped(s)[k],
        ) && !is_line_break(escaped(s)[k]) by {
            if k < a.len() {
                assert(escaped(s)[k] == a[k]);
            } else {
                assert(escaped(s)[k] == b[k - a.len()]);
            }
        }
    }
}

/// Escapes document-controlled text for a single lean record line.
pub fn escape_text(text: &str) -> (r: String)
    ensures
        r@ == escaped(text@),
{
    let v = chars_of(text);
    let mut out: Vec<char> = Vec::new();
    let mut i: usize = 0;
    while i < v.len()
        invariant
            i <= v.len(),
            out@ == escaped(v@.subrange(0, i as int)),
        decreases v.len() - i,
    {
        let ch = v[i];
        if ch == '\\' {
            out.push('\\');
            out.push('\\');
        } else if ch == '\n' {
            out.push('\\');
            out.push('n');
        } else if ch == '\r' {
            out.push('\\');
            out.push('r');
        } else if crate::text::is_control(ch) || ch == '\u{2028}' || ch == '\u{2029}' {
            out.push('\\');
            out.push('u');
            out.push('{');
            push_hex(&mut out, ch as u32 as u64);
            out.push('}');
        } else {
            out.push(ch);
        }
        proof {
            let p = v@.subrange(0, i + 1);
            assert(p.drop_last() =~= v@.subrange(0, i as int));
            assert(p.last() == ch);
        }
        i += 1;
        assert(out@ =~= escaped(v@.subrange(0, i as int)));
    }
    assert(v@.subrange(0, v.len() as int) =~= v@);
    string_of(&out)
}

pub open spec fn is_warning_break(c: char) -> bool {
    c == '\r' || c == '\n' || c == '\t'
}

/// Collapses each run of CR, LF and tab into one space; `in_break` says
/// whether the text follows such a run.
pub open spec fn collapsed(s: Seq<char>, in_break: bool) -> Seq<char>
    decreases s.len(),
{
    if s.len() == 0 {
        Seq::empty()
    } else if is_warning_break(s[0]) {
        (if in_break {
            Seq::empty()
        } else {
            seq![' ']
        }) + collapsed(s.drop_first(), true)
    } else {
        seq![s[0]] + collapsed(s.drop_first(), false)
    }
}

/// A warning as one lean line: each run of line breaks and tabs becomes a
/// single space.
pub fn collapse_warning(warning: &str) -> (r: String)
    ensures
        r@ == collapsed(warning@, false),
{
    let v = chars_of(warning);
    let mut out: Vec<char> = Vec::new();
    let mut in_break = false;
    let mut i: usize = 0;
    assert(v@.subrange(0, v.len() as int) =~= v@);
    while i < v.len()
        invariant
            i <= v.len(),
            out@ + collapsed(v@.subrange(i as int, v.len() as int), in_break) == collapsed(
                v@,
                false,
            ),
        decreases v.len() - i,
    {
        let ghost rest = v@.subrange(i as int, v.len() as int);
        assert(rest.drop_first() =~= v@.subrange(i + 1, v.len() as int));
        let ch = v[i];
        if ch == '\r' || ch == '\n' || ch == '\t' {
            if !in_break {
                out.push(' ');
            }
            in_break = true;
        } else {
            out.push(ch);
            in_break = false;
        }
        i += 1;
        proof {
            assert(out@ + collapsed(v@.subrange(i as int, v.len() as int), in_break) =~= collapsed(
                v@,
                false,
            ));
        }
    }
    assert(out@ =~= collapsed(v@, false));
    string_of(&out)
}

/// A collapsed warning holds no line feed, carriage return or tab.
pub proof fn collapsed_warning_has_no_breaks(s: Seq<char>, in_break: bool)
    ensures
        forall|k: int|
            0 <= k < collapsed(s, in_break).len() ==> !is_warning_break(
                #[trigger] collapsed(s, in_break)[k],
            ),
    decreases s.len(),
{
    if s.len() > 0 {
        let rest_break = is_warning_break(s[0]);
        collapsed_warning_has_no_breaks(s.drop_first(), rest_break);
        let head: Seq<char> = if is_warning_break(s[0]) {
            if in_break {
                Seq::empty()
            } else {
                seq![' ']
            }
        } else {
            seq![s[0]]
        };
        let tail = collapsed(s.drop_first(), rest_break);
        assert(collapsed(s, in_break) == head + tail);
        assert forall|k: int| 0 <= k < collapsed(s, in_break).len() implies !is_warning_break(
            #[trigger] collapsed(s, in_break)[k],
        ) by {
            if k >= head.len() {
                assert(collapsed(s, in_break)[k] == tail[k - head.len()]);
            }
        }
    }
}

/// The font token: `-` for an unnamed font, otherwise the name with each
/// white-space character replaced by `_`.
pub open spec fn font_token(name: Seq<char>) -> Seq<char> {
    if name.len() == 0 {
        seq!['-']
    } else {
        name.map_values(|c: char| if is_ws(c) { '_' } else { c })
    }
}

pub fn lean_font_name(name: &str) -> (r: String)
    ensures
        r@ == font_token(name@),
{
    let v = chars_of(name);
    if v.len() == 0 {
        proof {
            reveal_strlit("-");
        }
        return string_of(&chars_of("-"));
    }
    let mut out: Vec<char> = Vec::new();
    let mut i: usize = 0;
    while i < v.len()
        invariant
            i <= v.len(),
            out@ == v@.subrange(0, i as int).map_values(|c: char| if is_ws(c) { '_' } else { c }),
        decreases v.len() - i,
    {
        let c = v[i];
        out.push(if is_whitespace(c) { '_' } else { c });
        i += 1;
        assert(out@ =~= v@.subrange(0, i as int).map_values(
            |c: char|
                if is_ws(c) {
                    '_'
                } else {
                    c
                },
        ));
    }
    assert(v@.subrange(0, v.len() as int) =~= v@);
    string_of(&out)
}

/// A font token is one nonempty word: it never holds white space.
pub proof fn font_token_is_one_word(name: Seq<char>)
    ensures
        font_token(name).len() > 0,
        forall|k: int| 0 <= k < font_token(name).len() ==> !is_ws(#[trigger] font_token(name)[k]),
{
}

/// The style token: `b` for bold, `i` for italic, `-` for neither, then the
/// fill as `#rrggbb` unless it is absent or black.
pub open spec fn style_token(bold: bool, italic: bool, fill: Option<[u8; 3]>) -> Seq<char> {
    let flags: Seq<char> = (if bold {
        seq!['b']
    } else {
        Seq::empty()
    }) + (if italic {
        seq!['i']
    } else {
        Seq::empty()
    });
    let flags = if flags.len() == 0 {
        seq!['-']
    } else {
        flags
    };
    match crate::model::visible_color(fill) {
        Some(c) => flags + seq!['#'] + hex_byte(c[0]) + hex_byte(c[1]) + hex_byte(c[2]),
        None => flags,
    }
}

pub fn lean_style_parts(bold: bool, italic: bool, fill: Option<[u8; 3]>) -> (r: String)
    ensures
        r@ == style_token(bold, italic, fill),
{
    let mut style: Vec<char> = Vec::new();
    if bold {
        style.push('b');
    }
    if italic {
        style.push('i');
    }
    if style.len() == 0 {
        style.push('-');
    }
    match crate::model::drop_black(fill) {
        Some(c) => {
            style.push('#');
            push_hex_byte(&mut style, c[0]);
            push_hex_byte(&mut style, c[1]);
            push_hex_byte(&mut style, c[2]);
        },
        None => {},
    }
    assert(style@ =~= style_token(bold, italic, fill));
    string_of(&style)
}

pub open spec fn list_kind_code_of(kind: ListKind) -> Seq<char> {
    match kind {
        ListKind::Ordered => "o"@,
        ListKind::Bullet => "b"@,
    }
}

pub fn list_kind_code(kind: ListKind) -> (r: &'static str)
    ensures
        r@ == list_kind_code_of(kind),
{
    match kind {
        ListKind::Ordered => "o",
        ListKind::Bullet => "b",
    }
}

pub open spec fn break_name_of(kind: BreakKind) -> Seq<char> {
    match kind {
        BreakKind::Page => "page"@,
        BreakKind::Column => "column"@,
        BreakKind::Section => "section"@,
    }
}

pub fn break_name(kind: BreakKind) -> (r: &'static str)
    ensures
        r@ == break_name_of(kind),
{
    match kind {
        BreakKind::Page => "page",
        BreakKind::Column => "column",
        BreakKind::Section => "section",
    }
}

/// The lean record name of a paragraph role: headings `H1`..`H9`, `TI` for a
/// title, `Q` for a quote, `P` for everything else.
pub open spec fn paragraph_record_of(role: Seq<char>) -> Seq<char> {
    if role == "h1"@ {
        "H1"@
    } else if role == "h2"@ {
        "H2"@
    } else if role == "h3"@ {
        "H3"@
    } else if role == "h4"@ {
        "H4"@
    } else if role == "h5"@ {
        "H5"@
    } else if role == "h6"@ {
        "H6"@
    } else if role == "h7"@ {
        "H7"@
    } else if role == "h8"@ {
        "H8"@
    } else if role == "h9"@ {
        "H9"@
    } else if role == "title"@ {
        "TI"@
    } else if role == "quote"@ {
        "Q"@
    } else {
        "P"@
    }
}

/// Whether `role` is a heading role `h1`..`h9`.
pub open spec fn is_heading_role(role: Seq<char>) -> bool {
    role.len() == 2 && role[0] == 'h' && '1' <= role[1] <= '9'
}

proof fn lemma_record_literals()
    ensures
        "h1"@ == seq!['h', '1'],
        "h2"@ == seq!['h', '2'],
        "h3"@ == seq!['h', '3'],
        "h4"@ == seq!['h', '4'],
        "h5"@ == seq!['h', '5'],
        "h6"@ == seq!['h', '6'],
        "h7"@ == seq!['h', '7'],
        "h8"@ == seq!['h', '8'],
        "h9"@ == seq!['h', '9'],
        "H1"@ == seq!['H', '1'],
        "H2"@ == seq!['H', '2'],
        "H3"@ == seq!['H', '3'],
        "H4"@ == seq!['H', '4'],
        "H5"@ == seq!['H', '5'],
        "H6"@ == seq!['H', '6'],
        "H7"@ == seq!['H', '7'],
        "H8"@ == seq!['H', '8'],
        "H9"@ == seq!['H', '9'],
        "title"@ == seq!['t', 'i', 't', 'l', 'e'],
        "quote"@ == seq!['q', 'u', 'o', 't', 'e'],
        "TI"@ == seq!['T', 'I'],
        "Q"@ == seq!['Q'],
        "P"@ == seq!['P'],
{
    reveal_strlit("h1");
    reveal_strlit("h2");
    reveal_strlit("h3");
    reveal_strlit("h4");
    reveal_strlit("h5");
    reveal_strlit("h6");
    reveal_strlit("h7");
    reveal_strlit("h8");
    reveal_strlit("h9");
    reveal_strlit("H1");
    reveal_strlit("H2");
    reveal_strlit("H3");
    reveal_strlit("H4");
    reveal_strlit("H5");
    reveal_strlit("H6");
    reveal_strlit("H7");
    reveal_strlit("H8");
    reveal_strlit("H9");
    reveal_strlit("title");
    reveal_strlit("quote");
    reveal_strlit("TI");
    reveal_strlit("Q");
    reveal_strlit("P");
    assert("h1"@ =~= seq!['h', '1']);
    assert("h2"@ =~= seq!['h', '2']);
    assert("h3"@ =~= seq!['h', '3']);
    assert("h4"@ =~= seq!['h', '4']);
    assert("h5"@ =~= seq!['h', '5']);
    assert("h6"@ =~= seq!['h', '6']);
    assert("h7"@ =~= seq!['h', '7']);
    assert("h8"@ =~= seq!['h', '8']);
    assert("h9"@ =~= seq!['h', '9']);
    assert("H1"@ =~= seq!['H', '1']);
    assert("H2"@ =~= seq!['H', '2']);
    assert("H3"@ =~= seq!['H', '3']);
    assert("H4"@ =~= seq!['H', '4']);
    assert("H5"@ =~= seq!['H', '5']);
    assert("H6"@ =~= seq!['H', '6']);
    assert("H7"@ =~= seq!['H', '7']);
    assert("H8"@ =~= seq!['H', '8']);
    assert("H9"@ =~= seq!['H', '9']);
    assert("title"@ =~= seq!['t', 'i', 't', 'l', 'e']);
    assert("quote"@ =~= seq!['q', 'u', 'o', 't', 'e']);
    assert("TI"@ =~= seq!['T', 'I']);
    assert("Q"@ =~= seq!['Q']);
    assert("P"@ =~= seq!['P']);
}

/// A heading's record names its level: the role `h` followed by a digit from
/// 1 to 9 is written as `H` followed by the same digit.
pub proof fn heading_record_names_level(d: char)
    requires
        '1' <= d <= '9',
    ensures
        paragraph_record_of(seq!['h', d]) == seq!['H', d],
{
    lemma_record_literals();
    let role = seq!['h', d];
    assert(role[1] == d);
    if d == '1' {
        assert(role =~= "h1"@);
    } else if d == '2' {
        assert(role =~= "h2"@);
    } else if d == '3' {
        assert(role =~= "h3"@);
    } else if d == '4' {
        assert(role =~= "h4"@);
    } else if d == '5' {
        assert(role =~= "h5"@);
    } else if d == '6' {
        assert(role =~= "h6"@);
    } else if d == '7' {
        assert(role =~= "h7"@);
    } else if d == '8' {
        assert(role =~= "h8"@);
    } else {
        assert(d == '9');
        assert(role =~= "h9"@);
    }
}

/// Only roles other than the headings `h1`..`h9`, `title` and `quote` are
/// written as plain `P` records; a title is `TI` and a quote is `Q`.
pub proof fn plain_record_only_for_other_roles(role: Seq<char>)
    ensures
        paragraph_record_of(role) == seq!['P'] <==> !is_heading_role(role) && role != seq![
            't',
            'i',
            't',
            'l',
            'e',
        ] && role != seq!['q', 'u', 'o', 't', 'e'],
        role == seq!['t', 'i', 't', 'l', 'e'] ==> paragraph_record_of(role) == seq!['T', 'I'],
        role == seq!['q', 'u', 'o', 't', 'e'] ==> paragraph_record_of(role) == seq!['Q'],
{
    lemma_record_literals();
    if is_heading_role(role) {
        assert(role =~= seq!['h', role[1]]);
        heading_record_names_level(role[1]);
        assert(seq!['H', role[1]][0] != seq!['P'][0]);
    } else {
        assert(role != "h1"@ && role != "h2"@ && role != "h3"@ && role != "h4"@ && role != "h5"@
            && role != "h6"@ && role != "h7"@ && role != "h8"@ && role != "h9"@) by {
            if role == "h1"@ || role == "h2"@ || role == "h3"@ || role == "h4"@ || role == "h5"@
                || role == "h6"@ || role == "h7"@ || role == "h8"@ || role == "h9"@ {
                assert(role.len() == 2 && role[0] == 'h' && '1' <= role[1] <= '9');
            }
        }
        assert(seq!['T', 'I'] != seq!['P']) by {
            assert(seq!['T', 'I'].len() != seq!['P'].len());
        }
        assert(seq!['Q'] != seq!['P']) by {
            assert(seq!['Q'][0] != seq!['P'][0]);
        }
    }
}

/// A paragraph with an outline level `l` of at most 8 is written as the
/// heading record of level `l + 1` (`H1` for level 0), whatever its style is
/// named.
pub proof fn outline_level_heading_record(l: u32, style_name: Seq<char>)
    requires
        l <= 8,
    ensures
        paragraph_record_of(role_of(Some(l), style_name)) == seq!['H', digit_char((l + 1) as nat)],
{
    outline_level_gives_heading_role(l, style_name);
    heading_record_names_level(digit_char((l + 1) as nat));
}

pub fn paragraph_record(role: &str) -> (r: &'static str)
    ensures
        r@ == paragraph_record_of(role@),
{
    let v = chars_of(role);
    let is = |lit: &str| -> (b: bool)
        ensures
            b == (v@ == lit@),
        { crate::text::seq_eq(&v, &chars_of(lit)) };
    if is("h1") {
        "H1"
    } else if is("h2") {
        "H2"
    } else if is("h3") {
        "H3"
    } else if is("h4") {
        "H4"
    } else if is("h5") {
        "H5"
    } else if is("h6") {
        "H6"
    } else if is("h7") {
        "H7"
    } else if is("h8") {
        "H8"
    } else if is("h9") {
        "H9"
    } else if is("title") {
        "TI"
    } else if is("quote") {
        "Q"
    } else {
        "P"
    }
}

/// One hidden item as a lean line: kind, optional element id, escaped content.
pub open spec fn hidden_line(item: HiddenItem) -> Seq<char> {
    item.kind@ + seq![' '] + match item.element {
        Some(e) => e@ + seq![' '],
        None => Seq::empty(),
    } + escaped(item.content@) + seq!['\n']
}

pub open spec fn hidden_lines(items: Seq<HiddenItem>) -> Seq<char>
    decreases items.len(),
{
    if items.len() == 0 {
        Seq::empty()
    } else {
        hidden_lines(items.drop_last()) + hidden_line(items.last())
    }
}

/// The `<hidden>` block of a section, or nothing when there are no items.
pub open spec fn hidden_block(items: Seq<HiddenItem>) -> Seq<char> {
    if items.len() == 0 {
        Seq::empty()
    } else {
        "<hidden>\n"@ + hidden_lines(items) + "</hidden>\n"@
    }
}

/// Writes the `<hidden>` block: one line per item, content escaped so that it
/// can neither close the block nor forge element records.
pub fn write_hidden(output: &mut Vec<char>, hidden: &[HiddenItem])
    ensures
        final(output)@ == old(output)@ + hidden_block(hidden@),
{
    if hidden.len() == 0 {
        assert(old(output)@ + hidden_block(hidden@) =~= old(output)@);
        return;
    }
    push_str(output, "<hidden>\n");
    let ghost start = output@;
    let mut i: usize = 0;
    while i < hidden.len()
        invariant
            i <= hidden.len(),
            output@ == start + hidden_lines(hidden@.subrange(0, i as int)),
        decreases hidden.len() - i,
    {
        let item = &hidden[i];
        push_str(output, item.kind.as_str());
        output.push(' ');
        match &item.element {
            Some(e) => {
                push_str(output, e.as_str());
                output.push(' ');
            },
            None => {},
        }
        let esc = escape_text(item.content.as_str());
        push_str(output, esc.as_str());
        output.push('\n');
        proof {
            let p = hidden@.subrange(0, i + 1);
            assert(p.drop_last() =~= hidden@.subrange(0, i as int));
            assert(p.last() == *item);
        }
        i += 1;
        assert(output@ =~= start + hidden_lines(hidden@.subrange(0, i as int)));
    }
    assert(hidden@.subrange(0, hidden.len() as int) =~= hidden@);
    push_str(output, "</hidden>\n");
    assert(output@ =~= old(output)@ + hidden_block(hidden@));
}


/// The number that a numeral of hexadecimal digits (as `digit_char`
/// writes them) reads as.
pub open spec fn hex_value(s: Seq<char>) -> nat
    decreases s.len(),
{
    if s.len() == 0 {
        0
    } else {
        hex_value(s.drop_last()) * 16 + digit_value(s.last())
    }
}

/// The value of one digit as `digit_char` writes it.
pub open spec fn digit_value(c: char) -> nat {
    if (c as u32) <= ('9' as u32) {
        ((c as u32) - ('0' as u32)) as nat
    } else {
        ((c as u32) - ('a' as u32) + 10) as nat
    }
}

proof fn lemma_digit_value(d: nat)
    requires
        d < 16,
    ensures
        digit_value(digit_char(d)) == d,
{
    if d < 10 {
        assert((((('0' as u32) + d) as char) as u32) == ('0' as u32) + d);
    } else {
        assert((((('a' as u32) + d - 10) as char) as u32) == ('a' as u32) + d - 10);
    }
}

proof fn lemma_hex_value(n: nat)
    ensures
        hex_value(hex_numeral(n)) == n,
    decreases n,
{
    if n >= 16 {
        lemma_hex_value(n / 16);
        lemma_digit_value((n % 16) as nat);
        assert(hex_numeral(n).drop_last() =~= hex_numeral(n / 16));
        assert(hex_numeral(n).last() == digit_char(n % 16));
        assert((n / 16) * 16 + n % 16 == n);
    } else {
        lemma_digit_value(n);
        assert(seq![digit_char(n)].drop_last() =~= Seq::<char>::empty());
        assert(hex_value(Seq::<char>::empty()) == 0);
    }
}

proof fn lemma_escape_front(c: char, s: Seq<char>)
    ensures
        escaped(seq![c] + s) == escape_char(c) + escaped(s),
    decreases s.len(),
{
    if s.len() == 0 {
        assert(seq![c] + s =~= seq![c]);
        assert(seq![c].drop_last() =~= Seq::<char>::empty());
        assert(seq![c].last() == c);
        assert(escaped(Seq::<char>::empty()) =~= Seq::<char>::empty());
        assert(escaped(s) =~= Seq::<char>::empty());
        assert(escape_char(c) + Seq::<char>::empty() =~= escape_char(c));
        assert(Seq::<char>::empty() + escape_char(c) =~= escape_char(c));
    } else {
        lemma_escape_front(c, s.drop_last());
        assert((seq![c] + s).drop_last() =~= seq![c] + s.drop_last());
        assert((seq![c] + s).last() == s.last());
        assert(escape_char(c) + escaped(s.drop_last()) + escape_char(s.last()) =~= escape_char(c) + (
        escaped(s.drop_last()) + escape_char(s.last())));
    }
}

proof fn lemma_escape_char_decodes(x: char, y: char, r1: Seq<char>, r2: Seq<char>)
    requires
        escape_char(x) + r1 == escape_char(y) + r2,
    ensures
        x == y,
        r1 == r2,
{
    let ex = escape_char(x);
    let ey = escape_char(y);
    let w = ex + r1;
    assert(w == ey + r2);
    assert(w[0] == ex[0] && w[0] == ey[0]);
    if ex[0] != '\\' {
        assert(ex.len() == 1 && ey.len() == 1);
    } else {
        assert(w[1] == ex[1] && w[1] == ey[1]);
        if ex[1] == 'u' {
            let hx = hex_numeral((x as u32) as nat);
            let hy = hex_numeral((y as u32) as nat);
            lemma_hex_numeral_alnum((x as u32) as nat);
            lemma_hex_numeral_alnum((y as u32) as nat);
            assert(ex =~= seq!['\\', 'u', '{'] + hx + seq!['}']);
            assert(ey =~= seq!['\\', 'u', '{'] + hy + seq!['}']);
            if hx.len() < hy.len() {
                assert(w[3 + hx.len() as int] == '}');
                assert(w[3 + hx.len() as int] == hy[hx.len() as int]);
            } else if hy.len() < hx.len() {
                assert(w[3 + hy.len() as int] == '}');
                assert(w[3 + hy.len() as int] == hx[hy.len() as int]);
            } else {
                assert forall|k: int| 0 <= k < hx.len() implies hx[k] == hy[k] by {
                    assert(w[3 + k] == hx[k]);
                    assert(w[3 + k] == hy[k]);
                }
                assert(hx =~= hy);
                lemma_hex_value((x as u32) as nat);
                lemma_hex_value((y as u32) as nat);
            }
        }
    }
    assert(ex == ey);
    assert(r1 =~= w.subrange(ex.len() as int, w.len() as int));
    assert(r2 =~= w.subrange(ey.len() as int, w.len() as int));
}

/// Escaping loses nothing: two texts that escape alike are the same text,
/// so no escaped record text can pass for another.
pub proof fn escaping_is_injective(a: Seq<char>, b: Seq<char>)
    requires
        escaped(a) == escaped(b),
    ensures
        a == b,
    decreases a.len() + b.len(),
{
    if a.len() == 0 || b.len() == 0 {
        assert(escaped(Seq::<char>::empty()).len() == 0);
        if a.len() > 0 {
            assert(escape_char(a.last()).len() > 0);
            assert(escaped(a).len() == escaped(a.drop_last()).len() + escape_char(a.last()).len());
        }
        if b.len() > 0 {
            assert(escape_char(b.last()).len() > 0);
            assert(escaped(b).len() == escaped(b.drop_last()).len() + escape_char(b.last()).len());
        }
        assert(a =~= b);
    } else {
        let a1 = a.drop_first();
        let b1 = b.drop_first();
        assert(a =~= seq![a[0]] + a1);
        assert(b =~= seq![b[0]] + b1);
        lemma_escape_front(a[0], a1);
        lemma_escape_front(b[0], b1);
        lemma_escape_char_decodes(a[0], b[0], escaped(a1), escaped(b1));
        escaping_is_injective(a1, b1);
    }
}

} // verus!

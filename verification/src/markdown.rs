//! Text pieces of the Markdown rendering: escaping for Markdown, link targets
//! and HTML, white-space normalization, and the rendering of styled segments
//! as Markdown or as inline HTML for table cells.
use vstd::prelude::*;
use crate::model::HiddenItem;
use crate::text::{
    chars_of, is_ctrl, is_whitespace, is_ws, parse_unsigned, parse_unsigned_bounded, push_chars,
    push_str, replace_all, replaced, slice_chars, string_of,
};

verus! {

/// A run of text with one style and an optional link target.
#[derive(Debug, Clone, PartialEq, Eq)]
pub struct Segment {
    pub text: String,
    pub bold: bool,
    pub italic: bool,
    pub href: Option<String>,
}

/// A segment as values.
pub struct SegmentView {
    pub text: Seq<char>,
    pub bold: bool,
    pub italic: bool,
    pub href: Option<Seq<char>>,
}

pub open spec fn segment_view(s: Segment) -> SegmentView {
    SegmentView {
        text: s.text@,
        bold: s.bold,
        italic: s.italic,
        href: match s.href {
            Some(h) => Some(h@),
            None => None,
        },
    }
}

pub open spec fn segment_views(s: Seq<Segment>) -> Seq<SegmentView> {
    s.map_values(|x: Segment| segment_view(x))
}

/// The strongest white space seen between two pieces of visible text.
#[derive(Debug, Clone, Copy, PartialEq, Eq, Structural)]
pub enum Separator {
    Absent,
    Space,
    Line,
}

pub open spec fn sep_rank(s: Separator) -> int {
    match s {
        Separator::Absent => 0,
        Separator::Space => 1,
        Separator::Line => 2,
    }
}

pub open spec fn sep_max(a: Separator, b: Separator) -> Separator {
    if sep_rank(a) >= sep_rank(b) {
        a
    } else {
        b
    }
}

fn max_separator(a: Separator, b: Separator) -> (r: Separator)
    ensures
        r == sep_max(a, b),
{
    let ra: u8 = match a {
        Separator::Absent => 0,
        Separator::Space => 1,
        Separator::Line => 2,
    };
    let rb: u8 = match b {
        Separator::Absent => 0,
        Separator::Space => 1,
        Separator::Line => 2,
    };
    if ra >= rb {
        a
    } else {
        b
    }
}

pub open spec fn is_line_char(c: char) -> bool {
    c == '\n' || c == '\r' || c == '\u{2028}' || c == '\u{2029}'
}

/// The separator that a run of white space stands for.
pub open spec fn sep_of(s: Seq<char>) -> Separator {
    if exists|k: int| 0 <= k < s.len() && is_line_char(#[trigger] s[k]) {
        Separator::Line
    } else if exists|k: int| 0 <= k < s.len() && is_ws(#[trigger] s[k]) {
        Separator::Space
    } else {
        Separator::Absent
    }
}

pub open spec fn ws_sep(c: char) -> Separator {
    if is_line_char(c) {
        Separator::Line
    } else {
        Separator::Space
    }
}

fn char_separator(c: char) -> (r: Separator)
    ensures
        r == ws_sep(c),
{
    if c == '\n' || c == '\r' || c == '\u{2028}' || c == '\u{2029}' {
        Separator::Line
    } else {
        Separator::Space
    }
}

/// The separator of `v[start..end]`.
pub fn separator(v: &[char], start: usize, end: usize) -> (r: Separator)
    requires
        start <= end <= v.len(),
    ensures
        r == sep_of(v@.subrange(start as int, end as int)),
{
    let ghost s = v@.subrange(start as int, end as int);
    let mut line = false;
    let mut space = false;
    let mut i = start;
    while i < end
        invariant
            start <= i <= end <= v.len(),
            s == v@.subrange(start as int, end as int),
            line <==> exists|k: int| 0 <= k < i - start && is_line_char(#[trigger] s[k]),
            space <==> exists|k: int| 0 <= k < i - start && is_ws(#[trigger] s[k]),
        decreases end - i,
    {
        let c = v[i];
        assert(s[i - start] == c);
        if c == '\n' || c == '\r' || c == '\u{2028}' || c == '\u{2029}' {
            line = true;
        }
        if is_whitespace(c) {
            space = true;
        }
        i += 1;
    }
    if line {
        Separator::Line
    } else if space {
        Separator::Space
    } else {
        Separator::Absent
    }
}

/// Number of leading white-space characters.
pub open spec fn lead(s: Seq<char>) -> int
    decreases s.len(),
{
    if s.len() > 0 && is_ws(s[0]) {
        1 + lead(s.drop_first())
    } else {
        0
    }
}

/// Number of trailing white-space characters.
pub open spec fn trail(s: Seq<char>) -> int
    decreases s.len(),
{
    if s.len() > 0 && is_ws(s.last()) {
        1 + trail(s.drop_last())
    } else {
        0
    }
}

/// End of the visible body: where trailing white space begins, never before
/// the body's start.
pub open spec fn body_end(s: Seq<char>) -> int {
    s.len() - trail(s.subrange(lead(s), s.len() as int))
}

proof fn lemma_lead(s: Seq<char>, i: int)
    requires
        0 <= i <= s.len(),
        forall|k: int| 0 <= k < i ==> is_ws(s[k]),
        i == s.len() || !is_ws(s[i]),
    ensures
        lead(s) == i,
    decreases i,
{
    if i > 0 {
        lemma_lead(s.drop_first(), i - 1);
    }
}

proof fn lemma_trail(s: Seq<char>, j: int)
    requires
        0 <= j <= s.len(),
        forall|k: int| j <= k < s.len() ==> is_ws(s[k]),
        j == 0 || !is_ws(s[j - 1]),
    ensures
        trail(s) == s.len() - j,
    decreases s.len() - j,
{
    if j < s.len() {
        lemma_trail(s.drop_last(), j);
    }
}

/// The leading white space, body and trailing white space of a text, as the
/// bounds `(start, end)` of the body.
pub fn split_whitespace(v: &[char]) -> (r: (usize, usize))
    ensures
        r.0 == lead(v@),
        r.1 == body_end(v@),
        r.0 <= r.1 <= v.len(),
{
    let mut i: usize = 0;
    while i < v.len() && is_whitespace(v[i])
        invariant
            i <= v.len(),
            forall|k: int| 0 <= k < i ==> is_ws(v@[k]),
        decreases v.len() - i,
    {
        i += 1;
    }
    let mut j: usize = v.len();
    while j > i && is_whitespace(v[j - 1])
        invariant
            i <= j <= v.len(),
            forall|k: int| j <= k < v.len() ==> is_ws(v@[k]),
        decreases j,
    {
        j -= 1;
    }
    proof {
        lemma_lead(v@, i as int);
        let t = v@.subrange(i as int, v.len() as int);
        assert forall|k: int| j - i <= k < t.len() implies is_ws(t[k]) by {
            assert(t[k] == v@[i + k]);
        }
        if j > i {
            assert(t[j - i - 1] == v@[j - 1]);
        }
        lemma_trail(t, j - i);
    }
    (i, j)
}

/// Appends the Markdown form of a separator, except at the very start.
pub open spec fn md_sep(out: Seq<char>, sep: Separator) -> Seq<char> {
    if out.len() == 0 {
        out
    } else {
        match sep {
            Separator::Absent => out,
            Separator::Space => out.push(' '),
            Separator::Line => out + "<br>\n"@,
        }
    }
}

/// Appends the inline-HTML form of a separator, except at the very start.
pub open spec fn html_sep(out: Seq<char>, sep: Separator) -> Seq<char> {
    if out.len() == 0 {
        out
    } else {
        match sep {
            Separator::Absent => out,
            Separator::Space => out.push(' '),
            Separator::Line => out + "<br>"@,
        }
    }
}

pub fn push_separator(output: &mut Vec<char>, separator: Separator)
    ensures
        final(output)@ == md_sep(old(output)@, separator),
{
    if output.len() == 0 {
        return;
    }
    match separator {
        Separator::Absent => {},
        Separator::Space => output.push(' '),
        Separator::Line => push_str(output, "<br>\n"),
    }
}

pub fn push_html_separator(output: &mut Vec<char>, separator: Separator)
    ensures
        final(output)@ == html_sep(old(output)@, separator),
{
    if output.len() == 0 {
        return;
    }
    match separator {
        Separator::Absent => {},
        Separator::Space => output.push(' '),
        Separator::Line => push_str(output, "<br>"),
    }
}

/// Inner white space collapsed: each run becomes one space, or a line break
/// where it holds one. Returns the text so far and the pending separator.
pub open spec fn normalized(s: Seq<char>) -> (Seq<char>, Separator)
    decreases s.len(),
{
    if s.len() == 0 {
        (Seq::empty(), Separator::Absent)
    } else {
        let (out, pending) = normalized(s.drop_last());
        let c = s.last();
        if is_ws(c) {
            (out, sep_max(pending, ws_sep(c)))
        } else {
            (md_sep(out, pending).push(c), Separator::Absent)
        }
    }
}

pub fn normalize_inner_whitespace(v: &[char]) -> (r: Vec<char>)
    ensures
        r@ == normalized(v@).0,
{
    let mut out: Vec<char> = Vec::new();
    let mut pending = Separator::Absent;
    let mut i: usize = 0;
    while i < v.len()
        invariant
            i <= v.len(),
            (out@, pending) == normalized(v@.subrange(0, i as int)),
        decreases v.len() - i,
    {
        let c = v[i];
        proof {
            let p = v@.subrange(0, i + 1);
            assert(p.drop_last() =~= v@.subrange(0, i as int));
            assert(p.last() == c);
        }
        if is_whitespace(c) {
            pending = max_separator(pending, char_separator(c));
        } else {
            push_separator(&mut out, pending);
            pending = Separator::Absent;
            out.push(c);
        }
        i += 1;
    }
    assert(v@.subrange(0, v.len() as int) =~= v@);
    out
}

/// Markdown escape of one character.
pub open spec fn md_escape_char(c: char) -> Seq<char> {
    if c == '&' {
        "&amp;"@
    } else if c == '<' {
        "&lt;"@
    } else if c == '>' {
        "&gt;"@
    } else if c == '\\' || c == '*' || c == '_' || c == '[' || c == ']' || c == '`' || c == '|'
        || c == '#' || c == '!' {
        seq!['\\', c]
    } else if is_ctrl(c) {
        seq![' ']
    } else {
        seq![c]
    }
}

pub open spec fn md_escaped(s: Seq<char>) -> Seq<char>
    decreases s.len(),
{
    if s.len() == 0 {
        Seq::empty()
    } else {
        md_escaped(s.drop_last()) + md_escape_char(s.last())
    }
}

/// The characters that Markdown gives a meaning to in running text.
pub open spec fn md_meta(c: char) -> bool {
    c == '\\' || c == '*' || c == '_' || c == '[' || c == ']' || c == '`' || c == '|' || c == '#'
        || c == '!'
}

/// Whether `out` is safe Markdown text: each metacharacter stands right after
/// a backslash that escapes it, and no bare `<`, `>` or control character
/// remains.
pub open spec fn md_safe(out: Seq<char>) -> bool
    decreases out.len(),
{
    if out.len() == 0 {
        true
    } else if out[0] == '\\' {
        out.len() >= 2 && md_meta(out[1]) && md_safe(out.skip(2))
    } else {
        !md_meta(out[0]) && out[0] != '<' && out[0] != '>' && !is_ctrl(out[0]) && md_safe(
            out.skip(1),
        )
    }
}

/// Whether `s` begins with `p`.
pub open spec fn begins_with(s: Seq<char>, p: Seq<char>) -> bool {
    s.len() >= p.len() && s.subrange(0, p.len() as int) == p
}

/// Markdown text read back: a backslash escape gives the character it
/// escapes, and `&amp;`, `&lt;` and `&gt;` give `&`, `<` and `>`.
pub open spec fn md_unescaped(out: Seq<char>) -> Seq<char>
    decreases out.len(),
{
    if out.len() == 0 {
        Seq::empty()
    } else if out[0] == '\\' && out.len() >= 2 {
        seq![out[1]] + md_unescaped(out.skip(2))
    } else if begins_with(out, seq!['&', 'a', 'm', 'p', ';']) {
        seq!['&'] + md_unescaped(out.skip(5))
    } else if begins_with(out, seq!['&', 'l', 't', ';']) {
        seq!['<'] + md_unescaped(out.skip(4))
    } else if begins_with(out, seq!['&', 'g', 't', ';']) {
        seq!['>'] + md_unescaped(out.skip(4))
    } else {
        seq![out[0]] + md_unescaped(out.skip(1))
    }
}

proof fn lemma_md_entities()
    ensures
        "&amp;"@ == seq!['&', 'a', 'm', 'p', ';'],
        "&lt;"@ == seq!['&', 'l', 't', ';'],
        "&gt;"@ == seq!['&', 'g', 't', ';'],
{
    reveal_strlit("&amp;");
    reveal_strlit("&lt;");
    reveal_strlit("&gt;");
    assert("&amp;"@ =~= seq!['&', 'a', 'm', 'p', ';']);
    assert("&lt;"@ =~= seq!['&', 'l', 't', ';']);
    assert("&gt;"@ =~= seq!['&', 'g', 't', ';']);
}

proof fn lemma_md_safe_concat(a: Seq<char>, b: Seq<char>)
    requires
        md_safe(a),
        md_safe(b),
    ensures
        md_safe(a + b),
    decreases a.len(),
{
    if a.len() == 0 {
        assert(a + b =~= b);
    } else if a[0] == '\\' {
        lemma_md_safe_concat(a.skip(2), b);
        assert((a + b).skip(2) =~= a.skip(2) + b);
    } else {
        lemma_md_safe_concat(a.skip(1), b);
        assert((a + b).skip(1) =~= a.skip(1) + b);
    }
}

proof fn lemma_md_plain_safe(s: Seq<char>)
    requires
        forall|i: int|
            0 <= i < s.len() ==> !md_meta(#[trigger] s[i]) && s[i] != '<' && s[i] != '>'
                && !is_ctrl(s[i]),
    ensures
        md_safe(s),
    decreases s.len(),
{
    if s.len() > 0 {
        let rest = s.skip(1);
        assert forall|i: int| 0 <= i < rest.len() implies !md_meta(#[trigger] rest[i])
            && rest[i] != '<' && rest[i] != '>' && !is_ctrl(rest[i]) by {
            assert(rest[i] == s[i + 1]);
        }
        lemma_md_plain_safe(rest);
    }
}

proof fn lemma_md_escape_char_safe(c: char)
    ensures
        md_safe(md_escape_char(c)),
{
    lemma_md_entities();
    let e = md_escape_char(c);
    if md_meta(c) && c != '&' && c != '<' && c != '>' {
        lemma_md_plain_safe(e.skip(2));
    } else {
        assert(is_ctrl(' ') == false);
        lemma_md_plain_safe(e);
    }
}

proof fn lemma_md_escaped_concat(a: Seq<char>, b: Seq<char>)
    ensures
        md_escaped(a + b) == md_escaped(a) + md_escaped(b),
    decreases b.len(),
{
    if b.len() == 0 {
        assert(a + b =~= a);
        assert(md_escaped(a) + md_escaped(b) =~= md_escaped(a));
    } else {
        lemma_md_escaped_concat(a, b.drop_last());
        assert((a + b).drop_last() =~= a + b.drop_last());
        assert((a + b).last() == b.last());
        assert(md_escaped(a + b) =~= md_escaped(a) + md_escaped(b));
    }
}

proof fn lemma_md_unescape_char(c: char, rest: Seq<char>)
    ensures
        md_unescaped(md_escape_char(c) + rest) == seq![space_for_ctrl(c)] + md_unescaped(rest),
{
    lemma_md_entities();
    let out = md_escape_char(c) + rest;
    if c == '&' {
        assert(out.subrange(0, 5) =~= seq!['&', 'a', 'm', 'p', ';']);
        assert(out.skip(5) =~= rest);
    } else if c == '<' {
        assert(!begins_with(out, seq!['&', 'a', 'm', 'p', ';'])) by {
            if begins_with(out, seq!['&', 'a', 'm', 'p', ';']) {
                assert(out.subrange(0, 5)[1] == out[1]);
            }
        }
        assert(out.subrange(0, 4) =~= seq!['&', 'l', 't', ';']);
        assert(out.skip(4) =~= rest);
    } else if c == '>' {
        assert(!begins_with(out, seq!['&', 'a', 'm', 'p', ';'])) by {
            if begins_with(out, seq!['&', 'a', 'm', 'p', ';']) {
                assert(out.subrange(0, 5)[1] == out[1]);
            }
        }
        assert(!begins_with(out, seq!['&', 'l', 't', ';'])) by {
            if begins_with(out, seq!['&', 'l', 't', ';']) {
                assert(out.subrange(0, 4)[1] == out[1]);
            }
        }
        assert(out.subrange(0, 4) =~= seq!['&', 'g', 't', ';']);
        assert(out.skip(4) =~= rest);
    } else if md_meta(c) {
        assert(out[0] == '\\');
        assert(out[1] == c);
        assert(out.skip(2) =~= rest);
    } else {
        assert(out[0] == space_for_ctrl(c));
        assert(out.skip(1) =~= rest);
        assert(!begins_with(out, seq!['&', 'a', 'm', 'p', ';'])) by {
            if begins_with(out, seq!['&', 'a', 'm', 'p', ';']) {
                assert(out.subrange(0, 5)[0] == out[0]);
            }
        }
        assert(!begins_with(out, seq!['&', 'l', 't', ';'])) by {
            if begins_with(out, seq!['&', 'l', 't', ';']) {
                assert(out.subrange(0, 4)[0] == out[0]);
            }
        }
        assert(!begins_with(out, seq!['&', 'g', 't', ';'])) by {
            if begins_with(out, seq!['&', 'g', 't', ';']) {
                assert(out.subrange(0, 4)[0] == out[0]);
            }
        }
    }
}

/// Escaped Markdown text is safe: every metacharacter of the input
/// (`\ * _ [ ] ` | # !`) comes out behind a backslash, and no bare `<`, `>`
/// or control character is left.
pub proof fn escaped_markdown_is_safe(s: Seq<char>)
    ensures
        md_safe(md_escaped(s)),
    decreases s.len(),
{
    if s.len() > 0 {
        escaped_markdown_is_safe(s.drop_last());
        lemma_md_escape_char_safe(s.last());
        lemma_md_safe_concat(md_escaped(s.drop_last()), md_escape_char(s.last()));
    }
}

/// A character as it reads in Markdown text: a control character becomes a
/// space.
pub open spec fn space_for_ctrl(c: char) -> char {
    if is_ctrl(c) {
        ' '
    } else {
        c
    }
}

/// Reading escaped Markdown back gives the text that was escaped, with each
/// control character read as a space; a text without control characters
/// comes back unchanged.
pub proof fn markdown_escape_round_trip(s: Seq<char>)
    ensures
        md_unescaped(md_escaped(s)) == s.map_values(|c: char| space_for_ctrl(c)),
        (forall|i: int| 0 <= i < s.len() ==> !is_ctrl(#[trigger] s[i])) ==> md_unescaped(
            md_escaped(s),
        ) == s,
    decreases s.len(),
{
    if s.len() > 0 {
        let rest = s.skip(1);
        assert(s =~= seq![s[0]] + rest);
        lemma_md_escaped_concat(seq![s[0]], rest);
        let one = seq![s[0]];
        assert(one.drop_last() =~= Seq::<char>::empty());
        assert(md_escaped(one.drop_last()) == Seq::<char>::empty());
        assert(one.last() == s[0]);
        assert(md_escaped(one) =~= md_escape_char(s[0]));
        markdown_escape_round_trip(rest);
        lemma_md_unescape_char(s[0], md_escaped(rest));
        assert(md_unescaped(md_escaped(s)) =~= s.map_values(|c: char| space_for_ctrl(c)));
    } else {
        assert(md_unescaped(md_escaped(s)) =~= s.map_values(|c: char| space_for_ctrl(c)));
    }
    if forall|i: int| 0 <= i < s.len() ==> !is_ctrl(#[trigger] s[i]) {
        assert(s.map_values(|c: char| space_for_ctrl(c)) =~= s);
    }
}

pub fn escape_markdown(v: &[char]) -> (r: Vec<char>)
    ensures
        r@ == md_escaped(v@),
        md_safe(r@),
{
    proof {
        escaped_markdown_is_safe(v@);
    }
    let mut out: Vec<char> = Vec::new();
    let mut i: usize = 0;
    while i < v.len()
        invariant
            i <= v.len(),
            out@ == md_escaped(v@.subrange(0, i as int)),
        decreases v.len() - i,
    {
        let ch = v[i];
        if ch == '&' {
            push_str(&mut out, "&amp;");
        } else if ch == '<' {
            push_str(&mut out, "&lt;");
        } else if ch == '>' {
            push_str(&mut out, "&gt;");
        } else if ch == '\\' || ch == '*' || ch == '_' || ch == '[' || ch == ']' || ch == '`' || ch
            == '|' || ch == '#' || ch == '!' {
            out.push('\\');
            out.push(ch);
        } else if crate::text::is_control(ch) {
            out.push(' ');
        } else {
            out.push(ch);
        }
        proof {
            let p = v@.subrange(0, i + 1);
            assert(p.drop_last() =~= v@.subrange(0, i as int));
            assert(p.last() == ch);
        }
        i += 1;
        assert(out@ =~= md_escaped(v@.subrange(0, i as int)));
    }
    assert(v@.subrange(0, v.len() as int) =~= v@);
    out
}

/// Uppercase hexadecimal digit.
pub open spec fn upper_digit(d: nat) -> char {
    if d < 10 {
        (('0' as u32) + d) as char
    } else {
        (('A' as u32) + d - 10) as char
    }
}

fn upper_digit_exec(d: u32) -> (c: char)
    requires
        d < 16,
    ensures
        c == upper_digit(d as nat),
{
    if d < 10 {
        crate::text::char_from_ascii('0' as u32 + d)
    } else {
        crate::text::char_from_ascii('A' as u32 + d - 10)
    }
}

pub open spec fn link_escaped_char(c: char) -> bool {
    ((c as u32) < 0x20 || (c as u32) == 0x7F) || c == ' ' || c == '\\' || c == '(' || c == ')'
        || c == '<' || c == '>'
}

/// Link-target escape of one character: percent-encoding of the characters
/// that would end or break a Markdown link target.
pub open spec fn link_escape_char(c: char) -> Seq<char> {
    if link_escaped_char(c) {
        seq!['%', upper_digit(((c as u32) / 16) as nat), upper_digit(((c as u32) % 16) as nat)]
    } else {
        seq![c]
    }
}

pub open spec fn link_escaped(s: Seq<char>) -> Seq<char>
    decreases s.len(),
{
    if s.len() == 0 {
        Seq::empty()
    } else {
        link_escaped(s.drop_last()) + link_escape_char(s.last())
    }
}

pub fn escape_link_target(uri: &str) -> (r: Vec<char>)
    ensures
        r@ == link_escaped(uri@),
{
    let v = chars_of(uri);
    let mut out: Vec<char> = Vec::new();
    let mut i: usize = 0;
    while i < v.len()
        invariant
            i <= v.len(),
            out@ == link_escaped(v@.subrange(0, i as int)),
        decreases v.len() - i,
    {
        let ch = v[i];
        let u = ch as u32;
        if u < 0x20 || u == 0x7F || ch == ' ' || ch == '\\' || ch == '(' || ch == ')' || ch == '<'
            || ch == '>' {
            out.push('%');
            out.push(upper_digit_exec(u / 16));
            out.push(upper_digit_exec(u % 16));
        } else {
            out.push(ch);
        }
        proof {
            let p = v@.subrange(0, i + 1);
            assert(p.drop_last() =~= v@.subrange(0, i as int));
            assert(p.last() == ch);
        }
        i += 1;
        assert(out@ =~= link_escaped(v@.subrange(0, i as int)));
    }
    assert(v@.subrange(0, v.len() as int) =~= v@);
    out
}

/// HTML text escape of one character.
pub open spec fn html_text_char(c: char) -> Seq<char> {
    if c == '&' {
        "&amp;"@
    } else if c == '<' {
        "&lt;"@
    } else if c == '>' {
        "&gt;"@
    } else if is_ctrl(c) {
        seq![' ']
    } else {
        seq![c]
    }
}

pub open spec fn html_text_escaped(s: Seq<char>) -> Seq<char>
    decreases s.len(),
{
    if s.len() == 0 {
        Seq::empty()
    } else {
        html_text_escaped(s.drop_last()) + html_text_char(s.last())
    }
}

/// HTML attribute escape of one character: the text escapes plus both quotes.
pub open spec fn html_attr_char(c: char) -> Seq<char> {
    if c == '"' {
        "&quot;"@
    } else if c == '\'' {
        "&#39;"@
    } else {
        html_text_char(c)
    }
}

pub open spec fn html_attr_escaped(s: Seq<char>) -> Seq<char>
    decreases s.len(),
{
    if s.len() == 0 {
        Seq::empty()
    } else {
        html_attr_escaped(s.drop_last()) + html_attr_char(s.last())
    }
}

fn push_html_text_char(out: &mut Vec<char>, ch: char)
    ensures
        final(out)@ == old(out)@ + html_text_char(ch),
{
    if ch == '&' {
        push_str(out, "&amp;");
    } else if ch == '<' {
        push_str(out, "&lt;");
    } else if ch == '>' {
        push_str(out, "&gt;");
    } else if crate::text::is_control(ch) {
        out.push(' ');
    } else {
        out.push(ch);
    }
}

/// HTML-escapes untrusted text for element content.
pub fn escape_html_chars(v: &[char]) -> (r: Vec<char>)
    ensures
        r@ == html_text_escaped(v@),
{
    let mut out: Vec<char> = Vec::new();
    let mut i: usize = 0;
    while i < v.len()
        invariant
            i <= v.len(),
            out@ == html_text_escaped(v@.subrange(0, i as int)),
        decreases v.len() - i,
    {
        let ch = v[i];
        push_html_text_char(&mut out, ch);
        proof {
            let p = v@.subrange(0, i + 1);
            assert(p.drop_last() =~= v@.subrange(0, i as int));
            assert(p.last() == ch);
        }
        i += 1;
    }
    assert(v@.subrange(0, v.len() as int) =~= v@);
    out
}

pub fn escape_html_text(text: &str) -> (r: String)
    ensures
        r@ == html_text_escaped(text@),
{
    let v = chars_of(text);
    let out = escape_html_chars(&v);
    string_of(&out)
}

/// HTML-escapes untrusted text for a double-quoted attribute value.
pub fn escape_html_attr(text: &str) -> (r: String)
    ensures
        r@ == html_attr_escaped(text@),
{
    let v = chars_of(text);
    let mut out: Vec<char> = Vec::new();
    let mut i: usize = 0;
    while i < v.len()
        invariant
            i <= v.len(),
            out@ == html_attr_escaped(v@.subrange(0, i as int)),
        decreases v.len() - i,
    {
        let ch = v[i];
        if ch == '"' {
            push_str(&mut out, "&quot;");
        } else if ch == '\'' {
            push_str(&mut out, "&#39;");
        } else {
            push_html_text_char(&mut out, ch);
        }
        proof {
            let p = v@.subrange(0, i + 1);
            assert(p.drop_last() =~= v@.subrange(0, i as int));
            assert(p.last() == ch);
        }
        i += 1;
    }
    assert(v@.subrange(0, v.len() as int) =~= v@);
    string_of(&out)
}

proof fn lemma_html_text_char_safe(c: char)
    ensures
        forall|k: int|
            0 <= k < html_text_char(c).len() ==> #[trigger] html_text_char(c)[k] != '<'
                && html_text_char(c)[k] != '>' && !is_ctrl(html_text_char(c)[k]),
{
    reveal_strlit("&amp;");
    reveal_strlit("&lt;");
    reveal_strlit("&gt;");
}

/// Escaped HTML text holds no `<`, `>` or control character, so untrusted
/// text can neither open nor close a tag.
pub proof fn escaped_html_text_has_no_tags(s: Seq<char>)
    ensures
        forall|k: int|
            0 <= k < html_text_escaped(s).len() ==> #[trigger] html_text_escaped(s)[k] != '<'
                && html_text_escaped(s)[k] != '>' && !is_ctrl(html_text_escaped(s)[k]),
    decreases s.len(),
{
    if s.len() > 0 {
        escaped_html_text_has_no_tags(s.drop_last());
        lemma_html_text_char_safe(s.last());
        let a = html_text_escaped(s.drop_last());
        let b = html_text_char(s.last());
        assert forall|k: int| 0 <= k < html_text_escaped(s).len() implies #[trigger] html_text_escaped(
            s,
        )[k] != '<' && html_text_escaped(s)[k] != '>' && !is_ctrl(html_text_escaped(s)[k]) by {
            if k < a.len() {
                assert(html_text_escaped(s)[k] == a[k]);
            } else {
                assert(html_text_escaped(s)[k] == b[k - a.len()]);
            }
        }
    }
}

proof fn lemma_html_attr_char_safe(c: char)
    ensures
        forall|k: int|
            0 <= k < html_attr_char(c).len() ==> #[trigger] html_attr_char(c)[k] != '<'
                && html_attr_char(c)[k] != '>' && html_attr_char(c)[k] != '"' && html_attr_char(
                c,
            )[k] != '\'',
{
    reveal_strlit("&amp;");
    reveal_strlit("&lt;");
    reveal_strlit("&gt;");
    reveal_strlit("&quot;");
    reveal_strlit("&#39;");
}

/// An escaped attribute value holds no quote and no angle bracket, so it can
/// neither close the attribute nor the tag.
pub proof fn escaped_html_attr_cannot_close_attribute(s: Seq<char>)
    ensures
        forall|k: int|
            0 <= k < html_attr_escaped(s).len() ==> #[trigger] html_attr_escaped(s)[k] != '"'
                && html_attr_escaped(s)[k] != '\'' && html_attr_escaped(s)[k] != '<'
                && html_attr_escaped(s)[k] != '>',
    decreases s.len(),
{
    if s.len() > 0 {
        escaped_html_attr_cannot_close_attribute(s.drop_last());
        lemma_html_attr_char_safe(s.last());
        let a = html_attr_escaped(s.drop_last());
        let b = html_attr_char(s.last());
        assert forall|k: int| 0 <= k < html_attr_escaped(s).len() implies #[trigger] html_attr_escaped(
            s,
        )[k] != '"' && html_attr_escaped(s)[k] != '\'' && html_attr_escaped(s)[k] != '<'
            && html_attr_escaped(s)[k] != '>' by {
            if k < a.len() {
                assert(html_attr_escaped(s)[k] == a[k]);
            } else {
                assert(html_attr_escaped(s)[k] == b[k - a.len()]);
            }
        }
    }
}

/// State of `html_escape_collapsing` after a prefix: output, pending
/// separator, and the visible run not yet written.
pub open spec fn html_collapse_state(s: Seq<char>) -> (Seq<char>, Separator, Seq<char>)
    decreases s.len(),
{
    if s.len() == 0 {
        (Seq::empty(), Separator::Absent, Seq::empty())
    } else {
        let (out, pending, run) = html_collapse_state(s.drop_last());
        let c = s.last();
        if is_ws(c) {
            if run.len() > 0 {
                (html_sep(out, pending) + html_text_escaped(run), ws_sep(c), Seq::empty())
            } else {
                (out, sep_max(pending, ws_sep(c)), run)
            }
        } else {
            (out, pending, run.push(c))
        }
    }
}

/// Internal white space collapsed (line breaks become `<br>`, other runs one
/// space) and the visible characters HTML-escaped.
pub open spec fn html_collapsed(s: Seq<char>) -> Seq<char> {
    let (out, pending, run) = html_collapse_state(s);
    if run.len() > 0 {
        html_sep(out, pending) + html_text_escaped(run)
    } else {
        out
    }
}

pub fn html_escape_collapsing(v: &[char]) -> (r: Vec<char>)
    ensures
        r@ == html_collapsed(v@),
{
    let mut out: Vec<char> = Vec::new();
    let mut pending = Separator::Absent;
    let mut run: Vec<char> = Vec::new();
    let mut i: usize = 0;
    while i < v.len()
        invariant
            i <= v.len(),
            (out@, pending, run@) == html_collapse_state(v@.subrange(0, i as int)),
        decreases v.len() - i,
    {
        let ch = v[i];
        proof {
            let p = v@.subrange(0, i + 1);
            assert(p.drop_last() =~= v@.subrange(0, i as int));
            assert(p.last() == ch);
        }
        if is_whitespace(ch) {
            if run.len() > 0 {
                push_html_separator(&mut out, pending);
                let escaped = escape_html_chars(&run);
                push_chars(&mut out, &escaped);
                run = Vec::new();
                pending = char_separator(ch);
            } else {
                pending = max_separator(pending, char_separator(ch));
            }
        } else {
            run.push(ch);
        }
        i += 1;
        assert(run@ == html_collapse_state(v@.subrange(0, i as int)).2);
    }
    assert(v@.subrange(0, v.len() as int) =~= v@);
    if run.len() > 0 {
        push_html_separator(&mut out, pending);
        let escaped = escape_html_chars(&run);
        push_chars(&mut out, &escaped);
    }
    out
}

/// The Markdown decoration of a rendered segment body.
pub open spec fn md_decorated(text: Seq<char>, seg: SegmentView, suppress_bold: bool) -> Seq<char> {
    let bold = seg.bold && !suppress_bold;
    let styled = if bold && seg.italic {
        "***"@ + text + "***"@
    } else if bold {
        "**"@ + text + "**"@
    } else if seg.italic {
        "*"@ + text + "*"@
    } else {
        text
    };
    match seg.href {
        Some(h) => "["@ + styled + "]("@ + link_escaped(h) + ")"@,
        None => styled,
    }
}

/// The inline-HTML decoration of a rendered segment body.
pub open spec fn html_decorated(text: Seq<char>, seg: SegmentView) -> Seq<char> {
    let styled = if seg.bold && seg.italic {
        "<strong><em>"@ + text + "</em></strong>"@
    } else if seg.bold {
        "<strong>"@ + text + "</strong>"@
    } else if seg.italic {
        "<em>"@ + text + "</em>"@
    } else {
        text
    };
    match seg.href {
        Some(h) => "<a href=\""@ + html_attr_escaped(h) + "\">"@ + styled + "</a>"@,
        None => styled,
    }
}

/// Rendering state after the given segments, for Markdown (`html` false) or
/// for inline HTML (`html` true).
pub open spec fn rendered_state(segs: Seq<SegmentView>, suppress_bold: bool, html: bool) -> (
    Seq<char>,
    Separator,
)
    decreases segs.len(),
{
    if segs.len() == 0 {
        (Seq::empty(), Separator::Absent)
    } else {
        let (out, pending) = rendered_state(segs.drop_last(), suppress_bold, html);
        let seg = segs.last();
        let t = seg.text;
        let lo = lead(t);
        let hi = body_end(t);
        let p = sep_max(pending, sep_of(t.subrange(0, lo)));
        let body = t.subrange(lo, hi);
        let trailing = sep_of(t.subrange(hi, t.len() as int));
        if body.len() > 0 {
            if html {
                (html_sep(out, p) + html_decorated(html_collapsed(body), seg), trailing)
            } else {
                (
                    md_sep(out, p) + md_decorated(
                        md_escaped(normalized(body).0),
                        seg,
                        suppress_bold,
                    ),
                    trailing,
                )
            }
        } else {
            (out, sep_max(p, trailing))
        }
    }
}

fn push_decorated_md(out: &mut Vec<char>, text: Vec<char>, seg: &Segment, suppress_bold: bool)
    ensures
        final(out)@ == old(out)@ + md_decorated(text@, segment_view(*seg), suppress_bold),
{
    let bold = seg.bold && !suppress_bold;
    let mut styled: Vec<char> = Vec::new();
    if bold && seg.italic {
        push_str(&mut styled, "***");
        push_chars(&mut styled, &text);
        push_str(&mut styled, "***");
    } else if bold {
        push_str(&mut styled, "**");
        push_chars(&mut styled, &text);
        push_str(&mut styled, "**");
    } else if seg.italic {
        push_str(&mut styled, "*");
        push_chars(&mut styled, &text);
        push_str(&mut styled, "*");
    } else {
        push_chars(&mut styled, &text);
    }
    assert(styled@ =~= (if bold && seg.italic {
        "***"@ + text@ + "***"@
    } else if bold {
        "**"@ + text@ + "**"@
    } else if seg.italic {
        "*"@ + text@ + "*"@
    } else {
        text@
    }));
    match &seg.href {
        Some(h) => {
            push_str(out, "[");
            push_chars(out, &styled);
            push_str(out, "](");
            let target = escape_link_target(h.as_str());
            push_chars(out, &target);
            push_str(out, ")");
        },
        None => push_chars(out, &styled),
    }
    assert(out@ =~= old(out)@ + md_decorated(text@, segment_view(*seg), suppress_bold));
}

fn push_decorated_html(out: &mut Vec<char>, text: Vec<char>, seg: &Segment)
    ensures
        final(out)@ == old(out)@ + html_decorated(text@, segment_view(*seg)),
{
    let mut styled: Vec<char> = Vec::new();
    if seg.bold && seg.italic {
        push_str(&mut styled, "<strong><em>");
        push_chars(&mut styled, &text);
        push_str(&mut styled, "</em></strong>");
    } else if seg.bold {
        push_str(&mut styled, "<strong>");
        push_chars(&mut styled, &text);
        push_str(&mut styled, "</strong>");
    } else if seg.italic {
        push_str(&mut styled, "<em>");
        push_chars(&mut styled, &text);
        push_str(&mut styled, "</em>");
    } else {
        push_chars(&mut styled, &text);
    }
    assert(styled@ =~= (if seg.bold && seg.italic {
        "<strong><em>"@ + text@ + "</em></strong>"@
    } else if seg.bold {
        "<strong>"@ + text@ + "</strong>"@
    } else if seg.italic {
        "<em>"@ + text@ + "</em>"@
    } else {
        text@
    }));
    match &seg.href {
        Some(h) => {
            push_str(out, "<a href=\"");
            let attr = escape_html_attr(h.as_str());
            push_str(out, attr.as_str());
            push_str(out, "\">");
            push_chars(out, &styled);
            push_str(out, "</a>");
        },
        None => push_chars(out, &styled),
    }
    assert(out@ =~= old(out)@ + html_decorated(text@, segment_view(*seg)));
}

fn render_segments_in(segments: &[Segment], suppress_bold: bool, html: bool) -> (r: Vec<char>)
    ensures
        r@ == rendered_state(segment_views(segments@), suppress_bold, html).0,
{
    let ghost sv = segment_views(segments@);
    let mut output: Vec<char> = Vec::new();
    let mut pending = Separator::Absent;
    let mut i: usize = 0;
    while i < segments.len()
        invariant
            i <= segments.len(),
            sv == segment_views(segments@),
            (output@, pending) == rendered_state(sv.subrange(0, i as int), suppress_bold, html),
        decreases segments.len() - i,
    {
        let seg = &segments[i];
        proof {
            let p = sv.subrange(0, i + 1);
            assert(p.drop_last() =~= sv.subrange(0, i as int));
            assert(p.last() == segment_view(*seg));
        }
        let t = chars_of(seg.text.as_str());
        let (lo, hi) = split_whitespace(&t);
        pending = max_separator(pending, separator(&t, 0, lo));
        if lo < hi {
            let body = slice_chars(&t, lo, hi);
            if html {
                push_html_separator(&mut output, pending);
                let text = html_escape_collapsing(&body);
                push_decorated_html(&mut output, text, seg);
            } else {
                push_separator(&mut output, pending);
                let normal = normalize_inner_whitespace(&body);
                let text = escape_markdown(&normal);
                push_decorated_md(&mut output, text, seg, suppress_bold);
            }
            pending = separator(&t, hi, t.len());
        } else {
            pending = max_separator(pending, separator(&t, hi, t.len()));
        }
        i += 1;
    }
    assert(sv.subrange(0, segments.len() as int) =~= sv);
    output
}

/// Renders styled segments as Markdown; `suppress_bold` drops bold emphasis
/// (for headings, which already carry prominence).
pub fn render_segments_styled(segments: &[Segment], suppress_bold: bool) -> (r: String)
    ensures
        r@ == rendered_state(segment_views(segments@), suppress_bold, false).0,
{
    let out = render_segments_in(segments, suppress_bold, false);
    string_of(&out)
}

pub fn render_segments(segments: &[Segment]) -> (r: String)
    ensures
        r@ == rendered_state(segment_views(segments@), false, false).0,
{
    render_segments_styled(segments, false)
}

/// Renders styled segments as inline HTML for a table cell: bold as
/// `<strong>`, italic as `<em>`, links as `<a href>`, line breaks as `<br>`,
/// with all text HTML-escaped.
pub fn render_html_segments(segments: &[Segment]) -> (r: String)
    ensures
        r@ == rendered_state(segment_views(segments@), false, true).0,
{
    let out = render_segments_in(segments, false, true);
    string_of(&out)
}

/// Words of a text joined by single spaces: `started` says a word has been
/// written, `gap` that white space followed it.
pub open spec fn cleaned(s: Seq<char>, started: bool, gap: bool) -> Seq<char>
    decreases s.len(),
{
    if s.len() == 0 {
        Seq::empty()
    } else if is_ws(s[0]) {
        cleaned(s.drop_first(), started, started)
    } else {
        (if gap {
            seq![' ']
        } else {
            Seq::empty()
        }) + seq![s[0]] + cleaned(s.drop_first(), true, false)
    }
}

/// `split_whitespace` joined by single spaces.
pub fn clean_chars(v: &[char]) -> (r: Vec<char>)
    ensures
        r@ == cleaned(v@, false, false),
{
    let mut out: Vec<char> = Vec::new();
    let mut started = false;
    let mut gap = false;
    let mut i: usize = 0;
    assert(v@.subrange(0, v.len() as int) =~= v@);
    while i < v.len()
        invariant
            i <= v.len(),
            out@ + cleaned(v@.subrange(i as int, v.len() as int), started, gap) == cleaned(
                v@,
                false,
                false,
            ),
        decreases v.len() - i,
    {
        let ghost rest = v@.subrange(i as int, v.len() as int);
        assert(rest.drop_first() =~= v@.subrange(i + 1, v.len() as int));
        let c = v[i];
        if is_whitespace(c) {
            gap = started;
        } else {
            if gap {
                out.push(' ');
            }
            out.push(c);
            started = true;
            gap = false;
        }
        i += 1;
        assert(out@ + cleaned(v@.subrange(i as int, v.len() as int), started, gap) =~= cleaned(
            v@,
            false,
            false,
        ));
    }
    assert(out@ =~= cleaned(v@, false, false));
    out
}

pub fn clean_text(text: &str) -> (r: String)
    ensures
        r@ == cleaned(text@, false, false),
{
    let v = chars_of(text);
    let out = clean_chars(&v);
    string_of(&out)
}

/// Cleaned text has no white space but single spaces, and none at its ends.
pub proof fn cleaned_text_is_single_spaced(s: Seq<char>, started: bool, gap: bool)
    ensures
        forall|k: int|
            0 <= k < cleaned(s, started, gap).len() ==> (is_ws(#[trigger] cleaned(s, started, gap)[k])
                ==> cleaned(s, started, gap)[k] == ' '),
        cleaned(s, started, gap).len() > 0 ==> !is_ws(cleaned(s, started, gap).last()),
        cleaned(s, started, gap).len() > 0 && !gap && !started ==> !is_ws(cleaned(s, started, gap)[0]),
    decreases s.len(),
{
    if s.len() > 0 {
        if is_ws(s[0]) {
            cleaned_text_is_single_spaced(s.drop_first(), started, started);
        } else {
            cleaned_text_is_single_spaced(s.drop_first(), true, false);
            let head: Seq<char> = (if gap {
                seq![' ']
            } else {
                Seq::empty()
            }) + seq![s[0]];
            let tail = cleaned(s.drop_first(), true, false);
            assert(cleaned(s, started, gap) == head + tail);
            assert forall|k: int| 0 <= k < cleaned(s, started, gap).len() implies (is_ws(
                #[trigger] cleaned(s, started, gap)[k],
            ) ==> cleaned(s, started, gap)[k] == ' ') by {
                if k >= head.len() {
                    assert(cleaned(s, started, gap)[k] == tail[k - head.len()]);
                }
            }
        }
    }
}

/// The heading level of a role `h1`..`h9`.
pub open spec fn heading_level_of(role: Seq<char>) -> Option<nat> {
    if role.len() > 0 && role[0] == 'h' {
        match parse_unsigned(role.drop_first(), 10) {
            Some(v) => if 1 <= v <= 9 {
                Some(v)
            } else {
                None
            },
            None => None,
        }
    } else {
        None
    }
}

pub fn heading_role(role: &str) -> (r: Option<usize>)
    ensures
        r matches Some(l) ==> heading_level_of(role@) == Some(l as nat),
        r is None ==> heading_level_of(role@) is None,
{
    let v = chars_of(role);
    if v.len() == 0 || v[0] != 'h' {
        return None;
    }
    let rest = slice_chars(&v, 1, v.len());
    assert(rest@ =~= v@.drop_first());
    match parse_unsigned_bounded(&rest, 10, usize::MAX as u64) {
        Some(level) => if 1 <= level && level <= 9 {
            Some(level as usize)
        } else {
            None
        },
        None => None,
    }
}

/// An HTML comment body made safe: `--` is split and `>` is replaced.
pub open spec fn safe_comment_of(s: Seq<char>) -> Seq<char> {
    replaced(replaced(s, "--"@, "- -"@), seq!['>'], "&gt;"@)
}

pub fn safe_comment(text: &[char]) -> (r: Vec<char>)
    ensures
        r@ == safe_comment_of(text@),
{
    proof {
        reveal_strlit("--");
    }
    let dashes = chars_of("--");
    let spaced = chars_of("- -");
    let first = replace_all(text, &dashes, &spaced);
    let gt: Vec<char> = vec!['>'];
    let entity = chars_of("&gt;");
    let r = replace_all(&first, &gt, &entity);
    assert(gt@ =~= seq!['>']);
    r
}

/// A made-safe comment body holds no `>`, so hidden document content can
/// never close the comment that carries it.
pub proof fn safe_comment_cannot_close(s: Seq<char>)
    ensures
        forall|k: int| 0 <= k < safe_comment_of(s).len() ==> #[trigger] safe_comment_of(s)[k] != '>',
{
    reveal_strlit("&gt;");
    crate::text::lemma_replaced_char_gone(replaced(s, "--"@, "- -"@), '>', "&gt;"@);
}

/// One hidden item as a Markdown comment.
pub open spec fn hidden_comment(item: HiddenItem) -> Seq<char> {
    let element = match item.element {
        Some(id) => " ["@ + id@ + "]"@,
        None => Seq::empty(),
    };
    "<!-- docray-hidden: "@ + safe_comment_of(item.kind@) + safe_comment_of(element) + " "@
        + safe_comment_of(cleaned(item.content@, false, false)) + " -->"@
}

/// The trailing context block: warnings as GFM alerts, separated by blank
/// lines, then hidden items as comments, one per line.
pub open spec fn warnings_block(warnings: Seq<String>) -> Seq<char>
    decreases warnings.len(),
{
    if warnings.len() == 0 {
        Seq::empty()
    } else {
        let prev = warnings_block(warnings.drop_last());
        let sep = if warnings.len() > 1 {
            "\n\n"@
        } else {
            Seq::empty()
        };
        prev + sep + "> [!WARNING]\n> "@ + md_escaped(cleaned(warnings.last()@, false, false))
    }
}

pub open spec fn hidden_comments(items: Seq<HiddenItem>) -> Seq<char>
    decreases items.len(),
{
    if items.len() == 0 {
        Seq::empty()
    } else {
        let prev = hidden_comments(items.drop_last());
        let sep = if items.len() > 1 {
            "\n"@
        } else {
            Seq::empty()
        };
        prev + sep + hidden_comment(items.last())
    }
}

pub open spec fn trailing_context(warnings: Seq<String>, hidden: Seq<HiddenItem>) -> Seq<char> {
    warnings_block(warnings) + (if warnings.len() > 0 && hidden.len() > 0 {
        "\n\n"@
    } else {
        Seq::empty()
    }) + hidden_comments(hidden)
}

fn push_hidden_comment(output: &mut Vec<char>, item: &HiddenItem)
    ensures
        final(output)@ == old(output)@ + hidden_comment(*item),
{
    let mut element: Vec<char> = Vec::new();
    match &item.element {
        Some(id) => {
            push_str(&mut element, " [");
            push_str(&mut element, id.as_str());
            push_str(&mut element, "]");
        },
        None => {},
    }
    assert(element@ =~= match item.element {
        Some(id) => " ["@ + id@ + "]"@,
        None => Seq::<char>::empty(),
    });
    push_str(output, "<!-- docray-hidden: ");
    let kind = chars_of(item.kind.as_str());
    let a = safe_comment(&kind);
    push_chars(output, &a);
    let b = safe_comment(&element);
    push_chars(output, &b);
    push_str(output, " ");
    let content = chars_of(item.content.as_str());
    let cleaned_content = clean_chars(&content);
    let c = safe_comment(&cleaned_content);
    push_chars(output, &c);
    push_str(output, " -->");
    assert(output@ =~= old(output)@ + hidden_comment(*item));
}

/// Writes the warnings and hidden items that follow the document body.
pub fn write_trailing_context(output: &mut Vec<char>, warnings: &[String], hidden: &[HiddenItem])
    ensures
        final(output)@ == old(output)@ + trailing_context(warnings@, hidden@),
{
    let ghost start = output@;
    let mut i: usize = 0;
    while i < warnings.len()
        invariant
            i <= warnings.len(),
            output@ == start + warnings_block(warnings@.subrange(0, i as int)),
        decreases warnings.len() - i,
    {
        proof {
            let p = warnings@.subrange(0, i + 1);
            assert(p.drop_last() =~= warnings@.subrange(0, i as int));
            assert(p.last() == warnings@[i as int]);
        }
        if i > 0 {
            push_str(output, "\n\n");
        }
        push_str(output, "> [!WARNING]\n> ");
        let w = chars_of(warnings[i].as_str());
        let cleaned_warning = clean_chars(&w);
        let escaped = escape_markdown(&cleaned_warning);
        push_chars(output, &escaped);
        i += 1;
        assert(output@ =~= start + warnings_block(warnings@.subrange(0, i as int)));
    }
    assert(warnings@.subrange(0, warnings.len() as int) =~= warnings@);
    if warnings.len() > 0 && hidden.len() > 0 {
        push_str(output, "\n\n");
    }
    let ghost mid = output@;
    let mut j: usize = 0;
    while j < hidden.len()
        invariant
            j <= hidden.len(),
            output@ == mid + hidden_comments(hidden@.subrange(0, j as int)),
        decreases hidden.len() - j,
    {
        proof {
            let p = hidden@.subrange(0, j + 1);
            assert(p.drop_last() =~= hidden@.subrange(0, j as int));
            assert(p.last() == hidden@[j as int]);
        }
        if j > 0 {
            push_str(output, "\n");
        }
        push_hidden_comment(output, &hidden[j]);
        j += 1;
        assert(output@ =~= mid + hidden_comments(hidden@.subrange(0, j as int)));
    }
    assert(hidden@.subrange(0, hidden.len() as int) =~= hidden@);
    assert(output@ =~= old(output)@ + trailing_context(warnings@, hidden@));
}

} // verus!

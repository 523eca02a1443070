//! Requested detail levels and wire formats of an extraction response.
use vstd::prelude::*;
use crate::text::{chars_of, push_str, string_of};
use std::str::FromStr;

verus! {

/// Requested representation of an extraction response.
///
/// `Char` is the full lossless model. An absent request keeps the v1.1
/// response; only an explicit request selects one of these levels.
#[derive(Debug, Clone, Copy, PartialEq, Eq, Structural)]
pub enum Granularity {
    Element,
    Word,
    Char,
}

/// Position of a level from coarsest (0) to finest (2).
pub open spec fn rank_of(g: Granularity) -> u8 {
    match g {
        Granularity::Element => 0,
        Granularity::Word => 1,
        Granularity::Char => 2,
    }
}

pub open spec fn granularity_name(g: Granularity) -> Seq<char> {
    match g {
        Granularity::Element => "element"@,
        Granularity::Word => "word"@,
        Granularity::Char => "char"@,
    }
}

/// The level that a name denotes, if any.
pub open spec fn granularity_named(s: Seq<char>) -> Option<Granularity> {
    if s == "element"@ {
        Some(Granularity::Element)
    } else if s == "word"@ {
        Some(Granularity::Word)
    } else if s == "char"@ {
        Some(Granularity::Char)
    } else {
        None
    }
}

/// `Debug` rendering of a string slice: the quoted, escaped form.
pub uninterp spec fn debug_str(s: Seq<char>) -> Seq<char>;

/// The `Debug` rendering of a string (`format!("{s:?}")` in std): a quoted
/// literal with escapes. Its text is given the name `debug_str`.
#[verifier::external_body]
pub fn debug_quoted(s: &str) -> (r: String)
    ensures
        r@ == debug_str(s@),
{
    format!("{s:?}")
}

impl Granularity {
    pub fn as_str(self) -> (r: &'static str)
        ensures
            r@ == granularity_name(self),
    {
        match self {
            Granularity::Element => "element",
            Granularity::Word => "word",
            Granularity::Char => "char",
        }
    }

    /// Orders granularities from coarsest to finest.
    pub fn rank(self) -> (r: u8)
        ensures
            r == rank_of(self),
    {
        match self {
            Granularity::Element => 0,
            Granularity::Word => 1,
            Granularity::Char => 2,
        }
    }

    /// Parses a level name; any other text is an error that quotes it.
    pub fn parse(value: &str) -> (r: Result<Granularity, String>)
        ensures
            r matches Ok(g) ==> granularity_named(value@) == Some(g),
            r matches Err(m) ==> granularity_named(value@) is None && m@
                == "expected element, word, or char; got "@ + debug_str(value@),
    {
        proof {
            reveal_strlit("element");
            reveal_strlit("word");
            reveal_strlit("char");
        }
        let v = chars_of(value);
        if crate::text::seq_eq(&v, &chars_of("element")) {
            Ok(Granularity::Element)
        } else if crate::text::seq_eq(&v, &chars_of("word")) {
            Ok(Granularity::Word)
        } else if crate::text::seq_eq(&v, &chars_of("char")) {
            Ok(Granularity::Char)
        } else {
            let mut out: Vec<char> = Vec::new();
            push_str(&mut out, "expected element, word, or char; got ");
            let q = debug_quoted(value);
            push_str(&mut out, q.as_str());
            Err(string_of(&out))
        }
    }
}

impl FromStr for Granularity {
    type Err = String;

    fn from_str(value: &str) -> (r: Result<Self, Self::Err>)
        ensures
            r matches Ok(g) ==> granularity_named(value@) == Some(g),
            r matches Err(m) ==> granularity_named(value@) is None && m@
                == "expected element, word, or char; got "@ + debug_str(value@),
    {
        Granularity::parse(value)
    }
}

/// Wire representation requested by CLI and HTTP consumers.
#[derive(Debug, Clone, Copy, PartialEq, Eq, Structural)]
pub enum OutputFormat {
    Json,
    Lean,
    Markdown,
}

pub open spec fn output_format_name(f: OutputFormat) -> Seq<char> {
    match f {
        OutputFormat::Json => "json"@,
        OutputFormat::Lean => "lean"@,
        OutputFormat::Markdown => "md"@,
    }
}

pub open spec fn output_format_named(s: Seq<char>) -> Option<OutputFormat> {
    if s == "json"@ {
        Some(OutputFormat::Json)
    } else if s == "lean"@ {
        Some(OutputFormat::Lean)
    } else if s == "md"@ {
        Some(OutputFormat::Markdown)
    } else {
        None
    }
}

impl OutputFormat {
    pub fn as_str(self) -> (r: &'static str)
        ensures
            r@ == output_format_name(self),
    {
        match self {
            OutputFormat::Json => "json",
            OutputFormat::Lean => "lean",
            OutputFormat::Markdown => "md",
        }
    }

    /// Parses a format name; any other text is an error that quotes it.
    pub fn parse(value: &str) -> (r: Result<OutputFormat, String>)
        ensures
            r matches Ok(f) ==> output_format_named(value@) == Some(f),
            r matches Err(m) ==> output_format_named(value@) is None && m@
                == "expected json, lean, or md; got "@ + debug_str(value@),
    {
        let v = chars_of(value);
        if crate::text::seq_eq(&v, &chars_of("json")) {
            Ok(OutputFormat::Json)
        } else if crate::text::seq_eq(&v, &chars_of("lean")) {
            Ok(OutputFormat::Lean)
        } else if crate::text::seq_eq(&v, &chars_of("md")) {
            Ok(OutputFormat::Markdown)
        } else {
            let mut out: Vec<char> = Vec::new();
            push_str(&mut out, "expected json, lean, or md; got ");
            let q = debug_quoted(value);
            push_str(&mut out, q.as_str());
            Err(string_of(&out))
        }
    }
}

impl FromStr for OutputFormat {
    type Err = String;

    fn from_str(value: &str) -> (r: Result<Self, Self::Err>)
        ensures
            r matches Ok(f) ==> output_format_named(value@) == Some(f),
            r matches Err(m) ==> output_format_named(value@) is None && m@
                == "expected json, lean, or md; got "@ + debug_str(value@),
    {
        OutputFormat::parse(value)
    }
}

/// Each level's name parses back to that level.
pub proof fn granularity_name_roundtrip(g: Granularity)
    ensures
        granularity_named(granularity_name(g)) == Some(g),
{
    reveal_strlit("element");
    reveal_strlit("word");
    reveal_strlit("char");
    assert("word"@.len() != "element"@.len());
    assert("char"@.len() != "element"@.len());
    assert("char"@[0] != "word"@[0]);
}

/// Each format's name parses back to that format.
pub proof fn output_format_name_roundtrip(f: OutputFormat)
    ensures
        output_format_named(output_format_name(f)) == Some(f),
{
    reveal_strlit("json");
    reveal_strlit("lean");
    reveal_strlit("md");
    assert("lean"@[0] != "json"@[0]);
    assert("md"@.len() != "json"@.len());
    assert("md"@.len() != "lean"@.len());
}

/// Ranks order the levels strictly: distinct levels have distinct ranks, and
/// `Element < Word < Char`.
pub proof fn rank_is_strict_order(a: Granularity, b: Granularity)
    ensures
        rank_of(a) == rank_of(b) <==> a == b,
        rank_of(Granularity::Element) < rank_of(Granularity::Word),
        rank_of(Granularity::Word) < rank_of(Granularity::Char),
{
}

} // verus!

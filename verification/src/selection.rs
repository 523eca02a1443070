//! Page-range selection syntax: `"7"` (single page) or `"1-200"` (inclusive
//! range), both 1-based. Parsing lives here so that callers translate a single
//! `Err(String)` into their `bad_pages` error.
use vstd::prelude::*;
use crate::granularity::{debug_quoted, debug_str};
use crate::text::{
    chars_of, decimal, find_char, index_of, lemma_index_of_bounds, parse_unsigned,
    parse_unsigned_bounded, push_chars, push_decimal, push_str, slice_chars, string_of, trim,
    trim_bounds,
};
use std::str::FromStr;

verus! {

/// A 1-based, inclusive page range. `1 <= start <= end` is upheld by
/// [`PageSelection::parse`].
#[derive(Debug, Clone, Copy, PartialEq, Eq, Structural)]
pub struct PageSelection {
    pub start: u32,
    pub end: u32,
}

/// How a single page number parses: `Ok(page)` or the error message.
pub open spec fn page_spec(s: Seq<char>) -> Result<u32, Seq<char>> {
    match parse_unsigned(s, 10) {
        Some(v) => if v > u32::MAX {
            Err(debug_str(s) + " is not a valid page number"@)
        } else if v == 0 {
            Err("page numbers are 1-based; 0 is not valid"@)
        } else {
            Ok(v as u32)
        },
        None => Err(debug_str(s) + " is not a valid page number"@),
    }
}

/// What `parse` returns for a text: the selection, or the error message.
pub open spec fn selection_spec(s: Seq<char>) -> Result<(u32, u32), Seq<char>> {
    let t = trim(s);
    let dash = index_of(t, '-');
    if t.len() == 0 {
        Err("page selection is empty"@)
    } else if dash == t.len() {
        match page_spec(t) {
            Ok(page) => Ok((page, page)),
            Err(m) => Err(m),
        }
    } else {
        let first = t.subrange(0, dash);
        let rest = t.subrange(dash + 1, t.len() as int);
        if index_of(rest, '-') < rest.len() {
            Err("page selection "@ + debug_str(t) + " has more than one '-' separator"@)
        } else {
            match (page_spec(first), page_spec(rest)) {
                (Err(m), _) => Err(m),
                (Ok(_), Err(m)) => Err(m),
                (Ok(start), Ok(end)) => if start > end {
                    Err(
                        "page selection "@ + debug_str(t) + " is reversed: start "@ + decimal(
                            start as nat,
                        ) + " > end "@ + decimal(end as nat),
                    )
                } else {
                    Ok((start, end))
                },
            }
        }
    }
}

fn parse_page(s: &[char]) -> (r: Result<u32, String>)
    ensures
        match page_spec(s@) {
            Ok(p) => r == Ok::<u32, String>(p),
            Err(m) => r matches Err(e) && e@ == m,
        },
{
    match parse_unsigned_bounded(s, 10, u32::MAX as u64) {
        Some(0) => Err(string_of(&chars_of("page numbers are 1-based; 0 is not valid"))),
        Some(v) => Ok(v as u32),
        None => {
            let text = string_of(s);
            let mut out: Vec<char> = Vec::new();
            let q = debug_quoted(text.as_str());
            push_str(&mut out, q.as_str());
            push_str(&mut out, " is not a valid page number");
            Err(string_of(&out))
        },
    }
}

impl PageSelection {
    /// Number of pages covered by this selection, inclusive of both ends.
    pub fn count(&self) -> (r: u32)
        requires
            1 <= self.start <= self.end,
        ensures
            r == self.end - self.start + 1,
    {
        self.end - self.start + 1
    }

    /// Parses `"N"` or `"A-B"` with white space allowed around the whole text.
    pub fn parse(s: &str) -> (r: Result<PageSelection, String>)
        ensures
            match selection_spec(s@) {
                Ok((start, end)) => r == Ok::<PageSelection, String>(
                    PageSelection { start, end },
                ),
                Err(m) => r matches Err(e) && e@ == m,
            },
    {
        let all = chars_of(s);
        let (lo, hi) = trim_bounds(&all);
        let t = slice_chars(&all, lo, hi);
        if t.len() == 0 {
            return Err(string_of(&chars_of("page selection is empty")));
        }
        let dash = find_char(&t, '-');
        proof {
            lemma_index_of_bounds(t@, '-');
        }
        if dash == t.len() {
            return match parse_page(&t) {
                Ok(page) => Ok(PageSelection { start: page, end: page }),
                Err(m) => Err(m),
            };
        }
        let first = slice_chars(&t, 0, dash);
        let rest = slice_chars(&t, dash + 1, t.len());
        let trimmed = string_of(&t);
        if find_char(&rest, '-') < rest.len() {
            let mut out: Vec<char> = Vec::new();
            push_str(&mut out, "page selection ");
            let q = debug_quoted(trimmed.as_str());
            push_str(&mut out, q.as_str());
            push_str(&mut out, " has more than one '-' separator");
            return Err(string_of(&out));
        }
        let start = match parse_page(&first) {
            Ok(p) => p,
            Err(m) => return Err(m),
        };
        let end = match parse_page(&rest) {
            Ok(p) => p,
            Err(m) => return Err(m),
        };
        if start > end {
            let mut out: Vec<char> = Vec::new();
            push_str(&mut out, "page selection ");
            let q = debug_quoted(trimmed.as_str());
            push_str(&mut out, q.as_str());
            push_str(&mut out, " is reversed: start ");
            push_decimal(&mut out, start as u64);
            push_str(&mut out, " > end ");
            push_decimal(&mut out, end as u64);
            return Err(string_of(&out));
        }
        Ok(PageSelection { start, end })
    }
}

impl FromStr for PageSelection {
    type Err = String;

    fn from_str(s: &str) -> (r: Result<Self, Self::Err>)
        ensures
            match selection_spec(s@) {
                Ok((start, end)) => r == Ok::<PageSelection, String>(PageSelection { start, end }),
                Err(m) => r matches Err(e) && e@ == m,
            },
    {
        PageSelection::parse(s)
    }
}

/// Every selection that parses is 1-based and ordered, so its page count is
/// defined and at least one. It is either a single page number (the
/// trimmed text has no `-`) or two page numbers around the one `-` of the
/// trimmed text.
pub proof fn parsed_selection_is_well_formed(s: Seq<char>)
    ensures
        selection_spec(s) matches Ok((start, end)) ==> {
            let t = trim(s);
            &&& 1 <= start <= end
            &&& (!t.contains('-') && page_spec(t) == Ok::<u32, Seq<char>>(start) && start == end) || exists|
                x: Seq<char>,
                y: Seq<char>,
            |
                #![trigger page_spec(x), page_spec(y)]
                t == x + seq!['-'] + y && !x.contains('-') && !y.contains('-') && page_spec(x) == Ok::<
                    u32,
                    Seq<char>,
                >(start) && page_spec(y) == Ok::<u32, Seq<char>>(end)
        },
{
    let t = trim(s);
    lemma_index_of_bounds(t, '-');
    let dash = index_of(t, '-');
    if selection_spec(s) is Ok && t.len() > 0 {
        if dash == t.len() {
            assert(!t.contains('-'));
        } else {
            let x = t.subrange(0, dash);
            let y = t.subrange(dash + 1, t.len() as int);
            lemma_index_of_bounds(y, '-');
            assert(t =~= x + seq!['-'] + y);
            assert(!x.contains('-')) by {
                if x.contains('-') {
                    let k = choose|k: int| 0 <= k < x.len() && x[k] == '-';
                    assert(t[k] == '-');
                }
            }
            assert(!y.contains('-')) by {
                if y.contains('-') {
                    let k = choose|k: int| 0 <= k < y.len() && y[k] == '-';
                    assert(y[k] != '-');
                }
            }
            assert(page_spec(x) is Ok && page_spec(y) is Ok);
        }
    }
}


/// Conversely, a single page number, or two ordered page numbers around one
/// `-`, with white space around the whole text, is accepted as exactly that
/// selection.
pub proof fn well_formed_selections_parse(s: Seq<char>, x: Seq<char>, y: Seq<char>)
    ensures
        trim(s).len() > 0 && !trim(s).contains('-') && page_spec(trim(s)) is Ok ==> selection_spec(s)
            == Ok::<(u32, u32), Seq<char>>((page_spec(trim(s))->Ok_0, page_spec(trim(s))->Ok_0)),
        trim(s) == x + seq!['-'] + y && !x.contains('-') && !y.contains('-') && page_spec(x) is Ok
            && page_spec(y) is Ok && page_spec(x)->Ok_0 <= page_spec(y)->Ok_0 ==> selection_spec(s)
            == Ok::<(u32, u32), Seq<char>>((page_spec(x)->Ok_0, page_spec(y)->Ok_0)),
{
    let t = trim(s);
    if t.len() > 0 && !t.contains('-') {
        assert forall|k: int| 0 <= k < t.len() implies t[k] != '-' by {
            if t[k] == '-' {
                assert(t.contains('-'));
            }
        }
        crate::text::lemma_index_of(t, '-', t.len() as int);
    }
    if t == x + seq!['-'] + y && !x.contains('-') && !y.contains('-') {
        assert forall|k: int| 0 <= k < x.len() implies t[k] != '-' by {
            assert(t[k] == x[k]);
            if x[k] == '-' {
                assert(x.contains('-'));
            }
        }
        crate::text::lemma_index_of(t, '-', x.len() as int);
        assert forall|k: int| 0 <= k < y.len() implies y[k] != '-' by {
            if y[k] == '-' {
                assert(y.contains('-'));
            }
        }
        crate::text::lemma_index_of(y, '-', y.len() as int);
        assert(t.subrange(0, x.len() as int) =~= x);
        assert(t.subrange(x.len() as int + 1, t.len() as int) =~= y);
    }
}

} // verus!

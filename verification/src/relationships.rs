//! Package relationships: the `.rels` part of a source part, and the
//! resolution of a relationship target against the part that holds it.
use vstd::prelude::*;
use crate::error::ExtractError;
use crate::granularity::{debug_quoted, debug_str};
use crate::strmap::{lookup, text_lt, StrMap};
use crate::text::{chars_of, push_chars, push_str, seq_eq, slice_chars, str_eq, string_of};
use crate::xml::{
    all_named, attr_value, built_from_events, parse, parse_outcome, preorder, sorted_tree, Node, MAX_XML_NODES,
};

verus! {

/// One relationship: its target, its type URI and whether the target lies
/// outside the package.
pub struct Relationship {
    pub target: String,
    pub kind: String,
    pub external: bool,
}

/// The relationships of a part, by id.
pub struct Relationships {
    pub by_id: StrMap<Relationship>,
}

/// What a relationship holds, as values.
pub open spec fn rel_view(r: Relationship) -> (Seq<char>, Seq<char>, bool) {
    (r.target@, r.kind@, r.external)
}

pub open spec fn opt_rel_view(r: Option<Relationship>) -> Option<(Seq<char>, Seq<char>, bool)> {
    match r {
        Some(x) => Some(rel_view(x)),
        None => None,
    }
}

/// The part of `s` after its last `c` (all of `s` when there is none).
pub open spec fn after_last(s: Seq<char>, c: char) -> Seq<char>
    decreases s.len(),
{
    if s.len() == 0 {
        s
    } else if s.last() == c {
        Seq::empty()
    } else {
        after_last(s.drop_last(), c).push(s.last())
    }
}

/// The first relationship, in id order, that is internal and whose type ends
/// in the segment `suffix`.
pub open spec fn first_internal(s: Seq<(String, Relationship)>, suffix: Seq<char>) -> Option<
    Relationship,
>
    decreases s.len(),
{
    if s.len() == 0 {
        None
    } else if !s[0].1.external && after_last(s[0].1.kind@, '/') == suffix {
        Some(s[0].1)
    } else {
        first_internal(s.drop_first(), suffix)
    }
}

fn after_last_exec(v: &Vec<char>, c: char) -> (r: Vec<char>)
    ensures
        r@ == after_last(v@, c),
{
    let mut i: usize = v.len();
    proof {
        assert(v@.subrange(0, v.len() as int) =~= v@);
        assert(after_last(v@, c) + v@.subrange(v.len() as int, v.len() as int) =~= after_last(v@, c));
    }
    while i > 0 && v[i - 1] != c
        invariant
            i <= v.len(),
            after_last(v@, c) == after_last(v@.subrange(0, i as int), c) + v@.subrange(
                i as int,
                v.len() as int,
            ),
        decreases i,
    {
        proof {
            let p = v@.subrange(0, i as int);
            assert(p.drop_last() =~= v@.subrange(0, i - 1));
            assert(v@.subrange(i - 1, v.len() as int) =~= seq![p.last()] + v@.subrange(
                i as int,
                v.len() as int,
            ));
            assert(after_last(v@.subrange(0, i - 1), c).push(p.last()) + v@.subrange(
                i as int,
                v.len() as int,
            ) =~= after_last(v@.subrange(0, i - 1), c) + v@.subrange(i - 1, v.len() as int));
        }
        i -= 1;
    }
    proof {
        assert(v@.subrange(0, v.len() as int) =~= v@);
        assert(v@.subrange(v.len() as int, v.len() as int) =~= Seq::<char>::empty());
        if i == 0 {
            assert(v@.subrange(0, 0) =~= Seq::<char>::empty());
        }
    }
    slice_chars(v, i, v.len())
}

impl Relationships {
    /// No relationships.
    pub fn new() -> (r: Relationships)
        ensures
            r.by_id.wf(),
            r.by_id.entries@.len() == 0,
    {
        Relationships { by_id: StrMap::new() }
    }

    /// The relationship with the id `id`.
    pub fn get(&self, id: &str) -> (r: Option<&Relationship>)
        ensures
            match lookup(self.by_id.entries@, id@) {
                Some(v) => r == Some(&v),
                None => r is None,
            },
    {
        self.by_id.get(id)
    }

    /// The first internal relationship, in id order, whose type URI ends in
    /// the segment `suffix`.
    pub fn first_internal_type(&self, suffix: &str) -> (r: Option<&Relationship>)
        ensures
            match first_internal(self.by_id.entries@, suffix@) {
                Some(v) => r == Some(&v),
                None => r is None,
            },
    {
        let entries = &self.by_id.entries;
        let mut i: usize = 0;
        assert(entries@.subrange(0, entries.len() as int) =~= entries@);
        while i < entries.len()
            invariant
                i <= entries.len(),
                entries == &self.by_id.entries,
                first_internal(entries@, suffix@) == first_internal(
                    entries@.subrange(i as int, entries.len() as int),
                    suffix@,
                ),
            decreases entries.len() - i,
        {
            let ghost rest = entries@.subrange(i as int, entries.len() as int);
            assert(rest.drop_first() =~= entries@.subrange(i + 1, entries.len() as int));
            assert(rest[0] == entries@[i as int]);
            let rel = &entries[i].1;
            if !rel.external {
                let kind = chars_of(rel.kind.as_str());
                let last = after_last_exec(&kind, '/');
                if seq_eq(&last, &chars_of(suffix)) {
                    return Some(rel);
                }
            }
            i += 1;
        }
        None
    }
}

/// The relationship that one `Relationship` element declares under the id
/// `id`, if it declares one there (it needs `Id` and `Target`).
pub open spec fn declared(d: Node, id: Seq<char>) -> Option<(Seq<char>, Seq<char>, bool)> {
    match (attr_value(d.attrs, "Id"@), attr_value(d.attrs, "Target"@)) {
        (Some(i), Some(t)) => if i@ == id {
            Some(
                (
                    t@,
                    match attr_value(d.attrs, "Type"@) {
                        Some(k) => k@,
                        None => Seq::empty(),
                    },
                    match attr_value(d.attrs, "TargetMode"@) {
                        Some(m) => m@ == "External"@,
                        None => false,
                    },
                ),
            )
        } else {
            None
        },
        _ => None,
    }
}

/// The relationship that the last of the elements `ds` declaring `id` declares.
pub open spec fn declared_last(ds: Seq<Node>, id: Seq<char>) -> Option<(Seq<char>, Seq<char>, bool)>
    decreases ds.len(),
{
    if ds.len() == 0 {
        None
    } else if declared(ds.last(), id) is Some {
        declared(ds.last(), id)
    } else {
        declared_last(ds.drop_last(), id)
    }
}

/// The relationships declared by the `Relationship` elements under `root`.
pub open spec fn relationships_of(root: Node, id: Seq<char>) -> Option<(Seq<char>, Seq<char>, bool)> {
    declared_last(all_named(preorder(root.children@), "Relationship"@), id)
}

/// Reads the relationships declared under the root of a `.rels` part: each
/// `Relationship` element with an `Id` and a `Target`; a repeated id keeps the
/// last.
pub fn relationships_from_root(root: &Node) -> (r: Relationships)
    ensures
        r.by_id.wf(),
        forall|id: Seq<char>| #[trigger] opt_rel_view(lookup(r.by_id.entries@, id)) == relationships_of(*root, id),
{
    proof {
        reveal_strlit("Relationship");
    }
    let found = root.descendants("Relationship");
    let ghost ds = found@.map_values(|n: &Node| *n);
    let mut rels = Relationships::new();
    let mut i: usize = 0;
    while i < found.len()
        invariant
            i <= found.len(),
            ds == found@.map_values(|n: &Node| *n),
            rels.by_id.wf(),
            forall|id: Seq<char>| #[trigger] opt_rel_view(lookup(rels.by_id.entries@, id)) == declared_last(
                ds.subrange(0, i as int),
                id,
            ),
        decreases found.len() - i,
    {
        proof {
            reveal_strlit("Id");
            reveal_strlit("Target");
            reveal_strlit("Type");
            reveal_strlit("TargetMode");
            reveal_strlit("External");
        }
        let d: &Node = found[i];
        let ghost p = ds.subrange(0, i as int + 1);
        proof {
            assert(p.drop_last() =~= ds.subrange(0, i as int));
            assert(p.last() == *d);
        }
        match (d.attr("Id"), d.attr("Target")) {
            (Some(id), Some(target)) => {
                let kind = match d.attr("Type") {
                    Some(k) => k.to_string(),
                    None => String::new(),
                };
                let external = match d.attr("TargetMode") {
                    Some(m) => str_eq(m, "External"),
                    None => false,
                };
                let ghost old_entries = rels.by_id.entries@;
                let rel = Relationship { target: target.to_string(), kind, external };
                let ghost rv = rel_view(rel);
                rels.by_id.insert(id.to_string(), rel);
                proof {
                    assert forall|q: Seq<char>| #[trigger] opt_rel_view(lookup(rels.by_id.entries@, q))
                        == declared_last(p, q) by {
                        assert(rels.by_id.get_spec(q) == lookup(rels.by_id.entries@, q));
                        if q != id@ {
                            assert(rels.by_id.get_spec(q) == lookup(old_entries, q));
                        }
                    }
                }
            },
            _ => {
                proof {
                    assert forall|q: Seq<char>| #[trigger] opt_rel_view(lookup(rels.by_id.entries@, q))
                        == declared_last(p, q) by {
                        assert(declared(*d, q) is None);
                    }
                }
            },
        }
        i += 1;
    }
    assert(ds.subrange(0, found.len() as int) =~= ds);
    rels
}

/// The path of the relationships part of `source_part`: `_rels/<file>.rels`
/// beside it.
pub open spec fn rels_path_of(source: Seq<char>) -> Seq<char> {
    let i = last_slash(source);
    if i >= 0 {
        source.subrange(0, i) + "/_rels/"@ + source.subrange(i + 1, source.len() as int) + ".rels"@
    } else {
        "_rels/"@ + source + ".rels"@
    }
}

/// Index of the last `/` in `s`, or -1.
pub open spec fn last_slash(s: Seq<char>) -> int
    decreases s.len(),
{
    if s.len() == 0 {
        -1
    } else if s.last() == '/' {
        s.len() - 1
    } else {
        last_slash(s.drop_last())
    }
}

proof fn lemma_last_slash(s: Seq<char>, i: int)
    requires
        0 <= i <= s.len(),
        forall|k: int| i <= k < s.len() ==> s[k] != '/',
        i == 0 || s[i - 1] == '/',
    ensures
        last_slash(s) == i - 1,
    decreases s.len(),
{
    if s.len() > i {
        lemma_last_slash(s.drop_last(), i);
    }
}

/// Position just after the last `/` of `v` (0 when there is none).
fn after_last_slash(v: &Vec<char>) -> (i: usize)
    ensures
        i <= v.len(),
        last_slash(v@) == i - 1,
{
    let mut i: usize = v.len();
    while i > 0 && v[i - 1] != '/'
        invariant
            i <= v.len(),
            forall|k: int| i <= k < v.len() ==> v@[k] != '/',
        decreases i,
    {
        i -= 1;
    }
    proof {
        lemma_last_slash(v@, i as int);
    }
    i
}

/// The relationships part of `source_part`.
pub fn rels_path(source_part: &str) -> (r: String)
    ensures
        r@ == rels_path_of(source_part@),
{
    let v = chars_of(source_part);
    let i = after_last_slash(&v);
    let mut out: Vec<char> = Vec::new();
    if i > 0 {
        push_chars(&mut out, &slice_chars(&v, 0, i - 1));
        push_str(&mut out, "/_rels/");
        push_chars(&mut out, &slice_chars(&v, i, v.len()));
        push_str(&mut out, ".rels");
    } else {
        push_str(&mut out, "_rels/");
        push_chars(&mut out, &v);
        push_str(&mut out, ".rels");
    }
    assert(out@ =~= rels_path_of(source_part@));
    string_of(&out)
}

/// Reads the relationships of `source_part` from the bytes of its
/// relationships part (at `rels_path(source_part)`); a part without one has
/// none. The result is what `relationships_from_root` gives for the root that
/// the part parses to.
pub fn relationships(rels_part: Option<&[u8]>, source_part: &str) -> (r: Result<
    Relationships,
    ExtractError,
>)
    ensures
        rels_part is None ==> (r matches Ok(x) && x.by_id.entries@.len() == 0),
        r matches Ok(x) ==> x.by_id.wf(),
        r matches Err(e) ==> e is ParseFailure,
        rels_part matches Some(b) ==> match parse_outcome(b@, rels_path_of(source_part@), MAX_XML_NODES as nat) {
            Err(m) => r matches Err(ExtractError::ParseFailure(e)) && e@ == m,
            Ok(_) => r matches Ok(x) && exists|root: Node|
                #[trigger] built_from_events(Ok(root), b@, rels_path_of(source_part@)) && sorted_tree(root)
                    && forall|id: Seq<char>|
                    #[trigger] opt_rel_view(lookup(x.by_id.entries@, id)) == relationships_of(root, id),
        },
{
    let bytes = match rels_part {
        Some(b) => b,
        None => {
            return Ok(Relationships::new());
        },
    };
    let path = rels_path(source_part);
    let root = match parse(bytes, path.as_str()) {
        Ok(root) => root,
        Err(e) => {
            return Err(e);
        },
    };
    let rels = relationships_from_root(&root);
    proof {
        assert(built_from_events(Ok(root), bytes@, rels_path_of(source_part@)));
    }
    Ok(rels)
}

/// The segments of `s` between the separators `c` (one more than there are
/// separators).
pub open spec fn split_on(s: Seq<char>, c: char) -> Seq<Seq<char>>
    decreases s.len(),
{
    if s.len() == 0 {
        seq![Seq::empty()]
    } else {
        let rest = split_on(s.drop_last(), c);
        if s.last() == c {
            rest.push(Seq::empty())
        } else {
            rest.drop_last().push(rest.last().push(s.last()))
        }
    }
}

/// The part of `s` before its first `c`.
pub open spec fn before_first(s: Seq<char>, c: char) -> Seq<char>
    decreases s.len(),
{
    if s.len() == 0 {
        s
    } else if s[0] == c {
        Seq::empty()
    } else {
        seq![s[0]] + before_first(s.drop_first(), c)
    }
}

/// `s` with every `a` replaced by `b`.
pub open spec fn swap_char(s: Seq<char>, a: char, b: char) -> Seq<char> {
    s.map_values(|x: char| if x == a { b } else { x })
}

/// `s` without its leading `/` characters.
pub open spec fn trim_leading_slashes(s: Seq<char>) -> Seq<char>
    decreases s.len(),
{
    if s.len() > 0 && s[0] == '/' {
        trim_leading_slashes(s.drop_first())
    } else {
        s
    }
}

/// Walks `segments` from the directory `stack`: empty segments and `.` stay,
/// `..` leaves the last directory and fails above the root, any other
/// segment is entered.
pub open spec fn walk(stack: Seq<Seq<char>>, segments: Seq<Seq<char>>) -> Option<Seq<Seq<char>>>
    decreases segments.len(),
{
    if segments.len() == 0 {
        Some(stack)
    } else {
        let seg = segments[0];
        let rest = segments.drop_first();
        if seg.len() == 0 || seg == "."@ {
            walk(stack, rest)
        } else if seg == ".."@ {
            if stack.len() == 0 {
                None
            } else {
                walk(stack.drop_last(), rest)
            }
        } else {
            walk(stack.push(seg), rest)
        }
    }
}

/// Segments joined by `/`.
pub open spec fn join_slash(s: Seq<Seq<char>>) -> Seq<char>
    decreases s.len(),
{
    if s.len() == 0 {
        Seq::empty()
    } else if s.len() == 1 {
        s[0]
    } else {
        join_slash(s.drop_last()) + "/"@ + s.last()
    }
}

/// The target as resolution reads it: without its fragment, with `\` read as `/`.
pub open spec fn cleaned_target(target: Seq<char>) -> Seq<char> {
    swap_char(before_first(target, '#'), '\\', '/')
}

/// The directories a relative target starts from.
pub open spec fn start_dirs(source: Seq<char>, target: Seq<char>) -> Seq<Seq<char>> {
    if target.len() > 0 && target[0] == '/' {
        Seq::empty()
    } else if last_slash(source) >= 0 {
        split_on(source.subrange(0, last_slash(source)), '/')
    } else {
        Seq::empty()
    }
}

/// The package path that `target` names from `source`, or `None` where it
/// climbs above the package root.
pub open spec fn resolved_target(source: Seq<char>, target: Seq<char>) -> Option<Seq<char>> {
    let t = cleaned_target(target);
    match walk(start_dirs(source, t), split_on(trim_leading_slashes(t), '/')) {
        Some(parts) => Some(join_slash(parts)),
        None => None,
    }
}

pub(crate) fn split_exec(v: &Vec<char>, c: char) -> (r: Vec<Vec<char>>)
    ensures
        r@.map_values(|x: Vec<char>| x@) == split_on(v@, c),
{
    let mut out: Vec<Vec<char>> = Vec::new();
    let mut cur: Vec<char> = Vec::new();
    let mut i: usize = 0;
    while i < v.len()
        invariant
            i <= v.len(),
            out@.map_values(|x: Vec<char>| x@).push(cur@) == split_on(v@.subrange(0, i as int), c),
        decreases v.len() - i,
    {
        let ghost before = out@.map_values(|x: Vec<char>| x@).push(cur@);
        proof {
            let p = v@.subrange(0, i as int + 1);
            assert(p.drop_last() =~= v@.subrange(0, i as int));
            assert(p.last() == v@[i as int]);
        }
        if v[i] == c {
            let done = cur;
            out.push(done);
            cur = Vec::new();
            proof {
                assert(out@.map_values(|x: Vec<char>| x@).push(cur@) =~= before.push(Seq::empty()));
            }
        } else {
            cur.push(v[i]);
            proof {
                assert(out@.map_values(|x: Vec<char>| x@).push(cur@) =~= before.drop_last().push(
                    before.last().push(v@[i as int]),
                ));
            }
        }
        i += 1;
    }
    out.push(cur);
    assert(v@.subrange(0, v.len() as int) =~= v@);
    out
}

/// Resolves a relationship target against the part `source_part` that
/// declares it, to a path inside the package.
#[verifier::rlimit(40)]
pub fn resolve_target(source_part: &str, target: &str) -> (r: Result<String, ExtractError>)
    ensures
        match resolved_target(source_part@, target@) {
            Some(p) => (r matches Ok(s) && s@ == p),
            None => (r matches Err(ExtractError::ParseFailure(m)) && m@
                == "relationship target escapes the package root: "@ + debug_str(
                cleaned_target(target@),
            )),
        },
{
    let raw = chars_of(target);
    // the target without its fragment, with backslashes read as slashes
    let mut t: Vec<char> = Vec::new();
    let mut k: usize = 0;
    proof {
        assert(raw@.subrange(0, 0) =~= Seq::<char>::empty());
        assert(raw@.subrange(0, raw.len() as int) =~= raw@);
        assert(t@ =~= swap_char(raw@.subrange(0, 0), '\\', '/'));
        assert(Seq::<char>::empty() + before_first(raw@, '#') =~= before_first(raw@, '#'));
    }
    while k < raw.len() && raw[k] != '#'
        invariant
            k <= raw.len(),
            t@ == swap_char(raw@.subrange(0, k as int), '\\', '/'),
            forall|j: int| 0 <= j < k ==> raw@[j] != '#',
            before_first(raw@, '#') == raw@.subrange(0, k as int) + before_first(
                raw@.subrange(k as int, raw.len() as int),
                '#',
            ),
        decreases raw.len() - k,
    {
        let ghost rest = raw@.subrange(k as int, raw.len() as int);
        proof {
            assert(rest.drop_first() =~= raw@.subrange(k + 1, raw.len() as int));
            assert(raw@.subrange(0, k as int + 1) =~= raw@.subrange(0, k as int).push(raw@[k as int]));
        }
        let ch = if raw[k] == '\\' {
            '/'
        } else {
            raw[k]
        };
        t.push(ch);
        proof {
            assert(t@ =~= swap_char(raw@.subrange(0, k as int + 1), '\\', '/'));
            assert(raw@.subrange(0, k as int + 1) + before_first(raw@.subrange(k + 1, raw.len() as int), '#')
                =~= raw@.subrange(0, k as int) + (seq![raw@[k as int]] + before_first(
                raw@.subrange(k + 1, raw.len() as int),
                '#',
            )));
        }
        k += 1;
    }
    proof {
        assert(raw@.subrange(0, raw.len() as int) =~= raw@);
        let rest = raw@.subrange(k as int, raw.len() as int);
        if k < raw.len() {
            assert(rest[0] == '#');
        } else {
            assert(rest =~= Seq::<char>::empty());
        }
        assert(raw@.subrange(0, k as int) + before_first(rest, '#') =~= raw@.subrange(0, k as int));
        assert(t@ == cleaned_target(target@));
    }
    // the directories to start from
    let mut stack: Vec<Vec<char>> = if t.len() > 0 && t[0] == '/' {
        Vec::new()
    } else {
        let src = chars_of(source_part);
        let i = after_last_slash(&src);
        if i > 0 {
            split_exec(&slice_chars(&src, 0, i - 1), '/')
        } else {
            Vec::new()
        }
    };
    proof {
        assert(stack@.map_values(|x: Vec<char>| x@) =~= start_dirs(source_part@, t@));
    }
    // the segments of the target, leading slashes dropped
    let mut s: usize = 0;
    assert(t@.subrange(0, t.len() as int) =~= t@);
    while s < t.len() && t[s] == '/'
        invariant
            s <= t.len(),
            trim_leading_slashes(t@) == trim_leading_slashes(t@.subrange(s as int, t.len() as int)),
        decreases t.len() - s,
    {
        proof {
            let rest = t@.subrange(s as int, t.len() as int);
            assert(rest.drop_first() =~= t@.subrange(s + 1, t.len() as int));
        }
        s += 1;
    }
    proof {
        assert(t@.subrange(0, t.len() as int) =~= t@);
    }
    let trimmed = slice_chars(&t, s, t.len());
    proof {
        if s < t.len() {
            assert(trimmed@[0] == t@[s as int]);
        }
        assert(trim_leading_slashes(trimmed@) == trimmed@);
    }
    let segments = split_exec(&trimmed, '/');
    let ghost segs = segments@.map_values(|x: Vec<char>| x@);
    let dot: Vec<char> = vec!['.'];
    let dotdot: Vec<char> = vec!['.', '.'];
    proof {
        reveal_strlit(".");
        reveal_strlit("..");
        assert(dot@ =~= "."@);
        assert(dotdot@ =~= ".."@);
    }
    let mut j: usize = 0;
    assert(segs.subrange(0, segs.len() as int) =~= segs);
    while j < segments.len()
        invariant
            j <= segments.len(),
            t@ == cleaned_target(target@),
            segs == segments@.map_values(|x: Vec<char>| x@),
            dot@ == "."@,
            dotdot@ == ".."@,
            walk(start_dirs(source_part@, cleaned_target(target@)), split_on(
                trim_leading_slashes(cleaned_target(target@)),
                '/',
            )) == walk(stack@.map_values(|x: Vec<char>| x@), segs.subrange(j as int, segs.len() as int)),
        decreases segments.len() - j,
    {
        let ghost rest = segs.subrange(j as int, segs.len() as int);
        let ghost sv = stack@.map_values(|x: Vec<char>| x@);
        proof {
            assert(rest.drop_first() =~= segs.subrange(j + 1, segs.len() as int));
            assert(rest[0] == segments@[j as int]@);
        }
        let seg = &segments[j];
        if seg.len() == 0 || seq_eq(seg, &dot) {
        } else if seq_eq(seg, &dotdot) {
            if stack.len() == 0 {
                let mut msg: Vec<char> = Vec::new();
                push_str(&mut msg, "relationship target escapes the package root: ");
                let shown = debug_quoted(string_of(&t).as_str());
                push_str(&mut msg, shown.as_str());
                proof {
                    assert(walk(sv, rest) is None);
                }
                return Err(ExtractError::ParseFailure(string_of(&msg)));
            }
            stack.pop();
            proof {
                assert(stack@.map_values(|x: Vec<char>| x@) =~= sv.drop_last());
            }
        } else {
            stack.push(seg.clone());
            proof {
                assert(stack@.map_values(|x: Vec<char>| x@) =~= sv.push(seg@));
            }
        }
        j += 1;
    }
    proof {
        assert(segs.subrange(segs.len() as int, segs.len() as int) =~= Seq::<Seq<char>>::empty());
    }
    // the path: the remaining segments joined by `/`
    let mut out: Vec<char> = Vec::new();
    let mut m: usize = 0;
    while m < stack.len()
        invariant
            m <= stack.len(),
            out@ == join_slash(stack@.map_values(|x: Vec<char>| x@).subrange(0, m as int)),
        decreases stack.len() - m,
    {
        proof {
            let p = stack@.map_values(|x: Vec<char>| x@).subrange(0, m as int + 1);
            assert(p.drop_last() =~= stack@.map_values(|x: Vec<char>| x@).subrange(0, m as int));
            assert(p.last() == stack@[m as int]@);
        }
        if m > 0 {
            out.push('/');
        }
        push_chars(&mut out, &stack[m]);
        proof {
            if m == 0 {
                assert(out@ =~= stack@[0]@);
            } else {
                reveal_strlit("/");
                assert(out@ =~= join_slash(stack@.map_values(|x: Vec<char>| x@).subrange(0, m as int))
                    + "/"@ + stack@[m as int]@);
            }
        }
        m += 1;
    }
    assert(stack@.map_values(|x: Vec<char>| x@).subrange(0, stack.len() as int) =~= stack@.map_values(
        |x: Vec<char>| x@,
    ));
    Ok(string_of(&out))
}


/// A path segment that resolution keeps: not empty, not `.` or `..`, and
/// without `/`.
pub open spec fn clean_segment(seg: Seq<char>) -> bool {
    seg.len() > 0 && seg != "."@ && seg != ".."@ && !seg.contains('/')
}

proof fn lemma_split_nonempty(s: Seq<char>, c: char)
    ensures
        split_on(s, c).len() >= 1,
    decreases s.len(),
{
    if s.len() > 0 {
        lemma_split_nonempty(s.drop_last(), c);
    }
}

proof fn lemma_split_no_separator(s: Seq<char>, c: char)
    ensures
        forall|i: int| 0 <= i < split_on(s, c).len() ==> !(#[trigger] split_on(s, c)[i]).contains(c),
    decreases s.len(),
{
    if s.len() > 0 {
        let rest = split_on(s.drop_last(), c);
        lemma_split_no_separator(s.drop_last(), c);
        lemma_split_nonempty(s.drop_last(), c);
        if s.last() != c {
            let last = rest.last().push(s.last());
            assert(!last.contains(c)) by {
                if last.contains(c) {
                    let k = choose|k: int| 0 <= k < last.len() && last[k] == c;
                    assert(rest.last()[k] == c);
                    assert(rest[rest.len() - 1] == rest.last());
                }
            }
            let r = split_on(s, c);
            assert forall|i: int| 0 <= i < r.len() implies !(#[trigger] r[i]).contains(c) by {
                if i < r.len() - 1 {
                    assert(r[i] == rest[i]);
                }
            }
        } else {
            let r = split_on(s, c);
            assert forall|i: int| 0 <= i < r.len() implies !(#[trigger] r[i]).contains(c) by {
                if i < r.len() - 1 {
                    assert(r[i] == rest[i]);
                } else {
                    assert(r[i] =~= Seq::<char>::empty());
                }
            }
        }
    }
}

proof fn lemma_split_concat(a: Seq<char>, b: Seq<char>, c: char)
    ensures
        split_on(a + seq![c] + b, c) == split_on(a, c) + split_on(b, c),
    decreases b.len(),
{
    if b.len() == 0 {
        assert(a + seq![c] + b =~= a.push(c));
        assert((a.push(c)).drop_last() =~= a);
    } else {
        let s = a + seq![c] + b;
        lemma_split_concat(a, b.drop_last(), c);
        lemma_split_nonempty(b.drop_last(), c);
        assert(s.drop_last() =~= a + seq![c] + b.drop_last());
        let left = split_on(a, c);
        let right = split_on(b.drop_last(), c);
        if b.last() == c {
            assert((left + right).push(Seq::empty()) =~= left + right.push(Seq::empty()));
        } else {
            assert((left + right).drop_last() =~= left + right.drop_last());
            assert((left + right).last() == right.last());
            assert((left + right).drop_last().push((left + right).last().push(b.last())) =~= left
                + right.drop_last().push(right.last().push(b.last())));
        }
    }
}

proof fn lemma_walk_clean(stack: Seq<Seq<char>>, segments: Seq<Seq<char>>)
    requires
        forall|i: int| 0 <= i < stack.len() ==> clean_segment(#[trigger] stack[i]),
        forall|i: int| 0 <= i < segments.len() ==> !(#[trigger] segments[i]).contains('/'),
    ensures
        walk(stack, segments) matches Some(parts) ==> forall|i: int|
            0 <= i < parts.len() ==> clean_segment(#[trigger] parts[i]),
    decreases segments.len(),
{
    if segments.len() > 0 {
        let seg = segments[0];
        let rest = segments.drop_first();
        assert forall|i: int| 0 <= i < rest.len() implies !(#[trigger] rest[i]).contains('/') by {
            assert(rest[i] == segments[i + 1]);
        }
        if seg.len() == 0 || seg == "."@ {
            lemma_walk_clean(stack, rest);
        } else if seg == ".."@ {
            if stack.len() > 0 {
                lemma_walk_clean(stack.drop_last(), rest);
            }
        } else {
            let pushed = stack.push(seg);
            assert forall|i: int| 0 <= i < pushed.len() implies clean_segment(#[trigger] pushed[i]) by {
                if i < stack.len() {
                    assert(pushed[i] == stack[i]);
                }
            }
            lemma_walk_clean(pushed, rest);
        }
    }
}

proof fn lemma_last_slash_bounds(s: Seq<char>)
    ensures
        -1 <= last_slash(s) < s.len(),
        last_slash(s) >= 0 ==> s[last_slash(s)] == '/',
    decreases s.len(),
{
    if s.len() > 0 && s.last() != '/' {
        lemma_last_slash_bounds(s.drop_last());
    }
}

/// Where the part that declares a relationship has only clean segments, a
/// target that resolves names a path of clean segments joined by `/`: no
/// segment of it is empty, `.` or `..`.
pub proof fn resolved_paths_have_clean_segments(source: Seq<char>, target: Seq<char>)
    requires
        forall|i: int| 0 <= i < split_on(source, '/').len() ==> clean_segment(#[trigger] split_on(source, '/')[i]),
    ensures
        resolved_target(source, target) matches Some(p) ==> exists|parts: Seq<Seq<char>>|
            #[trigger] join_slash(parts) == p && forall|i: int|
                0 <= i < parts.len() ==> clean_segment(#[trigger] parts[i]),
{
    let t = cleaned_target(target);
    let start = start_dirs(source, t);
    let segs = split_on(trim_leading_slashes(t), '/');
    lemma_split_no_separator(trim_leading_slashes(t), '/');
    assert forall|i: int| 0 <= i < start.len() implies clean_segment(#[trigger] start[i]) by {
        lemma_last_slash_bounds(source);
        let k = last_slash(source);
        let a = source.subrange(0, k);
        let b = source.subrange(k + 1, source.len() as int);
        assert(source =~= a + seq!['/'] + b);
        lemma_split_concat(a, b, '/');
        assert(split_on(source, '/')[i] == split_on(a, '/')[i]);
    }
    lemma_walk_clean(start, segs);
    match walk(start, segs) {
        Some(parts) => {
            assert(join_slash(parts) == resolved_target(source, target)->Some_0);
        },
        None => {},
    }
}


/// The relationship that `first_internal` picks, by its position.
proof fn lemma_first_internal(s: Seq<(String, Relationship)>, suffix: Seq<char>)
    ensures
        match first_internal(s, suffix) {
            Some(v) => exists|i: int|
                0 <= i < s.len() && #[trigger] s[i].1 == v && !v.external && after_last(v.kind@, '/') == suffix
                    && forall|j: int|
                    0 <= j < i ==> (#[trigger] s[j].1).external || after_last(s[j].1.kind@, '/') != suffix,
            None => forall|j: int|
                0 <= j < s.len() ==> (#[trigger] s[j].1).external || after_last(s[j].1.kind@, '/') != suffix,
        },
    decreases s.len(),
{
    if s.len() > 0 && !(!s[0].1.external && after_last(s[0].1.kind@, '/') == suffix) {
        let t = s.drop_first();
        lemma_first_internal(t, suffix);
        match first_internal(t, suffix) {
            Some(v) => {
                let i = choose|i: int|
                    0 <= i < t.len() && #[trigger] t[i].1 == v && !v.external && after_last(v.kind@, '/')
                        == suffix && forall|j: int|
                        0 <= j < i ==> (#[trigger] t[j].1).external || after_last(t[j].1.kind@, '/') != suffix;
                assert(s[i + 1] == t[i]);
                assert forall|j: int| 0 <= j < i + 1 implies (#[trigger] s[j].1).external || after_last(
                    s[j].1.kind@,
                    '/',
                ) != suffix by {
                    if j > 0 {
                        assert(s[j] == t[j - 1]);
                    }
                }
            },
            None => {
                assert forall|j: int| 0 <= j < s.len() implies (#[trigger] s[j].1).external || after_last(
                    s[j].1.kind@,
                    '/',
                ) != suffix by {
                    if j > 0 {
                        assert(s[j] == t[j - 1]);
                    }
                }
            },
        }
    } else if s.len() > 0 {
        assert(s[0].1 == first_internal(s, suffix)->Some_0);
    }
}

/// Of the internal relationships whose type ends in the segment `suffix`,
/// `first_internal_type` gives the one with the least id; it gives none
/// exactly when there is no such relationship, and an external
/// relationship never matches.
pub proof fn first_internal_type_takes_the_least_id(rels: Relationships, suffix: Seq<char>)
    requires
        rels.by_id.wf(),
    ensures
        match first_internal(rels.by_id.entries@, suffix) {
            Some(v) => !v.external && after_last(v.kind@, '/') == suffix && exists|i: int|
                0 <= i < rels.by_id.entries@.len() && #[trigger] rels.by_id.entries@[i].1 == v && forall|j: int|
                    0 <= j < rels.by_id.entries@.len() && j != i && !(#[trigger] rels.by_id.entries@[j].1).external
                        && after_last(rels.by_id.entries@[j].1.kind@, '/') == suffix ==> text_lt(
                        rels.by_id.entries@[i].0@,
                        rels.by_id.entries@[j].0@,
                    ),
            None => forall|j: int|
                0 <= j < rels.by_id.entries@.len() ==> (#[trigger] rels.by_id.entries@[j].1).external
                    || after_last(rels.by_id.entries@[j].1.kind@, '/') != suffix,
        },
{
    let s = rels.by_id.entries@;
    lemma_first_internal(s, suffix);
    match first_internal(s, suffix) {
        Some(v) => {
            let i = choose|i: int|
                0 <= i < s.len() && #[trigger] s[i].1 == v && !v.external && after_last(v.kind@, '/') == suffix
                    && forall|j: int|
                    0 <= j < i ==> (#[trigger] s[j].1).external || after_last(s[j].1.kind@, '/') != suffix;
            assert forall|j: int|
                0 <= j < s.len() && j != i && !(#[trigger] s[j].1).external && after_last(s[j].1.kind@, '/')
                    == suffix implies text_lt(s[i].0@, s[j].0@) by {
                assert(!(j < i));
            }
        },
        None => {},
    }
}

} // verus!

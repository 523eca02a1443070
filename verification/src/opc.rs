//! Office Open XML packages: their parts read from the ZIP container, and
//! their classification by main part.
use vstd::prelude::*;
use std::io::{Cursor, Read};
use zip::ZipArchive;
use crate::error::ExtractError;
use crate::granularity::{debug_quoted, debug_str};
use crate::relationships::{split_exec, split_on, swap_char};
use crate::story::{part_of, Parts};
use crate::text::{chars_of, push_str, string_of};

verus! {

#[verifier::external_type_specification]
#[verifier::external_body]
#[verifier::reject_recursive_types(T)]
pub struct ExCursor<T>(Cursor<T>);

#[verifier::external_type_specification]
#[verifier::external_body]
#[verifier::reject_recursive_types(R)]
pub struct ExZipArchive<R>(ZipArchive<R>);

/// What `ZipArchive::new` makes of `bytes`: the number of entries its
/// central directory lists, or the text of the error.
pub uninterp spec fn zip_directory(bytes: Seq<u8>) -> Result<nat, Seq<char>>;

/// The name that `ZipArchive::name_for_index` gives for entry `index` of the
/// archive in `bytes` (none past the last entry).
pub uninterp spec fn zip_entry_name(bytes: Seq<u8>, index: nat) -> Option<Seq<char>>;

/// What `ZipArchive::by_index` gives for entry `index` of the archive in
/// `bytes`, the entry read to its end: its content or the text of the read
/// error; or the text of the error of `by_index` itself.
pub uninterp spec fn zip_entry_content(bytes: Seq<u8>, index: nat) -> Result<
    Result<Seq<u8>, Seq<char>>,
    Seq<char>,
>;

/// The bytes that an archive was opened on.
pub uninterp spec fn archive_bytes(a: ZipArchive<Cursor<&[u8]>>) -> Seq<u8>;

/// `ZipArchive::new` over the bytes of a package: the archive, or the text
/// of the error.
#[verifier::external_body]
fn open_archive<'a>(bytes: &'a [u8]) -> (r: Result<ZipArchive<Cursor<&'a [u8]>>, String>)
    ensures
        match zip_directory(bytes@) {
            Ok(_) => r matches Ok(a) && archive_bytes(a) == bytes@,
            Err(m) => r matches Err(e) && e@ == m,
        },
{
    match ZipArchive::new(Cursor::new(bytes)) {
        Ok(a) => Ok(a),
        Err(e) => Err(e.to_string()),
    }
}

/// `ZipArchive::len`: the number of entries of the central directory.
#[verifier::external_body]
fn archive_len(a: &ZipArchive<Cursor<&[u8]>>) -> (n: usize)
    requires
        zip_directory(archive_bytes(*a)) is Ok,
    ensures
        n == zip_directory(archive_bytes(*a))->Ok_0,
{
    a.len()
}

/// `ZipArchive::name_for_index`: the name of an entry, which every entry
/// that the central directory lists has.
#[verifier::external_body]
fn archive_name(a: &ZipArchive<Cursor<&[u8]>>, index: usize) -> (r: Option<String>)
    ensures
        match zip_entry_name(archive_bytes(*a), index as nat) {
            Some(n) => r matches Some(s) && s@ == n,
            None => r is None,
        },
        zip_directory(archive_bytes(*a)) matches Ok(count) && index < count ==> r is Some,
{
    a.name_for_index(index).map(String::from)
}

/// `ZipArchive::by_index`, the entry it gives read to its end: its content
/// or the text of the read error; or the text of the error of `by_index`.
#[verifier::external_body]
fn archive_content(a: &mut ZipArchive<Cursor<&[u8]>>, index: usize) -> (r: Result<Result<Vec<u8>, String>, String>)
    ensures
        archive_bytes(*final(a)) == archive_bytes(*old(a)),
        match zip_entry_content(archive_bytes(*old(a)), index as nat) {
            Ok(Ok(c)) => r matches Ok(Ok(v)) && v@ == c,
            Ok(Err(m)) => r matches Ok(Err(e)) && e@ == m,
            Err(m) => r matches Err(e) && e@ == m,
        },
{
    match a.by_index(index) {
        Ok(mut file) => {
            let mut content = Vec::new();
            match file.read_to_end(&mut content) {
                Ok(_) => Ok(Ok(content)),
                Err(e) => Ok(Err(e.to_string())),
            }
        },
        Err(e) => Err(e.to_string()),
    }
}

/// How deep below the package root a walk over `segs` ends: `..` climbs
/// one level, an empty or `.` segment stays, any other descends; none where
/// a `..` would climb above the root.
pub open spec fn climb_depth(segs: Seq<Seq<char>>) -> Option<nat>
    decreases segs.len(),
{
    if segs.len() == 0 {
        Some(0)
    } else {
        match climb_depth(segs.drop_last()) {
            None => None,
            Some(d) => {
                let seg = segs.last();
                if seg == ".."@ {
                    if d == 0 {
                        None
                    } else {
                        Some((d - 1) as nat)
                    }
                } else if seg.len() == 0 || seg == "."@ {
                    Some(d)
                } else {
                    Some(d + 1)
                }
            },
        }
    }
}

/// An entry name that stays inside the package: it holds no NUL, does not
/// start at a root (`/` or `\`), and, with `/` and `\` both read as
/// separators, no `..` climbs above the package root.
pub open spec fn enclosed_name(name: Seq<char>) -> bool {
    &&& !name.contains('\0')
    &&& !(name.len() > 0 && (name[0] == '/' || name[0] == '\\'))
    &&& climb_depth(split_on(swap_char(name, '\\', '/'), '/')) is Some
}

proof fn lemma_climb_stuck(segs: Seq<Seq<char>>, i: int)
    requires
        0 <= i <= segs.len(),
        climb_depth(segs.subrange(0, i)) is None,
    ensures
        climb_depth(segs) is None,
    decreases segs.len() - i,
{
    if i < segs.len() {
        assert(segs.subrange(0, i + 1).drop_last() =~= segs.subrange(0, i));
        lemma_climb_stuck(segs, i + 1);
    } else {
        assert(segs.subrange(0, i) =~= segs);
    }
}

fn is_enclosed_name(name: &str) -> (r: bool)
    ensures
        r == enclosed_name(name@),
{
    let v = chars_of(name);
    let mut i: usize = 0;
    while i < v.len()
        invariant
            i <= v.len(),
            v@ == name@,
            forall|k: int| 0 <= k < i ==> v@[k] != '\0',
        decreases v.len() - i,
    {
        if v[i] == '\0' {
            assert(v@.contains('\0')) by {
                assert(v@[i as int] == '\0');
            }
            return false;
        }
        i += 1;
    }
    assert(!v@.contains('\0'));
    if v.len() > 0 && (v[0] == '/' || v[0] == '\\') {
        return false;
    }
    let mut w: Vec<char> = Vec::new();
    let mut j: usize = 0;
    while j < v.len()
        invariant
            j <= v.len(),
            w@ == swap_char(v@.subrange(0, j as int), '\\', '/'),
        decreases v.len() - j,
    {
        let ghost before = w@;
        if v[j] == '\\' {
            w.push('/');
        } else {
            w.push(v[j]);
        }
        proof {
            assert(swap_char(v@.subrange(0, j as int + 1), '\\', '/') =~= before.push(w@.last()));
        }
        j += 1;
    }
    assert(v@.subrange(0, v.len() as int) =~= v@);
    let segs = split_exec(&w, '/');
    let ghost sv = segs@.map_values(|x: Vec<char>| x@);
    let dots = chars_of("..");
    let dot = chars_of(".");
    proof {
        reveal_strlit("..");
        reveal_strlit(".");
        assert(sv.subrange(0, 0).len() == 0);
    }
    let mut depth: usize = 0;
    let mut k: usize = 0;
    while k < segs.len()
        invariant
            k <= segs.len(),
            depth <= k,
            sv == segs@.map_values(|x: Vec<char>| x@),
            sv == split_on(swap_char(name@, '\\', '/'), '/'),
            dots@ == ".."@,
            dot@ == "."@,
            climb_depth(sv.subrange(0, k as int)) == Some(depth as nat),
        decreases segs.len() - k,
    {
        let ghost p = sv.subrange(0, k as int + 1);
        proof {
            assert(p.drop_last() =~= sv.subrange(0, k as int));
            assert(p.last() == segs@[k as int]@);
        }
        let seg = &segs[k];
        if crate::text::seq_eq(seg, &dots) {
            if depth == 0 {
                proof {
                    lemma_climb_stuck(sv, k as int + 1);
                    assert(sv.len() == segs@.len());
                }
                return false;
            }
            depth -= 1;
        } else if seg.len() == 0 || crate::text::seq_eq(seg, &dot) {
        } else {
            depth += 1;
        }
        k += 1;
    }
    assert(sv.subrange(0, segs.len() as int) =~= sv);
    true
}

/// A ZIP entry name that names a directory: it ends with `/` or `\`.
pub open spec fn directory_name(name: Seq<char>) -> bool {
    name.len() > 0 && (name.last() == '/' || name.last() == '\\')
}

fn is_directory_name(name: &str) -> (r: bool)
    ensures
        r == directory_name(name@),
{
    let v = chars_of(name);
    v.len() > 0 && (v[v.len() - 1] == '/' || v[v.len() - 1] == '\\')
}

/// The parts read from the first `k` entries of the archive in `bytes`, in
/// archive order: directories are skipped, an entry whose name would leave
/// the package root is refused, and an entry that cannot be read is an
/// error that names it.
pub open spec fn entries_upto(bytes: Seq<u8>, k: nat) -> Result<Seq<(Seq<char>, Seq<u8>)>, Seq<char>>
    decreases k,
{
    if k == 0 {
        Ok(Seq::empty())
    } else {
        match entries_upto(bytes, (k - 1) as nat) {
            Err(m) => Err(m),
            Ok(acc) => match zip_entry_content(bytes, (k - 1) as nat) {
                Err(m) => Err("invalid ZIP entry: "@ + m),
                Ok(content) => match zip_entry_name(bytes, (k - 1) as nat) {
                    None => Ok(acc),
                    Some(name) => if directory_name(name) {
                        Ok(acc)
                    } else if !enclosed_name(name) {
                        Err("unsafe OPC entry name rejected: "@ + debug_str(name))
                    } else {
                        match content {
                            Ok(c) => Ok(acc.push((name, c))),
                            Err(m) => Err(name + ": "@ + m),
                        }
                    },
                },
            },
        }
    }
}

/// The parts of the package in `bytes`, or the text of the parse failure.
pub open spec fn package_parts(bytes: Seq<u8>) -> Result<Seq<(Seq<char>, Seq<u8>)>, Seq<char>> {
    match zip_directory(bytes) {
        Err(m) => Err("invalid ZIP package: "@ + m),
        Ok(n) => entries_upto(bytes, n),
    }
}

/// The entries of `parts` as values.
pub open spec fn entry_views(entries: Seq<(String, Vec<u8>)>) -> Seq<(Seq<char>, Seq<u8>)> {
    entries.map_values(|e: (String, Vec<u8>)| (e.0@, e.1@))
}

/// What reading a package gives, as values.
pub open spec fn parts_outcome(r: Result<Parts, ExtractError>) -> Result<Seq<(Seq<char>, Seq<u8>)>, Seq<char>> {
    match r {
        Ok(p) => Ok(entry_views(p.entries@)),
        Err(ExtractError::ParseFailure(m)) => Err(m@),
        Err(_) => Err(Seq::empty()),
    }
}

proof fn lemma_error_stays(bytes: Seq<u8>, i: nat, n: nat)
    requires
        i <= n,
        entries_upto(bytes, i) is Err,
    ensures
        entries_upto(bytes, n) == entries_upto(bytes, i),
    decreases n - i,
{
    if i < n {
        lemma_error_stays(bytes, i, (n - 1) as nat);
    }
}

/// `a` followed by `b` and `c`.
fn joined(a: &str, b: &str, c: &str) -> (r: String)
    ensures
        r@ == a@ + b@ + c@,
{
    let mut out: Vec<char> = Vec::new();
    push_str(&mut out, a);
    push_str(&mut out, b);
    push_str(&mut out, c);
    string_of(&out)
}

/// Reads the parts of a ZIP package, by name, in archive order. Directory
/// entries are skipped; an entry whose name would leave the package root
/// (one that `enclosed_name` refuses) is a parse failure, as are an archive
/// or an entry that cannot be read.
pub fn read_parts(bytes: &[u8]) -> (r: Result<Parts, ExtractError>)
    ensures
        parts_outcome(r) == package_parts(bytes@),
        r matches Err(e) ==> e is ParseFailure,
{
    proof {
        reveal_strlit("");
    }
    let mut archive = match open_archive(bytes) {
        Ok(a) => a,
        Err(m) => {
            let e = joined("invalid ZIP package: ", m.as_str(), "");
            proof {
                assert(e@ =~= "invalid ZIP package: "@ + m@);
            }
            return Err(ExtractError::ParseFailure(e));
        },
    };
    let n = archive_len(&archive);
    let ghost b = bytes@;
    let mut entries: Vec<(String, Vec<u8>)> = Vec::new();
    let mut i: usize = 0;
    proof {
        assert(entry_views(entries@) =~= Seq::<(Seq<char>, Seq<u8>)>::empty());
        reveal_strlit("");
    }
    while i < n
        invariant
            i <= n,
            n == zip_directory(b)->Ok_0,
            zip_directory(b) is Ok,
            archive_bytes(archive) == b,
            b == bytes@,
            entries_upto(b, i as nat) == Ok::<Seq<(Seq<char>, Seq<u8>)>, Seq<char>>(entry_views(entries@)),
        decreases n - i,
    {
        let ghost before = entries@;
        let content = archive_content(&mut archive, i);
        match content {
            Err(m) => {
                let e = joined("invalid ZIP entry: ", m.as_str(), "");
                proof {
                    reveal_strlit("");
                    assert(e@ =~= "invalid ZIP entry: "@ + m@);
                    assert(entries_upto(b, (i + 1) as nat) == Err::<Seq<(Seq<char>, Seq<u8>)>, Seq<char>>(e@));
                    lemma_error_stays(b, (i + 1) as nat, n as nat);
                }
                return Err(ExtractError::ParseFailure(e));
            },
            Ok(read) => {
                let name = match archive_name(&archive, i) {
                    Some(s) => s,
                    None => {
                        return Err(ExtractError::ParseFailure(String::new()));
                    },
                };
                if is_directory_name(name.as_str()) {
                } else if !is_enclosed_name(name.as_str()) {
                    let quoted = debug_quoted(name.as_str());
                    let e = joined("unsafe OPC entry name rejected: ", quoted.as_str(), "");
                    proof {
                        reveal_strlit("");
                        assert(e@ =~= "unsafe OPC entry name rejected: "@ + debug_str(name@));
                        assert(entries_upto(b, (i + 1) as nat) == Err::<Seq<(Seq<char>, Seq<u8>)>, Seq<char>>(e@));
                        lemma_error_stays(b, (i + 1) as nat, n as nat);
                    }
                    return Err(ExtractError::ParseFailure(e));
                } else {
                    match read {
                        Ok(c) => {
                            entries.push((name, c));
                            proof {
                                assert(entry_views(entries@) =~= entry_views(before).push(
                                    (entries@.last().0@, entries@.last().1@),
                                ));
                            }
                        },
                        Err(m) => {
                            let e = joined(name.as_str(), ": ", m.as_str());
                            proof {
                                lemma_error_stays(b, (i + 1) as nat, n as nat);
                            }
                            return Err(ExtractError::ParseFailure(e));
                        },
                    }
                }
            },
        }
        i += 1;
    }
    Ok(Parts { entries })
}

/// Whether some entry of `entries` is named `name`.
pub open spec fn has_entry(entries: Seq<(Seq<char>, Seq<u8>)>, name: Seq<char>) -> bool {
    exists|i: int| 0 <= i < entries.len() && #[trigger] entries[i].0 == name
}

/// The kind of a package with the entries `entries`.
pub open spec fn opc_kind(entries: Seq<(Seq<char>, Seq<u8>)>) -> OpcKind {
    if has_entry(entries, "ppt/presentation.xml"@) {
        OpcKind::Pptx
    } else if has_entry(entries, "word/document.xml"@) {
        OpcKind::Docx
    } else {
        OpcKind::OtherZip
    }
}

pub proof fn lemma_part_of_has_entry(entries: Seq<(String, Vec<u8>)>, name: Seq<char>)
    ensures
        (part_of(entries, name) is Some) == has_entry(entry_views(entries), name),
    decreases entries.len(),
{
    let v = entry_views(entries);
    if entries.len() > 0 {
        lemma_part_of_has_entry(entries.drop_first(), name);
        let w = entry_views(entries.drop_first());
        assert(w =~= v.drop_first());
        if has_entry(w, name) {
            let i = choose|i: int| 0 <= i < w.len() && #[trigger] w[i].0 == name;
            assert(v[i + 1].0 == name);
        }
        if has_entry(v, name) && v[0].0 != name {
            let i = choose|i: int| 0 <= i < v.len() && #[trigger] v[i].0 == name;
            assert(w[i - 1].0 == name);
        }
        if entries[0].0@ == name {
            assert(v[0].0 == name);
        }
    } else {
        assert(!has_entry(v, name));
    }
}

/// The kind of a ZIP package.
#[derive(Debug, Clone, Copy, PartialEq, Eq, Structural)]
pub enum OpcKind {
    Pptx,
    Docx,
    OtherZip,
}

/// Classifies a package by its parts: a presentation has
/// `ppt/presentation.xml`, a word-processing document `word/document.xml`
/// (macro-enabled variants included); anything else is a plain ZIP. A
/// package that cannot be read (see `read_parts`) is a parse failure.
pub fn sniff_opc(bytes: &[u8]) -> (r: Result<OpcKind, ExtractError>)
    ensures
        match package_parts(bytes@) {
            Ok(entries) => r == Ok::<OpcKind, ExtractError>(opc_kind(entries)),
            Err(m) => r matches Err(ExtractError::ParseFailure(e)) && e@ == m,
        },
{
    let parts = read_parts(bytes)?;
    proof {
        lemma_part_of_has_entry(parts.entries@, "ppt/presentation.xml"@);
        lemma_part_of_has_entry(parts.entries@, "word/document.xml"@);
    }
    if parts.contains("ppt/presentation.xml") {
        Ok(OpcKind::Pptx)
    } else if parts.contains("word/document.xml") {
        Ok(OpcKind::Docx)
    } else {
        Ok(OpcKind::OtherZip)
    }
}


proof fn lemma_parts_are_safe(bytes: Seq<u8>, k: nat)
    ensures
        entries_upto(bytes, k) matches Ok(es) ==> forall|i: int|
            0 <= i < es.len() ==> enclosed_name(#[trigger] es[i].0) && !directory_name(es[i].0),
    decreases k,
{
    if k > 0 {
        lemma_parts_are_safe(bytes, (k - 1) as nat);
        match entries_upto(bytes, (k - 1) as nat) {
            Ok(acc) => {
                match entries_upto(bytes, k) {
                    Ok(es) => {
                        assert forall|i: int| 0 <= i < es.len() implies enclosed_name(#[trigger] es[i].0)
                            && !directory_name(es[i].0) by {
                            if i < acc.len() {
                                assert(es[i] == acc[i]);
                            }
                        }
                    },
                    Err(_) => {},
                }
            },
            Err(_) => {},
        }
    }
}

/// Every part read from a package has a name that stays inside the package
/// and is no directory: a package with an entry that would leave its root
/// is refused as a whole.
pub proof fn read_parts_are_enclosed(bytes: Seq<u8>)
    ensures
        package_parts(bytes) matches Ok(es) ==> forall|i: int|
            0 <= i < es.len() ==> enclosed_name(#[trigger] es[i].0) && !directory_name(es[i].0),
{
    if let Ok(n) = zip_directory(bytes) {
        lemma_parts_are_safe(bytes, n);
    }
}

} // verus!

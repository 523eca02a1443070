//! A small XML element tree with namespace resolution, and the queries that
//! the Office Open XML readers run over it.
use vstd::prelude::*;
use quick_xml::events::attributes::{AttrError, Attribute, Attributes};
use quick_xml::events::{BytesStart, Event};
use quick_xml::{Reader, XmlVersion};
use crate::error::ExtractError;
use crate::strmap::{
    key_index, lemma_key_index, lemma_key_index_at, lemma_text_lt_irreflexive, lookup, sorted_keys, text_lt, StrMap,
};
use crate::text::{
    chars_of, decimal, is_whitespace, is_ws, parse_unsigned, parse_unsigned_bounded, push_decimal,
    occurs_at, push_str, replace_all, replaced, seq_eq, slice_chars, str_eq, string_of,
};

verus! {

/// One element: its qualified name, attributes (ordered by name), children in
/// document order and the concatenation of its own character data.
pub struct Node {
    pub name: String,
    pub attrs: StrMap<String>,
    pub children: Vec<Node>,
    pub text: String,
    pub namespace_uri: Option<String>,
    pub attr_namespace_uris: StrMap<String>,
    pub in_scope_namespaces: StrMap<String>,
}

/// The mathematical content of a `Node`.
pub struct NodeView {
    pub name: Seq<char>,
    pub attrs: Map<Seq<char>, Seq<char>>,
    pub children: Seq<NodeView>,
    pub text: Seq<char>,
    pub namespace_uri: Option<Seq<char>>,
    pub attr_namespace_uris: Map<Seq<char>, Seq<char>>,
    pub in_scope_namespaces: Map<Seq<char>, Seq<char>>,
}

/// The abstract map held by a string map of strings.
pub open spec fn text_map(m: StrMap<String>) -> Map<Seq<char>, Seq<char>> {
    Map::new(|k: Seq<char>| lookup(m.entries@, k) is Some, |k: Seq<char>| lookup(m.entries@, k)->0@)
}

pub open spec fn opt_text(o: Option<String>) -> Option<Seq<char>> {
    match o {
        Some(s) => Some(s@),
        None => None,
    }
}

pub open spec fn node_view(n: Node) -> NodeView
    decreases n, 1nat,
{
    NodeView {
        name: n.name@,
        attrs: text_map(n.attrs),
        children: nodes_view(n.children@),
        text: n.text@,
        namespace_uri: opt_text(n.namespace_uri),
        attr_namespace_uris: text_map(n.attr_namespace_uris),
        in_scope_namespaces: text_map(n.in_scope_namespaces),
    }
}

pub open spec fn nodes_view(s: Seq<Node>) -> Seq<NodeView>
    decreases s, 0nat,
{
    if s.len() == 0 {
        Seq::empty()
    } else {
        nodes_view(s.subrange(0, s.len() - 1)).push(node_view(s[s.len() - 1]))
    }
}

pub proof fn lemma_nodes_view(s: Seq<Node>)
    ensures
        nodes_view(s).len() == s.len(),
        forall|i: int| 0 <= i < s.len() ==> #[trigger] nodes_view(s)[i] == node_view(s[i]),
    decreases s.len(),
{
    if s.len() > 0 {
        let t = s.subrange(0, s.len() - 1);
        lemma_nodes_view(t);
        assert forall|i: int| 0 <= i < s.len() implies #[trigger] nodes_view(s)[i] == node_view(
            s[i],
        ) by {
            if i < s.len() - 1 {
                assert(t[i] == s[i]);
            }
        }
    }
}

impl View for Node {
    type V = NodeView;

    open spec fn view(&self) -> NodeView {
        node_view(*self)
    }
}

/// Index of the last `:` in `s`, or -1.
pub open spec fn last_colon(s: Seq<char>) -> int
    decreases s.len(),
{
    if s.len() == 0 {
        -1
    } else if s.last() == ':' {
        s.len() - 1
    } else {
        last_colon(s.drop_last())
    }
}

/// The part of a qualified name after its last `:` (the whole name when it
/// has none).
pub open spec fn local_part(name: Seq<char>) -> Seq<char> {
    name.subrange(last_colon(name) + 1, name.len() as int)
}

pub proof fn lemma_last_colon(s: Seq<char>, i: int)
    requires
        0 <= i <= s.len(),
        forall|k: int| i <= k < s.len() ==> s[k] != ':',
        i == 0 || s[i - 1] == ':',
    ensures
        last_colon(s) == i - 1,
    decreases s.len(),
{
    if s.len() > i {
        lemma_last_colon(s.drop_last(), i);
    }
}

pub proof fn lemma_last_colon_bounds(s: Seq<char>)
    ensures
        -1 <= last_colon(s) < s.len(),
        last_colon(s) >= 0 ==> s[last_colon(s)] == ':',
        forall|k: int| last_colon(s) < k < s.len() ==> s[k] != ':',
    decreases s.len(),
{
    if s.len() > 0 && s.last() != ':' {
        lemma_last_colon_bounds(s.drop_last());
        assert forall|k: int| last_colon(s) < k < s.len() implies s[k] != ':' by {
            if k < s.len() - 1 {
                assert(s.drop_last()[k] == s[k]);
            }
        }
    }
}

/// The local part of a qualified name.
pub fn local_name(name: &str) -> (r: String)
    ensures
        r@ == local_part(name@),
{
    let v = chars_of(name);
    let mut i: usize = v.len();
    while i > 0 && v[i - 1] != ':'
        invariant
            i <= v.len(),
            forall|k: int| i <= k < v.len() ==> v@[k] != ':',
        decreases i,
    {
        i -= 1;
    }
    proof {
        lemma_last_colon(v@, i as int);
    }
    string_of(&slice_chars(&v, i, v.len()))
}

/// Whether the local part of `name` is `local`.
fn has_local_name(name: &str, local: &str) -> (r: bool)
    ensures
        r == (local_part(name@) == local@),
{
    let l = local_name(name);
    str_eq(l.as_str(), local)
}

/// The first attribute, in name order, whose local name is `local`.
pub open spec fn first_local_match(s: Seq<(String, String)>, local: Seq<char>) -> Option<String>
    decreases s.len(),
{
    if s.len() == 0 {
        None
    } else if local_part(s[0].0@) == local {
        Some(s[0].1)
    } else {
        first_local_match(s.drop_first(), local)
    }
}

/// The attribute named exactly `name`, else the first whose local name is `name`.
pub open spec fn attr_value(attrs: StrMap<String>, name: Seq<char>) -> Option<String> {
    match lookup(attrs.entries@, name) {
        Some(v) => Some(v),
        None => first_local_match(attrs.entries@, name),
    }
}

/// The first attribute, in name order, with local name `local` whose name
/// resolves to the namespace `ns`.
pub open spec fn first_ns_match(
    s: Seq<(String, String)>,
    uris: Seq<(String, String)>,
    ns: Seq<char>,
    local: Seq<char>,
) -> Option<String>
    decreases s.len(),
{
    if s.len() == 0 {
        None
    } else if local_part(s[0].0@) == local && opt_text(lookup(uris, s[0].0@)) == Some(ns) {
        Some(s[0].1)
    } else {
        first_ns_match(s.drop_first(), uris, ns, local)
    }
}

/// The first node of `s` whose local name is `local`.
pub open spec fn first_named(s: Seq<Node>, local: Seq<char>) -> Option<Node>
    decreases s.len(),
{
    if s.len() == 0 {
        None
    } else if local_part(s[0].name@) == local {
        Some(s[0])
    } else {
        first_named(s.drop_first(), local)
    }
}

/// The first node of `s` with local name `local` in the namespace `ns`.
pub open spec fn first_named_ns(s: Seq<Node>, ns: Seq<char>, local: Seq<char>) -> Option<Node>
    decreases s.len(),
{
    if s.len() == 0 {
        None
    } else if local_part(s[0].name@) == local && opt_text(s[0].namespace_uri) == Some(ns) {
        Some(s[0])
    } else {
        first_named_ns(s.drop_first(), ns, local)
    }
}

/// The nodes of `s` whose local name is `local`, in order.
pub open spec fn all_named(s: Seq<Node>, local: Seq<char>) -> Seq<Node>
    decreases s.len(),
{
    if s.len() == 0 {
        Seq::empty()
    } else if local_part(s.last().name@) == local {
        all_named(s.drop_last(), local).push(s.last())
    } else {
        all_named(s.drop_last(), local)
    }
}

/// Every node of the forest `s` in document order (each node before its
/// children).
pub open spec fn preorder(s: Seq<Node>) -> Seq<Node>
    decreases s, 0nat,
{
    if s.len() == 0 {
        Seq::empty()
    } else {
        preorder(s.subrange(0, s.len() - 1)) + subtree(s[s.len() - 1])
    }
}

/// A node followed by all of its descendants in document order.
pub open spec fn subtree(n: Node) -> Seq<Node>
    decreases n, 1nat,
{
    seq![n] + preorder(n.children@)
}

pub proof fn lemma_all_named_append(a: Seq<Node>, b: Seq<Node>, local: Seq<char>)
    ensures
        all_named(a + b, local) == all_named(a, local) + all_named(b, local),
    decreases b.len(),
{
    if b.len() == 0 {
        assert(a + b =~= a);
    } else {
        lemma_all_named_append(a, b.drop_last(), local);
        assert((a + b).drop_last() =~= a + b.drop_last());
    }
}


/// The namespace that the `xml` prefix is always bound to.
pub const XML_NAMESPACE: &'static str = "http://www.w3.org/XML/1998/namespace";

/// The namespace of namespace declarations themselves.
pub const XMLNS_NAMESPACE: &'static str = "http://www.w3.org/2000/xmlns/";

pub proof fn lemma_lookup_push(s: Seq<(String, String)>, e: (String, String), k: Seq<char>)
    ensures
        lookup(s.push(e), k) == (if lookup(s, k) is Some {
            lookup(s, k)
        } else if e.0@ == k {
            Some(e.1)
        } else {
            None
        }),
    decreases s.len(),
{
    let t = s.push(e);
    if s.len() > 0 {
        assert(t[0] == s[0]);
        assert(t.drop_first() =~= s.drop_first().push(e));
        lemma_lookup_push(s.drop_first(), e, k);
        if s[0].0@ != k {
            assert(lookup(t, k) == lookup(t.drop_first(), k));
            assert(lookup(s, k) == lookup(s.drop_first(), k));
        }
    } else {
        assert(s.push(e)[0] == e);
        assert(s.push(e).drop_first() =~= Seq::<(String, String)>::empty());
    }
}

/// Inserts into a map of strings, stating the effect on its abstract map.
fn map_insert(m: &mut StrMap<String>, key: String, value: String)
    requires
        old(m).wf(),
    ensures
        final(m).wf(),
        text_map(*final(m)) == text_map(*old(m)).insert(key@, value@),
{
    let ghost k = key@;
    let ghost v = value@;
    m.insert(key, value);
    assert forall|q: Seq<char>| q != k implies #[trigger] lookup(m.entries@, q) == lookup(
        old(m).entries@,
        q,
    ) by {
        assert(m.get_spec(q) == old(m).get_spec(q));
    }
    assert(m.get_spec(k) == Some(lookup(m.entries@, k)->0));
    assert(text_map(*m) =~= text_map(*old(m)).insert(k, v));
}

/// Removes from a map of strings, stating the effect on its abstract map.
fn map_remove(m: &mut StrMap<String>, key: &str)
    requires
        old(m).wf(),
    ensures
        final(m).wf(),
        text_map(*final(m)) == text_map(*old(m)).remove(key@),
{
    m.remove(key);
    assert forall|q: Seq<char>| q != key@ implies #[trigger] lookup(m.entries@, q) == lookup(
        old(m).entries@,
        q,
    ) by {
        assert(m.get_spec(q) == old(m).get_spec(q));
    }
    assert(m.get_spec(key@) is None);
    assert(text_map(*m) =~= text_map(*old(m)).remove(key@));
}

/// Entries whose keys and values read the same.
pub open spec fn same_entries(a: Seq<(String, String)>, b: Seq<(String, String)>) -> bool {
    &&& a.len() == b.len()
    &&& forall|i: int| 0 <= i < a.len() ==> #[trigger] a[i].0@ == b[i].0@ && a[i].1@ == b[i].1@
}

proof fn lemma_same_entries_lookup(a: Seq<(String, String)>, b: Seq<(String, String)>, k: Seq<char>)
    requires
        same_entries(a, b),
    ensures
        opt_text(lookup(a, k)) == opt_text(lookup(b, k)),
    decreases a.len(),
{
    if a.len() > 0 {
        assert(a[0].0@ == b[0].0@);
        lemma_same_entries_lookup(a.drop_first(), b.drop_first(), k);
        assert forall|i: int| 0 <= i < a.drop_first().len() implies #[trigger] a.drop_first()[i].0@
            == b.drop_first()[i].0@ && a.drop_first()[i].1@ == b.drop_first()[i].1@ by {
            assert(a.drop_first()[i] == a[i + 1]);
            assert(b.drop_first()[i] == b[i + 1]);
        }
    }
}

/// A copy of a map of strings.
pub fn copy_text_map(m: &StrMap<String>) -> (r: StrMap<String>)
    ensures
        m.wf() ==> r.wf(),
        text_map(r) == text_map(*m),
{
    let mut entries: Vec<(String, String)> = Vec::new();
    let mut i: usize = 0;
    while i < m.entries.len()
        invariant
            i <= m.entries.len(),
            same_entries(entries@, m.entries@.subrange(0, i as int)),
        decreases m.entries.len() - i,
    {
        entries.push((m.entries[i].0.clone(), m.entries[i].1.clone()));
        i += 1;
    }
    assert(m.entries@.subrange(0, m.entries.len() as int) =~= m.entries@);
    let r = StrMap { entries };
    proof {
        assert forall|k: Seq<char>| #[trigger] text_map(r).contains_key(k) == text_map(
            *m,
        ).contains_key(k) && (text_map(r).contains_key(k) ==> text_map(r)[k] == text_map(*m)[k]) by {
            lemma_same_entries_lookup(r.entries@, m.entries@, k);
        }
        assert(text_map(r) =~= text_map(*m));
        if m.wf() {
            assert forall|x: int, y: int| 0 <= x < y < r.entries@.len() implies crate::strmap::text_lt(
                #[trigger] r.entries@[x].0@,
                #[trigger] r.entries@[y].0@,
            ) by {
                assert(m.entries@[x].0@ == r.entries@[x].0@);
                assert(m.entries@[y].0@ == r.entries@[y].0@);
            }
        }
    }
    r
}

fn copy_opt_text(o: &Option<String>) -> (r: Option<String>)
    ensures
        opt_text(r) == opt_text(*o),
{
    match o {
        Some(s) => Some(s.clone()),
        None => None,
    }
}

/// The abstract map of an entry sequence whose keys are distinct.
pub open spec fn text_map_of(s: Seq<(String, String)>) -> Map<Seq<char>, Seq<char>>
    decreases s.len(),
{
    if s.len() == 0 {
        Map::empty()
    } else {
        text_map_of(s.drop_last()).insert(s.last().0@, s.last().1@)
    }
}

proof fn lemma_text_map_of_push(s: Seq<(String, String)>, e: (String, String))
    ensures
        text_map_of(s.push(e)) == text_map_of(s).insert(e.0@, e.1@),
{
    assert(s.push(e).drop_last() =~= s);
}

/// The key at `i` of a sorted entry sequence occurs nowhere before it.
proof fn lemma_sorted_key_fresh(s: Seq<(String, String)>, i: int)
    requires
        sorted_keys(s),
        0 <= i < s.len(),
    ensures
        forall|j: int| 0 <= j < i ==> s[j].0@ != s[i].0@,
{
    assert forall|j: int| 0 <= j < i implies s[j].0@ != s[i].0@ by {
        assert(crate::strmap::text_lt(s[j].0@, s[i].0@));
        lemma_text_lt_irreflexive(s[i].0@);
    }
}

/// For sorted entries, the abstract map agrees with lookup.
proof fn lemma_text_map_of(s: Seq<(String, String)>)
    requires
        sorted_keys(s),
    ensures
        forall|k: Seq<char>| #[trigger] text_map_of(s).contains_key(k) == (lookup(s, k) is Some),
        forall|k: Seq<char>| lookup(s, k) is Some ==> #[trigger] text_map_of(s)[k] == lookup(
            s,
            k,
        )->0@,
    decreases s.len(),
{
    if s.len() > 0 {
        let t = s.drop_last();
        assert(sorted_keys(t)) by {
            assert forall|i: int, j: int| 0 <= i < j < t.len() implies crate::strmap::text_lt(
                #[trigger] t[i].0@,
                #[trigger] t[j].0@,
            ) by {
                assert(t[i] == s[i] && t[j] == s[j]);
            }
        }
        lemma_text_map_of(t);
        assert(s =~= t.push(s.last()));
        assert(text_map_of(s) == text_map_of(t).insert(s.last().0@, s.last().1@));
        assert forall|k: Seq<char>| #[trigger] text_map_of(s).contains_key(k) == (lookup(
            s,
            k,
        ) is Some) by {
            lemma_lookup_push(t, s.last(), k);
            assert(text_map_of(t).contains_key(k) == (lookup(t, k) is Some));
        }
        assert forall|k: Seq<char>| lookup(s, k) is Some implies #[trigger] text_map_of(s)[k]
            == lookup(s, k)->0@ by {
            lemma_lookup_push(t, s.last(), k);
            assert(text_map_of(t).contains_key(k) == (lookup(t, k) is Some));
            if lookup(t, k) is Some {
                assert(text_map_of(t)[k] == lookup(t, k)->0@);
            }
            if lookup(t, k) is Some && k == s.last().0@ {
                lemma_key_index(t, k);
                lemma_sorted_key_fresh(s, s.len() - 1);
                assert(t[key_index(t, k)] == s[key_index(t, k)]);
            }
        }
    }
}

/// The abstract map of a sorted string map equals that of its entries.
proof fn lemma_text_map_entries(m: StrMap<String>)
    requires
        m.wf(),
    ensures
        text_map(m) == text_map_of(m.entries@),
{
    lemma_text_map_of(m.entries@);
    assert(text_map(m) =~= text_map_of(m.entries@));
}

/// Whether `key` is `pre` followed by something.
pub open spec fn starts_with(key: Seq<char>, pre: Seq<char>) -> bool {
    key.len() >= pre.len() && key.subrange(0, pre.len() as int) == pre
}

/// The declaration, among an element's attributes, of the namespace bound to
/// `prefix`. The default namespace may be declared as `xmlns` or as `xmlns:`;
/// the latter sorts after the former and so is applied last.
pub open spec fn declared_namespace(attrs: Map<Seq<char>, Seq<char>>, prefix: Seq<char>) -> Option<
    Seq<char>,
> {
    if prefix.len() == 0 && attrs.contains_key("xmlns:"@) {
        Some(attrs["xmlns:"@])
    } else if prefix.len() == 0 && attrs.contains_key("xmlns"@) {
        Some(attrs["xmlns"@])
    } else if prefix.len() > 0 && attrs.contains_key("xmlns:"@ + prefix) {
        Some(attrs["xmlns:"@ + prefix])
    } else {
        None
    }
}

/// The namespaces in scope at an element: the parent's, updated by the
/// element's own declarations (an empty one removes the binding).
pub open spec fn scope_for(parent: Map<Seq<char>, Seq<char>>, attrs: Map<Seq<char>, Seq<char>>) -> Map<
    Seq<char>,
    Seq<char>,
> {
    Map::new(
        |p: Seq<char>|
            match declared_namespace(attrs, p) {
                Some(v) => v.len() > 0,
                None => parent.contains_key(p),
            },
        |p: Seq<char>|
            match declared_namespace(attrs, p) {
                Some(v) => v,
                None => parent[p],
            },
    )
}

/// The scope of a root element.
pub open spec fn initial_scope() -> Map<Seq<char>, Seq<char>> {
    map!["xml"@ => XML_NAMESPACE@]
}

fn apply_declaration(ns: &mut StrMap<String>, prefix: &[char], value: &String)
    requires
        old(ns).wf(),
    ensures
        final(ns).wf(),
        text_map(*final(ns)) == (if value@.len() == 0 {
            text_map(*old(ns)).remove(prefix@)
        } else {
            text_map(*old(ns)).insert(prefix@, value@)
        }),
{
    let p = string_of(prefix);
    if value.as_str().is_empty() {
        map_remove(ns, p.as_str());
    } else {
        map_insert(ns, p, value.clone());
    }
}

/// The namespaces in scope at an element with attributes `attrs` whose parent
/// has the scope `parent` (none for the root).
pub fn namespaces_for_element(parent: Option<&StrMap<String>>, attrs: &StrMap<String>) -> (r:
    StrMap<String>)
    requires
        parent matches Some(p) ==> p.wf(),
        attrs.wf(),
    ensures
        r.wf(),
        text_map(r) == scope_for(
            match parent {
                Some(p) => text_map(*p),
                None => initial_scope(),
            },
            text_map(*attrs),
        ),
{
    proof {
        reveal_strlit("xmlns");
        reveal_strlit("xmlns:");
        reveal_strlit("xml");
        reveal_strlit("http://www.w3.org/XML/1998/namespace");
    }
    let ghost base = match parent {
        Some(p) => text_map(*p),
        None => initial_scope(),
    };
    let ghost a = text_map(*attrs);
    let mut ns: StrMap<String> = match parent {
        Some(p) => copy_text_map(p),
        None => {
            let mut m = StrMap::new();
            map_insert(&mut m, "xml".to_string(), XML_NAMESPACE.to_string());
            assert(text_map(m) =~= initial_scope());
            m
        },
    };
    let empty: Vec<char> = Vec::new();
    // the default namespace: `xmlns:` sorts after `xmlns` and so wins
    let decl = match attrs.get("xmlns:") {
        Some(v) => Some(v),
        None => attrs.get("xmlns"),
    };
    match decl {
        Some(v) => apply_declaration(&mut ns, &empty, v),
        None => {},
    }
    let ghost after_default = text_map(ns);
    let ghost target = scope_for(base, a);
    proof {
        assert(a.contains_key("xmlns:"@) == (lookup(attrs.entries@, "xmlns:"@) is Some));
        assert(a.contains_key("xmlns"@) == (lookup(attrs.entries@, "xmlns"@) is Some));
        assert(empty@ =~= Seq::<char>::empty());
        assert forall|p: Seq<char>| p.len() == 0 implies (#[trigger] after_default.contains_key(p)
            == target.contains_key(p) && (target.contains_key(p) ==> after_default[p]
            == target[p])) by {
            assert(p =~= empty@);
        }
        assert forall|p: Seq<char>| p.len() > 0 implies (#[trigger] after_default.contains_key(p)
            == base.contains_key(p) && after_default[p] == base[p]) by {
            assert(p != empty@);
        }
    }
    let declare = chars_of("xmlns:");
    let mut i: usize = 0;
    while i < attrs.entries.len()
        invariant
            i <= attrs.entries.len(),
            ns.wf(),
            attrs.wf(),
            declare@ == "xmlns:"@,
            a == text_map(*attrs),
            forall|p: Seq<char>|
                p.len() == 0 ==> (#[trigger] text_map(ns).contains_key(p) == after_default.contains_key(p)
                    && text_map(ns)[p] == after_default[p]),
            forall|p: Seq<char>|
                p.len() > 0 ==> match lookup(
                    attrs.entries@.subrange(0, i as int),
                    "xmlns:"@ + p,
                ) {
                    Some(v) => if v@.len() == 0 {
                        !#[trigger] text_map(ns).contains_key(p)
                    } else {
                        text_map(ns).contains_key(p) && text_map(ns)[p] == v@
                    },
                    None => text_map(ns).contains_key(p) == after_default.contains_key(p)
                        && text_map(ns)[p] == after_default[p],
                },
        decreases attrs.entries.len() - i,
    {
        proof {
            reveal_strlit("xmlns:");
        }
        let key = chars_of(attrs.entries[i].0.as_str());
        let ghost before = text_map(ns);
        let ghost e = attrs.entries@[i as int];
        proof {
            let s = attrs.entries@.subrange(0, i as int + 1);
            assert(s =~= attrs.entries@.subrange(0, i as int).push(e));
            lemma_sorted_key_fresh(attrs.entries@, i as int);
        }
        if key.len() > 6 && seq_eq(&slice_chars(&key, 0, 6), &declare) {
            let prefix = slice_chars(&key, 6, key.len());
            apply_declaration(&mut ns, &prefix, &attrs.entries[i].1);
            proof {
                assert(key@ =~= "xmlns:"@ + prefix@);
                assert forall|p: Seq<char>| p.len() > 0 implies match lookup(
                    attrs.entries@.subrange(0, i as int + 1),
                    "xmlns:"@ + p,
                ) {
                    Some(v) => if v@.len() == 0 {
                        !#[trigger] text_map(ns).contains_key(p)
                    } else {
                        text_map(ns).contains_key(p) && text_map(ns)[p] == v@
                    },
                    None => text_map(ns).contains_key(p) == after_default.contains_key(p)
                        && text_map(ns)[p] == after_default[p],
                } by {
                    lemma_lookup_push(attrs.entries@.subrange(0, i as int), e, "xmlns:"@ + p);
                    if p != prefix@ {
                        assert(("xmlns:"@ + p).subrange(6, ("xmlns:"@ + p).len() as int) =~= p);
                        assert(key@.subrange(6, key@.len() as int) =~= prefix@);
                    } else {
                        if lookup(attrs.entries@.subrange(0, i as int), "xmlns:"@ + p) is Some {
                            let t = attrs.entries@.subrange(0, i as int);
                            lemma_key_index(t, "xmlns:"@ + p);
                            assert(t[key_index(t, "xmlns:"@ + p)] == attrs.entries@[key_index(
                                t,
                                "xmlns:"@ + p,
                            )]);
                        }
                    }
                }
            }
        } else {
            proof {
                assert forall|p: Seq<char>| p.len() > 0 implies lookup(
                    attrs.entries@.subrange(0, i as int + 1),
                    "xmlns:"@ + p,
                ) == lookup(attrs.entries@.subrange(0, i as int), "xmlns:"@ + p) by {
                    lemma_lookup_push(attrs.entries@.subrange(0, i as int), e, "xmlns:"@ + p);
                    if e.0@ == "xmlns:"@ + p {
                        assert(key@.subrange(0, 6) =~= "xmlns:"@);
                    }
                }
            }
        }
        i += 1;
    }
    proof {
        reveal_strlit("xmlns");
        reveal_strlit("xmlns:");
        assert(attrs.entries@.subrange(0, attrs.entries.len() as int) =~= attrs.entries@);
        assert forall|p: Seq<char>| p.len() > 0 implies #[trigger] text_map(ns).contains_key(p)
            == target.contains_key(p) && (target.contains_key(p) ==> text_map(ns)[p] == target[p]) by {
            assert(after_default.contains_key(p) == base.contains_key(p));
            assert(a.contains_key("xmlns:"@ + p) == (lookup(attrs.entries@, "xmlns:"@ + p) is Some));
            if lookup(attrs.entries@, "xmlns:"@ + p) is Some {
                assert(a["xmlns:"@ + p] == lookup(attrs.entries@, "xmlns:"@ + p)->0@);
            }
        }
        assert forall|p: Seq<char>| p.len() == 0 implies #[trigger] text_map(ns).contains_key(p)
            == target.contains_key(p) && (target.contains_key(p) ==> text_map(ns)[p] == target[p]) by {
            assert(after_default.contains_key(p) == target.contains_key(p));
        }
        assert(text_map(ns) =~= target);
    }
    ns
}


/// The namespace a qualified name resolves to in `scope`. Declarations are in
/// the xmlns namespace; an unprefixed element takes the default namespace, an
/// unprefixed attribute none.
pub open spec fn name_namespace(name: Seq<char>, scope: Map<Seq<char>, Seq<char>>, attribute: bool) -> Option<
    Seq<char>,
> {
    if name == "xmlns"@ || starts_with(name, "xmlns:"@) {
        Some(XMLNS_NAMESPACE@)
    } else if last_colon(name) >= 0 {
        let prefix = name.subrange(0, last_colon(name));
        if scope.contains_key(prefix) {
            Some(scope[prefix])
        } else {
            None
        }
    } else if !attribute && scope.contains_key(Seq::empty()) {
        Some(scope[Seq::empty()])
    } else {
        None
    }
}

/// The namespace of each attribute name that resolves to one.
pub open spec fn attr_ns_map(attrs: Map<Seq<char>, Seq<char>>, scope: Map<Seq<char>, Seq<char>>) -> Map<
    Seq<char>,
    Seq<char>,
> {
    Map::new(
        |k: Seq<char>| attrs.contains_key(k) && name_namespace(k, scope, true) is Some,
        |k: Seq<char>| name_namespace(k, scope, true)->0,
    )
}

/// A fresh element with no children and no text.
pub open spec fn element_view(
    name: Seq<char>,
    attrs: Map<Seq<char>, Seq<char>>,
    scope: Map<Seq<char>, Seq<char>>,
) -> NodeView {
    NodeView {
        name,
        attrs,
        children: Seq::empty(),
        text: Seq::empty(),
        namespace_uri: name_namespace(name, scope, false),
        attr_namespace_uris: attr_ns_map(attrs, scope),
        in_scope_namespaces: scope,
    }
}

fn namespace_for_name(name: &str, scope: &StrMap<String>, attribute: bool) -> (r: Option<String>)
    ensures
        opt_text(r) == name_namespace(name@, text_map(*scope), attribute),
{
    proof {
        reveal_strlit("xmlns");
        reveal_strlit("xmlns:");
    }
    let v = chars_of(name);
    let declare = chars_of("xmlns:");
    if str_eq(name, "xmlns") || (v.len() >= 6 && seq_eq(&slice_chars(&v, 0, 6), &declare)) {
        let r = Some(XMLNS_NAMESPACE.to_string());
        assert(name@ == "xmlns"@ || starts_with(name@, "xmlns:"@));
        assert(opt_text(r) == Some(XMLNS_NAMESPACE@));
        return r;
    }
    assert(!(name@ == "xmlns"@ || starts_with(name@, "xmlns:"@)));
    let mut i: usize = v.len();
    while i > 0 && v[i - 1] != ':'
        invariant
            i <= v.len(),
            forall|k: int| i <= k < v.len() ==> v@[k] != ':',
        decreases i,
    {
        i -= 1;
    }
    proof {
        lemma_last_colon(v@, i as int);
    }
    if i > 0 {
        let prefix = string_of(&slice_chars(&v, 0, i - 1));
        match scope.get(prefix.as_str()) {
            Some(u) => Some(u.clone()),
            None => None,
        }
    } else if !attribute {
        proof {
            reveal_strlit("");
            assert(""@ =~= Seq::<char>::empty());
        }
        match scope.get("") {
            Some(u) => {
                proof {
                    reveal_strlit("");
                }
                Some(u.clone())
            },
            None => {
                proof {
                    reveal_strlit("");
                }
                None
            },
        }
    } else {
        None
    }
}

/// A fresh element named `name` with the attributes `attrs`, standing where
/// the namespaces `scope` are in scope.
pub fn make_node(name: String, attrs: StrMap<String>, scope: &StrMap<String>) -> (r: Node)
    requires
        scope.wf(),
    ensures
        r@ == element_view(name@, text_map(attrs), text_map(*scope)),
        r.in_scope_namespaces.wf(),
        r.attrs == attrs,
        r.children@.len() == 0,
{
    let namespace_uri = namespace_for_name(name.as_str(), scope, false);
    let mut uris: StrMap<String> = StrMap::new();
    let mut i: usize = 0;
    while i < attrs.entries.len()
        invariant
            i <= attrs.entries.len(),
            uris.wf(),
            forall|k: Seq<char>|
                #[trigger] text_map(uris).contains_key(k) == (lookup(
                    attrs.entries@.subrange(0, i as int),
                    k,
                ) is Some && name_namespace(k, text_map(*scope), true) is Some),
            forall|k: Seq<char>|
                #[trigger] text_map(uris).contains_key(k) ==> text_map(uris)[k] == name_namespace(
                    k,
                    text_map(*scope),
                    true,
                )->0,
        decreases attrs.entries.len() - i,
    {
        let ghost e = attrs.entries@[i as int];
        proof {
            assert(attrs.entries@.subrange(0, i as int + 1) =~= attrs.entries@.subrange(
                0,
                i as int,
            ).push(e));
        }
        match namespace_for_name(attrs.entries[i].0.as_str(), scope, true) {
            Some(u) => {
                map_insert(&mut uris, attrs.entries[i].0.clone(), u);
            },
            None => {},
        }
        proof {
            assert forall|k: Seq<char>| #[trigger] text_map(uris).contains_key(k) == (lookup(
                attrs.entries@.subrange(0, i as int + 1),
                k,
            ) is Some && name_namespace(k, text_map(*scope), true) is Some) by {
                lemma_lookup_push(attrs.entries@.subrange(0, i as int), e, k);
            }
        }
        i += 1;
    }
    proof {
        assert(attrs.entries@.subrange(0, attrs.entries.len() as int) =~= attrs.entries@);
        assert(text_map(uris) =~= attr_ns_map(text_map(attrs), text_map(*scope)));
    }
    let in_scope = copy_text_map(scope);
    let r = Node {
        name,
        attrs,
        children: Vec::new(),
        text: String::new(),
        namespace_uri,
        attr_namespace_uris: uris,
        in_scope_namespaces: in_scope,
    };
    proof {
        assert(r.children@ =~= Seq::<Node>::empty());
        assert(nodes_view(r.children@) =~= Seq::<NodeView>::empty());
        assert(node_view(r) =~= element_view(r.name@, text_map(r.attrs), text_map(*scope)));
    }
    r
}

/// Text with the five predefined entity references replaced, `&amp;` last.
pub open spec fn decoded_entities(s: Seq<char>) -> Seq<char> {
    replaced(
        replaced(
            replaced(replaced(replaced(s, "&lt;"@, "<"@), "&gt;"@, ">"@), "&quot;"@, "\""@),
            "&apos;"@,
            "'"@,
        ),
        "&amp;"@,
        "&"@,
    )
}

pub fn decode_predefined_entities(value: &str) -> (r: String)
    ensures
        r@ == decoded_entities(value@),
{
    proof {
        reveal_strlit("&lt;");
        reveal_strlit("&gt;");
        reveal_strlit("&quot;");
        reveal_strlit("&apos;");
        reveal_strlit("&amp;");
    }
    let v = chars_of(value);
    let a = replace_all(&v, &chars_of("&lt;"), &chars_of("<"));
    let b = replace_all(&a, &chars_of("&gt;"), &chars_of(">"));
    let c = replace_all(&b, &chars_of("&quot;"), &chars_of("\""));
    let d = replace_all(&c, &chars_of("&apos;"), &chars_of("'"));
    let e = replace_all(&d, &chars_of("&amp;"), &chars_of("&"));
    string_of(&e)
}

/// Whether `n` is a Unicode scalar value.
pub open spec fn is_scalar(n: nat) -> bool {
    n <= 0x10FFFF && !(0xD800 <= n <= 0xDFFF)
}

/// A reference left as it was written.
pub open spec fn literal_reference(name: Seq<char>) -> Seq<char> {
    "&"@ + name + ";"@
}

pub open spec fn scalar_text(v: Option<nat>, name: Seq<char>) -> Seq<char> {
    match v {
        Some(n) => if n <= u32::MAX && is_scalar(n) {
            seq![n as char]
        } else {
            literal_reference(name)
        },
        None => literal_reference(name),
    }
}

/// The text a general reference `&name;` stands for: the predefined entities,
/// hexadecimal and decimal character references, and otherwise the reference
/// itself, since no entity definitions are read.
pub open spec fn reference_text(name: Seq<char>) -> Seq<char> {
    if name == "lt"@ {
        "<"@
    } else if name == "gt"@ {
        ">"@
    } else if name == "quot"@ {
        "\""@
    } else if name == "apos"@ {
        "'"@
    } else if name == "amp"@ {
        "&"@
    } else if starts_with(name, "#x"@) {
        scalar_text(parse_unsigned(name.subrange(2, name.len() as int), 16), name)
    } else if starts_with(name, "#"@) {
        scalar_text(parse_unsigned(name.subrange(1, name.len() as int), 10), name)
    } else {
        literal_reference(name)
    }
}

/// The character of each of XML's five predefined entities.
pub open spec fn predefined_entity(name: Seq<char>) -> Option<char> {
    if name == seq!['l', 't'] {
        Some('<')
    } else if name == seq!['g', 't'] {
        Some('>')
    } else if name == seq!['q', 'u', 'o', 't'] {
        Some('"')
    } else if name == seq!['a', 'p', 'o', 's'] {
        Some('\'')
    } else if name == seq!['a', 'm', 'p'] {
        Some('&')
    } else {
        None
    }
}

/// Each of XML's five predefined entity references decodes to its character
/// (`lt` to `<`, `gt` to `>`, `quot` to `"`, `apos` to `'`, `amp` to `&`),
/// and so is never kept as the reference it was written as.
pub proof fn predefined_references_decode(name: Seq<char>)
    requires
        predefined_entity(name) is Some,
    ensures
        reference_text(name) == seq![predefined_entity(name)->0],
        reference_text(name) != literal_reference(name),
{
    reveal_strlit("lt");
    reveal_strlit("gt");
    reveal_strlit("quot");
    reveal_strlit("apos");
    reveal_strlit("amp");
    reveal_strlit("<");
    reveal_strlit(">");
    reveal_strlit("\"");
    reveal_strlit("'");
    reveal_strlit("&");
    reveal_strlit(";");
    assert("lt"@ =~= seq!['l', 't']);
    assert("gt"@ =~= seq!['g', 't']);
    assert("quot"@ =~= seq!['q', 'u', 'o', 't']);
    assert("apos"@ =~= seq!['a', 'p', 'o', 's']);
    assert("amp"@ =~= seq!['a', 'm', 'p']);
    assert("<"@ =~= seq!['<']);
    assert(">"@ =~= seq!['>']);
    assert("\""@ =~= seq!['"']);
    assert("'"@ =~= seq!['\'']);
    assert("&"@ =~= seq!['&']);
    assert(literal_reference(name).len() == name.len() + 2);
}

/// Whether `e` is the written form of one of the five predefined entity
/// references.
pub open spec fn is_entity_text(e: Seq<char>) -> bool {
    e == seq!['&', 'l', 't', ';'] || e == seq!['&', 'g', 't', ';'] || e == seq![
        '&',
        'q',
        'u',
        'o',
        't',
        ';',
    ] || e == seq!['&', 'a', 'p', 'o', 's', ';'] || e == seq!['&', 'a', 'm', 'p', ';']
}

proof fn lemma_replaced_none(s: Seq<char>, pat: Seq<char>, rep: Seq<char>)
    requires
        pat.len() > 0,
        forall|i: int| !#[trigger] occurs_at(s, i, pat),
    ensures
        replaced(s, pat, rep) == s,
    decreases s.len(),
{
    if s.len() > 0 {
        assert(!occurs_at(s, 0, pat));
        let t = s.drop_first();
        assert forall|i: int| !#[trigger] occurs_at(t, i, pat) by {
            if occurs_at(t, i, pat) {
                assert(s.subrange(i + 1, i + 1 + pat.len()) =~= t.subrange(i, i + pat.len()));
                assert(occurs_at(s, i + 1, pat));
            }
        }
        lemma_replaced_none(t, pat, rep);
        assert(seq![s[0]] + t =~= s);
    }
}

proof fn lemma_entity_pass(s: Seq<char>, p: Seq<char>, rep: Seq<char>)
    requires
        is_entity_text(s) || s.len() == 1,
        is_entity_text(p),
    ensures
        replaced(s, p, rep) == (if s == p {
            rep
        } else {
            s
        }),
{
    if s == p {
        assert(occurs_at(s, 0, p)) by {
            assert(s.subrange(0, p.len() as int) =~= p);
        }
        let rest = s.subrange(p.len() as int, s.len() as int);
        assert(rest.len() == 0);
        assert(replaced(rest, p, rep) == rest);
        assert(rep + rest =~= rep);
    } else {
        assert forall|i: int| !#[trigger] occurs_at(s, i, p) by {
            if occurs_at(s, i, p) {
                let sub = s.subrange(i, i + p.len());
                assert(sub[0] == s[i] && sub[0] == p[0]);
                assert(i == 0);
                assert(sub[1] == s[1] && sub[1] == p[1]);
                assert(sub[2] == s[2] && sub[2] == p[2]);
                assert(sub.len() == p.len());
                assert(s =~= p);
            }
        }
        lemma_replaced_none(s, p, rep);
    }
}

/// In text, the written form of each of XML's five predefined entity
/// references decodes to its character (`&lt;` to `<`, `&gt;` to `>`,
/// `&quot;` to `"`, `&apos;` to `'`, `&amp;` to `&`).
pub proof fn predefined_entities_decode_in_text(name: Seq<char>)
    requires
        predefined_entity(name) is Some,
    ensures
        decoded_entities(literal_reference(name)) == seq![predefined_entity(name)->0],
{
    reveal_strlit("&lt;");
    reveal_strlit("&gt;");
    reveal_strlit("&quot;");
    reveal_strlit("&apos;");
    reveal_strlit("&amp;");
    reveal_strlit("<");
    reveal_strlit(">");
    reveal_strlit("\"");
    reveal_strlit("'");
    reveal_strlit("&");
    reveal_strlit(";");
    let p1 = seq!['&', 'l', 't', ';'];
    let p2 = seq!['&', 'g', 't', ';'];
    let p3 = seq!['&', 'q', 'u', 'o', 't', ';'];
    let p4 = seq!['&', 'a', 'p', 'o', 's', ';'];
    let p5 = seq!['&', 'a', 'm', 'p', ';'];
    assert("&lt;"@ =~= p1);
    assert("&gt;"@ =~= p2);
    assert("&quot;"@ =~= p3);
    assert("&apos;"@ =~= p4);
    assert("&amp;"@ =~= p5);
    assert("<"@ =~= seq!['<']);
    assert(">"@ =~= seq!['>']);
    assert("\""@ =~= seq!['"']);
    assert("'"@ =~= seq!['\'']);
    assert("&"@ =~= seq!['&']);
    let e = literal_reference(name);
    assert(e =~= seq!['&'] + name + seq![';']);
    if name == seq!['l', 't'] {
        assert(e =~= p1);
    } else if name == seq!['g', 't'] {
        assert(e =~= p2);
    } else if name == seq!['q', 'u', 'o', 't'] {
        assert(e =~= p3);
    } else if name == seq!['a', 'p', 'o', 's'] {
        assert(e =~= p4);
    } else {
        assert(e =~= p5);
    }
    let s1 = replaced(e, p1, seq!['<']);
    lemma_entity_pass(e, p1, seq!['<']);
    let s2 = replaced(s1, p2, seq!['>']);
    lemma_entity_pass(s1, p2, seq!['>']);
    let s3 = replaced(s2, p3, seq!['"']);
    lemma_entity_pass(s2, p3, seq!['"']);
    let s4 = replaced(s3, p4, seq!['\'']);
    lemma_entity_pass(s3, p4, seq!['\'']);
    lemma_entity_pass(s4, p5, seq!['&']);
}

fn literal_reference_string(v: &Vec<char>) -> (r: String)
    ensures
        r@ == literal_reference(v@),
{
    let mut out: Vec<char> = Vec::new();
    out.push('&');
    crate::text::push_chars(&mut out, v);
    out.push(';');
    proof {
        reveal_strlit("&");
        reveal_strlit(";");
        assert(out@ =~= literal_reference(v@));
    }
    string_of(&out)
}

fn scalar_string(digits: &Vec<char>, radix: u32, v: &Vec<char>) -> (r: String)
    requires
        radix == 10 || radix == 16,
    ensures
        r@ == scalar_text(parse_unsigned(digits@, radix as nat), v@),
{
    match parse_unsigned_bounded(digits, radix, u32::MAX as u64) {
        Some(n) => match char::from_u32(n as u32) {
            Some(c) => {
                let mut out: Vec<char> = Vec::new();
                out.push(c);
                proof {
                    assert((n as u32) as nat == n as nat);
                    assert(out@ =~= seq![(n as nat) as char]);
                }
                string_of(&out)
            },
            None => literal_reference_string(v),
        },
        None => literal_reference_string(v),
    }
}

/// The text of a general reference.
pub fn decode_reference(name: &str) -> (r: String)
    ensures
        r@ == reference_text(name@),
{
    proof {
        reveal_strlit("lt");
        reveal_strlit("gt");
        reveal_strlit("quot");
        reveal_strlit("apos");
        reveal_strlit("amp");
        reveal_strlit("<");
        reveal_strlit(">");
        reveal_strlit("\"");
        reveal_strlit("'");
        reveal_strlit("&");
        reveal_strlit("#x");
        reveal_strlit("#");
    }
    if str_eq(name, "lt") {
        "<".to_string()
    } else if str_eq(name, "gt") {
        ">".to_string()
    } else if str_eq(name, "quot") {
        "\"".to_string()
    } else if str_eq(name, "apos") {
        "'".to_string()
    } else if str_eq(name, "amp") {
        "&".to_string()
    } else {
        let v = chars_of(name);
        if v.len() >= 2 && v[0] == '#' && v[1] == 'x' {
            assert(v@.subrange(0, 2) =~= "#x"@);
            let digits = slice_chars(&v, 2, v.len());
            scalar_string(&digits, 16, &v)
        } else if v.len() >= 1 && v[0] == '#' {
            assert(v@.subrange(0, 1) =~= "#"@);
            assert(!(v@.len() >= 2 && v@.subrange(0, 2) == "#x"@)) by {
                if v@.len() >= 2 && v@.subrange(0, 2) == "#x"@ {
                    assert(v@.subrange(0, 2)[1] == 'x');
                }
            }
            let digits = slice_chars(&v, 1, v.len());
            scalar_string(&digits, 10, &v)
        } else {
            assert(!starts_with(v@, "#x"@)) by {
                if v@.len() >= 2 && v@.subrange(0, 2) == "#x"@ {
                    assert(v@.subrange(0, 2)[0] == '#');
                }
            }
            assert(!starts_with(v@, "#"@)) by {
                if v@.len() >= 1 && v@.subrange(0, 1) == "#"@ {
                    assert(v@.subrange(0, 1)[0] == '#');
                }
            }
            literal_reference_string(&v)
        }
    }
}


/// The deepest element nesting that a document may have.
pub const MAX_XML_DEPTH: usize = 256;

/// The most elements that a document may have. The element tree is many
/// times larger than its source, so this bounds the memory that a document
/// can claim independently of its size in bytes.
pub const MAX_XML_NODES: usize = 5_000_000;

/// Why the attributes of an element could not be read.
pub enum AttributeFailure {
    /// The attribute list is malformed (a duplicate name, a missing quote).
    Syntax(String),
    /// A value could not be normalized (an unknown entity).
    Value(String),
}

/// One event of an XML document as the reader reports it.
pub enum XmlEvent {
    /// A start tag: the qualified name and the attributes in document order.
    Start(String, Result<Vec<(String, String)>, AttributeFailure>),
    /// A self-closing tag.
    Empty(String, Result<Vec<(String, String)>, AttributeFailure>),
    /// An end tag (the reader has checked that it matches).
    End,
    /// Character data as written, entity references still escaped.
    Text(String),
    /// The content of a CDATA section.
    CData(String),
    /// A general reference `&name;`, by its name.
    Reference(String),
    /// A declaration, processing instruction, comment or document type.
    Ignored,
    /// The end of the input.
    Eof,
    /// The reader's description of malformed input.
    Malformed(String),
}

/// The state of a tree under construction: the open elements, the namespaces
/// in scope at each, the finished root and the number of elements seen.
pub struct BuildModel {
    pub stack: Seq<NodeView>,
    pub scopes: Seq<Map<Seq<char>, Seq<char>>>,
    pub root: Option<NodeView>,
    pub count: nat,
}

/// The effect of one event: a new state, or the end of the parse.
pub enum BuildStep {
    Continue(BuildModel),
    Finish(Result<NodeView, Seq<char>>),
}

pub open spec fn initial_model() -> BuildModel {
    BuildModel { stack: Seq::empty(), scopes: Seq::empty(), root: None, count: 0 }
}

/// A parse failure of the part `part`.
pub open spec fn failure_text(part: Seq<char>, message: Seq<char>) -> Seq<char> {
    part + ": "@ + message
}

pub open spec fn failure(part: Seq<char>, message: Seq<char>) -> BuildStep {
    BuildStep::Finish(Err(failure_text(part, message)))
}

pub open spec fn with_child(p: NodeView, c: NodeView) -> NodeView {
    NodeView { children: p.children.push(c), ..p }
}

pub open spec fn with_text(p: NodeView, t: Seq<char>) -> NodeView {
    NodeView { text: p.text + t, ..p }
}

/// A finished element becomes the last child of the innermost open element,
/// or the root; a second root is an error.
pub open spec fn attach_model(m: BuildModel, n: NodeView, part: Seq<char>) -> BuildStep {
    if m.stack.len() > 0 {
        BuildStep::Continue(
            BuildModel { stack: m.stack.drop_last().push(with_child(m.stack.last(), n)), ..m },
        )
    } else if m.root is Some {
        failure(part, "XML document has multiple root elements"@)
    } else {
        BuildStep::Continue(BuildModel { root: Some(n), ..m })
    }
}

/// Character data goes to the innermost open element; outside the root it is
/// dropped.
pub open spec fn text_model(m: BuildModel, t: Seq<char>) -> BuildModel {
    if m.stack.len() > 0 {
        BuildModel { stack: m.stack.drop_last().push(with_text(m.stack.last(), t)), ..m }
    } else {
        m
    }
}

pub open spec fn parent_scope(m: BuildModel) -> Map<Seq<char>, Seq<char>> {
    if m.scopes.len() > 0 {
        m.scopes.last()
    } else {
        initial_scope()
    }
}

pub open spec fn attribute_failure_text(f: AttributeFailure) -> Seq<char> {
    match f {
        AttributeFailure::Syntax(e) => "invalid XML attribute: "@ + e@,
        AttributeFailure::Value(e) => "invalid XML attribute value: "@ + e@,
    }
}

/// The result at the end of the input.
pub open spec fn end_result(m: BuildModel, part: Seq<char>) -> Result<NodeView, Seq<char>> {
    if m.stack.len() > 0 {
        Err(failure_text(part, "unclosed XML element"@))
    } else {
        match m.root {
            Some(r) => Ok(r),
            None => Err(failure_text(part, "XML document has no root element"@)),
        }
    }
}

/// The effect of one event on the tree under construction, with at most
/// `max` elements allowed.
pub open spec fn build_step(m: BuildModel, ev: XmlEvent, part: Seq<char>, max: nat) -> BuildStep {
    match ev {
        XmlEvent::Start(name, attrs) => if m.stack.len() >= MAX_XML_DEPTH {
            failure(part, "XML nesting depth limit exceeded"@)
        } else if m.count + 1 > max {
            failure(part, "XML element count limit exceeded"@)
        } else {
            match attrs {
                Err(f) => failure(part, attribute_failure_text(f)),
                Ok(pairs) => {
                    let a = text_map_of(pairs@);
                    let scope = scope_for(parent_scope(m), a);
                    BuildStep::Continue(
                        BuildModel {
                            stack: m.stack.push(element_view(name@, a, scope)),
                            scopes: m.scopes.push(scope),
                            root: m.root,
                            count: m.count + 1,
                        },
                    )
                },
            }
        },
        XmlEvent::Empty(name, attrs) => if m.count + 1 > max {
            failure(part, "XML element count limit exceeded"@)
        } else {
            match attrs {
                Err(f) => failure(part, attribute_failure_text(f)),
                Ok(pairs) => {
                    let a = text_map_of(pairs@);
                    let scope = scope_for(parent_scope(m), a);
                    attach_model(
                        BuildModel { count: m.count + 1, ..m },
                        element_view(name@, a, scope),
                        part,
                    )
                },
            }
        },
        XmlEvent::End => if m.stack.len() == 0 {
            failure(part, "unexpected XML end tag"@)
        } else {
            attach_model(
                BuildModel {
                    stack: m.stack.drop_last(),
                    scopes: if m.scopes.len() > 0 {
                        m.scopes.drop_last()
                    } else {
                        m.scopes
                    },
                    ..m
                },
                m.stack.last(),
                part,
            )
        },
        XmlEvent::Text(t) => BuildStep::Continue(text_model(m, decoded_entities(t@))),
        XmlEvent::CData(t) => BuildStep::Continue(text_model(m, t@)),
        XmlEvent::Reference(r) => BuildStep::Continue(text_model(m, reference_text(r@))),
        XmlEvent::Ignored => BuildStep::Continue(m),
        XmlEvent::Eof => BuildStep::Finish(end_result(m, part)),
        XmlEvent::Malformed(e) => failure(part, "malformed XML: "@ + e@),
    }
}


/// A malformed attribute list, as values.
pub enum AttrFailureView {
    Syntax(Seq<char>),
    Value(Seq<char>),
}

/// An event of the reader, as values.
pub enum XmlEventView {
    Start(Seq<char>, Result<Seq<(Seq<char>, Seq<char>)>, AttrFailureView>),
    Empty(Seq<char>, Result<Seq<(Seq<char>, Seq<char>)>, AttrFailureView>),
    End,
    Text(Seq<char>),
    CData(Seq<char>),
    Reference(Seq<char>),
    Ignored,
    Eof,
    Malformed(Seq<char>),
}

pub open spec fn pair_views(s: Seq<(String, String)>) -> Seq<(Seq<char>, Seq<char>)> {
    s.map_values(|p: (String, String)| (p.0@, p.1@))
}

pub open spec fn attrs_view(a: Result<Vec<(String, String)>, AttributeFailure>) -> Result<
    Seq<(Seq<char>, Seq<char>)>,
    AttrFailureView,
> {
    match a {
        Ok(v) => Ok(pair_views(v@)),
        Err(AttributeFailure::Syntax(e)) => Err(AttrFailureView::Syntax(e@)),
        Err(AttributeFailure::Value(e)) => Err(AttrFailureView::Value(e@)),
    }
}

pub open spec fn xml_event_view(e: XmlEvent) -> XmlEventView {
    match e {
        XmlEvent::Start(n, a) => XmlEventView::Start(n@, attrs_view(a)),
        XmlEvent::Empty(n, a) => XmlEventView::Empty(n@, attrs_view(a)),
        XmlEvent::End => XmlEventView::End,
        XmlEvent::Text(t) => XmlEventView::Text(t@),
        XmlEvent::CData(t) => XmlEventView::CData(t@),
        XmlEvent::Reference(t) => XmlEventView::Reference(t@),
        XmlEvent::Ignored => XmlEventView::Ignored,
        XmlEvent::Eof => XmlEventView::Eof,
        XmlEvent::Malformed(m) => XmlEventView::Malformed(m@),
    }
}

/// The map of attribute names to values that a list of pairs gives, a
/// later pair replacing an earlier one.
pub open spec fn map_of_pairs(s: Seq<(Seq<char>, Seq<char>)>) -> Map<Seq<char>, Seq<char>>
    decreases s.len(),
{
    if s.len() == 0 {
        Map::empty()
    } else {
        map_of_pairs(s.drop_last()).insert(s.last().0, s.last().1)
    }
}

proof fn lemma_map_of_pairs(s: Seq<(String, String)>)
    ensures
        text_map_of(s) == map_of_pairs(pair_views(s)),
    decreases s.len(),
{
    if s.len() > 0 {
        lemma_map_of_pairs(s.drop_last());
        assert(pair_views(s).drop_last() =~= pair_views(s.drop_last()));
    }
}

pub open spec fn attr_failure_view_text(f: AttrFailureView) -> Seq<char> {
    match f {
        AttrFailureView::Syntax(e) => "invalid XML attribute: "@ + e,
        AttrFailureView::Value(e) => "invalid XML attribute value: "@ + e,
    }
}

/// The effect of one event, given as values, on the tree under
/// construction (see `build_step`).
pub open spec fn build_step_view(m: BuildModel, ev: XmlEventView, part: Seq<char>, max: nat) -> BuildStep {
    match ev {
        XmlEventView::Start(name, attrs) => if m.stack.len() >= MAX_XML_DEPTH {
            failure(part, "XML nesting depth limit exceeded"@)
        } else if m.count + 1 > max {
            failure(part, "XML element count limit exceeded"@)
        } else {
            match attrs {
                Err(f) => failure(part, attr_failure_view_text(f)),
                Ok(pairs) => {
                    let a = map_of_pairs(pairs);
                    let scope = scope_for(parent_scope(m), a);
                    BuildStep::Continue(
                        BuildModel {
                            stack: m.stack.push(element_view(name, a, scope)),
                            scopes: m.scopes.push(scope),
                            root: m.root,
                            count: m.count + 1,
                        },
                    )
                },
            }
        },
        XmlEventView::Empty(name, attrs) => if m.count + 1 > max {
            failure(part, "XML element count limit exceeded"@)
        } else {
            match attrs {
                Err(f) => failure(part, attr_failure_view_text(f)),
                Ok(pairs) => {
                    let a = map_of_pairs(pairs);
                    let scope = scope_for(parent_scope(m), a);
                    attach_model(BuildModel { count: m.count + 1, ..m }, element_view(name, a, scope), part)
                },
            }
        },
        XmlEventView::End => build_step(m, XmlEvent::End, part, max),
        XmlEventView::Text(t) => BuildStep::Continue(text_model(m, decoded_entities(t))),
        XmlEventView::CData(t) => BuildStep::Continue(text_model(m, t)),
        XmlEventView::Reference(r) => BuildStep::Continue(text_model(m, reference_text(r))),
        XmlEventView::Ignored => BuildStep::Continue(m),
        XmlEventView::Eof => BuildStep::Finish(end_result(m, part)),
        XmlEventView::Malformed(e) => failure(part, "malformed XML: "@ + e),
    }
}

/// Reading a predefined entity reference inside an element adds that
/// entity's character to the element's text, never the reference itself.
pub proof fn predefined_reference_adds_its_character(
    m: BuildModel,
    name: Seq<char>,
    part: Seq<char>,
    max: nat,
)
    requires
        predefined_entity(name) is Some,
        m.stack.len() > 0,
    ensures
        build_step_view(m, XmlEventView::Reference(name), part, max) is Continue,
        build_step_view(m, XmlEventView::Reference(name), part, max)->Continue_0.stack == m.stack.drop_last().push(
            with_text(m.stack.last(), seq![predefined_entity(name)->0]),
        ),
        build_step_view(m, XmlEventView::Reference(name), part, max)->Continue_0.scopes == m.scopes,
        build_step_view(m, XmlEventView::Reference(name), part, max)->Continue_0.root == m.root,
        build_step_view(m, XmlEventView::Reference(name), part, max)->Continue_0.count == m.count,
{
    predefined_references_decode(name);
}

proof fn lemma_build_step_view(m: BuildModel, ev: XmlEvent, part: Seq<char>, max: nat)
    ensures
        build_step(m, ev, part, max) == build_step_view(m, xml_event_view(ev), part, max),
{
    match ev {
        XmlEvent::Start(_, Ok(pairs)) => {
            lemma_map_of_pairs(pairs@);
        },
        XmlEvent::Empty(_, Ok(pairs)) => {
            lemma_map_of_pairs(pairs@);
        },
        _ => {},
    }
}

/// The result of a sequence of events given as values (see `build_run`).
pub open spec fn build_run_views(m: BuildModel, evs: Seq<XmlEventView>, part: Seq<char>, max: nat) -> Result<
    NodeView,
    Seq<char>,
>
    decreases evs.len(),
{
    if evs.len() == 0 {
        end_result(m, part)
    } else {
        match build_step_view(m, evs[0], part, max) {
            BuildStep::Continue(next) => build_run_views(next, evs.drop_first(), part, max),
            BuildStep::Finish(r) => r,
        }
    }
}

proof fn lemma_build_run_views_step(m: BuildModel, ev: XmlEventView, rest: Seq<XmlEventView>, part: Seq<char>, max: nat)
    ensures
        build_run_views(m, seq![ev] + rest, part, max) == match build_step_view(m, ev, part, max) {
            BuildStep::Continue(next) => build_run_views(next, rest, part, max),
            BuildStep::Finish(r) => r,
        },
{
    assert((seq![ev] + rest).drop_first() =~= rest);
    assert((seq![ev] + rest)[0] == ev);
}

/// The result of a whole event sequence; input that stops without an end
/// event ends there.
pub open spec fn build_run(m: BuildModel, evs: Seq<XmlEvent>, part: Seq<char>, max: nat) -> Result<
    NodeView,
    Seq<char>,
>
    decreases evs.len(),
{
    if evs.len() == 0 {
        end_result(m, part)
    } else {
        match build_step(m, evs[0], part, max) {
            BuildStep::Continue(next) => build_run(next, evs.drop_first(), part, max),
            BuildStep::Finish(r) => r,
        }
    }
}

/// The parse outcome that a result stands for.
pub open spec fn outcome(r: Result<Node, ExtractError>) -> Result<NodeView, Seq<char>> {
    match r {
        Ok(n) => Ok(n@),
        Err(ExtractError::ParseFailure(m)) => Err(m@),
        Err(_) => Err(Seq::empty()),
    }
}


fn parse_error(part: &str, message: &str) -> (e: ExtractError)
    ensures
        e == ExtractError::ParseFailure(e->ParseFailure_0),
        e->ParseFailure_0@ == failure_text(part@, message@),
{
    let mut out: Vec<char> = Vec::new();
    push_str(&mut out, part);
    push_str(&mut out, ": ");
    push_str(&mut out, message);
    proof {
        assert(out@ =~= failure_text(part@, message@));
    }
    ExtractError::ParseFailure(string_of(&out))
}

fn parse_error_detail(part: &str, message: &str, detail: &str) -> (e: ExtractError)
    ensures
        e == ExtractError::ParseFailure(e->ParseFailure_0),
        e->ParseFailure_0@ == failure_text(part@, message@ + detail@),
{
    let mut out: Vec<char> = Vec::new();
    push_str(&mut out, part);
    push_str(&mut out, ": ");
    push_str(&mut out, message);
    push_str(&mut out, detail);
    proof {
        assert(out@ =~= failure_text(part@, message@ + detail@));
    }
    ExtractError::ParseFailure(string_of(&out))
}

fn attribute_error(part: &str, f: &AttributeFailure) -> (e: ExtractError)
    ensures
        e == ExtractError::ParseFailure(e->ParseFailure_0),
        e->ParseFailure_0@ == failure_text(part@, attribute_failure_text(*f)),
{
    match f {
        AttributeFailure::Syntax(d) => parse_error_detail(part, "invalid XML attribute: ", d.as_str()),
        AttributeFailure::Value(d) => parse_error_detail(
            part,
            "invalid XML attribute value: ",
            d.as_str(),
        ),
    }
}

/// The attributes of one element as a map; a repeated name keeps its last
/// value.
fn attribute_map(pairs: &Vec<(String, String)>) -> (r: StrMap<String>)
    ensures
        r.wf(),
        text_map(r) == text_map_of(pairs@),
{
    let mut m: StrMap<String> = StrMap::new();
    let mut i: usize = 0;
    assert(text_map(m) =~= text_map_of(pairs@.subrange(0, 0)));
    while i < pairs.len()
        invariant
            i <= pairs.len(),
            m.wf(),
            text_map(m) == text_map_of(pairs@.subrange(0, i as int)),
        decreases pairs.len() - i,
    {
        map_insert(&mut m, pairs[i].0.clone(), pairs[i].1.clone());
        proof {
            let p = pairs@.subrange(0, i as int + 1);
            assert(p.drop_last() =~= pairs@.subrange(0, i as int));
        }
        i += 1;
    }
    assert(pairs@.subrange(0, pairs.len() as int) =~= pairs@);
    m
}

pub proof fn lemma_nodes_view_push(s: Seq<Node>, n: Node)
    ensures
        nodes_view(s.push(n)) == nodes_view(s).push(node_view(n)),
{
    assert(s.push(n).subrange(0, s.len() as int) =~= s);
}

pub proof fn lemma_nodes_view_pop(s: Seq<Node>)
    requires
        s.len() > 0,
    ensures
        nodes_view(s.drop_last()) == nodes_view(s).drop_last(),
        nodes_view(s).last() == node_view(s.last()),
{
    assert(s.drop_last() =~= s.subrange(0, s.len() - 1));
    lemma_nodes_view(s);
    lemma_nodes_view(s.drop_last());
    assert(nodes_view(s.drop_last()) =~= nodes_view(s).drop_last());
}

/// Every element of the tree `n` keeps its attributes sorted by name.
pub open spec fn sorted_tree(n: Node) -> bool
    decreases n,
{
    &&& n.attrs.wf()
    &&& forall|i: int| 0 <= i < n.children@.len() ==> sorted_tree(#[trigger] n.children@[i])
}

/// A tree under construction.
pub struct TreeBuilder {
    pub stack: Vec<Node>,
    pub scopes: Vec<StrMap<String>>,
    pub root: Option<Node>,
    pub count: usize,
}

impl TreeBuilder {
    pub open spec fn wf(&self) -> bool {
        &&& self.stack.len() == self.scopes.len()
        &&& forall|i: int| 0 <= i < self.scopes.len() ==> #[trigger] self.scopes@[i].wf()
        &&& forall|i: int| 0 <= i < self.stack.len() ==> sorted_tree(#[trigger] self.stack@[i])
        &&& (self.root matches Some(n) ==> sorted_tree(n))
    }

    pub open spec fn model(&self) -> BuildModel {
        BuildModel {
            stack: nodes_view(self.stack@),
            scopes: self.scopes@.map_values(|m: StrMap<String>| text_map(m)),
            root: match self.root {
                Some(n) => Some(n@),
                None => None,
            },
            count: self.count as nat,
        }
    }

    pub fn new() -> (b: TreeBuilder)
        ensures
            b.wf(),
            b.model() == initial_model(),
    {
        let b = TreeBuilder { stack: Vec::new(), scopes: Vec::new(), root: None, count: 0 };
        assert(b.model().stack =~= Seq::<NodeView>::empty());
        assert(b.model().scopes =~= Seq::<Map<Seq<char>, Seq<char>>>::empty());
        b
    }

    /// Appends character data to the innermost open element.
    fn add_text(&mut self, t: &str)
        requires
            old(self).wf(),
        ensures
            final(self).wf(),
            final(self).model() == text_model(old(self).model(), t@),
    {
        let ghost m = self.model();
        if self.stack.len() > 0 {
            let mut node = self.stack.pop().unwrap();
            let ghost nv = node;
            proof {
                lemma_nodes_view_pop(old(self).stack@);
                assert(self.stack@ =~= old(self).stack@.drop_last());
            }
            node.text.append(t);
            proof {
                assert(node.children == nv.children);
                assert(node.attrs == nv.attrs);
                assert(sorted_tree(nv));
                assert(sorted_tree(node));
                assert(node_view(node) =~= with_text(node_view(nv), t@));
            }
            let ghost mid = self.stack@;
            self.stack.push(node);
            proof {
                lemma_nodes_view_push(mid, node);
                assert(self.model().stack =~= m.stack.drop_last().push(with_text(m.stack.last(), t@)));
                assert(self.model().scopes =~= m.scopes);
                assert forall|i: int| 0 <= i < self.stack.len() implies sorted_tree(#[trigger] self.stack@[i]) by {
                    if i < mid.len() {
                        assert(self.stack@[i] == old(self).stack@[i]);
                    }
                }
            }
        }
    }

    /// Opens an element, or (for a self-closing tag) adds it at once.
    fn open_element(
        &mut self,
        name: &String,
        pairs: &Vec<(String, String)>,
        self_closing: bool,
        part: &str,
    ) -> (r: Option<ExtractError>)
        requires
            old(self).wf(),
            old(self).count < usize::MAX,
        ensures
            final(self).wf(),
            ({
                let m = old(self).model();
                let a = text_map_of(pairs@);
                let scope = scope_for(parent_scope(m), a);
                let n = element_view(name@, a, scope);
                if self_closing {
                    match attach_model(BuildModel { count: m.count + 1, ..m }, n, part@) {
                        BuildStep::Continue(m2) => r is None && final(self).model() == m2,
                        BuildStep::Finish(res) => r matches Some(e) && outcome(Err(e)) == res
                            && e is ParseFailure,
                    }
                } else {
                    r is None && final(self).model() == BuildModel {
                        stack: m.stack.push(n),
                        scopes: m.scopes.push(scope),
                        root: m.root,
                        count: m.count + 1,
                    }
                }
            }),
    {
        let ghost m = self.model();
        let a = attribute_map(pairs);
        let scope = if self.scopes.len() > 0 {
            let last = self.scopes.len() - 1;
            proof {
                assert(self.scopes@[last as int].wf());
                assert(m.scopes.last() == text_map(self.scopes@[last as int]));
            }
            namespaces_for_element(Some(&self.scopes[last]), &a)
        } else {
            namespaces_for_element(None, &a)
        };
        let node = make_node(name.clone(), a, &scope);
        proof {
            assert(sorted_tree(node));
        }
        self.count = self.count + 1;
        if self_closing {
            proof {
                assert(self.model().stack =~= m.stack);
                assert(self.model().scopes =~= m.scopes);
            }
            self.attach(node, part)
        } else {
            let ghost s0 = self.stack@;
            let ghost c0 = self.scopes@;
            self.stack.push(node);
            self.scopes.push(scope);
            proof {
                lemma_nodes_view_push(s0, node);
                assert(self.model().scopes =~= m.scopes.push(text_map(scope)));
                assert forall|i: int| 0 <= i < self.scopes.len() implies #[trigger] self.scopes@[i].wf() by {
                    if i < c0.len() {
                        assert(self.scopes@[i] == c0[i]);
                    }
                }
                assert(sorted_tree(node));
                assert forall|i: int| 0 <= i < self.stack.len() implies sorted_tree(#[trigger] self.stack@[i]) by {
                    if i < s0.len() {
                        assert(self.stack@[i] == s0[i]);
                    }
                }
            }
            None
        }
    }

    /// Applies one event: `None` while the parse goes on, else its result.
    pub fn step(&mut self, ev: &XmlEvent, part: &str, max_nodes: usize) -> (r: Option<
        Result<Node, ExtractError>,
    >)
        requires
            old(self).wf(),
        ensures
            final(self).wf(),
            match build_step(old(self).model(), *ev, part@, max_nodes as nat) {
                BuildStep::Continue(m) => r is None && final(self).model() == m,
                BuildStep::Finish(res) => r matches Some(x) && outcome(x) == res && (x matches Err(
                    e,
                ) ==> e is ParseFailure),
            },
            r matches Some(Ok(n)) ==> sorted_tree(n),
    {
        let ghost m = self.model();
        proof {
            lemma_nodes_view(self.stack@);
        }
        match ev {
            XmlEvent::Start(name, attrs) => {
                if self.stack.len() >= MAX_XML_DEPTH {
                    return Some(Err(parse_error(part, "XML nesting depth limit exceeded")));
                }
                if self.count >= max_nodes {
                    return Some(Err(parse_error(part, "XML element count limit exceeded")));
                }
                match attrs {
                    Err(f) => Some(Err(attribute_error(part, f))),
                    Ok(pairs) => {
                        self.open_element(name, pairs, false, part);
                        None
                    },
                }
            },
            XmlEvent::Empty(name, attrs) => {
                if self.count >= max_nodes {
                    return Some(Err(parse_error(part, "XML element count limit exceeded")));
                }
                match attrs {
                    Err(f) => Some(Err(attribute_error(part, f))),
                    Ok(pairs) => match self.open_element(name, pairs, true, part) {
                        Some(e) => Some(Err(e)),
                        None => None,
                    },
                }
            },
            XmlEvent::End => {
                if self.stack.len() == 0 {
                    return Some(Err(parse_error(part, "unexpected XML end tag")));
                }
                let node = self.stack.pop().unwrap();
                self.scopes.pop();
                proof {
                    lemma_nodes_view_pop(old(self).stack@);
                    assert(self.model().stack =~= m.stack.drop_last());
                    assert(self.model().scopes =~= m.scopes.drop_last());
                    assert forall|i: int| 0 <= i < self.scopes.len() implies #[trigger] self.scopes@[i].wf() by {
                        assert(self.scopes@[i] == old(self).scopes@[i]);
                    }
                    assert(sorted_tree(old(self).stack@[self.stack.len() as int]));
                    assert forall|i: int| 0 <= i < self.stack.len() implies sorted_tree(#[trigger] self.stack@[i]) by {
                        assert(self.stack@[i] == old(self).stack@[i]);
                    }
                }
                match self.attach(node, part) {
                    Some(e) => Some(Err(e)),
                    None => None,
                }
            },
            XmlEvent::Text(t) => {
                let decoded = decode_predefined_entities(t.as_str());
                self.add_text(decoded.as_str());
                None
            },
            XmlEvent::CData(t) => {
                self.add_text(t.as_str());
                None
            },
            XmlEvent::Reference(name) => {
                let text = decode_reference(name.as_str());
                self.add_text(text.as_str());
                None
            },
            XmlEvent::Ignored => None,
            XmlEvent::Eof => Some(self.finish(part)),
            XmlEvent::Malformed(e) => Some(Err(parse_error_detail(part, "malformed XML: ", e.as_str()))),
        }
    }

    /// The result when the input ends.
    pub fn finish(&mut self, part: &str) -> (r: Result<Node, ExtractError>)
        requires
            old(self).wf(),
        ensures
            final(self).wf(),
            outcome(r) == end_result(old(self).model(), part@),
            r matches Err(e) ==> e is ParseFailure,
            r matches Ok(n) ==> sorted_tree(n),
    {
        if self.stack.len() > 0 {
            return Err(parse_error(part, "unclosed XML element"));
        }
        match self.root.take() {
            Some(n) => Ok(n),
            None => Err(parse_error(part, "XML document has no root element")),
        }
    }

    /// Adds a finished element to the innermost open one, or makes it the root.
    fn attach(&mut self, node: Node, part: &str) -> (r: Option<ExtractError>)
        requires
            old(self).wf(),
            sorted_tree(node),
        ensures
            final(self).wf(),
            match attach_model(old(self).model(), node@, part@) {
                BuildStep::Continue(m) => r is None && final(self).model() == m,
                BuildStep::Finish(res) => r matches Some(e) && outcome(Err(e)) == res
                    && e is ParseFailure,
            },
    {
        let ghost m = self.model();
        let ghost nv = node@;
        if self.stack.len() > 0 {
            let mut parent = self.stack.pop().unwrap();
            let ghost pv = parent;
            proof {
                lemma_nodes_view_pop(old(self).stack@);
                assert(self.stack@ =~= old(self).stack@.drop_last());
            }
            parent.children.push(node);
            proof {
                lemma_nodes_view_push(pv.children@, node);
                assert(parent.children@ =~= pv.children@.push(node));
                assert(node_view(parent) =~= with_child(node_view(pv), nv));
                assert(sorted_tree(pv));
                assert forall|i: int| 0 <= i < parent.children@.len() implies sorted_tree(
                    #[trigger] parent.children@[i],
                ) by {
                    if i < pv.children@.len() {
                        assert(parent.children@[i] == pv.children@[i]);
                    }
                }
                assert(sorted_tree(parent));
            }
            let ghost mid = self.stack@;
            self.stack.push(parent);
            proof {
                lemma_nodes_view_push(mid, parent);
                assert(self.model().stack =~= m.stack.drop_last().push(with_child(m.stack.last(), nv)));
                assert(self.model().scopes =~= m.scopes);
                assert forall|i: int| 0 <= i < self.stack.len() implies sorted_tree(#[trigger] self.stack@[i]) by {
                    if i < mid.len() {
                        assert(self.stack@[i] == old(self).stack@[i]);
                    }
                }
            }
            None
        } else if self.root.is_some() {
            Some(parse_error(part, "XML document has multiple root elements"))
        } else {
            self.root = Some(node);
            proof {
                assert(self.model().stack =~= m.stack);
                assert(self.model().scopes =~= m.scopes);
            }
            None
        }
    }
}

/// Builds the element tree of an event sequence, with at most `max_nodes`
/// elements.
pub fn build_tree(events: &Vec<XmlEvent>, part: &str, max_nodes: usize) -> (r: Result<
    Node,
    ExtractError,
>)
    ensures
        outcome(r) == build_run(initial_model(), events@, part@, max_nodes as nat),
        r matches Err(e) ==> e is ParseFailure,
        r matches Ok(n) ==> sorted_tree(n),
{
    let mut b = TreeBuilder::new();
    let mut i: usize = 0;
    assert(events@.subrange(0, events.len() as int) =~= events@);
    while i < events.len()
        invariant
            i <= events.len(),
            b.wf(),
            build_run(initial_model(), events@, part@, max_nodes as nat) == build_run(
                b.model(),
                events@.subrange(i as int, events.len() as int),
                part@,
                max_nodes as nat,
            ),
        decreases events.len() - i,
    {
        let ghost rest = events@.subrange(i as int, events.len() as int);
        proof {
            assert(rest.drop_first() =~= events@.subrange(i + 1, events.len() as int));
            assert(rest[0] == events@[i as int]);
        }
        match b.step(&events[i], part, max_nodes) {
            Some(r) => {
                return r;
            },
            None => {},
        }
        i += 1;
    }
    b.finish(part)
}


#[verifier::external_type_specification]
#[verifier::external_body]
#[verifier::reject_recursive_types(R)]
pub struct ExReader<R>(Reader<R>);

#[verifier::external_type_specification]
#[verifier::external_body]
pub struct ExBytesStart<'a>(BytesStart<'a>);

#[verifier::external_type_specification]
#[verifier::external_body]
pub struct ExAttributes<'a>(Attributes<'a>);

#[verifier::external_type_specification]
#[verifier::external_body]
pub struct ExAttribute<'a>(Attribute<'a>);

#[verifier::external_type_specification]
#[verifier::external_body]
pub struct ExAttrError(AttrError);

/// An event as the reader hands it over, tags not yet taken apart.
pub enum RawEvent<'a> {
    Start(BytesStart<'a>),
    Empty(BytesStart<'a>),
    End,
    Text(String),
    CData(String),
    Reference(String),
    Ignored,
    Eof,
    Failed(String),
}

/// The bytes of the document that a reader reads.
pub uninterp spec fn reader_source(r: Reader<&[u8]>) -> Seq<u8>;

/// How many events a reader has handed out.
pub uninterp spec fn reader_index(r: Reader<&[u8]>) -> nat;

/// The document and the index of the event that a tag was read as.
pub uninterp spec fn start_origin(s: BytesStart<'_>) -> (Seq<u8>, nat);

/// The document, the event index of the tag and the number of attributes
/// already read, of the attribute list of a tag being read.
pub uninterp spec fn attributes_origin(a: Attributes<'_>) -> (Seq<u8>, nat, nat);

/// The document, the event index of the tag and the position in its
/// attribute list, of an attribute.
pub uninterp spec fn attribute_origin(a: Attribute<'_>) -> (Seq<u8>, nat, nat);

/// What `Reader::read_event` hands out as event `index` (counting from 0)
/// of a reader opened on `bytes` by `open_reader`: its kind (0 a start tag,
/// 1 a self-closing tag, 2 an end tag, 3 text, 4 CDATA, 5 a general
/// reference, 6 anything else, 7 the end of the input, 8 an error) and its
/// character data, reference name or error text.
pub uninterp spec fn xml_event(bytes: Seq<u8>, index: nat) -> (nat, Seq<char>);

/// What `BytesStart::name` gives for the tag read as event `index` of
/// `bytes`.
pub uninterp spec fn xml_tag_name(bytes: Seq<u8>, index: nat) -> Seq<char>;

/// What `Attributes::next`, with duplicate checks, gives as attribute
/// `position` of the tag read as event `index` of `bytes`: none at the end
/// of the list, an attribute, or the text of the error.
pub uninterp spec fn xml_attribute_next(bytes: Seq<u8>, index: nat, position: nat) -> Option<
    Result<(), Seq<char>>,
>;

/// The qualified name (`Attribute::key`) of that attribute.
pub uninterp spec fn xml_attribute_key(bytes: Seq<u8>, index: nat, position: nat) -> Seq<char>;

/// What `Attribute::normalized_value` gives for that attribute: the value,
/// or the text of the error.
pub uninterp spec fn xml_attribute_value(bytes: Seq<u8>, index: nat, position: nat) -> Result<
    Seq<char>,
    Seq<char>,
>;

/// `r` is event `k` of the document `b`, of kind `kind` with the text
/// `text` (see `xml_event`), as the reader hands it over.
pub open spec fn raw_event_is(r: RawEvent<'_>, b: Seq<u8>, k: nat, kind: nat, text: Seq<char>) -> bool {
    match r {
        RawEvent::Start(s) => kind == 0 && start_origin(s) == (b, k),
        RawEvent::Empty(s) => kind == 1 && start_origin(s) == (b, k),
        RawEvent::End => kind == 2,
        RawEvent::Text(t) => kind == 3 && t@ == text,
        RawEvent::CData(t) => kind == 4 && t@ == text,
        RawEvent::Reference(t) => kind == 5 && t@ == text,
        RawEvent::Ignored => kind == 6,
        RawEvent::Eof => kind == 7,
        RawEvent::Failed(m) => kind == 8 && m@ == text,
    }
}

/// `Reader::from_reader` over the bytes of a document, configured to check
/// that each end tag matches its start tag and to keep whitespace.
#[verifier::external_body]
fn open_reader<'a>(bytes: &'a [u8]) -> (r: Reader<&'a [u8]>)
    ensures
        reader_source(r) == bytes@,
        reader_index(r) == 0,
{
    let mut reader = Reader::from_reader(bytes);
    reader.config_mut().check_end_names = true;
    reader.config_mut().trim_text(false);
    reader
}

/// `Reader::read_event`: the next event, character data as written.
#[verifier::external_body]
fn read_event<'a>(reader: &mut Reader<&'a [u8]>) -> (r: RawEvent<'a>)
    ensures
        reader_source(*final(reader)) == reader_source(*old(reader)),
        reader_index(*final(reader)) == reader_index(*old(reader)) + 1,
        ({
            let (kind, text) = xml_event(reader_source(*old(reader)), reader_index(*old(reader)));
            raw_event_is(r, reader_source(*old(reader)), reader_index(*old(reader)), kind, text)
        }),
{
    match reader.read_event() {
        Ok(Event::Start(e)) => RawEvent::Start(e),
        Ok(Event::Empty(e)) => RawEvent::Empty(e),
        Ok(Event::End(_)) => RawEvent::End,
        Ok(Event::Text(t)) => RawEvent::Text(String::from(&*t)),
        Ok(Event::CData(t)) => RawEvent::CData(String::from(&*t)),
        Ok(Event::GeneralRef(r)) => RawEvent::Reference(String::from(&*r)),
        Ok(Event::Eof) => RawEvent::Eof,
        Ok(_) => RawEvent::Ignored,
        Err(e) => RawEvent::Failed(e.to_string()),
    }
}

/// `BytesStart::name`: the qualified name of a tag.
#[verifier::external_body]
fn tag_name(start: &BytesStart<'_>) -> (r: String)
    ensures
        r@ == xml_tag_name(start_origin(*start).0, start_origin(*start).1),
{
    String::from(start.name().as_ref())
}

/// `BytesStart::attributes`, with a repeated attribute name reported as an
/// error.
#[verifier::external_body]
fn tag_attributes<'b>(start: &'b BytesStart<'_>) -> (r: Attributes<'b>)
    ensures
        attributes_origin(r) == (start_origin(*start).0, start_origin(*start).1, 0nat),
{
    let mut attrs = start.attributes();
    attrs.with_checks(true);
    attrs
}

/// `Attributes::next`: the next attribute, or the description of a malformed
/// one.
#[verifier::external_body]
fn next_attribute<'a>(attrs: &mut Attributes<'a>) -> (r: Option<Result<Attribute<'a>, String>>)
    ensures
        ({
            let (b, k, j) = attributes_origin(*old(attrs));
            &&& attributes_origin(*final(attrs)) == (b, k, j + 1)
            &&& match xml_attribute_next(b, k, j) {
                None => r is None,
                Some(Err(m)) => r matches Some(Err(e)) && e@ == m,
                Some(Ok(_)) => r matches Some(Ok(a)) && attribute_origin(a) == (b, k, j),
            }
        }),
{
    match attrs.next() {
        Some(Ok(a)) => Some(Ok(a)),
        Some(Err(e)) => Some(Err(e.to_string())),
        None => None,
    }
}

/// The `key` of an attribute: its qualified name.
#[verifier::external_body]
fn attribute_name(a: &Attribute<'_>) -> (r: String)
    ensures
        r@ == xml_attribute_key(attribute_origin(*a).0, attribute_origin(*a).1, attribute_origin(*a).2),
{
    String::from(a.key.as_ref())
}

/// `Attribute::normalized_value` for XML 1.0: references resolved and
/// whitespace characters made spaces, or the description of the failure.
#[verifier::external_body]
fn attribute_value(a: &Attribute<'_>) -> (r: Result<String, String>)
    ensures
        match xml_attribute_value(attribute_origin(*a).0, attribute_origin(*a).1, attribute_origin(*a).2) {
            Ok(v) => r matches Ok(s) && s@ == v,
            Err(m) => r matches Err(e) && e@ == m,
        },
{
    match a.normalized_value(XmlVersion::Implicit1_0) {
        Ok(v) => Ok(v.into_owned()),
        Err(e) => Err(e.to_string()),
    }
}

/// The attributes of the tag read as event `k` of `b` from position `j` on,
/// reading at most `fuel` of them.
pub open spec fn attributes_from(b: Seq<u8>, k: nat, j: nat, fuel: nat) -> Result<
    Seq<(Seq<char>, Seq<char>)>,
    AttrFailureView,
>
    decreases fuel,
{
    if fuel == 0 {
        Ok(Seq::empty())
    } else {
        match xml_attribute_next(b, k, j) {
            None => Ok(Seq::empty()),
            Some(Err(m)) => Err(AttrFailureView::Syntax(m)),
            Some(Ok(_)) => match xml_attribute_value(b, k, j) {
                Err(m) => Err(AttrFailureView::Value(m)),
                Ok(v) => match attributes_from(b, k, j + 1, (fuel - 1) as nat) {
                    Ok(rest) => Ok(seq![(xml_attribute_key(b, k, j), v)] + rest),
                    Err(f) => Err(f),
                },
            },
        }
    }
}

pub open spec fn after_pairs(
    done: Seq<(Seq<char>, Seq<char>)>,
    rest: Result<Seq<(Seq<char>, Seq<char>)>, AttrFailureView>,
) -> Result<Seq<(Seq<char>, Seq<char>)>, AttrFailureView> {
    match rest {
        Ok(r) => Ok(done + r),
        Err(f) => Err(f),
    }
}

/// The attributes of a tag in document order. Each attribute takes at least
/// one byte of the document, so `limit` reads (one more than its length)
/// always reach the end of the list.
fn read_attributes(start: &BytesStart<'_>, limit: usize) -> (r: Result<
    Vec<(String, String)>,
    AttributeFailure,
>)
    ensures
        attrs_view(r) == attributes_from(start_origin(*start).0, start_origin(*start).1, 0, limit as nat),
{
    let ghost b = start_origin(*start).0;
    let ghost k = start_origin(*start).1;
    let mut attrs = tag_attributes(start);
    let mut out: Vec<(String, String)> = Vec::new();
    let mut fuel = limit;
    proof {
        assert(pair_views(out@) =~= Seq::<(Seq<char>, Seq<char>)>::empty());
        assert(Seq::<(Seq<char>, Seq<char>)>::empty() + Seq::<(Seq<char>, Seq<char>)>::empty() =~= Seq::<(Seq<char>, Seq<char>)>::empty());
    }
    while fuel > 0
        invariant
            b == start_origin(*start).0,
            k == start_origin(*start).1,
            attributes_origin(attrs).0 == b,
            attributes_origin(attrs).1 == k,
            attributes_origin(attrs).2 + fuel == limit,
            attributes_from(b, k, 0, limit as nat) == after_pairs(
                pair_views(out@),
                attributes_from(b, k, attributes_origin(attrs).2, fuel as nat),
            ),
        decreases fuel,
    {
        let ghost j = attributes_origin(attrs).2;
        let ghost before = out@;
        let ghost f0 = fuel as nat;
        fuel -= 1;
        match next_attribute(&mut attrs) {
            None => {
                proof {
                    assert(attributes_from(b, k, j, f0) == Ok::<Seq<(Seq<char>, Seq<char>)>, AttrFailureView>(
                        Seq::empty(),
                    ));
                    assert(pair_views(out@) + Seq::<(Seq<char>, Seq<char>)>::empty() =~= pair_views(out@));
                }
                return Ok(out);
            },
            Some(Err(e)) => {
                proof {
                    assert(attributes_from(b, k, j, f0) == Err::<Seq<(Seq<char>, Seq<char>)>, AttrFailureView>(
                        AttrFailureView::Syntax(e@),
                    ));
                }
                return Err(AttributeFailure::Syntax(e));
            },
            Some(Ok(a)) => {
                let name = attribute_name(&a);
                match attribute_value(&a) {
                    Ok(value) => {
                        out.push((name, value));
                        proof {
                            assert(pair_views(out@) =~= pair_views(before).push((name@, value@)));
                            let rest = attributes_from(b, k, j + 1, fuel as nat);
                            match rest {
                                Ok(r) => {
                                    assert(pair_views(before) + (seq![(name@, value@)] + r) =~= pair_views(out@) + r);
                                },
                                Err(_) => {},
                            }
                        }
                    },
                    Err(e) => {
                        return Err(AttributeFailure::Value(e));
                    },
                }
            },
        }
    }
    proof {
        assert(pair_views(out@) + Seq::<(Seq<char>, Seq<char>)>::empty() =~= pair_views(out@));
    }
    Ok(out)
}

/// Event `k` of the document `b` as the tree builder takes it, each tag's
/// attribute list read with at most `limit` reads.
pub open spec fn event_at(b: Seq<u8>, k: nat, limit: nat) -> XmlEventView {
    let (kind, text) = xml_event(b, k);
    if kind == 0 {
        XmlEventView::Start(xml_tag_name(b, k), attributes_from(b, k, 0, limit))
    } else if kind == 1 {
        XmlEventView::Empty(xml_tag_name(b, k), attributes_from(b, k, 0, limit))
    } else if kind == 2 {
        XmlEventView::End
    } else if kind == 3 {
        XmlEventView::Text(text)
    } else if kind == 4 {
        XmlEventView::CData(text)
    } else if kind == 5 {
        XmlEventView::Reference(text)
    } else if kind == 6 {
        XmlEventView::Ignored
    } else if kind == 7 {
        XmlEventView::Eof
    } else {
        XmlEventView::Malformed(text)
    }
}

/// How many events of a document of `bytes` are read: one more than its
/// length, since every event but the last takes at least one byte.
pub open spec fn event_limit(bytes: Seq<u8>) -> nat {
    if bytes.len() < usize::MAX {
        bytes.len() + 1
    } else {
        bytes.len()
    }
}

/// The events of the document `bytes`, as values.
pub open spec fn document_events(bytes: Seq<u8>) -> Seq<XmlEventView> {
    Seq::new(event_limit(bytes), |k: int| event_at(bytes, k as nat, event_limit(bytes)))
}

/// What a document of `bytes`, of the part `part`, parses to with at most
/// `max` elements: the element tree, or the text of the parse failure.
pub open spec fn parse_outcome(bytes: Seq<u8>, part: Seq<char>, max: nat) -> Result<NodeView, Seq<char>> {
    build_run_views(initial_model(), document_events(bytes), part, max)
}

/// The next event of a document as the tree builder takes it.
fn next_event(reader: &mut Reader<&[u8]>, limit: usize) -> (r: XmlEvent)
    ensures
        reader_source(*final(reader)) == reader_source(*old(reader)),
        reader_index(*final(reader)) == reader_index(*old(reader)) + 1,
        xml_event_view(r) == event_at(reader_source(*old(reader)), reader_index(*old(reader)), limit as nat),
{
    match read_event(reader) {
        RawEvent::Start(e) => XmlEvent::Start(tag_name(&e), read_attributes(&e, limit)),
        RawEvent::Empty(e) => XmlEvent::Empty(tag_name(&e), read_attributes(&e, limit)),
        RawEvent::End => XmlEvent::End,
        RawEvent::Text(t) => XmlEvent::Text(t),
        RawEvent::CData(t) => XmlEvent::CData(t),
        RawEvent::Reference(r) => XmlEvent::Reference(r),
        RawEvent::Ignored => XmlEvent::Ignored,
        RawEvent::Eof => XmlEvent::Eof,
        RawEvent::Failed(m) => XmlEvent::Malformed(m),
    }
}

/// Parses a document of the part `part` into its element tree, with at most
/// `max_nodes` elements: what the tree builder makes of the events that the
/// reader hands out for `bytes` (see `parse_outcome`).
pub fn parse_with_limits(bytes: &[u8], part: &str, max_nodes: usize) -> (r: Result<
    Node,
    ExtractError,
>)
    ensures
        outcome(r) == parse_outcome(bytes@, part@, max_nodes as nat),
        r matches Err(e) ==> e is ParseFailure,
        r matches Ok(n) ==> sorted_tree(n),
{
    let mut reader = open_reader(bytes);
    // every event but the last takes at least one byte of the document
    let limit: usize = if bytes.len() < usize::MAX {
        bytes.len() + 1
    } else {
        bytes.len()
    };
    let ghost d = document_events(bytes@);
    let mut b = TreeBuilder::new();
    let mut fuel = limit;
    proof {
        assert forall|future: Seq<XmlEventView>|
            build_run_views(initial_model(), d.subrange(0, 0) + future, part@, max_nodes as nat)
                == #[trigger] build_run_views(b.model(), future, part@, max_nodes as nat) by {
            assert(d.subrange(0, 0) + future =~= future);
        }
    }
    while fuel > 0
        invariant
            b.wf(),
            reader_source(reader) == bytes@,
            reader_index(reader) + fuel == limit,
            limit == event_limit(bytes@),
            d == document_events(bytes@),
            forall|future: Seq<XmlEventView>|
                build_run_views(initial_model(), d.subrange(0, reader_index(reader) as int) + future, part@, max_nodes as nat)
                    == #[trigger] build_run_views(b.model(), future, part@, max_nodes as nat),
        decreases fuel,
    {
        let ghost idx = reader_index(reader);
        fuel -= 1;
        let ev = next_event(&mut reader, limit);
        let ghost m = b.model();
        let ghost v = xml_event_view(ev);
        proof {
            assert(v == d[idx as int]);
            lemma_build_step_view(m, ev, part@, max_nodes as nat);
        }
        let step = b.step(&ev, part, max_nodes);
        match step {
            Some(r) => {
                proof {
                    let rest = d.subrange(idx as int + 1, d.len() as int);
                    lemma_build_run_views_step(m, v, rest, part@, max_nodes as nat);
                    assert(d.subrange(0, idx as int) + (seq![v] + rest) =~= d);
                    assert(d.subrange(0, d.len() as int) =~= d);
                }
                return r;
            },
            None => {
                proof {
                    assert forall|future: Seq<XmlEventView>|
                        build_run_views(initial_model(), d.subrange(0, idx as int + 1) + future, part@, max_nodes as nat)
                            == #[trigger] build_run_views(b.model(), future, part@, max_nodes as nat) by {
                        lemma_build_run_views_step(m, v, future, part@, max_nodes as nat);
                        assert(d.subrange(0, idx as int + 1) + future =~= d.subrange(0, idx as int) + (seq![v] + future));
                    }
                }
            },
        }
    }
    let ghost m_end = b.model();
    proof {
        assert(d.len() == limit);
        assert(d.subrange(0, d.len() as int) + Seq::<XmlEventView>::empty() =~= d);
        assert(build_run_views(initial_model(), d.subrange(0, reader_index(reader) as int) + Seq::<XmlEventView>::empty(), part@, max_nodes as nat)
            == build_run_views(m_end, Seq::<XmlEventView>::empty(), part@, max_nodes as nat));
    }
    b.finish(part)
}

/// `r` is what a document of `bytes`, of the part `part`, parses to.
pub open spec fn built_from_events(r: Result<Node, ExtractError>, bytes: Seq<u8>, part: Seq<char>) -> bool {
    outcome(r) == parse_outcome(bytes, part, MAX_XML_NODES as nat)
}

/// Parses a document of the part `part` into its element tree.
pub fn parse(bytes: &[u8], part: &str) -> (r: Result<Node, ExtractError>)
    ensures
        built_from_events(r, bytes@, part@),
        r matches Err(e) ==> e is ParseFailure,
        r matches Ok(n) ==> sorted_tree(n),
{
    parse_with_limits(bytes, part, MAX_XML_NODES)
}


/// A node like `n` whose children are `children`.
fn rebuild(n: &Node, children: Vec<Node>) -> (r: Node)
    ensures
        r@ == (NodeView { children: nodes_view(children@), ..n@ }),
{
    Node {
        name: n.name.clone(),
        attrs: copy_text_map(&n.attrs),
        children,
        text: n.text.clone(),
        namespace_uri: copy_opt_text(&n.namespace_uri),
        attr_namespace_uris: copy_text_map(&n.attr_namespace_uris),
        in_scope_namespaces: copy_text_map(&n.in_scope_namespaces),
    }
}

/// A deep copy of a node.
pub fn duplicate(n: &Node) -> (r: Node)
    ensures
        r@ == n@,
    decreases n,
{
    let mut children: Vec<Node> = Vec::new();
    let mut i: usize = 0;
    while i < n.children.len()
        invariant
            i <= n.children.len(),
            nodes_view(children@) == nodes_view(n.children@.subrange(0, i as int)),
        decreases n.children.len() - i,
    {
        assert(decreases_to!(n => n.children@[i as int]));
        let c = duplicate(&n.children[i]);
        let ghost before = children@;
        children.push(c);
        proof {
            lemma_nodes_view_push(before, c);
            let p = n.children@.subrange(0, i as int + 1);
            assert(p.subrange(0, p.len() - 1) =~= n.children@.subrange(0, i as int));
        }
        i += 1;
    }
    assert(n.children@.subrange(0, n.children.len() as int) =~= n.children@);
    let r = rebuild(n, children);
    assert(r@ =~= n@);
    r
}

/// The markup-compatibility namespace.
pub const MC_NAMESPACE: &'static str = "http://schemas.openxmlformats.org/markup-compatibility/2006";

/// Length of the run of non-whitespace characters that starts `s`.
pub open spec fn word_len(s: Seq<char>) -> nat
    decreases s.len(),
{
    if s.len() == 0 || is_ws(s[0]) {
        0
    } else {
        1 + word_len(s.drop_first())
    }
}

pub proof fn lemma_word_len(s: Seq<char>)
    ensures
        word_len(s) <= s.len(),
        s.len() > 0 && !is_ws(s[0]) ==> word_len(s) >= 1,
    decreases s.len(),
{
    if s.len() > 0 && !is_ws(s[0]) {
        lemma_word_len(s.drop_first());
    }
}

/// The whitespace-separated words of `s`.
pub open spec fn words(s: Seq<char>) -> Seq<Seq<char>>
    decreases s.len(),
{
    if s.len() == 0 {
        Seq::empty()
    } else if is_ws(s[0]) {
        words(s.drop_first())
    } else {
        proof {
            lemma_word_len(s);
        }
        seq![s.subrange(0, word_len(s) as int)] + words(s.subrange(word_len(s) as int, s.len() as int))
    }
}

/// Whether the element's name is `local` in the markup-compatibility namespace.
pub open spec fn is_mc(n: Node, local: Seq<char>) -> bool {
    local_part(n.name@) == local && opt_text(n.namespace_uri) == Some(MC_NAMESPACE@)
}

/// Whether `prefix` is bound, where `c` stands, to one of the supported namespaces.
pub open spec fn prefix_supported(c: Node, supported: Seq<Seq<char>>, prefix: Seq<char>) -> bool {
    match lookup(c.in_scope_namespaces.entries@, prefix) {
        Some(u) => supported.contains(u@),
        None => false,
    }
}

/// A `Choice` that can be taken: it requires at least one prefix, and each
/// prefix it requires names a supported namespace.
pub open spec fn choice_supported(c: Node, supported: Seq<Seq<char>>) -> bool {
    &&& is_mc(c, "Choice"@)
    &&& match attr_value(c.attrs, "Requires"@) {
        Some(req) => words(req@).len() > 0 && forall|i: int|
            0 <= i < words(req@).len() ==> prefix_supported(c, supported, #[trigger] words(req@)[i]),
        None => false,
    }
}

/// Index of the first supported `Choice`, or the length of `s`.
pub open spec fn choice_index(s: Seq<Node>, supported: Seq<Seq<char>>) -> int
    decreases s.len(),
{
    if s.len() == 0 || choice_supported(s[0], supported) {
        0
    } else {
        1 + choice_index(s.drop_first(), supported)
    }
}

/// Index of the first `Fallback`, or the length of `s`.
pub open spec fn fallback_index(s: Seq<Node>) -> int
    decreases s.len(),
{
    if s.len() == 0 || is_mc(s[0], "Fallback"@) {
        0
    } else {
        1 + fallback_index(s.drop_first())
    }
}

pub proof fn lemma_index_bounds(s: Seq<Node>, supported: Seq<Seq<char>>)
    ensures
        0 <= choice_index(s, supported) <= s.len(),
        choice_index(s, supported) < s.len() ==> choice_supported(s[choice_index(s, supported)], supported),
        forall|k: int| 0 <= k < choice_index(s, supported) ==> !choice_supported(#[trigger] s[k], supported),
        0 <= fallback_index(s) <= s.len(),
        fallback_index(s) < s.len() ==> is_mc(s[fallback_index(s)], "Fallback"@),
        forall|k: int| 0 <= k < fallback_index(s) ==> !is_mc(#[trigger] s[k], "Fallback"@),
    decreases s.len(),
{
    if s.len() > 0 {
        lemma_index_bounds(s.drop_first(), supported);
        assert forall|k: int| 0 < k < s.len() implies #[trigger] s[k] == s.drop_first()[k - 1] by {}
    }
}

/// The branch of an `AlternateContent` that is taken: the first supported
/// `Choice`, else the first `Fallback`, else none (-1).
pub open spec fn selected_branch(n: Node, supported: Seq<Seq<char>>) -> int {
    let c = choice_index(n.children@, supported);
    let f = fallback_index(n.children@);
    if c < n.children@.len() {
        c
    } else if f < n.children@.len() {
        f
    } else {
        -1
    }
}

/// Nodes and warnings produced by resolving markup compatibility.
pub struct Resolved {
    pub nodes: Seq<NodeView>,
    pub warnings: Seq<Seq<char>>,
}

pub open spec fn depth_warning(max: nat) -> Seq<char> {
    "markup-compatibility nesting depth limit "@ + decimal(max) + " exceeded; subtree skipped"@
}

pub open spec fn no_branch_warning() -> Seq<char> {
    "markup-compatibility AlternateContent has no supported Choice or Fallback; subtree skipped"@
}

/// What a node becomes: an `AlternateContent` is replaced by the resolved
/// children of its selected branch (nothing, with a warning, when none can be
/// taken or it is nested `max` deep); any other node is kept with its children
/// resolved.
pub open spec fn resolve_node(n: Node, supported: Seq<Seq<char>>, depth: nat, max: nat) -> Resolved
    decreases n, 1nat,
{
    if is_mc(n, "AlternateContent"@) {
        if depth >= max {
            Resolved { nodes: Seq::empty(), warnings: seq![depth_warning(max)] }
        } else {
            let i = selected_branch(n, supported);
            if 0 <= i < n.children@.len() {
                resolve_forest(n.children@[i].children@, supported, depth + 1, max)
            } else {
                Resolved { nodes: Seq::empty(), warnings: seq![no_branch_warning()] }
            }
        }
    } else {
        let inner = resolve_forest(n.children@, supported, depth, max);
        Resolved {
            nodes: seq![NodeView { children: inner.nodes, ..node_view(n) }],
            warnings: inner.warnings,
        }
    }
}

pub open spec fn resolve_forest(s: Seq<Node>, supported: Seq<Seq<char>>, depth: nat, max: nat) -> Resolved
    decreases s, 0nat,
{
    if s.len() == 0 {
        Resolved { nodes: Seq::empty(), warnings: Seq::empty() }
    } else {
        let a = resolve_forest(s.subrange(0, s.len() - 1), supported, depth, max);
        let b = resolve_node(s[s.len() - 1], supported, depth, max);
        Resolved { nodes: a.nodes + b.nodes, warnings: a.warnings + b.warnings }
    }
}

pub open spec fn texts(v: Seq<String>) -> Seq<Seq<char>> {
    v.map_values(|s: String| s@)
}

pub open spec fn strs(v: Seq<&str>) -> Seq<Seq<char>> {
    v.map_values(|s: &str| s@)
}

fn is_supported(uri: &str, supported: &[&str]) -> (r: bool)
    ensures
        r == strs(supported@).contains(uri@),
{
    let mut i: usize = 0;
    while i < supported.len()
        invariant
            i <= supported.len(),
            forall|k: int| 0 <= k < i ==> supported@[k]@ != uri@,
        decreases supported.len() - i,
    {
        if str_eq(supported[i], uri) {
            assert(strs(supported@)[i as int] == uri@);
            return true;
        }
        i += 1;
    }
    proof {
        if strs(supported@).contains(uri@) {
            let k = choose|k: int| 0 <= k < strs(supported@).len() && strs(supported@)[k] == uri@;
            assert(supported@[k]@ == uri@);
        }
    }
    false
}

/// Whether every whitespace-separated prefix in `required` (and at least one)
/// names a supported namespace where `c` stands.
fn requirements_met(required: &str, c: &Node, supported: &[&str]) -> (r: bool)
    ensures
        r == (words(required@).len() > 0 && forall|i: int|
            0 <= i < words(required@).len() ==> prefix_supported(
                *c,
                strs(supported@),
                #[trigger] words(required@)[i],
            )),
{
    let v = chars_of(required);
    let ghost all = words(v@);
    let ghost mut done: Seq<Seq<char>> = Seq::empty();
    let mut any = false;
    let mut i: usize = 0;
    assert(v@.subrange(0, v.len() as int) =~= v@);
    while i < v.len()
        invariant
            i <= v.len(),
            v@ == required@,
            all == words(v@),
            all == done + words(v@.subrange(i as int, v.len() as int)),
            any == (done.len() > 0),
            forall|k: int| 0 <= k < done.len() ==> prefix_supported(
                *c,
                strs(supported@),
                #[trigger] done[k],
            ),
        decreases v.len() - i,
    {
        let ghost rest = v@.subrange(i as int, v.len() as int);
        if is_whitespace(v[i]) {
            assert(rest.drop_first() =~= v@.subrange(i + 1, v.len() as int));
            i += 1;
        } else {
            let mut j = i;
            while j < v.len() && !is_whitespace(v[j])
                invariant
                    i <= j <= v.len(),
                    word_len(rest) == (j - i) + word_len(v@.subrange(j as int, v.len() as int)),
                decreases v.len() - j,
            {
                let ghost t = v@.subrange(j as int, v.len() as int);
                assert(t.drop_first() =~= v@.subrange(j + 1, v.len() as int));
                j += 1;
            }
            proof {
                assert(rest.subrange(0, 0) =~= Seq::<char>::empty());
                assert(word_len(v@.subrange(j as int, v.len() as int)) == 0);
                assert(word_len(rest) == j - i);
                assert(rest.subrange(0, (j - i) as int) =~= v@.subrange(i as int, j as int));
                assert(rest.subrange((j - i) as int, rest.len() as int) =~= v@.subrange(
                    j as int,
                    v.len() as int,
                ));
            }
            let word = string_of(&slice_chars(&v, i, j));
            let ok = match c.in_scope_namespaces.get(word.as_str()) {
                Some(u) => is_supported(u.as_str(), supported),
                None => false,
            };
            proof {
                assert(all == done + (seq![word@] + words(v@.subrange(j as int, v.len() as int))));
                assert(all[done.len() as int] == word@);
            }
            if !ok {
                assert(!prefix_supported(*c, strs(supported@), words(required@)[done.len() as int]));
                return false;
            }
            proof {
                done = done.push(word@);
                assert(all =~= done + words(v@.subrange(j as int, v.len() as int)));
            }
            any = true;
            i = j;
        }
    }
    proof {
        assert(v@.subrange(v.len() as int, v.len() as int) =~= Seq::<char>::empty());
        assert(all =~= done);
    }
    any
}

/// Index of the branch of an `AlternateContent` that is taken, or the number
/// of its children when none can be.
fn select_branch(n: &Node, supported: &[&str]) -> (r: usize)
    ensures
        r < n.children.len() ==> r == selected_branch(*n, strs(supported@)),
        r >= n.children.len() ==> selected_branch(*n, strs(supported@)) == -1,
{
    proof {
        reveal_strlit("Choice");
        reveal_strlit("Requires");
        lemma_index_bounds(n.children@, strs(supported@));
    }
    let mut i: usize = 0;
    while i < n.children.len()
        invariant
            i <= n.children.len(),
            forall|k: int| 0 <= k < i ==> !choice_supported(#[trigger] n.children@[k], strs(supported@)),
        decreases n.children.len() - i,
    {
        let c = &n.children[i];
        let mut ok = false;
        if has_local_name(c.name.as_str(), "Choice") {
            match &c.namespace_uri {
                Some(u) => {
                    if str_eq(u.as_str(), MC_NAMESPACE) {
                        ok = match c.attr("Requires") {
                            Some(req) => requirements_met(req, c, supported),
                            None => false,
                        };
                    }
                },
                None => {},
            }
        }
        if ok {
            proof {
                lemma_index_bounds(n.children@, strs(supported@));
                if choice_index(n.children@, strs(supported@)) < i {
                    let k = choice_index(n.children@, strs(supported@));
                    assert(!choice_supported(n.children@[k], strs(supported@)));
                }
            }
            return i;
        }
        i += 1;
    }
    let mut f: usize = 0;
    while f < n.children.len()
        invariant
            f <= n.children.len(),
            forall|k: int| 0 <= k < f ==> !is_mc(#[trigger] n.children@[k], "Fallback"@),
            forall|k: int|
                0 <= k < n.children.len() ==> !choice_supported(
                    #[trigger] n.children@[k],
                    strs(supported@),
                ),
        decreases n.children.len() - f,
    {
        let c = &n.children[f];
        if has_local_name(c.name.as_str(), "Fallback") {
            match &c.namespace_uri {
                Some(u) => {
                    if str_eq(u.as_str(), MC_NAMESPACE) {
                        proof {
                            reveal_strlit("Fallback");
                            lemma_index_bounds(n.children@, strs(supported@));
                            if fallback_index(n.children@) < f {
                                let k = fallback_index(n.children@);
                                assert(!is_mc(n.children@[k], "Fallback"@));
                            }
                            if choice_index(n.children@, strs(supported@)) < n.children.len() {
                                let k = choice_index(n.children@, strs(supported@));
                                assert(!choice_supported(n.children@[k], strs(supported@)));
                            }
                        }
                        return f;
                    }
                },
                None => {},
            }
        }
        f += 1;
    }
    proof {
        lemma_index_bounds(n.children@, strs(supported@));
        if choice_index(n.children@, strs(supported@)) < n.children.len() {
            let k = choice_index(n.children@, strs(supported@));
            assert(!choice_supported(n.children@[k], strs(supported@)));
        }
        if fallback_index(n.children@) < n.children.len() {
            let k = fallback_index(n.children@);
            assert(!is_mc(n.children@[k], "Fallback"@));
        }
    }
    n.children.len()
}

fn depth_warning_text(max: usize) -> (r: String)
    ensures
        r@ == depth_warning(max as nat),
{
    let mut out: Vec<char> = Vec::new();
    push_str(&mut out, "markup-compatibility nesting depth limit ");
    push_decimal(&mut out, max as u64);
    push_str(&mut out, " exceeded; subtree skipped");
    assert(out@ =~= depth_warning(max as nat));
    string_of(&out)
}

/// Resolves the forest `nodes` at markup-compatibility depth `depth`,
/// appending its nodes to `out` and its warnings to `warnings`.
fn resolve_children(
    nodes: &Vec<Node>,
    supported: &[&str],
    depth: usize,
    max_depth: usize,
    out: &mut Vec<Node>,
    warnings: &mut Vec<String>,
)
    requires
        depth <= max_depth,
    ensures
        nodes_view(final(out)@) == nodes_view(old(out)@) + resolve_forest(
            nodes@,
            strs(supported@),
            depth as nat,
            max_depth as nat,
        ).nodes,
        texts(final(warnings)@) == texts(old(warnings)@) + resolve_forest(
            nodes@,
            strs(supported@),
            depth as nat,
            max_depth as nat,
        ).warnings,
    decreases nodes@, 0nat,
{
    let ghost sup = strs(supported@);
    let ghost out0 = nodes_view(out@);
    let ghost w0 = texts(warnings@);
    let mut i: usize = 0;
    while i < nodes.len()
        invariant
            i <= nodes.len(),
            depth <= max_depth,
            sup == strs(supported@),
            nodes_view(out@) == out0 + resolve_forest(
                nodes@.subrange(0, i as int),
                sup,
                depth as nat,
                max_depth as nat,
            ).nodes,
            texts(warnings@) == w0 + resolve_forest(
                nodes@.subrange(0, i as int),
                sup,
                depth as nat,
                max_depth as nat,
            ).warnings,
        decreases nodes.len() - i,
    {
        let ghost p = nodes@.subrange(0, i as int + 1);
        proof {
            assert(p.subrange(0, p.len() - 1) =~= nodes@.subrange(0, i as int));
            assert(p[p.len() - 1] == nodes@[i as int]);
        }
        assert(decreases_to!(nodes@ => nodes@[i as int]));
        resolve_into(&nodes[i], supported, depth, max_depth, out, warnings);
        proof {
            let a = resolve_forest(nodes@.subrange(0, i as int), sup, depth as nat, max_depth as nat);
            let b = resolve_node(nodes@[i as int], sup, depth as nat, max_depth as nat);
            assert(nodes_view(out@) =~= out0 + (a.nodes + b.nodes));
            assert(texts(warnings@) =~= w0 + (a.warnings + b.warnings));
        }
        i += 1;
    }
    assert(nodes@.subrange(0, nodes.len() as int) =~= nodes@);
}

/// Resolves one node, appending what it becomes to `out` and its warnings to
/// `warnings`.
fn resolve_into(
    node: &Node,
    supported: &[&str],
    depth: usize,
    max_depth: usize,
    out: &mut Vec<Node>,
    warnings: &mut Vec<String>,
)
    requires
        depth <= max_depth,
    ensures
        nodes_view(final(out)@) == nodes_view(old(out)@) + resolve_node(
            *node,
            strs(supported@),
            depth as nat,
            max_depth as nat,
        ).nodes,
        texts(final(warnings)@) == texts(old(warnings)@) + resolve_node(
            *node,
            strs(supported@),
            depth as nat,
            max_depth as nat,
        ).warnings,
    decreases node, 1nat,
{
    proof {
        reveal_strlit("AlternateContent");
    }
    let ghost out0 = out@;
    let ghost w0 = warnings@;
    let mc = has_local_name(node.name.as_str(), "AlternateContent") && match &node.namespace_uri {
        Some(u) => str_eq(u.as_str(), MC_NAMESPACE),
        None => false,
    };
    if mc {
        if depth >= max_depth {
            warnings.push(depth_warning_text(max_depth));
            proof {
                assert(texts(warnings@) =~= texts(w0).push(depth_warning(max_depth as nat)));
                assert(out@ =~= out0);
                assert(nodes_view(out@) =~= nodes_view(out0) + Seq::<NodeView>::empty());
            }
            return;
        }
        let i = select_branch(node, supported);
        if i < node.children.len() {
            assert(decreases_to!(node => node.children@[i as int].children@));
            resolve_children(&node.children[i].children, supported, depth + 1, max_depth, out, warnings);
        } else {
            warnings.push(
                "markup-compatibility AlternateContent has no supported Choice or Fallback; subtree skipped".to_string(),
            );
            proof {
                assert(texts(warnings@) =~= texts(w0).push(no_branch_warning()));
                assert(nodes_view(out@) =~= nodes_view(out0) + Seq::<NodeView>::empty());
            }
        }
    } else {
        let mut children: Vec<Node> = Vec::new();
        assert(decreases_to!(node => node.children@));
        resolve_children(&node.children, supported, depth, max_depth, &mut children, warnings);
        let kept = rebuild(node, children);
        let ghost before = out@;
        out.push(kept);
        proof {
            lemma_nodes_view_push(before, kept);
            let inner = resolve_forest(node.children@, strs(supported@), depth as nat, max_depth as nat);
            assert(nodes_view(Seq::<Node>::empty()) =~= Seq::<NodeView>::empty());
            assert(nodes_view(children@) =~= inner.nodes);
            assert(nodes_view(out@) =~= nodes_view(out0) + seq![NodeView { children: inner.nodes, ..node_view(*node) }]);
        }
    }
}

/// The view of the result of `preprocess_alternate_content`: the last node
/// that the root resolves to, or the root without children when it resolves
/// to none.
pub open spec fn preprocessed_root(root: Node, supported: Seq<Seq<char>>, max: nat) -> NodeView {
    let r = resolve_node(root, supported, 0, max);
    if r.nodes.len() > 0 {
        r.nodes.last()
    } else {
        NodeView { children: Seq::empty(), ..root@ }
    }
}

/// Resolves `mc:AlternateContent` before format-specific extraction: each is
/// replaced by the content of exactly one branch (the first supported Choice,
/// else the Fallback), so that Choice and Fallback text never both appear.
pub fn preprocess_alternate_content(
    root: &Node,
    supported_namespace_uris: &[&str],
    max_depth: usize,
    warnings: &mut Vec<String>,
) -> (r: Node)
    ensures
        r@ == preprocessed_root(*root, strs(supported_namespace_uris@), max_depth as nat),
        texts(final(warnings)@) == texts(old(warnings)@) + resolve_node(
            *root,
            strs(supported_namespace_uris@),
            0,
            max_depth as nat,
        ).warnings,
{
    let mut nodes: Vec<Node> = Vec::new();
    resolve_into(root, supported_namespace_uris, 0, max_depth, &mut nodes, warnings);
    let ghost all = nodes@;
    proof {
        assert(nodes_view(Seq::<Node>::empty()) =~= Seq::<NodeView>::empty());
        lemma_nodes_view(all);
    }
    match nodes.pop() {
        Some(n) => {
            proof {
                assert(n == all[all.len() - 1]);
            }
            n
        },
        None => {
            let r = rebuild(root, Vec::new());
            proof {
                assert(nodes_view(Seq::<Node>::empty()) =~= Seq::<NodeView>::empty());
            }
            r
        },
    }
}

impl Node {
    /// The local part of this element's name.
    pub fn local_name(&self) -> (r: String)
        ensures
            r@ == local_part(self.name@),
    {
        local_name(self.name.as_str())
    }

    /// The namespace this element's name resolves to, if any.
    pub fn namespace_uri(&self) -> (r: Option<&str>)
        ensures
            match self.namespace_uri {
                Some(u) => r matches Some(s) && s@ == u@,
                None => r is None,
            },
    {
        match &self.namespace_uri {
            Some(u) => Some(u.as_str()),
            None => None,
        }
    }

    /// The attribute named exactly `name`, else the first (in name order)
    /// whose local name is `name`.
    pub fn attr(&self, name: &str) -> (r: Option<&str>)
        ensures
            match attr_value(self.attrs, name@) {
                Some(v) => r matches Some(s) && s@ == v@,
                None => r is None,
            },
    {
        if let Some(v) = self.attrs.get(name) {
            return Some(v.as_str());
        }
        let entries = &self.attrs.entries;
        let mut i: usize = 0;
        assert(entries@.subrange(0, entries.len() as int) =~= entries@);
        while i < entries.len()
            invariant
                i <= entries.len(),
                entries == &self.attrs.entries,
                lookup(entries@, name@) is None,
                first_local_match(entries@, name@) == first_local_match(
                    entries@.subrange(i as int, entries.len() as int),
                    name@,
                ),
            decreases entries.len() - i,
        {
            let ghost rest = entries@.subrange(i as int, entries.len() as int);
            assert(rest.drop_first() =~= entries@.subrange(i + 1, entries.len() as int));
            assert(rest[0] == entries@[i as int]);
            if has_local_name(entries[i].0.as_str(), name) {
                return Some(entries[i].1.as_str());
            }
            i += 1;
        }
        None
    }

    /// The first attribute (in name order) with local name `local` whose name
    /// resolves to the namespace `namespace_uri`.
    pub fn attr_ns(&self, namespace_uri: &str, local: &str) -> (r: Option<&str>)
        ensures
            match first_ns_match(
                self.attrs.entries@,
                self.attr_namespace_uris.entries@,
                namespace_uri@,
                local@,
            ) {
                Some(v) => r matches Some(s) && s@ == v@,
                None => r is None,
            },
    {
        let entries = &self.attrs.entries;
        let mut i: usize = 0;
        assert(entries@.subrange(0, entries.len() as int) =~= entries@);
        while i < entries.len()
            invariant
                i <= entries.len(),
                entries == &self.attrs.entries,
                first_ns_match(
                    entries@,
                    self.attr_namespace_uris.entries@,
                    namespace_uri@,
                    local@,
                ) == first_ns_match(
                    entries@.subrange(i as int, entries.len() as int),
                    self.attr_namespace_uris.entries@,
                    namespace_uri@,
                    local@,
                ),
            decreases entries.len() - i,
        {
            let ghost rest = entries@.subrange(i as int, entries.len() as int);
            assert(rest.drop_first() =~= entries@.subrange(i + 1, entries.len() as int));
            assert(rest[0] == entries@[i as int]);
            let key = entries[i].0.as_str();
            if has_local_name(key, local) {
                match self.attr_namespace_uris.get(key) {
                    Some(u) => {
                        if str_eq(u.as_str(), namespace_uri) {
                            return Some(entries[i].1.as_str());
                        }
                    },
                    None => {},
                }
            }
            i += 1;
        }
        None
    }

    /// The namespace bound to `prefix` where this element stands.
    pub fn namespace_uri_for_prefix(&self, prefix: &str) -> (r: Option<&str>)
        ensures
            match lookup(self.in_scope_namespaces.entries@, prefix@) {
                Some(v) => r matches Some(s) && s@ == v@,
                None => r is None,
            },
    {
        match self.in_scope_namespaces.get(prefix) {
            Some(v) => Some(v.as_str()),
            None => None,
        }
    }

    /// The first child whose local name is `local`.
    pub fn child(&self, local: &str) -> (r: Option<&Node>)
        ensures
            match first_named(self.children@, local@) {
                Some(n) => r == Some(&n),
                None => r is None,
            },
    {
        let mut i: usize = 0;
        assert(self.children@.subrange(0, self.children.len() as int) =~= self.children@);
        while i < self.children.len()
            invariant
                i <= self.children.len(),
                first_named(self.children@, local@) == first_named(
                    self.children@.subrange(i as int, self.children.len() as int),
                    local@,
                ),
            decreases self.children.len() - i,
        {
            let ghost rest = self.children@.subrange(i as int, self.children.len() as int);
            assert(rest.drop_first() =~= self.children@.subrange(
                i + 1,
                self.children.len() as int,
            ));
            assert(rest[0] == self.children@[i as int]);
            if has_local_name(self.children[i].name.as_str(), local) {
                return Some(&self.children[i]);
            }
            i += 1;
        }
        None
    }

    /// The first child with local name `local` in the namespace `namespace_uri`.
    pub fn child_ns(&self, namespace_uri: &str, local: &str) -> (r: Option<&Node>)
        ensures
            match first_named_ns(self.children@, namespace_uri@, local@) {
                Some(n) => r == Some(&n),
                None => r is None,
            },
    {
        let mut i: usize = 0;
        assert(self.children@.subrange(0, self.children.len() as int) =~= self.children@);
        while i < self.children.len()
            invariant
                i <= self.children.len(),
                first_named_ns(self.children@, namespace_uri@, local@) == first_named_ns(
                    self.children@.subrange(i as int, self.children.len() as int),
                    namespace_uri@,
                    local@,
                ),
            decreases self.children.len() - i,
        {
            let ghost rest = self.children@.subrange(i as int, self.children.len() as int);
            assert(rest.drop_first() =~= self.children@.subrange(
                i + 1,
                self.children.len() as int,
            ));
            assert(rest[0] == self.children@[i as int]);
            let c = &self.children[i];
            if has_local_name(c.name.as_str(), local) {
                match &c.namespace_uri {
                    Some(u) => {
                        if str_eq(u.as_str(), namespace_uri) {
                            return Some(c);
                        }
                    },
                    None => {},
                }
            }
            i += 1;
        }
        None
    }

    /// The children whose local name is `local`, in document order.
    pub fn children_named(&self, local: &str) -> (r: Vec<&Node>)
        ensures
            r@.map_values(|n: &Node| *n) == all_named(self.children@, local@),
    {
        let mut out: Vec<&Node> = Vec::new();
        let mut i: usize = 0;
        while i < self.children.len()
            invariant
                i <= self.children.len(),
                out@.map_values(|n: &Node| *n) == all_named(
                    self.children@.subrange(0, i as int),
                    local@,
                ),
            decreases self.children.len() - i,
        {
            let ghost prefix = self.children@.subrange(0, i as int + 1);
            assert(prefix.drop_last() =~= self.children@.subrange(0, i as int));
            if has_local_name(self.children[i].name.as_str(), local) {
                out.push(&self.children[i]);
            }
            i += 1;
        }
        assert(self.children@.subrange(0, self.children.len() as int) =~= self.children@);
        out
    }

    /// Every descendant whose local name is `local`, in document order.
    pub fn descendants(&self, local: &str) -> (r: Vec<&Node>)
        ensures
            r@.map_values(|n: &Node| *n) == all_named(preorder(self.children@), local@),
    {
        let mut out: Vec<&Node> = Vec::new();
        collect_named(&self.children, local, &mut out);
        proof {
            assert(out@.map_values(|n: &Node| *n) =~= Seq::<&Node>::empty().map_values(
                |n: &Node| *n,
            ) + all_named(preorder(self.children@), local@));
        }
        out
    }

    /// The first descendant, in document order, whose local name is `local`.
    pub fn first_descendant(&self, local: &str) -> (r: Option<&Node>)
        ensures
            ({
                let all = all_named(preorder(self.children@), local@);
                if all.len() > 0 {
                    r == Some(&all[0])
                } else {
                    r is None
                }
            }),
    {
        let found = self.descendants(local);
        if found.len() > 0 {
            proof {
                let m = found@.map_values(|n: &Node| *n);
                assert(m[0] == *found@[0]);
            }
            Some(found[0])
        } else {
            None
        }
    }
}

/// Appends to `out` every node of the forest `nodes`, in document order, whose
/// local name is `local`.
fn collect_named<'a>(nodes: &'a Vec<Node>, local: &str, out: &mut Vec<&'a Node>)
    ensures
        final(out)@.map_values(|n: &Node| *n) == old(out)@.map_values(|n: &Node| *n) + all_named(
            preorder(nodes@),
            local@,
        ),
    decreases nodes@,
{
    let ghost start = old(out)@.map_values(|n: &Node| *n);
    let mut i: usize = 0;
    while i < nodes.len()
        invariant
            i <= nodes.len(),
            out@.map_values(|n: &Node| *n) == start + all_named(
                preorder(nodes@.subrange(0, i as int)),
                local@,
            ),
        decreases nodes.len() - i,
    {
        let node = &nodes[i];
        let ghost before = out@.map_values(|n: &Node| *n);
        let ghost prefix = nodes@.subrange(0, i as int + 1);
        let ghost own = all_named(seq![*node], local@);
        proof {
            assert(prefix.subrange(0, prefix.len() - 1) =~= nodes@.subrange(0, i as int));
            assert(prefix[prefix.len() - 1] == nodes@[i as int]);
            assert(preorder(prefix) == preorder(nodes@.subrange(0, i as int)) + subtree(*node));
            lemma_all_named_append(
                preorder(nodes@.subrange(0, i as int)),
                subtree(*node),
                local@,
            );
            lemma_all_named_append(seq![*node], preorder(node.children@), local@);
            assert(seq![*node].drop_last() =~= Seq::<Node>::empty());
            assert(seq![*node].last() == *node);
        }
        if has_local_name(node.name.as_str(), local) {
            out.push(node);
            proof {
                assert(local_part(node.name@) == local@);
                assert(seq![*node].len() == 1);
                assert(all_named(seq![*node], local@) == all_named(seq![*node].drop_last(), local@).push(*node));
                assert(own =~= seq![*node]);
                assert(out@.map_values(|n: &Node| *n) =~= before + own);
            }
        } else {
            proof {
                assert(local_part(node.name@) != local@);
                assert(seq![*node].len() == 1);
                assert(all_named(seq![*node], local@) == all_named(seq![*node].drop_last(), local@));
                assert(own =~= Seq::<Node>::empty());
                assert(out@.map_values(|n: &Node| *n) =~= before + own);
            }
        }
        let ghost middle = out@.map_values(|n: &Node| *n);
        assert(decreases_to!(nodes@ => node.children@));
        collect_named(&node.children, local, out);
        proof {
            assert(out@.map_values(|n: &Node| *n) =~= start + all_named(
                preorder(nodes@.subrange(0, i as int + 1)),
                local@,
            ));
        }
        i += 1;
    }
    assert(nodes@.subrange(0, nodes.len() as int) =~= nodes@);
}


proof fn lemma_first_local_match(s: Seq<(String, String)>, local: Seq<char>)
    ensures
        match first_local_match(s, local) {
            Some(v) => exists|i: int|
                0 <= i < s.len() && local_part(#[trigger] s[i].0@) == local && s[i].1 == v && forall|j: int|
                    0 <= j < i ==> local_part(#[trigger] s[j].0@) != local,
            None => forall|j: int| 0 <= j < s.len() ==> local_part(#[trigger] s[j].0@) != local,
        },
    decreases s.len(),
{
    if s.len() > 0 && local_part(s[0].0@) != local {
        let t = s.drop_first();
        lemma_first_local_match(t, local);
        match first_local_match(t, local) {
            Some(v) => {
                let i = choose|i: int|
                    0 <= i < t.len() && local_part(#[trigger] t[i].0@) == local && t[i].1 == v && forall|j: int|
                        0 <= j < i ==> local_part(#[trigger] t[j].0@) != local;
                assert(s[i + 1] == t[i]);
                assert forall|j: int| 0 <= j < i + 1 implies local_part(#[trigger] s[j].0@) != local by {
                    if j > 0 {
                        assert(s[j] == t[j - 1]);
                    }
                }
            },
            None => {
                assert forall|j: int| 0 <= j < s.len() implies local_part(#[trigger] s[j].0@) != local by {
                    if j > 0 {
                        assert(s[j] == t[j - 1]);
                    }
                }
            },
        }
    } else if s.len() > 0 {
        assert(local_part(s[0].0@) == local);
    }
}

/// An attribute is looked up by its exact name first; failing that, among
/// the attributes whose local name is the name asked for, the one with the
/// least name wins; with neither there is no value.
pub proof fn attribute_lookup_prefers_the_least_name(attrs: StrMap<String>, name: Seq<char>)
    requires
        attrs.wf(),
    ensures
        lookup(attrs.entries@, name) matches Some(v) ==> attr_value(attrs, name) == Some(v),
        lookup(attrs.entries@, name) is None ==> match attr_value(attrs, name) {
            Some(v) => exists|i: int|
                0 <= i < attrs.entries@.len() && local_part(#[trigger] attrs.entries@[i].0@) == name
                    && attrs.entries@[i].1 == v && forall|j: int|
                    0 <= j < attrs.entries@.len() && j != i && local_part(
                        #[trigger] attrs.entries@[j].0@,
                    ) == name ==> text_lt(attrs.entries@[i].0@, attrs.entries@[j].0@),
            None => forall|j: int|
                0 <= j < attrs.entries@.len() ==> local_part(#[trigger] attrs.entries@[j].0@) != name,
        },
{
    let s = attrs.entries@;
    lemma_first_local_match(s, name);
    if lookup(s, name) is None {
        match first_local_match(s, name) {
            Some(v) => {
                let i = choose|i: int|
                    0 <= i < s.len() && local_part(#[trigger] s[i].0@) == name && s[i].1 == v && forall|j: int|
                        0 <= j < i ==> local_part(#[trigger] s[j].0@) != name;
                assert forall|j: int|
                    0 <= j < s.len() && j != i && local_part(#[trigger] s[j].0@) == name implies text_lt(
                        s[i].0@,
                        s[j].0@,
                    ) by {
                    assert(!(j < i));
                }
            },
            None => {},
        }
    }
}


/// No element of the tree `n` is a markup-compatibility `AlternateContent`.
pub open spec fn free_of_alternates(n: Node) -> bool
    decreases n, 1nat,
{
    !is_mc(n, "AlternateContent"@) && forest_free_of_alternates(n.children@)
}

pub open spec fn forest_free_of_alternates(s: Seq<Node>) -> bool
    decreases s, 0nat,
{
    s.len() == 0 || (forest_free_of_alternates(s.subrange(0, s.len() - 1)) && free_of_alternates(
        s[s.len() - 1],
    ))
}

proof fn lemma_resolve_keeps_node(n: Node, supported: Seq<Seq<char>>, depth: nat, max: nat)
    requires
        free_of_alternates(n),
    ensures
        resolve_node(n, supported, depth, max) == (Resolved { nodes: seq![node_view(n)], warnings: Seq::empty() }),
    decreases n, 1nat,
{
    lemma_resolve_keeps_forest(n.children@, supported, depth, max);
}

proof fn lemma_resolve_keeps_forest(s: Seq<Node>, supported: Seq<Seq<char>>, depth: nat, max: nat)
    requires
        forest_free_of_alternates(s),
    ensures
        resolve_forest(s, supported, depth, max) == (Resolved { nodes: nodes_view(s), warnings: Seq::empty() }),
    decreases s, 0nat,
{
    if s.len() > 0 {
        let prefix = s.subrange(0, s.len() - 1);
        lemma_resolve_keeps_forest(prefix, supported, depth, max);
        lemma_resolve_keeps_node(s[s.len() - 1], supported, depth, max);
        assert(nodes_view(prefix) + seq![node_view(s[s.len() - 1])] =~= nodes_view(s));
        assert(Seq::<Seq<char>>::empty() + Seq::<Seq<char>>::empty() =~= Seq::<Seq<char>>::empty());
    }
}

/// A document without markup-compatibility alternates comes through their
/// resolution unchanged, and no warning is raised.
pub proof fn documents_without_alternates_are_kept(root: Node, supported: Seq<Seq<char>>, max: nat)
    requires
        free_of_alternates(root),
    ensures
        preprocessed_root(root, supported, max) == root@,
        resolve_node(root, supported, 0, max).warnings == Seq::<Seq<char>>::empty(),
{
    lemma_resolve_keeps_node(root, supported, 0, max);
}


/// How many `AlternateContent` elements resolving `n` drops: one nested
/// `max` deep, one with no branch to take, and those dropped inside the
/// branches and children that are kept.
pub open spec fn dropped_alternates(n: Node, supported: Seq<Seq<char>>, depth: nat, max: nat) -> nat
    decreases n, 1nat,
{
    if is_mc(n, "AlternateContent"@) {
        if depth >= max {
            1
        } else {
            let i = selected_branch(n, supported);
            if 0 <= i < n.children@.len() {
                dropped_in_forest(n.children@[i].children@, supported, depth + 1, max)
            } else {
                1
            }
        }
    } else {
        dropped_in_forest(n.children@, supported, depth, max)
    }
}

pub open spec fn dropped_in_forest(s: Seq<Node>, supported: Seq<Seq<char>>, depth: nat, max: nat) -> nat
    decreases s, 0nat,
{
    if s.len() == 0 {
        0
    } else {
        dropped_in_forest(s.subrange(0, s.len() - 1), supported, depth, max) + dropped_alternates(
            s[s.len() - 1],
            supported,
            depth,
            max,
        )
    }
}

proof fn lemma_warnings_per_drop(n: Node, supported: Seq<Seq<char>>, depth: nat, max: nat)
    ensures
        resolve_node(n, supported, depth, max).warnings.len() == dropped_alternates(n, supported, depth, max),
        forall|k: int|
            0 <= k < resolve_node(n, supported, depth, max).warnings.len() ==> #[trigger] resolve_node(
                n,
                supported,
                depth,
                max,
            ).warnings[k] == depth_warning(max) || resolve_node(n, supported, depth, max).warnings[k]
                == no_branch_warning(),
    decreases n, 1nat,
{
    if is_mc(n, "AlternateContent"@) {
        if depth < max {
            let i = selected_branch(n, supported);
            if 0 <= i < n.children@.len() {
                lemma_warnings_per_drop_forest(n.children@[i].children@, supported, depth + 1, max);
            }
        }
    } else {
        lemma_warnings_per_drop_forest(n.children@, supported, depth, max);
    }
}

proof fn lemma_warnings_per_drop_forest(s: Seq<Node>, supported: Seq<Seq<char>>, depth: nat, max: nat)
    ensures
        resolve_forest(s, supported, depth, max).warnings.len() == dropped_in_forest(s, supported, depth, max),
        forall|k: int|
            0 <= k < resolve_forest(s, supported, depth, max).warnings.len() ==> #[trigger] resolve_forest(
                s,
                supported,
                depth,
                max,
            ).warnings[k] == depth_warning(max) || resolve_forest(s, supported, depth, max).warnings[k]
                == no_branch_warning(),
    decreases s, 0nat,
{
    if s.len() > 0 {
        let prefix = s.subrange(0, s.len() - 1);
        lemma_warnings_per_drop_forest(prefix, supported, depth, max);
        lemma_warnings_per_drop(s[s.len() - 1], supported, depth, max);
        let a = resolve_forest(prefix, supported, depth, max).warnings;
        let b = resolve_node(s[s.len() - 1], supported, depth, max).warnings;
        let w = resolve_forest(s, supported, depth, max).warnings;
        assert(w == a + b);
        assert forall|k: int| 0 <= k < w.len() implies #[trigger] w[k] == depth_warning(max) || w[k]
            == no_branch_warning() by {
            if k < a.len() {
                assert(w[k] == a[k]);
            } else {
                assert(w[k] == b[k - a.len()]);
            }
        }
    }
}

/// Resolving markup-compatibility alternates raises one warning for each
/// `AlternateContent` it drops, and each warning says why: the nesting
/// depth limit, or no branch that can be taken.
pub proof fn one_warning_per_dropped_alternate(root: Node, supported: Seq<Seq<char>>, max: nat)
    ensures
        resolve_node(root, supported, 0, max).warnings.len() == dropped_alternates(root, supported, 0, max),
        forall|k: int|
            0 <= k < resolve_node(root, supported, 0, max).warnings.len() ==> #[trigger] resolve_node(
                root,
                supported,
                0,
                max,
            ).warnings[k] == depth_warning(max) || resolve_node(root, supported, 0, max).warnings[k]
                == no_branch_warning(),
{
    lemma_warnings_per_drop(root, supported, 0, max);
}

} // verus!

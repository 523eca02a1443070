//! An ordered map keyed by strings: entries kept sorted by key in code-point
//! order, which is the order in which a standard ordered map of `String`s
//! visits its entries.
use vstd::prelude::*;
use crate::text::{chars_of, seq_eq};

verus! {

/// Strict code-point lexicographic order of two texts.
pub open spec fn text_lt(a: Seq<char>, b: Seq<char>) -> bool
    decreases a.len(),
{
    if a.len() == 0 {
        b.len() > 0
    } else if b.len() == 0 {
        false
    } else if a[0] != b[0] {
        a[0] < b[0]
    } else {
        text_lt(a.drop_first(), b.drop_first())
    }
}

pub proof fn lemma_text_lt_irreflexive(a: Seq<char>)
    ensures
        !text_lt(a, a),
    decreases a.len(),
{
    if a.len() > 0 {
        lemma_text_lt_irreflexive(a.drop_first());
    }
}

pub proof fn lemma_text_lt_total(a: Seq<char>, b: Seq<char>)
    ensures
        text_lt(a, b) || a == b || text_lt(b, a),
        !(text_lt(a, b) && text_lt(b, a)),
    decreases a.len(),
{
    if a.len() > 0 && b.len() > 0 {
        lemma_text_lt_total(a.drop_first(), b.drop_first());
        if a[0] == b[0] && a.drop_first() == b.drop_first() {
            assert(a =~= seq![a[0]] + a.drop_first());
            assert(b =~= seq![b[0]] + b.drop_first());
        }
    } else if a.len() == 0 && b.len() == 0 {
        assert(a =~= b);
    }
}

pub proof fn lemma_text_lt_transitive(a: Seq<char>, b: Seq<char>, c: Seq<char>)
    requires
        text_lt(a, b),
        text_lt(b, c),
    ensures
        text_lt(a, c),
    decreases a.len(),
{
    if a.len() > 0 && b.len() > 0 && c.len() > 0 {
        if a[0] == b[0] && b[0] == c[0] {
            lemma_text_lt_transitive(a.drop_first(), b.drop_first(), c.drop_first());
        }
    }
}

/// Compares two texts in code-point order.
pub fn text_less(a: &[char], b: &[char]) -> (r: bool)
    ensures
        r == text_lt(a@, b@),
{
    let mut i: usize = 0;
    proof {
        assert(a@.subrange(0, a.len() as int) =~= a@);
        assert(b@.subrange(0, b.len() as int) =~= b@);
    }
    while i < a.len() && i < b.len() && a[i] == b[i]
        invariant
            i <= a.len(),
            i <= b.len(),
            forall|k: int| 0 <= k < i ==> a@[k] == b@[k],
            text_lt(a@, b@) == text_lt(a@.subrange(i as int, a.len() as int), b@.subrange(
                i as int,
                b.len() as int,
            )),
        decreases a.len() - i,
    {
        proof {
            let sa = a@.subrange(i as int, a.len() as int);
            let sb = b@.subrange(i as int, b.len() as int);
            assert(sa.drop_first() =~= a@.subrange(i + 1, a.len() as int));
            assert(sb.drop_first() =~= b@.subrange(i + 1, b.len() as int));
        }
        i += 1;
    }
    proof {
        let sa = a@.subrange(i as int, a.len() as int);
        let sb = b@.subrange(i as int, b.len() as int);
        if i < a.len() && i < b.len() {
            assert(sa[0] == a@[i as int]);
            assert(sb[0] == b@[i as int]);
        }
    }
    if i == a.len() {
        i < b.len()
    } else if i == b.len() {
        false
    } else {
        a[i] < b[i]
    }
}

/// An ordered map from strings to values.
pub struct StrMap<V> {
    pub entries: Vec<(String, V)>,
}

/// Keys strictly increase along the entries.
pub open spec fn sorted_keys<V>(s: Seq<(String, V)>) -> bool {
    forall|i: int, j: int| 0 <= i < j < s.len() ==> text_lt(#[trigger] s[i].0@, #[trigger] s[j].0@)
}

/// The value stored under `key`, if any.
pub open spec fn lookup<V>(s: Seq<(String, V)>, key: Seq<char>) -> Option<V>
    decreases s.len(),
{
    if s.len() == 0 {
        None
    } else if s[0].0@ == key {
        Some(s[0].1)
    } else {
        lookup(s.drop_first(), key)
    }
}

/// Position of `key`, or the length of `s` when absent.
pub open spec fn key_index<V>(s: Seq<(String, V)>, key: Seq<char>) -> int
    decreases s.len(),
{
    if s.len() == 0 {
        0
    } else if s[0].0@ == key {
        0
    } else {
        1 + key_index(s.drop_first(), key)
    }
}

pub proof fn lemma_key_index<V>(s: Seq<(String, V)>, key: Seq<char>)
    ensures
        0 <= key_index(s, key) <= s.len(),
        key_index(s, key) < s.len() ==> s[key_index(s, key)].0@ == key && lookup(s, key) == Some(
            s[key_index(s, key)].1,
        ),
        key_index(s, key) == s.len() ==> lookup(s, key) is None,
        forall|k: int| 0 <= k < key_index(s, key) ==> s[k].0@ != key,
    decreases s.len(),
{
    if s.len() > 0 && s[0].0@ != key {
        lemma_key_index(s.drop_first(), key);
        assert forall|k: int| 0 <= k < key_index(s, key) implies s[k].0@ != key by {
            if k > 0 {
                assert(s[k] == s.drop_first()[k - 1]);
            }
        }
    }
}

pub proof fn lemma_key_index_at<V>(s: Seq<(String, V)>, key: Seq<char>, i: int)
    requires
        0 <= i <= s.len(),
        forall|k: int| 0 <= k < i ==> s[k].0@ != key,
        i == s.len() || s[i].0@ == key,
    ensures
        key_index(s, key) == i,
    decreases i,
{
    if i > 0 {
        lemma_key_index_at(s.drop_first(), key, i - 1);
    }
}

impl<V> StrMap<V> {
    pub open spec fn wf(&self) -> bool {
        sorted_keys(self.entries@)
    }

    pub open spec fn get_spec(&self, key: Seq<char>) -> Option<V> {
        lookup(self.entries@, key)
    }

    pub fn new() -> (m: StrMap<V>)
        ensures
            m.wf(),
            m.entries@.len() == 0,
    {
        StrMap { entries: Vec::new() }
    }

    /// Position of the entry for `key`, or `len` when absent.
    pub fn position(&self, key: &[char]) -> (r: usize)
        ensures
            r == key_index(self.entries@, key@),
    {
        let mut i: usize = 0;
        while i < self.entries.len()
            invariant
                i <= self.entries.len(),
                forall|k: int| 0 <= k < i ==> self.entries@[k].0@ != key@,
            decreases self.entries.len() - i,
        {
            let k = chars_of(self.entries[i].0.as_str());
            if seq_eq(&k, key) {
                proof {
                    lemma_key_index_at(self.entries@, key@, i as int);
                }
                return i;
            }
            i += 1;
        }
        proof {
            lemma_key_index_at(self.entries@, key@, i as int);
        }
        i
    }

    pub fn get(&self, key: &str) -> (r: Option<&V>)
        ensures
            match self.get_spec(key@) {
                Some(v) => r == Some(&v),
                None => r is None,
            },
    {
        let k = chars_of(key);
        let i = self.position(&k);
        proof {
            lemma_key_index(self.entries@, key@);
        }
        if i < self.entries.len() {
            Some(&self.entries[i].1)
        } else {
            None
        }
    }

    pub fn contains_key(&self, key: &str) -> (r: bool)
        ensures
            r == self.get_spec(key@) is Some,
    {
        let k = chars_of(key);
        let i = self.position(&k);
        proof {
            lemma_key_index(self.entries@, key@);
        }
        i < self.entries.len()
    }

    /// Inserts or replaces the value under `key`, keeping the keys sorted.
    pub fn insert(&mut self, key: String, value: V)
        requires
            old(self).wf(),
        ensures
            final(self).wf(),
            final(self).get_spec(key@) == Some(value),
            forall|k: Seq<char>| k != key@ ==> final(self).get_spec(k) == old(self).get_spec(k),
    {
        let kc = chars_of(key.as_str());
        let mut i: usize = 0;
        while i < self.entries.len()
            invariant
                i <= self.entries.len(),
                self.wf(),
                kc@ == key@,
                forall|k: int| 0 <= k < i ==> text_lt(#[trigger] self.entries@[k].0@, key@),
            ensures
                i <= self.entries.len(),
                i < self.entries.len() ==> !text_lt(self.entries@[i as int].0@, key@),
                forall|k: int| 0 <= k < i ==> text_lt(#[trigger] self.entries@[k].0@, key@),
            decreases self.entries.len() - i,
        {
            let ek = chars_of(self.entries[i].0.as_str());
            if !text_less(&ek, &kc) {
                break;
            }
            i += 1;
        }
        let ghost old_entries = self.entries@;
        proof {
            assert forall|k: int| 0 <= k < i implies #[trigger] old_entries[k].0@ != key@ by {
                lemma_text_lt_irreflexive(key@);
            }
        }
        if i < self.entries.len() && seq_eq(&chars_of(self.entries[i].0.as_str()), &kc) {
            proof {
                lemma_key_index_at(old_entries, key@, i as int);
            }
            self.entries.set(i, (key, value));
            proof {
                let s = self.entries@;
                assert(s[i as int].0@ == old_entries[i as int].0@);
                assert forall|a: int, b: int| 0 <= a < b < s.len() implies text_lt(
                    #[trigger] s[a].0@,
                    #[trigger] s[b].0@,
                ) by {
                    assert(s[a].0@ == old_entries[a].0@);
                    assert(s[b].0@ == old_entries[b].0@);
                }
                lemma_key_index_at(s, key@, i as int);
                lemma_key_index(s, key@);
                assert forall|k: Seq<char>| k != key@ implies lookup(s, k) == lookup(
                    old_entries,
                    k,
                ) by {
                    lemma_key_index(s, k);
                    lemma_key_index(old_entries, k);
                    let a = key_index(s, k);
                    let b = key_index(old_entries, k);
                    if a < b {
                        assert(s[a].0@ == old_entries[a].0@);
                    } else if b < a {
                        assert(s[b].0@ == old_entries[b].0@);
                    }
                }
            }
        } else {
            proof {
                if i < old_entries.len() {
                    lemma_text_lt_total(old_entries[i as int].0@, key@);
                }
            }
            self.entries.insert(i, (key, value));
            proof {
                let s = self.entries@;
                assert forall|a: int, b: int| 0 <= a < b < s.len() implies text_lt(
                    #[trigger] s[a].0@,
                    #[trigger] s[b].0@,
                ) by {
                    if b == i {
                        assert(s[a] == old_entries[a]);
                    } else if a == i {
                        assert(s[b] == old_entries[b - 1]);
                        if b - 1 > i {
                            lemma_text_lt_transitive(key@, old_entries[i as int].0@, old_entries[b - 1].0@);
                        }
                    } else if a > i {
                        assert(s[a] == old_entries[a - 1]);
                        assert(s[b] == old_entries[b - 1]);
                    } else if b > i {
                        assert(s[a] == old_entries[a]);
                        assert(s[b] == old_entries[b - 1]);
                    } else {
                        assert(s[a] == old_entries[a]);
                        assert(s[b] == old_entries[b]);
                    }
                }
                assert forall|k: int| i < k < s.len() implies s[k].0@ != key@ by {
                    assert(s[k] == old_entries[k - 1]);
                    lemma_text_lt_irreflexive(key@);
                    if k - 1 > i {
                        lemma_text_lt_transitive(key@, old_entries[i as int].0@, old_entries[k - 1].0@);
                    }
                }
                lemma_key_index_at(s, key@, i as int);
                lemma_key_index(s, key@);
                assert forall|k: Seq<char>| k != key@ implies lookup(s, k) == lookup(
                    old_entries,
                    k,
                ) by {
                    lemma_key_index(s, k);
                    lemma_key_index(old_entries, k);
                    let a = key_index(s, k);
                    let b = key_index(old_entries, k);
                    if a < s.len() {
                        if a < i {
                            assert(s[a] == old_entries[a]);
                            if b < a {
                                assert(s[b] == old_entries[b]);
                            }
                        } else {
                            assert(a != i);
                            assert(s[a] == old_entries[a - 1]);
                            if b < a - 1 {
                                if b < i {
                                    assert(s[b] == old_entries[b]);
                                } else {
                                    assert(s[b + 1] == old_entries[b]);
                                }
                            }
                        }
                    } else {
                        if b < old_entries.len() {
                            if b < i {
                                assert(s[b] == old_entries[b]);
                            } else {
                                assert(s[b + 1] == old_entries[b]);
                            }
                        }
                    }
                }
            }
        }
    }

    /// Removes the entry under `key`, if any.
    pub fn remove(&mut self, key: &str)
        requires
            old(self).wf(),
        ensures
            final(self).wf(),
            final(self).get_spec(key@) is None,
            forall|k: Seq<char>| k != key@ ==> final(self).get_spec(k) == old(self).get_spec(k),
    {
        let kc = chars_of(key);
        let i = self.position(&kc);
        proof {
            lemma_key_index(self.entries@, key@);
        }
        if i < self.entries.len() {
            let ghost old_entries = self.entries@;
            self.entries.remove(i);
            proof {
                let s = self.entries@;
                assert forall|a: int, b: int| 0 <= a < b < s.len() implies text_lt(
                    #[trigger] s[a].0@,
                    #[trigger] s[b].0@,
                ) by {
                    if a < i {
                        assert(s[a] == old_entries[a]);
                    } else {
                        assert(s[a] == old_entries[a + 1]);
                    }
                    if b < i {
                        assert(s[b] == old_entries[b]);
                    } else {
                        assert(s[b] == old_entries[b + 1]);
                    }
                }
                assert forall|k: int| 0 <= k < s.len() implies s[k].0@ != key@ by {
                    lemma_text_lt_irreflexive(key@);
                    if k < i {
                        assert(s[k] == old_entries[k]);
                    } else {
                        assert(s[k] == old_entries[k + 1]);
                    }
                }
                lemma_key_index_at(s, key@, s.len() as int);
                lemma_key_index(s, key@);
                assert forall|k: Seq<char>| k != key@ implies lookup(s, k) == lookup(
                    old_entries,
                    k,
                ) by {
                    lemma_key_index(s, k);
                    lemma_key_index(old_entries, k);
                    let a = key_index(s, k);
                    let b = key_index(old_entries, k);
                    if a < s.len() {
                        if a < i {
                            assert(s[a] == old_entries[a]);
                            if b < a {
                                assert(s[b] == old_entries[b]);
                            }
                        } else {
                            assert(s[a] == old_entries[a + 1]);
                            if b < a + 1 && b != i {
                                if b < i {
                                    assert(s[b] == old_entries[b]);
                                } else {
                                    assert(s[b - 1] == old_entries[b]);
                                }
                            }
                        }
                    } else {
                        if b < old_entries.len() && b != i {
                            if b < i {
                                assert(s[b] == old_entries[b]);
                            } else {
                                assert(s[b - 1] == old_entries[b]);
                            }
                        }
                    }
                }
            }
        }
    }
}

} // verus!

//! Word-processing (DOCX) extraction: the backend's capabilities, content
//! hashes, block ids, the field state machine that hides field instructions,
//! and the reading of inline content into events.
use vstd::prelude::*;
use sha2::{Digest, Sha256};
use crate::capabilities::{Capabilities, GeometryKind};
use crate::granularity::Granularity;
use crate::error::ExtractError;
use crate::model::{BreakKind, DocMetadata, HiddenItem, PlacementFrame};
use crate::relationships::Relationships;
use crate::text::{
    chars_of, decimal, digit_char, hex_byte, push_chars, push_decimal, push_hex_byte, push_str,
    slice_chars, str_eq, string_of, trim, trim_bounds,
};
use crate::xml::{
    all_named, attr_value, duplicate, first_named, local_part, node_view, preorder, texts, Node,
    NodeView,
};

verus! {

/// The DOCX extraction backend.
pub struct DocxExtractor;

impl DocxExtractor {
    /// Word documents flow: they are extracted at element granularity with
    /// flow geometry.
    pub fn capabilities(&self) -> (c: Capabilities)
        ensures
            c == (Capabilities { finest_granularity: Granularity::Element, geometry: GeometryKind::Flow }),
    {
        Capabilities { finest_granularity: Granularity::Element, geometry: GeometryKind::Flow }
    }
}

/// The SHA-256 digest of some bytes.
pub uninterp spec fn sha256_of(bytes: Seq<u8>) -> Seq<u8>;

/// `Sha256::digest`: the SHA-256 digest of `bytes`, which is 32 bytes long.
/// The digest is named `sha256_of`.
#[verifier::external_body]
fn sha256(bytes: &[u8]) -> (r: Vec<u8>)
    ensures
        r@ == sha256_of(bytes@),
        r@.len() == 32,
{
    Sha256::digest(bytes).to_vec()
}

/// Bytes as lowercase hexadecimal, two digits each.
pub open spec fn hex_text(bytes: Seq<u8>) -> Seq<char>
    decreases bytes.len(),
{
    if bytes.len() == 0 {
        Seq::empty()
    } else {
        hex_text(bytes.drop_last()) + hex_byte(bytes.last())
    }
}

/// Bytes as lowercase hexadecimal.
pub fn hex(bytes: &[u8]) -> (r: String)
    ensures
        r@ == hex_text(bytes@),
{
    let mut out: Vec<char> = Vec::new();
    let mut i: usize = 0;
    while i < bytes.len()
        invariant
            i <= bytes.len(),
            out@ == hex_text(bytes@.subrange(0, i as int)),
        decreases bytes.len() - i,
    {
        push_hex_byte(&mut out, bytes[i]);
        proof {
            let p = bytes@.subrange(0, i as int + 1);
            assert(p.drop_last() =~= bytes@.subrange(0, i as int));
        }
        i += 1;
    }
    assert(bytes@.subrange(0, bytes.len() as int) =~= bytes@);
    string_of(&out)
}

/// The content hash of a document or a media part: its SHA-256 digest in
/// lowercase hexadecimal.
pub fn content_hash(bytes: &[u8]) -> (r: String)
    ensures
        r@ == hex_text(sha256_of(bytes@)),
{
    let digest = sha256(bytes);
    hex(&digest)
}

/// Allocates the ids of a story's blocks: the prefix followed by a running
/// number.
pub struct IdAllocator {
    pub prefix: String,
    pub next: usize,
}

/// The id numbered `n` under `prefix`.
pub open spec fn block_id(prefix: Seq<char>, n: nat) -> Seq<char> {
    prefix + decimal(n)
}

impl IdAllocator {
    pub fn new(prefix: String) -> (a: IdAllocator)
        ensures
            a.prefix == prefix,
            a.next == 0,
    {
        IdAllocator { prefix, next: 0 }
    }

    /// The id that the next block will get.
    pub fn peek(&self) -> (r: String)
        ensures
            r@ == block_id(self.prefix@, self.next as nat),
    {
        let mut out: Vec<char> = Vec::new();
        push_str(&mut out, self.prefix.as_str());
        push_decimal(&mut out, self.next as u64);
        string_of(&out)
    }

    /// Takes the next id (the count stops at `usize::MAX`).
    pub fn next(&mut self) -> (r: String)
        ensures
            r@ == block_id(old(self).prefix@, old(self).next as nat),
            final(self).prefix == old(self).prefix,
            final(self).next == if old(self).next < usize::MAX {
                old(self).next + 1
            } else {
                old(self).next as int
            },
    {
        let id = self.peek();
        self.next = self.next.saturating_add(1);
        id
    }
}

proof fn lemma_decimal_len(n: nat)
    ensures
        decimal(n).len() >= 1,
        n >= 10 ==> decimal(n).len() >= 2,
        decimal(n).len() == 1 ==> n < 10,
        n < 10 ==> decimal(n) == seq![digit_char(n)],
        n >= 10 ==> decimal(n) == decimal(n / 10).push(digit_char(n % 10)),
    decreases n,
{
    if n >= 10 {
        lemma_decimal_len(n / 10);
    }
}

proof fn lemma_digit_char_injective(a: nat, b: nat)
    requires
        a < 10,
        b < 10,
        digit_char(a) == digit_char(b),
    ensures
        a == b,
{
}

proof fn lemma_decimal_injective(a: nat, b: nat)
    requires
        decimal(a) == decimal(b),
    ensures
        a == b,
    decreases a,
{
    lemma_decimal_len(a);
    lemma_decimal_len(b);
    if a >= 10 && b >= 10 {
        let da = decimal(a);
        assert(da.drop_last() == decimal(a / 10));
        assert(decimal(b).drop_last() == decimal(b / 10));
        lemma_decimal_injective(a / 10, b / 10);
        assert(decimal(a).last() == digit_char(a % 10));
        assert(decimal(b).last() == digit_char(b % 10));
        assert(digit_char(a % 10) == digit_char(b % 10));
        lemma_digit_char_injective(a % 10, b % 10);
    } else if a < 10 && b < 10 {
        assert(seq![digit_char(a)][0] == digit_char(a));
        assert(seq![digit_char(b)][0] == digit_char(b));
        assert(decimal(a)[0] == decimal(b)[0]);
        lemma_digit_char_injective(a, b);
    }
}

/// Block ids never repeat within a story: the ids numbered `a` and `b` under
/// one prefix differ whenever `a` and `b` do.
pub proof fn allocated_ids_are_distinct(prefix: Seq<char>, a: nat, b: nat)
    requires
        a != b,
    ensures
        block_id(prefix, a) != block_id(prefix, b),
{
    if block_id(prefix, a) == block_id(prefix, b) {
        let x = block_id(prefix, a);
        assert(x.subrange(prefix.len() as int, x.len() as int) =~= decimal(a));
        assert(block_id(prefix, b).subrange(prefix.len() as int, x.len() as int) =~= decimal(b));
        lemma_decimal_injective(a, b);
    }
}

/// How deep fields may nest before inner ones are suppressed.
pub const MAX_FIELD_DEPTH: usize = 16;

/// One open field: its instruction so far and whether its result has begun.
pub struct FieldFrame {
    pub instruction: String,
    pub result: bool,
}

/// The fields open in a story, and the count of begins suppressed past the
/// depth limit. Text is visible only where every open field shows its
/// result; instructions go to hidden items.
pub struct FieldMachine {
    pub stack: Vec<FieldFrame>,
    pub overflow: usize,
}

/// The open fields as values.
pub open spec fn frames(s: Seq<FieldFrame>) -> Seq<(Seq<char>, bool)> {
    s.map_values(|f: FieldFrame| (f.instruction@, f.result))
}

/// A hidden item as values.
pub open spec fn item_view(h: HiddenItem) -> (Seq<char>, Option<Seq<char>>, Seq<char>) {
    (
        h.kind@,
        match h.element {
            Some(e) => Some(e@),
            None => None,
        },
        h.content@,
    )
}

pub open spec fn items(v: Seq<HiddenItem>) -> Seq<(Seq<char>, Option<Seq<char>>, Seq<char>)> {
    v.map_values(|h: HiddenItem| item_view(h))
}

/// The hidden items after recording instruction `instruction` of a field at
/// block `target`: nothing for a blank instruction or one already recorded
/// there, else a new `field` item.
pub open spec fn pushed_field(
    hidden: Seq<(Seq<char>, Option<Seq<char>>, Seq<char>)>,
    target: Seq<char>,
    instruction: Seq<char>,
) -> Seq<(Seq<char>, Option<Seq<char>>, Seq<char>)> {
    let t = trim(instruction);
    if t.len() == 0 || hidden.contains(("field"@, Some(target), t)) {
        hidden
    } else {
        hidden.push(("field"@, Some(target), t))
    }
}

/// Index of the last `field` item at `target`, or -1.
pub open spec fn last_field_at(hidden: Seq<(Seq<char>, Option<Seq<char>>, Seq<char>)>, target: Seq<char>) -> int
    decreases hidden.len(),
{
    if hidden.len() == 0 {
        -1
    } else if hidden.last().0 == "field"@ && hidden.last().1 == Some(target) {
        hidden.len() - 1
    } else {
        last_field_at(hidden.drop_last(), target)
    }
}

/// The hidden items after the instruction of the field at `target` grew to
/// `instruction`: its last `field` item there is updated, or one is added.
pub open spec fn upserted_field(
    hidden: Seq<(Seq<char>, Option<Seq<char>>, Seq<char>)>,
    target: Seq<char>,
    instruction: Seq<char>,
) -> Seq<(Seq<char>, Option<Seq<char>>, Seq<char>)> {
    let t = trim(instruction);
    if t.len() == 0 {
        hidden
    } else if last_field_at(hidden, target) >= 0 {
        hidden.update(last_field_at(hidden, target), ("field"@, Some(target), t))
    } else {
        hidden.push(("field"@, Some(target), t))
    }
}

fn trimmed(s: &str) -> (r: String)
    ensures
        r@ == trim(s@),
{
    let v = chars_of(s);
    let (a, b) = trim_bounds(&v);
    string_of(&slice_chars(&v, a, b))
}

fn is_field_at(h: &HiddenItem, target: &str) -> (r: bool)
    ensures
        r == (item_view(*h).0 == "field"@ && item_view(*h).1 == Some(target@)),
{
    str_eq(h.kind.as_str(), "field") && match &h.element {
        Some(e) => str_eq(e.as_str(), target),
        None => false,
    }
}

fn field_item(target: &str, content: String) -> (h: HiddenItem)
    ensures
        item_view(h) == ("field"@, Some(target@), content@),
{
    HiddenItem { kind: "field".to_string(), element: Some(target.to_string()), content }
}

/// Records a field instruction at `target` as a hidden item (see
/// `pushed_field`).
pub fn push_field_hidden(target: &str, instruction: &str, hidden: &mut Vec<HiddenItem>)
    ensures
        items(final(hidden)@) == pushed_field(items(old(hidden)@), target@, instruction@),
{
    let t = trimmed(instruction);
    if t.as_str().is_empty() {
        return;
    }
    let mut i: usize = 0;
    while i < hidden.len()
        invariant
            i <= hidden.len(),
            t@ == trim(instruction@),
            hidden@ == old(hidden)@,
            forall|k: int| 0 <= k < i ==> #[trigger] items(hidden@)[k] != ("field"@, Some(target@), t@),
        decreases hidden.len() - i,
    {
        if is_field_at(&hidden[i], target) && str_eq(hidden[i].content.as_str(), t.as_str()) {
            assert(items(hidden@)[i as int] == ("field"@, Some(target@), t@));
            return;
        }
        i += 1;
    }
    let ghost before = items(hidden@);
    hidden.push(field_item(target, t));
    proof {
        assert(!before.contains(("field"@, Some(target@), trim(instruction@))));
        assert(items(hidden@) =~= before.push(("field"@, Some(target@), trim(instruction@))));
    }
}

/// Records the instruction of the field at `target` so far (see
/// `upserted_field`).
pub fn upsert_field_hidden(target: &str, instruction: &str, hidden: &mut Vec<HiddenItem>)
    ensures
        items(final(hidden)@) == upserted_field(items(old(hidden)@), target@, instruction@),
{
    let t = trimmed(instruction);
    if t.as_str().is_empty() {
        return;
    }
    let ghost before = items(hidden@);
    let mut k: usize = hidden.len();
    assert(before.subrange(0, hidden.len() as int) =~= before);
    while k > 0
        invariant
            k <= hidden.len(),
            t@ == trim(instruction@),
            t@.len() > 0,
            before == items(old(hidden)@),
            hidden@ == old(hidden)@,
            last_field_at(before, target@) == last_field_at(before.subrange(0, k as int), target@),
        decreases k,
    {
        let ghost p = before.subrange(0, k as int);
        assert(p.drop_last() =~= before.subrange(0, k - 1));
        assert(p.last() == before[k - 1]);
        if is_field_at(&hidden[k - 1], target) {
            let item = field_item(target, t);
            hidden.set(k - 1, item);
            proof {
                assert(items(hidden@) =~= before.update(k - 1, ("field"@, Some(target@), trim(instruction@))));
            }
            return;
        }
        k -= 1;
    }
    assert(before.subrange(0, 0) =~= Seq::<(Seq<char>, Option<Seq<char>>, Seq<char>)>::empty());
    hidden.push(field_item(target, t));
    proof {
        assert(items(hidden@) =~= before.push(("field"@, Some(target@), trim(instruction@))));
    }
}


/// The field machine as values.
pub struct FieldState {
    pub stack: Seq<(Seq<char>, bool)>,
    pub overflow: nat,
}

pub open spec fn field_state(m: FieldMachine) -> FieldState {
    FieldState { stack: frames(m.stack@), overflow: m.overflow as nat }
}

/// A field operation's effect: the new state, the hidden items and the
/// warnings raised.
pub struct FieldEffect {
    pub state: FieldState,
    pub hidden: Seq<(Seq<char>, Option<Seq<char>>, Seq<char>)>,
    pub warnings: Seq<Seq<char>>,
}

/// Text shows only where no field is suppressed and every open field has
/// reached its result.
pub open spec fn shows_text(st: FieldState) -> bool {
    st.overflow == 0 && forall|i: int| 0 <= i < st.stack.len() ==> #[trigger] st.stack[i].1
}

pub open spec fn depth_warning_text() -> Seq<char> {
    "field nesting depth limit 16 exceeded; nested field suppressed"@
}

/// How many suppressed field levels the machine counts; past it, further
/// ones are not counted.
pub open spec fn suppressed_limit() -> nat {
    (usize::MAX - MAX_FIELD_DEPTH) as nat
}

/// A field begins: a new frame, or (past the depth limit) one more
/// suppressed level (counted up to `suppressed_limit`).
pub open spec fn begin_effect(st: FieldState, hidden: Seq<(Seq<char>, Option<Seq<char>>, Seq<char>)>) -> FieldEffect {
    if st.stack.len() >= MAX_FIELD_DEPTH {
        FieldEffect {
            state: FieldState {
                overflow: if st.overflow < suppressed_limit() {
                    st.overflow + 1
                } else {
                    st.overflow
                },
                ..st
            },
            hidden,
            warnings: seq![depth_warning_text()],
        }
    } else {
        FieldEffect {
            state: FieldState { stack: st.stack.push((Seq::empty(), false)), ..st },
            hidden,
            warnings: Seq::empty(),
        }
    }
}

/// Instruction text arrives at block `target`: it extends the innermost
/// field's instruction (whose hidden item is updated), or, outside any field,
/// is hidden on its own with a warning.
pub open spec fn instruction_effect(
    st: FieldState,
    value: Seq<char>,
    target: Seq<char>,
    hidden: Seq<(Seq<char>, Option<Seq<char>>, Seq<char>)>,
) -> FieldEffect {
    if st.overflow > 0 {
        FieldEffect { state: st, hidden, warnings: Seq::empty() }
    } else if st.stack.len() > 0 {
        let last = st.stack.last();
        let instruction = last.0 + value;
        FieldEffect {
            state: FieldState { stack: st.stack.drop_last().push((instruction, last.1)), ..st },
            hidden: upserted_field(hidden, target, instruction),
            warnings: Seq::empty(),
        }
    } else {
        FieldEffect {
            state: st,
            hidden: pushed_field(hidden, target, value),
            warnings: seq!["field instruction appeared outside a field; instruction hidden"@],
        }
    }
}

/// The separator of the innermost field: its result begins.
pub open spec fn separate_effect(
    st: FieldState,
    target: Seq<char>,
    hidden: Seq<(Seq<char>, Option<Seq<char>>, Seq<char>)>,
) -> FieldEffect {
    if st.overflow > 0 {
        FieldEffect { state: st, hidden, warnings: Seq::empty() }
    } else if st.stack.len() == 0 {
        FieldEffect {
            state: st,
            hidden,
            warnings: seq!["field separator appeared without a matching begin"@],
        }
    } else {
        let last = st.stack.last();
        FieldEffect {
            state: FieldState { stack: st.stack.drop_last().push((last.0, true)), ..st },
            hidden: pushed_field(hidden, target, last.0),
            warnings: Seq::empty(),
        }
    }
}

/// The end of the innermost field (or of one suppressed level).
pub open spec fn end_effect(
    st: FieldState,
    target: Seq<char>,
    hidden: Seq<(Seq<char>, Option<Seq<char>>, Seq<char>)>,
) -> FieldEffect {
    if st.overflow > 0 {
        FieldEffect {
            state: FieldState { overflow: (st.overflow - 1) as nat, ..st },
            hidden,
            warnings: Seq::empty(),
        }
    } else if st.stack.len() == 0 {
        FieldEffect {
            state: st,
            hidden,
            warnings: seq!["field end appeared without a matching begin"@],
        }
    } else {
        let last = st.stack.last();
        FieldEffect {
            state: FieldState { stack: st.stack.drop_last(), ..st },
            hidden: pushed_field(hidden, target, last.0),
            warnings: if last.1 {
                Seq::empty()
            } else {
                seq!["field ended without a result separator; instruction hidden"@]
            },
        }
    }
}

pub open spec fn unclosed_warning(n: nat) -> Seq<char> {
    "story ended with "@ + decimal(n) + " unclosed field level(s); instructions hidden"@
}

fn append_string(s: &mut String, t: &str)
    ensures
        final(s)@ == old(s)@ + t@,
{
    let mut v = chars_of(s.as_str());
    push_str(&mut v, t);
    *s = string_of(&v);
}

impl FieldMachine {
    pub open spec fn wf(&self) -> bool {
        self.stack.len() <= MAX_FIELD_DEPTH && self.overflow <= suppressed_limit()
    }

    pub fn new() -> (m: FieldMachine)
        ensures
            m.wf(),
            field_state(m) == (FieldState { stack: Seq::empty(), overflow: 0 }),
    {
        let m = FieldMachine { stack: Vec::new(), overflow: 0 };
        assert(frames(m.stack@) =~= Seq::empty());
        m
    }

    pub fn begin(&mut self, warnings: &mut Vec<String>)
        requires
            old(self).wf(),
        ensures
            final(self).wf(),
            ({
                let e = begin_effect(field_state(*old(self)), Seq::empty());
                &&& field_state(*final(self)) == e.state
                &&& texts(final(warnings)@) == texts(old(warnings)@) + e.warnings
            }),
    {
        let ghost w0 = texts(warnings@);
        if self.stack.len() >= MAX_FIELD_DEPTH {
            if self.overflow < usize::MAX - MAX_FIELD_DEPTH {
                self.overflow = self.overflow + 1;
            }
            warnings.push("field nesting depth limit 16 exceeded; nested field suppressed".to_string());
            assert(texts(warnings@) =~= w0 + seq![depth_warning_text()]);
            assert(frames(self.stack@) =~= frames(old(self).stack@));
            return;
        }
        let ghost before = frames(self.stack@);
        self.stack.push(FieldFrame { instruction: String::new(), result: false });
        assert(frames(self.stack@) =~= before.push((Seq::empty(), false)));
        assert(texts(warnings@) =~= w0);
    }

    pub fn instruction(
        &mut self,
        value: &str,
        target: &str,
        hidden: &mut Vec<HiddenItem>,
        warnings: &mut Vec<String>,
    )
        requires
            old(self).wf(),
        ensures
            final(self).wf(),
            ({
                let e = instruction_effect(field_state(*old(self)), value@, target@, items(old(hidden)@));
                &&& field_state(*final(self)) == e.state
                &&& items(final(hidden)@) == e.hidden
                &&& texts(final(warnings)@) == texts(old(warnings)@) + e.warnings
            }),
    {
        let ghost w0 = texts(warnings@);
        if self.overflow > 0 {
            assert(texts(warnings@) =~= w0);
            return;
        }
        if self.stack.len() > 0 {
            let ghost before = frames(self.stack@);
            let mut frame = self.stack.pop().unwrap();
            append_string(&mut frame.instruction, value);
            upsert_field_hidden(target, frame.instruction.as_str(), hidden);
            let ghost fv = (frame.instruction@, frame.result);
            self.stack.push(frame);
            assert(frames(self.stack@) =~= before.drop_last().push(fv));
            assert(texts(warnings@) =~= w0);
        } else {
            warnings.push("field instruction appeared outside a field; instruction hidden".to_string());
            push_field_hidden(target, value, hidden);
            assert(texts(warnings@) =~= w0 + seq![
                "field instruction appeared outside a field; instruction hidden"@,
            ]);
        }
    }

    pub fn separate(&mut self, target: &str, hidden: &mut Vec<HiddenItem>, warnings: &mut Vec<String>)
        requires
            old(self).wf(),
        ensures
            final(self).wf(),
            ({
                let e = separate_effect(field_state(*old(self)), target@, items(old(hidden)@));
                &&& field_state(*final(self)) == e.state
                &&& items(final(hidden)@) == e.hidden
                &&& texts(final(warnings)@) == texts(old(warnings)@) + e.warnings
            }),
    {
        let ghost w0 = texts(warnings@);
        if self.overflow > 0 {
            assert(texts(warnings@) =~= w0);
            return;
        }
        if self.stack.len() == 0 {
            warnings.push("field separator appeared without a matching begin".to_string());
            assert(texts(warnings@) =~= w0 + seq!["field separator appeared without a matching begin"@]);
            return;
        }
        let ghost before = frames(self.stack@);
        let mut frame = self.stack.pop().unwrap();
        frame.result = true;
        push_field_hidden(target, frame.instruction.as_str(), hidden);
        let ghost fv = (frame.instruction@, frame.result);
        self.stack.push(frame);
        assert(frames(self.stack@) =~= before.drop_last().push(fv));
        assert(texts(warnings@) =~= w0);
    }

    pub fn end(&mut self, target: &str, hidden: &mut Vec<HiddenItem>, warnings: &mut Vec<String>)
        requires
            old(self).wf(),
        ensures
            final(self).wf(),
            ({
                let e = end_effect(field_state(*old(self)), target@, items(old(hidden)@));
                &&& field_state(*final(self)) == e.state
                &&& items(final(hidden)@) == e.hidden
                &&& texts(final(warnings)@) == texts(old(warnings)@) + e.warnings
            }),
    {
        let ghost w0 = texts(warnings@);
        if self.overflow > 0 {
            self.overflow = self.overflow - 1;
            assert(texts(warnings@) =~= w0);
            assert(frames(self.stack@) =~= frames(old(self).stack@));
            return;
        }
        let ghost before = frames(self.stack@);
        let frame = match self.stack.pop() {
            Some(f) => f,
            None => {
                warnings.push("field end appeared without a matching begin".to_string());
                assert(texts(warnings@) =~= w0 + seq!["field end appeared without a matching begin"@]);
                return;
            },
        };
        assert(frames(self.stack@) =~= before.drop_last());
        push_field_hidden(target, frame.instruction.as_str(), hidden);
        if !frame.result {
            warnings.push("field ended without a result separator; instruction hidden".to_string());
            assert(texts(warnings@) =~= w0 + seq![
                "field ended without a result separator; instruction hidden"@,
            ]);
        } else {
            assert(texts(warnings@) =~= w0);
        }
    }

    /// Whether text shows at this point (see `shows_text`).
    pub fn visible(&self) -> (r: bool)
        ensures
            r == shows_text(field_state(*self)),
    {
        if self.overflow != 0 {
            return false;
        }
        let mut i: usize = 0;
        while i < self.stack.len()
            invariant
                i <= self.stack.len(),
                forall|k: int| 0 <= k < i ==> #[trigger] frames(self.stack@)[k].1,
            decreases self.stack.len() - i,
        {
            if !self.stack[i].result {
                proof {
                    let st = field_state(*self);
                    assert(!st.stack[i as int].1);
                    assert(!shows_text(st));
                }
                return false;
            }
            i += 1;
        }
        true
    }

    /// Closes the story: open fields are dropped, with a warning that counts
    /// them.
    pub fn finish(&mut self, warnings: &mut Vec<String>)
        requires
            old(self).wf(),
        ensures
            final(self).wf(),
            field_state(*final(self)) == (FieldState { stack: Seq::empty(), overflow: 0 }),
            texts(final(warnings)@) == texts(old(warnings)@) + if old(self).stack.len() > 0
                || old(self).overflow != 0 {
                seq![unclosed_warning((old(self).stack.len() + old(self).overflow) as nat)]
            } else {
                Seq::empty()
            },
    {
        let ghost w0 = texts(warnings@);
        if self.stack.len() > 0 || self.overflow != 0 {
            let n = self.stack.len() + self.overflow;
            let mut msg: Vec<char> = Vec::new();
            push_str(&mut msg, "story ended with ");
            push_decimal(&mut msg, n as u64);
            push_str(&mut msg, " unclosed field level(s); instructions hidden");
            warnings.push(string_of(&msg));
            assert(texts(warnings@) =~= w0 + seq![unclosed_warning(n as nat)]);
        } else {
            assert(texts(warnings@) =~= w0);
        }
        self.stack.clear();
        self.overflow = 0;
        assert(frames(self.stack@) =~= Seq::empty());
    }
}

/// A field hides its instruction: right after a field begins (within the
/// depth limit), no text shows until its separator.
pub proof fn a_new_field_hides_text(st: FieldState)
    requires
        st.stack.len() < MAX_FIELD_DEPTH,
    ensures
        !shows_text(begin_effect(st, Seq::empty()).state),
{
    let s2 = begin_effect(st, Seq::empty()).state;
    assert(!s2.stack[s2.stack.len() - 1].1);
}

/// The separator of a new field shows text again exactly where it showed
/// before the field began.
pub proof fn separator_restores_visibility(
    st: FieldState,
    target: Seq<char>,
    hidden: Seq<(Seq<char>, Option<Seq<char>>, Seq<char>)>,
)
    requires
        st.stack.len() < MAX_FIELD_DEPTH,
    ensures
        shows_text(separate_effect(begin_effect(st, hidden).state, target, hidden).state) == shows_text(st),
{
    let s1 = begin_effect(st, hidden).state;
    let s2 = separate_effect(s1, target, hidden).state;
    if st.overflow == 0 {
        assert(s2.stack =~= st.stack.push((Seq::empty(), true)));
        if shows_text(st) {
            assert forall|i: int| 0 <= i < s2.stack.len() implies #[trigger] s2.stack[i].1 by {
                if i < st.stack.len() {
                    assert(s2.stack[i] == st.stack[i]);
                }
            }
        } else {
            let k = choose|k: int| 0 <= k < st.stack.len() && !st.stack[k].1;
            assert(s2.stack[k] == st.stack[k]);
        }
    }
}

/// A field that begins and ends with nothing in between leaves the machine
/// as it was and records no hidden item.
pub proof fn begin_then_end_restores_the_state(
    st: FieldState,
    target: Seq<char>,
    hidden: Seq<(Seq<char>, Option<Seq<char>>, Seq<char>)>,
)
    requires
        st.stack.len() < MAX_FIELD_DEPTH,
        st.overflow == 0,
    ensures
        end_effect(begin_effect(st, hidden).state, target, hidden).state == st,
        end_effect(begin_effect(st, hidden).state, target, hidden).hidden == hidden,
{
    let s1 = begin_effect(st, hidden).state;
    assert(s1.stack.drop_last() =~= st.stack);
    assert(trim(Seq::<char>::empty()) =~= Seq::<char>::empty()) by {
        reveal_with_fuel(crate::text::trim_start, 2);
        reveal_with_fuel(crate::text::trim_end, 2);
    }
}


/// The kind of a note.
#[derive(Debug, Clone, Copy, PartialEq, Eq, Structural)]
pub enum NoteKind {
    Footnote,
    Endnote,
}

/// One piece of a paragraph's inline content, in document order.
pub enum InlineEvent {
    Text { content: String, properties: Option<Node>, href: Option<String> },
    FieldBegin,
    FieldSeparate,
    FieldEnd,
    Instruction(String),
    Hidden { kind: String, content: String },
    Comment(String),
    Note(NoteKind, String),
    Break(BreakKind),
    PageHint,
    Drawing(Node),
}

/// An inline event as values.
pub enum EventView {
    Text(Seq<char>, Option<NodeView>, Option<Seq<char>>),
    FieldBegin,
    FieldSeparate,
    FieldEnd,
    Instruction(Seq<char>),
    Hidden(Seq<char>, Seq<char>),
    Comment(Seq<char>),
    Note(NoteKind, Seq<char>),
    Break(BreakKind),
    PageHint,
    Drawing(NodeView),
}

pub open spec fn opt_view(n: Option<Node>) -> Option<NodeView> {
    match n {
        Some(x) => Some(node_view(x)),
        None => None,
    }
}

pub open spec fn opt_chars(o: Option<String>) -> Option<Seq<char>> {
    match o {
        Some(s) => Some(s@),
        None => None,
    }
}

pub open spec fn event_view(e: InlineEvent) -> EventView {
    match e {
        InlineEvent::Text { content, properties, href } => EventView::Text(
            content@,
            opt_view(properties),
            opt_chars(href),
        ),
        InlineEvent::FieldBegin => EventView::FieldBegin,
        InlineEvent::FieldSeparate => EventView::FieldSeparate,
        InlineEvent::FieldEnd => EventView::FieldEnd,
        InlineEvent::Instruction(s) => EventView::Instruction(s@),
        InlineEvent::Hidden { kind, content } => EventView::Hidden(kind@, content@),
        InlineEvent::Comment(s) => EventView::Comment(s@),
        InlineEvent::Note(k, s) => EventView::Note(k, s@),
        InlineEvent::Break(k) => EventView::Break(k),
        InlineEvent::PageHint => EventView::PageHint,
        InlineEvent::Drawing(n) => EventView::Drawing(node_view(n)),
    }
}

pub open spec fn event_views(v: Seq<InlineEvent>) -> Seq<EventView> {
    v.map_values(|e: InlineEvent| event_view(e))
}

/// The visible text under a node: its `t` and `delText` text, in document
/// order, never that of `instrText`.
pub open spec fn visible_text(n: Node) -> Seq<char>
    decreases n, 1nat,
{
    if local_part(n.name@) == "instrText"@ {
        Seq::empty()
    } else {
        let own = if local_part(n.name@) == "t"@ || local_part(n.name@) == "delText"@ {
            n.text@
        } else {
            Seq::empty()
        };
        own + visible_forest(n.children@)
    }
}

pub open spec fn visible_forest(s: Seq<Node>) -> Seq<char>
    decreases s, 0nat,
{
    if s.len() == 0 {
        Seq::empty()
    } else {
        visible_forest(s.subrange(0, s.len() - 1)) + visible_text(s[s.len() - 1])
    }
}

fn collect_visible_text(node: &Node, out: &mut Vec<char>)
    ensures
        final(out)@ == old(out)@ + visible_text(*node),
    decreases node, 1nat,
{
    proof {
        reveal_strlit("instrText");
        reveal_strlit("t");
        reveal_strlit("delText");
    }
    let name = node.local_name();
    if str_eq(name.as_str(), "instrText") {
        assert(out@ =~= old(out)@ + Seq::<char>::empty());
        return;
    }
    if str_eq(name.as_str(), "t") || str_eq(name.as_str(), "delText") {
        push_str(out, node.text.as_str());
    }
    let ghost mid = out@;
    assert(decreases_to!(node => node.children@));
    collect_visible_forest(&node.children, out);
    proof {
        let own = if local_part(node.name@) == "t"@ || local_part(node.name@) == "delText"@ {
            node.text@
        } else {
            Seq::<char>::empty()
        };
        assert(mid =~= old(out)@ + own);
        assert(out@ =~= old(out)@ + (own + visible_forest(node.children@)));
    }
}

fn collect_visible_forest(nodes: &Vec<Node>, out: &mut Vec<char>)
    ensures
        final(out)@ == old(out)@ + visible_forest(nodes@),
    decreases nodes@, 0nat,
{
    let ghost start = out@;
    let mut i: usize = 0;
    assert(start =~= start + visible_forest(nodes@.subrange(0, 0)));
    while i < nodes.len()
        invariant
            i <= nodes.len(),
            out@ == start + visible_forest(nodes@.subrange(0, i as int)),
        decreases nodes.len() - i,
    {
        let ghost p = nodes@.subrange(0, i as int + 1);
        proof {
            assert(p.subrange(0, p.len() - 1) =~= nodes@.subrange(0, i as int));
            assert(p[p.len() - 1] == nodes@[i as int]);
        }
        assert(decreases_to!(nodes@ => nodes@[i as int]));
        collect_visible_text(&nodes[i], out);
        proof {
            assert(out@ =~= start + visible_forest(p));
        }
        i += 1;
    }
    assert(nodes@.subrange(0, nodes.len() as int) =~= nodes@);
}

/// The visible text under a node (see `visible_text`).
pub fn visible_descendant_text(node: &Node) -> (r: String)
    ensures
        r@ == visible_text(*node),
{
    let mut out: Vec<char> = Vec::new();
    collect_visible_text(node, &mut out);
    assert(out@ =~= visible_text(*node));
    string_of(&out)
}

/// Inline events with the warnings raised while collecting them.
pub struct Collected {
    pub events: Seq<EventView>,
    pub warnings: Seq<Seq<char>>,
}

pub open spec fn none_collected() -> Collected {
    Collected { events: Seq::empty(), warnings: Seq::empty() }
}

pub open spec fn one_event(e: EventView) -> Collected {
    Collected { events: seq![e], warnings: Seq::empty() }
}

pub open spec fn joined(a: Collected, b: Collected) -> Collected {
    Collected { events: a.events + b.events, warnings: a.warnings + b.warnings }
}

pub open spec fn attr_chars(n: Node, name: Seq<char>) -> Option<Seq<char>> {
    match attr_value(n.attrs, name) {
        Some(v) => Some(v@),
        None => None,
    }
}

/// The link target of a hyperlink: its relationship's target, else its
/// anchor as a fragment, else the enclosing link's.
pub open spec fn link_target(n: Node, rels: Relationships, href: Option<Seq<char>>) -> Option<Seq<char>> {
    let from_rel = match attr_chars(n, "id"@) {
        Some(id) => match crate::strmap::lookup(rels.by_id.entries@, id) {
            Some(rel) => Some(rel.target@),
            None => None,
        },
        None => None,
    };
    if from_rel is Some {
        from_rel
    } else {
        match attr_chars(n, "anchor"@) {
            Some(a) => Some("#"@ + a),
            None => href,
        }
    }
}

/// The events of the inline content under `n`: tracked insertions and
/// deletions become hidden items (an insertion's content also stays as
/// content), simple fields and complex field characters become field events,
/// runs yield text, breaks, drawings and references, and other containers
/// are read through.
pub open spec fn node_events(n: Node, rels: Relationships, href: Option<Seq<char>>) -> Collected
    decreases n, 2nat,
{
    let name = local_part(n.name@);
    if name == "ins"@ || name == "moveTo"@ {
        let content = visible_text(n);
        let own = if content.len() > 0 {
            one_event(EventView::Hidden("tracked-insert"@, content))
        } else {
            none_collected()
        };
        joined(own, forest_events(n.children@, rels, href))
    } else if name == "del"@ || name == "moveFrom"@ {
        let content = visible_text(n);
        if content.len() > 0 {
            one_event(EventView::Hidden("tracked-delete"@, content))
        } else {
            none_collected()
        }
    } else if name == "fldSimple"@ {
        let instruction = match attr_chars(n, "instr"@) {
            Some(i) => seq![EventView::Instruction(i)],
            None => Seq::empty(),
        };
        let inner = forest_events(n.children@, rels, href);
        Collected {
            events: seq![EventView::FieldBegin] + instruction + seq![EventView::FieldSeparate]
                + inner.events + seq![EventView::FieldEnd],
            warnings: inner.warnings,
        }
    } else if name == "hyperlink"@ {
        forest_events(n.children@, rels, link_target(n, rels, href))
    } else if name == "r"@ {
        run_events(n.children@, opt_view(first_named(n.children@, "rPr"@)), rels, href)
    } else if name == "commentRangeStart"@ {
        match attr_chars(n, "id"@) {
            Some(id) => one_event(EventView::Comment(id)),
            None => none_collected(),
        }
    } else if name == "proofErr"@ || name == "bookmarkStart"@ || name == "bookmarkEnd"@ || name
        == "commentRangeEnd"@ {
        none_collected()
    } else {
        forest_events(n.children@, rels, href)
    }
}

pub open spec fn forest_events(s: Seq<Node>, rels: Relationships, href: Option<Seq<char>>) -> Collected
    decreases s, 0nat,
{
    if s.len() == 0 {
        none_collected()
    } else {
        joined(
            forest_events(s.subrange(0, s.len() - 1), rels, href),
            node_events(s[s.len() - 1], rels, href),
        )
    }
}

/// The events of one child of a run.
pub open spec fn run_child_events(
    c: Node,
    props: Option<NodeView>,
    rels: Relationships,
    href: Option<Seq<char>>,
) -> Collected
    decreases c, 3nat,
{
    let name = local_part(c.name@);
    if name == "rPr"@ {
        none_collected()
    } else if name == "t"@ {
        one_event(EventView::Text(c.text@, props, href))
    } else if name == "tab"@ {
        one_event(EventView::Text("\t"@, props, href))
    } else if name == "noBreakHyphen"@ {
        one_event(EventView::Text("\u{2011}"@, props, href))
    } else if name == "instrText"@ {
        one_event(EventView::Instruction(c.text@))
    } else if name == "fldChar"@ {
        match attr_chars(c, "fldCharType"@) {
            Some(t) => if t == "begin"@ {
                one_event(EventView::FieldBegin)
            } else if t == "separate"@ {
                one_event(EventView::FieldSeparate)
            } else if t == "end"@ {
                one_event(EventView::FieldEnd)
            } else {
                Collected { events: Seq::empty(), warnings: seq!["field character has an unknown type"@] }
            },
            None => Collected {
                events: Seq::empty(),
                warnings: seq!["field character has an unknown type"@],
            },
        }
    } else if name == "br"@ {
        match attr_chars(c, "type"@) {
            Some(t) => if t == "page"@ {
                one_event(EventView::Break(BreakKind::Page))
            } else if t == "column"@ {
                one_event(EventView::Break(BreakKind::Column))
            } else {
                one_event(EventView::Text("\n"@, props, href))
            },
            None => one_event(EventView::Text("\n"@, props, href)),
        }
    } else if name == "lastRenderedPageBreak"@ {
        one_event(EventView::PageHint)
    } else if name == "drawing"@ || name == "pict"@ || name == "object"@ {
        one_event(EventView::Drawing(node_view(c)))
    } else if name == "footnoteReference"@ {
        match attr_chars(c, "id"@) {
            Some(id) => one_event(EventView::Note(NoteKind::Footnote, id)),
            None => none_collected(),
        }
    } else if name == "endnoteReference"@ {
        match attr_chars(c, "id"@) {
            Some(id) => one_event(EventView::Note(NoteKind::Endnote, id)),
            None => none_collected(),
        }
    } else if name == "commentReference"@ {
        match attr_chars(c, "id"@) {
            Some(id) => one_event(EventView::Comment(id)),
            None => none_collected(),
        }
    } else {
        node_events(c, rels, href)
    }
}

pub open spec fn run_events(
    s: Seq<Node>,
    props: Option<NodeView>,
    rels: Relationships,
    href: Option<Seq<char>>,
) -> Collected
    decreases s, 1nat,
{
    if s.len() == 0 {
        none_collected()
    } else {
        joined(
            run_events(s.subrange(0, s.len() - 1), props, rels, href),
            run_child_events(s[s.len() - 1], props, rels, href),
        )
    }
}


fn clone_opt_string(o: &Option<String>) -> (r: Option<String>)
    ensures
        r == *o,
{
    match o {
        Some(s) => Some(s.clone()),
        None => None,
    }
}

fn clone_opt_node(o: &Option<Node>) -> (r: Option<Node>)
    ensures
        opt_view(r) == opt_view(*o),
{
    match o {
        Some(n) => Some(duplicate(n)),
        None => None,
    }
}

fn push_event(events: &mut Vec<InlineEvent>, e: InlineEvent)
    ensures
        event_views(final(events)@) == event_views(old(events)@).push(event_view(e)),
{
    events.push(e);
    assert(event_views(events@) =~= event_views(old(events)@).push(event_view(e)));
}

fn attr_string(n: &Node, name: &str) -> (r: Option<String>)
    ensures
        opt_chars(r) == attr_chars(*n, name@),
{
    match n.attr(name) {
        Some(v) => Some(v.to_string()),
        None => None,
    }
}

fn hyperlink_target(n: &Node, rels: &Relationships, href: &Option<String>) -> (r: Option<String>)
    ensures
        opt_chars(r) == link_target(*n, *rels, opt_chars(*href)),
{
    proof {
        reveal_strlit("#");
    }
    match n.attr("id") {
        Some(id) => match rels.get(id) {
            Some(rel) => {
                return Some(rel.target.clone());
            },
            None => {},
        },
        None => {},
    }
    match n.attr("anchor") {
        Some(a) => {
            let mut v: Vec<char> = Vec::new();
            v.push('#');
            push_str(&mut v, a);
            assert(v@ =~= "#"@ + a@);
            Some(string_of(&v))
        },
        None => clone_opt_string(href),
    }
}

fn text_event(content: String, props: &Option<Node>, href: &Option<String>) -> (e: InlineEvent)
    ensures
        event_view(e) == EventView::Text(content@, opt_view(*props), opt_chars(*href)),
{
    InlineEvent::Text { content, properties: clone_opt_node(props), href: clone_opt_string(href) }
}

fn collect_run_child(
    c: &Node,
    props: &Option<Node>,
    rels: &Relationships,
    href: &Option<String>,
    events: &mut Vec<InlineEvent>,
    warnings: &mut Vec<String>,
)
    ensures
        ({
            let x = run_child_events(*c, opt_view(*props), *rels, opt_chars(*href));
            &&& event_views(final(events)@) == event_views(old(events)@) + x.events
            &&& texts(final(warnings)@) == texts(old(warnings)@) + x.warnings
        }),
    decreases c, 3nat,
{
    proof {
        reveal_strlit("rPr");
        reveal_strlit("t");
        reveal_strlit("tab");
        reveal_strlit("noBreakHyphen");
        reveal_strlit("instrText");
        reveal_strlit("fldChar");
        reveal_strlit("br");
        reveal_strlit("lastRenderedPageBreak");
        reveal_strlit("drawing");
        reveal_strlit("pict");
        reveal_strlit("object");
        reveal_strlit("footnoteReference");
        reveal_strlit("endnoteReference");
        reveal_strlit("commentReference");
        reveal_strlit("begin");
        reveal_strlit("separate");
        reveal_strlit("end");
        reveal_strlit("page");
        reveal_strlit("column");
    }
    let ghost e0 = event_views(events@);
    let ghost w0 = texts(warnings@);
    let ghost x = run_child_events(*c, opt_view(*props), *rels, opt_chars(*href));
    let name = c.local_name();
    let n = name.as_str();
    if str_eq(n, "rPr") {
    } else if str_eq(n, "t") {
        push_event(events, text_event(c.text.clone(), props, href));
    } else if str_eq(n, "tab") {
        push_event(events, text_event("\t".to_string(), props, href));
    } else if str_eq(n, "noBreakHyphen") {
        push_event(events, text_event("\u{2011}".to_string(), props, href));
    } else if str_eq(n, "instrText") {
        push_event(events, InlineEvent::Instruction(c.text.clone()));
    } else if str_eq(n, "fldChar") {
        let kind = c.attr("fldCharType");
        let recognized = match kind {
            Some(t) => if str_eq(t, "begin") {
                push_event(events, InlineEvent::FieldBegin);
                true
            } else if str_eq(t, "separate") {
                push_event(events, InlineEvent::FieldSeparate);
                true
            } else if str_eq(t, "end") {
                push_event(events, InlineEvent::FieldEnd);
                true
            } else {
                false
            },
            None => false,
        };
        if !recognized {
            warnings.push("field character has an unknown type".to_string());
        }
    } else if str_eq(n, "br") {
        match c.attr("type") {
            Some(t) => if str_eq(t, "page") {
                push_event(events, InlineEvent::Break(BreakKind::Page));
            } else if str_eq(t, "column") {
                push_event(events, InlineEvent::Break(BreakKind::Column));
            } else {
                push_event(events, text_event("\n".to_string(), props, href));
            },
            None => {
                push_event(events, text_event("\n".to_string(), props, href));
            },
        }
    } else if str_eq(n, "lastRenderedPageBreak") {
        push_event(events, InlineEvent::PageHint);
    } else if str_eq(n, "drawing") || str_eq(n, "pict") || str_eq(n, "object") {
        push_event(events, InlineEvent::Drawing(duplicate(c)));
    } else if str_eq(n, "footnoteReference") {
        match attr_string(c, "id") {
            Some(id) => push_event(events, InlineEvent::Note(NoteKind::Footnote, id)),
            None => {},
        }
    } else if str_eq(n, "endnoteReference") {
        match attr_string(c, "id") {
            Some(id) => push_event(events, InlineEvent::Note(NoteKind::Endnote, id)),
            None => {},
        }
    } else if str_eq(n, "commentReference") {
        match attr_string(c, "id") {
            Some(id) => push_event(events, InlineEvent::Comment(id)),
            None => {},
        }
    } else {
        collect_node(c, rels, href, events, warnings);
        return;
    }
    proof {
        assert(event_views(events@) =~= e0 + x.events);
        assert(texts(warnings@) =~= w0 + x.warnings);
    }
}

fn collect_run(
    children: &Vec<Node>,
    props: &Option<Node>,
    rels: &Relationships,
    href: &Option<String>,
    events: &mut Vec<InlineEvent>,
    warnings: &mut Vec<String>,
)
    ensures
        ({
            let x = run_events(children@, opt_view(*props), *rels, opt_chars(*href));
            &&& event_views(final(events)@) == event_views(old(events)@) + x.events
            &&& texts(final(warnings)@) == texts(old(warnings)@) + x.warnings
        }),
    decreases children@, 1nat,
{
    let ghost e0 = event_views(events@);
    let ghost w0 = texts(warnings@);
    let ghost pv = opt_view(*props);
    let mut i: usize = 0;
    proof {
        assert(e0 =~= e0 + run_events(children@.subrange(0, 0), pv, *rels, opt_chars(*href)).events);
        assert(w0 =~= w0 + run_events(children@.subrange(0, 0), pv, *rels, opt_chars(*href)).warnings);
    }
    while i < children.len()
        invariant
            i <= children.len(),
            pv == opt_view(*props),
            ({
                let x = run_events(children@.subrange(0, i as int), pv, *rels, opt_chars(*href));
                &&& event_views(events@) == e0 + x.events
                &&& texts(warnings@) == w0 + x.warnings
            }),
        decreases children.len() - i,
    {
        let ghost p = children@.subrange(0, i as int + 1);
        proof {
            assert(p.subrange(0, p.len() - 1) =~= children@.subrange(0, i as int));
            assert(p[p.len() - 1] == children@[i as int]);
        }
        assert(decreases_to!(children@ => children@[i as int]));
        collect_run_child(&children[i], props, rels, href, events, warnings);
        proof {
            let x = run_events(p, pv, *rels, opt_chars(*href));
            assert(event_views(events@) =~= e0 + x.events);
            assert(texts(warnings@) =~= w0 + x.warnings);
        }
        i += 1;
    }
    assert(children@.subrange(0, children.len() as int) =~= children@);
}

fn collect_forest(
    nodes: &Vec<Node>,
    rels: &Relationships,
    href: &Option<String>,
    events: &mut Vec<InlineEvent>,
    warnings: &mut Vec<String>,
)
    ensures
        ({
            let x = forest_events(nodes@, *rels, opt_chars(*href));
            &&& event_views(final(events)@) == event_views(old(events)@) + x.events
            &&& texts(final(warnings)@) == texts(old(warnings)@) + x.warnings
        }),
    decreases nodes@, 0nat,
{
    let ghost e0 = event_views(events@);
    let ghost w0 = texts(warnings@);
    let mut i: usize = 0;
    proof {
        assert(e0 =~= e0 + forest_events(nodes@.subrange(0, 0), *rels, opt_chars(*href)).events);
        assert(w0 =~= w0 + forest_events(nodes@.subrange(0, 0), *rels, opt_chars(*href)).warnings);
    }
    while i < nodes.len()
        invariant
            i <= nodes.len(),
            ({
                let x = forest_events(nodes@.subrange(0, i as int), *rels, opt_chars(*href));
                &&& event_views(events@) == e0 + x.events
                &&& texts(warnings@) == w0 + x.warnings
            }),
        decreases nodes.len() - i,
    {
        let ghost p = nodes@.subrange(0, i as int + 1);
        proof {
            assert(p.subrange(0, p.len() - 1) =~= nodes@.subrange(0, i as int));
            assert(p[p.len() - 1] == nodes@[i as int]);
        }
        assert(decreases_to!(nodes@ => nodes@[i as int]));
        collect_node(&nodes[i], rels, href, events, warnings);
        proof {
            let x = forest_events(p, *rels, opt_chars(*href));
            assert(event_views(events@) =~= e0 + x.events);
            assert(texts(warnings@) =~= w0 + x.warnings);
        }
        i += 1;
    }
    assert(nodes@.subrange(0, nodes.len() as int) =~= nodes@);
}

fn collect_node(
    node: &Node,
    rels: &Relationships,
    href: &Option<String>,
    events: &mut Vec<InlineEvent>,
    warnings: &mut Vec<String>,
)
    ensures
        ({
            let x = node_events(*node, *rels, opt_chars(*href));
            &&& event_views(final(events)@) == event_views(old(events)@) + x.events
            &&& texts(final(warnings)@) == texts(old(warnings)@) + x.warnings
        }),
    decreases node, 2nat,
{
    proof {
        reveal_strlit("ins");
        reveal_strlit("moveTo");
        reveal_strlit("del");
        reveal_strlit("moveFrom");
        reveal_strlit("fldSimple");
        reveal_strlit("hyperlink");
        reveal_strlit("r");
        reveal_strlit("commentRangeStart");
        reveal_strlit("proofErr");
        reveal_strlit("bookmarkStart");
        reveal_strlit("bookmarkEnd");
        reveal_strlit("commentRangeEnd");
    }
    let ghost e0 = event_views(events@);
    let ghost w0 = texts(warnings@);
    let ghost x = node_events(*node, *rels, opt_chars(*href));
    let name = node.local_name();
    let n = name.as_str();
    assert(decreases_to!(node => node.children@));
    if str_eq(n, "ins") || str_eq(n, "moveTo") {
        let content = visible_descendant_text(node);
        if !content.as_str().is_empty() {
            push_event(events, InlineEvent::Hidden { kind: "tracked-insert".to_string(), content });
        }
        collect_forest(&node.children, rels, href, events, warnings);
    } else if str_eq(n, "del") || str_eq(n, "moveFrom") {
        let content = visible_descendant_text(node);
        if !content.as_str().is_empty() {
            push_event(events, InlineEvent::Hidden { kind: "tracked-delete".to_string(), content });
        }
    } else if str_eq(n, "fldSimple") {
        push_event(events, InlineEvent::FieldBegin);
        match attr_string(node, "instr") {
            Some(i) => push_event(events, InlineEvent::Instruction(i)),
            None => {},
        }
        push_event(events, InlineEvent::FieldSeparate);
        collect_forest(&node.children, rels, href, events, warnings);
        push_event(events, InlineEvent::FieldEnd);
    } else if str_eq(n, "hyperlink") {
        let next = hyperlink_target(node, rels, href);
        collect_forest(&node.children, rels, &next, events, warnings);
    } else if str_eq(n, "r") {
        let props: Option<Node> = match node.child("rPr") {
            Some(p) => Some(duplicate(p)),
            None => None,
        };
        collect_run(&node.children, &props, rels, href, events, warnings);
    } else if str_eq(n, "commentRangeStart") {
        match attr_string(node, "id") {
            Some(id) => push_event(events, InlineEvent::Comment(id)),
            None => {},
        }
    } else if str_eq(n, "proofErr") || str_eq(n, "bookmarkStart") || str_eq(n, "bookmarkEnd") || str_eq(
        n,
        "commentRangeEnd",
    ) {
    } else {
        collect_forest(&node.children, rels, href, events, warnings);
    }
    proof {
        assert(event_views(events@) =~= e0 + x.events);
        assert(texts(warnings@) =~= w0 + x.warnings);
    }
}

/// Appends the inline events under `node` (see `node_events`) to `events`,
/// and the warnings raised to `warnings`; `href` is the enclosing link.
pub fn collect_inline_events(
    node: &Node,
    rels: &Relationships,
    href: Option<String>,
    events: &mut Vec<InlineEvent>,
    warnings: &mut Vec<String>,
)
    ensures
        ({
            let x = node_events(*node, *rels, opt_chars(href));
            &&& event_views(final(events)@) == event_views(old(events)@) + x.events
            &&& texts(final(warnings)@) == texts(old(warnings)@) + x.warnings
        }),
{
    collect_node(node, rels, &href, events, warnings);
}

/// Tracked deletions never show as text: the events of a deleted (or moved
/// away) run are at most one hidden item.
pub proof fn deleted_content_is_never_text(n: Node, rels: Relationships, href: Option<Seq<char>>)
    requires
        local_part(n.name@) == "del"@ || local_part(n.name@) == "moveFrom"@,
    ensures
        node_events(n, rels, href).events.len() <= 1,
        forall|i: int|
            0 <= i < node_events(n, rels, href).events.len() ==> #[trigger] node_events(
                n,
                rels,
                href,
            ).events[i] is Hidden,
{
    reveal_strlit("del");
    reveal_strlit("moveFrom");
    reveal_strlit("ins");
    reveal_strlit("moveTo");
    assert("del"@[0] != "ins"@[0]);
    assert("del"@.len() != "moveTo"@.len());
    assert("moveFrom"@.len() != "ins"@.len());
    assert("moveFrom"@.len() != "moveTo"@.len());
}


/// A section property's header and footer references, one per line as
/// `kind|variant|relationship id` (variant `default` where none is given);
/// references without an id are left out.
pub open spec fn reference_lines(s: Seq<Node>) -> Seq<Seq<char>>
    decreases s.len(),
{
    if s.len() == 0 {
        Seq::empty()
    } else {
        let n = s.last();
        let name = local_part(n.name@);
        let rest = reference_lines(s.drop_last());
        if (name == "headerReference"@ || name == "footerReference"@) && attr_chars(n, "id"@) is Some {
            let variant = match attr_chars(n, "type"@) {
                Some(t) => t,
                None => "default"@,
            };
            rest.push(name + "|"@ + variant + "|"@ + attr_chars(n, "id"@)->0)
        } else {
            rest
        }
    }
}

/// Lines joined by line feeds.
pub open spec fn join_lines(s: Seq<Seq<char>>) -> Seq<char>
    decreases s.len(),
{
    if s.len() == 0 {
        Seq::empty()
    } else if s.len() == 1 {
        s[0]
    } else {
        join_lines(s.drop_last()) + "\n"@ + s.last()
    }
}

/// The header and footer references of a section (see `reference_lines`).
pub fn serialize_refs(sect_pr: &Node) -> (r: String)
    ensures
        r@ == join_lines(reference_lines(sect_pr.children@)),
{
    proof {
        reveal_strlit("headerReference");
        reveal_strlit("footerReference");
        reveal_strlit("default");
        reveal_strlit("|");
        reveal_strlit("\n");
    }
    let mut out: Vec<char> = Vec::new();
    let mut count: usize = 0;
    let mut i: usize = 0;
    while i < sect_pr.children.len()
        invariant
            i <= sect_pr.children.len(),
            count == reference_lines(sect_pr.children@.subrange(0, i as int)).len(),
            count <= i,
            out@ == join_lines(reference_lines(sect_pr.children@.subrange(0, i as int))),
        decreases sect_pr.children.len() - i,
    {
        let n = &sect_pr.children[i];
        let ghost p = sect_pr.children@.subrange(0, i as int + 1);
        proof {
            reveal_strlit("headerReference");
            reveal_strlit("footerReference");
            reveal_strlit("default");
            reveal_strlit("|");
            reveal_strlit("\n");
            assert(p.drop_last() =~= sect_pr.children@.subrange(0, i as int));
            assert(p.last() == *n);
        }
        let name = n.local_name();
        if str_eq(name.as_str(), "headerReference") || str_eq(name.as_str(), "footerReference") {
            match n.attr("id") {
                Some(id) => {
                    let ghost before = out@;
                    let ghost lines = reference_lines(sect_pr.children@.subrange(0, i as int));
                    if count > 0 {
                        out.push('\n');
                    }
                    push_str(&mut out, name.as_str());
                    out.push('|');
                    match n.attr("type") {
                        Some(t) => push_str(&mut out, t),
                        None => push_str(&mut out, "default"),
                    }
                    out.push('|');
                    push_str(&mut out, id);
                    count += 1;
                    proof {
                        let variant = match attr_chars(*n, "type"@) {
                            Some(t) => t,
                            None => "default"@,
                        };
                        let line = local_part(n.name@) + "|"@ + variant + "|"@ + id@;
                        if lines.len() == 0 {
                            assert(out@ =~= line);
                            assert(lines.push(line).len() == 1);
                        } else {
                            assert(lines.push(line).drop_last() =~= lines);
                            assert(out@ =~= before + "\n"@ + line);
                        }
                    }
                },
                None => {},
            }
        }
        i += 1;
    }
    assert(sect_pr.children@.subrange(0, sect_pr.children.len() as int) =~= sect_pr.children@);
    string_of(&out)
}

/// The frame that a DrawingML or table position is relative to.
pub open spec fn frame_of(value: Seq<char>) -> PlacementFrame {
    if value == "page"@ {
        PlacementFrame::Page
    } else if value == "margin"@ || value == "leftMargin"@ || value == "rightMargin"@ || value
        == "insideMargin"@ || value == "outsideMargin"@ {
        PlacementFrame::Margin
    } else if value == "column"@ {
        PlacementFrame::Column
    } else if value == "line"@ {
        PlacementFrame::Line
    } else {
        PlacementFrame::Paragraph
    }
}

pub fn placement_frame(value: &str) -> (r: PlacementFrame)
    ensures
        r == frame_of(value@),
{
    if str_eq(value, "page") {
        PlacementFrame::Page
    } else if str_eq(value, "margin") || str_eq(value, "leftMargin") || str_eq(value, "rightMargin")
        || str_eq(value, "insideMargin") || str_eq(value, "outsideMargin") {
        PlacementFrame::Margin
    } else if str_eq(value, "column") {
        PlacementFrame::Column
    } else if str_eq(value, "line") {
        PlacementFrame::Line
    } else {
        PlacementFrame::Paragraph
    }
}

pub open spec fn first_desc(n: Node, local: Seq<char>) -> Option<Node> {
    let all = all_named(preorder(n.children@), local);
    if all.len() > 0 {
        Some(all[0])
    } else {
        None
    }
}

/// A non-empty attribute value.
pub open spec fn nonempty_attr(n: Node, name: Seq<char>) -> Option<Seq<char>> {
    match attr_chars(n, name) {
        Some(v) => if v.len() > 0 {
            Some(v)
        } else {
            None
        },
        None => None,
    }
}

pub open spec fn or_else_chars(a: Option<Seq<char>>, b: Option<Seq<char>>) -> Option<Seq<char>> {
    if a is Some {
        a
    } else {
        b
    }
}

/// A drawing's alternative text: its `docPr` description or title, else its
/// VML shape's `alt` or title; empty values count as none.
pub open spec fn alt_text_of(n: Node) -> Option<Seq<char>> {
    let from_props = match first_desc(n, "docPr"@) {
        Some(p) => or_else_chars(nonempty_attr(p, "descr"@), nonempty_attr(p, "title"@)),
        None => None,
    };
    if from_props is Some {
        from_props
    } else {
        match first_desc(n, "shape"@) {
            Some(sh) => or_else_chars(nonempty_attr(sh, "alt"@), nonempty_attr(sh, "title"@)),
            None => None,
        }
    }
}

fn nonempty_attr_exec(n: &Node, name: &str) -> (r: Option<String>)
    ensures
        opt_chars(r) == nonempty_attr(*n, name@),
{
    match n.attr(name) {
        Some(v) => if v.is_empty() {
            None
        } else {
            Some(v.to_string())
        },
        None => None,
    }
}

/// The alternative text of a drawing (see `alt_text_of`).
pub fn alternative_text(node: &Node) -> (r: Option<String>)
    ensures
        opt_chars(r) == alt_text_of(*node),
{
    let from_props = match node.first_descendant("docPr") {
        Some(p) => {
            let d = nonempty_attr_exec(p, "descr");
            if d.is_some() {
                d
            } else {
                nonempty_attr_exec(p, "title")
            }
        },
        None => None,
    };
    if from_props.is_some() {
        return from_props;
    }
    match node.first_descendant("shape") {
        Some(sh) => {
            let a = nonempty_attr_exec(sh, "alt");
            if a.is_some() {
                a
            } else {
                nonempty_attr_exec(sh, "title")
            }
        },
        None => None,
    }
}

/// The text of the first descendant `local`, when it is not empty.
pub open spec fn desc_text(n: Node, local: Seq<char>) -> Option<Seq<char>> {
    match first_desc(n, local) {
        Some(d) => if d.text@.len() > 0 {
            Some(d.text@)
        } else {
            None
        },
        None => None,
    }
}

fn desc_text_exec(root: &Node, local: &str) -> (r: Option<String>)
    ensures
        opt_chars(r) == desc_text(*root, local@),
{
    match root.first_descendant(local) {
        Some(d) => if d.text.as_str().is_empty() {
            None
        } else {
            Some(d.text.clone())
        },
        None => None,
    }
}

/// The title and author recorded in the core properties part.
pub fn metadata_from_root(root: &Node) -> (m: DocMetadata)
    ensures
        opt_chars(m.title) == desc_text(*root, "title"@),
        opt_chars(m.author) == desc_text(*root, "creator"@),
{
    DocMetadata { title: desc_text_exec(root, "title"), author: desc_text_exec(root, "creator") }
}

/// The text of a comment: the visible text of each of its paragraphs that
/// has some, one paragraph per line.
pub open spec fn comment_lines(ps: Seq<Node>) -> Seq<Seq<char>>
    decreases ps.len(),
{
    if ps.len() == 0 {
        Seq::empty()
    } else if visible_text(ps.last()).len() > 0 {
        comment_lines(ps.drop_last()).push(visible_text(ps.last()))
    } else {
        comment_lines(ps.drop_last())
    }
}

pub open spec fn comment_text(c: Node) -> Seq<char> {
    join_lines(comment_lines(all_named(preorder(c.children@), "p"@)))
}

/// The comment that the last `comment` element among `cs` with id `id` holds.
pub open spec fn comment_last(cs: Seq<Node>, id: Seq<char>) -> Option<Seq<char>>
    decreases cs.len(),
{
    if cs.len() == 0 {
        None
    } else if attr_chars(cs.last(), "id"@) == Some(id) {
        Some(comment_text(cs.last()))
    } else {
        comment_last(cs.drop_last(), id)
    }
}

fn comment_content(c: &Node) -> (r: String)
    ensures
        r@ == comment_text(*c),
{
    proof {
        reveal_strlit("p");
    }
    let ps = c.descendants("p");
    let ghost pv = ps@.map_values(|n: &Node| *n);
    let mut out: Vec<char> = Vec::new();
    let mut count: usize = 0;
    let mut i: usize = 0;
    while i < ps.len()
        invariant
            i <= ps.len(),
            pv == ps@.map_values(|n: &Node| *n),
            count == comment_lines(pv.subrange(0, i as int)).len(),
            count <= i,
            out@ == join_lines(comment_lines(pv.subrange(0, i as int))),
        decreases ps.len() - i,
    {
        let ghost p = pv.subrange(0, i as int + 1);
        proof {
            assert(p.drop_last() =~= pv.subrange(0, i as int));
            assert(p.last() == *ps@[i as int]);
        }
        let text = visible_descendant_text(ps[i]);
        if !text.as_str().is_empty() {
            let ghost before = out@;
            let ghost lines = comment_lines(pv.subrange(0, i as int));
            if count > 0 {
                out.push('\n');
            }
            push_str(&mut out, text.as_str());
            count += 1;
            proof {
                reveal_strlit("\n");
                if lines.len() == 0 {
                    assert(out@ =~= text@);
                } else {
                    assert(lines.push(text@).drop_last() =~= lines);
                    assert(out@ =~= before + "\n"@ + text@);
                }
            }
        }
        i += 1;
    }
    assert(pv.subrange(0, ps.len() as int) =~= pv);
    string_of(&out)
}

/// The comments of a comments part, by id (see `comment_text`).
pub fn comments_from_root(root: &Node) -> (r: crate::strmap::StrMap<String>)
    ensures
        r.wf(),
        forall|id: Seq<char>| #[trigger] opt_chars(crate::strmap::lookup(r.entries@, id)) == comment_last(
            all_named(root.children@, "comment"@),
            id,
        ),
{
    proof {
        reveal_strlit("comment");
        reveal_strlit("id");
    }
    let cs = root.children_named("comment");
    let ghost cv = cs@.map_values(|n: &Node| *n);
    let mut comments: crate::strmap::StrMap<String> = crate::strmap::StrMap::new();
    let mut i: usize = 0;
    while i < cs.len()
        invariant
            i <= cs.len(),
            cv == cs@.map_values(|n: &Node| *n),
            comments.wf(),
            forall|id: Seq<char>| #[trigger] opt_chars(crate::strmap::lookup(comments.entries@, id))
                == comment_last(cv.subrange(0, i as int), id),
        decreases cs.len() - i,
    {
        let c: &Node = cs[i];
        let ghost p = cv.subrange(0, i as int + 1);
        proof {
            assert(p.drop_last() =~= cv.subrange(0, i as int));
            assert(p.last() == *c);
        }
        match c.attr("id") {
            Some(id) => {
                let content = comment_content(c);
                let ghost old_c = comments;
                comments.insert(id.to_string(), content);
                proof {
                    assert forall|q: Seq<char>| #[trigger] opt_chars(crate::strmap::lookup(comments.entries@, q))
                        == comment_last(p, q) by {
                        assert(comments.get_spec(q) == crate::strmap::lookup(comments.entries@, q));
                        assert(opt_chars(crate::strmap::lookup(old_c.entries@, q)) == comment_last(
                            cv.subrange(0, i as int),
                            q,
                        ));
                        if q != id@ {
                            assert(comments.get_spec(q) == old_c.get_spec(q));
                        }
                    }
                }
            },
            None => {},
        }
        i += 1;
    }
    assert(cv.subrange(0, cs.len() as int) =~= cv);
    comments
}

/// `std::str::from_utf8`: the text of valid UTF-8 bytes, or the description
/// of the first invalid sequence. Nothing is stated of that description.
#[verifier::external_body]
fn utf8_text(bytes: &[u8]) -> (r: Result<String, String>)
    ensures
        r is Ok <==> vstd::utf8::valid_utf8(bytes@),
        r matches Ok(s) ==> s@ == vstd::utf8::decode_utf8(bytes@),
{
    match std::str::from_utf8(bytes) {
        Ok(s) => Ok(s.to_string()),
        Err(e) => Err(e.to_string()),
    }
}

/// Whether `pat` occurs in `s`.
pub open spec fn contains_text(s: Seq<char>, pat: Seq<char>) -> bool {
    exists|i: int| 0 <= i <= s.len() - pat.len() && #[trigger] s.subrange(i, i + pat.len()) == pat
}

fn find_text(v: &Vec<char>, pat: &Vec<char>) -> (r: bool)
    ensures
        r == contains_text(v@, pat@),
{
    if pat.len() > v.len() {
        return false;
    }
    let last = v.len() - pat.len();
    let mut i: usize = 0;
    loop
        invariant
            pat.len() <= v.len(),
            last == v.len() - pat.len(),
            i <= last,
            forall|k: int| 0 <= k < i ==> #[trigger] v@.subrange(k, k + pat.len()) != pat@,
        decreases last - i,
    {
        if seq_eq_at(v, i, pat) {
            return true;
        }
        if i == last {
            return false;
        }
        i += 1;
    }
}

fn seq_eq_at(v: &Vec<char>, i: usize, pat: &Vec<char>) -> (r: bool)
    requires
        i + pat.len() <= v.len(),
    ensures
        r == (v@.subrange(i as int, i + pat.len()) == pat@),
{
    let mut k: usize = 0;
    while k < pat.len()
        invariant
            k <= pat.len(),
            i + pat.len() <= v.len(),
            forall|j: int| 0 <= j < k ==> v@[i + j] == pat@[j],
        decreases pat.len() - k,
    {
        if v[i + k] != pat[k] {
            assert(v@.subrange(i as int, i + pat.len())[k as int] != pat@[k as int]);
            return false;
        }
        k += 1;
    }
    assert(v@.subrange(i as int, i + pat.len()) =~= pat@);
    true
}

/// The format a package's content types declare: `docm` when the main part
/// is macro-enabled, else `docx` (also when there is no content-types part).
pub fn source_format(content_types: Option<&[u8]>) -> (r: Result<&'static str, ExtractError>)
    ensures
        match content_types {
            None => (r matches Ok(f) && f@ == "docx"@),
            Some(b) => if !vstd::utf8::valid_utf8(b@) {
                r matches Err(ExtractError::ParseFailure(_))
            } else if contains_text(vstd::utf8::decode_utf8(b@), "macroEnabled.main+xml"@) {
                (r matches Ok(f) && f@ == "docm"@)
            } else {
                (r matches Ok(f) && f@ == "docx"@)
            },
        },
{
    let bytes = match content_types {
        Some(b) => b,
        None => {
            return Ok("docx");
        },
    };
    match utf8_text(bytes) {
        Ok(text) => {
            let v = chars_of(text.as_str());
            if find_text(&v, &chars_of("macroEnabled.main+xml")) {
                Ok("docm")
            } else {
                Ok("docx")
            }
        },
        Err(e) => {
            let mut msg: Vec<char> = Vec::new();
            push_str(&mut msg, "[Content_Types].xml is not UTF-8: ");
            push_str(&mut msg, e.as_str());
            Err(ExtractError::ParseFailure(string_of(&msg)))
        },
    }
}


/// Every hidden event is a tracked insertion or deletion.
pub open spec fn tracked_kinds(events: Seq<EventView>) -> bool {
    forall|i: int|
        0 <= i < events.len() ==> match #[trigger] events[i] {
            EventView::Hidden(k, _) => k == "tracked-insert"@ || k == "tracked-delete"@,
            _ => true,
        }
}

pub proof fn lemma_tracked_concat(a: Seq<EventView>, b: Seq<EventView>)
    requires
        tracked_kinds(a),
        tracked_kinds(b),
    ensures
        tracked_kinds(a + b),
{
    assert forall|i: int| 0 <= i < (a + b).len() implies match #[trigger] (a + b)[i] {
        EventView::Hidden(k, _) => k == "tracked-insert"@ || k == "tracked-delete"@,
        _ => true,
    } by {
        if i < a.len() {
            assert((a + b)[i] == a[i]);
        } else {
            assert((a + b)[i] == b[i - a.len()]);
        }
    }
}

/// The hidden events of inline content are tracked insertions and
/// deletions, and nothing else.
pub proof fn lemma_node_tracked(n: Node, rels: Relationships, href: Option<Seq<char>>)
    ensures
        tracked_kinds(node_events(n, rels, href).events),
    decreases n, 2nat,
{
    let name = local_part(n.name@);
    if name == "ins"@ || name == "moveTo"@ {
        let content = visible_text(n);
        lemma_forest_tracked(n.children@, rels, href);
        let own = if content.len() > 0 {
            one_event(EventView::Hidden("tracked-insert"@, content))
        } else {
            none_collected()
        };
        assert(tracked_kinds(own.events));
        lemma_tracked_concat(own.events, forest_events(n.children@, rels, href).events);
    } else if name == "del"@ || name == "moveFrom"@ {
        let content = visible_text(n);
        if content.len() > 0 {
            assert(tracked_kinds(seq![EventView::Hidden("tracked-delete"@, content)]));
        } else {
            assert(tracked_kinds(Seq::<EventView>::empty()));
        }
    } else if name == "fldSimple"@ {
        let instruction = match attr_chars(n, "instr"@) {
            Some(i) => seq![EventView::Instruction(i)],
            None => Seq::empty(),
        };
        let inner = forest_events(n.children@, rels, href);
        lemma_forest_tracked(n.children@, rels, href);
        assert(tracked_kinds(seq![EventView::FieldBegin]));
        assert(tracked_kinds(instruction));
        assert(tracked_kinds(seq![EventView::FieldSeparate]));
        assert(tracked_kinds(seq![EventView::FieldEnd]));
        lemma_tracked_concat(seq![EventView::FieldBegin], instruction);
        lemma_tracked_concat(seq![EventView::FieldBegin] + instruction, seq![EventView::FieldSeparate]);
        lemma_tracked_concat(seq![EventView::FieldBegin] + instruction + seq![EventView::FieldSeparate], inner.events);
        lemma_tracked_concat(
            seq![EventView::FieldBegin] + instruction + seq![EventView::FieldSeparate] + inner.events,
            seq![EventView::FieldEnd],
        );
    } else if name == "hyperlink"@ {
        lemma_forest_tracked(n.children@, rels, link_target(n, rels, href));
    } else if name == "r"@ {
        lemma_run_tracked(n.children@, opt_view(first_named(n.children@, "rPr"@)), rels, href);
    } else if name == "commentRangeStart"@ {
        match attr_chars(n, "id"@) {
            Some(id) => {
                assert(tracked_kinds(seq![EventView::Comment(id)]));
            },
            None => {
                assert(tracked_kinds(Seq::<EventView>::empty()));
            },
        }
    } else if name == "proofErr"@ || name == "bookmarkStart"@ || name == "bookmarkEnd"@ || name
        == "commentRangeEnd"@ {
        assert(tracked_kinds(Seq::<EventView>::empty()));
    } else {
        lemma_forest_tracked(n.children@, rels, href);
    }
}

pub proof fn lemma_forest_tracked(s: Seq<Node>, rels: Relationships, href: Option<Seq<char>>)
    ensures
        tracked_kinds(forest_events(s, rels, href).events),
    decreases s, 0nat,
{
    if s.len() == 0 {
        assert(tracked_kinds(Seq::<EventView>::empty()));
    } else {
        lemma_forest_tracked(s.subrange(0, s.len() - 1), rels, href);
        lemma_node_tracked(s[s.len() - 1], rels, href);
        lemma_tracked_concat(
            forest_events(s.subrange(0, s.len() - 1), rels, href).events,
            node_events(s[s.len() - 1], rels, href).events,
        );
    }
}

pub proof fn lemma_run_tracked(s: Seq<Node>, props: Option<NodeView>, rels: Relationships, href: Option<Seq<char>>)
    ensures
        tracked_kinds(run_events(s, props, rels, href).events),
    decreases s, 1nat,
{
    if s.len() == 0 {
        assert(tracked_kinds(Seq::<EventView>::empty()));
    } else {
        lemma_run_tracked(s.subrange(0, s.len() - 1), props, rels, href);
        lemma_run_child_tracked(s[s.len() - 1], props, rels, href);
        lemma_tracked_concat(
            run_events(s.subrange(0, s.len() - 1), props, rels, href).events,
            run_child_events(s[s.len() - 1], props, rels, href).events,
        );
    }
}

pub proof fn lemma_run_child_tracked(c: Node, props: Option<NodeView>, rels: Relationships, href: Option<Seq<char>>)
    ensures
        tracked_kinds(run_child_events(c, props, rels, href).events),
    decreases c, 3nat,
{
    let x = run_child_events(c, props, rels, href);
    let name = local_part(c.name@);
    if name == "rPr"@ || name == "t"@ || name == "tab"@ || name == "noBreakHyphen"@ || name == "instrText"@
        || name == "fldChar"@ || name == "br"@ || name == "lastRenderedPageBreak"@ || name == "drawing"@
        || name == "pict"@ || name == "object"@ || name == "footnoteReference"@ || name == "endnoteReference"@
        || name == "commentReference"@ {
        assert forall|i: int| 0 <= i < x.events.len() implies match #[trigger] x.events[i] {
            EventView::Hidden(k, _) => k == "tracked-insert"@ || k == "tracked-delete"@,
            _ => true,
        } by {
            assert(x.events.len() <= 1);
        }
    } else {
        lemma_node_tracked(c, rels, href);
    }
}


/// The index of the last `field` item at a block lies inside the items.
pub proof fn lemma_last_field_at_bounds(hidden: Seq<(Seq<char>, Option<Seq<char>>, Seq<char>)>, target: Seq<char>)
    ensures
        -1 <= last_field_at(hidden, target) < hidden.len(),
    decreases hidden.len(),
{
    if hidden.len() > 0 {
        lemma_last_field_at_bounds(hidden.drop_last(), target);
    }
}

} // verus!

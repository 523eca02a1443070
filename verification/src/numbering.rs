//! WordprocessingML numbering: list definitions, their level overrides, the
//! counters that number list paragraphs, and the labels they produce.
use vstd::prelude::*;
use crate::granularity::{debug_quoted, debug_str};
use crate::model::{ListInfo, ListKind};
use crate::strmap::{lookup, StrMap};
use crate::styles::{
    child_node, child_val, child_val_of, opt_str, opt_text, run_props, run_props_of, run_view,
    RunProps, RunView,
};
use crate::text::{
    ascii_lower, chars_of, decimal, digit_char, parse_i64, parse_signed, parse_u32, parse_unsigned,
    push_decimal, push_signed_decimal, push_str, signed_decimal, str_eq, string_of,
};
use crate::xml::{all_named, attr_value, texts, Node};

verus! {

/// One level of a list definition.
pub struct Level {
    pub start: i64,
    pub format: String,
    pub text: String,
    pub restart: Option<u32>,
    pub picture: bool,
    pub run: Option<RunProps>,
}

/// A list instance's override of one level: a new start value, a new
/// definition, or both.
pub struct LevelOverride {
    pub start: Option<i64>,
    pub level: Option<Level>,
}

/// A list instance: the definition it numbers by and its level overrides.
pub struct Num {
    pub abstract_id: String,
    pub overrides: Vec<(u32, LevelOverride)>,
}

/// The list definitions (`abstractNum`, levels by index) and list instances
/// (`num`) of a document.
pub struct Numbering {
    pub abstracts: StrMap<Vec<(u32, Level)>>,
    pub nums: StrMap<Num>,
}

/// The current value of each of the nine levels of each list instance.
pub struct Counters {
    pub values: StrMap<[Option<i64>; 9]>,
}

/// A numbered paragraph's list membership and the run properties of its
/// label.
pub struct ResolvedList {
    pub info: ListInfo,
    pub run: Option<RunProps>,
}

/// The entry of the first pair keyed `k`.
pub open spec fn int_find<V>(s: Seq<(u32, V)>, k: u32) -> Option<V>
    decreases s.len(),
{
    if s.len() == 0 {
        None
    } else if s[0].0 == k {
        Some(s[0].1)
    } else {
        int_find(s.drop_first(), k)
    }
}

fn find_level<'a>(s: &'a Vec<(u32, Level)>, k: u32) -> (r: Option<&'a Level>)
    ensures
        match int_find(s@, k) {
            Some(v) => r == Some(&v),
            None => r is None,
        },
{
    let mut i: usize = 0;
    assert(s@.subrange(0, s.len() as int) =~= s@);
    while i < s.len()
        invariant
            i <= s.len(),
            int_find(s@, k) == int_find(s@.subrange(i as int, s.len() as int), k),
        decreases s.len() - i,
    {
        let ghost rest = s@.subrange(i as int, s.len() as int);
        assert(rest.drop_first() =~= s@.subrange(i + 1, s.len() as int));
        assert(rest[0] == s@[i as int]);
        if s[i].0 == k {
            return Some(&s[i].1);
        }
        i += 1;
    }
    None
}

fn find_override<'a>(s: &'a Vec<(u32, LevelOverride)>, k: u32) -> (r: Option<&'a LevelOverride>)
    ensures
        match int_find(s@, k) {
            Some(v) => r == Some(&v),
            None => r is None,
        },
{
    let mut i: usize = 0;
    assert(s@.subrange(0, s.len() as int) =~= s@);
    while i < s.len()
        invariant
            i <= s.len(),
            int_find(s@, k) == int_find(s@.subrange(i as int, s.len() as int), k),
        decreases s.len() - i,
    {
        let ghost rest = s@.subrange(i as int, s.len() as int);
        assert(rest.drop_first() =~= s@.subrange(i + 1, s.len() as int));
        assert(rest[0] == s@[i as int]);
        if s[i].0 == k {
            return Some(&s[i].1);
        }
        i += 1;
    }
    None
}

/// The largest key, or 0.
pub open spec fn max_key<V>(s: Seq<(u32, V)>) -> nat
    decreases s.len(),
{
    if s.len() == 0 {
        0
    } else if s.last().0 as nat > max_key(s.drop_last()) {
        s.last().0 as nat
    } else {
        max_key(s.drop_last())
    }
}

fn max_level_key(s: &Vec<(u32, Level)>) -> (r: u32)
    ensures
        r as nat == max_key(s@),
{
    let mut m: u32 = 0;
    let mut i: usize = 0;
    while i < s.len()
        invariant
            i <= s.len(),
            m as nat == max_key(s@.subrange(0, i as int)),
        decreases s.len() - i,
    {
        proof {
            let p = s@.subrange(0, i as int + 1);
            assert(p.drop_last() =~= s@.subrange(0, i as int));
        }
        if s[i].0 > m {
            m = s[i].0;
        }
        i += 1;
    }
    assert(s@.subrange(0, s.len() as int) =~= s@);
    m
}

fn max_override_key(s: &Vec<(u32, LevelOverride)>) -> (r: u32)
    ensures
        r as nat == max_key(s@),
{
    let mut m: u32 = 0;
    let mut i: usize = 0;
    while i < s.len()
        invariant
            i <= s.len(),
            m as nat == max_key(s@.subrange(0, i as int)),
        decreases s.len() - i,
    {
        proof {
            let p = s@.subrange(0, i as int + 1);
            assert(p.drop_last() =~= s@.subrange(0, i as int));
        }
        if s[i].0 > m {
            m = s[i].0;
        }
        i += 1;
    }
    assert(s@.subrange(0, s.len() as int) =~= s@);
    m
}

impl Level {
    pub fn duplicate(&self) -> (r: Level)
        ensures
            r == *self,
    {
        Level {
            start: self.start,
            format: self.format.clone(),
            text: self.text.clone(),
            restart: self.restart,
            picture: self.picture,
            run: match &self.run {
                Some(r) => Some(r.duplicate()),
                None => None,
            },
        }
    }
}

/// The lowercase letters of a bijective base-26 numeral (`a`..`z`, `aa`, ...).
pub open spec fn alpha(n: nat) -> Seq<char>
    decreases n,
{
    if n == 0 {
        Seq::empty()
    } else {
        alpha(((n - 1) as nat / 26) as nat).push((('a' as u32) + ((n - 1) as nat % 26)) as char)
    }
}

pub open spec fn upper(s: Seq<char>) -> Seq<char> {
    s.map_values(|c: char| if 'a' <= c && c <= 'z' {
        ((c as u32) - 32) as char
    } else {
        c
    })
}

pub open spec fn lower(s: Seq<char>) -> Seq<char> {
    s.map_values(|c: char| ascii_lower(c))
}

/// A value as letters (`a`, `b`, ..., `z`, `aa`, ...); values below 1 are
/// written in decimal.
pub open spec fn letters_text(value: int, uppercase: bool) -> Seq<char> {
    if value <= 0 {
        signed_decimal(value)
    } else if uppercase {
        upper(alpha(value as nat))
    } else {
        alpha(value as nat)
    }
}

pub fn letters(value: i64, uppercase: bool) -> (r: String)
    ensures
        r@ == letters_text(value as int, uppercase),
{
    if value <= 0 {
        let mut out: Vec<char> = Vec::new();
        push_signed_decimal(&mut out, value);
        assert(out@ =~= signed_decimal(value as int));
        return string_of(&out);
    }
    let mut v: u64 = value as u64;
    let mut digits: Vec<char> = Vec::new();
    assert(alpha(value as nat) =~= alpha(v as nat) + digits@.reverse());
    while v > 0
        invariant
            alpha(value as nat) == alpha(v as nat) + digits@.reverse(),
            forall|k: int| 0 <= k < digits.len() ==> 'a' <= #[trigger] digits@[k] <= 'z',
        decreases v,
    {
        let ghost before = digits@;
        let d = ((v - 1) % 26) as u32;
        let c = ((97u32 + d) as u8) as char;
        assert(c == (('a' as u32) + ((v - 1) as nat % 26)) as char);
        digits.push(c);
        proof {
            assert(digits@.reverse() =~= seq![c] + before.reverse());
            assert(alpha(v as nat) == alpha(((v - 1) as nat / 26) as nat).push(c));
            assert(alpha(((v - 1) as nat / 26) as nat).push(c) + before.reverse() =~= alpha(
                ((v - 1) as nat / 26) as nat,
            ) + (seq![c] + before.reverse()));
        }
        v = (v - 1) / 26;
    }
    assert(alpha(0) =~= Seq::<char>::empty());
    let mut out: Vec<char> = Vec::new();
    let mut k: usize = digits.len();
    while k > 0
        invariant
            k <= digits.len(),
            out@ == (if uppercase {
                upper(digits@.reverse().subrange(0, (digits.len() - k) as int))
            } else {
                digits@.reverse().subrange(0, (digits.len() - k) as int)
            }),
            forall|j: int| 0 <= j < digits.len() ==> 'a' <= #[trigger] digits@[j] <= 'z',
        decreases k,
    {
        k -= 1;
        let c = digits[k];
        let ghost before = out@;
        if uppercase {
            out.push(((c as u8) - 32u8) as char);
        } else {
            out.push(c);
        }
        proof {
            let rv = digits@.reverse();
            assert(rv[(digits.len() - 1 - k) as int] == c);
            assert(rv.subrange(0, (digits.len() - k) as int) =~= rv.subrange(
                0,
                (digits.len() - 1 - k) as int,
            ).push(c));
            if uppercase {
                assert(out@ =~= upper(rv.subrange(0, (digits.len() - k) as int)));
            } else {
                assert(out@ =~= rv.subrange(0, (digits.len() - k) as int));
            }
        }
    }
    assert(digits@.reverse().subrange(0, digits.len() as int) =~= digits@.reverse());
    string_of(&out)
}

/// Roman numerals by the greedy rule (`M`, `CM`, `D`, `CD`, `C`, `XC`, `L`,
/// `XL`, `X`, `IX`, `V`, `IV`, `I`).
pub open spec fn roman_of(n: nat) -> Seq<char>
    decreases n,
{
    if n >= 1000 {
        "M"@ + roman_of((n - 1000) as nat)
    } else if n >= 900 {
        "CM"@ + roman_of((n - 900) as nat)
    } else if n >= 500 {
        "D"@ + roman_of((n - 500) as nat)
    } else if n >= 400 {
        "CD"@ + roman_of((n - 400) as nat)
    } else if n >= 100 {
        "C"@ + roman_of((n - 100) as nat)
    } else if n >= 90 {
        "XC"@ + roman_of((n - 90) as nat)
    } else if n >= 50 {
        "L"@ + roman_of((n - 50) as nat)
    } else if n >= 40 {
        "XL"@ + roman_of((n - 40) as nat)
    } else if n >= 10 {
        "X"@ + roman_of((n - 10) as nat)
    } else if n >= 9 {
        "IX"@ + roman_of((n - 9) as nat)
    } else if n >= 5 {
        "V"@ + roman_of((n - 5) as nat)
    } else if n >= 4 {
        "IV"@ + roman_of((n - 4) as nat)
    } else if n >= 1 {
        "I"@ + roman_of((n - 1) as nat)
    } else {
        Seq::empty()
    }
}

/// A value as an upper-case Roman numeral; values outside 1..=3999 are
/// written in decimal.
pub open spec fn roman_text(value: int) -> Seq<char> {
    if 1 <= value <= 3999 {
        roman_of(value as nat)
    } else {
        signed_decimal(value)
    }
}

/// The Roman figure of one decimal digit `d` at a place whose one, five and
/// ten are `one`, `five` and `ten`: `4` and `9` subtract, the others add.
pub open spec fn digit_numeral(d: nat, one: char, five: char, ten: char) -> Seq<char> {
    if d == 1 {
        seq![one]
    } else if d == 2 {
        seq![one, one]
    } else if d == 3 {
        seq![one, one, one]
    } else if d == 4 {
        seq![one, five]
    } else if d == 5 {
        seq![five]
    } else if d == 6 {
        seq![five, one]
    } else if d == 7 {
        seq![five, one, one]
    } else if d == 8 {
        seq![five, one, one, one]
    } else if d == 9 {
        seq![one, ten]
    } else {
        Seq::empty()
    }
}

/// The standard Roman numeral of `n`: `m` times `M` for the thousands, then
/// the hundreds, tens and units, each written by its digit's figure.
pub open spec fn standard_roman(n: nat) -> Seq<char> {
    Seq::new(n / 1000, |i: int| 'M') + digit_numeral((n / 100) % 10, 'C', 'D', 'M')
        + digit_numeral((n / 10) % 10, 'X', 'L', 'C') + digit_numeral(n % 10, 'I', 'V', 'X')
}

/// The standard Roman numeral of `n` in lower-case letters.
pub open spec fn standard_roman_lower(n: nat) -> Seq<char> {
    Seq::new(n / 1000, |i: int| 'm') + digit_numeral((n / 100) % 10, 'c', 'd', 'm')
        + digit_numeral((n / 10) % 10, 'x', 'l', 'c') + digit_numeral(n % 10, 'i', 'v', 'x')
}

proof fn lemma_lower_digit_numeral(d: nat, one: char, five: char, ten: char)
    ensures
        lower(digit_numeral(d, one, five, ten)) == digit_numeral(
            d,
            ascii_lower(one),
            ascii_lower(five),
            ascii_lower(ten),
        ),
{
    assert(lower(digit_numeral(d, one, five, ten)) =~= digit_numeral(
        d,
        ascii_lower(one),
        ascii_lower(five),
        ascii_lower(ten),
    ));
}

proof fn lemma_lower_standard_roman(n: nat)
    ensures
        lower(standard_roman(n)) == standard_roman_lower(n),
{
    let ms = Seq::new(n / 1000, |i: int| 'M');
    let h = digit_numeral((n / 100) % 10, 'C', 'D', 'M');
    let t = digit_numeral((n / 10) % 10, 'X', 'L', 'C');
    let u = digit_numeral(n % 10, 'I', 'V', 'X');
    assert(ascii_lower('M') == 'm');
    assert(ascii_lower('C') == 'c');
    assert(ascii_lower('D') == 'd');
    assert(ascii_lower('X') == 'x');
    assert(ascii_lower('L') == 'l');
    assert(ascii_lower('I') == 'i');
    assert(ascii_lower('V') == 'v');
    lemma_lower_digit_numeral((n / 100) % 10, 'C', 'D', 'M');
    lemma_lower_digit_numeral((n / 10) % 10, 'X', 'L', 'C');
    lemma_lower_digit_numeral(n % 10, 'I', 'V', 'X');
    assert(lower(ms) =~= Seq::new(n / 1000, |i: int| 'm'));
    assert(lower(ms + h + t + u) =~= lower(ms) + lower(h) + lower(t) + lower(u));
    assert(lower(standard_roman(n)) =~= standard_roman_lower(n));
}

proof fn lemma_roman_literals()
    ensures
        "M"@ == seq!['M'],
        "CM"@ == seq!['C', 'M'],
        "D"@ == seq!['D'],
        "CD"@ == seq!['C', 'D'],
        "C"@ == seq!['C'],
        "XC"@ == seq!['X', 'C'],
        "L"@ == seq!['L'],
        "XL"@ == seq!['X', 'L'],
        "X"@ == seq!['X'],
        "IX"@ == seq!['I', 'X'],
        "V"@ == seq!['V'],
        "IV"@ == seq!['I', 'V'],
        "I"@ == seq!['I'],
{
    reveal_strlit("M");
    reveal_strlit("CM");
    reveal_strlit("D");
    reveal_strlit("CD");
    reveal_strlit("C");
    reveal_strlit("XC");
    reveal_strlit("L");
    reveal_strlit("XL");
    reveal_strlit("X");
    reveal_strlit("IX");
    reveal_strlit("V");
    reveal_strlit("IV");
    reveal_strlit("I");
    assert("M"@ =~= seq!['M']);
    assert("CM"@ =~= seq!['C', 'M']);
    assert("D"@ =~= seq!['D']);
    assert("CD"@ =~= seq!['C', 'D']);
    assert("C"@ =~= seq!['C']);
    assert("XC"@ =~= seq!['X', 'C']);
    assert("L"@ =~= seq!['L']);
    assert("XL"@ =~= seq!['X', 'L']);
    assert("X"@ =~= seq!['X']);
    assert("IX"@ =~= seq!['I', 'X']);
    assert("V"@ =~= seq!['V']);
    assert("IV"@ =~= seq!['I', 'V']);
    assert("I"@ =~= seq!['I']);
}

proof fn lemma_roman_units(u: nat)
    requires
        u < 10,
    ensures
        roman_of(u) == digit_numeral(u, 'I', 'V', 'X'),
    decreases u,
{
    lemma_roman_literals();
    assert(roman_of(0) == Seq::<char>::empty());
    if u == 9 || u == 4 {
        assert(roman_of(u) =~= digit_numeral(u, 'I', 'V', 'X'));
    } else if u >= 5 {
        lemma_roman_units((u - 5) as nat);
        assert(roman_of(u) =~= digit_numeral(u, 'I', 'V', 'X'));
    } else if u >= 1 {
        lemma_roman_units((u - 1) as nat);
        assert(roman_of(u) =~= digit_numeral(u, 'I', 'V', 'X'));
    }
}

proof fn lemma_roman_tens(t: nat, u: nat)
    requires
        t < 10,
        u < 10,
    ensures
        roman_of(10 * t + u) == digit_numeral(t, 'X', 'L', 'C') + roman_of(u),
    decreases t,
{
    lemma_roman_literals();
    let n: nat = 10 * t + u;
    if t == 0 {
        assert(n == u);
        assert(digit_numeral(t, 'X', 'L', 'C') + roman_of(u) =~= roman_of(u));
    } else if t == 9 || t == 4 {
        assert(roman_of(n) =~= digit_numeral(t, 'X', 'L', 'C') + roman_of(u));
    } else if t >= 5 {
        lemma_roman_tens((t - 5) as nat, u);
        assert((n - 50) as nat == 10 * ((t - 5) as nat) + u);
        assert(roman_of(n) =~= digit_numeral(t, 'X', 'L', 'C') + roman_of(u));
    } else {
        lemma_roman_tens((t - 1) as nat, u);
        assert((n - 10) as nat == 10 * ((t - 1) as nat) + u);
        assert(roman_of(n) =~= digit_numeral(t, 'X', 'L', 'C') + roman_of(u));
    }
}

proof fn lemma_roman_hundreds(h: nat, r: nat)
    requires
        h < 10,
        r < 100,
    ensures
        roman_of(100 * h + r) == digit_numeral(h, 'C', 'D', 'M') + roman_of(r),
    decreases h,
{
    lemma_roman_literals();
    let n: nat = 100 * h + r;
    if h == 0 {
        assert(n == r);
        assert(digit_numeral(h, 'C', 'D', 'M') + roman_of(r) =~= roman_of(r));
    } else if h == 9 || h == 4 {
        assert(roman_of(n) =~= digit_numeral(h, 'C', 'D', 'M') + roman_of(r));
    } else if h >= 5 {
        lemma_roman_hundreds((h - 5) as nat, r);
        assert((n - 500) as nat == 100 * ((h - 5) as nat) + r);
        assert(roman_of(n) =~= digit_numeral(h, 'C', 'D', 'M') + roman_of(r));
    } else {
        lemma_roman_hundreds((h - 1) as nat, r);
        assert((n - 100) as nat == 100 * ((h - 1) as nat) + r);
        assert(roman_of(n) =~= digit_numeral(h, 'C', 'D', 'M') + roman_of(r));
    }
}

proof fn lemma_roman_thousands(m: nat, r: nat)
    requires
        r < 1000,
    ensures
        roman_of(1000 * m + r) == Seq::new(m, |i: int| 'M') + roman_of(r),
    decreases m,
{
    lemma_roman_literals();
    if m == 0 {
        assert(Seq::new(m, |i: int| 'M') + roman_of(r) =~= roman_of(r));
    } else {
        lemma_roman_thousands((m - 1) as nat, r);
        assert((1000 * m + r - 1000) as nat == 1000 * ((m - 1) as nat) + r);
        assert(Seq::new(m, |i: int| 'M') + roman_of(r) =~= "M"@ + (Seq::new(
            (m - 1) as nat,
            |i: int| 'M',
        ) + roman_of(r)));
    }
}

proof fn lemma_decimal_places(n: nat)
    ensures
        n % 1000 == 100 * ((n / 100) % 10) + 10 * ((n / 10) % 10) + n % 10,
        n == 1000 * (n / 1000) + n % 1000,
{
}

proof fn lemma_roman_of_standard(n: nat)
    requires
        1 <= n <= 3999,
    ensures
        roman_of(n) == standard_roman(n),
{
    let m = n / 1000;
    let h = (n / 100) % 10;
    let t = (n / 10) % 10;
    let u = n % 10;
    let r = n % 1000;
    lemma_decimal_places(n);
    lemma_roman_units(u);
    lemma_roman_tens(t, u);
    lemma_roman_hundreds(h, 10 * t + u);
    lemma_roman_thousands(m, r);
    let ms = Seq::new(m, |i: int| 'M');
    let dh = digit_numeral(h, 'C', 'D', 'M');
    let dt = digit_numeral(t, 'X', 'L', 'C');
    let du = digit_numeral(u, 'I', 'V', 'X');
    assert(roman_of(n) == ms + roman_of(r));
    assert(roman_of(r) == dh + roman_of(10 * t + u));
    assert(roman_of(10 * t + u) == dt + du);
    assert(ms + (dh + (dt + du)) =~= ms + dh + dt + du);
}

/// Whether no four equal letters stand in a row in `s`.
pub open spec fn no_four_in_a_row(s: Seq<char>) -> bool {
    forall|i: int|
        0 <= i && i + 3 < s.len() ==> !(#[trigger] s[i] == s[i + 1] && s[i + 1] == s[i + 2] && s[i
            + 2] == s[i + 3])
}

proof fn lemma_no_four_concat(a: Seq<char>, b: Seq<char>)
    requires
        no_four_in_a_row(a),
        no_four_in_a_row(b),
        a.len() > 0 && b.len() > 0 ==> a.last() != b[0],
    ensures
        no_four_in_a_row(a + b),
{
    let s = a + b;
    assert forall|i: int| 0 <= i && i + 3 < s.len() implies !(#[trigger] s[i] == s[i + 1] && s[i
        + 1] == s[i + 2] && s[i + 2] == s[i + 3]) by {
        if i + 3 < a.len() {
            assert(s[i] == a[i] && s[i + 1] == a[i + 1] && s[i + 2] == a[i + 2] && s[i + 3] == a[i
                + 3]);
        } else if i >= a.len() {
            let j = i - a.len();
            assert(s[i] == b[j] && s[i + 1] == b[j + 1] && s[i + 2] == b[j + 2] && s[i + 3] == b[j
                + 3]);
        } else {
            let k = a.len() - 1;
            assert(s[k] == a.last());
            assert(s[k + 1] == b[0]);
        }
    }
}

proof fn lemma_digit_numeral_runs(d: nat, one: char, five: char, ten: char)
    requires
        one != five,
        one != ten,
    ensures
        no_four_in_a_row(digit_numeral(d, one, five, ten)),
        digit_numeral(d, one, five, ten).len() > 0 ==> (digit_numeral(d, one, five, ten)[0] == one
            || digit_numeral(d, one, five, ten)[0] == five),
        forall|k: int|
            0 <= k < digit_numeral(d, one, five, ten).len() ==> #[trigger] digit_numeral(
                d,
                one,
                five,
                ten,
            )[k] == one || digit_numeral(d, one, five, ten)[k] == five || digit_numeral(
                d,
                one,
                five,
                ten,
            )[k] == ten,
{
    let s = digit_numeral(d, one, five, ten);
    assert(s.len() <= 4);
    if s.len() == 4 {
        assert(s[0] == five && s[1] == one);
    }
}

proof fn lemma_roman_runs(n: nat)
    requires
        n <= 3999,
    ensures
        no_four_in_a_row(standard_roman(n)),
{
    let ms = Seq::new(n / 1000, |i: int| 'M');
    let dh = digit_numeral((n / 100) % 10, 'C', 'D', 'M');
    let dt = digit_numeral((n / 10) % 10, 'X', 'L', 'C');
    let du = digit_numeral(n % 10, 'I', 'V', 'X');
    lemma_digit_numeral_runs((n / 100) % 10, 'C', 'D', 'M');
    lemma_digit_numeral_runs((n / 10) % 10, 'X', 'L', 'C');
    lemma_digit_numeral_runs(n % 10, 'I', 'V', 'X');
    assert(ms.len() <= 3);
    lemma_no_four_concat(ms, dh);
    let a = ms + dh;
    if a.len() > 0 {
        assert(a.last() == 'M' || a.last() == 'C' || a.last() == 'D') by {
            if dh.len() > 0 {
                assert(a.last() == dh[dh.len() - 1]);
            } else {
                assert(a.last() == ms[ms.len() - 1]);
            }
        }
    }
    lemma_no_four_concat(a, dt);
    let b = a + dt;
    if b.len() > 0 {
        assert(b.last() == 'M' || b.last() == 'C' || b.last() == 'D' || b.last() == 'X'
            || b.last() == 'L') by {
            if dt.len() > 0 {
                assert(b.last() == dt[dt.len() - 1]);
            } else {
                assert(b.last() == a.last());
            }
        }
    }
    lemma_no_four_concat(b, du);
}

/// Every value from 1 to 3999 is labelled by its standard Roman numeral: the
/// thousands as that many `M`s, then each of the hundreds, tens and units by
/// its digit's figure (`4` and `9` by subtraction, as `IV` and `IX`), in upper
/// case for `upperRoman` and in lower case for `lowerRoman`; so no label holds
/// four equal letters in a row.
pub proof fn roman_labels_are_standard(value: int)
    requires
        1 <= value <= 3999,
    ensures
        roman_text(value) == standard_roman(value as nat),
        format_text(value, "upperRoman"@) == standard_roman(value as nat),
        format_text(value, "lowerRoman"@) == standard_roman_lower(value as nat),
        no_four_in_a_row(roman_text(value)),
{
    lemma_roman_of_standard(value as nat);
    lemma_roman_runs(value as nat);
    lemma_lower_standard_roman(value as nat);
    reveal_strlit("upperRoman");
    reveal_strlit("lowerRoman");
    reveal_strlit("lowerLetter");
    reveal_strlit("upperLetter");
    assert("lowerRoman"@[0] != "upperRoman"@[0]);
    assert("lowerLetter"@.len() != "upperRoman"@.len());
    assert("upperLetter"@.len() != "upperRoman"@.len());
    assert("lowerLetter"@.len() != "lowerRoman"@.len());
    assert("upperLetter"@.len() != "lowerRoman"@.len());
}

proof fn lemma_decimal_unchanged_by_lower(n: nat)
    ensures
        lower(decimal(n)) == decimal(n),
    decreases n,
{
    if n < 10 {
        assert(lower(decimal(n)) =~= decimal(n));
    } else {
        lemma_decimal_unchanged_by_lower(n / 10);
        assert(ascii_lower(digit_char(n % 10)) == digit_char(n % 10));
        assert(lower(decimal(n)) =~= lower(decimal(n / 10)).push(ascii_lower(digit_char(n % 10))));
    }
}

/// A value outside 1..=3999 has no Roman numeral: in both Roman formats it
/// is written in decimal, with a minus sign when negative.
pub proof fn roman_labels_out_of_range_are_decimal(value: int)
    requires
        !(1 <= value <= 3999),
    ensures
        format_text(value, "upperRoman"@) == signed_decimal(value),
        format_text(value, "lowerRoman"@) == signed_decimal(value),
{
    reveal_strlit("upperRoman");
    reveal_strlit("lowerRoman");
    reveal_strlit("lowerLetter");
    reveal_strlit("upperLetter");
    assert("lowerRoman"@[0] != "upperRoman"@[0]);
    assert("lowerLetter"@.len() != "upperRoman"@.len());
    assert("upperLetter"@.len() != "upperRoman"@.len());
    assert("lowerLetter"@.len() != "lowerRoman"@.len());
    assert("upperLetter"@.len() != "lowerRoman"@.len());
    if value < 0 {
        lemma_decimal_unchanged_by_lower((-value) as nat);
        assert(lower(seq!['-'] + decimal((-value) as nat)) =~= seq!['-'] + lower(
            decimal((-value) as nat),
        ));
    } else {
        lemma_decimal_unchanged_by_lower(value as nat);
    }
}

/// The largest step of the greedy rule that fits in `n`, with its digits.
fn roman_step(n: u64) -> (r: (u64, &'static str))
    requires
        n >= 1,
    ensures
        1 <= r.0 <= n,
        roman_of(n as nat) == r.1@ + roman_of((n - r.0) as nat),
{
    if n >= 1000 {
        (1000, "M")
    } else if n >= 900 {
        (900, "CM")
    } else if n >= 500 {
        (500, "D")
    } else if n >= 400 {
        (400, "CD")
    } else if n >= 100 {
        (100, "C")
    } else if n >= 90 {
        (90, "XC")
    } else if n >= 50 {
        (50, "L")
    } else if n >= 40 {
        (40, "XL")
    } else if n >= 10 {
        (10, "X")
    } else if n >= 9 {
        (9, "IX")
    } else if n >= 5 {
        (5, "V")
    } else if n >= 4 {
        (4, "IV")
    } else {
        (1, "I")
    }
}

pub fn roman(value: i64) -> (r: String)
    ensures
        r@ == roman_text(value as int),
{
    let mut out: Vec<char> = Vec::new();
    if !(1 <= value && value <= 3999) {
        push_signed_decimal(&mut out, value);
        assert(out@ =~= signed_decimal(value as int));
        return string_of(&out);
    }
    let mut v: u64 = value as u64;
    assert(out@ + roman_of(v as nat) =~= roman_of(value as nat));
    while v > 0
        invariant
            out@ + roman_of(v as nat) == roman_of(value as nat),
        decreases v,
    {
        let (amount, digits) = roman_step(v);
        let ghost before = out@;
        push_str(&mut out, digits);
        v = v - amount;
        assert(out@ + roman_of(v as nat) =~= before + (digits@ + roman_of(v as nat)));
    }
    assert(out@ =~= out@ + roman_of(0));
    string_of(&out)
}

fn lowercase(s: &String) -> (r: String)
    ensures
        r@ == lower(s@),
{
    let v = chars_of(s.as_str());
    let mut out: Vec<char> = Vec::new();
    let mut i: usize = 0;
    while i < v.len()
        invariant
            i <= v.len(),
            out@ == lower(v@.subrange(0, i as int)),
        decreases v.len() - i,
    {
        out.push(crate::text::to_ascii_lower(v[i]));
        proof {
            assert(out@ =~= lower(v@.subrange(0, i as int + 1)));
        }
        i += 1;
    }
    assert(v@.subrange(0, v.len() as int) =~= v@);
    string_of(&out)
}

pub open spec fn known_format(format: Seq<char>) -> bool {
    format == "decimal"@ || format == "lowerLetter"@ || format == "upperLetter"@ || format
        == "lowerRoman"@ || format == "upperRoman"@ || format == "bullet"@
}

/// A counter value in a numbering format; an unknown format is written in
/// decimal.
pub open spec fn format_text(value: int, format: Seq<char>) -> Seq<char> {
    if format == "lowerLetter"@ {
        letters_text(value, false)
    } else if format == "upperLetter"@ {
        letters_text(value, true)
    } else if format == "lowerRoman"@ {
        lower(roman_text(value))
    } else if format == "upperRoman"@ {
        roman_text(value)
    } else if format == "bullet"@ {
        "•"@
    } else {
        signed_decimal(value)
    }
}

/// The warning an unknown numbering format raises.
pub open spec fn format_warnings(format: Seq<char>) -> Seq<Seq<char>> {
    if known_format(format) {
        Seq::empty()
    } else {
        seq!["unsupported numbering format "@ + debug_str(format) + "; decimal fallback used"@]
    }
}

pub fn format_number(value: i64, format: &str, warnings: &mut Vec<String>) -> (r: String)
    ensures
        r@ == format_text(value as int, format@),
        texts(final(warnings)@) == texts(old(warnings)@) + format_warnings(format@),
{
    proof {
        reveal_strlit("•");
        reveal_strlit("decimal");
        reveal_strlit("lowerLetter");
        reveal_strlit("upperLetter");
        reveal_strlit("lowerRoman");
        reveal_strlit("upperRoman");
        reveal_strlit("bullet");
        assert("decimal"@.len() == 7);
        assert("lowerLetter"@.len() == 11);
        assert("upperLetter"@.len() == 11);
        assert("lowerRoman"@.len() == 10);
        assert("upperRoman"@.len() == 10);
        assert("bullet"@.len() == 6);
        assert("lowerLetter"@[0] != "upperLetter"@[0]);
        assert("lowerRoman"@[0] != "upperRoman"@[0]);
    }
    let ghost w0 = texts(warnings@);
    let r = if str_eq(format, "decimal") {
        let mut out: Vec<char> = Vec::new();
        push_signed_decimal(&mut out, value);
        assert(out@ =~= signed_decimal(value as int));
        string_of(&out)
    } else if str_eq(format, "lowerLetter") {
        letters(value, false)
    } else if str_eq(format, "upperLetter") {
        letters(value, true)
    } else if str_eq(format, "lowerRoman") {
        lowercase(&roman(value))
    } else if str_eq(format, "upperRoman") {
        roman(value)
    } else if str_eq(format, "bullet") {
        "•".to_string()
    } else {
        let mut msg: Vec<char> = Vec::new();
        push_str(&mut msg, "unsupported numbering format ");
        push_str(&mut msg, debug_quoted(format).as_str());
        push_str(&mut msg, "; decimal fallback used");
        warnings.push(string_of(&msg));
        let mut out: Vec<char> = Vec::new();
        push_signed_decimal(&mut out, value);
        assert(out@ =~= signed_decimal(value as int));
        string_of(&out)
    };
    proof {
        assert(texts(warnings@) =~= w0 + format_warnings(format@));
    }
    r
}


/// Level `index` of a list instance: the override's definition where it gives
/// one, else the list definition's; an override's start value replaces the
/// level's.
pub open spec fn level_of(levels: Seq<(u32, Level)>, num: Num, index: u32) -> Option<Level> {
    let base = int_find(levels, index);
    let ov = int_find(num.overrides@, index);
    let level = if ov is Some && ov->0.level is Some {
        ov->0.level
    } else {
        base
    };
    match level {
        Some(l) => if ov is Some && ov->0.start is Some {
            Some(Level { start: ov->0.start->0, ..l })
        } else {
            Some(l)
        },
        None => None,
    }
}

/// The warning a missing level raises.
pub open spec fn level_warnings(levels: Seq<(u32, Level)>, num: Num, index: u32) -> Seq<Seq<char>> {
    if level_of(levels, num, index) is None {
        seq![
            "numbering level "@ + decimal(index as nat) + " is missing from abstract definition "@
                + debug_str(num.abstract_id@),
        ]
    } else {
        Seq::empty()
    }
}

pub fn resolved_level(
    levels: &Vec<(u32, Level)>,
    num: &Num,
    index: u32,
    warnings: &mut Vec<String>,
) -> (r: Option<Level>)
    ensures
        r == level_of(levels@, *num, index),
        texts(final(warnings)@) == texts(old(warnings)@) + level_warnings(levels@, *num, index),
{
    let ghost w0 = texts(warnings@);
    let base = find_level(levels, index);
    let ov = find_override(&num.overrides, index);
    let chosen: Option<&Level> = match ov {
        Some(o) => match &o.level {
            Some(l) => Some(l),
            None => base,
        },
        None => base,
    };
    let r = match chosen {
        Some(l) => {
            let mut level = l.duplicate();
            match ov {
                Some(o) => match o.start {
                    Some(st) => {
                        level.start = st;
                    },
                    None => {},
                },
                None => {},
            }
            Some(level)
        },
        None => {
            let mut msg: Vec<char> = Vec::new();
            push_str(&mut msg, "numbering level ");
            push_decimal(&mut msg, index as u64);
            push_str(&mut msg, " is missing from abstract definition ");
            push_str(&mut msg, debug_quoted(num.abstract_id.as_str()).as_str());
            warnings.push(string_of(&msg));
            None
        },
    };
    proof {
        assert(texts(warnings@) =~= w0 + level_warnings(levels@, *num, index));
    }
    r
}

/// A label template with its `%1`..`%9` placeholders filled: its text, the
/// warnings raised, and whether a picture level was referenced.
pub struct Label {
    pub text: Seq<char>,
    pub warnings: Seq<Seq<char>>,
    pub picture: bool,
}

pub open spec fn is_level_digit(c: char) -> bool {
    '1' <= c && c <= '9'
}

/// `%n` stands for the current value of level `n - 1` (its start, else 1,
/// where it has none), in that level's format.
pub open spec fn substituted(
    t: Seq<char>,
    values: Seq<Option<i64>>,
    levels: Seq<(u32, Level)>,
    num: Num,
) -> Label
    decreases t.len(),
{
    if t.len() == 0 {
        Label { text: Seq::empty(), warnings: Seq::empty(), picture: false }
    } else if t[0] == '%' && t.len() >= 2 && is_level_digit(t[1]) {
        let idx = ((t[1] as u32) - ('1' as u32)) as u32;
        let lvl = level_of(levels, num, idx);
        let value: int = if values[idx as int] is Some {
            values[idx as int]->0 as int
        } else if lvl is Some {
            lvl->0.start as int
        } else {
            1
        };
        let fmt = if lvl is Some {
            lvl->0.format@
        } else {
            "decimal"@
        };
        let rest = substituted(t.subrange(2, t.len() as int), values, levels, num);
        Label {
            text: format_text(value, fmt) + rest.text,
            warnings: level_warnings(levels, num, idx) + format_warnings(fmt) + rest.warnings,
            picture: (lvl is Some && lvl->0.picture) || rest.picture,
        }
    } else {
        let rest = substituted(t.drop_first(), values, levels, num);
        Label { text: seq![t[0]] + rest.text, ..rest }
    }
}

pub fn substitute_label(
    template: &str,
    values: &[Option<i64>; 9],
    levels: &Vec<(u32, Level)>,
    num: &Num,
    warnings: &mut Vec<String>,
    picture: &mut bool,
) -> (r: String)
    ensures
        ({
            let l = substituted(template@, values@, levels@, *num);
            &&& r@ == l.text
            &&& texts(final(warnings)@) == texts(old(warnings)@) + l.warnings
            &&& *final(picture) == (*old(picture) || l.picture)
        }),
{
    proof {
        reveal_strlit("decimal");
    }
    let v = chars_of(template);
    let ghost all = substituted(v@, values@, levels@, *num);
    let ghost w0 = texts(warnings@);
    let ghost p0 = *picture;
    let ghost mut pw: Seq<Seq<char>> = Seq::empty();
    let ghost mut pp: bool = false;
    let mut out: Vec<char> = Vec::new();
    let mut i: usize = 0;
    assert(v@.subrange(0, v.len() as int) =~= v@);
    while i < v.len()
        invariant
            i <= v.len(),
            v@ == template@,
            all == substituted(v@, values@, levels@, *num),
            ({
                let rest = substituted(v@.subrange(i as int, v.len() as int), values@, levels@, *num);
                &&& all.text == out@ + rest.text
                &&& all.warnings == pw + rest.warnings
                &&& all.picture == (pp || rest.picture)
            }),
            texts(warnings@) == w0 + pw,
            *picture == (p0 || pp),
        decreases v.len() - i,
    {
        let ghost rest = v@.subrange(i as int, v.len() as int);
        if v[i] == '%' && i + 1 < v.len() && '1' <= v[i + 1] && v[i + 1] <= '9' {
            let idx = ((v[i + 1] as u32) - ('1' as u32)) as u32;
            proof {
                assert(rest[0] == '%' && rest[1] == v@[i + 1]);
                assert(rest.subrange(2, rest.len() as int) =~= v@.subrange(i + 2, v.len() as int));
            }
            let level = resolved_level(levels, num, idx, warnings);
            let mut is_picture = false;
            match &level {
                Some(l) => {
                    if l.picture {
                        *picture = true;
                        is_picture = true;
                    }
                },
                None => {},
            }
            let value: i64 = match values[idx as usize] {
                Some(x) => x,
                None => match &level {
                    Some(l) => l.start,
                    None => 1,
                },
            };
            let text = match &level {
                Some(l) => format_number(value, l.format.as_str(), warnings),
                None => format_number(value, "decimal", warnings),
            };
            let ghost before = out@;
            crate::text::push_str(&mut out, text.as_str());
            proof {
                let lvl = level_of(levels@, *num, idx);
                let fmt = if lvl is Some {
                    lvl->0.format@
                } else {
                    "decimal"@
                };
                let r2 = substituted(v@.subrange(i + 2, v.len() as int), values@, levels@, *num);
                assert(all.text =~= out@ + r2.text);
                pw = pw + level_warnings(levels@, *num, idx) + format_warnings(fmt);
                assert(all.warnings =~= pw + r2.warnings);
                pp = pp || is_picture;
                assert(texts(warnings@) =~= w0 + pw);
            }
            i += 2;
        } else {
            proof {
                assert(rest.drop_first() =~= v@.subrange(i + 1, v.len() as int));
                assert(rest[0] == v@[i as int]);
                if rest[0] == '%' && rest.len() >= 2 {
                    assert(rest[1] == v@[i + 1]);
                }
            }
            out.push(v[i]);
            proof {
                let r2 = substituted(v@.subrange(i + 1, v.len() as int), values@, levels@, *num);
                assert(all.text =~= out@ + r2.text);
            }
            i += 1;
        }
    }
    proof {
        assert(v@.subrange(v.len() as int, v.len() as int) =~= Seq::<char>::empty());
        assert(out@ =~= all.text);
        assert(pw =~= all.warnings);
    }
    string_of(&out)
}


/// Counter values after a level restart pass, and its warnings.
pub struct Advance {
    pub values: Seq<Option<i64>>,
    pub warnings: Seq<Seq<char>>,
}

/// The number that level `deeper` restarts after: its `lvlRestart`, else the
/// level just above it (`0` means never).
pub open spec fn restart_trigger(l: Level, deeper: nat) -> nat {
    match l.restart {
        Some(t) => t as nat,
        None => deeper,
    }
}

/// After level `index` advances, every level from `deeper` to `deepest` whose
/// restart trigger is at or below `index + 1` is unset, so that it starts
/// again; a missing level is skipped with a warning.
pub open spec fn restarted(
    values: Seq<Option<i64>>,
    levels: Seq<(u32, Level)>,
    num: Num,
    index: nat,
    deeper: nat,
    deepest: nat,
) -> Advance
    decreases deepest + 1 - deeper,
{
    if deeper > deepest {
        Advance { values, warnings: Seq::empty() }
    } else {
        let dl = level_of(levels, num, deeper as u32);
        let v2 = match dl {
            Some(l) => {
                let trigger = restart_trigger(l, deeper);
                if trigger != 0 && index <= trigger - 1 {
                    values.update(deeper as int, None)
                } else {
                    values
                }
            },
            None => values,
        };
        let rest = restarted(v2, levels, num, index, deeper + 1, deepest);
        Advance {
            values: rest.values,
            warnings: level_warnings(levels, num, deeper as u32) + rest.warnings,
        }
    }
}

/// A counter advanced once: one past its value (saturating), or the level's
/// start where it has none.
pub open spec fn advanced_value(old: Option<i64>, start: i64) -> Option<i64> {
    match old {
        Some(v) => Some(
            if v < i64::MAX {
                (v + 1) as i64
            } else {
                v
            },
        ),
        None => Some(start),
    }
}

/// A list paragraph's membership, as values.
pub struct ListView {
    pub list_id: Seq<char>,
    pub level: u32,
    pub kind: ListKind,
    pub label: Seq<char>,
    pub run: Option<RunProps>,
}

/// The effect of numbering one paragraph: its list membership, the new
/// counters of its list instance, and the warnings raised.
pub struct NextOutcome {
    pub list: Option<ListView>,
    pub counter: Option<Seq<Option<i64>>>,
    pub warnings: Seq<Seq<char>>,
}

pub open spec fn unset_counters() -> Seq<Option<i64>> {
    Seq::new(9, |i: int| None)
}

pub open spec fn clamp_level(level_index: u32) -> u32 {
    if level_index < 8 {
        level_index
    } else {
        8
    }
}

pub open spec fn deepest_level(levels: Seq<(u32, Level)>, num: Num) -> nat {
    let m = if max_key(levels) > max_key(num.overrides@) {
        max_key(levels)
    } else {
        max_key(num.overrides@)
    };
    if m < 8 {
        m
    } else {
        8
    }
}

pub open spec fn picture_warning(num_id: Seq<char>, level: u32) -> Seq<char> {
    "picture bullet for numId "@ + debug_str(num_id) + " level "@ + decimal(level as nat)
        + " rendered as a bullet"@
}

/// Numbering a paragraph of list instance `num_id` at level `level_index`
/// (at most 8), where the instance's counters are `current`: the level's
/// counter advances, the levels that restart after it are unset, and the
/// level's template is filled from the counters. A picture bullet becomes
/// `•`.
pub open spec fn next_outcome(
    nb: Numbering,
    current: Option<Seq<Option<i64>>>,
    num_id: Seq<char>,
    level_index: u32,
) -> NextOutcome {
    let idx = clamp_level(level_index);
    match lookup(nb.nums.entries@, num_id) {
        None => NextOutcome {
            list: None,
            counter: None,
            warnings: seq!["numbering instance "@ + debug_str(num_id) + " is missing"@],
        },
        Some(num) => match lookup(nb.abstracts.entries@, num.abstract_id@) {
            None => NextOutcome {
                list: None,
                counter: None,
                warnings: seq![
                    "abstract numbering definition "@ + debug_str(num.abstract_id@) + " for numId "@
                        + debug_str(num_id) + " is missing"@,
                ],
            },
            Some(levels) => {
                let lw = level_warnings(levels@, num, idx);
                match level_of(levels@, num, idx) {
                    None => NextOutcome { list: None, counter: None, warnings: lw },
                    Some(level) => {
                        let old = match current {
                            Some(v) => v,
                            None => unset_counters(),
                        };
                        let v1 = old.update(idx as int, advanced_value(old[idx as int], level.start));
                        let adv = restarted(v1, levels@, num, idx as nat, idx as nat + 1, deepest_level(levels@, num));
                        let lab = substituted(level.text@, adv.values, levels@, num);
                        let picture = level.picture || lab.picture;
                        let kind = if picture || level.format@ == "bullet"@ {
                            ListKind::Bullet
                        } else {
                            ListKind::Ordered
                        };
                        NextOutcome {
                            list: Some(
                                ListView {
                                    list_id: num_id,
                                    level: idx,
                                    kind,
                                    label: if picture {
                                        "•"@
                                    } else {
                                        lab.text
                                    },
                                    run: level.run,
                                },
                            ),
                            counter: Some(adv.values),
                            warnings: lw + adv.warnings + lab.warnings + if picture {
                                seq![picture_warning(num_id, idx)]
                            } else {
                                Seq::empty()
                            },
                        }
                    },
                }
            },
        },
    }
}

/// The counters of a list instance.
pub open spec fn counter_at(c: Counters, id: Seq<char>) -> Option<Seq<Option<i64>>> {
    match lookup(c.values.entries@, id) {
        Some(a) => Some(a@),
        None => None,
    }
}

impl Counters {
    pub fn new() -> (c: Counters)
        ensures
            c.values.wf(),
            c.values.entries@.len() == 0,
            forall|id: Seq<char>| #[trigger] counter_at(c, id) is None,
    {
        Counters { values: StrMap::new() }
    }
}

fn restart_levels(
    values: &mut [Option<i64>; 9],
    levels: &Vec<(u32, Level)>,
    num: &Num,
    index: usize,
    deepest: usize,
    warnings: &mut Vec<String>,
)
    requires
        index <= 8,
        deepest <= 8,
    ensures
        ({
            let a = restarted(old(values)@, levels@, *num, index as nat, index as nat + 1, deepest as nat);
            &&& final(values)@ == a.values
            &&& texts(final(warnings)@) == texts(old(warnings)@) + a.warnings
        }),
{
    let ghost total = restarted(values@, levels@, *num, index as nat, index as nat + 1, deepest as nat);
    let ghost w0 = texts(warnings@);
    let ghost mut pw: Seq<Seq<char>> = Seq::empty();
    let mut deeper: usize = index + 1;
    while deeper <= deepest
        invariant
            index <= 8,
            deepest <= 8,
            index + 1 <= deeper,
            deeper <= deepest + 1 || deeper == index + 1,
            ({
                let rest = restarted(values@, levels@, *num, index as nat, deeper as nat, deepest as nat);
                &&& total.values == rest.values
                &&& total.warnings == pw + rest.warnings
            }),
            texts(warnings@) == w0 + pw,
        decreases deepest + 1 - deeper,
    {
        let ghost before = values@;
        let level = resolved_level(levels, num, deeper as u32, warnings);
        match level {
            Some(l) => {
                let trigger: u32 = match l.restart {
                    Some(t) => t,
                    None => deeper as u32,
                };
                if trigger != 0 && index <= (trigger - 1) as usize {
                    values[deeper] = None;
                }
            },
            None => {},
        }
        proof {
            assert(values@ =~= match level_of(levels@, *num, deeper as u32) {
                Some(l) => {
                    let trigger = restart_trigger(l, deeper as nat);
                    if trigger != 0 && index <= trigger - 1 {
                        before.update(deeper as int, None)
                    } else {
                        before
                    }
                },
                None => before,
            });
            pw = pw + level_warnings(levels@, *num, deeper as u32);
            assert(texts(warnings@) =~= w0 + pw);
            let r2 = restarted(values@, levels@, *num, index as nat, deeper as nat + 1, deepest as nat);
            assert(total.warnings =~= pw + r2.warnings);
        }
        deeper += 1;
    }
}

impl Numbering {
    /// Numbers a paragraph of list instance `num_id` at level `level_index`
    /// (see `next_outcome`), advancing `counters`; warnings are appended to
    /// `warnings`.
    #[verifier::rlimit(40)]
    pub fn next(
        &self,
        counters: &mut Counters,
        num_id: &str,
        level_index: u32,
        warnings: &mut Vec<String>,
    ) -> (r: Option<ResolvedList>)
        requires
            old(counters).values.wf(),
        ensures
            final(counters).values.wf(),
            ({
                let out = next_outcome(*self, counter_at(*old(counters), num_id@), num_id@, level_index);
                &&& texts(final(warnings)@) == texts(old(warnings)@) + out.warnings
                &&& match out.list {
                    Some(lv) => r matches Some(rl) && rl.info.list_id@ == lv.list_id && rl.info.level
                        == lv.level && rl.info.kind == lv.kind && rl.info.label@ == lv.label && rl.run
                        == lv.run,
                    None => r is None,
                }
                &&& match out.counter {
                    Some(v) => counter_at(*final(counters), num_id@) == Some(v),
                    None => counter_at(*final(counters), num_id@) == counter_at(*old(counters), num_id@),
                }
                &&& forall|id: Seq<char>|
                    id != num_id@ ==> #[trigger] counter_at(*final(counters), id) == counter_at(
                        *old(counters),
                        id,
                    )
            }),
    {
        proof {
            reveal_strlit("bullet");
            reveal_strlit("•");
        }
        let ghost w0 = texts(warnings@);
        let idx: u32 = if level_index < 8 {
            level_index
        } else {
            8
        };
        let num = match self.nums.get(num_id) {
            Some(n) => n,
            None => {
                warnings.push(crate::styles::quoted_message("numbering instance ", num_id, " is missing"));
                proof {
                    assert(texts(warnings@) =~= w0 + seq!["numbering instance "@ + debug_str(num_id@) + " is missing"@]);
                }
                return None;
            },
        };
        let levels = match self.abstracts.get(num.abstract_id.as_str()) {
            Some(l) => l,
            None => {
                let mut msg: Vec<char> = Vec::new();
                push_str(&mut msg, "abstract numbering definition ");
                push_str(&mut msg, debug_quoted(num.abstract_id.as_str()).as_str());
                push_str(&mut msg, " for numId ");
                push_str(&mut msg, debug_quoted(num_id).as_str());
                push_str(&mut msg, " is missing");
                warnings.push(string_of(&msg));
                proof {
                    assert(texts(warnings@) =~= w0 + seq![
                        "abstract numbering definition "@ + debug_str(num.abstract_id@) + " for numId "@
                            + debug_str(num_id@) + " is missing"@,
                    ]);
                }
                return None;
            },
        };
        let level = match resolved_level(levels, num, idx, warnings) {
            Some(l) => l,
            None => {
                return None;
            },
        };
        let ghost w1 = texts(warnings@);
        let ghost lw = level_warnings(levels@, *num, idx);
        assert(w1 == w0 + lw);
        let mut values: [Option<i64>; 9] = match counters.values.get(num_id) {
            Some(a) => *a,
            None => [None, None, None, None, None, None, None, None, None],
        };
        proof {
            if counter_at(*old(counters), num_id@) is None {
                assert(values@ =~= unset_counters());
            }
        }
        let ghost old_vals = values@;
        let index = idx as usize;
        let advanced: i64 = match values[index] {
            Some(v) => if v < i64::MAX {
                v + 1
            } else {
                v
            },
            None => level.start,
        };
        values[index] = Some(advanced);
        let kl = max_level_key(levels);
        let ko = max_override_key(&num.overrides);
        let m = if kl > ko {
            kl
        } else {
            ko
        };
        let deepest: usize = if m < 8 {
            m as usize
        } else {
            8
        };
        let ghost v1 = values@;
        proof {
            assert(v1 =~= old_vals.update(idx as int, advanced_value(old_vals[idx as int], level.start)));
        }
        restart_levels(&mut values, levels, num, index, deepest, warnings);
        let ghost w2 = texts(warnings@);
        let ghost adv = restarted(v1, levels@, *num, idx as nat, idx as nat + 1, deepest as nat);
        assert(w2 == w1 + adv.warnings);
        assert(values@ == adv.values);
        let mut picture = level.picture;
        let label = substitute_label(level.text.as_str(), &values, levels, num, warnings, &mut picture);
        let ghost w3 = texts(warnings@);
        let ghost lab = substituted(level.text@, adv.values, levels@, *num);
        assert(w3 == w2 + lab.warnings);
        let kind = if picture || str_eq(level.format.as_str(), "bullet") {
            ListKind::Bullet
        } else {
            ListKind::Ordered
        };
        let label = if picture {
            let mut msg: Vec<char> = Vec::new();
            push_str(&mut msg, "picture bullet for numId ");
            push_str(&mut msg, debug_quoted(num_id).as_str());
            push_str(&mut msg, " level ");
            push_decimal(&mut msg, idx as u64);
            push_str(&mut msg, " rendered as a bullet");
            warnings.push(string_of(&msg));
            "•".to_string()
        } else {
            label
        };
        let ghost old_values = counters.values;
        counters.values.insert(num_id.to_string(), values);
        proof {
            let out = next_outcome(*self, counter_at(*old(counters), num_id@), num_id@, level_index);
            assert(deepest as nat == deepest_level(levels@, *num));
            if picture {
                assert(texts(warnings@) =~= w3.push(picture_warning(num_id@, idx)));
            } else {
                assert(texts(warnings@) =~= w3);
            }
            assert(texts(warnings@) =~= w0 + out.warnings);
            assert(counters.values.get_spec(num_id@) == Some(values));
            assert forall|id: Seq<char>| id != num_id@ implies #[trigger] counter_at(*counters, id)
                == counter_at(*old(counters), id) by {
                assert(counters.values.get_spec(id) == old_values.get_spec(id));
            }
        }
        Some(ResolvedList {
            info: ListInfo { list_id: num_id.to_string(), level: idx, kind, label },
            run: level.run,
        })
    }
}


proof fn lemma_restarted(
    values: Seq<Option<i64>>,
    levels: Seq<(u32, Level)>,
    num: Num,
    index: nat,
    deeper: nat,
    deepest: nat,
)
    requires
        values.len() == 9,
        deepest <= 8,
    ensures
        restarted(values, levels, num, index, deeper, deepest).values.len() == values.len(),
        forall|j: int|
            0 <= j < values.len() && (j < deeper || j > deepest) ==> #[trigger] restarted(
                values,
                levels,
                num,
                index,
                deeper,
                deepest,
            ).values[j] == values[j],
        forall|j: int|
            deeper <= j <= deepest && j < values.len() && (level_of(levels, num, j as u32) matches Some(
                l,
            ) && restart_trigger(l, j as nat) != 0 && index <= restart_trigger(l, j as nat) - 1)
                ==> #[trigger] restarted(values, levels, num, index, deeper, deepest).values[j] is None,
    decreases deepest + 1 - deeper,
{
    if deeper <= deepest {
        let v2 = match level_of(levels, num, deeper as u32) {
            Some(l) => {
                let trigger = restart_trigger(l, deeper);
                if trigger != 0 && index <= trigger - 1 {
                    values.update(deeper as int, None)
                } else {
                    values
                }
            },
            None => values,
        };
        lemma_restarted(v2, levels, num, index, deeper + 1, deepest);
    }
}

/// Numbering a paragraph advances the counter of its own level by one (or
/// sets it to the level's start value when it was unset), and leaves the
/// counters of the levels above it as they were.
pub proof fn numbering_advances_its_level_and_keeps_the_levels_above(
    nb: Numbering,
    current: Option<Seq<Option<i64>>>,
    num_id: Seq<char>,
    level_index: u32,
)
    requires
        current matches Some(v) ==> v.len() == 9,
    ensures
        ({
            let out = next_outcome(nb, current, num_id, level_index);
            let idx = clamp_level(level_index);
            let old = match current {
                Some(v) => v,
                None => unset_counters(),
            };
            match out.counter {
                Some(v) => {
                    &&& v.len() == 9
                    &&& forall|j: int| 0 <= j < idx ==> #[trigger] v[j] == old[j]
                    &&& match lookup(nb.nums.entries@, num_id) {
                        Some(num) => match lookup(nb.abstracts.entries@, num.abstract_id@) {
                            Some(levels) => match level_of(levels@, num, idx) {
                                Some(level) => v[idx as int] == advanced_value(old[idx as int], level.start),
                                None => true,
                            },
                            None => true,
                        },
                        None => true,
                    }
                },
                None => true,
            }
        }),
{
    let idx = clamp_level(level_index);
    let old = match current {
        Some(v) => v,
        None => unset_counters(),
    };
    match lookup(nb.nums.entries@, num_id) {
        Some(num) => match lookup(nb.abstracts.entries@, num.abstract_id@) {
            Some(levels) => match level_of(levels@, num, idx) {
                Some(level) => {
                    let v1 = old.update(idx as int, advanced_value(old[idx as int], level.start));
                    lemma_restarted(v1, levels@, num, idx as nat, idx as nat + 1, deepest_level(levels@, num));
                },
                None => {},
            },
            None => {},
        },
        None => {},
    }
}

/// Numbering a paragraph at level `i` restarts each deeper level (up to the
/// deepest level the list defines) whose restart trigger is at or below
/// level `i + 1`: by default the level just below `i`.
pub proof fn numbering_restarts_the_levels_that_follow(
    nb: Numbering,
    current: Option<Seq<Option<i64>>>,
    num_id: Seq<char>,
    level_index: u32,
    j: int,
)
    requires
        current matches Some(v) ==> v.len() == 9,
        clamp_level(level_index) < j <= 8,
    ensures
        ({
            let out = next_outcome(nb, current, num_id, level_index);
            let idx = clamp_level(level_index);
            match lookup(nb.nums.entries@, num_id) {
                Some(num) => match lookup(nb.abstracts.entries@, num.abstract_id@) {
                    Some(levels) => match (level_of(levels@, num, idx), level_of(levels@, num, j as u32)) {
                        (Some(_), Some(l)) => (j <= deepest_level(levels@, num) && restart_trigger(
                            l,
                            j as nat,
                        ) != 0 && idx <= restart_trigger(l, j as nat) - 1) ==> (out.counter matches Some(
                            v,
                        ) && v[j] is None),
                        _ => true,
                    },
                    None => true,
                },
                None => true,
            }
        }),
{
    let idx = clamp_level(level_index);
    let old = match current {
        Some(v) => v,
        None => unset_counters(),
    };
    match lookup(nb.nums.entries@, num_id) {
        Some(num) => match lookup(nb.abstracts.entries@, num.abstract_id@) {
            Some(levels) => match level_of(levels@, num, idx) {
                Some(level) => {
                    let v1 = old.update(idx as int, advanced_value(old[idx as int], level.start));
                    lemma_restarted(v1, levels@, num, idx as nat, idx as nat + 1, deepest_level(levels@, num));
                },
                None => {},
            },
            None => {},
        },
        None => {},
    }
}


/// What a level holds, as values.
pub struct LevelView {
    pub start: i64,
    pub format: Seq<char>,
    pub text: Seq<char>,
    pub restart: Option<u32>,
    pub picture: bool,
    pub run: Option<RunView>,
}

pub open spec fn level_view(l: Level) -> LevelView {
    LevelView {
        start: l.start,
        format: l.format@,
        text: l.text@,
        restart: l.restart,
        picture: l.picture,
        run: match l.run {
            Some(r) => Some(run_view(r)),
            None => None,
        },
    }
}

/// `i64::from_str` on an optional value.
pub open spec fn opt_i64(o: Option<Seq<char>>) -> Option<i64> {
    match o {
        Some(s) => match parse_signed(s, 10) {
            Some(v) => if i64::MIN <= v <= i64::MAX {
                Some(v as i64)
            } else {
                None
            },
            None => None,
        },
        None => None,
    }
}

/// The level that an `lvl` element defines: start 1, format `decimal` and
/// template `%1.` unless it states others.
pub open spec fn level_of_node(n: Node) -> LevelView {
    LevelView {
        start: match opt_i64(child_val_of(n, "start"@)) {
            Some(v) => v,
            None => 1,
        },
        format: match child_val_of(n, "numFmt"@) {
            Some(v) => v,
            None => "decimal"@,
        },
        text: match child_val_of(n, "lvlText"@) {
            Some(v) => v,
            None => "%1."@,
        },
        restart: crate::styles::opt_u32(child_val_of(n, "lvlRestart"@)),
        picture: child_node(n, "lvlPicBulletId"@) is Some,
        run: match child_node(n, "rPr"@) {
            Some(r) => Some(run_props_of(r)),
            None => None,
        },
    }
}

fn parse_opt_i64(o: Option<&str>) -> (r: Option<i64>)
    ensures
        r == opt_i64(opt_str(o)),
{
    match o {
        Some(s) => parse_i64(s),
        None => None,
    }
}

fn parse_level(node: &Node) -> (r: Level)
    ensures
        level_view(r) == level_of_node(*node),
{
    proof {
        reveal_strlit("decimal");
        reveal_strlit("%1.");
    }
    let start = match parse_opt_i64(child_val(node, "start")) {
        Some(v) => v,
        None => 1,
    };
    let format = match child_val(node, "numFmt") {
        Some(v) => v.to_string(),
        None => "decimal".to_string(),
    };
    let text = match child_val(node, "lvlText") {
        Some(v) => v.to_string(),
        None => "%1.".to_string(),
    };
    let restart = match child_val(node, "lvlRestart") {
        Some(v) => parse_u32(v),
        None => None,
    };
    Level {
        start,
        format,
        text,
        restart,
        picture: node.child("lvlPicBulletId").is_some(),
        run: match node.child("rPr") {
            Some(r) => Some(run_props(r)),
            None => None,
        },
    }
}

/// Inserts `v` under `k`, replacing an entry already there.
fn insert_keyed<V>(s: &mut Vec<(u32, V)>, k: u32, v: V)
    ensures
        int_find(final(s)@, k) == Some(v),
        forall|q: u32| q != k ==> #[trigger] int_find(final(s)@, q) == int_find(old(s)@, q),
{
    let mut i: usize = 0;
    assert(s@.subrange(0, s.len() as int) =~= s@);
    while i < s.len()
        invariant
            i <= s.len(),
            s@ == old(s)@,
            forall|j: int| 0 <= j < i ==> #[trigger] s@[j].0 != k,
        decreases s.len() - i,
    {
        if s[i].0 == k {
            let ghost before = s@;
            s.set(i, (k, v));
            proof {
                lemma_int_find_set(before, i as int, k, v);
            }
            return;
        }
        i += 1;
    }
    let ghost before = s@;
    s.push((k, v));
    proof {
        lemma_int_find_push(before, k, v);
    }
}

proof fn lemma_int_find_set<V>(s: Seq<(u32, V)>, i: int, k: u32, v: V)
    requires
        0 <= i < s.len(),
        s[i].0 == k,
        forall|j: int| 0 <= j < i ==> #[trigger] s[j].0 != k,
    ensures
        int_find(s.update(i, (k, v)), k) == Some(v),
        forall|q: u32| q != k ==> #[trigger] int_find(s.update(i, (k, v)), q) == int_find(s, q),
    decreases s.len(),
{
    let t = s.update(i, (k, v));
    if i > 0 {
        assert forall|j: int| 0 <= j < i - 1 implies #[trigger] s.drop_first()[j].0 != k by {
            assert(s.drop_first()[j] == s[j + 1]);
        }
        lemma_int_find_set(s.drop_first(), i - 1, k, v);
        assert(t.drop_first() =~= s.drop_first().update(i - 1, (k, v)));
        assert(t[0] == s[0]);
        assert forall|q: u32| q != k implies #[trigger] int_find(t, q) == int_find(s, q) by {
            if s[0].0 != q {
                assert(int_find(t, q) == int_find(t.drop_first(), q));
                assert(int_find(s, q) == int_find(s.drop_first(), q));
            }
        }
    } else {
        assert(t.drop_first() =~= s.drop_first());
        assert(t[0] == (k, v));
        assert forall|q: u32| q != k implies #[trigger] int_find(t, q) == int_find(s, q) by {
            assert(int_find(t, q) == int_find(t.drop_first(), q));
            assert(int_find(s, q) == int_find(s.drop_first(), q));
        }
    }
}

proof fn lemma_int_find_push<V>(s: Seq<(u32, V)>, k: u32, v: V)
    requires
        forall|j: int| 0 <= j < s.len() ==> #[trigger] s[j].0 != k,
    ensures
        int_find(s.push((k, v)), k) == Some(v),
        forall|q: u32| q != k ==> #[trigger] int_find(s.push((k, v)), q) == int_find(s, q),
    decreases s.len(),
{
    let t = s.push((k, v));
    if s.len() > 0 {
        assert(t.drop_first() =~= s.drop_first().push((k, v)));
        assert forall|j: int| 0 <= j < s.drop_first().len() implies #[trigger] s.drop_first()[j].0 != k by {
            assert(s.drop_first()[j] == s[j + 1]);
        }
        lemma_int_find_push(s.drop_first(), k, v);
        assert(t[0] == s[0]);
        assert forall|q: u32| q != k implies #[trigger] int_find(t, q) == int_find(s, q) by {
            if s[0].0 != q {
                assert(int_find(t, q) == int_find(t.drop_first(), q));
                assert(int_find(s, q) == int_find(s.drop_first(), q));
            }
        }
    } else {
        assert(t.drop_first() =~= Seq::<(u32, V)>::empty());
        assert(t[0] == (k, v));
        assert forall|q: u32| q != k implies #[trigger] int_find(t, q) == int_find(s, q) by {
            assert(int_find(t, q) == int_find(t.drop_first(), q));
        }
    }
}

/// The level of index `k` that the `lvl` children `ls` define: the last one
/// whose `ilvl` reads as `k`.
pub open spec fn level_last(ls: Seq<Node>, k: u32) -> Option<LevelView>
    decreases ls.len(),
{
    if ls.len() == 0 {
        None
    } else if crate::styles::opt_u32(attr_text(ls.last(), "ilvl"@)) == Some(k) {
        Some(level_of_node(ls.last()))
    } else {
        level_last(ls.drop_last(), k)
    }
}

pub open spec fn attr_text(n: Node, name: Seq<char>) -> Option<Seq<char>> {
    match attr_value(n.attrs, name) {
        Some(v) => Some(v@),
        None => None,
    }
}

/// The last `abstractNum` among `ds` with the id `id`.
pub open spec fn abstract_last(ds: Seq<Node>, id: Seq<char>) -> Option<Node>
    decreases ds.len(),
{
    if ds.len() == 0 {
        None
    } else if attr_text(ds.last(), "abstractNumId"@) == Some(id) {
        Some(ds.last())
    } else {
        abstract_last(ds.drop_last(), id)
    }
}

/// The last `num` among `ds` with the id `id` that names a definition.
pub open spec fn num_last(ds: Seq<Node>, id: Seq<char>) -> Option<Node>
    decreases ds.len(),
{
    if ds.len() == 0 {
        None
    } else if attr_text(ds.last(), "numId"@) == Some(id) && child_val_of(ds.last(), "abstractNumId"@)
        is Some {
        Some(ds.last())
    } else {
        num_last(ds.drop_last(), id)
    }
}

/// What a level override holds, as values.
pub struct OverrideView {
    pub start: Option<i64>,
    pub level: Option<LevelView>,
}

/// The override of level `k` among the `lvlOverride` children `os`: the last
/// one whose `ilvl` reads as `k`.
pub open spec fn override_last(os: Seq<Node>, k: u32) -> Option<OverrideView>
    decreases os.len(),
{
    if os.len() == 0 {
        None
    } else if crate::styles::opt_u32(attr_text(os.last(), "ilvl"@)) == Some(k) {
        Some(
            OverrideView {
                start: opt_i64(child_val_of(os.last(), "startOverride"@)),
                level: match child_node(os.last(), "lvl"@) {
                    Some(l) => Some(level_of_node(l)),
                    None => None,
                },
            },
        )
    } else {
        override_last(os.drop_last(), k)
    }
}

pub open spec fn level_at(s: Seq<(u32, Level)>, k: u32) -> Option<LevelView> {
    match int_find(s, k) {
        Some(l) => Some(level_view(l)),
        None => None,
    }
}

pub open spec fn override_at(s: Seq<(u32, LevelOverride)>, k: u32) -> Option<OverrideView> {
    match int_find(s, k) {
        Some(o) => Some(
            OverrideView {
                start: o.start,
                level: match o.level {
                    Some(l) => Some(level_view(l)),
                    None => None,
                },
            },
        ),
        None => None,
    }
}

fn read_levels(abstract_num: &Node) -> (r: Vec<(u32, Level)>)
    ensures
        forall|k: u32| #[trigger] level_at(r@, k) == level_last(
            crate::xml::all_named(abstract_num.children@, "lvl"@),
            k,
        ),
{
    proof {
        reveal_strlit("lvl");
        reveal_strlit("ilvl");
    }
    let ls = abstract_num.children_named("lvl");
    let ghost lv = ls@.map_values(|n: &Node| *n);
    let mut levels: Vec<(u32, Level)> = Vec::new();
    let mut i: usize = 0;
    while i < ls.len()
        invariant
            i <= ls.len(),
            lv == ls@.map_values(|n: &Node| *n),
            forall|k: u32| #[trigger] level_at(levels@, k) == level_last(lv.subrange(0, i as int), k),
        decreases ls.len() - i,
    {
        let n: &Node = ls[i];
        let ghost p = lv.subrange(0, i as int + 1);
        proof {
            assert(p.drop_last() =~= lv.subrange(0, i as int));
            assert(p.last() == *n);
        }
        let ghost before = levels@;
        let key = match n.attr("ilvl") {
            Some(t) => parse_u32(t),
            None => None,
        };
        assert(key == crate::styles::opt_u32(attr_text(*n, "ilvl"@)));
        match key {
            Some(k) => {
                let level = parse_level(n);
                insert_keyed(&mut levels, k, level);
                proof {
                    assert forall|q: u32| #[trigger] level_at(levels@, q) == level_last(p, q) by {
                        assert(level_at(before, q) == level_last(lv.subrange(0, i as int), q));
                    }
                }
            },
            None => {
                proof {
                    assert forall|q: u32| #[trigger] level_at(levels@, q) == level_last(p, q) by {
                        assert(level_at(before, q) == level_last(lv.subrange(0, i as int), q));
                    }
                }
            },
        }
        i += 1;
    }
    assert(lv.subrange(0, ls.len() as int) =~= lv);
    levels
}

fn read_overrides(num: &Node) -> (r: Vec<(u32, LevelOverride)>)
    ensures
        forall|k: u32| #[trigger] override_at(r@, k) == override_last(
            crate::xml::all_named(num.children@, "lvlOverride"@),
            k,
        ),
{
    proof {
        reveal_strlit("lvlOverride");
        reveal_strlit("ilvl");
    }
    let os = num.children_named("lvlOverride");
    let ghost ov = os@.map_values(|n: &Node| *n);
    let mut overrides: Vec<(u32, LevelOverride)> = Vec::new();
    let mut i: usize = 0;
    while i < os.len()
        invariant
            i <= os.len(),
            ov == os@.map_values(|n: &Node| *n),
            forall|k: u32| #[trigger] override_at(overrides@, k) == override_last(ov.subrange(0, i as int), k),
        decreases os.len() - i,
    {
        let n: &Node = os[i];
        let ghost p = ov.subrange(0, i as int + 1);
        proof {
            assert(p.drop_last() =~= ov.subrange(0, i as int));
            assert(p.last() == *n);
        }
        let ghost before = overrides@;
        let key = match n.attr("ilvl") {
            Some(t) => parse_u32(t),
            None => None,
        };
        assert(key == crate::styles::opt_u32(attr_text(*n, "ilvl"@)));
        match key {
            Some(k) => {
                let o = LevelOverride {
                    start: parse_opt_i64(child_val(n, "startOverride")),
                    level: match n.child("lvl") {
                        Some(l) => Some(parse_level(l)),
                        None => None,
                    },
                };
                insert_keyed(&mut overrides, k, o);
                proof {
                    assert forall|q: u32| #[trigger] override_at(overrides@, q) == override_last(p, q) by {
                        assert(override_at(before, q) == override_last(ov.subrange(0, i as int), q));
                    }
                }
            },
            None => {
                proof {
                    assert forall|q: u32| #[trigger] override_at(overrides@, q) == override_last(p, q) by {
                        assert(override_at(before, q) == override_last(ov.subrange(0, i as int), q));
                    }
                }
            },
        }
        i += 1;
    }
    assert(ov.subrange(0, os.len() as int) =~= ov);
    overrides
}

impl Numbering {
    /// The list definitions and instances of a numbering part (none where
    /// there is no part).
    pub fn from_xml(root: Option<&Node>) -> (r: Numbering)
        ensures
            r.abstracts.wf(),
            r.nums.wf(),
            forall|id: Seq<char>, k: u32| #[trigger] abstract_level(r, id, k) == match root {
                Some(n) => match abstract_last(crate::xml::all_named(n.children@, "abstractNum"@), id) {
                    Some(a) => Some(level_last(crate::xml::all_named(a.children@, "lvl"@), k)),
                    None => None,
                },
                None => None,
            },
            forall|id: Seq<char>, k: u32| #[trigger] num_override(r, id, k) == match root {
                Some(n) => match num_last(crate::xml::all_named(n.children@, "num"@), id) {
                    Some(m) => Some(
                        (
                            child_val_of(m, "abstractNumId"@)->0,
                            override_last(crate::xml::all_named(m.children@, "lvlOverride"@), k),
                        ),
                    ),
                    None => None,
                },
                None => None,
            },
    {
        let mut abstracts: StrMap<Vec<(u32, Level)>> = StrMap::new();
        let mut nums: StrMap<Num> = StrMap::new();
        let root = match root {
            Some(n) => n,
            None => {
                return Numbering { abstracts, nums };
            },
        };
        proof {
            reveal_strlit("abstractNum");
            reveal_strlit("abstractNumId");
            reveal_strlit("num");
            reveal_strlit("numId");
        }
        let ans = root.children_named("abstractNum");
        let ghost av = ans@.map_values(|n: &Node| *n);
        let mut i: usize = 0;
        while i < ans.len()
            invariant
                i <= ans.len(),
                av == ans@.map_values(|n: &Node| *n),
                abstracts.wf(),
                forall|id: Seq<char>, k: u32| #[trigger] abstract_level_in(abstracts, id, k) == match abstract_last(
                    av.subrange(0, i as int),
                    id,
                ) {
                    Some(a) => Some(level_last(crate::xml::all_named(a.children@, "lvl"@), k)),
                    None => None,
                },
            decreases ans.len() - i,
        {
            let a: &Node = ans[i];
            let ghost p = av.subrange(0, i as int + 1);
            proof {
                assert(p.drop_last() =~= av.subrange(0, i as int));
                assert(p.last() == *a);
            }
            match a.attr("abstractNumId") {
                Some(id) => {
                    let levels = read_levels(a);
                    let ghost old_abs = abstracts;
                    abstracts.insert(id.to_string(), levels);
                    proof {
                        assert forall|q: Seq<char>, k: u32| #[trigger] abstract_level_in(abstracts, q, k)
                            == match abstract_last(p, q) {
                            Some(x) => Some(level_last(crate::xml::all_named(x.children@, "lvl"@), k)),
                            None => None,
                        } by {
                            assert(abstracts.get_spec(q) == lookup(abstracts.entries@, q));
                            assert(abstract_level_in(old_abs, q, k) == match abstract_last(
                                av.subrange(0, i as int),
                                q,
                            ) {
                                Some(x) => Some(level_last(crate::xml::all_named(x.children@, "lvl"@), k)),
                                None => None,
                            });
                            if q != id@ {
                                assert(abstracts.get_spec(q) == old_abs.get_spec(q));
                            }
                        }
                    }
                },
                None => {},
            }
            i += 1;
        }
        assert(av.subrange(0, ans.len() as int) =~= av);
        let ns = root.children_named("num");
        let ghost nv = ns@.map_values(|n: &Node| *n);
        let mut j: usize = 0;
        while j < ns.len()
            invariant
                j <= ns.len(),
                nv == ns@.map_values(|n: &Node| *n),
                nums.wf(),
                forall|id: Seq<char>, k: u32| #[trigger] num_override_in(nums, id, k) == match num_last(
                    nv.subrange(0, j as int),
                    id,
                ) {
                    Some(m) => Some(
                        (
                            child_val_of(m, "abstractNumId"@)->0,
                            override_last(crate::xml::all_named(m.children@, "lvlOverride"@), k),
                        ),
                    ),
                    None => None,
                },
            decreases ns.len() - j,
        {
            let m: &Node = ns[j];
            let ghost p = nv.subrange(0, j as int + 1);
            proof {
                assert(p.drop_last() =~= nv.subrange(0, j as int));
                assert(p.last() == *m);
            }
            match (m.attr("numId"), child_val(m, "abstractNumId")) {
                (Some(id), Some(abstract_id)) => {
                    let overrides = read_overrides(m);
                    let ghost old_nums = nums;
                    nums.insert(id.to_string(), Num { abstract_id: abstract_id.to_string(), overrides });
                    proof {
                        assert forall|q: Seq<char>, k: u32| #[trigger] num_override_in(nums, q, k) == match num_last(
                            p,
                            q,
                        ) {
                            Some(x) => Some(
                                (
                                    child_val_of(x, "abstractNumId"@)->0,
                                    override_last(crate::xml::all_named(x.children@, "lvlOverride"@), k),
                                ),
                            ),
                            None => None,
                        } by {
                            assert(nums.get_spec(q) == lookup(nums.entries@, q));
                            assert(num_override_in(old_nums, q, k) == match num_last(
                                nv.subrange(0, j as int),
                                q,
                            ) {
                                Some(x) => Some(
                                    (
                                        child_val_of(x, "abstractNumId"@)->0,
                                        override_last(crate::xml::all_named(x.children@, "lvlOverride"@), k),
                                    ),
                                ),
                                None => None,
                            });
                            if q != id@ {
                                assert(nums.get_spec(q) == old_nums.get_spec(q));
                            }
                        }
                    }
                },
                _ => {},
            }
            j += 1;
        }
        assert(nv.subrange(0, ns.len() as int) =~= nv);
        Numbering { abstracts, nums }
    }
}

/// Level `k` of the list definition `id` (the outer `None`: no such
/// definition).
pub open spec fn abstract_level(nb: Numbering, id: Seq<char>, k: u32) -> Option<Option<LevelView>> {
    abstract_level_in(nb.abstracts, id, k)
}

pub open spec fn abstract_level_in(m: StrMap<Vec<(u32, Level)>>, id: Seq<char>, k: u32) -> Option<
    Option<LevelView>,
> {
    match lookup(m.entries@, id) {
        Some(levels) => Some(level_at(levels@, k)),
        None => None,
    }
}

/// The definition that list instance `id` numbers by, and its override of
/// level `k` (`None`: no such instance).
pub open spec fn num_override(nb: Numbering, id: Seq<char>, k: u32) -> Option<
    (Seq<char>, Option<OverrideView>),
> {
    num_override_in(nb.nums, id, k)
}

pub open spec fn num_override_in(m: StrMap<Num>, id: Seq<char>, k: u32) -> Option<
    (Seq<char>, Option<OverrideView>),
> {
    match lookup(m.entries@, id) {
        Some(n) => Some((n.abstract_id@, override_at(n.overrides@, k))),
        None => None,
    }
}

} // verus!

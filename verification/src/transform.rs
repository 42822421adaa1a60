//! The worker's text transforms: spoken units for measurements, word references,
//! and characters stripped before synthesis.

use vstd::prelude::*;
use crate::text::{chars_of, push_char};

verus! {

// ---------------------------------------------------------------------------
// Character classes.
// ---------------------------------------------------------------------------

pub open spec fn is_ascii_digit(c: char) -> bool {
    '0' <= c && c <= '9'
}

pub open spec fn is_ascii_alnum(c: char) -> bool {
    ('0' <= c && c <= '9') || ('A' <= c && c <= 'Z') || ('a' <= c && c <= 'z')
}

/// A character that can be part of a word: ASCII letter, digit or underscore.
pub open spec fn is_word_char(c: char) -> bool {
    is_ascii_alnum(c) || c == '_'
}

/// The character with ASCII upper case letters folded to lower case.
pub open spec fn ascii_lower(c: char) -> char {
    if 'A' <= c && c <= 'Z' {
        ((c as u32) + 32) as char
    } else {
        c
    }
}

/// Two texts equal up to ASCII case.
pub open spec fn eq_ignore_case(a: Seq<char>, b: Seq<char>) -> bool {
    a.len() == b.len() && forall|j: int| 0 <= j < a.len() ==> ascii_lower(a[j]) == ascii_lower(
        b[j],
    )
}

fn ascii_lower_exec(c: char) -> (r: char)
    ensures
        r == ascii_lower(c),
{
    if 'A' <= c && c <= 'Z' {
        ((c as u8) + 32) as char
    } else {
        c
    }
}

fn is_ascii_alnum_exec(c: char) -> (r: bool)
    ensures
        r == is_ascii_alnum(c),
{
    ('0' <= c && c <= '9') || ('A' <= c && c <= 'Z') || ('a' <= c && c <= 'z')
}

fn is_word_char_exec(c: char) -> (r: bool)
    ensures
        r == is_word_char(c),
{
    is_ascii_alnum_exec(c) || c == '_'
}

/// A key made only of ASCII letters and digits (and not empty): such keys are replaced
/// as whole words, case-insensitively.
pub open spec fn alnum_key(s: Seq<char>) -> bool {
    s.len() > 0 && forall|i: int| 0 <= i < s.len() ==> is_ascii_alnum(#[trigger] s[i])
}

/// Whether `s` is non-empty and all ASCII letters and digits.
pub fn is_alnum_key(s: &str) -> (r: bool)
    ensures
        r == alnum_key(s@),
{
    let cs = chars_of(s);
    if cs.len() == 0 {
        return false;
    }
    let mut i: usize = 0;
    while i < cs.len()
        invariant
            cs@ == s@,
            i <= cs@.len(),
            forall|j: int| 0 <= j < i ==> is_ascii_alnum(#[trigger] cs@[j]),
        decreases cs@.len() - i,
    {
        if !is_ascii_alnum_exec(cs[i]) {
            return false;
        }
        i = i + 1;
    }
    true
}

/// A byte that can be part of a word: ASCII letter, digit or underscore.
pub open spec fn word_byte(b: u8) -> bool {
    (0x30 <= b && b <= 0x39) || (0x41 <= b && b <= 0x5a) || (0x61 <= b && b <= 0x7a) || b == 0x5f
}

/// Whether `b` is an ASCII letter, digit or underscore.
pub fn is_word_byte(b: u8) -> (r: bool)
    ensures
        r == word_byte(b),
{
    (0x30 <= b && b <= 0x39) || (0x41 <= b && b <= 0x5a) || (0x61 <= b && b <= 0x7a) || b == 0x5f
}

/// The length of a UTF-8 encoded character, read from its leading byte (1 for a byte
/// that cannot lead one).
pub open spec fn char_len_of_lead(b: u8) -> nat {
    if b < 0x80 {
        1
    } else if b >> 5u8 == 6 {
        2
    } else if b >> 4u8 == 14 {
        3
    } else if b >> 3u8 == 30 {
        4
    } else {
        1
    }
}

/// The length of a UTF-8 encoded character, read from its leading byte.
pub fn utf8_char_len(b: u8) -> (r: usize)
    ensures
        r == char_len_of_lead(b),
{
    if b < 0x80 {
        1
    } else if b >> 5u8 == 0b110 {
        2
    } else if b >> 4u8 == 0b1110 {
        3
    } else if b >> 3u8 == 0b11110 {
        4
    } else {
        1
    }
}

/// Law: the leading byte of any character's UTF-8 encoding gives the length of that
/// encoding.
pub proof fn law_char_len_of_encoding(c: char)
    ensures
        char_len_of_lead(vstd::utf8::encode_scalar(c as u32)[0]) == vstd::utf8::encode_scalar(
            c as u32,
        ).len(),
{
    let s = c as u32;
    vstd::utf8::char_is_scalar(c);
    if vstd::utf8::has_width_1_encoding(s) {
        let b = vstd::utf8::leading_byte_width_1(s);
        assert(s <= 0x7f ==> ((s & 0x7f) as u8) < 0x80) by (bit_vector);
    } else if vstd::utf8::has_width_2_encoding(s) {
        let b = vstd::utf8::leading_byte_width_2(s);
        assert(b == (0xC0 | ((s >> 6u32) & 0x1F) as u8));
        assert(0x80 <= s <= 0x7FF ==> (0xC0u8 | ((s >> 6u32) & 0x1F) as u8) >= 0x80u8 && (
        0xC0u8 | ((s >> 6u32) & 0x1F) as u8) >> 5u8 == 6u8) by (bit_vector);
    } else if vstd::utf8::has_width_3_encoding(s) {
        let b = vstd::utf8::leading_byte_width_3(s);
        assert(b == (0xE0 | ((s >> 12u32) & 0x0F) as u8));
        assert(0x800 <= s <= 0xFFFF ==> (0xE0u8 | ((s >> 12u32) & 0x0F) as u8) >= 0x80u8 && (
        0xE0u8 | ((s >> 12u32) & 0x0F) as u8) >> 5u8 != 6u8 && (0xE0u8 | ((s >> 12u32) & 0x0F) as u8)
            >> 4u8 == 14u8) by (bit_vector);
    } else {
        let b = vstd::utf8::leading_byte_width_4(s);
        assert(b == (0xF0 | ((s >> 18u32) & 0x7) as u8));
        assert(0x10000 <= s <= 0x10FFFF ==> (0xF0u8 | ((s >> 18u32) & 0x7) as u8) >= 0x80u8 && (
        0xF0u8 | ((s >> 18u32) & 0x7) as u8) >> 5u8 != 6u8 && (0xF0u8 | ((s >> 18u32) & 0x7) as u8)
            >> 4u8 != 14u8 && (0xF0u8 | ((s >> 18u32) & 0x7) as u8) >> 3u8 == 30u8) by (bit_vector);
    }
}


// ---------------------------------------------------------------------------
// Whole-word, case-insensitive replacement.
// ---------------------------------------------------------------------------

/// `k` occurs in `t` at `i` as a whole word, up to ASCII case.
pub open spec fn word_match_at(t: Seq<char>, k: Seq<char>, i: int) -> bool {
    &&& 0 <= i
    &&& i + k.len() <= t.len()
    &&& (i == 0 || !is_word_char(t[i - 1]))
    &&& (i + k.len() == t.len() || !is_word_char(t[i + k.len()]))
    &&& eq_ignore_case(t.subrange(i, i + k.len()), k)
}

/// `t[i..]` with every whole-word occurrence of `k` (scanning left to right) replaced
/// by `v`. Word boundaries are judged against the text as given.
pub open spec fn replaced_words(t: Seq<char>, k: Seq<char>, v: Seq<char>, i: int) -> Seq<char>
    decreases t.len() - i,
{
    if i < 0 || i >= t.len() || k.len() == 0 {
        seq![]
    } else if word_match_at(t, k, i) {
        v + replaced_words(t, k, v, i + k.len())
    } else {
        seq![t[i]] + replaced_words(t, k, v, i + 1)
    }
}

fn window_eq_ignore_case(t: &Vec<char>, i: usize, k: &Vec<char>) -> (r: bool)
    requires
        i + k@.len() <= t@.len(),
    ensures
        r == eq_ignore_case(t@.subrange(i as int, i + k@.len()), k@),
{
    let tl = t.len();
    let mut j: usize = 0;
    while j < k.len()
        invariant
            tl == t@.len(),
            i + k@.len() <= t@.len(),
            j <= k@.len(),
            forall|m: int| 0 <= m < j ==> ascii_lower(t@[i + m]) == ascii_lower(#[trigger] k@[m]),
        decreases k@.len() - j,
    {
        if ascii_lower_exec(t[i + j]) != ascii_lower_exec(k[j]) {
            return false;
        }
        j = j + 1;
    }
    true
}

/// Replaces every whole-word occurrence of `key` in `text`, ignoring ASCII case, with
/// `val` (as perl's `s/\b\Qkey\E\b/val/gi` does for an alphanumeric key).
pub fn replace_word_ci(text: &str, key: &str, val: &str) -> (r: String)
    requires
        key@.len() > 0,
    ensures
        r@ == replaced_words(text@, key@, val@, 0),
{
    let t = chars_of(text);
    let k = chars_of(key);
    let n = t.len();
    let klen = k.len();
    let mut out = String::new();
    let mut i: usize = 0;
    while i < n
        invariant
            t@ == text@,
            k@ == key@,
            n == t@.len(),
            klen == k@.len(),
            klen > 0,
            i <= n,
            out@ + replaced_words(t@, k@, val@, i as int) == replaced_words(t@, k@, val@, 0),
        decreases n - i,
    {
        if klen <= n - i {
            let prev_ok = i == 0 || !is_word_char_exec(t[i - 1]);
            let next_ok = i + klen == n || !is_word_char_exec(t[i + klen]);
            if prev_ok && next_ok && window_eq_ignore_case(&t, i, &k) {
                let ghost before = out@;
                out.append(val);
                assert(before + (val@ + replaced_words(t@, k@, val@, i + klen)) =~= out@
                    + replaced_words(t@, k@, val@, i + klen));
                i = i + klen;
                continue;
            }
        }
        let ghost before = out@;
        push_char(&mut out, t[i]);
        assert(before + (seq![t@[i as int]] + replaced_words(t@, k@, val@, i + 1)) =~= out@
            + replaced_words(t@, k@, val@, i + 1));
        i = i + 1;
    }
    assert(out@ + Seq::<char>::empty() =~= out@);
    out
}

/// An ASCII letter, an ASCII digit or `_`: a character that continues a word.
pub open spec fn continues_word(c: char) -> bool {
    ('0' <= c && c <= '9') || ('A' <= c && c <= 'Z') || ('a' <= c && c <= 'z') || c == '_'
}

proof fn lemma_no_whole_word_unchanged(t: Seq<char>, k: Seq<char>, v: Seq<char>, i: int)
    requires
        k.len() > 0,
        0 <= i <= t.len(),
        forall|p: int|
            0 <= p && p + k.len() <= t.len() && (p == 0 || !continues_word(t[p - 1])) && (p + k.len()
                == t.len() || !continues_word(t[p + k.len()])) ==> !eq_ignore_case(
                #[trigger] t.subrange(p, p + k.len()),
                k,
            ),
    ensures
        replaced_words(t, k, v, i) == t.skip(i),
    decreases t.len() - i,
{
    if i < t.len() {
        assert(!word_match_at(t, k, i)) by {
            if i + k.len() <= t.len() {
                assert(!eq_ignore_case(t.subrange(i, i + k.len()), k) || (i > 0 && continues_word(t[i - 1]))
                    || (i + k.len() < t.len() && continues_word(t[i + k.len()])));
            }
        }
        lemma_no_whole_word_unchanged(t, k, v, i + 1);
        assert(t.skip(i) =~= seq![t[i]] + t.skip(i + 1));
    } else {
        assert(t.skip(i) =~= Seq::<char>::empty());
    }
}

/// Law: a key is replaced only as a whole word. Where no occurrence of the key (up to
/// ASCII case) both starts the text or follows a character that is not an ASCII letter,
/// digit or `_`, and ends the text or comes before such a character, the text is left
/// exactly as it was; so a key that only ends or begins a longer word (`SQL` in `MySQL`)
/// is never replaced.
pub proof fn law_replace_only_whole_words(t: Seq<char>, k: Seq<char>, v: Seq<char>)
    requires
        k.len() > 0,
        forall|p: int|
            0 <= p && p + k.len() <= t.len() && (p == 0 || !continues_word(t[p - 1])) && (p + k.len()
                == t.len() || !continues_word(t[p + k.len()])) ==> !eq_ignore_case(
                #[trigger] t.subrange(p, p + k.len()),
                k,
            ),
    ensures
        replaced_words(t, k, v, 0) == t,
{
    lemma_no_whole_word_unchanged(t, k, v, 0);
    assert(t.skip(0) =~= t);
}

/// Law: where the key does stand as a whole word at the start of the text, the result
/// starts with the replacement, and the rest is the rest of the text with its own whole
/// words replaced.
pub proof fn law_replace_whole_word_at_start(t: Seq<char>, k: Seq<char>, v: Seq<char>)
    requires
        k.len() > 0,
        k.len() <= t.len(),
        k.len() == t.len() || !continues_word(t[k.len() as int]),
        eq_ignore_case(t.subrange(0, k.len() as int), k),
    ensures
        replaced_words(t, k, v, 0) == v + replaced_words(t, k, v, k.len() as int),
{
}

// ---------------------------------------------------------------------------
// Literal replacement, as `str::replace` does it.
// ---------------------------------------------------------------------------

/// `to` before every character of `t` and once more at the end: what replacing the
/// empty pattern gives.
pub open spec fn around_each(t: Seq<char>, to: Seq<char>) -> Seq<char>
    decreases t.len(),
{
    if t.len() == 0 {
        to
    } else {
        to + seq![t[0]] + around_each(t.drop_first(), to)
    }
}

/// `t` with every non-overlapping occurrence of `from`, leftmost first, replaced by `to`.
pub open spec fn replaced_all(t: Seq<char>, from: Seq<char>, to: Seq<char>) -> Seq<char>
    decreases t.len(),
{
    if from.len() == 0 {
        around_each(t, to)
    } else if t.len() == 0 {
        seq![]
    } else if from.len() <= t.len() && t.take(from.len() as int) == from {
        to + replaced_all(t.skip(from.len() as int), from, to)
    } else {
        seq![t[0]] + replaced_all(t.drop_first(), from, to)
    }
}

fn window_eq(t: &Vec<char>, i: usize, k: &Vec<char>) -> (r: bool)
    requires
        i + k@.len() <= t@.len(),
    ensures
        r == (t@.subrange(i as int, i + k@.len()) == k@),
{
    let tl = t.len();
    let mut j: usize = 0;
    while j < k.len()
        invariant
            tl == t@.len(),
            i + k@.len() <= t@.len(),
            j <= k@.len(),
            forall|m: int| 0 <= m < j ==> t@[i + m] == #[trigger] k@[m],
        decreases k@.len() - j,
    {
        if t[i + j] != k[j] {
            assert(t@.subrange(i as int, i + k@.len())[j as int] != k@[j as int]);
            return false;
        }
        j = j + 1;
    }
    assert(t@.subrange(i as int, i + k@.len()) =~= k@);
    true
}

/// Replaces every occurrence of `from` in `text` with `to`, as `str::replace` does
/// (an empty `from` puts `to` around every character).
pub fn replace_all(text: &str, from: &str, to: &str) -> (r: String)
    ensures
        r@ == replaced_all(text@, from@, to@),
{
    let t = chars_of(text);
    let f = chars_of(from);
    let n = t.len();
    let mut out = String::new();
    let mut i: usize = 0;
    assert(t@.skip(0) =~= t@);
    assert(out@ + replaced_all(t@, f@, to@) =~= replaced_all(t@, f@, to@));
    assert(out@ + around_each(t@, to@) =~= around_each(t@, to@));
    if f.len() == 0 {
        while i < n
            invariant
                t@ == text@,
                f@ == from@,
                f@.len() == 0,
                n == t@.len(),
                i <= n,
                out@ + around_each(t@.skip(i as int), to@) == around_each(t@, to@),
            decreases n - i,
        {
            let ghost before = out@;
            out.append(to);
            push_char(&mut out, t[i]);
            assert(t@.skip(i as int).drop_first() =~= t@.skip(i + 1));
            assert(before + around_each(t@.skip(i as int), to@) =~= out@ + around_each(
                t@.skip(i + 1),
                to@,
            ));
            i = i + 1;
        }
        out.append(to);
        assert(t@.skip(0) =~= t@);
        return out;
    }
    while i < n
        invariant
            t@ == text@,
            f@ == from@,
            f@.len() > 0,
            n == t@.len(),
            i <= n,
            out@ + replaced_all(t@.skip(i as int), f@, to@) == replaced_all(t@, f@, to@),
        decreases n - i,
    {
        let ghost rest = t@.skip(i as int);
        if f.len() <= n - i && window_eq(&t, i, &f) {
            let ghost before = out@;
            out.append(to);
            assert(rest.take(f@.len() as int) =~= t@.subrange(i as int, i + f@.len()));
            assert(rest.skip(f@.len() as int) =~= t@.skip(i + f@.len()));
            assert(before + replaced_all(rest, f@, to@) =~= out@ + replaced_all(
                t@.skip(i + f@.len()),
                f@,
                to@,
            ));
            i = i + f.len();
        } else {
            let ghost before = out@;
            push_char(&mut out, t[i]);
            proof {
                if f@.len() <= rest.len() {
                    assert(rest.take(f@.len() as int) =~= t@.subrange(i as int, i + f@.len()));
                }
            }
            assert(rest.drop_first() =~= t@.skip(i + 1));
            assert(before + replaced_all(rest, f@, to@) =~= out@ + replaced_all(
                t@.skip(i + 1),
                f@,
                to@,
            ));
            i = i + 1;
        }
    }
    assert(t@.skip(n as int) =~= Seq::<char>::empty());
    assert(t@.skip(0) =~= t@);
    assert(out@ + Seq::<char>::empty() =~= out@);
    out
}


// ---------------------------------------------------------------------------
// Characters stripped before synthesis.
// ---------------------------------------------------------------------------

/// A set of characters. Nothing is held twice.
pub struct CharSet {
    chars: Vec<char>,
}

impl View for CharSet {
    type V = Set<char>;

    closed spec fn view(&self) -> Set<char> {
        self.chars@.to_set()
    }
}

impl CharSet {
    /// No character is held twice.
    pub closed spec fn wf(&self) -> bool {
        self.chars@.no_duplicates()
    }

    /// The empty set.
    pub fn new() -> (r: CharSet)
        ensures
            r.wf(),
            r@ == Set::<char>::empty(),
    {
        let r = CharSet { chars: Vec::new() };
        assert(r.chars@.to_set() =~= Set::<char>::empty());
        r
    }

    /// Whether `c` is in the set.
    pub fn contains(&self, c: char) -> (r: bool)
        ensures
            r == self@.contains(c),
    {
        let mut i: usize = 0;
        while i < self.chars.len()
            invariant
                i <= self.chars@.len(),
                forall|j: int| 0 <= j < i ==> self.chars@[j] != c,
            decreases self.chars@.len() - i,
        {
            if self.chars[i] == c {
                assert(self.chars@.contains(c));
                return true;
            }
            i = i + 1;
        }
        assert(!self.chars@.contains(c));
        false
    }

    /// Adds `c`.
    pub fn insert(&mut self, c: char)
        requires
            old(self).wf(),
        ensures
            final(self).wf(),
            final(self)@ == old(self)@.insert(c),
    {
        if !self.contains(c) {
            let ghost before = self.chars@;
            self.chars.push(c);
            assert(self.chars@.to_set() =~= before.to_set().insert(c)) by {
                assert forall|x: char| self.chars@.contains(x) <==> (before.contains(x) || x == c) by {
                    if x == c {
                        assert(self.chars@[before.len() as int] == c);
                    }
                    if before.contains(x) {
                        let k = choose|k: int| 0 <= k < before.len() && before[k] == x;
                        assert(self.chars@[k] == x);
                    }
                }
            }
        } else {
            assert(self@.insert(c) =~= self@);
        }
    }

    /// The set of the characters in `cs`.
    pub fn from_chars(cs: Vec<char>) -> (r: CharSet)
        ensures
            r.wf(),
            r@ == cs@.to_set(),
    {
        let mut r = CharSet::new();
        let mut i: usize = 0;
        while i < cs.len()
            invariant
                i <= cs@.len(),
                r.wf(),
                r@ == cs@.take(i as int).to_set(),
            decreases cs@.len() - i,
        {
            r.insert(cs[i]);
            proof {
                assert(cs@.take(i + 1) =~= cs@.take(i as int).push(cs@[i as int]));
                cs@.take(i as int).lemma_push_to_set_commute(cs@[i as int]);
            }
            i = i + 1;
        }
        assert(cs@.take(cs@.len() as int) =~= cs@);
        r
    }

    /// The number of characters in the set.
    pub fn len(&self) -> (r: usize)
        requires
            self.wf(),
        ensures
            r == self@.len(),
    {
        proof {
            self.chars@.unique_seq_to_set();
        }
        self.chars.len()
    }

    /// Whether the set is empty.
    pub fn is_empty(&self) -> (r: bool)
        requires
            self.wf(),
        ensures
            r == (self@ == Set::<char>::empty()),
    {
        if self.chars.len() == 0 {
            assert(self.chars@.to_set() =~= Set::<char>::empty());
            true
        } else {
            assert(self@.contains(self.chars@[0]));
            false
        }
    }
}

/// `t` without the characters of `set`.
pub open spec fn stripped(t: Seq<char>, set: Set<char>) -> Seq<char>
    decreases t.len(),
{
    if t.len() == 0 {
        seq![]
    } else if set.contains(t[0]) {
        stripped(t.drop_first(), set)
    } else {
        seq![t[0]] + stripped(t.drop_first(), set)
    }
}

/// `text` with every character of `chars` removed.
pub fn strip_chars(text: &str, chars: &CharSet) -> (r: String)
    requires
        chars.wf(),
    ensures
        r@ == stripped(text@, chars@),
{
    if chars.is_empty() {
        proof {
            lemma_stripped_nothing(text@);
        }
        return String::from_str(text);
    }
    let t = chars_of(text);
    let mut out = String::new();
    let mut i: usize = 0;
    assert(t@.skip(0) =~= t@);
    assert(out@ + stripped(t@, chars@) =~= stripped(t@, chars@));
    while i < t.len()
        invariant
            t@ == text@,
            i <= t@.len(),
            out@ + stripped(t@.skip(i as int), chars@) == stripped(t@, chars@),
        decreases t@.len() - i,
    {
        let ghost before = out@;
        let c = t[i];
        assert(t@.skip(i as int).drop_first() =~= t@.skip(i + 1));
        if !chars.contains(c) {
            push_char(&mut out, c);
            assert(before + (seq![c] + stripped(t@.skip(i + 1), chars@)) =~= out@ + stripped(
                t@.skip(i + 1),
                chars@,
            ));
        }
        i = i + 1;
    }
    assert(t@.skip(t@.len() as int) =~= Seq::<char>::empty());
    assert(out@ + Seq::<char>::empty() =~= out@);
    out
}

proof fn lemma_stripped_nothing(t: Seq<char>)
    ensures
        stripped(t, Set::<char>::empty()) == t,
    decreases t.len(),
{
    if t.len() > 0 {
        lemma_stripped_nothing(t.drop_first());
        assert(seq![t[0]] + t.drop_first() =~= t);
    }
}

/// Law: no stripped character is left in the result, every other character is kept in
/// order, and stripping with an empty set changes nothing.
pub proof fn law_strip(t: Seq<char>, set: Set<char>)
    ensures
        forall|i: int| 0 <= i < stripped(t, set).len() ==> !set.contains(#[trigger] stripped(t, set)[i]),
        stripped(t, set) == t.filter(|c: char| !set.contains(c)),
        stripped(t, Set::<char>::empty()) == t,
    decreases t.len(),
{
    lemma_stripped_nothing(t);
    if t.len() > 0 {
        law_strip(t.drop_first(), set);
        let rest = stripped(t.drop_first(), set);
        assert(t =~= seq![t[0]] + t.drop_first());
        t.drop_first().lemma_filter_prepend(t[0], |c: char| !set.contains(c));
        if !set.contains(t[0]) {
            assert forall|i: int| 0 <= i < stripped(t, set).len() implies !set.contains(#[trigger] stripped(t, set)[i]) by {
                if i > 0 {
                    assert(stripped(t, set)[i] == rest[i - 1]);
                }
            }
        } else {
            assert(Seq::<char>::empty() + t.drop_first().filter(|c: char| !set.contains(c)) =~= t.drop_first().filter(|c: char| !set.contains(c)));
        }
    } else {
        assert(t.filter(|c: char| !set.contains(c)) =~= Seq::<char>::empty());
    }
}


// ---------------------------------------------------------------------------
// Measurements: "24ms" read as "24 milliseconds".
// ---------------------------------------------------------------------------

/// A configured unit: its key as written, and its singular and plural spoken forms.
pub type UnitV = (Seq<char>, Seq<char>, Seq<char>);

/// The view of a list of units.
pub open spec fn units_view(units: Seq<(String, String, String)>) -> Seq<UnitV> {
    units.map_values(|u: (String, String, String)| (u.0@, u.1@, u.2@))
}

/// The end of the run of ASCII digits that starts at `j`.
pub open spec fn digits_end(t: Seq<char>, j: int) -> int
    decreases t.len() - j,
{
    if 0 <= j < t.len() && is_ascii_digit(t[j]) {
        digits_end(t, j + 1)
    } else {
        j
    }
}

/// The end of a number starting at `i`: digits, then optionally `.` and more digits.
pub open spec fn number_end(t: Seq<char>, i: int) -> int {
    let j = digits_end(t, i);
    if j + 1 < t.len() && t[j] == '.' && is_ascii_digit(t[j + 1]) {
        digits_end(t, j + 1)
    } else {
        j
    }
}

/// The unit key `key` is written at `j` and is not the start of a longer word.
pub open spec fn unit_at(t: Seq<char>, j: int, key: Seq<char>) -> bool {
    &&& 0 <= j
    &&& j + key.len() <= t.len()
    &&& t.subrange(j, j + key.len()) == key
    &&& (j + key.len() == t.len() || !is_word_char(t[j + key.len()]))
}

/// The first unit, from index `u` on, whose key is written at `j`.
pub open spec fn first_unit(t: Seq<char>, j: int, us: Seq<UnitV>, u: int) -> Option<int>
    decreases us.len() - u,
{
    if u < 0 || u >= us.len() {
        None
    } else if unit_at(t, j, us[u].0) {
        Some(u)
    } else {
        first_unit(t, j, us, u + 1)
    }
}

pub proof fn lemma_digits_end(t: Seq<char>, j: int)
    requires
        0 <= j <= t.len(),
    ensures
        j <= digits_end(t, j) <= t.len(),
        forall|m: int| j <= m < digits_end(t, j) ==> is_ascii_digit(#[trigger] t[m]),
        digits_end(t, j) < t.len() ==> !is_ascii_digit(t[digits_end(t, j)]),
    decreases t.len() - j,
{
    if j < t.len() && is_ascii_digit(t[j]) {
        lemma_digits_end(t, j + 1);
    }
}

pub proof fn lemma_first_unit(t: Seq<char>, j: int, us: Seq<UnitV>, u: int)
    requires
        0 <= u,
    ensures
        first_unit(t, j, us, u) matches Some(x) ==> u <= x < us.len() && unit_at(t, j, us[x].0),
    decreases us.len() - u,
{
    if u < us.len() && !unit_at(t, j, us[u].0) {
        lemma_first_unit(t, j, us, u + 1);
    }
}

/// What a number starting at `i` is written as, and where the text goes on after it
/// (past the unit key when one follows).
pub open spec fn number_piece(t: Seq<char>, us: Seq<UnitV>, i: int) -> (Seq<char>, int) {
    let j = number_end(t, i);
    let num = t.subrange(i, j);
    match first_unit(t, j, us, 0) {
        Some(u) => (
            num + seq![' '] + (if num == seq!['1'] {
                us[u].1
            } else {
                us[u].2
            }),
            j + us[u].0.len(),
        ),
        None => (num, j),
    }
}

/// A number starts at `i`: a digit that does not continue a word.
pub open spec fn number_starts(t: Seq<char>, i: int) -> bool {
    0 <= i < t.len() && !(i > 0 && is_word_char(t[i - 1])) && is_ascii_digit(t[i])
}

pub proof fn lemma_number_piece(t: Seq<char>, us: Seq<UnitV>, i: int)
    requires
        number_starts(t, i),
    ensures
        i < number_piece(t, us, i).1 <= t.len(),
{
    lemma_digits_end(t, i);
    if digits_end(t, i) < t.len() {
        lemma_digits_end(t, digits_end(t, i) + 1);
    }
    lemma_first_unit(t, number_end(t, i), us, 0);
}

/// `t[i..]` with each number that starts a word and is directly followed by a unit key
/// written out as the number, a space, and the unit's spoken form (singular for `1`).
pub open spec fn expanded(t: Seq<char>, us: Seq<UnitV>, i: int) -> Seq<char>
    decreases t.len() - i,
{
    if i < 0 || i >= t.len() {
        seq![]
    } else if number_starts(t, i) {
        proof {
            lemma_number_piece(t, us, i);
        }
        number_piece(t, us, i).0 + expanded(t, us, number_piece(t, us, i).1)
    } else {
        seq![t[i]] + expanded(t, us, i + 1)
    }
}

/// Law: a number followed by a unit is written as the number, a space, and the unit's
/// singular form when the number is written exactly `1`, its plural form for every other
/// number (`21`, `11`, `1.0`, `01` alike); the text then goes on after the unit.
pub proof fn law_singular_only_for_one(t: Seq<char>, us: Seq<UnitV>, i: int)
    requires
        number_starts(t, i),
        first_unit(t, number_end(t, i), us, 0) is Some,
    ensures
        ({
            let j = number_end(t, i);
            let num = t.subrange(i, j);
            let u = first_unit(t, j, us, 0)->0;
            &&& num.len() == 1 && num[0] == '1' ==> expanded(t, us, i) == num + seq![' '] + us[u].1
                + expanded(t, us, j + us[u].0.len())
            &&& !(num.len() == 1 && num[0] == '1') ==> expanded(t, us, i) == num + seq![' '] + us[u].2
                + expanded(t, us, j + us[u].0.len())
        }),
{
    let j = number_end(t, i);
    let num = t.subrange(i, j);
    lemma_number_piece(t, us, i);
    if num.len() == 1 && num[0] == '1' {
        assert(num =~= seq!['1']);
    } else {
        assert(num != seq!['1']);
    }
}

/// Law: with no units configured, text passes through unchanged.
pub proof fn law_no_units_no_change(t: Seq<char>, i: int)
    requires
        0 <= i <= t.len(),
    ensures
        expanded(t, seq![], i) == t.skip(i),
    decreases t.len() - i,
{
    if i < t.len() {
        if !(i > 0 && is_word_char(t[i - 1])) && is_ascii_digit(t[i]) {
            lemma_digits_end(t, i);
            if digits_end(t, i) < t.len() {
                lemma_digits_end(t, digits_end(t, i) + 1);
            }
            let j = number_end(t, i);
            law_no_units_no_change(t, j);
            assert(t.subrange(i, j) + t.skip(j) =~= t.skip(i));
        } else {
            law_no_units_no_change(t, i + 1);
            assert(seq![t[i]] + t.skip(i + 1) =~= t.skip(i));
        }
    } else {
        assert(t.skip(i) =~= Seq::<char>::empty());
    }
}

/// Appends what the number starting at `i` is written as; returns where the text goes on.
fn push_number(out: &mut String, t: &Vec<char>, i: usize, units: &[(String, String, String)]) -> (next: usize)
    requires
        number_starts(t@, i as int),
    ensures
        final(out)@ == old(out)@ + number_piece(t@, units_view(units@), i as int).0,
        next == number_piece(t@, units_view(units@), i as int).1,
        i < next <= t@.len(),
{
    let ghost us = units_view(units@);
    let n = t.len();
    proof {
        lemma_digits_end(t@, i as int);
        lemma_number_piece(t@, us, i as int);
    }
    let mut j = digit_end_exec(t, i);
    if j < n && n - j > 1 && t[j] == '.' && '0' <= t[j + 1] && t[j + 1] <= '9' {
        proof {
            lemma_digits_end(t@, j + 1);
        }
        j = digit_end_exec(t, j + 1);
    }
    assert(j as int == number_end(t@, i as int));
    let ghost num = t@.subrange(i as int, j as int);
    push_range(out, t, i, j);
    match find_unit(t, j, units) {
        Some((u, klen)) => {
            push_char(out, ' ');
            if j - i == 1 && t[i] == '1' {
                assert(num =~= seq!['1']);
                out.append(units[u].1.as_str());
            } else {
                assert(num != seq!['1']) by {
                    if num =~= seq!['1'] {
                        assert(num[0] == t@[i as int]);
                    }
                }
                out.append(units[u].2.as_str());
            }
            assert(out@ =~= old(out)@ + number_piece(t@, us, i as int).0);
            j + klen
        },
        None => j,
    }
}

/// Appends `t[from..to]`.
fn push_range(out: &mut String, t: &Vec<char>, from: usize, to: usize)
    requires
        from <= to <= t@.len(),
    ensures
        final(out)@ == old(out)@ + t@.subrange(from as int, to as int),
{
    let mut k = from;
    while k < to
        invariant
            from <= k <= to <= t@.len(),
            out@ == old(out)@ + t@.subrange(from as int, k as int),
        decreases to - k,
    {
        push_char(out, t[k]);
        assert(out@ =~= old(out)@ + t@.subrange(from as int, k + 1));
        k = k + 1;
    }
}

/// The first configured unit whose key is written at `j`: its index and key length.
fn find_unit(t: &Vec<char>, j: usize, units: &[(String, String, String)]) -> (r: Option<(usize, usize)>)
    requires
        j <= t@.len(),
    ensures
        match r {
            Some((u, k)) => u < units@.len() && first_unit(t@, j as int, units_view(units@), 0)
                == Some(u as int) && k == units_view(units@)[u as int].0.len() && j + k <= t@.len(),
            None => first_unit(t@, j as int, units_view(units@), 0) is None,
        },
{
    let ghost us = units_view(units@);
    let n = t.len();
    let mut u: usize = 0;
    while u < units.len()
        invariant
            us == units_view(units@),
            n == t@.len(),
            j <= n,
            u <= units@.len(),
            first_unit(t@, j as int, us, 0) == first_unit(t@, j as int, us, u as int),
        decreases units@.len() - u,
    {
        let key = chars_of(units[u].0.as_str());
        assert(us[u as int].0 == key@);
        if key.len() <= n - j && window_eq(t, j, &key) && (j + key.len() == n
            || !is_word_char_exec(t[j + key.len()])) {
            return Some((u, key.len()));
        }
        u = u + 1;
    }
    None
}

fn digit_end_exec(t: &Vec<char>, j: usize) -> (r: usize)
    requires
        j <= t@.len(),
    ensures
        r == digits_end(t@, j as int),
{
    let mut k = j;
    while k < t.len() && '0' <= t[k] && t[k] <= '9'
        invariant
            j <= k <= t@.len(),
            digits_end(t@, j as int) == digits_end(t@, k as int),
        decreases t@.len() - k,
    {
        k = k + 1;
    }
    k
}

/// Writes each number that starts a word and is directly followed by a configured unit
/// key (case-sensitive, not glued to a longer word) as "<number> <spoken unit>". The first
/// matching unit in list order is used.
pub fn expand_measurements(text: &str, units: &[(String, String, String)]) -> (r: String)
    ensures
        r@ == expanded(text@, units_view(units@), 0),
{
    let ghost us = units_view(units@);
    if units.len() == 0 {
        proof {
            assert(us =~= Seq::<UnitV>::empty());
            law_no_units_no_change(text@, 0);
            assert(text@.skip(0) =~= text@);
        }
        return String::from_str(text);
    }
    let t = chars_of(text);
    let n = t.len();
    let mut out = String::new();
    let mut i: usize = 0;
    assert(out@ + expanded(t@, us, 0) =~= expanded(t@, us, 0));
    while i < n
        invariant
            t@ == text@,
            n == t@.len(),
            us == units_view(units@),
            i <= n,
            out@ + expanded(t@, us, i as int) == expanded(t@, us, 0),
        decreases n - i,
    {
        let prev_is_word = i > 0 && is_word_char_exec(t[i - 1]);
        let ghost before = out@;
        if !prev_is_word && '0' <= t[i] && t[i] <= '9' {
            let next = push_number(&mut out, &t, i, units);
            assert(before + (number_piece(t@, us, i as int).0 + expanded(t@, us, next as int))
                =~= out@ + expanded(t@, us, next as int));
            i = next;
        } else {
            push_char(&mut out, t[i]);
            assert(before + (seq![t@[i as int]] + expanded(t@, us, i + 1)) =~= out@ + expanded(
                t@,
                us,
                i + 1,
            ));
            i = i + 1;
        }
    }
    assert(out@ + Seq::<char>::empty() =~= out@);
    out
}

// ---------------------------------------------------------------------------
// The whole transform.
// ---------------------------------------------------------------------------

/// A word reference applied to `t`: whole words, ignoring case, for an alphanumeric key;
/// literal text otherwise.
pub open spec fn apply_ref(t: Seq<char>, key: Seq<char>, val: Seq<char>) -> Seq<char> {
    if alnum_key(key) {
        replaced_words(t, key, val, 0)
    } else {
        replaced_all(t, key, val)
    }
}

/// The word references applied one after another, in list order.
pub open spec fn apply_refs(t: Seq<char>, refs: Seq<(Seq<char>, Seq<char>)>) -> Seq<char>
    decreases refs.len(),
{
    if refs.len() == 0 {
        t
    } else {
        apply_refs(apply_ref(t, refs[0].0, refs[0].1), refs.drop_first())
    }
}

/// The view of a list of word references.
pub open spec fn refs_view(refs: Seq<(String, String)>) -> Seq<(Seq<char>, Seq<char>)> {
    refs.map_values(|r: (String, String)| (r.0@, r.1@))
}

/// Everything the worker does to a text before synthesis.
pub open spec fn transformed(
    t: Seq<char>,
    us: Seq<UnitV>,
    refs: Seq<(Seq<char>, Seq<char>)>,
    strip: Set<char>,
) -> Seq<char> {
    stripped(apply_refs(expanded(t, us, 0), refs), strip)
}

/// Expands measurements, applies each word reference in order, then strips characters.
pub fn apply_transform(
    text: &str,
    units: &[(String, String, String)],
    refs: &[(String, String)],
    strip_set: &CharSet,
) -> (r: String)
    requires
        strip_set.wf(),
    ensures
        r@ == transformed(text@, units_view(units@), refs_view(refs@), strip_set@),
{
    let mut t = expand_measurements(text, units);
    let ghost rv = refs_view(refs@);
    let ghost goal = apply_refs(t@, rv);
    let mut i: usize = 0;
    assert(rv.skip(0) =~= rv);
    while i < refs.len()
        invariant
            rv == refs_view(refs@),
            i <= refs@.len(),
            goal == apply_refs(t@, rv.skip(i as int)),
        decreases refs@.len() - i,
    {
        let key = refs[i].0.as_str();
        let val = refs[i].1.as_str();
        assert(rv.skip(i as int).drop_first() =~= rv.skip(i + 1));
        if is_alnum_key(key) {
            t = replace_word_ci(t.as_str(), key, val);
        } else {
            t = replace_all(t.as_str(), key, val);
        }
        i = i + 1;
    }
    assert(rv.skip(refs@.len() as int) =~= Seq::<(Seq<char>, Seq<char>)>::empty());
    strip_chars(t.as_str(), strip_set)
}

/// Law: with no units, references or characters to strip, text passes through unchanged.
pub proof fn law_nothing_configured_no_change(t: Seq<char>)
    ensures
        transformed(t, seq![], seq![], Set::<char>::empty()) == t,
{
    law_no_units_no_change(t, 0);
    assert(t.skip(0) =~= t);
    lemma_stripped_nothing(t);
}

} // verus!

//! The hook event parser: a small JSON reader that keeps strings, booleans and
//! objects, and walks past numbers and arrays without keeping their payload.

use vstd::prelude::*;
use crate::text::{chars_of, is_whitespace, is_ws, push_char};

verus! {

/// A parsed JSON value. Numbers and arrays carry no payload: only string, boolean and
/// object fields are ever read back out of a hook event.
#[derive(Debug)]
pub enum Json {
    Null,
    Bool(bool),
    Number,
    Str(String),
    Array,
    Object(Vec<(String, Json)>),
}

/// The mathematical value of a [`Json`].
pub enum JsonV {
    Null,
    Bool(bool),
    Number,
    Str(Seq<char>),
    Array,
    Object(Seq<(Seq<char>, JsonV)>),
}

/// Why a parse failed.
#[derive(Debug)]
pub enum JsonError {
    /// A specific character was required (`wanted`); `got` is what came instead.
    Expected { wanted: char, got: Option<char> },
    /// The input ended inside the four hex digits of a `\u` escape.
    BadUnicodeEscape,
    /// The four characters of a `\u` escape are not a hexadecimal number.
    BadHex,
    /// The input ended right after a backslash.
    UnterminatedEscape,
    /// The input ended before the closing quote of a string.
    UnterminatedString,
    /// A number token that is not a valid floating-point literal.
    BadNumber,
    /// No value can start with this character (or the input ended).
    UnexpectedToken(Option<char>),
    /// Inside an array, neither `,` nor `]` followed a value.
    ExpectedCommaOrBracket(Option<char>),
    /// Inside an object, neither `,` nor `}` followed a value.
    ExpectedCommaOrBrace(Option<char>),
}

pub open spec fn pairs_view(pairs: Seq<(String, Json)>) -> Seq<(Seq<char>, JsonV)>
    decreases pairs,
{
    Seq::new(
        pairs.len(),
        |i: int|
            if 0 <= i < pairs.len() {
                (pairs[i].0@, json_view(pairs[i].1))
            } else {
                (Seq::empty(), JsonV::Null)
            },
    )
}

pub open spec fn json_view(j: Json) -> JsonV
    decreases j,
{
    match j {
        Json::Null => JsonV::Null,
        Json::Bool(b) => JsonV::Bool(b),
        Json::Number => JsonV::Number,
        Json::Str(s) => JsonV::Str(s@),
        Json::Array => JsonV::Array,
        Json::Object(pairs) => JsonV::Object(pairs_view(pairs@)),
    }
}

impl View for Json {
    type V = JsonV;

    open spec fn view(&self) -> JsonV {
        json_view(*self)
    }
}


// ---------------------------------------------------------------------------
// The grammar, as spec functions over the input characters `s` and a position `p`.
// Each returns what is read and how many characters it takes.
// ---------------------------------------------------------------------------

/// The character at `p`, if there is one.
pub open spec fn got_at(s: Seq<char>, p: int) -> Option<char> {
    if 0 <= p < s.len() {
        Some(s[p])
    } else {
        None
    }
}

pub proof fn lemma_ws_len_bound(s: Seq<char>, p: int)
    requires
        0 <= p <= s.len(),
    ensures
        p + ws_len(s, p) <= s.len(),
        forall|i: int| p <= i < p + ws_len(s, p) ==> is_ws(#[trigger] s[i]),
        p + ws_len(s, p) < s.len() ==> !is_ws(s[p + ws_len(s, p)]),
    decreases s.len() - p,
{
    if p < s.len() && is_ws(s[p]) {
        lemma_ws_len_bound(s, p + 1);
    }
}

/// How many whitespace characters start at `p`.
pub open spec fn ws_len(s: Seq<char>, p: int) -> nat
    decreases s.len() - p,
{
    if 0 <= p < s.len() && is_ws(s[p]) {
        1 + ws_len(s, p + 1)
    } else {
        0
    }
}

pub open spec fn is_digit(c: char) -> bool {
    '0' <= c && c <= '9'
}

pub open spec fn is_hex_digit(c: char) -> bool {
    ||| ('0' <= c && c <= '9')
    ||| ('a' <= c && c <= 'f')
    ||| ('A' <= c && c <= 'F')
}

pub open spec fn hex_val(c: char) -> int {
    if '0' <= c && c <= '9' {
        c as int - '0' as int
    } else if 'a' <= c && c <= 'f' {
        c as int - 'a' as int + 10
    } else {
        c as int - 'A' as int + 10
    }
}

/// What `u32::from_str_radix(h, 16)` gives for the four characters `h`: a leading
/// `+` is accepted, every other character must be a hex digit.
pub open spec fn hex4_value(h: Seq<char>) -> Option<int> {
    if h[0] == '+' {
        if is_hex_digit(h[1]) && is_hex_digit(h[2]) && is_hex_digit(h[3]) {
            Some(hex_val(h[1]) * 256 + hex_val(h[2]) * 16 + hex_val(h[3]))
        } else {
            None
        }
    } else if is_hex_digit(h[0]) && is_hex_digit(h[1]) && is_hex_digit(h[2]) && is_hex_digit(h[3]) {
        Some(hex_val(h[0]) * 4096 + hex_val(h[1]) * 256 + hex_val(h[2]) * 16 + hex_val(h[3]))
    } else {
        None
    }
}

/// Whether `code` is a Unicode scalar value (what `char::from_u32` accepts).
pub open spec fn is_scalar_code(code: int) -> bool {
    0 <= code <= 0x10FFFF && !(0xD800 <= code <= 0xDFFF)
}

/// The characters a `\u` escape with this code contributes: the character itself, or
/// nothing where the code is a surrogate.
pub open spec fn code_chars(code: int) -> Seq<char> {
    if is_scalar_code(code) {
        seq![(code as u32) as char]
    } else {
        seq![]
    }
}

/// The character a backslash followed by `e` stands for (`e` other than `u`).
pub open spec fn escaped(e: char) -> char {
    if e == 'n' {
        '\n'
    } else if e == 't' {
        '\t'
    } else if e == 'r' {
        '\r'
    } else if e == 'b' {
        '\u{8}'
    } else if e == 'f' {
        '\u{c}'
    } else {
        e
    }
}

/// The rest of a string literal from `p` (just after the opening quote) up to and
/// including the closing quote: the decoded characters and how many input characters
/// they take.
pub open spec fn string_body(s: Seq<char>, p: int) -> Result<(Seq<char>, nat), JsonError>
    decreases s.len() - p,
{
    if p < 0 || p >= s.len() {
        Err(JsonError::UnterminatedString)
    } else if s[p] == '"' {
        Ok((seq![], 1))
    } else if s[p] == '\\' {
        if p + 1 >= s.len() {
            Err(JsonError::UnterminatedEscape)
        } else if s[p + 1] == 'u' {
            if p + 6 > s.len() {
                Err(JsonError::BadUnicodeEscape)
            } else {
                match hex4_value(s.subrange(p + 2, p + 6)) {
                    None => Err(JsonError::BadHex),
                    Some(code) => match string_body(s, p + 6) {
                        Ok((t, n)) => Ok((code_chars(code) + t, n + 6)),
                        Err(e) => Err(e),
                    },
                }
            }
        } else {
            match string_body(s, p + 2) {
                Ok((t, n)) => Ok((seq![escaped(s[p + 1])] + t, n + 2)),
                Err(e) => Err(e),
            }
        }
    } else {
        match string_body(s, p + 1) {
            Ok((t, n)) => Ok((seq![s[p]] + t, n + 1)),
            Err(e) => Err(e),
        }
    }
}

/// A string literal starting at `p`.
pub open spec fn string_at(s: Seq<char>, p: int) -> Result<(Seq<char>, nat), JsonError> {
    if 0 <= p < s.len() && s[p] == '"' {
        match string_body(s, p + 1) {
            Ok((t, n)) => Ok((t, n + 1)),
            Err(e) => Err(e),
        }
    } else {
        Err(JsonError::Expected { wanted: '"', got: got_at(s, p) })
    }
}

/// The characters `lit[k..]` are required at `p + k` onward.
pub open spec fn literal_at(s: Seq<char>, p: int, lit: Seq<char>, k: int) -> Result<(), JsonError>
    decreases lit.len() - k,
{
    if k < 0 || k >= lit.len() {
        Ok(())
    } else if 0 <= p + k < s.len() && s[p + k] == lit[k] {
        literal_at(s, p, lit, k + 1)
    } else {
        Err(JsonError::Expected { wanted: lit[k], got: got_at(s, p + k) })
    }
}

/// Characters a number token is made of.
pub open spec fn is_number_char(c: char) -> bool {
    is_digit(c) || c == '-' || c == '+' || c == '.' || c == 'e' || c == 'E'
}

/// How many number characters start at `p`.
pub open spec fn number_len(s: Seq<char>, p: int) -> nat
    decreases s.len() - p,
{
    if 0 <= p < s.len() && is_number_char(s[p]) {
        1 + number_len(s, p + 1)
    } else {
        0
    }
}

/// How many decimal digits start at `i` in `t`.
pub open spec fn digit_run(t: Seq<char>, i: int) -> nat
    decreases t.len() - i,
{
    if 0 <= i < t.len() && is_digit(t[i]) {
        1 + digit_run(t, i + 1)
    } else {
        0
    }
}

pub open spec fn is_sign(c: char) -> bool {
    c == '+' || c == '-'
}

/// An exponent after the `e`: an optional sign and at least one digit.
pub open spec fn valid_exponent(v: Seq<char>) -> bool {
    let a: int = if v.len() > 0 && is_sign(v[0]) { 1 } else { 0 };
    let d = digit_run(v, a);
    d > 0 && a + d == v.len()
}

/// Whether `str::parse::<f64>` accepts `t`, for `t` made of number characters only:
/// an optional sign, digits with an optional fraction (at least one digit in all),
/// then an optional exponent.
pub open spec fn valid_float(t: Seq<char>) -> bool {
    let a: int = if t.len() > 0 && is_sign(t[0]) { 1 } else { 0 };
    let d1 = digit_run(t, a);
    let dot = a + d1 < t.len() && t[a + d1] == '.';
    let d2: nat = if dot { digit_run(t, a + d1 + 1) } else { 0 };
    let r: int = if dot { a + d1 + 1 + d2 } else { a + d1 };
    &&& d1 + d2 > 0
    &&& (r == t.len() || ((t[r] == 'e' || t[r] == 'E') && valid_exponent(t.subrange(r + 1, t.len() as int))))
}

/// A number token at `p`: how many characters it takes.
pub open spec fn number_at(s: Seq<char>, p: int) -> Result<nat, JsonError> {
    let n = number_len(s, p);
    if valid_float(s.subrange(p, p + n)) {
        Ok(n)
    } else {
        Err(JsonError::BadNumber)
    }
}

/// A value at `p`, after optional whitespace.
pub open spec fn value_at(s: Seq<char>, p: int) -> Result<(JsonV, nat), JsonError>
    decreases s.len() - p, 2int,
{
    if p < 0 || p > s.len() {
        Err(JsonError::UnexpectedToken(None))
    } else {
        let w = ws_len(s, p);
        let q = p + w;
        if q >= s.len() {
            Err(JsonError::UnexpectedToken(None))
        } else {
            let c = s[q];
            if c == '"' {
                match string_at(s, q) {
                    Ok((t, n)) => Ok((JsonV::Str(t), w + n)),
                    Err(e) => Err(e),
                }
            } else if c == '{' {
                match object_at(s, q) {
                    Ok((v, n)) => Ok((v, w + n)),
                    Err(e) => Err(e),
                }
            } else if c == '[' {
                match array_at(s, q) {
                    Ok(n) => Ok((JsonV::Array, w + n)),
                    Err(e) => Err(e),
                }
            } else if c == 't' {
                match literal_at(s, q, seq!['t', 'r', 'u', 'e'], 0) {
                    Ok(()) => Ok((JsonV::Bool(true), w + 4)),
                    Err(e) => Err(e),
                }
            } else if c == 'f' {
                match literal_at(s, q, seq!['f', 'a', 'l', 's', 'e'], 0) {
                    Ok(()) => Ok((JsonV::Bool(false), w + 5)),
                    Err(e) => Err(e),
                }
            } else if c == 'n' {
                match literal_at(s, q, seq!['n', 'u', 'l', 'l'], 0) {
                    Ok(()) => Ok((JsonV::Null, w + 4)),
                    Err(e) => Err(e),
                }
            } else if is_digit(c) || c == '-' {
                match number_at(s, q) {
                    Ok(n) => Ok((JsonV::Number, w + n)),
                    Err(e) => Err(e),
                }
            } else {
                Err(JsonError::UnexpectedToken(Some(c)))
            }
        }
    }
}

/// An object starting with `{` at `p`.
pub open spec fn object_at(s: Seq<char>, p: int) -> Result<(JsonV, nat), JsonError>
    decreases s.len() - p, 1int,
{
    if p < 0 || p >= s.len() || s[p] != '{' {
        Err(JsonError::Expected { wanted: '{', got: got_at(s, p) })
    } else {
        let w = ws_len(s, p + 1);
        let q = p + 1 + w;
        if q < s.len() && s[q] == '}' {
            Ok((JsonV::Object(seq![]), w + 2))
        } else {
            match members_at(s, p + 1) {
                Ok((m, n)) => Ok((JsonV::Object(m), n + 1)),
                Err(e) => Err(e),
            }
        }
    }
}

/// The members of an object from `p` on, through the closing `}`.
pub open spec fn members_at(s: Seq<char>, p: int) -> Result<(Seq<(Seq<char>, JsonV)>, nat), JsonError>
    decreases s.len() - p, 0int,
{
    if p < 0 || p > s.len() {
        Err(JsonError::UnterminatedString)
    } else {
        let q = p + ws_len(s, p);
        match string_at(s, q) {
            Err(e) => Err(e),
            Ok((key, n1)) => {
                let r0 = q + n1;
                let r = r0 + ws_len(s, r0);
                if !(r < s.len() && s[r] == ':') {
                    Err(JsonError::Expected { wanted: ':', got: got_at(s, r) })
                } else {
                    match value_at(s, r + 1) {
                        Err(e) => Err(e),
                        Ok((v, n2)) => {
                            let t0 = r + 1 + n2;
                            let t = t0 + ws_len(s, t0);
                            if t < s.len() && s[t] == ',' {
                                match members_at(s, t + 1) {
                                    Ok((rest, n3)) => Ok(
                                        (seq![(key, v)] + rest, ((t + 1 - p) + n3) as nat),
                                    ),
                                    Err(e) => Err(e),
                                }
                            } else if t < s.len() && s[t] == '}' {
                                Ok((seq![(key, v)], (t + 1 - p) as nat))
                            } else {
                                Err(JsonError::ExpectedCommaOrBrace(got_at(s, t)))
                            }
                        },
                    }
                }
            },
        }
    }
}

/// An array starting with `[` at `p`: how many characters it takes.
pub open spec fn array_at(s: Seq<char>, p: int) -> Result<nat, JsonError>
    decreases s.len() - p, 1int,
{
    if p < 0 || p >= s.len() || s[p] != '[' {
        Err(JsonError::Expected { wanted: '[', got: got_at(s, p) })
    } else {
        let w = ws_len(s, p + 1);
        let q = p + 1 + w;
        if q < s.len() && s[q] == ']' {
            Ok(w + 2)
        } else {
            proof {
                lemma_ws_len_bound(s, p + 1);
            }
            match items_at(s, q) {
                Ok(n) => Ok(1 + w + n),
                Err(e) => Err(e),
            }
        }
    }
}

/// The items of an array from `p` on, through the closing `]`.
pub open spec fn items_at(s: Seq<char>, p: int) -> Result<nat, JsonError>
    decreases s.len() - p, 3int,
{
    if p < 0 || p > s.len() {
        Err(JsonError::UnexpectedToken(None))
    } else {
        match value_at(s, p) {
            Err(e) => Err(e),
            Ok((v, n1)) => {
                let t0 = p + n1;
                let t = t0 + ws_len(s, t0);
                if t < s.len() && s[t] == ',' {
                    match items_at(s, t + 1) {
                        Ok(n2) => Ok(((t + 1 - p) + n2) as nat),
                        Err(e) => Err(e),
                    }
                } else if t < s.len() && s[t] == ']' {
                    Ok((t + 1 - p) as nat)
                } else {
                    Err(JsonError::ExpectedCommaOrBracket(got_at(s, t)))
                }
            },
        }
    }
}


// ---------------------------------------------------------------------------
// The parser.
// ---------------------------------------------------------------------------

/// `char::from_u32`: the character with this code, if it is a Unicode scalar value.
#[verifier::external_body]
fn char_from_u32(code: u32) -> (r: Option<char>)
    ensures
        r == (if is_scalar_code(code as int) {
            Some(code as char)
        } else {
            None::<char>
        }),
{
    char::from_u32(code)
}

fn is_hex(c: char) -> (r: bool)
    ensures
        r == is_hex_digit(c),
{
    ('0' <= c && c <= '9') || ('a' <= c && c <= 'f') || ('A' <= c && c <= 'F')
}

fn hex_digit_value(c: char) -> (v: u32)
    requires
        is_hex_digit(c),
    ensures
        v == hex_val(c),
        v < 16,
{
    if '0' <= c && c <= '9' {
        (c as u32) - ('0' as u32)
    } else if 'a' <= c && c <= 'f' {
        (c as u32) - ('a' as u32) + 10
    } else {
        (c as u32) - ('A' as u32) + 10
    }
}

/// What `u32::from_str_radix` gives for the four characters of a `\u` escape.
fn hex4(h0: char, h1: char, h2: char, h3: char) -> (r: Option<u32>)
    ensures
        match hex4_value(seq![h0, h1, h2, h3]) {
            Some(v) => r == Some(v as u32) && v <= 0xFFFF,
            None => r is None,
        },
{
    if h0 == '+' {
        if is_hex(h1) && is_hex(h2) && is_hex(h3) {
            Some(hex_digit_value(h1) * 256 + hex_digit_value(h2) * 16 + hex_digit_value(h3))
        } else {
            None
        }
    } else if is_hex(h0) && is_hex(h1) && is_hex(h2) && is_hex(h3) {
        Some(
            hex_digit_value(h0) * 4096 + hex_digit_value(h1) * 256 + hex_digit_value(h2) * 16
                + hex_digit_value(h3),
        )
    } else {
        None
    }
}

fn escape_target(e: char) -> (c: char)
    ensures
        c == escaped(e),
{
    if e == 'n' {
        '\n'
    } else if e == 't' {
        '\t'
    } else if e == 'r' {
        '\r'
    } else if e == 'b' {
        '\u{8}'
    } else if e == 'f' {
        '\u{c}'
    } else {
        e
    }
}

fn is_number_char_exec(c: char) -> (r: bool)
    ensures
        r == is_number_char(c),
{
    ('0' <= c && c <= '9') || c == '-' || c == '+' || c == '.' || c == 'e' || c == 'E'
}

/// How many digits start at `i` in `t`.
fn digits_from(t: &Vec<char>, i: usize) -> (r: usize)
    requires
        i <= t@.len(),
    ensures
        r == digit_run(t@, i as int),
        i + r <= t@.len(),
{
    let mut j = i;
    while j < t.len() && '0' <= t[j] && t[j] <= '9'
        invariant
            i <= j <= t@.len(),
            digit_run(t@, i as int) == (j - i) + digit_run(t@, j as int),
        decreases t@.len() - j,
    {
        j = j + 1;
    }
    j - i
}

/// Whether `str::parse::<f64>` accepts a token of number characters.
fn float_syntax_ok(t: &Vec<char>) -> (r: bool)
    ensures
        r == valid_float(t@),
{
    let n = t.len();
    let a: usize = if n > 0 && (t[0] == '+' || t[0] == '-') { 1 } else { 0 };
    let d1 = digits_from(t, a);
    let dot = a + d1 < n && t[a + d1] == '.';
    let d2: usize = if dot { digits_from(t, a + d1 + 1) } else { 0 };
    let r: usize = if dot { a + d1 + 1 + d2 } else { a + d1 };
    if d1 + d2 == 0 {
        return false;
    }
    if r == n {
        return true;
    }
    if !(t[r] == 'e' || t[r] == 'E') {
        return false;
    }
    // the exponent: an optional sign and at least one digit, to the end
    let ghost v = t@.subrange(r + 1, n as int);
    let b: usize = if r + 1 < n && (t[r + 1] == '+' || t[r + 1] == '-') { 1 } else { 0 };
    let d3 = digits_from(t, r + 1 + b);
    proof {
        lemma_digit_run_shift(t@, r as int + 1, b as int);
    }
    d3 > 0 && r + 1 + b + d3 == n
}

proof fn lemma_digit_run_shift(t: Seq<char>, off: int, i: int)
    requires
        0 <= off <= t.len(),
        0 <= i,
    ensures
        digit_run(t.subrange(off, t.len() as int), i) == digit_run(t, off + i),
    decreases t.len() - off - i,
{
    if off + i < t.len() {
        lemma_digit_run_shift(t, off, i + 1);
    }
}

/// A reader over the characters of one input text.
pub struct Parser {
    chars: Vec<char>,
    pos: usize,
}

impl Parser {
    /// The whole input.
    pub closed spec fn input(&self) -> Seq<char> {
        self.chars@
    }

    /// How many characters have been read.
    pub closed spec fn position(&self) -> int {
        self.pos as int
    }

    /// The position lies within the input.
    pub closed spec fn wf(&self) -> bool {
        self.pos <= self.chars@.len()
    }

    /// A parser at the start of `s`.
    pub fn new(s: &str) -> (p: Parser)
        ensures
            p.wf(),
            p.input() == s@,
            p.position() == 0,
    {
        Parser { chars: chars_of(s), pos: 0 }
    }

    fn peek(&self) -> (r: Option<char>)
        requires
            self.wf(),
        ensures
            r == got_at(self.input(), self.position()),
    {
        if self.pos < self.chars.len() {
            Some(self.chars[self.pos])
        } else {
            None
        }
    }

    fn next_char(&mut self) -> (r: Option<char>)
        requires
            old(self).wf(),
        ensures
            final(self).wf(),
            final(self).input() == old(self).input(),
            r == got_at(old(self).input(), old(self).position()),
            final(self).position() == if old(self).position() < old(self).input().len() {
                old(self).position() + 1
            } else {
                old(self).position()
            },
    {
        if self.pos < self.chars.len() {
            let c = self.chars[self.pos];
            self.pos = self.pos + 1;
            Some(c)
        } else {
            None
        }
    }

    /// Moves past whitespace.
    pub fn skip_ws(&mut self)
        requires
            old(self).wf(),
        ensures
            final(self).wf(),
            final(self).input() == old(self).input(),
            final(self).position() == old(self).position() + ws_len(
                old(self).input(),
                old(self).position(),
            ),
    {
        let ghost s = self.chars@;
        let ghost p0 = self.pos as int;
        while self.pos < self.chars.len() && is_whitespace(self.chars[self.pos])
            invariant
                self.chars@ == s,
                p0 <= self.pos <= s.len(),
                ws_len(s, p0) == (self.pos - p0) + ws_len(s, self.pos as int),
            decreases s.len() - self.pos,
        {
            self.pos = self.pos + 1;
        }
    }

    /// Reads one character, which must be `c`.
    pub fn expect(&mut self, c: char) -> (r: Result<(), JsonError>)
        requires
            old(self).wf(),
        ensures
            final(self).wf(),
            final(self).input() == old(self).input(),
            r == (if got_at(old(self).input(), old(self).position()) == Some(c) {
                Ok(())
            } else {
                Err(
                    JsonError::Expected {
                        wanted: c,
                        got: got_at(old(self).input(), old(self).position()),
                    },
                )
            }),
            final(self).position() == if old(self).position() < old(self).input().len() {
                old(self).position() + 1
            } else {
                old(self).position()
            },
    {
        match self.next_char() {
            Some(x) => {
                if x == c {
                    Ok(())
                } else {
                    Err(JsonError::Expected { wanted: c, got: Some(x) })
                }
            },
            None => Err(JsonError::Expected { wanted: c, got: None }),
        }
    }

    /// Reads a string literal and decodes its escapes.
    pub fn parse_string(&mut self) -> (r: Result<String, JsonError>)
        requires
            old(self).wf(),
        ensures
            final(self).wf(),
            final(self).input() == old(self).input(),
            match string_at(old(self).input(), old(self).position()) {
                Ok((t, n)) => r matches Ok(x) && x@ == t && final(self).position()
                    == old(self).position() + n,
                Err(e) => r == Err::<String, JsonError>(e),
            },
    {
        let ghost s = self.chars@;
        let ghost p0 = self.pos as int;
        match self.expect('"') {
            Ok(()) => {},
            Err(e) => {
                return Err(e);
            },
        }
        let mut out = String::new();
        loop
            invariant
                self.chars@ == s,
                s == old(self).chars@,
                p0 == old(self).pos,
                p0 + 1 <= self.pos <= s.len(),
                0 <= p0 < s.len() && s[p0] == '"',
                string_body(s, p0 + 1) == match string_body(s, self.pos as int) {
                    Ok((t, n)) => Ok((out@ + t, (n + (self.pos - p0 - 1)) as nat)),
                    Err(e) => Err(e),
                },
            decreases s.len() - self.pos,
        {
            let ghost q = self.pos as int;
            match self.next_char() {
                Some(c) => {
                    if c == '"' {
                        assert(out@ + seq![] =~= out@);
                        return Ok(out);
                    } else if c == '\\' {
                        match self.next_char() {
                            Some(e) => {
                                if e == 'u' {
                                    if self.chars.len() - self.pos < 4 {
                                        return Err(JsonError::BadUnicodeEscape);
                                    }
                                    let h0 = self.chars[self.pos];
                                    let h1 = self.chars[self.pos + 1];
                                    let h2 = self.chars[self.pos + 2];
                                    let h3 = self.chars[self.pos + 3];
                                    assert(s.subrange(q + 2, q + 6) =~= seq![h0, h1, h2, h3]);
                                    self.pos = self.pos + 4;
                                    match hex4(h0, h1, h2, h3) {
                                        None => {
                                            return Err(JsonError::BadHex);
                                        },
                                        Some(code) => {
                                            let ghost before = out@;
                                            match char_from_u32(code) {
                                                Some(ch) => {
                                                    push_char(&mut out, ch);
                                                },
                                                None => {},
                                            }
                                            assert(out@ =~= before + code_chars(code as int));
                                            assert forall|t: Seq<char>|
                                                #![trigger before + (code_chars(code as int) + t)]
                                                before + (code_chars(code as int) + t) =~= out@ + t by {}
                                        },
                                    }
                                } else {
                                    let ghost before = out@;
                                    push_char(&mut out, escape_target(e));
                                    assert forall|t: Seq<char>|
                                        #![trigger before + (seq![escaped(e)] + t)]
                                        before + (seq![escaped(e)] + t) =~= out@ + t by {}
                                }
                            },
                            None => {
                                return Err(JsonError::UnterminatedEscape);
                            },
                        }
                    } else {
                        let ghost before = out@;
                        push_char(&mut out, c);
                        assert forall|t: Seq<char>|
                            #![trigger before + (seq![c] + t)]
                            before + (seq![c] + t) =~= out@ + t by {}
                    }
                },
                None => {
                    return Err(JsonError::UnterminatedString);
                },
            }
        }
    }

    /// Reads one value, after optional whitespace.
    pub fn parse_value(&mut self) -> (r: Result<Json, JsonError>)
        requires
            old(self).wf(),
        ensures
            final(self).wf(),
            final(self).input() == old(self).input(),
            match value_at(old(self).input(), old(self).position()) {
                Ok((v, n)) => r matches Ok(j) && j@ == v && final(self).position()
                    == old(self).position() + n,
                Err(e) => r == Err::<Json, JsonError>(e),
            },
        decreases old(self).input().len() - old(self).position(), 2int,
    {
        let ghost s = self.chars@;
        let ghost p0 = self.pos as int;
        self.skip_ws();
        proof {
            lemma_ws_len_bound(s, p0);
        }
        match self.peek() {
            Some(c) => {
                if c == '"' {
                    match self.parse_string() {
                        Ok(t) => Ok(Json::Str(t)),
                        Err(e) => Err(e),
                    }
                } else if c == '{' {
                    self.parse_object()
                } else if c == '[' {
                    self.parse_array()
                } else if c == 't' {
                    proof {
                        reveal_strlit("true");
                        assert("true"@ =~= seq!['t', 'r', 'u', 'e']);
                    }
                    match self.parse_literal("true") {
                        Ok(()) => Ok(Json::Bool(true)),
                        Err(e) => Err(e),
                    }
                } else if c == 'f' {
                    proof {
                        reveal_strlit("false");
                        assert("false"@ =~= seq!['f', 'a', 'l', 's', 'e']);
                    }
                    match self.parse_literal("false") {
                        Ok(()) => Ok(Json::Bool(false)),
                        Err(e) => Err(e),
                    }
                } else if c == 'n' {
                    proof {
                        reveal_strlit("null");
                        assert("null"@ =~= seq!['n', 'u', 'l', 'l']);
                    }
                    match self.parse_literal("null") {
                        Ok(()) => Ok(Json::Null),
                        Err(e) => Err(e),
                    }
                } else if ('0' <= c && c <= '9') || c == '-' {
                    match self.parse_number() {
                        Ok(()) => Ok(Json::Number),
                        Err(e) => Err(e),
                    }
                } else {
                    Err(JsonError::UnexpectedToken(Some(c)))
                }
            },
            None => Err(JsonError::UnexpectedToken(None)),
        }
    }

    /// Reads an array, walking past its items.
    pub fn parse_array(&mut self) -> (r: Result<Json, JsonError>)
        requires
            old(self).wf(),
        ensures
            final(self).wf(),
            final(self).input() == old(self).input(),
            match array_at(old(self).input(), old(self).position()) {
                Ok(n) => r matches Ok(j) && j@ == JsonV::Array && final(self).position()
                    == old(self).position() + n,
                Err(e) => r == Err::<Json, JsonError>(e),
            },
        decreases old(self).input().len() - old(self).position(), 1int,
    {
        let ghost s = self.chars@;
        let ghost p0 = self.pos as int;
        match self.expect('[') {
            Ok(()) => {},
            Err(e) => {
                return Err(e);
            },
        }
        self.skip_ws();
        proof {
            lemma_ws_len_bound(s, p0 + 1);
        }
        match self.peek() {
            Some(c) => {
                if c == ']' {
                    self.next_char();
                    return Ok(Json::Array);
                }
            },
            None => {},
        }
        let ghost q = self.pos as int;
        loop
            invariant
                self.chars@ == s,
                s == old(self).chars@,
                p0 == old(self).pos,
                0 <= p0 < s.len() && s[p0] == '[',
                p0 < q <= self.pos <= s.len(),
                q == p0 + 1 + ws_len(s, p0 + 1),
                !(q < s.len() && s[q] == ']'),
                items_at(s, q) == match items_at(s, self.pos as int) {
                    Ok(n) => Ok(((self.pos - q) + n) as nat),
                    Err(e) => Err(e),
                },
            decreases s.len() - self.pos,
        {
            let ghost cur = self.pos as int;
            match self.parse_value() {
                Ok(_) => {},
                Err(e) => {
                    return Err(e);
                },
            }
            self.skip_ws();
            match self.next_char() {
                Some(c) => {
                    if c == ']' {
                        return Ok(Json::Array);
                    } else if c != ',' {
                        return Err(JsonError::ExpectedCommaOrBracket(Some(c)));
                    }
                },
                None => {
                    return Err(JsonError::ExpectedCommaOrBracket(None));
                },
            }
        }
    }

    /// Reads an object and keeps its members in order.
    pub fn parse_object(&mut self) -> (r: Result<Json, JsonError>)
        requires
            old(self).wf(),
        ensures
            final(self).wf(),
            final(self).input() == old(self).input(),
            match object_at(old(self).input(), old(self).position()) {
                Ok((v, n)) => r matches Ok(j) && j@ == v && final(self).position()
                    == old(self).position() + n,
                Err(e) => r == Err::<Json, JsonError>(e),
            },
        decreases old(self).input().len() - old(self).position(), 1int,
    {
        let ghost s = self.chars@;
        let ghost p0 = self.pos as int;
        match self.expect('{') {
            Ok(()) => {},
            Err(e) => {
                return Err(e);
            },
        }
        let mut pairs: Vec<(String, Json)> = Vec::new();
        self.skip_ws();
        proof {
            lemma_ws_len_bound(s, p0 + 1);
        }
        match self.peek() {
            Some(c) => {
                if c == '}' {
                    self.next_char();
                    assert(pairs_view(pairs@) =~= seq![]);
                    return Ok(Json::Object(pairs));
                }
            },
            None => {},
        }
        let ghost start = p0 + 1;
        proof {
            assert(ws_len(s, self.pos as int) == 0);
            assert(pairs_view(pairs@) =~= seq![]);
            assert(members_at(s, start) == match members_at(s, self.pos as int) {
                Ok((rest, n)) => Ok((pairs_view(pairs@) + rest, ((self.pos - start) + n) as nat)),
                Err(e) => Err(e),
            }) by {
                assert forall|rest: Seq<(Seq<char>, JsonV)>| #[trigger] (pairs_view(pairs@) + rest) == rest by {
                    assert(pairs_view(pairs@) + rest =~= rest);
                }
            }
        }
        loop
            invariant
                self.chars@ == s,
                s == old(self).chars@,
                p0 == old(self).pos,
                0 <= p0 < s.len() && s[p0] == '{',
                start == p0 + 1,
                !(p0 + 1 + ws_len(s, p0 + 1) < s.len() && s[p0 + 1 + ws_len(s, p0 + 1)] == '}'),
                start <= self.pos <= s.len(),
                members_at(s, start) == match members_at(s, self.pos as int) {
                    Ok((rest, n)) => Ok((pairs_view(pairs@) + rest, ((self.pos - start) + n) as nat)),
                    Err(e) => Err(e),
                },
            decreases s.len() - self.pos,
        {
            let ghost cur = self.pos as int;
            self.skip_ws();
            let key = match self.parse_string() {
                Ok(k) => k,
                Err(e) => {
                    return Err(e);
                },
            };
            self.skip_ws();
            match self.expect(':') {
                Ok(()) => {},
                Err(e) => {
                    return Err(e);
                },
            }
            let val = match self.parse_value() {
                Ok(v) => v,
                Err(e) => {
                    return Err(e);
                },
            };
            let ghost before = pairs@;
            let ghost kv = (key@, val@);
            pairs.push((key, val));
            proof {
                assert(pairs_view(pairs@) =~= pairs_view(before).push(kv));
                assert forall|rest: Seq<(Seq<char>, JsonV)>|
                    #[trigger] (pairs_view(before) + (seq![kv] + rest)) == pairs_view(pairs@) + rest by {
                    assert(pairs_view(before) + (seq![kv] + rest) =~= pairs_view(pairs@) + rest);
                }
            }
            self.skip_ws();
            match self.next_char() {
                Some(c) => {
                    if c == '}' {
                        assert(pairs_view(before) + seq![kv] =~= pairs_view(pairs@));
                        return Ok(Json::Object(pairs));
                    } else if c != ',' {
                        return Err(JsonError::ExpectedCommaOrBrace(Some(c)));
                    }
                },
                None => {
                    return Err(JsonError::ExpectedCommaOrBrace(None));
                },
            }
        }
    }

    /// Reads the characters of `lit`, in order.
    pub fn parse_literal(&mut self, lit: &str) -> (r: Result<(), JsonError>)
        requires
            old(self).wf(),
        ensures
            final(self).wf(),
            final(self).input() == old(self).input(),
            r == literal_at(old(self).input(), old(self).position(), lit@, 0),
            r is Ok ==> final(self).position() == old(self).position() + lit@.len(),
    {
        let ghost s = self.chars@;
        let ghost p0 = self.pos as int;
        let l = chars_of(lit);
        let mut k: usize = 0;
        while k < l.len()
            invariant
                self.chars@ == s,
                s == old(self).chars@,
                p0 == old(self).pos,
                l@ == lit@,
                k <= l@.len(),
                self.pos == p0 + k,
                self.pos <= s.len(),
                literal_at(s, p0, lit@, 0) == literal_at(s, p0, lit@, k as int),
            decreases l@.len() - k,
        {
            match self.expect(l[k]) {
                Ok(()) => {},
                Err(e) => {
                    return Err(e);
                },
            }
            k = k + 1;
        }
        Ok(())
    }

    /// Reads a number token; its value is not kept.
    pub fn parse_number(&mut self) -> (r: Result<(), JsonError>)
        requires
            old(self).wf(),
        ensures
            final(self).wf(),
            final(self).input() == old(self).input(),
            r == match number_at(old(self).input(), old(self).position()) {
                Ok(n) => Ok::<(), JsonError>(()),
                Err(e) => Err(e),
            },
            r is Ok ==> final(self).position() == old(self).position() + number_len(
                old(self).input(),
                old(self).position(),
            ),
    {
        let ghost s = self.chars@;
        let ghost p0 = self.pos as int;
        let mut token: Vec<char> = Vec::new();
        while self.pos < self.chars.len() && is_number_char_exec(self.chars[self.pos])
            invariant
                self.chars@ == s,
                s == old(self).chars@,
                p0 == old(self).pos,
                p0 <= self.pos <= s.len(),
                token@ == s.subrange(p0, self.pos as int),
                number_len(s, p0) == (self.pos - p0) + number_len(s, self.pos as int),
            decreases s.len() - self.pos,
        {
            token.push(self.chars[self.pos]);
            self.pos = self.pos + 1;
            assert(token@ =~= s.subrange(p0, self.pos as int));
        }
        if float_syntax_ok(&token) {
            Ok(())
        } else {
            Err(JsonError::BadNumber)
        }
    }
}


// ---------------------------------------------------------------------------
// Reading fields back out.
// ---------------------------------------------------------------------------

/// The value of the first member named `key`.
pub open spec fn lookup(pairs: Seq<(Seq<char>, JsonV)>, key: Seq<char>) -> Option<JsonV>
    decreases pairs.len(),
{
    if pairs.len() == 0 {
        None
    } else if pairs[0].0 == key {
        Some(pairs[0].1)
    } else {
        lookup(pairs.drop_first(), key)
    }
}

/// The member `key` of an object; nothing for any other value.
pub open spec fn member(obj: JsonV, key: Seq<char>) -> Option<JsonV> {
    match obj {
        JsonV::Object(pairs) => lookup(pairs, key),
        _ => None,
    }
}

/// The text of a string value; empty for anything else.
pub open spec fn str_of(v: Option<JsonV>) -> Seq<char> {
    match v {
        Some(JsonV::Str(s)) => s,
        _ => seq![],
    }
}

/// A boolean, or a string that reads exactly `true`; false for anything else.
pub open spec fn bool_of(v: Option<JsonV>) -> bool {
    match v {
        Some(JsonV::Bool(b)) => b,
        Some(JsonV::Str(s)) => s == seq!['t', 'r', 'u', 'e'],
        _ => false,
    }
}

proof fn lemma_lookup_at(pairs: Seq<(Seq<char>, JsonV)>, key: Seq<char>, i: int)
    requires
        0 <= i <= pairs.len(),
        forall|j: int| 0 <= j < i ==> pairs[j].0 != key,
    ensures
        lookup(pairs, key) == lookup(pairs.subrange(i, pairs.len() as int), key),
    decreases i,
{
    if i > 0 {
        lemma_lookup_at(pairs.drop_first(), key, i - 1);
        assert(pairs.drop_first().subrange(i - 1, pairs.len() - 1) =~= pairs.subrange(
            i,
            pairs.len() as int,
        ));
    } else {
        assert(pairs.subrange(0, pairs.len() as int) =~= pairs);
    }
}

/// Whether two strings hold the same characters.
pub fn same_text(a: &str, b: &str) -> (r: bool)
    ensures
        r == (a@ == b@),
{
    let x = chars_of(a);
    let y = chars_of(b);
    if x.len() != y.len() {
        return false;
    }
    let mut i: usize = 0;
    while i < x.len()
        invariant
            x@ == a@,
            y@ == b@,
            x@.len() == y@.len(),
            i <= x@.len(),
            forall|j: int| 0 <= j < i ==> x@[j] == y@[j],
        decreases x@.len() - i,
    {
        if x[i] != y[i] {
            return false;
        }
        i = i + 1;
    }
    assert(x@ =~= y@);
    true
}

/// The member `key` of an object (the first, if several share it).
pub fn get<'a>(obj: &'a Json, key: &str) -> (r: Option<&'a Json>)
    ensures
        match member(obj@, key@) {
            Some(v) => r matches Some(j) && j@ == v,
            None => r is None,
        },
{
    match obj {
        Json::Object(pairs) => {
            let ghost pv = pairs_view(pairs@);
            let mut i: usize = 0;
            while i < pairs.len()
                invariant
                    pv == pairs_view(pairs@),
                    obj@ == JsonV::Object(pv),
                    i <= pairs@.len(),
                    forall|j: int| 0 <= j < i ==> pv[j].0 != key@,
                decreases pairs@.len() - i,
            {
                if same_text(pairs[i].0.as_str(), key) {
                    proof {
                        lemma_lookup_at(pv, key@, i as int);
                    }
                    return Some(&pairs[i].1);
                }
                i = i + 1;
            }
            proof {
                lemma_lookup_at(pv, key@, i as int);
            }
            None
        },
        _ => None,
    }
}

/// The text of a string value; empty for anything else or for no value.
pub fn as_str(v: Option<&Json>) -> (r: String)
    ensures
        r@ == str_of(
            match v {
                Some(j) => Some(j@),
                None => None,
            },
        ),
{
    match v {
        Some(Json::Str(s)) => s.clone(),
        _ => String::new(),
    }
}

/// A boolean value, or a string value that reads exactly `true`; false otherwise.
pub fn as_bool(v: Option<&Json>) -> (r: bool)
    ensures
        r == bool_of(
            match v {
                Some(j) => Some(j@),
                None => None,
            },
        ),
{
    match v {
        Some(Json::Bool(b)) => *b,
        Some(Json::Str(s)) => {
            proof {
                reveal_strlit("true");
                assert("true"@ =~= seq!['t', 'r', 'u', 'e']);
            }
            same_text(s.as_str(), "true")
        },
        _ => false,
    }
}


// ---------------------------------------------------------------------------
// Writing strings into JSON.
// ---------------------------------------------------------------------------

/// The lowercase hexadecimal digit for `d` (`0 <= d < 16`).
pub open spec fn hex_lower(d: int) -> char {
    if d == 0 {
        '0'
    } else if d == 1 {
        '1'
    } else if d == 2 {
        '2'
    } else if d == 3 {
        '3'
    } else if d == 4 {
        '4'
    } else if d == 5 {
        '5'
    } else if d == 6 {
        '6'
    } else if d == 7 {
        '7'
    } else if d == 8 {
        '8'
    } else if d == 9 {
        '9'
    } else if d == 10 {
        'a'
    } else if d == 11 {
        'b'
    } else if d == 12 {
        'c'
    } else if d == 13 {
        'd'
    } else if d == 14 {
        'e'
    } else {
        'f'
    }
}

fn hex_lower_exec(d: u32) -> (c: char)
    requires
        d < 16,
    ensures
        c == hex_lower(d as int),
{
    if d == 0 {
        '0'
    } else if d == 1 {
        '1'
    } else if d == 2 {
        '2'
    } else if d == 3 {
        '3'
    } else if d == 4 {
        '4'
    } else if d == 5 {
        '5'
    } else if d == 6 {
        '6'
    } else if d == 7 {
        '7'
    } else if d == 8 {
        '8'
    } else if d == 9 {
        '9'
    } else if d == 10 {
        'a'
    } else if d == 11 {
        'b'
    } else if d == 12 {
        'c'
    } else if d == 13 {
        'd'
    } else if d == 14 {
        'e'
    } else {
        'f'
    }
}

/// How one character is written inside a JSON string literal.
pub open spec fn escape_seq(c: char) -> Seq<char> {
    if c == '"' {
        seq!['\\', '"']
    } else if c == '\\' {
        seq!['\\', '\\']
    } else if c == '\n' {
        seq!['\\', 'n']
    } else if c == '\r' {
        seq!['\\', 'r']
    } else if c == '\t' {
        seq!['\\', 't']
    } else if (c as u32) < 0x20 {
        seq!['\\', 'u', '0', '0', hex_lower((c as u32 / 16) as int), hex_lower((c as u32 % 16) as int)]
    } else {
        seq![c]
    }
}

/// `s` written as the contents of a JSON string literal.
pub open spec fn json_escaped(s: Seq<char>) -> Seq<char>
    decreases s.len(),
{
    if s.len() == 0 {
        seq![]
    } else {
        escape_seq(s[0]) + json_escaped(s.drop_first())
    }
}

pub proof fn lemma_escaped_concat(a: Seq<char>, b: Seq<char>)
    ensures
        json_escaped(a + b) == json_escaped(a) + json_escaped(b),
    decreases a.len(),
{
    if a.len() == 0 {
        assert(a + b =~= b);
    } else {
        lemma_escaped_concat(a.drop_first(), b);
        assert((a + b).drop_first() =~= a.drop_first() + b);
    }
}

/// Escapes `"`, `\`, newline, carriage return and tab by name, and every other control
/// character below U+0020 as `\u00XX`, so that the result can stand between the quotes
/// of a JSON string.
pub fn json_escape(s: &str) -> (out: String)
    ensures
        out@ == json_escaped(s@),
{
    let cs = chars_of(s);
    let mut out = String::new();
    let mut i: usize = 0;
    while i < cs.len()
        invariant
            cs@ == s@,
            i <= cs@.len(),
            out@ == json_escaped(cs@.take(i as int)),
        decreases cs@.len() - i,
    {
        let c = cs[i];
        let ghost before = out@;
        if c == '"' {
            push_char(&mut out, '\\');
            push_char(&mut out, '"');
        } else if c == '\\' {
            push_char(&mut out, '\\');
            push_char(&mut out, '\\');
        } else if c == '\n' {
            push_char(&mut out, '\\');
            push_char(&mut out, 'n');
        } else if c == '\r' {
            push_char(&mut out, '\\');
            push_char(&mut out, 'r');
        } else if c == '\t' {
            push_char(&mut out, '\\');
            push_char(&mut out, 't');
        } else if (c as u32) < 0x20 {
            push_char(&mut out, '\\');
            push_char(&mut out, 'u');
            push_char(&mut out, '0');
            push_char(&mut out, '0');
            push_char(&mut out, hex_lower_exec((c as u32) / 16));
            push_char(&mut out, hex_lower_exec((c as u32) % 16));
        } else {
            push_char(&mut out, c);
        }
        proof {
            assert(out@ =~= before + escape_seq(c));
            lemma_escaped_concat(cs@.take(i as int), seq![c]);
            assert(cs@.take(i + 1) =~= cs@.take(i as int) + seq![c]);
            assert(json_escaped(seq![c]) == escape_seq(c)) by {
                let one = seq![c];
                assert(one.drop_first() =~= Seq::<char>::empty());
                assert(one[0] == c);
                assert(json_escaped(one) == escape_seq(c) + json_escaped(one.drop_first()));
                assert(escape_seq(c) + Seq::<char>::empty() =~= escape_seq(c));
            }
        }
        i = i + 1;
    }
    assert(cs@.take(cs@.len() as int) =~= cs@);
    out
}


proof fn lemma_hex_lower(d: int)
    requires
        0 <= d < 16,
    ensures
        is_hex_digit(hex_lower(d)),
        hex_val(hex_lower(d)) == d,
        hex_lower(d) != '+',
{
}

proof fn lemma_body_of_escaped(s: Seq<char>, p: int, t: Seq<char>)
    requires
        0 <= p,
        p + json_escaped(t).len() < s.len(),
        s.subrange(p, p + json_escaped(t).len()) == json_escaped(t),
        s[p + json_escaped(t).len()] == '"',
    ensures
        string_body(s, p) == Ok::<(Seq<char>, nat), JsonError>((t, (json_escaped(t).len() + 1) as nat)),
    decreases t.len(),
{
    let et = json_escaped(t);
    if t.len() == 0 {
        assert(et.len() == 0);
        assert(t =~= Seq::<char>::empty());
    } else {
        let c = t[0];
        let e = escape_seq(c);
        let k = e.len() as int;
        let rest = t.drop_first();
        assert(et == e + json_escaped(rest));
        assert forall|i: int| 0 <= i < k implies s[p + i] == e[i] by {
            assert(s.subrange(p, p + et.len())[i] == et[i]);
        }
        assert(s.subrange(p + k, p + k + json_escaped(rest).len()) =~= json_escaped(rest)) by {
            assert forall|i: int| 0 <= i < json_escaped(rest).len() implies s.subrange(
                p + k,
                p + k + json_escaped(rest).len(),
            )[i] == json_escaped(rest)[i] by {
                assert(s.subrange(p, p + et.len())[k + i] == et[k + i]);
            }
        }
        lemma_body_of_escaped(s, p + k, rest);
        assert(t =~= seq![c] + rest);
        if c == '"' || c == '\\' || c == '\n' || c == '\r' || c == '\t' {
            assert(string_body(s, p) == Ok::<(Seq<char>, nat), JsonError>((t, (et.len() + 1) as nat)));
        } else if (c as u32) < 0x20 {
            let code = c as u32;
            lemma_hex_lower((code / 16) as int);
            lemma_hex_lower((code % 16) as int);
            assert(s.subrange(p + 2, p + 6) =~= seq!['0', '0', hex_lower((code / 16) as int), hex_lower((code % 16) as int)]);
            assert(hex4_value(s.subrange(p + 2, p + 6)) == Some(code as int));
            vstd::utf8::char_u32_cast(c, code);
            assert(code_chars(code as int) =~= seq![c]);
            assert(string_body(s, p) == Ok::<(Seq<char>, nat), JsonError>((t, (et.len() + 1) as nat)));
        } else {
            assert(string_body(s, p) == Ok::<(Seq<char>, nat), JsonError>((t, (et.len() + 1) as nat)));
        }
    }
}

/// Law: any text, written with `json_escape` between two quotes, is read back by the
/// parser's string reader as exactly that text, whatever follows the closing quote.
pub proof fn law_escape_then_parse_roundtrip(t: Seq<char>, rest: Seq<char>)
    ensures
        string_at(seq!['"'] + json_escaped(t) + seq!['"'] + rest, 0) == Ok::<(Seq<char>, nat), JsonError>(
            (t, (json_escaped(t).len() + 2) as nat),
        ),
{
    let s = seq!['"'] + json_escaped(t) + seq!['"'] + rest;
    let et = json_escaped(t);
    assert(s.subrange(1, 1 + et.len() as int) =~= et);
    assert(s[1 + et.len() as int] == '"');
    lemma_body_of_escaped(s, 1, t);
}


/// A character that `json_escape` writes as it is.
pub open spec fn is_plain_char(c: char) -> bool {
    c != '"' && c != '\\' && (c as u32) >= 0x20
}

/// Text made of plain characters is written unchanged.
pub proof fn lemma_escaped_plain(t: Seq<char>)
    requires
        forall|i: int| 0 <= i < t.len() ==> is_plain_char(#[trigger] t[i]),
    ensures
        json_escaped(t) == t,
    decreases t.len(),
{
    if t.len() > 0 {
        assert(is_plain_char(t[0]));
        let rest = t.drop_first();
        assert forall|i: int| 0 <= i < rest.len() implies is_plain_char(#[trigger] rest[i]) by {
            assert(rest[i] == t[i + 1]);
        }
        lemma_escaped_plain(rest);
        assert(t =~= seq![t[0]] + rest);
    }
}

/// A string literal at `p` holding `json_escaped(t)` between its quotes reads as `t`.
pub proof fn lemma_string_at_escaped(s: Seq<char>, p: int, t: Seq<char>)
    requires
        0 <= p,
        p + 1 + json_escaped(t).len() < s.len(),
        s[p] == '"',
        s.subrange(p + 1, p + 1 + json_escaped(t).len()) == json_escaped(t),
        s[p + 1 + json_escaped(t).len()] == '"',
    ensures
        string_at(s, p) == Ok::<(Seq<char>, nat), JsonError>((t, (json_escaped(t).len() + 2) as nat)),
{
    lemma_body_of_escaped(s, p + 1, t);
}

/// One member `"key":"value"` of an object at `p`, the value written with `json_escape`,
/// followed by `,` or `}` at `e`.
pub proof fn lemma_member_at(s: Seq<char>, p: int, key: Seq<char>, val: Seq<char>, e: int)
    requires
        0 <= p,
        forall|i: int| 0 <= i < key.len() ==> is_plain_char(#[trigger] key[i]),
        e == p + key.len() + 5 + json_escaped(val).len(),
        e < s.len(),
        s[p] == '"',
        s.subrange(p + 1, p + 1 + key.len()) == key,
        s[p + 1 + key.len()] == '"',
        s[p + 2 + key.len()] == ':',
        s[p + 3 + key.len()] == '"',
        s.subrange(p + 4 + key.len(), p + 4 + key.len() + json_escaped(val).len()) == json_escaped(val),
        s[p + 4 + key.len() + json_escaped(val).len()] == '"',
        s[e] == ',' || s[e] == '}',
    ensures
        s[e] == '}' ==> members_at(s, p) == Ok::<(Seq<(Seq<char>, JsonV)>, nat), JsonError>(
            (seq![(key, JsonV::Str(val))], (e + 1 - p) as nat),
        ),
        s[e] == ',' ==> members_at(s, p) == match members_at(s, e + 1) {
            Ok((rest, n)) => Ok::<(Seq<(Seq<char>, JsonV)>, nat), JsonError>(
                (seq![(key, JsonV::Str(val))] + rest, ((e + 1 - p) + n) as nat),
            ),
            Err(x) => Err(x),
        },
{
    lemma_escaped_plain(key);
    lemma_string_at_escaped(s, p, key);
    let ev = json_escaped(val);
    lemma_string_at_escaped(s, p + 3 + key.len(), val);
    assert(ws_len(s, p) == 0);
    assert(ws_len(s, p + 2 + key.len()) == 0);
    assert(ws_len(s, p + 3 + key.len()) == 0);
    assert(ws_len(s, e) == 0);
    assert(value_at(s, p + 3 + key.len()) == Ok::<(JsonV, nat), JsonError>(
        (JsonV::Str(val), (ev.len() + 2) as nat),
    ));
}

/// Law: what `json_escape` writes holds no control character below U+0020 (so no raw
/// carriage return or line feed), every `"` in it is preceded by `\`, and text without
/// `"`, `\` or control characters comes out unchanged.
pub proof fn law_escape_leaves_no_raw_controls_or_quotes(t: Seq<char>)
    ensures
        forall|i: int| 0 <= i < json_escaped(t).len() ==> (#[trigger] json_escaped(t)[i] as u32) >= 0x20,
        forall|i: int|
            0 <= i < json_escaped(t).len() && #[trigger] json_escaped(t)[i] == '"' ==> i > 0
                && json_escaped(t)[i - 1] == '\\',
        (forall|i: int| 0 <= i < t.len() ==> is_plain_char(#[trigger] t[i])) ==> json_escaped(t) == t,
    decreases t.len(),
{
    if forall|i: int| 0 <= i < t.len() ==> is_plain_char(#[trigger] t[i]) {
        lemma_escaped_plain(t);
    }
    if t.len() > 0 {
        let c = t[0];
        let e = escape_seq(c);
        let rest = t.drop_first();
        law_escape_leaves_no_raw_controls_or_quotes(rest);
        let r = json_escaped(rest);
        let all = json_escaped(t);
        assert(all == e + r);
        if (c as u32) < 0x20 && !(c == '\n' || c == '\r' || c == '\t') {
            lemma_hex_lower((c as u32 / 16) as int);
            lemma_hex_lower((c as u32 % 16) as int);
        }
        assert forall|i: int| 0 <= i < all.len() implies (#[trigger] all[i] as u32) >= 0x20 && (all[i]
            == '"' ==> i > 0 && all[i - 1] == '\\') by {
            if i < e.len() {
                assert(all[i] == e[i]);
                if i > 0 {
                    assert(all[i - 1] == e[i - 1]);
                }
            } else {
                assert(all[i] == r[i - e.len()]);
                if all[i] == '"' {
                    assert(all[i - 1] == r[i - 1 - e.len()]);
                }
            }
        }
    }
}

/// Law: the literals read as what they say. After any whitespace, `false` reads as
/// `Bool(false)`, `true` as `Bool(true)` and `null` as `Null`, each taking its own length
/// in characters, whatever follows it.
pub proof fn law_literals_read_as_written(s: Seq<char>, p: int)
    requires
        0 <= p <= s.len(),
    ensures
        ({
            let w = ws_len(s, p);
            let q = p + w;
            &&& q + 5 <= s.len() && s.subrange(q, q + 5) == seq!['f', 'a', 'l', 's', 'e'] ==> value_at(s, p)
                == Ok::<(JsonV, nat), JsonError>((JsonV::Bool(false), w + 5))
            &&& q + 4 <= s.len() && s.subrange(q, q + 4) == seq!['t', 'r', 'u', 'e'] ==> value_at(s, p)
                == Ok::<(JsonV, nat), JsonError>((JsonV::Bool(true), w + 4))
            &&& q + 4 <= s.len() && s.subrange(q, q + 4) == seq!['n', 'u', 'l', 'l'] ==> value_at(s, p)
                == Ok::<(JsonV, nat), JsonError>((JsonV::Null, w + 4))
        }),
{
    lemma_ws_len_bound(s, p);
    let w = ws_len(s, p);
    let q = p + w;
    if q + 5 <= s.len() && s.subrange(q, q + 5) == seq!['f', 'a', 'l', 's', 'e'] {
        let lit = seq!['f', 'a', 'l', 's', 'e'];
        assert forall|k: int| 0 <= k < 5 implies s[q + k] == lit[k] by {
            assert(s.subrange(q, q + 5)[k] == s[q + k]);
        }
        lemma_literal_matches(s, q, lit, 0);
    }
    if q + 4 <= s.len() && s.subrange(q, q + 4) == seq!['t', 'r', 'u', 'e'] {
        let lit = seq!['t', 'r', 'u', 'e'];
        assert forall|k: int| 0 <= k < 4 implies s[q + k] == lit[k] by {
            assert(s.subrange(q, q + 4)[k] == s[q + k]);
        }
        lemma_literal_matches(s, q, lit, 0);
    }
    if q + 4 <= s.len() && s.subrange(q, q + 4) == seq!['n', 'u', 'l', 'l'] {
        let lit = seq!['n', 'u', 'l', 'l'];
        assert forall|k: int| 0 <= k < 4 implies s[q + k] == lit[k] by {
            assert(s.subrange(q, q + 4)[k] == s[q + k]);
        }
        lemma_literal_matches(s, q, lit, 0);
    }
}

proof fn lemma_literal_matches(s: Seq<char>, q: int, lit: Seq<char>, k: int)
    requires
        0 <= q,
        0 <= k <= lit.len(),
        q + lit.len() <= s.len(),
        forall|m: int| 0 <= m < lit.len() ==> s[q + m] == lit[m],
    ensures
        literal_at(s, q, lit, k) == Ok::<(), JsonError>(()),
    decreases lit.len() - k,
{
    if k < lit.len() {
        lemma_literal_matches(s, q, lit, k + 1);
    }
}

/// Law: an event's `final` flag is what its first `final` member says: the literal `false`
/// (or any value other than `true` and the string `"true"`) leaves the message streaming,
/// and only `true` or `"true"` finishes it.
pub proof fn law_final_flag_is_the_member(input: Seq<char>)
    ensures
        member(event_value(input), "final"@) == Some(JsonV::Bool(false)) ==> !bool_of(
            member(event_value(input), "final"@),
        ),
        member(event_value(input), "final"@) == Some(JsonV::Bool(true)) ==> bool_of(
            member(event_value(input), "final"@),
        ),
        bool_of(member(event_value(input), "final"@)) ==> (member(event_value(input), "final"@) == Some(
            JsonV::Bool(true),
        ) || member(event_value(input), "final"@) == Some(JsonV::Str(seq!['t', 'r', 'u', 'e']))),
{
}

/// Where the pieces of a seven-piece concatenation stand.
pub proof fn lemma_seven_pieces(
    a: Seq<char>,
    e1: Seq<char>,
    b: Seq<char>,
    e2: Seq<char>,
    c: Seq<char>,
    e3: Seq<char>,
    d: Seq<char>,
)
    ensures
        ({
            let s = a + e1 + b + e2 + c + e3 + d;
            let o1 = a.len() as int;
            let o2 = o1 + e1.len();
            let o3 = o2 + b.len();
            let o4 = o3 + e2.len();
            let o5 = o4 + c.len();
            let o6 = o5 + e3.len();
            &&& s.len() == o6 + d.len()
            &&& s.subrange(0, o1) == a
            &&& s.subrange(o1, o2) == e1
            &&& s.subrange(o2, o3) == b
            &&& s.subrange(o3, o4) == e2
            &&& s.subrange(o4, o5) == c
            &&& s.subrange(o5, o6) == e3
            &&& s.subrange(o6, o6 + d.len()) == d
        }),
{
    let s = a + e1 + b + e2 + c + e3 + d;
    let o1 = a.len() as int;
    let o2 = o1 + e1.len();
    let o3 = o2 + b.len();
    let o4 = o3 + e2.len();
    let o5 = o4 + c.len();
    let o6 = o5 + e3.len();
    let x1 = a + e1;
    let x2 = x1 + b;
    let x3 = x2 + e2;
    let x4 = x3 + c;
    let x5 = x4 + e3;
    assert(s.subrange(0, o6) =~= x5);
    assert(x5.subrange(0, o5) =~= x4);
    assert(x4.subrange(0, o4) =~= x3);
    assert(x3.subrange(0, o3) =~= x2);
    assert(x2.subrange(0, o2) =~= x1);
    assert(s.subrange(0, o1) =~= a);
    assert(s.subrange(o1, o2) =~= e1);
    assert(s.subrange(o2, o3) =~= b);
    assert(s.subrange(o3, o4) =~= e2);
    assert(s.subrange(o4, o5) =~= c);
    assert(s.subrange(o5, o6) =~= e3);
    assert(s.subrange(o6, o6 + d.len()) =~= d);
}

// ---------------------------------------------------------------------------
// The hook's event.
// ---------------------------------------------------------------------------

/// What one streamed hook event carries.
pub struct HookEvent {
    /// This delta ends the message.
    pub final_flag: bool,
    /// Which message the delta belongs to (empty when missing).
    pub message_id: String,
    /// The text of this delta (empty when missing).
    pub delta: String,
}

/// The value an input text parses to, or an empty object where it does not parse.
pub open spec fn event_value(input: Seq<char>) -> JsonV {
    match value_at(input, 0) {
        Ok((v, n)) => v,
        Err(e) => JsonV::Object(seq![]),
    }
}

/// Reads the `final`, `message_id` and `delta` fields of a hook event; input that does
/// not parse counts as an event with none of them.
pub fn read_hook_event(input: &str) -> (r: HookEvent)
    ensures
        r.final_flag == bool_of(member(event_value(input@), "final"@)),
        r.message_id@ == str_of(member(event_value(input@), "message_id"@)),
        r.delta@ == str_of(member(event_value(input@), "delta"@)),
{
    let mut p = Parser::new(input);
    let json = match p.parse_value() {
        Ok(j) => j,
        Err(_) => {
            let empty: Vec<(String, Json)> = Vec::new();
            let j = Json::Object(empty);
            assert(j@ == JsonV::Object(seq![])) by {
                assert(pairs_view(empty@) =~= seq![]);
            }
            j
        },
    };
    let final_flag = as_bool(get(&json, "final"));
    let message_id = as_str(get(&json, "message_id"));
    let delta = as_str(get(&json, "delta"));
    HookEvent { final_flag, message_id, delta }
}

/// One member `"key":<value>` of an object at `p`, where the value reads as `v` and takes
/// `n` characters, followed by `,` or `}` at `e`.
proof fn lemma_member_with_value(s: Seq<char>, p: int, key: Seq<char>, v: JsonV, n: nat, e: int)
    requires
        0 <= p,
        forall|i: int| 0 <= i < key.len() ==> is_plain_char(#[trigger] key[i]),
        e == p + key.len() + 3 + n,
        e < s.len(),
        s[p] == '"',
        s.subrange(p + 1, p + 1 + key.len()) == key,
        s[p + 1 + key.len()] == '"',
        s[p + 2 + key.len()] == ':',
        value_at(s, p + 3 + key.len()) == Ok::<(JsonV, nat), JsonError>((v, n)),
        s[e] == ',' || s[e] == '}',
    ensures
        s[e] == '}' ==> members_at(s, p) == Ok::<(Seq<(Seq<char>, JsonV)>, nat), JsonError>(
            (seq![(key, v)], (e + 1 - p) as nat),
        ),
        s[e] == ',' ==> members_at(s, p) == match members_at(s, e + 1) {
            Ok((rest, m)) => Ok::<(Seq<(Seq<char>, JsonV)>, nat), JsonError>(
                (seq![(key, v)] + rest, ((e + 1 - p) + m) as nat),
            ),
            Err(x) => Err(x),
        },
{
    lemma_escaped_plain(key);
    lemma_string_at_escaped(s, p, key);
    assert(ws_len(s, p) == 0);
    assert(ws_len(s, p + 2 + key.len()) == 0);
    assert(ws_len(s, e) == 0);
}

/// A hook event with the `final` literal, the message id and the delta, in that order.
pub open spec fn hook_event_text(final_flag: bool, message_id: Seq<char>, delta: Seq<char>) -> Seq<char> {
    "{\"final\":"@ + (if final_flag { "true"@ } else { "false"@ }) + ",\"message_id\":\""@ + json_escaped(
        message_id,
    ) + "\",\"delta\":\""@ + json_escaped(delta) + "\"}"@
}

/// An object laid out as `{"<k1>":<v>,"<k2>":"<id>","<k3>":"<dl>"}` parses to those three
/// members.
#[verifier::rlimit(60)]
proof fn lemma_event_layout_parses(
    s: Seq<char>,
    k1: Seq<char>,
    v: JsonV,
    n: nat,
    k2: Seq<char>,
    id: Seq<char>,
    k3: Seq<char>,
    dl: Seq<char>,
)
    requires
        k1.len() == 5 && k2.len() == 10 && k3.len() == 5,
        forall|i: int| 0 <= i < k1.len() ==> is_plain_char(#[trigger] k1[i]),
        forall|i: int| 0 <= i < k2.len() ==> is_plain_char(#[trigger] k2[i]),
        forall|i: int| 0 <= i < k3.len() ==> is_plain_char(#[trigger] k3[i]),
        ({
            let o2: int = 9 + n as int;
            let o4: int = o2 + 15 + json_escaped(id).len() as int;
            let o6: int = o4 + 11 + json_escaped(dl).len() as int;
            &&& s.len() == o6 + 2
            &&& s[0] == '{' && s[1] == '"' && s.subrange(2, 7) == k1 && s[7] == '"' && s[8] == ':'
            &&& value_at(s, 9) == Ok::<(JsonV, nat), JsonError>((v, n))
            &&& s[o2] == ',' && s[o2 + 1] == '"' && s.subrange(o2 + 2, o2 + 12) == k2 && s[o2 + 12] == '"'
            &&& s[o2 + 13] == ':' && s[o2 + 14] == '"' && s.subrange(o2 + 15, o4) == json_escaped(id)
            &&& s[o4] == '"' && s[o4 + 1] == ',' && s[o4 + 2] == '"' && s.subrange(o4 + 3, o4 + 8) == k3
            &&& s[o4 + 8] == '"' && s[o4 + 9] == ':' && s[o4 + 10] == '"'
            &&& s.subrange(o4 + 11, o6) == json_escaped(dl)
            &&& s[o6] == '"' && s[o6 + 1] == '}'
        }),
    ensures
        value_at(s, 0) == Ok::<(JsonV, nat), JsonError>(
            (JsonV::Object(seq![(k1, v), (k2, JsonV::Str(id)), (k3, JsonV::Str(dl))]), s.len()),
        ),
{
    let o2: int = 9 + n as int;
    let o4: int = o2 + 15 + json_escaped(id).len();
    let o6: int = o4 + 11 + json_escaped(dl).len();
    lemma_member_at(s, o4 + 2, k3, dl, o6 + 1);
    lemma_member_at(s, o2 + 1, k2, id, o4 + 1);
    lemma_member_with_value(s, 1, k1, v, n, o2);
    let m = seq![(k1, v), (k2, JsonV::Str(id)), (k3, JsonV::Str(dl))];
    assert(seq![(k1, v)] + (seq![(k2, JsonV::Str(id))] + seq![(k3, JsonV::Str(dl))]) =~= m);
    assert(ws_len(s, 0) == 0);
    assert(ws_len(s, 1) == 0);
}

/// The literal written for a flag reads as that flag.
proof fn lemma_flag_literal(s: Seq<char>, final_flag: bool)
    requires
        ({
            let lit = if final_flag { seq!['t', 'r', 'u', 'e'] } else { seq!['f', 'a', 'l', 's', 'e'] };
            9 + lit.len() <= s.len() && s.subrange(9, 9 + lit.len() as int) == lit
        }),
    ensures
        value_at(s, 9) == Ok::<(JsonV, nat), JsonError>(
            (JsonV::Bool(final_flag), if final_flag { 4nat } else { 5nat }),
        ),
{
    law_literals_read_as_written(s, 9);
    assert(s[9] == s.subrange(9, 13)[0]);
    assert(ws_len(s, 9) == 0);
}

/// What a hook event parses to: the object of its three members.
#[verifier::rlimit(60)]
#[verifier::spinoff_prover]
proof fn lemma_hook_event_parses(final_flag: bool, message_id: Seq<char>, delta: Seq<char>)
    ensures
        value_at(hook_event_text(final_flag, message_id, delta), 0) == Ok::<(JsonV, nat), JsonError>(
            (
                JsonV::Object(
                    seq![
                        ("final"@, JsonV::Bool(final_flag)),
                        ("message_id"@, JsonV::Str(message_id)),
                        ("delta"@, JsonV::Str(delta)),
                    ],
                ),
                hook_event_text(final_flag, message_id, delta).len(),
            ),
        ),
{
    reveal_strlit("{\"final\":");
    reveal_strlit(",\"message_id\":\"");
    reveal_strlit("\",\"delta\":\"");
    reveal_strlit("\"}");
    reveal_strlit("true");
    reveal_strlit("false");
    reveal_strlit("final");
    reveal_strlit("message_id");
    reveal_strlit("delta");
    let a = "{\"final\":"@;
    let lit = if final_flag { "true"@ } else { "false"@ };
    let b = ",\"message_id\":\""@;
    let c = "\",\"delta\":\""@;
    let d = "\"}"@;
    let k1 = "final"@;
    let k2 = "message_id"@;
    let k3 = "delta"@;
    assert(a =~= seq!['{', '"'] + k1 + seq!['"', ':']);
    assert(b =~= seq![',', '"'] + k2 + seq!['"', ':', '"']);
    assert(c =~= seq!['"', ',', '"'] + k3 + seq!['"', ':', '"']);
    assert(d =~= seq!['"', '}']);
    assert(lit =~= (if final_flag { seq!['t', 'r', 'u', 'e'] } else { seq!['f', 'a', 'l', 's', 'e'] }));
    let e2 = json_escaped(message_id);
    let e3 = json_escaped(delta);
    let s = hook_event_text(final_flag, message_id, delta);
    assert(s == a + lit + b + e2 + c + e3 + d);
    lemma_seven_pieces(a, lit, b, e2, c, e3, d);
    let n: nat = lit.len();
    let o2: int = 9 + n as int;
    let o3: int = o2 + 15;
    let o4: int = o3 + e2.len();
    let o5: int = o4 + 11;
    let o6: int = o5 + e3.len();
    assert forall|i: int| 0 <= i < k1.len() implies is_plain_char(#[trigger] k1[i]) by {}
    assert forall|i: int| 0 <= i < k2.len() implies is_plain_char(#[trigger] k2[i]) by {}
    assert forall|i: int| 0 <= i < k3.len() implies is_plain_char(#[trigger] k3[i]) by {}
    assert(s[0] == '{' && s[1] == '"' && s[7] == '"' && s[8] == ':') by {
        assert(s.subrange(0, 9)[0] == a[0]);
        assert(s.subrange(0, 9)[1] == a[1]);
        assert(s.subrange(0, 9)[7] == a[7]);
        assert(s.subrange(0, 9)[8] == a[8]);
    }
    assert(s.subrange(2, 7) =~= k1) by {
        assert forall|i: int| 0 <= i < 5 implies s.subrange(2, 7)[i] == k1[i] by {
            assert(s.subrange(0, 9)[2 + i] == a[2 + i]);
        }
    }
    lemma_flag_literal(s, final_flag);
    assert(s[o2] == ',' && s[o2 + 1] == '"' && s[o2 + 12] == '"' && s[o2 + 13] == ':' && s[o2 + 14] == '"') by {
        assert(s.subrange(o2, o3)[0] == b[0]);
        assert(s.subrange(o2, o3)[1] == b[1]);
        assert(s.subrange(o2, o3)[12] == b[12]);
        assert(s.subrange(o2, o3)[13] == b[13]);
        assert(s.subrange(o2, o3)[14] == b[14]);
    }
    assert(s.subrange(o2 + 2, o2 + 12) =~= k2) by {
        assert forall|i: int| 0 <= i < 10 implies s.subrange(o2 + 2, o2 + 12)[i] == k2[i] by {
            assert(s.subrange(o2, o3)[2 + i] == b[2 + i]);
        }
    }
    assert(s[o4] == '"' && s[o4 + 1] == ',' && s[o4 + 2] == '"' && s[o4 + 8] == '"' && s[o4 + 9] == ':'
        && s[o4 + 10] == '"') by {
        assert(s.subrange(o4, o5)[0] == c[0]);
        assert(s.subrange(o4, o5)[1] == c[1]);
        assert(s.subrange(o4, o5)[2] == c[2]);
        assert(s.subrange(o4, o5)[8] == c[8]);
        assert(s.subrange(o4, o5)[9] == c[9]);
        assert(s.subrange(o4, o5)[10] == c[10]);
    }
    assert(s.subrange(o4 + 3, o4 + 8) =~= k3) by {
        assert forall|i: int| 0 <= i < 5 implies s.subrange(o4 + 3, o4 + 8)[i] == k3[i] by {
            assert(s.subrange(o4, o5)[3 + i] == c[3 + i]);
        }
    }
    assert(s[o6] == '"' && s[o6 + 1] == '}') by {
        assert(s.subrange(o6, o6 + 2)[0] == d[0]);
        assert(s.subrange(o6, o6 + 2)[1] == d[1]);
    }
    lemma_event_layout_parses(s, k1, JsonV::Bool(final_flag), n, k2, message_id, k3, delta);
}

/// Law: a hook event reads back as what it carries. For `{"final":false,...}` the message
/// is still streaming and for `{"final":true,...}` it is finished, and the message id and
/// the delta come back as written, whatever characters they hold. These are the fields
/// that `read_hook_event` returns.
pub proof fn law_hook_event_reads_back(final_flag: bool, message_id: Seq<char>, delta: Seq<char>)
    ensures
        bool_of(member(event_value(hook_event_text(final_flag, message_id, delta)), "final"@)) == final_flag,
        str_of(member(event_value(hook_event_text(final_flag, message_id, delta)), "message_id"@))
            == message_id,
        str_of(member(event_value(hook_event_text(final_flag, message_id, delta)), "delta"@)) == delta,
{
    reveal_strlit("final");
    reveal_strlit("message_id");
    reveal_strlit("delta");
    lemma_hook_event_parses(final_flag, message_id, delta);
    let s = hook_event_text(final_flag, message_id, delta);
    let k1 = "final"@;
    let k2 = "message_id"@;
    let k3 = "delta"@;
    let m = seq![(k1, JsonV::Bool(final_flag)), (k2, JsonV::Str(message_id)), (k3, JsonV::Str(delta))];
    assert(event_value(s) == JsonV::Object(m));
    assert(k1 != k2) by { assert(k1.len() != k2.len()); }
    assert(k1 != k3) by { assert(k1[0] != k3[0]); }
    assert(k2 != k3) by { assert(k2.len() != k3.len()); }
    assert(lookup(m, k1) == Some(JsonV::Bool(final_flag)));
    assert(lookup(m.drop_first(), k2) == Some(JsonV::Str(message_id)));
    assert(lookup(m, k2) == Some(JsonV::Str(message_id)));
    assert(lookup(m.drop_first().drop_first(), k3) == Some(JsonV::Str(delta)));
    assert(lookup(m.drop_first(), k3) == Some(JsonV::Str(delta)));
    assert(lookup(m, k3) == Some(JsonV::Str(delta)));
}

} // verus!

//! Character classes and small string helpers shared by every module.

use vstd::prelude::*;

verus! {

/// The Unicode `White_Space` property, which is what `char::is_whitespace` tests.
pub open spec fn is_ws(c: char) -> bool {
    ||| c == ' '
    ||| ('\u{9}' <= c && c <= '\u{d}')
    ||| c == '\u{85}'
    ||| c == '\u{a0}'
    ||| c == '\u{1680}'
    ||| ('\u{2000}' <= c && c <= '\u{200a}')
    ||| c == '\u{2028}'
    ||| c == '\u{2029}'
    ||| c == '\u{202f}'
    ||| c == '\u{205f}'
    ||| c == '\u{3000}'
}

/// Whitespace test with the meaning of `char::is_whitespace`.
pub fn is_whitespace(c: char) -> (r: bool)
    ensures
        r == is_ws(c),
{
    c == ' ' || ('\u{9}' <= c && c <= '\u{d}') || c == '\u{85}' || c == '\u{a0}' || c
        == '\u{1680}' || ('\u{2000}' <= c && c <= '\u{200a}') || c == '\u{2028}' || c
        == '\u{2029}' || c == '\u{202f}' || c == '\u{205f}' || c == '\u{3000}'
}


/// `s` with leading whitespace removed.
pub open spec fn trim_start(s: Seq<char>) -> Seq<char>
    decreases s.len(),
{
    if s.len() > 0 && is_ws(s[0]) {
        trim_start(s.drop_first())
    } else {
        s
    }
}

/// `s` with trailing whitespace removed.
pub open spec fn trim_end(s: Seq<char>) -> Seq<char>
    decreases s.len(),
{
    if s.len() > 0 && is_ws(s.last()) {
        trim_end(s.drop_last())
    } else {
        s
    }
}

/// `s` with whitespace removed at both ends, as `str::trim` does.
pub open spec fn trim(s: Seq<char>) -> Seq<char> {
    trim_end(trim_start(s))
}

proof fn lemma_trim_start_range(s: Seq<char>, a: int, b: int, lo: int)
    requires
        0 <= a <= lo <= b <= s.len(),
        forall|i: int| a <= i < lo ==> is_ws(#[trigger] s[i]),
        lo == b || !is_ws(s[lo]),
    ensures
        trim_start(s.subrange(a, b)) == s.subrange(lo, b),
    decreases lo - a,
{
    if a < lo {
        assert(s.subrange(a, b).drop_first() =~= s.subrange(a + 1, b));
        lemma_trim_start_range(s, a + 1, b, lo);
    } else {
        assert(s.subrange(a, b) =~= s.subrange(lo, b));
    }
}

proof fn lemma_trim_end_range(s: Seq<char>, lo: int, hi: int, b: int)
    requires
        0 <= lo <= hi <= b <= s.len(),
        forall|i: int| hi <= i < b ==> is_ws(#[trigger] s[i]),
        hi == lo || !is_ws(s[hi - 1]),
    ensures
        trim_end(s.subrange(lo, b)) == s.subrange(lo, hi),
    decreases b - hi,
{
    if hi < b {
        assert(s.subrange(lo, b).drop_last() =~= s.subrange(lo, b - 1));
        lemma_trim_end_range(s, lo, hi, b - 1);
    } else {
        assert(s.subrange(lo, b) =~= s.subrange(lo, hi));
    }
}

/// The bounds of `cs[a..b]` with whitespace trimmed from both ends.
pub fn trim_bounds(cs: &Vec<char>, a: usize, b: usize) -> (r: (usize, usize))
    requires
        a <= b <= cs@.len(),
    ensures
        a <= r.0 <= r.1 <= b,
        cs@.subrange(r.0 as int, r.1 as int) == trim(cs@.subrange(a as int, b as int)),
{
    let mut lo = a;
    while lo < b && is_whitespace(cs[lo])
        invariant
            a <= lo <= b <= cs@.len(),
            forall|i: int| a <= i < lo ==> is_ws(#[trigger] cs@[i]),
        decreases b - lo,
    {
        lo = lo + 1;
    }
    let mut hi = b;
    while hi > lo && is_whitespace(cs[hi - 1])
        invariant
            a <= lo <= hi <= b <= cs@.len(),
            forall|i: int| hi <= i < b ==> is_ws(#[trigger] cs@[i]),
        decreases hi - lo,
    {
        hi = hi - 1;
    }
    proof {
        lemma_trim_start_range(cs@, a as int, b as int, lo as int);
        lemma_trim_end_range(cs@, lo as int, hi as int, b as int);
    }
    (lo, hi)
}

/// Appends one character to a string.
#[verifier::external_body]
pub(crate) fn push_char(s: &mut String, c: char)
    ensures
        final(s)@ == old(s)@.push(c),
{
    s.push(c);
}

/// The characters of a string slice, in order.
pub fn chars_of(s: &str) -> (v: Vec<char>)
    ensures
        v@ == s@,
{
    let mut v: Vec<char> = Vec::new();
    for c in iter: s.chars()
        invariant
            v@ == iter.seq().take(iter.index() as int),
    {
        v.push(c);
    }
    v
}

/// A string holding the characters `cs[from..to]`.
pub fn string_from_chars(cs: &[char], from: usize, to: usize) -> (r: String)
    requires
        from <= to <= cs@.len(),
    ensures
        r@ == cs@.subrange(from as int, to as int),
{
    let mut r = String::new();
    let mut i = from;
    while i < to
        invariant
            from <= i <= to <= cs@.len(),
            r@ == cs@.subrange(from as int, i as int),
        decreases to - i,
    {
        push_char(&mut r, cs[i]);
        assert(r@ =~= cs@.subrange(from as int, (i + 1) as int));
        i = i + 1;
    }
    r
}


/// The decimal digit character for `d` (`0 <= d < 10`).
pub open spec fn digit_char(d: int) -> char {
    if d == 0 {
        '0'
    } else if d == 1 {
        '1'
    } else if d == 2 {
        '2'
    } else if d == 3 {
        '3'
    } else if d == 4 {
        '4'
    } else if d == 5 {
        '5'
    } else if d == 6 {
        '6'
    } else if d == 7 {
        '7'
    } else if d == 8 {
        '8'
    } else {
        '9'
    }
}

/// The decimal representation of `n`, without leading zeros (`"0"` for zero).
pub open spec fn dec_digits(n: nat) -> Seq<char>
    decreases n,
{
    if n < 10 {
        seq![digit_char(n as int)]
    } else {
        dec_digits(n / 10).push(digit_char((n % 10) as int))
    }
}

/// The decimal representation of an `i64`, with a leading `-` when negative (as `{}` prints it).
pub open spec fn dec_signed(n: int) -> Seq<char> {
    if n < 0 {
        seq!['-'] + dec_digits((-n) as nat)
    } else {
        dec_digits(n as nat)
    }
}

/// `k` zero characters.
pub open spec fn zeros(k: int) -> Seq<char> {
    Seq::new(if k > 0 { k as nat } else { 0 }, |i: int| '0')
}

/// `n` printed with a sign-aware zero padding to at least `width` characters (as `{:0width$}`).
pub open spec fn dec_zero_padded(n: int, width: int) -> Seq<char> {
    if n < 0 {
        let d = dec_digits((-n) as nat);
        seq!['-'] + zeros(width - 1 - d.len()) + d
    } else {
        let d = dec_digits(n as nat);
        zeros(width - d.len()) + d
    }
}

fn digit(d: u64) -> (c: char)
    requires
        d < 10,
    ensures
        c == digit_char(d as int),
{
    if d == 0 {
        '0'
    } else if d == 1 {
        '1'
    } else if d == 2 {
        '2'
    } else if d == 3 {
        '3'
    } else if d == 4 {
        '4'
    } else if d == 5 {
        '5'
    } else if d == 6 {
        '6'
    } else if d == 7 {
        '7'
    } else if d == 8 {
        '8'
    } else {
        '9'
    }
}

/// Appends the decimal digits of `n` to `out`.
pub fn push_decimal(out: &mut String, n: u64)
    ensures
        final(out)@ == old(out)@ + dec_digits(n as nat),
    decreases n,
{
    if n < 10 {
        push_char(out, digit(n));
    } else {
        push_decimal(out, n / 10);
        push_char(out, digit(n % 10));
        assert(out@ =~= old(out)@ + dec_digits(n as nat));
    }
}


fn magnitude(n: i64) -> (m: u64)
    ensures
        m as int == (if n < 0 { -n } else { n as int }),
{
    if n < 0 {
        (0i128 - n as i128) as u64
    } else {
        n as u64
    }
}

/// Appends `n` as `{}` prints an `i64`.
pub fn push_signed(out: &mut String, n: i64)
    ensures
        final(out)@ == old(out)@ + dec_signed(n as int),
{
    if n < 0 {
        push_char(out, '-');
        push_decimal(out, magnitude(n));
        assert(out@ =~= old(out)@ + dec_signed(n as int));
    } else {
        push_decimal(out, magnitude(n));
    }
}

/// Appends `k` zero characters.
fn push_zeros(out: &mut String, k: usize)
    ensures
        final(out)@ == old(out)@ + zeros(k as int),
{
    let mut i: usize = 0;
    while i < k
        invariant
            i <= k,
            out@ == old(out)@ + zeros(i as int),
        decreases k - i,
    {
        push_char(out, '0');
        i = i + 1;
        assert(out@ =~= old(out)@ + zeros(i as int));
    }
}

/// Appends `n` as `{:0width$}` prints an `i64`.
pub fn push_zero_padded(out: &mut String, n: i64, width: usize)
    ensures
        final(out)@ == old(out)@ + dec_zero_padded(n as int, width as int),
{
    let mut digits = String::new();
    push_decimal(&mut digits, magnitude(n));
    let len = digits.as_str().unicode_len();
    let sign: usize = if n < 0 { 1 } else { 0 };
    if n < 0 {
        push_char(out, '-');
    }
    if len < width && width - len > sign {
        push_zeros(out, width - len - sign);
    } else {
        push_zeros(out, 0);
    }
    out.append(digits.as_str());
    assert(out@ =~= old(out)@ + dec_zero_padded(n as int, width as int));
}

} // verus!

//! Session identity: which project directory a hook, player or clear command runs
//! for, as a short hash that every binary derives the same way.

use vstd::prelude::*;
use crate::text::push_char;

verus! {

// ---------------------------------------------------------------------------
// MurmurHash3, x86 32-bit variant.
// ---------------------------------------------------------------------------

pub open spec fn rotl32(x: u32, r: u32) -> u32 {
    (x << r) | (x >> ((32 - r) as u32))
}

/// One 4-byte block (or the tail word) scrambled before it is mixed into the hash.
pub open spec fn scramble(k: u32) -> u32 {
    rotl32(k.wrapping_mul(0xcc9e2d51), 15).wrapping_mul(0x1b873593)
}

/// The hash state after mixing in one block.
pub open spec fn mix_block(h: u32, k: u32) -> u32 {
    rotl32(h ^ scramble(k), 13).wrapping_mul(5).wrapping_add(0xe6546b64)
}

/// Four bytes read as a little-endian word.
pub open spec fn le_word(b0: u8, b1: u8, b2: u8, b3: u8) -> u32 {
    (b0 as u32) | ((b1 as u32) << 8u32) | ((b2 as u32) << 16u32) | ((b3 as u32) << 24u32)
}

/// The `i`-th 4-byte block of `data`.
pub open spec fn block(data: Seq<u8>, i: int) -> u32 {
    le_word(data[4 * i], data[4 * i + 1], data[4 * i + 2], data[4 * i + 3])
}

/// The hash state after the first `n` blocks, starting from `h`.
pub open spec fn blocks_hash(data: Seq<u8>, h: u32, n: nat) -> u32
    decreases n,
{
    if n == 0 {
        h
    } else {
        mix_block(blocks_hash(data, h, (n - 1) as nat), block(data, n - 1))
    }
}

/// The last `data.len() % 4` bytes, as a little-endian word.
pub open spec fn tail_word(data: Seq<u8>) -> u32 {
    let t: int = ((data.len() / 4) * 4) as int;
    let r = data.len() % 4;
    if r == 0 {
        0
    } else if r == 1 {
        0u32 ^ (data[t] as u32)
    } else if r == 2 {
        (0u32 ^ (data[t] as u32)) ^ ((data[t + 1] as u32) << 8u32)
    } else {
        ((0u32 ^ (data[t] as u32)) ^ ((data[t + 1] as u32) << 8u32)) ^ ((data[t + 2] as u32) << 16u32)
    }
}

/// The final avalanche.
pub open spec fn fmix(h: u32) -> u32 {
    let h1 = h ^ (h >> 16u32);
    let h2 = h1.wrapping_mul(0x85ebca6b);
    let h3 = h2 ^ (h2 >> 13u32);
    let h4 = h3.wrapping_mul(0xc2b2ae35);
    h4 ^ (h4 >> 16u32)
}

/// MurmurHash3_x86_32 of `data` with `seed`.
pub open spec fn murmur3(data: Seq<u8>, seed: u32) -> u32 {
    let h = blocks_hash(data, seed, data.len() / 4);
    let h_tail = if data.len() % 4 == 0 {
        h
    } else {
        h ^ scramble(tail_word(data))
    };
    fmix(h_tail ^ (data.len() as u32))
}

/// Law: a 4-byte block is read little-endian: its value is its first byte, plus 256 times
/// the second, plus 65536 times the third, plus 16777216 times the fourth.
pub proof fn law_block_little_endian(data: Seq<u8>, i: int)
    requires
        0 <= i,
        4 * i + 3 < data.len(),
    ensures
        block(data, i) as int == data[4 * i] as int + 256 * data[4 * i + 1] as int + 65536 * data[4 * i + 2] as int
            + 16777216 * data[4 * i + 3] as int,
{
    let (b0, b1, b2, b3) = (data[4 * i], data[4 * i + 1], data[4 * i + 2], data[4 * i + 3]);
    assert((b0 as u32) | ((b1 as u32) << 8u32) | ((b2 as u32) << 16u32) | ((b3 as u32) << 24u32) == (b0 as u32)
        + (b1 as u32) * 256 + (b2 as u32) * 65536 + (b3 as u32) * 16777216) by (bit_vector);
}

/// Law: the tail word holds each of the last `len % 4` bytes at its little-endian place,
/// so every byte of the tail counts: the first byte, plus 256 times the second, plus 65536
/// times the third, as far as the tail goes.
pub proof fn law_tail_word_little_endian(data: Seq<u8>)
    ensures
        ({
            let t = ((data.len() / 4) * 4) as int;
            let r = data.len() % 4;
            tail_word(data) as int == (if r >= 1 { data[t] as int } else { 0 }) + (if r >= 2 {
                256 * data[t + 1] as int
            } else {
                0
            }) + (if r >= 3 { 65536 * data[t + 2] as int } else { 0 })
        }),
{
    let t = ((data.len() / 4) * 4) as int;
    let r = data.len() % 4;
    if r == 1 {
        let b0 = data[t];
        assert(0u32 ^ (b0 as u32) == b0 as u32) by (bit_vector);
    } else if r == 2 {
        let (b0, b1) = (data[t], data[t + 1]);
        assert((0u32 ^ (b0 as u32)) ^ ((b1 as u32) << 8u32) == (b0 as u32) + (b1 as u32) * 256) by (bit_vector);
    } else if r == 3 {
        let (b0, b1, b2) = (data[t], data[t + 1], data[t + 2]);
        assert(((0u32 ^ (b0 as u32)) ^ ((b1 as u32) << 8u32)) ^ ((b2 as u32) << 16u32) == (b0 as u32) + (b1
            as u32) * 256 + (b2 as u32) * 65536) by (bit_vector);
    }
}

/// Law: inputs of the same length that agree in their blocks but differ in a tail byte
/// have different tail words, so the hash mixes in a different value for each.
pub proof fn law_tail_bytes_all_count(d1: Seq<u8>, d2: Seq<u8>)
    requires
        d1.len() == d2.len(),
        d1.take(((d1.len() / 4) * 4) as int) == d2.take(((d2.len() / 4) * 4) as int),
        d1 != d2,
    ensures
        tail_word(d1) != tail_word(d2),
{
    let t = ((d1.len() / 4) * 4) as int;
    law_tail_word_little_endian(d1);
    law_tail_word_little_endian(d2);
    assert(exists|j: int| t <= j < d1.len() && d1[j] != d2[j]) by {
        if forall|j: int| t <= j < d1.len() ==> d1[j] == d2[j] {
            assert forall|j: int| 0 <= j < d1.len() implies d1[j] == d2[j] by {
                if j < t {
                    assert(d1.take(t)[j] == d2.take(t)[j]);
                }
            }
            assert(d1 =~= d2);
        }
    }
    let j = choose|j: int| t <= j < d1.len() && d1[j] != d2[j];
    let r = d1.len() % 4;
    assert(d1.len() - t == r);
    if r >= 1 {
        let (a0, b0) = (d1[t] as int, d2[t] as int);
        let (a1, b1) = (if r >= 2 { d1[t + 1] as int } else { 0 }, if r >= 2 { d2[t + 1] as int } else { 0 });
        let (a2, b2) = (if r >= 3 { d1[t + 2] as int } else { 0 }, if r >= 3 { d2[t + 2] as int } else { 0 });
        if a0 + 256 * a1 + 65536 * a2 == b0 + 256 * b1 + 65536 * b2 {
            assert(a0 == b0 && a1 == b1 && a2 == b2) by (nonlinear_arith)
                requires
                    a0 + 256 * a1 + 65536 * a2 == b0 + 256 * b1 + 65536 * b2,
                    0 <= a0 < 256,
                    0 <= b0 < 256,
                    0 <= a1 < 256,
                    0 <= b1 < 256,
                    0 <= a2 < 256,
                    0 <= b2 < 256,
            ;
            assert(false);
        }
    }
}

fn rotl(x: u32, r: u32) -> (y: u32)
    requires
        0 < r < 32,
    ensures
        y == rotl32(x, r),
{
    (x << r) | (x >> (32 - r))
}

fn scramble_exec(k: u32) -> (r: u32)
    ensures
        r == scramble(k),
{
    rotl(k.wrapping_mul(0xcc9e2d51), 15).wrapping_mul(0x1b873593)
}

/// MurmurHash3 (x86, 32-bit) of `data`. Deterministic, so that separately built
/// binaries agree on the hash of the same directory.
pub fn murmurhash3_x86_32(data: &[u8], seed: u32) -> (h: u32)
    ensures
        h == murmur3(data@, seed),
{
    let n = data.len();
    let nblocks = n / 4;
    let mut hash = seed;
    let mut i: usize = 0;
    while i < nblocks
        invariant
            n == data@.len(),
            nblocks == n / 4,
            i <= nblocks,
            hash == blocks_hash(data@, seed, i as nat),
        decreases nblocks - i,
    {
        let k = (data[4 * i] as u32) | ((data[4 * i + 1] as u32) << 8u32) | ((data[4 * i + 2] as u32)
            << 16u32) | ((data[4 * i + 3] as u32) << 24u32);
        hash = rotl(hash ^ scramble_exec(k), 13).wrapping_mul(5).wrapping_add(0xe6546b64);
        i = i + 1;
    }
    let t = nblocks * 4;
    let r = n % 4;
    let mut k1: u32 = 0;
    if r >= 1 {
        k1 = k1 ^ (data[t] as u32);
    }
    if r >= 2 {
        k1 = k1 ^ ((data[t + 1] as u32) << 8u32);
    }
    if r >= 3 {
        k1 = k1 ^ ((data[t + 2] as u32) << 16u32);
    }
    if r != 0 {
        hash = hash ^ scramble_exec(k1);
    }
    hash = hash ^ (n as u32);
    hash = hash ^ (hash >> 16u32);
    hash = hash.wrapping_mul(0x85ebca6b);
    hash = hash ^ (hash >> 13u32);
    hash = hash.wrapping_mul(0xc2b2ae35);
    hash = hash ^ (hash >> 16u32);
    hash
}


// ---------------------------------------------------------------------------
// Base62 (`0-9A-Za-z`).
// ---------------------------------------------------------------------------

/// The base62 digit character for `d` (`0 <= d < 62`).
pub open spec fn b62_char(d: int) -> char {
    ((if d < 10 {
        48 + d
    } else if d < 36 {
        55 + d
    } else {
        61 + d
    }) as u8) as char
}

/// Whether `c` is one of the 62 digit characters.
pub open spec fn is_b62_char(c: char) -> bool {
    ('0' <= c && c <= '9') || ('A' <= c && c <= 'Z') || ('a' <= c && c <= 'z')
}

/// The digit value of a base62 character.
pub open spec fn b62_val(c: char) -> int {
    if '0' <= c && c <= '9' {
        c as int - 48
    } else if 'A' <= c && c <= 'Z' {
        c as int - 55
    } else {
        c as int - 61
    }
}

/// The base62 digits of `n`, most significant first, without leading zeros.
pub open spec fn b62_digits(n: nat) -> Seq<char>
    decreases n,
{
    if n < 62 {
        seq![b62_char(n as int)]
    } else {
        b62_digits(n / 62).push(b62_char((n % 62) as int))
    }
}

/// `n` in base62, left-padded with `0` to at least `width` characters.
pub open spec fn base62(n: nat, width: int) -> Seq<char> {
    let d = b62_digits(n);
    Seq::new(if width > d.len() { (width - d.len()) as nat } else { 0 }, |i: int| '0') + d
}

/// The number a base62 text stands for.
pub open spec fn b62_value(s: Seq<char>) -> int
    decreases s.len(),
{
    if s.len() == 0 {
        0
    } else {
        b62_value(s.drop_last()) * 62 + b62_val(s.last())
    }
}

fn b62_digit(d: u32) -> (c: char)
    requires
        d < 62,
    ensures
        c == b62_char(d as int),
{
    if d < 10 {
        ((48 + d) as u8) as char
    } else if d < 36 {
        ((55 + d) as u8) as char
    } else {
        ((61 + d) as u8) as char
    }
}

fn push_b62_digits(out: &mut String, n: u32)
    ensures
        final(out)@ == old(out)@ + b62_digits(n as nat),
    decreases n,
{
    if n < 62 {
        push_char(out, b62_digit(n));
    } else {
        push_b62_digits(out, n / 62);
        push_char(out, b62_digit(n % 62));
        assert(out@ =~= old(out)@ + b62_digits(n as nat));
    }
}

/// `n` in base62, left-padded with `0` to `width` characters.
pub fn to_base62(n: u32, width: usize) -> (r: String)
    ensures
        r@ == base62(n as nat, width as int),
{
    let mut digits = String::new();
    push_b62_digits(&mut digits, n);
    let len = digits.as_str().unicode_len();
    let mut r = String::new();
    let mut i: usize = len;
    while i < width
        invariant
            len == b62_digits(n as nat).len(),
            len <= i,
            i <= width || i == len,
            r@ == Seq::new((i - len) as nat, |j: int| '0'),
        decreases width - i,
    {
        push_char(&mut r, '0');
        i = i + 1;
        assert(r@ =~= Seq::new((i - len) as nat, |j: int| '0'));
    }
    r.append(digits.as_str());
    assert(r@ =~= base62(n as nat, width as int));
    r
}

proof fn lemma_b62_char(d: int)
    requires
        0 <= d < 62,
    ensures
        is_b62_char(b62_char(d)),
        b62_val(b62_char(d)) == d,
{
}

proof fn lemma_b62_digits(n: nat)
    ensures
        b62_value(b62_digits(n)) == n,
        b62_digits(n).len() >= 1,
        forall|i: int| 0 <= i < b62_digits(n).len() ==> is_b62_char(#[trigger] b62_digits(n)[i]),
    decreases n,
{
    if n < 62 {
        lemma_b62_char(n as int);
        let one = seq![b62_char(n as int)];
        assert(one.drop_last() =~= Seq::<char>::empty());
        assert(one.last() == b62_char(n as int));
        assert(b62_value(one.drop_last()) == 0);
    } else {
        lemma_b62_digits(n / 62);
        lemma_b62_char((n % 62) as int);
        assert(b62_digits(n).drop_last() =~= b62_digits(n / 62));
        assert(b62_digits(n).last() == b62_char((n % 62) as int));
        assert((n / 62) * 62 + n % 62 == n) by (nonlinear_arith);
    }
}

/// `62` to the power `k`.
pub open spec fn pow62(k: nat) -> nat
    decreases k,
{
    if k == 0 {
        1
    } else {
        62 * pow62((k - 1) as nat)
    }
}

proof fn lemma_b62_digits_len(n: nat, k: nat, bound: nat)
    requires
        k >= 1,
        bound == pow62(k),
        n < bound,
    ensures
        b62_digits(n).len() <= k,
    decreases k,
{
    if n >= 62 {
        let b2 = pow62((k - 1) as nat);
        if k == 1 {
            assert(bound == 62 * pow62(0));
        } else {
            assert(bound == 62 * b2);
            assert(n / 62 < b2) by (nonlinear_arith)
                requires
                    n < 62 * b2,
            ;
            lemma_b62_digits_len(n / 62, (k - 1) as nat, b2);
        }
    }
}

proof fn lemma_leading_zeros(z: nat, d: Seq<char>)
    ensures
        b62_value(Seq::new(z, |i: int| '0') + d) == b62_value(d),
    decreases d.len(),
{
    let zs = Seq::new(z, |i: int| '0');
    if d.len() == 0 {
        assert(zs + d =~= zs);
        lemma_zeros_value(z);
    } else {
        lemma_leading_zeros(z, d.drop_last());
        assert((zs + d).drop_last() =~= zs + d.drop_last());
    }
}

proof fn lemma_zeros_value(z: nat)
    ensures
        b62_value(Seq::new(z, |i: int| '0')) == 0,
    decreases z,
{
    if z > 0 {
        lemma_zeros_value((z - 1) as nat);
        assert(Seq::new(z, |i: int| '0').drop_last() =~= Seq::new((z - 1) as nat, |i: int| '0'));
    }
}

/// The digits of `n` are exactly as many as it needs: `n` is below `62^len`, and, with
/// more than one digit, at least `62^(len-1)`.
proof fn lemma_b62_digit_count(n: nat)
    ensures
        b62_digits(n).len() >= 1,
        n < pow62(b62_digits(n).len()),
        b62_digits(n).len() > 1 ==> pow62((b62_digits(n).len() - 1) as nat) <= n,
    decreases n,
{
    if n < 62 {
        assert(pow62(1) == 62 * pow62(0));
    } else {
        let q = n / 62;
        lemma_b62_digit_count(q);
        let l = b62_digits(q).len();
        assert(b62_digits(n).len() == l + 1);
        assert(pow62(l + 1) == 62 * pow62(l));
        assert(n < 62 * pow62(l)) by (nonlinear_arith)
            requires
                q < pow62(l),
                q == n / 62,
        ;
        if l > 1 {
            assert(pow62(l) == 62 * pow62((l - 1) as nat));
            assert(62 * pow62((l - 1) as nat) <= n) by (nonlinear_arith)
                requires
                    pow62((l - 1) as nat) <= q,
                    q == n / 62,
            ;
        } else {
            assert(pow62(1) == 62 * pow62(0));
        }
    }
}

/// Law: `to_base62` never cuts a number short: its text is as long as the larger of the
/// width asked for and the number of base62 digits that `n` needs, where `n` needs `len`
/// digits when it is below `62^len` and (for more than one digit) at least `62^(len-1)`.
pub proof fn law_base62_width(n: u32, width: usize)
    ensures
        ({
            let len = b62_digits(n as nat).len();
            &&& len >= 1
            &&& (n as nat) < pow62(len)
            &&& len > 1 ==> pow62((len - 1) as nat) <= n
            &&& base62(n as nat, width as int).len() == if width > len { width as nat } else { len }
            &&& base62(n as nat, width as int).subrange(
                base62(n as nat, width as int).len() - len,
                base62(n as nat, width as int).len() as int,
            ) == b62_digits(n as nat)
        }),
{
    lemma_b62_digit_count(n as nat);
    let d = b62_digits(n as nat);
    let r = base62(n as nat, width as int);
    assert(r.subrange(r.len() - d.len(), r.len() as int) =~= d);
}

/// Law: a base62 text reads back as the number it was made from, it uses only the 62
/// digit characters, and a 32-bit number always takes exactly 6 of them at width 6.
pub proof fn law_base62_roundtrip(n: u32, width: usize)
    ensures
        b62_value(base62(n as nat, width as int)) == n,
        forall|i: int|
            0 <= i < base62(n as nat, width as int).len() ==> is_b62_char(
                #[trigger] base62(n as nat, width as int)[i],
            ),
        width == 6 ==> base62(n as nat, width as int).len() == 6,
{
    let d = b62_digits(n as nat);
    lemma_b62_digits(n as nat);
    let z: nat = if width > d.len() { (width - d.len()) as nat } else { 0 };
    lemma_leading_zeros(z, d);
    assert forall|i: int| 0 <= i < base62(n as nat, width as int).len() implies is_b62_char(
        #[trigger] base62(n as nat, width as int)[i],
    ) by {
        if i >= z {
            assert(base62(n as nat, width as int)[i] == d[i - z]);
        }
    }
    if width == 6 {
        assert(pow62(6) == 56800235584) by {
            reveal_with_fuel(pow62, 7);
        }
        lemma_b62_digits_len(n as nat, 6, 56800235584);
    }
}


// ---------------------------------------------------------------------------
// Paths and the session key.
// ---------------------------------------------------------------------------

/// What `std::path::Path::file_name` gives for a path written as text.
pub uninterp spec fn file_name_of(path: Seq<char>) -> Option<Seq<char>>;

/// What `std::path::Path::parent` gives for a path written as text.
pub uninterp spec fn parent_of(path: Seq<char>) -> Option<Seq<char>>;

/// `std::path::Path::file_name`, on a path given as text: the final component, or
/// nothing (for a path ending in `..`, or the root). Its result is only named here.
#[verifier::external_body]
fn path_file_name(path: &str) -> (r: Option<String>)
    ensures
        match r {
            Some(n) => file_name_of(path@) == Some(n@),
            None => file_name_of(path@) is None,
        },
{
    match std::path::Path::new(path).file_name() {
        Some(name) => Some(name.to_string_lossy().into_owned()),
        None => None,
    }
}

/// `std::path::Path::parent`, on a path given as text: the path without its final
/// component, or nothing (for the root or an empty path). Its result is only named here.
#[verifier::external_body]
fn path_parent(path: &str) -> (r: Option<String>)
    ensures
        match r {
            Some(p) => parent_of(path@) == Some(p@),
            None => parent_of(path@) is None,
        },
{
    match std::path::Path::new(path).parent() {
        Some(parent) => Some(parent.to_string_lossy().into_owned()),
        None => None,
    }
}

/// The session hash of a working directory: MurmurHash3 of its UTF-8 bytes (seed 0),
/// as 6 base62 characters.
pub open spec fn session_hash_of(cwd: Seq<char>) -> Seq<char> {
    base62(murmur3(vstd::utf8::encode_utf8(cwd), 0) as nat, 6)
}

/// The session directory name: the hash, `-`, and the directory's last component
/// (`root` where there is none).
pub open spec fn session_dir_of(cwd: Seq<char>) -> Seq<char> {
    session_hash_of(cwd) + seq!['-'] + match file_name_of(cwd) {
        Some(n) => n,
        None => seq!['r', 'o', 'o', 't'],
    }
}

/// The session directory name for the hash `hash` and the working directory's last
/// component: the hash, `-`, and the component (`root` where there is none).
pub fn session_dir_name(hash: &str, last_component: Option<&str>) -> (r: String)
    ensures
        r@ == hash@ + seq!['-'] + match last_component {
            Some(n) => n@,
            None => seq!['r', 'o', 'o', 't'],
        },
{
    proof {
        reveal_strlit("root");
        assert("root"@ =~= seq!['r', 'o', 'o', 't']);
        reveal_strlit("-");
        assert("-"@ =~= seq!['-']);
    }
    let mut dir = String::from_str(hash);
    dir.append("-");
    match last_component {
        Some(n) => dir.append(n),
        None => dir.append("root"),
    }
    dir
}

/// The session identity of the working directory `cwd`: its hash, and the directory
/// name used for its files on disk.
pub fn session_key(cwd: &str) -> (r: (String, String))
    ensures
        r.0@ == session_hash_of(cwd@),
        r.1@ == session_dir_of(cwd@),
{
    let hash = to_base62(murmurhash3_x86_32(cwd.as_bytes(), 0), 6);
    let last = path_file_name(cwd);
    let dir = match &last {
        Some(n) => session_dir_name(hash.as_str(), Some(n.as_str())),
        None => session_dir_name(hash.as_str(), None),
    };
    (hash, dir)
}

/// The directory two levels above `path`: the repository root above a crate's manifest
/// directory. Nothing where `path` has no such ancestor.
pub open spec fn grandparent_of(path: Seq<char>) -> Option<Seq<char>> {
    match parent_of(path) {
        Some(p) => parent_of(p),
        None => None,
    }
}

/// The repository root, two levels above the tools crate's manifest directory.
pub fn script_dir(manifest_dir: &str) -> (r: Option<String>)
    ensures
        match r {
            Some(d) => grandparent_of(manifest_dir@) == Some(d@),
            None => grandparent_of(manifest_dir@) is None,
        },
{
    match path_parent(manifest_dir) {
        Some(p) => path_parent(p.as_str()),
        None => None,
    }
}

} // verus!

//! Splitting a message into sentence-sized jobs, so that long messages are
//! synthesized in parallel while playback keeps their order.

use vstd::prelude::*;
use crate::text::{chars_of, is_whitespace, is_ws, string_from_chars, trim, trim_bounds, trim_end, trim_start};

verus! {

/// Punctuation that can end a sentence.
pub open spec fn is_stop(c: char) -> bool {
    c == '.' || c == '!' || c == '?' || c == ':'
}

/// `k` ends a sentence: punctuation followed by whitespace or by the end of the text.
pub open spec fn is_boundary(s: Seq<char>, k: int) -> bool {
    0 <= k < s.len() && is_stop(s[k]) && (k + 1 == s.len() || is_ws(s[k + 1]))
}

/// The first boundary at or after `i`, or `s.len()` if there is none.
pub open spec fn next_boundary(s: Seq<char>, i: int) -> int
    decreases s.len() - i,
{
    if i < 0 || i >= s.len() {
        s.len() as int
    } else if is_boundary(s, i) {
        i
    } else {
        next_boundary(s, i + 1)
    }
}

pub proof fn lemma_next_boundary_range(s: Seq<char>, i: int)
    requires
        0 <= i <= s.len(),
    ensures
        i <= next_boundary(s, i) <= s.len(),
        forall|k: int| i <= k < next_boundary(s, i) ==> !is_boundary(s, k),
        next_boundary(s, i) < s.len() ==> is_boundary(s, next_boundary(s, i)),
    decreases s.len() - i,
{
    if i < s.len() && !is_boundary(s, i) {
        lemma_next_boundary_range(s, i + 1);
    }
}

/// A piece of text as a sentence: trimmed, and dropped if nothing is left.
pub open spec fn keep(t: Seq<char>) -> Seq<Seq<char>> {
    if trim(t).len() > 0 {
        seq![trim(t)]
    } else {
        seq![]
    }
}

/// The sentences of `s`: the pieces that end at each boundary, and the rest after the
/// last one, each trimmed, empty ones left out.
pub open spec fn sentences(s: Seq<char>) -> Seq<Seq<char>>
    decreases s.len(),
{
    let k = next_boundary(s, 0);
    if k >= s.len() {
        keep(s)
    } else {
        proof {
            lemma_next_boundary_range(s, 0);
        }
        keep(s.take(k + 1)) + sentences(s.skip(k + 1))
    }
}


proof fn lemma_boundary_skip(s: Seq<char>, a: int, j: int)
    requires
        0 <= a <= s.len(),
        0 <= j,
    ensures
        is_boundary(s.skip(a), j) == is_boundary(s, a + j),
{
}

proof fn lemma_next_boundary_skip(s: Seq<char>, a: int, j: int)
    requires
        0 <= a <= s.len(),
        0 <= j <= s.len() - a,
    ensures
        next_boundary(s.skip(a), j) == next_boundary(s, a + j) - a,
    decreases s.len() - a - j,
{
    lemma_boundary_skip(s, a, j);
    if a + j < s.len() && !is_boundary(s, a + j) {
        lemma_next_boundary_skip(s, a, j + 1);
    }
}

proof fn lemma_next_boundary_is(s: Seq<char>, i: int, k: int)
    requires
        0 <= i <= k < s.len(),
        forall|m: int| i <= m < k ==> !is_boundary(s, m),
        is_boundary(s, k),
    ensures
        next_boundary(s, i) == k,
    decreases k - i,
{
    if i < k {
        lemma_next_boundary_is(s, i + 1, k);
    }
}

proof fn lemma_no_boundary(s: Seq<char>, i: int)
    requires
        0 <= i <= s.len(),
        forall|m: int| i <= m < s.len() ==> !is_boundary(s, m),
    ensures
        next_boundary(s, i) == s.len(),
    decreases s.len() - i,
{
    if i < s.len() {
        lemma_no_boundary(s, i + 1);
    }
}

proof fn lemma_trim_ws_front(s: Seq<char>)
    requires
        s.len() > 0,
        is_ws(s[0]),
    ensures
        trim(s) == trim(s.drop_first()),
{
}

/// Leading whitespace makes no difference to the sentences.
proof fn lemma_sentences_ws_front(s: Seq<char>)
    requires
        s.len() > 0,
        is_ws(s[0]),
    ensures
        sentences(s) == sentences(s.drop_first()),
{
    let d = s.drop_first();
    lemma_next_boundary_skip(s, 1, 0);
    assert(s.skip(1) =~= d);
    lemma_next_boundary_range(s, 0);
    lemma_next_boundary_range(d, 0);
    let k = next_boundary(s, 0);
    assert(!is_boundary(s, 0));
    assert(next_boundary(s, 0) == next_boundary(s, 1));
    lemma_trim_ws_front(s);
    if k < s.len() {
        assert(s.take(k + 1).drop_first() =~= d.take(k));
        lemma_trim_ws_front(s.take(k + 1));
        assert(s.skip(k + 1) =~= d.skip(k));
    }
}

/// The view of a list of strings.
pub open spec fn texts(v: Seq<String>) -> Seq<Seq<char>> {
    v.map_values(|x: String| x@)
}

/// Splits text into sentence-ish chunks. A boundary is `.`, `!`, `?` or `:` followed by
/// whitespace or the end of the text; each chunk is trimmed, and empty chunks are dropped.
pub fn split_sentences(text: &str) -> (r: Vec<String>)
    ensures
        texts(r@) == sentences(text@),
{
    let chars = chars_of(text);
    let n = chars.len();
    let ghost c = chars@;
    let mut out: Vec<String> = Vec::new();
    let mut start: usize = 0;
    let mut i: usize = 0;
    assert(c.skip(0) =~= c);
    while i < n
        invariant
            c == chars@,
            c == text@,
            n == c.len(),
            start <= i <= n,
            forall|m: int| start <= m < i ==> !is_boundary(c, m),
            texts(out@) + sentences(c.skip(start as int)) == sentences(c),
        decreases n - i,
    {
        let ch = chars[i];
        let at_boundary = (ch == '.' || ch == '!' || ch == '?' || ch == ':') && (i + 1 == n
            || is_whitespace(chars[i + 1]));
        if at_boundary {
            proof {
                assert(is_boundary(c, i as int));
                lemma_next_boundary_is(c, start as int, i as int);
                lemma_next_boundary_skip(c, start as int, 0);
                let u = c.skip(start as int);
                assert(u.take(i - start + 1) =~= c.subrange(start as int, i + 1));
                assert(u.skip(i - start + 1) =~= c.skip(i + 1));
                assert(sentences(u) == keep(c.subrange(start as int, i + 1)) + sentences(c.skip(i + 1)));
            }
            let (lo, hi) = trim_bounds(&chars, start, i + 1);
            let ghost before = out@;
            if lo < hi {
                out.push(string_from_chars(chars.as_slice(), lo, hi));
            }
            proof {
                let piece = c.subrange(start as int, i + 1);
                assert(texts(out@) =~= texts(before) + keep(piece));
                assert(texts(before) + (keep(piece) + sentences(c.skip(i + 1))) =~= texts(out@) + sentences(c.skip(i + 1)));
            }
            let ghost i_at = i;
            i = i + 1;
            while i < n && is_whitespace(chars[i])
                invariant
                    i_at < i,
                    c == chars@,
                    n == c.len(),
                    i <= n,
                    texts(out@) + sentences(c.skip(i as int)) == sentences(c),
                decreases n - i,
            {
                proof {
                    lemma_sentences_ws_front(c.skip(i as int));
                    assert(c.skip(i as int).drop_first() =~= c.skip(i + 1));
                }
                i = i + 1;
            }
            start = i;
        } else {
            proof {
                assert(!is_boundary(c, i as int));
            }
            i = i + 1;
        }
    }
    proof {
        let u = c.skip(start as int);
        lemma_no_boundary(c, start as int);
        lemma_next_boundary_skip(c, start as int, 0);
        assert(sentences(u) == keep(u));
        assert(u =~= c.subrange(start as int, n as int));
    }
    let (lo, hi) = trim_bounds(&chars, start, n);
    let ghost before = out@;
    if lo < hi {
        out.push(string_from_chars(chars.as_slice(), lo, hi));
    }
    proof {
        assert(texts(out@) =~= texts(before) + keep(c.subrange(start as int, n as int)));
    }
    out
}


// ---------------------------------------------------------------------------
// Laws.
// ---------------------------------------------------------------------------

proof fn lemma_trim_start_first(x: Seq<char>)
    ensures
        trim_start(x).len() > 0 ==> !is_ws(trim_start(x)[0]),
        trim_start(x).len() <= x.len(),
        trim_start(x) == x.skip(x.len() - trim_start(x).len()),
    decreases x.len(),
{
    if x.len() > 0 && is_ws(x[0]) {
        lemma_trim_start_first(x.drop_first());
        assert(x.drop_first().skip(x.drop_first().len() - trim_start(x).len()) =~= x.skip(
            x.len() - trim_start(x).len(),
        ));
    } else {
        assert(x.skip(0) =~= x);
    }
}

proof fn lemma_trim_end_prefix(y: Seq<char>)
    ensures
        trim_end(y).len() <= y.len(),
        trim_end(y) == y.take(trim_end(y).len() as int),
        trim_end(y).len() > 0 ==> !is_ws(trim_end(y).last()),
    decreases y.len(),
{
    if y.len() > 0 && is_ws(y.last()) {
        lemma_trim_end_prefix(y.drop_last());
        assert(y.drop_last().take(trim_end(y).len() as int) =~= y.take(trim_end(y).len() as int));
    } else {
        assert(y.take(y.len() as int) =~= y);
    }
}

/// A trimmed text that is not empty starts and ends with a non-whitespace character.
pub proof fn lemma_trim_ends(t: Seq<char>)
    ensures
        trim(t).len() > 0 ==> !is_ws(trim(t)[0]) && !is_ws(trim(t).last()),
{
    let x = trim_start(t);
    lemma_trim_start_first(t);
    lemma_trim_end_prefix(x);
    if trim(t).len() > 0 {
        assert(trim(t)[0] == x[0]);
    }
}

/// Law: every sentence is non-empty and has no whitespace at either end.
pub proof fn law_sentences_trimmed(s: Seq<char>)
    ensures
        forall|i: int|
            0 <= i < sentences(s).len() ==> {
                let t = #[trigger] sentences(s)[i];
                &&& t.len() > 0
                &&& !is_ws(t[0])
                &&& !is_ws(t.last())
            },
    decreases s.len(),
{
    let k = next_boundary(s, 0);
    lemma_next_boundary_range(s, 0);
    if k >= s.len() {
        lemma_trim_ends(s);
    } else {
        lemma_trim_ends(s.take(k + 1));
        law_sentences_trimmed(s.skip(k + 1));
        let head = keep(s.take(k + 1));
        let rest = sentences(s.skip(k + 1));
        assert forall|i: int| 0 <= i < sentences(s).len() implies {
            let t = #[trigger] sentences(s)[i];
            &&& t.len() > 0
            &&& !is_ws(t[0])
            &&& !is_ws(t.last())
        } by {
            if i < head.len() {
                assert(sentences(s)[i] == head[i]);
            } else {
                assert(sentences(s)[i] == rest[i - head.len()]);
            }
        }
    }
}

/// `s` with every whitespace character left out.
pub open spec fn without_ws(s: Seq<char>) -> Seq<char>
    decreases s.len(),
{
    if s.len() == 0 {
        seq![]
    } else if is_ws(s[0]) {
        without_ws(s.drop_first())
    } else {
        seq![s[0]] + without_ws(s.drop_first())
    }
}

/// The texts one after another.
pub open spec fn joined(ts: Seq<Seq<char>>) -> Seq<char>
    decreases ts.len(),
{
    if ts.len() == 0 {
        seq![]
    } else {
        ts[0] + joined(ts.drop_first())
    }
}

proof fn lemma_without_ws_concat(a: Seq<char>, b: Seq<char>)
    ensures
        without_ws(a + b) == without_ws(a) + without_ws(b),
    decreases a.len(),
{
    if a.len() == 0 {
        assert(a + b =~= b);
        assert(without_ws(a) + without_ws(b) =~= without_ws(b));
    } else {
        lemma_without_ws_concat(a.drop_first(), b);
        assert((a + b).drop_first() =~= a.drop_first() + b);
        if !is_ws(a[0]) {
            assert(seq![a[0]] + (without_ws(a.drop_first()) + without_ws(b)) =~= (seq![a[0]]
                + without_ws(a.drop_first())) + without_ws(b));
        }
    }
}

proof fn lemma_joined_concat(a: Seq<Seq<char>>, b: Seq<Seq<char>>)
    ensures
        joined(a + b) == joined(a) + joined(b),
    decreases a.len(),
{
    if a.len() == 0 {
        assert(a + b =~= b);
        assert(joined(a) + joined(b) =~= joined(b));
    } else {
        lemma_joined_concat(a.drop_first(), b);
        assert((a + b).drop_first() =~= a.drop_first() + b);
        assert(a[0] + (joined(a.drop_first()) + joined(b)) =~= (a[0] + joined(a.drop_first()))
            + joined(b));
    }
}

proof fn lemma_without_ws_trim_start(x: Seq<char>)
    ensures
        without_ws(trim_start(x)) == without_ws(x),
    decreases x.len(),
{
    if x.len() > 0 && is_ws(x[0]) {
        lemma_without_ws_trim_start(x.drop_first());
    }
}

proof fn lemma_without_ws_trim_end(y: Seq<char>)
    ensures
        without_ws(trim_end(y)) == without_ws(y),
    decreases y.len(),
{
    if y.len() > 0 && is_ws(y.last()) {
        lemma_without_ws_trim_end(y.drop_last());
        assert(y =~= y.drop_last() + seq![y.last()]);
        lemma_without_ws_concat(y.drop_last(), seq![y.last()]);
        assert(seq![y.last()].drop_first() =~= Seq::<char>::empty());
        let one = seq![y.last()];
        assert(one[0] == y.last());
        assert(without_ws(one.drop_first()) == Seq::<char>::empty());
        assert(without_ws(seq![y.last()]) =~= Seq::<char>::empty());
        assert(without_ws(y.drop_last()) + Seq::<char>::empty() =~= without_ws(y.drop_last()));
    }
}

proof fn lemma_without_ws_keep(t: Seq<char>)
    ensures
        without_ws(joined(keep(t))) == without_ws(t),
{
    lemma_without_ws_trim_start(t);
    lemma_without_ws_trim_end(trim_start(t));
    if trim(t).len() > 0 {
        assert(keep(t).drop_first() =~= Seq::<Seq<char>>::empty());
        let k = keep(t);
        assert(k[0] == trim(t));
        assert(joined(k.drop_first()) == Seq::<char>::empty());
        assert(trim(t) + Seq::<char>::empty() =~= trim(t));
        assert(joined(keep(t)) =~= trim(t));
    } else {
        assert(trim(t) =~= Seq::<char>::empty());
    }
}

/// Law: splitting drops nothing but whitespace. The sentences, one after another, hold the
/// same non-whitespace characters, in the same order, as the text.
pub proof fn law_sentences_keep_all_text(s: Seq<char>)
    ensures
        without_ws(joined(sentences(s))) == without_ws(s),
    decreases s.len(),
{
    let k = next_boundary(s, 0);
    lemma_next_boundary_range(s, 0);
    if k >= s.len() {
        lemma_without_ws_keep(s);
    } else {
        let a = s.take(k + 1);
        let b = s.skip(k + 1);
        law_sentences_keep_all_text(b);
        lemma_without_ws_keep(a);
        lemma_joined_concat(keep(a), sentences(b));
        lemma_without_ws_concat(joined(keep(a)), joined(sentences(b)));
        assert(s =~= a + b);
        lemma_without_ws_concat(a, b);
    }
}

/// Trimming a text that ends in a non-whitespace character keeps that character last.
proof fn lemma_trim_keeps_last(y: Seq<char>)
    requires
        y.len() > 0,
        !is_ws(y.last()),
    ensures
        trim(y).len() > 0,
        trim(y).last() == y.last(),
    decreases y.len(),
{
    if is_ws(y[0]) {
        assert(y.len() > 1);
        let d = y.drop_first();
        assert(d.last() == y.last());
        lemma_trim_keeps_last(d);
        assert(trim_start(y) == trim_start(d));
    }
}

/// Sentence `i` of `s` is the trimmed text `s[a..=k]` for a boundary `k`.
pub open spec fn ends_at_boundary(s: Seq<char>, i: int) -> bool {
    exists|a: int, k: int|
        0 <= a <= k < s.len() && is_boundary(s, k) && sentences(s)[i] == trim(
            #[trigger] s.subrange(a, k + 1),
        )
}

/// Law: every sentence but the last ends at a boundary: it is a piece of the text that
/// ends in `.`, `!`, `?` or `:` where, in the text, that character is followed by
/// whitespace or by the end; so the sentence itself ends in that character.
pub proof fn law_sentences_end_at_boundaries(s: Seq<char>)
    ensures
        forall|i: int| 0 <= i < sentences(s).len() - 1 ==> #[trigger] ends_at_boundary(s, i),
        forall|i: int|
            0 <= i < sentences(s).len() - 1 ==> is_stop(#[trigger] sentences(s)[i].last()),
    decreases s.len(),
{
    let k = next_boundary(s, 0);
    lemma_next_boundary_range(s, 0);
    if k < s.len() {
        let t = s.skip(k + 1);
        law_sentences_end_at_boundaries(t);
        let head = keep(s.take(k + 1));
        let rest = sentences(t);
        assert(sentences(s) == head + rest);
        assert forall|i: int| 0 <= i < sentences(s).len() - 1 implies #[trigger] ends_at_boundary(s, i)
            && is_stop(sentences(s)[i].last()) by {
            if i < head.len() {
                assert(sentences(s)[i] == trim(s.take(k + 1)));
                assert(s.take(k + 1) =~= s.subrange(0, k + 1));
                assert(is_boundary(s, k));
                assert(s.subrange(0, k + 1).last() == s[k]);
                lemma_trim_keeps_last(s.subrange(0, k + 1));
            } else {
                let j = i - head.len();
                assert(sentences(s)[i] == rest[j]);
                assert(ends_at_boundary(t, j));
                let (a, b) = choose|a: int, b: int|
                    0 <= a <= b < t.len() && is_boundary(t, b) && sentences(t)[j] == trim(
                        #[trigger] t.subrange(a, b + 1),
                    );
                lemma_boundary_skip(s, k + 1, b);
                assert(t.subrange(a, b + 1) =~= s.subrange(k + 1 + a, k + 1 + b + 1));
                assert(is_stop(s[k + 1 + b]));
                assert(s.subrange(k + 1 + a, k + 1 + b + 1).last() == s[k + 1 + b]);
                lemma_trim_keeps_last(s.subrange(k + 1 + a, k + 1 + b + 1));
                assert(ends_at_boundary(s, i)) by {
                    assert(0 <= k + 1 + a <= k + 1 + b < s.len() && is_boundary(s, k + 1 + b)
                        && sentences(s)[i] == trim(s.subrange(k + 1 + a, k + 1 + b + 1)));
                }
            }
        }
        assert forall|i: int| 0 <= i < sentences(s).len() - 1 implies is_stop(
            #[trigger] sentences(s)[i].last(),
        ) by {
            assert(ends_at_boundary(s, i));
        }
    }
}

/// A trimmed text is a contiguous piece of it.
proof fn lemma_trim_is_piece(x: Seq<char>)
    ensures
        exists|a: int, b: int| 0 <= a <= b <= x.len() && trim(x) == #[trigger] x.subrange(a, b),
{
    lemma_trim_start_first(x);
    let y = trim_start(x);
    lemma_trim_end_prefix(y);
    let a = x.len() - y.len();
    let b = a + trim_end(y).len();
    assert(trim(x) =~= x.subrange(a, b));
}

/// `t` has no `.`, `!`, `?` or `:` directly followed by whitespace.
pub open spec fn no_inner_boundary(t: Seq<char>) -> bool {
    forall|j: int|
        0 <= j < t.len() - 1 ==> !((t[j] == '.' || t[j] == '!' || t[j] == '?' || t[j] == ':') && is_ws(
            #[trigger] t[j + 1],
        ))
}

/// The trimmed piece `x = s[..=e]` or `x = s` holds no boundary of `s` but possibly its last
/// character.
proof fn lemma_piece_has_no_inner_boundary(s: Seq<char>, e: int)
    requires
        0 <= e <= s.len(),
        forall|m: int| 0 <= m < e - 1 ==> !is_boundary(s, m),
    ensures
        no_inner_boundary(trim(s.take(e))),
{
    let x = s.take(e);
    lemma_trim_is_piece(x);
    let (a, b) = choose|a: int, b: int| 0 <= a <= b <= x.len() && trim(x) == #[trigger] x.subrange(a, b);
    let t = trim(x);
    assert forall|j: int| 0 <= j < t.len() - 1 implies !((t[j] == '.' || t[j] == '!' || t[j] == '?' || t[j]
        == ':') && is_ws(#[trigger] t[j + 1])) by {
        assert(t[j] == s[a + j]);
        assert(t[j + 1] == s[a + j + 1]);
        assert(!is_boundary(s, a + j));
    }
}

/// Law: every boundary splits. No sentence holds a `.`, `!`, `?` or `:` that the text
/// follows with a whitespace character (a line break included); each such place ends a
/// sentence.
pub proof fn law_every_boundary_splits(s: Seq<char>)
    ensures
        forall|i: int| 0 <= i < sentences(s).len() ==> no_inner_boundary(#[trigger] sentences(s)[i]),
    decreases s.len(),
{
    let k = next_boundary(s, 0);
    lemma_next_boundary_range(s, 0);
    if k >= s.len() {
        assert(s.take(s.len() as int) =~= s);
        lemma_piece_has_no_inner_boundary(s, s.len() as int);
    } else {
        lemma_piece_has_no_inner_boundary(s, k + 1);
        law_every_boundary_splits(s.skip(k + 1));
        let head = keep(s.take(k + 1));
        let rest = sentences(s.skip(k + 1));
        assert forall|i: int| 0 <= i < sentences(s).len() implies no_inner_boundary(
            #[trigger] sentences(s)[i],
        ) by {
            if i < head.len() {
                assert(sentences(s)[i] == head[i]);
            } else {
                assert(sentences(s)[i] == rest[i - head.len()]);
            }
        }
    }
}

} // verus!

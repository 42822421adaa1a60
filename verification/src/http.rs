//! The host tools' side of the HTTP protocol: request text, status lines, request
//! bodies, and the bearer token file.

use vstd::prelude::*;
use crate::json::{
    is_plain_char, json_escape, json_escaped, lemma_member_at, lemma_seven_pieces, value_at, JsonError, JsonV,
};
use crate::text::{chars_of, dec_digits, push_decimal, string_from_chars, trim, trim_bounds};

verus! {

/// The request text for a `POST` of `body` to `path` on the local proxy.
pub open spec fn request_text(path: Seq<char>, token: Seq<char>, body: Seq<char>) -> Seq<char> {
    "POST "@ + path + " HTTP/1.1\r\nHost: 127.0.0.1:3000\r\nAuthorization: Bearer "@ + token
        + "\r\nContent-Type: application/json\r\nContent-Length: "@ + dec_digits(
        (vstd::utf8::encode_utf8(body).len() as usize) as nat,
    ) + "\r\nConnection: close\r\n\r\n"@ + body
}

/// An HTTP/1.1 `POST` to the local proxy, with the bearer token, a JSON content type,
/// and a `Content-Length` that counts the body's bytes.
pub fn build_http_request(path: &str, token: &str, body: &str) -> (r: String)
    ensures
        r@ == request_text(path@, token@, body@),
{
    let mut r = String::from_str("POST ");
    r.append(path);
    r.append(" HTTP/1.1\r\nHost: 127.0.0.1:3000\r\nAuthorization: Bearer ");
    r.append(token);
    r.append("\r\nContent-Type: application/json\r\nContent-Length: ");
    push_decimal(&mut r, body.len() as u64);
    r.append("\r\nConnection: close\r\n\r\n");
    r.append(body);
    r
}

/// Law: a request carries the body's length in UTF-8 bytes (not in characters) as its
/// `Content-Length` line, and ends with the blank line and then the body itself.
pub proof fn law_request_frames_body(path: Seq<char>, token: Seq<char>, body: Seq<char>)
    ensures
        occurs_in(
            request_text(path, token, body),
            "Content-Length: "@ + dec_digits((vstd::utf8::encode_utf8(body).len() as usize) as nat) + "\r\n"@,
        ),
        request_text(path, token, body).len() >= body.len() + 4,
        request_text(path, token, body).skip(request_text(path, token, body).len() - body.len() - 4)
            == "\r\n\r\n"@ + body,
{
    reveal_strlit("\r\nContent-Type: application/json\r\nContent-Length: ");
    reveal_strlit("\r\nContent-Type: application/json\r\n");
    reveal_strlit("Content-Length: ");
    reveal_strlit("\r\nConnection: close\r\n\r\n");
    reveal_strlit("\r\nConnection: close");
    reveal_strlit("\r\n");
    reveal_strlit("\r\n\r\n");
    let d = dec_digits((vstd::utf8::encode_utf8(body).len() as usize) as nat);
    let head = "POST "@ + path + " HTTP/1.1\r\nHost: 127.0.0.1:3000\r\nAuthorization: Bearer "@ + token;
    let ct = "\r\nContent-Type: application/json\r\n"@;
    let cl = "Content-Length: "@;
    let crlf = "\r\n"@;
    let conn = "Connection: close"@;
    let end = "\r\n\r\n"@ + body;
    reveal_strlit("Connection: close");
    assert("\r\nContent-Type: application/json\r\nContent-Length: "@ =~= ct + cl);
    assert("\r\nConnection: close\r\n\r\n"@ =~= crlf + conn + "\r\n\r\n"@);
    let needle = cl + d + crlf;
    let p = head + ct;
    let r = request_text(path, token, body);
    assert(r =~= p + needle + conn + end);
    assert(r.subrange(p.len() as int, (p.len() + needle.len()) as int) =~= needle);
    assert(r.skip(r.len() - body.len() - 4) =~= end);
}

/// The first index of `c` in `s`, or `s.len()` when there is none.
pub open spec fn index_of(s: Seq<char>, c: char) -> int
    decreases s.len(),
{
    if s.len() == 0 {
        0
    } else if s[0] == c {
        0
    } else {
        1 + index_of(s.drop_first(), c)
    }
}

pub proof fn lemma_index_of(s: Seq<char>, c: char)
    ensures
        0 <= index_of(s, c) <= s.len(),
        forall|i: int| 0 <= i < index_of(s, c) ==> s[i] != c,
        index_of(s, c) < s.len() ==> s[index_of(s, c)] == c,
    decreases s.len(),
{
    if s.len() > 0 && s[0] != c {
        lemma_index_of(s.drop_first(), c);
        assert forall|i: int| 0 <= i < index_of(s, c) implies s[i] != c by {
            if i > 0 {
                assert(s[i] == s.drop_first()[i - 1]);
            }
        }
    }
}

fn find_char(s: &Vec<char>, c: char) -> (r: usize)
    ensures
        r == index_of(s@, c),
{
    proof {
        lemma_index_of(s@, c);
    }
    let mut i: usize = 0;
    while i < s.len() && s[i] != c
        invariant
            i <= s@.len(),
            forall|j: int| 0 <= j < i ==> s@[j] != c,
        decreases s@.len() - i,
    {
        i = i + 1;
    }
    proof {
        if i < index_of(s@, c) {
            assert(s@[i as int] == c);
        }
        if i > index_of(s@, c) {
            assert(s@[index_of(s@, c)] != c);
        }
    }
    i
}

/// The first line of a text, as `str::lines` gives it: up to the first newline, without
/// the carriage return before it. Empty for an empty text.
pub open spec fn first_line(s: Seq<char>) -> Seq<char> {
    let k = index_of(s, '\n');
    if k < s.len() && k > 0 && s[k - 1] == '\r' {
        s.take(k - 1)
    } else {
        s.take(k)
    }
}

/// The status line of an HTTP response: its first line (empty if there is none).
pub fn http_status_line(response: &str) -> (r: &str)
    ensures
        r@ == first_line(response@),
{
    let cs = chars_of(response);
    let k = find_char(&cs, '\n');
    proof {
        lemma_index_of(cs@, '\n');
    }
    if k < cs.len() && k > 0 && cs[k - 1] == '\r' {
        response.substring_char(0, k - 1)
    } else {
        response.substring_char(0, k)
    }
}

/// Whether `needle` occurs in `hay`.
pub open spec fn occurs_in(hay: Seq<char>, needle: Seq<char>) -> bool {
    exists|i: int| 0 <= i && i + needle.len() <= hay.len() && #[trigger] hay.subrange(i, i + needle.len()) == needle
}

/// Whether `needle` occurs in `hay`, as `str::contains` answers it.
pub fn contains_text(hay: &str, needle: &str) -> (r: bool)
    ensures
        r == occurs_in(hay@, needle@),
{
    let h = chars_of(hay);
    let n = chars_of(needle);
    let hl = h.len();
    let nl = n.len();
    if nl > hl {
        assert(!occurs_in(hay@, needle@));
        return false;
    }
    let mut i: usize = 0;
    while i <= hl - nl
        invariant
            h@ == hay@,
            n@ == needle@,
            hl == h@.len(),
            nl == n@.len(),
            nl <= hl,
            i <= hl - nl + 1,
            forall|j: int| 0 <= j < i ==> #[trigger] h@.subrange(j, j + nl) != n@,
        decreases hl - nl + 1 - i,
    {
        let mut k: usize = 0;
        let mut same = true;
        while k < nl
            invariant
                hl == h@.len(),
                nl == n@.len(),
                i + nl <= hl,
                k <= nl,
                same <==> forall|m: int| 0 <= m < k ==> h@[i + m] == n@[m],
            decreases nl - k,
        {
            if h[i + k] != n[k] {
                same = false;
            }
            k = k + 1;
        }
        if same {
            assert(h@.subrange(i as int, i + nl) =~= n@);
            return true;
        }
        assert(h@.subrange(i as int, i + nl) != n@) by {
            let m = choose|m: int| 0 <= m < nl && h@[i + m] != n@[m];
            assert(h@.subrange(i as int, i + nl)[m] == h@[i + m]);
        }
        i = i + 1;
    }
    assert(!occurs_in(hay@, needle@)) by {
        if occurs_in(hay@, needle@) {
            let j = choose|j: int| 0 <= j && j + nl <= hl && #[trigger] h@.subrange(j, j + nl) == n@;
            assert(h@.subrange(j, j + nl) != n@);
        }
    }
    false
}

/// The body of one enqueue request: the sentence, the session hash and the session
/// directory name, each escaped into a JSON string.
pub open spec fn enqueue_body_text(text: Seq<char>, session: Seq<char>, session_dir: Seq<char>) -> Seq<char> {
    "{\"text\":\""@ + json_escaped(text) + "\",\"session\":\""@ + json_escaped(session)
        + "\",\"session_dir\":\""@ + json_escaped(session_dir) + "\"}"@
}

/// The JSON body that enqueues one sentence.
pub fn enqueue_body(text: &str, session: &str, session_dir: &str) -> (r: String)
    ensures
        r@ == enqueue_body_text(text@, session@, session_dir@),
{
    let mut r = String::from_str("{\"text\":\"");
    r.append(json_escape(text).as_str());
    r.append("\",\"session\":\"");
    r.append(json_escape(session).as_str());
    r.append("\",\"session_dir\":\"");
    r.append(json_escape(session_dir).as_str());
    r.append("\"}");
    r
}

/// The path and query that ask the queue for a session's next id.
pub fn next_query(session: &str) -> (r: String)
    ensures
        r@ == "/next?session="@ + session@,
{
    let mut r = String::from_str("/next?session=");
    r.append(session);
    r
}

/// Law: a JSON reader reads an enqueue body back as the object of its three fields, the
/// sentence, the session hash and the session directory, whatever characters they hold.
#[verifier::rlimit(60)]
#[verifier::spinoff_prover]
pub proof fn law_enqueue_body_reads_back(text: Seq<char>, session: Seq<char>, session_dir: Seq<char>)
    ensures
        value_at(enqueue_body_text(text, session, session_dir), 0) == Ok::<(JsonV, nat), JsonError>(
            (
                JsonV::Object(
                    seq![
                        ("text"@, JsonV::Str(text)),
                        ("session"@, JsonV::Str(session)),
                        ("session_dir"@, JsonV::Str(session_dir)),
                    ],
                ),
                enqueue_body_text(text, session, session_dir).len(),
            ),
        ),
{
    reveal_strlit("{\"text\":\"");
    reveal_strlit("\",\"session\":\"");
    reveal_strlit("\",\"session_dir\":\"");
    reveal_strlit("\"}");
    reveal_strlit("text");
    reveal_strlit("session");
    reveal_strlit("session_dir");
    let a = "{\"text\":\""@;
    let b = "\",\"session\":\""@;
    let c = "\",\"session_dir\":\""@;
    let d = "\"}"@;
    let k1 = "text"@;
    let k2 = "session"@;
    let k3 = "session_dir"@;
    assert(a =~= seq!['{', '"'] + k1 + seq!['"', ':', '"']);
    assert(b =~= seq!['"', ',', '"'] + k2 + seq!['"', ':', '"']);
    assert(c =~= seq!['"', ',', '"'] + k3 + seq!['"', ':', '"']);
    assert(d =~= seq!['"', '}']);
    let e1 = json_escaped(text);
    let e2 = json_escaped(session);
    let e3 = json_escaped(session_dir);
    let s = enqueue_body_text(text, session, session_dir);
    assert(s == a + e1 + b + e2 + c + e3 + d);
    lemma_seven_pieces(a, e1, b, e2, c, e3, d);
    let o2: int = 9 + e1.len() as int;
    let o3: int = o2 + 13;
    let o4: int = o3 + e2.len();
    let o5: int = o4 + 17;
    let o6: int = o5 + e3.len();
    assert forall|i: int| 0 <= i < k1.len() implies is_plain_char(#[trigger] k1[i]) by {}
    assert forall|i: int| 0 <= i < k2.len() implies is_plain_char(#[trigger] k2[i]) by {}
    assert forall|i: int| 0 <= i < k3.len() implies is_plain_char(#[trigger] k3[i]) by {}
    assert(s[0] == '{' && s[1] == '"' && s[6] == '"' && s[7] == ':' && s[8] == '"') by {
        assert(s.subrange(0, 9)[0] == a[0]);
        assert(s.subrange(0, 9)[1] == a[1]);
        assert(s.subrange(0, 9)[6] == a[6]);
        assert(s.subrange(0, 9)[7] == a[7]);
        assert(s.subrange(0, 9)[8] == a[8]);
    }
    assert(s.subrange(2, 6) =~= k1) by {
        assert forall|i: int| 0 <= i < 4 implies s.subrange(2, 6)[i] == k1[i] by {
            assert(s.subrange(0, 9)[2 + i] == a[2 + i]);
        }
    }
    assert(s[o2] == '"' && s[o2 + 1] == ',' && s[o2 + 2] == '"' && s[o2 + 10] == '"' && s[o2 + 11] == ':'
        && s[o2 + 12] == '"') by {
        assert(s.subrange(o2, o3)[0] == b[0]);
        assert(s.subrange(o2, o3)[1] == b[1]);
        assert(s.subrange(o2, o3)[2] == b[2]);
        assert(s.subrange(o2, o3)[10] == b[10]);
        assert(s.subrange(o2, o3)[11] == b[11]);
        assert(s.subrange(o2, o3)[12] == b[12]);
    }
    assert(s.subrange(o2 + 3, o2 + 10) =~= k2) by {
        assert forall|i: int| 0 <= i < 7 implies s.subrange(o2 + 3, o2 + 10)[i] == k2[i] by {
            assert(s.subrange(o2, o3)[3 + i] == b[3 + i]);
        }
    }
    assert(s[o4] == '"' && s[o4 + 1] == ',' && s[o4 + 2] == '"' && s[o4 + 14] == '"' && s[o4 + 15] == ':'
        && s[o4 + 16] == '"') by {
        assert(s.subrange(o4, o5)[0] == c[0]);
        assert(s.subrange(o4, o5)[1] == c[1]);
        assert(s.subrange(o4, o5)[2] == c[2]);
        assert(s.subrange(o4, o5)[14] == c[14]);
        assert(s.subrange(o4, o5)[15] == c[15]);
        assert(s.subrange(o4, o5)[16] == c[16]);
    }
    assert(s.subrange(o4 + 3, o4 + 14) =~= k3) by {
        assert forall|i: int| 0 <= i < 11 implies s.subrange(o4 + 3, o4 + 14)[i] == k3[i] by {
            assert(s.subrange(o4, o5)[3 + i] == c[3 + i]);
        }
    }
    assert(s[o6] == '"' && s[o6 + 1] == '}') by {
        assert(s.subrange(o6, o6 + 2)[0] == d[0]);
        assert(s.subrange(o6, o6 + 2)[1] == d[1]);
    }
    lemma_member_at(s, o4 + 2, k3, session_dir, o6 + 1);
    lemma_member_at(s, o2 + 2, k2, session, o4 + 1);
    lemma_member_at(s, 1, k1, text, o2 + 1);
    let m = seq![(k1, JsonV::Str(text)), (k2, JsonV::Str(session)), (k3, JsonV::Str(session_dir))];
    assert(seq![(k1, JsonV::Str(text))] + (seq![(k2, JsonV::Str(session))] + seq![(k3, JsonV::Str(session_dir))]) =~= m);
    assert(crate::json::ws_len(s, 0) == 0);
    assert(crate::json::ws_len(s, 1) == 0);
}

/// Whether an enqueue was taken: a `200` or `202` in the status line.
pub fn enqueue_accepted(status_line: &str) -> (r: bool)
    ensures
        r == (occurs_in(status_line@, " 200 "@) || occurs_in(status_line@, " 202 "@)),
{
    contains_text(status_line, " 200 ") || contains_text(status_line, " 202 ")
}

/// The body that clears one session (the hash is written as it is).
pub open spec fn clear_body_text(session: Seq<char>) -> Seq<char> {
    "{\"session\":\""@ + session + "\"}"@
}

/// The request that clears the pending speech of one session.
pub fn clear_request(token: &str, session: &str) -> (r: String)
    ensures
        r@ == request_text("/clear"@, token@, clear_body_text(session@)),
{
    let mut body = String::from_str("{\"session\":\"");
    body.append(session);
    body.append("\"}");
    build_http_request("/clear", token, body.as_str())
}

/// The request text that clears every session: no body, no content type.
pub open spec fn clear_all_request_text(token: Seq<char>) -> Seq<char> {
    "POST /clear-all HTTP/1.1\r\nHost: 127.0.0.1:3000\r\nAuthorization: Bearer "@ + token
        + "\r\nContent-Length: 0\r\nConnection: close\r\n\r\n"@
}

/// The request that clears the pending speech of every session.
pub fn clear_all_request(token: &str) -> (r: String)
    ensures
        r@ == clear_all_request_text(token@),
{
    let mut r = String::from_str("POST /clear-all HTTP/1.1\r\nHost: 127.0.0.1:3000\r\nAuthorization: Bearer ");
    r.append(token);
    r.append("\r\nContent-Length: 0\r\nConnection: close\r\n\r\n");
    r
}

/// Whether a clear was done: a `204` in the response's status line.
pub fn clear_succeeded(response: &str) -> (r: bool)
    ensures
        r == occurs_in(first_line(response@), " 204 "@),
{
    contains_text(http_status_line(response), " 204 ")
}


// ---------------------------------------------------------------------------
// The `KEY=VALUE` token file.
// ---------------------------------------------------------------------------

proof fn lemma_index_of_is(s: Seq<char>, c: char, k: int)
    requires
        0 <= k <= s.len(),
        forall|j: int| 0 <= j < k ==> s[j] != c,
        k == s.len() || s[k] == c,
    ensures
        index_of(s, c) == k,
{
    lemma_index_of(s, c);
    if index_of(s, c) < k {
        assert(s[index_of(s, c)] == c);
    }
    if index_of(s, c) > k {
        assert(s[k] != c);
    }
}

/// The first index of `c` in `cs[from..to]`, counted from `from` (`to - from` if none).
fn find_in(cs: &Vec<char>, from: usize, to: usize, c: char) -> (r: usize)
    requires
        from <= to <= cs@.len(),
    ensures
        from <= r <= to,
        r - from == index_of(cs@.subrange(from as int, to as int), c),
{
    let mut i = from;
    while i < to && cs[i] != c
        invariant
            from <= i <= to <= cs@.len(),
            forall|j: int| from <= j < i ==> cs@[j] != c,
        decreases to - i,
    {
        i = i + 1;
    }
    proof {
        let sub = cs@.subrange(from as int, to as int);
        assert forall|j: int| 0 <= j < i - from implies sub[j] != c by {
            assert(sub[j] == cs@[from + j]);
        }
        lemma_index_of_is(sub, c, i - from);
    }
    i
}

/// What the file `content` gives for `key`: lines are read in order; the first line
/// without `=` ends the search with nothing; otherwise the first line whose trimmed part
/// before the `=` is `key` gives its trimmed part after the `=`.
pub open spec fn env_lookup(content: Seq<char>, key: Seq<char>) -> Option<Seq<char>>
    decreases content.len(),
{
    let k = index_of(content, '\n');
    let line = trim(content.take(k));
    let e = index_of(line, '=');
    if e >= line.len() {
        None
    } else if trim(line.take(e)) == key {
        Some(trim(line.skip(e + 1)))
    } else if k < content.len() {
        proof {
            lemma_index_of(content, '\n');
        }
        env_lookup(content.skip(k + 1), key)
    } else {
        None
    }
}

/// The value of `key` in the text of a `KEY=VALUE` file (such as `docker/.env`).
pub fn read_env_var(content: &str, key: &str) -> (r: Option<String>)
    ensures
        match env_lookup(content@, key@) {
            Some(v) => r matches Some(x) && x@ == v,
            None => r is None,
        },
{
    let cs = chars_of(content);
    let kc = chars_of(key);
    let n = cs.len();
    let mut pos: usize = 0;
    assert(cs@.skip(0) =~= cs@);
    loop
        invariant
            cs@ == content@,
            kc@ == key@,
            n == cs@.len(),
            pos <= n,
            env_lookup(content@, key@) == env_lookup(cs@.skip(pos as int), key@),
        decreases n - pos,
    {
        let ghost rest = cs@.skip(pos as int);
        let k = find_in(&cs, pos, n, '\n');
        assert(cs@.subrange(pos as int, n as int) =~= rest);
        assert(rest.take(k - pos) =~= cs@.subrange(pos as int, k as int));
        let (lo, hi) = trim_bounds(&cs, pos, k);
        let ghost line = cs@.subrange(lo as int, hi as int);
        let e = find_in(&cs, lo, hi, '=');
        if e >= hi {
            return None;
        }
        assert(line.take(e - lo) =~= cs@.subrange(lo as int, e as int));
        assert(line.skip(e - lo + 1) =~= cs@.subrange(e + 1, hi as int));
        let (klo, khi) = trim_bounds(&cs, lo, e);
        // compare the trimmed key part with `key`
        let mut same = khi - klo == kc.len();
        if same {
            let mut j: usize = 0;
            while j < kc.len()
                invariant
                    khi - klo == kc@.len(),
                    klo <= khi <= cs@.len(),
                    j <= kc@.len(),
                    same <==> forall|m: int| 0 <= m < j ==> cs@[klo + m] == kc@[m],
                decreases kc@.len() - j,
            {
                if cs[klo + j] != kc[j] {
                    same = false;
                }
                j = j + 1;
            }
        }
        let ghost kpart = cs@.subrange(klo as int, khi as int);
        assert(same <==> kpart == key@) by {
            if same {
                assert(kpart =~= kc@);
            } else if kpart == key@ {
                if khi - klo == kc@.len() {
                    let m = choose|m: int| 0 <= m < kc@.len() && cs@[klo + m] != kc@[m];
                    assert(kpart[m] == cs@[klo + m]);
                }
            }
        }
        if same {
            let (vlo, vhi) = trim_bounds(&cs, e + 1, hi);
            return Some(string_from_chars(cs.as_slice(), vlo, vhi));
        }
        if k >= n {
            return None;
        }
        assert(rest.skip(k - pos + 1) =~= cs@.skip(k + 1));
        pos = k + 1;
    }
}

} // verus!

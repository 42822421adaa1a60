//! The shared Redis protocol between the ingress service and the workers: key names,
//! the checks on an enqueue request, and the commands each endpoint sends.

use vstd::prelude::*;
use crate::session::{file_name_of, is_b62_char, law_base62_roundtrip, murmur3, session_dir_of, session_hash_of};
use crate::text::{chars_of, dec_signed, dec_zero_padded, push_char, push_signed, push_zero_padded, trim, trim_bounds};

verus! {

/// Counter that hands out job ids.
pub const NEXT_ID_KEY: &'static str = "llm-response-tts:next_id";

/// The work queue shared by every session.
pub const WORK_QUEUE_KEY: &'static str = "llm-response-tts:work_queue";

/// The set of every session that ever enqueued something.
pub const SESSIONS_KEY: &'static str = "llm-response-tts:sessions";

pub open spec fn pending_prefix() -> Seq<char> {
    "llm-response-tts:pending_ids:"@
}

pub open spec fn epoch_prefix() -> Seq<char> {
    "llm-response-tts:epoch:"@
}

pub open spec fn status_prefix() -> Seq<char> {
    "llm-response-tts:status:"@
}

/// The list of a session's ids, in the order they must play.
pub fn pending_ids_key(session: &str) -> (r: String)
    ensures
        r@ == pending_prefix() + session@,
{
    let mut r = String::from_str("llm-response-tts:pending_ids:");
    r.append(session);
    r
}

/// A session's epoch: bumped on every clear, stamped on every job at enqueue time.
pub fn epoch_key(session: &str) -> (r: String)
    ensures
        r@ == epoch_prefix() + session@,
{
    let mut r = String::from_str("llm-response-tts:epoch:");
    r.append(session);
    r
}

/// Marks a job's audio as written.
pub fn status_key(id: i64) -> (r: String)
    ensures
        r@ == status_prefix() + dec_signed(id as int),
{
    let mut r = String::from_str("llm-response-tts:status:");
    push_signed(&mut r, id);
    r
}

/// The audio file of a job: its id zero-padded to ten digits, then `.wav`.
pub fn wav_filename(id: i64) -> (r: String)
    ensures
        r@ == dec_zero_padded(id as int, 10) + ".wav"@,
{
    let mut r = String::new();
    push_zero_padded(&mut r, id, 10);
    r.append(".wav");
    r
}

/// The name under which a job's audio is written before it is renamed into place.
pub fn partial_wav_filename(id: i64) -> (r: String)
    ensures
        r@ == dec_zero_padded(id as int, 10) + ".wav.tmp"@,
{
    let mut r = String::new();
    push_zero_padded(&mut r, id, 10);
    r.append(".wav.tmp");
    r
}

// ---------------------------------------------------------------------------
// Enqueue requests.
// ---------------------------------------------------------------------------

/// A session directory a client may name for `session`: one path component (not empty,
/// no `/` or `\`, not `.` or `..`) that is the session hash itself or starts with it and `-`.
pub open spec fn session_dir_ok(session: Seq<char>, dir: Seq<char>) -> bool {
    &&& dir.len() > 0
    &&& !dir.contains('/')
    &&& !dir.contains('\\')
    &&& dir != seq!['.']
    &&& dir != seq!['.', '.']
    &&& (dir == session || (dir.len() > session.len() && dir.take(session.len() + 1int) == session.push('-')))
}

/// Whether `session_dir` may be used as the output directory name of `session`.
pub fn valid_session_dir(session: &str, session_dir: &str) -> (r: bool)
    ensures
        r == session_dir_ok(session@, session_dir@),
{
    let s = chars_of(session);
    let d = chars_of(session_dir);
    let n = d.len();
    if n == 0 {
        return false;
    }
    let mut i: usize = 0;
    while i < n
        invariant
            d@ == session_dir@,
            n == d@.len(),
            i <= n,
            forall|j: int| 0 <= j < i ==> d@[j] != '/' && d@[j] != '\\',
        decreases n - i,
    {
        if d[i] == '/' || d[i] == '\\' {
            assert(d@.contains(d@[i as int]));
            return false;
        }
        i = i + 1;
    }
    assert(!d@.contains('/') && !d@.contains('\\'));
    if n == 1 && d[0] == '.' {
        assert(d@ =~= seq!['.']);
        return false;
    }
    if n == 2 && d[0] == '.' && d[1] == '.' {
        assert(d@ =~= seq!['.', '.']);
        return false;
    }
    assert(d@ != seq!['.']) by {
        if d@ =~= seq!['.'] {
            assert(d@[0] == '.');
        }
    }
    assert(d@ != seq!['.', '.']) by {
        if d@ =~= seq!['.', '.'] {
            assert(d@[0] == '.' && d@[1] == '.');
        }
    }
    let m = s.len();
    if m > n {
        assert(d@ != s@);
        return false;
    }
    let mut k: usize = 0;
    while k < m
        invariant
            d@ == session_dir@,
            s@ == session@,
            m == s@.len(),
            n == d@.len(),
            m <= n,
            k <= m,
            forall|j: int| 0 <= j < k ==> d@[j] == s@[j],
        decreases m - k,
    {
        if d[k] != s[k] {
            assert(d@ != s@);
            assert(!(d@.len() > m && d@.take(m + 1int) == s@.push('-'))) by {
                if d@.len() > m && d@.take(m + 1int) == s@.push('-') {
                    assert(d@.take(m + 1int)[k as int] == d@[k as int]);
                    assert(s@.push('-')[k as int] == s@[k as int]);
                }
            }
            return false;
        }
        k = k + 1;
    }
    if m == n {
        assert(d@ =~= s@);
        return true;
    }
    if d[m] == '-' {
        assert(d@.take(m + 1int) =~= s@.push('-'));
        true
    } else {
        assert(d@ != s@);
        assert(d@.take(m + 1int) != s@.push('-')) by {
            if d@.take(m + 1int) =~= s@.push('-') {
                assert(d@.take(m + 1int)[m as int] == d@[m as int]);
            }
        }
        false
    }
}

/// Whether an enqueue request is accepted: the text must hold something other than
/// whitespace, and the session directory must belong to the session.
pub open spec fn enqueue_ok(text: Seq<char>, session: Seq<char>, session_dir: Seq<char>) -> bool {
    trim(text).len() > 0 && session_dir_ok(session, session_dir)
}

/// Checks an enqueue request; `false` is answered with `400 Bad Request`.
pub fn accept_enqueue(text: &str, session: &str, session_dir: &str) -> (r: bool)
    ensures
        r == enqueue_ok(text@, session@, session_dir@),
{
    let t = chars_of(text);
    let (lo, hi) = trim_bounds(&t, 0, t.len());
    assert(t@.subrange(0, t@.len() as int) =~= t@);
    lo < hi && valid_session_dir(session, session_dir)
}

/// `dir` joined under `base` as `Path::join` does it: replacing `base` when `dir` is
/// absolute, else after a `/` unless `base` is empty or already ends with one.
pub open spec fn path_joined(base: Seq<char>, dir: Seq<char>) -> Seq<char> {
    if dir.len() > 0 && dir[0] == '/' {
        dir
    } else if base.len() > 0 && base.last() != '/' {
        base + seq!['/'] + dir
    } else {
        base + dir
    }
}

/// The directory a job's audio is written to: the session directory under the sound
/// output base.
pub fn job_output_dir(base: &str, session_dir: &str) -> (r: String)
    ensures
        r@ == path_joined(base@, session_dir@),
{
    let b = chars_of(base);
    let d = chars_of(session_dir);
    if d.len() > 0 && d[0] == '/' {
        return String::from_str(session_dir);
    }
    let mut r = String::from_str(base);
    if b.len() > 0 && b[b.len() - 1] != '/' {
        push_char(&mut r, '/');
    }
    r.append(session_dir);
    r
}

/// The shared default of the sound output base, on the host and in the worker's container.
pub open spec fn default_output_base() -> Seq<char> {
    "/tmp/llm-response-tts/output"@
}

/// The sound output base: the configured directory, else the shared default.
pub fn sound_output_base(configured: Option<&str>) -> (r: String)
    ensures
        r@ == match configured {
            Some(c) => c@,
            None => default_output_base(),
        },
{
    match configured {
        Some(c) => String::from_str(c),
        None => String::from_str("/tmp/llm-response-tts/output"),
    }
}

// ---------------------------------------------------------------------------
// Commands sent to Redis.
// ---------------------------------------------------------------------------

/// One Redis command of a pipeline.
pub enum RedisOp {
    /// `LPUSH key value`
    Lpush { key: String, value: String },
    /// `RPUSH key id`
    Rpush { key: String, id: i64 },
    /// `SADD key member`
    Sadd { key: String, member: String },
    /// `INCR key`
    Incr { key: String },
    /// `DEL key`
    Del { key: String },
}

/// The mathematical value of a [`RedisOp`].
pub enum RedisOpV {
    Lpush(Seq<char>, Seq<char>),
    Rpush(Seq<char>, i64),
    Sadd(Seq<char>, Seq<char>),
    Incr(Seq<char>),
    Del(Seq<char>),
}

impl View for RedisOp {
    type V = RedisOpV;

    open spec fn view(&self) -> RedisOpV {
        match self {
            RedisOp::Lpush { key, value } => RedisOpV::Lpush(key@, value@),
            RedisOp::Rpush { key, id } => RedisOpV::Rpush(key@, *id),
            RedisOp::Sadd { key, member } => RedisOpV::Sadd(key@, member@),
            RedisOp::Incr { key } => RedisOpV::Incr(key@),
            RedisOp::Del { key } => RedisOpV::Del(key@),
        }
    }
}

/// The view of a list of commands.
pub open spec fn ops_view(ops: Seq<RedisOp>) -> Seq<RedisOpV> {
    ops.map_values(|o: RedisOp| o@)
}

/// What one enqueue sends, atomically: the job onto the shared work queue, its id onto
/// the session's ordering list, and the session into the set of known sessions.
pub open spec fn enqueue_plan(id: i64, payload: Seq<char>, session: Seq<char>) -> Seq<RedisOpV> {
    seq![
        RedisOpV::Lpush(WORK_QUEUE_KEY@, payload),
        RedisOpV::Rpush(pending_prefix() + session, id),
        RedisOpV::Sadd(SESSIONS_KEY@, session),
    ]
}

/// The commands of one enqueue.
pub fn enqueue_ops(id: i64, payload: &str, session: &str) -> (r: Vec<RedisOp>)
    ensures
        ops_view(r@) == enqueue_plan(id, payload@, session@),
{
    let mut r: Vec<RedisOp> = Vec::new();
    r.push(RedisOp::Lpush { key: String::from_str(WORK_QUEUE_KEY), value: String::from_str(payload) });
    r.push(RedisOp::Rpush { key: pending_ids_key(session), id });
    r.push(RedisOp::Sadd { key: String::from_str(SESSIONS_KEY), member: String::from_str(session) });
    assert(ops_view(r@) =~= enqueue_plan(id, payload@, session@));
    r
}

/// What clearing one session sends, atomically: bump its epoch (so jobs already queued
/// are dropped when a worker gets to them) and drop its ordering list.
pub open spec fn clear_plan(session: Seq<char>) -> Seq<RedisOpV> {
    seq![RedisOpV::Incr(epoch_prefix() + session), RedisOpV::Del(pending_prefix() + session)]
}

/// The commands that clear one session.
pub fn clear_ops(session: &str) -> (r: Vec<RedisOp>)
    ensures
        ops_view(r@) == clear_plan(session@),
{
    let mut r: Vec<RedisOp> = Vec::new();
    r.push(RedisOp::Incr { key: epoch_key(session) });
    r.push(RedisOp::Del { key: pending_ids_key(session) });
    assert(ops_view(r@) =~= clear_plan(session@));
    r
}

/// What clearing every session sends: drop the shared work queue, then clear each
/// known session.
pub open spec fn clear_all_plan(sessions: Seq<Seq<char>>) -> Seq<RedisOpV>
    decreases sessions.len(),
{
    if sessions.len() == 0 {
        seq![RedisOpV::Del(WORK_QUEUE_KEY@)]
    } else {
        clear_all_plan(sessions.drop_last()) + clear_plan(sessions.last())
    }
}

/// The commands that clear every known session and the work queue.
pub fn clear_all_ops(sessions: &Vec<String>) -> (r: Vec<RedisOp>)
    ensures
        ops_view(r@) == clear_all_plan(sessions@.map_values(|s: String| s@)),
{
    let ghost sv = sessions@.map_values(|s: String| s@);
    let mut r: Vec<RedisOp> = Vec::new();
    r.push(RedisOp::Del { key: String::from_str(WORK_QUEUE_KEY) });
    let mut i: usize = 0;
    assert(ops_view(r@) =~= clear_all_plan(sv.take(0)));
    while i < sessions.len()
        invariant
            sv == sessions@.map_values(|s: String| s@),
            i <= sessions@.len(),
            ops_view(r@) == clear_all_plan(sv.take(i as int)),
        decreases sessions@.len() - i,
    {
        let ghost before = r@;
        r.push(RedisOp::Incr { key: epoch_key(sessions[i].as_str()) });
        r.push(RedisOp::Del { key: pending_ids_key(sessions[i].as_str()) });
        assert(sv.take(i + 1).drop_last() =~= sv.take(i as int));
        assert(ops_view(r@) =~= ops_view(before) + clear_plan(sv[i as int]));
        i = i + 1;
    }
    assert(sv.take(sessions@.len() as int) =~= sv);
    r
}

// ---------------------------------------------------------------------------
// Replies and the worker's check.
// ---------------------------------------------------------------------------

/// What `/next` answers for the id at the head of a session's list.
pub struct NextReply {
    pub id: i64,
    pub filename: String,
    pub status: String,
}

/// The reply for the next id due to play: its audio file and whether it is written yet.
pub fn next_reply(id: i64, complete: bool) -> (r: NextReply)
    ensures
        r.id == id,
        r.filename@ == dec_zero_padded(id as int, 10) + ".wav"@,
        r.status@ == (if complete { "COMPLETE"@ } else { "PROCESSING"@ }),
{
    NextReply {
        id,
        filename: wav_filename(id),
        status: if complete { String::from_str("COMPLETE") } else { String::from_str("PROCESSING") },
    }
}

/// Whether a worker keeps a job it has synthesized: only if the session's epoch (no
/// value meaning 0) is still the one stamped on the job, i.e. no clear came in between.
pub fn job_still_current(job_epoch: i64, current_epoch: Option<i64>) -> (r: bool)
    ensures
        r == (job_epoch == match current_epoch {
            Some(e) => e,
            None => 0,
        }),
{
    let current = match current_epoch {
        Some(e) => e,
        None => 0,
    };
    current == job_epoch
}


// ---------------------------------------------------------------------------
// Laws.
// ---------------------------------------------------------------------------

/// Law: sessions never share a key. Two different sessions have different ordering
/// lists and different epochs, and no ordering list is ever an epoch.
pub proof fn law_session_keys_apart(s1: Seq<char>, s2: Seq<char>)
    ensures
        s1 != s2 ==> pending_prefix() + s1 != pending_prefix() + s2,
        s1 != s2 ==> epoch_prefix() + s1 != epoch_prefix() + s2,
        pending_prefix() + s1 != epoch_prefix() + s2,
{
    reveal_strlit("llm-response-tts:pending_ids:");
    reveal_strlit("llm-response-tts:epoch:");
    let p = pending_prefix();
    let e = epoch_prefix();
    if s1 != s2 {
        if p + s1 == p + s2 {
            assert((p + s1).skip(p.len() as int) =~= s1);
            assert((p + s2).skip(p.len() as int) =~= s2);
        }
        if e + s1 == e + s2 {
            assert((e + s1).skip(e.len() as int) =~= s1);
            assert((e + s2).skip(e.len() as int) =~= s2);
        }
    }
    assert((p + s1)[17] == 'p');
    assert((e + s2)[17] == 'e');
}

/// Law: clearing every session first drops the shared work queue, then does for each
/// known session, in order, exactly what clearing that one session does.
pub proof fn law_clear_all_clears_each(sessions: Seq<Seq<char>>)
    ensures
        clear_all_plan(sessions).len() == 1 + 2 * sessions.len(),
        clear_all_plan(sessions)[0] == RedisOpV::Del(WORK_QUEUE_KEY@),
        forall|i: int|
            0 <= i < sessions.len() ==> clear_all_plan(sessions).subrange(1 + 2 * i, 3 + 2 * i)
                == clear_plan(#[trigger] sessions[i]),
    decreases sessions.len(),
{
    if sessions.len() > 0 {
        let init = sessions.drop_last();
        law_clear_all_clears_each(init);
        let whole = clear_all_plan(sessions);
        assert(whole == clear_all_plan(init) + clear_plan(sessions.last()));
        assert forall|i: int| 0 <= i < sessions.len() implies whole.subrange(1 + 2 * i, 3 + 2 * i)
            == clear_plan(#[trigger] sessions[i]) by {
            if i < init.len() {
                assert(init[i] == sessions[i]);
                assert(whole.subrange(1 + 2 * i, 3 + 2 * i) =~= clear_all_plan(init).subrange(
                    1 + 2 * i,
                    3 + 2 * i,
                ));
            } else {
                assert(whole.subrange(1 + 2 * i, 3 + 2 * i) =~= clear_plan(sessions.last()));
            }
        }
    }
}


/// Law: the session directory name a client derives from its working directory is always
/// accepted for the session hash it derives from the same directory, as long as the
/// directory's own name holds no slash or backslash.
pub proof fn law_derived_session_dir_accepted(cwd: Seq<char>)
    requires
        file_name_of(cwd) matches Some(n) ==> !n.contains('/') && !n.contains('\\'),
    ensures
        session_dir_ok(session_hash_of(cwd), session_dir_of(cwd)),
{
    let x = murmur3(vstd::utf8::encode_utf8(cwd), 0);
    law_base62_roundtrip(x, 6);
    let h = session_hash_of(cwd);
    let name = match file_name_of(cwd) {
        Some(n) => n,
        None => seq!['r', 'o', 'o', 't'],
    };
    let d = session_dir_of(cwd);
    assert(d == h + seq!['-'] + name);
    assert(h.len() == 6);
    assert(!d.contains('/')) by {
        if d.contains('/') {
            let k = choose|k: int| 0 <= k < d.len() && d[k] == '/';
            if k < 6 {
                assert(d[k] == h[k]);
                assert(is_b62_char(h[k]));
            } else if k > 6 {
                assert(d[k] == name[k - 7]);
                assert(name.contains('/'));
            }
        }
    }
    assert(!d.contains('\\')) by {
        if d.contains('\\') {
            let k = choose|k: int| 0 <= k < d.len() && d[k] == '\\';
            if k < 6 {
                assert(d[k] == h[k]);
                assert(is_b62_char(h[k]));
            } else if k > 6 {
                assert(d[k] == name[k - 7]);
                assert(name.contains('\\'));
            }
        }
    }
    assert(d.take(7) =~= h.push('-'));
}

/// Law: no session directory that the ingress accepts belongs to two sessions, as long as
/// neither session names a `-` (no session hash does: they are base62 digits).
pub proof fn law_session_dir_has_one_owner(s1: Seq<char>, s2: Seq<char>, dir: Seq<char>)
    requires
        !s1.contains('-'),
        !s2.contains('-'),
        session_dir_ok(s1, dir),
        session_dir_ok(s2, dir),
    ensures
        s1 == s2,
{
    if dir == s1 {
        if dir != s2 {
            assert(dir.take(s2.len() + 1int)[s2.len() as int] == '-');
            assert(s1.contains('-'));
        }
    } else if dir == s2 {
        assert(dir.take(s1.len() + 1int)[s1.len() as int] == '-');
        assert(s2.contains('-'));
    } else {
        if s1.len() < s2.len() {
            assert(dir.take(s1.len() + 1int)[s1.len() as int] == '-');
            assert(dir.take(s2.len() + 1int)[s1.len() as int] == s2[s1.len() as int]);
            assert(s2.contains('-'));
        } else if s2.len() < s1.len() {
            assert(dir.take(s2.len() + 1int)[s2.len() as int] == '-');
            assert(dir.take(s1.len() + 1int)[s2.len() as int] == s1[s2.len() as int]);
            assert(s1.contains('-'));
        } else {
            assert forall|i: int| 0 <= i < s1.len() implies s1[i] == s2[i] by {
                assert(dir.take(s1.len() + 1int)[i] == s1[i]);
                assert(dir.take(s2.len() + 1int)[i] == s2[i]);
            }
            assert(s1 =~= s2);
        }
    }
}

/// Law: an accepted session directory stays one level below the sound output base: the
/// job's output directory is the base, a `/`, and the session directory, which is a single
/// path component other than `.` and `..`.
pub proof fn law_output_dir_stays_under_base(base: Seq<char>, session: Seq<char>, dir: Seq<char>)
    requires
        base.len() > 0,
        base.last() != '/',
        session_dir_ok(session, dir),
    ensures
        path_joined(base, dir) == base + seq!['/'] + dir,
        !dir.contains('/'),
        dir != seq!['.'] && dir != seq!['.', '.'],
{
    if dir.len() > 0 && dir[0] == '/' {
        assert(dir.contains('/'));
    }
}

} // verus!

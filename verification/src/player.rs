//! The player's poll loop as a state machine: after each answer from the queue it decides
//! whether to wait, play the next file, skip an id that never became playable, or stop.

use vstd::prelude::*;
use crate::json::same_text;
use crate::text::{chars_of, trim, trim_bounds};
use crate::transform::is_ascii_digit;

verus! {

/// Seconds between two polls of the queue.
pub const POLL_INTERVAL_SECS: u64 = 2;

/// Seconds after which an id that is still not playable is skipped.
pub const MAX_WAIT_SECS: u64 = 45;

/// Seconds with nothing pending after which the player stops.
pub const IDLE_EXIT_SECS: u64 = 10;

/// What a poll of the queue gave.
#[derive(Clone, Copy, Debug, PartialEq, Eq, Structural)]
pub enum Poll {
    /// Nothing is pending for this session.
    Empty,
    /// The queue could not be asked, or its answer could not be read.
    Transient,
    /// The next id in order, and whether its file is complete and present.
    Job { id: i64, playable: bool },
}

/// What the player does after a poll.
#[derive(Clone, Copy, Debug, PartialEq, Eq, Structural)]
pub enum PlayerAction {
    /// Sleep for one poll interval, then poll again.
    Wait,
    /// Play the file of `id`, remove it, acknowledge `id`, and poll again at once.
    Play { id: i64 },
    /// Acknowledge `id` without playing it, and poll again at once.
    Skip { id: i64 },
}

/// How long the player has gone with nothing pending, and how long it has waited on an id
/// that is not yet playable, in seconds.
pub struct PlayerState {
    idle: u64,
    waited: u64,
}

/// The state and action that follow `poll` in the state `(idle, waited)`.
pub open spec fn next_step(idle: nat, waited: nat, poll: Poll) -> (nat, nat, PlayerAction) {
    match poll {
        Poll::Empty => ((idle + POLL_INTERVAL_SECS) as nat, 0, PlayerAction::Wait),
        Poll::Transient => (idle, waited, PlayerAction::Wait),
        Poll::Job { id, playable } => if playable {
            (0, 0, PlayerAction::Play { id })
        } else if waited + POLL_INTERVAL_SECS >= MAX_WAIT_SECS {
            (0, 0, PlayerAction::Skip { id })
        } else {
            (0, (waited + POLL_INTERVAL_SECS) as nat, PlayerAction::Wait)
        },
    }
}

impl PlayerState {
    /// Idle seconds.
    pub closed spec fn idle_spec(&self) -> nat {
        self.idle as nat
    }

    /// Seconds waited on an id that is not yet playable.
    pub closed spec fn waited_spec(&self) -> nat {
        self.waited as nat
    }

    /// The waiting clock is below the limit, and the idle clock within one interval of its
    /// own.
    pub open spec fn wf(&self) -> bool {
        &&& self.waited_spec() < MAX_WAIT_SECS
        &&& self.idle_spec() < IDLE_EXIT_SECS + POLL_INTERVAL_SECS
    }

    /// The state in which the player starts: nothing idle, nothing waited.
    pub fn new() -> (r: PlayerState)
        ensures
            r.wf(),
            r.idle_spec() == 0,
            r.waited_spec() == 0,
    {
        PlayerState { idle: 0, waited: 0 }
    }

    /// Idle seconds.
    pub fn idle_secs(&self) -> (r: u64)
        ensures
            r == self.idle_spec(),
    {
        self.idle
    }

    /// Seconds waited on an id that is not yet playable.
    pub fn waited_secs(&self) -> (r: u64)
        ensures
            r == self.waited_spec(),
    {
        self.waited
    }

    /// Whether the player polls again: it stops once it has been idle for `IDLE_EXIT_SECS`.
    pub fn keep_polling(&self) -> (r: bool)
        ensures
            r == (self.idle_spec() < IDLE_EXIT_SECS),
    {
        self.idle < IDLE_EXIT_SECS
    }

    /// Takes the answer of one poll and says what to do with it.
    pub fn step(&mut self, poll: Poll) -> (action: PlayerAction)
        requires
            old(self).wf(),
            old(self).idle_spec() < IDLE_EXIT_SECS,
        ensures
            final(self).wf(),
            (final(self).idle_spec(), final(self).waited_spec(), action) == next_step(
                old(self).idle_spec(),
                old(self).waited_spec(),
                poll,
            ),
    {
        match poll {
            Poll::Empty => {
                self.idle = self.idle + POLL_INTERVAL_SECS;
                self.waited = 0;
                PlayerAction::Wait
            },
            Poll::Transient => PlayerAction::Wait,
            Poll::Job { id, playable } => {
                self.idle = 0;
                if playable {
                    self.waited = 0;
                    PlayerAction::Play { id }
                } else if self.waited + POLL_INTERVAL_SECS >= MAX_WAIT_SECS {
                    self.waited = 0;
                    PlayerAction::Skip { id }
                } else {
                    self.waited = self.waited + POLL_INTERVAL_SECS;
                    PlayerAction::Wait
                }
            },
        }
    }
}

/// Whether the queue's answer for an id can be played: the id is complete and its file is
/// there.
pub fn job_playable(status: &str, file_exists: bool) -> (r: bool)
    ensures
        r == (status@ == "COMPLETE"@ && file_exists),
{
    file_exists && same_text(status, "COMPLETE")
}

/// The clocks after the polls `polls`, one step each, from `(idle, waited)`.
pub open spec fn run(idle: nat, waited: nat, polls: Seq<Poll>) -> (nat, nat)
    decreases polls.len(),
{
    if polls.len() == 0 {
        (idle, waited)
    } else {
        let (i, w, _) = next_step(idle, waited, polls[0]);
        run(i, w, polls.drop_first())
    }
}

/// `n` polls that find nothing pending.
pub open spec fn empties(n: nat) -> Seq<Poll> {
    Seq::new(n, |k: int| Poll::Empty)
}

/// `n` polls that find `id` next but not yet playable.
pub open spec fn not_ready(id: i64, n: nat) -> Seq<Poll> {
    Seq::new(n, |k: int| Poll::Job { id, playable: false })
}

proof fn lemma_run_empties(idle: nat, waited: nat, n: nat)
    requires
        n > 0,
    ensures
        run(idle, waited, empties(n)) == ((idle + n * POLL_INTERVAL_SECS) as nat, 0nat),
    decreases n,
{
    assert(n * POLL_INTERVAL_SECS == (n - 1) * POLL_INTERVAL_SECS + POLL_INTERVAL_SECS) by (nonlinear_arith);
    assert(empties(n)[0] == Poll::Empty);
    assert(empties(n).drop_first() =~= empties((n - 1) as nat));
    let i = (idle + POLL_INTERVAL_SECS) as nat;
    assert(run(idle, waited, empties(n)) == run(i, 0, empties((n - 1) as nat)));
    if n > 1 {
        lemma_run_empties((idle + POLL_INTERVAL_SECS) as nat, 0, (n - 1) as nat);
    } else {
        assert(run(i, 0, empties(0)) == (i, 0nat));
    }
}

/// Law: the player stops once `IDLE_EXIT_SECS / POLL_INTERVAL_SECS` polls in a row have found
/// nothing pending: from a fresh start, after `n` empty answers it polls again exactly when
/// `n` is below five.
pub proof fn law_stops_after_idle_polls(n: nat)
    ensures
        run(0, 0, empties(n)).0 == n * POLL_INTERVAL_SECS,
        (run(0, 0, empties(n)).0 < IDLE_EXIT_SECS) <==> n < 5,
{
    if n > 0 {
        lemma_run_empties(0, 0, n);
    } else {
        assert(run(0, 0, empties(0)) == (0nat, 0nat));
    }
}

proof fn lemma_run_not_ready(idle: nat, waited: nat, id: i64, n: nat)
    requires
        n > 0,
        waited + n * POLL_INTERVAL_SECS < MAX_WAIT_SECS,
    ensures
        run(idle, waited, not_ready(id, n)) == (0nat, (waited + n * POLL_INTERVAL_SECS) as nat),
    decreases n,
{
    assert(n * POLL_INTERVAL_SECS == (n - 1) * POLL_INTERVAL_SECS + POLL_INTERVAL_SECS) by (nonlinear_arith);
    assert(not_ready(id, n)[0] == Poll::Job { id, playable: false });
    assert(not_ready(id, n).drop_first() =~= not_ready(id, (n - 1) as nat));
    let w = (waited + POLL_INTERVAL_SECS) as nat;
    assert(run(idle, waited, not_ready(id, n)) == run(0, w, not_ready(id, (n - 1) as nat)));
    if n > 1 {
        lemma_run_not_ready(0, (waited + POLL_INTERVAL_SECS) as nat, id, (n - 1) as nat);
    } else {
        assert(run(0, w, not_ready(id, 0)) == (0nat, w));
    }
}

/// Law: no id is waited on for `MAX_WAIT_SECS`. From a fresh wait, the first 22 answers that
/// find `id` not yet playable make the player wait, and the 23rd makes it skip `id`.
pub proof fn law_skips_after_max_wait(idle: nat, id: i64, n: nat)
    requires
        n < 23,
    ensures
        next_step(run(idle, 0, not_ready(id, n)).0, run(idle, 0, not_ready(id, n)).1, Poll::Job {
            id,
            playable: false,
        }).2 == (if n == 22 {
            PlayerAction::Skip { id }
        } else {
            PlayerAction::Wait
        }),
{
    if n > 0 {
        lemma_run_not_ready(idle, 0, id, n);
    } else {
        assert(not_ready(id, 0).len() == 0);
    }
}

// ---------------------------------------------------------------------------
// The lock that keeps one player per session: a directory holding the holder's pid.
// ---------------------------------------------------------------------------

/// The value of the decimal digits `d`.
pub open spec fn digits_value(d: Seq<char>) -> int
    decreases d.len(),
{
    if d.len() == 0 {
        0
    } else {
        digits_value(d.drop_last()) * 10 + (d.last() as int - '0' as int)
    }
}

/// Every character of `d` is an ASCII digit.
pub open spec fn all_digits(d: Seq<char>) -> bool {
    forall|i: int| 0 <= i < d.len() ==> is_ascii_digit(#[trigger] d[i])
}

/// What `str::parse::<i32>` reads from `t`: an optional `+` or `-` and at least one digit,
/// whose value fits in an `i32`; nothing otherwise.
pub open spec fn i32_value(t: Seq<char>) -> Option<int> {
    let signed = t.len() > 0 && (t[0] == '-' || t[0] == '+');
    let d = if signed {
        t.drop_first()
    } else {
        t
    };
    let v = if signed && t[0] == '-' {
        -digits_value(d)
    } else {
        digits_value(d)
    };
    if d.len() > 0 && all_digits(d) && i32::MIN <= v <= i32::MAX {
        Some(v)
    } else {
        None
    }
}

proof fn lemma_digits_value_grows(d: Seq<char>, k: int)
    requires
        all_digits(d),
        0 <= k <= d.len(),
    ensures
        0 <= digits_value(d.take(k)) <= digits_value(d),
    decreases d.len(),
{
    if k < d.len() {
        let p = d.drop_last();
        assert(p.take(k) =~= d.take(k));
        assert(is_ascii_digit(d[d.len() - 1]));
        lemma_digits_value_grows(p, k);
        lemma_digits_value_grows(p, p.len() as int);
        assert(p.take(p.len() as int) =~= p);
    } else {
        assert(d.take(k) =~= d);
        if d.len() > 0 {
            lemma_digits_value_grows(d.drop_last(), d.len() - 1);
            assert(d.drop_last().take(d.len() - 1) =~= d.drop_last());
            assert(is_ascii_digit(d[d.len() - 1]));
        }
    }
}

/// The value of the digits `cs[start..b]`, where they are all digits and their value is at
/// most 2^31.
fn digits_magnitude(cs: &Vec<char>, start: usize, b: usize) -> (r: Option<i64>)
    requires
        start <= b <= cs@.len(),
    ensures
        match r {
            Some(v) => all_digits(cs@.subrange(start as int, b as int)) && v == digits_value(
                cs@.subrange(start as int, b as int),
            ) && 0 <= v <= 2147483648,
            None => !all_digits(cs@.subrange(start as int, b as int)) || digits_value(
                cs@.subrange(start as int, b as int),
            ) > 2147483648,
        },
{
    let ghost d = cs@.subrange(start as int, b as int);
    let mut value: i64 = 0;
    let mut i = start;
    while i < b
        invariant
            start <= i <= b <= cs@.len(),
            d == cs@.subrange(start as int, b as int),
            forall|j: int| start <= j < i ==> is_ascii_digit(#[trigger] cs@[j]),
            value == digits_value(d.take(i - start)),
            0 <= value <= 2147483648,
        decreases b - i,
    {
        let c = cs[i];
        if !('0' <= c && c <= '9') {
            proof {
                assert(!is_ascii_digit(d[i - start]));
            }
            return None;
        }
        let digit = (c as u32 - '0' as u32) as i64;
        assert(d.take(i - start + 1).drop_last() =~= d.take(i - start));
        value = value * 10 + digit;
        if value > 2147483648 {
            proof {
                if all_digits(d) {
                    lemma_digits_value_grows(d, i - start + 1);
                }
            }
            return None;
        }
        i = i + 1;
    }
    proof {
        assert(d.take(d.len() as int) =~= d);
        assert forall|j: int| 0 <= j < d.len() implies is_ascii_digit(#[trigger] d[j]) by {
            assert(d[j] == cs@[start + j]);
        }
    }
    Some(value)
}

/// The process id that a lock's pid file records: its text, trimmed, read as an `i32`.
/// Nothing where the text is not such a number.
pub fn parse_pid(text: &str) -> (r: Option<i32>)
    ensures
        match r {
            Some(p) => i32_value(trim(text@)) == Some(p as int),
            None => i32_value(trim(text@)) is None,
        },
{
    let cs = chars_of(text);
    let (a, b) = trim_bounds(&cs, 0, cs.len());
    let ghost t = cs@.subrange(a as int, b as int);
    assert(cs@.subrange(0, cs@.len() as int) =~= cs@);
    let mut start = a;
    let mut negative = false;
    if a < b && (cs[a] == '-' || cs[a] == '+') {
        negative = cs[a] == '-';
        start = a + 1;
    }
    let ghost d = cs@.subrange(start as int, b as int);
    assert(d =~= (if t.len() > 0 && (t[0] == '-' || t[0] == '+') { t.drop_first() } else { t }));
    assert(negative == (t.len() > 0 && t[0] == '-'));
    assert(t == trim(text@));
    if start == b {
        return None;
    }
    match digits_magnitude(&cs, start, b) {
        None => None,
        Some(value) => {
            if negative {
                Some((0 - value) as i32)
            } else if value <= 2147483647 {
                Some(value as i32)
            } else {
                None
            }
        },
    }
}

/// The name of a session's lock directory.
pub fn lock_dir_name(session_dir: &str) -> (r: String)
    ensures
        r@ == session_dir@ + ".lock"@,
{
    let mut r = String::from_str(session_dir);
    r.append(".lock");
    r
}

/// Whether a lock that could not be taken may be reclaimed: unless its pid file names a
/// process that is still running, the holder is gone and the lock is stale.
pub fn lock_is_stale(holder: Option<i32>, holder_alive: bool) -> (r: bool)
    ensures
        r == !(holder is Some && holder_alive),
{
    match holder {
        Some(_) => !holder_alive,
        None => true,
    }
}

} // verus!

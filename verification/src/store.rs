//! What the queue's commands do to the Redis state, and the isolation of sessions that
//! follows: enqueueing for one session, or clearing it, leaves every other session's
//! ordering list and epoch as they were.

use vstd::prelude::*;
use crate::queue::{
    clear_all_plan, clear_plan, enqueue_plan, epoch_prefix, law_session_keys_apart, pending_prefix, RedisOpV,
    WORK_QUEUE_KEY,
};
use crate::text::dec_signed;

verus! {

/// The part of the Redis state that the pipeline uses: lists, counters and sets, by key.
pub struct Store {
    pub lists: Map<Seq<char>, Seq<Seq<char>>>,
    pub counters: Map<Seq<char>, int>,
    pub sets: Map<Seq<char>, Set<Seq<char>>>,
}

/// The list at `key`; a missing key reads as the empty list.
pub open spec fn list_at(st: Store, key: Seq<char>) -> Seq<Seq<char>> {
    if st.lists.contains_key(key) {
        st.lists[key]
    } else {
        seq![]
    }
}

/// The counter at `key`; a missing key reads as 0.
pub open spec fn counter_at(st: Store, key: Seq<char>) -> int {
    if st.counters.contains_key(key) {
        st.counters[key]
    } else {
        0
    }
}

/// The set at `key`; a missing key reads as the empty set.
pub open spec fn set_at(st: Store, key: Seq<char>) -> Set<Seq<char>> {
    if st.sets.contains_key(key) {
        st.sets[key]
    } else {
        Set::empty()
    }
}

/// What a `GET` of the counter at `key` answers: nothing for a missing key.
pub open spec fn counter_read(st: Store, key: Seq<char>) -> Option<int> {
    if st.counters.contains_key(key) {
        Some(st.counters[key])
    } else {
        None
    }
}

/// The state after one command.
pub open spec fn apply_op(st: Store, op: RedisOpV) -> Store {
    match op {
        RedisOpV::Lpush(k, v) => Store { lists: st.lists.insert(k, seq![v] + list_at(st, k)), ..st },
        RedisOpV::Rpush(k, id) => Store { lists: st.lists.insert(k, list_at(st, k).push(dec_signed(id as int))), ..st },
        RedisOpV::Sadd(k, m) => Store { sets: st.sets.insert(k, set_at(st, k).insert(m)), ..st },
        RedisOpV::Incr(k) => Store { counters: st.counters.insert(k, counter_at(st, k) + 1), ..st },
        RedisOpV::Del(k) => Store {
            lists: st.lists.remove(k),
            counters: st.counters.remove(k),
            sets: st.sets.remove(k),
        },
    }
}

/// The state after the commands `ops`, in order.
pub open spec fn apply_ops(st: Store, ops: Seq<RedisOpV>) -> Store
    decreases ops.len(),
{
    if ops.len() == 0 {
        st
    } else {
        apply_ops(apply_op(st, ops[0]), ops.drop_first())
    }
}

/// The key that `op` writes.
pub open spec fn op_key(op: RedisOpV) -> Seq<char> {
    match op {
        RedisOpV::Lpush(k, _) => k,
        RedisOpV::Rpush(k, _) => k,
        RedisOpV::Sadd(k, _) => k,
        RedisOpV::Incr(k) => k,
        RedisOpV::Del(k) => k,
    }
}

/// A command leaves every key but its own as it was.
proof fn lemma_op_elsewhere(st: Store, op: RedisOpV, key: Seq<char>)
    requires
        op_key(op) != key,
    ensures
        list_at(apply_op(st, op), key) == list_at(st, key),
        counter_at(apply_op(st, op), key) == counter_at(st, key),
        counter_read(apply_op(st, op), key) == counter_read(st, key),
        set_at(apply_op(st, op), key) == set_at(st, key),
{
}

/// Commands that all write other keys leave `key` as it was.
proof fn lemma_ops_elsewhere(st: Store, ops: Seq<RedisOpV>, key: Seq<char>)
    requires
        forall|i: int| 0 <= i < ops.len() ==> op_key(#[trigger] ops[i]) != key,
    ensures
        list_at(apply_ops(st, ops), key) == list_at(st, key),
        counter_at(apply_ops(st, ops), key) == counter_at(st, key),
        counter_read(apply_ops(st, ops), key) == counter_read(st, key),
        set_at(apply_ops(st, ops), key) == set_at(st, key),
    decreases ops.len(),
{
    if ops.len() > 0 {
        lemma_op_elsewhere(st, ops[0], key);
        let rest = ops.drop_first();
        assert forall|i: int| 0 <= i < rest.len() implies op_key(#[trigger] rest[i]) != key by {
            assert(rest[i] == ops[i + 1]);
        }
        lemma_ops_elsewhere(apply_op(st, ops[0]), rest, key);
    }
}

/// Running `a` then `b` is running `a + b`.
proof fn lemma_apply_concat(st: Store, a: Seq<RedisOpV>, b: Seq<RedisOpV>)
    ensures
        apply_ops(st, a + b) == apply_ops(apply_ops(st, a), b),
    decreases a.len(),
{
    if a.len() > 0 {
        assert((a + b).drop_first() =~= a.drop_first() + b);
        assert((a + b)[0] == a[0]);
        lemma_apply_concat(apply_op(st, a[0]), a.drop_first(), b);
    } else {
        assert(a + b =~= b);
    }
}

/// The ordering list, the epoch and the work queue never share a key.
proof fn lemma_keys_apart(s: Seq<char>, o: Seq<char>)
    ensures
        s != o ==> pending_prefix() + s != pending_prefix() + o,
        s != o ==> epoch_prefix() + s != epoch_prefix() + o,
        pending_prefix() + s != epoch_prefix() + o,
        pending_prefix() + s != WORK_QUEUE_KEY@,
        epoch_prefix() + s != WORK_QUEUE_KEY@,
{
    law_session_keys_apart(s, o);
    reveal_strlit("llm-response-tts:pending_ids:");
    reveal_strlit("llm-response-tts:epoch:");
    reveal_strlit("llm-response-tts:work_queue");
    assert((pending_prefix() + s)[17] == 'p');
    assert((epoch_prefix() + s)[17] == 'e');
    assert(WORK_QUEUE_KEY@[17] == 'w');
}

/// Law: an enqueue for `session` adds its id at the end of that session's ordering list
/// and its job at the front of the shared work queue, and leaves every other session's
/// ordering list and epoch as they were.
pub proof fn law_enqueue_isolated(st: Store, id: i64, payload: Seq<char>, session: Seq<char>, other: Seq<char>)
    requires
        other != session,
    ensures
        list_at(apply_ops(st, enqueue_plan(id, payload, session)), pending_prefix() + session)
            == list_at(st, pending_prefix() + session).push(dec_signed(id as int)),
        list_at(apply_ops(st, enqueue_plan(id, payload, session)), WORK_QUEUE_KEY@)
            == seq![payload] + list_at(st, WORK_QUEUE_KEY@),
        list_at(apply_ops(st, enqueue_plan(id, payload, session)), pending_prefix() + other)
            == list_at(st, pending_prefix() + other),
        counter_read(apply_ops(st, enqueue_plan(id, payload, session)), epoch_prefix() + other)
            == counter_read(st, epoch_prefix() + other),
        counter_read(apply_ops(st, enqueue_plan(id, payload, session)), epoch_prefix() + session)
            == counter_read(st, epoch_prefix() + session),
{
    lemma_keys_apart(session, other);
    lemma_keys_apart(other, session);
    lemma_keys_apart(session, session);
    lemma_keys_apart(other, other);
    reveal_strlit("llm-response-tts:sessions");
    reveal_strlit("llm-response-tts:work_queue");
    let plan = enqueue_plan(id, payload, session);
    let s1 = apply_op(st, plan[0]);
    let s2 = apply_op(s1, plan[1]);
    let s3 = apply_op(s2, plan[2]);
    assert(plan.drop_first().drop_first().drop_first() =~= Seq::<RedisOpV>::empty());
    assert(apply_ops(st, plan) == s3) by {
        assert(apply_ops(st, plan) == apply_ops(s1, plan.drop_first()));
        assert(plan.drop_first()[0] == plan[1]);
        assert(apply_ops(s1, plan.drop_first()) == apply_ops(s2, plan.drop_first().drop_first()));
        assert(plan.drop_first().drop_first()[0] == plan[2]);
        assert(apply_ops(s2, plan.drop_first().drop_first()) == apply_ops(
            s3,
            plan.drop_first().drop_first().drop_first(),
        ));
    }
    assert("llm-response-tts:sessions"@[17] == 's');
}

/// Law: clearing `session` empties its ordering list and bumps its epoch, so that a job
/// stamped with the epoch it had is dropped by the worker; every other session's ordering
/// list and epoch, and the shared work queue, stay as they were.
pub proof fn law_clear_isolated(st: Store, session: Seq<char>, other: Seq<char>, job_epoch: int)
    requires
        other != session,
    ensures
        list_at(apply_ops(st, clear_plan(session)), pending_prefix() + session) == Seq::<Seq<char>>::empty(),
        counter_at(apply_ops(st, clear_plan(session)), epoch_prefix() + session) == counter_at(
            st,
            epoch_prefix() + session,
        ) + 1,
        job_epoch == counter_at(st, epoch_prefix() + session) ==> job_epoch != counter_at(
            apply_ops(st, clear_plan(session)),
            epoch_prefix() + session,
        ),
        list_at(apply_ops(st, clear_plan(session)), pending_prefix() + other) == list_at(
            st,
            pending_prefix() + other,
        ),
        counter_read(apply_ops(st, clear_plan(session)), epoch_prefix() + other) == counter_read(
            st,
            epoch_prefix() + other,
        ),
        list_at(apply_ops(st, clear_plan(session)), WORK_QUEUE_KEY@) == list_at(st, WORK_QUEUE_KEY@),
{
    lemma_keys_apart(session, other);
    lemma_keys_apart(other, session);
    lemma_keys_apart(session, session);
    let plan = clear_plan(session);
    let s1 = apply_op(st, plan[0]);
    let s2 = apply_op(s1, plan[1]);
    assert(plan.drop_first().drop_first() =~= Seq::<RedisOpV>::empty());
    assert(apply_ops(st, plan) == s2) by {
        assert(apply_ops(st, plan) == apply_ops(s1, plan.drop_first()));
        assert(plan.drop_first()[0] == plan[1]);
        assert(apply_ops(s1, plan.drop_first()) == apply_ops(s2, plan.drop_first().drop_first()));
    }
}

/// Law: clearing every session empties the shared work queue and the ordering list of
/// every session it names, raises each of their epochs, and lowers no session's epoch.
pub proof fn law_clear_all_clears(st: Store, sessions: Seq<Seq<char>>, s: Seq<char>)
    ensures
        list_at(apply_ops(st, clear_all_plan(sessions)), WORK_QUEUE_KEY@) == Seq::<Seq<char>>::empty(),
        sessions.contains(s) ==> list_at(apply_ops(st, clear_all_plan(sessions)), pending_prefix() + s)
            == Seq::<Seq<char>>::empty(),
        sessions.contains(s) ==> counter_at(apply_ops(st, clear_all_plan(sessions)), epoch_prefix() + s)
            > counter_at(st, epoch_prefix() + s),
        counter_at(apply_ops(st, clear_all_plan(sessions)), epoch_prefix() + s) >= counter_at(
            st,
            epoch_prefix() + s,
        ),
    decreases sessions.len(),
{
    if sessions.len() == 0 {
        let plan = clear_all_plan(sessions);
        assert(plan.drop_first() =~= Seq::<RedisOpV>::empty());
        assert(apply_ops(st, plan) == apply_ops(apply_op(st, plan[0]), plan.drop_first()));
        lemma_keys_apart(s, s);
        assert(!sessions.contains(s));
    } else {
        let init = sessions.drop_last();
        let last = sessions.last();
        law_clear_all_clears(st, init, s);
        let mid = apply_ops(st, clear_all_plan(init));
        lemma_apply_concat(st, clear_all_plan(init), clear_plan(last));
        assert(clear_all_plan(sessions) == clear_all_plan(init) + clear_plan(last));
        let end = apply_ops(st, clear_all_plan(sessions));
        assert(end == apply_ops(mid, clear_plan(last)));
        lemma_keys_apart(last, s);
        lemma_keys_apart(s, last);
        lemma_keys_apart(last, last);
        assert forall|i: int| 0 <= i < clear_plan(last).len() implies op_key(
            #[trigger] clear_plan(last)[i],
        ) != WORK_QUEUE_KEY@ by {}
        lemma_ops_elsewhere(mid, clear_plan(last), WORK_QUEUE_KEY@);
        if last == s {
            law_clear_isolated(mid, s, s.push('x'), 0);
        } else {
            law_clear_isolated(mid, last, s, 0);
            assert forall|i: int| 0 <= i < clear_plan(last).len() implies op_key(
                #[trigger] clear_plan(last)[i],
            ) != epoch_prefix() + s by {}
            lemma_ops_elsewhere(mid, clear_plan(last), epoch_prefix() + s);
            if sessions.contains(s) {
                let k = choose|k: int| 0 <= k < sessions.len() && sessions[k] == s;
                assert(k < sessions.len() - 1);
                assert(init[k] == s);
            }
        }
    }
}

} // verus!

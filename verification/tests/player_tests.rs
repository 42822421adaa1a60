use llm_response_tts::player::{
    job_playable, lock_is_stale, parse_pid, PlayerAction, PlayerState, Poll, IDLE_EXIT_SECS, MAX_WAIT_SECS,
    POLL_INTERVAL_SECS,
};

#[test]
fn player_stops_after_five_empty_polls() {
    let mut st = PlayerState::new();
    let mut polls = 0;
    while st.keep_polling() {
        assert_eq!(st.step(Poll::Empty), PlayerAction::Wait);
        polls += 1;
    }
    assert_eq!(polls, IDLE_EXIT_SECS / POLL_INTERVAL_SECS);
    assert_eq!(polls, 5);
    assert_eq!(st.idle_secs(), 10);
}

#[test]
fn transient_answers_change_nothing() {
    let mut st = PlayerState::new();
    st.step(Poll::Empty);
    assert_eq!(st.step(Poll::Transient), PlayerAction::Wait);
    assert_eq!(st.idle_secs(), 2);
    assert_eq!(st.waited_secs(), 0);
}

#[test]
fn a_job_resets_the_idle_clock_and_a_playable_one_is_played() {
    let mut st = PlayerState::new();
    st.step(Poll::Empty);
    st.step(Poll::Empty);
    assert_eq!(st.idle_secs(), 4);
    assert_eq!(st.step(Poll::Job { id: 7, playable: true }), PlayerAction::Play { id: 7 });
    assert_eq!(st.idle_secs(), 0);
    assert_eq!(st.waited_secs(), 0);
}

#[test]
fn an_id_never_playable_is_skipped_on_the_23rd_poll() {
    let mut st = PlayerState::new();
    for k in 1..23 {
        assert_eq!(st.step(Poll::Job { id: 9, playable: false }), PlayerAction::Wait, "poll {k}");
        assert_eq!(st.waited_secs(), 2 * k);
        assert!(st.waited_secs() < MAX_WAIT_SECS);
    }
    assert_eq!(st.step(Poll::Job { id: 9, playable: false }), PlayerAction::Skip { id: 9 });
    assert_eq!(st.waited_secs(), 0);
    assert!(st.keep_polling());
}

#[test]
fn an_empty_poll_resets_the_wait() {
    let mut st = PlayerState::new();
    st.step(Poll::Job { id: 1, playable: false });
    st.step(Poll::Job { id: 1, playable: false });
    assert_eq!(st.waited_secs(), 4);
    st.step(Poll::Empty);
    assert_eq!(st.waited_secs(), 0);
}

#[test]
fn job_playable_needs_complete_and_the_file() {
    assert!(job_playable("COMPLETE", true));
    assert!(!job_playable("COMPLETE", false));
    assert!(!job_playable("PROCESSING", true));
    assert!(!job_playable("complete", true));
}

#[test]
fn parse_pid_reads_a_trimmed_i32() {
    let cases = [
        ("123", Some(123)),
        (" 4242\n", Some(4242)),
        ("-5", Some(-5)),
        ("+7", Some(7)),
        ("0000000000000000042", Some(42)),
        ("2147483647", Some(i32::MAX)),
        ("-2147483648", Some(i32::MIN)),
        ("2147483648", None),
        ("-2147483649", None),
        ("99999999999999999999", None),
        ("", None),
        ("   ", None),
        ("-", None),
        ("+", None),
        ("12a", None),
        ("1 2", None),
        ("--1", None),
        ("abc", None),
    ];
    for (text, expected) in cases {
        assert_eq!(parse_pid(text), expected, "parse_pid({text:?})");
        assert_eq!(parse_pid(text), text.trim().parse::<i32>().ok(), "parse_pid({text:?}) against str::parse");
    }
}

#[test]
fn lock_is_stale_unless_a_live_holder_is_known() {
    assert!(!lock_is_stale(Some(42), true));
    assert!(lock_is_stale(Some(42), false));
    assert!(lock_is_stale(None, false));
    assert!(lock_is_stale(None, true));
}

use llm_response_tts::queue::{
    accept_enqueue, clear_all_ops, clear_ops, enqueue_ops, epoch_key, job_output_dir, next_reply, pending_ids_key,
    sound_output_base, status_key, valid_session_dir, wav_filename, RedisOp,
};

// --- valid_session_dir ---

#[test]
fn valid_session_dir_main_flow_exact_and_prefix_match() {
    assert!(valid_session_dir("abc123", "abc123"));
    assert!(valid_session_dir("abc123", "abc123-my-project"));
}

#[test]
fn valid_session_dir_rejects_unsafe_or_unrelated_values() {
    let cases: &[(&str, &str)] = &[
        ("abc123", ""),
        ("abc123", "/"),
        ("abc123", "abc123/../etc"),
        ("abc123", "abc123\\etc"),
        ("abc123", "."),
        ("abc123", ".."),
        ("abc", "abcdef"),
        ("abc", "xyz"),
        ("abc123", "ABC123"),
    ];
    for (session, session_dir) in cases {
        assert!(
            !valid_session_dir(session, session_dir),
            "expected {session_dir:?} to be rejected for session {session:?}"
        );
    }
}

// --- redis key / filename formatters ---

#[test]
fn redis_key_and_filename_formatters() {
    assert_eq!(pending_ids_key("abc123"), "llm-response-tts:pending_ids:abc123");
    assert_eq!(epoch_key("abc123"), "llm-response-tts:epoch:abc123");
    assert_eq!(status_key(42), "llm-response-tts:status:42");
    assert_eq!(wav_filename(5), "0000000005.wav");
    assert_eq!(wav_filename(0), "0000000000.wav");
}

// --- further cases ---

#[test]
fn formatters_with_large_and_negative_ids() {
    assert_eq!(status_key(-7), "llm-response-tts:status:-7");
    assert_eq!(wav_filename(-5), "-000000005.wav");
    assert_eq!(wav_filename(12345678901), "12345678901.wav");
    assert_eq!(wav_filename(i64::MIN), "-9223372036854775808.wav");
}

#[test]
fn enqueue_request_checks() {
    assert!(accept_enqueue("Hello.", "abc123", "abc123-proj"));
    assert!(!accept_enqueue(" \n\t", "abc123", "abc123-proj"));
    assert!(!accept_enqueue("Hello.", "abc123", "../../etc"));
    assert!(!accept_enqueue("Hello.", "abc123", "xyz999-proj"));
}

#[test]
fn job_output_dir_joins_like_path_join() {
    assert_eq!(job_output_dir("/tmp/llm-response-tts/output", "abc123-proj"), "/tmp/llm-response-tts/output/abc123-proj");
    assert_eq!(job_output_dir("/tmp/out/", "abc123"), "/tmp/out/abc123");
    assert_eq!(job_output_dir("", "abc123"), "abc123");
    assert_eq!(
        job_output_dir("/tmp/out", "abc123-proj"),
        std::path::Path::new("/tmp/out").join("abc123-proj").to_string_lossy()
    );
}

#[test]
fn redis_command_plans() {
    let ops = enqueue_ops(7, "{}", "abc123");
    assert_eq!(ops.len(), 3);
    assert!(matches!(&ops[0], RedisOp::Lpush { key, value } if key == "llm-response-tts:work_queue" && value == "{}"));
    assert!(matches!(&ops[1], RedisOp::Rpush { key, id } if key == "llm-response-tts:pending_ids:abc123" && *id == 7));
    assert!(matches!(&ops[2], RedisOp::Sadd { key, member } if key == "llm-response-tts:sessions" && member == "abc123"));

    let ops = clear_ops("abc123");
    assert!(matches!(&ops[0], RedisOp::Incr { key } if key == "llm-response-tts:epoch:abc123"));
    assert!(matches!(&ops[1], RedisOp::Del { key } if key == "llm-response-tts:pending_ids:abc123"));

    let ops = clear_all_ops(&vec!["a".to_string(), "b".to_string()]);
    assert_eq!(ops.len(), 5);
    assert!(matches!(&ops[0], RedisOp::Del { key } if key == "llm-response-tts:work_queue"));
    assert!(matches!(&ops[3], RedisOp::Incr { key } if key == "llm-response-tts:epoch:b"));
    assert!(matches!(&ops[4], RedisOp::Del { key } if key == "llm-response-tts:pending_ids:b"));
}

#[test]
fn next_reply_status_and_filename() {
    let r = next_reply(5, true);
    assert_eq!((r.id, r.filename.as_str(), r.status.as_str()), (5, "0000000005.wav", "COMPLETE"));
    let r = next_reply(6, false);
    assert_eq!(r.status, "PROCESSING");
}

#[test]
fn sound_output_base_defaults_to_the_shared_directory() {
    assert_eq!(sound_output_base(None), "/tmp/llm-response-tts/output");
    assert_eq!(sound_output_base(Some("/data/tts")), "/data/tts");
    assert_eq!(job_output_dir(&sound_output_base(None), "abc123-proj"), "/tmp/llm-response-tts/output/abc123-proj");
}

#[test]
fn a_session_directory_belongs_to_one_session() {
    let dir = "abc123-proj";
    assert!(valid_session_dir("abc123", dir));
    assert!(!valid_session_dir("abc12", dir));
    assert!(!valid_session_dir("abc123-p", "abc123"));
    assert!(valid_session_dir("xyz789", "xyz789"));
    assert!(!valid_session_dir("abc123", "xyz789"));
}

#[test]
fn an_accepted_directory_stays_under_the_base() {
    let base = sound_output_base(None);
    for dir in ["abc123", "abc123-proj", "abc123-a.b"] {
        assert!(valid_session_dir("abc123", dir));
        assert_eq!(job_output_dir(&base, dir), format!("{base}/{dir}"));
    }
    for dir in ["abc123/../x", "/etc", "..", "."] {
        assert!(!valid_session_dir("abc123", dir));
    }
}

fn op_key(op: &RedisOp) -> &str {
    match op {
        RedisOp::Lpush { key, .. } => key,
        RedisOp::Rpush { key, .. } => key,
        RedisOp::Sadd { key, .. } => key,
        RedisOp::Incr { key } => key,
        RedisOp::Del { key } => key,
    }
}

#[test]
fn one_session_s_commands_never_touch_another_session_s_keys() {
    let other = [pending_ids_key("bbb222"), epoch_key("bbb222")];
    for op in enqueue_ops(1, "{}", "aaa111").iter().chain(clear_ops("aaa111").iter()) {
        assert!(!other.iter().any(|k| k == op_key(op)), "{} touches another session", op_key(op));
    }
    let all = clear_all_ops(&vec!["aaa111".to_string(), "bbb222".to_string()]);
    let keys: Vec<&str> = all.iter().map(op_key).collect();
    assert!(keys.contains(&"llm-response-tts:pending_ids:bbb222"));
    assert!(keys.contains(&"llm-response-tts:epoch:aaa111"));
}

#[test]
fn a_derived_session_directory_is_accepted_for_its_hash() {
    for cwd in ["/Users/xliang/projects/foo", "/", "/tmp/with space/my-proj", "relative/dir.v2"] {
        let (hash, dir) = llm_response_tts::session::session_key(cwd);
        assert!(valid_session_dir(&hash, &dir), "cwd={cwd:?} hash={hash:?} dir={dir:?}");
    }
}

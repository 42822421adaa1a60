use llm_response_tts::queue::{epoch_key, job_still_current, status_key};
use llm_response_tts::transform::{
    apply_transform, expand_measurements, is_alnum_key, is_word_byte, replace_all, replace_word_ci, strip_chars,
    utf8_char_len, CharSet,
};

// --- is_alnum_key / is_word_byte / utf8_char_len ---

#[test]
fn is_alnum_key_main_flow_and_edge_cases() {
    let cases = [
        ("SQL", true),
        ("k8s", true),
        ("", false),
        ("CI/CD", false),
        ("->", false),
        ("caf\u{e9}", false),
    ];
    for (key, expected) in cases {
        assert_eq!(is_alnum_key(key), expected, "is_alnum_key({key:?})");
    }
}

#[test]
fn is_word_byte_main_flow_and_edge_cases() {
    for b in [b'a', b'Z', b'0', b'_'] {
        assert!(is_word_byte(b), "{} should be a word byte", b as char);
    }
    for b in [b' ', b'-', b'.', b'/'] {
        assert!(!is_word_byte(b), "{} should not be a word byte", b as char);
    }
}

#[test]
fn utf8_char_len_by_leading_byte() {
    assert_eq!(utf8_char_len(b'a'), 1);
    assert_eq!(utf8_char_len(0xC2), 2);
    assert_eq!(utf8_char_len(0xE2), 3);
    assert_eq!(utf8_char_len(0xF0), 4);
}

// --- replace_word_ci ---

#[test]
fn replace_word_ci_cases() {
    let cases = [
        ("I use SQL daily", "sql", "sequel", "I use sequel daily"),
        ("i use sql daily", "SQL", "sequel", "i use sequel daily"),
        ("SQLite is great", "SQL", "sequel", "SQLite is great"),
        ("SQL", "SQL", "sequel", "sequel"),
        ("use SQL", "SQL", "sequel", "use sequel"),
        ("SQL rocks", "SQL", "sequel", "sequel rocks"),
        ("SQL and sql and Sql", "SQL", "sequel", "sequel and sequel and sequel"),
        ("nothing to see here", "SQL", "sequel", "nothing to see here"),
        ("", "SQL", "sequel", ""),
        ("caf\u{e9} SQL caf\u{e9}", "SQL", "sequel", "caf\u{e9} sequel caf\u{e9}"),
    ];
    for (text, key, val, expected) in cases {
        assert_eq!(replace_word_ci(text, key, val), expected, "replace_word_ci({text:?}, {key:?}, {val:?})");
    }
}

// --- strip_chars ---

#[test]
fn strip_chars_cases() {
    let cases = [
        ("*bold* _em_ `code`", vec!['*', '_', '`'], "bold em code"),
        ("*unchanged*", vec![], "*unchanged*"),
        ("plain text", vec!['~', '^'], "plain text"),
    ];
    for (text, chars, expected) in cases {
        let set = CharSet::from_chars(chars);
        assert_eq!(strip_chars(text, &set), expected, "strip_chars({text:?})");
    }
}

// --- expand_measurements ---

fn sample_units() -> Vec<(String, String, String)> {
    vec![
        ("ms".to_string(), "millisecond".to_string(), "milliseconds".to_string()),
        ("in".to_string(), "inch".to_string(), "inches".to_string()),
    ]
}

#[test]
fn expand_measurements_cases() {
    let units = sample_units();
    let empty: Vec<(String, String, String)> = Vec::new();
    let cases = [
        ("wait 24ms please", &units, "wait 24 milliseconds please"),
        ("1ms delay", &units, "1 millisecond delay"),
        ("1.5in gap", &units, "1.5 inches gap"),
        ("room 24xyz wide", &units, "room 24xyz wide"),
        ("24mstest", &units, "24mstest"),
        ("v24ms", &units, "v24ms"),
        ("24ms", &empty, "24ms"),
    ];
    for (text, units, expected) in cases {
        assert_eq!(expand_measurements(text, units), expected, "expand_measurements({text:?})");
    }
}

// --- apply_transform ---

#[test]
fn apply_transform_main_flow_combines_measurement_word_ref_and_strip_passes() {
    let units = sample_units();
    let refs = vec![("SQL".to_string(), "sequel".to_string())];
    let strip = CharSet::from_chars(vec!['*']);
    assert_eq!(apply_transform("*SQL* takes 24ms", &units, &refs, &strip), "sequel takes 24 milliseconds");
}

#[test]
fn apply_transform_non_alnum_key_replaces_literally_ignoring_word_boundaries() {
    let refs = vec![("->".to_string(), "changed to".to_string())];
    assert_eq!(apply_transform("a->b", &[], &refs, &CharSet::new()), "achanged tob");
}

// --- redis key formatters ---

#[test]
fn redis_key_formatters() {
    assert_eq!(status_key(42), "llm-response-tts:status:42");
    assert_eq!(epoch_key("abc123"), "llm-response-tts:epoch:abc123");
}

// --- further cases ---

#[test]
fn replace_all_matches_str_replace() {
    for (t, from, to) in [("a->b->c", "->", "=>"), ("aaaa", "aa", "b"), ("abc", "", "-"), ("", "", "x"), ("xyz", "q", "r")] {
        assert_eq!(replace_all(t, from, to), t.replace(from, to), "replace_all({t:?}, {from:?}, {to:?})");
    }
}

#[test]
fn expand_measurements_more_cases() {
    let units = sample_units();
    assert_eq!(expand_measurements("1.ms", &units), "1.ms");
    assert_eq!(expand_measurements("2.5ms and 3in.", &units), "2.5 milliseconds and 3 inches.");
    assert_eq!(expand_measurements("x_1ms 10ms", &units), "x_1ms 10 milliseconds");
    assert_eq!(expand_measurements("\u{e9}5ms", &units), "\u{e9}5 milliseconds");
}

#[test]
fn charset_insert_and_contains() {
    let mut s = CharSet::new();
    assert!(s.is_empty());
    s.insert('a');
    s.insert('a');
    assert!(s.contains('a'));
    assert!(!s.contains('b'));
    assert!(!s.is_empty());
}

#[test]
fn job_epoch_check() {
    assert!(job_still_current(0, None));
    assert!(job_still_current(3, Some(3)));
    assert!(!job_still_current(2, Some(3)));
    assert!(!job_still_current(1, None));
}

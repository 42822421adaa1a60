use llm_response_tts::json::{as_bool, as_str, get, json_escape, read_hook_event, Json, Parser};
use llm_response_tts::ingest::{already_spoken, buffer_file_name, plan_event};
use llm_response_tts::http::enqueue_body;
use llm_response_tts::json::HookEvent;
use llm_response_tts::sentences::split_sentences;

fn parse(s: &str) -> Json {
    Parser::new(s).parse_value().expect("expected valid JSON")
}

// --- Parser / Json::parse_value ---

#[test]
fn parse_value_main_flow_object_with_mixed_types() {
    let json = parse(r#"{"final":true,"message_id":"abc123","delta":"hello"}"#);
    assert!(as_bool(get(&json, "final")));
    assert_eq!(as_str(get(&json, "message_id")), "abc123");
    assert_eq!(as_str(get(&json, "delta")), "hello");
}

#[test]
fn parse_value_string_escapes() {
    let json = parse(r#"{"delta":"line1\nline2\ttab\\backslash\"quote"}"#);
    assert_eq!(as_str(get(&json, "delta")), "line1\nline2\ttab\\backslash\"quote");
}

#[test]
fn parse_value_unicode_escape() {
    let json = parse(r#"{"delta":"caf\u00e9"}"#);
    assert_eq!(as_str(get(&json, "delta")), "caf\u{e9}");
}

#[test]
fn parse_value_walks_past_number_and_array_without_keeping_payload() {
    let json = parse(r#"{"count":42,"tags":["a","b"],"delta":"after"}"#);
    assert_eq!(as_str(get(&json, "delta")), "after");
}

#[test]
fn parse_value_null_and_missing_key() {
    let json = parse(r#"{"delta":null}"#);
    assert_eq!(as_str(get(&json, "delta")), "");
    assert!(get(&json, "missing").is_none());
}

#[test]
fn parse_value_nested_object() {
    let json = parse(r#"{"outer":{"inner":"value"}}"#);
    let outer = get(&json, "outer").expect("outer key present");
    assert_eq!(as_str(get(outer, "inner")), "value");
}

#[test]
fn parse_value_empty_object_and_array() {
    assert!(matches!(parse("{}"), Json::Object(pairs) if pairs.is_empty()));
    assert!(matches!(parse("[]"), Json::Array));
}

#[test]
fn parse_value_rejects_malformed_input() {
    let invalid_inputs = [
        r#"{"final":"#,
        r#"{"final": tru}"#,
        r#""unterminated"#,
        r#"{"a": 1 "b": 2}"#,
        r#""\u12"#,
        r#""\uZZZZ""#,
    ];
    for input in invalid_inputs {
        assert!(Parser::new(input).parse_value().is_err(), "expected error for input: {input}");
    }
}

// --- get / as_str / as_bool ---

#[test]
fn as_bool_reads_bool_and_string_true_false() {
    assert!(as_bool(Some(&Json::Bool(true))));
    assert!(!as_bool(Some(&Json::Bool(false))));
    assert!(as_bool(Some(&Json::Str("true".into()))));
    assert!(!as_bool(Some(&Json::Str("false".into()))));
    assert!(!as_bool(Some(&Json::Str("yes".into()))));
    assert!(!as_bool(None));
}

#[test]
fn as_str_reads_string_and_defaults_to_empty_otherwise() {
    assert_eq!(as_str(Some(&Json::Str("hi".into()))), "hi");
    assert_eq!(as_str(Some(&Json::Bool(true))), "");
    assert_eq!(as_str(None), "");
}

// --- split_sentences ---

#[test]
fn split_sentences_cases() {
    let cases: Vec<(&str, Vec<&str>)> = vec![
        ("Hello world. How are you? Fine!", vec!["Hello world.", "How are you?", "Fine!"]),
        ("Note: this matters.", vec!["Note:", "this matters."]),
        ("Pi is 3.14 today.", vec!["Pi is 3.14 today."]),
        ("no ending punctuation here", vec!["no ending punctuation here"]),
        ("", vec![]),
        ("   \n\t  ", vec![]),
        ("First.    \n\n  Second.", vec!["First.", "Second."]),
        ("Really?! Yes.", vec!["Really?!", "Yes."]),
    ];
    for (input, expected) in cases {
        assert_eq!(split_sentences(input), expected, "split_sentences({input:?})");
    }
}

// --- json_escape ---

#[test]
fn json_escape_cases() {
    let cases = [
        ("hello world", "hello world"),
        ("a\"b\\c\nd\te\rf", "a\\\"b\\\\c\\nd\\te\\rf"),
        ("\u{1}", "\\u0001"),
    ];
    for (input, expected) in cases {
        assert_eq!(json_escape(input), expected, "json_escape({input:?})");
    }
}

// --- further cases ---

#[test]
fn json_escape_output_parses_back_to_the_input() {
    for text in ["plain", "quote \" and \\ slash", "ctl \u{1}\u{1f} tab\t", "caf\u{e9} \u{1F600}"] {
        let literal = format!("\"{}\"", json_escape(text));
        let parsed = Parser::new(&literal).parse_string().expect("escaped text parses");
        assert_eq!(parsed, text);
    }
}

#[test]
fn parse_string_surrogate_escape_is_dropped_and_plus_sign_accepted() {
    let json = parse(r#"{"delta":"a\ud800b\u+041"}"#);
    assert_eq!(as_str(get(&json, "delta")), "abA");
}

#[test]
fn parse_number_forms() {
    for ok in ["0", "-1", "1.5", "1.", "2e10", "3E-2", "1.5e+3", "007"] {
        assert!(Parser::new(ok).parse_value().is_ok(), "{ok} should parse");
    }
    for bad in ["-", "1e", "1.2.3", "--1", "1e+", "-.e"] {
        assert!(Parser::new(bad).parse_value().is_err(), "{bad} should not parse");
    }
}

#[test]
fn parse_value_first_member_wins_and_whitespace_is_skipped() {
    let json = parse(" \n{ \"a\" : \"one\" , \"a\" : \"two\" } trailing");
    assert_eq!(as_str(get(&json, "a")), "one");
}

#[test]
fn hook_event_fields_and_fallback_for_bad_input() {
    let ev = read_hook_event(r#"{"final":"true","message_id":"m1","delta":"Hi."}"#);
    assert!(ev.final_flag);
    assert_eq!(ev.message_id, "m1");
    assert_eq!(ev.delta, "Hi.");
    let bad = read_hook_event("not json");
    assert!(!bad.final_flag);
    assert_eq!(bad.message_id, "");
    assert_eq!(bad.delta, "");
}

#[test]
fn split_sentences_keeps_unicode_whitespace_rules() {
    assert_eq!(split_sentences("One.\u{a0}Two."), vec!["One.", "Two."]);
    assert_eq!(split_sentences("e.g.x done."), vec!["e.g.x done."]);
}

// --- what ingest does with one event ---

fn event(final_flag: bool, message_id: &str, delta: &str) -> HookEvent {
    HookEvent { final_flag, message_id: message_id.to_string(), delta: delta.to_string() }
}

#[test]
fn plan_event_ignores_events_without_a_message_id() {
    let plan = plan_event(&event(true, "", "hello"));
    assert_eq!(plan.append, None);
    assert!(!plan.finish);
}

#[test]
fn plan_event_appends_the_delta_and_finishes_on_final() {
    let plan = plan_event(&event(false, "m1", "Hello "));
    assert_eq!(plan.append, Some("Hello ".to_string()));
    assert!(!plan.finish);
    let plan = plan_event(&event(true, "m1", ""));
    assert_eq!(plan.append, None);
    assert!(plan.finish);
    let plan = plan_event(&event(true, "m1", "world."));
    assert_eq!(plan.append, Some("world.".to_string()));
    assert!(plan.finish);
}

#[test]
fn plan_event_from_a_parsed_hook_event() {
    let ev = read_hook_event(r#"{"final":"true","message_id":"abc","delta":"Hi."}"#);
    let plan = plan_event(&ev);
    assert_eq!(plan.append, Some("Hi.".to_string()));
    assert!(plan.finish);
    let ev = read_hook_event("not json");
    let plan = plan_event(&ev);
    assert_eq!(plan.append, None);
    assert!(!plan.finish);
}

#[test]
fn buffer_file_name_holds_the_message_id() {
    assert_eq!(buffer_file_name("abc123"), "buffer-abc123.txt");
}

#[test]
fn already_spoken_only_for_the_last_message() {
    assert!(already_spoken(Some("m1"), "m1"));
    assert!(!already_spoken(Some("m1"), "m2"));
    assert!(!already_spoken(None, "m1"));
    assert!(!already_spoken(Some(""), "m1"));
}

// --- what ingest sends, a JSON reader reads back ---

#[test]
fn enqueue_body_reads_back_as_its_three_fields() {
    let text = "He said \"hi\"\n\tthen left \u{1} caf\u{e9}";
    let body = enqueue_body(text, "abc123", "abc123-my proj");
    let json = parse(&body);
    assert_eq!(as_str(get(&json, "text")), text);
    assert_eq!(as_str(get(&json, "session")), "abc123");
    assert_eq!(as_str(get(&json, "session_dir")), "abc123-my proj");
}

#[test]
fn sentences_are_trimmed_and_keep_all_text() {
    let text = "  One.  Two?\nThree!  four ";
    let parts = split_sentences(text);
    for p in &parts {
        assert_eq!(p.trim(), p);
        assert!(!p.is_empty());
    }
    let joined: String = parts.concat().chars().filter(|c| !c.is_whitespace()).collect();
    let given: String = text.chars().filter(|c| !c.is_whitespace()).collect();
    assert_eq!(joined, given);
}

#[test]
fn every_sentence_but_the_last_ends_at_a_boundary() {
    let text = "Wait: then go. Pi is 3.14! Done? tail without end";
    let parts = split_sentences(text);
    assert_eq!(parts, vec!["Wait:", "then go.", "Pi is 3.14!", "Done?", "tail without end"]);
    for p in &parts[..parts.len() - 1] {
        let last = p.chars().last().unwrap();
        assert!(matches!(last, '.' | '!' | '?' | ':'), "{p:?}");
        let at = text.find(p.as_str()).unwrap() + p.len();
        assert!(text[at..].chars().next().map_or(true, char::is_whitespace), "{p:?}");
    }
}

#[test]
fn escaped_text_has_no_raw_controls_or_bare_quotes() {
    for text in ["line\r\nInjected: yes", "q\"uote\\\"", "\u{0}\u{1f}\u{7f}", "plain text"] {
        let out = json_escape(text);
        assert!(out.chars().all(|c| c >= '\u{20}'), "{out:?}");
        let cs: Vec<char> = out.chars().collect();
        for (i, c) in cs.iter().enumerate() {
            if *c == '"' {
                assert!(i > 0 && cs[i - 1] == '\\', "{out:?}");
            }
        }
    }
    assert_eq!(json_escape("plain text"), "plain text");
}

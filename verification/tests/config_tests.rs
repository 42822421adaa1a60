use llm_response_tts::config::{
    first_char_set, load_strip_chars, load_units, load_word_references, sort_units, sort_word_references,
};
use llm_response_tts::transform::expand_measurements;
use std::collections::{HashMap, HashSet};

fn s(x: &str) -> String {
    x.to_string()
}

// --- the JSON documents: a missing or malformed one configures nothing ---

#[test]
fn load_json_main_flow_parses_valid_content() {
    let result = load_word_references(Some(r#"{"a":"1"}"#));
    assert_eq!(result, vec![(s("a"), s("1"))]);
}

#[test]
fn load_json_missing_file_or_malformed_content_falls_back_to_default() {
    assert!(load_word_references(None).is_empty());
    assert!(load_word_references(Some("not valid json")).is_empty());
    assert!(load_units(None).is_empty());
    assert!(load_units(Some("not valid json")).is_empty());
    assert!(load_strip_chars(None).is_empty());
    assert!(load_strip_chars(Some("not valid json")).is_empty());
}

#[test]
fn documents_of_the_wrong_shape_configure_nothing() {
    assert!(load_word_references(Some(r#"["a","b"]"#)).is_empty());
    assert!(load_word_references(Some(r#"{"a":1}"#)).is_empty());
    assert!(load_units(Some(r#"{"ms":"millisecond"}"#)).is_empty());
    assert!(load_strip_chars(Some(r#"{"a":"b"}"#)).is_empty());
}

// --- load_word_references / load_strip_chars / load_units ---

#[test]
fn load_word_references_sorts_by_descending_key_length_and_preserves_content() {
    let refs = load_word_references(Some(r#"{"a":"1","longer":"2","bb":"3"}"#));

    let lengths: Vec<usize> = refs.iter().map(|(k, _)| k.chars().count()).collect();
    let mut sorted_desc = lengths.clone();
    sorted_desc.sort_by(|a, b| b.cmp(a));
    assert_eq!(lengths, sorted_desc);

    let as_map: HashMap<String, String> = refs.into_iter().collect();
    assert_eq!(
        as_map,
        HashMap::from([(s("a"), s("1")), (s("longer"), s("2")), (s("bb"), s("3"))])
    );
}

#[test]
fn load_word_references_counts_characters_not_bytes() {
    let refs = load_word_references(Some(r#"{"caf\u00e9s":"x","abcdefg":"y"}"#));
    assert_eq!(refs, vec![(s("abcdefg"), s("y")), (s("caf\u{e9}s"), s("x"))]);
}

#[test]
fn load_strip_chars_keeps_only_the_first_char_of_each_entry() {
    let set = load_strip_chars(Some(r#"["*", "_", "ab"]"#));
    assert_eq!(set.len(), 3);
    assert!(set.contains('*'));
    assert!(set.contains('_'));
    assert!(set.contains('a'));
    assert!(!set.contains('b'));
}

#[test]
fn load_strip_chars_skips_empty_entries_and_repeats() {
    let set = load_strip_chars(Some(r#"["", "**", "*"]"#));
    assert_eq!(set.len(), 1);
    assert!(set.contains('*'));
}

#[test]
fn load_units_sorts_by_descending_key_length_and_preserves_content() {
    let units = load_units(Some(r#"{"s":["second","seconds"],"ms":["millisecond","milliseconds"]}"#));

    assert_eq!(units[0].0.len(), 2, "\"ms\" (longer key) should sort before \"s\"");
    assert_eq!(units[1].0.len(), 1);

    let as_set: HashSet<(String, String, String)> = units.into_iter().collect();
    assert_eq!(
        as_set,
        HashSet::from([
            (s("s"), s("second"), s("seconds")),
            (s("ms"), s("millisecond"), s("milliseconds")),
        ])
    );
}

// --- the orderings themselves, on given entries ---

#[test]
fn sort_word_references_is_longest_first_and_stable() {
    let entries = vec![(s("ab"), s("1")), (s("abcd"), s("2")), (s("cd"), s("3")), (s("x"), s("4"))];
    assert_eq!(
        sort_word_references(entries),
        vec![(s("abcd"), s("2")), (s("ab"), s("1")), (s("cd"), s("3")), (s("x"), s("4"))]
    );
    assert!(sort_word_references(Vec::new()).is_empty());
}

#[test]
fn sort_units_flattens_and_orders_by_bytes() {
    let entries = vec![
        (s("s"), (s("second"), s("seconds"))),
        (s("\u{b5}s"), (s("microsecond"), s("microseconds"))),
        (s("ms"), (s("millisecond"), s("milliseconds"))),
    ];
    assert_eq!(
        sort_units(entries),
        vec![
            (s("\u{b5}s"), s("microsecond"), s("microseconds")),
            (s("ms"), s("millisecond"), s("milliseconds")),
            (s("s"), s("second"), s("seconds")),
        ]
    );
}

#[test]
fn first_char_set_of_given_entries() {
    let set = first_char_set(&vec![s("\u{e9}t\u{e9}"), s(""), s("#")]);
    assert_eq!(set.len(), 2);
    assert!(set.contains('\u{e9}'));
    assert!(set.contains('#'));
    assert!(!set.contains('t'));
}

#[test]
fn the_longest_unit_written_after_a_number_wins() {
    let units = load_units(Some(r#"{"m":["meter","meters"],"m/s":["meter per second","meters per second"]}"#));
    assert_eq!(units[0].0, "m/s");
    assert_eq!(expand_measurements("at 5m/s now", &units), "at 5 meters per second now");
    assert_eq!(expand_measurements("a 1m wall", &units), "a 1 meter wall");
}

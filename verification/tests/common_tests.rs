use llm_response_tts::http::{
    build_http_request, clear_all_request, clear_request, clear_succeeded, enqueue_accepted, enqueue_body, read_env_var,
    http_status_line,
};
use llm_response_tts::session::{murmurhash3_x86_32, script_dir, session_key, to_base62};

const BASE62_ALPHABET: &[u8; 62] = b"0123456789ABCDEFGHIJKLMNOPQRSTUVWXYZabcdefghijklmnopqrstuvwxyz";

// --- murmurhash3_x86_32 ---

#[test]
fn common_tests_murmurhash3_of_empty_input_is_zero() {
    assert_eq!(murmurhash3_x86_32(b"", 0), 0);
}

#[test]
fn common_tests_murmurhash3_is_deterministic_and_input_sensitive() {
    let a = murmurhash3_x86_32(b"/Users/xliang/projects/foo", 0);
    let b = murmurhash3_x86_32(b"/Users/xliang/projects/foo", 0);
    let c = murmurhash3_x86_32(b"/Users/xliang/projects/bar", 0);
    assert_eq!(a, b, "same input must hash the same every time");
    assert_ne!(a, c, "different input should (almost always) hash differently");
}

#[test]
fn main_tests_murmurhash3_of_empty_input_is_zero() {
    assert_eq!(murmurhash3_x86_32(b"", 0), 0);
}

#[test]
fn main_tests_murmurhash3_is_deterministic_and_input_sensitive() {
    let a = murmurhash3_x86_32(b"/Users/xliang/projects/foo", 0);
    let b = murmurhash3_x86_32(b"/Users/xliang/projects/foo", 0);
    let c = murmurhash3_x86_32(b"/Users/xliang/projects/bar", 0);
    assert_eq!(a, b);
    assert_ne!(a, c);
}

#[test]
fn murmurhash3_reference_values() {
    // published MurmurHash3_x86_32 vectors
    assert_eq!(murmurhash3_x86_32(b"", 1), 0x514E28B7);
    assert_eq!(murmurhash3_x86_32(b"test", 0), 0xba6bd213);
    assert_eq!(murmurhash3_x86_32(b"Hello, world!", 0), 0xc0363e43);
    assert_eq!(murmurhash3_x86_32(b"abc", 0), 0xb3dd93fa);
}

// --- to_base62 ---

#[test]
fn common_tests_to_base62_known_values() {
    let cases = [(0u32, "000000"), (125u32, "000021")];
    for (n, expected) in cases {
        assert_eq!(to_base62(n, 6), expected);
    }
}

#[test]
fn common_tests_to_base62_is_fixed_width_and_valid_alphabet() {
    for n in [0u32, 1, 61, 62, 125, u32::MAX] {
        let s = to_base62(n, 6);
        assert_eq!(s.len(), 6);
        assert!(s.bytes().all(|b| BASE62_ALPHABET.contains(&b)));
    }
}

#[test]
fn main_tests_to_base62_known_values() {
    let cases = [(0u32, "000000"), (125u32, "000021")];
    for (n, expected) in cases {
        assert_eq!(to_base62(n, 6), expected);
    }
}

#[test]
fn main_tests_to_base62_is_fixed_width_and_valid_alphabet() {
    for n in [0u32, 1, 61, 62, 125, u32::MAX] {
        let s = to_base62(n, 6);
        assert_eq!(s.len(), 6);
        assert!(s.bytes().all(|b| BASE62_ALPHABET.contains(&b)));
    }
}

#[test]
fn to_base62_wider_and_narrower_widths() {
    assert_eq!(to_base62(u32::MAX, 6), "4gfFC3");
    assert_eq!(to_base62(61, 1), "z");
    assert_eq!(to_base62(62, 1), "10");
    assert_eq!(to_base62(35, 3), "00Z");
}

// --- session_key ---

#[test]
fn session_key_dir_name_starts_with_the_hash() {
    let (hash, dir_name) = session_key("/Users/xliang/projects/foo");
    assert_eq!(hash.len(), 6);
    assert!(dir_name.starts_with(&format!("{hash}-")));
    assert_eq!(dir_name, format!("{hash}-foo"));
    assert_eq!(hash, to_base62(murmurhash3_x86_32(b"/Users/xliang/projects/foo", 0), 6));
}

#[test]
fn session_key_of_root_uses_the_root_name() {
    let (hash, dir_name) = session_key("/");
    assert_eq!(dir_name, format!("{hash}-root"));
}

#[test]
fn script_dir_is_two_levels_up() {
    assert_eq!(script_dir("/repo/host/tools"), Some("/repo".to_string()));
    assert_eq!(script_dir("/a/b"), Some("/".to_string()));
    assert_eq!(script_dir("/a"), None);
    assert_eq!(script_dir("/"), None);
}

// --- build_http_request ---

#[test]
fn build_http_request_main_flow() {
    let req = build_http_request("/clear", "tok123", "{\"session\":\"abc\"}");
    assert!(req.starts_with("POST /clear HTTP/1.1\r\n"));
    assert!(req.contains("Authorization: Bearer tok123\r\n"));
    assert!(req.contains("Content-Type: application/json\r\n"));
    assert!(req.contains("Content-Length: 17\r\n"));
    assert!(req.ends_with("{\"session\":\"abc\"}"));
}

#[test]
fn build_http_request_content_length_counts_bytes_not_chars() {
    let body = "{\"text\":\"caf\u{e9}\"}";
    let req = build_http_request("/", "tok", body);
    assert_eq!(body.chars().count(), body.len() - 1);
    assert!(req.contains(&format!("Content-Length: {}\r\n", body.len())));
}

#[test]
fn build_http_request_empty_body() {
    let req = build_http_request("/clear-all", "tok", "");
    assert!(req.contains("Content-Length: 0\r\n"));
    assert!(req.ends_with("\r\n\r\n"));
}

// --- http_status_line ---

#[test]
fn http_status_line_cases() {
    let cases = [
        ("HTTP/1.1 204 No Content\r\nServer: nginx\r\n\r\n", "HTTP/1.1 204 No Content"),
        ("", ""),
    ];
    for (response, expected) in cases {
        assert_eq!(http_status_line(response), expected);
    }
}

#[test]
fn http_status_line_without_carriage_return() {
    assert_eq!(http_status_line("HTTP/1.1 200 OK\nx"), "HTTP/1.1 200 OK");
    assert_eq!(http_status_line("only line"), "only line");
}

// --- request bodies and replies ---

#[test]
fn enqueue_body_escapes_each_field() {
    assert_eq!(
        enqueue_body("say \"hi\"\n", "abc123", "abc123-proj"),
        "{\"text\":\"say \\\"hi\\\"\\n\",\"session\":\"abc123\",\"session_dir\":\"abc123-proj\"}"
    );
}

#[test]
fn enqueue_accepted_reads_200_or_202() {
    assert!(enqueue_accepted("HTTP/1.1 202 Accepted"));
    assert!(enqueue_accepted("HTTP/1.1 200 OK"));
    assert!(!enqueue_accepted("HTTP/1.1 400 Bad Request"));
    assert!(!enqueue_accepted(""));
}

#[test]
fn clear_requests_and_their_replies() {
    let req = clear_request("tok", "abc123");
    assert_eq!(
        req,
        "POST /clear HTTP/1.1\r\nHost: 127.0.0.1:3000\r\nAuthorization: Bearer tok\r\nContent-Type: application/json\r\nContent-Length: 20\r\nConnection: close\r\n\r\n{\"session\":\"abc123\"}"
    );
    assert_eq!(
        clear_all_request("tok"),
        "POST /clear-all HTTP/1.1\r\nHost: 127.0.0.1:3000\r\nAuthorization: Bearer tok\r\nContent-Length: 0\r\nConnection: close\r\n\r\n"
    );
    assert!(clear_succeeded("HTTP/1.1 204 No Content\r\n\r\n"));
    assert!(!clear_succeeded("HTTP/1.1 401 Unauthorized\r\n\r\n"));
}

// --- the token file ---

#[test]
fn read_env_var_cases() {
    let cases = [
        (Some("FOO=bar\nBAZ=qux\n"), "FOO", Some("bar")),
        (Some("FOO=bar\nBAZ=qux\n"), "BAZ", Some("qux")),
        (Some("  FOO  =  bar  \n"), "FOO", Some("bar")),
        (None, "FOO", None),
        (Some("FOO=bar\n"), "OTHER", None),
        (Some("\nFOO=bar\n"), "FOO", None),
    ];
    for (content, key, expected) in cases {
        let got = content.and_then(|c| read_env_var(c, key));
        assert_eq!(got, expected.map(String::from), "content={content:?} key={key:?}");
    }
}

#[test]
fn read_env_var_more_cases() {
    let cases = [
        ("FOO=bar\nBAZ=qux\n", "FOO", Some("bar")),
        ("FOO=bar\nBAZ=qux\n", "BAZ", Some("qux")),
        ("  FOO  =  bar  \n", "FOO", Some("bar")),
        ("FOO=bar\n", "OTHER", None),
        ("\nFOO=bar\n", "FOO", None),
        ("", "FOO", None),
        ("A=1\r\nB=x=y\r\n", "B", Some("x=y")),
    ];
    for (content, key, expected) in cases {
        assert_eq!(read_env_var(content, key), expected.map(String::from), "content={content:?} key={key:?}");
    }
}

#[test]
fn base62_of_six_digits_reads_back() {
    for n in [0u32, 1, 61, 62, 3843, 1_000_000, u32::MAX] {
        let s = to_base62(n, 6);
        assert_eq!(s.len(), 6);
        let back = s.bytes().fold(0u64, |acc, b| {
            acc * 62 + BASE62_ALPHABET.iter().position(|&x| x == b).unwrap() as u64
        });
        assert_eq!(back, n as u64);
    }
}

#[test]
fn to_base62_never_truncates() {
    assert_eq!(to_base62(125, 1), "21");
    assert_eq!(to_base62(62, 6), "000010");
    assert_eq!(to_base62(0, 0), "0");
    assert_eq!(to_base62(u32::MAX, 2), "4gfFC3");
    for (n, width) in [(0u32, 3usize), (61, 0), (3844, 2), (238327, 1), (238328, 9)] {
        let s = to_base62(n, width);
        let mut digits = 1;
        let mut m = n / 62;
        while m > 0 {
            digits += 1;
            m /= 62;
        }
        assert_eq!(s.len(), width.max(digits), "to_base62({n}, {width})");
    }
}

#[test]
fn requests_frame_the_body_by_its_bytes() {
    for body in ["", "{\"text\":\"caf\u{e9}\"}", "\u{1F600}\r\n"] {
        let req = build_http_request("/", "tok", body);
        assert!(req.contains(&format!("Content-Length: {}\r\n", body.len())), "{body:?}");
        assert!(req.ends_with(&format!("\r\n\r\n{body}")), "{body:?}");
    }
}

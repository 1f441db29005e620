use tmux_tabs::descriptions::{
    cached_record_fields, changed_significantly, clean_description, clean_tab_name,
    description_record, first_content_line, hex16, json_payload, needs_description,
    normalize_capture, parse_generated_metadata, prompt, refresh_outcome, shared_end_chars,
    should_rename_window, capture_allowed,
    signature, GeneratedMetadata, PROMPT_HEAD,
};
use tmux_tabs::json::{json_escape, json_field};

#[test]
fn significance() {
    assert!(changed_significantly("", "hello world"));
    assert!(!changed_significantly("same\ntext", "same\ntext"));
    assert!(!changed_significantly("a\nb\nc\nd", "a\nb\nc\nd\ne"));
    assert!(changed_significantly("a\nb\nc\nd", "x\ny\nz\nw"));
}

#[test]
fn json_roundtrip() {
    let escaped = json_escape("he said \"hi\"\nnext");
    let wrapped = format!("{{\"k\": \"{escaped}\"}}");
    assert_eq!(json_field(&wrapped, "k"), "he said \"hi\"\nnext");
}

#[test]
fn parses_generated_name_and_description() {
    let generated = parse_generated_metadata(
        r#"{"name":"Fix tmux names","description":"adding automatic names to tmux tabs"}"#,
    );

    assert_eq!(generated.name, "Fix tmux names");
    assert_eq!(generated.description, "adding automatic names to tmux tabs");
}

#[test]
fn parses_generated_metadata_from_fenced_output() {
    let generated = parse_generated_metadata(
        "```json\n{\"name\":\"Review PR\",\"description\":\"reviewing sidebar naming change\"}\n```",
    );

    assert_eq!(generated.name, "Review PR");
    assert_eq!(generated.description, "reviewing sidebar naming change");
}

#[test]
fn generated_names_are_not_applied_to_tmux_windows() {
    let generated = GeneratedMetadata {
        name: "Review sidebar".to_string(),
        description: "reviewing sidebar description naming".to_string(),
    };

    assert!(!should_rename_window(&generated));
}

#[test]
fn caches_generated_name_with_description() {
    let generated = GeneratedMetadata {
        name: "Review sidebar".to_string(),
        description: "reviewing sidebar description naming".to_string(),
    };

    let text = description_record(&generated, "terminal text", &signature("terminal text"), "2");

    assert_eq!(json_field(&text, "name"), "Review sidebar");
    assert_eq!(
        json_field(&text, "description"),
        "reviewing sidebar description naming"
    );
    assert_eq!(json_field(&text, "sample"), "terminal text");
    assert_eq!(json_field(&text, "window"), "2");
}

#[test]
fn plain_output_becomes_the_description() {
    let generated = parse_generated_metadata("\u{1b}[0m\n\n  running the test suite  \nmore");
    assert_eq!(generated.name, "");
    assert_eq!(generated.description, "running the test suite");
    let boxed = parse_generated_metadata("╭──╮\n│ x │\n╰──╯\nanswer");
    assert_eq!(boxed.description, "answer");
    assert_eq!(parse_generated_metadata(""), GeneratedMetadata {
        name: String::new(),
        description: String::new(),
    });
}

#[test]
fn the_payload_is_the_json_line_with_a_description() {
    assert_eq!(
        json_payload("noise\n  {\"description\":\"d\"}  \n{\"x\":1}"),
        "{\"description\":\"d\"}"
    );
    assert_eq!(json_payload("first\nsecond"), "first");
    assert_eq!(first_content_line("\n   \n\u{1b}[1m\nreal line"), "real line");
    assert_eq!(first_content_line(&"x".repeat(600)).chars().count(), 500);
}

#[test]
fn names_and_descriptions_are_cleaned() {
    assert_eq!(clean_tab_name("  Fix\u{7}ed bug  \nsecond"), "Fixed bug");
    assert_eq!(clean_tab_name(&"n".repeat(50)).chars().count(), 40);
    assert_eq!(clean_description("  one line \nmore"), "one line");
    assert_eq!(clean_description(&"d".repeat(250)).chars().count(), 200);
}

#[test]
fn captures_are_normalised() {
    assert_eq!(normalize_capture("a  \n\n   \nb\t\n"), "a\nb");
    assert_eq!(normalize_capture(""), "");
    let long = "y".repeat(12005);
    assert_eq!(normalize_capture(&long).chars().count(), 12000);
}

#[test]
fn shared_ends_count_prefix_then_suffix() {
    let a: Vec<char> = "abcXYZdef".chars().collect();
    let b: Vec<char> = "abcQdef".chars().collect();
    assert_eq!(shared_end_chars(&a, &b), 6);
    let c: Vec<char> = "aaaa".chars().collect();
    let d: Vec<char> = "aa".chars().collect();
    assert_eq!(shared_end_chars(&c, &d), 2);
}

#[test]
fn change_threshold_is_eighty_five_percent() {
    let shared = "a".repeat(17);
    // 17 of 20 characters shared on each side is exactly 85%: not significant.
    assert!(!changed_significantly(&format!("{shared}xyz"), &format!("{shared}XYZ")));
    // 8 of 10 on each side is 80%: significant.
    assert!(changed_significantly("aaaaaaaaaa", "aaaaaaaabc"));
    // 9 of 10 on each side is 90%: not significant.
    assert!(!changed_significantly("aaaaaaaaaa", "aaaaaaaaab"));
    assert!(!changed_significantly("text", ""));
}

#[test]
fn descriptions_are_needed_only_for_new_content() {
    assert!(!needs_description("   ", "", "", "0000000000000001"));
    assert!(!needs_description("text", "abc", "", "abc"));
    assert!(needs_description("text", "abc", "", "def"));
    assert!(!needs_description("a\nb\nc\nd\ne", "abc", "a\nb\nc\nd", "def"));
    assert!(needs_description("x\ny\nz\nw", "abc", "a\nb\nc\nd", "def"));
}

#[test]
fn signatures_are_sixteen_hex_digits() {
    let s = signature("some\ntext");
    assert_eq!(s.len(), 16);
    assert!(s.chars().all(|c| c.is_ascii_hexdigit() && !c.is_ascii_uppercase()));
    assert_eq!(s, signature("some   \n\ntext\n"));
    assert_eq!(hex16(0xab), "00000000000000ab");
    assert_eq!(hex16(u64::MAX), "ffffffffffffffff");
}

#[test]
fn prompts_end_with_the_capture() {
    let p = prompt("line one\nline two");
    assert!(p.starts_with(PROMPT_HEAD));
    assert!(p.ends_with("Terminal content:\nline one\nline two"));
    assert!(PROMPT_HEAD.starts_with("Describe what this terminal session is currently doing. Do not"));
}

#[test]
fn cached_records_give_signature_and_sample() {
    let generated = GeneratedMetadata {
        name: "n".to_string(),
        description: "d".to_string(),
    };
    let text = description_record(&generated, "a\nb", "00ff", "7");
    assert_eq!(
        cached_record_fields(&text),
        ("00ff".to_string(), "a\nb".to_string())
    );
    assert_eq!(cached_record_fields(""), (String::new(), String::new()));
}

#[test]
fn only_answers_with_a_description_are_cached() {
    let empty = GeneratedMetadata {
        name: "Name only".to_string(),
        description: String::new(),
    };
    assert_eq!(refresh_outcome(&empty, "text", "0123456789abcdef", "2"), None);
    let full = GeneratedMetadata {
        name: "Tests".to_string(),
        description: "running the test suite".to_string(),
    };
    assert_eq!(
        refresh_outcome(&full, "text", "0123456789abcdef", "2"),
        Some(description_record(&full, "text", "0123456789abcdef", "2"))
    );
}

#[test]
fn signatures_follow_the_text() {
    assert_ne!(signature("alpha"), signature("beta"));
    assert_eq!(signature("alpha\n\n"), signature("alpha"));
    assert!(!capture_allowed("tmux-tabs"));
    assert!(capture_allowed("editor"));
}

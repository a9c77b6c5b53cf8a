//! The JSON string encoder the command line prints with, and module version parts.
use m1_project::{json_string, json_string_or_null, normalise_version_part};

#[test]
fn json_string_escapes_everything_rfc8259_requires() {
    // #50: quote, backslash, and ALL of U+0000-U+001F.
    assert_eq!(json_string("plain"), "\"plain\"");
    assert_eq!(json_string("a\"b"), "\"a\\\"b\"");
    assert_eq!(json_string("a\\b"), "\"a\\\\b\"");
    assert_eq!(json_string("a\nb"), "\"a\\nb\"");
    assert_eq!(json_string("a\rb"), "\"a\\rb\"");
    assert_eq!(json_string("a\tb"), "\"a\\tb\"");
    assert_eq!(json_string("a\u{8}b"), "\"a\\bb\"");
    assert_eq!(json_string("a\u{c}b"), "\"a\\fb\"");
    assert_eq!(json_string("a\u{1}b"), "\"a\\u0001b\"");
    assert_eq!(json_string("a\u{1f}b"), "\"a\\u001fb\"");
    // Non-control unicode passes through unescaped.
    assert_eq!(json_string("°C"), "\"°C\"");
}

#[test]
fn json_string_escapes_quotes() {
    assert_eq!(json_string(r#"say "hi""#), r#""say \"hi\"""#);
}

#[test]
fn json_string_or_null_absent() {
    assert_eq!(json_string_or_null(None), "null");
    assert_eq!(json_string_or_null(Some("rpm")), "\"rpm\"");
}

#[test]
fn json_string_of_empty_text_is_two_quotes() {
    assert_eq!(json_string(""), "\"\"");
}

#[test]
fn json_string_never_holds_a_raw_control_character() {
    let all: String = (0u32..0x20).filter_map(char::from_u32).collect();
    let out = json_string(&all);
    assert!(out.chars().all(|c| (c as u32) >= 0x20), "{out:?}");
    assert!(out.starts_with('"') && out.ends_with('"'));
    assert!(out.contains("\\u0000") && out.contains("\\u001b") && out.contains("\\n"));
}

#[test]
fn version_parts_lose_their_leading_zeros() {
    assert_eq!(normalise_version_part("0108"), "108");
    assert_eq!(normalise_version_part("1"), "1");
    assert_eq!(normalise_version_part("000"), "0");
    assert_eq!(normalise_version_part(""), "0");
    assert_eq!(normalise_version_part("100"), "100");
}

#[test]
fn normalising_a_version_part_twice_changes_nothing_more() {
    for p in ["0108", "000", "", "7", "0070"] {
        let once = normalise_version_part(p);
        assert_eq!(normalise_version_part(once), once);
    }
}

//! What is printed for lines with control characters.

use artools::argrep::sanitize_for_display;
use std::borrow::Cow;

#[test]
fn plain_text_is_returned_unchanged_and_unallocated() {
    let input = "just an ordinary line, nothing weird here";
    let result = sanitize_for_display(input);
    assert_eq!(result, input);
    assert!(
        matches!(result, Cow::Borrowed(_)),
        "the common case (no control chars) must not allocate"
    );
}

#[test]
fn bell_character_is_escaped() {
    let input = "before\x07after";
    assert_eq!(sanitize_for_display(input), "before\\x07after");
}

#[test]
fn escape_character_is_escaped() {
    let input = "\x1b[31mfake red\x1b[0m";
    assert_eq!(sanitize_for_display(input), "\\x1b[31mfake red\\x1b[0m");
}

#[test]
fn carriage_return_is_escaped() {
    let input = "visible\rhidden";
    assert_eq!(sanitize_for_display(input), "visible\\x0dhidden");
}

#[test]
fn null_byte_is_escaped() {
    let input = "a\x00b";
    assert_eq!(sanitize_for_display(input), "a\\x00b");
}

#[test]
fn delete_character_is_escaped() {
    let input = "a\x7fb";
    assert_eq!(sanitize_for_display(input), "a\\x7fb");
}

#[test]
fn tab_is_left_alone() {
    let input = "col1\tcol2\tcol3";
    let result = sanitize_for_display(input);
    assert_eq!(result, input);
    assert!(matches!(result, Cow::Borrowed(_)));
}

#[test]
fn non_ascii_text_is_left_alone() {
    let input = "héllo wörld —日本語 — emoji 🎉 here";
    let result = sanitize_for_display(input);
    assert_eq!(result, input);
    assert!(matches!(result, Cow::Borrowed(_)));
}

#[test]
fn multiple_control_characters_are_each_escaped() {
    let input = "\x01\x02\x03";
    assert_eq!(sanitize_for_display(input), "\\x01\\x02\\x03");
}

#[test]
fn control_character_alongside_non_ascii_text_only_escapes_the_control_byte() {
    let input = "café\x07bar";
    assert_eq!(sanitize_for_display(input), "café\\x07bar");
}

#[test]
fn escaping_preserves_character_boundaries_not_byte_boundaries() {
    let input = "日\x07本";
    let result = sanitize_for_display(input);
    assert_eq!(result, "日\\x07本");
    assert!(
        std::str::from_utf8(result.as_bytes()).is_ok(),
        "result must always be valid UTF-8"
    );
}

#[test]
fn a_line_feed_is_escaped_even_when_it_is_the_only_control() {
    assert_eq!(sanitize_for_display("a\nb"), "a\\x0ab");
}

#[test]
fn sanitizing_a_second_time_changes_nothing() {
    let once = sanitize_for_display("a\x07\x1b[0m\x7f").into_owned();
    assert_eq!(sanitize_for_display(&once), once.as_str());
}

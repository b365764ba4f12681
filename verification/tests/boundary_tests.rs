use asr_pipeline::boundary::is_word_sentence_end;
use asr_pipeline::boundary::is_token_sentence_end;
use asr_pipeline::text::str_eq;
use asr_pipeline::text::trim_spaces;

#[test]
fn abbreviation_is_not_a_boundary() {
    assert!(!is_word_sentence_end("Dr.", Some("Smith")));
}

#[test]
fn period_before_uppercase_is_a_boundary() {
    assert!(is_word_sentence_end("end.", Some("Next")));
}

#[test]
fn period_before_lowercase_is_not_a_boundary() {
    assert!(!is_word_sentence_end("end.", Some("next")));
}

#[test]
fn missing_next_word_does_not_prevent_a_boundary() {
    assert!(is_word_sentence_end("done!", None));
    assert!(is_word_sentence_end("really?", None));
}

#[test]
fn plain_word_is_not_a_boundary() {
    assert!(!is_word_sentence_end("hello", Some("World")));
    assert!(!is_word_sentence_end("", None));
}

#[test]
fn abbreviation_match_is_exact() {
    // Case and punctuation must match the list exactly.
    assert!(is_word_sentence_end("DR.", Some("Smith")));
    assert!(is_word_sentence_end("dr.", Some("Smith")));
}

#[test]
fn doubled_punctuation_is_one_boundary() {
    assert!(!is_token_sentence_end("?", Some("!")));
    assert!(is_token_sentence_end("!", None));
}

#[test]
fn terminal_token_before_text_is_a_boundary() {
    assert!(is_token_sentence_end("?", Some("Then")));
    assert!(!is_token_sentence_end("word", Some("?")));
}

#[test]
fn doubled_marks_count_as_terminal_tokens() {
    assert!(is_token_sentence_end("?!", None));
    assert!(is_token_sentence_end("!!", Some("Then")));
    assert!(!is_token_sentence_end("..", Some("!?")));
    assert!(!is_token_sentence_end("...", None));
}

#[test]
fn string_equality_is_by_characters() {
    assert!(str_eq("abc", "abc"));
    assert!(!str_eq("abc", "abd"));
    assert!(!str_eq("abc", "ab"));
    assert!(str_eq("", ""));
}

#[test]
fn trimming_removes_edge_spaces_only() {
    assert_eq!(trim_spaces("  a b  "), "a b");
    assert_eq!(trim_spaces("x"), "x");
    assert_eq!(trim_spaces("   "), "");
    assert_eq!(trim_spaces(""), "");
}

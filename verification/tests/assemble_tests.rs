use asr_pipeline::types::Token;
use asr_pipeline::types::Word;
use asr_pipeline::assemble::tokens_to_words;
use asr_pipeline::assemble::extract_sentences_from_words;
use asr_pipeline::assemble::extract_sentences;
use asr_pipeline::seam::filter_central_tokens;

fn tok(text: &str, time_ms: u64) -> Token {
    Token { text: text.to_string(), time_ms }
}

fn word(text: &str, start_ms: u64, end_ms: u64) -> Word {
    Word { text: text.to_string(), start_ms, end_ms }
}

#[test]
fn words_are_split_at_leading_spaces() {
    let tokens = vec![tok(" Hello", 0), tok(" wor", 500), tok("ld", 700), tok(" next", 900)];
    let (words, carry) = tokens_to_words(&tokens);
    assert_eq!(words.len(), 2);
    assert_eq!(words[0].text, "Hello");
    assert_eq!((words[0].start_ms, words[0].end_ms), (0, 0));
    assert_eq!(words[1].text, "world");
    assert_eq!((words[1].start_ms, words[1].end_ms), (500, 700));
    assert_eq!(carry.len(), 1);
    assert_eq!(carry[0].text, " next");
    assert_eq!(carry[0].time_ms, 900);
}

#[test]
fn no_tokens_make_no_words() {
    let (words, carry) = tokens_to_words(&Vec::new());
    assert!(words.is_empty());
    assert!(carry.is_empty());
}

#[test]
fn sentences_close_at_oracle_boundaries() {
    let words = vec![
        word("Hello", 0, 200),
        word("world.", 300, 500),
        word("Next", 600, 700),
        word("one", 800, 900),
    ];
    let (sentences, carry) = extract_sentences_from_words(&words);
    assert_eq!(sentences.len(), 1);
    assert_eq!(sentences[0].text, "Hello world.");
    assert_eq!((sentences[0].start_ms, sentences[0].end_ms), (0, 500));
    assert_eq!(carry.len(), 2);
    assert_eq!(carry[0].text, "Next");
    assert_eq!(carry[1].text, "one");
}

#[test]
fn abbreviation_does_not_close_a_sentence() {
    let words = vec![word("Dr.", 0, 100), word("Smith", 200, 300), word("left.", 400, 500)];
    let (sentences, carry) = extract_sentences_from_words(&words);
    assert_eq!(sentences.len(), 1);
    assert_eq!(sentences[0].text, "Dr. Smith left.");
    assert_eq!((sentences[0].start_ms, sentences[0].end_ms), (0, 500));
    assert!(carry.is_empty());
}

#[test]
fn carry_words_are_prepended() {
    let carry_in = vec![word("Stale", 0, 100)];
    let tokens = vec![tok(" words.", 200), tok(" More", 400)];
    let (sentences, word_carry, token_carry) = extract_sentences(&carry_in, &tokens);
    assert_eq!(sentences.len(), 1);
    assert_eq!(sentences[0].text, "Stale words.");
    assert_eq!((sentences[0].start_ms, sentences[0].end_ms), (0, 200));
    assert!(word_carry.is_empty());
    assert_eq!(token_carry.len(), 1);
    assert_eq!(token_carry[0].text, " More");
}

#[test]
fn central_filter_shifts_surviving_tokens() {
    let tokens = vec![tok("early", 100), tok("kept", 4000), tok("late", 26000)];
    let kept = filter_central_tokens(&tokens, 22000, 4000, 26000);
    assert_eq!(kept.len(), 1);
    assert_eq!(kept[0].text, "kept");
    assert_eq!(kept[0].time_ms, 26000);
}

use asr_pipeline::types::Token;
use asr_pipeline::pipeline::PipelineState;
use asr_pipeline::pipeline::assemble_transcript;
use asr_pipeline::seam::extract_central_tokens;
use asr_pipeline::window::chunk_indices;

const RATE: usize = 16000;

fn tok(text: &str, time_ms: u64) -> Token {
    Token { text: text.to_string(), time_ms }
}

#[test]
fn flush_emits_the_unfinished_tail() {
    let mut state = PipelineState::new();
    let sentences = state.process_window_tokens(&vec![tok(" Hello", 0), tok(" wor", 500)]);
    assert!(sentences.is_empty());
    let last = state.flush().expect("the carried text must still come out");
    assert_eq!(last.text, "Hello wor");
    assert_eq!((last.start_ms, last.end_ms), (0, 500));
    assert!(state.carry_words.is_empty());
    assert!(state.carry_tokens.is_empty());
}

#[test]
fn flush_of_an_empty_state_emits_nothing() {
    let mut state = PipelineState::new();
    assert!(state.flush().is_none());
}

#[test]
fn carry_spans_windows_without_loss() {
    let mut state = PipelineState::new();
    let first = state.process_window_tokens(&vec![tok(" One", 0), tok(" two.", 1000)]);
    // "two." could still be an abbreviation-like fragment for the oracle,
    // but with no following word it is not yet closed as a word at all.
    assert!(first.is_empty());
    let second = state.process_window_tokens(&vec![tok(" Three", 2000), tok(" four.", 3000)]);
    assert_eq!(second.len(), 1);
    assert_eq!(second[0].text, "One two.");
    assert_eq!((second[0].start_ms, second[0].end_ms), (0, 1000));
    let last = state.flush().expect("tail sentence");
    assert_eq!(last.text, "Three four.");
    assert_eq!((last.start_ms, last.end_ms), (2000, 3000));
}

#[test]
fn transcript_timestamps_are_non_decreasing() {
    let windows = vec![
        vec![tok(" Alpha", 0), tok(" beta.", 900), tok(" Gamma", 1500)],
        vec![tok(" delta", 2200), tok(" ends!", 3100), tok(" Tail", 4000)],
        vec![tok(" words", 5000)],
    ];
    let sentences = assemble_transcript(&windows);
    assert!(sentences.len() >= 2);
    for pair in sentences.windows(2) {
        assert!(pair[0].start_ms <= pair[1].start_ms);
        assert!(pair[0].start_ms <= pair[0].end_ms);
    }
    let joined: Vec<String> = sentences.iter().map(|s| s.text.clone()).collect();
    assert_eq!(joined.join(" "), "Alpha beta. Gamma delta ends! Tail words");
}

/// A synthetic, perfectly repeatable "recognizer": the ground truth is a
/// fixed timeline of tokens; a window's output is every token whose time
/// falls inside the window, with window-relative times.
fn synthetic_window_output(truth: &[(String, u64)], start: usize, end: usize) -> Vec<Token> {
    let start_ms = (start as u64) * 1000 / (RATE as u64);
    let end_ms = (end as u64) * 1000 / (RATE as u64);
    truth
        .iter()
        .filter(|&&(_, t)| start_ms <= t && t < end_ms)
        .map(|&(ref text, t)| Token { text: text.clone(), time_ms: t - start_ms })
        .collect()
}

fn transcript_with_overlap(truth: &[(String, u64)], total: usize, overlap_seconds: usize) -> String {
    let chunk_seconds = 30;
    let mut windows = Vec::new();
    for (s, e) in chunk_indices(total, chunk_seconds * RATE, overlap_seconds * RATE) {
        let raw = synthetic_window_output(truth, s, e);
        windows.push(extract_central_tokens(
            &raw,
            s,
            e,
            total,
            RATE as u32,
            chunk_seconds,
            overlap_seconds,
        ));
    }
    let sentences = assemble_transcript(&windows);
    let texts: Vec<String> = sentences.iter().map(|s| s.text.clone()).collect();
    texts.join(" ")
}

#[test]
fn transcript_is_insensitive_to_overlap_sizing() {
    // 65 s of audio, one token every 800 ms, a sentence ending every
    // seventh token. Both overlaps are far larger than the edge region the
    // synthetic recognizer (width zero) would need.
    let mut truth: Vec<(String, u64)> = Vec::new();
    let mut t = 0u64;
    let mut k = 0usize;
    while t < 65000 {
        let text = if k % 7 == 6 {
            format!(" w{}.", k)
        } else {
            format!(" W{}", k)
        };
        truth.push((text, t));
        t += 800;
        k += 1;
    }
    let total = 65 * RATE;
    let with_8 = transcript_with_overlap(&truth, total, 8);
    let with_10 = transcript_with_overlap(&truth, total, 10);
    assert_eq!(with_8, with_10);
    assert!(with_8.contains("w6."));
    assert!(with_8.contains("W81"));
}

use asr_pipeline::window::chunk_indices;
use asr_pipeline::seam::central_range_for_chunk;
use asr_pipeline::pipeline::total_duration_ms;
use asr_pipeline::pipeline::recognizer_thread_count;

const RATE: usize = 16000;

#[test]
fn empty_recording_has_no_windows() {
    let w = chunk_indices(0, 30 * RATE, 8 * RATE);
    assert!(w.is_empty());
}

#[test]
fn short_recording_is_one_window() {
    let w = chunk_indices(5 * RATE, 30 * RATE, 8 * RATE);
    assert_eq!(w, vec![(0, 5 * RATE)]);
}

#[test]
fn exact_chunk_is_one_window() {
    let w = chunk_indices(30 * RATE, 30 * RATE, 8 * RATE);
    assert_eq!(w, vec![(0, 30 * RATE)]);
}

#[test]
fn sixty_five_seconds_gives_three_windows() {
    // chunk = 30 s, overlap = 8 s, 65 s of audio.
    let w = chunk_indices(65 * RATE, 30 * RATE, 8 * RATE);
    assert_eq!(
        w,
        vec![(0, 480000), (352000, 832000), (704000, 1040000)]
    );
}

#[test]
fn windows_cover_without_gaps() {
    let total = 10usize;
    let w = chunk_indices(total, 4, 1);
    assert_eq!(w, vec![(0, 4), (3, 7), (6, 10)]);
    for x in 0..total {
        assert!(w.iter().any(|&(s, e)| s <= x && x < e));
    }
}

#[test]
fn central_ranges_for_three_windows() {
    let len = 65 * RATE;
    assert_eq!(
        central_range_for_chunk(0, 480000, len, 16000, 30, 8),
        (0, 26000)
    );
    assert_eq!(
        central_range_for_chunk(352000, 832000, len, 16000, 30, 8),
        (4000, 26000)
    );
    assert_eq!(
        central_range_for_chunk(704000, 1040000, len, 16000, 30, 8),
        (4000, 21000)
    );
}

#[test]
fn central_ranges_tile_the_recording() {
    // Absolute central ranges of the three windows above: [0, 26000),
    // [26000, 48000), [48000, 65000) — contiguous, ending at the duration.
    let len = 65 * RATE;
    let w = chunk_indices(len, 30 * RATE, 8 * RATE);
    let mut expected_start = 0u64;
    for (i, &(s, e)) in w.iter().enumerate() {
        let (cs, ce) = central_range_for_chunk(s, e, len, 16000, 30, 8);
        let shift = (s as u64) * 1000 / 16000;
        assert_eq!(shift + cs, expected_start);
        expected_start = shift + ce;
        if i == w.len() - 1 {
            assert_eq!(expected_start, total_duration_ms(len, 16000));
        }
    }
}

#[test]
fn duration_rounds_toward_zero() {
    assert_eq!(total_duration_ms(1040000, 16000), 65000);
    assert_eq!(total_duration_ms(16001, 16000), 1000);
    assert_eq!(total_duration_ms(0, 16000), 0);
}

#[test]
fn thread_count_is_clamped() {
    assert_eq!(recognizer_thread_count(1), 1);
    assert_eq!(recognizer_thread_count(2), 1);
    assert_eq!(recognizer_thread_count(8), 4);
    assert_eq!(recognizer_thread_count(16), 6);
    assert_eq!(recognizer_thread_count(64), 6);
}

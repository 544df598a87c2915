use vibevoice::segments::{
    is_duplicate_or_overlapping, merge_transcription_segments, offset_segments,
    TranscriptionSegment,
};

fn seg(start: i64, end: i64, speaker: i64, content: &str) -> TranscriptionSegment {
    TranscriptionSegment { start, end, speaker, content: content.to_string() }
}

#[test]
fn timestamp_offset_is_applied() {
    let parsed = offset_segments(vec![seg(1_000, 2_500, 0, "hello")], 120_000);
    assert_eq!(parsed[0].start, 121_000);
    assert_eq!(parsed[0].end, 122_500);
}

#[test]
fn offset_keeps_speaker_and_text() {
    let moved = offset_segments(vec![seg(0, 10, 3, "a"), seg(20, 30, 4, "b")], 5);
    assert_eq!(moved, vec![seg(5, 15, 3, "a"), seg(25, 35, 4, "b")]);
    let with_offset = seg(-5, 5, 1, "c").with_offset(5);
    assert_eq!(with_offset, seg(0, 10, 1, "c"));
}

#[test]
fn overlap_dedup_skips_duplicate_boundary_segments() {
    let mut merged = vec![seg(10_000, 12_000, 0, "hello")];
    let appended = merge_transcription_segments(
        &mut merged,
        vec![seg(10_200, 11_800, 0, "hello"), seg(12_000, 14_000, 0, "world")],
    );
    assert_eq!(merged.len(), 2);
    assert_eq!(appended.len(), 1);
    assert_eq!(appended[0].content, "world");
}

#[test]
fn overlapping_new_segment_is_trimmed_forward() {
    let mut merged = vec![seg(0, 5_000, 0, "first")];
    let appended = merge_transcription_segments(&mut merged, vec![seg(4_500, 7_000, 1, "second")]);
    assert_eq!(appended[0].start, 5_000);
}

#[test]
fn merge_drops_empty_and_reversed_segments() {
    let mut merged = Vec::new();
    let appended = merge_transcription_segments(
        &mut merged,
        vec![seg(1_000, 1_000, 0, "empty"), seg(3_000, 2_000, 0, "reversed"), seg(0, 500, 0, "ok")],
    );
    assert_eq!(appended, vec![seg(0, 500, 0, "ok")]);
    assert_eq!(merged, vec![seg(0, 500, 0, "ok")]);
}

#[test]
fn merge_drops_segment_with_no_time_left_after_trim() {
    let mut merged = vec![seg(0, 5_000, 0, "first")];
    // Starts inside, ends 600 ms after: not covered, but trimmed to start at 5000.
    let appended = merge_transcription_segments(&mut merged, vec![seg(1_000, 5_600, 1, "tail")]);
    assert_eq!(appended, vec![seg(5_000, 5_600, 1, "tail")]);
    // Starts inside and ends inside the half-second margin: covered, dropped.
    let appended = merge_transcription_segments(&mut merged, vec![seg(5_100, 6_000, 2, "x")]);
    assert_eq!(appended, Vec::<TranscriptionSegment>::new());
}

#[test]
fn merge_keeps_timeline_ordered() {
    let mut merged = vec![seg(0, 2_000, 0, "a")];
    let _ = merge_transcription_segments(
        &mut merged,
        vec![
            seg(1_000, 3_000, 1, "b"),
            seg(2_500, 4_000, 0, "c"),
            seg(10_000, 11_000, 2, "d"),
            seg(9_000, 12_000, 2, "e"),
        ],
    );
    for s in &merged {
        assert!(s.start < s.end);
    }
    for pair in merged.windows(2) {
        assert!(pair[0].end <= pair[1].start);
    }
    assert_eq!(
        merged,
        vec![
            seg(0, 2_000, 0, "a"),
            seg(2_000, 3_000, 1, "b"),
            seg(3_000, 4_000, 0, "c"),
            seg(10_000, 11_000, 2, "d"),
            seg(11_000, 12_000, 2, "e"),
        ]
    );
}

#[test]
fn repeated_segment_is_not_merged_twice() {
    let mut merged = vec![seg(0, 1_000, 0, " hi ")];
    let appended = merge_transcription_segments(&mut merged, vec![seg(0, 3_000, 0, "hi")]);
    assert!(appended.is_empty());
    assert_eq!(merged.len(), 1);
}

#[test]
fn duplicate_detection_cases() {
    let prev = seg(10_000, 12_000, 0, "hello");
    // same speaker and trimmed text, start less than a second apart
    assert!(is_duplicate_or_overlapping(&prev, &seg(10_999, 20_000, 0, " hello\n")));
    // exactly one second apart is not near
    assert!(!is_duplicate_or_overlapping(&prev, &seg(12_000, 20_000, 0, "hello")));
    // different speaker, starting after the end
    assert!(!is_duplicate_or_overlapping(&prev, &seg(12_000, 13_000, 1, "hello")));
    // covered: starts before the end and ends within half a second of it
    assert!(is_duplicate_or_overlapping(&prev, &seg(11_000, 12_500, 1, "other")));
    assert!(!is_duplicate_or_overlapping(&prev, &seg(11_000, 12_501, 1, "other")));
}

#[test]
fn blank_chunk_output_has_no_segments() {
    assert!(vibevoice::segments::is_blank_output(""));
    assert!(vibevoice::segments::is_blank_output(" \n\t "));
    assert!(!vibevoice::segments::is_blank_output(" [] "));
}

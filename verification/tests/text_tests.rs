use vibevoice::text::chunk_progress_line;
use vibevoice::segments::TranscriptionSegment;
use vibevoice::text::{format_clock, format_segments, format_timestamp, wrap_text};

fn seg(start: i64, end: i64, speaker: i64, content: &str) -> TranscriptionSegment {
    TranscriptionSegment { start, end, speaker, content: content.to_string() }
}

#[test]
fn format_clock_formats_hours_and_minutes() {
    assert_eq!(format_clock(65), "01:05");
    assert_eq!(format_clock(3665), "01:01:05");
}

#[test]
fn format_clock_edges() {
    assert_eq!(format_clock(0), "00:00");
    assert_eq!(format_clock(3599), "59:59");
    assert_eq!(format_clock(3600), "01:00:00");
    assert_eq!(format_clock(360_000), "100:00:00");
}

#[test]
fn format_timestamp_uses_whole_seconds() {
    assert_eq!(format_timestamp(65_999), "01:05");
    assert_eq!(format_timestamp(3_665_000), "01:01:05");
    assert_eq!(format_timestamp(999), "00:00");
    assert_eq!(format_timestamp(-2_500), "00:00");
}

#[test]
fn wrap_text_breaks_lines_at_width() {
    assert_eq!(wrap_text("aaa bbb ccc", 7, ".."), "aaa bbb\n..ccc");
    assert_eq!(wrap_text("  one   two\tthree ", 100, ""), "one two three");
    assert_eq!(wrap_text("", 10, ">"), "");
    assert_eq!(wrap_text("   ", 10, ">"), "");
}

#[test]
fn wrap_text_keeps_long_words_whole() {
    assert_eq!(wrap_text("abcdefghij k", 3, "-"), "abcdefghij\n-k");
    assert_eq!(wrap_text("a b", 0, " "), "a\n b");
}

#[test]
fn wrap_text_measures_utf8_bytes() {
    assert_eq!(wrap_text("\u{e9} \u{e9}", 4, "|"), "\u{e9}\n|\u{e9}");
    assert_eq!(wrap_text("\u{e9} \u{e9}", 5, "|"), "\u{e9} \u{e9}");
}

#[test]
fn format_segments_groups_by_speaker() {
    let text = format_segments(
        &[
            seg(0, 1_500, 0, "hello world"),
            seg(1_500, 65_000, 0, " second  line "),
            seg(3_665_000, 3_666_000, 1, "x"),
        ],
        80,
    );
    assert_eq!(
        text,
        "Speaker 0:\n  [00:00->00:01] hello world\n  [00:01->01:05] second line\n\nSpeaker 1:\n  [01:01:05->01:01:06] x\n"
    );
}

#[test]
fn format_segments_wraps_under_the_timestamp() {
    let text = format_segments(&[seg(0, 1_000, 0, "aaa bbb ccc")], 24);
    assert_eq!(text, "Speaker 0:\n  [00:00->00:01] aaa bbb\n                 ccc\n");
}

#[test]
fn format_segments_repeats_heading_when_speaker_returns() {
    let text = format_segments(&[seg(0, 1_000, 0, "a"), seg(1_000, 2_000, 1, "b"), seg(2_000, 3_000, 0, "c")], 80);
    assert_eq!(
        text,
        "Speaker 0:\n  [00:00->00:01] a\n\nSpeaker 1:\n  [00:01->00:02] b\n\nSpeaker 0:\n  [00:02->00:03] c\n"
    );
}

#[test]
fn format_segments_of_nothing_is_empty() {
    assert_eq!(format_segments(&[], 80), "");
    assert_eq!(format_segments(&[seg(0, 1_000, -3, "")], 80), "Speaker -3:\n  [00:00->00:01] \n");
}

#[test]
fn progress_line_for_chunks() {
    let total = 24_000 * 1_000;
    assert_eq!(chunk_progress_line(1, 1, 0, 900_000, total, 24_000), "Processing...");
    assert_eq!(
        chunk_progress_line(2, 3, 24_000 * 60, 900_000, total, 24_000),
        "[2/3] Processing 01:00-16:00..."
    );
    assert_eq!(
        chunk_progress_line(3, 3, 24_000 * 900, 900_000, total, 24_000),
        "[3/3] Processing 15:00-16:40..."
    );
    assert_eq!(
        chunk_progress_line(1, 2, 23_999, 1_500, total, 24_000),
        "[1/2] Processing 00:00-00:02..."
    );
}

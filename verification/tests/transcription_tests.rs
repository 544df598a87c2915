use vibevoice::chunking::AudioChunkRange;
use vibevoice::error::VibeVoiceAsrError;
use vibevoice::segments::TranscriptionSegment;
use vibevoice::transcription::{
    chunk_start_time_ms, ChunkedTranscription, ChunkedTranscriptionOptions, TARGET_SAMPLE_RATE,
};

fn seg(start: i64, end: i64, speaker: i64, content: &str) -> TranscriptionSegment {
    TranscriptionSegment { start, end, speaker, content: content.to_string() }
}

#[test]
fn default_options() {
    let options = ChunkedTranscriptionOptions::default();
    assert_eq!(options.max_chunk_duration_ms, 900_000);
    assert_eq!(options.overlap_ms, 30_000);
    assert_eq!(options.max_new_tokens, 128);
    assert_eq!(options.context_info, None);
    assert_eq!(TARGET_SAMPLE_RATE, 24_000);
}

#[test]
fn other_sample_rates_are_refused() {
    let options = ChunkedTranscriptionOptions::default();
    assert!(matches!(
        ChunkedTranscription::start(16_000, 16_000, &options),
        Err(VibeVoiceAsrError::InvalidInput(_))
    ));
}

#[test]
fn no_token_budget_means_no_chunks() {
    let options = ChunkedTranscriptionOptions { max_new_tokens: 0, ..Default::default() };
    let t = ChunkedTranscription::start(24_000 * 60, 24_000, &options).unwrap();
    assert!(t.chunks().is_empty());
    assert_eq!(t.next_chunk(), None);
    assert!(t.finish().is_empty());
}

#[test]
fn chunk_start_times_round_to_milliseconds() {
    assert_eq!(chunk_start_time_ms(0), 0);
    assert_eq!(chunk_start_time_ms(24_000), 1_000);
    assert_eq!(chunk_start_time_ms(11), 0);
    assert_eq!(chunk_start_time_ms(12), 1);
    assert_eq!(chunk_start_time_ms(64_080_000), 2_670_000);
}

#[test]
fn chunks_are_offset_and_merged_in_turn() {
    let options = ChunkedTranscriptionOptions {
        max_chunk_duration_ms: 60_000,
        overlap_ms: 10_000,
        ..Default::default()
    };
    let mut t = ChunkedTranscription::start(24_000 * 100, 24_000, &options).unwrap();
    assert_eq!(
        t.chunks().clone(),
        vec![
            AudioChunkRange { chunk_index: 1, total_chunks: 2, start_sample: 0, end_sample: 1_440_000 },
            AudioChunkRange {
                chunk_index: 2,
                total_chunks: 2,
                start_sample: 1_200_000,
                end_sample: 2_400_000
            },
        ]
    );
    let first = t.next_chunk().unwrap();
    assert_eq!(first.chunk_index, 1);
    let added = t
        .complete_chunk(vec![seg(0, 20_000, 0, "intro"), seg(48_000, 59_000, 1, "boundary")])
        .unwrap();
    assert_eq!(added.len(), 2);
    let second = t.next_chunk().unwrap();
    assert_eq!(second.start_sample, 1_200_000);
    // The second chunk starts at 50 s; its first segment repeats the boundary one.
    let added = t
        .complete_chunk(vec![seg(-2_000, 9_000, 1, "boundary"), seg(9_000, 30_000, 0, "rest")])
        .unwrap();
    assert_eq!(added, vec![seg(59_000, 80_000, 0, "rest")]);
    assert_eq!(t.next_chunk(), None);
    assert_eq!(t.merged().len(), 3);
    let merged = t.finish();
    assert_eq!(
        merged,
        vec![seg(0, 20_000, 0, "intro"), seg(48_000, 59_000, 1, "boundary"), seg(59_000, 80_000, 0, "rest")]
    );
}

#[test]
fn out_of_range_times_are_refused_without_change() {
    let options = ChunkedTranscriptionOptions {
        max_chunk_duration_ms: 1_000,
        overlap_ms: 0,
        ..Default::default()
    };
    let mut t = ChunkedTranscription::start(48_000, 24_000, &options).unwrap();
    t.complete_chunk(vec![seg(0, 500, 0, "a")]).unwrap();
    let err = t.complete_chunk(vec![seg(0, i64::MAX, 0, "b")]);
    assert!(matches!(err, Err(VibeVoiceAsrError::InvalidInput(_))));
    assert_eq!(t.next_chunk().unwrap().chunk_index, 2);
    assert_eq!(t.merged().len(), 1);
}

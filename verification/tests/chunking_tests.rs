use vibevoice::chunking::{
    split_audio_into_chunks, AudioChunkRange, DEFAULT_CHUNK_OVERLAP_MS,
    DEFAULT_MAX_CHUNK_DURATION_MS,
};

#[test]
fn single_chunk_for_short_audio() {
    let chunks = split_audio_into_chunks(24_000 * 60, 24_000, 45 * 60 * 1000, 30 * 1000);
    assert_eq!(chunks.len(), 1);
    assert_eq!(chunks[0].start_sample, 0);
    assert_eq!(chunks[0].end_sample, 24_000 * 60);
}

#[test]
fn long_audio_uses_overlap() {
    let chunks = split_audio_into_chunks(24_000 * 100 * 60, 24_000, 45 * 60 * 1000, 30 * 1000);
    assert!(chunks.len() >= 3);
    assert_eq!(chunks[1].start_sample, 24_000 * (45 * 60 - 30));
}

#[test]
fn empty_audio_still_returns_single_empty_chunk() {
    let chunks = split_audio_into_chunks(0, 24_000, 45 * 60 * 1000, 30 * 1000);
    assert_eq!(chunks.len(), 1);
    assert_eq!(chunks[0].end_sample, 0);
}

#[test]
fn long_audio_chunks_tile_the_recording() {
    let total = 24_000 * 100 * 60;
    let chunks = split_audio_into_chunks(total, 24_000, 45 * 60 * 1000, 30 * 1000);
    assert_eq!(
        chunks,
        vec![
            AudioChunkRange { chunk_index: 1, total_chunks: 3, start_sample: 0, end_sample: 64_800_000 },
            AudioChunkRange {
                chunk_index: 2,
                total_chunks: 3,
                start_sample: 64_080_000,
                end_sample: 128_880_000,
            },
            AudioChunkRange {
                chunk_index: 3,
                total_chunks: 3,
                start_sample: 128_160_000,
                end_sample: total,
            },
        ]
    );
    for pair in chunks.windows(2) {
        assert_eq!(pair[0].end_sample - pair[1].start_sample, 24_000 * 30);
    }
}

#[test]
fn defaults_are_fifteen_minutes_and_thirty_seconds() {
    assert_eq!(DEFAULT_MAX_CHUNK_DURATION_MS, 15 * 60 * 1000);
    assert_eq!(DEFAULT_CHUNK_OVERLAP_MS, 30 * 1000);
}

#[test]
fn chunk_length_is_at_least_one_second() {
    let chunks = split_audio_into_chunks(48_000, 24_000, 10, 0);
    assert_eq!(
        chunks,
        vec![
            AudioChunkRange { chunk_index: 1, total_chunks: 2, start_sample: 0, end_sample: 24_000 },
            AudioChunkRange { chunk_index: 2, total_chunks: 2, start_sample: 24_000, end_sample: 48_000 },
        ]
    );
}

#[test]
fn overlap_not_shorter_than_chunk_gives_single_chunk() {
    let chunks = split_audio_into_chunks(100_000, 24_000, 1_000, 1_000);
    assert_eq!(
        chunks,
        vec![AudioChunkRange { chunk_index: 1, total_chunks: 1, start_sample: 0, end_sample: 100_000 }]
    );
}

#[test]
fn durations_round_to_nearest_sample() {
    // 1500 ms at 1 Hz is 1.5 samples, rounded up to 2; 499 ms is 0.499, rounded to 0.
    let chunks = split_audio_into_chunks(5, 1, 1_500, 499);
    assert_eq!(chunks.len(), 3);
    assert_eq!(chunks[1].start_sample, 2);
    assert_eq!(chunks[2].start_sample, 4);
    assert_eq!(chunks[2].end_sample, 5);
}

#[test]
fn recording_of_exactly_one_chunk_is_not_split() {
    let chunks = split_audio_into_chunks(24_000 * 60, 24_000, 60 * 1000, 30 * 1000);
    assert_eq!(chunks.len(), 1);
    assert_eq!(chunks[0].end_sample, 24_000 * 60);
}

//! The decisions of chunked transcription: which chunks to run the model
//! on, where each chunk's transcript sits on the recording's timeline, and
//! how the chunk transcripts are merged. Running the model is left to the
//! caller, which feeds each chunk's transcript back in turn.
use vstd::prelude::*;

use crate::chunking::{
    AudioChunkRange, DEFAULT_CHUNK_OVERLAP_MS, DEFAULT_MAX_CHUNK_DURATION_MS, chunk_plan_spec,
    chunks_tile_recording, duration_to_samples, spec_max_chunk_samples, split_audio_into_chunks,
};
use crate::error::VibeVoiceAsrError;
use crate::segments::{
    SegmentView, TranscriptionSegment, lemma_merge_keeps_order, merge_appended,
    merge_transcription_segments, offset_segments, segs_view, shift_fits, shifted, well_ordered,
};

verus! {

/// Sample rate of the audio the model consumes.
pub const TARGET_SAMPLE_RATE: u32 = 24_000;

/// How a long recording is transcribed.
#[derive(Debug, Clone, Copy, PartialEq, Eq)]
pub struct ChunkedTranscriptionOptions<'a> {
    /// Longest chunk, in milliseconds.
    pub max_chunk_duration_ms: u64,
    /// Overlap between neighbouring chunks, in milliseconds.
    pub overlap_ms: u64,
    /// Most tokens the model may generate per chunk.
    pub max_new_tokens: usize,
    /// Extra information handed to the model with every chunk.
    pub context_info: Option<&'a str>,
}

impl<'a> Default for ChunkedTranscriptionOptions<'a> {
    fn default() -> (r: Self)
        ensures
            r.max_chunk_duration_ms == DEFAULT_MAX_CHUNK_DURATION_MS,
            r.overlap_ms == DEFAULT_CHUNK_OVERLAP_MS,
            r.max_new_tokens == 128,
            r.context_info is None,
    {
        ChunkedTranscriptionOptions {
            max_chunk_duration_ms: DEFAULT_MAX_CHUNK_DURATION_MS,
            overlap_ms: DEFAULT_CHUNK_OVERLAP_MS,
            max_new_tokens: 128,
            context_info: None,
        }
    }
}

/// Time in milliseconds, to the nearest millisecond, at which the
/// 24 kHz sample `start_sample` is played.
pub open spec fn start_time_ms(start_sample: int) -> int {
    (start_sample + 12) / 24
}

/// Where on the timeline a chunk starting at `start_sample` sits.
pub fn chunk_start_time_ms(start_sample: usize) -> (r: i64)
    ensures
        r == start_time_ms(start_sample as int),
{
    ((start_sample as u128 + 12) / 24) as i64
}

/// Whether every segment stays in range once moved by `offset`.
pub open spec fn all_shifts_fit(segs: Seq<TranscriptionSegment>, offset: int) -> bool {
    forall|i: int| 0 <= i < segs.len() ==> shift_fits(#[trigger] segs[i]@, offset)
}

fn shifts_fit(segments: &Vec<TranscriptionSegment>, offset: i64) -> (r: bool)
    ensures
        r == all_shifts_fit(segments@, offset as int),
{
    let mut i: usize = 0;
    while i < segments.len()
        invariant
            i <= segments.len(),
            forall|k: int| 0 <= k < i ==> shift_fits(#[trigger] segments@[k]@, offset as int),
        decreases segments.len() - i,
    {
        let s = segments[i].start as i128 + offset as i128;
        let e = segments[i].end as i128 + offset as i128;
        if s < i64::MIN as i128 || s > i64::MAX as i128 || e < i64::MIN as i128 || e
            > i64::MAX as i128 {
            assert(!shift_fits(segments@[i as int]@, offset as int));
            return false;
        }
        i = i + 1;
    }
    true
}

/// A transcription in progress: the chunks of the recording, how many of
/// them have been transcribed, and the merged transcript so far.
pub struct ChunkedTranscription {
    chunks: Vec<AudioChunkRange>,
    next: usize,
    merged: Vec<TranscriptionSegment>,
}

impl ChunkedTranscription {
    /// The chunks still to be transcribed, in order, are `chunks()[next()..]`.
    pub closed spec fn spec_chunks(&self) -> Seq<AudioChunkRange> {
        self.chunks@
    }

    /// How many chunks have been transcribed.
    pub closed spec fn spec_next(&self) -> nat {
        self.next as nat
    }

    /// The merged transcript so far.
    pub closed spec fn spec_merged(&self) -> Seq<SegmentView> {
        segs_view(self.merged@)
    }

    /// The transcription is consistent: no more chunks done than planned,
    /// and the merged transcript is a well-ordered timeline.
    pub open spec fn wf(&self) -> bool {
        &&& self.spec_next() <= self.spec_chunks().len()
        &&& well_ordered(self.spec_merged())
    }

    /// Plans the transcription of `total_samples` samples at `sample_rate` Hz.
    /// Audio at any rate other than 24 kHz is refused; when no tokens may be
    /// generated there is nothing to transcribe; otherwise the recording is
    /// split into chunks as `split_audio_into_chunks` does.
    pub fn start(total_samples: usize, sample_rate: u32, options: &ChunkedTranscriptionOptions) -> (r:
        Result<Self, VibeVoiceAsrError>)
        ensures
            r is Err <==> sample_rate != TARGET_SAMPLE_RATE,
            r matches Err(e) ==> e is InvalidInput,
            r matches Ok(t) ==> {
                &&& t.wf()
                &&& t.spec_next() == 0
                &&& t.spec_merged() == Seq::<SegmentView>::empty()
                &&& options.max_new_tokens == 0 ==> t.spec_chunks() == Seq::<AudioChunkRange>::empty()
                &&& options.max_new_tokens > 0 ==> {
                    let max = spec_max_chunk_samples(
                        options.max_chunk_duration_ms as int,
                        sample_rate as int,
                    );
                    let overlap = duration_to_samples(options.overlap_ms as int, sample_rate as int);
                    &&& chunks_tile_recording(t.spec_chunks(), total_samples as int, max, overlap)
                    &&& total_samples > 0 ==> chunk_plan_spec(
                        t.spec_chunks(),
                        total_samples as int,
                        max,
                        overlap,
                    )
                }
            },
    {
        if sample_rate != TARGET_SAMPLE_RATE {
            return Err(
                VibeVoiceAsrError::InvalidInput(String::from_str("expected 24000 Hz audio")),
            );
        }
        let chunks = if options.max_new_tokens == 0 {
            Vec::new()
        } else {
            split_audio_into_chunks(
                total_samples,
                sample_rate,
                options.max_chunk_duration_ms,
                options.overlap_ms,
            )
        };
        let t = ChunkedTranscription { chunks, next: 0, merged: Vec::new() };
        assert(segs_view(t.merged@) =~= Seq::<SegmentView>::empty());
        Ok(t)
    }

    /// All chunks of the recording, in order.
    pub fn chunks(&self) -> (r: &Vec<AudioChunkRange>)
        ensures
            r@ == self.spec_chunks(),
    {
        &self.chunks
    }

    /// The chunk to transcribe next, if any is left.
    pub fn next_chunk(&self) -> (r: Option<AudioChunkRange>)
        requires
            self.wf(),
        ensures
            r == if self.spec_next() < self.spec_chunks().len() {
                Some(self.spec_chunks()[self.spec_next() as int])
            } else {
                None
            },
    {
        if self.next < self.chunks.len() {
            Some(self.chunks[self.next])
        } else {
            None
        }
    }

    /// Takes the transcript of the next chunk (its times relative to the
    /// chunk's start), moves it to the chunk's place on the timeline and
    /// merges it into the transcript. Returns the segments that were added,
    /// or `InvalidInput` (changing nothing) when a moved time would leave the
    /// `i64` range.
    pub fn complete_chunk(&mut self, chunk_segments: Vec<TranscriptionSegment>) -> (r: Result<
        Vec<TranscriptionSegment>,
        VibeVoiceAsrError,
    >)
        requires
            old(self).wf(),
            old(self).spec_next() < old(self).spec_chunks().len(),
        ensures
            final(self).wf(),
            final(self).spec_chunks() == old(self).spec_chunks(),
            ({
                let offset = start_time_ms(
                    old(self).spec_chunks()[old(self).spec_next() as int].start_sample as int,
                );
                let moved = segs_view(chunk_segments@).map_values(
                    |s: SegmentView| shifted(s, offset),
                );
                &&& r is Ok <==> all_shifts_fit(chunk_segments@, offset)
                &&& r matches Err(e) ==> e is InvalidInput && final(self).spec_next()
                    == old(self).spec_next() && final(self).spec_merged()
                    == old(self).spec_merged()
                &&& r matches Ok(appended) ==> {
                    &&& segs_view(appended@) == merge_appended(old(self).spec_merged(), moved)
                    &&& final(self).spec_merged() == old(self).spec_merged() + segs_view(appended@)
                    &&& final(self).spec_next() == old(self).spec_next() + 1
                }
            }),
    {
        let next = self.next;
        assert(next < self.chunks.len());
        let offset = chunk_start_time_ms(self.chunks[next].start_sample);
        if !shifts_fit(&chunk_segments, offset) {
            return Err(
                VibeVoiceAsrError::InvalidInput(
                    String::from_str("segment time out of range after offset"),
                ),
            );
        }
        let moved = offset_segments(chunk_segments, offset);
        let ghost before = segs_view(self.merged@);
        let appended = merge_transcription_segments(&mut self.merged, moved);
        proof {
            lemma_merge_keeps_order(before, segs_view(moved@));
        }
        self.next = next + 1;
        Ok(appended)
    }

    /// The merged transcript so far.
    pub fn merged(&self) -> (r: &Vec<TranscriptionSegment>)
        ensures
            segs_view(r@) == self.spec_merged(),
    {
        &self.merged
    }

    /// Ends the transcription, handing back the merged transcript.
    pub fn finish(self) -> (r: Vec<TranscriptionSegment>)
        ensures
            segs_view(r@) == self.spec_merged(),
    {
        self.merged
    }
}

} // verus!

//! Splitting long recordings into overlapping chunks.
//!
//! Durations are carried as whole milliseconds; sample positions are
//! indices into the mono 24 kHz sample buffer.
use vstd::prelude::*;

verus! {

/// Default longest chunk, in milliseconds (15 minutes).
pub const DEFAULT_MAX_CHUNK_DURATION_MS: u64 = 900_000;

/// Default overlap between neighbouring chunks, in milliseconds (30 seconds).
pub const DEFAULT_CHUNK_OVERLAP_MS: u64 = 30_000;

/// One chunk of a recording: samples `start_sample..end_sample`, numbered
/// `chunk_index` (from 1) out of `total_chunks`.
#[derive(Debug, Clone, Copy, PartialEq, Eq, Structural)]
pub struct AudioChunkRange {
    pub chunk_index: usize,
    pub total_chunks: usize,
    pub start_sample: usize,
    pub end_sample: usize,
}

/// Number of samples covered by `duration_ms` milliseconds at `sample_rate` Hz,
/// rounded to the nearest sample (halves upward) and capped at `usize::MAX`.
pub open spec fn duration_to_samples(duration_ms: int, sample_rate: int) -> int {
    let exact = (duration_ms * sample_rate + 500) / 1000;
    if exact > usize::MAX {
        usize::MAX as int
    } else {
        exact
    }
}

/// Longest chunk in samples: the requested duration, but never less than one second.
pub open spec fn spec_max_chunk_samples(max_chunk_duration_ms: int, sample_rate: int) -> int {
    duration_to_samples(
        if max_chunk_duration_ms < 1000 { 1000 } else { max_chunk_duration_ms },
        sample_rate,
    )
}

/// The `i`-th (0-based) chunk of a recording of `total` samples cut into `count`
/// chunks of at most `max` samples whose starts are `step` samples apart.
pub open spec fn chunk_at(i: int, count: int, total: int, max: int, step: int) -> AudioChunkRange {
    AudioChunkRange {
        chunk_index: (i + 1) as usize,
        total_chunks: count as usize,
        start_sample: (i * step) as usize,
        end_sample: (if i * step + max < total { i * step + max } else { total }) as usize,
    }
}

/// The single chunk that covers the whole recording.
pub open spec fn whole_recording(total: int) -> AudioChunkRange {
    AudioChunkRange { chunk_index: 1, total_chunks: 1, start_sample: 0, end_sample: total as usize }
}

/// What `split_audio_into_chunks` returns, given the chunk length `max` and the
/// overlap `overlap` in samples.
pub open spec fn chunk_plan_spec(
    chunks: Seq<AudioChunkRange>,
    total: int,
    max: int,
    overlap: int,
) -> bool {
    if total <= max || max <= overlap {
        chunks == seq![whole_recording(total)]
    } else {
        let step = max - overlap;
        let n = chunks.len() as int;
        &&& n >= 2
        &&& forall|i: int| 0 <= i < n ==> #[trigger] chunks[i] == chunk_at(i, n, total, max, step)
        // the last chunk reaches the end of the recording ...
        &&& (n - 1) * step + max >= total
        // ... and the one before it does not
        &&& (n - 2) * step + max < total
    }
}

/// The chunks tile the recording: numbered 1..=n, the first starts at sample 0,
/// the last ends at `total`, none is longer than `max` samples (or than the
/// whole recording), each starts where the previous one ended less
/// `overlap` samples, and every chunk is nonempty unless the recording is.
pub open spec fn chunks_tile_recording(
    chunks: Seq<AudioChunkRange>,
    total: int,
    max: int,
    overlap: int,
) -> bool {
    let n = chunks.len() as int;
    &&& n >= 1
    &&& chunks[0].start_sample == 0
    &&& chunks[n - 1].end_sample == total
    &&& forall|i: int| 0 <= i < n ==> {
        &&& #[trigger] chunks[i].chunk_index == i + 1
        &&& chunks[i].total_chunks == n
        &&& chunks[i].start_sample <= chunks[i].end_sample <= total
        &&& (total > 0 ==> chunks[i].start_sample < chunks[i].end_sample)
        &&& (n > 1 ==> chunks[i].end_sample - chunks[i].start_sample <= max)
    }
    &&& forall|i: int|
        0 <= i < n - 1 ==> #[trigger] chunks[i + 1].start_sample == chunks[i].end_sample - overlap
}

fn duration_to_samples_exec(duration_ms: u64, sample_rate: u32) -> (r: usize)
    ensures
        r == duration_to_samples(duration_ms as int, sample_rate as int),
{
    assert((duration_ms as int) * (sample_rate as int) <= 0xffff_ffff_ffff_ffff * 0xffff_ffff)
        by (nonlinear_arith)
        requires
            duration_ms <= 0xffff_ffff_ffff_ffff,
            sample_rate <= 0xffff_ffff,
    ;
    let product: u128 = (duration_ms as u128) * (sample_rate as u128);
    let exact: u128 = (product + 500) / 1000;
    if exact > (usize::MAX as u128) {
        usize::MAX
    } else {
        exact as usize
    }
}

/// Splits a recording of `total_samples` samples at `sample_rate` Hz into
/// chunks of at most `max_chunk_duration_ms` (never less than one second)
/// whose neighbours overlap by `overlap_ms`.
///
/// An empty recording, a recording no longer than one chunk, and an overlap
/// that is not shorter than a chunk all give a single chunk covering everything.
pub fn split_audio_into_chunks(
    total_samples: usize,
    sample_rate: u32,
    max_chunk_duration_ms: u64,
    overlap_ms: u64,
) -> (chunks: Vec<AudioChunkRange>)
    ensures
        total_samples == 0 ==> chunks@ == seq![whole_recording(0)],
        total_samples > 0 ==> chunk_plan_spec(
            chunks@,
            total_samples as int,
            spec_max_chunk_samples(max_chunk_duration_ms as int, sample_rate as int),
            duration_to_samples(overlap_ms as int, sample_rate as int),
        ),
        chunks_tile_recording(
            chunks@,
            total_samples as int,
            spec_max_chunk_samples(max_chunk_duration_ms as int, sample_rate as int),
            duration_to_samples(overlap_ms as int, sample_rate as int),
        ),
{
    if total_samples == 0 {
        let single = vec![AudioChunkRange { chunk_index: 1, total_chunks: 1, start_sample: 0, end_sample: 0 }];
        assert(single@ =~= seq![whole_recording(0)]);
        return single;
    }
    let max_ms = if max_chunk_duration_ms < 1000 { 1000 } else { max_chunk_duration_ms };
    let max_chunk_samples = duration_to_samples_exec(max_ms, sample_rate);
    let overlap_samples = duration_to_samples_exec(overlap_ms, sample_rate);
    if total_samples <= max_chunk_samples || max_chunk_samples <= overlap_samples {
        let single = vec![
            AudioChunkRange {
                chunk_index: 1,
                total_chunks: 1,
                start_sample: 0,
                end_sample: total_samples,
            },
        ];
        assert(single@ =~= seq![whole_recording(total_samples as int)]);
        return single;
    }
    let step = max_chunk_samples - overlap_samples;
    let ghost total = total_samples as int;
    let ghost max = max_chunk_samples as int;
    let ghost stp = step as int;
    let mut raw: Vec<(usize, usize)> = Vec::new();
    let mut start_sample: usize = 0;
    assert(raw.len() * stp == 0) by (nonlinear_arith)
        requires
            raw.len() == 0,
    ;
    loop
        invariant_except_break
            0 <= start_sample < total_samples,
            start_sample == raw.len() * stp,
            forall|j: int|
                0 <= j < raw.len() ==> #[trigger] raw@[j] == ((j * stp) as usize, (j * stp
                    + max) as usize) && j * stp + max < total,
        invariant
            0 < stp <= max,
            total == total_samples,
            max == max_chunk_samples,
            stp == step,
            max < total,
        ensures
            raw.len() >= 2,
            (raw.len() - 1) * stp + max >= total,
            inner_starts(raw@, total, max, stp),
            raw@[raw.len() - 1] == (((raw.len() - 1) * stp) as usize, total_samples),
        decreases total_samples - start_sample,
    {
        let ghost k = raw.len() as int;
        let ghost old_raw = raw@;
        let end_sample = if total_samples - start_sample <= max_chunk_samples {
            total_samples
        } else {
            start_sample + max_chunk_samples
        };
        raw.push((start_sample, end_sample));
        if end_sample == total_samples {
            assert(k >= 1) by {
                if k == 0 {
                    assert(k * stp == 0) by (nonlinear_arith)
                        requires
                            k == 0,
                    ;
                }
            }
            assert(k * stp + max >= total);
            assert forall|j: int| 0 <= j < raw.len() - 1 implies #[trigger] raw@[j] == ((j
                * stp) as usize, (j * stp + max) as usize) && j * stp + max < total by {
                assert(j < k);
            }
            break;
        }
        assert((k + 1) * stp == k * stp + stp) by (nonlinear_arith);
        assert(raw@[k] == ((k * stp) as usize, (k * stp + max) as usize));
        assert(forall|j: int| 0 <= j < k ==> raw@[j] == old_raw[j]);
        start_sample = start_sample + step;
    }
    let total_chunks = raw.len();
    let mut chunks: Vec<AudioChunkRange> = Vec::new();
    let mut idx: usize = 0;
    while idx < total_chunks
        invariant
            total_chunks == raw.len(),
            idx <= total_chunks,
            chunks.len() == idx,
            forall|j: int|
                0 <= j < idx ==> #[trigger] chunks@[j] == chunk_at(
                    j,
                    total_chunks as int,
                    total,
                    max,
                    stp,
                ),
            raw.len() >= 2,
            (raw.len() - 1) * stp + max >= total,
            inner_starts(raw@, total, max, stp),
            raw@[raw.len() - 1] == (((raw.len() - 1) * stp) as usize, total_samples),
            total == total_samples,
            stp > 0,
        decreases total_chunks - idx,
    {
        let (start_sample, end_sample) = raw[idx];
        proof {
            let j = idx as int;
            assert(0 <= j * stp) by (nonlinear_arith)
                requires
                    j >= 0,
                    stp > 0,
            ;
            if j == raw.len() - 1 {
                assert(j * stp + max >= total);
            }
        }
        chunks.push(
            AudioChunkRange { chunk_index: idx + 1, total_chunks, start_sample, end_sample },
        );
        idx = idx + 1;
    }
    proof {
        let n = total_chunks as int;
        assert((n - 2) * stp + max < total) by {
            assert(raw@[n - 2] == raw@[n - 2]);
        }
        lemma_plan_tiles(chunks@, total, max, overlap_samples as int);
    }
    chunks
}

/// All but the last of `starts` are full-length chunks `step` samples apart.
spec fn inner_starts(starts: Seq<(usize, usize)>, total: int, max: int, step: int) -> bool {
    forall|j: int|
        0 <= j < starts.len() - 1 ==> #[trigger] starts[j] == ((j * step) as usize, (j * step
            + max) as usize) && j * step + max < total
}

/// A plan of the long kind tiles the recording.
proof fn lemma_plan_tiles(chunks: Seq<AudioChunkRange>, total: int, max: int, overlap: int)
    requires
        0 <= overlap < max < total,
        total <= usize::MAX,
        chunk_plan_spec(chunks, total, max, overlap),
    ensures
        chunks_tile_recording(chunks, total, max, overlap),
{
    let step = max - overlap;
    let n = chunks.len() as int;
    assert(chunks[0] == chunk_at(0, n, total, max, step));
    assert(chunks[n - 1] == chunk_at(n - 1, n, total, max, step));
    lemma_chunk_start_below_total(0, n, total, max, step);
    lemma_chunk_start_below_total(n - 1, n, total, max, step);
    assert(chunks[0].start_sample == 0);
    assert(chunks[n - 1].end_sample == total);
    assert forall|i: int| 0 <= i < n implies {
        &&& #[trigger] chunks[i].chunk_index == i + 1
        &&& chunks[i].total_chunks == n
        &&& chunks[i].start_sample <= chunks[i].end_sample <= total
        &&& (total > 0 ==> chunks[i].start_sample < chunks[i].end_sample)
        &&& (n > 1 ==> chunks[i].end_sample - chunks[i].start_sample <= max)
    } by {
        assert(chunks[i] == chunk_at(i, n, total, max, step));
        lemma_chunk_start_below_total(i, n, total, max, step);
    }
    assert forall|i: int| 0 <= i < n - 1 implies #[trigger] chunks[i + 1].start_sample
        == chunks[i].end_sample - overlap by {
        assert(chunks[i] == chunk_at(i, n, total, max, step));
        assert(chunks[i + 1] == chunk_at(i + 1, n, total, max, step));
        lemma_chunk_start_below_total(i, n, total, max, step);
        lemma_chunk_start_below_total(i + 1, n, total, max, step);
        assert(i * step + max < total) by {
            lemma_mul_mono(i, n - 2, step);
        }
        assert((i + 1) * step == i * step + step) by (nonlinear_arith);
    }
}

proof fn lemma_mul_mono(a: int, b: int, c: int)
    requires
        a <= b,
        c >= 0,
    ensures
        a * c <= b * c,
{
    assert(a * c <= b * c) by (nonlinear_arith)
        requires
            a <= b,
            c >= 0,
    ;
}

/// Every chunk of the plan starts inside the recording.
proof fn lemma_chunk_start_below_total(i: int, n: int, total: int, max: int, step: int)
    requires
        0 <= i < n,
        0 < step <= max,
        (n - 2) * step + max < total,
        total <= usize::MAX,
    ensures
        0 <= i * step < total,
        i * step <= usize::MAX,
        n <= usize::MAX,
        i == 0 ==> i * step == 0,
{
    lemma_mul_mono(i, n - 1, step);
    if n >= 2 {
        lemma_mul_mono(1, step, n - 2);
    }
    assert(i == 0 ==> i * step == 0) by (nonlinear_arith);
    assert(0 <= i * step) by (nonlinear_arith)
        requires
            i >= 0,
            step > 0,
    ;
    assert((n - 1) * step == (n - 2) * step + step) by (nonlinear_arith);
}

} // verus!

//! Transcript segments and the merging of per-chunk transcripts into one
//! timeline.
//!
//! Times are whole milliseconds from the start of the recording.
use vstd::prelude::*;

use crate::strings::{chars_of, same_chars, trim_bounds, trim_spec};

verus! {

/// One utterance of the transcript: `content` spoken by `speaker` from
/// `start` to `end` (milliseconds).
#[derive(Debug, Clone, PartialEq, Eq)]
pub struct TranscriptionSegment {
    pub start: i64,
    pub end: i64,
    pub speaker: i64,
    pub content: String,
}

/// A segment as a mathematical value.
pub struct SegmentView {
    pub start: int,
    pub end: int,
    pub speaker: int,
    pub content: Seq<char>,
}

impl View for TranscriptionSegment {
    type V = SegmentView;

    open spec fn view(&self) -> SegmentView {
        SegmentView {
            start: self.start as int,
            end: self.end as int,
            speaker: self.speaker as int,
            content: self.content@,
        }
    }
}

/// The views of a sequence of segments.
pub open spec fn segs_view(segs: Seq<TranscriptionSegment>) -> Seq<SegmentView> {
    segs.map_values(|s: TranscriptionSegment| s@)
}

/// Both ends of `seg` moved later by `offset` milliseconds.
pub open spec fn shifted(seg: SegmentView, offset: int) -> SegmentView {
    SegmentView { start: seg.start + offset, end: seg.end + offset, ..seg }
}

/// Whether shifting `seg` by `offset` keeps both ends in the `i64` range.
pub open spec fn shift_fits(seg: SegmentView, offset: int) -> bool {
    &&& i64::MIN <= seg.start + offset <= i64::MAX
    &&& i64::MIN <= seg.end + offset <= i64::MAX
}

/// `candidate` repeats `previous` (same speaker, same trimmed text, starting
/// less than a second apart), or lies inside it (starts before `previous`
/// ends and ends no more than half a second after it).
pub open spec fn duplicate_or_overlapping(previous: SegmentView, candidate: SegmentView) -> bool {
    let content_matches = trim_spec(previous.content) == trim_spec(candidate.content);
    let speaker_matches = previous.speaker == candidate.speaker;
    let near_same_start = -1000 < previous.start - candidate.start < 1000;
    let fully_covered = candidate.end <= previous.end + 500;
    (speaker_matches && content_matches && near_same_start) || (candidate.start < previous.end
        && fully_covered)
}

/// What merging `seg` after a timeline whose last segment is `last` adds:
/// nothing for an empty or reversed segment, a duplicate or a covered one;
/// otherwise the segment, its start moved up to `last`'s end when the two
/// overlap (and nothing if no time is left).
pub open spec fn merge_step(last: Option<SegmentView>, seg: SegmentView) -> Option<SegmentView> {
    if seg.end <= seg.start {
        None
    } else {
        match last {
            None => Some(seg),
            Some(l) => {
                if duplicate_or_overlapping(l, seg) {
                    None
                } else if seg.start < l.end {
                    if seg.end <= l.end {
                        None
                    } else {
                        Some(SegmentView { start: l.end, ..seg })
                    }
                } else {
                    Some(seg)
                }
            },
        }
    }
}

/// The last segment of a timeline, if any.
pub open spec fn last_of(timeline: Seq<SegmentView>) -> Option<SegmentView> {
    if timeline.len() == 0 {
        None
    } else {
        Some(timeline.last())
    }
}

/// The segments that merging `incoming`, one after the other, adds to the
/// timeline `merged`.
pub open spec fn merge_appended(merged: Seq<SegmentView>, incoming: Seq<SegmentView>) -> Seq<
    SegmentView,
>
    decreases incoming.len(),
{
    if incoming.len() == 0 {
        seq![]
    } else {
        let before = merge_appended(merged, incoming.drop_last());
        match merge_step(last_of(merged + before), incoming.last()) {
            Some(s) => before.push(s),
            None => before,
        }
    }
}

/// Every segment lasts a positive time and none starts before its predecessor ends.
pub open spec fn well_ordered(timeline: Seq<SegmentView>) -> bool {
    &&& forall|i: int| 0 <= i < timeline.len() ==> #[trigger] timeline[i].start < timeline[i].end
    &&& forall|i: int|
        0 <= i < timeline.len() - 1 ==> #[trigger] timeline[i].end <= timeline[i + 1].start
}

impl TranscriptionSegment {
    /// A copy of this segment.
    pub fn duplicate(&self) -> (r: Self)
        ensures
            r@ == self@,
    {
        TranscriptionSegment {
            start: self.start,
            end: self.end,
            speaker: self.speaker,
            content: self.content.clone(),
        }
    }

    /// The segment with both ends moved later by `start_time_ms`.
    pub fn with_offset(self, start_time_ms: i64) -> (r: Self)
        requires
            shift_fits(self@, start_time_ms as int),
        ensures
            r@ == shifted(self@, start_time_ms as int),
    {
        TranscriptionSegment {
            start: self.start + start_time_ms,
            end: self.end + start_time_ms,
            speaker: self.speaker,
            content: self.content,
        }
    }
}

/// Moves every segment of a chunk's transcript later by the chunk's start time.
pub fn offset_segments(segments: Vec<TranscriptionSegment>, start_time_ms: i64) -> (r: Vec<
    TranscriptionSegment,
>)
    requires
        forall|i: int|
            0 <= i < segments.len() ==> shift_fits(#[trigger] segments@[i]@, start_time_ms as int),
    ensures
        segs_view(r@) == segs_view(segments@).map_values(
            |s: SegmentView| shifted(s, start_time_ms as int),
        ),
{
    let ghost input = segments@;
    let mut out: Vec<TranscriptionSegment> = Vec::new();
    let mut rest = reversed(segments);
    while rest.len() > 0
        invariant
            out.len() + rest.len() == input.len(),
            forall|i: int| 0 <= i < rest.len() ==> #[trigger] rest@[i] == input[input.len() - 1 - i],
            forall|i: int|
                0 <= i < out.len() ==> #[trigger] out@[i]@ == shifted(
                    input[i]@,
                    start_time_ms as int,
                ),
            forall|i: int| 0 <= i < input.len() ==> shift_fits(#[trigger] input[i]@, start_time_ms as int),
        decreases rest.len(),
    {
        let seg = rest.pop().unwrap();
        out.push(seg.with_offset(start_time_ms));
    }
    assert(segs_view(out@) =~= segs_view(input).map_values(
        |s: SegmentView| shifted(s, start_time_ms as int),
    ));
    out
}

/// The elements of `v` in reverse order.
fn reversed<T>(v: Vec<T>) -> (r: Vec<T>)
    ensures
        r.len() == v.len(),
        forall|i: int| 0 <= i < v.len() ==> #[trigger] r@[i] == v@[v.len() - 1 - i],
{
    let ghost orig = v@;
    let mut src = v;
    let mut r: Vec<T> = Vec::new();
    while src.len() > 0
        invariant
            r.len() + src.len() == orig.len(),
            src@ == orig.subrange(0, src.len() as int),
            forall|i: int| 0 <= i < r.len() ==> #[trigger] r@[i] == orig[orig.len() - 1 - i],
        decreases src.len(),
    {
        let x = src.pop().unwrap();
        r.push(x);
    }
    r
}

/// Whether a chunk's transcript output is blank (nothing but white space),
/// in which case the chunk has no segments.
pub fn is_blank_output(output: &str) -> (r: bool)
    ensures
        r == (trim_spec(output@).len() == 0),
{
    let chars = chars_of(output);
    let (a, b) = trim_bounds(&chars, 0, chars.len());
    assert(chars@.subrange(0, chars.len() as int) =~= chars@);
    a == b
}

/// Tests whether `candidate` repeats or lies inside `previous`.
pub fn is_duplicate_or_overlapping(
    previous: &TranscriptionSegment,
    candidate: &TranscriptionSegment,
) -> (r: bool)
    ensures
        r == duplicate_or_overlapping(previous@, candidate@),
{
    let pc = chars_of(previous.content.as_str());
    let cc = chars_of(candidate.content.as_str());
    let (p0, p1) = trim_bounds(&pc, 0, pc.len());
    let (c0, c1) = trim_bounds(&cc, 0, cc.len());
    assert(pc@.subrange(0, pc.len() as int) =~= pc@);
    assert(cc@.subrange(0, cc.len() as int) =~= cc@);
    let content_matches = same_chars(&pc, p0, p1, &cc, c0, c1);
    let speaker_matches = previous.speaker == candidate.speaker;
    let diff: i128 = (previous.start as i128) - (candidate.start as i128);
    let near_same_start = -1000 < diff && diff < 1000;
    let fully_covered = (candidate.end as i128) <= (previous.end as i128) + 500;
    (speaker_matches && content_matches && near_same_start) || (candidate.start < previous.end
        && fully_covered)
}

/// Appends to `merged` the segments of `incoming` that extend its timeline,
/// in order, and returns the ones it appended. A segment is dropped when it
/// has no positive duration, repeats or lies inside the last merged segment,
/// or would have no time left once moved to start where that segment ends.
pub fn merge_transcription_segments(
    merged: &mut Vec<TranscriptionSegment>,
    incoming: Vec<TranscriptionSegment>,
) -> (appended: Vec<TranscriptionSegment>)
    ensures
        segs_view(appended@) == merge_appended(segs_view(old(merged)@), segs_view(incoming@)),
        segs_view(final(merged)@) == segs_view(old(merged)@) + segs_view(appended@),
{
    let ghost base = segs_view(merged@);
    let ghost input = segs_view(incoming@);
    let mut appended: Vec<TranscriptionSegment> = Vec::new();
    let incoming_len = incoming.len();
    let mut rest = reversed(incoming);
    let mut i: usize = 0;
    while rest.len() > 0
        invariant
            i + rest.len() == input.len(),
            input.len() == incoming_len,
            forall|k: int| 0 <= k < rest.len() ==> #[trigger] rest@[k]@ == input[input.len() - 1 - k],
            segs_view(appended@) == merge_appended(base, input.take(i as int)),
            segs_view(merged@) == base + segs_view(appended@),
        decreases rest.len(),
    {
        let ghost before = segs_view(appended@);
        let mut segment = rest.pop().unwrap();
        let ghost seg_view = segment@;
        assert(seg_view == input[i as int]);
        assert(input.take(i + 1).drop_last() =~= input.take(i as int));
        assert(input.take(i + 1).last() == input[i as int]);
        assert(segs_view(merged@).len() == merged.len());
        let ghost last = last_of(base + before);
        assert(last_of(segs_view(merged@)) == last) by {
            if merged.len() > 0 {
                assert(segs_view(merged@).last() == merged@[merged.len() - 1]@);
            }
        }
        let mut keep = true;
        if segment.end <= segment.start {
            keep = false;
        } else if merged.len() > 0 {
            let n = merged.len();
            let last_end = merged[n - 1].end;
            assert(merged@[n - 1]@ == segs_view(merged@)[n - 1]);
            if is_duplicate_or_overlapping(&merged[n - 1], &segment) {
                keep = false;
            } else if segment.start < last_end {
                segment.start = last_end;
                if segment.end <= segment.start {
                    keep = false;
                }
            }
        }
        proof {
            let step = merge_step(last, seg_view);
            if keep {
                assert(step == Some(segment@));
            } else {
                assert(step is None);
            }
        }
        if keep {
            let ghost merged_before = segs_view(merged@);
            let copy = segment.duplicate();
            merged.push(copy);
            assert(segs_view(merged@) =~= merged_before.push(segment@));
            appended.push(segment);
            assert(segs_view(appended@) =~= before.push(appended@[appended.len() - 1]@));
            assert(segs_view(merged@) =~= base + segs_view(appended@));
        }
        i = i + 1;
    }
    assert(input.take(input.len() as int) =~= input);
    appended
}

/// Merging keeps a well-ordered timeline well ordered: whatever arrives,
/// the merged timeline never holds a segment of no positive length nor two
/// segments out of order or overlapping.
pub proof fn lemma_merge_keeps_order(merged: Seq<SegmentView>, incoming: Seq<SegmentView>)
    requires
        well_ordered(merged),
    ensures
        well_ordered(merged + merge_appended(merged, incoming)),
    decreases incoming.len(),
{
    if incoming.len() > 0 {
        lemma_merge_keeps_order(merged, incoming.drop_last());
        let before = merge_appended(merged, incoming.drop_last());
        let cur = merged + before;
        match merge_step(last_of(cur), incoming.last()) {
            Some(s) => {
                assert(merged + before.push(s) =~= cur.push(s));
                let next = cur.push(s);
                assert forall|i: int| 0 <= i < next.len() - 1 implies #[trigger] next[i].end
                    <= next[i + 1].start by {
                    if i < cur.len() - 1 {
                        assert(next[i] == cur[i] && next[i + 1] == cur[i + 1]);
                    } else {
                        assert(next[i] == cur.last());
                    }
                }
                assert forall|i: int| 0 <= i < next.len() implies #[trigger] next[i].start
                    < next[i].end by {
                    if i < cur.len() {
                        assert(next[i] == cur[i]);
                    }
                }
            },
            None => {},
        }
    }
}

/// `a` is `b`, possibly with its start moved later.
pub open spec fn comes_from(a: SegmentView, b: SegmentView) -> bool {
    &&& a.speaker == b.speaker
    &&& a.content == b.content
    &&& a.end == b.end
    &&& a.start >= b.start
}

/// Merging only ever adds segments taken from `incoming`: there are never
/// more of them than arrived, and each keeps the speaker, text and end of
/// an incoming segment and starts no earlier than it.
pub proof fn lemma_merge_takes_from_incoming(merged: Seq<SegmentView>, incoming: Seq<SegmentView>)
    ensures
        merge_appended(merged, incoming).len() <= incoming.len(),
        forall|k: int|
            #![trigger merge_appended(merged, incoming)[k]]
            0 <= k < merge_appended(merged, incoming).len() ==> exists|i: int|
                #![trigger incoming[i]]
                0 <= i < incoming.len() && comes_from(merge_appended(merged, incoming)[k], incoming[i]),
    decreases incoming.len(),
{
    if incoming.len() > 0 {
        let rest = incoming.drop_last();
        lemma_merge_takes_from_incoming(merged, rest);
        let before = merge_appended(merged, rest);
        let all = merge_appended(merged, incoming);
        assert forall|k: int| #![trigger all[k]] 0 <= k < all.len() implies exists|i: int|
            #![trigger incoming[i]]
            0 <= i < incoming.len() && comes_from(all[k], incoming[i]) by {
            if k < before.len() {
                assert(all[k] == before[k]);
                let i = choose|i: int|
                    #![trigger rest[i]]
                    0 <= i < rest.len() && comes_from(before[k], rest[i]);
                assert(rest[i] == incoming[i]);
            } else {
                let i = incoming.len() - 1;
                assert(incoming[i] == incoming.last());
                assert(comes_from(all[k], incoming[i]));
            }
        }
    }
}

/// A segment that repeats the last merged segment (same speaker and text,
/// same start) is not merged again.
pub proof fn lemma_merge_skips_repeat(merged: Seq<SegmentView>, repeat: SegmentView)
    requires
        merged.len() > 0,
        repeat.speaker == merged.last().speaker,
        repeat.content == merged.last().content,
        repeat.start == merged.last().start,
    ensures
        merge_appended(merged, seq![repeat]) == Seq::<SegmentView>::empty(),
{
    let s = seq![repeat];
    assert(s.drop_last() =~= Seq::<SegmentView>::empty());
    assert(s.last() == repeat);
    assert(merge_appended(merged, s.drop_last()) == Seq::<SegmentView>::empty());
    assert(merged + Seq::<SegmentView>::empty() =~= merged);
    assert(duplicate_or_overlapping(merged.last(), repeat));
}

/// Where a segment arriving after `timeline` starts once merged: where it
/// starts, or where the timeline's last segment ends if that is later.
pub open spec fn later_start(start: int, timeline: Seq<SegmentView>) -> int {
    if timeline.len() > 0 && start < timeline.last().end {
        timeline.last().end
    } else {
        start
    }
}

/// The positions in `incoming` of the segments that merging it after
/// `merged` adds, in order.
pub open spec fn kept_indices(merged: Seq<SegmentView>, incoming: Seq<SegmentView>) -> Seq<int>
    decreases incoming.len(),
{
    if incoming.len() == 0 {
        seq![]
    } else {
        let before = kept_indices(merged, incoming.drop_last());
        match merge_step(last_of(merged + merge_appended(merged, incoming.drop_last())), incoming.last()) {
            Some(_) => before.push(incoming.len() - 1),
            None => before,
        }
    }
}

/// The `k`-th added segment is the incoming segment at `indices[k]`, with
/// the same speaker, text and end, starting at the later of its own start
/// and the end of the segment before it on the merged timeline, and it
/// lasts a positive time.
pub open spec fn taken_at(
    merged: Seq<SegmentView>,
    incoming: Seq<SegmentView>,
    appended: Seq<SegmentView>,
    indices: Seq<int>,
    k: int,
) -> bool {
    let i = indices[k];
    &&& 0 <= i < incoming.len()
    &&& appended[k].speaker == incoming[i].speaker
    &&& appended[k].content == incoming[i].content
    &&& appended[k].end == incoming[i].end
    &&& appended[k].start == later_start(incoming[i].start, merged + appended.take(k))
    &&& appended[k].start < appended[k].end
}

/// Merging keeps incoming segments in their order, each unchanged but for
/// its start, which becomes the later of its own start and the end of the
/// segment just before it on the merged timeline; every added segment
/// lasts a positive time.
pub proof fn lemma_merge_trims_to_previous_end(merged: Seq<SegmentView>, incoming: Seq<SegmentView>)
    ensures
        kept_indices(merged, incoming).len() == merge_appended(merged, incoming).len(),
        forall|j: int, k: int|
            0 <= j < k < kept_indices(merged, incoming).len() ==> #[trigger] kept_indices(
                merged,
                incoming,
            )[j] < #[trigger] kept_indices(merged, incoming)[k],
        forall|k: int|
            0 <= k < kept_indices(merged, incoming).len() ==> #[trigger] taken_at(
                merged,
                incoming,
                merge_appended(merged, incoming),
                kept_indices(merged, incoming),
                k,
            ),
    decreases incoming.len(),
{
    if incoming.len() > 0 {
        let rest = incoming.drop_last();
        lemma_merge_trims_to_previous_end(merged, rest);
        let before = merge_appended(merged, rest);
        let bidx = kept_indices(merged, rest);
        let ap = merge_appended(merged, incoming);
        let idx = kept_indices(merged, incoming);
        let cur = merged + before;
        assert forall|k: int| 0 <= k < bidx.len() implies #[trigger] taken_at(
            merged,
            incoming,
            ap,
            idx,
            k,
        ) by {
            assert(taken_at(merged, rest, before, bidx, k));
            assert(idx[k] == bidx[k]);
            assert(ap[k] == before[k]);
            assert(incoming[bidx[k]] == rest[bidx[k]]);
            assert(ap.take(k) =~= before.take(k));
        }
        match merge_step(last_of(cur), incoming.last()) {
            Some(s) => {
                let k = before.len() as int;
                assert(ap.take(k) =~= before);
                assert(idx[k] == incoming.len() - 1);
                assert(incoming[idx[k]] == incoming.last());
                assert(taken_at(merged, incoming, ap, idx, k));
                assert forall|j: int, m: int| 0 <= j < m < idx.len() implies #[trigger] idx[j]
                    < #[trigger] idx[m] by {
                    if m < bidx.len() {
                        assert(bidx[j] < bidx[m]);
                    } else {
                        assert(taken_at(merged, rest, before, bidx, j));
                    }
                }
            },
            None => {
                assert forall|j: int, m: int| 0 <= j < m < idx.len() implies #[trigger] idx[j]
                    < #[trigger] idx[m] by {
                    assert(bidx[j] < bidx[m]);
                }
            },
        }
    }
}

/// A segment that lasts a positive time, starts no earlier than the last
/// merged segment ends, and does not repeat it (another speaker, other
/// trimmed text, or a start a second or more away from its start) is always
/// added by merging, unchanged; after an empty timeline every segment of
/// positive length is.
pub proof fn lemma_merge_keeps_new_segment(merged: Seq<SegmentView>, seg: SegmentView)
    requires
        seg.start < seg.end,
        merged.len() > 0 ==> seg.start >= merged.last().end && (seg.speaker
            != merged.last().speaker || trim_spec(seg.content) != trim_spec(merged.last().content)
            || seg.start - merged.last().start >= 1000 || merged.last().start - seg.start >= 1000),
    ensures
        merge_appended(merged, seq![seg]) == seq![seg],
{
    let one = seq![seg];
    assert(one.drop_last() =~= Seq::<SegmentView>::empty());
    assert(one.last() == seg);
    assert(merge_appended(merged, one.drop_last()) == Seq::<SegmentView>::empty());
    assert(merged + Seq::<SegmentView>::empty() =~= merged);
    assert(Seq::<SegmentView>::empty().push(seg) =~= one);
}

/// Merging drops a segment that lasts no time, one that repeats the last
/// merged segment (same speaker and trimmed text, starting less than a
/// second apart), and one that lies inside it (starting before it ends and
/// ending at most half a second after it).
pub proof fn lemma_merge_drops_repeats_and_covered(merged: Seq<SegmentView>, seg: SegmentView)
    requires
        merged.len() > 0,
        seg.end <= seg.start || (seg.speaker == merged.last().speaker && trim_spec(seg.content)
            == trim_spec(merged.last().content) && -1000 < merged.last().start - seg.start < 1000)
            || (seg.start < merged.last().end && seg.end <= merged.last().end + 500),
    ensures
        merge_appended(merged, seq![seg]) == Seq::<SegmentView>::empty(),
{
    let one = seq![seg];
    assert(one.drop_last() =~= Seq::<SegmentView>::empty());
    assert(one.last() == seg);
    assert(merge_appended(merged, one.drop_last()) == Seq::<SegmentView>::empty());
    assert(merged + Seq::<SegmentView>::empty() =~= merged);
}

} // verus!

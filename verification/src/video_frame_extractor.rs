//! Scene segmentation from the similarity of consecutive frames.
//!
//! Frames are known by their index. A scan over the similarity scores of
//! adjacent frames yields split points; consecutive split points bound the
//! scene segments, which may then lose their head or tail.

use crate::decimal::{fixed6, push_fixed6};
use crate::frame_similarity::{
    calculate_similarity, similarity_of, FrameView, GrayFrame, SimilarityAlgorithm, SCALE,
};
use crate::random::shuffle;
use crate::video_processor::{path_views, push_argument};
use vstd::prelude::*;

verus! {

/// An inclusive range of frame indices judged to be one continuous shot.
#[derive(Clone, Copy, Debug, PartialEq, Eq, Structural)]
pub struct SegmentRange {
    pub start_frame: u32,
    pub end_frame: u32,
}

/// Why no list of segments was produced.
#[derive(Clone, Copy, Debug, PartialEq, Eq, Structural)]
pub enum SegmentationError {
    /// Fewer than two frames were supplied.
    InsufficientFrames { count: usize },
    /// No frame strictly inside the recording starts a new scene.
    NoSceneChangeDetected,
    /// Removing segments left none of the `detected` that were found.
    AllSegmentsFiltered { detected: usize },
}

/// Frame indices grow strictly along the sequence.
pub open spec fn strictly_increasing(s: Seq<u32>) -> bool {
    forall|i: int, j: int| 0 <= i < j < s.len() ==> s[i] < s[j]
}

/// The split points found after the first `k` adjacent pairs were scanned.
///
/// The list starts as `[0]`. Pair `k` compares frame `k - 1` with frame `k`;
/// frame `k` becomes a split point when that pair scores below `threshold`
/// and the frame lies at least `min_frames` past the latest split point.
pub open spec fn scan_cuts(
    indices: Seq<u32>,
    scores: Seq<u32>,
    threshold: u32,
    min_frames: u32,
    k: nat,
) -> Seq<u32>
    decreases k,
{
    if k == 0 {
        seq![0u32]
    } else {
        let prev = scan_cuts(indices, scores, threshold, min_frames, (k - 1) as nat);
        if scores[k - 1] < threshold && indices[k as int] - prev.last() >= min_frames {
            prev.push(indices[k as int])
        } else {
            prev
        }
    }
}

/// All split points of a recording: those of the full scan, closed by the
/// index of the final frame unless the scan already ended on it.
pub open spec fn split_points_of(
    indices: Seq<u32>,
    scores: Seq<u32>,
    threshold: u32,
    min_frames: u32,
) -> Seq<u32> {
    let cuts = scan_cuts(indices, scores, threshold, min_frames, scores.len());
    if cuts.last() == indices.last() {
        cuts
    } else {
        cuts.push(indices.last())
    }
}

/// Some frame past the first has the index `value` and scores below
/// `threshold` against the frame before it.
pub open spec fn is_cut_frame(
    indices: Seq<u32>,
    scores: Seq<u32>,
    threshold: u32,
    value: u32,
) -> bool {
    exists|p: int|
        1 <= p < indices.len() && #[trigger] indices[p] == value && scores[p - 1] < threshold
}

/// Any two entries lie at least `min_frames` apart.
pub open spec fn spaced(points: Seq<u32>, min_frames: u32) -> bool {
    forall|i: int, j: int| 0 <= i < j < points.len() ==> points[j] - points[i] >= min_frames
}

/// Every entry past the first is a frame that scored below the threshold.
pub open spec fn cut_frames_only(
    points: Seq<u32>,
    indices: Seq<u32>,
    scores: Seq<u32>,
    threshold: u32,
) -> bool {
    forall|j: int|
        1 <= j < points.len() ==> is_cut_frame(indices, scores, threshold, #[trigger] points[j])
}

/// What holds of the scan after `k` pairs, for frame indices that grow: the
/// list starts at 0, grows strictly, keeps `min_frames` between any two of
/// its entries, and holds past its head only frames that scored below the
/// threshold.
pub proof fn lemma_scan_cuts(
    indices: Seq<u32>,
    scores: Seq<u32>,
    threshold: u32,
    min_frames: u32,
    k: nat,
)
    requires
        strictly_increasing(indices),
        scores.len() + 1 == indices.len(),
        k <= scores.len(),
    ensures
        1 <= scan_cuts(indices, scores, threshold, min_frames, k).len() <= k + 1,
        scan_cuts(indices, scores, threshold, min_frames, k)[0] == 0,
        scan_cuts(indices, scores, threshold, min_frames, k).last() <= indices[k as int],
        strictly_increasing(scan_cuts(indices, scores, threshold, min_frames, k)),
        spaced(scan_cuts(indices, scores, threshold, min_frames, k), min_frames),
        cut_frames_only(
            scan_cuts(indices, scores, threshold, min_frames, k),
            indices,
            scores,
            threshold,
        ),
    decreases k,
{
    if k > 0 {
        let prev = scan_cuts(indices, scores, threshold, min_frames, (k - 1) as nat);
        lemma_scan_cuts(indices, scores, threshold, min_frames, (k - 1) as nat);
        let cuts = scan_cuts(indices, scores, threshold, min_frames, k);
        assert(indices[k - 1] < indices[k as int]);
        if scores[k - 1] < threshold && indices[k as int] - prev.last() >= min_frames {
            assert forall|i: int, j: int| 0 <= i < j < cuts.len() implies cuts[i] < cuts[j]
                && cuts[j] - cuts[i] >= min_frames by {
                if j == cuts.len() - 1 {
                    if i < prev.len() - 1 {
                        assert(prev[i] < prev[prev.len() - 1]);
                    }
                } else {
                    assert(cuts[i] == prev[i] && cuts[j] == prev[j]);
                }
            }
            assert forall|j: int| 1 <= j < cuts.len() implies is_cut_frame(
                indices,
                scores,
                threshold,
                #[trigger] cuts[j],
            ) by {
                if j == cuts.len() - 1 {
                    assert(indices[k as int] == cuts[j] && scores[k - 1] < threshold);
                } else {
                    assert(cuts[j] == prev[j]);
                }
            }
        }
    }
}

/// What holds of the full list of split points: it runs from 0 to the index
/// of the final frame and grows strictly. Without its closing entry it keeps
/// `min_frames` between any two entries and holds past its head only frames
/// that scored below the threshold. The closing entry may stand closer to
/// the entry before it, unless the scan itself ended on the final frame.
pub proof fn lemma_split_points(
    indices: Seq<u32>,
    scores: Seq<u32>,
    threshold: u32,
    min_frames: u32,
)
    requires
        strictly_increasing(indices),
        scores.len() + 1 == indices.len(),
    ensures
        split_points_of(indices, scores, threshold, min_frames).len() >= 1,
        split_points_of(indices, scores, threshold, min_frames)[0] == 0,
        split_points_of(indices, scores, threshold, min_frames).last() == indices.last(),
        strictly_increasing(split_points_of(indices, scores, threshold, min_frames)),
        spaced(split_points_of(indices, scores, threshold, min_frames).drop_last(), min_frames),
        cut_frames_only(
            split_points_of(indices, scores, threshold, min_frames).drop_last(),
            indices,
            scores,
            threshold,
        ),
        scan_cuts(indices, scores, threshold, min_frames, scores.len()).last() == indices.last()
            ==> spaced(split_points_of(indices, scores, threshold, min_frames), min_frames),
{
    lemma_scan_cuts(indices, scores, threshold, min_frames, scores.len());
    let cuts = scan_cuts(indices, scores, threshold, min_frames, scores.len());
    let points = split_points_of(indices, scores, threshold, min_frames);
    let inner = points.drop_last();
    if cuts.last() != indices.last() {
        assert forall|i: int, j: int| 0 <= i < j < points.len() implies points[i] < points[j] by {
            if j == points.len() - 1 {
                if i < cuts.len() - 1 {
                    assert(cuts[i] < cuts[cuts.len() - 1]);
                }
            } else {
                assert(points[i] == cuts[i] && points[j] == cuts[j]);
            }
        }
        assert(inner =~= cuts);
    } else {
        assert forall|i: int, j: int| 0 <= i < j < inner.len() implies inner[j] - inner[i]
            >= min_frames by {
            assert(inner[i] == cuts[i] && inner[j] == cuts[j]);
        }
        assert forall|j: int| 1 <= j < inner.len() implies is_cut_frame(
            indices,
            scores,
            threshold,
            #[trigger] inner[j],
        ) by {
            assert(inner[j] == cuts[j]);
        }
    }
}

/// Scans the similarity scores of adjacent frames for scene boundaries.
///
/// `indices[i]` is the index of frame `i`, and `scores[i - 1]` is the
/// similarity of frame `i` to the frame before it.
pub fn split_points(indices: &Vec<u32>, scores: &Vec<u32>, threshold: u32, min_frames: u32) -> (points:
    Vec<u32>)
    requires
        strictly_increasing(indices@),
        scores.len() + 1 == indices.len(),
    ensures
        points@ == split_points_of(indices@, scores@, threshold, min_frames),
{
    let mut points: Vec<u32> = Vec::new();
    points.push(0);
    let mut last_split: u32 = 0;
    let mut i: usize = 1;
    while i < indices.len()
        invariant
            1 <= i <= indices.len(),
            scores.len() + 1 == indices.len(),
            strictly_increasing(indices@),
            points@ == scan_cuts(indices@, scores@, threshold, min_frames, (i - 1) as nat),
            points@.len() >= 1,
            last_split == points@.last(),
            last_split <= indices@[i - 1],
        decreases indices.len() - i,
    {
        proof {
            assert(indices@[i - 1] < indices@[i as int]);
        }
        let frame = indices[i];
        if scores[i - 1] < threshold && frame - last_split >= min_frames {
            points.push(frame);
            last_split = frame;
        }
        i += 1;
    }
    let last = indices[indices.len() - 1];
    if last_split != last {
        points.push(last);
    }
    points
}

/// The segments that a list of split points bounds. Each segment starts on a
/// split point and ends just before the next one; the last segment runs
/// through the closing split point, the final frame.
pub open spec fn segments_of(points: Seq<u32>) -> Seq<SegmentRange> {
    Seq::new(
        if points.len() == 0 {
            0nat
        } else {
            (points.len() - 1) as nat
        },
        |k: int|
            SegmentRange {
                start_frame: points[k],
                end_frame: if k + 2 == points.len() {
                    points[k + 1]
                } else {
                    (points[k + 1] - 1) as u32
                },
            },
    )
}

/// Segments lie one after another without gap or overlap.
pub open spec fn contiguous(segments: Seq<SegmentRange>) -> bool {
    &&& forall|k: int|
        0 <= k < segments.len() ==> (#[trigger] segments[k]).start_frame <= segments[k].end_frame
    &&& forall|k: int|
        0 <= k < segments.len() - 1 ==> (#[trigger] segments[k]).end_frame + 1 == segments[k
            + 1].start_frame
}

/// The segments of a strictly growing list of split points are contiguous and
/// cover every frame from the first split point through the last.
pub proof fn lemma_segments_cover(points: Seq<u32>)
    requires
        strictly_increasing(points),
        points.len() >= 2,
    ensures
        segments_of(points).len() == points.len() - 1,
        contiguous(segments_of(points)),
        segments_of(points)[0].start_frame == points[0],
        segments_of(points).last().end_frame == points.last(),
{
    let segments = segments_of(points);
    assert forall|k: int| 0 <= k < segments.len() implies (#[trigger] segments[k]).start_frame
        <= segments[k].end_frame by {
        assert(points[k] < points[k + 1]);
    }
    assert forall|k: int| 0 <= k < segments.len() - 1 implies (#[trigger] segments[k]).end_frame + 1
        == segments[k + 1].start_frame by {
        assert(points[k] < points[k + 1]);
    }
}

/// Turns consecutive split points into segments.
pub fn segments_from_split_points(points: &Vec<u32>) -> (segments: Vec<SegmentRange>)
    requires
        strictly_increasing(points@),
        points.len() >= 1,
    ensures
        segments@ == segments_of(points@),
{
    let mut segments: Vec<SegmentRange> = Vec::new();
    let mut k: usize = 0;
    while k + 1 < points.len()
        invariant
            k + 1 <= points.len(),
            strictly_increasing(points@),
            segments@.len() == k,
            forall|m: int| 0 <= m < k ==> segments@[m] == segments_of(points@)[m],
        decreases points.len() - k,
    {
        proof {
            assert(points@[k as int] < points@[k + 1]);
        }
        let end_frame = if k + 2 == points.len() {
            points[k + 1]
        } else {
            points[k + 1] - 1
        };
        segments.push(SegmentRange { start_frame: points[k], end_frame });
        k += 1;
    }
    assert(segments@ =~= segments_of(points@));
    segments
}

/// Drops the first segment when asked to and another one would be left.
pub open spec fn trim_head(segments: Seq<SegmentRange>, trim_first: bool) -> Seq<SegmentRange> {
    if trim_first && segments.len() > 1 {
        segments.drop_first()
    } else {
        segments
    }
}

/// Drops the last segment when asked to and another one would be left.
pub open spec fn trim_tail(segments: Seq<SegmentRange>, trim_last: bool) -> Seq<SegmentRange> {
    if trim_last && segments.len() > 1 {
        segments.drop_last()
    } else {
        segments
    }
}

/// Head first, then tail.
pub open spec fn trimmed(segments: Seq<SegmentRange>, trim_first: bool, trim_last: bool) -> Seq<
    SegmentRange,
> {
    trim_tail(trim_head(segments, trim_first), trim_last)
}

/// Trimming never removes the only remaining segment: a list that holds a
/// segment still holds one afterwards, and a list of one comes back as it is.
pub proof fn lemma_trim_keeps_one(segments: Seq<SegmentRange>, trim_first: bool, trim_last: bool)
    requires
        segments.len() >= 1,
    ensures
        trimmed(segments, trim_first, trim_last).len() >= 1,
        trim_head(segments, trim_first).len() >= 1,
        trim_tail(segments, trim_last).len() >= 1,
        segments.len() == 1 ==> trimmed(segments, trim_first, trim_last) == segments,
        trimmed(segments, trim_first, trim_last).len() >= segments.len() - 2,
{
}

/// Removes the head and tail segments as requested.
///
/// Fails only when nothing is left, which is when nothing was handed in.
pub fn filter_segments(segments: Vec<SegmentRange>, trim_first: bool, trim_last: bool) -> (result:
    Result<Vec<SegmentRange>, SegmentationError>)
    ensures
        match result {
            Ok(kept) => segments@.len() >= 1 && kept@ == trimmed(segments@, trim_first, trim_last),
            Err(e) => segments@.len() == 0 && e == (SegmentationError::AllSegmentsFiltered {
                detected: 0,
            }),
        },
{
    let ghost given = segments@;
    let mut segments = segments;
    let detected = segments.len();
    if trim_first && segments.len() > 1 {
        segments.remove(0);
        assert(segments@ =~= given.drop_first());
    }
    if trim_last && segments.len() > 1 {
        segments.pop();
    }
    if segments.is_empty() {
        return Err(SegmentationError::AllSegmentsFiltered { detected });
    }
    Ok(segments)
}

/// The outcome of planning over frame indices and adjacent scores.
///
/// A recording of fewer than two frames is refused. One whose split points
/// are only its two ends holds no scene change. Otherwise the segments
/// between the split points are trimmed and handed out.
pub open spec fn plan_of(
    indices: Seq<u32>,
    scores: Seq<u32>,
    threshold: u32,
    min_frames: u32,
    trim_first: bool,
    trim_last: bool,
) -> Result<Seq<SegmentRange>, SegmentationError> {
    if indices.len() < 2 {
        Err(SegmentationError::InsufficientFrames { count: indices.len() as usize })
    } else {
        let points = split_points_of(indices, scores, threshold, min_frames);
        if points.len() < 3 {
            Err(SegmentationError::NoSceneChangeDetected)
        } else {
            Ok(trimmed(segments_of(points), trim_first, trim_last))
        }
    }
}

/// A planning result agrees with its model.
pub open spec fn plan_matches(
    result: Result<Vec<SegmentRange>, SegmentationError>,
    model: Result<Seq<SegmentRange>, SegmentationError>,
) -> bool {
    match result {
        Ok(segments) => model == Ok::<Seq<SegmentRange>, SegmentationError>(segments@),
        Err(e) => model == Err::<Seq<SegmentRange>, SegmentationError>(e),
    }
}

/// Plans the scene segments of a recording from the indices of its frames
/// and the similarity score of each frame to the one before it.
pub fn plan_from_scores(
    indices: &Vec<u32>,
    scores: &Vec<u32>,
    threshold: u32,
    min_frames: u32,
    trim_first: bool,
    trim_last: bool,
) -> (result: Result<Vec<SegmentRange>, SegmentationError>)
    requires
        strictly_increasing(indices@),
        indices.len() >= 2 ==> scores.len() + 1 == indices.len(),
    ensures
        plan_matches(
            result,
            plan_of(indices@, scores@, threshold, min_frames, trim_first, trim_last),
        ),
{
    if indices.len() < 2 {
        return Err(SegmentationError::InsufficientFrames { count: indices.len() });
    }
    let points = split_points(indices, scores, threshold, min_frames);
    proof {
        lemma_split_points(indices@, scores@, threshold, min_frames);
    }
    if points.len() < 3 {
        return Err(SegmentationError::NoSceneChangeDetected);
    }
    let segments = segments_from_split_points(&points);
    match filter_segments(segments, trim_first, trim_last) {
        Ok(kept) => Ok(kept),
        Err(e) => Err(e),
    }
}

/// A successful plan holds at least one segment, and its segments are
/// contiguous. Untrimmed, it starts at frame 0 and ends on the final frame.
pub proof fn lemma_plan_shape(
    indices: Seq<u32>,
    scores: Seq<u32>,
    threshold: u32,
    min_frames: u32,
    trim_first: bool,
    trim_last: bool,
)
    requires
        strictly_increasing(indices),
        scores.len() + 1 == indices.len(),
        plan_of(indices, scores, threshold, min_frames, trim_first, trim_last) is Ok,
    ensures
        plan_of(indices, scores, threshold, min_frames, trim_first, trim_last)->Ok_0.len() >= 1,
        contiguous(plan_of(indices, scores, threshold, min_frames, trim_first, trim_last)->Ok_0),
        !trim_first ==> plan_of(
            indices,
            scores,
            threshold,
            min_frames,
            trim_first,
            trim_last,
        )->Ok_0[0].start_frame == 0,
        !trim_last ==> plan_of(
            indices,
            scores,
            threshold,
            min_frames,
            trim_first,
            trim_last,
        )->Ok_0.last().end_frame == indices.last(),
{
    lemma_split_points(indices, scores, threshold, min_frames);
    let points = split_points_of(indices, scores, threshold, min_frames);
    lemma_segments_cover(points);
    let all = segments_of(points);
    let head = trim_head(all, trim_first);
    let kept = trimmed(all, trim_first, trim_last);
    assert(contiguous(head)) by {
        if trim_first {
            assert forall|k: int| 0 <= k < head.len() implies (#[trigger] head[k]).start_frame
                <= head[k].end_frame by {
                assert(head[k] == all[k + 1]);
            }
            assert forall|k: int| 0 <= k < head.len() - 1 implies (#[trigger] head[k]).end_frame + 1
                == head[k + 1].start_frame by {
                assert(head[k] == all[k + 1]);
                assert(head[k + 1] == all[k + 2]);
            }
        }
    }
    assert(contiguous(kept)) by {
        if trim_last && head.len() > 1 {
            assert forall|k: int| 0 <= k < kept.len() implies (#[trigger] kept[k]).start_frame
                <= kept[k].end_frame by {
                assert(kept[k] == head[k]);
            }
            assert forall|k: int| 0 <= k < kept.len() - 1 implies (#[trigger] kept[k]).end_frame + 1
                == kept[k + 1].start_frame by {
                assert(kept[k] == head[k]);
                assert(kept[k + 1] == head[k + 1]);
            }
        }
    }
}

/// Removes the closing segment of a recording, whatever else is left.
///
/// An empty list holds no scene change; a list of one segment is used up.
pub fn drop_ending(segments: Vec<SegmentRange>) -> (result: Result<
    Vec<SegmentRange>,
    SegmentationError,
>)
    ensures
        match result {
            Ok(kept) => segments@.len() >= 2 && kept@ == segments@.drop_last(),
            Err(e) => if segments@.len() == 0 {
                e == SegmentationError::NoSceneChangeDetected
            } else {
                segments@.len() == 1 && e == (SegmentationError::AllSegmentsFiltered {
                    detected: 1,
                })
            },
        },
{
    let mut segments = segments;
    let detected = segments.len();
    if segments.is_empty() {
        return Err(SegmentationError::NoSceneChangeDetected);
    }
    segments.pop();
    if segments.is_empty() {
        return Err(SegmentationError::AllSegmentsFiltered { detected });
    }
    Ok(segments)
}

/// The least number of frames between two split points: the product of a
/// duration in microseconds and a frame rate in frames per thousand seconds,
/// rounded to the nearest whole frame (halves upwards) and capped at
/// `u32::MAX`.
pub open spec fn min_frames_of(min_duration_micros: u64, fps_milli: u64) -> int {
    let frames = (min_duration_micros * fps_milli + 500_000_000) / 1_000_000_000;
    if frames > u32::MAX {
        u32::MAX as int
    } else {
        frames
    }
}

/// Computes the least distance in frames between two split points.
pub fn min_frames(min_duration_micros: u64, fps_milli: u64) -> (frames: u32)
    ensures
        frames == min_frames_of(min_duration_micros, fps_milli),
{
    let d: u128 = min_duration_micros as u128;
    let f: u128 = fps_milli as u128;
    assert(d * f <= 0xffff_ffff_ffff_ffff * 0xffff_ffff_ffff_ffff) by (nonlinear_arith)
        requires
            0 <= d <= 0xffff_ffff_ffff_ffff,
            0 <= f <= 0xffff_ffff_ffff_ffff,
    ;
    let frames: u128 = (d * f + 500_000_000) / 1_000_000_000;
    if frames > 0xffff_ffff {
        u32::MAX
    } else {
        frames as u32
    }
}

/// The largest of 0 and the raw timestamps up to position `i`: the value
/// that timestamp `i` is raised to when it is negative or lies before an
/// earlier one.
pub open spec fn running_max(raw: Seq<i64>, i: int) -> int
    decreases i + 1,
{
    if i < 0 {
        0
    } else if running_max(raw, i - 1) >= raw[i] {
        running_max(raw, i - 1)
    } else {
        raw[i] as int
    }
}

/// Timestamps made monotone and shifted so that the first one is zero.
pub open spec fn normalized_timestamps(raw: Seq<i64>) -> Seq<u64> {
    Seq::new(raw.len(), |i: int| (running_max(raw, i) - running_max(raw, 0)) as u64)
}

/// The running maximum never falls, is never negative, and stays within the
/// range of the raw values.
pub proof fn lemma_running_max(raw: Seq<i64>, i: int, j: int)
    requires
        -1 <= i <= j < raw.len(),
    ensures
        0 <= running_max(raw, i) <= running_max(raw, j) <= i64::MAX,
        j >= 0 ==> running_max(raw, j) >= raw[j],
    decreases j + 1,
{
    if i < j {
        lemma_running_max(raw, i, j - 1);
    } else if i >= 0 {
        lemma_running_max(raw, -1, i - 1);
    }
}

/// Normalized timestamps start at zero and never decrease.
pub proof fn lemma_normalized_timestamps(raw: Seq<i64>)
    ensures
        normalized_timestamps(raw).len() == raw.len(),
        raw.len() > 0 ==> normalized_timestamps(raw)[0] == 0,
        forall|i: int, j: int|
            0 <= i <= j < raw.len() ==> normalized_timestamps(raw)[i] <= normalized_timestamps(
                raw,
            )[j],
{
    assert forall|i: int, j: int| 0 <= i <= j < raw.len() implies normalized_timestamps(raw)[i]
        <= normalized_timestamps(raw)[j] by {
        lemma_running_max(raw, 0, i);
        lemma_running_max(raw, i, j);
    }
}

/// Normalizes probed frame timestamps, in microseconds. A value that is
/// negative or lies before the one ahead of it is raised to that one; the
/// whole sequence is then shifted to start at zero.
pub fn normalize_timestamps(timestamps: Vec<i64>) -> (normalized: Vec<u64>)
    ensures
        normalized@ == normalized_timestamps(timestamps@),
{
    let mut normalized: Vec<u64> = Vec::new();
    let mut last: i64 = 0;
    let mut first: i64 = 0;
    let mut i: usize = 0;
    while i < timestamps.len()
        invariant
            i <= timestamps.len(),
            last == running_max(timestamps@, i - 1),
            i > 0 ==> first == running_max(timestamps@, 0),
            normalized@.len() == i,
            forall|k: int| 0 <= k < i ==> normalized@[k] == normalized_timestamps(timestamps@)[k],
        decreases timestamps.len() - i,
    {
        let ts: i64 = timestamps[i];
        if ts > last {
            last = ts;
        }
        if i == 0 {
            first = last;
        }
        proof {
            lemma_running_max(timestamps@, 0, i as int);
            lemma_running_max(timestamps@, -1, 0);
        }
        normalized.push((last - first) as u64);
        i += 1;
    }
    assert(normalized@ =~= normalized_timestamps(timestamps@));
    normalized
}

/// A segment names frames that the recording does not hold, or ends before
/// it starts.
#[derive(Clone, Copy, Debug, PartialEq, Eq, Structural)]
pub struct InvalidFrameRange {
    pub start_frame: u32,
    pub end_frame: u32,
    pub total_frames: usize,
}

/// Where a segment starts and how long it lasts, in microseconds.
#[derive(Clone, Copy, Debug, PartialEq, Eq, Structural)]
pub struct TimeSpan {
    pub start: u64,
    pub length: u64,
}

/// Both ends of the segment are frames of the recording, in order.
pub open spec fn range_is_valid(segment: SegmentRange, total_frames: int) -> bool {
    segment.start_frame < total_frames && segment.end_frame < total_frames && segment.start_frame
        <= segment.end_frame
}

/// The time that a segment covers: from the timestamp of its first frame up
/// to that of the frame after its last. The final segment runs to the end of
/// the recording, or to its own last frame if that lies later. A span that
/// would be negative is empty.
pub open spec fn time_span_of(timestamps: Seq<u64>, duration: u64, segment: SegmentRange) -> TimeSpan {
    let start = timestamps[segment.start_frame as int];
    let last = timestamps[segment.end_frame as int];
    let end = if segment.end_frame + 1 < timestamps.len() {
        timestamps[segment.end_frame + 1]
    } else if duration >= last {
        duration
    } else {
        last
    };
    TimeSpan { start, length: if end >= start { (end - start) as u64 } else { 0 } }
}

/// Computes the time span that a segment of frames covers.
pub fn segment_time_span(timestamps: &Vec<u64>, duration: u64, segment: SegmentRange) -> (result:
    Result<TimeSpan, InvalidFrameRange>)
    ensures
        match result {
            Ok(span) => range_is_valid(segment, timestamps@.len() as int) && span == time_span_of(
                timestamps@,
                duration,
                segment,
            ),
            Err(e) => !range_is_valid(segment, timestamps@.len() as int) && e == (InvalidFrameRange {
                start_frame: segment.start_frame,
                end_frame: segment.end_frame,
                total_frames: timestamps.len(),
            }),
        },
{
    let total: usize = timestamps.len();
    let start_idx: usize = segment.start_frame as usize;
    let end_idx: usize = segment.end_frame as usize;
    if start_idx >= total || end_idx >= total || start_idx > end_idx {
        return Err(
            InvalidFrameRange {
                start_frame: segment.start_frame,
                end_frame: segment.end_frame,
                total_frames: total,
            },
        );
    }
    let start: u64 = timestamps[start_idx];
    let last: u64 = timestamps[end_idx];
    let end: u64 = if end_idx + 1 < total {
        timestamps[end_idx + 1]
    } else if duration >= last {
        duration
    } else {
        last
    };
    let length: u64 = if end >= start {
        end - start
    } else {
        0
    };
    Ok(TimeSpan { start, length })
}

/// One frame of a recording: its index, the time at which it is shown, in
/// microseconds, and its image.
#[derive(Debug)]
pub struct Frame {
    pub index: u32,
    pub timestamp: u64,
    pub image: GrayFrame,
}

/// The indices of the frames, in order.
pub open spec fn frame_indices(frames: Seq<Frame>) -> Seq<u32> {
    Seq::new(frames.len(), |i: int| frames[i].index)
}

/// The score of a pair of frames. Frames that cannot be compared count as
/// identical, so that they never start a scene.
pub open spec fn pair_score(a: FrameView, b: FrameView, algorithm: SimilarityAlgorithm) -> u32 {
    match similarity_of(a, b, algorithm) {
        Ok(score) => score as u32,
        Err(_) => SCALE,
    }
}

/// The score of each frame against the frame before it, in index order.
pub open spec fn adjacent_scores(frames: Seq<Frame>, algorithm: SimilarityAlgorithm) -> Seq<u32> {
    Seq::new(
        if frames.len() == 0 {
            0nat
        } else {
            (frames.len() - 1) as nat
        },
        |i: int| pair_score(frames[i].image@, frames[i + 1].image@, algorithm),
    )
}

/// Compares every frame with the frame before it.
pub fn adjacent_similarities(frames: &Vec<Frame>, algorithm: SimilarityAlgorithm) -> (scores: Vec<
    u32,
>)
    ensures
        scores@ == adjacent_scores(frames@, algorithm),
{
    let mut scores: Vec<u32> = Vec::new();
    let mut i: usize = 1;
    while i < frames.len()
        invariant
            1 <= i,
            frames@.len() >= 1 ==> i <= frames@.len(),
            frames@.len() == 0 ==> i == 1,
            scores@.len() == i - 1,
            forall|k: int|
                0 <= k < i - 1 ==> scores@[k] == pair_score(
                    frames@[k].image@,
                    frames@[k + 1].image@,
                    algorithm,
                ),
        decreases frames.len() - i,
    {
        let score: u32 = match calculate_similarity(&frames[i - 1].image, &frames[i].image, algorithm) {
            Ok(score) => score,
            Err(_) => SCALE,
        };
        scores.push(score);
        i += 1;
    }
    assert(scores@ =~= adjacent_scores(frames@, algorithm));
    scores
}

/// Plans the scene segments of a recording from its frames: compares every
/// frame with the one before it, scans the scores for scene boundaries, and
/// trims the segments found.
pub fn plan_segments(
    frames: &Vec<Frame>,
    algorithm: SimilarityAlgorithm,
    threshold: u32,
    min_frames: u32,
    trim_first: bool,
    trim_last: bool,
) -> (result: Result<Vec<SegmentRange>, SegmentationError>)
    requires
        strictly_increasing(frame_indices(frames@)),
    ensures
        plan_matches(
            result,
            plan_of(
                frame_indices(frames@),
                adjacent_scores(frames@, algorithm),
                threshold,
                min_frames,
                trim_first,
                trim_last,
            ),
        ),
{
    let mut indices: Vec<u32> = Vec::new();
    let mut i: usize = 0;
    while i < frames.len()
        invariant
            i <= frames@.len(),
            indices@.len() == i,
            forall|k: int| 0 <= k < i ==> indices@[k] == frames@[k].index,
        decreases frames.len() - i,
    {
        indices.push(frames[i].index);
        i += 1;
    }
    assert(indices@ =~= frame_indices(frames@));
    if frames.len() < 2 {
        return Err(SegmentationError::InsufficientFrames { count: frames.len() });
    }
    let scores = adjacent_similarities(frames, algorithm);
    plan_from_scores(&indices, &scores, threshold, min_frames, trim_first, trim_last)
}

/// Plans the segments of a recording whose ending is to be replaced: the
/// segments between the split points without the last one, in order or, on
/// request, in random order.
pub fn plan_without_ending(
    indices: &Vec<u32>,
    scores: &Vec<u32>,
    threshold: u32,
    min_frames: u32,
    shuffle_segments: bool,
) -> (result: Result<Vec<SegmentRange>, SegmentationError>)
    requires
        strictly_increasing(indices@),
        indices.len() >= 2 ==> scores.len() + 1 == indices.len(),
    ensures
        match result {
            Ok(kept) => {
                let planned = plan_of(indices@, scores@, threshold, min_frames, false, true);
                &&& planned is Ok
                &&& kept@.to_multiset() == planned->Ok_0.to_multiset()
                &&& !shuffle_segments ==> kept@ == planned->Ok_0
            },
            Err(e) => plan_of(indices@, scores@, threshold, min_frames, false, true) == Err::<
                Seq<SegmentRange>,
                SegmentationError,
            >(e),
        },
{
    if indices.len() < 2 {
        return Err(SegmentationError::InsufficientFrames { count: indices.len() });
    }
    let points = split_points(indices, scores, threshold, min_frames);
    proof {
        lemma_split_points(indices@, scores@, threshold, min_frames);
    }
    if points.len() < 3 {
        return Err(SegmentationError::NoSceneChangeDetected);
    }
    let segments = segments_from_split_points(&points);
    match drop_ending(segments) {
        Ok(kept) => {
            let mut kept = kept;
            if shuffle_segments {
                shuffle(&mut kept);
            }
            Ok(kept)
        },
        Err(e) => Err(e),
    }
}

/// One extracted frame: its number, the time at which it is shown, in
/// microseconds, and the file that holds its image.
#[derive(Debug)]
pub struct FrameInfo {
    pub frame_number: u32,
    pub timestamp: u64,
    pub image_path: String,
}

/// The model of an extracted frame.
pub struct FrameInfoView {
    pub frame_number: u32,
    pub timestamp: u64,
    pub image_path: Seq<char>,
}

impl View for FrameInfo {
    type V = FrameInfoView;

    open spec fn view(&self) -> FrameInfoView {
        FrameInfoView {
            frame_number: self.frame_number,
            timestamp: self.timestamp,
            image_path: self.image_path@,
        }
    }
}

/// The frames among the first `k` entries of a listing: each entry that is an
/// image, numbered by its place in the listing and shown at the time probed
/// for that place.
pub open spec fn listed_frames(
    paths: Seq<String>,
    is_image: Seq<bool>,
    timestamps: Seq<u64>,
    k: int,
) -> Seq<FrameInfoView>
    decreases k,
{
    if k <= 0 {
        Seq::empty()
    } else if is_image[k - 1] {
        listed_frames(paths, is_image, timestamps, k - 1).push(
            FrameInfoView {
                frame_number: (k - 1) as u32,
                timestamp: timestamps[k - 1],
                image_path: paths[k - 1]@,
            },
        )
    } else {
        listed_frames(paths, is_image, timestamps, k - 1)
    }
}

/// The number of entries that have both a path and a time.
pub open spec fn listing_limit(paths: Seq<String>, timestamps: Seq<u64>) -> int {
    if paths.len() <= timestamps.len() {
        paths.len() as int
    } else {
        timestamps.len() as int
    }
}

/// The models of a list of frames.
pub open spec fn frame_views(frames: Seq<FrameInfo>) -> Seq<FrameInfoView> {
    frames.map_values(|f: FrameInfo| f@)
}

/// Listed frames are numbered below `k`, in strictly growing order.
pub proof fn lemma_listed_frames(
    paths: Seq<String>,
    is_image: Seq<bool>,
    timestamps: Seq<u64>,
    k: int,
)
    requires
        0 <= k <= u32::MAX,
    ensures
        listed_frames(paths, is_image, timestamps, k).len() <= k,
        forall|i: int|
            0 <= i < listed_frames(paths, is_image, timestamps, k).len() ==> (#[trigger] listed_frames(
                paths,
                is_image,
                timestamps,
                k,
            )[i]).frame_number < k,
        forall|i: int, j: int|
            0 <= i < j < listed_frames(paths, is_image, timestamps, k).len() ==> (#[trigger] listed_frames(
                paths,
                is_image,
                timestamps,
                k,
            )[i]).frame_number < (#[trigger] listed_frames(
                paths,
                is_image,
                timestamps,
                k,
            )[j]).frame_number,
    decreases k,
{
    if k > 0 {
        lemma_listed_frames(paths, is_image, timestamps, k - 1);
    }
}

/// Pairs the sorted entries of a frame directory with the probed times.
/// `is_image[i]` tells whether entry `i` is an image of a frame.
pub fn frames_from_listing(paths: &Vec<String>, is_image: &Vec<bool>, timestamps: &Vec<u64>) -> (frames:
    Vec<FrameInfo>)
    requires
        is_image@.len() == paths@.len(),
        listing_limit(paths@, timestamps@) <= u32::MAX,
    ensures
        frame_views(frames@) == listed_frames(
            paths@,
            is_image@,
            timestamps@,
            listing_limit(paths@, timestamps@),
        ),
{
    let limit: usize = if paths.len() <= timestamps.len() {
        paths.len()
    } else {
        timestamps.len()
    };
    let mut frames: Vec<FrameInfo> = Vec::new();
    let mut idx: usize = 0;
    assert(frame_views(frames@) =~= listed_frames(paths@, is_image@, timestamps@, 0));
    while idx < limit
        invariant
            idx <= limit <= u32::MAX,
            limit <= paths@.len(),
            limit <= timestamps@.len(),
            is_image@.len() == paths@.len(),
            frame_views(frames@) == listed_frames(paths@, is_image@, timestamps@, idx as int),
        decreases limit - idx,
    {
        if is_image[idx] {
            let ghost before = frames@;
            let frame = FrameInfo {
                frame_number: idx as u32,
                timestamp: timestamps[idx],
                image_path: paths[idx].clone(),
            };
            frames.push(frame);
            assert(frame_views(frames@) =~= frame_views(before).push(frame@));
        }
        idx += 1;
    }
    frames
}

/// The options with which the transcoder cuts one span out of a recording
/// and encodes it anew.
pub open spec fn cut_arguments_of(video_path: Seq<char>, span: TimeSpan, output_path: Seq<char>) -> Seq<
    Seq<char>,
> {
    seq![
        "-i"@,
        video_path,
        "-ss"@,
        fixed6(span.start as nat),
        "-t"@,
        fixed6(span.length as nat),
        "-vf"@,
        "setpts=PTS-STARTPTS"@,
        "-vsync"@,
        "vfr"@,
        "-c:v"@,
        "libx264"@,
        "-preset"@,
        "fast"@,
        "-crf"@,
        "18"@,
        "-c:a"@,
        "aac"@,
        "-b:a"@,
        "192k"@,
        "-af"@,
        "aresample=async=1:first_pts=0,asetpts=PTS-STARTPTS"@,
        "-fflags"@,
        "+genpts"@,
        "-avoid_negative_ts"@,
        "make_zero"@,
        "-y"@,
        output_path,
    ]
}

fn seconds_text(micros: u64) -> (text: String)
    ensures
        text@ == fixed6(micros as nat),
{
    let mut text = String::new();
    push_fixed6(&mut text, micros);
    assert(text@ =~= fixed6(micros as nat));
    text
}

/// Builds the arguments with which the transcoder cuts one span out of a
/// recording.
pub fn cut_arguments(video_path: &str, span: TimeSpan, output_path: &str) -> (arguments: Vec<String>)
    ensures
        path_views(arguments@) == cut_arguments_of(video_path@, span, output_path@),
{
    let start = seconds_text(span.start);
    let length = seconds_text(span.length);
    let mut arguments: Vec<String> = Vec::new();
    assert(path_views(arguments@) =~= Seq::<Seq<char>>::empty());
    push_argument(&mut arguments, "-i");
    push_argument(&mut arguments, video_path);
    push_argument(&mut arguments, "-ss");
    push_argument(&mut arguments, start.as_str());
    push_argument(&mut arguments, "-t");
    push_argument(&mut arguments, length.as_str());
    push_argument(&mut arguments, "-vf");
    push_argument(&mut arguments, "setpts=PTS-STARTPTS");
    push_argument(&mut arguments, "-vsync");
    push_argument(&mut arguments, "vfr");
    push_argument(&mut arguments, "-c:v");
    push_argument(&mut arguments, "libx264");
    push_argument(&mut arguments, "-preset");
    push_argument(&mut arguments, "fast");
    push_argument(&mut arguments, "-crf");
    push_argument(&mut arguments, "18");
    push_argument(&mut arguments, "-c:a");
    push_argument(&mut arguments, "aac");
    push_argument(&mut arguments, "-b:a");
    push_argument(&mut arguments, "192k");
    push_argument(&mut arguments, "-af");
    push_argument(&mut arguments, "aresample=async=1:first_pts=0,asetpts=PTS-STARTPTS");
    push_argument(&mut arguments, "-fflags");
    push_argument(&mut arguments, "+genpts");
    push_argument(&mut arguments, "-avoid_negative_ts");
    push_argument(&mut arguments, "make_zero");
    push_argument(&mut arguments, "-y");
    push_argument(&mut arguments, output_path);
    assert(path_views(arguments@) =~= cut_arguments_of(video_path@, span, output_path@));
    arguments
}

/// What is known of a recording: its frame size, its rate in frames per
/// thousand seconds, its length in microseconds, the number of its frames and
/// the name of its codec. A rate of zero is an unknown rate.
#[derive(Debug)]
pub struct VideoMetadata {
    pub width: u32,
    pub height: u32,
    pub fps_milli: u64,
    pub duration_micros: u64,
    pub total_frames: u32,
    pub codec: String,
}

/// The number of frames of a recording: the count that the probe read, cut
/// to 32 bits, or else the product of length and rate where the rate is
/// known, or else zero.
pub open spec fn resolved_frames(counted: Option<u64>, fps_milli: u64, duration_micros: u64) -> u32 {
    match counted {
        Some(count) => (count % 0x1_0000_0000) as u32,
        None => if fps_milli > 0 {
            min_frames_of(duration_micros, fps_milli) as u32
        } else {
            0
        },
    }
}

/// The rate of a recording: the rate that the probe read, or else the
/// number of frames over the length where both are known, or else zero.
pub open spec fn resolved_fps(fps_milli: u64, duration_micros: u64, total_frames: u32) -> u64 {
    if fps_milli > 0 {
        fps_milli
    } else if duration_micros > 0 && total_frames > 0 {
        (total_frames * 1_000_000_000 / (duration_micros as int)) as u64
    } else {
        0
    }
}

/// Fills in what the probe left open: the number of frames from length and
/// rate, or the rate from the number of frames and the length.
pub fn complete_metadata(
    width: u32,
    height: u32,
    codec: String,
    fps_milli: u64,
    duration_micros: u64,
    counted_frames: Option<u64>,
) -> (metadata: VideoMetadata)
    ensures
        metadata.width == width,
        metadata.height == height,
        metadata.codec == codec,
        metadata.duration_micros == duration_micros,
        metadata.total_frames == resolved_frames(counted_frames, fps_milli, duration_micros),
        metadata.fps_milli == resolved_fps(fps_milli, duration_micros, metadata.total_frames),
{
    let total_frames: u32 = match counted_frames {
        Some(count) => (count % 0x1_0000_0000) as u32,
        None => if fps_milli > 0 {
            min_frames(duration_micros, fps_milli)
        } else {
            0
        },
    };
    let fps: u64 = if fps_milli > 0 {
        fps_milli
    } else if duration_micros > 0 && total_frames > 0 {
        let scaled: u64 = (total_frames as u64) * 1_000_000_000;
        proof {
            assert(scaled / duration_micros <= scaled) by (nonlinear_arith)
                requires
                    duration_micros >= 1,
                    scaled >= 0,
            ;
        }
        scaled / duration_micros
    } else {
        0
    };
    VideoMetadata { width, height, fps_milli: fps, duration_micros, total_frames, codec }
}

} // verus!

//! Scene detection on a stream of raw frames, by colour histograms.
//!
//! A drop in likeness between two neighbouring frames is taken for a cut
//! only when no frame of a window ahead resembles the frame before the drop:
//! a drop that recovers is a passing disturbance.

use crate::frame_similarity::SCALE;
use crate::video_frame_extractor::SegmentRange;
use vstd::prelude::*;

verus! {

/// One continuous shot, from the time of its first frame to that of its last,
/// in microseconds.
#[derive(Clone, Copy, Debug, PartialEq, Eq, Structural)]
pub struct SceneSegment {
    pub start_time: u64,
    pub end_time: u64,
}

/// How alike two neighbouring frames must be, in millionths, to count as one
/// scene.
#[derive(Clone, Copy, Debug, PartialEq, Eq, Structural)]
pub struct SplitConfig {
    pub similarity_threshold: u32,
}

/// The number of bins for each colour channel.
pub const HISTOGRAM_BINS: usize = 256;

/// How many seconds ahead a drop may recover.
pub const BACKOFF_WINDOW_SECONDS: u64 = 10;

/// How many of the first `chunks` pixels have the value `v` in a channel.
/// A pixel is three bytes: red, green and blue.
pub open spec fn channel_count(data: Seq<u8>, channel: int, v: int, chunks: int) -> int
    decreases chunks,
{
    if chunks <= 0 {
        0
    } else {
        channel_count(data, channel, v, chunks - 1) + if data[3 * (chunks - 1) + channel] == v {
            1int
        } else {
            0int
        }
    }
}

/// The colour histogram of a raw frame: 256 bins for red, then 256 for green,
/// then 256 for blue, counted over the complete pixels of the frame.
pub open spec fn rgb_histogram_of(data: Seq<u8>) -> Seq<int> {
    Seq::new(768, |j: int| channel_count(data, j / 256, j % 256, data.len() as int / 3))
}

pub proof fn lemma_channel_count_bounds(data: Seq<u8>, channel: int, v: int, chunks: int)
    requires
        0 <= chunks,
    ensures
        0 <= channel_count(data, channel, v, chunks) <= chunks,
    decreases chunks,
{
    if chunks > 0 {
        lemma_channel_count_bounds(data, channel, v, chunks - 1);
    }
}

/// Computes the colour histogram of one raw frame.
pub fn compute_histogram(frame_data: &Vec<u8>) -> (histogram: Vec<u32>)
    requires
        frame_data@.len() / 3 <= u32::MAX,
    ensures
        histogram@.len() == 768,
        forall|j: int| 0 <= j < 768 ==> #[trigger] histogram@[j] == rgb_histogram_of(frame_data@)[j],
{
    let mut histogram: Vec<u32> = Vec::new();
    let mut j: usize = 0;
    while j < 3 * HISTOGRAM_BINS
        invariant
            j <= 768,
            histogram@.len() == j,
            forall|k: int| 0 <= k < j ==> #[trigger] histogram@[k] == 0,
        decreases 768 - j,
    {
        histogram.push(0);
        j += 1;
    }
    let chunks: usize = frame_data.len() / 3;
    let mut c: usize = 0;
    while c < chunks
        invariant
            c <= chunks,
            chunks == frame_data@.len() / 3,
            3 * chunks <= frame_data@.len() <= usize::MAX,
            chunks <= u32::MAX,
            histogram@.len() == 768,
            forall|k: int|
                0 <= k < 768 ==> #[trigger] histogram@[k] == channel_count(
                    frame_data@,
                    k / 256,
                    k % 256,
                    c as int,
                ),
        decreases chunks - c,
    {
        let r: usize = frame_data[3 * c] as usize;
        let g: usize = HISTOGRAM_BINS + frame_data[3 * c + 1] as usize;
        let b: usize = 2 * HISTOGRAM_BINS + frame_data[3 * c + 2] as usize;
        proof {
            lemma_channel_count_bounds(frame_data@, 0, r as int, c as int);
            lemma_channel_count_bounds(frame_data@, 1, g as int - 256, c as int);
            lemma_channel_count_bounds(frame_data@, 2, b as int - 512, c as int);
        }
        let red: u32 = histogram[r];
        histogram.set(r, red + 1);
        let green: u32 = histogram[g];
        histogram.set(g, green + 1);
        let blue: u32 = histogram[b];
        histogram.set(b, blue + 1);
        c += 1;
    }
    histogram
}

/// The share of one bin in the chi-square distance of two histograms, in
/// millionths: the squared difference of the two counts over their sum.
pub open spec fn chi_term(x: int, y: int) -> int {
    if x + y > 0 {
        (1_000_000 * ((x - y) * (x - y))) / (x + y)
    } else {
        0
    }
}

/// The chi-square distance over the first `m` bins, in millionths.
pub open spec fn chi_sum(h1: Seq<u32>, h2: Seq<u32>, m: int) -> int
    decreases m,
{
    if m <= 0 {
        0
    } else {
        chi_sum(h1, h2, m - 1) + chi_term(h1[m - 1] as int, h2[m - 1] as int)
    }
}

/// How alike two histograms are, in millionths: one minus a thousandth of
/// their chi-square distance, and zero where that distance reaches a
/// thousand or the histograms differ in length.
pub open spec fn histogram_likeness(h1: Seq<u32>, h2: Seq<u32>) -> int {
    if h1.len() != h2.len() {
        0
    } else if chi_sum(h1, h2, h1.len() as int) / 1000 >= SCALE {
        0
    } else {
        SCALE - chi_sum(h1, h2, h1.len() as int) / 1000
    }
}

proof fn lemma_chi_term(x: int, y: int)
    requires
        0 <= x <= u32::MAX,
        0 <= y <= u32::MAX,
    ensures
        0 <= chi_term(x, y) <= 1_000_000 * (0xffff_ffff * 0xffff_ffff),
        chi_term(x, y) == chi_term(y, x),
        chi_term(x, x) == 0,
{
    let d = (x - y) * (x - y);
    assert(0 <= d <= 0xffff_ffff * 0xffff_ffff) by (nonlinear_arith)
        requires
            d == (x - y) * (x - y),
            -0xffff_ffff <= x - y <= 0xffff_ffff,
    ;
    assert((y - x) * (y - x) == d) by (nonlinear_arith)
        requires
            d == (x - y) * (x - y),
    ;
    if x + y > 0 {
        let q = (1_000_000 * d) / (x + y);
        assert(0 <= q <= 1_000_000 * d) by (nonlinear_arith)
            requires
                q == (1_000_000 * d) / (x + y),
                x + y >= 1,
                d >= 0,
        ;
    }
    assert((x - x) * (x - x) == 0) by (nonlinear_arith);
}

/// The distance grows with the number of bins, is the same in both
/// directions, and is zero between a histogram and itself.
pub proof fn lemma_chi_sum(h1: Seq<u32>, h2: Seq<u32>, m: int, k: int)
    requires
        0 <= m <= k <= h1.len(),
        k <= h2.len(),
    ensures
        0 <= chi_sum(h1, h2, m) <= chi_sum(h1, h2, k),
        chi_sum(h1, h2, k) == chi_sum(h2, h1, k),
        chi_sum(h1, h1, k) == 0,
    decreases k,
{
    if k > 0 {
        lemma_chi_term(h1[k - 1] as int, h2[k - 1] as int);
        lemma_chi_term(h1[k - 1] as int, h1[k - 1] as int);
        if m < k {
            lemma_chi_sum(h1, h2, m, k - 1);
        } else {
            lemma_chi_sum(h1, h2, m - 1, k - 1);
        }
    }
}

/// A histogram is wholly like itself, and likeness does not depend on which
/// histogram comes first.
pub proof fn lemma_histogram_likeness(h1: Seq<u32>, h2: Seq<u32>)
    ensures
        histogram_likeness(h1, h1) == SCALE,
        histogram_likeness(h1, h2) == histogram_likeness(h2, h1),
        0 <= histogram_likeness(h1, h2) <= SCALE,
{
    lemma_chi_sum(h1, h1, 0, h1.len() as int);
    if h1.len() == h2.len() {
        lemma_chi_sum(h1, h2, 0, h1.len() as int);
    }
}

/// Compares two colour histograms.
pub fn calculate_similarity(hist1: &Vec<u32>, hist2: &Vec<u32>) -> (similarity: u32)
    ensures
        similarity == histogram_likeness(hist1@, hist2@),
{
    if hist1.len() != hist2.len() {
        return 0;
    }
    let n: usize = hist1.len();
    let mut chi: u128 = 0;
    let mut j: usize = 0;
    while j < n
        invariant
            j <= n,
            n == hist1@.len(),
            n == hist2@.len(),
            chi == chi_sum(hist1@, hist2@, j as int),
            chi < 1_000_000_000,
        decreases n - j,
    {
        let x: u128 = hist1[j] as u128;
        let y: u128 = hist2[j] as u128;
        proof {
            lemma_chi_term(x as int, y as int);
        }
        if x + y > 0 {
            let d: u128 = if x >= y {
                x - y
            } else {
                y - x
            };
            assert(d * d == (x - y) * (x - y) && d * d <= 0xffff_ffff * 0xffff_ffff)
                by (nonlinear_arith)
                requires
                    d == x - y || d == y - x,
                    0 <= d <= 0xffff_ffff,
            ;
            chi = chi + (1_000_000 * (d * d)) / (x + y);
        }
        if chi >= 1_000_000_000 {
            proof {
                lemma_chi_sum(hist1@, hist2@, j + 1, n as int);
                let total = chi_sum(hist1@, hist2@, n as int);
                assert(total / 1000 >= SCALE) by (nonlinear_arith)
                    requires
                        total >= 1_000_000_000,
                        SCALE == 1_000_000,
                ;
            }
            return 0;
        }
        j += 1;
    }
    proof {
        assert(chi / 1000 < SCALE) by (nonlinear_arith)
            requires
                0 <= chi < 1_000_000_000,
                SCALE == 1_000_000,
        ;
    }
    SCALE - (chi / 1000) as u32
}

/// The stride after `step`: one and a half times as long, rounded down, and
/// never less than one frame.
pub open spec fn next_step(step: int) -> int {
    if step < 1 {
        1
    } else {
        step + step / 2
    }
}

/// How many frames the window ahead of a drop holds, at a rate given in
/// frames per thousand seconds.
pub open spec fn window_frames(fps_milli: u64) -> int {
    if BACKOFF_WINDOW_SECONDS * fps_milli / 1000 > u32::MAX {
        u32::MAX as int
    } else {
        BACKOFF_WINDOW_SECONDS * fps_milli / 1000
    }
}

/// One past the last frame that a search from `start` may look at.
pub open spec fn search_end(start: int, fps_milli: u64, total: int) -> int {
    if start + window_frames(fps_milli) < total {
        start + window_frames(fps_milli)
    } else {
        total
    }
}

/// Some frame that the search visits, from `idx` on in growing strides and
/// before `end`, is at least as like the reference frame as the threshold
/// asks.
pub open spec fn recovers_from(
    frames: Seq<Vec<u32>>,
    reference: int,
    idx: int,
    step: int,
    end: int,
    threshold: u32,
) -> bool
    decreases end - idx,
{
    if idx >= end {
        false
    } else if histogram_likeness(frames[reference]@, frames[idx]@) >= threshold {
        true
    } else {
        let stride = next_step(step);
        if idx < idx + stride < end {
            recovers_from(frames, reference, idx + stride, stride, end, threshold)
        } else {
            false
        }
    }
}

/// A stride of one frame stays at one frame, so a search that sets out with
/// it looks at every frame of the window.
pub proof fn lemma_search_visits_all(
    frames: Seq<Vec<u32>>,
    reference: int,
    idx: int,
    end: int,
    threshold: u32,
)
    ensures
        next_step(1) == 1,
        recovers_from(frames, reference, idx, 1, end, threshold) <==> exists|k: int|
            idx <= k < end && #[trigger] histogram_likeness(frames[reference]@, frames[k]@)
                >= threshold,
    decreases end - idx,
{
    if idx < end {
        lemma_search_visits_all(frames, reference, idx + 1, end, threshold);
        if histogram_likeness(frames[reference]@, frames[idx]@) >= threshold {
        } else if recovers_from(frames, reference, idx, 1, end, threshold) {
            let k = choose|k: int|
                idx + 1 <= k < end && #[trigger] histogram_likeness(
                    frames[reference]@,
                    frames[k]@,
                ) >= threshold;
            assert(idx <= k < end);
        } else {
            assert forall|k: int| idx <= k < end implies !(#[trigger] histogram_likeness(
                frames[reference]@,
                frames[k]@,
            ) >= threshold) by {
                if k > idx {
                    assert(idx + 1 <= k < end);
                }
            }
        }
    }
}

/// Looks ahead of a drop, in growing strides, for a frame that resembles the
/// frame before the drop.
pub fn exponential_backoff_search(
    frames: &Vec<Vec<u32>>,
    reference_frame_idx: u32,
    start_search_idx: u32,
    fps_milli: u64,
    threshold: u32,
) -> (found: bool)
    requires
        reference_frame_idx < frames@.len(),
    ensures
        found == recovers_from(
            frames@,
            reference_frame_idx as int,
            start_search_idx as int,
            1,
            search_end(start_search_idx as int, fps_milli, frames@.len() as int),
            threshold,
        ),
{
    assert(BACKOFF_WINDOW_SECONDS == 10);
    let per_window: u128 = 10 * (fps_milli as u128) / 1000;
    let window: u128 = if per_window > 0xffff_ffff {
        0xffff_ffff
    } else {
        per_window
    };
    let total: u128 = frames.len() as u128;
    let end: u128 = if start_search_idx as u128 + window < total {
        start_search_idx as u128 + window
    } else {
        total
    };
    let mut step: u128 = 1;
    let mut idx: u128 = start_search_idx as u128;
    if idx >= end {
        return false;
    }
    loop
        invariant
            idx < end <= frames@.len() <= usize::MAX,
            reference_frame_idx < frames@.len(),
            1 <= step <= 0x1_0000_0000_0000_0000,
            recovers_from(
                frames@,
                reference_frame_idx as int,
                start_search_idx as int,
                1,
                search_end(start_search_idx as int, fps_milli, frames@.len() as int),
                threshold,
            ) == recovers_from(
                frames@,
                reference_frame_idx as int,
                idx as int,
                step as int,
                end as int,
                threshold,
            ),
        decreases end - idx,
    {
        let similarity: u32 = calculate_similarity(
            &frames[reference_frame_idx as usize],
            &frames[idx as usize],
        );
        if similarity >= threshold {
            return true;
        }
        assert(next_step(step as int) == step + step / 2);
        step = step + step / 2;
        if step >= end - idx {
            return false;
        }
        idx = idx + step;
    }
}

/// How a drop in likeness between two neighbouring frames is judged.
#[derive(Clone, Copy, Debug, PartialEq, Eq, Structural)]
pub enum BoundaryPolicy {
    /// Every drop below the threshold is a cut.
    ThresholdScan,
    /// A drop is a cut only if no frame of the window ahead recovers.
    BackoffConfirmed,
}

/// Frame `i` ends a scene: the frame after it is less like it than the
/// threshold asks and, where cuts are to be confirmed, no frame of the window
/// ahead recovers.
pub open spec fn is_cut(
    frames: Seq<Vec<u32>>,
    i: int,
    fps_milli: u64,
    threshold: u32,
    policy: BoundaryPolicy,
) -> bool {
    &&& histogram_likeness(frames[i]@, frames[i + 1]@) < threshold
    &&& policy == BoundaryPolicy::BackoffConfirmed ==> !recovers_from(
        frames,
        i,
        i + 1,
        1,
        search_end(i + 1, fps_milli, frames.len() as int),
        threshold,
    )
}

/// The first frame of the scene that is still open once the first `k` frames
/// were looked at.
pub open spec fn open_start(
    frames: Seq<Vec<u32>>,
    fps_milli: u64,
    threshold: u32,
    policy: BoundaryPolicy,
    k: int,
) -> int
    decreases k,
{
    if k <= 0 {
        0
    } else if is_cut(frames, k - 1, fps_milli, threshold, policy) {
        k
    } else {
        open_start(frames, fps_milli, threshold, policy, k - 1)
    }
}

/// The scenes that have ended once the first `k` frames were looked at.
pub open spec fn closed_ranges(
    frames: Seq<Vec<u32>>,
    fps_milli: u64,
    threshold: u32,
    policy: BoundaryPolicy,
    k: int,
) -> Seq<SegmentRange>
    decreases k,
{
    if k <= 0 {
        Seq::empty()
    } else if is_cut(frames, k - 1, fps_milli, threshold, policy) {
        closed_ranges(frames, fps_milli, threshold, policy, k - 1).push(
            SegmentRange {
                start_frame: open_start(frames, fps_milli, threshold, policy, k - 1) as u32,
                end_frame: (k - 1) as u32,
            },
        )
    } else {
        closed_ranges(frames, fps_milli, threshold, policy, k - 1)
    }
}

/// The scenes of a recording as ranges of frames: those that a cut ends, and
/// the one that runs to the final frame.
pub open spec fn scene_ranges(
    frames: Seq<Vec<u32>>,
    fps_milli: u64,
    threshold: u32,
    policy: BoundaryPolicy,
) -> Seq<SegmentRange> {
    if frames.len() == 0 {
        Seq::empty()
    } else {
        closed_ranges(frames, fps_milli, threshold, policy, frames.len() - 1).push(
            SegmentRange {
                start_frame: open_start(frames, fps_milli, threshold, policy, frames.len() - 1) as u32,
                end_frame: (frames.len() - 1) as u32,
            },
        )
    }
}

/// The two policies are not the same: confirming can only take cuts away.
/// Every confirmed cut is a cut of the plain scan, so the confirmed scenes
/// are never more than the plain ones.
pub proof fn lemma_confirmed_cuts_are_plain(
    frames: Seq<Vec<u32>>,
    fps_milli: u64,
    threshold: u32,
    k: int,
)
    ensures
        forall|i: int| #[trigger]
            is_cut(frames, i, fps_milli, threshold, BoundaryPolicy::BackoffConfirmed) ==> is_cut(
                frames,
                i,
                fps_milli,
                threshold,
                BoundaryPolicy::ThresholdScan,
            ),
        closed_ranges(frames, fps_milli, threshold, BoundaryPolicy::BackoffConfirmed, k).len()
            <= closed_ranges(frames, fps_milli, threshold, BoundaryPolicy::ThresholdScan, k).len(),
    decreases k,
{
    if k > 0 {
        lemma_confirmed_cuts_are_plain(frames, fps_milli, threshold, k - 1);
    }
}

/// Finds the scenes of a recording from the colour histograms of its frames,
/// under the chosen policy.
pub fn detect_scenes(
    frames: &Vec<Vec<u32>>,
    fps_milli: u64,
    config: &SplitConfig,
    policy: BoundaryPolicy,
) -> (ranges: Vec<SegmentRange>)
    requires
        frames@.len() <= u32::MAX,
    ensures
        ranges@ == scene_ranges(frames@, fps_milli, config.similarity_threshold, policy),
{
    let threshold: u32 = config.similarity_threshold;
    let mut ranges: Vec<SegmentRange> = Vec::new();
    if frames.len() == 0 {
        return ranges;
    }
    let mut current_start: u32 = 0;
    let mut i: usize = 0;
    while i + 1 < frames.len()
        invariant
            i + 1 <= frames@.len() <= u32::MAX,
            threshold == config.similarity_threshold,
            current_start == open_start(frames@, fps_milli, threshold, policy, i as int),
            current_start <= i,
            ranges@ == closed_ranges(frames@, fps_milli, threshold, policy, i as int),
        decreases frames.len() - i,
    {
        let similarity: u32 = calculate_similarity(&frames[i], &frames[i + 1]);
        let mut cut: bool = false;
        if similarity < threshold {
            cut = match policy {
                BoundaryPolicy::ThresholdScan => true,
                BoundaryPolicy::BackoffConfirmed => !exponential_backoff_search(
                    frames,
                    i as u32,
                    (i + 1) as u32,
                    fps_milli,
                    threshold,
                ),
            };
        }
        assert(cut == is_cut(frames@, i as int, fps_milli, threshold, policy));
        if cut {
            ranges.push(SegmentRange { start_frame: current_start, end_frame: i as u32 });
            current_start = (i + 1) as u32;
        }
        i += 1;
    }
    ranges.push(SegmentRange { start_frame: current_start, end_frame: (frames.len() - 1) as u32 });
    ranges
}

/// The time at which a frame is shown, in microseconds, at a rate given in
/// frames per thousand seconds.
pub open spec fn time_of_frame(frame: u32, fps_milli: u64) -> int {
    frame * 1_000_000_000 / (fps_milli as int)
}

/// The scenes of a recording with the times of their first and last frames.
pub open spec fn scene_times(ranges: Seq<SegmentRange>, fps_milli: u64) -> Seq<SceneSegment> {
    Seq::new(
        ranges.len(),
        |k: int|
            SceneSegment {
                start_time: time_of_frame(ranges[k].start_frame, fps_milli) as u64,
                end_time: time_of_frame(ranges[k].end_frame, fps_milli) as u64,
            },
    )
}

fn frame_time(frame: u32, fps_milli: u64) -> (time: u64)
    requires
        fps_milli > 0,
    ensures
        time == time_of_frame(frame, fps_milli),
{
    let scaled: u64 = (frame as u64) * 1_000_000_000;
    proof {
        assert(scaled / fps_milli <= scaled) by (nonlinear_arith)
            requires
                fps_milli >= 1,
                scaled >= 0,
        ;
    }
    scaled / fps_milli
}

/// Splits a recording into scenes, each with the times of its first and last
/// frames. Cuts are confirmed by a search ahead.
pub fn segment_video(frames: &Vec<Vec<u32>>, fps_milli: u64, config: &SplitConfig) -> (segments: Vec<
    SceneSegment,
>)
    requires
        frames@.len() <= u32::MAX,
        fps_milli > 0,
    ensures
        segments@ == scene_times(
            scene_ranges(
                frames@,
                fps_milli,
                config.similarity_threshold,
                BoundaryPolicy::BackoffConfirmed,
            ),
            fps_milli,
        ),
{
    let ranges = detect_scenes(frames, fps_milli, config, BoundaryPolicy::BackoffConfirmed);
    let mut segments: Vec<SceneSegment> = Vec::new();
    let mut k: usize = 0;
    while k < ranges.len()
        invariant
            k <= ranges@.len(),
            fps_milli > 0,
            segments@.len() == k,
            forall|m: int| 0 <= m < k ==> segments@[m] == scene_times(ranges@, fps_milli)[m],
        decreases ranges.len() - k,
    {
        let range = ranges[k];
        segments.push(
            SceneSegment {
                start_time: frame_time(range.start_frame, fps_milli),
                end_time: frame_time(range.end_frame, fps_milli),
            },
        );
        k += 1;
    }
    assert(segments@ =~= scene_times(ranges@, fps_milli));
    segments
}

} // verus!

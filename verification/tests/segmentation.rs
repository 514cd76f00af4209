use mp4handler::video_frame_extractor::{
    drop_ending, filter_segments, min_frames, normalize_timestamps, plan_from_scores,
    segment_time_span, segments_from_split_points, split_points, InvalidFrameRange, SegmentRange,
    SegmentationError, TimeSpan,
};

fn to_score(similarity: f64) -> u32 {
    (similarity * 1_000_000.0).round() as u32
}

fn range(start_frame: u32, end_frame: u32) -> SegmentRange {
    SegmentRange { start_frame, end_frame }
}

#[test]
fn five_frames_with_one_drop_give_two_segments() {
    let indices: Vec<u32> = vec![0, 1, 2, 3, 4];
    let scores: Vec<u32> = vec![0.9, 0.9, 0.2, 0.9].into_iter().map(to_score).collect();
    let plan = plan_from_scores(&indices, &scores, to_score(0.5), 0, false, false);
    assert_eq!(plan, Ok(vec![range(0, 2), range(3, 4)]));
}

#[test]
fn split_points_start_at_zero_and_close_on_the_final_frame() {
    let indices: Vec<u32> = vec![0, 1, 2, 3, 4];
    let scores: Vec<u32> = vec![900_000, 900_000, 200_000, 900_000];
    assert_eq!(split_points(&indices, &scores, 500_000, 0), vec![0, 3, 4]);
}

#[test]
fn a_cut_on_the_final_frame_is_not_added_twice() {
    let indices: Vec<u32> = vec![0, 1, 2, 3];
    let scores: Vec<u32> = vec![900_000, 100_000, 100_000];
    assert_eq!(split_points(&indices, &scores, 500_000, 0), vec![0, 2, 3]);
}

#[test]
fn a_score_equal_to_the_threshold_is_no_cut() {
    let indices: Vec<u32> = vec![0, 1, 2];
    let scores: Vec<u32> = vec![500_000, 499_999];
    assert_eq!(split_points(&indices, &scores, 500_000, 0), vec![0, 2]);
}

#[test]
fn cuts_keep_the_minimum_distance() {
    let indices: Vec<u32> = (0..12).collect();
    let scores: Vec<u32> = vec![0; 11];
    let points = split_points(&indices, &scores, 500_000, 4);
    assert_eq!(points, vec![0, 4, 8, 11]);
    for pair in points[..points.len() - 1].windows(2) {
        assert!(pair[1] - pair[0] >= 4);
    }
}

#[test]
fn the_closing_point_may_follow_a_cut_closely() {
    let indices: Vec<u32> = (0..100).collect();
    let mut scores: Vec<u32> = vec![900_000; 99];
    scores[94] = 0;
    assert_eq!(split_points(&indices, &scores, 500_000, 10), vec![0, 95, 99]);
}

#[test]
fn segments_end_before_the_next_split_point() {
    let points: Vec<u32> = vec![0, 3, 7, 9];
    assert_eq!(
        segments_from_split_points(&points),
        vec![range(0, 2), range(3, 6), range(7, 9)]
    );
}

#[test]
fn fewer_than_two_frames_are_refused() {
    let one: Vec<u32> = vec![0];
    let none: Vec<u32> = vec![];
    assert_eq!(
        plan_from_scores(&one, &none, 500_000, 0, false, false),
        Err(SegmentationError::InsufficientFrames { count: 1 })
    );
    assert_eq!(
        plan_from_scores(&none, &none, 500_000, 0, false, false),
        Err(SegmentationError::InsufficientFrames { count: 0 })
    );
}

#[test]
fn a_recording_without_a_cut_is_reported() {
    let indices: Vec<u32> = vec![0, 1, 2, 3];
    let scores: Vec<u32> = vec![900_000, 900_000, 900_000];
    assert_eq!(
        plan_from_scores(&indices, &scores, 500_000, 0, false, false),
        Err(SegmentationError::NoSceneChangeDetected)
    );
}

#[test]
fn trimming_drops_head_and_tail() {
    let indices: Vec<u32> = (0..10).collect();
    let mut scores: Vec<u32> = vec![900_000; 9];
    scores[2] = 0;
    scores[5] = 0;
    let all = plan_from_scores(&indices, &scores, 500_000, 0, false, false);
    assert_eq!(all, Ok(vec![range(0, 2), range(3, 5), range(6, 9)]));
    let no_head = plan_from_scores(&indices, &scores, 500_000, 0, true, false);
    assert_eq!(no_head, Ok(vec![range(3, 5), range(6, 9)]));
    let no_tail = plan_from_scores(&indices, &scores, 500_000, 0, false, true);
    assert_eq!(no_tail, Ok(vec![range(0, 2), range(3, 5)]));
    let middle = plan_from_scores(&indices, &scores, 500_000, 0, true, true);
    assert_eq!(middle, Ok(vec![range(3, 5)]));
}

#[test]
fn trimming_never_removes_the_only_segment() {
    let one = vec![range(0, 9)];
    assert_eq!(filter_segments(one.clone(), true, false), Ok(one.clone()));
    assert_eq!(filter_segments(one.clone(), false, true), Ok(one.clone()));
    assert_eq!(filter_segments(one.clone(), true, true), Ok(one.clone()));
    let two = vec![range(0, 4), range(5, 9)];
    assert_eq!(filter_segments(two.clone(), true, true), Ok(vec![range(5, 9)]));
}

#[test]
fn filtering_nothing_leaves_nothing() {
    assert_eq!(
        filter_segments(vec![], true, true),
        Err(SegmentationError::AllSegmentsFiltered { detected: 0 })
    );
}

#[test]
fn dropping_the_ending_uses_up_a_single_segment() {
    assert_eq!(drop_ending(vec![]), Err(SegmentationError::NoSceneChangeDetected));
    assert_eq!(
        drop_ending(vec![range(0, 9)]),
        Err(SegmentationError::AllSegmentsFiltered { detected: 1 })
    );
    assert_eq!(
        drop_ending(vec![range(0, 4), range(5, 9)]),
        Ok(vec![range(0, 4)])
    );
}

#[test]
fn min_frames_rounds_to_the_nearest_frame() {
    assert_eq!(min_frames(2_000_000, 30_000), 60);
    assert_eq!(min_frames(1_000_000, 29_970), 30);
    assert_eq!(min_frames(500_000, 25_000), 13);
    assert_eq!(min_frames(0, 30_000), 0);
    assert_eq!(min_frames(u64::MAX, u64::MAX), u32::MAX);
}

#[test]
fn timestamps_are_made_monotone_and_start_at_zero() {
    let raw: Vec<i64> = vec![500_000, 540_000, -1, 520_000, 600_000];
    assert_eq!(
        normalize_timestamps(raw),
        vec![0, 40_000, 40_000, 40_000, 100_000]
    );
    assert_eq!(normalize_timestamps(vec![-5, 10]), vec![0, 10]);
    assert_eq!(normalize_timestamps(vec![]), Vec::<u64>::new());
}

#[test]
fn a_segment_lasts_until_the_next_frame() {
    let timestamps: Vec<u64> = vec![0, 40_000, 80_000, 120_000];
    assert_eq!(
        segment_time_span(&timestamps, 160_000, range(1, 2)),
        Ok(TimeSpan { start: 40_000, length: 80_000 })
    );
    assert_eq!(
        segment_time_span(&timestamps, 160_000, range(2, 3)),
        Ok(TimeSpan { start: 80_000, length: 80_000 })
    );
    assert_eq!(
        segment_time_span(&timestamps, 100_000, range(3, 3)),
        Ok(TimeSpan { start: 120_000, length: 0 })
    );
    assert_eq!(
        segment_time_span(&timestamps, 160_000, range(2, 4)),
        Err(InvalidFrameRange { start_frame: 2, end_frame: 4, total_frames: 4 })
    );
    assert_eq!(
        segment_time_span(&timestamps, 160_000, range(3, 2)),
        Err(InvalidFrameRange { start_frame: 3, end_frame: 2, total_frames: 4 })
    );
}

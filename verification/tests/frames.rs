use mp4handler::decimal::{push_decimal, push_fixed6, push_padded};
use mp4handler::downloader::extract_filename;
use mp4handler::frame_similarity::{GrayFrame, SimilarityAlgorithm};
use mp4handler::video_frame_extractor::{
    adjacent_similarities, complete_metadata, cut_arguments, frames_from_listing,
    plan_segments, plan_without_ending, Frame, SegmentRange, SegmentationError, TimeSpan,
};

fn still(index: u32, level: u8) -> Frame {
    Frame {
        index,
        timestamp: index as u64 * 40_000,
        image: GrayFrame::new(2, 2, vec![level; 4]).unwrap(),
    }
}

fn range(start_frame: u32, end_frame: u32) -> SegmentRange {
    SegmentRange { start_frame, end_frame }
}

#[test]
fn file_names_follow_the_last_slash() {
    assert_eq!(extract_filename("https://host/path/video.mp4"), "video.mp4");
    assert_eq!(extract_filename("https://host/path/video.mp4?token=1&x=2"), "video.mp4");
    assert_eq!(extract_filename("https://host/a?b=/c/d.mp4?e"), "d.mp4");
    assert_eq!(extract_filename("video.mp4"), "video.mp4");
    assert_eq!(extract_filename("https://host/dir/"), "");
    assert_eq!(extract_filename(""), "");
    assert_eq!(extract_filename("?q"), "");
}

#[test]
fn numbers_are_written_in_decimal() {
    let mut text = String::from("n=");
    push_decimal(&mut text, 0);
    text.push(',');
    push_decimal(&mut text, 7);
    text.push(',');
    push_decimal(&mut text, 1_234_567_890);
    text.push(',');
    push_decimal(&mut text, u64::MAX);
    assert_eq!(text, "n=0,7,1234567890,18446744073709551615");
}

#[test]
fn padded_numbers_keep_their_width() {
    let mut text = String::new();
    push_padded(&mut text, 42, 6);
    text.push('|');
    push_padded(&mut text, 1_234_567, 3);
    text.push('|');
    push_padded(&mut text, 9, 0);
    assert_eq!(text, "000042|567|");
}

#[test]
fn millionths_are_written_with_six_places() {
    let mut text = String::new();
    push_fixed6(&mut text, 10_500_000);
    text.push(' ');
    push_fixed6(&mut text, 0);
    text.push(' ');
    push_fixed6(&mut text, 1);
    text.push(' ');
    push_fixed6(&mut text, 3_600_000_001);
    assert_eq!(text, "10.500000 0.000000 0.000001 3600.000001");
}

#[test]
fn neighbouring_frames_are_compared_in_order() {
    let frames = vec![still(0, 10), still(1, 10), still(2, 200), still(3, 200)];
    assert_eq!(
        adjacent_similarities(&frames, SimilarityAlgorithm::FrameDiff),
        vec![1_000_000, 254_901, 1_000_000]
    );
    assert_eq!(adjacent_similarities(&vec![], SimilarityAlgorithm::SSIM), Vec::<u32>::new());
    assert_eq!(
        adjacent_similarities(&vec![still(0, 1)], SimilarityAlgorithm::SSIM),
        Vec::<u32>::new()
    );
}

#[test]
fn frames_that_do_not_compare_count_as_alike() {
    let odd = Frame {
        index: 1,
        timestamp: 40_000,
        image: GrayFrame::new(1, 1, vec![0]).unwrap(),
    };
    let frames = vec![still(0, 255), odd, still(2, 255)];
    assert_eq!(
        adjacent_similarities(&frames, SimilarityAlgorithm::Histogram),
        vec![1_000_000, 1_000_000]
    );
}

#[test]
fn a_recording_is_planned_from_its_frames() {
    let frames = vec![
        still(0, 10),
        still(1, 10),
        still(2, 10),
        still(3, 200),
        still(4, 200),
        still(5, 90),
        still(6, 90),
    ];
    for algorithm in [
        SimilarityAlgorithm::Histogram,
        SimilarityAlgorithm::SSIM,
        SimilarityAlgorithm::FrameDiff,
    ] {
        assert_eq!(
            plan_segments(&frames, algorithm, 900_000, 0, false, false),
            Ok(vec![range(0, 2), range(3, 4), range(5, 6)])
        );
    }
    assert_eq!(
        plan_segments(&frames, SimilarityAlgorithm::FrameDiff, 900_000, 3, false, false),
        Ok(vec![range(0, 2), range(3, 6)])
    );
    assert_eq!(
        plan_segments(&frames, SimilarityAlgorithm::FrameDiff, 900_000, 0, true, true),
        Ok(vec![range(3, 4)])
    );
    assert_eq!(
        plan_segments(&frames, SimilarityAlgorithm::FrameDiff, 100_000, 0, false, false),
        Err(SegmentationError::NoSceneChangeDetected)
    );
}

#[test]
fn one_frame_is_not_enough() {
    assert_eq!(
        plan_segments(&vec![still(0, 1)], SimilarityAlgorithm::SSIM, 500_000, 0, false, false),
        Err(SegmentationError::InsufficientFrames { count: 1 })
    );
    assert_eq!(
        plan_segments(&vec![], SimilarityAlgorithm::SSIM, 500_000, 0, false, false),
        Err(SegmentationError::InsufficientFrames { count: 0 })
    );
}

#[test]
fn the_ending_is_left_out() {
    let indices: Vec<u32> = (0..10).collect();
    let mut scores: Vec<u32> = vec![900_000; 9];
    scores[2] = 0;
    scores[5] = 0;
    assert_eq!(
        plan_without_ending(&indices, &scores, 500_000, 0, false),
        Ok(vec![range(0, 2), range(3, 5)])
    );
    let mut shuffled = plan_without_ending(&indices, &scores, 500_000, 0, true).unwrap();
    shuffled.sort_by_key(|s| s.start_frame);
    assert_eq!(shuffled, vec![range(0, 2), range(3, 5)]);
    assert_eq!(
        plan_without_ending(&indices, &vec![900_000; 9], 500_000, 0, false),
        Err(SegmentationError::NoSceneChangeDetected)
    );
    assert_eq!(
        plan_without_ending(&vec![0], &vec![], 500_000, 0, false),
        Err(SegmentationError::InsufficientFrames { count: 1 })
    );
}

#[test]
fn shuffled_segments_come_in_a_new_order() {
    let indices: Vec<u32> = (0..200).collect();
    let scores: Vec<u32> = vec![0; 199];
    let ordered = plan_without_ending(&indices, &scores, 500_000, 2, false).unwrap();
    let shuffled = plan_without_ending(&indices, &scores, 500_000, 2, true).unwrap();
    assert_eq!(ordered.len(), 99);
    assert_ne!(shuffled, ordered);
    let mut sorted = shuffled.clone();
    sorted.sort_by_key(|s| s.start_frame);
    assert_eq!(sorted, ordered);
}

#[test]
fn listed_images_become_numbered_frames() {
    let paths: Vec<String> = ["f/frame_00001.jpg", "f/notes.txt", "f/frame_00002.jpg", "f/frame_00003.jpg"]
        .iter()
        .map(|s| s.to_string())
        .collect();
    let is_image = vec![true, false, true, true];
    let timestamps: Vec<u64> = vec![0, 40_000, 80_000];
    let frames = frames_from_listing(&paths, &is_image, &timestamps);
    assert_eq!(frames.len(), 2);
    assert_eq!(frames[0].frame_number, 0);
    assert_eq!(frames[0].timestamp, 0);
    assert_eq!(frames[0].image_path, "f/frame_00001.jpg");
    assert_eq!(frames[1].frame_number, 2);
    assert_eq!(frames[1].timestamp, 80_000);
    assert_eq!(frames[1].image_path, "f/frame_00002.jpg");
    assert!(frames_from_listing(&paths, &is_image, &vec![]).is_empty());
}

#[test]
fn a_span_is_cut_with_its_times_in_seconds() {
    let arguments = cut_arguments(
        "in/movie.mp4",
        TimeSpan { start: 1_500_000, length: 40_000 },
        "out/movie_1.mp4",
    );
    let expected: Vec<String> = [
        "-i", "in/movie.mp4", "-ss", "1.500000", "-t", "0.040000", "-vf",
        "setpts=PTS-STARTPTS", "-vsync", "vfr", "-c:v", "libx264", "-preset", "fast", "-crf",
        "18", "-c:a", "aac", "-b:a", "192k", "-af",
        "aresample=async=1:first_pts=0,asetpts=PTS-STARTPTS", "-fflags", "+genpts",
        "-avoid_negative_ts", "make_zero", "-y", "out/movie_1.mp4",
    ]
    .iter()
    .map(|s| s.to_string())
    .collect();
    assert_eq!(arguments, expected);
}

#[test]
fn missing_metadata_is_filled_in() {
    let counted = complete_metadata(1920, 1080, "h264".to_string(), 30_000, 2_000_000, Some(61));
    assert_eq!(counted.total_frames, 61);
    assert_eq!(counted.fps_milli, 30_000);
    assert_eq!(counted.width, 1920);
    assert_eq!(counted.height, 1080);
    assert_eq!(counted.codec, "h264");
    assert_eq!(counted.duration_micros, 2_000_000);
    let estimated = complete_metadata(1, 1, "vp9".to_string(), 29_970, 10_000_000, None);
    assert_eq!(estimated.total_frames, 300);
    assert_eq!(estimated.fps_milli, 29_970);
    let derived = complete_metadata(1, 1, "vp9".to_string(), 0, 4_000_000, Some(100));
    assert_eq!(derived.total_frames, 100);
    assert_eq!(derived.fps_milli, 25_000);
    let unknown = complete_metadata(1, 1, "vp9".to_string(), 0, 4_000_000, None);
    assert_eq!(unknown.total_frames, 0);
    assert_eq!(unknown.fps_milli, 0);
    let wrapped = complete_metadata(1, 1, "vp9".to_string(), 0, 0, Some(0x1_0000_0005));
    assert_eq!(wrapped.total_frames, 5);
    assert_eq!(wrapped.fps_milli, 0);
}

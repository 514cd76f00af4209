use mp4handler::video_processor::{
    build_concat_filter, check_video_compatibility, concat_arguments, output_file_name,
    validate_concat_request, CompatibilityIssue, ConcatRequestError, PlanError, VideoInfo,
};

fn info(width: u32, height: u32, duration_micros: i64, has_audio: bool) -> VideoInfo {
    VideoInfo {
        codec: "h264".to_string(),
        width,
        height,
        fps: "30/1".to_string(),
        duration_micros,
        has_audio,
    }
}

fn named(name: &str, info: VideoInfo) -> (String, VideoInfo) {
    (name.to_string(), info)
}

const VIDEO_0: &str = "[0:v]scale=1280:720:force_original_aspect_ratio=decrease,pad=1280:720:(ow-iw)/2:(oh-ih)/2,setsar=1,format=yuv420p,setpts=PTS-STARTPTS[v0]";
const VIDEO_1: &str = "[1:v]scale=1280:720:force_original_aspect_ratio=decrease,pad=1280:720:(ow-iw)/2:(oh-ih)/2,setsar=1,format=yuv420p,setpts=PTS-STARTPTS[v1]";
const AUDIO_0: &str = "[0:a]aresample=async=1:first_pts=0,aformat=sample_rates=48000:channel_layouts=stereo,asetpts=PTS-STARTPTS[a0]";

#[test]
fn a_clip_without_audio_gets_silence_of_its_length() {
    let videos = vec![
        named("first.mp4", info(1280, 720, 4_000_000, true)),
        named("second.mp4", info(640, 480, 10_500_000, false)),
    ];
    let plan = build_concat_filter(&videos, 1280, 720).unwrap();
    assert!(plan.contains("anullsrc=channel_layout=stereo:sample_rate=48000,atrim=duration=10.500000,asetpts=PTS-STARTPTS[a1]"));
    assert!(plan.ends_with("[v0][a0][v1][a1]concat=n=2:v=1:a=1[outv][outa]"));
    let expected = [
        VIDEO_0,
        AUDIO_0,
        VIDEO_1,
        "anullsrc=channel_layout=stereo:sample_rate=48000,atrim=duration=10.500000,asetpts=PTS-STARTPTS[a1]",
        "[v0][a0][v1][a1]concat=n=2:v=1:a=1[outv][outa]",
    ]
    .join(";");
    assert_eq!(plan, expected);
}

#[test]
fn a_single_clip_is_still_merged() {
    let videos = vec![named("only.mp4", info(1920, 1080, 1, true))];
    let plan = build_concat_filter(&videos, 1280, 720).unwrap();
    assert_eq!(
        plan,
        [VIDEO_0, AUDIO_0, "[v0][a0]concat=n=1:v=1:a=1[outv][outa]"].join(";")
    );
}

#[test]
fn no_clips_give_a_bare_merge() {
    let plan = build_concat_filter(&vec![], 640, 360).unwrap();
    assert_eq!(plan, "concat=n=0:v=1:a=1[outv][outa]");
}

#[test]
fn indices_with_several_digits_are_written_out() {
    let videos: Vec<(String, VideoInfo)> = (0..12)
        .map(|i| named("clip.mp4", info(320, 240, 1_000_000 + i, i % 2 == 0)))
        .collect();
    let plan = build_concat_filter(&videos, 3840, 2160).unwrap();
    assert!(plan.contains("[11:v]scale=3840:2160:force_original_aspect_ratio=decrease,pad=3840:2160:"));
    assert!(plan.contains("atrim=duration=1.000011,asetpts=PTS-STARTPTS[a11]"));
    assert!(plan.contains("[10:a]aresample="));
    assert!(plan.ends_with("[v10][a10][v11][a11]concat=n=12:v=1:a=1[outv][outa]"));
    assert_eq!(plan.split(';').count(), 25);
}

#[test]
fn short_silence_keeps_its_leading_zeros() {
    let videos = vec![named("blip.mp4", info(320, 240, 42, false))];
    let plan = build_concat_filter(&videos, 320, 240).unwrap();
    assert!(plan.contains("atrim=duration=0.000042,"));
}

#[test]
fn silence_of_unknown_length_is_refused() {
    let videos = vec![
        named("first.mp4", info(1280, 720, 0, true)),
        named("second.mp4", info(1280, 720, 0, false)),
        named("third.mp4", info(1280, 720, -3, false)),
    ];
    assert_eq!(
        build_concat_filter(&videos, 1280, 720),
        Err(PlanError::MissingDurationForSilence { index: 1 })
    );
    let videos = vec![named("only.mp4", info(1280, 720, -1, false))];
    assert_eq!(
        build_concat_filter(&videos, 1280, 720),
        Err(PlanError::MissingDurationForSilence { index: 0 })
    );
}

#[test]
fn a_clip_with_audio_needs_no_duration() {
    let videos = vec![named("only.mp4", info(1280, 720, 0, true))];
    assert!(build_concat_filter(&videos, 1280, 720).is_ok());
}

#[test]
fn videos_need_a_resolution_and_a_duration() {
    let result = check_video_compatibility(vec![
        named("good.mp4", info(1280, 720, 5_000_000, true)),
        named("flat.mp4", info(0, 720, 5_000_000, true)),
        named("void.mp4", info(1280, 0, 0, false)),
        named("still.mp4", info(1280, 720, -1, true)),
    ]);
    assert!(!result.compatible);
    assert_eq!(
        result.issues,
        vec![
            CompatibilityIssue::UnknownResolution { index: 1 },
            CompatibilityIssue::UnknownResolution { index: 2 },
            CompatibilityIssue::UnknownDuration { index: 2 },
            CompatibilityIssue::UnknownDuration { index: 3 },
        ]
    );
    assert_eq!(result.videos_info.len(), 4);
    assert_eq!(result.videos_info[1].0, "flat.mp4");
}

#[test]
fn sound_videos_are_compatible() {
    let result = check_video_compatibility(vec![named("good.mp4", info(2, 2, 1, false))]);
    assert!(result.compatible);
    assert!(result.issues.is_empty());
    let result = check_video_compatibility(vec![]);
    assert!(result.compatible);
}

#[test]
fn requests_are_checked_in_order() {
    assert_eq!(validate_concat_request("in", "out", 1, 3, 2), Ok(()));
    assert_eq!(
        validate_concat_request("", "", 0, 0, 0),
        Err(ConcatRequestError::EmptyInputDir)
    );
    assert_eq!(
        validate_concat_request("in", "", 0, 0, 0),
        Err(ConcatRequestError::EmptyOutputDir)
    );
    assert_eq!(
        validate_concat_request("in", "out", 0, 3, 1),
        Err(ConcatRequestError::ZeroCount)
    );
    assert_eq!(
        validate_concat_request("in", "out", 3, 0, 1),
        Err(ConcatRequestError::ZeroCount)
    );
    assert_eq!(
        validate_concat_request("in", "out", 4, 3, 0),
        Err(ConcatRequestError::InvalidCountRange)
    );
    assert_eq!(
        validate_concat_request("in", "out", 3, 3, 0),
        Err(ConcatRequestError::ZeroRuns)
    );
}

#[test]
fn output_files_are_numbered_in_jobs_of_several_rounds() {
    assert_eq!(output_file_name("20240102_030405", 1, 1), "output_20240102_030405.mp4");
    assert_eq!(output_file_name("20240102_030405", 3, 2), "output_20240102_030405_2.mp4");
    assert_eq!(output_file_name("t", 12, 10), "output_t_10.mp4");
}

#[test]
fn the_transcoder_gets_inputs_then_the_filter() {
    let videos = vec!["a.mp4".to_string(), "b c.mp4".to_string()];
    let arguments = concat_arguments(&videos, "PLAN", "out/result.mp4");
    let expected: Vec<String> = [
        "-i", "a.mp4", "-i", "b c.mp4", "-filter_complex", "PLAN", "-map", "[outv]", "-map",
        "[outa]", "-vsync", "vfr", "-c:v", "libx264", "-preset", "fast", "-crf", "23",
        "-pix_fmt", "yuv420p", "-c:a", "aac", "-b:a", "192k", "-fflags", "+genpts",
        "-avoid_negative_ts", "make_zero", "-shortest", "out/result.mp4",
    ]
    .iter()
    .map(|s| s.to_string())
    .collect();
    assert_eq!(arguments, expected);
}

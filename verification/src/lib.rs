//! Scene segmentation, clip sampling pools and concatenation filter planning
//! for batches of video files.
//!
//! All quantities are integers. A similarity score is a fixed-point value in
//! millionths, a time or a duration is a count of microseconds, and a frame
//! rate is a count of frames per thousand seconds.

pub mod decimal;
pub mod downloader;
pub mod frame_similarity;
pub mod pixel_sums;
mod random;
pub mod roots;
pub mod video_frame_extractor;
pub mod video_processor;
pub mod video_splitter;

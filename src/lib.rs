//! Adaptive playback speed: finds silent and loud stretches of a video's audio
//! track, cuts them into speed ranges, and decides which playback rate a live
//! player should run at for each reported position.
pub mod analysis;
pub mod controller;
pub mod ranges;
pub mod replies;
pub mod video;

pub use analysis::{
    classify, count_silent, loudness_of_blocks, smooth_margins, AnalysisError, ThresholdFraction,
};
pub use controller::{
    generate_telnet_password, ControllerAction, ControllerState, PlayerEvent, VlcController,
    VlcControllerError,
};
pub use ranges::{find_range, map_ranges, segment, SpeedupRange, DROP_RATE, MIN_RATE};
pub use replies::{
    current_time_millis, duration_millis, frame_count, parse_vlc_response_to_usize,
    position_reply_complete,
};
pub use video::{analyze_blocks, AnalysisSettings, Video, VideoProcessingError, VideoSource};

use video_summarizer::{
    generate_telnet_password, AnalysisError, ControllerAction, ControllerState, PlayerEvent,
    SpeedupRange, Video, VideoSource, VlcController, VlcControllerError,
};

const F: bool = false;
const T: bool = true;

fn analysed(frames: Vec<bool>, millis: usize) -> Video {
    let mut v = Video::new(VideoSource::FilePath("talk.mp4".to_string()));
    v.silent_frames = Some(frames);
    v.length_millis = Some(millis);
    v
}

fn reply(s: &str) -> PlayerEvent {
    PlayerEvent::Reply(s.as_bytes().to_vec())
}

fn position(frames: usize) -> PlayerEvent {
    // At 10 frames per second, frame n is shown at n * 100 ms.
    reply(&format!("frames displayed : {}\nframes lost : 0\nFrame rate: 10\n", frames))
}

fn polling(loud: u64, silent: u64) -> VlcController {
    // Seven blocks over 7 s: loud [0, 2 s), silent [2 s, 5 s), loud [5 s, 7 s).
    let video = analysed(vec![F, F, T, T, T, F, F], 7000);
    let mut c = VlcController::new(video, loud, silent).unwrap();
    assert!(matches!(c.step(PlayerEvent::Connected), Ok(ControllerAction::Wait)));
    c
}

fn ask_position(c: &mut VlcController) {
    assert!(matches!(c.step(PlayerEvent::Tick), Ok(ControllerAction::AskIsPlaying)));
    assert!(matches!(c.step(reply("> 1")), Ok(ControllerAction::AskPosition)));
}

#[test]
fn controller_table_is_in_milliseconds() {
    let c = polling(1500, 5000);
    assert_eq!(c.state, ControllerState::Ready);
    assert_eq!(
        c.table,
        vec![
            SpeedupRange::new(0, 2000, 1500),
            SpeedupRange::new(2000, 5000, 5000),
            SpeedupRange::new(5000, 7000, 1500),
        ]
    );
}

#[test]
fn paused_player_gets_no_rate_command() {
    let mut c = polling(1500, 5000);
    assert!(matches!(c.step(PlayerEvent::Tick), Ok(ControllerAction::AskIsPlaying)));
    assert!(matches!(c.step(reply("> 0")), Ok(ControllerAction::Wait)));
    assert_eq!(c.state, ControllerState::Polling);
    assert_eq!(c.last_rate, None);
}

#[test]
fn playing_player_gets_the_rate_of_its_position() {
    let mut c = polling(1500, 5000);
    ask_position(&mut c);
    assert!(matches!(c.step(position(30)), Ok(ControllerAction::SetRate(5000))));
    assert_eq!(c.last_rate, Some(5000));
    // Same range again: nothing is sent.
    ask_position(&mut c);
    assert!(matches!(c.step(position(40)), Ok(ControllerAction::Wait)));
    // Into the next range.
    ask_position(&mut c);
    assert!(matches!(c.step(position(55)), Ok(ControllerAction::SetRate(1500))));
    // A seek backwards resolves against the same table.
    ask_position(&mut c);
    assert!(matches!(c.step(position(25)), Ok(ControllerAction::SetRate(5000))));
}

#[test]
fn dropping_rate_is_sent_as_it_is() {
    let mut c = polling(1500, 100_000);
    ask_position(&mut c);
    assert!(matches!(c.step(position(30)), Ok(ControllerAction::SetRate(100_000))));
}

#[test]
fn malformed_replies_are_retried() {
    let mut c = polling(1500, 5000);
    assert!(matches!(c.step(PlayerEvent::Tick), Ok(ControllerAction::AskIsPlaying)));
    assert!(matches!(c.step(reply("> ?")), Ok(ControllerAction::MalformedReply)));
    assert_eq!(c.state, ControllerState::Polling);
    ask_position(&mut c);
    assert!(matches!(c.step(reply("frames lost : 0")), Ok(ControllerAction::MalformedReply)));
    assert_eq!(c.state, ControllerState::Polling);
    ask_position(&mut c);
    assert!(matches!(c.step(position(10)), Ok(ControllerAction::SetRate(1500))));
}

#[test]
fn position_past_the_end_stops_the_controller() {
    let mut c = polling(1500, 5000);
    ask_position(&mut c);
    assert!(matches!(c.step(position(70)), Err(VlcControllerError::NoMatchingRange)));
    assert_eq!(c.state, ControllerState::Stopped);
    assert!(matches!(c.step(PlayerEvent::Tick), Ok(ControllerAction::Wait)));
}

#[test]
fn closed_channel_stops_the_controller() {
    let mut c = polling(1500, 5000);
    assert!(matches!(c.step(PlayerEvent::ChannelClosed), Err(VlcControllerError::ConnectionClosed)));
    assert_eq!(c.state, ControllerState::Stopped);
    assert!(matches!(c.step(PlayerEvent::Tick), Ok(ControllerAction::Wait)));
    assert!(matches!(c.step(position(10)), Ok(ControllerAction::Wait)));
}

#[test]
fn events_out_of_turn_are_ignored() {
    let video = analysed(vec![F, T], 1000);
    let mut c = VlcController::new(video, 1000, 2000).unwrap();
    assert_eq!(c.state, ControllerState::Connecting);
    assert!(matches!(c.step(PlayerEvent::Tick), Ok(ControllerAction::Wait)));
    assert!(matches!(c.step(reply("> 1")), Ok(ControllerAction::Wait)));
    assert_eq!(c.state, ControllerState::Connecting);
}

#[test]
fn controller_needs_an_analysed_video() {
    let mut v = Video::new(VideoSource::FilePath("a.mp4".to_string()));
    v.length_millis = Some(1000);
    assert!(matches!(VlcController::new(v, 1500, 5000), Err(VlcControllerError::NotEnoughInfo)));
    let mut v = Video::new(VideoSource::StdinStream(vec![1, 2, 3]));
    v.silent_frames = Some(vec![F, T]);
    assert!(matches!(VlcController::new(v, 1500, 5000), Err(VlcControllerError::NotEnoughInfo)));
}

#[test]
fn controller_rejects_bad_rates_and_short_audio() {
    assert!(matches!(
        VlcController::new(analysed(vec![F, T], 1000), 400, 5000),
        Err(VlcControllerError::Analysis(AnalysisError::InvalidRate))
    ));
    assert!(matches!(
        VlcController::new(analysed(vec![F], 1000), 1500, 5000),
        Err(VlcControllerError::Analysis(AnalysisError::InsufficientAudioData))
    ));
}

#[test]
fn io_errors_convert() {
    let e = std::io::Error::new(std::io::ErrorKind::NotFound, "vlc");
    assert!(matches!(VlcControllerError::from(e), VlcControllerError::ExternalCommandError(_)));
}

#[test]
fn telnet_password_shape() {
    let alphabet = "qwertyuiopasdfghjklzxcvbnmQWERTYUIOPASDFGHJKLZXCVBNM;',./?><|\":}{P})(*&^%$#@!)";
    let p = generate_telnet_password(128);
    assert_eq!(p.len(), 128);
    assert!(p.iter().all(|b| alphabet.as_bytes().contains(b)));
    assert_eq!(generate_telnet_password(4).len(), 4);
}

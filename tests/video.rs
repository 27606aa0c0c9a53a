use video_summarizer::{
    AnalysisError, AnalysisSettings, ThresholdFraction, Video, VideoProcessingError, VideoSource,
};

fn settings() -> AnalysisSettings {
    AnalysisSettings {
        silence_threshold: ThresholdFraction { numerator: 1, denominator: 50 },
        frame_margin: 2,
    }
}

#[test]
fn new_video_is_not_analysed() {
    let v = Video::new(VideoSource::FilePath("a.mp4".to_string()));
    assert!(v.length_millis.is_none());
    assert!(v.silent_frames.is_none());
    assert!(matches!(v.source, VideoSource::FilePath(ref p) if p == "a.mp4"));
}

#[test]
fn audio_without_frames_cannot_be_classified() {
    let mut v = Video::new(VideoSource::StdinStream(vec![]));
    let r = v.recognize_silent_and_loud_frames(&vec![], settings());
    assert!(matches!(
        r,
        Err(VideoProcessingError::Analysis(AnalysisError::InsufficientAudioData))
    ));
    assert!(v.silent_frames.is_none());
}

#[test]
fn noise_bytes_decode_to_no_frames() {
    let mut v = Video::new(VideoSource::FilePath("a.mp4".to_string()));
    let noise: Vec<u8> = (0..4096u32).map(|i| (i * 7 % 13) as u8).collect();
    let r = v.recognize_silent_and_loud_frames(&noise, settings());
    assert!(r.is_err());
    assert!(v.silent_frames.is_none());
}

/// Silent MPEG-1 layer III frames: 128 kbit/s, 44.1 kHz, mono, zero side
/// information, 417 bytes each.
fn silent_mp3(frames: usize) -> Vec<u8> {
    let mut out = Vec::new();
    for _ in 0..frames {
        let mut frame = vec![0u8; 417];
        frame[0] = 0xFF;
        frame[1] = 0xFB;
        frame[2] = 0x90;
        frame[3] = 0xC4;
        out.extend_from_slice(&frame);
    }
    out
}

#[test]
fn silent_mp3_stream_is_all_silent() {
    let mut v = Video::new(VideoSource::FilePath("a.mp4".to_string()));
    let r = v.recognize_silent_and_loud_frames(&silent_mp3(20), settings());
    assert!(r.is_ok());
    let frames = v.silent_frames.unwrap();
    assert!(frames.len() >= 2);
    assert!(frames.iter().all(|s| *s));
}

#[test]
fn length_from_probe_output() {
    let mut v = Video::new(VideoSource::FilePath("a.mp4".to_string()));
    assert!(v.set_length_from_probe(b"2838.919000\n".to_vec()).is_ok());
    assert_eq!(v.length_millis, Some(2838919));
    let r = v.set_length_from_probe(b"N/A\n".to_vec());
    assert!(matches!(r, Err(VideoProcessingError::BadOutputFromFFprobe(ref o)) if o == b"N/A\n"));
    assert_eq!(v.length_millis, Some(2838919));
}

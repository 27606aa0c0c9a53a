use video_summarizer::{count_silent, duration_millis, frame_count};

#[test]
fn durations_in_milliseconds() {
    assert_eq!(duration_millis(&b"2838.919000\n".to_vec()), Some(2838919));
    assert_eq!(duration_millis(&b"duration=12.3456\n".to_vec()), Some(12345));
    assert_eq!(duration_millis(&b"  7 \r\n".to_vec()), Some(7000));
    assert_eq!(duration_millis(&b"duration=N/A\n".to_vec()), None);
    assert_eq!(duration_millis(&b"".to_vec()), None);
}

#[test]
fn frame_counts() {
    assert_eq!(frame_count(&b"nb_frames=68044\n".to_vec()), Some(68044));
    assert_eq!(frame_count(&b"nb_frames=N/A\n".to_vec()), None);
    assert_eq!(frame_count(&b"12".to_vec()), Some(12));
}

#[test]
fn silent_labels_are_counted() {
    assert_eq!(count_silent(&vec![true, false, true, true]), 3);
    assert_eq!(count_silent(&vec![]), 0);
}

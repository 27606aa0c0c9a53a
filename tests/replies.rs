use video_summarizer::{current_time_millis, parse_vlc_response_to_usize, position_reply_complete};

fn bytes(s: &str) -> Vec<u8> {
    s.as_bytes().to_vec()
}

#[test]
fn first_number_of_a_reply_line() {
    assert_eq!(parse_vlc_response_to_usize(&bytes("> 1")), Some(1));
    assert_eq!(parse_vlc_response_to_usize(&bytes("> 0\r\n")), Some(0));
    assert_eq!(parse_vlc_response_to_usize(&bytes("x1 \t +42 7")), Some(42));
    assert_eq!(parse_vlc_response_to_usize(&bytes("> yes")), None);
    assert_eq!(parse_vlc_response_to_usize(&bytes("")), None);
    assert_eq!(parse_vlc_response_to_usize(&bytes("+ -3 4")), Some(4));
}

#[test]
fn number_too_large_for_usize_is_skipped() {
    assert_eq!(parse_vlc_response_to_usize(&bytes("99999999999999999999999 5")), Some(5));
    assert_eq!(
        parse_vlc_response_to_usize(&bytes("18446744073709551615")),
        Some(usize::MAX)
    );
}

const STATS: &str = "+----[ begin of statistical info ]\r\n| frames displayed :     2704\r\n| frames lost :          0\r\n";
const INFO: &str = "+----[ Stream 0 ]\r\n| Frame rate: 23.976024\r\n| Type: Video\r\n";

#[test]
fn position_from_stats_and_info() {
    let reply = bytes(&format!("{}{}", STATS, INFO));
    assert!(position_reply_complete(&reply));
    assert_eq!(current_time_millis(&reply), Some(112779));
}

#[test]
fn lost_frames_count_towards_the_position() {
    let reply = bytes("frames displayed : 100\nframes lost : 5\nFrame rate: 25\n");
    assert_eq!(current_time_millis(&reply), Some(4200));
}

#[test]
fn incomplete_reply_is_not_complete() {
    let reply = bytes(STATS);
    assert!(!position_reply_complete(&reply));
    assert_eq!(current_time_millis(&reply), None);
}

#[test]
fn malformed_fields_give_no_position() {
    assert_eq!(
        current_time_millis(&bytes("frames displayed : ten\nframes lost : 0\nFrame rate: 25\n")),
        None
    );
    assert_eq!(
        current_time_millis(&bytes("frames displayed : 10\nframes lost : 0\nFrame rate: 0\n")),
        None
    );
    assert_eq!(
        current_time_millis(&bytes("frames displayed : 10\nframes lost : 0\nFrame rate: 2.5.1\n")),
        None
    );
}

#[test]
fn frame_rate_forms() {
    assert_eq!(
        current_time_millis(&bytes("frames displayed : 10\nframes lost : 0\nFrame rate: .5\n")),
        Some(20000)
    );
    assert_eq!(
        current_time_millis(&bytes("frames displayed : 10\nframes lost : 0\nFrame rate: 4.\n")),
        Some(2500)
    );
}

use video_summarizer::{
    classify, find_range, map_ranges, segment, AnalysisError, SpeedupRange, ThresholdFraction,
};

const F: bool = false;
const T: bool = true;
const LOUD: u64 = 1500;
const SILENT: u64 = 5000;

fn r(from: usize, to: usize, rate: u64) -> SpeedupRange {
    SpeedupRange::new(from, to, rate)
}

#[test]
fn scenario_segments_without_margin() {
    let half = ThresholdFraction { numerator: 1, denominator: 2 };
    let c = classify(&vec![10, 10, 1, 1, 1, 10, 10], half, 0).unwrap();
    let s = segment(&c, LOUD, SILENT).unwrap();
    assert_eq!(s, vec![r(0, 2, LOUD), r(2, 5, SILENT), r(5, 7, LOUD)]);
}

#[test]
fn scenario_segments_with_margin_one() {
    let half = ThresholdFraction { numerator: 1, denominator: 2 };
    let c = classify(&vec![10, 10, 1, 1, 1, 10, 10], half, 1).unwrap();
    let s = segment(&c, LOUD, SILENT).unwrap();
    assert_eq!(s, vec![r(0, 3, LOUD), r(3, 4, SILENT), r(4, 7, LOUD)]);
}

#[test]
fn segments_cover_without_gaps_or_overlaps() {
    let c = vec![T, T, F, T, F, F, F, T, T, F];
    let s = segment(&c, LOUD, SILENT).unwrap();
    assert_eq!(s[0].frame_from, 0);
    assert_eq!(s.last().unwrap().frame_to, c.len());
    for w in s.windows(2) {
        assert_eq!(w[0].frame_to, w[1].frame_from);
    }
    for j in 0..c.len() {
        let holding = s.iter().filter(|g| g.frame_from <= j && j < g.frame_to).count();
        assert_eq!(holding, 1);
    }
}

#[test]
fn neighbouring_segments_differ_in_rate() {
    let c = vec![F, T, T, F, T, F, F, T];
    let s = segment(&c, LOUD, SILENT).unwrap();
    assert_eq!(s.len(), 6);
    for w in s.windows(2) {
        assert_ne!(w[0].speedup_rate, w[1].speedup_rate);
    }
}

#[test]
fn uniform_classification_is_one_segment() {
    let s = segment(&vec![T, T, T], LOUD, SILENT).unwrap();
    assert_eq!(s, vec![r(0, 3, SILENT)]);
}

#[test]
fn rates_below_one_half_are_rejected() {
    assert_eq!(segment(&vec![T, F], 499, SILENT), Err(AnalysisError::InvalidRate));
    assert_eq!(segment(&vec![T, F], LOUD, 0), Err(AnalysisError::InvalidRate));
    assert_eq!(segment(&vec![T], 499, SILENT), Err(AnalysisError::InvalidRate));
    assert!(segment(&vec![T, F], 500, 500).is_ok());
}

#[test]
fn single_label_is_rejected() {
    assert_eq!(segment(&vec![T], LOUD, SILENT), Err(AnalysisError::InsufficientAudioData));
}

#[test]
fn mapping_scales_and_stretches_the_end() {
    let s = vec![r(0, 2, LOUD), r(2, 5, SILENT), r(5, 7, LOUD)];
    let m = map_ranges(&s, 7, 70);
    assert_eq!(m, vec![r(0, 20, LOUD), r(20, 50, SILENT), r(50, 70, LOUD)]);
    let m = map_ranges(&s, 7, 10);
    assert_eq!(m, vec![r(0, 2, LOUD), r(2, 7, SILENT), r(7, 10, LOUD)]);
}

#[test]
fn mapping_keeps_start_order() {
    let s = vec![r(0, 1, LOUD), r(1, 2, SILENT), r(2, 3, LOUD), r(3, 9, SILENT)];
    let m = map_ranges(&s, 9, 1000);
    for w in m.windows(2) {
        assert!(w[0].frame_from < w[1].frame_from);
    }
    // Squeezed into fewer indices, starts may meet but never cross.
    let m = map_ranges(&s, 9, 3);
    assert_eq!(m, vec![r(0, 0, LOUD), r(0, 0, SILENT), r(0, 1, LOUD), r(1, 3, SILENT)]);
}

#[test]
fn lookup_finds_the_holding_range() {
    let m = vec![r(0, 20, LOUD), r(20, 20, SILENT), r(20, 50, SILENT), r(50, 70, LOUD)];
    assert_eq!(find_range(&m, 0), Some(0));
    assert_eq!(find_range(&m, 19), Some(0));
    assert_eq!(find_range(&m, 20), Some(2));
    assert_eq!(find_range(&m, 69), Some(3));
    assert_eq!(find_range(&m, 70), None);
}

#[test]
fn rendered_ranges() {
    assert!(r(0, 3, LOUD).is_rendered());
    assert!(!r(3, 3, LOUD).is_rendered());
    assert!(!r(0, 3, 100_000).is_rendered());
    assert!(r(0, 3, 99_999).is_rendered());
}

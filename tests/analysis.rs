use video_summarizer::{
    analyze_blocks, classify, loudness_of_blocks, smooth_margins, AnalysisError,
    AnalysisSettings, ThresholdFraction,
};

const F: bool = false;
const T: bool = true;

fn half() -> ThresholdFraction {
    ThresholdFraction { numerator: 1, denominator: 2 }
}

#[test]
fn scenario_threshold_half_without_margin() {
    let loudness = vec![10, 10, 1, 1, 1, 10, 10];
    let c = classify(&loudness, half(), 0).unwrap();
    assert_eq!(c, vec![F, F, T, T, T, F, F]);
}

#[test]
fn scenario_margin_one_erodes_silent_island() {
    let loudness = vec![10, 10, 1, 1, 1, 10, 10];
    let c = classify(&loudness, half(), 1).unwrap();
    assert_eq!(c, vec![F, F, F, T, F, F, F]);
}

#[test]
fn classification_keeps_length() {
    let loudness = vec![3, 0, 9, 9, 2, 1, 0, 8, 4];
    for margin in 0..4 {
        let c = classify(&loudness, half(), margin).unwrap();
        assert_eq!(c.len(), loudness.len());
    }
}

#[test]
fn zero_margin_changes_nothing() {
    let c = vec![T, F, T, T, F, T, T, T, F, T];
    assert_eq!(smooth_margins(&c, 0), c);
}

#[test]
fn smoothing_keeps_the_ends_and_does_not_cascade() {
    let c = vec![T, T, T, T, T, F, T, T];
    assert_eq!(smooth_margins(&c, 1), vec![T, T, T, T, F, F, F, T]);
    assert_eq!(smooth_margins(&c, 2), vec![T, T, T, F, F, F, F, T]);
    assert_eq!(smooth_margins(&c, 10), vec![T, F, F, F, F, F, F, T]);
}

#[test]
fn threshold_is_strictly_below() {
    // max 10, threshold 1/2: 5 is not below 5, 4 is.
    let c = classify(&vec![10, 5, 4, 10], half(), 0).unwrap();
    assert_eq!(c, vec![F, F, T, F]);
}

#[test]
fn full_threshold_marks_all_but_the_loudest() {
    let one = ThresholdFraction { numerator: 3, denominator: 3 };
    let c = classify(&vec![7, 6, 7, 0], one, 0).unwrap();
    assert_eq!(c, vec![F, T, F, T]);
}

#[test]
fn total_silence_is_all_silent() {
    let c = classify(&vec![0, 0, 0], half(), 2).unwrap();
    assert_eq!(c, vec![T, T, T]);
}

#[test]
fn too_few_values_are_rejected() {
    assert_eq!(classify(&vec![], half(), 0), Err(AnalysisError::InsufficientAudioData));
    assert_eq!(classify(&vec![5], half(), 0), Err(AnalysisError::InsufficientAudioData));
}

#[test]
fn loudness_is_mean_absolute_value() {
    let blocks = vec![vec![1i16, -3, 4], vec![-32768i16, -32768], vec![0i16], vec![5i16, 6]];
    assert_eq!(loudness_of_blocks(&blocks), Ok(vec![2, 32768, 0, 5]));
}

#[test]
fn empty_block_is_rejected() {
    let blocks = vec![vec![1i16, 2], vec![]];
    assert_eq!(loudness_of_blocks(&blocks), Err(AnalysisError::EmptyBlock));
}

#[test]
fn blocks_are_classified() {
    let settings = AnalysisSettings { silence_threshold: half(), frame_margin: 0 };
    let blocks = vec![vec![10i16, -10], vec![1i16, -1], vec![-20i16, 0]];
    assert_eq!(analyze_blocks(&blocks, settings), Ok(vec![F, T, F]));
    assert_eq!(
        analyze_blocks(&vec![vec![3i16]], settings),
        Err(AnalysisError::InsufficientAudioData)
    );
    assert_eq!(
        analyze_blocks(&vec![vec![3i16], vec![]], settings),
        Err(AnalysisError::EmptyBlock)
    );
}

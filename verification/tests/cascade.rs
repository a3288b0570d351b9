use ndlocr_lite_rs::cascade::{
    bucket_for_char_count, cascade_next, estimate_line_char_count, estimate_pred_char_bucket,
    CascadeStage, LineModel, PredCharBucket, DEFAULT_CASCADE_THRESHOLD_30_TO_50,
    DEFAULT_CASCADE_THRESHOLD_50_TO_100,
};
use ndlocr_lite_rs::pipeline::cascade::{run_cascade, run_cascade_with_idx, LineCandidate};

/// The value by which the recognisers of the cascade name a bucket.
fn bucket_value(b: PredCharBucket) -> f32 {
    match b {
        PredCharBucket::Chars30 => 3.0,
        PredCharBucket::Chars50 => 2.0,
        PredCharBucket::Chars100 => 100.0,
    }
}

#[test]
fn line_char_count_scales_with_aspect_ratio() {
    assert_eq!(estimate_line_char_count(60, 24), 6);
    assert_eq!(estimate_line_char_count(240, 24), 25);
    assert_eq!(estimate_line_char_count(768, 24), 80);
}

#[test]
fn line_char_count_handles_zero_height() {
    assert!(estimate_line_char_count(100, 0) >= 1);
}

#[test]
fn line_char_count_returns_at_least_one() {
    assert!(estimate_line_char_count(1, 10) >= 1);
}

#[test]
fn bucket_routes_short_lines_to_30_model() {
    let b = bucket_value(estimate_pred_char_bucket(60, 24, 25, 45));
    assert_eq!(b, 3.0, "narrow line should pick 30-char model");
}

#[test]
fn bucket_routes_medium_lines_to_50_model() {
    let b = bucket_value(estimate_pred_char_bucket(288, 24, 25, 45));
    assert_eq!(b, 2.0);
}

#[test]
fn bucket_routes_long_lines_to_100_model() {
    let b = bucket_value(estimate_pred_char_bucket(600, 24, 25, 45));
    assert_eq!(b, 100.0);
}

#[test]
fn bucket_uses_default_thresholds() {
    assert_eq!(DEFAULT_CASCADE_THRESHOLD_30_TO_50, 25);
    assert_eq!(DEFAULT_CASCADE_THRESHOLD_50_TO_100, 45);
}

#[test]
fn estimate_pred_char_bucket_returns_30_class_for_short_lines() {
    let b = bucket_value(estimate_pred_char_bucket(240, 64, 25, 45));
    assert!((b - 3.0).abs() < f32::EPSILON);
}

#[test]
fn estimate_pred_char_bucket_returns_50_class_for_medium_lines() {
    let b = bucket_value(estimate_pred_char_bucket(800, 64, 25, 45));
    assert!((b - 2.0).abs() < f32::EPSILON);
}

#[test]
fn estimate_pred_char_bucket_returns_100_class_for_long_lines() {
    let b = bucket_value(estimate_pred_char_bucket(1600, 64, 25, 45));
    assert!((b - 100.0).abs() < f32::EPSILON);
}

/// The estimate computed with `f32`, as the recognition command does.
fn f32_estimate(width: usize, height: usize) -> usize {
    let h = height.max(1);
    let ratio = width as f32 / h as f32;
    (ratio * 2.5).round().max(1.0) as usize
}

#[test]
fn line_char_count_matches_f32_arithmetic() {
    let sizes = [
        (0usize, 0usize),
        (1, 5),
        (3, 5),
        (7, 10),
        (14, 10),
        (17, 3),
        (1000, 7),
        (123_456, 789),
        (16_777_217, 3),
        (usize::MAX, 1),
        (usize::MAX, usize::MAX),
        (1, usize::MAX),
        (987_654_321_987, 12_345),
    ];
    for (w, h) in sizes {
        assert_eq!(estimate_line_char_count(w, h), f32_estimate(w, h), "{w}x{h}");
    }
    for h in 1..60usize {
        for w in 0..400usize {
            assert_eq!(estimate_line_char_count(w, h), f32_estimate(w, h), "{w}x{h}");
        }
    }
}

#[test]
fn bucket_thresholds_are_inclusive() {
    assert_eq!(bucket_for_char_count(25, 25, 45), PredCharBucket::Chars30);
    assert_eq!(bucket_for_char_count(26, 25, 45), PredCharBucket::Chars50);
    assert_eq!(bucket_for_char_count(45, 25, 45), PredCharBucket::Chars50);
    assert_eq!(bucket_for_char_count(46, 25, 45), PredCharBucket::Chars100);
}

#[test]
fn cascade_escalates_a_long_reading_twice() {
    let (s, m) = cascade_next(CascadeStage::Start, true, PredCharBucket::Chars30, 0, 25, 45);
    assert_eq!((s, m), (CascadeStage::AfterFirst, Some(LineModel::Chars30)));
    let (s, m) = cascade_next(s, true, PredCharBucket::Chars30, 30, 25, 45);
    assert_eq!((s, m), (CascadeStage::AfterEscalation, Some(LineModel::Chars50)));
    let (s, m) = cascade_next(s, true, PredCharBucket::Chars30, 50, 25, 45);
    assert_eq!((s, m), (CascadeStage::Done, Some(LineModel::Chars100)));
    let (s, m) = cascade_next(s, true, PredCharBucket::Chars30, 10, 25, 45);
    assert_eq!((s, m), (CascadeStage::Done, None));
}

#[test]
fn cascade_off_reads_once_with_the_largest_model() {
    let (s, m) = cascade_next(CascadeStage::Start, false, PredCharBucket::Chars30, 0, 25, 45);
    assert_eq!((s, m), (CascadeStage::Done, Some(LineModel::Chars100)));
}

#[test]
fn cascade_keeps_a_short_reading() {
    let (s, m) = cascade_next(CascadeStage::AfterFirst, true, PredCharBucket::Chars50, 44, 25, 45);
    assert_eq!((s, m), (CascadeStage::Done, None));
}

#[test]
fn run_cascade_routes_and_escalates_lines() {
    let lines = vec![
        LineCandidate::new(2, PredCharBucket::Chars30),
        LineCandidate::new(0, PredCharBucket::Chars100),
        LineCandidate::new(1, PredCharBucket::Chars30),
        LineCandidate::new(3, PredCharBucket::Chars50),
    ];
    // Line 1 reads too long for the 30 model, and again for the 50 model.
    let r30 = |l: &LineCandidate| if l.idx == 1 { "x".repeat(30) } else { format!("s30-{}", l.idx) };
    let r50 = |l: &LineCandidate| if l.idx == 1 { "y".repeat(50) } else { format!("s50-{}", l.idx) };
    let r100 = |l: &LineCandidate| format!("s100-{}", l.idx);
    let out = run_cascade_with_idx(lines.clone(), r30, r50, r100);
    assert_eq!(
        out,
        vec![
            (0, "s100-0".to_string()),
            (1, "s100-1".to_string()),
            (2, "s30-2".to_string()),
            (3, "s50-3".to_string()),
        ]
    );
    let texts = run_cascade(lines, r30, r50, r100);
    assert_eq!(texts, vec!["s100-0", "s100-1", "s30-2", "s50-3"]);
}

#[test]
fn run_cascade_keeps_every_line_once() {
    let lines: Vec<LineCandidate> = (0..6)
        .map(|i| {
            let b = match i % 3 {
                0 => PredCharBucket::Chars30,
                1 => PredCharBucket::Chars50,
                _ => PredCharBucket::Chars100,
            };
            LineCandidate::new(5 - i, b)
        })
        .collect();
    let out = run_cascade_with_idx(lines, |_l: &LineCandidate| "a".repeat(40), |_l: &LineCandidate| "b".to_string(), |_l: &LineCandidate| "c".to_string());
    let idx: Vec<usize> = out.iter().map(|p| p.0).collect();
    assert_eq!(idx, vec![0, 1, 2, 3, 4, 5]);
}

#[test]
fn estimate_grows_with_width_and_falls_with_height() {
    let heights = [0usize, 1, 7, 24, 33, 100, 16_777_217];
    let widths = [0usize, 1, 59, 60, 61, 240, 767, 768, 10_000, 16_777_215, 16_777_216, 33_554_433];
    for &h in &heights {
        for pair in widths.windows(2) {
            assert!(estimate_line_char_count(pair[0], h) <= estimate_line_char_count(pair[1], h));
        }
    }
    for &w in &widths {
        for pair in heights.windows(2) {
            assert!(estimate_line_char_count(w, pair[1]) <= estimate_line_char_count(w, pair[0]));
        }
        assert_eq!(estimate_line_char_count(w, 0), estimate_line_char_count(w, 1));
    }
}

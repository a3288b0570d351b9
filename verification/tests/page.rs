use ndlocr_lite_rs::cli::LineOrientation;
use ndlocr_lite_rs::io::is_supported_image_extension;
use ndlocr_lite_rs::page::{
    finish_page_lines, join_halves, line_crop_box, long_line_halves, mock_line_boxes,
    normalize_line_count, quality_counts, validate_mock_text, MockConfigError, QualityCounts,
};
use ndlocr_lite_rs::pipeline::crop::BBox;
use ndlocr_lite_rs::postprocess::rule_pack::{LineReplacement, RulePack};

#[test]
fn line_count_is_between_one_and_the_height() {
    assert_eq!(normalize_line_count(0, 10), 1);
    assert_eq!(normalize_line_count(5, 3), 3);
    assert_eq!(normalize_line_count(5, 0), 1);
    assert_eq!(normalize_line_count(4, 10), 4);
}

#[test]
fn mock_boxes_split_the_inner_band() {
    assert_eq!(mock_line_boxes(100, 100, 2), vec![[2, 2, 98, 50], [2, 50, 98, 98]]);
    assert_eq!(mock_line_boxes(3, 1, 0), vec![[1, 0, 2, 1]]);
}

#[test]
fn mock_text_must_not_be_blank() {
    assert_eq!(validate_mock_text(" ", None), Err(MockConfigError::EmptyLineText));
    assert_eq!(validate_mock_text("x", Some(" ")), Err(MockConfigError::EmptyOutputStem));
    assert_eq!(validate_mock_text("x", None), Ok(()));
    assert_eq!(validate_mock_text("x", Some("out")), Ok(()));
    assert_eq!(MockConfigError::EmptyLineText.message(), "line_text must not be empty");
}

#[test]
fn detected_line_boxes_are_checked_and_padded() {
    assert_eq!(line_crop_box([-3, 5, 50, 30], 0, 100, 40), Some(BBox::new(0, 5, 50, 30)));
    assert_eq!(line_crop_box([10, 10, 5, 20], 0, 100, 40), None);
    assert_eq!(line_crop_box([0, 0, 120, 10], 0, 100, 40), None);
    assert_eq!(line_crop_box([10, 10, 50, 20], 2, 100, 40), Some(BBox::new(8, 8, 52, 22)));
}

#[test]
fn long_lines_split_in_halves() {
    assert_eq!(
        long_line_halves(true, 80, 80, 400, 100),
        Some((BBox::new(0, 0, 200, 100), BBox::new(200, 0, 400, 100)))
    );
    assert_eq!(long_line_halves(true, 80, 80, 399, 100), None);
    assert_eq!(long_line_halves(true, 79, 80, 400, 100), None);
    assert_eq!(long_line_halves(false, 80, 80, 400, 100), None);
    assert_eq!(long_line_halves(true, 80, 80, 1, 0), None);
    assert_eq!(join_halves("", ""), None);
    assert_eq!(join_halves("ab", "c"), Some("abc".to_string()));
}

#[test]
fn quality_counts_of_japanese_text() {
    assert_eq!(
        quality_counts("秘密保持契約書"),
        QualityCounts { total: 7, japanese: 7, digits: 0, symbols: 0, max_repeat: 1, unmatched: 0 }
    );
}

#[test]
fn quality_counts_of_digit_noise() {
    assert_eq!(
        quality_counts("(199.866 (1999.88) (198) 196"),
        QualityCounts { total: 28, japanese: 0, digits: 18, symbols: 7, max_repeat: 3, unmatched: 1 }
    );
    assert_eq!(
        quality_counts(""),
        QualityCounts { total: 0, japanese: 0, digits: 0, symbols: 0, max_repeat: 1, unmatched: 0 }
    );
    assert_eq!(quality_counts(")】").unmatched, 2);
}

#[test]
fn page_lines_go_through_rules_and_pack() {
    let lines = vec!["-".to_string(), "本拠約".to_string(), "本拠約".to_string()];
    let pack = RulePack {
        line_replacements: vec![LineReplacement { from: "本拠約".to_string(), to: "本契約".to_string() }],
        merge_rules: vec![],
        collapse_duplicate_adjacent_lines: false,
    };
    assert_eq!(finish_page_lines(&lines, true, Some(&pack)), vec!["本契約".to_string()]);
    assert_eq!(finish_page_lines(&lines, false, None), lines);
}

#[test]
fn image_extensions_follow_path_rules() {
    assert!(is_supported_image_extension("a/b/photo.JPG"));
    assert!(is_supported_image_extension("x.jpeg"));
    assert!(is_supported_image_extension("scan.tar.png"));
    assert!(is_supported_image_extension("dir.jpg/"));
    assert!(is_supported_image_extension("a.jpg/."));
    assert!(!is_supported_image_extension("x.gif"));
    assert!(!is_supported_image_extension(".jpg"));
    assert!(!is_supported_image_extension("a/.."));
    assert!(!is_supported_image_extension("noext"));
    assert!(!is_supported_image_extension(""));
}

#[test]
fn orientation_names_vertical_lines() {
    assert!(LineOrientation::Vertical.is_vertical());
    assert!(!LineOrientation::Horizontal.is_vertical());
}

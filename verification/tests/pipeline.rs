use ndlocr_lite_rs::cascade::PredCharBucket;
use ndlocr_lite_rs::pipeline::connect::{
    line_detection_indices, recognize_line_detections_with_cascade,
    recognize_line_detections_with_cascade_detailed, run_page, LineDetection,
};
use ndlocr_lite_rs::pipeline::crop::{CropError, CroppedImage};

fn det(b: [i32; 4], class: &str, bucket: PredCharBucket) -> LineDetection {
    LineDetection { box_xyxy: b, class_name: class.to_string(), bucket }
}

/// The recogniser names the model and the crop size.
fn reader(tag: &'static str) -> impl Fn(&CroppedImage) -> String {
    move |c: &CroppedImage| format!("{tag}:{}x{}", c.width, c.height)
}

#[test]
fn only_line_detections_are_read_in_detection_order() {
    let rgb = vec![0u8; 40 * 30 * 3];
    let dets = vec![
        det([0, 0, 10, 5], "line_main", PredCharBucket::Chars100),
        det([0, 0, 40, 30], "text_block", PredCharBucket::Chars100),
        det([5, 5, 7, 25], "line_caption", PredCharBucket::Chars30),
    ];
    let lines = recognize_line_detections_with_cascade_detailed(
        &rgb, 40, 30, &dets, reader("r30"), reader("r50"), reader("r100"),
    )
    .unwrap();
    assert_eq!(lines.len(), 2);
    assert_eq!(lines[0].idx, 0);
    assert_eq!(lines[0].text, "r100:10x5");
    assert!(!lines[0].is_vertical);
    assert_eq!(lines[1].idx, 1);
    assert_eq!(lines[1].text, "r30:2x20");
    assert!(lines[1].is_vertical);
}

#[test]
fn a_box_outside_the_image_fails_the_page() {
    let rgb = vec![0u8; 10 * 10 * 3];
    let dets = vec![det([-1, 0, 5, 5], "line_main", PredCharBucket::Chars30)];
    let res = recognize_line_detections_with_cascade_detailed(
        &rgb, 10, 10, &dets, reader("a"), reader("b"), reader("c"),
    );
    assert!(matches!(res, Err(CropError::InvalidBBox)));
}

#[test]
fn page_lines_come_in_reading_order() {
    let rgb = vec![0u8; 100 * 100 * 3];
    let dets = vec![
        det([10, 50, 90, 60], "line_main", PredCharBucket::Chars100),
        det([10, 10, 90, 20], "line_main", PredCharBucket::Chars100),
        det([92, 5, 98, 95], "line_main", PredCharBucket::Chars100),
        det([0, 0, 100, 100], "block_fig", PredCharBucket::Chars100),
    ];
    let out = run_page(&rgb, 100, 100, &dets, reader("a"), reader("b"), reader("c")).unwrap();
    assert_eq!(out.total_detection_count, 4);
    assert_eq!(out.line_detection_count, 3);
    let order: Vec<usize> = out.lines.iter().map(|l| l.idx).collect();
    assert_eq!(order, vec![2, 1, 0]);
    assert_eq!(out.texts, vec!["c:6x90", "c:80x10", "c:80x10"]);
}

#[test]
fn line_texts_come_in_detection_order() {
    let rgb = vec![0u8; 40 * 30 * 3];
    let dets = vec![
        det([0, 0, 10, 5], "line_main", PredCharBucket::Chars50),
        det([0, 0, 40, 30], "block_fig", PredCharBucket::Chars100),
        det([5, 5, 7, 25], "line_caption", PredCharBucket::Chars30),
    ];
    let texts = recognize_line_detections_with_cascade(
        &rgb, 40, 30, &dets, reader("r30"), reader("r50"), reader("r100"),
    )
    .unwrap();
    assert_eq!(texts, vec!["r50:10x5".to_string(), "r30:2x20".to_string()]);
    let bad = vec![det([0, 0, 50, 5], "line_main", PredCharBucket::Chars30)];
    assert!(matches!(
        recognize_line_detections_with_cascade(&rgb, 40, 30, &bad, reader("a"), reader("b"), reader("c")),
        Err(CropError::InvalidBBox)
    ));
}

#[test]
fn line_detections_are_found_among_all_detections() {
    let dets = vec![
        det([0, 0, 1, 1], "text_block", PredCharBucket::Chars100),
        det([0, 0, 2, 2], "line_main", PredCharBucket::Chars30),
        det([0, 0, 3, 3], "block_fig", PredCharBucket::Chars100),
        det([0, 0, 4, 4], "line_title", PredCharBucket::Chars50),
    ];
    assert_eq!(line_detection_indices(&dets), vec![1, 3]);
}

use ndlocr_lite_rs::cascade::PredCharBucket;
use ndlocr_lite_rs::page::page_line_boxes_or_bands;
use ndlocr_lite_rs::pipeline::connect::LineDetection;
use ndlocr_lite_rs::pipeline::crop::{crop_rgb_u8, expand_bbox_xyxy_clamped, BBox, CropError};
use ndlocr_lite_rs::pipeline::line_segment::{detect_textline_bands_fast, detect_textline_bands_naive};

#[test]
fn crop_copies_the_box_pixels() {
    let rgb: Vec<u8> = (0u8..12).collect();
    let img = crop_rgb_u8(&rgb, 2, 2, BBox::new(1, 0, 2, 2)).unwrap();
    assert_eq!(img.width, 1);
    assert_eq!(img.height, 2);
    assert_eq!(img.data, vec![3, 4, 5, 9, 10, 11]);
}

#[test]
fn crop_refuses_a_short_buffer() {
    let rgb = vec![0u8; 11];
    assert_eq!(
        crop_rgb_u8(&rgb, 2, 2, BBox::new(0, 0, 1, 1)).err(),
        Some(CropError::InvalidBufferLength)
    );
}

#[test]
fn crop_refuses_a_box_outside_the_image() {
    let rgb = vec![0u8; 12];
    assert_eq!(
        crop_rgb_u8(&rgb, 2, 2, BBox::new(0, 0, 3, 1)).err(),
        Some(CropError::InvalidBBox)
    );
    assert_eq!(
        crop_rgb_u8(&rgb, 2, 2, BBox::new(1, 0, 1, 1)).err(),
        Some(CropError::InvalidBBox)
    );
}

#[test]
fn crop_refuses_an_overflowing_size() {
    let rgb = vec![0u8; 3];
    assert_eq!(
        crop_rgb_u8(&rgb, usize::MAX, 2, BBox::new(0, 0, 1, 1)).err(),
        Some(CropError::SizeOverflow)
    );
    assert_eq!(CropError::SizeOverflow.message(), "image size overflow");
}

#[test]
fn expand_bbox_grows_and_clamps() {
    assert_eq!(expand_bbox_xyxy_clamped(10, 10, 20, 20, 5, 100, 100), (5, 5, 25, 25));
    assert_eq!(expand_bbox_xyxy_clamped(10, 10, 20, 20, 0, 100, 100), (10, 10, 20, 20));
    assert_eq!(expand_bbox_xyxy_clamped(2, 2, 98, 98, 5, 100, 100), (0, 0, 100, 100));
    assert_eq!(expand_bbox_xyxy_clamped(2, 3, 8, 9, 5, 10, 10), (0, 0, 10, 10));
}

#[test]
fn expand_bbox_fits_a_box_past_the_image_even_without_padding() {
    assert_eq!(expand_bbox_xyxy_clamped(0, 0, 50, 50, 0, 10, 10), (0, 0, 10, 10));
    // A box wholly outside the image would become empty, so it is kept.
    assert_eq!(expand_bbox_xyxy_clamped(20, 20, 30, 30, 0, 10, 10), (20, 20, 30, 30));
}

fn page_with_band() -> (Vec<u8>, usize, usize) {
    let (w, h) = (100usize, 40usize);
    let mut rgb = vec![255u8; w * h * 3];
    for y in 10..20 {
        for x in 20..60 {
            let i = (y * w + x) * 3;
            rgb[i] = 0;
            rgb[i + 1] = 0;
            rgb[i + 2] = 0;
        }
    }
    (rgb, w, h)
}

#[test]
fn bands_find_one_text_line() {
    let (rgb, w, h) = page_with_band();
    assert_eq!(detect_textline_bands_naive(&rgb, w, h, 220), vec![[18, 9, 62, 21]]);
}

#[test]
fn fast_and_naive_bands_agree() {
    let (mut rgb, w, h) = page_with_band();
    assert_eq!(
        detect_textline_bands_fast(&rgb, w, h, 220),
        detect_textline_bands_naive(&rgb, w, h, 220)
    );
    for y in 25..38 {
        for x in 5..95 {
            if (x + y) % 3 != 0 {
                let i = (y * w + x) * 3;
                rgb[i] = 10;
                rgb[i + 1] = 10;
                rgb[i + 2] = 10;
            }
        }
    }
    let naive = detect_textline_bands_naive(&rgb, w, h, 128);
    assert_eq!(detect_textline_bands_fast(&rgb, w, h, 128), naive);
    for band in &naive {
        assert!(band[0] < band[2] && band[2] <= w);
        assert!(band[1] < band[3] && band[3] <= h);
    }
}

#[test]
fn blank_page_has_no_bands() {
    let rgb = vec![255u8; 30 * 20 * 3];
    assert!(detect_textline_bands_naive(&rgb, 30, 20, 220).is_empty());
    assert!(detect_textline_bands_fast(&rgb, 0, 0, 220).is_empty());
}

#[test]
fn an_expanded_box_contains_the_box_and_stays_in_the_image() {
    for &(x0, y0, x1, y1) in &[(0, 0, 1, 1), (3, 4, 9, 10), (0, 5, 12, 7), (11, 9, 12, 10)] {
        for pad in [0usize, 1, 3, 50, usize::MAX] {
            let (a, b, c, d) = expand_bbox_xyxy_clamped(x0, y0, x1, y1, pad, 12, 10);
            assert!(a <= x0 && b <= y0 && x1 <= c && y1 <= d);
            assert!(c <= 12 && d <= 10);
            assert!(x0 - a <= pad && y0 - b <= pad && c - x1 <= pad && d - y1 <= pad);
        }
    }
}

#[test]
fn bands_go_top_down_without_touching() {
    let (w, h) = (100usize, 60usize);
    let mut rgb = vec![255u8; w * h * 3];
    for (y0, y1) in [(5usize, 15usize), (19, 30), (40, 52)] {
        for y in y0..y1 {
            for x in 10..90 {
                let i = (y * w + x) * 3;
                rgb[i] = 0;
                rgb[i + 1] = 0;
                rgb[i + 2] = 0;
            }
        }
    }
    let bands = detect_textline_bands_naive(&rgb, w, h, 220);
    assert_eq!(bands.len(), 3);
    for k in 1..bands.len() {
        assert!(bands[k - 1][3] < bands[k][1]);
    }
    let blank = vec![255u8; w * h * 3];
    assert!(detect_textline_bands_naive(&blank, w, h, 220).is_empty());
}

#[test]
fn line_detections_win_over_bands_and_bands_fill_in_when_there_are_none() {
    let (rgb, w, h) = page_with_band();
    let dets = vec![
        LineDetection { box_xyxy: [1, 2, 3, 4], class_name: "block_main".to_string(), bucket: PredCharBucket::Chars50 },
        LineDetection { box_xyxy: [5, 6, 70, 16], class_name: "line_main".to_string(), bucket: PredCharBucket::Chars100 },
    ];
    assert_eq!(
        page_line_boxes_or_bands(&dets, &rgb, w, h, 220, 25, 45),
        vec![([5, 6, 70, 16], PredCharBucket::Chars100)]
    );
    // Only non-line detections: the band [18, 9, 62, 21] (44 x 12, about 9 characters).
    assert_eq!(
        page_line_boxes_or_bands(&dets[..1], &rgb, w, h, 220, 25, 45),
        vec![([18, 9, 62, 21], PredCharBucket::Chars30)]
    );
    assert_eq!(
        page_line_boxes_or_bands(&[], &rgb, w, h, 220, 5, 8),
        vec![([18, 9, 62, 21], PredCharBucket::Chars100)]
    );
}

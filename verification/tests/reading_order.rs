use ndlocr_lite_rs::pipeline::reading_order::{
    bbox_is_vertical, reading_order_of_lines, sort_bboxes_in_reading_order,
};

fn b(x0: i32, y0: i32, x1: i32, y1: i32) -> [i32; 4] {
    [x0, y0, x1, y1]
}

#[test]
fn horizontal_sorts_top_then_left() {
    let mut bs = vec![
        b(200, 100, 300, 130),
        b(10, 10, 100, 40),
        b(200, 10, 300, 40),
        b(10, 100, 100, 130),
    ];
    sort_bboxes_in_reading_order(&mut bs);
    assert_eq!(
        bs,
        vec![
            b(10, 10, 100, 40),
            b(200, 10, 300, 40),
            b(10, 100, 100, 130),
            b(200, 100, 300, 130),
        ]
    );
}

#[test]
fn vertical_sorts_right_to_left_then_top() {
    let mut bs = vec![
        b(10, 10, 30, 200),
        b(100, 10, 120, 200),
        b(10, 220, 30, 400),
        b(100, 220, 120, 400),
    ];
    sort_bboxes_in_reading_order(&mut bs);
    assert_eq!(
        bs,
        vec![
            b(100, 10, 120, 200),
            b(100, 220, 120, 400),
            b(10, 10, 30, 200),
            b(10, 220, 30, 400),
        ]
    );
}

#[test]
fn mixed_orientation_puts_vertical_first() {
    let mut bs = vec![b(100, 10, 300, 30), b(400, 10, 420, 200)];
    sort_bboxes_in_reading_order(&mut bs);
    assert_eq!(bs[0], b(400, 10, 420, 200));
    assert_eq!(bs[1], b(100, 10, 300, 30));
}

#[test]
fn empty_and_single_are_no_op() {
    let mut empty: Vec<[i32; 4]> = Vec::new();
    sort_bboxes_in_reading_order(&mut empty);
    assert!(empty.is_empty());

    let mut single = vec![b(0, 0, 10, 10)];
    sort_bboxes_in_reading_order(&mut single);
    assert_eq!(single, vec![b(0, 0, 10, 10)]);
}

#[test]
fn ties_keep_their_order() {
    // Same top-left corner, different sizes: equal keys, so the input order stays.
    let mut bs = vec![b(10, 10, 100, 40), b(10, 10, 200, 30), b(10, 10, 50, 20)];
    sort_bboxes_in_reading_order(&mut bs);
    assert_eq!(bs, vec![b(10, 10, 100, 40), b(10, 10, 200, 30), b(10, 10, 50, 20)]);
}

#[test]
fn sorting_twice_changes_nothing() {
    let mut bs = vec![
        b(200, 100, 300, 130),
        b(400, 10, 420, 200),
        b(10, 10, 100, 40),
        b(100, 10, 120, 200),
    ];
    sort_bboxes_in_reading_order(&mut bs);
    let once = bs.clone();
    sort_bboxes_in_reading_order(&mut bs);
    assert_eq!(bs, once);
}

#[test]
fn line_order_uses_given_orientation() {
    // The first line is wide but flagged vertical, so it comes first.
    let lines = vec![
        (b(10, 10, 100, 40), false),
        (b(0, 50, 300, 60), true),
        (b(10, 5, 100, 30), false),
    ];
    assert_eq!(reading_order_of_lines(&lines), vec![1, 2, 0]);
}

#[test]
fn a_box_is_vertical_only_when_taller_than_wide() {
    assert!(bbox_is_vertical([0, 0, 10, 11]));
    assert!(!bbox_is_vertical([0, 0, 10, 10]));
    assert!(!bbox_is_vertical([5, 5, 30, 6]));
}

#[test]
fn boxes_with_the_same_reading_key_keep_their_order() {
    // Horizontal boxes with the same top-left corner tie; they stay in input order.
    let mut v = vec![b(0, 20, 90, 30), b(0, 0, 50, 10), b(0, 0, 80, 10), b(0, 0, 60, 10)];
    sort_bboxes_in_reading_order(&mut v);
    assert_eq!(v, vec![b(0, 0, 50, 10), b(0, 0, 80, 10), b(0, 0, 60, 10), b(0, 20, 90, 30)]);
}

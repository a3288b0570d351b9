use ndlocr_lite_rs::cascade::PredCharBucket;
use ndlocr_lite_rs::infer::page_pool::page_line_boxes;
use ndlocr_lite_rs::infer::pool::{chunk_ranges, probe_order};
use ndlocr_lite_rs::pipeline::cascade::{
    escalate_by_count, last_positions, run_cascade_with_idx, select_bucket, LineCandidate, ESCALATE_FROM_30,
    ESCALATE_FROM_50,
};
use ndlocr_lite_rs::pipeline::connect::LineDetection;

#[test]
fn ten_items_on_four_sessions_make_four_chunks_of_three() {
    assert_eq!(chunk_ranges(10, 4), vec![(0, 3), (3, 6), (6, 9), (9, 10)]);
}

#[test]
fn nine_items_on_four_sessions_leave_one_session_idle() {
    // ceil(9 / 4) = 3 items per chunk, so three chunks suffice.
    assert_eq!(chunk_ranges(9, 4), vec![(0, 3), (3, 6), (6, 9)]);
}

#[test]
fn fewer_items_than_sessions_give_one_item_per_chunk() {
    assert_eq!(chunk_ranges(2, 5), vec![(0, 1), (1, 2)]);
}

#[test]
fn no_items_make_no_chunks() {
    assert!(chunk_ranges(0, 3).is_empty());
}

#[test]
fn chunks_cover_the_items_once_and_never_outnumber_sessions() {
    for n in 0..40usize {
        for s in 1..9usize {
            let r = chunk_ranges(n, s);
            assert!(r.len() <= s);
            let mut next = 0;
            for &(a, b) in &r {
                assert_eq!(a, next);
                assert!(a < b);
                next = b;
            }
            assert_eq!(next, n);
        }
    }
}

#[test]
fn probing_starts_at_the_counter_and_goes_round_the_ring() {
    assert_eq!(probe_order(6, 4), vec![2, 3, 0, 1]);
    assert_eq!(probe_order(0, 3), vec![0, 1, 2]);
    assert_eq!(probe_order(usize::MAX, 1), vec![0]);
}

#[test]
fn probing_tries_each_session_once() {
    for c in [0usize, 1, 7, 1000, usize::MAX] {
        for n in 1..7usize {
            let mut seen = probe_order(c, n);
            seen.sort();
            assert_eq!(seen, (0..n).collect::<Vec<_>>());
        }
    }
}

fn det(b: [i32; 4], class: &str) -> LineDetection {
    LineDetection { box_xyxy: b, class_name: class.to_string(), bucket: PredCharBucket::Chars100 }
}

#[test]
fn page_boxes_keep_lines_inside_the_page_in_reading_order() {
    let dets = vec![
        det([0, 20, 50, 30], "line_main"),
        det([0, 0, 50, 10], "line_caption"),
        det([0, 40, 50, 45], "block_fig"),
        det([-1, 50, 10, 55], "line_main"),
        det([0, 60, 101, 65], "line_main"),
        det([5, 70, 5, 75], "line_main"),
    ];
    assert_eq!(page_line_boxes(&dets, 100, 100), vec![[0, 0, 50, 10], [0, 20, 50, 30]]);
}

#[test]
fn a_box_reaching_the_page_edge_is_kept() {
    let dets = vec![det([0, 0, 100, 100], "line_main")];
    assert_eq!(page_line_boxes(&dets, 100, 100), vec![[0, 0, 100, 100]]);
}

#[test]
fn buckets_are_selected_in_order() {
    let lines: Vec<LineCandidate> = [
        PredCharBucket::Chars30,
        PredCharBucket::Chars100,
        PredCharBucket::Chars30,
        PredCharBucket::Chars50,
    ]
    .iter()
    .enumerate()
    .map(|(i, b)| LineCandidate::new(i, *b))
    .collect();
    let idx = |ls: Vec<LineCandidate>| ls.iter().map(|l| l.idx).collect::<Vec<_>>();
    assert_eq!(idx(select_bucket(&lines, PredCharBucket::Chars30)), vec![0, 2]);
    assert_eq!(idx(select_bucket(&lines, PredCharBucket::Chars50)), vec![3]);
    assert_eq!(idx(select_bucket(&lines, PredCharBucket::Chars100)), vec![1]);
}

#[test]
fn readings_that_reach_the_limit_escalate() {
    let lines: Vec<LineCandidate> = (0..4).map(|i| LineCandidate::new(i, PredCharBucket::Chars30)).collect();
    let up = escalate_by_count(&lines, &vec![24, 25, 3, 40], ESCALATE_FROM_30);
    assert_eq!(up.iter().map(|l| l.idx).collect::<Vec<_>>(), vec![1, 3]);
    let up = escalate_by_count(&lines, &vec![44, 45, 46, 0], ESCALATE_FROM_50);
    assert_eq!(up.iter().map(|l| l.idx).collect::<Vec<_>>(), vec![1, 2]);
}

/// A recogniser for a model whose reading of line `i` has `len(i)`
/// characters, tagged with the model.
fn reading(model: &str, i: usize) -> String {
    let n = match (model, i % 4) {
        ("30", 0) => 10,
        ("30", _) => 30,
        ("50", 1) => 50,
        ("50", _) => 20,
        _ => 60,
    };
    format!("{model}:{}", "x".repeat(n))
}

#[test]
fn batched_plan_reads_like_the_cascade() {
    let buckets = [
        PredCharBucket::Chars30,
        PredCharBucket::Chars30,
        PredCharBucket::Chars50,
        PredCharBucket::Chars100,
        PredCharBucket::Chars30,
        PredCharBucket::Chars50,
        PredCharBucket::Chars30,
        PredCharBucket::Chars30,
    ];
    let lines: Vec<LineCandidate> = buckets.iter().enumerate().map(|(i, b)| LineCandidate::new(i, *b)).collect();
    let expected = run_cascade_with_idx(
        lines.clone(),
        |l: &LineCandidate| reading("30", l.idx),
        |l: &LineCandidate| reading("50", l.idx),
        |l: &LineCandidate| reading("100", l.idx),
    );

    let mut all: Vec<Option<String>> = vec![None; lines.len()];
    let read = |model: &str, ls: &[LineCandidate], all: &mut Vec<Option<String>>| -> Vec<usize> {
        ls.iter()
            .map(|l| {
                let s = reading(model, l.idx);
                let n = s.chars().count();
                all[l.idx] = Some(s);
                n
            })
            .collect()
    };
    let p30 = select_bucket(&lines, PredCharBucket::Chars30);
    let p50 = select_bucket(&lines, PredCharBucket::Chars50);
    let p100 = select_bucket(&lines, PredCharBucket::Chars100);
    let c30 = read("30", &p30, &mut all);
    let c50 = read("50", &p50, &mut all);
    read("100", &p100, &mut all);
    let redo50 = escalate_by_count(&p30, &c30, ESCALATE_FROM_30);
    let redo100 = escalate_by_count(&p50, &c50, ESCALATE_FROM_50);
    let c_redo50 = read("50", &redo50, &mut all);
    read("100", &redo100, &mut all);
    let last100 = escalate_by_count(&redo50, &c_redo50, ESCALATE_FROM_50);
    read("100", &last100, &mut all);

    let batched: Vec<(usize, String)> = all.into_iter().enumerate().map(|(i, s)| (i, s.unwrap())).collect();
    assert_eq!(batched, expected);
}

#[test]
fn each_line_gets_the_reading_of_the_last_model_it_reaches() {
    let buckets = [
        PredCharBucket::Chars30,
        PredCharBucket::Chars30,
        PredCharBucket::Chars50,
        PredCharBucket::Chars50,
        PredCharBucket::Chars100,
        PredCharBucket::Chars30,
    ];
    let lines: Vec<LineCandidate> = buckets.iter().enumerate().map(|(i, b)| LineCandidate::new(i, *b)).collect();
    let got = run_cascade_with_idx(
        lines.clone(),
        |l: &LineCandidate| reading("30", l.idx),
        |l: &LineCandidate| reading("50", l.idx),
        |l: &LineCandidate| reading("100", l.idx),
    );
    let chosen = |l: &LineCandidate| -> String {
        let r30 = reading("30", l.idx);
        let r50 = reading("50", l.idx);
        if l.bucket == PredCharBucket::Chars30 && r30.chars().count() < 25 {
            r30
        } else if l.bucket != PredCharBucket::Chars100 && r50.chars().count() < 45 {
            r50
        } else {
            reading("100", l.idx)
        }
    };
    let expected: Vec<(usize, String)> = lines.iter().map(|l| (l.idx, chosen(l))).collect();
    assert_eq!(got, expected);
    assert!(got[0].1.starts_with("30:"));
    assert!(got[1].1.starts_with("100:"));
    assert!(got[2].1.starts_with("50:"));
    assert!(got[5].1.starts_with("100:"));
}

#[test]
fn lines_at_any_distinct_positions_come_back_sorted_with_their_chosen_readings() {
    let lines = vec![
        LineCandidate::new(40, PredCharBucket::Chars30),
        LineCandidate::new(7, PredCharBucket::Chars50),
        LineCandidate::new(23, PredCharBucket::Chars100),
        LineCandidate::new(1, PredCharBucket::Chars30),
        LineCandidate::new(12, PredCharBucket::Chars30),
    ];
    let got = run_cascade_with_idx(
        lines.clone(),
        |l: &LineCandidate| reading("30", l.idx),
        |l: &LineCandidate| reading("50", l.idx),
        |l: &LineCandidate| reading("100", l.idx),
    );
    let chosen = |l: &LineCandidate| -> String {
        let r30 = reading("30", l.idx);
        let r50 = reading("50", l.idx);
        if l.bucket == PredCharBucket::Chars30 && r30.chars().count() < 25 {
            r30
        } else if l.bucket != PredCharBucket::Chars100 && r50.chars().count() < 45 {
            r50
        } else {
            reading("100", l.idx)
        }
    };
    let mut expected: Vec<(usize, String)> = lines.iter().map(|l| (l.idx, chosen(l))).collect();
    expected.sort_by_key(|e| e.0);
    assert_eq!(got, expected);
}

#[test]
fn each_line_keeps_its_last_reading_across_batches() {
    // Batches: [0, 2] [1] [3] then rereadings [0] [1] [0].
    let idxs = vec![0, 2, 1, 3, 0, 1, 0];
    assert_eq!(last_positions(4, &idxs), Ok(vec![6, 5, 1, 3]));
    assert_eq!(last_positions(0, &vec![]), Ok(vec![]));
    assert_eq!(last_positions(5, &idxs), Err(4));
    assert_eq!(last_positions(4, &vec![3, 1]), Err(0));
}

#[test]
fn batched_readings_assembled_by_last_position_match_the_cascade() {
    let buckets = [
        PredCharBucket::Chars30,
        PredCharBucket::Chars30,
        PredCharBucket::Chars50,
        PredCharBucket::Chars50,
        PredCharBucket::Chars100,
        PredCharBucket::Chars30,
        PredCharBucket::Chars30,
    ];
    let lines: Vec<LineCandidate> = buckets.iter().enumerate().map(|(i, b)| LineCandidate::new(i, *b)).collect();
    let read = |model: &str, ls: &[LineCandidate]| -> Vec<(usize, String)> {
        ls.iter().map(|l| (l.idx, reading(model, l.idx))).collect()
    };
    let counts = |rs: &[(usize, String)]| -> Vec<usize> { rs.iter().map(|(_, t)| t.chars().count()).collect() };
    let p30 = select_bucket(&lines, PredCharBucket::Chars30);
    let p50 = select_bucket(&lines, PredCharBucket::Chars50);
    let p100 = select_bucket(&lines, PredCharBucket::Chars100);
    let (r30, r50, r100) = (read("30", &p30), read("50", &p50), read("100", &p100));
    let redo50 = escalate_by_count(&p30, &counts(&r30), ESCALATE_FROM_30);
    let redo100 = escalate_by_count(&p50, &counts(&r50), ESCALATE_FROM_50);
    let rd50 = read("50", &redo50);
    let rd100 = read("100", &redo100);
    let last100 = escalate_by_count(&redo50, &counts(&rd50), ESCALATE_FROM_50);
    let rd_last = read("100", &last100);
    let readings: Vec<(usize, String)> =
        [r30, r50, r100, rd50, rd100, rd_last].into_iter().flatten().collect();
    let idxs: Vec<usize> = readings.iter().map(|(i, _)| *i).collect();
    let positions = last_positions(lines.len(), &idxs).unwrap();
    let assembled: Vec<(usize, String)> = positions.iter().enumerate().map(|(i, &p)| (i, readings[p].1.clone())).collect();
    let one_by_one = run_cascade_with_idx(
        lines.clone(),
        |l: &LineCandidate| reading("30", l.idx),
        |l: &LineCandidate| reading("50", l.idx),
        |l: &LineCandidate| reading("100", l.idx),
    );
    assert_eq!(assembled, one_by_one);
}

#[test]
fn pooled_page_reads_only_line_boxes_inside_the_page() {
    let det = |b: [i32; 4], class: &str| LineDetection {
        box_xyxy: b,
        class_name: class.to_string(),
        bucket: PredCharBucket::Chars50,
    };
    let dets = vec![
        det([10, 50, 90, 60], "line_main"),
        det([0, 0, 100, 100], "block"),
        det([10, 10, 90, 20], "line_caption"),
        det([-5, 10, 20, 20], "line_main"),
        det([10, 80, 120, 90], "line_main"),
        det([30, 30, 30, 40], "line_main"),
    ];
    let boxes = page_line_boxes(&dets, 100, 100);
    assert_eq!(boxes, vec![[10, 10, 90, 20], [10, 50, 90, 60]]);
    for b in &boxes {
        assert!(0 <= b[0] && b[0] < b[2] && b[2] <= 100 && 0 <= b[1] && b[1] < b[3] && b[3] <= 100);
        assert!(dets.iter().any(|d| d.class_name.starts_with("line_") && d.box_xyxy == *b));
    }
}

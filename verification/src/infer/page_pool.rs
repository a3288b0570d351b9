//! The line boxes a pooled page run reads: the detections of line classes
//! that lie inside the page, in reading order.
use vstd::prelude::*;

use crate::cascade::PredCharBucket;
use crate::pipeline::connect::{is_line_class, line_detections, select_line_detections, LineDetection};
use crate::pipeline::reading_order::{bbox_reading_le, sort_bboxes_in_reading_order};
use crate::sorting::stable_sort;

verus! {

/// A box `[x0, y0, x1, y1]` with non-negative corners, a positive width and
/// height, and its far corner within a `width x height` page.
pub open spec fn box_inside_page(b: [i32; 4], width: int, height: int) -> bool {
    &&& 0 <= b[0] < b[2] <= width
    &&& 0 <= b[1] < b[3] <= height
}

/// The boxes of `lines` that lie inside the page, in order.
pub open spec fn boxes_inside_page(lines: Seq<([i32; 4], PredCharBucket)>, width: int, height: int) -> Seq<[i32; 4]>
    decreases lines.len(),
{
    if lines.len() == 0 {
        seq![]
    } else {
        let rest = boxes_inside_page(lines.drop_last(), width, height);
        if box_inside_page(lines.last().0, width, height) {
            rest.push(lines.last().0)
        } else {
            rest
        }
    }
}

/// The boxes of the line detections that lie inside the page.
pub open spec fn page_boxes(dets: Seq<LineDetection>, width: int, height: int) -> Seq<[i32; 4]> {
    boxes_inside_page(line_detections(dets), width, height)
}

/// The boxes to read on a `width x height` page: those of the detections of
/// line classes that lie inside the page, stably sorted into reading order.
pub fn page_line_boxes(dets: &[LineDetection], width: usize, height: usize) -> (res: Vec<[i32; 4]>)
    ensures
        res@ == stable_sort(page_boxes(dets@, width as int, height as int), bbox_reading_le()),
{
    let lines = select_line_detections(dets);
    let mut out: Vec<[i32; 4]> = Vec::new();
    let mut i: usize = 0;
    proof {
        assert(lines@.take(0) =~= Seq::<([i32; 4], PredCharBucket)>::empty());
    }
    while i < lines.len()
        invariant
            i <= lines@.len(),
            out@ == boxes_inside_page(lines@.take(i as int), width as int, height as int),
        decreases lines.len() - i,
    {
        proof {
            assert(lines@.take(i + 1).drop_last() =~= lines@.take(i as int));
            assert(lines@.take(i + 1).last() == lines@[i as int]);
        }
        let b = lines[i].0;
        if 0 <= b[0] && b[0] < b[2] && 0 <= b[1] && b[1] < b[3] && (b[2] as usize) <= width && (b[3] as usize)
            <= height {
            out.push(b);
        }
        i = i + 1;
    }
    proof {
        assert(lines@.take(lines@.len() as int) =~= lines@);
    }
    sort_bboxes_in_reading_order(&mut out);
    out
}


/// The box of a detection of a line class, at some position of `dets`.
pub open spec fn is_line_detection_box(dets: Seq<LineDetection>, b: [i32; 4]) -> bool {
    exists|j: int| 0 <= j < dets.len() && is_line_class((#[trigger] dets[j]).class_name@) && dets[j].box_xyxy == b
}

proof fn lemma_line_detections_come_from(dets: Seq<LineDetection>)
    ensures
        forall|m: int|
            0 <= m < line_detections(dets).len() ==> is_line_detection_box(dets, #[trigger] line_detections(dets)[m].0),
    decreases dets.len(),
{
    if dets.len() > 0 {
        let t = dets.drop_last();
        lemma_line_detections_come_from(t);
        let prev = line_detections(t);
        let cur = line_detections(dets);
        assert forall|m: int| 0 <= m < cur.len() implies is_line_detection_box(dets, #[trigger] cur[m].0) by {
            if m < prev.len() {
                assert(cur[m] == prev[m]);
                assert(is_line_detection_box(t, prev[m].0));
                let j = choose|j: int| 0 <= j < t.len() && is_line_class((#[trigger] t[j]).class_name@) && t[j].box_xyxy == prev[m].0;
                assert(dets[j] == t[j]);
            } else {
                let j = dets.len() - 1;
                assert(dets[j] == dets.last());
            }
        }
    }
}

proof fn lemma_boxes_inside_come_from(lines: Seq<([i32; 4], PredCharBucket)>, width: int, height: int)
    ensures
        forall|k: int|
            0 <= k < boxes_inside_page(lines, width, height).len() ==> box_inside_page(
                #[trigger] boxes_inside_page(lines, width, height)[k],
                width,
                height,
            ) && exists|m: int| 0 <= m < lines.len() && (#[trigger] lines[m]).0 == boxes_inside_page(lines, width, height)[k],
    decreases lines.len(),
{
    if lines.len() > 0 {
        let t = lines.drop_last();
        lemma_boxes_inside_come_from(t, width, height);
        let prev = boxes_inside_page(t, width, height);
        let cur = boxes_inside_page(lines, width, height);
        assert forall|k: int| 0 <= k < cur.len() implies box_inside_page(#[trigger] cur[k], width, height)
            && exists|m: int| 0 <= m < lines.len() && (#[trigger] lines[m]).0 == cur[k] by {
            if k < prev.len() {
                assert(cur[k] == prev[k]);
                let m = choose|m: int| 0 <= m < t.len() && (#[trigger] t[m]).0 == prev[k];
                assert(lines[m] == t[m]);
            } else {
                assert(lines[lines.len() - 1] == lines.last());
            }
        }
    }
}

/// Every box a pooled page run reads lies inside the page and is the box
/// of a detection of a line class.
pub proof fn lemma_page_line_boxes_are_line_detections(dets: Seq<LineDetection>, width: int, height: int)
    ensures
        forall|k: int|
            0 <= k < stable_sort(page_boxes(dets, width, height), bbox_reading_le()).len() ==> box_inside_page(
                #[trigger] stable_sort(page_boxes(dets, width, height), bbox_reading_le())[k],
                width,
                height,
            ) && is_line_detection_box(dets, stable_sort(page_boxes(dets, width, height), bbox_reading_le())[k]),
{
    broadcast use vstd::seq_lib::group_to_multiset_ensures;

    let unsorted = page_boxes(dets, width, height);
    let sorted = stable_sort(unsorted, bbox_reading_le());
    crate::sorting::lemma_stable_sort_permutation(unsorted, bbox_reading_le());
    lemma_boxes_inside_come_from(line_detections(dets), width, height);
    lemma_line_detections_come_from(dets);
    assert forall|k: int| 0 <= k < sorted.len() implies box_inside_page(#[trigger] sorted[k], width, height)
        && is_line_detection_box(dets, sorted[k]) by {
        assert(sorted.to_multiset().count(sorted[k]) > 0);
        assert(unsorted.to_multiset().count(sorted[k]) > 0);
        assert(unsorted.contains(sorted[k]));
        let i = choose|i: int| 0 <= i < unsorted.len() && unsorted[i] == sorted[k];
        assert(box_inside_page(unsorted[i], width, height));
        let m = choose|m: int| 0 <= m < line_detections(dets).len() && (#[trigger] line_detections(dets)[m]).0 == unsorted[i];
        assert(is_line_detection_box(dets, line_detections(dets)[m].0));
    }
}

} // verus!

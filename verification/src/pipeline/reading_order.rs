//! Reading order of the lines of a page.
//!
//! - horizontal lines: top to bottom, then left to right within a row;
//! - vertical lines: right to left, then top to bottom within a column;
//! - on a page that mixes both, the vertical lines come first.
//!
//! A line is vertical when its box is taller than it is wide. The order is a
//! stable sort: lines that tie keep the order in which they came.
use std::cmp::Ordering;
use vstd::prelude::*;
use vstd::relations::{sorted_by, strongly_connected, transitive};

use crate::sorting::{
    lemma_stable_sort_keeps_ties, tied,
    insert_stable, lemma_insert_at, lemma_stable_sort_of_sorted, lemma_stable_sort_permutation,
    lemma_stable_sort_sorted, stable_sort,
};

verus! {

broadcast use vstd::seq_lib::group_seq_properties;

// ---------------------------------------------------------------------------
// Reading order
// ---------------------------------------------------------------------------

/// The sort key of a line: vertical lines first, by decreasing left edge and
/// then by top edge; horizontal lines after them, by top edge and then by
/// left edge.
pub open spec fn reading_key(bbox: [i32; 4], vertical: bool) -> (int, int, int) {
    if vertical {
        (0, -bbox[0], bbox[1] as int)
    } else {
        (1, bbox[1] as int, bbox[0] as int)
    }
}

/// Strict lexicographic order of keys.
pub open spec fn key_lt(a: (int, int, int), b: (int, int, int)) -> bool {
    a.0 < b.0 || (a.0 == b.0 && (a.1 < b.1 || (a.1 == b.1 && a.2 < b.2)))
}

/// Line `a` does not come after line `b` in reading order.
pub open spec fn reading_le(a_box: [i32; 4], a_vert: bool, b_box: [i32; 4], b_vert: bool) -> bool {
    !key_lt(reading_key(b_box, b_vert), reading_key(a_box, a_vert))
}

/// A box is vertical when it is taller than it is wide.
pub open spec fn is_vertical_box(bbox: [i32; 4]) -> bool {
    bbox[3] - bbox[1] > bbox[2] - bbox[0]
}

/// Reading order of boxes, each oriented by its own shape.
pub open spec fn bbox_reading_le() -> spec_fn([i32; 4], [i32; 4]) -> bool {
    |a: [i32; 4], b: [i32; 4]| reading_le(a, is_vertical_box(a), b, is_vertical_box(b))
}

/// Reading order of the entries of `lines`, taken by their positions.
pub open spec fn line_reading_le(lines: Seq<([i32; 4], bool)>) -> spec_fn(usize, usize) -> bool {
    |i: usize, j: usize| reading_le(lines[i as int].0, lines[i as int].1, lines[j as int].0, lines[j as int].1)
}

/// `0, 1, .., n - 1`.
pub open spec fn positions(n: nat) -> Seq<usize> {
    Seq::new(n, |i: int| i as usize)
}

/// The box order is a total preorder.
pub proof fn lemma_bbox_order_is_total_preorder()
    ensures
        transitive(bbox_reading_le()),
        strongly_connected(bbox_reading_le()),
{
}

/// The order of lines is a total preorder, whatever orientation each line
/// was given.
pub proof fn lemma_line_order_is_total_preorder(lines: Seq<([i32; 4], bool)>)
    ensures
        transitive(line_reading_le(lines)),
        strongly_connected(line_reading_le(lines)),
{
}

/// Sorting boxes into reading order keeps the same boxes, puts them in
/// reading order, and sorting them again changes nothing.
pub proof fn lemma_bbox_reading_sort(s: Seq<[i32; 4]>)
    ensures
        stable_sort(s, bbox_reading_le()).to_multiset() =~= s.to_multiset(),
        sorted_by(stable_sort(s, bbox_reading_le()), bbox_reading_le()),
        stable_sort(stable_sort(s, bbox_reading_le()), bbox_reading_le()) == stable_sort(
            s,
            bbox_reading_le(),
        ),
{
    lemma_bbox_order_is_total_preorder();
    lemma_stable_sort_permutation(s, bbox_reading_le());
    lemma_stable_sort_sorted(s, bbox_reading_le());
    lemma_stable_sort_of_sorted(stable_sort(s, bbox_reading_le()), bbox_reading_le());
}

/// Boxes with the same reading key (tied in the reading order) keep their
/// order: for any box `y`, the boxes tied with `y` come out of the sort in
/// the order they went in.
pub proof fn lemma_bbox_sort_keeps_ties(s: Seq<[i32; 4]>, y: [i32; 4])
    ensures
        stable_sort(s, bbox_reading_le()).filter(|e: [i32; 4]| tied(bbox_reading_le(), e, y)) == s.filter(
            |e: [i32; 4]| tied(bbox_reading_le(), e, y),
        ),
{
    lemma_bbox_order_is_total_preorder();
    lemma_stable_sort_keeps_ties(s, y, bbox_reading_le());
}

/// The reading order of lines lists each position once and puts the lines
/// in reading order.
pub proof fn lemma_line_reading_order(lines: Seq<([i32; 4], bool)>)
    ensures
        stable_sort(positions(lines.len()), line_reading_le(lines)).to_multiset()
            =~= positions(lines.len()).to_multiset(),
        sorted_by(
            stable_sort(positions(lines.len()), line_reading_le(lines)),
            line_reading_le(lines),
        ),
{
    lemma_line_order_is_total_preorder(lines);
    lemma_stable_sort_permutation(positions(lines.len()), line_reading_le(lines));
    lemma_stable_sort_sorted(positions(lines.len()), line_reading_le(lines));
}

/// Whether a box is vertical (taller than wide).
pub fn bbox_is_vertical(bbox: [i32; 4]) -> (r: bool)
    ensures
        r == is_vertical_box(bbox),
{
    let w = bbox[2] as i64 - bbox[0] as i64;
    let h = bbox[3] as i64 - bbox[1] as i64;
    h > w
}

/// Three-way comparison of two lines in reading order.
fn compare_inner(a_box: [i32; 4], a_vert: bool, b_box: [i32; 4], b_vert: bool) -> (r: Ordering)
    ensures
        (r == Ordering::Less) == key_lt(reading_key(a_box, a_vert), reading_key(b_box, b_vert)),
        (r == Ordering::Greater) == key_lt(reading_key(b_box, b_vert), reading_key(a_box, a_vert)),
{
    if a_vert && b_vert {
        if b_box[0] < a_box[0] {
            Ordering::Less
        } else if b_box[0] > a_box[0] {
            Ordering::Greater
        } else if a_box[1] < b_box[1] {
            Ordering::Less
        } else if a_box[1] > b_box[1] {
            Ordering::Greater
        } else {
            Ordering::Equal
        }
    } else if !a_vert && !b_vert {
        if a_box[1] < b_box[1] {
            Ordering::Less
        } else if a_box[1] > b_box[1] {
            Ordering::Greater
        } else if a_box[0] < b_box[0] {
            Ordering::Less
        } else if a_box[0] > b_box[0] {
            Ordering::Greater
        } else {
            Ordering::Equal
        }
    } else if a_vert {
        Ordering::Less
    } else {
        Ordering::Greater
    }
}

/// Whether line `a` must come strictly before line `b`.
fn precedes(a_box: [i32; 4], a_vert: bool, b_box: [i32; 4], b_vert: bool) -> (r: bool)
    ensures
        r == !reading_le(b_box, b_vert, a_box, a_vert),
{
    match compare_inner(a_box, a_vert, b_box, b_vert) {
        Ordering::Less => true,
        _ => false,
    }
}

/// Three-way comparison of two boxes in reading order, each oriented by its
/// shape.
fn compare_bbox_reading_order(a: [i32; 4], b: [i32; 4]) -> (r: Ordering)
    ensures
        (r == Ordering::Less) == !(bbox_reading_le())(b, a),
        (r == Ordering::Greater) == !(bbox_reading_le())(a, b),
{
    compare_inner(a, bbox_is_vertical(a), b, bbox_is_vertical(b))
}

/// Whether box `a` must come strictly before box `b`.
fn bbox_precedes(a: [i32; 4], b: [i32; 4]) -> (r: bool)
    ensures
        r == !(bbox_reading_le())(b, a),
{
    match compare_bbox_reading_order(a, b) {
        Ordering::Less => true,
        _ => false,
    }
}

/// Whether the line `(x_box, x_vert)` must come strictly before line `j`.
fn line_precedes(lines: &Vec<([i32; 4], bool)>, x_box: [i32; 4], x_vert: bool, j: usize) -> (r:
    bool)
    requires
        j < lines@.len(),
    ensures
        r == !reading_le(lines@[j as int].0, lines@[j as int].1, x_box, x_vert),
{
    precedes(x_box, x_vert, lines[j].0, lines[j].1)
}

/// Sorts boxes `[x0, y0, x1, y1]` into reading order, stably; each box is
/// vertical when `y1 - y0 > x1 - x0`.
pub fn sort_bboxes_in_reading_order(bboxes: &mut Vec<[i32; 4]>)
    ensures
        final(bboxes)@ == stable_sort(old(bboxes)@, bbox_reading_le()),
{
    let ghost le = bbox_reading_le();
    if bboxes.len() < 2 {
        proof {
            let s = old(bboxes)@;
            if s.len() == 1 {
                assert(s.drop_last() =~= Seq::<[i32; 4]>::empty());
                assert(stable_sort(s.drop_last(), le) =~= Seq::<[i32; 4]>::empty());
                assert(insert_stable(Seq::<[i32; 4]>::empty(), s.last(), le) =~= seq![s.last()]);
                assert(seq![s.last()] =~= s);
            }
        }
        return;
    }
    let mut out: Vec<[i32; 4]> = Vec::new();
    let mut i: usize = 0;
    proof {
        assert(bboxes@.take(0) =~= Seq::<[i32; 4]>::empty());
    }
    while i < bboxes.len()
        invariant
            i <= bboxes@.len(),
            bboxes@ == old(bboxes)@,
            le == bbox_reading_le(),
            out@ == stable_sort(bboxes@.take(i as int), le),
        decreases bboxes.len() - i,
    {
        let x = bboxes[i];
        let mut p: usize = out.len();
        while p > 0 && bbox_precedes(x, out[p - 1])
            invariant
                p <= out@.len(),
                le == bbox_reading_le(),
                forall|k: int| p <= k < out@.len() ==> !le(#[trigger] out@[k], x),
            decreases p,
        {
            p = p - 1;
        }
        proof {
            lemma_insert_at(out@, x, p as int, le);
            assert(bboxes@.take(i + 1).drop_last() =~= bboxes@.take(i as int));
            assert(bboxes@.take(i + 1).last() == x);
        }
        out.insert(p, x);
        i = i + 1;
    }
    proof {
        assert(bboxes@.take(bboxes@.len() as int) =~= bboxes@);
    }
    *bboxes = out;
}

/// The reading order of lines given by their boxes and orientations: the
/// positions of `lines`, stably sorted.
pub fn reading_order_of_lines(lines: &Vec<([i32; 4], bool)>) -> (res: Vec<usize>)
    ensures
        res@ == stable_sort(positions(lines@.len()), line_reading_le(lines@)),
{
    let ghost le = line_reading_le(lines@);
    let mut out: Vec<usize> = Vec::new();
    let mut i: usize = 0;
    proof {
        assert(positions(lines@.len()).take(0) =~= Seq::<usize>::empty());
    }
    while i < lines.len()
        invariant
            i <= lines@.len(),
            le == line_reading_le(lines@),
            out@ == stable_sort(positions(lines@.len()).take(i as int), le),
            forall|k: int| 0 <= k < out@.len() ==> #[trigger] out@[k] < i,
        decreases lines.len() - i,
    {
        let (x_box, x_vert) = lines[i];
        let mut p: usize = out.len();
        proof {
            lemma_stable_sort_permutation(positions(lines@.len()).take(i as int), le);
        }
        while p > 0 && line_precedes(lines, x_box, x_vert, out[p - 1])
            invariant
                p <= out@.len(),
                i < lines@.len(),
                le == line_reading_le(lines@),
                x_box == lines@[i as int].0,
                x_vert == lines@[i as int].1,
                forall|k: int| 0 <= k < out@.len() ==> #[trigger] out@[k] < i,
                forall|k: int| p <= k < out@.len() ==> !le(#[trigger] out@[k], i),
            decreases p,
        {
            p = p - 1;
        }
        proof {
            lemma_insert_at(out@, i, p as int, le);
            let s = positions(lines@.len());
            assert(s.take(i + 1).drop_last() =~= s.take(i as int));
            assert(s.take(i + 1).last() == i);
        }
        out.insert(p, i);
        i = i + 1;
    }
    proof {
        assert(positions(lines@.len()).take(lines@.len() as int) =~= positions(lines@.len()));
    }
    out
}

} // verus!

//! Recognising the detected lines of a page: keep the detections of line
//! classes, crop each, read the crops with the cascade, and put the page's
//! lines in reading order.
use vstd::prelude::*;

use crate::cascade::PredCharBucket;
use crate::chars::{starts_with, starts_with_chars, str_to_chars};
use crate::pipeline::cascade::{
    by_idx, cascade_outcome, cascade_result, escalated, in_bucket, lemma_cascade_reads_each_line_once,
    line_positions, reading_positions, reads_100, reads_30, reads_50, run_cascade_with_idx, LineCandidate,
};
use crate::pipeline::crop::{bbox_inside, crop_of, crop_rgb_u8, BBox, CropError, CroppedImage};
use crate::pipeline::reading_order::{
    bbox_is_vertical, is_vertical_box, lemma_line_reading_order, line_reading_le, positions, reading_le, reading_order_of_lines,
};
use crate::sorting::stable_sort;
use vstd::relations::sorted_by;

verus! {

broadcast use vstd::seq_lib::group_seq_properties;

/// A detection of the layout model, as the page pipeline reads it: its box
/// `[x0, y0, x1, y1]`, its class name and the bucket of its line.
pub struct LineDetection {
    pub box_xyxy: [i32; 4],
    pub class_name: String,
    pub bucket: PredCharBucket,
}

/// A recognised line: the position of its detection among the line
/// detections, its box, its text and whether it is vertical.
pub struct PageLine {
    pub idx: usize,
    pub bbox_xyxy: [i32; 4],
    pub text: String,
    pub is_vertical: bool,
}

/// Whether a class name names a kind of text line.
pub open spec fn is_line_class(name: Seq<char>) -> bool {
    starts_with(name, "line_"@)
}

/// The box and bucket of each line detection, in order.
pub open spec fn line_detections(dets: Seq<LineDetection>) -> Seq<([i32; 4], PredCharBucket)>
    decreases dets.len(),
{
    if dets.len() == 0 {
        seq![]
    } else {
        let rest = line_detections(dets.drop_last());
        if is_line_class(dets.last().class_name@) {
            rest.push((dets.last().box_xyxy, dets.last().bucket))
        } else {
            rest
        }
    }
}

/// The positions in `dets` of the detections of line classes, in order;
/// line `k` of [`line_detections`] is detection `line_detection_positions(dets)[k]`.
pub open spec fn line_detection_positions(dets: Seq<LineDetection>) -> Seq<usize>
    decreases dets.len(),
{
    if dets.len() == 0 {
        seq![]
    } else {
        let rest = line_detection_positions(dets.drop_last());
        if is_line_class(dets.last().class_name@) {
            rest.push((dets.len() - 1) as usize)
        } else {
            rest
        }
    }
}

proof fn lemma_line_detection_positions(dets: Seq<LineDetection>)
    requires
        dets.len() <= usize::MAX,
    ensures
        line_detection_positions(dets).len() == line_detections(dets).len(),
        forall|k: int|
            0 <= k < line_detections(dets).len() ==> #[trigger] line_detection_positions(dets)[k] < dets.len()
                && line_detections(dets)[k] == (
                dets[line_detection_positions(dets)[k] as int].box_xyxy,
                dets[line_detection_positions(dets)[k] as int].bucket,
            ),
    decreases dets.len(),
{
    if dets.len() > 0 {
        let t = dets.drop_last();
        lemma_line_detection_positions(t);
        assert forall|k: int| 0 <= k < line_detections(t).len() implies #[trigger] dets[line_detection_positions(t)[k] as int] == t[line_detection_positions(t)[k] as int] by {}
    }
}

/// Where each line detection stands among all detections (see
/// [`line_detection_positions`]): the lines of a page run refer to line
/// detections by their rank, and this gives back the detection.
pub fn line_detection_indices(dets: &[LineDetection]) -> (res: Vec<usize>)
    ensures
        res@ == line_detection_positions(dets@),
        res@.len() == line_detections(dets@).len(),
        forall|k: int|
            0 <= k < res@.len() ==> #[trigger] res@[k] < dets@.len() && line_detections(dets@)[k] == (
                dets@[res@[k] as int].box_xyxy,
                dets@[res@[k] as int].bucket,
            ),
{
    let prefix = str_to_chars("line_");
    let mut out: Vec<usize> = Vec::new();
    let mut i: usize = 0;
    proof {
        assert(dets@.take(0) =~= Seq::<LineDetection>::empty());
    }
    while i < dets.len()
        invariant
            i <= dets@.len(),
            prefix@ == "line_"@,
            out@ == line_detection_positions(dets@.take(i as int)),
        decreases dets.len() - i,
    {
        proof {
            assert(dets@.take(i + 1).drop_last() =~= dets@.take(i as int));
            assert(dets@.take(i + 1).last() == dets@[i as int]);
        }
        if starts_with_chars(&str_to_chars(dets[i].class_name.as_str()), &prefix) {
            out.push(i);
        }
        i = i + 1;
    }
    proof {
        assert(dets@.take(dets@.len() as int) =~= dets@);
        lemma_line_detection_positions(dets@);
    }
    out
}

/// The number of line detections.
pub open spec fn line_detection_count(dets: Seq<LineDetection>) -> nat {
    line_detections(dets).len()
}

/// The crop box of a detection box, each coordinate taken as a `usize`.
pub open spec fn detection_bbox(b: [i32; 4]) -> BBox {
    BBox { xmin: b[0] as usize, ymin: b[1] as usize, xmax: b[2] as usize, ymax: b[3] as usize }
}

/// `crops[k]` holds the pixels of the box of line `k`.
pub open spec fn crops_of(
    rgb: Seq<u8>,
    width: usize,
    lines: Seq<([i32; 4], PredCharBucket)>,
    crops: Seq<CroppedImage>,
) -> bool {
    &&& crops.len() == lines.len()
    &&& forall|k: int|
        0 <= k < lines.len() ==> crop_of(rgb, width, detection_bbox(lines[k].0), #[trigger] crops[k])
}

/// The cascade's candidates for the line detections: line `k` at position
/// `k`, with its bucket.
pub open spec fn line_candidates(lines: Seq<([i32; 4], PredCharBucket)>) -> Seq<LineCandidate> {
    Seq::new(lines.len(), |k: int| LineCandidate { idx: k as usize, bucket: lines[k].1 })
}

/// `texts[i]` is a text `f` may return for the crop of line `lines[i]`.
pub open spec fn read_on_crops<F: Fn(&CroppedImage) -> String>(
    f: F,
    crops: Seq<CroppedImage>,
    lines: Seq<LineCandidate>,
    texts: Seq<String>,
) -> bool {
    &&& texts.len() == lines.len()
    &&& forall|i: int|
        0 <= i < lines.len() ==> f.ensures((&crops[lines[i].idx as int],), #[trigger] texts[i])
}

/// Each page line's text is the reading the cascade gives its position
/// (see [`cascade_result`]), for texts that the three recognisers may
/// return on the crops of the lines each of them reads.
pub open spec fn texts_read_by_cascade<
    F30: Fn(&CroppedImage) -> String,
    F50: Fn(&CroppedImage) -> String,
    F100: Fn(&CroppedImage) -> String,
>(
    cands: Seq<LineCandidate>,
    crops: Seq<CroppedImage>,
    recognize30: F30,
    recognize50: F50,
    recognize100: F100,
    lines: Seq<PageLine>,
) -> bool {
    exists|t30: Seq<String>, t50: Seq<String>, t100: Seq<String>|
        {
            &&& read_on_crops(recognize30, crops, reads_30(cands), t30)
            &&& read_on_crops(recognize50, crops, reads_50(cands, t30), t50)
            &&& read_on_crops(recognize100, crops, reads_100(cands, t30, t50), t100)
            &&& forall|i: int|
                0 <= i < lines.len() ==> #[trigger] cascade_result(cands, t30, t50, t100)[lines[i].idx as int].1@
                    == lines[i].text@
        }
}

/// `texts[k]` is the reading the cascade gives line `k` (see
/// [`cascade_result`]), for texts that the three recognisers may return on
/// the crops of the lines each of them reads.
pub open spec fn texts_in_order_read_by_cascade<
    F30: Fn(&CroppedImage) -> String,
    F50: Fn(&CroppedImage) -> String,
    F100: Fn(&CroppedImage) -> String,
>(
    cands: Seq<LineCandidate>,
    crops: Seq<CroppedImage>,
    recognize30: F30,
    recognize50: F50,
    recognize100: F100,
    texts: Seq<String>,
) -> bool {
    exists|t30: Seq<String>, t50: Seq<String>, t100: Seq<String>|
        {
            &&& read_on_crops(recognize30, crops, reads_30(cands), t30)
            &&& read_on_crops(recognize50, crops, reads_50(cands, t30), t50)
            &&& read_on_crops(recognize100, crops, reads_100(cands, t30, t50), t100)
            &&& forall|k: int|
                0 <= k < texts.len() ==> #[trigger] cascade_result(cands, t30, t50, t100)[k].1@ == texts[k]@
        }
}

/// Every line of `lines` has a position below `n`.
pub open spec fn idx_below(lines: Seq<LineCandidate>, n: int) -> bool {
    forall|i: int| 0 <= i < lines.len() ==> #[trigger] lines[i].idx < n
}

proof fn lemma_in_bucket_below(lines: Seq<LineCandidate>, b: PredCharBucket, n: int)
    requires
        idx_below(lines, n),
    ensures
        idx_below(in_bucket(lines, b), n),
    decreases lines.len(),
{
    if lines.len() > 0 {
        lemma_in_bucket_below(lines.drop_last(), b, n);
        assert(lines.drop_last().len() < lines.len());
        assert(lines.last() == lines[lines.len() - 1]);
    }
}

proof fn lemma_escalated_below(lines: Seq<LineCandidate>, texts: Seq<String>, limit: int, n: int)
    requires
        idx_below(lines, n),
    ensures
        idx_below(escalated(lines, texts, limit), n),
    decreases lines.len(),
{
    if lines.len() > 0 {
        lemma_escalated_below(lines.drop_last(), texts, limit, n);
        assert(lines[lines.len() - 1] == lines[lines.len() - 1]);
    }
}

proof fn lemma_reads_below(cands: Seq<LineCandidate>, t30: Seq<String>, t50: Seq<String>, n: int)
    requires
        idx_below(cands, n),
    ensures
        idx_below(reads_30(cands), n),
        idx_below(reads_50(cands, t30), n),
        idx_below(reads_100(cands, t30, t50), n),
{
    lemma_in_bucket_below(cands, PredCharBucket::Chars30, n);
    lemma_in_bucket_below(cands, PredCharBucket::Chars50, n);
    lemma_in_bucket_below(cands, PredCharBucket::Chars100, n);
    lemma_escalated_below(reads_30(cands), t30, crate::pipeline::cascade::ESCALATE_FROM_30 as int, n);
    let a = in_bucket(cands, PredCharBucket::Chars50);
    let b = escalated(reads_30(cands), t30, crate::pipeline::cascade::ESCALATE_FROM_30 as int);
    assert(idx_below(a + b, n)) by {
        assert forall|i: int| 0 <= i < (a + b).len() implies #[trigger] (a + b)[i].idx < n by {
            if i < a.len() {
                assert((a + b)[i] == a[i]);
            } else {
                assert((a + b)[i] == b[i - a.len()]);
            }
        }
    }
    lemma_escalated_below(reads_50(cands, t30), t50, crate::pipeline::cascade::ESCALATE_FROM_50 as int, n);
    let c = in_bucket(cands, PredCharBucket::Chars100);
    let d = escalated(reads_50(cands, t30), t50, crate::pipeline::cascade::ESCALATE_FROM_50 as int);
    assert(idx_below(c + d, n)) by {
        assert forall|i: int| 0 <= i < (c + d).len() implies #[trigger] (c + d)[i].idx < n by {
            if i < c.len() {
                assert((c + d)[i] == c[i]);
            } else {
                assert((c + d)[i] == d[i - c.len()]);
            }
        }
    }
}

/// Why cropping a box out of a `width x height` image with a buffer of `len`
/// bytes fails, if it does.
pub open spec fn crop_failure(len: nat, width: usize, height: usize, b: BBox) -> Option<CropError> {
    if width * height * 3 > usize::MAX {
        Some(CropError::SizeOverflow)
    } else if len != width * height * 3 {
        Some(CropError::InvalidBufferLength)
    } else if !bbox_inside(b, width, height) {
        Some(CropError::InvalidBBox)
    } else {
        None
    }
}

/// The failure of the first box that cannot be cropped, if any.
pub open spec fn first_crop_failure(
    len: nat,
    width: usize,
    height: usize,
    boxes: Seq<([i32; 4], PredCharBucket)>,
) -> Option<CropError>
    decreases boxes.len(),
{
    if boxes.len() == 0 {
        None
    } else {
        match first_crop_failure(len, width, height, boxes.drop_last()) {
            Some(e) => Some(e),
            None => crop_failure(len, width, height, detection_bbox(boxes.last().0)),
        }
    }
}

pub(crate) fn select_line_detections(dets: &[LineDetection]) -> (res: Vec<([i32; 4], PredCharBucket)>)
    ensures
        res@ == line_detections(dets@),
{
    let prefix = str_to_chars("line_");
    let mut out: Vec<([i32; 4], PredCharBucket)> = Vec::new();
    let mut i: usize = 0;
    proof {
        assert(dets@.take(0) =~= Seq::<LineDetection>::empty());
    }
    while i < dets.len()
        invariant
            i <= dets@.len(),
            prefix@ == "line_"@,
            out@ == line_detections(dets@.take(i as int)),
        decreases dets.len() - i,
    {
        proof {
            assert(dets@.take(i + 1).drop_last() =~= dets@.take(i as int));
            assert(dets@.take(i + 1).last() == dets@[i as int]);
        }
        let d = &dets[i];
        if starts_with_chars(&str_to_chars(d.class_name.as_str()), &prefix) {
            out.push((d.box_xyxy, d.bucket));
        }
        i = i + 1;
    }
    proof {
        assert(dets@.take(dets@.len() as int) =~= dets@);
    }
    out
}

fn detection_box(b: [i32; 4]) -> (r: BBox)
    ensures
        r == detection_bbox(b),
{
    BBox::new(b[0] as usize, b[1] as usize, b[2] as usize, b[3] as usize)
}

fn crop_all(rgb: &[u8], width: usize, height: usize, boxes: &Vec<([i32; 4], PredCharBucket)>) -> (res:
    Result<Vec<CroppedImage>, CropError>)
    ensures
        match res {
            Ok(crops) => first_crop_failure(rgb@.len(), width, height, boxes@) is None && crops_of(
                rgb@,
                width,
                boxes@,
                crops@,
            ),
            Err(e) => first_crop_failure(rgb@.len(), width, height, boxes@) == Some(e),
        },
{
    let mut crops: Vec<CroppedImage> = Vec::new();
    let mut i: usize = 0;
    proof {
        assert(boxes@.take(0) =~= Seq::<([i32; 4], PredCharBucket)>::empty());
    }
    while i < boxes.len()
        invariant
            i <= boxes@.len(),
            crops@.len() == i,
            first_crop_failure(rgb@.len(), width, height, boxes@.take(i as int)) is None,
            forall|k: int|
                0 <= k < i ==> crop_of(rgb@, width, detection_bbox(boxes@[k].0), #[trigger] crops@[k]),
        decreases boxes.len() - i,
    {
        proof {
            assert(boxes@.take(i + 1).drop_last() =~= boxes@.take(i as int));
            assert(boxes@.take(i + 1).last() == boxes@[i as int]);
        }
        match crop_rgb_u8(rgb, width, height, detection_box(boxes[i].0)) {
            Ok(c) => {
                crops.push(c);
            },
            Err(e) => {
                proof {
                    lemma_first_failure_extends(rgb@.len(), width, height, boxes@, i as int);
                }
                return Err(e);
            },
        }
        i = i + 1;
    }
    proof {
        assert(boxes@.take(boxes@.len() as int) =~= boxes@);
    }
    Ok(crops)
}

proof fn lemma_first_failure_extends(
    len: nat,
    width: usize,
    height: usize,
    boxes: Seq<([i32; 4], PredCharBucket)>,
    i: int,
)
    requires
        0 <= i < boxes.len(),
        first_crop_failure(len, width, height, boxes.take(i)) is None,
        crop_failure(len, width, height, detection_bbox(boxes[i].0)) is Some,
    ensures
        first_crop_failure(len, width, height, boxes) == crop_failure(
            len,
            width,
            height,
            detection_bbox(boxes[i].0),
        ),
    decreases boxes.len(),
{
    if i < boxes.len() - 1 {
        assert(boxes.drop_last().take(i) =~= boxes.take(i));
        lemma_first_failure_extends(len, width, height, boxes.drop_last(), i);
    } else {
        assert(boxes.drop_last() =~= boxes.take(i));
    }
}

pub(crate) proof fn lemma_count_two(s: Seq<usize>, i: int, j: int)
    requires
        0 <= i < j < s.len(),
        s[i] == s[j],
    ensures
        s.to_multiset().count(s[i]) >= 2,
    decreases s.len(),
{
    broadcast use vstd::seq_lib::group_to_multiset_ensures;

    let t = s.drop_last();
    assert(t.push(s.last()) =~= s);
    if j < s.len() - 1 {
        lemma_count_two(t, i, j);
    } else {
        assert(t[i] == s[i]);
        assert(t.contains(s[i]));
    }
}

proof fn lemma_count_of_range(n: nat, v: usize)
    requires
        n <= usize::MAX + 1,
    ensures
        Seq::new(n, |k: int| k as usize).to_multiset().count(v) == if v < n {
            1nat
        } else {
            0nat
        },
    decreases n,
{
    broadcast use vstd::seq_lib::group_to_multiset_ensures;

    let s = Seq::new(n, |k: int| k as usize);
    if n == 0 {
        assert(s =~= Seq::<usize>::empty());
    } else {
        let m = (n - 1) as nat;
        lemma_count_of_range(m, v);
        let prev = Seq::new(m, |k: int| k as usize);
        assert(m as usize == m);
        assert(prev.push(m as usize) =~= s);
        assert(s.to_multiset() =~= prev.to_multiset().insert(m as usize));
        assert(s.to_multiset().count(v) == prev.to_multiset().count(v) + if v == m {
            1nat
        } else {
            0nat
        });
    }
}

/// From the positions of the readings being those of `cands` (positions
/// `0..n`, each once), sorted: every position is below `n` and no two
/// readings share one.
pub(crate) proof fn lemma_positions_below(cands: Seq<LineCandidate>, pv: Seq<(usize, String)>, n: nat)
    requires
        cands.len() == n,
        n <= usize::MAX,
        forall|k: int| 0 <= k < n ==> (#[trigger] cands[k]).idx == k,
        reading_positions(pv) =~= line_positions(cands),
    ensures
        pv.len() == n,
        forall|k: int| 0 <= k < pv.len() ==> (#[trigger] pv[k]).0 < n,
{
    broadcast use vstd::seq_lib::group_to_multiset_ensures;

    let a = pv.map_values(crate::pipeline::cascade::reading_position());
    let b = cands.map_values(|l: LineCandidate| l.idx);
    assert(b =~= Seq::new(n, |k: int| k as usize));
    assert(a.to_multiset().len() == b.to_multiset().len());
    assert forall|k: int| 0 <= k < pv.len() implies (#[trigger] pv[k]).0 < n by {
        let v = pv[k].0;
        assert(a[k] == v);
        assert(a.contains(v));
        assert(b.to_multiset().count(v) > 0);
        lemma_count_of_range(n, v);
    }
}

pub(crate) proof fn lemma_distinct_positions(
    cands: Seq<LineCandidate>,
    pv: Seq<(usize, String)>,
    n: nat,
    i: int,
    j: int,
)
    requires
        cands.len() == n,
        n <= usize::MAX,
        forall|k: int| 0 <= k < n ==> (#[trigger] cands[k]).idx == k,
        reading_positions(pv) =~= line_positions(cands),
        0 <= i < j < pv.len(),
    ensures
        pv[i].0 != pv[j].0,
{
    let a = pv.map_values(crate::pipeline::cascade::reading_position());
    let b = cands.map_values(|l: LineCandidate| l.idx);
    assert(b =~= Seq::new(n, |k: int| k as usize));
    if pv[i].0 == pv[j].0 {
        assert(a[i] == a[j]);
        lemma_count_two(a, i, j);
        lemma_count_of_range(n, a[i]);
    }
}

/// Recognises the line detections of a page with the cascade: the
/// detections of line classes are cropped in order (the first crop that
/// fails is the error) and read by the three recognisers; the lines come
/// back in order of detection, each once, with its box, its orientation and
/// the text the cascade gives it (see [`texts_read_by_cascade`]).
pub fn recognize_line_detections_with_cascade_detailed<
    F30: Fn(&CroppedImage) -> String,
    F50: Fn(&CroppedImage) -> String,
    F100: Fn(&CroppedImage) -> String,
>(
    rgb: &[u8],
    width: usize,
    height: usize,
    detections: &[LineDetection],
    recognize30: F30,
    recognize50: F50,
    recognize100: F100,
) -> (res: Result<Vec<PageLine>, CropError>)
    requires
        forall|c: &CroppedImage| #[trigger] recognize30.requires((c,)),
        forall|c: &CroppedImage| #[trigger] recognize50.requires((c,)),
        forall|c: &CroppedImage| #[trigger] recognize100.requires((c,)),
    ensures
        match res {
            Ok(lines) => {
                let dets = line_detections(detections@);
                &&& first_crop_failure(rgb@.len(), width, height, dets) is None
                &&& lines@.len() == dets.len()
                &&& forall|i: int|
                    0 <= i < lines@.len() ==> (#[trigger] lines@[i]).idx < dets.len()
                        && lines@[i].bbox_xyxy == dets[lines@[i].idx as int].0
                        && lines@[i].is_vertical == is_vertical_box(lines@[i].bbox_xyxy)
                &&& forall|i: int, j: int|
                    0 <= i < j < lines@.len() ==> (#[trigger] lines@[i]).idx < (#[trigger] lines@[j]).idx
                &&& exists|crops: Seq<CroppedImage>|
                    #[trigger] crops_of(rgb@, width, dets, crops) && texts_read_by_cascade(
                        line_candidates(dets),
                        crops,
                        recognize30,
                        recognize50,
                        recognize100,
                        lines@,
                    )
            },
            Err(e) => first_crop_failure(rgb@.len(), width, height, line_detections(detections@))
                == Some(e),
        },
{
    let boxes = select_line_detections(detections);
    let crops = match crop_all(rgb, width, height, &boxes) {
        Ok(c) => c,
        Err(e) => {
            return Err(e);
        },
    };
    let mut cands: Vec<LineCandidate> = Vec::new();
    let mut i: usize = 0;
    while i < boxes.len()
        invariant
            i <= boxes@.len(),
            cands@.len() == i,
            forall|k: int| 0 <= k < i ==> (#[trigger] cands@[k]).idx == k,
            forall|k: int| 0 <= k < i ==> #[trigger] cands@[k] == line_candidates(boxes@)[k],
        decreases boxes.len() - i,
    {
        cands.push(LineCandidate::new(i, boxes[i].1));
        i = i + 1;
    }
    let ghost cands_view = cands@;
    proof {
        assert(cands_view =~= line_candidates(boxes@));
    }
    let n = boxes.len();
    let crops_ref = &crops;
    let r30 = &recognize30;
    let r50 = &recognize50;
    let r100 = &recognize100;
    let read30 = |l: &LineCandidate| -> (s: String)
        requires
            forall|c: &CroppedImage| #[trigger] r30.requires((c,)),
        ensures
            l.idx < crops_ref@.len() ==> r30.ensures((&crops_ref@[l.idx as int],), s),
        {
            if l.idx < crops_ref.len() {
                r30(&crops_ref[l.idx])
            } else {
                String::new()
            }
        };
    let read50 = |l: &LineCandidate| -> (s: String)
        requires
            forall|c: &CroppedImage| #[trigger] r50.requires((c,)),
        ensures
            l.idx < crops_ref@.len() ==> r50.ensures((&crops_ref@[l.idx as int],), s),
        {
            if l.idx < crops_ref.len() {
                r50(&crops_ref[l.idx])
            } else {
                String::new()
            }
        };
    let read100 = |l: &LineCandidate| -> (s: String)
        requires
            forall|c: &CroppedImage| #[trigger] r100.requires((c,)),
        ensures
            l.idx < crops_ref@.len() ==> r100.ensures((&crops_ref@[l.idx as int],), s),
        {
            if l.idx < crops_ref.len() {
                r100(&crops_ref[l.idx])
            } else {
                String::new()
            }
        };
    let pairs = run_cascade_with_idx(cands, read30, read50, read100);
    let ghost pv = pairs@;
    let ghost (t30, t50, t100) = choose|t30: Seq<String>, t50: Seq<String>, t100: Seq<String>|
            {
                &&& crate::pipeline::cascade::answered_by(
                    read30,
                    crate::pipeline::cascade::reads_30(cands_view),
                    t30,
                )
                &&& crate::pipeline::cascade::answered_by(
                    read50,
                    crate::pipeline::cascade::reads_50(cands_view, t30),
                    t50,
                )
                &&& crate::pipeline::cascade::answered_by(
                    read100,
                    crate::pipeline::cascade::reads_100(cands_view, t30, t50),
                    t100,
                )
                &&& pv == #[trigger] cascade_result(cands_view, t30, t50, t100)
            };
    proof {
        lemma_cascade_reads_each_line_once(cands_view, t30, t50, t100);
        lemma_positions_below(cands_view, pv, n as nat);
        lemma_reads_below(cands_view, t30, t50, n as int);
        assert(read_on_crops(recognize30, crops@, reads_30(cands_view), t30)) by {
            assert forall|i: int| 0 <= i < reads_30(cands_view).len() implies recognize30.ensures(
                (&crops@[reads_30(cands_view)[i].idx as int],),
                #[trigger] t30[i],
            ) by {
                assert(read30.ensures((&reads_30(cands_view)[i],), t30[i]));
                assert(reads_30(cands_view)[i].idx < n);
            }
        }
        assert(read_on_crops(recognize50, crops@, reads_50(cands_view, t30), t50)) by {
            assert forall|i: int| 0 <= i < reads_50(cands_view, t30).len() implies recognize50.ensures(
                (&crops@[reads_50(cands_view, t30)[i].idx as int],),
                #[trigger] t50[i],
            ) by {
                assert(read50.ensures((&reads_50(cands_view, t30)[i],), t50[i]));
                assert(reads_50(cands_view, t30)[i].idx < n);
            }
        }
        assert(read_on_crops(recognize100, crops@, reads_100(cands_view, t30, t50), t100)) by {
            assert forall|i: int| 0 <= i < reads_100(cands_view, t30, t50).len() implies recognize100.ensures(
                (&crops@[reads_100(cands_view, t30, t50)[i].idx as int],),
                #[trigger] t100[i],
            ) by {
                assert(read100.ensures((&reads_100(cands_view, t30, t50)[i],), t100[i]));
                assert(reads_100(cands_view, t30, t50)[i].idx < n);
            }
        }
    }
    let mut lines: Vec<PageLine> = Vec::new();
    let mut pairs = pairs;
    let mut rev: Vec<(usize, String)> = Vec::new();
    while pairs.len() > 0
        invariant
            pairs@ == pv.take(pairs@.len() as int),
            pairs@.len() + rev@.len() == pv.len(),
            forall|j: int| 0 <= j < rev@.len() ==> #[trigger] rev@[j] == pv[pv.len() - 1 - j],
        decreases pairs.len(),
    {
        let ghost m = pairs@.len();
        match pairs.pop() {
            Some(p) => {
                rev.push(p);
                proof {
                    assert(pairs@ =~= pv.take(m - 1));
                }
            },
            None => {},
        }
    }
    while rev.len() > 0
        invariant
            rev@.len() + lines@.len() == pv.len(),
            forall|j: int| 0 <= j < rev@.len() ==> #[trigger] rev@[j] == pv[pv.len() - 1 - j],
            forall|k: int| 0 <= k < pv.len() ==> (#[trigger] pv[k]).0 < n,
            n == boxes@.len(),
            forall|k: int|
                0 <= k < lines@.len() ==> (#[trigger] lines@[k]).idx == pv[k].0 && lines@[k].text
                    == pv[k].1 && lines@[k].bbox_xyxy == boxes@[lines@[k].idx as int].0
                    && lines@[k].is_vertical == is_vertical_box(lines@[k].bbox_xyxy),
        decreases rev.len(),
    {
        let ghost k = lines@.len();
        match rev.pop() {
            Some(p) => {
                proof {
                    assert(p == pv[k as int]);
                }
                let b = boxes[p.0].0;
                lines.push(PageLine { idx: p.0, bbox_xyxy: b, text: p.1, is_vertical: bbox_is_vertical(b) });
            },
            None => {},
        }
    }
    proof {
        assert forall|i: int, j: int| 0 <= i < j < lines@.len() implies (#[trigger] lines@[i]).idx
            < (#[trigger] lines@[j]).idx by {
            assert(by_idx()(pv[i], pv[j]));
            lemma_distinct_positions(cands_view, pv, n as nat, i, j);
        }
        let idxs = lines@.map_values(|l: PageLine| l.idx);
        assert forall|i: int, j: int| 0 <= i < j < n implies #[trigger] idxs[i] < #[trigger] idxs[j] by {
            assert(lines@[i].idx < lines@[j].idx);
        }
        lemma_increasing_is_identity(idxs, n as nat);
        assert forall|i: int| 0 <= i < lines@.len() implies #[trigger] cascade_result(
            cands_view,
            t30,
            t50,
            t100,
        )[lines@[i].idx as int].1@ == lines@[i].text@ by {
            assert(idxs[i] == lines@[i].idx);
        }
        assert(crops_of(rgb@, width, boxes@, crops@));
    }
    Ok(lines)
}

/// The texts of the line detections of a page, in order of detection (see
/// [`recognize_line_detections_with_cascade_detailed`]).
pub fn recognize_line_detections_with_cascade<
    F30: Fn(&CroppedImage) -> String,
    F50: Fn(&CroppedImage) -> String,
    F100: Fn(&CroppedImage) -> String,
>(
    rgb: &[u8],
    width: usize,
    height: usize,
    detections: &[LineDetection],
    recognize30: F30,
    recognize50: F50,
    recognize100: F100,
) -> (res: Result<Vec<String>, CropError>)
    requires
        forall|c: &CroppedImage| #[trigger] recognize30.requires((c,)),
        forall|c: &CroppedImage| #[trigger] recognize50.requires((c,)),
        forall|c: &CroppedImage| #[trigger] recognize100.requires((c,)),
    ensures
        match res {
            Ok(texts) => {
                let dets = line_detections(detections@);
                &&& first_crop_failure(rgb@.len(), width, height, dets) is None
                &&& texts@.len() == dets.len()
                &&& exists|crops: Seq<CroppedImage>|
                    #[trigger] crops_of(rgb@, width, dets, crops) && texts_in_order_read_by_cascade(
                        line_candidates(dets),
                        crops,
                        recognize30,
                        recognize50,
                        recognize100,
                        texts@,
                    )
            },
            Err(e) => first_crop_failure(rgb@.len(), width, height, line_detections(detections@))
                == Some(e),
        },
{
    let lines = match recognize_line_detections_with_cascade_detailed(
        rgb,
        width,
        height,
        detections,
        recognize30,
        recognize50,
        recognize100,
    ) {
        Ok(l) => l,
        Err(e) => {
            return Err(e);
        },
    };
    let ghost dets = line_detections(detections@);
    let n = lines.len();
    let mut texts: Vec<String> = Vec::new();
    let mut lines = lines;
    let ghost lv = lines@;
    let mut rev: Vec<String> = Vec::new();
    while lines.len() > 0
        invariant
            lines@ == lv.take(lines@.len() as int),
            lines@.len() + rev@.len() == lv.len(),
            forall|j: int| 0 <= j < rev@.len() ==> #[trigger] rev@[j] == lv[lv.len() - 1 - j].text,
        decreases lines.len(),
    {
        let ghost m = lines@.len();
        match lines.pop() {
            Some(l) => {
                rev.push(l.text);
                proof {
                    assert(lines@ =~= lv.take(m - 1));
                }
            },
            None => {},
        }
    }
    while rev.len() > 0
        invariant
            rev@.len() + texts@.len() == lv.len(),
            forall|j: int| 0 <= j < rev@.len() ==> #[trigger] rev@[j] == lv[lv.len() - 1 - j].text,
            forall|k: int| 0 <= k < texts@.len() ==> #[trigger] texts@[k] == lv[k].text,
        decreases rev.len(),
    {
        let ghost k = texts@.len();
        match rev.pop() {
            Some(t) => {
                texts.push(t);
            },
            None => {},
        }
    }
    proof {
        let cands = line_candidates(dets);
        let idxs = lv.map_values(|l: PageLine| l.idx);
        assert forall|i: int, j: int| 0 <= i < j < n implies #[trigger] idxs[i] < #[trigger] idxs[j] by {
            assert(lv[i].idx < lv[j].idx);
        }
        assert forall|k: int| 0 <= k < n implies #[trigger] idxs[k] < n by {
            assert(lv[k].idx < dets.len());
        }
        lemma_increasing_is_identity(idxs, n as nat);
        let crops = choose|crops: Seq<CroppedImage>|
            #[trigger] crops_of(rgb@, width, dets, crops) && texts_read_by_cascade(
                cands,
                crops,
                recognize30,
                recognize50,
                recognize100,
                lv,
            );
        let (t30, t50, t100) = choose|t30: Seq<String>, t50: Seq<String>, t100: Seq<String>|
            {
                &&& read_on_crops(recognize30, crops, reads_30(cands), t30)
                &&& read_on_crops(recognize50, crops, reads_50(cands, t30), t50)
                &&& read_on_crops(recognize100, crops, reads_100(cands, t30, t50), t100)
                &&& forall|i: int|
                    0 <= i < lv.len() ==> #[trigger] cascade_result(cands, t30, t50, t100)[lv[i].idx as int].1@
                        == lv[i].text@
            };
        assert forall|k: int| 0 <= k < texts@.len() implies #[trigger] cascade_result(
            cands,
            t30,
            t50,
            t100,
        )[k].1@ == texts@[k]@ by {
            assert(idxs[k] == lv[k].idx);
            assert(cascade_result(cands, t30, t50, t100)[lv[k].idx as int].1@ == lv[k].text@);
        }
        assert(texts_in_order_read_by_cascade(cands, crops, recognize30, recognize50, recognize100, texts@));
    }
    Ok(texts)
}

/// What a page gives: how many detections it had, how many of them were
/// lines, and the recognised lines in reading order with their texts.
pub struct PageRun {
    pub total_detection_count: usize,
    pub line_detection_count: usize,
    pub texts: Vec<String>,
    pub lines: Vec<PageLine>,
}

pub(crate) proof fn lemma_increasing_is_identity(a: Seq<usize>, n: nat)
    requires
        a.len() == n,
        forall|k: int| 0 <= k < n ==> #[trigger] a[k] < n,
        forall|i: int, j: int| 0 <= i < j < n ==> #[trigger] a[i] < #[trigger] a[j],
    ensures
        forall|k: int| 0 <= k < n ==> #[trigger] a[k] == k,
{
    assert forall|k: int| 0 <= k < n implies #[trigger] a[k] >= k by {
        lemma_increasing_lower(a, n, k);
    }
    assert forall|k: int| 0 <= k < n implies #[trigger] a[k] <= k by {
        lemma_increasing_upper(a, n, k);
    }
}

proof fn lemma_increasing_lower(a: Seq<usize>, n: nat, k: int)
    requires
        a.len() == n,
        0 <= k < n,
        forall|i: int, j: int| 0 <= i < j < n ==> #[trigger] a[i] < #[trigger] a[j],
    ensures
        a[k] >= k,
    decreases k,
{
    if k > 0 {
        lemma_increasing_lower(a, n, k - 1);
        assert(a[k - 1] < a[k]);
    }
}

proof fn lemma_increasing_upper(a: Seq<usize>, n: nat, k: int)
    requires
        a.len() == n,
        0 <= k < n,
        forall|m: int| 0 <= m < n ==> #[trigger] a[m] < n,
        forall|i: int, j: int| 0 <= i < j < n ==> #[trigger] a[i] < #[trigger] a[j],
    ensures
        a[k] <= k,
    decreases n - k,
{
    if k < n - 1 {
        lemma_increasing_upper(a, n, k + 1);
        assert(a[k] < a[k + 1]);
    }
}

/// Recognises the lines of a page (see
/// [`recognize_line_detections_with_cascade_detailed`]) and puts them in
/// reading order, each with the text the cascade gives it; the texts are
/// those of the lines in that order.
pub fn run_page<
    F30: Fn(&CroppedImage) -> String,
    F50: Fn(&CroppedImage) -> String,
    F100: Fn(&CroppedImage) -> String,
>(
    rgb: &[u8],
    width: usize,
    height: usize,
    detections: &[LineDetection],
    recognize30: F30,
    recognize50: F50,
    recognize100: F100,
) -> (res: Result<PageRun, CropError>)
    requires
        forall|c: &CroppedImage| #[trigger] recognize30.requires((c,)),
        forall|c: &CroppedImage| #[trigger] recognize50.requires((c,)),
        forall|c: &CroppedImage| #[trigger] recognize100.requires((c,)),
    ensures
        match res {
            Ok(out) => {
                let dets = line_detections(detections@);
                &&& first_crop_failure(rgb@.len(), width, height, dets) is None
                &&& out.total_detection_count == detections@.len()
                &&& out.line_detection_count == dets.len()
                &&& out.lines@.len() == dets.len()
                &&& out.texts@.len() == out.lines@.len()
                &&& forall|i: int|
                    0 <= i < out.lines@.len() ==> (#[trigger] out.lines@[i]).idx < dets.len()
                        && out.lines@[i].bbox_xyxy == dets[out.lines@[i].idx as int].0
                        && out.lines@[i].is_vertical == is_vertical_box(out.lines@[i].bbox_xyxy)
                        && out.texts@[i]@ == out.lines@[i].text@
                &&& forall|i: int, j: int|
                    0 <= i < j < out.lines@.len() ==> (#[trigger] out.lines@[i]).idx
                        != (#[trigger] out.lines@[j]).idx && reading_le(
                        out.lines@[i].bbox_xyxy,
                        out.lines@[i].is_vertical,
                        out.lines@[j].bbox_xyxy,
                        out.lines@[j].is_vertical,
                    )
                &&& exists|crops: Seq<CroppedImage>|
                    #[trigger] crops_of(rgb@, width, dets, crops) && texts_read_by_cascade(
                        line_candidates(dets),
                        crops,
                        recognize30,
                        recognize50,
                        recognize100,
                        out.lines@,
                    )
            },
            Err(e) => first_crop_failure(rgb@.len(), width, height, line_detections(detections@))
                == Some(e),
        },
{
    let recognized = match recognize_line_detections_with_cascade_detailed(
        rgb,
        width,
        height,
        detections,
        recognize30,
        recognize50,
        recognize100,
    ) {
        Ok(l) => l,
        Err(e) => {
            return Err(e);
        },
    };
    let ghost dets = line_detections(detections@);
    let n = recognized.len();
    let mut keys: Vec<([i32; 4], bool)> = Vec::new();
    let mut k: usize = 0;
    while k < n
        invariant
            k <= n,
            n == recognized@.len(),
            keys@.len() == k,
            forall|m: int|
                0 <= m < k ==> #[trigger] keys@[m] == (recognized@[m].bbox_xyxy, recognized@[m].is_vertical),
        decreases n - k,
    {
        keys.push((recognized[k].bbox_xyxy, recognized[k].is_vertical));
        k = k + 1;
    }
    let order = reading_order_of_lines(&keys);
    let ghost le = line_reading_le(keys@);
    proof {
        lemma_line_reading_order(keys@);
        let idxs = recognized@.map_values(|l: PageLine| l.idx);
        assert forall|m: int| 0 <= m < n implies #[trigger] idxs[m] < n by {}
        assert forall|i: int, j: int| 0 <= i < j < n implies #[trigger] idxs[i] < #[trigger] idxs[j] by {
            assert(recognized@[i].idx < recognized@[j].idx);
        }
        lemma_increasing_is_identity(idxs, n as nat);
        assert forall|m: int| 0 <= m < n implies (#[trigger] recognized@[m]).idx == m by {
            assert(idxs[m] == recognized@[m].idx);
        }
        assert(order@.len() == n) by {
            broadcast use vstd::seq_lib::group_to_multiset_ensures;
            assert(order@.to_multiset().len() == positions(keys@.len()).to_multiset().len());
        }
        assert forall|m: int| 0 <= m < n implies #[trigger] order@[m] < n by {
            broadcast use vstd::seq_lib::group_to_multiset_ensures;
            assert(order@.contains(order@[m]));
            assert(positions(keys@.len()).to_multiset().count(order@[m]) > 0);
            lemma_count_of_range(n as nat, order@[m]);
            assert(positions(keys@.len()) =~= Seq::new(n as nat, |q: int| q as usize));
        }
    }
    let mut lines: Vec<PageLine> = Vec::new();
    let mut texts: Vec<String> = Vec::new();
    let mut i: usize = 0;
    while i < n
        invariant
            i <= n,
            n == recognized@.len(),
            n == dets.len(),
            order@.len() == n,
            forall|m: int| 0 <= m < n ==> #[trigger] order@[m] < n,
            forall|m: int| 0 <= m < n ==> (#[trigger] recognized@[m]).idx == m,
            forall|m: int|
                0 <= m < n ==> (#[trigger] recognized@[m]).idx < dets.len()
                    && recognized@[m].bbox_xyxy == dets[recognized@[m].idx as int].0
                    && recognized@[m].is_vertical == is_vertical_box(recognized@[m].bbox_xyxy),
            lines@.len() == i,
            texts@.len() == i,
            forall|m: int|
                0 <= m < i ==> (#[trigger] lines@[m]).idx == order@[m] && lines@[m].bbox_xyxy
                    == recognized@[order@[m] as int].bbox_xyxy && lines@[m].is_vertical
                    == recognized@[order@[m] as int].is_vertical && lines@[m].text@
                    == recognized@[order@[m] as int].text@ && texts@[m]@ == lines@[m].text@,
        decreases n - i,
    {
        let src = &recognized[order[i]];
        let line = PageLine {
            idx: src.idx,
            bbox_xyxy: src.bbox_xyxy,
            text: src.text.clone(),
            is_vertical: src.is_vertical,
        };
        texts.push(src.text.clone());
        lines.push(line);
        i = i + 1;
    }
    proof {
        assert forall|a: int, b: int| 0 <= a < b < lines@.len() implies (#[trigger] lines@[a]).idx
            != (#[trigger] lines@[b]).idx && reading_le(
            lines@[a].bbox_xyxy,
            lines@[a].is_vertical,
            lines@[b].bbox_xyxy,
            lines@[b].is_vertical,
        ) by {
            assert(le(order@[a], order@[b]));
            assert(keys@[order@[a] as int] == (recognized@[order@[a] as int].bbox_xyxy, recognized@[order@[a] as int].is_vertical));
            assert(keys@[order@[b] as int] == (recognized@[order@[b] as int].bbox_xyxy, recognized@[order@[b] as int].is_vertical));
            if order@[a] == order@[b] {
                lemma_count_two(order@, a, b);
                broadcast use vstd::seq_lib::group_to_multiset_ensures;
                lemma_count_of_range(n as nat, order@[a]);
                assert(positions(keys@.len()) =~= Seq::new(n as nat, |q: int| q as usize));
            }
        }
        let cands = line_candidates(dets);
        let crops = choose|crops: Seq<CroppedImage>|
            #[trigger] crops_of(rgb@, width, dets, crops) && texts_read_by_cascade(
                cands,
                crops,
                recognize30,
                recognize50,
                recognize100,
                recognized@,
            );
        let (t30, t50, t100) = choose|t30: Seq<String>, t50: Seq<String>, t100: Seq<String>|
            {
                &&& read_on_crops(recognize30, crops, reads_30(cands), t30)
                &&& read_on_crops(recognize50, crops, reads_50(cands, t30), t50)
                &&& read_on_crops(recognize100, crops, reads_100(cands, t30, t50), t100)
                &&& forall|i: int|
                    0 <= i < recognized@.len() ==> #[trigger] cascade_result(cands, t30, t50, t100)[recognized@[i].idx as int].1@
                        == recognized@[i].text@
            };
        assert forall|m: int| 0 <= m < lines@.len() implies #[trigger] cascade_result(
            cands,
            t30,
            t50,
            t100,
        )[lines@[m].idx as int].1@ == lines@[m].text@ by {
            let j = order@[m] as int;
            assert(recognized@[j].idx == j);
            assert(cascade_result(cands, t30, t50, t100)[recognized@[j].idx as int].1@ == recognized@[j].text@);
        }
        assert(texts_read_by_cascade(cands, crops, recognize30, recognize50, recognize100, lines@));
    }
    Ok(
        PageRun {
            total_detection_count: detections.len(),
            line_detection_count: n,
            texts,
            lines,
        },
    )
}

} // verus!

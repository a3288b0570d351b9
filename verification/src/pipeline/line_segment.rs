//! Projection-profile segmentation of a page image into horizontal text
//! bands (a fallback when no line detector is available).
use vstd::prelude::*;

use crate::float32::{round_to_f32, round_to_f32_exec};
use crate::pipeline::crop::lemma_index_in_image;

verus! {

broadcast use vstd::seq_lib::group_seq_properties;

// ---------------------------------------------------------------------------
// Ink
// ---------------------------------------------------------------------------

/// Pixel `(x, y)` of a packed RGB image of width `w` is ink: the integer
/// mean of its three channels is below `threshold`.
pub open spec fn is_ink(rgb: Seq<u8>, w: int, x: int, y: int, threshold: u8) -> bool {
    let i = (y * w + x) * 3;
    (rgb[i] + rgb[i + 1] + rgb[i + 2]) / 3 < threshold
}

/// Number of ink pixels among the first `n` pixels of row `y`.
pub open spec fn row_ink(rgb: Seq<u8>, w: int, y: int, threshold: u8, n: int) -> nat
    decreases n,
{
    if n <= 0 {
        0
    } else {
        row_ink(rgb, w, y, threshold, n - 1) + if is_ink(rgb, w, n - 1, y, threshold) {
            1nat
        } else {
            0nat
        }
    }
}

/// Number of ink pixels of column `x` in rows `y0..y1`.
pub open spec fn col_ink(rgb: Seq<u8>, w: int, x: int, threshold: u8, y0: int, y1: int) -> nat
    decreases y1 - y0,
{
    if y1 <= y0 {
        0
    } else {
        col_ink(rgb, w, x, threshold, y0, y1 - 1) + if is_ink(rgb, w, x, y1 - 1, threshold) {
            1nat
        } else {
            0nat
        }
    }
}

proof fn lemma_row_ink_bound(rgb: Seq<u8>, w: int, y: int, threshold: u8, n: int)
    ensures
        row_ink(rgb, w, y, threshold, n) <= if n < 0 {
            0
        } else {
            n
        },
    decreases n,
{
    if n > 0 {
        lemma_row_ink_bound(rgb, w, y, threshold, n - 1);
    }
}

proof fn lemma_col_ink_bound(rgb: Seq<u8>, w: int, x: int, threshold: u8, y0: int, y1: int)
    ensures
        col_ink(rgb, w, x, threshold, y0, y1) <= if y1 < y0 {
            0
        } else {
            y1 - y0
        },
    decreases y1 - y0,
{
    if y1 > y0 {
        lemma_col_ink_bound(rgb, w, x, threshold, y0, y1 - 1);
    }
}

fn pixel_is_ink(rgb: &[u8], width: usize, height: usize, x: usize, y: usize, threshold: u8) -> (r:
    bool)
    requires
        x < width,
        y < height,
        width * height * 3 <= rgb@.len(),
    ensures
        r == is_ink(rgb@, width as int, x as int, y as int, threshold),
{
    proof {
        lemma_index_in_image(x as int, y as int, width as int, height as int);
        assert(height * width * 3 == width * height * 3) by (nonlinear_arith);
        assert(0 <= y * width <= y * width + x);
        assert(rgb@.len() == rgb.len());
    }
    let i = (y * width + x) * 3;
    let gray = ((rgb[i] as u16 + rgb[i + 1] as u16 + rgb[i + 2] as u16) / 3) as u8;
    gray < threshold
}

/// The ink count of every row of the image.
fn row_ink_counts(rgb: &[u8], width: usize, height: usize, threshold: u8) -> (res: Vec<usize>)
    requires
        width * height * 3 <= rgb@.len(),
    ensures
        res@.len() == height,
        forall|y: int|
            0 <= y < height ==> #[trigger] res@[y] == row_ink(
                rgb@,
                width as int,
                y,
                threshold,
                width as int,
            ),
{
    let mut rows: Vec<usize> = Vec::new();
    let mut y: usize = 0;
    while y < height
        invariant
            y <= height,
            width * height * 3 <= rgb@.len(),
            rows@.len() == y,
            forall|j: int|
                0 <= j < y ==> #[trigger] rows@[j] == row_ink(
                    rgb@,
                    width as int,
                    j,
                    threshold,
                    width as int,
                ),
        decreases height - y,
    {
        let mut count: usize = 0;
        let mut x: usize = 0;
        while x < width
            invariant
                x <= width,
                y < height,
                width * height * 3 <= rgb@.len(),
                count == row_ink(rgb@, width as int, y as int, threshold, x as int),
            decreases width - x,
        {
            proof {
                lemma_row_ink_bound(rgb@, width as int, y as int, threshold, x as int);
            }
            if pixel_is_ink(rgb, width, height, x, y, threshold) {
                count = count + 1;
            }
            x = x + 1;
        }
        rows.push(count);
        y = y + 1;
    }
    rows
}

// ---------------------------------------------------------------------------
// Vertical spans
// ---------------------------------------------------------------------------

/// Spans found so far, the start of the open span and the current gap.
pub type SpanState = (Seq<(int, int)>, Option<int>, int);

/// One row of the scan: a row with at least `row_threshold` ink pixels opens
/// a span (or continues it); more than two lighter rows close it. A closed
/// span ends one row after its last inked row and is kept when it is more
/// than six rows tall.
pub open spec fn span_step(st: SpanState, y: int, ink: int, row_threshold: int) -> SpanState {
    let (spans, start, gap) = st;
    if ink >= row_threshold {
        (
            spans,
            if start is None {
                Some(y)
            } else {
                start
            },
            0,
        )
    } else if start is Some {
        let g = gap + 1;
        if g > 2 {
            let s = start.unwrap();
            let e = (if y >= g {
                y - g
            } else {
                0
            }) + 1;
            (
                if e > s + 6 {
                    spans.push((s, e))
                } else {
                    spans
                },
                None,
                0,
            )
        } else {
            (spans, start, g)
        }
    } else {
        (spans, start, gap)
    }
}

pub open spec fn span_scan(rows: Seq<usize>, row_threshold: int, n: int) -> SpanState
    decreases n,
{
    if n <= 0 {
        (seq![], None, 0)
    } else {
        span_step(
            span_scan(rows, row_threshold, n - 1),
            n - 1,
            rows[n - 1] as int,
            row_threshold,
        )
    }
}

/// The ink threshold of a row: a 1/80 of the width, at least 8.
pub open spec fn row_threshold(width: int) -> int {
    if width / 80 > 8 {
        width / 80
    } else {
        8
    }
}

/// The vertical text spans `[y0, y1)` of a page from its row ink counts;
/// a span still open at the bottom runs to `height` if it is more than six
/// rows tall.
pub open spec fn spec_detect_spans(rows: Seq<usize>, width: int, height: int) -> Seq<(int, int)> {
    let (spans, start, _) = span_scan(rows, row_threshold(width), rows.len() as int);
    match start {
        Some(s) => if height > s + 6 {
            spans.push((s, height))
        } else {
            spans
        },
        None => spans,
    }
}

proof fn lemma_span_scan_shape(rows: Seq<usize>, thr: int, n: int)
    requires
        0 <= n <= rows.len(),
    ensures
        ({
            let (spans, start, gap) = span_scan(rows, thr, n);
            &&& 0 <= gap <= 2
            &&& (start matches Some(s) ==> 0 <= s < n && gap <= n - 1 - s)
            &&& (start is None ==> gap == 0)
            &&& forall|k: int|
                0 <= k < spans.len() ==> 0 <= (#[trigger] spans[k]).0 < spans[k].1 <= n
        }),
    decreases n,
{
    if n > 0 {
        lemma_span_scan_shape(rows, thr, n - 1);
    }
}

proof fn lemma_span_scan_order(rows: Seq<usize>, thr: int, n: int)
    requires
        0 <= n <= rows.len(),
    ensures
        ({
            let (spans, start, gap) = span_scan(rows, thr, n);
            &&& forall|k: int| 0 < k < spans.len() ==> spans[k - 1].1 + 3 <= #[trigger] spans[k].0
            &&& spans.len() > 0 ==> spans.last().1 + 3 <= n
            &&& (spans.len() > 0 ==> (start matches Some(s) ==> spans.last().1 + 3 <= s))
        }),
    decreases n,
{
    if n > 0 {
        lemma_span_scan_order(rows, thr, n - 1);
        lemma_span_scan_shape(rows, thr, n - 1);
        let (spans, start, gap) = span_scan(rows, thr, n - 1);
        let (spans2, start2, gap2) = span_scan(rows, thr, n);
        if spans2.len() > spans.len() {
            assert(spans2 == spans.push(spans2.last()));
            assert forall|k: int| 0 < k < spans2.len() implies spans2[k - 1].1 + 3 <= #[trigger] spans2[k].0 by {
                if k < spans.len() {
                    assert(spans2[k - 1] == spans[k - 1] && spans2[k] == spans[k]);
                } else {
                    assert(spans2[k - 1] == spans.last());
                }
            }
        } else {
            assert(spans2 == spans);
        }
    }
}

proof fn lemma_span_scan_empty_without_ink(rows: Seq<usize>, thr: int, n: int)
    requires
        0 <= n <= rows.len(),
        thr > 0,
        forall|y: int| 0 <= y < rows.len() ==> #[trigger] rows[y] == 0,
    ensures
        span_scan(rows, thr, n) == (Seq::<(int, int)>::empty(), Option::<int>::None, 0int),
    decreases n,
{
    if n > 0 {
        lemma_span_scan_empty_without_ink(rows, thr, n - 1);
        assert(rows[n - 1] == 0);
    }
}

proof fn lemma_row_ink_zero(rgb: Seq<u8>, w: int, y: int, threshold: u8, n: int)
    requires
        n <= w,
        forall|x: int| 0 <= x < w ==> !#[trigger] is_ink(rgb, w, x, y, threshold),
    ensures
        row_ink(rgb, w, y, threshold, n) == 0,
    decreases n,
{
    if n > 0 {
        lemma_row_ink_zero(rgb, w, y, threshold, n - 1);
        assert(!is_ink(rgb, w, n - 1, y, threshold));
    }
}

fn detect_spans(rows: &Vec<usize>, width: usize, height: usize) -> (res: Vec<(usize, usize)>)
    requires
        rows@.len() <= height,
    ensures
        res@.len() == spec_detect_spans(rows@, width as int, height as int).len(),
        forall|k: int|
            0 <= k < res@.len() ==> (#[trigger] res@[k]).0 as int == spec_detect_spans(
                rows@,
                width as int,
                height as int,
            )[k].0 && res@[k].1 as int == spec_detect_spans(
                rows@,
                width as int,
                height as int,
            )[k].1,
{
    let row_threshold_v = if width / 80 > 8 {
        width / 80
    } else {
        8
    };
    let mut spans: Vec<(usize, usize)> = Vec::new();
    let mut start: Option<usize> = None;
    let mut gap: usize = 0;
    let mut y: usize = 0;
    let ghost thr = row_threshold(width as int);
    while y < rows.len()
        invariant
            y <= rows@.len(),
            rows@.len() <= height,
            thr == row_threshold_v,
            ({
                let (ss, st, g) = span_scan(rows@, thr, y as int);
                &&& spans@.len() == ss.len()
                &&& forall|k: int|
                    0 <= k < ss.len() ==> (#[trigger] spans@[k]).0 == ss[k].0 && spans@[k].1
                        == ss[k].1
                &&& g == gap as int
                &&& (st is None <==> start is None)
                &&& (st matches Some(s) ==> start == Some(s as usize))
            }),
        decreases rows.len() - y,
    {
        proof {
            lemma_span_scan_shape(rows@, thr, y as int);
        }
        let ghost before = span_scan(rows@, thr, y as int);
        let ink = rows[y];
        if ink >= row_threshold_v {
            if start.is_none() {
                start = Some(y);
            }
            gap = 0;
        } else if start.is_some() {
            gap = gap + 1;
            if gap > 2 {
                let s = match start {
                    Some(v) => v,
                    None => 0,
                };
                start = None;
                let e = if y >= gap {
                    y - gap
                } else {
                    0
                } + 1;
                if e > s && e - s > 6 {
                    spans.push((s, e));
                }
                gap = 0;
            }
        }
        proof {
            let after = span_scan(rows@, thr, y + 1);
            assert(after == span_step(before, y as int, rows@[y as int] as int, thr));
        }
        y = y + 1;
    }
    proof {
        lemma_span_scan_shape(rows@, thr, rows@.len() as int);
    }
    if let Some(s) = start {
        if height > s && height - s > 6 {
            spans.push((s, height));
        }
    }
    spans
}

// ---------------------------------------------------------------------------
// Horizontal bounds of a band
// ---------------------------------------------------------------------------

/// Largest value of `col`, 0 when empty.
pub open spec fn seq_max(col: Seq<usize>) -> int
    decreases col.len(),
{
    if col.len() == 0 {
        0
    } else {
        let m = seq_max(col.drop_last());
        if col.last() > m {
            col.last() as int
        } else {
            m
        }
    }
}

/// First index at or after `i` whose value is at least `t`.
pub open spec fn first_at_least(col: Seq<usize>, t: int, i: int) -> Option<int>
    decreases col.len() - i,
{
    if i < 0 || i >= col.len() {
        None
    } else if col[i] >= t {
        Some(i)
    } else {
        first_at_least(col, t, i + 1)
    }
}

/// Last index whose value is at least `t`.
pub open spec fn last_at_least(col: Seq<usize>, t: int) -> Option<int>
    decreases col.len(),
{
    if col.len() == 0 {
        None
    } else if col.last() >= t {
        Some(col.len() - 1)
    } else {
        last_at_least(col.drop_last(), t)
    }
}

/// `((m as f32) * 0.15_f32).ceil()`: `0.15_f32` is `10066330 / 2^26`, and
/// each `f32` operation rounds to the nearest `f32`.
pub open spec fn f32_ceil_fifteen_percent(m: nat) -> nat {
    let p = round_to_f32(round_to_f32(m) * 10066330);
    (p + 0x3ffffff) / 0x4000000
}

/// The ink threshold of the columns of a band: an eighth of the band height,
/// at least 1, and at least 15% of the darkest column (saturated to the
/// range of `usize`).
pub open spec fn column_threshold(max_ink: int, band_h: int) -> int {
    let abs_threshold = if band_h / 8 > 1 {
        band_h / 8
    } else {
        1
    };
    let rel = if f32_ceil_fifteen_percent(max_ink as nat) <= usize::MAX {
        f32_ceil_fifteen_percent(max_ink as nat) as int
    } else {
        usize::MAX as int
    };
    let rel1 = if rel > 1 {
        rel
    } else {
        1
    };
    if abs_threshold > rel1 {
        abs_threshold
    } else {
        rel1
    }
}

/// The horizontal extent of the ink of a band: two columns of margin on the
/// left and three on the right of the columns reaching the threshold; the
/// full width when the band has no ink.
pub open spec fn spec_refine_x_bounds(col: Seq<usize>, band_h: int, width: int) -> (int, int) {
    let m = seq_max(col);
    if m == 0 {
        (0, width)
    } else {
        let t = column_threshold(m, band_h);
        let left = match first_at_least(col, t, 0) {
            Some(x) => if x >= 2 {
                x - 2
            } else {
                0
            },
            None => 0,
        };
        let right = match last_at_least(col, t) {
            Some(x) => if x + 3 < width {
                x + 3
            } else {
                width
            },
            None => width,
        };
        (left, right)
    }
}

/// `((m as f32) * 0.15_f32).ceil() as usize`, computed exactly in integers.
fn ceil_fifteen_percent(m: usize) -> (res: usize)
    ensures
        res as int == if f32_ceil_fifteen_percent(m as nat) <= usize::MAX {
            f32_ceil_fifteen_percent(m as nat) as int
        } else {
            usize::MAX as int
        },
{
    let fm = round_to_f32_exec(m as u128);
    let p = round_to_f32_exec(fm * 10066330);
    let c = (p + 0x3ffffff) / 0x4000000;
    if c > usize::MAX as u128 {
        usize::MAX
    } else {
        c as usize
    }
}

fn refine_x_bounds(col: &Vec<usize>, band_h: usize, width: usize) -> (res: (usize, usize))
    requires
        col@.len() <= width,
    ensures
        res.0 as int == spec_refine_x_bounds(col@, band_h as int, width as int).0,
        res.1 as int == spec_refine_x_bounds(col@, band_h as int, width as int).1,
{
    let mut max_ink: usize = 0;
    let mut i: usize = 0;
    proof {
        assert(col@.take(0) =~= Seq::<usize>::empty());
    }
    while i < col.len()
        invariant
            i <= col@.len(),
            max_ink as int == seq_max(col@.take(i as int)),
        decreases col.len() - i,
    {
        proof {
            assert(col@.take(i + 1).drop_last() =~= col@.take(i as int));
        }
        if col[i] > max_ink {
            max_ink = col[i];
        }
        i = i + 1;
    }
    proof {
        assert(col@.take(col@.len() as int) =~= col@);
    }
    if max_ink == 0 {
        return (0, width);
    }
    let abs_threshold = if band_h / 8 > 1 {
        band_h / 8
    } else {
        1
    };
    let rel = ceil_fifteen_percent(max_ink);
    let rel1 = if rel > 1 {
        rel
    } else {
        1
    };
    let threshold = if abs_threshold > rel1 {
        abs_threshold
    } else {
        rel1
    };
    let ghost t = column_threshold(max_ink as int, band_h as int);
    assert(t == threshold as int);
    let mut x: usize = 0;
    while x < col.len() && col[x] < threshold
        invariant
            x <= col@.len(),
            first_at_least(col@, t, 0) == first_at_least(col@, t, x as int),
            t == threshold as int,
        decreases col.len() - x,
    {
        x = x + 1;
    }
    let left: usize = if x < col.len() && x >= 2 {
        x - 2
    } else {
        0
    };
    let mut k: usize = col.len();
    proof {
        assert(col@.take(col@.len() as int) =~= col@);
    }
    while k > 0 && col[k - 1] < threshold
        invariant
            k <= col@.len(),
            col@.len() <= width,
            last_at_least(col@, t) == last_at_least(col@.take(k as int), t),
            t == threshold as int,
        decreases k,
    {
        proof {
            assert(col@.take(k as int).drop_last() =~= col@.take(k - 1));
            assert(col@.take(k as int).last() == col@[k - 1]);
        }
        k = k - 1;
    }
    proof {
        if k > 0 {
            assert(col@.take(k as int).last() == col@[k - 1]);
        } else {
            assert(col@.take(0) =~= Seq::<usize>::empty());
        }
    }
    let right: usize = if k > 0 && width >= 3 && k - 1 < width - 3 {
        k + 2
    } else {
        width
    };
    (left, right)
}

// ---------------------------------------------------------------------------
// Bands
// ---------------------------------------------------------------------------

/// The band found for the span `[y0, y1)`: `[x0, y0 - 1, x1, y1 + 1]`
/// clamped to the image, at least one pixel wide.
pub open spec fn band_of_span(
    rgb: Seq<u8>,
    width: int,
    height: int,
    threshold: u8,
    y0: int,
    y1: int,
) -> Seq<int> {
    let band_h = if y1 - y0 > 1 {
        y1 - y0
    } else {
        1
    };
    let col = Seq::new(width as nat, |x: int| col_ink(rgb, width, x, threshold, y0, y1) as usize);
    let (x0, x1) = spec_refine_x_bounds(col, band_h, width);
    seq![
        x0,
        if y0 >= 1 {
            y0 - 1
        } else {
            0
        },
        if x1 > x0 + 1 {
            x1
        } else {
            x0 + 1
        },
        if y1 + 1 < height {
            y1 + 1
        } else {
            height
        },
    ]
}

/// The text bands `[x0, y0, x1, y1]` of a page, top to bottom.
pub open spec fn spec_textline_bands(rgb: Seq<u8>, width: int, height: int, threshold: u8) -> Seq<
    Seq<int>,
> {
    let rows = Seq::new(
        height as nat,
        |y: int| row_ink(rgb, width, y, threshold, width) as usize,
    );
    let spans = spec_detect_spans(rows, width, height);
    Seq::new(
        spans.len(),
        |k: int| band_of_span(rgb, width, height, threshold, spans[k].0, spans[k].1),
    )
}

/// The bands as plain sequences of four coordinates.
pub open spec fn bands_view(bands: Seq<[usize; 4]>) -> Seq<Seq<int>> {
    Seq::new(
        bands.len(),
        |k: int| seq![bands[k][0] as int, bands[k][1] as int, bands[k][2] as int, bands[k][3] as int],
    )
}

/// Builds the band of one span from its column ink counts.
fn band_from_columns(col: &Vec<usize>, y0: usize, y1: usize, width: usize, height: usize) -> (res:
    [usize; 4])
    requires
        col@.len() == width,
        y0 < y1 <= height,
        width > 0,
        width * height * 3 <= usize::MAX,
    ensures
        seq![res[0] as int, res[1] as int, res[2] as int, res[3] as int] == ({
            let band_h = if y1 - y0 > 1 {
                y1 - y0
            } else {
                1
            };
            let (x0, x1) = spec_refine_x_bounds(col@, band_h, width as int);
            seq![
                x0,
                if y0 >= 1 {
                    y0 - 1
                } else {
                    0
                },
                if x1 > x0 + 1 {
                    x1
                } else {
                    x0 + 1
                },
                if y1 + 1 < height {
                    y1 + 1
                } else {
                    height as int
                },
            ]
        }),
{
    let band_h = if y1 - y0 > 1 {
        y1 - y0
    } else {
        1
    };
    let (x0, x1) = refine_x_bounds(col, band_h, width);
    proof {
        lemma_refine_bounds(col@, band_h as int, width as int);
        assert(height <= width * height) by (nonlinear_arith)
            requires
                width > 0,
                height >= 0,
        ;
        assert(width * 3 <= width * height * 3) by (nonlinear_arith)
            requires
                width > 0,
                height >= 1,
        ;
    }
    let band: [usize; 4] = [
        x0,
        y0.saturating_sub(1),
        if x1 > x0 + 1 {
            x1
        } else {
            x0 + 1
        },
        if y1 + 1 < height {
            y1 + 1
        } else {
            height
        },
    ];
    proof {
        assert(seq![band[0] as int, band[1] as int, band[2] as int, band[3] as int] =~= seq![
            x0 as int,
            if y0 >= 1 {
                y0 - 1
            } else {
                0
            },
            if x1 > x0 + 1 {
                x1 as int
            } else {
                x0 + 1
            },
            if y1 + 1 < height {
                y1 + 1
            } else {
                height as int
            },
        ]);
    }
    band
}

proof fn lemma_refine_bounds(col: Seq<usize>, band_h: int, width: int)
    requires
        col.len() <= width,
        width >= 0,
    ensures
        0 <= spec_refine_x_bounds(col, band_h, width).0 <= width,
        0 <= spec_refine_x_bounds(col, band_h, width).1 <= width,
        col.len() == width > 0 ==> spec_refine_x_bounds(col, band_h, width).0 < width,
{
    let m = seq_max(col);
    if m != 0 {
        let t = column_threshold(m, band_h);
        lemma_first_at_least(col, t, 0);
        lemma_last_at_least(col, t);
    }
}

proof fn lemma_last_at_least(col: Seq<usize>, t: int)
    ensures
        last_at_least(col, t) matches Some(x) ==> 0 <= x < col.len(),
    decreases col.len(),
{
    if col.len() > 0 && col.last() < t {
        lemma_last_at_least(col.drop_last(), t);
    }
}

/// Every band lies inside the image and is at least one pixel wide and
/// tall: `0 <= x0 < x1 <= width` and `0 <= y0 < y1 <= height`.
/// The bands go from the top of the page down and do not touch: each ends
/// above the row where the next begins. A page without ink has no band.
pub proof fn lemma_bands_top_down(rgb: Seq<u8>, width: int, height: int, threshold: u8)
    requires
        width >= 0,
        height >= 0,
    ensures
        forall|k: int|
            0 < k < spec_textline_bands(rgb, width, height, threshold).len() ==> spec_textline_bands(
                rgb,
                width,
                height,
                threshold,
            )[k - 1][3] < (#[trigger] spec_textline_bands(rgb, width, height, threshold)[k])[1],
        (forall|x: int, y: int| 0 <= x < width && 0 <= y < height ==> !#[trigger] is_ink(rgb, width, x, y, threshold))
            ==> spec_textline_bands(rgb, width, height, threshold).len() == 0,
{
    let rows = Seq::new(
        height as nat,
        |y: int| row_ink(rgb, width, y, threshold, width) as usize,
    );
    let thr = row_threshold(width);
    let n = rows.len() as int;
    lemma_span_scan_order(rows, thr, n);
    lemma_span_scan_shape(rows, thr, n);
    let (ss, st, g) = span_scan(rows, thr, n);
    let spans = spec_detect_spans(rows, width, height);
    assert forall|k: int| 0 < k < spans.len() implies spans[k - 1].1 + 3 <= #[trigger] spans[k].0 by {
        if k < ss.len() {
            assert(spans[k - 1] == ss[k - 1] && spans[k] == ss[k]);
        } else {
            assert(spans[k - 1] == ss.last());
        }
    }
    let bands = spec_textline_bands(rgb, width, height, threshold);
    assert forall|k: int| 0 < k < bands.len() implies bands[k - 1][3] < (#[trigger] bands[k])[1] by {
        assert(spans[k - 1].1 + 3 <= spans[k].0);
        assert(bands[k] == band_of_span(rgb, width, height, threshold, spans[k].0, spans[k].1));
        assert(bands[k - 1] == band_of_span(rgb, width, height, threshold, spans[k - 1].0, spans[k - 1].1));
    }
    if forall|x: int, y: int| 0 <= x < width && 0 <= y < height ==> !#[trigger] is_ink(rgb, width, x, y, threshold) {
        assert forall|y: int| 0 <= y < rows.len() implies #[trigger] rows[y] == 0 by {
            assert forall|x: int| 0 <= x < width implies !#[trigger] is_ink(rgb, width, x, y, threshold) by {}
            lemma_row_ink_zero(rgb, width, y, threshold, width);
        }
        lemma_span_scan_empty_without_ink(rows, thr, n);
    }
}

pub proof fn lemma_bands_inside_image(rgb: Seq<u8>, width: int, height: int, threshold: u8)
    requires
        width >= 0,
        height >= 0,
    ensures
        forall|k: int|
            0 <= k < spec_textline_bands(rgb, width, height, threshold).len() ==> {
                let b = #[trigger] spec_textline_bands(rgb, width, height, threshold)[k];
                &&& 0 <= b[0] < b[2] <= width
                &&& 0 <= b[1] < b[3] <= height
            },
{
    let rows = Seq::new(
        height as nat,
        |y: int| row_ink(rgb, width, y, threshold, width) as usize,
    );
    let spans = spec_detect_spans(rows, width, height);
    lemma_spans_inside(rows, width, height);
    if width == 0 {
        assert forall|y: int| 0 <= y < rows.len() implies #[trigger] rows[y] == 0 by {}
        lemma_no_spans_without_width(rows, height);
    }
    assert forall|k: int| 0 <= k < spans.len() implies {
        let b = band_of_span(rgb, width, height, threshold, (#[trigger] spans[k]).0, spans[k].1);
        &&& 0 <= b[0] < b[2] <= width
        &&& 0 <= b[1] < b[3] <= height
    } by {
        let (y0, y1) = spans[k];
        let band_h = if y1 - y0 > 1 {
            y1 - y0
        } else {
            1
        };
        let col = Seq::new(
            width as nat,
            |x: int| col_ink(rgb, width, x, threshold, y0, y1) as usize,
        );
        lemma_refine_bounds(col, band_h, width);
    }
}

proof fn lemma_first_at_least(col: Seq<usize>, t: int, i: int)
    requires
        0 <= i,
    ensures
        first_at_least(col, t, i) matches Some(x) ==> i <= x < col.len(),
    decreases col.len() - i,
{
    if i < col.len() && col[i] < t {
        lemma_first_at_least(col, t, i + 1);
    }
}

/// Detects horizontal text bands by thresholding the mean of the RGB
/// channels (see [`spec_textline_bands`]).
pub fn detect_textline_bands_naive(rgb: &[u8], width: usize, height: usize, threshold: u8) -> (res:
    Vec<[usize; 4]>)
    requires
        width * height * 3 <= rgb@.len(),
    ensures
        bands_view(res@) == spec_textline_bands(rgb@, width as int, height as int, threshold),
{
    let rows = row_ink_counts(rgb, width, height, threshold);
    let spans = detect_spans(&rows, width, height);
    let ghost rows_spec = Seq::new(
        height as nat,
        |y: int| row_ink(rgb@, width as int, y, threshold, width as int) as usize,
    );
    proof {
        assert(rows@ =~= rows_spec);
        lemma_spans_inside(rows@, width as int, height as int);
    }
    let ghost spans_spec = spec_detect_spans(rows_spec, width as int, height as int);
    proof {
        if width == 0 {
            assert forall|y: int| 0 <= y < rows_spec.len() implies #[trigger] rows_spec[y] == 0 by {}
            lemma_no_spans_without_width(rows_spec, height as int);
        }
    }
    let mut out: Vec<[usize; 4]> = Vec::new();
    let mut k: usize = 0;
    while k < spans.len()
        invariant
            k <= spans@.len(),
            width * height * 3 <= rgb@.len(),
            spans@.len() == spans_spec.len(),
            forall|j: int|
                0 <= j < spans@.len() ==> (#[trigger] spans@[j]).0 as int == spans_spec[j].0
                    && spans@[j].1 as int == spans_spec[j].1,
            forall|j: int|
                0 <= j < spans_spec.len() ==> 0 <= (#[trigger] spans_spec[j]).0 < spans_spec[j].1
                    <= height,
            spans_spec.len() > 0 ==> width > 0,
            out@.len() == k,
            forall|j: int|
                0 <= j < k ==> seq![
                    (#[trigger] out@[j])[0] as int,
                    out@[j][1] as int,
                    out@[j][2] as int,
                    out@[j][3] as int,
                ] == band_of_span(
                    rgb@,
                    width as int,
                    height as int,
                    threshold,
                    spans_spec[j].0,
                    spans_spec[j].1,
                ),
        decreases spans.len() - k,
    {
        let (y0, y1) = spans[k];
        proof {
            assert(spans_spec[k as int].0 == y0 && spans_spec[k as int].1 == y1);
        }
        proof {
            assert(rgb@.len() == rgb.len());
            assert(width * height * 3 <= usize::MAX);
        }
        let mut col: Vec<usize> = Vec::new();
        let mut x: usize = 0;
        while x < width
            invariant
                x <= width,
                y0 < y1 <= height,
                width * height * 3 <= rgb@.len(),
                col@.len() == x,
                forall|c: int|
                    0 <= c < x ==> #[trigger] col@[c] == col_ink(
                        rgb@,
                        width as int,
                        c,
                        threshold,
                        y0 as int,
                        y1 as int,
                    ),
            decreases width - x,
        {
            let mut count: usize = 0;
            let mut y = y0;
            while y < y1
                invariant
                    y0 <= y <= y1 <= height,
                    x < width,
                    width * height * 3 <= rgb@.len(),
                    count == col_ink(rgb@, width as int, x as int, threshold, y0 as int, y as int),
                decreases y1 - y,
            {
                proof {
                    lemma_col_ink_bound(rgb@, width as int, x as int, threshold, y0 as int, y as int);
                }
                if pixel_is_ink(rgb, width, height, x, y, threshold) {
                    count = count + 1;
                }
                y = y + 1;
            }
            col.push(count);
            x = x + 1;
        }
        proof {
            assert(col@ =~= Seq::new(
                width as nat,
                |c: int| col_ink(rgb@, width as int, c, threshold, y0 as int, y1 as int) as usize,
            ));
        }
        let band = band_from_columns(&col, y0, y1, width, height);
        out.push(band);
        k = k + 1;
    }
    proof {
        assert(bands_view(out@) =~= spec_textline_bands(
            rgb@,
            width as int,
            height as int,
            threshold,
        ));
    }
    out
}

/// Pixel number `p` of the image, counted row by row, is ink.
pub open spec fn ink_at(rgb: Seq<u8>, w: int, p: int, threshold: u8) -> bool {
    is_ink(rgb, w, p % w, p / w, threshold)
}

proof fn lemma_position(x: int, y: int, w: int)
    requires
        0 <= x < w,
    ensures
        (y * w + x) % w == x,
        (y * w + x) / w == y,
{
    vstd::arithmetic::div_mod::lemma_fundamental_div_mod_converse(y * w + x, w, y, x);
}

/// The ink mask of the image, row by row, and the ink count of every row.
fn ink_mask_and_rows(rgb: &[u8], width: usize, height: usize, threshold: u8) -> (res: (
    Vec<bool>,
    Vec<usize>,
))
    requires
        width * height * 3 <= rgb@.len(),
    ensures
        res.0@.len() == width * height,
        forall|p: int|
            0 <= p < width * height ==> #[trigger] res.0@[p] == ink_at(
                rgb@,
                width as int,
                p,
                threshold,
            ),
        res.1@.len() == height,
        forall|y: int|
            0 <= y < height ==> #[trigger] res.1@[y] == row_ink(
                rgb@,
                width as int,
                y,
                threshold,
                width as int,
            ),
{
    let mut mask: Vec<bool> = Vec::new();
    let mut rows: Vec<usize> = Vec::new();
    let mut y: usize = 0;
    while y < height
        invariant
            y <= height,
            width * height * 3 <= rgb@.len(),
            mask@.len() == y * width,
            forall|p: int|
                0 <= p < mask@.len() ==> #[trigger] mask@[p] == ink_at(
                    rgb@,
                    width as int,
                    p,
                    threshold,
                ),
            rows@.len() == y,
            forall|j: int|
                0 <= j < y ==> #[trigger] rows@[j] == row_ink(
                    rgb@,
                    width as int,
                    j,
                    threshold,
                    width as int,
                ),
        decreases height - y,
    {
        let mut count: usize = 0;
        let mut x: usize = 0;
        while x < width
            invariant
                x <= width,
                y < height,
                width * height * 3 <= rgb@.len(),
                mask@.len() == y * width + x,
                forall|p: int|
                    0 <= p < mask@.len() ==> #[trigger] mask@[p] == ink_at(
                        rgb@,
                        width as int,
                        p,
                        threshold,
                    ),
                count == row_ink(rgb@, width as int, y as int, threshold, x as int),
            decreases width - x,
        {
            proof {
                lemma_row_ink_bound(rgb@, width as int, y as int, threshold, x as int);
                lemma_position(x as int, y as int, width as int);
            }
            let dark = pixel_is_ink(rgb, width, height, x, y, threshold);
            mask.push(dark);
            if dark {
                count = count + 1;
            }
            x = x + 1;
        }
        proof {
            assert(y * width + width == (y + 1) * width) by (nonlinear_arith);
        }
        rows.push(count);
        y = y + 1;
    }
    proof {
        assert(height * width == width * height) by (nonlinear_arith);
    }
    (mask, rows)
}

/// The same bands as [`detect_textline_bands_naive`], computed from an ink
/// mask made in one pass over the image, so that each pixel is classified
/// once.
pub fn detect_textline_bands_fast(rgb: &[u8], width: usize, height: usize, threshold: u8) -> (res:
    Vec<[usize; 4]>)
    requires
        width * height * 3 <= rgb@.len(),
    ensures
        bands_view(res@) == spec_textline_bands(rgb@, width as int, height as int, threshold),
{
    let (mask, rows) = ink_mask_and_rows(rgb, width, height, threshold);
    let spans = detect_spans(&rows, width, height);
    let ghost rows_spec = Seq::new(
        height as nat,
        |y: int| row_ink(rgb@, width as int, y, threshold, width as int) as usize,
    );
    proof {
        assert(rows@ =~= rows_spec);
        lemma_spans_inside(rows@, width as int, height as int);
    }
    let ghost spans_spec = spec_detect_spans(rows_spec, width as int, height as int);
    proof {
        if width == 0 {
            assert forall|y: int| 0 <= y < rows_spec.len() implies #[trigger] rows_spec[y] == 0 by {}
            lemma_no_spans_without_width(rows_spec, height as int);
        }
    }
    let mut out: Vec<[usize; 4]> = Vec::new();
    let mut k: usize = 0;
    while k < spans.len()
        invariant
            k <= spans@.len(),
            width * height * 3 <= rgb@.len(),
            mask@.len() == width * height,
            forall|p: int|
                0 <= p < width * height ==> #[trigger] mask@[p] == ink_at(
                    rgb@,
                    width as int,
                    p,
                    threshold,
                ),
            spans@.len() == spans_spec.len(),
            forall|j: int|
                0 <= j < spans@.len() ==> (#[trigger] spans@[j]).0 as int == spans_spec[j].0
                    && spans@[j].1 as int == spans_spec[j].1,
            forall|j: int|
                0 <= j < spans_spec.len() ==> 0 <= (#[trigger] spans_spec[j]).0 < spans_spec[j].1
                    <= height,
            spans_spec.len() > 0 ==> width > 0,
            out@.len() == k,
            forall|j: int|
                0 <= j < k ==> seq![
                    (#[trigger] out@[j])[0] as int,
                    out@[j][1] as int,
                    out@[j][2] as int,
                    out@[j][3] as int,
                ] == band_of_span(
                    rgb@,
                    width as int,
                    height as int,
                    threshold,
                    spans_spec[j].0,
                    spans_spec[j].1,
                ),
        decreases spans.len() - k,
    {
        let (y0, y1) = spans[k];
        proof {
            assert(spans_spec[k as int].0 == y0 && spans_spec[k as int].1 == y1);
            assert(rgb@.len() == rgb.len());
        }
        let mut col: Vec<usize> = Vec::new();
        let mut x: usize = 0;
        while x < width
            invariant
                x <= width,
                y0 < y1 <= height,
                width * height * 3 <= rgb@.len(),
                width * height * 3 <= usize::MAX,
                mask@.len() == width * height,
                forall|p: int|
                    0 <= p < width * height ==> #[trigger] mask@[p] == ink_at(
                        rgb@,
                        width as int,
                        p,
                        threshold,
                    ),
                col@.len() == x,
                forall|c: int|
                    0 <= c < x ==> #[trigger] col@[c] == col_ink(
                        rgb@,
                        width as int,
                        c,
                        threshold,
                        y0 as int,
                        y1 as int,
                    ),
            decreases width - x,
        {
            let mut count: usize = 0;
            let mut y = y0;
            while y < y1
                invariant
                    y0 <= y <= y1 <= height,
                    x < width,
                    width * height * 3 <= usize::MAX,
                    mask@.len() == width * height,
                    forall|p: int|
                        0 <= p < width * height ==> #[trigger] mask@[p] == ink_at(
                            rgb@,
                            width as int,
                            p,
                            threshold,
                        ),
                    count == col_ink(rgb@, width as int, x as int, threshold, y0 as int, y as int),
                decreases y1 - y,
            {
                proof {
                    lemma_col_ink_bound(rgb@, width as int, x as int, threshold, y0 as int, y as int);
                    lemma_index_in_image(x as int, y as int, width as int, height as int);
                    lemma_position(x as int, y as int, width as int);
                    assert(height * width == width * height) by (nonlinear_arith);
                    assert(0 <= y * width <= y * width + x);
                    assert(mask@[y * width + x] == ink_at(
                        rgb@,
                        width as int,
                        y * width + x,
                        threshold,
                    ));
                }
                if mask[y * width + x] {
                    count = count + 1;
                }
                y = y + 1;
            }
            col.push(count);
            x = x + 1;
        }
        proof {
            assert(col@ =~= Seq::new(
                width as nat,
                |c: int| col_ink(rgb@, width as int, c, threshold, y0 as int, y1 as int) as usize,
            ));
        }
        let band = band_from_columns(&col, y0, y1, width, height);
        out.push(band);
        k = k + 1;
    }
    proof {
        assert(bands_view(out@) =~= spec_textline_bands(
            rgb@,
            width as int,
            height as int,
            threshold,
        ));
    }
    out
}

proof fn lemma_spans_inside(rows: Seq<usize>, width: int, height: int)
    requires
        rows.len() == height,
    ensures
        forall|j: int|
            0 <= j < spec_detect_spans(rows, width, height).len() ==> 0 <= (
            #[trigger] spec_detect_spans(rows, width, height)[j]).0 < spec_detect_spans(
                rows,
                width,
                height,
            )[j].1 <= height,
{
    lemma_span_scan_shape(rows, row_threshold(width), rows.len() as int);
}

/// Without columns no row has ink, so no span is found.
proof fn lemma_no_spans_without_width(rows: Seq<usize>, height: int)
    requires
        rows.len() == height,
        forall|y: int| 0 <= y < rows.len() ==> #[trigger] rows[y] == 0,
    ensures
        spec_detect_spans(rows, 0, height).len() == 0,
{
    lemma_scan_without_ink(rows, row_threshold(0), rows.len() as int);
}

proof fn lemma_scan_without_ink(rows: Seq<usize>, thr: int, n: int)
    requires
        thr >= 1,
        0 <= n <= rows.len(),
        forall|y: int| 0 <= y < rows.len() ==> #[trigger] rows[y] == 0,
    ensures
        span_scan(rows, thr, n) == (Seq::<(int, int)>::empty(), Option::<int>::None, 0int),
    decreases n,
{
    if n > 0 {
        lemma_scan_without_ink(rows, thr, n - 1);
        assert(rows[n - 1] == 0);
    }
}


/// Rows `y0..y1` (at least one) each have at least `thr` ink pixels.
pub open spec fn inked_run(rows: Seq<usize>, thr: int, y0: int, y1: int) -> bool {
    &&& 0 <= y0 < y1 <= rows.len()
    &&& forall|y: int| y0 <= y < y1 ==> #[trigger] rows[y] >= thr
}

/// Some span `[s, e)` of `spans` holds the rows `y0..y1`.
pub open spec fn covered_by(spans: Seq<(int, int)>, y0: int, y1: int) -> bool {
    exists|k: int| 0 <= k < spans.len() && (#[trigger] spans[k]).0 <= y0 && y1 <= spans[k].1
}

proof fn lemma_covered_by_push(spans: Seq<(int, int)>, p: (int, int), y0: int, y1: int)
    requires
        covered_by(spans, y0, y1),
    ensures
        covered_by(spans.push(p), y0, y1),
{
    let k = choose|k: int| 0 <= k < spans.len() && (#[trigger] spans[k]).0 <= y0 && y1 <= spans[k].1;
    assert(spans.push(p)[k] == spans[k]);
}

proof fn lemma_scan_covers_runs(rows: Seq<usize>, thr: int, n: int)
    requires
        0 <= n <= rows.len(),
    ensures
        ({
            let (spans, start, gap) = span_scan(rows, thr, n);
            &&& (start is Some ==> forall|j: int| n - gap <= j < n ==> #[trigger] rows[j] < thr)
            &&& (n > 0 && rows[n - 1] >= thr ==> start is Some)
            &&& (start matches Some(s) ==> s == 0 || rows[s - 1] < thr)
            &&& forall|y0: int, y1: int|
                #[trigger] inked_run(rows, thr, y0, y1) && y1 <= n ==> (start matches Some(s) && s <= y0)
                    || (y1 - y0 > 6 ==> covered_by(spans, y0, y1))
        }),
    decreases n,
{
    if n > 0 {
        let m = n - 1;
        lemma_scan_covers_runs(rows, thr, m);
        lemma_span_scan_shape(rows, thr, m);
        let (spans, start, gap) = span_scan(rows, thr, m);
        let (spans2, start2, gap2) = span_scan(rows, thr, n);
        assert((spans2, start2, gap2) == span_step((spans, start, gap), m, rows[m] as int, thr));
        if rows[m] >= thr {
            assert(spans2 == spans);
            assert forall|y0: int, y1: int| #[trigger] inked_run(rows, thr, y0, y1) && y1 <= n implies (
            start2 matches Some(s) && s <= y0) || (y1 - y0 > 6 ==> covered_by(spans2, y0, y1)) by {
                if y1 <= m {
                    assert(inked_run(rows, thr, y0, y1) && y1 <= m);
                } else if y0 < m {
                    assert(rows[m - 1] >= thr);
                    let s = start->0;
                    if s > y0 {
                        assert(rows[s - 1] >= thr);
                    }
                }
            }
        } else {
            assert forall|y0: int, y1: int| #[trigger] inked_run(rows, thr, y0, y1) && y1 <= n implies (
            start2 matches Some(s) && s <= y0) || (y1 - y0 > 6 ==> covered_by(spans2, y0, y1)) by {
                if y1 == n {
                    assert(rows[m] >= thr);
                }
                assert(inked_run(rows, thr, y0, y1) && y1 <= m);
                if start is Some && gap + 1 > 2 {
                    let s = start->0;
                    let e = m - 2;
                    assert(rows[m - 2] < thr);
                    assert(rows[m - 1] < thr);
                    if s <= y0 && y1 - y0 > 6 {
                        if y1 > m - 2 {
                            assert(rows[m - 2] >= thr);
                        }
                        assert(spans2 == spans.push((s, e)));
                        assert(spans2[spans.len() as int] == (s, e));
                    }
                    if covered_by(spans, y0, y1) && y1 - y0 > 6 {
                        lemma_covered_by_push(spans, (s, e), y0, y1);
                    }
                }
            }
        }
    }
}

/// Every run of more than six consecutive rows that each hold at least the
/// row threshold of ink lies within one of the spans, also a run that
/// reaches the last row.
pub proof fn lemma_spans_cover_ink_runs(rows: Seq<usize>, width: int, height: int)
    requires
        rows.len() <= height,
    ensures
        forall|y0: int, y1: int|
            #[trigger] inked_run(rows, row_threshold(width), y0, y1) && y1 - y0 > 6 ==> covered_by(
                spec_detect_spans(rows, width, height),
                y0,
                y1,
            ),
{
    let thr = row_threshold(width);
    let n = rows.len() as int;
    lemma_scan_covers_runs(rows, thr, n);
    let (spans, start, gap) = span_scan(rows, thr, n);
    let res = spec_detect_spans(rows, width, height);
    assert forall|y0: int, y1: int| #[trigger] inked_run(rows, thr, y0, y1) && y1 - y0 > 6 implies covered_by(
        res,
        y0,
        y1,
    ) by {
        assert(inked_run(rows, thr, y0, y1) && y1 <= n);
        match start {
            Some(s) => {
                if s <= y0 {
                    assert(res == spans.push((s, height)));
                    assert(res[spans.len() as int] == (s, height));
                } else if height > s + 6 {
                    lemma_covered_by_push(spans, (s, height), y0, y1);
                }
            },
            None => {},
        }
    }
}

/// Each of the rows `y0..y1` of the page has at least the row threshold of
/// ink pixels.
pub open spec fn rows_hold_ink(rgb: Seq<u8>, width: int, threshold: u8, y0: int, y1: int) -> bool {
    forall|y: int| y0 <= y < y1 ==> #[trigger] row_ink(rgb, width, y, threshold, width) >= row_threshold(width)
}

/// Every run of more than six consecutive rows of the page that each hold
/// at least the row threshold of ink pixels lies within the rows of some
/// band, also a run that reaches the bottom of the page.
pub proof fn lemma_bands_cover_ink_runs(rgb: Seq<u8>, width: int, height: int, threshold: u8)
    requires
        0 <= width <= usize::MAX,
        height >= 0,
    ensures
        forall|y0: int, y1: int|
            0 <= y0 && y1 <= height && y1 - y0 > 6 && #[trigger] rows_hold_ink(rgb, width, threshold, y0, y1)
                ==> exists|k: int|
                0 <= k < spec_textline_bands(rgb, width, height, threshold).len() && (
                #[trigger] spec_textline_bands(rgb, width, height, threshold)[k])[1] <= y0 && y1
                    <= spec_textline_bands(rgb, width, height, threshold)[k][3],
{
    let rows = Seq::new(
        height as nat,
        |y: int| row_ink(rgb, width, y, threshold, width) as usize,
    );
    let thr = row_threshold(width);
    let spans = spec_detect_spans(rows, width, height);
    let bands = spec_textline_bands(rgb, width, height, threshold);
    lemma_spans_cover_ink_runs(rows, width, height);
    lemma_span_scan_shape(rows, thr, rows.len() as int);
    assert forall|y0: int, y1: int|
        0 <= y0 && y1 <= height && y1 - y0 > 6 && #[trigger] rows_hold_ink(rgb, width, threshold, y0, y1) implies exists|k: int|
        0 <= k < bands.len() && (#[trigger] bands[k])[1] <= y0 && y1 <= bands[k][3] by {
        assert forall|y: int| y0 <= y < y1 implies #[trigger] rows[y] >= thr by {
            lemma_row_ink_bound(rgb, width, y, threshold, width);
            assert(row_ink(rgb, width, y, threshold, width) >= thr);
        }
        assert(inked_run(rows, thr, y0, y1));
        let k = choose|k: int| 0 <= k < spans.len() && (#[trigger] spans[k]).0 <= y0 && y1 <= spans[k].1;
        assert(bands[k] == band_of_span(rgb, width, height, threshold, spans[k].0, spans[k].1));
        let (ss, st, g) = span_scan(rows, thr, rows.len() as int);
        if k < ss.len() {
            assert(spans[k] == ss[k]);
        }
    }
}

} // verus!

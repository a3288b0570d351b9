//! Decisions of the page recognition command that involve no model: line
//! counts and boxes of mock pages, the boxes cropped for each detected line,
//! when a long line is recognised in two halves, the character statistics
//! behind the quality score of a recognised line, and the final lines of a
//! page.
use vstd::prelude::*;

use crate::chars::{is_ascii_digit, is_whitespace, spec_is_ascii_digit, spec_is_whitespace, str_to_chars, trim, trim_chars};
use crate::infer::parseq::{char_is_alphanumeric, is_alphanumeric};
use crate::cascade::{estimate_pred_char_bucket, spec_bucket, spec_line_char_count, PredCharBucket};
use crate::pipeline::connect::{line_detections, select_line_detections, LineDetection};
use crate::pipeline::crop::{expand_bbox_xyxy_clamped, spec_expand_bbox, BBox};
use crate::pipeline::line_segment::{bands_view, detect_textline_bands_naive, spec_textline_bands};
use crate::postprocess::page_rules::{apply_structural_rules, structural_rules};
use crate::postprocess::rule_pack::{apply_rule_pack, MergeRuleView, RulePack};

verus! {

broadcast use vstd::seq_lib::group_seq_properties;

// ---------------------------------------------------------------------------
// Mock pages
// ---------------------------------------------------------------------------

/// `a` clamped from below by `lo`.
pub open spec fn at_least(a: int, lo: int) -> int {
    if a < lo {
        lo
    } else {
        a
    }
}

/// `a` clamped from above by `hi`.
pub open spec fn at_most(a: int, hi: int) -> int {
    if a > hi {
        hi
    } else {
        a
    }
}

/// The number of lines of a mock page: at least one, and no more than the
/// image has rows (at least one).
pub open spec fn spec_line_count(requested: int, image_height: int) -> int {
    at_most(at_least(requested, 1), at_least(image_height, 1))
}

/// The number of lines of a mock page (see [`spec_line_count`]).
pub fn normalize_line_count(requested_count: usize, image_height: usize) -> (r: usize)
    ensures
        r == spec_line_count(requested_count as int, image_height as int),
{
    let req = if requested_count < 1 {
        1
    } else {
        requested_count
    };
    let h = if image_height < 1 {
        1
    } else {
        image_height
    };
    if req > h {
        h
    } else {
        req
    }
}

/// The horizontal extent of the lines of a mock page: a margin of a
/// fiftieth of the width (at least one pixel) on each side when the image
/// is wide enough, else the whole width (at least one).
pub open spec fn mock_columns(width: int) -> (int, int) {
    let mx = at_least(width / 50, 1);
    if width > 2 * mx {
        (mx, width - mx)
    } else {
        (0, at_least(width, 1))
    }
}

/// The first row of the band the lines of a mock page share.
pub open spec fn mock_top(height: int) -> int {
    at_most(at_least(height / 50, 1), at_least(height - 1, 0))
}

/// The height of that band, at least one.
pub open spec fn mock_band(height: int) -> int {
    let my = at_least(height / 50, 1);
    let top = mock_top(height);
    let bottom = at_least(at_least(height - my, 0), top + 1);
    at_least(bottom - top, 1)
}

/// The number of lines of the mock page: as requested (at least one), and
/// no more than the band has rows.
pub open spec fn mock_count(height: int, requested: int) -> int {
    at_most(at_least(requested, 1), mock_band(height))
}

/// Line `i` of a mock page: the band cut in `count` equal slices, each at
/// least one row tall where the image allows it.
pub open spec fn mock_box(width: int, height: int, requested: int, i: int) -> Seq<int> {
    let (x0, x1) = mock_columns(width);
    let top = mock_top(height);
    let band = mock_band(height);
    let count = mock_count(height, requested);
    let y0 = top + i * band / count;
    let y1 = top + (i + 1) * band / count;
    let y1 = if y1 <= y0 {
        at_most(y0 + 1, at_least(height, 1))
    } else {
        y1
    };
    seq![x0, y0, x1, y1]
}

/// The boxes `[x0, y0, x1, y1]` of the lines of a mock page (see
/// [`mock_box`]).
pub fn mock_line_boxes(width: usize, height: usize, requested_count: usize) -> (res: Vec<[usize; 4]>)
    requires
        mock_count(height as int, requested_count as int) * mock_band(height as int) <= usize::MAX,
    ensures
        res@.len() == mock_count(height as int, requested_count as int),
        forall|i: int|
            0 <= i < res@.len() ==> seq![
                (#[trigger] res@[i])[0] as int,
                res@[i][1] as int,
                res@[i][2] as int,
                res@[i][3] as int,
            ] == mock_box(width as int, height as int, requested_count as int, i),
{
    let mx = if width / 50 < 1 {
        1
    } else {
        width / 50
    };
    let my = if height / 50 < 1 {
        1
    } else {
        height / 50
    };
    let (x0, x1) = if width > 2 * mx {
        (mx, width - mx)
    } else {
        (0, if width < 1 {
            1
        } else {
            width
        })
    };
    let hm1 = if height >= 1 {
        height - 1
    } else {
        0
    };
    let top = if my > hm1 {
        hm1
    } else {
        my
    };
    let hmy = if height >= my {
        height - my
    } else {
        0
    };
    let bottom = if hmy < top + 1 {
        top + 1
    } else {
        hmy
    };
    let band = if bottom - top < 1 {
        1
    } else {
        bottom - top
    };
    let req = if requested_count < 1 {
        1
    } else {
        requested_count
    };
    let count = if req > band {
        band
    } else {
        req
    };
    let h1 = if height < 1 {
        1
    } else {
        height
    };
    assert(top == mock_top(height as int));
    assert(band == mock_band(height as int));
    assert(count == mock_count(height as int, requested_count as int));
    let mut out: Vec<[usize; 4]> = Vec::new();
    let mut i: usize = 0;
    while i < count
        invariant
            i <= count,
            count == mock_count(height as int, requested_count as int),
            band == mock_band(height as int),
            top == mock_top(height as int),
            (x0 as int, x1 as int) == mock_columns(width as int),
            h1 == at_least(height as int, 1),
            1 <= count <= band,
            top < height || height == 0,
            count * band <= usize::MAX,
            out@.len() == i,
            forall|k: int|
                0 <= k < i ==> seq![
                    (#[trigger] out@[k])[0] as int,
                    out@[k][1] as int,
                    out@[k][2] as int,
                    out@[k][3] as int,
                ] == mock_box(width as int, height as int, requested_count as int, k),
        decreases count - i,
    {
        proof {
            assert((i + 1) * band <= count * band) by (nonlinear_arith)
                requires
                    i + 1 <= count,
                    band >= 1,
            ;
            assert(i * band <= (i + 1) * band) by (nonlinear_arith)
                requires
                    band >= 1,
            ;
            let a: int = (i + 1) * band;
            let b: int = i * band;
            let cb: int = count * band;
            assert(a / (count as int) <= band) by {
                vstd::arithmetic::div_mod::lemma_div_is_ordered(a, cb, count as int);
                vstd::arithmetic::div_mod::lemma_div_by_multiple(band as int, count as int);
                assert(cb == band * count) by (nonlinear_arith)
                    requires
                        cb == count * band,
                ;
            }
            assert(b / (count as int) <= a / (count as int)) by {
                vstd::arithmetic::div_mod::lemma_div_is_ordered(b, a, count as int);
            }
            assert(top + band <= usize::MAX);
        }
        let y0 = top + i * band / count;
        let mut y1 = top + (i + 1) * band / count;
        if y1 <= y0 {
            y1 = if y0 + 1 > h1 {
                h1
            } else {
                y0 + 1
            };
        }
        let b: [usize; 4] = [x0, y0, x1, y1];
        proof {
            assert(seq![b[0] as int, b[1] as int, b[2] as int, b[3] as int] =~= mock_box(
                width as int,
                height as int,
                requested_count as int,
                i as int,
            ));
        }
        out.push(b);
        i = i + 1;
    }
    out
}

/// Why the options of a mock page were refused.
#[derive(Clone, Copy, Debug, PartialEq, Eq, Structural)]
pub enum MockConfigError {
    /// The line text is empty or blank.
    EmptyLineText,
    /// An output stem is given and it is empty or blank.
    EmptyOutputStem,
}

impl MockConfigError {
    /// The message of the error.
    pub fn message(&self) -> (res: &'static str)
        ensures
            *self == MockConfigError::EmptyLineText ==> res@ == "line_text must not be empty"@,
            *self == MockConfigError::EmptyOutputStem ==> res@ == "output_stem must not be empty"@,
    {
        match self {
            MockConfigError::EmptyLineText => "line_text must not be empty",
            MockConfigError::EmptyOutputStem => "output_stem must not be empty",
        }
    }
}

/// Checks the text and output stem of a mock page: neither may be blank.
pub fn validate_mock_text(line_text: &str, output_stem: Option<&str>) -> (res: Result<(), MockConfigError>)
    ensures
        trim(line_text@).len() == 0 ==> res == Err::<(), MockConfigError>(MockConfigError::EmptyLineText),
        trim(line_text@).len() > 0 && (output_stem matches Some(s) && trim(s@).len() == 0) ==> res
            == Err::<(), MockConfigError>(MockConfigError::EmptyOutputStem),
        trim(line_text@).len() > 0 && !(output_stem matches Some(s) && trim(s@).len() == 0) ==> res
            is Ok,
{
    if trim_chars(&str_to_chars(line_text)).len() == 0 {
        return Err(MockConfigError::EmptyLineText);
    }
    match output_stem {
        Some(s) => {
            if trim_chars(&str_to_chars(s)).len() == 0 {
                return Err(MockConfigError::EmptyOutputStem);
            }
        },
        None => {},
    }
    Ok(())
}

// ---------------------------------------------------------------------------
// Boxes of detected lines
// ---------------------------------------------------------------------------

/// The crop box of a detected line `[x0, y0, x1, y1]`: negative coordinates
/// become 0; a box that is empty or reaches outside the image is skipped;
/// otherwise it is grown by `pad` (see [`spec_expand_bbox`]).
pub open spec fn spec_line_crop_box(b: [i32; 4], pad: usize, width: usize, height: usize) -> Option<
    (int, int, int, int),
> {
    let x0 = at_least(b[0] as int, 0);
    let y0 = at_least(b[1] as int, 0);
    let x1 = at_least(b[2] as int, 0);
    let y1 = at_least(b[3] as int, 0);
    if x0 >= x1 || y0 >= y1 || x1 > width || y1 > height {
        None
    } else {
        Some(
            spec_expand_bbox(x0 as usize, y0 as usize, x1 as usize, y1 as usize, pad, width, height),
        )
    }
}

fn non_negative(v: i32) -> (r: usize)
    ensures
        r == at_least(v as int, 0),
{
    if v < 0 {
        0
    } else {
        v as usize
    }
}

/// The crop box of a detected line (see [`spec_line_crop_box`]).
pub fn line_crop_box(b: [i32; 4], pad: usize, width: usize, height: usize) -> (res: Option<BBox>)
    ensures
        match (res, spec_line_crop_box(b, pad, width, height)) {
            (Some(r), Some(s)) => (r.xmin as int, r.ymin as int, r.xmax as int, r.ymax as int) == s,
            (None, None) => true,
            _ => false,
        },
{
    let x0 = non_negative(b[0]);
    let y0 = non_negative(b[1]);
    let x1 = non_negative(b[2]);
    let y1 = non_negative(b[3]);
    if x0 >= x1 || y0 >= y1 || x1 > width || y1 > height {
        return None;
    }
    let (a, c, d, e) = expand_bbox_xyxy_clamped(x0, y0, x1, y1, pad, width, height);
    Some(BBox::new(a, c, d, e))
}

// ---------------------------------------------------------------------------
// Long lines
// ---------------------------------------------------------------------------

/// Whether a line recognised with `char_count` characters is read again as
/// two halves: splitting is on, the count reaches the threshold, the crop is
/// at least four times as wide as tall, and the width has two non-empty
/// halves.
pub open spec fn splits_long_line(
    split_long_lines: bool,
    char_count: int,
    threshold: int,
    width: int,
    height: int,
) -> bool {
    &&& split_long_lines
    &&& char_count >= threshold
    &&& width >= at_most(height * 4, usize::MAX as int)
    &&& 0 < width / 2 < width
}

/// The left and right halves of a long line crop, when it is split (see
/// [`splits_long_line`]).
pub fn long_line_halves(
    split_long_lines: bool,
    char_count: usize,
    threshold: usize,
    width: usize,
    height: usize,
) -> (res: Option<(BBox, BBox)>)
    ensures
        res is Some <==> splits_long_line(
            split_long_lines,
            char_count as int,
            threshold as int,
            width as int,
            height as int,
        ),
        res matches Some((l, r)) ==> l == (BBox { xmin: 0, ymin: 0, xmax: width / 2, ymax: height })
            && r == (BBox { xmin: width / 2, ymin: 0, xmax: width, ymax: height }),
{
    if !split_long_lines {
        return None;
    }
    let h4 = if height <= usize::MAX / 4 {
        height * 4
    } else {
        usize::MAX
    };
    if char_count < threshold || width < h4 {
        return None;
    }
    let mid = width / 2;
    if mid == 0 || mid >= width {
        return None;
    }
    Some((BBox::new(0, 0, mid, height), BBox::new(mid, 0, width, height)))
}

/// The text of a split line: the two halves one after the other, or `None`
/// when both are empty (the unsplit reading is then kept).
pub fn join_halves(left: &str, right: &str) -> (res: Option<String>)
    ensures
        left@.len() == 0 && right@.len() == 0 <==> res is None,
        res matches Some(s) ==> s@ == left@ + right@,
{
    let mut out = str_to_chars(left);
    let r = str_to_chars(right);
    if out.len() == 0 && r.len() == 0 {
        return None;
    }
    crate::chars::extend_chars(&mut out, &r);
    Some(crate::chars::chars_to_string(&out))
}

// ---------------------------------------------------------------------------
// Quality statistics of a recognised line
// ---------------------------------------------------------------------------

/// Whether `c` reads as Japanese: kana, CJK ideographs (unified and
/// extension A) or common Japanese punctuation.
pub open spec fn spec_is_japanese_like(c: char) -> bool {
    ||| ('\u{3040}' <= c && c <= '\u{30ff}')
    ||| ('\u{3400}' <= c && c <= '\u{4dbf}')
    ||| ('\u{4e00}' <= c && c <= '\u{9fff}')
    ||| c == '々'
    ||| c == '。'
    ||| c == '、'
    ||| c == '「'
    ||| c == '」'
    ||| c == '（'
    ||| c == '）'
}

/// Whether `c` reads as Japanese (see [`spec_is_japanese_like`]).
pub fn is_japanese_like(c: char) -> (r: bool)
    ensures
        r == spec_is_japanese_like(c),
{
    ('\u{3040}' <= c && c <= '\u{30ff}') || ('\u{3400}' <= c && c <= '\u{4dbf}') || ('\u{4e00}' <= c
        && c <= '\u{9fff}') || c == '々' || c == '。' || c == '、' || c == '「' || c == '」' || c
        == '（' || c == '）'
}

/// Pops the top of `stack` when it is `open`.
pub fn pop_match(stack: &mut Vec<char>, open: char) -> (r: Option<char>)
    ensures
        old(stack)@.len() > 0 && old(stack)@.last() == open ==> r == Some(open) && final(stack)@
            == old(stack)@.drop_last(),
        !(old(stack)@.len() > 0 && old(stack)@.last() == open) ==> r is None && final(stack)@ == old(
            stack,
        )@,
{
    let n = stack.len();
    if n > 0 && stack[n - 1] == open {
        return stack.pop();
    }
    None
}

/// The opening bracket that a closing one matches, for the brackets
/// counted in a line's quality.
pub open spec fn quality_opening_of(c: char) -> Option<char> {
    if c == ')' {
        Some('(')
    } else if c == '）' {
        Some('（')
    } else if c == '」' {
        Some('「')
    } else if c == '』' {
        Some('『')
    } else if c == '】' {
        Some('【')
    } else {
        None
    }
}

/// Whether `c` opens a bracket counted in a line's quality.
pub open spec fn quality_opens(c: char) -> bool {
    c == '(' || c == '（' || c == '「' || c == '『' || c == '【'
}

/// Character statistics of a recognised line.
#[derive(Clone, Copy, Debug, PartialEq, Eq, Structural)]
pub struct QualityCounts {
    /// Characters.
    pub total: usize,
    /// Characters that read as Japanese.
    pub japanese: usize,
    /// ASCII digits.
    pub digits: usize,
    /// Characters that are none of: ASCII digit, alphanumeric, Japanese,
    /// whitespace.
    pub symbols: usize,
    /// The longest run of one character (1 for an empty line).
    pub max_repeat: usize,
    /// Closing brackets without their opening one, plus opening brackets
    /// left open.
    pub unmatched: usize,
}

/// The statistics after the first `n` characters, with the current run,
/// the previous character, the open brackets and the unmatched closing ones.
pub struct QualityScan {
    pub total: nat,
    pub japanese: nat,
    pub digits: nat,
    pub symbols: nat,
    pub max_repeat: nat,
    pub run: nat,
    pub prev: char,
    pub stack: Seq<char>,
    pub unmatched_closing: nat,
}

pub open spec fn quality_step(st: QualityScan, c: char) -> QualityScan {
    let run = if c == st.prev {
        st.run + 1
    } else {
        1nat
    };
    let (stack, unmatched) = if quality_opens(c) {
        (st.stack.push(c), st.unmatched_closing)
    } else {
        match quality_opening_of(c) {
            Some(o) => if st.stack.len() > 0 && st.stack.last() == o {
                (st.stack.drop_last(), st.unmatched_closing)
            } else {
                (st.stack, st.unmatched_closing + 1)
            },
            None => (st.stack, st.unmatched_closing),
        }
    };
    QualityScan {
        total: st.total + 1,
        japanese: st.japanese + if spec_is_japanese_like(c) {
            1nat
        } else {
            0nat
        },
        digits: st.digits + if spec_is_ascii_digit(c) {
            1nat
        } else {
            0nat
        },
        symbols: st.symbols + if !spec_is_ascii_digit(c) && !is_alphanumeric(c)
            && !spec_is_japanese_like(c) && !spec_is_whitespace(c) {
            1nat
        } else {
            0nat
        },
        max_repeat: if run > st.max_repeat {
            run
        } else {
            st.max_repeat
        },
        run,
        prev: if c == st.prev {
            st.prev
        } else {
            c
        },
        stack,
        unmatched_closing: unmatched,
    }
}

pub open spec fn quality_scan(s: Seq<char>, n: int) -> QualityScan
    decreases n,
{
    if n <= 0 {
        QualityScan {
            total: 0,
            japanese: 0,
            digits: 0,
            symbols: 0,
            max_repeat: 1,
            run: 0,
            prev: '\0',
            stack: seq![],
            unmatched_closing: 0,
        }
    } else {
        quality_step(quality_scan(s, n - 1), s[n - 1])
    }
}

/// The statistics of a line (see [`QualityCounts`]).
pub open spec fn spec_quality_counts(s: Seq<char>) -> QualityCounts {
    let st = quality_scan(s, s.len() as int);
    QualityCounts {
        total: st.total as usize,
        japanese: st.japanese as usize,
        digits: st.digits as usize,
        symbols: st.symbols as usize,
        max_repeat: st.max_repeat as usize,
        unmatched: (st.unmatched_closing + st.stack.len()) as usize,
    }
}

proof fn lemma_quality_scan_bounds(s: Seq<char>, n: int)
    requires
        0 <= n <= s.len(),
    ensures
        quality_scan(s, n).total == n,
        quality_scan(s, n).japanese <= n,
        quality_scan(s, n).digits <= n,
        quality_scan(s, n).symbols <= n,
        1 <= quality_scan(s, n).max_repeat <= if n == 0 {
            1
        } else {
            n
        },
        quality_scan(s, n).run <= n,
        quality_scan(s, n).unmatched_closing + quality_scan(s, n).stack.len() <= n,
    decreases n,
{
    if n > 0 {
        lemma_quality_scan_bounds(s, n - 1);
    }
}

/// Computes the statistics of a line (see [`spec_quality_counts`]).
pub fn quality_counts(text: &str) -> (res: QualityCounts)
    ensures
        res == spec_quality_counts(text@),
{
    let chars = str_to_chars(text);
    let mut total: usize = 0;
    let mut japanese: usize = 0;
    let mut digits: usize = 0;
    let mut symbols: usize = 0;
    let mut max_repeat: usize = 1;
    let mut run: usize = 0;
    let mut prev: char = '\0';
    let mut stack: Vec<char> = Vec::new();
    let mut unmatched_closing: usize = 0;
    let mut i: usize = 0;
    while i < chars.len()
        invariant
            i <= chars@.len(),
            chars@ == text@,
            ({
                let st = quality_scan(text@, i as int);
                &&& total == st.total
                &&& japanese == st.japanese
                &&& digits == st.digits
                &&& symbols == st.symbols
                &&& max_repeat == st.max_repeat
                &&& run == st.run
                &&& prev == st.prev
                &&& stack@ == st.stack
                &&& unmatched_closing == st.unmatched_closing
            }),
        decreases chars.len() - i,
    {
        proof {
            lemma_quality_scan_bounds(text@, i as int);
            assert(chars@.len() <= usize::MAX);
        }
        let c = chars[i];
        total = total + 1;
        let jp = is_japanese_like(c);
        if jp {
            japanese = japanese + 1;
        }
        if is_ascii_digit(c) {
            digits = digits + 1;
        } else if !char_is_alphanumeric(c) && !jp && !is_whitespace(c) {
            symbols = symbols + 1;
        }
        if c == prev {
            run = run + 1;
        } else {
            run = 1;
            prev = c;
        }
        if run > max_repeat {
            max_repeat = run;
        }
        if c == '(' || c == '（' || c == '「' || c == '『' || c == '【' {
            stack.push(c);
        } else {
            let open = if c == ')' {
                Some('(')
            } else if c == '）' {
                Some('（')
            } else if c == '」' {
                Some('「')
            } else if c == '』' {
                Some('『')
            } else if c == '】' {
                Some('【')
            } else {
                None
            };
            match open {
                Some(o) => {
                    if pop_match(&mut stack, o).is_none() {
                        unmatched_closing = unmatched_closing + 1;
                    }
                },
                None => {},
            }
        }
        i = i + 1;
    }
    proof {
        lemma_quality_scan_bounds(text@, chars@.len() as int);
    }
    QualityCounts {
        total,
        japanese,
        digits,
        symbols,
        max_repeat,
        unmatched: unmatched_closing + stack.len(),
    }
}

// ---------------------------------------------------------------------------
// Lines of a page
// ---------------------------------------------------------------------------

/// The final lines of a page: the structural rules (when on), then the rule
/// pack (when given).
pub open spec fn spec_finish_lines(
    lines: Seq<Seq<char>>,
    structure_rules: bool,
    pack: Option<
        (Seq<(Seq<char>, Seq<char>)>, Seq<MergeRuleView>, bool),
    >,
) -> Seq<Seq<char>> {
    let s = if structure_rules {
        structural_rules(lines)
    } else {
        lines
    };
    match pack {
        Some((pairs, merges, collapse)) => apply_rule_pack(pairs, merges, collapse, s),
        None => s,
    }
}

/// The plain view of a rule pack, as [`spec_finish_lines`] takes it.
pub open spec fn pack_view(pack: Option<&RulePack>) -> Option<
    (Seq<(Seq<char>, Seq<char>)>, Seq<MergeRuleView>, bool),
> {
    match pack {
        Some(p) => Some((p.replacement_pairs(), p.merge_rule_views(), p.collapse_duplicate_adjacent_lines)),
        None => None,
    }
}

/// The final lines of a page from its recognised lines in reading order
/// (see [`spec_finish_lines`]).
pub fn finish_page_lines(lines: &[String], structure_rules: bool, pack: Option<&RulePack>) -> (res:
    Vec<String>)
    ensures
        res.deep_view() == spec_finish_lines(lines.deep_view(), structure_rules, pack_view(pack)),
{
    let mut out: Vec<String> = if structure_rules {
        apply_structural_rules(lines)
    } else {
        crate::chars::chars_to_strings(&crate::chars::strings_to_chars(lines))
    };
    match pack {
        Some(p) => {
            out = p.apply(out.as_slice());
        },
        None => {},
    }
    out
}


/// `a - b`, or 0 when `b` is larger.
pub open spec fn sat_sub(a: int, b: int) -> int {
    if a > b {
        a - b
    } else {
        0
    }
}

/// `r` is the line box of band `b = [x0, y0, x1, y1]`: its corners as
/// `i32`, with the bucket of its estimated character count.
pub open spec fn is_band_line_box(r: ([i32; 4], PredCharBucket), b: Seq<int>, th_30_to_50: int, th_50_to_100: int) -> bool {
    &&& r.0[0] == b[0] as i32
    &&& r.0[1] == b[1] as i32
    &&& r.0[2] == b[2] as i32
    &&& r.0[3] == b[3] as i32
    &&& r.1 == spec_bucket(
        spec_line_char_count(sat_sub(b[2], b[0]) as nat, sat_sub(b[3], b[1]) as nat),
        th_30_to_50,
        th_50_to_100,
    )
}

/// The line boxes of a page with their buckets: those of the detections of
/// line classes when there are any; else the text bands found by
/// binarisation (see [`spec_textline_bands`]), each with the bucket of its
/// estimated character count.
pub fn page_line_boxes_or_bands(
    dets: &[LineDetection],
    rgb: &[u8],
    width: usize,
    height: usize,
    threshold: u8,
    th_30_to_50: usize,
    th_50_to_100: usize,
) -> (res: Vec<([i32; 4], PredCharBucket)>)
    requires
        line_detections(dets@).len() > 0 || width * height * 3 <= rgb@.len(),
    ensures
        line_detections(dets@).len() > 0 ==> res@ == line_detections(dets@),
        line_detections(dets@).len() == 0 ==> {
            let bands = spec_textline_bands(rgb@, width as int, height as int, threshold);
            &&& res@.len() == bands.len()
            &&& forall|k: int|
                0 <= k < bands.len() ==> is_band_line_box(
                    #[trigger] res@[k],
                    bands[k],
                    th_30_to_50 as int,
                    th_50_to_100 as int,
                )
        },
{
    let lines = select_line_detections(dets);
    if lines.len() > 0 {
        return lines;
    }
    let bands = detect_textline_bands_naive(rgb, width, height, threshold);
    let ghost bv = bands_view(bands@);
    let mut out: Vec<([i32; 4], PredCharBucket)> = Vec::new();
    let mut i: usize = 0;
    while i < bands.len()
        invariant
            i <= bands@.len(),
            bv == bands_view(bands@),
            out@.len() == i,
            forall|k: int|
                0 <= k < i ==> is_band_line_box(
                    #[trigger] out@[k],
                    bv[k],
                    th_30_to_50 as int,
                    th_50_to_100 as int,
                ),
        decreases bands.len() - i,
    {
        let b = bands[i];
        let x0 = b[0];
        let y0 = b[1];
        let x1 = b[2];
        let y1 = b[3];
        let bucket = estimate_pred_char_bucket(
            x1.saturating_sub(x0),
            y1.saturating_sub(y0),
            th_30_to_50,
            th_50_to_100,
        );
        let r: ([i32; 4], PredCharBucket) = ([x0 as i32, y0 as i32, x1 as i32, y1 as i32], bucket);
        proof {
            assert(bv[i as int] == seq![b[0] as int, b[1] as int, b[2] as int, b[3] as int]);
        }
        out.push(r);
        i = i + 1;
    }
    out
}

} // verus!

//! Choosing the recognition model of a line by its expected number of
//! characters, and escalating to a larger model when the text read is too
//! long for the one used.
use vstd::prelude::*;

use crate::float32::{
    lemma_pow2_adds, lemma_pow2_positive, lemma_round_ratio_antitone, lemma_round_ratio_lower,
    lemma_round_ratio_monotone, lemma_round_ratio_scale, lemma_round_to_f32_monotone,
    lemma_round_to_f32_bounds, pow2, round_ratio_to_f32, round_ratio_to_f32_exec, round_to_f32,
    round_to_f32_exec,
};

verus! {

/// Estimated characters above which a line leaves the 30-character model
/// for the 50-character one.
pub const DEFAULT_CASCADE_THRESHOLD_30_TO_50: usize = 25;

/// Estimated characters above which a line leaves the 50-character model
/// for the 100-character one.
pub const DEFAULT_CASCADE_THRESHOLD_50_TO_100: usize = 45;

/// The number of characters a line crop of `width x height` pixels is
/// expected to hold, as `f32` arithmetic computes it: glyphs are about
/// square, so about 2.5 characters per height of width. In exact terms:
/// `width` and `height` (at least 1) become the nearest `f32` values; their
/// quotient is rounded to the nearest `f32` (here scaled by `2^96`, which
/// keeps it an integer); times 2.5 it is rounded again; and the result is
/// rounded half away from zero.
pub open spec fn f32_line_char_estimate(width: nat, height: nat) -> nat {
    let w = round_to_f32(width);
    let h = round_to_f32(
        if height < 1 {
            1
        } else {
            height
        },
    );
    let ratio = round_ratio_to_f32(w * pow2(96), h);
    let scaled = round_ratio_to_f32(ratio * 5, 2);
    (scaled + pow2(95)) / pow2(96)
}

/// The estimate as a `usize`: at least 1, saturated at `usize::MAX`.
pub open spec fn spec_line_char_count(width: nat, height: nat) -> int {
    let e = f32_line_char_estimate(width, height);
    if e < 1 {
        1
    } else if e > usize::MAX {
        usize::MAX as int
    } else {
        e as int
    }
}

proof fn lemma_pow2_monotone(a: nat, b: nat)
    requires
        a <= b,
    ensures
        pow2(a) <= pow2(b),
    decreases b - a,
{
    if a < b {
        lemma_pow2_monotone(a, (b - 1) as nat);
        assert(pow2(b) == 2 * pow2((b - 1) as nat));
    }
}

proof fn lemma_pow2_big()
    ensures
        pow2(91) == 0x800_0000_0000_0000_0000_0000,
        pow2(96) == 0x1_0000_0000_0000_0000_0000_0000,
{
    reveal_with_fuel(pow2, 97);
}

proof fn lemma_div_common_factor(x: nat, y: nat, c: nat)
    requires
        y >= 1,
        c >= 1,
    ensures
        (x * c) / (y * c) == x / y,
{
    vstd::arithmetic::div_mod::lemma_div_denominator((x * c) as int, c as int, y as int);
    vstd::arithmetic::div_mod::lemma_div_by_multiple(x as int, c as int);
    assert(c * y == y * c) by (nonlinear_arith);
}

proof fn lemma_estimate_from_rounded(w1: nat, w2: nat, h1: nat, h2: nat)
    requires
        w1 <= w2,
        1 <= h2 <= h1,
    ensures
        (round_ratio_to_f32(round_ratio_to_f32(w1 * pow2(96), h1) * 5, 2) + pow2(95)) / pow2(96)
            <= (round_ratio_to_f32(round_ratio_to_f32(w2 * pow2(96), h2) * 5, 2) + pow2(95)) / pow2(
            96,
        ),
{
    lemma_pow2_positive(96);
    let p = pow2(96);
    assert(w1 * p <= w2 * p) by (nonlinear_arith)
        requires
            w1 <= w2,
    ;
    lemma_round_ratio_monotone(w1 * p, w2 * p, h1);
    lemma_round_ratio_antitone(w2 * p, h2, h1);
    let r1 = round_ratio_to_f32(w1 * p, h1);
    let r2 = round_ratio_to_f32(w2 * p, h2);
    lemma_round_ratio_monotone(r1 * 5, r2 * 5, 2);
    let s1 = round_ratio_to_f32(r1 * 5, 2);
    let s2 = round_ratio_to_f32(r2 * 5, 2);
    vstd::arithmetic::div_mod::lemma_div_is_ordered(
        (s1 + pow2(95)) as int,
        (s2 + pow2(95)) as int,
        p as int,
    );
}

/// The estimate of a line's characters never falls as the crop gets wider
/// and never grows as it gets taller; a height of 0 counts as 1, and the
/// estimate is always at least 1.
pub proof fn lemma_line_char_count_monotone(w1: nat, w2: nat, h1: nat, h2: nat)
    requires
        w1 <= w2,
        h1 <= h2,
    ensures
        spec_line_char_count(w1, h1) <= spec_line_char_count(w2, h1),
        spec_line_char_count(w1, h2) <= spec_line_char_count(w1, h1),
        spec_line_char_count(w1, h1) >= 1,
        spec_line_char_count(w1, h1) == spec_line_char_count(
            w1,
            if h1 < 1 {
                1
            } else {
                h1
            },
        ),
{
    let g1: nat = if h1 < 1 {
        1
    } else {
        h1
    };
    let g2: nat = if h2 < 1 {
        1
    } else {
        h2
    };
    lemma_round_to_f32_bounds(g1);
    lemma_round_to_f32_bounds(g2);
    lemma_round_to_f32_monotone(g1, g2);
    lemma_round_to_f32_monotone(w1, w2);
    let rh1 = round_to_f32(g1);
    let rh2 = round_to_f32(g2);
    let rw1 = round_to_f32(w1);
    let rw2 = round_to_f32(w2);
    lemma_estimate_from_rounded(rw1, rw2, rh1, rh1);
    lemma_estimate_from_rounded(rw1, rw1, rh2, rh1);
    assert(f32_line_char_estimate(w1, h1) <= f32_line_char_estimate(w2, h1));
    assert(f32_line_char_estimate(w1, h2) <= f32_line_char_estimate(w1, h1));
}

/// The number of characters a line crop of the given size is expected to
/// hold (see [`spec_line_char_count`]); at least 1.
pub fn estimate_line_char_count(width: usize, height: usize) -> (r: usize)
    ensures
        r == spec_line_char_count(width as nat, height as nat),
        r >= 1,
{
    let h0: usize = if height < 1 {
        1
    } else {
        height
    };
    let w = round_to_f32_exec(width as u128);
    let h = round_to_f32_exec(h0 as u128);
    proof {
        lemma_round_to_f32_bounds(h0 as nat);
        lemma_pow2_positive(95);
        assert(pow2(96) == 2 * pow2(95));
    }
    let ghost spec_ratio = round_ratio_to_f32(w as nat * pow2(96), h as nat);
    let ghost spec_scaled = round_ratio_to_f32(spec_ratio * 5, 2);
    if w == 0 {
        proof {
            assert(0 * pow2(96) == 0);
            assert(w as nat * pow2(96) == 0);
            crate::float32::lemma_round_ratio_zero(h as nat);
            crate::float32::lemma_round_ratio_zero(2);
            assert(spec_ratio == 0);
            assert(spec_scaled == 0);
            assert((0 + pow2(95)) / pow2(96) == 0) by {
                vstd::arithmetic::div_mod::lemma_fundamental_div_mod_converse(
                    pow2(95) as int,
                    pow2(96) as int,
                    0,
                    pow2(95) as int,
                );
            }
        }
        return 1;
    }
    let est: u128 = if w >= h * 0x800000 {
        let rm = round_ratio_to_f32_exec(w, h);
        proof {
            vstd::arithmetic::div_mod::lemma_div_is_ordered((h * 0x800000) as int, w as int, h as int);
            vstd::arithmetic::div_mod::lemma_div_by_multiple(0x800000, h as int);
            assert((h * 0x800000) as int == 0x800000 * (h as int));
            lemma_round_ratio_scale(w as nat, h as nat, 96);
            lemma_round_ratio_lower(w as nat, h as nat);
            assert(spec_ratio == rm * pow2(96));
            assert(spec_ratio * 5 == (5 * rm as nat) * pow2(96)) by (nonlinear_arith)
                requires
                    spec_ratio == rm * pow2(96),
            ;
            lemma_round_ratio_scale((5 * rm) as nat, 2, 96);
        }
        let pm = round_ratio_to_f32_exec(5 * rm, 2);
        proof {
            assert(spec_scaled == pm * pow2(96));
            vstd::arithmetic::div_mod::lemma_fundamental_div_mod_converse(
                (pm * pow2(96) + pow2(95)) as int,
                pow2(96) as int,
                pm as int,
                pow2(95) as int,
            );
        }
        pm
    } else {
        let mut t: u128 = w;
        let mut ps: u128 = 1;
        let ghost mut s: nat = 0;
        proof {
            lemma_pow2_big();
            assert(h0 as nat <= 0xffff_ffff_ffff_ffff);
            assert(pow2(0) == 1);
        }
        while t < h * 0x800000
            invariant
                t == w * ps,
                ps == pow2(s),
                1 <= w,
                1 <= h <= 2 * (h0 as nat) + 1,
                h0 <= usize::MAX,
                w < h * 0x800000,
                t < h * 0x1000000,
                s <= 90,
                ps <= t,
                1 <= ps,
                1 <= t,
                pow2(91) == 0x800_0000_0000_0000_0000_0000,
                h * 0x1000000 < 0x400_0000_0000_0000_0000_0000,
            decreases h * 0x1000000 - t,
        {
            t = t * 2;
            ps = ps * 2;
            proof {
                s = s + 1;
                assert(pow2(s) == 2 * pow2((s - 1) as nat));
                assert(t == w * ps) by (nonlinear_arith)
                    requires
                        t == 2 * (w * (ps / 2)),
                        ps == 2 * (ps / 2),
                ;
                if s > 90 {
                    lemma_pow2_monotone(91, s);
                    assert(ps <= t) by (nonlinear_arith)
                        requires
                            t == w * ps,
                            w >= 1,
                    ;
                }
            }
        }
        proof {
            assert(s >= 1) by {
                if s == 0 {
                    assert(pow2(0) == 1);
                    assert(t == w);
                }
            }
            vstd::arithmetic::div_mod::lemma_div_is_ordered((h * 0x800000) as int, t as int, h as int);
            vstd::arithmetic::div_mod::lemma_div_by_multiple(0x800000, h as int);
            assert((h * 0x800000) as int == 0x800000 * (h as int));
        }
        let rm = round_ratio_to_f32_exec(t, h);
        proof {
            let k = (96 - s) as nat;
            lemma_pow2_adds(s, k);
            assert(s + k == 96);
            assert(w as nat * pow2(96) == (t as nat) * pow2(k)) by (nonlinear_arith)
                requires
                    pow2(96) == pow2(s) * pow2(k),
                    t == w * pow2(s),
            ;
            lemma_round_ratio_scale(t as nat, h as nat, k);
            lemma_round_ratio_lower(t as nat, h as nat);
            assert(spec_ratio == rm * pow2(k));
            assert(spec_ratio * 5 == (5 * rm as nat) * pow2(k)) by (nonlinear_arith)
                requires
                    spec_ratio == rm * pow2(k),
            ;
            lemma_round_ratio_scale((5 * rm) as nat, 2, k);
            vstd::arithmetic::div_mod::lemma_div_is_ordered(t as int, (h * 0x1000000) as int, h as int);
            vstd::arithmetic::div_mod::lemma_div_by_multiple(0x1000000, h as int);
            assert((h * 0x1000000) as int == 0x1000000 * (h as int));
        }
        let pm = round_ratio_to_f32_exec(5 * rm, 2);
        proof {
            assert(rm <= 0x2000002);
            assert((5 * rm) / 2 <= 5 * rm);
        }
        let est = (2 * pm + ps) / (2 * ps);
        proof {
            let k = (96 - s) as nat;
            let c = pow2((95 - s) as nat);
            lemma_pow2_positive((95 - s) as nat);
            lemma_pow2_positive(s);
            assert(spec_scaled == pm * pow2(k));
            assert(pow2(k) == 2 * c);
            lemma_pow2_adds(s, (95 - s) as nat);
            assert(pow2(s) * c == pow2(95));
            assert((2 * pm + ps) * c == pm * pow2(k) + pow2(95)) by (nonlinear_arith)
                requires
                    pow2(k) == 2 * c,
                    ps * c == pow2(95),
            ;
            assert((2 * ps) * c == pow2(96)) by (nonlinear_arith)
                requires
                    ps * c == pow2(95),
                    pow2(96) == 2 * pow2(95),
            ;
            lemma_div_common_factor((2 * pm + ps) as nat, (2 * ps) as nat, c);
        }
        est
    };
    if est < 1 {
        1
    } else if est > usize::MAX as u128 {
        usize::MAX
    } else {
        est as usize
    }
}

/// The model a line is first given to.
#[derive(Clone, Copy, Debug, PartialEq, Eq, Structural)]
pub enum PredCharBucket {
    /// The 30-character model.
    Chars30,
    /// The 50-character model.
    Chars50,
    /// The 100-character model.
    Chars100,
}

/// The bucket of a line with `estimated_chars` characters: up to the first
/// threshold the 30-character model, up to the second the 50-character one,
/// else the 100-character one.
pub open spec fn spec_bucket(estimated_chars: int, th_30_to_50: int, th_50_to_100: int) -> PredCharBucket {
    if estimated_chars <= th_30_to_50 {
        PredCharBucket::Chars30
    } else if estimated_chars <= th_50_to_100 {
        PredCharBucket::Chars50
    } else {
        PredCharBucket::Chars100
    }
}

/// The bucket of a line with `estimated_chars` characters (see
/// [`spec_bucket`]).
pub fn bucket_for_char_count(estimated_chars: usize, th_30_to_50: usize, th_50_to_100: usize) -> (r:
    PredCharBucket)
    ensures
        r == spec_bucket(estimated_chars as int, th_30_to_50 as int, th_50_to_100 as int),
{
    if estimated_chars <= th_30_to_50 {
        PredCharBucket::Chars30
    } else if estimated_chars <= th_50_to_100 {
        PredCharBucket::Chars50
    } else {
        PredCharBucket::Chars100
    }
}

/// The bucket of a line crop of the given size, from its estimated number of
/// characters (see [`spec_line_char_count`] and [`spec_bucket`]).
pub fn estimate_pred_char_bucket(
    width: usize,
    height: usize,
    th_30_to_50: usize,
    th_50_to_100: usize,
) -> (r: PredCharBucket)
    ensures
        r == spec_bucket(
            spec_line_char_count(width as nat, height as nat),
            th_30_to_50 as int,
            th_50_to_100 as int,
        ),
{
    let estimated = estimate_line_char_count(width, height);
    bucket_for_char_count(estimated, th_30_to_50, th_50_to_100)
}

/// A recognition model.
#[derive(Clone, Copy, Debug, PartialEq, Eq, Structural)]
pub enum LineModel {
    Chars30,
    Chars50,
    Chars100,
}

/// Where the recognition of one line stands.
#[derive(Clone, Copy, Debug, PartialEq, Eq, Structural)]
pub enum CascadeStage {
    /// Nothing has been read yet.
    Start,
    /// The line has been read once by the model of its bucket.
    AfterFirst,
    /// The line has been read again by the 50-character model.
    AfterEscalation,
    /// The last reading is the result.
    Done,
}

/// The model of a bucket.
pub open spec fn bucket_model(b: PredCharBucket) -> LineModel {
    match b {
        PredCharBucket::Chars30 => LineModel::Chars30,
        PredCharBucket::Chars50 => LineModel::Chars50,
        PredCharBucket::Chars100 => LineModel::Chars100,
    }
}

/// The next stage and the model to read the line with (none when the last
/// reading is the result), given the number of characters of the last
/// reading. Without the cascade a line is read once by the 100-character
/// model. With it, the line is read by the model of its bucket; a reading
/// of the 30-character model that reaches the first threshold is read
/// again by the 50-character model; then a reading that reaches the second
/// threshold is read again by the 100-character model.
pub open spec fn spec_cascade_next(
    stage: CascadeStage,
    enable_cascade: bool,
    bucket: PredCharBucket,
    last_char_count: int,
    th_30_to_50: int,
    th_50_to_100: int,
) -> (CascadeStage, Option<LineModel>) {
    match stage {
        CascadeStage::Start => if enable_cascade {
            (CascadeStage::AfterFirst, Some(bucket_model(bucket)))
        } else {
            (CascadeStage::Done, Some(LineModel::Chars100))
        },
        CascadeStage::AfterFirst => if bucket == PredCharBucket::Chars30 && last_char_count
            >= th_30_to_50 {
            (CascadeStage::AfterEscalation, Some(LineModel::Chars50))
        } else if last_char_count >= th_50_to_100 {
            (CascadeStage::Done, Some(LineModel::Chars100))
        } else {
            (CascadeStage::Done, None)
        },
        CascadeStage::AfterEscalation => if last_char_count >= th_50_to_100 {
            (CascadeStage::Done, Some(LineModel::Chars100))
        } else {
            (CascadeStage::Done, None)
        },
        CascadeStage::Done => (CascadeStage::Done, None),
    }
}

/// The next step of the recognition of a line (see
/// [`spec_cascade_next`]); `last_char_count` is ignored at the start.
pub fn cascade_next(
    stage: CascadeStage,
    enable_cascade: bool,
    bucket: PredCharBucket,
    last_char_count: usize,
    th_30_to_50: usize,
    th_50_to_100: usize,
) -> (res: (CascadeStage, Option<LineModel>))
    ensures
        res == spec_cascade_next(
            stage,
            enable_cascade,
            bucket,
            last_char_count as int,
            th_30_to_50 as int,
            th_50_to_100 as int,
        ),
{
    match stage {
        CascadeStage::Start => if enable_cascade {
            let m = match bucket {
                PredCharBucket::Chars30 => LineModel::Chars30,
                PredCharBucket::Chars50 => LineModel::Chars50,
                PredCharBucket::Chars100 => LineModel::Chars100,
            };
            (CascadeStage::AfterFirst, Some(m))
        } else {
            (CascadeStage::Done, Some(LineModel::Chars100))
        },
        CascadeStage::AfterFirst => if bucket == PredCharBucket::Chars30 && last_char_count
            >= th_30_to_50 {
            (CascadeStage::AfterEscalation, Some(LineModel::Chars50))
        } else if last_char_count >= th_50_to_100 {
            (CascadeStage::Done, Some(LineModel::Chars100))
        } else {
            (CascadeStage::Done, None)
        },
        CascadeStage::AfterEscalation => if last_char_count >= th_50_to_100 {
            (CascadeStage::Done, Some(LineModel::Chars100))
        } else {
            (CascadeStage::Done, None)
        },
        CascadeStage::Done => (CascadeStage::Done, None),
    }
}

/// The rank of a stage in the order in which they are passed.
pub open spec fn stage_rank(s: CascadeStage) -> int {
    match s {
        CascadeStage::Start => 0,
        CascadeStage::AfterFirst => 1,
        CascadeStage::AfterEscalation => 2,
        CascadeStage::Done => 3,
    }
}

/// The size of a model, in characters.
pub open spec fn model_size(m: LineModel) -> int {
    match m {
        LineModel::Chars30 => 30,
        LineModel::Chars50 => 50,
        LineModel::Chars100 => 100,
    }
}

/// Every step moves forward, so a line is read at most three times; a
/// reading after the first is never by a smaller model than the bucket's,
/// and by a larger one when the bucket is not the largest; once done,
/// nothing more is read.
pub proof fn lemma_cascade_progress(
    stage: CascadeStage,
    enable_cascade: bool,
    bucket: PredCharBucket,
    last_char_count: int,
    th_30_to_50: int,
    th_50_to_100: int,
)
    ensures
        ({
            let (next, model) = spec_cascade_next(
                stage,
                enable_cascade,
                bucket,
                last_char_count,
                th_30_to_50,
                th_50_to_100,
            );
            &&& stage != CascadeStage::Done ==> stage_rank(next) > stage_rank(stage)
            &&& stage == CascadeStage::Done ==> next == CascadeStage::Done && model is None
            &&& (stage != CascadeStage::Start && model is Some) ==> model_size(model->0)
                >= model_size(bucket_model(bucket))
            &&& (stage != CascadeStage::Start && model is Some && bucket
                != PredCharBucket::Chars100) ==> model_size(model->0) > model_size(
                bucket_model(bucket),
            )
        }),
{
}

} // verus!

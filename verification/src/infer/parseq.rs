//! Text side of line recognition: turning decoded token ids into text and
//! cleaning up the recognised text of one line.
use vstd::prelude::*;

use crate::chars::{
    chars_to_string, concat_chars, contains, contains_chars, extend_chars, is_ascii_digit,
    is_whitespace, lemma_repeat_len, occurs_at, push_char, repeat, repeat_chars, replace_all,
    replace_all_chars, replace_pairs, slice_chars, spec_is_ascii_digit, spec_is_whitespace, starts_with,
    str_to_chars, trim, trim_chars,
};

verus! {

broadcast use vstd::seq_lib::group_seq_properties;

// ---------------------------------------------------------------------------
// Token ids to text
// ---------------------------------------------------------------------------

/// The text of a token-id sequence: id `0` ends the text, other ids `k > 0`
/// stand for `charset[k - 1]`; negative ids and ids past the charset are
/// skipped.
pub open spec fn spec_decode_indices(indices: Seq<i64>, charset: Seq<char>) -> Seq<char>
    decreases indices.len(),
{
    if indices.len() == 0 || indices[0] == 0 {
        seq![]
    } else {
        let idx = indices[0] as int;
        let here = if idx > 0 && idx - 1 < charset.len() {
            seq![charset[idx - 1]]
        } else {
            seq![]
        };
        here + spec_decode_indices(indices.drop_first(), charset)
    }
}

/// Decodes token ids into text (see [`spec_decode_indices`]).
pub fn decode_indices(indices: &[i64], charset: &[char]) -> (res: String)
    ensures
        res@ == spec_decode_indices(indices@, charset@),
{
    let mut out = String::new();
    let mut i: usize = 0;
    proof {
        assert(indices@.skip(0) =~= indices@);
    }
    while i < indices.len()
        invariant
            i <= indices.len(),
            spec_decode_indices(indices@, charset@) == out@ + spec_decode_indices(
                indices@.skip(i as int),
                charset@,
            ),
        decreases indices.len() - i,
    {
        let idx = indices[i];
        let ghost rest = indices@.skip(i as int);
        let ghost out0 = out@;
        proof {
            assert(rest[0] == idx);
            assert(rest.drop_first() =~= indices@.skip(i + 1));
        }
        if idx == 0 {
            proof {
                assert(out@ + Seq::<char>::empty() =~= out@);
            }
            return out;
        }
        if idx > 0 {
            let k: i64 = idx - 1;
            if (k as u64) < (charset.len() as u64) {
                push_char(&mut out, charset[k as usize]);
                proof {
                    assert(out0 + (seq![charset@[k as int]] + spec_decode_indices(
                        indices@.skip(i + 1),
                        charset@,
                    )) =~= out@ + spec_decode_indices(indices@.skip(i + 1), charset@));
                }
            } else {
                proof {
                    assert(out0 + (Seq::<char>::empty() + spec_decode_indices(
                        indices@.skip(i + 1),
                        charset@,
                    )) =~= out@ + spec_decode_indices(indices@.skip(i + 1), charset@));
                }
            }
        } else {
            proof {
                assert(out0 + (Seq::<char>::empty() + spec_decode_indices(
                    indices@.skip(i + 1),
                    charset@,
                )) =~= out@ + spec_decode_indices(indices@.skip(i + 1), charset@));
            }
        }
        i = i + 1;
    }
    proof {
        assert(indices@.skip(i as int) =~= Seq::<i64>::empty());
        assert(out@ + Seq::<char>::empty() =~= out@);
    }
    out
}

// ---------------------------------------------------------------------------
// Greedy decoding with a confidence floor
// ---------------------------------------------------------------------------

/// A timestep of the model's output as greedy decoding reads it: the class
/// with the highest score (0 ends the text; class `k > 0` is character
/// `k - 1` of the character set) and whether the probability of that class
/// is below the floor at which decoding stops once enough characters are
/// read.
#[derive(Clone, Copy, Debug, PartialEq, Eq, Structural)]
pub struct DecodeStep {
    pub class: usize,
    pub low_confidence: bool,
}

/// Characters read before a low-confidence timestep stops decoding.
pub const MIN_TOKENS_BEFORE_LOW_CONF_STOP: usize = 2;

/// Why flat logits cannot be read as `timesteps x classes` scores.
#[derive(Clone, Copy, Debug, PartialEq, Eq, Structural)]
pub enum LogitsShapeError {
    /// There are no timesteps or no classes.
    EmptyShape,
    /// `timesteps * classes` does not fit in `usize`.
    ShapeOverflow,
    /// There are fewer scores than `timesteps * classes`.
    TooShort,
}

impl LogitsShapeError {
    /// The message of the error.
    pub fn message(&self) -> (res: String)
        ensures
            *self == LogitsShapeError::EmptyShape ==> res@ == "timesteps/classes must be > 0"@,
            *self == LogitsShapeError::ShapeOverflow ==> res@ == "logits shape overflow"@,
            *self == LogitsShapeError::TooShort ==> res@ == "flat logits length is shorter than shape"@,
    {
        match self {
            LogitsShapeError::EmptyShape => "timesteps/classes must be > 0".to_owned(),
            LogitsShapeError::ShapeOverflow => "logits shape overflow".to_owned(),
            LogitsShapeError::TooShort => "flat logits length is shorter than shape".to_owned(),
        }
    }
}

/// Whether `len` flat scores can be read as `timesteps x classes`, and if
/// not, why: the shape must be non-empty, its size must fit in `usize`, and
/// there must be at least that many scores.
pub open spec fn spec_logits_shape(len: int, timesteps: int, classes: int) -> Result<(), LogitsShapeError> {
    if timesteps == 0 || classes == 0 {
        Err(LogitsShapeError::EmptyShape)
    } else if timesteps * classes > usize::MAX {
        Err(LogitsShapeError::ShapeOverflow)
    } else if len < timesteps * classes {
        Err(LogitsShapeError::TooShort)
    } else {
        Ok(())
    }
}

/// Checks that `logits_len` flat scores can be read as `timesteps x
/// classes` (see [`spec_logits_shape`]); row `t` is then the scores
/// `t * classes .. (t + 1) * classes`.
pub fn check_logits_shape(logits_len: usize, timesteps: usize, classes: usize) -> (res: Result<(), LogitsShapeError>)
    ensures
        res == spec_logits_shape(logits_len as int, timesteps as int, classes as int),
{
    if timesteps == 0 || classes == 0 {
        return Err(LogitsShapeError::EmptyShape);
    }
    match timesteps.checked_mul(classes) {
        None => Err(LogitsShapeError::ShapeOverflow),
        Some(expected) => if logits_len < expected {
            Err(LogitsShapeError::TooShort)
        } else {
            Ok(())
        },
    }
}

/// The timesteps that give characters, from timestep `t` on with `count`
/// characters read so far: decoding stops at class 0, or at a
/// low-confidence timestep once [`MIN_TOKENS_BEFORE_LOW_CONF_STOP`]
/// characters were read; a class past the character set gives nothing.
pub open spec fn greedy_steps(steps: Seq<DecodeStep>, charset_len: int, t: int, count: int) -> Seq<int>
    decreases steps.len() - t,
{
    if t < 0 || t >= steps.len() || steps[t].class == 0 || (count >= MIN_TOKENS_BEFORE_LOW_CONF_STOP
        && steps[t].low_confidence) {
        seq![]
    } else if steps[t].class - 1 < charset_len {
        seq![t] + greedy_steps(steps, charset_len, t + 1, count + 1)
    } else {
        greedy_steps(steps, charset_len, t + 1, count)
    }
}

/// The character of each of the given timesteps.
pub open spec fn step_chars(steps: Seq<DecodeStep>, charset: Seq<char>, ts: Seq<int>) -> Seq<char> {
    ts.map_values(|t: int| charset[steps[t].class - 1])
}

/// The text greedy decoding reads (see [`greedy_steps`]).
pub open spec fn greedy_text(steps: Seq<DecodeStep>, charset: Seq<char>) -> Seq<char> {
    step_chars(steps, charset, greedy_steps(steps, charset.len() as int, 0, 0))
}

/// Decodes timesteps greedily: the timesteps that give characters (see
/// [`greedy_steps`]) and the text they spell.
pub fn greedy_decode(steps: &[DecodeStep], charset: &[char]) -> (res: (Vec<usize>, String))
    ensures
        res.0@.map_values(|t: usize| t as int) == greedy_steps(steps@, charset@.len() as int, 0, 0),
        res.1@ == greedy_text(steps@, charset@),
{
    let ghost clen = charset@.len() as int;
    let ghost full = greedy_steps(steps@, clen, 0, 0);
    let mut pos: Vec<usize> = Vec::new();
    let mut text = String::new();
    let mut t: usize = 0;
    while t < steps.len()
        invariant
            t <= steps@.len(),
            clen == charset@.len(),
            full == greedy_steps(steps@, clen, 0, 0),
            full == pos@.map_values(|x: usize| x as int) + greedy_steps(steps@, clen, t as int, pos@.len() as int),
            text@ == step_chars(steps@, charset@, pos@.map_values(|x: usize| x as int)),
            forall|k: int| 0 <= k < pos@.len() ==> #[trigger] pos@[k] < t && 0 < steps@[pos@[k] as int].class,
        decreases steps.len() - t,
    {
        let step = steps[t];
        let stop = step.class == 0 || (pos.len() >= MIN_TOKENS_BEFORE_LOW_CONF_STOP && step.low_confidence);
        if stop {
            proof {
                assert(greedy_steps(steps@, clen, t as int, pos@.len() as int) =~= Seq::<int>::empty());
                assert(full =~= pos@.map_values(|x: usize| x as int));
            }
            return (pos, text);
        }
        if step.class - 1 < charset.len() {
            let ghost pos0 = pos@.map_values(|x: usize| x as int);
            let c = charset[step.class - 1];
            pos.push(t);
            push_char(&mut text, c);
            proof {
                assert(pos@.map_values(|x: usize| x as int) =~= pos0.push(t as int));
                assert(full =~= pos@.map_values(|x: usize| x as int) + greedy_steps(
                    steps@,
                    clen,
                    t + 1,
                    pos@.len() as int,
                ));
                assert(step_chars(steps@, charset@, pos0.push(t as int)) =~= step_chars(steps@, charset@, pos0).push(c));
            }
        }
        t = t + 1;
    }
    proof {
        assert(greedy_steps(steps@, clen, t as int, pos@.len() as int) =~= Seq::<int>::empty());
        assert(full =~= pos@.map_values(|x: usize| x as int));
    }
    (pos, text)
}

// ---------------------------------------------------------------------------
// Character classes
// ---------------------------------------------------------------------------

/// What `char::is_alphanumeric` returns for `c` (Unicode `Alphabetic` or
/// `Numeric`).
pub uninterp spec fn is_alphanumeric(c: char) -> bool;

/// `char::is_alphanumeric`.
#[verifier::external_body]
pub(crate) fn char_is_alphanumeric(c: char) -> (r: bool)
    ensures
        r == is_alphanumeric(c),
{
    c.is_alphanumeric()
}

// ---------------------------------------------------------------------------
// Runs of characters
// ---------------------------------------------------------------------------

/// State of the scan that squeezes white space and over-long runs:
/// the text so far, the previous non-space character, the length of its
/// current run and whether the last thing emitted was a space.
pub type ScanState = (Seq<char>, Option<char>, nat, bool);

/// One step of the scan over character `ch`, where `alnum` says whether
/// `ch` is alphanumeric. A white-space run becomes one space (none at the
/// start). A character is dropped when its run is longer than 4 for an
/// ASCII digit, 3 for a non-alphanumeric character, or 8 for any character.
pub open spec fn scan_step(st: ScanState, ch: char, alnum: bool) -> ScanState {
    let (out, prev, run, last_was_space) = st;
    if spec_is_whitespace(ch) {
        if !last_was_space && out.len() > 0 {
            (out.push(' '), None, 0, true)
        } else {
            (out, None, 0, last_was_space)
        }
    } else {
        let run2: nat = if prev == Some(ch) {
            run + 1
        } else {
            1
        };
        let drop = (spec_is_ascii_digit(ch) && run2 > 4) || (!alnum && run2 > 3) || run2 > 8;
        (
            if drop {
                out
            } else {
                out.push(ch)
            },
            Some(ch),
            run2,
            false,
        )
    }
}

/// The scan state after the first `n` characters.
pub open spec fn scan_prefix(chars: Seq<char>, alnum: Seq<bool>, n: nat) -> ScanState
    decreases n,
{
    if n == 0 {
        (seq![], None, 0, false)
    } else {
        scan_step(scan_prefix(chars, alnum, (n - 1) as nat), chars[n - 1], alnum[n - 1])
    }
}

proof fn lemma_scan_run_bound(chars: Seq<char>, alnum: Seq<bool>, n: nat)
    ensures
        scan_prefix(chars, alnum, n).2 <= n,
    decreases n,
{
    if n > 0 {
        lemma_scan_run_bound(chars, alnum, (n - 1) as nat);
    }
}

fn squeeze_runs(chars: &Vec<char>, alnum: &[bool]) -> (res: Vec<char>)
    requires
        alnum.len() == chars.len(),
    ensures
        res@ == scan_prefix(chars@, alnum@, chars.len() as nat).0,
{
    let mut out: Vec<char> = Vec::new();
    let mut prev: Option<char> = None;
    let mut run: usize = 0;
    let mut last_was_space = false;
    let mut i: usize = 0;
    while i < chars.len()
        invariant
            i <= chars.len(),
            alnum.len() == chars.len(),
            scan_prefix(chars@, alnum@, i as nat) == (out@, prev, run as nat, last_was_space),
        decreases chars.len() - i,
    {
        let ch = chars[i];
        proof {
            lemma_scan_run_bound(chars@, alnum@, i as nat);
        }
        if is_whitespace(ch) {
            if !last_was_space && out.len() > 0 {
                out.push(' ');
                last_was_space = true;
            }
            prev = None;
            run = 0;
        } else {
            last_was_space = false;
            if prev == Some(ch) {
                run = run + 1;
            } else {
                prev = Some(ch);
                run = 1;
            }
            let too_many_digits = is_ascii_digit(ch) && run > 4;
            let too_many_symbols = !alnum[i] && run > 3;
            let too_many_same_char = run > 8;
            if !(too_many_digits || too_many_symbols || too_many_same_char) {
                out.push(ch);
            }
        }
        i = i + 1;
    }
    out
}

// ---------------------------------------------------------------------------
// Repeated chunks
// ---------------------------------------------------------------------------

/// Where the run of copies of `s[i..i + cl]` that starts at `i` ends, given
/// that copies cover `s[i..pos]`.
pub open spec fn repeat_end(s: Seq<char>, i: int, cl: int, pos: int) -> int
    decreases s.len() - pos,
{
    if cl > 0 && i <= pos && pos + cl <= s.len() && s.subrange(pos, pos + cl) == s.subrange(
        i,
        i + cl,
    ) {
        repeat_end(s, i, cl, pos + cl)
    } else {
        pos
    }
}

pub proof fn lemma_repeat_end_bounds(s: Seq<char>, i: int, cl: int, pos: int)
    requires
        pos <= s.len(),
    ensures
        pos <= repeat_end(s, i, cl, pos) <= s.len(),
    decreases s.len() - pos,
{
    if cl > 0 && i <= pos && pos + cl <= s.len() && s.subrange(pos, pos + cl) == s.subrange(
        i,
        i + cl,
    ) {
        lemma_repeat_end_bounds(s, i, cl, pos + cl);
    }
}

/// The longest chunk length `cl`, from `cl` down to `min_len`, whose chunk
/// at `i` repeats more than `max_repeat` times in a row.
pub open spec fn pick_chunk(s: Seq<char>, i: int, cl: int, min_len: int, max_repeat: int) -> Option<
    int,
>
    decreases cl,
{
    if cl < min_len || cl <= 0 {
        None
    } else if cl * (max_repeat + 1) <= s.len() - i && repeat_end(s, i, cl, i + cl) >= i + cl * (
    max_repeat + 1) {
        Some(cl)
    } else {
        pick_chunk(s, i, cl - 1, min_len, max_repeat)
    }
}

pub proof fn lemma_pick_chunk(s: Seq<char>, i: int, cl: int, min_len: int, max_repeat: int)
    requires
        0 <= i,
        min_len >= 1,
        max_repeat >= 0,
    ensures
        pick_chunk(s, i, cl, min_len, max_repeat) matches Some(c) ==> min_len <= c <= cl && c
            >= 1 && i + c <= s.len() && i + c <= repeat_end(s, i, c, i + c) <= s.len(),
    decreases cl,
{
    if cl < min_len || cl <= 0 {
    } else if cl * (max_repeat + 1) <= s.len() - i && repeat_end(s, i, cl, i + cl) >= i + cl * (
    max_repeat + 1) {
        assert(cl * (max_repeat + 1) >= cl) by (nonlinear_arith)
            requires
                cl >= 1,
                max_repeat >= 0,
        ;
        lemma_repeat_end_bounds(s, i, cl, i + cl);
    } else {
        lemma_pick_chunk(s, i, cl - 1, min_len, max_repeat);
    }
}

/// Text where every run of more than `max_repeat` consecutive copies of a
/// chunk of `min_len..=max_len` characters is cut down to `max_repeat`
/// copies, scanning from `i` and preferring longer chunks.
pub open spec fn collapse_chunks_from(
    s: Seq<char>,
    i: int,
    max_repeat: int,
    min_len: int,
    max_len: int,
) -> Seq<char>
    decreases s.len() - i,
{
    if i < 0 || i >= s.len() || min_len < 1 || max_repeat < 0 {
        seq![]
    } else {
        match pick_chunk(s, i, max_len, min_len, max_repeat) {
            Some(cl) => {
                let end = repeat_end(s, i, cl, i + cl);
                proof {
                    lemma_pick_chunk(s, i, max_len, min_len, max_repeat);
                }
                repeat(s.subrange(i, i + cl), max_repeat as nat) + collapse_chunks_from(
                    s,
                    end,
                    max_repeat,
                    min_len,
                    max_len,
                )
            },
            None => seq![s[i]] + collapse_chunks_from(s, i + 1, max_repeat, min_len, max_len),
        }
    }
}

/// Copies of `s[i..i+cl]` from `pos` on, as the executable loop finds them.
fn find_repeat_end(s: &Vec<char>, i: usize, cl: usize) -> (end: usize)
    requires
        cl > 0,
        i + cl <= s.len(),
    ensures
        end == repeat_end(s@, i as int, cl as int, i + cl),
        i + cl <= end <= s.len(),
{
    let mut pos = i + cl;
    proof {
        lemma_repeat_end_bounds(s@, i as int, cl as int, i + cl);
    }
    while cl <= s.len() - pos && chunk_equal(s, pos, i, cl)
        invariant
            cl > 0,
            i + cl <= pos <= s.len(),
            repeat_end(s@, i as int, cl as int, i + cl) == repeat_end(
                s@,
                i as int,
                cl as int,
                pos as int,
            ),
        decreases s.len() - pos,
    {
        pos = pos + cl;
    }
    proof {
        lemma_repeat_end_bounds(s@, i as int, cl as int, pos as int);
    }
    pos
}

/// Whether `s[a..a+cl] == s[b..b+cl]`.
fn chunk_equal(s: &Vec<char>, a: usize, b: usize, cl: usize) -> (r: bool)
    requires
        a + cl <= s.len(),
        b + cl <= s.len(),
    ensures
        r == (s@.subrange(a as int, a + cl) == s@.subrange(b as int, b + cl)),
{
    let mut k: usize = 0;
    while k < cl
        invariant
            k <= cl,
            a + cl <= s.len(),
            b + cl <= s.len(),
            s@.subrange(a as int, a + k) == s@.subrange(b as int, b + k),
        decreases cl - k,
    {
        if s[a + k] != s[b + k] {
            proof {
                assert(s@.subrange(a as int, a + cl)[k as int] != s@.subrange(b as int, b + cl)[k as int]);
            }
            return false;
        }
        proof {
            assert(s@.subrange(a as int, a + k + 1) =~= s@.subrange(a as int, a + k).push(s@[a + k]));
            assert(s@.subrange(b as int, b + k + 1) =~= s@.subrange(b as int, b + k).push(s@[b + k]));
        }
        k = k + 1;
    }
    true
}

fn collapse_repeated_chunks(
    chars: &Vec<char>,
    max_repeat: usize,
    min_chunk_len: usize,
    max_chunk_len: usize,
) -> (res: Vec<char>)
    requires
        min_chunk_len >= 1,
        (max_repeat + 1) * max_chunk_len <= usize::MAX,
        max_repeat * max_chunk_len <= usize::MAX,
    ensures
        res@ == collapse_chunks_from(
            chars@,
            0,
            max_repeat as int,
            min_chunk_len as int,
            max_chunk_len as int,
        ),
{
    let mut out: Vec<char> = Vec::new();
    let mut i: usize = 0;
    let ghost s = chars@;
    let ghost mr = max_repeat as int;
    let ghost mn = min_chunk_len as int;
    let ghost mx = max_chunk_len as int;
    while i < chars.len()
        invariant
            i <= chars.len(),
            s == chars@,
            mr == max_repeat,
            mn == min_chunk_len,
            mx == max_chunk_len,
            min_chunk_len >= 1,
            (max_repeat + 1) * max_chunk_len <= usize::MAX,
            max_repeat * max_chunk_len <= usize::MAX,
            collapse_chunks_from(s, 0, mr, mn, mx) == out@ + collapse_chunks_from(
                s,
                i as int,
                mr,
                mn,
                mx,
            ),
        decreases chars.len() - i,
    {
        let ghost out0 = out@;
        let mut chunk_len = max_chunk_len;
        let mut picked: Option<(usize, usize)> = None;
        while chunk_len >= min_chunk_len
            invariant_except_break
                picked is None,
                pick_chunk(s, i as int, mx, mn, mr) == pick_chunk(
                    s,
                    i as int,
                    chunk_len as int,
                    mn,
                    mr,
                ),
            invariant
                i < chars.len(),
                s == chars@,
                mr == max_repeat,
                mn == min_chunk_len,
                mx == max_chunk_len,
                min_chunk_len >= 1,
                chunk_len <= max_chunk_len,
                (max_repeat + 1) * max_chunk_len <= usize::MAX,
            ensures
                picked is None ==> chunk_len < min_chunk_len && pick_chunk(s, i as int, mx, mn, mr)
                    == pick_chunk(s, i as int, chunk_len as int, mn, mr),
                picked matches Some((c, e)) ==> pick_chunk(s, i as int, mx, mn, mr) == Some(
                    c as int,
                ) && e == repeat_end(s, i as int, c as int, i + c),
            decreases chunk_len,
        {
            proof {
                assert(max_repeat + 1 <= (max_repeat + 1) * max_chunk_len) by (nonlinear_arith)
                    requires
                        max_chunk_len >= 1,
                ;
                assert(chunk_len * (max_repeat + 1) <= max_chunk_len * (max_repeat + 1))
                    by (nonlinear_arith)
                    requires
                        chunk_len <= max_chunk_len,
                ;
                assert(chunk_len * (max_repeat + 1) == (max_repeat + 1) * chunk_len)
                    by (nonlinear_arith);
                assert(max_chunk_len * (max_repeat + 1) == (max_repeat + 1) * max_chunk_len)
                    by (nonlinear_arith);
            }
            let need = chunk_len * (max_repeat + 1);
            if need <= chars.len() - i {
                proof {
                    assert(chunk_len * (max_repeat + 1) >= chunk_len) by (nonlinear_arith)
                        requires
                            chunk_len >= 1,
                    ;
                }
                let end = find_repeat_end(chars, i, chunk_len);
                if end - i >= need {
                    proof {
                        assert(pick_chunk(s, i as int, chunk_len as int, mn, mr) == Some(
                            chunk_len as int,
                        ));
                        assert(pick_chunk(s, i as int, mx, mn, mr) == Some(chunk_len as int));
                        assert(end == repeat_end(s, i as int, chunk_len as int, i + chunk_len));
                    }
                    picked = Some((chunk_len, end));
                    break;
                }
            }
            chunk_len = chunk_len - 1;
        }
        match picked {
            Some((cl, end)) => {
                proof {
                    lemma_pick_chunk(s, i as int, mx, mn, mr);
                    assert(collapse_chunks_from(s, i as int, mr, mn, mx) == repeat(
                        s.subrange(i as int, i + cl),
                        mr as nat,
                    ) + collapse_chunks_from(s, end as int, mr, mn, mx));
                    assert(max_repeat * cl <= max_repeat * max_chunk_len) by (nonlinear_arith)
                        requires
                            cl <= max_chunk_len,
                    ;
                    assert(max_repeat * cl == cl * max_repeat) by (nonlinear_arith);
                }
                let chunk = slice_chars(chars, i, i + cl);
                let rep = repeat_chars(&chunk, max_repeat);
                extend_chars(&mut out, &rep);
                proof {
                    assert(out0 + (rep@ + collapse_chunks_from(s, end as int, mr, mn, mx)) =~= out@
                        + collapse_chunks_from(s, end as int, mr, mn, mx));
                }
                i = end;
            },
            None => {
                proof {
                    assert(pick_chunk(s, i as int, chunk_len as int, mn, mr) is None);
                    assert(pick_chunk(s, i as int, mx, mn, mr) is None);
                    assert(collapse_chunks_from(s, i as int, mr, mn, mx) == seq![s[i as int]]
                        + collapse_chunks_from(s, i + 1, mr, mn, mx));
                }
                out.push(chars[i]);
                proof {
                    assert(out0 + (seq![s[i as int]] + collapse_chunks_from(s, i + 1, mr, mn, mx))
                        =~= out@ + collapse_chunks_from(s, i + 1, mr, mn, mx));
                }
                i = i + 1;
            },
        }
    }
    proof {
        assert(out@ + Seq::<char>::empty() =~= out@);
    }
    out
}

// ---------------------------------------------------------------------------
// Unmatched closing brackets
// ---------------------------------------------------------------------------

pub open spec fn is_open_bracket(c: char) -> bool {
    c == '(' || c == '（' || c == '「' || c == '『' || c == '【'
}

/// The opening bracket that a closing bracket closes.
pub open spec fn opening_of(c: char) -> Option<char> {
    if c == ')' {
        Some('(')
    } else if c == '）' {
        Some('（')
    } else if c == '」' {
        Some('「')
    } else if c == '』' {
        Some('『')
    } else if c == '】' {
        Some('【')
    } else {
        None
    }
}

fn opening_of_exec(c: char) -> (r: Option<char>)
    ensures
        r == opening_of(c),
{
    if c == ')' {
        Some('(')
    } else if c == '）' {
        Some('（')
    } else if c == '」' {
        Some('「')
    } else if c == '』' {
        Some('『')
    } else if c == '】' {
        Some('【')
    } else {
        None
    }
}

/// The stack of open brackets and the text kept after scanning `s`: a
/// closing bracket is kept only when it closes the innermost open bracket.
pub open spec fn bracket_scan(s: Seq<char>) -> (Seq<char>, Seq<char>)
    decreases s.len(),
{
    if s.len() == 0 {
        (seq![], seq![])
    } else {
        let (stack, out) = bracket_scan(s.drop_last());
        let ch = s.last();
        if is_open_bracket(ch) {
            (stack.push(ch), out.push(ch))
        } else {
            match opening_of(ch) {
                Some(open) => if stack.len() > 0 && stack.last() == open {
                    (stack.drop_last(), out.push(ch))
                } else {
                    (stack, out)
                },
                None => (stack, out.push(ch)),
            }
        }
    }
}

fn pop_if_matches(stack: &mut Vec<char>, open: char) -> (r: bool)
    ensures
        r == (old(stack)@.len() > 0 && old(stack)@.last() == open),
        r ==> final(stack)@ == old(stack)@.drop_last(),
        !r ==> final(stack)@ == old(stack)@,
{
    let n = stack.len();
    if n > 0 && stack[n - 1] == open {
        stack.pop();
        return true;
    }
    false
}

fn remove_unmatched_closing_brackets(input: &Vec<char>) -> (res: Vec<char>)
    ensures
        res@ == bracket_scan(input@).1,
{
    let mut out: Vec<char> = Vec::new();
    let mut stack: Vec<char> = Vec::new();
    let mut i: usize = 0;
    proof {
        assert(input@.take(0) =~= Seq::<char>::empty());
    }
    while i < input.len()
        invariant
            i <= input.len(),
            bracket_scan(input@.take(i as int)) == (stack@, out@),
        decreases input.len() - i,
    {
        let ch = input[i];
        proof {
            assert(input@.take(i + 1).drop_last() =~= input@.take(i as int));
            assert(input@.take(i + 1).last() == ch);
        }
        if ch == '(' || ch == '（' || ch == '「' || ch == '『' || ch == '【' {
            stack.push(ch);
            out.push(ch);
        } else {
            match opening_of_exec(ch) {
                Some(open) => {
                    if pop_if_matches(&mut stack, open) {
                        out.push(ch);
                    }
                },
                None => {
                    out.push(ch);
                },
            }
        }
        i = i + 1;
    }
    proof {
        assert(input@.take(input.len() as int) =~= input@);
    }
    out
}

// ---------------------------------------------------------------------------
// Repeated phrases and common misreadings
// ---------------------------------------------------------------------------

pub proof fn lemma_replace_all_not_longer(s: Seq<char>, from: Seq<char>, to: Seq<char>)
    requires
        from.len() > 0,
        to.len() <= from.len(),
    ensures
        replace_all(s, from, to).len() <= s.len(),
        contains(s, from) && to.len() < from.len() ==> replace_all(s, from, to).len() < s.len(),
    decreases s.len(),
{
    if starts_with(s, from) {
        lemma_replace_all_not_longer(s.skip(from.len() as int), from, to);
    } else if s.len() == 0 {
        if contains(s, from) {
            let j = choose|j: int| occurs_at(s, from, j);
            assert(false);
        }
    } else {
        lemma_replace_all_not_longer(s.drop_first(), from, to);
        if contains(s, from) && to.len() < from.len() {
            let j = choose|j: int| occurs_at(s, from, j);
            if j == 0 {
                assert(s.take(from.len() as int) =~= s.subrange(0, from.len() as int));
                assert(false);
            }
            assert(s.drop_first().subrange(j - 1, j - 1 + from.len()) =~= s.subrange(
                j,
                j + from.len(),
            ));
            assert(occurs_at(s.drop_first(), from, j - 1));
        }
    }
}

/// `s` after replacing `rep` by `kept` until `rep` no longer occurs.
pub open spec fn collapse_phrase(s: Seq<char>, rep: Seq<char>, kept: Seq<char>) -> Seq<char>
    decreases s.len(),
{
    if rep.len() > 0 && kept.len() < rep.len() && contains(s, rep) {
        proof {
            lemma_replace_all_not_longer(s, rep, kept);
        }
        collapse_phrase(replace_all(s, rep, kept), rep, kept)
    } else {
        s
    }
}

/// Each non-empty phrase, in order, repeated more than `max_repeat` times
/// in a row is cut down to `max_repeat` copies.
pub open spec fn collapse_phrases(s: Seq<char>, phrases: Seq<Seq<char>>, max_repeat: nat) -> Seq<
    char,
>
    decreases phrases.len(),
{
    if phrases.len() == 0 {
        s
    } else {
        let p = phrases[0];
        let s2 = if p.len() == 0 {
            s
        } else {
            collapse_phrase(s, repeat(p, max_repeat + 1), repeat(p, max_repeat))
        };
        collapse_phrases(s2, phrases.drop_first(), max_repeat)
    }
}

fn collapse_phrase_exec(s: &Vec<char>, rep: &Vec<char>, kept: &Vec<char>) -> (res: Vec<char>)
    requires
        rep.len() > 0,
        kept.len() < rep.len(),
    ensures
        res@ == collapse_phrase(s@, rep@, kept@),
{
    let mut out = s.clone();
    proof {
        assert(out@ =~= s@);
    }
    while contains_chars(&out, rep)
        invariant
            rep.len() > 0,
            kept.len() < rep.len(),
            collapse_phrase(s@, rep@, kept@) == collapse_phrase(out@, rep@, kept@),
        decreases out.len(),
    {
        proof {
            lemma_replace_all_not_longer(out@, rep@, kept@);
        }
        out = replace_all_chars(&out, rep, kept);
    }
    out
}

fn collapse_repeated_phrases(input: &Vec<char>, phrases: &Vec<Vec<char>>, max_repeat: usize) -> (res:
    Vec<char>)
    requires
        forall|k: int| 0 <= k < phrases.len() ==> (max_repeat + 1) * (#[trigger] phrases@[k]).len()
            <= usize::MAX,
    ensures
        res@ == collapse_phrases(input@, phrases.deep_view(), max_repeat as nat),
{
    let mut out = input.clone();
    let mut k: usize = 0;
    proof {
        assert(out@ =~= input@);
        assert(phrases.deep_view().skip(0) =~= phrases.deep_view());
    }
    while k < phrases.len()
        invariant
            k <= phrases.len(),
            forall|j: int| 0 <= j < phrases.len() ==> (max_repeat + 1) * (#[trigger] phrases@[j]).len()
                <= usize::MAX,
            collapse_phrases(input@, phrases.deep_view(), max_repeat as nat) == collapse_phrases(
                out@,
                phrases.deep_view().skip(k as int),
                max_repeat as nat,
            ),
        decreases phrases.len() - k,
    {
        let p = &phrases[k];
        proof {
            crate::chars::lemma_chars_deep_view(*p);
            assert(phrases.deep_view().skip(k as int)[0] == p@);
            assert(phrases.deep_view().skip(k as int).drop_first() =~= phrases.deep_view().skip(
                k + 1,
            ));
        }
        if p.len() > 0 {
            proof {
                assert(max_repeat + 1 <= (max_repeat + 1) * p.len()) by (nonlinear_arith)
                    requires
                        p.len() >= 1,
                ;
                assert(max_repeat * p.len() <= (max_repeat + 1) * p.len()) by (nonlinear_arith);
                lemma_repeat_len(p@, (max_repeat + 1) as nat);
                lemma_repeat_len(p@, max_repeat as nat);
                assert((max_repeat + 1) * p.len() == max_repeat * p.len() + p.len())
                    by (nonlinear_arith);
            }
            let rep = repeat_chars(p, max_repeat + 1);
            let kept = repeat_chars(p, max_repeat);
            out = collapse_phrase_exec(&out, &rep, &kept);
        }
        k = k + 1;
    }
    out
}

/// Replacement pairs for frequent misreadings in contract documents.
pub open spec fn common_replacements() -> Seq<(Seq<char>, Seq<char>)> {
    seq![
        (seq!['調', '示'], seq!['開', '示']),
        (seq!['圖', '示'], seq!['開', '示']),
        (seq!['単', '又', 'は', '乙'], seq!['甲', '又', 'は', '乙']),
    ]
}

fn apply_common_japanese_ocr_replacements(input: &Vec<char>) -> (res: Vec<char>)
    ensures
        res@ == replace_pairs(input@, common_replacements()),
{
    let mut f1: Vec<char> = Vec::new();
    f1.push('調');
    f1.push('示');
    let mut f2: Vec<char> = Vec::new();
    f2.push('圖');
    f2.push('示');
    let mut t12: Vec<char> = Vec::new();
    t12.push('開');
    t12.push('示');
    let mut f3: Vec<char> = Vec::new();
    f3.push('単');
    f3.push('又');
    f3.push('は');
    f3.push('乙');
    let mut t3: Vec<char> = Vec::new();
    t3.push('甲');
    t3.push('又');
    t3.push('は');
    t3.push('乙');
    let a = replace_all_chars(input, &f1, &t12);
    let b = replace_all_chars(&a, &f2, &t12);
    let c = replace_all_chars(&b, &f3, &t3);
    proof {
        let pairs = common_replacements();
        assert(pairs.drop_first().drop_first().drop_first() =~= Seq::<
            (Seq<char>, Seq<char>),
        >::empty());
        assert(f1@ =~= pairs[0].0);
        assert(t12@ =~= pairs[0].1);
        assert(f2@ =~= pairs[1].0);
        assert(t12@ =~= pairs[1].1);
        assert(f3@ =~= pairs[2].0);
        assert(t3@ =~= pairs[2].1);
        assert(pairs.drop_first()[0] == pairs[1]);
        assert(pairs.drop_first().drop_first()[0] == pairs[2]);
        assert(replace_pairs(c@, pairs.drop_first().drop_first().drop_first()) == c@);
        assert(replace_pairs(b@, pairs.drop_first().drop_first()) == c@);
        assert(replace_pairs(a@, pairs.drop_first()) == c@);
    }
    c
}

// ---------------------------------------------------------------------------
// Whole-line clean-up
// ---------------------------------------------------------------------------

/// Phrases that OCR tends to repeat: `という。` and `このように, `.
pub open spec fn repeated_phrases() -> Seq<Seq<char>> {
    seq![seq!['と', 'い', 'う', '。'], seq!['こ', 'の', 'よ', 'う', 'に', ',', ' ']]
}

/// The clean-up of a recognised line, given which of its characters are
/// alphanumeric: squeeze white space and over-long runs, trim, cut chunks of
/// 2 to 10 characters repeated more than twice down to two copies, cut
/// repeated phrases down to one copy, drop unmatched closing brackets and
/// fix common misreadings.
pub open spec fn sanitized_text(chars: Seq<char>, alnum: Seq<bool>) -> Seq<char> {
    let squeezed = trim(scan_prefix(chars, alnum, chars.len()).0);
    let chunks = collapse_chunks_from(squeezed, 0, 2, 2, 10);
    let phrases = collapse_phrases(chunks, repeated_phrases(), 1);
    replace_pairs(bracket_scan(phrases).1, common_replacements())
}

proof fn lemma_scan_not_longer(chars: Seq<char>, alnum: Seq<bool>, n: nat)
    ensures
        scan_prefix(chars, alnum, n).0.len() <= n,
    decreases n,
{
    if n > 0 {
        lemma_scan_not_longer(chars, alnum, (n - 1) as nat);
    }
}

proof fn lemma_trim_start_not_longer(s: Seq<char>)
    ensures
        crate::chars::trim_start(s).len() <= s.len(),
    decreases s.len(),
{
    if s.len() > 0 && spec_is_whitespace(s[0]) {
        lemma_trim_start_not_longer(s.drop_first());
    }
}

proof fn lemma_trim_end_not_longer(s: Seq<char>)
    ensures
        crate::chars::trim_end(s).len() <= s.len(),
    decreases s.len(),
{
    if s.len() > 0 && spec_is_whitespace(s.last()) {
        lemma_trim_end_not_longer(s.drop_last());
    }
}

proof fn lemma_pick_chunk_repeats(s: Seq<char>, i: int, cl: int, min_len: int, max_repeat: int)
    ensures
        pick_chunk(s, i, cl, min_len, max_repeat) matches Some(c) ==> repeat_end(s, i, c, i + c) >= i + c * (
        max_repeat + 1),
    decreases cl,
{
    if cl < min_len || cl <= 0 {
    } else if cl * (max_repeat + 1) <= s.len() - i && repeat_end(s, i, cl, i + cl) >= i + cl * (
    max_repeat + 1) {
    } else {
        lemma_pick_chunk_repeats(s, i, cl - 1, min_len, max_repeat);
    }
}

proof fn lemma_chunks_not_longer(s: Seq<char>, i: int, max_repeat: int, min_len: int, max_len: int)
    requires
        0 <= i,
    ensures
        collapse_chunks_from(s, i, max_repeat, min_len, max_len).len() <= if i < s.len() {
            s.len() - i
        } else {
            0
        },
    decreases s.len() - i,
{
    if i < 0 || i >= s.len() || min_len < 1 || max_repeat < 0 {
    } else {
        match pick_chunk(s, i, max_len, min_len, max_repeat) {
            Some(cl) => {
                lemma_pick_chunk(s, i, max_len, min_len, max_repeat);
                lemma_pick_chunk_repeats(s, i, max_len, min_len, max_repeat);
                let end = repeat_end(s, i, cl, i + cl);
                lemma_chunks_not_longer(s, end, max_repeat, min_len, max_len);
                lemma_repeat_len(s.subrange(i, i + cl), max_repeat as nat);
                assert(max_repeat * cl <= cl * (max_repeat + 1)) by (nonlinear_arith)
                    requires
                        cl >= 1,
                        max_repeat >= 0,
                ;
                assert(max_repeat as nat * s.subrange(i, i + cl).len() == max_repeat * cl);
            },
            None => {
                lemma_chunks_not_longer(s, i + 1, max_repeat, min_len, max_len);
            },
        }
    }
}

proof fn lemma_phrase_not_longer(s: Seq<char>, rep: Seq<char>, kept: Seq<char>)
    ensures
        collapse_phrase(s, rep, kept).len() <= s.len(),
    decreases s.len(),
{
    if rep.len() > 0 && kept.len() < rep.len() && contains(s, rep) {
        lemma_replace_all_not_longer(s, rep, kept);
        lemma_phrase_not_longer(replace_all(s, rep, kept), rep, kept);
    }
}

proof fn lemma_phrases_not_longer(s: Seq<char>, phrases: Seq<Seq<char>>, max_repeat: nat)
    ensures
        collapse_phrases(s, phrases, max_repeat).len() <= s.len(),
    decreases phrases.len(),
{
    if phrases.len() > 0 {
        let p = phrases[0];
        let s2 = if p.len() == 0 {
            s
        } else {
            collapse_phrase(s, repeat(p, max_repeat + 1), repeat(p, max_repeat))
        };
        if p.len() > 0 {
            lemma_phrase_not_longer(s, repeat(p, max_repeat + 1), repeat(p, max_repeat));
        }
        lemma_phrases_not_longer(s2, phrases.drop_first(), max_repeat);
    }
}

proof fn lemma_bracket_scan_not_longer(s: Seq<char>)
    ensures
        bracket_scan(s).1.len() <= s.len(),
    decreases s.len(),
{
    if s.len() > 0 {
        lemma_bracket_scan_not_longer(s.drop_last());
    }
}

proof fn lemma_pairs_not_longer(s: Seq<char>, pairs: Seq<(Seq<char>, Seq<char>)>)
    requires
        forall|k: int| 0 <= k < pairs.len() ==> (#[trigger] pairs[k]).0.len() > 0 && pairs[k].1.len() <= pairs[k].0.len(),
    ensures
        replace_pairs(s, pairs).len() <= s.len(),
    decreases pairs.len(),
{
    if pairs.len() > 0 {
        assert(pairs[0].0.len() > 0 && pairs[0].1.len() <= pairs[0].0.len());
        lemma_replace_all_not_longer(s, pairs[0].0, pairs[0].1);
        let rest = pairs.drop_first();
        assert forall|k: int| 0 <= k < rest.len() implies (#[trigger] rest[k]).0.len() > 0 && rest[k].1.len() <= rest[k].0.len() by {
            assert(rest[k] == pairs[k + 1]);
        }
        lemma_pairs_not_longer(replace_all(s, pairs[0].0, pairs[0].1), rest);
    }
}

/// The clean-up never lengthens a line: it has at most as many characters
/// as the recognised text, whatever the alphanumeric classes.
pub proof fn lemma_sanitized_not_longer(chars: Seq<char>, alnum: Seq<bool>)
    ensures
        sanitized_text(chars, alnum).len() <= chars.len(),
{
    let scanned = scan_prefix(chars, alnum, chars.len()).0;
    lemma_scan_not_longer(chars, alnum, chars.len());
    lemma_trim_start_not_longer(scanned);
    lemma_trim_end_not_longer(crate::chars::trim_start(scanned));
    let squeezed = trim(scanned);
    lemma_chunks_not_longer(squeezed, 0, 2, 2, 10);
    let chunks = collapse_chunks_from(squeezed, 0, 2, 2, 10);
    lemma_phrases_not_longer(chunks, repeated_phrases(), 1);
    let phrases = collapse_phrases(chunks, repeated_phrases(), 1);
    lemma_bracket_scan_not_longer(phrases);
    let pairs = common_replacements();
    assert forall|k: int| 0 <= k < pairs.len() implies (#[trigger] pairs[k]).0.len() > 0 && pairs[k].1.len() <= pairs[k].0.len() by {}
    lemma_pairs_not_longer(bracket_scan(phrases).1, pairs);
}

proof fn lemma_replace_all_head(s: Seq<char>, from: Seq<char>, to: Seq<char>)
    requires
        from.len() > 0,
        to.len() > 0,
    ensures
        starts_with(s, from) ==> replace_all(s, from, to).len() > 0 && replace_all(s, from, to)[0] == to[0],
        !starts_with(s, from) && s.len() > 0 ==> replace_all(s, from, to)[0] == s[0],
{
    if starts_with(s, from) {
        assert((to + replace_all(s.skip(from.len() as int), from, to))[0] == to[0]);
    } else if s.len() > 0 {
        assert((seq![s[0]] + replace_all(s.drop_first(), from, to))[0] == s[0]);
    }
}

proof fn lemma_occurs_in_tail(s: Seq<char>, p: Seq<char>, k: int, j: int)
    requires
        0 <= k <= s.len(),
        occurs_at(s.skip(k), p, j),
    ensures
        occurs_at(s, p, j + k),
{
    assert(s.skip(k).subrange(j, j + p.len()) =~= s.subrange(j + k, j + k + p.len()));
}

/// Replacing every `ab` by `cd`, where `cd` neither is `ab` nor can form it
/// with its neighbours, leaves no `ab`.
proof fn lemma_replace_all_removes_pair(s: Seq<char>, a: char, b: char, c: char, d: char)
    requires
        a != b,
        c != a,
        c != b,
        d != a,
    ensures
        !contains(replace_all(s, seq![a, b], seq![c, d]), seq![a, b]),
    decreases s.len(),
{
    let p = seq![a, b];
    let t = seq![c, d];
    let r = replace_all(s, p, t);
    if starts_with(s, p) {
        let rest = s.skip(2);
        lemma_replace_all_removes_pair(rest, a, b, c, d);
        let rr = replace_all(rest, p, t);
        assert(r == t + rr);
        if contains(r, p) {
            let j = choose|j: int| occurs_at(r, p, j);
            assert(r[j] == a && r[j + 1] == b);
            if j >= 2 {
                assert(rr.subrange(j - 2, j) =~= r.subrange(j, j + 2));
                assert(occurs_at(rr, p, j - 2));
            }
        }
    } else if s.len() > 0 {
        let rest = s.drop_first();
        lemma_replace_all_removes_pair(rest, a, b, c, d);
        let rr = replace_all(rest, p, t);
        assert(r == seq![s[0]] + rr);
        lemma_replace_all_head(rest, p, t);
        if contains(r, p) {
            let j = choose|j: int| occurs_at(r, p, j);
            assert(r[j] == a && r[j + 1] == b);
            if j >= 1 {
                assert(rr.subrange(j - 1, j + 1) =~= r.subrange(j, j + 2));
                assert(occurs_at(rr, p, j - 1));
            } else {
                assert(rr[0] == b);
                if !starts_with(rest, p) {
                    assert(s[1] == b);
                    assert(s.take(2) =~= p);
                }
            }
        }
    } else {
        assert(r == Seq::<char>::empty());
    }
}

/// Replacing with a text that holds no `a` and does not start with `b`
/// creates no `ab`.
proof fn lemma_replace_all_keeps_pair_out(s: Seq<char>, from: Seq<char>, to: Seq<char>, a: char, b: char)
    requires
        from.len() > 0,
        to.len() > 0,
        to[0] != b,
        forall|i: int| 0 <= i < to.len() ==> to[i] != a,
        !contains(s, seq![a, b]),
    ensures
        !contains(replace_all(s, from, to), seq![a, b]),
    decreases s.len(),
{
    let p = seq![a, b];
    let r = replace_all(s, from, to);
    if starts_with(s, from) {
        let rest = s.skip(from.len() as int);
        if contains(rest, p) {
            let j = choose|j: int| occurs_at(rest, p, j);
            lemma_occurs_in_tail(s, p, from.len() as int, j);
        }
        lemma_replace_all_keeps_pair_out(rest, from, to, a, b);
        let rr = replace_all(rest, from, to);
        assert(r == to + rr);
        if contains(r, p) {
            let j = choose|j: int| occurs_at(r, p, j);
            assert(r[j] == a && r[j + 1] == b);
            if j < to.len() {
                assert(r[j] == to[j]);
            } else {
                assert(rr.subrange(j - to.len(), j - to.len() + 2) =~= r.subrange(j, j + 2));
                assert(occurs_at(rr, p, j - to.len()));
            }
        }
    } else if s.len() > 0 {
        let rest = s.drop_first();
        if contains(rest, p) {
            let j = choose|j: int| occurs_at(rest, p, j);
            lemma_occurs_in_tail(s, p, 1, j);
        }
        lemma_replace_all_keeps_pair_out(rest, from, to, a, b);
        let rr = replace_all(rest, from, to);
        assert(r == seq![s[0]] + rr);
        lemma_replace_all_head(rest, from, to);
        if contains(r, p) {
            let j = choose|j: int| occurs_at(r, p, j);
            assert(r[j] == a && r[j + 1] == b);
            if j >= 1 {
                assert(rr.subrange(j - 1, j + 1) =~= r.subrange(j, j + 2));
                assert(occurs_at(rr, p, j - 1));
            } else {
                assert(rr[0] == b);
                if !starts_with(rest, from) {
                    assert(s[1] == b);
                    assert(occurs_at(s, p, 0)) by {
                        assert(s.subrange(0, 2) =~= p);
                    }
                }
            }
        }
    } else {
        assert(r == Seq::<char>::empty());
    }
}

/// The clean-up fixes the misreadings `調示` and `圖示` of `開示`: its
/// result never contains either, whatever the line.
pub proof fn lemma_sanitized_has_no_misread_kaiji(chars: Seq<char>, alnum: Seq<bool>)
    ensures
        !contains(sanitized_text(chars, alnum), seq!['調', '示']),
        !contains(sanitized_text(chars, alnum), seq!['圖', '示']),
{
    let squeezed = trim(scan_prefix(chars, alnum, chars.len()).0);
    let chunks = collapse_chunks_from(squeezed, 0, 2, 2, 10);
    let phrases = collapse_phrases(chunks, repeated_phrases(), 1);
    let x0 = bracket_scan(phrases).1;
    let pairs = common_replacements();
    let x1 = replace_all(x0, pairs[0].0, pairs[0].1);
    let x2 = replace_all(x1, pairs[1].0, pairs[1].1);
    let x3 = replace_all(x2, pairs[2].0, pairs[2].1);
    assert(pairs.drop_first()[0] == pairs[1]);
    assert(pairs.drop_first().drop_first()[0] == pairs[2]);
    assert(pairs.drop_first().drop_first().drop_first() =~= Seq::<(Seq<char>, Seq<char>)>::empty());
    let q1 = pairs.drop_first();
    let q2 = q1.drop_first();
    let q3 = q2.drop_first();
    assert(replace_pairs(x3, q3) == x3);
    assert(replace_pairs(x2, q2) == replace_pairs(replace_all(x2, q2[0].0, q2[0].1), q3));
    assert(replace_pairs(x1, q1) == replace_pairs(replace_all(x1, q1[0].0, q1[0].1), q2));
    assert(replace_pairs(x0, pairs) == replace_pairs(x1, q1));
    assert(sanitized_text(chars, alnum) == x3);
    let k = seq!['開', '示'];
    let ko = seq!['甲', '又', 'は', '乙'];
    assert(pairs[0] == (seq!['調', '示'], k));
    assert(pairs[1] == (seq!['圖', '示'], k));
    assert(pairs[2] == (seq!['単', '又', 'は', '乙'], ko));
    lemma_replace_all_removes_pair(x0, '調', '示', '開', '示');
    lemma_replace_all_keeps_pair_out(x1, pairs[1].0, k, '調', '示');
    lemma_replace_all_keeps_pair_out(x2, pairs[2].0, ko, '調', '示');
    lemma_replace_all_removes_pair(x1, '圖', '示', '開', '示');
    lemma_replace_all_keeps_pair_out(x2, pairs[2].0, ko, '圖', '示');
}

/// Every white-space character of `s` is a plain space.
pub open spec fn spaces_only(s: Seq<char>) -> bool {
    forall|i: int| 0 <= i < s.len() && spec_is_whitespace(#[trigger] s[i]) ==> s[i] == ' '
}

proof fn lemma_scan_spaces_only(chars: Seq<char>, alnum: Seq<bool>, n: nat)
    ensures
        spaces_only(scan_prefix(chars, alnum, n).0),
    decreases n,
{
    if n > 0 {
        lemma_scan_spaces_only(chars, alnum, (n - 1) as nat);
        let prev = scan_prefix(chars, alnum, (n - 1) as nat).0;
        let out = scan_prefix(chars, alnum, n).0;
        assert forall|i: int| 0 <= i < out.len() && spec_is_whitespace(#[trigger] out[i]) implies out[i] == ' ' by {
            if i < prev.len() {
                assert(out[i] == prev[i]);
            }
        }
    }
}

proof fn lemma_trim_spaces_only(s: Seq<char>)
    requires
        spaces_only(s),
    ensures
        spaces_only(crate::chars::trim_start(s)),
        spaces_only(crate::chars::trim_end(s)),
    decreases s.len(),
{
    if s.len() > 0 {
        assert(spaces_only(s.drop_first())) by {
            assert forall|i: int| 0 <= i < s.drop_first().len() && spec_is_whitespace(#[trigger] s.drop_first()[i]) implies s.drop_first()[i] == ' ' by {
                assert(s.drop_first()[i] == s[i + 1]);
            }
        }
        assert(spaces_only(s.drop_last())) by {
            assert forall|i: int| 0 <= i < s.drop_last().len() && spec_is_whitespace(#[trigger] s.drop_last()[i]) implies s.drop_last()[i] == ' ' by {
                assert(s.drop_last()[i] == s[i]);
            }
        }
        lemma_trim_spaces_only(s.drop_first());
        lemma_trim_spaces_only(s.drop_last());
    }
}

proof fn lemma_concat_spaces_only(a: Seq<char>, b: Seq<char>)
    requires
        spaces_only(a),
        spaces_only(b),
    ensures
        spaces_only(a + b),
{
    assert forall|i: int| 0 <= i < (a + b).len() && spec_is_whitespace(#[trigger] (a + b)[i]) implies (a + b)[i] == ' ' by {
        if i < a.len() {
            assert((a + b)[i] == a[i]);
        } else {
            assert((a + b)[i] == b[i - a.len()]);
        }
    }
}

proof fn lemma_repeat_spaces_only(p: Seq<char>, n: nat)
    requires
        spaces_only(p),
    ensures
        spaces_only(repeat(p, n)),
    decreases n,
{
    if n > 0 {
        lemma_repeat_spaces_only(p, (n - 1) as nat);
        lemma_concat_spaces_only(repeat(p, (n - 1) as nat), p);
    }
}

proof fn lemma_chunks_spaces_only(s: Seq<char>, i: int, max_repeat: int, min_len: int, max_len: int)
    requires
        0 <= i,
        spaces_only(s),
    ensures
        spaces_only(collapse_chunks_from(s, i, max_repeat, min_len, max_len)),
    decreases s.len() - i,
{
    if i < 0 || i >= s.len() || min_len < 1 || max_repeat < 0 {
    } else {
        match pick_chunk(s, i, max_len, min_len, max_repeat) {
            Some(cl) => {
                lemma_pick_chunk(s, i, max_len, min_len, max_repeat);
                let end = repeat_end(s, i, cl, i + cl);
                lemma_chunks_spaces_only(s, end, max_repeat, min_len, max_len);
                let chunk = s.subrange(i, i + cl);
                assert(spaces_only(chunk)) by {
                    assert forall|k: int| 0 <= k < chunk.len() && spec_is_whitespace(#[trigger] chunk[k]) implies chunk[k] == ' ' by {
                        assert(chunk[k] == s[i + k]);
                    }
                }
                lemma_repeat_spaces_only(chunk, max_repeat as nat);
                lemma_concat_spaces_only(
                    repeat(chunk, max_repeat as nat),
                    collapse_chunks_from(s, end, max_repeat, min_len, max_len),
                );
            },
            None => {
                lemma_chunks_spaces_only(s, i + 1, max_repeat, min_len, max_len);
                assert(spaces_only(seq![s[i]])) by {
                    assert(seq![s[i]][0] == s[i]);
                }
                lemma_concat_spaces_only(seq![s[i]], collapse_chunks_from(s, i + 1, max_repeat, min_len, max_len));
            },
        }
    }
}

proof fn lemma_replace_all_spaces_only(s: Seq<char>, from: Seq<char>, to: Seq<char>)
    requires
        spaces_only(s),
        spaces_only(to),
    ensures
        spaces_only(replace_all(s, from, to)),
    decreases s.len(),
{
    if s.len() > 0 {
        assert(spaces_only(s.drop_first())) by {
            assert forall|i: int| 0 <= i < s.drop_first().len() && spec_is_whitespace(#[trigger] s.drop_first()[i]) implies s.drop_first()[i] == ' ' by {
                assert(s.drop_first()[i] == s[i + 1]);
            }
        }
        assert(spaces_only(seq![s[0]])) by {
            assert(seq![s[0]][0] == s[0]);
        }
    }
    if from.len() == 0 {
        if s.len() > 0 {
            lemma_replace_all_spaces_only(s.drop_first(), from, to);
            lemma_concat_spaces_only(to, seq![s[0]]);
            lemma_concat_spaces_only(to + seq![s[0]], replace_all(s.drop_first(), from, to));
        }
    } else if starts_with(s, from) {
        assert(spaces_only(s.skip(from.len() as int))) by {
            let t = s.skip(from.len() as int);
            assert forall|i: int| 0 <= i < t.len() && spec_is_whitespace(#[trigger] t[i]) implies t[i] == ' ' by {
                assert(t[i] == s[i + from.len()]);
            }
        }
        lemma_replace_all_spaces_only(s.skip(from.len() as int), from, to);
        lemma_concat_spaces_only(to, replace_all(s.skip(from.len() as int), from, to));
    } else if s.len() > 0 {
        lemma_replace_all_spaces_only(s.drop_first(), from, to);
        lemma_concat_spaces_only(seq![s[0]], replace_all(s.drop_first(), from, to));
    }
}

proof fn lemma_phrase_spaces_only(s: Seq<char>, rep: Seq<char>, kept: Seq<char>)
    requires
        spaces_only(s),
        spaces_only(kept),
    ensures
        spaces_only(collapse_phrase(s, rep, kept)),
    decreases s.len(),
{
    if rep.len() > 0 && kept.len() < rep.len() && contains(s, rep) {
        lemma_replace_all_not_longer(s, rep, kept);
        lemma_replace_all_spaces_only(s, rep, kept);
        lemma_phrase_spaces_only(replace_all(s, rep, kept), rep, kept);
    }
}

proof fn lemma_phrases_spaces_only(s: Seq<char>, phrases: Seq<Seq<char>>, max_repeat: nat)
    requires
        spaces_only(s),
        forall|k: int| 0 <= k < phrases.len() ==> spaces_only(#[trigger] phrases[k]),
    ensures
        spaces_only(collapse_phrases(s, phrases, max_repeat)),
    decreases phrases.len(),
{
    if phrases.len() > 0 {
        let p = phrases[0];
        assert(spaces_only(p));
        if p.len() > 0 {
            lemma_repeat_spaces_only(p, max_repeat);
            lemma_phrase_spaces_only(s, repeat(p, max_repeat + 1), repeat(p, max_repeat));
        }
        let s2 = if p.len() == 0 {
            s
        } else {
            collapse_phrase(s, repeat(p, max_repeat + 1), repeat(p, max_repeat))
        };
        let rest = phrases.drop_first();
        assert forall|k: int| 0 <= k < rest.len() implies spaces_only(#[trigger] rest[k]) by {
            assert(rest[k] == phrases[k + 1]);
        }
        lemma_phrases_spaces_only(s2, rest, max_repeat);
    }
}

proof fn lemma_bracket_scan_spaces_only(s: Seq<char>)
    requires
        spaces_only(s),
    ensures
        spaces_only(bracket_scan(s).1),
    decreases s.len(),
{
    if s.len() > 0 {
        assert(spaces_only(s.drop_last())) by {
            assert forall|i: int| 0 <= i < s.drop_last().len() && spec_is_whitespace(#[trigger] s.drop_last()[i]) implies s.drop_last()[i] == ' ' by {
                assert(s.drop_last()[i] == s[i]);
            }
        }
        lemma_bracket_scan_spaces_only(s.drop_last());
        let prev = bracket_scan(s.drop_last()).1;
        let out = bracket_scan(s).1;
        assert(s.last() == s[s.len() - 1]);
        assert forall|i: int| 0 <= i < out.len() && spec_is_whitespace(#[trigger] out[i]) implies out[i] == ' ' by {
            if i < prev.len() {
                assert(out[i] == prev[i]);
            }
        }
    }
}

proof fn lemma_pairs_spaces_only(s: Seq<char>, pairs: Seq<(Seq<char>, Seq<char>)>)
    requires
        spaces_only(s),
        forall|k: int| 0 <= k < pairs.len() ==> spaces_only(#[trigger] pairs[k].1),
    ensures
        spaces_only(replace_pairs(s, pairs)),
    decreases pairs.len(),
{
    if pairs.len() > 0 {
        assert(spaces_only(pairs[0].1));
        lemma_replace_all_spaces_only(s, pairs[0].0, pairs[0].1);
        let rest = pairs.drop_first();
        assert forall|k: int| 0 <= k < rest.len() implies spaces_only(#[trigger] rest[k].1) by {
            assert(rest[k] == pairs[k + 1]);
        }
        lemma_pairs_spaces_only(replace_all(s, pairs[0].0, pairs[0].1), rest);
    }
}

/// The only white space the clean-up leaves is the plain space: every run
/// of white space became one space, and nothing it adds is white space of
/// another kind.
pub proof fn lemma_sanitized_spaces_only(chars: Seq<char>, alnum: Seq<bool>)
    ensures
        spaces_only(sanitized_text(chars, alnum)),
{
    let scanned = scan_prefix(chars, alnum, chars.len()).0;
    lemma_scan_spaces_only(chars, alnum, chars.len());
    lemma_trim_spaces_only(scanned);
    lemma_trim_spaces_only(crate::chars::trim_start(scanned));
    let squeezed = trim(scanned);
    lemma_chunks_spaces_only(squeezed, 0, 2, 2, 10);
    let chunks = collapse_chunks_from(squeezed, 0, 2, 2, 10);
    let ph = repeated_phrases();
    assert forall|k: int| 0 <= k < ph.len() implies spaces_only(#[trigger] ph[k]) by {
        if k == 0 {
            assert(ph[0] == seq!['と', 'い', 'う', '。']);
            assert forall|i: int| 0 <= i < ph[0].len() && spec_is_whitespace(#[trigger] ph[0][i]) implies ph[0][i] == ' ' by {}
        } else {
            assert(ph[1] == seq!['こ', 'の', 'よ', 'う', 'に', ',', ' ']);
            assert forall|i: int| 0 <= i < ph[1].len() && spec_is_whitespace(#[trigger] ph[1][i]) implies ph[1][i] == ' ' by {}
        }
    }
    lemma_phrases_spaces_only(chunks, ph, 1);
    let phrases = collapse_phrases(chunks, ph, 1);
    lemma_bracket_scan_spaces_only(phrases);
    let pairs = common_replacements();
    assert forall|k: int| 0 <= k < pairs.len() implies spaces_only(#[trigger] pairs[k].1) by {
        assert forall|i: int| 0 <= i < pairs[k].1.len() && spec_is_whitespace(#[trigger] pairs[k].1[i]) implies pairs[k].1[i] == ' ' by {}
    }
    lemma_pairs_spaces_only(bracket_scan(phrases).1, pairs);
}

/// A bracket of either kind, opening or closing.
pub open spec fn is_bracket(c: char) -> bool {
    is_open_bracket(c) || opening_of(c) is Some
}

/// The brackets of `s`, in order, with everything else left out.
pub open spec fn brackets_of(s: Seq<char>) -> Seq<char>
    decreases s.len(),
{
    if s.len() == 0 {
        seq![]
    } else if is_bracket(s.last()) {
        brackets_of(s.drop_last()).push(s.last())
    } else {
        brackets_of(s.drop_last())
    }
}

/// `s` has no closing bracket that the bracket clean-up would drop.
pub open spec fn brackets_balanced(s: Seq<char>) -> bool {
    bracket_scan(s).1 == s
}

proof fn lemma_bracket_scan_full_length(s: Seq<char>)
    requires
        bracket_scan(s).1.len() == s.len(),
    ensures
        bracket_scan(s).1 == s,
    decreases s.len(),
{
    if s.len() > 0 {
        lemma_bracket_scan_not_longer(s.drop_last());
        lemma_bracket_scan_full_length(s.drop_last());
        assert(s =~= s.drop_last().push(s.last()));
    }
}

proof fn lemma_bracket_scan_idempotent(s: Seq<char>)
    ensures
        bracket_scan(bracket_scan(s).1) == bracket_scan(s),
    decreases s.len(),
{
    if s.len() > 0 {
        let out = bracket_scan(s.drop_last()).1;
        lemma_bracket_scan_idempotent(s.drop_last());
        let ch = s.last();
        assert(out.push(ch).drop_last() =~= out);
    }
}

/// What the bracket scan keeps on its stack, and how many characters it
/// drops, depend on the brackets of the text alone.
proof fn lemma_bracket_scan_sees_brackets_only(s: Seq<char>)
    ensures
        bracket_scan(brackets_of(s)).0 == bracket_scan(s).0,
        s.len() - bracket_scan(s).1.len() == brackets_of(s).len() - bracket_scan(
            brackets_of(s),
        ).1.len(),
    decreases s.len(),
{
    if s.len() > 0 {
        lemma_bracket_scan_sees_brackets_only(s.drop_last());
        let b = brackets_of(s.drop_last());
        if is_bracket(s.last()) {
            assert(b.push(s.last()).drop_last() =~= b);
            assert(b.push(s.last()).last() == s.last());
        }
    }
}

proof fn lemma_brackets_of_concat(a: Seq<char>, b: Seq<char>)
    ensures
        brackets_of(a + b) == brackets_of(a) + brackets_of(b),
    decreases b.len(),
{
    if b.len() == 0 {
        assert(a + b =~= a);
        assert(brackets_of(a) + brackets_of(b) =~= brackets_of(a));
    } else {
        lemma_brackets_of_concat(a, b.drop_last());
        assert((a + b).drop_last() =~= a + b.drop_last());
        assert((a + b).last() == b.last());
        if is_bracket(b.last()) {
            assert(brackets_of(a) + brackets_of(b.drop_last()).push(b.last()) =~= (brackets_of(a)
                + brackets_of(b.drop_last())).push(b.last()));
        }
    }
}

proof fn lemma_replace_all_keeps_brackets(s: Seq<char>, from: Seq<char>, to: Seq<char>)
    requires
        from.len() > 0,
        brackets_of(from) == Seq::<char>::empty(),
        brackets_of(to) == Seq::<char>::empty(),
    ensures
        brackets_of(replace_all(s, from, to)) == brackets_of(s),
    decreases s.len(),
{
    if starts_with(s, from) {
        let rest = s.skip(from.len() as int);
        lemma_replace_all_keeps_brackets(rest, from, to);
        assert(s =~= from + rest);
        lemma_brackets_of_concat(from, rest);
        lemma_brackets_of_concat(to, replace_all(rest, from, to));
        assert(Seq::<char>::empty() + brackets_of(rest) =~= brackets_of(rest));
        assert(Seq::<char>::empty() + brackets_of(replace_all(rest, from, to)) =~= brackets_of(
            replace_all(rest, from, to),
        ));
    } else if s.len() > 0 {
        let rest = s.drop_first();
        lemma_replace_all_keeps_brackets(rest, from, to);
        assert(s =~= seq![s[0]] + rest);
        lemma_brackets_of_concat(seq![s[0]], rest);
        lemma_brackets_of_concat(seq![s[0]], replace_all(rest, from, to));
    }
}

proof fn lemma_replace_pairs_keeps_brackets(s: Seq<char>, pairs: Seq<(Seq<char>, Seq<char>)>)
    requires
        forall|k: int|
            0 <= k < pairs.len() ==> (#[trigger] pairs[k]).0.len() > 0 && brackets_of(pairs[k].0)
                == Seq::<char>::empty() && brackets_of(pairs[k].1) == Seq::<char>::empty(),
    ensures
        brackets_of(replace_pairs(s, pairs)) == brackets_of(s),
    decreases pairs.len(),
{
    if pairs.len() > 0 {
        assert(pairs[0].0.len() > 0);
        lemma_replace_all_keeps_brackets(s, pairs[0].0, pairs[0].1);
        let rest = pairs.drop_first();
        assert forall|k: int| 0 <= k < rest.len() implies (#[trigger] rest[k]).0.len() > 0
            && brackets_of(rest[k].0) == Seq::<char>::empty() && brackets_of(rest[k].1)
            == Seq::<char>::empty() by {
            assert(rest[k] == pairs[k + 1]);
        }
        lemma_replace_pairs_keeps_brackets(replace_all(s, pairs[0].0, pairs[0].1), rest);
    }
}

proof fn lemma_no_brackets(s: Seq<char>)
    requires
        forall|i: int| 0 <= i < s.len() ==> !is_bracket(#[trigger] s[i]),
    ensures
        brackets_of(s) == Seq::<char>::empty(),
    decreases s.len(),
{
    if s.len() > 0 {
        assert(!is_bracket(s[s.len() - 1]));
        lemma_no_brackets(s.drop_last());
    }
}

/// Every closing bracket that the clean-up leaves closes the latest bracket
/// still open, and of its own kind: running the bracket clean-up again on
/// the result takes nothing away.
pub proof fn lemma_sanitized_brackets_balanced(chars: Seq<char>, alnum: Seq<bool>)
    ensures
        brackets_balanced(sanitized_text(chars, alnum)),
{
    let squeezed = trim(scan_prefix(chars, alnum, chars.len()).0);
    let chunks = collapse_chunks_from(squeezed, 0, 2, 2, 10);
    let phrases = collapse_phrases(chunks, repeated_phrases(), 1);
    let kept = bracket_scan(phrases).1;
    let pairs = common_replacements();
    let out = replace_pairs(kept, pairs);
    lemma_bracket_scan_idempotent(phrases);
    assert forall|k: int| 0 <= k < pairs.len() implies (#[trigger] pairs[k]).0.len() > 0
        && brackets_of(pairs[k].0) == Seq::<char>::empty() && brackets_of(pairs[k].1)
        == Seq::<char>::empty() by {
        lemma_no_brackets(pairs[k].0);
        lemma_no_brackets(pairs[k].1);
    }
    lemma_replace_pairs_keeps_brackets(kept, pairs);
    lemma_bracket_scan_sees_brackets_only(kept);
    lemma_bracket_scan_sees_brackets_only(out);
    lemma_bracket_scan_full_length(out);
}

/// The same clean-up as [`sanitize_recognized_text`], with the alphanumeric
/// class of each character of `input` given in `alphanumeric`.
pub fn sanitize_with_alphanumeric(input: &str, alphanumeric: &[bool]) -> (res: String)
    requires
        alphanumeric.len() == input@.len(),
    ensures
        res@ == sanitized_text(input@, alphanumeric@),
{
    let chars = str_to_chars(input);
    let squeezed = squeeze_runs(&chars, alphanumeric);
    let trimmed = trim_chars(&squeezed);
    let chunks = collapse_repeated_chunks(&trimmed, 2, 2, 10);
    let mut phrases: Vec<Vec<char>> = Vec::new();
    let mut p1: Vec<char> = Vec::new();
    p1.push('と');
    p1.push('い');
    p1.push('う');
    p1.push('。');
    let mut p2: Vec<char> = Vec::new();
    p2.push('こ');
    p2.push('の');
    p2.push('よ');
    p2.push('う');
    p2.push('に');
    p2.push(',');
    p2.push(' ');
    proof {
        assert(p1@ =~= seq!['と', 'い', 'う', '。']);
        assert(p2@ =~= seq!['こ', 'の', 'よ', 'う', 'に', ',', ' ']);
    }
    phrases.push(p1);
    phrases.push(p2);
    proof {
        crate::chars::lemma_chars_deep_view(phrases@[0]);
        crate::chars::lemma_chars_deep_view(phrases@[1]);
        assert(phrases.deep_view() =~= repeated_phrases());
    }
    let collapsed = collapse_repeated_phrases(&chunks, &phrases, 1);
    let brackets = remove_unmatched_closing_brackets(&collapsed);
    let fixed = apply_common_japanese_ocr_replacements(&brackets);
    chars_to_string(&fixed)
}

/// The alphanumeric class of each character of `input`.
fn alphanumeric_flags(input: &str) -> (res: Vec<bool>)
    ensures
        res@.len() == input@.len(),
        forall|i: int| 0 <= i < res@.len() ==> res@[i] == is_alphanumeric(#[trigger] input@[i]),
{
    let chars = str_to_chars(input);
    let mut out: Vec<bool> = Vec::new();
    let mut i: usize = 0;
    while i < chars.len()
        invariant
            i <= chars.len(),
            chars@ == input@,
            out@.len() == i,
            forall|j: int| 0 <= j < i ==> out@[j] == is_alphanumeric(#[trigger] input@[j]),
        decreases chars.len() - i,
    {
        out.push(char_is_alphanumeric(chars[i]));
        i = i + 1;
    }
    out
}

/// Cleans up the recognised text of one line (see [`sanitized_text`]).
pub fn sanitize_recognized_text(input: &str) -> (res: String)
    ensures
        res@ == sanitized_text(input@, Seq::new(input@.len(), |i: int| is_alphanumeric(input@[i]))),
{
    let flags = alphanumeric_flags(input);
    proof {
        assert(flags@ =~= Seq::new(input@.len(), |i: int| is_alphanumeric(input@[i])));
    }
    sanitize_with_alphanumeric(input, flags.as_slice())
}

// ---------------------------------------------------------------------------
// Pixels of a (possibly rotated) line image
// ---------------------------------------------------------------------------

/// The position in a `width x height` image of pixel `(x, y)` of its view
/// rotated a quarter turn counter-clockwise (when `rotated`), or of the image
/// itself.
pub open spec fn source_position(width: int, rotated: bool, x: int, y: int) -> (int, int) {
    if rotated {
        (width - 1 - y, x)
    } else {
        (x, y)
    }
}

/// The RGB value of pixel `(x, y)` of the image, or of its rotated view
/// (see [`source_position`]).
pub fn source_rgb(rgb: &[u8], width: usize, height: usize, rotated: bool, x: usize, y: usize) -> (res:
    [u8; 3])
    requires
        width * height * 3 <= rgb@.len(),
        rotated ==> y < width && x < height,
        !rotated ==> x < width && y < height,
    ensures
        ({
            let (ox, oy) = source_position(width as int, rotated, x as int, y as int);
            let i = (oy * width + ox) * 3;
            &&& res[0] == rgb@[i]
            &&& res[1] == rgb@[i + 1]
            &&& res[2] == rgb@[i + 2]
        }),
{
    let (ox, oy) = if rotated {
        (width - 1 - y, x)
    } else {
        (x, y)
    };
    proof {
        crate::pipeline::crop::lemma_index_in_image(ox as int, oy as int, width as int, height as int);
        assert(height * width * 3 == width * height * 3) by (nonlinear_arith);
        assert(0 <= oy * width <= oy * width + ox);
        assert(rgb@.len() == rgb.len());
    }
    let i = (oy * width + ox) * 3;
    [rgb[i], rgb[i + 1], rgb[i + 2]]
}

// ---------------------------------------------------------------------------
// Character set from the model configuration
// ---------------------------------------------------------------------------

/// A YAML document as plain values.
pub enum YamlValue {
    Null,
    Bool(bool),
    Number(String),
    Text(String),
    Sequence(Vec<YamlValue>),
    Mapping(Vec<(YamlValue, YamlValue)>),
    Tagged(String, Box<YamlValue>),
}

/// Why the character set could not be read from the configuration.
#[derive(Clone, Debug, PartialEq, Eq)]
pub enum CharsetError {
    /// There is no `model.charset_train`.
    Missing,
    /// `model.charset_train` is a sequence with an item that is not a string.
    NonStringItem,
    /// `model.charset_train` is neither a string nor a sequence.
    WrongType,
    /// The configuration is not valid YAML; the parser's message.
    Parse(String),
}

impl CharsetError {
    /// The message of the error.
    pub fn message(&self) -> (res: String)
        ensures
            *self == CharsetError::Missing ==> res@ == "model.charset_train is missing"@,
            *self == CharsetError::NonStringItem ==> res@
                == "model.charset_train sequence item must be string"@,
            *self == CharsetError::WrongType ==> res@
                == "model.charset_train must be string or sequence of strings"@,
            self matches CharsetError::Parse(m) ==> res@ == m@,
    {
        match self {
            CharsetError::Missing => "model.charset_train is missing".to_owned(),
            CharsetError::NonStringItem => "model.charset_train sequence item must be string".to_owned(),
            CharsetError::WrongType => "model.charset_train must be string or sequence of strings".to_owned(),
            CharsetError::Parse(m) => m.clone(),
        }
    }
}

/// A value with its tags removed.
pub open spec fn spec_untag(v: YamlValue) -> YamlValue
    decreases v,
{
    match v {
        YamlValue::Tagged(_, inner) => spec_untag(*inner),
        _ => v,
    }
}

/// The value of the first entry whose key is the string `key`.
pub open spec fn entry_lookup(entries: Seq<(YamlValue, YamlValue)>, key: Seq<char>) -> Option<
    YamlValue,
>
    decreases entries.len(),
{
    if entries.len() == 0 {
        None
    } else {
        match entries[0].0 {
            YamlValue::Text(k) => if k@ == key {
                Some(entries[0].1)
            } else {
                entry_lookup(entries.drop_first(), key)
            },
            _ => entry_lookup(entries.drop_first(), key),
        }
    }
}

/// `v[key]` for a mapping (after removing tags); `None` for anything else.
pub open spec fn yaml_get(v: YamlValue, key: Seq<char>) -> Option<YamlValue> {
    match spec_untag(v) {
        YamlValue::Mapping(entries) => entry_lookup(entries@, key),
        _ => None,
    }
}

/// The string of a value (after removing tags).
pub open spec fn yaml_str(v: YamlValue) -> Option<Seq<char>> {
    match spec_untag(v) {
        YamlValue::Text(s) => Some(s@),
        _ => None,
    }
}

/// The strings of the items, one after the other; `None` when an item is
/// not a string.
pub open spec fn concat_strings(items: Seq<YamlValue>) -> Option<Seq<char>>
    decreases items.len(),
{
    if items.len() == 0 {
        Some(seq![])
    } else {
        match (concat_strings(items.drop_last()), yaml_str(items.last())) {
            (Some(a), Some(b)) => Some(a + b),
            _ => None,
        }
    }
}

/// The character set of a model configuration: `model.charset_train`,
/// either one string or a sequence of strings read one after the other.
pub open spec fn spec_charset(root: YamlValue) -> Result<Seq<char>, CharsetError> {
    let field = match yaml_get(root, "model"@) {
        Some(m) => yaml_get(m, "charset_train"@),
        None => None,
    };
    match field {
        None => Err(CharsetError::Missing),
        Some(v) => match yaml_str(v) {
            Some(s) => Ok(s),
            None => match spec_untag(v) {
                YamlValue::Sequence(items) => match concat_strings(items@) {
                    Some(s) => Ok(s),
                    None => Err(CharsetError::NonStringItem),
                },
                _ => Err(CharsetError::WrongType),
            },
        },
    }
}

fn untag_ref(v: &YamlValue) -> (r: &YamlValue)
    ensures
        *r == spec_untag(*v),
    decreases v,
{
    match v {
        YamlValue::Tagged(_, inner) => untag_ref(inner),
        _ => v,
    }
}

fn yaml_get_ref<'a>(v: &'a YamlValue, key: &str) -> (r: Option<&'a YamlValue>)
    ensures
        r matches Some(x) ==> yaml_get(*v, key@) == Some(*x),
        r is None ==> yaml_get(*v, key@) is None,
{
    match untag_ref(v) {
        YamlValue::Mapping(entries) => {
            let mut i: usize = 0;
            proof {
                assert(entries@.skip(0) =~= entries@);
            }
            while i < entries.len()
                invariant
                    i <= entries@.len(),
                    yaml_get(*v, key@) == entry_lookup(entries@, key@),
                    entry_lookup(entries@, key@) == entry_lookup(entries@.skip(i as int), key@),
                decreases entries.len() - i,
            {
                proof {
                    assert(entries@.skip(i as int).drop_first() =~= entries@.skip(i + 1));
                    assert(entries@.skip(i as int)[0] == entries@[i as int]);
                }
                match &entries[i].0 {
                    YamlValue::Text(k) => {
                        if crate::chars::vec_chars_eq(&str_to_chars(k.as_str()), &str_to_chars(key)) {
                            return Some(&entries[i].1);
                        }
                    },
                    _ => {},
                }
                i = i + 1;
            }
            None
        },
        _ => None,
    }
}

fn yaml_str_ref(v: &YamlValue) -> (r: Option<&String>)
    ensures
        r matches Some(s) ==> yaml_str(*v) == Some(s@),
        r is None ==> yaml_str(*v) is None,
{
    match untag_ref(v) {
        YamlValue::Text(s) => Some(s),
        _ => None,
    }
}

/// Reads the character set of a model configuration (see
/// [`spec_charset`]).
pub fn charset_from_yaml(root: &YamlValue) -> (res: Result<Vec<char>, CharsetError>)
    ensures
        match (res, spec_charset(*root)) {
            (Ok(v), Ok(s)) => v@ == s,
            (Err(e), Err(f)) => e == f,
            _ => false,
        },
{
    let field = match yaml_get_ref(root, "model") {
        Some(m) => yaml_get_ref(m, "charset_train"),
        None => None,
    };
    let v = match field {
        Some(v) => v,
        None => {
            return Err(CharsetError::Missing);
        },
    };
    if let Some(s) = yaml_str_ref(v) {
        return Ok(str_to_chars(s.as_str()));
    }
    match untag_ref(v) {
        YamlValue::Sequence(items) => {
            let mut out: Vec<char> = Vec::new();
            let mut i: usize = 0;
            proof {
                assert(items@.take(0) =~= Seq::<YamlValue>::empty());
            }
            while i < items.len()
                invariant
                    i <= items@.len(),
                    concat_strings(items@.take(i as int)) == Some(out@),
                    spec_charset(*root) == (match concat_strings(items@) {
                        Some(s) => Ok(s),
                        None => Err(CharsetError::NonStringItem),
                    }),
                decreases items.len() - i,
            {
                proof {
                    assert(items@.take(i + 1).drop_last() =~= items@.take(i as int));
                    assert(items@.take(i + 1).last() == items@[i as int]);
                }
                match yaml_str_ref(&items[i]) {
                    Some(s) => {
                        extend_chars(&mut out, &str_to_chars(s.as_str()));
                    },
                    None => {
                        proof {
                            lemma_concat_strings_fails(items@, i as int);
                        }
                        return Err(CharsetError::NonStringItem);
                    },
                }
                i = i + 1;
            }
            proof {
                assert(items@.take(items@.len() as int) =~= items@);
            }
            Ok(out)
        },
        _ => Err(CharsetError::WrongType),
    }
}

#[verifier::external_type_specification]
#[verifier::external_body]
pub struct ExSerdeYamlValue(serde_yaml::Value);

/// The document that `serde_yaml::from_str::<serde_yaml::Value>` reads from
/// `body`, as plain values (see [`yaml_from_str`]); `None` where it fails.
pub uninterp spec fn parse_yaml(body: Seq<char>) -> Option<YamlValue>;

/// Converts a `serde_yaml::Value` into a [`YamlValue`] variant by variant:
/// numbers and tags by their `Display` text, sequences and mappings item by
/// item in order. It is the conversion [`yaml_from_str`] applies to what
/// it parses.
#[verifier::external_body]
fn yaml_value_of(v: &serde_yaml::Value) -> YamlValue {
    match v {
        serde_yaml::Value::Null => YamlValue::Null,
        serde_yaml::Value::Bool(b) => YamlValue::Bool(*b),
        serde_yaml::Value::Number(n) => YamlValue::Number(n.to_string()),
        serde_yaml::Value::String(t) => YamlValue::Text(t.clone()),
        serde_yaml::Value::Sequence(items) => YamlValue::Sequence(items.iter().map(yaml_value_of).collect()),
        serde_yaml::Value::Mapping(m) => YamlValue::Mapping(m.iter().map(|(k, x)| (yaml_value_of(k), yaml_value_of(x))).collect()),
        serde_yaml::Value::Tagged(t) => YamlValue::Tagged(t.tag.to_string(), Box::new(yaml_value_of(&t.value))),
    }
}

/// The message of the error `serde_yaml::from_str::<serde_yaml::Value>`
/// gives for `body` (its `Display` text, with the position it stopped at).
pub uninterp spec fn yaml_error_message(body: Seq<char>) -> Seq<char>;

/// Calls `serde_yaml::from_str::<serde_yaml::Value>` on `body` and hands the
/// document out as plain values, or the parser's error message; the
/// document is named [`parse_yaml`] and the message [`yaml_error_message`],
/// both functions of `body` alone. Nothing is claimed of which texts parse.
#[verifier::external_body]
fn yaml_from_str(body: &str) -> (res: Result<YamlValue, String>)
    ensures
        res is Ok <==> parse_yaml(body@) is Some,
        res matches Ok(v) ==> parse_yaml(body@) == Some(v),
        res matches Err(m) ==> m@ == yaml_error_message(body@),
{
    match serde_yaml::from_str::<serde_yaml::Value>(body) {
        Ok(v) => Ok(yaml_value_of(&v)),
        Err(err) => Err(err.to_string()),
    }
}

/// Reads the character set of a model configuration given as YAML text:
/// [`CharsetError::Parse`] with the parser's message (see
/// [`yaml_error_message`]) when the text is not YAML (see [`parse_yaml`]),
/// else what [`charset_from_yaml`] reads from the
/// document.
pub fn load_charset_from_yaml_str(yaml_body: &str) -> (res: Result<Vec<char>, CharsetError>)
    ensures
        match parse_yaml(yaml_body@) {
            None => res matches Err(CharsetError::Parse(m)) && m@ == yaml_error_message(yaml_body@),
            Some(doc) => match (res, spec_charset(doc)) {
                (Ok(v), Ok(s)) => v@ == s,
                (Err(e), Err(f)) => e == f,
                _ => false,
            },
        },
{
    match yaml_from_str(yaml_body) {
        Err(message) => Err(CharsetError::Parse(message)),
        Ok(doc) => charset_from_yaml(&doc),
    }
}

proof fn lemma_concat_strings_fails(items: Seq<YamlValue>, i: int)
    requires
        0 <= i < items.len(),
        yaml_str(items[i]) is None,
    ensures
        concat_strings(items) is None,
    decreases items.len(),
{
    if i < items.len() - 1 {
        lemma_concat_strings_fails(items.drop_last(), i);
    }
}

} // verus!

//! Correction of tokens that a morphological analyser does not know, by
//! trying look-alike characters that OCR confuses.
use std::ops::Range;
use vstd::prelude::*;
use vstd::utf8::{decode_utf8, encode_utf8, is_char_boundary};

use crate::chars::{
    chars_to_string, contains, contains_chars, extend_chars, replace_first, replace_first_chars,
    str_to_chars,
};

verus! {

broadcast use vstd::seq_lib::group_seq_properties;

/// The look-alike of a character that OCR often reads in its place.
pub open spec fn confusable(c: char) -> Option<char> {
    if c == '卜' {
        Some('ト')
    } else if c == 'ト' {
        Some('卜')
    } else if c == '力' {
        Some('カ')
    } else if c == 'カ' {
        Some('力')
    } else if c == '口' {
        Some('ロ')
    } else if c == 'ロ' {
        Some('口')
    } else if c == '一' {
        Some('ー')
    } else if c == 'ー' {
        Some('一')
    } else if c == '士' {
        Some('土')
    } else if c == '土' {
        Some('士')
    } else if c == '曰' {
        Some('日')
    } else if c == '日' {
        Some('曰')
    } else {
        None
    }
}

fn confusable_replacements(c: char) -> (r: Option<char>)
    ensures
        r == confusable(c),
{
    if c == '卜' {
        Some('ト')
    } else if c == 'ト' {
        Some('卜')
    } else if c == '力' {
        Some('カ')
    } else if c == 'カ' {
        Some('力')
    } else if c == '口' {
        Some('ロ')
    } else if c == 'ロ' {
        Some('口')
    } else if c == '一' {
        Some('ー')
    } else if c == 'ー' {
        Some('一')
    } else if c == '士' {
        Some('土')
    } else if c == '土' {
        Some('士')
    } else if c == '曰' {
        Some('日')
    } else if c == '日' {
        Some('曰')
    } else {
        None
    }
}

/// Two-character spans that OCR produces for one character: `禾リ` and
/// `禾刂` for `利`.
pub open spec fn span_collapses() -> Seq<(Seq<char>, Seq<char>)> {
    seq![(seq!['禾', 'リ'], seq!['利']), (seq!['禾', '刂'], seq!['利'])]
}

/// Candidates that swap one character, at index `idx` or later, for its
/// look-alike, in index order.
pub open spec fn single_swaps_from(s: Seq<char>, idx: int) -> Seq<Seq<char>>
    decreases s.len() - idx,
{
    if idx < 0 || idx >= s.len() {
        seq![]
    } else {
        let here = match confusable(s[idx]) {
            Some(r) => seq![s.update(idx, r)],
            None => seq![],
        };
        here + single_swaps_from(s, idx + 1)
    }
}

/// Candidates that collapse the first occurrence of a span, for each span
/// that occurs, in order.
pub open spec fn span_candidates(s: Seq<char>, spans: Seq<(Seq<char>, Seq<char>)>) -> Seq<
    Seq<char>,
>
    decreases spans.len(),
{
    if spans.len() == 0 {
        seq![]
    } else {
        let here = if contains(s, spans[0].0) {
            seq![replace_first(s, spans[0].0, spans[0].1)]
        } else {
            seq![]
        };
        here + span_candidates(s, spans.drop_first())
    }
}

/// All correction candidates for a token surface: first the single-character
/// swaps in index order, then the span collapses.
pub open spec fn spec_candidate_surfaces(s: Seq<char>) -> Seq<Seq<char>> {
    single_swaps_from(s, 0) + span_candidates(s, span_collapses())
}

/// The look-alike pairs that OCR confuses: `卜`/`ト`, `力`/`カ`, `口`/`ロ`,
/// `一`/`ー`, `士`/`土` and `曰`/`日`.
pub open spec fn look_alike_pairs() -> Seq<(char, char)> {
    seq![('卜', 'ト'), ('力', 'カ'), ('口', 'ロ'), ('一', 'ー'), ('士', '土'), ('曰', '日')]
}

/// Look-alikes go both ways: when OCR may read `c` for `d`, it may read `d`
/// for `c`, and no character is its own look-alike.
pub proof fn lemma_look_alikes_symmetric(c: char, d: char)
    ensures
        confusable(c) == Some(d) ==> confusable(d) == Some(c) && c != d,
{
}

proof fn lemma_single_swaps_contain(s: Seq<char>, idx: int, i: int)
    requires
        0 <= idx <= i < s.len(),
        confusable(s[i]) is Some,
    ensures
        single_swaps_from(s, idx).contains(s.update(i, confusable(s[i])->0)),
    decreases i - idx,
{
    let c = s.update(i, confusable(s[i])->0);
    let here = match confusable(s[idx]) {
        Some(r) => seq![s.update(idx, r)],
        None => seq![],
    };
    let rest = single_swaps_from(s, idx + 1);
    assert(single_swaps_from(s, idx) == here + rest);
    if idx == i {
        assert((here + rest)[0] == c);
    } else {
        lemma_single_swaps_contain(s, idx + 1, i);
        let j = choose|j: int| 0 <= j < rest.len() && rest[j] == c;
        assert((here + rest)[here.len() + j] == c);
    }
}

/// Every character of a surface that has a look-alike gives a candidate:
/// the surface with that character swapped, the other characters kept.
pub proof fn lemma_every_look_alike_is_tried(s: Seq<char>, i: int)
    requires
        0 <= i < s.len(),
        confusable(s[i]) is Some,
    ensures
        spec_candidate_surfaces(s).contains(s.update(i, confusable(s[i])->0)),
{
    lemma_single_swaps_contain(s, 0, i);
    let c = s.update(i, confusable(s[i])->0);
    let sw = single_swaps_from(s, 0);
    let j = choose|j: int| 0 <= j < sw.len() && sw[j] == c;
    assert((sw + span_candidates(s, span_collapses()))[j] == c);
}

/// Every documented look-alike pair is tried both ways: wherever a surface
/// holds one character of a pair, the surface with the other character in
/// its place is a candidate.
pub proof fn lemma_look_alike_pairs_are_tried(s: Seq<char>, i: int, k: int)
    requires
        0 <= i < s.len(),
        0 <= k < look_alike_pairs().len(),
    ensures
        s[i] == look_alike_pairs()[k].0 ==> spec_candidate_surfaces(s).contains(
            s.update(i, look_alike_pairs()[k].1),
        ),
        s[i] == look_alike_pairs()[k].1 ==> spec_candidate_surfaces(s).contains(
            s.update(i, look_alike_pairs()[k].0),
        ),
{
    let p = look_alike_pairs()[k];
    assert(confusable(p.0) == Some(p.1) && confusable(p.1) == Some(p.0)) by {
        if k == 0 {
        } else if k == 1 {
        } else if k == 2 {
        } else if k == 3 {
        } else if k == 4 {
        } else {
            assert(k == 5);
        }
    }
    if s[i] == p.0 || s[i] == p.1 {
        lemma_every_look_alike_is_tried(s, i);
    }
}

/// A one-character surface has exactly one candidate, its look-alike, when
/// it has one, and none otherwise.
pub proof fn lemma_one_character_candidates(c: char)
    ensures
        spec_candidate_surfaces(seq![c]) == match confusable(c) {
            Some(d) => seq![seq![d]],
            None => Seq::<Seq<char>>::empty(),
        },
{
    let s = seq![c];
    assert(single_swaps_from(s, 1) == Seq::<Seq<char>>::empty());
    let spans = span_collapses();
    assert(!contains(s, spans[0].0)) by {
        if contains(s, spans[0].0) {
            let j = choose|j: int| crate::chars::occurs_at(s, spans[0].0, j);
        }
    }
    assert(!contains(s, spans[1].0)) by {
        if contains(s, spans[1].0) {
            let j = choose|j: int| crate::chars::occurs_at(s, spans[1].0, j);
        }
    }
    assert(spans.drop_first().drop_first() =~= Seq::<(Seq<char>, Seq<char>)>::empty());
    assert(span_candidates(s, spans.drop_first().drop_first()) == Seq::<Seq<char>>::empty());
    assert(span_candidates(s, spans.drop_first()) =~= Seq::<Seq<char>>::empty());
    assert(span_candidates(s, spans) =~= Seq::<Seq<char>>::empty());
    match confusable(c) {
        Some(d) => {
            assert(s.update(0, d) =~= seq![d]);
            assert(spec_candidate_surfaces(s) =~= seq![seq![d]]);
        },
        None => {
            assert(spec_candidate_surfaces(s) =~= Seq::<Seq<char>>::empty());
        },
    }
}

fn single_swaps(chars: &Vec<char>) -> (res: Vec<Vec<char>>)
    ensures
        res.deep_view() == single_swaps_from(chars@, 0),
{
    let mut out: Vec<Vec<char>> = Vec::new();
    let mut idx: usize = 0;
    while idx < chars.len()
        invariant
            idx <= chars.len(),
            single_swaps_from(chars@, 0) == out.deep_view() + single_swaps_from(
                chars@,
                idx as int,
            ),
        decreases chars.len() - idx,
    {
        let ghost out0 = out.deep_view();
        match confusable_replacements(chars[idx]) {
            Some(r) => {
                let mut candidate = chars.clone();
                proof {
                    assert(candidate@ =~= chars@);
                }
                candidate.set(idx, r);
                proof {
                    crate::chars::lemma_chars_deep_view(candidate);
                }
                out.push(candidate);
                proof {
                    assert(out.deep_view() =~= out0.push(chars@.update(idx as int, r)));
                    assert(out0 + (seq![chars@.update(idx as int, r)] + single_swaps_from(
                        chars@,
                        idx + 1,
                    )) =~= out.deep_view() + single_swaps_from(chars@, idx + 1));
                }
            },
            None => {
                proof {
                    assert(out0 + (Seq::<Seq<char>>::empty() + single_swaps_from(chars@, idx + 1))
                        =~= out.deep_view() + single_swaps_from(chars@, idx + 1));
                }
            },
        }
        idx = idx + 1;
    }
    proof {
        assert(out.deep_view() + Seq::<Seq<char>>::empty() =~= out.deep_view());
    }
    out
}

/// The correction candidates for a token surface (see
/// [`spec_candidate_surfaces`]).
pub fn candidate_surfaces(surface: &str) -> (res: Vec<String>)
    ensures
        res.deep_view() == spec_candidate_surfaces(surface@),
{
    let chars = str_to_chars(surface);
    let swaps = single_swaps(&chars);
    let mut out: Vec<String> = crate::chars::chars_to_strings(&swaps);
    let ghost out0 = out.deep_view();
    let mut f1: Vec<char> = Vec::new();
    f1.push('禾');
    f1.push('リ');
    let mut f2: Vec<char> = Vec::new();
    f2.push('禾');
    f2.push('刂');
    let mut t: Vec<char> = Vec::new();
    t.push('利');
    let ghost spans = span_collapses();
    proof {
        assert(f1@ =~= spans[0].0);
        assert(f2@ =~= spans[1].0);
        assert(t@ =~= spans[0].1);
        assert(t@ =~= spans[1].1);
        assert(spans.drop_first()[0] == spans[1]);
        assert(spans.drop_first().drop_first().len() == 0);
    }
    let c1 = contains_chars(&chars, &f1);
    if c1 {
        let r = replace_first_chars(&chars, &f1, &t);
        out.push(chars_to_string(&r));
    }
    let ghost out1 = out.deep_view();
    let c2 = contains_chars(&chars, &f2);
    if c2 {
        let r = replace_first_chars(&chars, &f2, &t);
        out.push(chars_to_string(&r));
    }
    proof {
        let tail = span_candidates(chars@, spans.drop_first().drop_first());
        assert(tail =~= Seq::<Seq<char>>::empty());
        let sc = span_candidates(chars@, spans);
        let sc1 = span_candidates(chars@, spans.drop_first());
        assert(out.deep_view() =~= out0 + sc);
    }
    out
}

// ---------------------------------------------------------------------------
// Tokens of a line
// ---------------------------------------------------------------------------

/// A token of a line as a morphological analyser reports it: its surface,
/// its byte range in the line and whether the analyser knew it.
pub struct CorrectionToken {
    surface: String,
    byte_range: Range<usize>,
    is_unknown: bool,
}

/// A token as plain values: surface, first byte, end byte, unknown.
pub type TokenView = (Seq<char>, int, int, bool);

impl View for CorrectionToken {
    type V = TokenView;

    closed spec fn view(&self) -> TokenView {
        (self.surface@, self.byte_range.start as int, self.byte_range.end as int, self.is_unknown)
    }
}

impl CorrectionToken {
    /// A token that the analyser knows.
    pub fn known(surface: String, byte_range: Range<usize>) -> (res: Self)
        ensures
            res@ == (surface@, byte_range.start as int, byte_range.end as int, false),
    {
        CorrectionToken { surface, byte_range, is_unknown: false }
    }

    /// A token that the analyser does not know.
    pub fn unknown(surface: String, byte_range: Range<usize>) -> (res: Self)
        ensures
            res@ == (surface@, byte_range.start as int, byte_range.end as int, true),
    {
        CorrectionToken { surface, byte_range, is_unknown: true }
    }

    fn surface_str(&self) -> (res: &str)
        ensures
            res@ == self@.0,
    {
        self.surface.as_str()
    }

    fn start(&self) -> (res: usize)
        ensures
            res == self@.1,
    {
        self.byte_range.start
    }

    fn end(&self) -> (res: usize)
        ensures
            res == self@.2,
    {
        self.byte_range.end
    }

    fn unknown_flag(&self) -> (res: bool)
        ensures
            res == self@.3,
    {
        self.is_unknown
    }
}

/// The length of `s` in bytes.
fn byte_len(s: &str) -> (n: usize)
    ensures
        n == encode_utf8(s@).len(),
{
    let b = s.as_bytes();
    b.len()
}

/// The bytes `a..b` of `s`, as a string.
fn byte_range_str(s: &str, a: usize, b: usize) -> (res: &str)
    requires
        a <= b <= encode_utf8(s@).len(),
        is_char_boundary(encode_utf8(s@), a as int),
        is_char_boundary(encode_utf8(s@), b as int),
    ensures
        res@ == decode_utf8(encode_utf8(s@).subrange(a as int, b as int)),
{
    let ghost bytes = encode_utf8(s@);
    proof {
        vstd::utf8::encode_utf8_valid_utf8(s@);
    }
    let (_, rest) = s.split_at(a);
    let ghost rb = encode_utf8(rest@);
    proof {
        assert(rb =~= bytes.subrange(a as int, bytes.len() as int));
        vstd::utf8::encode_utf8_valid_utf8(rest@);
        if b == bytes.len() {
            vstd::utf8::is_char_boundary_start_end_of_seq(rb);
        } else {
            vstd::utf8::is_char_boundary_iff_not_is_continuation_byte(bytes, b as int);
            vstd::utf8::is_char_boundary_iff_not_is_continuation_byte(rb, b - a);
            assert(rb[b - a] == bytes[b as int]);
        }
    }
    let (piece, _) = rest.split_at(b - a);
    proof {
        assert(encode_utf8(piece@) =~= bytes.subrange(a as int, b as int));
        vstd::utf8::encode_utf8_decode_utf8(piece@);
    }
    piece
}

// ---------------------------------------------------------------------------
// Correcting a line
// ---------------------------------------------------------------------------

/// A token takes part when it starts at or after the cursor and ends inside
/// the line.
pub open spec fn token_taken(bytes: Seq<u8>, cursor: int, t: TokenView) -> bool {
    cursor <= t.1 && t.2 <= bytes.len()
}

/// What a token that takes part adds to the output: the bytes between the
/// cursor and the token, then the token itself (known) or its replacement
/// (unknown).
pub open spec fn token_text(bytes: Seq<u8>, cursor: int, t: TokenView, rep: Seq<char>) -> Seq<
    char,
> {
    decode_utf8(bytes.subrange(cursor, t.1)) + if t.3 {
        rep
    } else {
        decode_utf8(bytes.subrange(t.1, t.2))
    }
}

/// The slices a token that takes part needs lie on character boundaries and,
/// for a known token, are in order.
pub open spec fn token_slices_ok(bytes: Seq<u8>, t: TokenView) -> bool {
    &&& is_char_boundary(bytes, t.1)
    &&& is_char_boundary(bytes, t.2)
    &&& (t.3 || t.1 <= t.2)
}

/// The byte cursor after the first `n` tokens.
pub open spec fn correction_cursor(bytes: Seq<u8>, toks: Seq<TokenView>, n: int) -> int
    decreases n,
{
    if n <= 0 {
        0
    } else {
        let c = correction_cursor(bytes, toks, n - 1);
        if token_taken(bytes, c, toks[n - 1]) {
            toks[n - 1].2
        } else {
            c
        }
    }
}

/// Every token among the first `n` that takes part has its slices on
/// character boundaries.
pub open spec fn correction_slices_ok(bytes: Seq<u8>, toks: Seq<TokenView>, n: int) -> bool
    decreases n,
{
    if n <= 0 {
        true
    } else {
        &&& correction_slices_ok(bytes, toks, n - 1)
        &&& (token_taken(bytes, correction_cursor(bytes, toks, n - 1), toks[n - 1])
            ==> token_slices_ok(bytes, toks[n - 1]))
    }
}

/// The output after the first `n` tokens; `reps[i]` replaces unknown token `i`.
pub open spec fn corrected_prefix(
    bytes: Seq<u8>,
    toks: Seq<TokenView>,
    reps: Seq<Seq<char>>,
    n: int,
) -> Seq<char>
    decreases n,
{
    if n <= 0 {
        seq![]
    } else {
        let c = correction_cursor(bytes, toks, n - 1);
        corrected_prefix(bytes, toks, reps, n - 1) + if token_taken(bytes, c, toks[n - 1]) {
            token_text(bytes, c, toks[n - 1], reps[n - 1])
        } else {
            seq![]
        }
    }
}

/// The corrected line: the tokens that take part in order, each unknown one
/// replaced by `reps`, and the rest of the line after the last of them.
pub open spec fn spec_corrected(bytes: Seq<u8>, toks: Seq<TokenView>, reps: Seq<Seq<char>>) -> Seq<
    char,
> {
    let n = toks.len() as int;
    corrected_prefix(bytes, toks, reps, n) + decode_utf8(
        bytes.subrange(correction_cursor(bytes, toks, n), bytes.len() as int),
    )
}

/// The views of the tokens.
pub open spec fn token_views(tokens: Seq<CorrectionToken>) -> Seq<TokenView> {
    tokens.map_values(|t: CorrectionToken| t@)
}

/// The views of strings.
pub open spec fn string_views(strings: Seq<String>) -> Seq<Seq<char>> {
    strings.map_values(|s: String| s@)
}

proof fn lemma_cursor_boundary(bytes: Seq<u8>, toks: Seq<TokenView>, n: int)
    requires
        vstd::utf8::valid_utf8(bytes),
        0 <= n <= toks.len(),
        correction_slices_ok(bytes, toks, n),
        forall|i: int| 0 <= i < toks.len() ==> 0 <= (#[trigger] toks[i]).1 && 0 <= toks[i].2,
    ensures
        0 <= correction_cursor(bytes, toks, n) <= bytes.len(),
        is_char_boundary(bytes, correction_cursor(bytes, toks, n)),
    decreases n,
{
    if n == 0 {
        vstd::utf8::is_char_boundary_start_end_of_seq(bytes);
    } else {
        lemma_cursor_boundary(bytes, toks, n - 1);
        assert(0 <= toks[n - 1].2);
    }
}

proof fn lemma_slices_ok_prefix(bytes: Seq<u8>, toks: Seq<TokenView>, n: int, m: int)
    requires
        0 <= m <= n,
        correction_slices_ok(bytes, toks, n),
    ensures
        correction_slices_ok(bytes, toks, m),
    decreases n - m,
{
    if m < n {
        lemma_slices_ok_prefix(bytes, toks, n - 1, m);
    }
}

proof fn lemma_boundary_in_slice(bytes: Seq<u8>, a: int, e: int, i: int)
    requires
        vstd::utf8::valid_utf8(bytes),
        vstd::utf8::valid_utf8(bytes.subrange(a, e)),
        0 <= a <= i <= e <= bytes.len(),
        is_char_boundary(bytes, i),
    ensures
        is_char_boundary(bytes.subrange(a, e), i - a),
{
    let sub = bytes.subrange(a, e);
    if i == e {
        vstd::utf8::is_char_boundary_start_end_of_seq(sub);
        assert(sub.len() == i - a);
    } else {
        vstd::utf8::is_char_boundary_iff_not_is_continuation_byte(bytes, i);
        vstd::utf8::is_char_boundary_iff_not_is_continuation_byte(sub, i - a);
        assert(sub[i - a] == bytes[i]);
    }
}

/// Decoding two adjacent slices that meet on a character boundary gives the
/// decoding of the slice they make together.
proof fn lemma_decode_join(bytes: Seq<u8>, a: int, b: int, c: int)
    requires
        vstd::utf8::valid_utf8(bytes),
        0 <= a <= b <= c <= bytes.len(),
        is_char_boundary(bytes, a),
        is_char_boundary(bytes, b),
        is_char_boundary(bytes, c),
    ensures
        decode_utf8(bytes.subrange(a, b)) + decode_utf8(bytes.subrange(b, c)) == decode_utf8(
            bytes.subrange(a, c),
        ),
{
    let n = bytes.len() as int;
    vstd::utf8::valid_utf8_split(bytes, a);
    let tail = bytes.subrange(a, n);
    lemma_boundary_in_slice(bytes, a, n, c);
    vstd::utf8::valid_utf8_split(tail, c - a);
    let x = bytes.subrange(a, c);
    assert(tail.subrange(0, c - a) =~= x);
    lemma_boundary_in_slice(bytes, a, c, b);
    vstd::utf8::decode_utf8_split(x, b - a);
    assert(x.subrange(0, b - a) =~= bytes.subrange(a, b));
    assert(x.subrange(b - a, x.len() as int) =~= bytes.subrange(b, c));
}

proof fn lemma_known_prefix_is_input(
    bytes: Seq<u8>,
    toks: Seq<TokenView>,
    reps: Seq<Seq<char>>,
    n: int,
)
    requires
        vstd::utf8::valid_utf8(bytes),
        0 <= n <= toks.len(),
        correction_slices_ok(bytes, toks, n),
        forall|i: int| 0 <= i < toks.len() ==> 0 <= (#[trigger] toks[i]).1 && 0 <= toks[i].2,
        forall|i: int| 0 <= i < toks.len() ==> !(#[trigger] toks[i]).3,
    ensures
        corrected_prefix(bytes, toks, reps, n) == decode_utf8(
            bytes.subrange(0, correction_cursor(bytes, toks, n)),
        ),
    decreases n,
{
    if n == 0 {
        assert(bytes.subrange(0, 0) =~= Seq::<u8>::empty());
        assert(decode_utf8(Seq::<u8>::empty()) =~= Seq::<char>::empty());
    } else {
        lemma_known_prefix_is_input(bytes, toks, reps, n - 1);
        lemma_cursor_boundary(bytes, toks, n - 1);
        let c = correction_cursor(bytes, toks, n - 1);
        let t = toks[n - 1];
        assert(!t.3);
        if token_taken(bytes, c, t) {
            vstd::utf8::is_char_boundary_start_end_of_seq(bytes);
            lemma_decode_join(bytes, c, t.1, t.2);
            lemma_decode_join(bytes, 0, c, t.2);
            assert(decode_utf8(bytes.subrange(0, c)) + (decode_utf8(bytes.subrange(c, t.1))
                + decode_utf8(bytes.subrange(t.1, t.2))) =~= decode_utf8(bytes.subrange(0, c))
                + decode_utf8(bytes.subrange(c, t.2)));
        } else {
            assert(corrected_prefix(bytes, toks, reps, n - 1) + Seq::<char>::empty()
                =~= corrected_prefix(bytes, toks, reps, n - 1));
        }
    }
}

/// A line whose tokens are all known comes back from the correction
/// unchanged, whatever replacements are at hand.
pub proof fn lemma_all_known_tokens_keep_line(
    line: Seq<char>,
    tokens: Seq<CorrectionToken>,
    reps: Seq<Seq<char>>,
)
    requires
        correction_slices_ok(encode_utf8(line), token_views(tokens), tokens.len() as int),
        forall|i: int| 0 <= i < tokens.len() ==> !(#[trigger] token_views(tokens)[i]).3,
    ensures
        spec_corrected(encode_utf8(line), token_views(tokens), reps) == line,
{
    let bytes = encode_utf8(line);
    let toks = token_views(tokens);
    vstd::utf8::encode_utf8_valid_utf8(line);
    vstd::utf8::encode_utf8_decode_utf8(line);
    lemma_token_fields(tokens);
    let n = toks.len() as int;
    lemma_known_prefix_is_input(bytes, toks, reps, n);
    lemma_cursor_boundary(bytes, toks, n);
    let c = correction_cursor(bytes, toks, n);
    vstd::utf8::is_char_boundary_start_end_of_seq(bytes);
    lemma_decode_join(bytes, 0, c, bytes.len() as int);
    assert(bytes.subrange(0, bytes.len() as int) =~= bytes);
}

proof fn lemma_prefix_uses_first_reps(
    bytes: Seq<u8>,
    toks: Seq<TokenView>,
    r1: Seq<Seq<char>>,
    r2: Seq<Seq<char>>,
    n: int,
)
    requires
        forall|i: int| 0 <= i < n ==> r1[i] == r2[i],
    ensures
        corrected_prefix(bytes, toks, r1, n) == corrected_prefix(bytes, toks, r2, n),
    decreases n,
{
    if n > 0 {
        lemma_prefix_uses_first_reps(bytes, toks, r1, r2, n - 1);
    }
}

proof fn lemma_token_fields(tokens: Seq<CorrectionToken>)
    ensures
        forall|i: int|
            0 <= i < tokens.len() ==> 0 <= (#[trigger] token_views(tokens)[i]).1 && 0
                <= token_views(tokens)[i].2,
{
    assert forall|i: int| 0 <= i < tokens.len() implies 0 <= (#[trigger] token_views(
        tokens,
    )[i]).1 && 0 <= token_views(tokens)[i].2 by {
        assert(token_views(tokens)[i] == tokens[i]@);
        assert(tokens[i]@.1 >= 0 && tokens[i]@.2 >= 0) by {
            lemma_token_view_bounds(tokens[i]);
        }
    }
}

proof fn lemma_token_view_bounds(t: CorrectionToken)
    ensures
        0 <= t@.1,
        0 <= t@.2,
{
}

/// Adds what `token` contributes at `cursor` to `out`, with `rep` for an
/// unknown token, and returns the next cursor.
fn emit_token(
    out: &mut Vec<char>,
    input: &str,
    cursor: usize,
    token: &CorrectionToken,
    rep: &str,
) -> (next: usize)
    requires
        cursor <= encode_utf8(input@).len(),
        is_char_boundary(encode_utf8(input@), cursor as int),
        token_taken(encode_utf8(input@), cursor as int, token@) ==> token_slices_ok(
            encode_utf8(input@),
            token@,
        ),
    ensures
        token_taken(encode_utf8(input@), cursor as int, token@) ==> final(out)@ == old(out)@
            + token_text(encode_utf8(input@), cursor as int, token@, rep@) && next == token@.2,
        !token_taken(encode_utf8(input@), cursor as int, token@) ==> final(out)@ == old(out)@
            && next == cursor,
{
    let start = token.start();
    let end = token.end();
    if cursor <= start && end <= byte_len(input) {
        proof {
            vstd::utf8::encode_utf8_valid_utf8(input@);
            assert(start <= encode_utf8(input@).len());
        }
        let gap = byte_range_str(input, cursor, start);
        extend_chars(out, &str_to_chars(gap));
        if token.unknown_flag() {
            extend_chars(out, &str_to_chars(rep));
        } else {
            let body = byte_range_str(input, start, end);
            extend_chars(out, &str_to_chars(body));
        }
        end
    } else {
        cursor
    }
}

/// Corrects a line from its tokens: known tokens and the text between
/// tokens are kept, each unknown token is replaced by `replacements` at the
/// same position (see [`spec_corrected`]).
pub fn correct_unknown_tokens_with_replacements(
    input: &str,
    tokens: &[CorrectionToken],
    replacements: &[String],
) -> (res: String)
    requires
        replacements@.len() == tokens@.len(),
        correction_slices_ok(
            encode_utf8(input@),
            token_views(tokens@),
            tokens@.len() as int,
        ),
    ensures
        res@ == spec_corrected(
            encode_utf8(input@),
            token_views(tokens@),
            string_views(replacements@),
        ),
{
    let ghost bytes = encode_utf8(input@);
    let ghost toks = token_views(tokens@);
    let ghost reps = string_views(replacements@);
    proof {
        vstd::utf8::encode_utf8_valid_utf8(input@);
        lemma_token_fields(tokens@);
    }
    let mut out: Vec<char> = Vec::new();
    let mut cursor: usize = 0;
    let mut k: usize = 0;
    while k < tokens.len()
        invariant
            k <= tokens@.len(),
            replacements@.len() == tokens@.len(),
            bytes == encode_utf8(input@),
            toks == token_views(tokens@),
            reps == string_views(replacements@),
            vstd::utf8::valid_utf8(bytes),
            forall|i: int| 0 <= i < toks.len() ==> 0 <= (#[trigger] toks[i]).1 && 0 <= toks[i].2,
            correction_slices_ok(bytes, toks, toks.len() as int),
            cursor == correction_cursor(bytes, toks, k as int),
            out@ == corrected_prefix(bytes, toks, reps, k as int),
        decreases tokens.len() - k,
    {
        proof {
            lemma_slices_ok_prefix(bytes, toks, toks.len() as int, k + 1);
            lemma_cursor_boundary(bytes, toks, k as int);
            assert(toks[k as int] == tokens@[k as int]@);
            assert(reps[k as int] == replacements@[k as int]@);
        }
        cursor = emit_token(&mut out, input, cursor, &tokens[k], replacements[k].as_str());
        k = k + 1;
    }
    proof {
        lemma_cursor_boundary(bytes, toks, toks.len() as int);
        vstd::utf8::is_char_boundary_start_end_of_seq(bytes);
    }
    let rest = byte_range_str(input, cursor, byte_len(input));
    extend_chars(&mut out, &str_to_chars(rest));
    chars_to_string(&out)
}

/// `f` may answer `b` when asked about a string whose characters are `c`.
pub open spec fn answers<F: Fn(&str) -> bool>(f: F, c: Seq<char>, b: bool) -> bool {
    exists|x: &str| x@ == c && #[trigger] f.ensures((x,), b)
}

/// `r` is what the search over the candidates of `surface` gives, with `f`
/// answering for each candidate tried: the first candidate `f` accepted,
/// every earlier one having been refused; or `surface` itself when `f`
/// refused them all.
pub open spec fn picked_by<F: Fn(&str) -> bool>(f: F, surface: Seq<char>, r: Seq<char>) -> bool {
    let cands = spec_candidate_surfaces(surface);
    ||| exists|j: int|
        0 <= j < cands.len() && r == cands[j] && answers(f, cands[j], true) && forall|i: int|
            0 <= i < j ==> answers(f, #[trigger] cands[i], false)
    ||| r == surface && forall|i: int| 0 <= i < cands.len() ==> answers(f, #[trigger] cands[i], false)
}

proof fn lemma_picked_is_candidate<F: Fn(&str) -> bool>(f: F, surface: Seq<char>, r: Seq<char>)
    requires
        picked_by(f, surface, r),
    ensures
        r == surface || spec_candidate_surfaces(surface).contains(r),
{
    let cands = spec_candidate_surfaces(surface);
    if r != surface {
        let j = choose|j: int|
            0 <= j < cands.len() && r == cands[j] && answers(f, cands[j], true) && forall|i: int|
                0 <= i < j ==> answers(f, #[trigger] cands[i], false);
        assert(cands[j] == r);
    }
}

/// The first candidate of `surface` that `is_known` accepts, or `surface`.
fn first_known_candidate<F: Fn(&str) -> bool>(surface: &str, is_known: &F) -> (res: String)
    requires
        forall|x: &str| #[trigger] is_known.requires((x,)),
    ensures
        picked_by(*is_known, surface@, res@),
{
    let cands = candidate_surfaces(surface);
    let ghost cv = spec_candidate_surfaces(surface@);
    let mut i: usize = 0;
    while i < cands.len()
        invariant
            i <= cands@.len(),
            cands.deep_view() == cv,
            cv == spec_candidate_surfaces(surface@),
            forall|x: &str| #[trigger] is_known.requires((x,)),
            forall|k: int| 0 <= k < i ==> answers(*is_known, #[trigger] cv[k], false),
        decreases cands.len() - i,
    {
        let c: &str = cands[i].as_str();
        proof {
            assert(cv[i as int] == cands@[i as int]@);
        }
        let ok = is_known(c);
        if ok {
            proof {
                assert(answers(*is_known, cv[i as int], true));
            }
            return cands[i].clone();
        }
        proof {
            assert(answers(*is_known, cv[i as int], false));
        }
        i = i + 1;
    }
    surface.to_owned()
}

/// Corrects a line from its tokens: the text between tokens and the known
/// tokens are kept, and each unknown token is replaced by its first
/// candidate (see [`spec_candidate_surfaces`]) that `is_known` accepts, or
/// kept when it accepts none. `is_known` is asked only about the candidates
/// of the unknown tokens that take part, in order, up to the first it
/// accepts.
pub fn correct_unknown_tokens_with<F: Fn(&str) -> bool>(
    input: &str,
    tokens: &[CorrectionToken],
    is_known: F,
) -> (res: String)
    requires
        forall|x: &str| #[trigger] is_known.requires((x,)),
        correction_slices_ok(
            encode_utf8(input@),
            token_views(tokens@),
            tokens@.len() as int,
        ),
    ensures
        exists|reps: Seq<Seq<char>>|
            {
                &&& reps.len() == tokens@.len()
                &&& res@ == spec_corrected(encode_utf8(input@), token_views(tokens@), reps)
                &&& forall|i: int|
                    0 <= i < tokens@.len() && (#[trigger] token_views(tokens@)[i]).3
                        && token_taken(
                        encode_utf8(input@),
                        correction_cursor(encode_utf8(input@), token_views(tokens@), i),
                        token_views(tokens@)[i],
                    ) ==> picked_by(is_known, token_views(tokens@)[i].0, reps[i])
                &&& forall|i: int|
                    0 <= i < tokens@.len() && (#[trigger] token_views(tokens@)[i]).3
                        && token_taken(
                        encode_utf8(input@),
                        correction_cursor(encode_utf8(input@), token_views(tokens@), i),
                        token_views(tokens@)[i],
                    ) ==> reps[i] == token_views(tokens@)[i].0 || spec_candidate_surfaces(
                        token_views(tokens@)[i].0,
                    ).contains(reps[i])
            },
{
    let ghost bytes = encode_utf8(input@);
    let ghost toks = token_views(tokens@);
    let ghost mut reps: Seq<Seq<char>> = seq![];
    proof {
        vstd::utf8::encode_utf8_valid_utf8(input@);
        lemma_token_fields(tokens@);
    }
    let mut out: Vec<char> = Vec::new();
    let mut cursor: usize = 0;
    let mut k: usize = 0;
    while k < tokens.len()
        invariant
            k <= tokens@.len(),
            bytes == encode_utf8(input@),
            toks == token_views(tokens@),
            vstd::utf8::valid_utf8(bytes),
            forall|x: &str| #[trigger] is_known.requires((x,)),
            forall|i: int| 0 <= i < toks.len() ==> 0 <= (#[trigger] toks[i]).1 && 0 <= toks[i].2,
            correction_slices_ok(bytes, toks, toks.len() as int),
            cursor == correction_cursor(bytes, toks, k as int),
            reps.len() == k,
            out@ == corrected_prefix(bytes, toks, reps, k as int),
            forall|i: int|
                0 <= i < k && (#[trigger] toks[i]).3 && token_taken(
                    bytes,
                    correction_cursor(bytes, toks, i),
                    toks[i],
                ) ==> picked_by(is_known, toks[i].0, reps[i]),
            forall|i: int|
                0 <= i < k && (#[trigger] toks[i]).3 && token_taken(
                    bytes,
                    correction_cursor(bytes, toks, i),
                    toks[i],
                ) ==> reps[i] == toks[i].0 || spec_candidate_surfaces(toks[i].0).contains(reps[i]),
        decreases tokens.len() - k,
    {
        proof {
            lemma_slices_ok_prefix(bytes, toks, toks.len() as int, k + 1);
            lemma_cursor_boundary(bytes, toks, k as int);
            assert(toks[k as int] == tokens@[k as int]@);
        }
        let token = &tokens[k];
        let taken = cursor <= token.start() && token.end() <= byte_len(input);
        let rep = if taken && token.unknown_flag() {
            first_known_candidate(token.surface_str(), &is_known)
        } else {
            token.surface_str().to_owned()
        };
        let ghost old_reps = reps;
        proof {
            if taken && token@.3 {
                lemma_picked_is_candidate(is_known, token@.0, rep@);
            }
            reps = reps.push(rep@);
            lemma_prefix_uses_first_reps(bytes, toks, old_reps, reps, k as int);
        }
        cursor = emit_token(&mut out, input, cursor, token, rep.as_str());
        k = k + 1;
    }
    proof {
        lemma_cursor_boundary(bytes, toks, toks.len() as int);
        vstd::utf8::is_char_boundary_start_end_of_seq(bytes);
    }
    let rest = byte_range_str(input, cursor, byte_len(input));
    extend_chars(&mut out, &str_to_chars(rest));
    let res = chars_to_string(&out);
    proof {
        assert(res@ == spec_corrected(bytes, toks, reps));
        assert(reps.len() == tokens@.len());
    }
    res
}

// ---------------------------------------------------------------------------
// Correction with a Vibrato system dictionary
// ---------------------------------------------------------------------------

#[verifier::external_type_specification]
#[verifier::external_body]
pub struct ExVibratoSystemDictionary(delarocha::VibratoSystemDictionary);

#[verifier::external_type_specification]
#[verifier::external_body]
pub struct ExVibratoSystemTokenizer(delarocha::VibratoSystemTokenizer);

#[verifier::external_type_specification]
#[verifier::external_body]
pub struct ExDelarochaError(delarocha::Error);

/// The tokenizer that `VibratoSystemDictionary::into_tokenizer` makes of a
/// dictionary (a fresh tokenizer with default options).
pub uninterp spec fn tokenizer_of(dictionary: delarocha::VibratoSystemDictionary) -> delarocha::VibratoSystemTokenizer;

/// Whether the dictionary of `tokenizer` defines the character category
/// `SPACE` (its `char.def`).
pub uninterp spec fn defines_space_category(tokenizer: delarocha::VibratoSystemTokenizer) -> bool;

/// Calls `VibratoSystemDictionary::into_tokenizer`; the tokenizer is the one
/// named [`tokenizer_of`] the dictionary.
#[verifier::external_body]
fn into_tokenizer(dictionary: delarocha::VibratoSystemDictionary) -> (res: delarocha::VibratoSystemTokenizer)
    ensures
        res == tokenizer_of(dictionary),
{
    dictionary.into_tokenizer()
}

/// The tokenizer that `VibratoSystemTokenizer::ignore_space` makes of
/// `tokenizer` when it succeeds: the same, skipping spaces or not.
pub uninterp spec fn with_space_skipping(tokenizer: delarocha::VibratoSystemTokenizer, yes: bool) -> delarocha::VibratoSystemTokenizer;

/// The tokenizer that `VibratoSystemTokenizer::max_grouping_len` makes of
/// `tokenizer`: the same, grouping unknown runs of at most `len`
/// characters (no limit for 0).
pub uninterp spec fn with_grouping_len(tokenizer: delarocha::VibratoSystemTokenizer, len: usize) -> delarocha::VibratoSystemTokenizer;

/// Calls `VibratoSystemTokenizer::ignore_space`. Switching it on fails
/// exactly when the dictionary defines no `SPACE` category; switching it
/// off never fails. On success the tokenizer is the one named
/// [`with_space_skipping`].
#[verifier::external_body]
fn ignore_space(tokenizer: delarocha::VibratoSystemTokenizer, yes: bool) -> (res: Result<
    delarocha::VibratoSystemTokenizer,
    delarocha::Error,
>)
    ensures
        yes ==> (res is Ok <==> defines_space_category(tokenizer)),
        !yes ==> res is Ok,
        res matches Ok(t) ==> t == with_space_skipping(tokenizer, yes),
{
    tokenizer.ignore_space(yes)
}

/// Calls `VibratoSystemTokenizer::max_grouping_len`; the tokenizer is the
/// one named [`with_grouping_len`].
#[verifier::external_body]
fn max_grouping_len(tokenizer: delarocha::VibratoSystemTokenizer, len: usize) -> (res: delarocha::VibratoSystemTokenizer)
    ensures
        res == with_grouping_len(tokenizer, len),
{
    tokenizer.max_grouping_len(len)
}

/// The tokens that `VibratoSystemTokenizer::tokenize` gives for `input`:
/// surface, byte range and whether it is unknown. Each call builds a fresh
/// worker, so they depend on the tokenizer and the input alone.
pub uninterp spec fn vibrato_tokens(tokenizer: delarocha::VibratoSystemTokenizer, input: Seq<char>) -> Seq<(Seq<char>, int, int, bool)>;

/// Surface, byte range and unknown flag of tokens handed out by the tokenizer.
pub open spec fn token_tuples(toks: Seq<(String, usize, usize, bool)>) -> Seq<TokenView> {
    toks.map_values(|t: (String, usize, usize, bool)| (t.0@, t.1 as int, t.2 as int, t.3))
}

/// Calls `VibratoSystemTokenizer::tokenize` and hands each token out as its
/// surface, byte range and whether it is unknown: the tokens named
/// [`vibrato_tokens`]. The source of this version always returns `Ok`. Each
/// surface is the input sliced by the token's byte range (`&input[range_byte]`,
/// which returns only for a range in order, within the input and on
/// character boundaries), and an empty input gives no tokens.
#[verifier::external_body]
fn tokenize(tokenizer: &delarocha::VibratoSystemTokenizer, input: &str) -> (res: Result<
    Vec<(String, usize, usize, bool)>,
    delarocha::Error,
>)
    ensures
        res is Ok,
        res matches Ok(toks) ==> token_tuples(toks@) == vibrato_tokens(*tokenizer, input@),
        res matches Ok(toks) ==> forall|i: int|
            0 <= i < toks@.len() ==> token_lies_in(input@, #[trigger] toks@[i]),
        res matches Ok(toks) ==> (input@.len() == 0 ==> toks@.len() == 0),
{
    tokenizer.tokenize(input).map(
        |tokens| tokens.into_iter().map(|t| (t.surface.clone(), t.start, t.end, t.is_unknown())).collect(),
    )
}

/// A token handed out by the tokenizer lies in `input`: its byte range is in
/// order, within the UTF-8 bytes of `input` and on character boundaries, and
/// its surface is the text of that range.
pub open spec fn token_lies_in(input: Seq<char>, t: (String, usize, usize, bool)) -> bool {
    let bytes = encode_utf8(input);
    &&& t.1 <= t.2 <= bytes.len()
    &&& is_char_boundary(bytes, t.1 as int)
    &&& is_char_boundary(bytes, t.2 as int)
    &&& t.0@ == decode_utf8(bytes.subrange(t.1 as int, t.2 as int))
}

proof fn lemma_slices_ok_when_all_fit(bytes: Seq<u8>, toks: Seq<TokenView>, n: int)
    requires
        0 <= n <= toks.len(),
        forall|i: int| 0 <= i < toks.len() ==> token_slices_ok(bytes, #[trigger] toks[i]),
    ensures
        correction_slices_ok(bytes, toks, n),
    decreases n,
{
    if n > 0 {
        lemma_slices_ok_when_all_fit(bytes, toks, n - 1);
        assert(token_slices_ok(bytes, toks[n - 1]));
    }
}

/// The message of a `delarocha::Error` (its `Display` text); nothing is
/// claimed of it.
#[verifier::external_body]
fn error_message(err: &delarocha::Error) -> String {
    err.to_string()
}

/// Why a line could not be corrected.
pub struct MorphError {
    pub message: String,
}

/// Whether a tokenization of `text` says the analyser knows it: there is at
/// least one token, the surfaces spell `text` and no token is unknown.
pub open spec fn known_tokenization(text: Seq<char>, toks: Seq<(Seq<char>, bool)>) -> bool {
    &&& toks.len() > 0
    &&& concat_surfaces(toks) == text
    &&& forall|i: int| 0 <= i < toks.len() ==> !(#[trigger] toks[i]).1
}

/// The surfaces of the tokens, one after the other.
pub open spec fn concat_surfaces(toks: Seq<(Seq<char>, bool)>) -> Seq<char>
    decreases toks.len(),
{
    if toks.len() == 0 {
        seq![]
    } else {
        concat_surfaces(toks.drop_last()) + toks.last().0
    }
}

/// Surface and unknown flag of tokens handed out by the tokenizer.
pub open spec fn surface_flags(toks: Seq<(String, usize, usize, bool)>) -> Seq<(Seq<char>, bool)> {
    toks.map_values(|t: (String, usize, usize, bool)| (t.0@, t.3))
}

/// Decides [`known_tokenization`] from the tokens of `text`.
pub fn tokens_spell_known_text(text: &str, tokens: &Vec<(String, usize, usize, bool)>) -> (r: bool)
    ensures
        r == known_tokenization(text@, surface_flags(tokens@)),
{
    let ghost toks = surface_flags(tokens@);
    if tokens.len() == 0 {
        return false;
    }
    let mut spelled: Vec<char> = Vec::new();
    let mut all_known = true;
    let mut i: usize = 0;
    while i < tokens.len()
        invariant
            i <= tokens@.len(),
            toks == surface_flags(tokens@),
            spelled@ == concat_surfaces(toks.take(i as int)),
            all_known == forall|k: int| 0 <= k < i ==> !(#[trigger] toks[k]).1,
        decreases tokens.len() - i,
    {
        proof {
            assert(toks.take(i + 1).drop_last() =~= toks.take(i as int));
        }
        proof {
            assert(toks[i as int] == (tokens@[i as int].0@, tokens@[i as int].3));
        }
        extend_chars(&mut spelled, &str_to_chars(tokens[i].0.as_str()));
        if tokens[i].3 {
            all_known = false;
        }
        i = i + 1;
    }
    proof {
        assert(toks.take(tokens@.len() as int) =~= toks);
    }
    let text_chars = str_to_chars(text);
    all_known && crate::chars::vec_chars_eq(&spelled, &text_chars)
}

/// Whether the byte ranges of `tokens` can be cut out of `input` as
/// [`correct_unknown_tokens_with`] does.
pub fn token_slices_fit(input: &str, tokens: &[CorrectionToken]) -> (r: bool)
    ensures
        r == correction_slices_ok(encode_utf8(input@), token_views(tokens@), tokens@.len() as int),
{
    let ghost bytes = encode_utf8(input@);
    let ghost toks = token_views(tokens@);
    proof {
        vstd::utf8::encode_utf8_valid_utf8(input@);
        lemma_token_fields(tokens@);
    }
    let len = byte_len(input);
    let mut cursor: usize = 0;
    let mut k: usize = 0;
    while k < tokens.len()
        invariant
            k <= tokens@.len(),
            bytes == encode_utf8(input@),
            len == bytes.len(),
            toks == token_views(tokens@),
            cursor == correction_cursor(bytes, toks, k as int),
            correction_slices_ok(bytes, toks, k as int),
        decreases tokens.len() - k,
    {
        proof {
            assert(toks[k as int] == tokens@[k as int]@);
        }
        let t = &tokens[k];
        if cursor <= t.start() && t.end() <= len {
            let ok = input.is_char_boundary(t.start()) && input.is_char_boundary(t.end()) && (
            t.unknown_flag() || t.start() <= t.end());
            if !ok {
                proof {
                    assert forall|n: int| n >= k + 1 implies !correction_slices_ok(bytes, toks, n) by {
                        lemma_slices_ok_prefix_neg(bytes, toks, n, k + 1);
                    }
                }
                return false;
            }
            cursor = t.end();
        }
        k = k + 1;
    }
    true
}

proof fn lemma_slices_ok_prefix_neg(bytes: Seq<u8>, toks: Seq<TokenView>, n: int, m: int)
    requires
        0 <= m <= n,
        !correction_slices_ok(bytes, toks, m),
    ensures
        !correction_slices_ok(bytes, toks, n),
{
    if correction_slices_ok(bytes, toks, n) {
        lemma_slices_ok_prefix(bytes, toks, n, m);
    }
}

/// Surface and unknown flag of each token.
pub open spec fn token_flags(toks: Seq<TokenView>) -> Seq<(Seq<char>, bool)> {
    toks.map_values(|t: TokenView| (t.0, t.3))
}

/// Whether the analyser knows `text` as a whole: its tokens for `text`
/// spell it and none is unknown (see [`known_tokenization`]).
pub open spec fn analyser_knows(tokenizer: delarocha::VibratoSystemTokenizer, text: Seq<char>) -> bool {
    known_tokenization(text, token_flags(vibrato_tokens(tokenizer, text)))
}

/// The first of `cands` that the analyser knows, or `surface` when it knows
/// none of them.
pub open spec fn first_known_in(
    tokenizer: delarocha::VibratoSystemTokenizer,
    cands: Seq<Seq<char>>,
    surface: Seq<char>,
) -> Seq<char>
    decreases cands.len(),
{
    if cands.len() == 0 {
        surface
    } else if analyser_knows(tokenizer, cands[0]) {
        cands[0]
    } else {
        first_known_in(tokenizer, cands.drop_first(), surface)
    }
}

/// What an unknown token becomes: its first candidate (see
/// [`spec_candidate_surfaces`]) that the analyser knows, or its own surface.
pub open spec fn analyser_replacement(tokenizer: delarocha::VibratoSystemTokenizer, surface: Seq<char>) -> Seq<char> {
    first_known_in(tokenizer, spec_candidate_surfaces(surface), surface)
}

/// The line corrected with the analyser: its tokens for `line`, each
/// unknown one that takes part replaced by [`analyser_replacement`] (see
/// [`spec_corrected`]).
pub open spec fn corrected_by_analyser(tokenizer: delarocha::VibratoSystemTokenizer, line: Seq<char>) -> Seq<char> {
    let toks = vibrato_tokens(tokenizer, line);
    spec_corrected(
        encode_utf8(line),
        toks,
        toks.map_values(|t: TokenView| analyser_replacement(tokenizer, t.0)),
    )
}

proof fn lemma_first_known_at(
    tokenizer: delarocha::VibratoSystemTokenizer,
    cands: Seq<Seq<char>>,
    surface: Seq<char>,
    j: int,
)
    requires
        0 <= j <= cands.len(),
        forall|i: int| 0 <= i < j ==> !analyser_knows(tokenizer, #[trigger] cands[i]),
        j < cands.len() ==> analyser_knows(tokenizer, cands[j]),
    ensures
        first_known_in(tokenizer, cands, surface) == if j < cands.len() {
            cands[j]
        } else {
            surface
        },
    decreases j,
{
    if j > 0 {
        assert(!analyser_knows(tokenizer, cands[0]));
        let rest = cands.drop_first();
        assert forall|i: int| 0 <= i < j - 1 implies !analyser_knows(tokenizer, #[trigger] rest[i]) by {
            assert(rest[i] == cands[i + 1]);
        }
        if j < cands.len() {
            assert(rest[j - 1] == cands[j]);
        }
        lemma_first_known_at(tokenizer, rest, surface, j - 1);
    }
}

/// A search whose checker answers as the analyser does picks
/// [`analyser_replacement`].
proof fn lemma_picked_by_analyser<F: Fn(&str) -> bool>(
    f: F,
    tokenizer: delarocha::VibratoSystemTokenizer,
    surface: Seq<char>,
    r: Seq<char>,
)
    requires
        picked_by(f, surface, r),
        forall|x: &str, b: bool| #[trigger] f.ensures((x,), b) ==> b == analyser_knows(tokenizer, x@),
    ensures
        r == analyser_replacement(tokenizer, surface),
{
    let cands = spec_candidate_surfaces(surface);
    if exists|j: int|
        0 <= j < cands.len() && r == cands[j] && answers(f, cands[j], true) && forall|i: int|
            0 <= i < j ==> answers(f, #[trigger] cands[i], false) {
        let j = choose|j: int|
            0 <= j < cands.len() && r == cands[j] && answers(f, cands[j], true) && forall|i: int|
                0 <= i < j ==> answers(f, #[trigger] cands[i], false);
        let x = choose|x: &str| x@ == cands[j] && #[trigger] f.ensures((x,), true);
        assert(f.ensures((x,), true));
        assert forall|i: int| 0 <= i < j implies !analyser_knows(tokenizer, #[trigger] cands[i]) by {
            assert(answers(f, cands[i], false));
            let y = choose|y: &str| y@ == cands[i] && #[trigger] f.ensures((y,), false);
            assert(f.ensures((y,), false));
        }
        lemma_first_known_at(tokenizer, cands, surface, j);
    } else {
        assert forall|i: int| 0 <= i < cands.len() implies !analyser_knows(tokenizer, #[trigger] cands[i]) by {
            assert(answers(f, cands[i], false));
            let y = choose|y: &str| y@ == cands[i] && #[trigger] f.ensures((y,), false);
            assert(f.ensures((y,), false));
        }
        lemma_first_known_at(tokenizer, cands, surface, cands.len() as int);
    }
}

/// The corrected text depends on the replacements of the unknown tokens
/// that take part only.
proof fn lemma_corrected_prefix_same_reps(
    bytes: Seq<u8>,
    toks: Seq<TokenView>,
    r1: Seq<Seq<char>>,
    r2: Seq<Seq<char>>,
    n: int,
)
    requires
        n <= toks.len(),
        forall|i: int|
            0 <= i < n && (#[trigger] toks[i]).3 && token_taken(
                bytes,
                correction_cursor(bytes, toks, i),
                toks[i],
            ) ==> r1[i] == r2[i],
    ensures
        corrected_prefix(bytes, toks, r1, n) == corrected_prefix(bytes, toks, r2, n),
    decreases n,
{
    if n > 0 {
        lemma_corrected_prefix_same_reps(bytes, toks, r1, r2, n - 1);
        let c = correction_cursor(bytes, toks, n - 1);
        if toks[n - 1].3 && token_taken(bytes, c, toks[n - 1]) {
            assert(r1[n - 1] == r2[n - 1]);
        }
    }
}

/// Corrects the unknown tokens of lines with a Vibrato system dictionary.
pub struct DelarochaMorphCorrector {
    tokenizer: delarocha::VibratoSystemTokenizer,
}

impl DelarochaMorphCorrector {
    /// The tokenizer the corrector analyses text with.
    pub closed spec fn analyser(&self) -> delarocha::VibratoSystemTokenizer {
        self.tokenizer
    }

    /// A corrector over `dictionary`, skipping spaces and grouping unknown
    /// runs of up to 24 characters. It fails exactly when the dictionary
    /// defines no `SPACE` character category.
    pub fn from_dictionary(dictionary: delarocha::VibratoSystemDictionary) -> (res: Result<
        Self,
        MorphError,
    >)
        ensures
            res is Ok <==> defines_space_category(tokenizer_of(dictionary)),
            res matches Ok(c) ==> c.analyser() == with_grouping_len(
                with_space_skipping(tokenizer_of(dictionary), true),
                24,
            ),
    {
        let tokenizer = into_tokenizer(dictionary);
        match ignore_space(tokenizer, true) {
            Ok(t) => Ok(DelarochaMorphCorrector { tokenizer: max_grouping_len(t, 24) }),
            Err(err) => Err(MorphError { message: error_message(&err) }),
        }
    }

    /// Whether the analyser knows `text` as a whole (see
    /// [`analyser_knows`]): the tokens it gives for `text` spell it and none
    /// is unknown; an empty text gives no tokens and is not known.
    pub fn is_known_text(&self, text: &str) -> (r: bool)
        ensures
            r == analyser_knows(self.analyser(), text@),
            text@.len() == 0 ==> !r,
    {
        match tokenize(&self.tokenizer, text) {
            Ok(tokens) => {
                let r = tokens_spell_known_text(text, &tokens);
                proof {
                    assert(surface_flags(tokens@) =~= token_flags(token_tuples(tokens@)));
                }
                r
            },
            Err(_) => false,
        }
    }

    /// Corrects the unknown tokens of `line` (see
    /// [`correct_unknown_tokens_with`]), asking [`Self::is_known_text`]
    /// about the candidates: the result is [`corrected_by_analyser`]. It
    /// always succeeds: the tokenizer does not fail and its tokens lie on
    /// character boundaries of `line`.
    pub fn correct_line(&self, line: &str) -> (res: Result<String, MorphError>)
        ensures
            res is Ok,
            res matches Ok(s) ==> s@ == corrected_by_analyser(self.analyser(), line@),
    {
        let raw = match tokenize(&self.tokenizer, line) {
            Ok(raw) => raw,
            Err(err) => {
                return Err(MorphError { message: error_message(&err) });
            },
        };
        let mut tokens: Vec<CorrectionToken> = Vec::new();
        let mut i: usize = 0;
        while i < raw.len()
            invariant
                i <= raw@.len(),
                tokens@.len() == i,
                forall|k: int| 0 <= k < raw@.len() ==> token_lies_in(line@, #[trigger] raw@[k]),
                forall|k: int|
                    0 <= k < i ==> (#[trigger] tokens@[k])@ == (
                        raw@[k].0@,
                        raw@[k].1 as int,
                        raw@[k].2 as int,
                        raw@[k].3,
                    ),
            decreases raw.len() - i,
        {
            let surface = raw[i].0.clone();
            let range = Range { start: raw[i].1, end: raw[i].2 };
            if raw[i].3 {
                tokens.push(CorrectionToken::unknown(surface, range));
            } else {
                tokens.push(CorrectionToken::known(surface, range));
            }
            i = i + 1;
        }
        proof {
            let bytes = encode_utf8(line@);
            let toks = token_views(tokens@);
            assert forall|k: int| 0 <= k < toks.len() implies token_slices_ok(bytes, #[trigger] toks[k]) by {
                assert(token_lies_in(line@, raw@[k]));
                assert(toks[k] == tokens@[k]@);
            }
            lemma_slices_ok_when_all_fit(bytes, toks, toks.len() as int);
            assert forall|k: int| 0 <= k < toks.len() implies #[trigger] toks[k] == token_tuples(raw@)[k] by {
                assert(toks[k] == tokens@[k]@);
            }
            assert(toks =~= token_tuples(raw@));
        }
        if !token_slices_fit(line, tokens.as_slice()) {
            return Err(MorphError { message: "token ranges do not fit the line".to_owned() });
        }
        let known = |candidate: &str| -> (r: bool)
            ensures
                r == analyser_knows(self.tokenizer, candidate@),
            { self.is_known_text(candidate) };
        let res = correct_unknown_tokens_with(line, tokens.as_slice(), known);
        proof {
            let bytes = encode_utf8(line@);
            let toks = token_views(tokens@);
            let reps = choose|reps: Seq<Seq<char>>|
                {
                    &&& reps.len() == tokens@.len()
                    &&& res@ == spec_corrected(bytes, toks, reps)
                    &&& forall|i: int|
                        0 <= i < tokens@.len() && (#[trigger] toks[i]).3 && token_taken(
                            bytes,
                            correction_cursor(bytes, toks, i),
                            toks[i],
                        ) ==> picked_by(known, toks[i].0, reps[i])
                };
            let chosen = toks.map_values(|t: TokenView| analyser_replacement(self.tokenizer, t.0));
            assert forall|i: int|
                0 <= i < toks.len() && (#[trigger] toks[i]).3 && token_taken(
                    bytes,
                    correction_cursor(bytes, toks, i),
                    toks[i],
                ) implies reps[i] == chosen[i] by {
                lemma_picked_by_analyser(known, self.tokenizer, toks[i].0, reps[i]);
            }
            lemma_corrected_prefix_same_reps(bytes, toks, reps, chosen, toks.len() as int);
        }
        Ok(res)
    }
}

} // verus!

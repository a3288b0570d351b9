//! Article-structure clean-up of the recognised lines of a page.
//!
//! The rules are stated over character sequences: each line is a
//! `Seq<char>`, a page is a `Seq<Seq<char>>`.
use vstd::prelude::*;

use crate::chars::{
    chars1, chars2, chars3, occurs_at, contains, lemma_chars_deep_view, vec_chars_eq,
    is_ascii_alphabetic, is_ascii_digit, spec_is_ascii_alphabetic, spec_is_ascii_digit, spec_is_whitespace,
    trim_end, trim_end_chars, strings_to_chars, chars_to_strings, contains_char, contains_char_chars, contains_chars, ends_with, ends_with_chars,
    extend_chars, find, find_chars, lemma_find_spec, replace_first, replace_first_chars,
    slice_chars, str_to_chars, trim, trim_chars, trim_start, trim_start_chars,
};

verus! {

broadcast use vstd::seq_lib::group_seq_properties;

// ---------------------------------------------------------------------------
// Character classes
// ---------------------------------------------------------------------------

/// Hiragana, katakana, CJK ideographs (base and extension A) and full-width
/// Latin letters.
pub open spec fn spec_is_textual_char(c: char) -> bool {
    ||| ('\u{3040}' <= c && c <= '\u{309F}')
    ||| ('\u{30A0}' <= c && c <= '\u{30FF}')
    ||| ('\u{3400}' <= c && c <= '\u{4DBF}')
    ||| ('\u{4E00}' <= c && c <= '\u{9FFF}')
    ||| ('\u{FF21}' <= c && c <= '\u{FF3A}')
    ||| ('\u{FF41}' <= c && c <= '\u{FF5A}')
}

fn is_textual_char(c: char) -> (r: bool)
    ensures
        r == spec_is_textual_char(c),
{
    ('\u{3040}' <= c && c <= '\u{309F}') || ('\u{30A0}' <= c && c <= '\u{30FF}') || ('\u{3400}'
        <= c && c <= '\u{4DBF}') || ('\u{4E00}' <= c && c <= '\u{9FFF}') || ('\u{FF21}' <= c && c
        <= '\u{FF3A}') || ('\u{FF41}' <= c && c <= '\u{FF5A}')
}

pub open spec fn spec_is_cjk_ideograph(c: char) -> bool {
    ('\u{4e00}' <= c && c <= '\u{9fff}') || ('\u{3400}' <= c && c <= '\u{4dbf}')
}

pub open spec fn spec_is_katakana(c: char) -> bool {
    '\u{30a0}' <= c && c <= '\u{30ff}'
}

/// CJK ideographs and the iteration mark `々`.
pub open spec fn spec_is_cjk(c: char) -> bool {
    ('\u{3400}' <= c && c <= '\u{4dbf}') || ('\u{4e00}' <= c && c <= '\u{9fff}') || c == '々'
}

fn is_cjk(c: char) -> (r: bool)
    ensures
        r == spec_is_cjk(c),
{
    ('\u{3400}' <= c && c <= '\u{4dbf}') || ('\u{4e00}' <= c && c <= '\u{9fff}') || c == '々'
}

// ---------------------------------------------------------------------------
// Decoration lines
// ---------------------------------------------------------------------------

/// A line whose trimmed text is empty, or has at most three characters none
/// of which is Japanese text (page numbers, rule fragments, stray marks).
pub open spec fn spec_is_decoration_line(line: Seq<char>) -> bool {
    let t = trim(line);
    t.len() == 0 || (t.len() <= 3 && !exists|i: int|
        0 <= i < t.len() && spec_is_textual_char(#[trigger] t[i]))
}

fn is_decoration_line_chars(line: &Vec<char>) -> (r: bool)
    ensures
        r == spec_is_decoration_line(line@),
{
    let t = trim_chars(line);
    if t.len() == 0 {
        return true;
    }
    if t.len() > 3 {
        return false;
    }
    let mut i: usize = 0;
    while i < t.len()
        invariant
            i <= t.len(),
            0 < t.len() <= 3,
            t@ == trim(line@),
            forall|j: int| 0 <= j < i ==> !spec_is_textual_char(#[trigger] t@[j]),
        decreases t.len() - i,
    {
        if is_textual_char(t[i]) {
            proof {
                assert(spec_is_textual_char(t@[i as int]));
            }
            return false;
        }
        i = i + 1;
    }
    true
}

/// Whether `line` is page decoration rather than text: after trimming it is
/// empty, or it has at most three characters and none of them is hiragana,
/// katakana, a CJK ideograph or a full-width Latin letter.
pub fn is_decoration_line(line: &str) -> (r: bool)
    ensures
        r == spec_is_decoration_line(line@),
{
    let v = str_to_chars(line);
    is_decoration_line_chars(&v)
}

// ---------------------------------------------------------------------------
// Headings and items
// ---------------------------------------------------------------------------

/// `第…条` article headings.
pub open spec fn is_article_heading(l: Seq<char>) -> bool {
    l.len() > 0 && l[0] == '第' && contains_char(l, '条')
}

fn is_article_heading_chars(l: &Vec<char>) -> (r: bool)
    ensures
        r == is_article_heading(l@),
{
    l.len() > 0 && l[0] == '第' && contains_char_chars(l, '条')
}

/// Lines starting `(n)`, `（n)` or `（n）` for a digit `n` in `1..=5`.
pub open spec fn looks_numbered_item(l: Seq<char>) -> bool {
    &&& l.len() >= 3
    &&& '1' <= l[1] && l[1] <= '5'
    &&& (l[0] == '(' && l[2] == ')') || (l[0] == '（' && (l[2] == ')' || l[2] == '）'))
}

fn looks_numbered_item_chars(l: &Vec<char>) -> (r: bool)
    ensures
        r == looks_numbered_item(l@),
{
    l.len() >= 3 && '1' <= l[1] && l[1] <= '5' && ((l[0] == '(' && l[2] == ')') || (l[0] == '（'
        && (l[2] == ')' || l[2] == '）')))
}

/// `（n)` / `（n）` becomes `(n)`.
pub open spec fn normalize_numbered_item_prefix(l: Seq<char>) -> Seq<char> {
    if l.len() >= 3 && l[0] == '（' && (l[2] == ')' || l[2] == '）') {
        seq!['(', l[1], ')'] + l.skip(3)
    } else {
        l
    }
}

fn normalize_numbered_item_prefix_chars(l: &Vec<char>) -> (res: Vec<char>)
    ensures
        res@ == normalize_numbered_item_prefix(l@),
{
    if l.len() >= 3 && l[0] == '（' && (l[2] == ')' || l[2] == '）') {
        let mut out: Vec<char> = Vec::new();
        out.push('(');
        out.push(l[1]);
        out.push(')');
        let rest = slice_chars(l, 3, l.len());
        extend_chars(&mut out, &rest);
        proof {
            assert(out@ =~= seq!['(', l@[1], ')'] + l@.skip(3));
        }
        out
    } else {
        l.clone()
    }
}

/// In an article heading, the first `条(` becomes `条（`; then, if no
/// full-width closing bracket is present, the first `)` becomes `）`.
pub open spec fn normalize_article_brackets(l: Seq<char>) -> Seq<char> {
    if contains(l, seq!['条', '(']) {
        let o = replace_first(l, seq!['条', '('], seq!['条', '（']);
        if !contains_char(o, '）') && contains_char(o, ')') {
            replace_first(o, seq![')'], seq!['）'])
        } else {
            o
        }
    } else {
        l
    }
}

fn normalize_article_brackets_chars(l: &Vec<char>) -> (res: Vec<char>)
    ensures
        res@ == normalize_article_brackets(l@),
{
    let pat: Vec<char> = chars2('条', '(');
    if contains_chars(l, &pat) {
        let rep: Vec<char> = chars2('条', '（');
        let o = replace_first_chars(l, &pat, &rep);
        if !contains_char_chars(&o, '）') && contains_char_chars(&o, ')') {
            let close: Vec<char> = chars1(')');
            let wide: Vec<char> = chars1('）');
            replace_first_chars(&o, &close, &wide)
        } else {
            o
        }
    } else {
        l.clone()
    }
}

/// `l` cut just after the character at index `p` of the first occurrence of
/// `pat`, if there is one and (when `need_more`) something follows it.
pub open spec fn cut_after_find(l: Seq<char>, pat: Seq<char>, need_more: bool) -> Option<
    Seq<char>,
> {
    match find(l, pat) {
        Some(p) => if !need_more || p + 1 < l.len() {
            Some(l.take(p + 1))
        } else {
            None
        },
        None => None,
    }
}

/// Drops what follows the closing bracket of an article heading: text after
/// `) 第` / `） 第`, else after the first `）`, else after the first `)`.
pub open spec fn trim_article_tail_noise(l: Seq<char>) -> Seq<char> {
    match cut_after_find(l, seq![')', ' ', '第'], false) {
        Some(r) => r,
        None => match cut_after_find(l, seq!['）', ' ', '第'], false) {
            Some(r) => r,
            None => match cut_after_find(l, seq!['）'], true) {
                Some(r) => r,
                None => match cut_after_find(l, seq![')'], true) {
                    Some(r) => r,
                    None => l,
                },
            },
        },
    }
}

fn cut_after_find_chars(l: &Vec<char>, pat: &Vec<char>, need_more: bool) -> (res: Option<
    Vec<char>,
>)
    requires
        pat.len() > 0,
    ensures
        res matches Some(r) ==> cut_after_find(l@, pat@, need_more) == Some(r@),
        res is None ==> cut_after_find(l@, pat@, need_more) is None,
{
    match find_chars(l, pat) {
        Some(p) => {
            proof {
                lemma_find_spec(l@, pat@);
                assert(occurs_at(l@, pat@, p as int));
                assert(p < l.len());
            }
            if !need_more || p + 1 < l.len() {
                Some(slice_chars(l, 0, p + 1))
            } else {
                None
            }
        },
        None => None,
    }
}

fn trim_article_tail_noise_chars(l: &Vec<char>) -> (res: Vec<char>)
    ensures
        res@ == trim_article_tail_noise(l@),
{
    let p1: Vec<char> = chars3(')', ' ', '第');
    if let Some(r) = cut_after_find_chars(l, &p1, false) {
        return r;
    }
    let p2: Vec<char> = chars3('）', ' ', '第');
    if let Some(r) = cut_after_find_chars(l, &p2, false) {
        return r;
    }
    let p3: Vec<char> = chars1('）');
    if let Some(r) = cut_after_find_chars(l, &p3, true) {
        return r;
    }
    let p4: Vec<char> = chars1(')');
    if let Some(r) = cut_after_find_chars(l, &p4, true) {
        return r;
    }
    l.clone()
}

// ---------------------------------------------------------------------------
// Short parenthetical labels
// ---------------------------------------------------------------------------

/// Stand-alone labels such as `(目的)` / `（目的）` (neither numbered items
/// nor article headings).
pub open spec fn looks_like_short_parenthetical_label_line(line: Seq<char>) -> bool {
    let t = trim(line);
    t.len() > 0 && (t[0] == '(' || t[0] == '（') && !looks_numbered_item(t) && !is_article_heading(
        t,
    )
}

fn looks_like_short_parenthetical_label_line_chars(line: &Vec<char>) -> (r: bool)
    ensures
        r == looks_like_short_parenthetical_label_line(line@),
{
    let t = trim_chars(line);
    t.len() > 0 && (t[0] == '(' || t[0] == '（') && !looks_numbered_item_chars(&t)
        && !is_article_heading_chars(&t)
}

pub open spec fn is_hiragana_tail_char(c: char) -> bool {
    ('\u{3040}' <= c && c <= '\u{309f}') || c == '\u{30fc}' || c == '\u{3000}' || c == ' '
}

/// OCR noise after a short label: at least eight characters, no ideograph
/// or katakana, starting `のよう` or `によう`, only hiragana, `ー` or spaces.
pub open spec fn should_trim_parenthetical_hiragana_tail(after: Seq<char>) -> bool {
    &&& after.len() >= 8
    &&& !exists|i: int| 0 <= i < after.len() && spec_is_cjk_ideograph(#[trigger] after[i])
    &&& !exists|i: int| 0 <= i < after.len() && spec_is_katakana(#[trigger] after[i])
    &&& (after[1] == 'よ' && after[2] == 'う' && (after[0] == 'の' || after[0] == 'に'))
    &&& forall|i: int| 0 <= i < after.len() ==> is_hiragana_tail_char(#[trigger] after[i])
}

fn should_trim_parenthetical_hiragana_tail_chars(after: &Vec<char>) -> (r: bool)
    ensures
        r == should_trim_parenthetical_hiragana_tail(after@),
{
    if after.len() < 8 {
        return false;
    }
    let mut i: usize = 0;
    while i < after.len()
        invariant
            i <= after.len(),
            forall|j: int|
                0 <= j < i ==> !spec_is_cjk_ideograph(#[trigger] after@[j]) && !spec_is_katakana(
                    after@[j],
                ) && is_hiragana_tail_char(after@[j]),
        decreases after.len() - i,
    {
        let c = after[i];
        if ('\u{4e00}' <= c && c <= '\u{9fff}') || ('\u{3400}' <= c && c <= '\u{4dbf}') {
            return false;
        }
        if '\u{30a0}' <= c && c <= '\u{30ff}' {
            return false;
        }
        if !(('\u{3040}' <= c && c <= '\u{309f}') || c == '\u{30fc}' || c == '\u{3000}' || c
            == ' ') {
            proof {
                if after@[1] == 'よ' && after@[2] == 'う' && (after@[0] == 'の' || after@[0]
                    == 'に') {
                    assert(!is_hiragana_tail_char(after@[i as int]));
                }
            }
            return false;
        }
        i = i + 1;
    }
    after[1] == 'よ' && after[2] == 'う' && (after[0] == 'の' || after[0] == 'に')
}

/// Cuts hiragana-only noise after a short parenthetical label, e.g.
/// `(目的)のようになっている` becomes `(目的)`.
pub open spec fn trim_short_parenthetical_line_noise(line: Seq<char>) -> Seq<char> {
    let t = trim(line);
    if t.len() > 0 && (t[0] == '(' || t[0] == '（') {
        let close = if t[0] == '(' {
            ')'
        } else {
            '）'
        };
        match find(t.skip(1), seq![close]) {
            Some(rel) => {
                let close_end = rel + 2;
                if rel > 8 || close_end >= t.len() {
                    line
                } else if should_trim_parenthetical_hiragana_tail(t.skip(close_end)) {
                    t.take(close_end)
                } else {
                    line
                }
            },
            None => line,
        }
    } else {
        line
    }
}

fn trim_short_parenthetical_line_noise_chars(line: &Vec<char>) -> (res: Vec<char>)
    ensures
        res@ == trim_short_parenthetical_line_noise(line@),
{
    let t = trim_chars(line);
    if !(t.len() > 0 && (t[0] == '(' || t[0] == '（')) {
        return line.clone();
    }
    let close = if t[0] == '(' {
        ')'
    } else {
        '）'
    };
    let inner = slice_chars(&t, 1, t.len());
    let pat: Vec<char> = chars1(close);
    proof {
        assert(inner@ =~= t@.skip(1));
    }
    match find_chars(&inner, &pat) {
        Some(rel) => {
            proof {
                lemma_find_spec(inner@, pat@);
            }
            let close_end = rel + 2;
            if rel > 8 || close_end >= t.len() {
                line.clone()
            } else {
                let after = slice_chars(&t, close_end, t.len());
                proof {
                    assert(after@ =~= t@.skip(close_end as int));
                }
                if should_trim_parenthetical_hiragana_tail_chars(&after) {
                    slice_chars(&t, 0, close_end)
                } else {
                    line.clone()
                }
            }
        },
        None => line.clone(),
    }
}

// ---------------------------------------------------------------------------
// Per-line cleaning
// ---------------------------------------------------------------------------

/// The cleaning applied to each line on its own: trim; for article headings,
/// normalise brackets and cut trailing noise; cut noise after a short
/// parenthetical label; normalise the prefix of numbered items.
pub open spec fn clean_line(input: Seq<char>) -> Seq<char> {
    let l0 = trim(input);
    if l0.len() == 0 {
        l0
    } else {
        let l1 = if is_article_heading(l0) {
            trim_article_tail_noise(normalize_article_brackets(l0))
        } else {
            l0
        };
        let l2 = if looks_like_short_parenthetical_label_line(l1) {
            trim_short_parenthetical_line_noise(l1)
        } else {
            l1
        };
        if looks_numbered_item(l2) {
            normalize_numbered_item_prefix(l2)
        } else {
            l2
        }
    }
}

fn clean_line_chars(input: &Vec<char>) -> (res: Vec<char>)
    ensures
        res@ == clean_line(input@),
{
    let mut line = trim_chars(input);
    if line.len() == 0 {
        return line;
    }
    if is_article_heading_chars(&line) {
        let n = normalize_article_brackets_chars(&line);
        line = trim_article_tail_noise_chars(&n);
    }
    if looks_like_short_parenthetical_label_line_chars(&line) {
        line = trim_short_parenthetical_line_noise_chars(&line);
    }
    if looks_numbered_item_chars(&line) {
        line = normalize_numbered_item_prefix_chars(&line);
    }
    line
}

/// Lines that open a new section: `第…`, `(`, `（` or `1.` after leading
/// white space.
pub open spec fn is_section_boundary_like(line: Seq<char>) -> bool {
    let t = trim_start(line);
    t.len() > 0 && (t[0] == '第' || t[0] == '(' || t[0] == '（' || (t.len() >= 2 && t[0] == '1'
        && t[1] == '.'))
}

fn is_section_boundary_like_chars(line: &Vec<char>) -> (r: bool)
    ensures
        r == is_section_boundary_like(line@),
{
    let t = trim_start_chars(line);
    t.len() > 0 && (t[0] == '第' || t[0] == '(' || t[0] == '（' || (t.len() >= 2 && t[0] == '1'
        && t[1] == '.'))
}

/// Drops a dangling `(1` and then a dangling `第` at the end of a line.
pub open spec fn trim_boundary_tail_noise(l: Seq<char>) -> Seq<char> {
    let a = if ends_with(l, seq!['(', '1']) {
        l.take(l.len() - 2)
    } else {
        l
    };
    if a.len() > 0 && a.last() == '第' {
        a.drop_last()
    } else {
        a
    }
}

fn trim_boundary_tail_noise_chars(l: &Vec<char>) -> (res: Vec<char>)
    ensures
        res@ == trim_boundary_tail_noise(l@),
{
    let pat: Vec<char> = chars2('(', '1');
    let mut a = if ends_with_chars(l, &pat) {
        slice_chars(l, 0, l.len() - 2)
    } else {
        l.clone()
    };
    if a.len() > 0 && a[a.len() - 1] == '第' {
        a.pop();
    }
    a
}

/// Cleaning that looks at the next line: before a section boundary, dangling
/// heading fragments are cut; the result is trimmed.
pub open spec fn clean_line_with_context(line: Seq<char>, next: Option<Seq<char>>) -> Seq<char> {
    let out = match next {
        Some(n) => if is_section_boundary_like(n) {
            trim_boundary_tail_noise(line)
        } else {
            line
        },
        None => line,
    };
    trim(out)
}

fn clean_line_with_context_chars(line: &Vec<char>, next: Option<&Vec<char>>) -> (res: Vec<char>)
    ensures
        res@ == clean_line_with_context(
            line@,
            match next {
                Some(n) => Some(n@),
                None => None,
            },
        ),
{
    let boundary = match next {
        Some(n) => is_section_boundary_like_chars(n),
        None => false,
    };
    if boundary {
        let o = trim_boundary_tail_noise_chars(line);
        trim_chars(&o)
    } else {
        trim_chars(line)
    }
}


// ---------------------------------------------------------------------------
// Line pairs
// ---------------------------------------------------------------------------

/// A line ending `<CJK><ASCII digit>` followed by a line starting with a CJK
/// character: the digit is a misread fragment of the split word.
pub open spec fn is_cjk_digit_split_pair(cur: Seq<char>, next: Seq<char>) -> bool {
    &&& cur.len() >= 2
    &&& next.len() >= 1
    &&& spec_is_ascii_digit(cur.last())
    &&& spec_is_cjk(cur[cur.len() - 2])
    &&& spec_is_cjk(next[0])
}

fn is_cjk_digit_split_pair_chars(cur: &Vec<char>, next: &Vec<char>) -> (r: bool)
    ensures
        r == is_cjk_digit_split_pair(cur@, next@),
{
    cur.len() >= 2 && next.len() >= 1 && is_ascii_digit(cur[cur.len() - 1]) && is_cjk(
        cur[cur.len() - 2],
    ) && is_cjk(next[0])
}

pub open spec fn should_merge_pair(cur: Seq<char>, next: Seq<char>) -> bool {
    let c = trim_end(cur);
    let n = trim_start(next);
    c.len() > 0 && n.len() > 0 && !is_section_boundary_like(n) && is_cjk_digit_split_pair(c, n)
}

fn should_merge_pair_chars(cur: &Vec<char>, next: &Vec<char>) -> (r: bool)
    ensures
        r == should_merge_pair(cur@, next@),
{
    let c = trim_end_chars(cur);
    let n = trim_start_chars(next);
    c.len() > 0 && n.len() > 0 && !is_section_boundary_like_chars(&n)
        && is_cjk_digit_split_pair_chars(&c, &n)
}

/// Joins two lines; for a CJK/digit split pair the misread digit is dropped.
pub open spec fn merge_pair(cur: Seq<char>, next: Seq<char>) -> Seq<char> {
    let c = trim_end(cur);
    let n = trim_start(next);
    if is_cjk_digit_split_pair(c, n) {
        c.drop_last() + n
    } else {
        c + n
    }
}

fn merge_pair_chars(cur: &Vec<char>, next: &Vec<char>) -> (res: Vec<char>)
    ensures
        res@ == merge_pair(cur@, next@),
{
    let mut c = trim_end_chars(cur);
    let n = trim_start_chars(next);
    if is_cjk_digit_split_pair_chars(&c, &n) {
        c.pop();
    }
    extend_chars(&mut c, &n);
    c
}

/// Merges each line with the following one when they form a split pair,
/// scanning from the top; a merged line is not merged again.
pub open spec fn merge_adjacent_lines(ls: Seq<Seq<char>>) -> Seq<Seq<char>>
    decreases ls.len(),
{
    if ls.len() >= 2 && should_merge_pair(ls[0], ls[1]) {
        seq![merge_pair(ls[0], ls[1])] + merge_adjacent_lines(ls.skip(2))
    } else if ls.len() >= 1 {
        seq![ls[0]] + merge_adjacent_lines(ls.skip(1))
    } else {
        seq![]
    }
}

#[verifier::rlimit(100)]
#[verifier::spinoff_prover]
fn merge_adjacent_lines_chars(ls: &Vec<Vec<char>>) -> (res: Vec<Vec<char>>)
    ensures
        res.deep_view() == merge_adjacent_lines(ls.deep_view()),
{
    let mut out: Vec<Vec<char>> = Vec::new();
    let mut i: usize = 0;
    proof {
        assert(ls.deep_view().skip(0) =~= ls.deep_view());
    }
    while i < ls.len()
        invariant
            i <= ls.len(),
            merge_adjacent_lines(ls.deep_view()) == out.deep_view() + merge_adjacent_lines(
                ls.deep_view().skip(i as int),
            ),
        decreases ls.len() - i,
    {
        let ghost rest = ls.deep_view().skip(i as int);
        let ghost out0 = out.deep_view();
        proof {
            lemma_chars_deep_view(ls@[i as int]);
        }
        if i + 1 < ls.len() && should_merge_pair_chars(&ls[i], &ls[i + 1]) {
            let m = merge_pair_chars(&ls[i], &ls[i + 1]);
            proof {
                lemma_chars_deep_view(ls@[i + 1]);
                lemma_chars_deep_view(m);
                assert(rest[0] == ls@[i as int]@);
                assert(rest[1] == ls@[i + 1]@);
                assert(rest.skip(2) =~= ls.deep_view().skip(i + 2));
            }
            out.push(m);
            proof {
                assert(out.deep_view() =~= out0.push(m@));
                assert(out0 + (seq![m@] + merge_adjacent_lines(rest.skip(2))) =~= out.deep_view()
                    + merge_adjacent_lines(ls.deep_view().skip(i + 2)));
            }
            i = i + 2;
        } else {
            proof {
                if i + 1 < ls.len() {
                    lemma_chars_deep_view(ls@[i + 1]);
                    assert(rest[1] == ls@[i + 1]@);
                }
                assert(rest[0] == ls@[i as int]@);
                assert(rest.skip(1) =~= ls.deep_view().skip(i + 1));
            }
            out.push(ls[i].clone());
            proof {
                assert(out.deep_view() =~= out0.push(ls@[i as int]@));
                assert(out0 + (seq![rest[0]] + merge_adjacent_lines(rest.skip(1))) =~= out.deep_view()
                    + merge_adjacent_lines(ls.deep_view().skip(i + 1)));
            }
            i = i + 1;
        }
    }
    proof {
        assert(ls.deep_view().skip(i as int) =~= Seq::<Seq<char>>::empty());
        assert(out.deep_view() + Seq::<Seq<char>>::empty() =~= out.deep_view());
    }
    out
}

/// A line ending `<ASCII letter>-` (after trailing white space) followed by
/// a line starting with an ASCII letter that is not a section boundary.
pub open spec fn is_latin_hyphenation_pair(cur: Seq<char>, next: Seq<char>) -> bool {
    let c = trim_end(cur);
    let n = trim_start(next);
    &&& c.len() >= 2
    &&& n.len() > 0
    &&& !is_section_boundary_like(n)
    &&& c.last() == '-'
    &&& spec_is_ascii_alphabetic(c[c.len() - 2])
    &&& spec_is_ascii_alphabetic(n[0])
}

fn is_latin_hyphenation_pair_chars(cur: &Vec<char>, next: &Vec<char>) -> (r: bool)
    ensures
        r == is_latin_hyphenation_pair(cur@, next@),
{
    let c = trim_end_chars(cur);
    let n = trim_start_chars(next);
    c.len() >= 2 && n.len() > 0 && !is_section_boundary_like_chars(&n) && c[c.len() - 1] == '-'
        && is_ascii_alphabetic(c[c.len() - 2]) && is_ascii_alphabetic(n[0])
}

/// The hyphenated word put back together: the first line without its
/// trailing hyphen, then the next line without leading white space.
pub open spec fn join_hyphenated(cur: Seq<char>, next: Seq<char>) -> Seq<char> {
    trim_end(cur).drop_last() + trim_start(next)
}

/// Joins end-of-line hyphenation, cascading: the joined line is compared
/// again with the line after it.
pub open spec fn join_latin_hyphenated_lines(ls: Seq<Seq<char>>) -> Seq<Seq<char>>
    decreases ls.len(),
{
    if ls.len() == 0 {
        seq![]
    } else {
        let prev = join_latin_hyphenated_lines(ls.drop_last());
        let line = ls.last();
        if prev.len() > 0 && is_latin_hyphenation_pair(prev.last(), line) {
            prev.drop_last().push(join_hyphenated(prev.last(), line))
        } else {
            prev.push(line)
        }
    }
}

fn join_latin_hyphenated_lines_chars(ls: &Vec<Vec<char>>) -> (res: Vec<Vec<char>>)
    ensures
        res.deep_view() == join_latin_hyphenated_lines(ls.deep_view()),
{
    let mut out: Vec<Vec<char>> = Vec::new();
    let mut i: usize = 0;
    proof {
        assert(ls.deep_view().take(0) =~= Seq::<Seq<char>>::empty());
    }
    while i < ls.len()
        invariant
            i <= ls.len(),
            out.deep_view() == join_latin_hyphenated_lines(ls.deep_view().take(i as int)),
        decreases ls.len() - i,
    {
        let ghost out0 = out.deep_view();
        proof {
            lemma_chars_deep_view(ls@[i as int]);
            assert(ls.deep_view().take(i + 1).drop_last() =~= ls.deep_view().take(i as int));
            assert(ls.deep_view().take(i + 1).last() == ls@[i as int]@);
        }
        let n = out.len();
        if n > 0 && is_latin_hyphenation_pair_chars(&out[n - 1], &ls[i]) {
            proof {
                lemma_chars_deep_view(out@[n - 1]);
                assert(out0.last() == out@[n - 1]@);
            }
            let last = out.pop().unwrap();
            let mut head = trim_end_chars(&last);
            head.pop();
            let tail = trim_start_chars(&ls[i]);
            extend_chars(&mut head, &tail);
            proof {
                lemma_chars_deep_view(head);
                assert(out.deep_view() =~= out0.drop_last());
            }
            out.push(head);
            proof {
                assert(out.deep_view() =~= out0.drop_last().push(head@));
            }
        } else {
            proof {
                if n > 0 {
                    lemma_chars_deep_view(out@[n - 1]);
                    assert(out0.last() == out@[n - 1]@);
                }
            }
            out.push(ls[i].clone());
            proof {
                assert(out.deep_view() =~= out0.push(ls@[i as int]@));
            }
        }
        i = i + 1;
    }
    proof {
        assert(ls.deep_view().take(ls.len() as int) =~= ls.deep_view());
    }
    out
}

/// Drops every line equal to the line kept just before it.
pub open spec fn collapse_duplicate_adjacent_lines(ls: Seq<Seq<char>>) -> Seq<Seq<char>>
    decreases ls.len(),
{
    if ls.len() == 0 {
        seq![]
    } else {
        let prev = collapse_duplicate_adjacent_lines(ls.drop_last());
        if prev.len() > 0 && prev.last() == ls.last() {
            prev
        } else {
            prev.push(ls.last())
        }
    }
}

pub fn collapse_duplicate_adjacent_chars(ls: &Vec<Vec<char>>) -> (res: Vec<Vec<char>>)
    ensures
        res.deep_view() == collapse_duplicate_adjacent_lines(ls.deep_view()),
{
    let mut out: Vec<Vec<char>> = Vec::new();
    let mut i: usize = 0;
    proof {
        assert(ls.deep_view().take(0) =~= Seq::<Seq<char>>::empty());
    }
    while i < ls.len()
        invariant
            i <= ls.len(),
            out.deep_view() == collapse_duplicate_adjacent_lines(ls.deep_view().take(i as int)),
        decreases ls.len() - i,
    {
        let ghost out0 = out.deep_view();
        proof {
            lemma_chars_deep_view(ls@[i as int]);
            assert(ls.deep_view().take(i + 1).drop_last() =~= ls.deep_view().take(i as int));
            assert(ls.deep_view().take(i + 1).last() == ls@[i as int]@);
        }
        let n = out.len();
        let same = n > 0 && vec_chars_eq(&out[n - 1], &ls[i]);
        proof {
            if n > 0 {
                lemma_chars_deep_view(out@[n - 1]);
                assert(out0.last() == out@[n - 1]@);
            }
        }
        if !same {
            out.push(ls[i].clone());
            proof {
                assert(out.deep_view() =~= out0.push(ls@[i as int]@));
            }
        }
        i = i + 1;
    }
    proof {
        assert(ls.deep_view().take(ls.len() as int) =~= ls.deep_view());
    }
    out
}


// ---------------------------------------------------------------------------
// The whole page
// ---------------------------------------------------------------------------

pub open spec fn is_kept_line(l: Seq<char>) -> bool {
    !spec_is_decoration_line(l)
}

/// The page without its decoration lines.
pub open spec fn drop_decoration_lines(ls: Seq<Seq<char>>) -> Seq<Seq<char>> {
    ls.filter(|l: Seq<char>| is_kept_line(l))
}

/// The line after the `i`-th one, if any.
pub open spec fn next_line(ls: Seq<Seq<char>>, i: int) -> Option<Seq<char>> {
    if i + 1 < ls.len() {
        Some(ls[i + 1])
    } else {
        None
    }
}

/// Every line cleaned against the line that follows it.
pub open spec fn clean_lines_with_context(ls: Seq<Seq<char>>) -> Seq<Seq<char>> {
    Seq::new(ls.len(), |i: int| clean_line_with_context(ls[i], next_line(ls, i)))
}

/// The structural rules applied to a page, in order: drop decoration lines,
/// clean each line, clean each line against the next, merge split CJK
/// pairs, join hyphenated Latin words, collapse adjacent duplicates.
pub open spec fn structural_rules(ls: Seq<Seq<char>>) -> Seq<Seq<char>> {
    collapse_duplicate_adjacent_lines(
        join_latin_hyphenated_lines(
            merge_adjacent_lines(
                clean_lines_with_context(
                    drop_decoration_lines(ls).map_values(|l: Seq<char>| clean_line(l)),
                ),
            ),
        ),
    )
}

fn drop_decoration_lines_chars(ls: &Vec<Vec<char>>) -> (res: Vec<Vec<char>>)
    ensures
        res.deep_view() == drop_decoration_lines(ls.deep_view()),
{
    let mut out: Vec<Vec<char>> = Vec::new();
    let mut i: usize = 0;
    proof {
        reveal_with_fuel(Seq::<_>::filter, 1);
        assert(ls.deep_view().take(0) =~= Seq::<Seq<char>>::empty());
    }
    while i < ls.len()
        invariant
            i <= ls.len(),
            out.deep_view() == drop_decoration_lines(ls.deep_view().take(i as int)),
        decreases ls.len() - i,
    {
        let ghost out0 = out.deep_view();
        proof {
            reveal_with_fuel(Seq::<_>::filter, 1);
            lemma_chars_deep_view(ls@[i as int]);
            assert(ls.deep_view().take(i + 1).drop_last() =~= ls.deep_view().take(i as int));
            assert(ls.deep_view().take(i + 1).last() == ls@[i as int]@);
        }
        if !is_decoration_line_chars(&ls[i]) {
            out.push(ls[i].clone());
            proof {
                assert(out.deep_view() =~= out0.push(ls@[i as int]@));
            }
        }
        i = i + 1;
    }
    proof {
        assert(ls.deep_view().take(ls.len() as int) =~= ls.deep_view());
    }
    out
}

fn clean_lines_chars(ls: &Vec<Vec<char>>) -> (res: Vec<Vec<char>>)
    ensures
        res.deep_view() == ls.deep_view().map_values(|l: Seq<char>| clean_line(l)),
{
    let mut out: Vec<Vec<char>> = Vec::new();
    let mut i: usize = 0;
    while i < ls.len()
        invariant
            i <= ls.len(),
            out.len() == i,
            forall|j: int| 0 <= j < i ==> (#[trigger] out@[j])@ == clean_line(ls@[j]@),
        decreases ls.len() - i,
    {
        let c = clean_line_chars(&ls[i]);
        out.push(c);
        i = i + 1;
    }
    proof {
        assert forall|j: int| 0 <= j < out.len() implies out.deep_view()[j] == ls.deep_view().map_values(
            |l: Seq<char>| clean_line(l),
        )[j] by {
            lemma_chars_deep_view(out@[j]);
            lemma_chars_deep_view(ls@[j]);
        }
        assert(out.deep_view() =~= ls.deep_view().map_values(|l: Seq<char>| clean_line(l)));
    }
    out
}

fn clean_lines_with_context_chars(ls: &Vec<Vec<char>>) -> (res: Vec<Vec<char>>)
    ensures
        res.deep_view() == clean_lines_with_context(ls.deep_view()),
{
    let mut out: Vec<Vec<char>> = Vec::new();
    let mut i: usize = 0;
    while i < ls.len()
        invariant
            i <= ls.len(),
            out.len() == i,
            forall|j: int|
                0 <= j < i ==> (#[trigger] out@[j])@ == clean_line_with_context(
                    ls.deep_view()[j],
                    next_line(ls.deep_view(), j),
                ),
        decreases ls.len() - i,
    {
        proof {
            lemma_chars_deep_view(ls@[i as int]);
        }
        let c = if i + 1 < ls.len() {
            proof {
                lemma_chars_deep_view(ls@[i + 1]);
            }
            clean_line_with_context_chars(&ls[i], Some(&ls[i + 1]))
        } else {
            clean_line_with_context_chars(&ls[i], None)
        };
        out.push(c);
        i = i + 1;
    }
    proof {
        assert forall|j: int| 0 <= j < out.len() implies out.deep_view()[j]
            == clean_lines_with_context(ls.deep_view())[j] by {
            lemma_chars_deep_view(out@[j]);
        }
        assert(out.deep_view() =~= clean_lines_with_context(ls.deep_view()));
    }
    out
}

/// Applies the page-structure rules to recognised lines: drops page
/// decoration, normalises article headings, short labels and numbered items,
/// cuts heading fragments left before a section boundary, merges lines split
/// inside a CJK word, joins end-of-line Latin hyphenation and collapses
/// adjacent duplicate lines.
pub fn apply_structural_rules(lines: &[String]) -> (res: Vec<String>)
    ensures
        res.deep_view() == structural_rules(lines.deep_view()),
{
    let ls = strings_to_chars(lines);
    let kept = drop_decoration_lines_chars(&ls);
    let cleaned = clean_lines_chars(&kept);
    let in_context = clean_lines_with_context_chars(&cleaned);
    let merged = merge_adjacent_lines_chars(&in_context);
    let joined = join_latin_hyphenated_lines_chars(&merged);
    let collapsed = collapse_duplicate_adjacent_chars(&joined);
    chars_to_strings(&collapsed)
}


// ---------------------------------------------------------------------------
// Laws
// ---------------------------------------------------------------------------

/// The trimmed start of `next` opens a section: `第`, `(`, full-width `（`
/// or `1.`.
pub open spec fn opens_section(next: Seq<char>) -> bool {
    let t = trim_start(next);
    ||| t.len() > 0 && t[0] == '第'
    ||| t.len() > 0 && t[0] == '('
    ||| t.len() > 0 && t[0] == '（'
    ||| t.len() >= 2 && t[0] == '1' && t[1] == '.'
}

/// A line that ends in a dangling `第` loses it before a line that opens a
/// section, and keeps it before any other line; either way the result is
/// trimmed.
pub proof fn lemma_dangling_dai_before_section(line: Seq<char>, next: Seq<char>)
    requires
        line.len() > 0,
        line.last() == '第',
    ensures
        opens_section(next) ==> clean_line_with_context(line, Some(next)) == trim(line.drop_last()),
        !opens_section(next) ==> clean_line_with_context(line, Some(next)) == trim(line),
{
    if ends_with(line, seq!['(', '1']) {
        assert(line.skip(line.len() - 2)[1] == line.last());
    }
}

/// On a page, each line that ends in a dangling `第` and is followed by a
/// line that opens a section is cleaned without that `第`.
pub proof fn lemma_page_cuts_dangling_dai(ls: Seq<Seq<char>>, i: int)
    requires
        0 <= i < ls.len() - 1,
        ls[i].len() > 0,
        ls[i].last() == '第',
        opens_section(ls[i + 1]),
    ensures
        clean_lines_with_context(ls)[i] == trim(ls[i].drop_last()),
{
    lemma_dangling_dai_before_section(ls[i], ls[i + 1]);
    assert(next_line(ls, i) == Some(ls[i + 1]));
}

/// After collapsing, no line equals the line right after it.
pub proof fn lemma_collapse_no_adjacent_duplicates(ls: Seq<Seq<char>>)
    ensures
        forall|i: int|
            0 <= i < collapse_duplicate_adjacent_lines(ls).len() - 1
                ==> #[trigger] collapse_duplicate_adjacent_lines(ls)[i]
                != collapse_duplicate_adjacent_lines(ls)[i + 1],
        collapse_duplicate_adjacent_lines(ls).len() <= ls.len(),
        ls.len() > 0 ==> collapse_duplicate_adjacent_lines(ls).len() > 0
            && collapse_duplicate_adjacent_lines(ls).last() == ls.last(),
    decreases ls.len(),
{
    if ls.len() > 0 {
        lemma_collapse_no_adjacent_duplicates(ls.drop_last());
    }
}

/// Collapsing adjacent duplicates a second time changes nothing.
pub proof fn lemma_collapse_idempotent(ls: Seq<Seq<char>>)
    ensures
        collapse_duplicate_adjacent_lines(collapse_duplicate_adjacent_lines(ls))
            == collapse_duplicate_adjacent_lines(ls),
{
    lemma_collapse_no_adjacent_duplicates(ls);
    lemma_collapse_fixed_point(collapse_duplicate_adjacent_lines(ls));
}

proof fn lemma_collapse_fixed_point(ls: Seq<Seq<char>>)
    requires
        forall|i: int| 0 <= i < ls.len() - 1 ==> #[trigger] ls[i] != ls[i + 1],
    ensures
        collapse_duplicate_adjacent_lines(ls) == ls,
    decreases ls.len(),
{
    if ls.len() > 0 {
        let p = ls.drop_last();
        assert forall|i: int| 0 <= i < p.len() - 1 implies #[trigger] p[i] != p[i + 1] by {
            assert(ls[i] != ls[i + 1]);
        }
        lemma_collapse_fixed_point(p);
        if p.len() > 0 {
            assert(ls[ls.len() - 2] != ls[ls.len() - 1]);
        }
        assert(p.push(ls.last()) =~= ls);
    }
}

proof fn lemma_merge_len(ls: Seq<Seq<char>>)
    ensures
        merge_adjacent_lines(ls).len() <= ls.len(),
    decreases ls.len(),
{
    if ls.len() >= 2 && should_merge_pair(ls[0], ls[1]) {
        lemma_merge_len(ls.skip(2));
    } else if ls.len() >= 1 {
        lemma_merge_len(ls.skip(1));
    }
}

proof fn lemma_join_len(ls: Seq<Seq<char>>)
    ensures
        join_latin_hyphenated_lines(ls).len() <= ls.len(),
    decreases ls.len(),
{
    if ls.len() > 0 {
        lemma_join_len(ls.drop_last());
    }
}

/// The structural rules never add lines, and the page they return has no
/// two equal adjacent lines.
pub proof fn lemma_structural_rules_shape(ls: Seq<Seq<char>>)
    ensures
        structural_rules(ls).len() <= ls.len(),
        forall|i: int|
            0 <= i < structural_rules(ls).len() - 1 ==> #[trigger] structural_rules(ls)[i]
                != structural_rules(ls)[i + 1],
{
    let kept = drop_decoration_lines(ls);
    ls.lemma_filter_len(|l: Seq<char>| is_kept_line(l));
    let cleaned = kept.map_values(|l: Seq<char>| clean_line(l));
    let ctx = clean_lines_with_context(cleaned);
    let merged = merge_adjacent_lines(ctx);
    lemma_merge_len(ctx);
    let joined = join_latin_hyphenated_lines(merged);
    lemma_join_len(merged);
    lemma_collapse_no_adjacent_duplicates(joined);
}

/// `l` neither starts nor ends with white space.
pub open spec fn is_trimmed(l: Seq<char>) -> bool {
    l.len() == 0 || (!spec_is_whitespace(l[0]) && !spec_is_whitespace(l.last()))
}

/// Every line of `ls` is trimmed.
pub open spec fn all_trimmed(ls: Seq<Seq<char>>) -> bool {
    forall|i: int| 0 <= i < ls.len() ==> is_trimmed(#[trigger] ls[i])
}

/// A trimmed line is left as it is by trimming, at either end.
pub proof fn lemma_trimmed_is_fixed(l: Seq<char>)
    requires
        is_trimmed(l),
    ensures
        trim_start(l) == l,
        trim_end(l) == l,
        trim(l) == l,
{
}

proof fn lemma_trim_start_head(s: Seq<char>)
    ensures
        trim_start(s).len() > 0 ==> !spec_is_whitespace(trim_start(s)[0]),
    decreases s.len(),
{
    if s.len() > 0 && spec_is_whitespace(s[0]) {
        lemma_trim_start_head(s.drop_first());
    }
}

proof fn lemma_trim_end_prefix(s: Seq<char>)
    ensures
        trim_end(s).len() <= s.len(),
        trim_end(s) == s.take(trim_end(s).len() as int),
        trim_end(s).len() > 0 ==> !spec_is_whitespace(trim_end(s).last()),
    decreases s.len(),
{
    if s.len() > 0 && spec_is_whitespace(s.last()) {
        lemma_trim_end_prefix(s.drop_last());
        assert(s.drop_last().take(trim_end(s).len() as int) =~= s.take(trim_end(s).len() as int));
    } else {
        assert(s.take(s.len() as int) =~= s);
    }
}

/// Trimming gives a trimmed line.
pub proof fn lemma_trim_is_trimmed(s: Seq<char>)
    ensures
        is_trimmed(trim(s)),
{
    let t = trim_start(s);
    lemma_trim_start_head(s);
    lemma_trim_end_prefix(t);
    if trim_end(t).len() > 0 {
        assert(trim_end(t)[0] == t.take(trim_end(t).len() as int)[0]);
    }
}

proof fn lemma_merge_keeps_trimmed(ls: Seq<Seq<char>>)
    requires
        all_trimmed(ls),
    ensures
        all_trimmed(merge_adjacent_lines(ls)),
    decreases ls.len(),
{
    if ls.len() >= 2 && should_merge_pair(ls[0], ls[1]) {
        let rest = ls.skip(2);
        assert forall|i: int| 0 <= i < rest.len() implies is_trimmed(#[trigger] rest[i]) by {
            assert(rest[i] == ls[i + 2]);
        }
        lemma_merge_keeps_trimmed(rest);
        let c = ls[0];
        let n = ls[1];
        assert(is_trimmed(c) && is_trimmed(n));
        lemma_trimmed_is_fixed(c);
        lemma_trimmed_is_fixed(n);
        let m = merge_pair(c, n);
        assert(is_trimmed(m)) by {
            if is_cjk_digit_split_pair(c, n) {
                assert(m == c.drop_last() + n);
                assert(m[0] == c[0]);
            } else {
                assert(m == c + n);
                assert(m[0] == c[0]);
            }
            assert(m.last() == n.last());
        }
        let out = seq![m] + merge_adjacent_lines(rest);
        assert forall|i: int| 0 <= i < out.len() implies is_trimmed(#[trigger] out[i]) by {
            if i > 0 {
                assert(out[i] == merge_adjacent_lines(rest)[i - 1]);
            }
        }
    } else if ls.len() >= 1 {
        let rest = ls.skip(1);
        assert forall|i: int| 0 <= i < rest.len() implies is_trimmed(#[trigger] rest[i]) by {
            assert(rest[i] == ls[i + 1]);
        }
        lemma_merge_keeps_trimmed(rest);
        assert(is_trimmed(ls[0]));
        let out = seq![ls[0]] + merge_adjacent_lines(rest);
        assert forall|i: int| 0 <= i < out.len() implies is_trimmed(#[trigger] out[i]) by {
            if i > 0 {
                assert(out[i] == merge_adjacent_lines(rest)[i - 1]);
            }
        }
    }
}

proof fn lemma_join_keeps_trimmed(ls: Seq<Seq<char>>)
    requires
        all_trimmed(ls),
    ensures
        all_trimmed(join_latin_hyphenated_lines(ls)),
    decreases ls.len(),
{
    if ls.len() > 0 {
        let front = ls.drop_last();
        assert forall|i: int| 0 <= i < front.len() implies is_trimmed(#[trigger] front[i]) by {
            assert(front[i] == ls[i]);
        }
        lemma_join_keeps_trimmed(front);
        let prev = join_latin_hyphenated_lines(front);
        let line = ls.last();
        assert(is_trimmed(line)) by {
            assert(ls[ls.len() - 1] == line);
        }
        if prev.len() > 0 && is_latin_hyphenation_pair(prev.last(), line) {
            let c = prev.last();
            assert(is_trimmed(c)) by {
                assert(prev[prev.len() - 1] == c);
            }
            lemma_trimmed_is_fixed(c);
            lemma_trimmed_is_fixed(line);
            let j = join_hyphenated(c, line);
            assert(j == c.drop_last() + line);
            assert(j[0] == c[0]);
            assert(j.last() == line.last());
            let out = prev.drop_last().push(j);
            assert forall|i: int| 0 <= i < out.len() implies is_trimmed(#[trigger] out[i]) by {
                if i < out.len() - 1 {
                    assert(out[i] == prev[i]);
                }
            }
        } else {
            let out = prev.push(line);
            assert forall|i: int| 0 <= i < out.len() implies is_trimmed(#[trigger] out[i]) by {
                if i < out.len() - 1 {
                    assert(out[i] == prev[i]);
                }
            }
        }
    }
}

proof fn lemma_collapse_keeps_trimmed(ls: Seq<Seq<char>>)
    requires
        all_trimmed(ls),
    ensures
        all_trimmed(collapse_duplicate_adjacent_lines(ls)),
    decreases ls.len(),
{
    if ls.len() > 0 {
        let front = ls.drop_last();
        assert forall|i: int| 0 <= i < front.len() implies is_trimmed(#[trigger] front[i]) by {
            assert(front[i] == ls[i]);
        }
        lemma_collapse_keeps_trimmed(front);
        let prev = collapse_duplicate_adjacent_lines(front);
        assert(is_trimmed(ls.last())) by {
            assert(ls[ls.len() - 1] == ls.last());
        }
        let out = prev.push(ls.last());
        assert forall|i: int| 0 <= i < out.len() implies is_trimmed(#[trigger] out[i]) by {
            if i < out.len() - 1 {
                assert(out[i] == prev[i]);
            }
        }
    }
}

/// Every line that the structural rules return is trimmed: trimming it
/// again changes nothing.
pub proof fn lemma_structural_rules_trimmed(ls: Seq<Seq<char>>)
    ensures
        forall|i: int|
            0 <= i < structural_rules(ls).len() ==> trim(#[trigger] structural_rules(ls)[i])
                == structural_rules(ls)[i],
{
    let kept = drop_decoration_lines(ls);
    let cleaned = kept.map_values(|l: Seq<char>| clean_line(l));
    let ctx = clean_lines_with_context(cleaned);
    assert forall|i: int| 0 <= i < ctx.len() implies is_trimmed(#[trigger] ctx[i]) by {
        let o = match next_line(cleaned, i) {
            Some(n) => if is_section_boundary_like(n) {
                trim_boundary_tail_noise(cleaned[i])
            } else {
                cleaned[i]
            },
            None => cleaned[i],
        };
        assert(ctx[i] == trim(o));
        lemma_trim_is_trimmed(o);
    }
    lemma_merge_keeps_trimmed(ctx);
    let merged = merge_adjacent_lines(ctx);
    lemma_join_keeps_trimmed(merged);
    let joined = join_latin_hyphenated_lines(merged);
    lemma_collapse_keeps_trimmed(joined);
    let out = structural_rules(ls);
    assert forall|i: int| 0 <= i < out.len() implies trim(#[trigger] out[i]) == out[i] by {
        assert(is_trimmed(out[i]));
        lemma_trimmed_is_fixed(out[i]);
    }
}

/// A line with more than three characters after trimming is never page
/// decoration, and neither is a line holding Japanese text.
pub proof fn lemma_decoration_needs_short_non_text(line: Seq<char>)
    ensures
        trim(line).len() > 3 ==> !spec_is_decoration_line(line),
        (exists|i: int| 0 <= i < trim(line).len() && spec_is_textual_char(#[trigger] trim(line)[i]))
            ==> !spec_is_decoration_line(line),
{
}

} // verus!

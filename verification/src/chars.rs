//! Character-level text helpers shared by the post-processing rules.
//!
//! Text is modelled as a sequence of Unicode scalar values (`Seq<char>`), the
//! view of both `str` and `String`. Executable helpers work on `Vec<char>`.
use vstd::prelude::*;

verus! {

broadcast use vstd::seq_lib::group_seq_properties;

// ---------------------------------------------------------------------------
// Classification
// ---------------------------------------------------------------------------

/// Unicode `White_Space`: the characters that `char::is_whitespace` accepts
/// and that `str::trim` removes.
pub open spec fn spec_is_whitespace(c: char) -> bool {
    ||| ('\u{9}' <= c && c <= '\u{d}')
    ||| c == ' '
    ||| c == '\u{85}'
    ||| c == '\u{a0}'
    ||| c == '\u{1680}'
    ||| ('\u{2000}' <= c && c <= '\u{200a}')
    ||| c == '\u{2028}'
    ||| c == '\u{2029}'
    ||| c == '\u{202f}'
    ||| c == '\u{205f}'
    ||| c == '\u{3000}'
}

pub fn is_whitespace(c: char) -> (r: bool)
    ensures
        r == spec_is_whitespace(c),
{
    ('\u{9}' <= c && c <= '\u{d}') || c == ' ' || c == '\u{85}' || c == '\u{a0}' || c
        == '\u{1680}' || ('\u{2000}' <= c && c <= '\u{200a}') || c == '\u{2028}' || c
        == '\u{2029}' || c == '\u{202f}' || c == '\u{205f}' || c == '\u{3000}'
}

pub open spec fn spec_is_ascii_digit(c: char) -> bool {
    '0' <= c && c <= '9'
}

pub fn is_ascii_digit(c: char) -> (r: bool)
    ensures
        r == spec_is_ascii_digit(c),
{
    '0' <= c && c <= '9'
}

pub open spec fn spec_is_ascii_alphabetic(c: char) -> bool {
    ('a' <= c && c <= 'z') || ('A' <= c && c <= 'Z')
}

pub fn is_ascii_alphabetic(c: char) -> (r: bool)
    ensures
        r == spec_is_ascii_alphabetic(c),
{
    ('a' <= c && c <= 'z') || ('A' <= c && c <= 'Z')
}

// ---------------------------------------------------------------------------
// Trimming
// ---------------------------------------------------------------------------

/// `s` without its leading white space.
pub open spec fn trim_start(s: Seq<char>) -> Seq<char>
    decreases s.len(),
{
    if s.len() > 0 && spec_is_whitespace(s[0]) {
        trim_start(s.drop_first())
    } else {
        s
    }
}

/// `s` without its trailing white space.
pub open spec fn trim_end(s: Seq<char>) -> Seq<char>
    decreases s.len(),
{
    if s.len() > 0 && spec_is_whitespace(s.last()) {
        trim_end(s.drop_last())
    } else {
        s
    }
}

/// `s` without leading and trailing white space (`str::trim`).
pub open spec fn trim(s: Seq<char>) -> Seq<char> {
    trim_end(trim_start(s))
}

pub proof fn lemma_trim_start_skip(s: Seq<char>, k: int)
    requires
        0 <= k <= s.len(),
        forall|j: int| 0 <= j < k ==> spec_is_whitespace(#[trigger] s[j]),
        k == s.len() || !spec_is_whitespace(s[k]),
    ensures
        trim_start(s) == s.skip(k),
    decreases k,
{
    if k > 0 {
        assert(s[0] == s[0]);
        lemma_trim_start_skip(s.drop_first(), k - 1);
        assert(s.drop_first().skip(k - 1) =~= s.skip(k));
    } else {
        assert(s.skip(0) =~= s);
    }
}

pub proof fn lemma_trim_end_take(s: Seq<char>, k: int)
    requires
        0 <= k <= s.len(),
        forall|j: int| k <= j < s.len() ==> spec_is_whitespace(#[trigger] s[j]),
        k == 0 || !spec_is_whitespace(s[k - 1]),
    ensures
        trim_end(s) == s.take(k),
    decreases s.len() - k,
{
    if k < s.len() {
        assert(spec_is_whitespace(s[s.len() - 1]));
        lemma_trim_end_take(s.drop_last(), k);
        assert(s.drop_last().take(k) =~= s.take(k));
    } else {
        assert(s.take(k) =~= s);
    }
}

/// Number of leading white-space characters of `s[from..]`, as an index.
fn skip_whitespace_from(s: &Vec<char>, from: usize) -> (k: usize)
    requires
        from <= s.len(),
    ensures
        from <= k <= s.len(),
        forall|j: int| from <= j < k ==> spec_is_whitespace(#[trigger] s@[j]),
        k == s.len() || !spec_is_whitespace(s@[k as int]),
{
    let mut k = from;
    while k < s.len() && is_whitespace(s[k])
        invariant
            from <= k <= s.len(),
            forall|j: int| from <= j < k ==> spec_is_whitespace(#[trigger] s@[j]),
        decreases s.len() - k,
    {
        k = k + 1;
    }
    k
}

/// A copy of `s[from..to]`.
pub fn slice_chars(s: &Vec<char>, from: usize, to: usize) -> (res: Vec<char>)
    requires
        from <= to <= s.len(),
    ensures
        res@ == s@.subrange(from as int, to as int),
{
    let mut out: Vec<char> = Vec::new();
    let mut i = from;
    while i < to
        invariant
            from <= i <= to <= s.len(),
            out@ == s@.subrange(from as int, i as int),
        decreases to - i,
    {
        out.push(s[i]);
        i = i + 1;
    }
    out
}

pub fn trim_start_chars(s: &Vec<char>) -> (res: Vec<char>)
    ensures
        res@ == trim_start(s@),
{
    let k = skip_whitespace_from(s, 0);
    proof {
        lemma_trim_start_skip(s@, k as int);
    }
    slice_chars(s, k, s.len())
}

/// Index just past the last non-white-space character of `s[..to]`.
fn trim_end_index(s: &Vec<char>, to: usize) -> (k: usize)
    requires
        to <= s.len(),
    ensures
        k <= to,
        forall|j: int| k <= j < to ==> spec_is_whitespace(#[trigger] s@[j]),
        k == 0 || !spec_is_whitespace(s@[k - 1]),
{
    let mut k = to;
    while k > 0 && is_whitespace(s[k - 1])
        invariant
            k <= to <= s.len(),
            forall|j: int| k <= j < to ==> spec_is_whitespace(#[trigger] s@[j]),
        decreases k,
    {
        k = k - 1;
    }
    k
}

pub fn trim_end_chars(s: &Vec<char>) -> (res: Vec<char>)
    ensures
        res@ == trim_end(s@),
{
    let k = trim_end_index(s, s.len());
    proof {
        lemma_trim_end_take(s@, k as int);
    }
    slice_chars(s, 0, k)
}

pub fn trim_chars(s: &Vec<char>) -> (res: Vec<char>)
    ensures
        res@ == trim(s@),
{
    let a = trim_start_chars(s);
    trim_end_chars(&a)
}

// ---------------------------------------------------------------------------
// Prefixes, suffixes and occurrences
// ---------------------------------------------------------------------------

pub open spec fn starts_with(s: Seq<char>, p: Seq<char>) -> bool {
    p.len() <= s.len() && s.take(p.len() as int) == p
}

pub open spec fn ends_with(s: Seq<char>, p: Seq<char>) -> bool {
    p.len() <= s.len() && s.skip(s.len() - p.len()) == p
}

/// `p` occurs in `s` at index `i`.
pub open spec fn occurs_at(s: Seq<char>, p: Seq<char>, i: int) -> bool {
    0 <= i && i + p.len() <= s.len() && s.subrange(i, i + p.len()) == p
}

pub open spec fn contains(s: Seq<char>, p: Seq<char>) -> bool {
    exists|i: int| occurs_at(s, p, i)
}

pub open spec fn contains_char(s: Seq<char>, c: char) -> bool {
    exists|i: int| 0 <= i < s.len() && s[i] == c
}

/// The first index at or after `from` where `p` occurs in `s` (`str::find`).
pub open spec fn find_from(s: Seq<char>, p: Seq<char>, from: int) -> Option<int>
    decreases s.len() + 1 - from,
{
    if from < 0 || from + p.len() > s.len() {
        None
    } else if occurs_at(s, p, from) {
        Some(from)
    } else {
        find_from(s, p, from + 1)
    }
}

pub open spec fn find(s: Seq<char>, p: Seq<char>) -> Option<int> {
    find_from(s, p, 0)
}

pub proof fn lemma_find_from_spec(s: Seq<char>, p: Seq<char>, from: int)
    requires
        0 <= from,
    ensures
        find_from(s, p, from) matches Some(i) ==> from <= i && occurs_at(s, p, i) && forall|
            j: int,
        | from <= j < i ==> !occurs_at(s, p, j),
        find_from(s, p, from) is None ==> forall|j: int| from <= j ==> !occurs_at(s, p, j),
    decreases s.len() + 1 - from,
{
    if from + p.len() > s.len() {
    } else if occurs_at(s, p, from) {
    } else {
        lemma_find_from_spec(s, p, from + 1);
    }
}

pub proof fn lemma_find_spec(s: Seq<char>, p: Seq<char>)
    ensures
        find(s, p) matches Some(i) ==> occurs_at(s, p, i) && forall|j: int|
            0 <= j < i ==> !occurs_at(s, p, j),
        find(s, p) is None <==> !contains(s, p),
{
    lemma_find_from_spec(s, p, 0);
    if find(s, p) is None {
        assert forall|j: int| !occurs_at(s, p, j) by {
            if j < 0 {
            }
        }
    }
}

pub fn starts_with_chars(s: &Vec<char>, p: &Vec<char>) -> (r: bool)
    ensures
        r == starts_with(s@, p@),
{
    occurs_at_chars(s, p, 0)
}

pub fn ends_with_chars(s: &Vec<char>, p: &Vec<char>) -> (r: bool)
    ensures
        r == ends_with(s@, p@),
{
    if p.len() > s.len() {
        return false;
    }
    let r = occurs_at_chars(s, p, s.len() - p.len());
    proof {
        assert(s@.subrange(s.len() - p.len(), s.len() - p.len() + p.len()) =~= s@.skip(
            s.len() - p.len(),
        ));
    }
    r
}

pub fn occurs_at_chars(s: &Vec<char>, p: &Vec<char>, i: usize) -> (r: bool)
    ensures
        r == occurs_at(s@, p@, i as int),
{
    if i > s.len() || p.len() > s.len() - i {
        return false;
    }
    let mut k: usize = 0;
    while k < p.len()
        invariant
            k <= p.len(),
            i + p.len() <= s.len(),
            forall|j: int| 0 <= j < k ==> s@[i + j] == p@[j],
        decreases p.len() - k,
    {
        if s[i + k] != p[k] {
            proof {
                assert(s@.subrange(i as int, i + p.len())[k as int] != p@[k as int]);
            }
            return false;
        }
        k = k + 1;
    }
    proof {
        assert(s@.subrange(i as int, i + p.len()) =~= p@);
    }
    true
}

pub fn find_from_chars(s: &Vec<char>, p: &Vec<char>, from: usize) -> (r: Option<usize>)
    ensures
        r matches Some(i) ==> find_from(s@, p@, from as int) == Some(i as int),
        r is None ==> find_from(s@, p@, from as int) is None,
{
    let mut i = from;
    while i <= s.len() && p.len() <= s.len() - i
        invariant
            from <= i,
            find_from(s@, p@, from as int) == find_from(s@, p@, i as int),
        decreases s.len() + 1 - i,
    {
        if occurs_at_chars(s, p, i) {
            return Some(i);
        }
        if i == s.len() {
            proof {
                assert(find_from(s@, p@, i + 1) is None);
            }
            return None;
        }
        i = i + 1;
    }
    None
}

pub fn find_chars(s: &Vec<char>, p: &Vec<char>) -> (r: Option<usize>)
    ensures
        r matches Some(i) ==> find(s@, p@) == Some(i as int),
        r is None ==> find(s@, p@) is None,
{
    find_from_chars(s, p, 0)
}

pub fn contains_chars(s: &Vec<char>, p: &Vec<char>) -> (r: bool)
    ensures
        r == contains(s@, p@),
{
    proof {
        lemma_find_spec(s@, p@);
    }
    find_chars(s, p).is_some()
}

/// The first index of `c` in `s`.
pub fn find_char(s: &Vec<char>, c: char) -> (r: Option<usize>)
    ensures
        r matches Some(i) ==> i < s.len() && s@[i as int] == c && forall|j: int|
            0 <= j < i ==> s@[j] != c,
        r is None ==> !contains_char(s@, c),
{
    let mut i: usize = 0;
    while i < s.len()
        invariant
            i <= s.len(),
            forall|j: int| 0 <= j < i ==> s@[j] != c,
        decreases s.len() - i,
    {
        if s[i] == c {
            return Some(i);
        }
        i = i + 1;
    }
    None
}

pub fn contains_char_chars(s: &Vec<char>, c: char) -> (r: bool)
    ensures
        r == contains_char(s@, c),
{
    find_char(s, c).is_some()
}

// ---------------------------------------------------------------------------
// Building
// ---------------------------------------------------------------------------

/// Appends all of `b` to `a`.
pub fn extend_chars(a: &mut Vec<char>, b: &Vec<char>)
    ensures
        final(a)@ == old(a)@ + b@,
{
    let ghost a0 = a@;
    let mut i: usize = 0;
    while i < b.len()
        invariant
            i <= b.len(),
            a@ == a0 + b@.subrange(0, i as int),
        decreases b.len() - i,
    {
        a.push(b[i]);
        i = i + 1;
        proof {
            assert(a@ =~= a0 + b@.subrange(0, i as int));
        }
    }
    proof {
        assert(b@.subrange(0, b.len() as int) =~= b@);
    }
}

pub fn concat_chars(a: &Vec<char>, b: &Vec<char>) -> (res: Vec<char>)
    ensures
        res@ == a@ + b@,
{
    let mut out = a.clone();
    proof {
        assert(out@ =~= a@);
    }
    extend_chars(&mut out, b);
    out
}

/// `p` repeated `n` times (`str::repeat`).
pub open spec fn repeat(p: Seq<char>, n: nat) -> Seq<char>
    decreases n,
{
    if n == 0 {
        seq![]
    } else {
        repeat(p, (n - 1) as nat) + p
    }
}

pub proof fn lemma_repeat_len(p: Seq<char>, n: nat)
    ensures
        repeat(p, n).len() == n * p.len(),
    decreases n,
{
    if n == 0 {
        assert(0 * p.len() == 0) by (nonlinear_arith);
    } else {
        let m = (n - 1) as nat;
        lemma_repeat_len(p, m);
        let l = p.len();
        assert(repeat(p, n) == repeat(p, m) + p);
        assert(n * l == m * l + l) by (nonlinear_arith)
            requires
                n == m + 1,
        ;
    }
}

pub fn repeat_chars(p: &Vec<char>, n: usize) -> (res: Vec<char>)
    requires
        n * p.len() <= usize::MAX,
    ensures
        res@ == repeat(p@, n as nat),
{
    let mut out: Vec<char> = Vec::new();
    let mut k: usize = 0;
    while k < n
        invariant
            k <= n,
            out@ == repeat(p@, k as nat),
        decreases n - k,
    {
        extend_chars(&mut out, p);
        k = k + 1;
    }
    out
}

/// Whether two texts are equal.
pub fn vec_chars_eq(a: &Vec<char>, b: &Vec<char>) -> (r: bool)
    ensures
        r == (a@ == b@),
{
    if a.len() != b.len() {
        return false;
    }
    let mut i: usize = 0;
    while i < a.len()
        invariant
            i <= a.len(),
            a.len() == b.len(),
            forall|j: int| 0 <= j < i ==> a@[j] == b@[j],
        decreases a.len() - i,
    {
        if a[i] != b[i] {
            return false;
        }
        i = i + 1;
    }
    proof {
        assert(a@ =~= b@);
    }
    true
}

/// The one-character text `a`.
pub fn chars1(a: char) -> (v: Vec<char>)
    ensures
        v@ == seq![a],
{
    let mut v: Vec<char> = Vec::new();
    v.push(a);
    v
}

/// The two-character text `ab`.
pub fn chars2(a: char, b: char) -> (v: Vec<char>)
    ensures
        v@ == seq![a, b],
{
    let mut v: Vec<char> = Vec::new();
    v.push(a);
    v.push(b);
    v
}

/// The three-character text `abc`.
pub fn chars3(a: char, b: char, c: char) -> (v: Vec<char>)
    ensures
        v@ == seq![a, b, c],
{
    let mut v: Vec<char> = Vec::new();
    v.push(a);
    v.push(b);
    v.push(c);
    v
}

// ---------------------------------------------------------------------------
// Replacement
// ---------------------------------------------------------------------------

/// `s` with every non-overlapping occurrence of `from`, scanned left to
/// right, replaced by `to` (`str::replace`). An empty `from` matches before
/// every character and at the end.
pub open spec fn replace_all(s: Seq<char>, from: Seq<char>, to: Seq<char>) -> Seq<char>
    decreases s.len(),
{
    if from.len() == 0 {
        if s.len() == 0 {
            to
        } else {
            to + seq![s[0]] + replace_all(s.drop_first(), from, to)
        }
    } else if starts_with(s, from) {
        to + replace_all(s.skip(from.len() as int), from, to)
    } else if s.len() == 0 {
        seq![]
    } else {
        seq![s[0]] + replace_all(s.drop_first(), from, to)
    }
}

/// A non-empty pattern that does not occur is not replaced.
pub proof fn lemma_replace_all_absent(s: Seq<char>, from: Seq<char>, to: Seq<char>)
    requires
        from.len() > 0,
        !contains(s, from),
    ensures
        replace_all(s, from, to) == s,
    decreases s.len(),
{
    if s.len() > 0 {
        if starts_with(s, from) {
            assert(s.subrange(0, from.len() as int) =~= s.take(from.len() as int));
            assert(occurs_at(s, from, 0));
        }
        assert forall|j: int| !occurs_at(s.drop_first(), from, j) by {
            if occurs_at(s.drop_first(), from, j) {
                assert(s.drop_first().subrange(j, j + from.len()) =~= s.subrange(
                    j + 1,
                    j + 1 + from.len(),
                ));
                assert(occurs_at(s, from, j + 1));
            }
        }
        lemma_replace_all_absent(s.drop_first(), from, to);
        assert(seq![s[0]] + s.drop_first() =~= s);
    } else {
        assert(!starts_with(s, from));
    }
}

/// `s` with the first occurrence of `from` replaced by `to`
/// (`str::replacen(from, to, 1)`).
pub open spec fn replace_first(s: Seq<char>, from: Seq<char>, to: Seq<char>) -> Seq<char> {
    match find(s, from) {
        Some(i) => s.take(i) + to + s.skip(i + from.len()),
        None => s,
    }
}

proof fn lemma_occurs_at_skip(s: Seq<char>, p: Seq<char>, i: int)
    requires
        0 <= i <= s.len(),
    ensures
        occurs_at(s, p, i) == starts_with(s.skip(i), p),
{
    if occurs_at(s, p, i) {
        assert(s.skip(i).take(p.len() as int) =~= s.subrange(i, i + p.len()));
    }
    if starts_with(s.skip(i), p) {
        assert(s.skip(i).take(p.len() as int) =~= s.subrange(i, i + p.len()));
    }
}

proof fn lemma_replace_all_step(s: Seq<char>, from: Seq<char>, to: Seq<char>, i: int)
    requires
        0 <= i < s.len(),
    ensures
        from.len() == 0 ==> replace_all(s.skip(i), from, to) == to + seq![s[i]] + replace_all(
            s.skip(i + 1),
            from,
            to,
        ),
        from.len() > 0 && occurs_at(s, from, i) ==> replace_all(s.skip(i), from, to) == to
            + replace_all(s.skip(i + from.len()), from, to),
        from.len() > 0 && !occurs_at(s, from, i) ==> replace_all(s.skip(i), from, to) == seq![
            s[i],
        ] + replace_all(s.skip(i + 1), from, to),
{
    let rest = s.skip(i);
    lemma_occurs_at_skip(s, from, i);
    assert(rest.drop_first() =~= s.skip(i + 1));
    if from.len() > 0 && occurs_at(s, from, i) {
        assert(rest.skip(from.len() as int) =~= s.skip(i + from.len()));
    }
}

pub fn replace_all_chars(s: &Vec<char>, from: &Vec<char>, to: &Vec<char>) -> (res: Vec<char>)
    ensures
        res@ == replace_all(s@, from@, to@),
{
    let mut out: Vec<char> = Vec::new();
    let mut i: usize = 0;
    proof {
        assert(s@.skip(0) =~= s@);
    }
    while i < s.len()
        invariant
            i <= s.len(),
            replace_all(s@, from@, to@) == out@ + replace_all(s@.skip(i as int), from@, to@),
        decreases s.len() - i,
    {
        proof {
            lemma_replace_all_step(s@, from@, to@, i as int);
        }
        let ghost out0 = out@;
        if from.len() == 0 {
            extend_chars(&mut out, to);
            out.push(s[i]);
            proof {
                assert(out@ == out0 + to@ + seq![s@[i as int]]);
                assert(out0 + (to@ + seq![s@[i as int]] + replace_all(s@.skip(i + 1), from@, to@))
                    =~= out@ + replace_all(s@.skip(i + 1), from@, to@));
            }
            i = i + 1;
        } else if occurs_at_chars(s, from, i) {
            extend_chars(&mut out, to);
            proof {
                assert(out0 + (to@ + replace_all(s@.skip(i + from.len()), from@, to@)) =~= out@
                    + replace_all(s@.skip(i + from.len()), from@, to@));
            }
            i = i + from.len();
        } else {
            out.push(s[i]);
            proof {
                assert(out0 + (seq![s@[i as int]] + replace_all(s@.skip(i + 1), from@, to@))
                    =~= out@ + replace_all(s@.skip(i + 1), from@, to@));
            }
            i = i + 1;
        }
    }
    let ghost out1 = out@;
    if from.len() == 0 {
        extend_chars(&mut out, to);
    }
    proof {
        assert(s@.skip(i as int) =~= Seq::<char>::empty());
        if from.len() > 0 {
            assert(!starts_with(Seq::<char>::empty(), from@));
            assert(out1 + Seq::<char>::empty() =~= out1);
        }
    }
    out
}

pub fn replace_first_chars(s: &Vec<char>, from: &Vec<char>, to: &Vec<char>) -> (res: Vec<char>)
    ensures
        res@ == replace_first(s@, from@, to@),
{
    match find_chars(s, from) {
        Some(i) => {
            proof {
                lemma_find_spec(s@, from@);
            }
            let mut out = slice_chars(s, 0, i);
            extend_chars(&mut out, to);
            let rest = slice_chars(s, i + from.len(), s.len());
            extend_chars(&mut out, &rest);
            out
        },
        None => s.clone(),
    }
}

/// `s` after replacing every occurrence of each pair's first text by its
/// second text, pair by pair.
pub open spec fn replace_pairs(s: Seq<char>, pairs: Seq<(Seq<char>, Seq<char>)>) -> Seq<char>
    decreases pairs.len(),
{
    if pairs.len() == 0 {
        s
    } else {
        replace_pairs(replace_all(s, pairs[0].0, pairs[0].1), pairs.drop_first())
    }
}

/// `s` with the replacement pairs applied in order.
pub fn replace_pairs_chars(
    s: &Vec<char>,
    pairs: &Vec<(Vec<char>, Vec<char>)>,
    Ghost(views): Ghost<Seq<(Seq<char>, Seq<char>)>>,
) -> (res: Vec<char>)
    requires
        pairs@.len() == views.len(),
        forall|j: int|
            0 <= j < pairs@.len() ==> (#[trigger] pairs@[j]).0@ == views[j].0 && pairs@[j].1@
                == views[j].1,
    ensures
        res@ == replace_pairs(s@, views),
{
    let mut out = s.clone();
    let mut k: usize = 0;
    proof {
        assert(out@ =~= s@);
        assert(views.skip(0) =~= views);
    }
    while k < pairs.len()
        invariant
            k <= pairs@.len(),
            pairs@.len() == views.len(),
            forall|j: int|
                0 <= j < pairs@.len() ==> (#[trigger] pairs@[j]).0@ == views[j].0 && pairs@[j].1@
                    == views[j].1,
            replace_pairs(s@, views) == replace_pairs(out@, views.skip(k as int)),
        decreases pairs.len() - k,
    {
        proof {
            assert(views.skip(k as int)[0] == views[k as int]);
            assert(views.skip(k as int).drop_first() =~= views.skip(k + 1));
        }
        out = replace_all_chars(&out, &pairs[k].0, &pairs[k].1);
        k = k + 1;
    }
    proof {
        assert(views.skip(k as int).len() == 0);
    }
    out
}

// ---------------------------------------------------------------------------
// Conversions at the edge of the library
// ---------------------------------------------------------------------------

/// Appends one character to a `String` (`String::push`).
#[verifier::external_body]
pub(crate) fn push_char(s: &mut String, c: char)
    ensures
        final(s)@ == old(s)@.push(c),
{
    s.push(c);
}

/// The characters of `s`, in order.
pub fn str_to_chars(s: &str) -> (res: Vec<char>)
    ensures
        res@ == s@,
{
    let mut out: Vec<char> = Vec::new();
    for c in it: s.chars()
        invariant
            out@ == it.seq().take(it.index() as int),
            it.seq() == s@,
    {
        out.push(c);
    }
    out
}

/// A `String` holding exactly the characters of `v`.
pub fn chars_to_string(v: &Vec<char>) -> (res: String)
    ensures
        res@ == v@,
{
    let mut out = String::new();
    let mut i: usize = 0;
    while i < v.len()
        invariant
            i <= v.len(),
            out@ == v@.subrange(0, i as int),
        decreases v.len() - i,
    {
        push_char(&mut out, v[i]);
        i = i + 1;
        assert(out@ =~= v@.subrange(0, i as int));
    }
    assert(v@.subrange(0, v.len() as int) =~= v@);
    out
}

pub proof fn lemma_chars_deep_view(v: Vec<char>)
    ensures
        v.deep_view() == v@,
{
    assert(v.deep_view() =~= v@);
}

pub fn strings_to_chars(lines: &[String]) -> (res: Vec<Vec<char>>)
    ensures
        res.deep_view() == lines.deep_view(),
{
    let mut out: Vec<Vec<char>> = Vec::new();
    let mut i: usize = 0;
    while i < lines.len()
        invariant
            i <= lines.len(),
            out.len() == i,
            forall|j: int| 0 <= j < i ==> (#[trigger] out@[j])@ == lines@[j]@,
        decreases lines.len() - i,
    {
        let v = str_to_chars(lines[i].as_str());
        out.push(v);
        i = i + 1;
    }
    proof {
        assert forall|j: int| 0 <= j < out.len() implies out.deep_view()[j] == lines.deep_view()[j] by {
            lemma_chars_deep_view(out@[j]);
        }
        assert(out.deep_view() =~= lines.deep_view());
    }
    out
}

pub fn chars_to_strings(lines: &Vec<Vec<char>>) -> (res: Vec<String>)
    ensures
        res.deep_view() == lines.deep_view(),
{
    let mut out: Vec<String> = Vec::new();
    let mut i: usize = 0;
    while i < lines.len()
        invariant
            i <= lines.len(),
            out.len() == i,
            forall|j: int| 0 <= j < i ==> (#[trigger] out@[j])@ == lines@[j]@,
        decreases lines.len() - i,
    {
        let s = chars_to_string(&lines[i]);
        out.push(s);
        i = i + 1;
    }
    proof {
        assert forall|j: int| 0 <= j < out.len() implies out.deep_view()[j] == lines.deep_view()[j] by {
            lemma_chars_deep_view(lines@[j]);
        }
        assert(out.deep_view() =~= lines.deep_view());
    }
    out
}

} // verus!

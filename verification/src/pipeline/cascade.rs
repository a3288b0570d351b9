//! Recognising a batch of lines with three models of increasing size: each
//! line starts with the model of its bucket and moves to the next larger
//! model when the text read is too long for the one used.
use vstd::prelude::*;

use crate::cascade::PredCharBucket;
use crate::sorting::{
    lemma_insert_at, lemma_stable_sort_map_multiset, lemma_stable_sort_sorted, stable_sort,
};
use vstd::multiset::Multiset;
use vstd::relations::{sorted_by, strongly_connected, transitive};

verus! {

broadcast use vstd::seq_lib::group_seq_properties;

/// Characters from which a reading of the 30-character model is read again
/// by the 50-character model.
pub const ESCALATE_FROM_30: usize = 25;

/// Characters from which a reading of the 50-character model is read again
/// by the 100-character model.
pub const ESCALATE_FROM_50: usize = 45;

/// A line to recognise: its position in the page and its bucket.
#[derive(Clone, Copy, Debug, PartialEq, Eq, Structural)]
pub struct LineCandidate {
    pub idx: usize,
    pub bucket: PredCharBucket,
}

impl LineCandidate {
    pub fn new(idx: usize, bucket: PredCharBucket) -> (res: Self)
        ensures
            res == (LineCandidate { idx, bucket }),
    {
        LineCandidate { idx, bucket }
    }
}

/// The lines of `lines` in bucket `b`, in order.
pub open spec fn in_bucket(lines: Seq<LineCandidate>, b: PredCharBucket) -> Seq<LineCandidate>
    decreases lines.len(),
{
    if lines.len() == 0 {
        seq![]
    } else if lines.last().bucket == b {
        in_bucket(lines.drop_last(), b).push(lines.last())
    } else {
        in_bucket(lines.drop_last(), b)
    }
}

/// The lines whose reading `texts[i]` is shorter than `limit`, with their
/// texts, in order.
pub open spec fn kept(lines: Seq<LineCandidate>, texts: Seq<String>, limit: int) -> Seq<(usize, String)>
    decreases lines.len(),
{
    if lines.len() == 0 {
        seq![]
    } else {
        let n = lines.len() - 1;
        let prev = kept(lines.drop_last(), texts, limit);
        if texts[n]@.len() < limit {
            prev.push((lines[n].idx, texts[n]))
        } else {
            prev
        }
    }
}

/// The lines whose reading reaches `limit`, in order.
pub open spec fn escalated(lines: Seq<LineCandidate>, texts: Seq<String>, limit: int) -> Seq<
    LineCandidate,
>
    decreases lines.len(),
{
    if lines.len() == 0 {
        seq![]
    } else {
        let n = lines.len() - 1;
        let prev = escalated(lines.drop_last(), texts, limit);
        if texts[n]@.len() >= limit {
            prev.push(lines[n])
        } else {
            prev
        }
    }
}

/// Every line as (position, text), with a text each of the three models
/// gave to the lines it read.
pub open spec fn with_texts(lines: Seq<LineCandidate>, texts: Seq<String>) -> Seq<(usize, String)> {
    Seq::new(lines.len(), |i: int| (lines[i].idx, texts[i]))
}

/// The lines each model reads, in order: the 30-character model reads the
/// lines of its bucket; the 50-character model the lines of its bucket and
/// then those escalated from the 30-character model; the 100-character
/// model the lines of its bucket and then those escalated from the
/// 50-character model.
pub open spec fn reads_30(lines: Seq<LineCandidate>) -> Seq<LineCandidate> {
    in_bucket(lines, PredCharBucket::Chars30)
}

pub open spec fn reads_50(lines: Seq<LineCandidate>, t30: Seq<String>) -> Seq<LineCandidate> {
    in_bucket(lines, PredCharBucket::Chars50) + escalated(reads_30(lines), t30, ESCALATE_FROM_30 as int)
}

pub open spec fn reads_100(lines: Seq<LineCandidate>, t30: Seq<String>, t50: Seq<String>) -> Seq<
    LineCandidate,
> {
    in_bucket(lines, PredCharBucket::Chars100) + escalated(
        reads_50(lines, t30),
        t50,
        ESCALATE_FROM_50 as int,
    )
}

/// Order by position.
pub open spec fn by_idx() -> spec_fn((usize, String), (usize, String)) -> bool {
    |a: (usize, String), b: (usize, String)| a.0 <= b.0
}

/// The result of the cascade when the models read `t30`, `t50` and `t100`
/// for the lines they read: the readings kept by the 30-character model,
/// then by the 50-character model, then all readings of the 100-character
/// model, stably sorted by position.
pub open spec fn cascade_result(
    lines: Seq<LineCandidate>,
    t30: Seq<String>,
    t50: Seq<String>,
    t100: Seq<String>,
) -> Seq<(usize, String)> {
    stable_sort(
        kept(reads_30(lines), t30, ESCALATE_FROM_30 as int) + kept(
            reads_50(lines, t30),
            t50,
            ESCALATE_FROM_50 as int,
        ) + with_texts(reads_100(lines, t30, t50), t100),
        by_idx(),
    )
}

/// The readings before sorting: those kept by the 30-character model, then
/// by the 50-character model, then all of the 100-character model.
pub open spec fn unsorted_all(
    lines: Seq<LineCandidate>,
    t30: Seq<String>,
    t50: Seq<String>,
    t100: Seq<String>,
) -> Seq<(usize, String)> {
    kept(reads_30(lines), t30, ESCALATE_FROM_30 as int) + kept(
        reads_50(lines, t30),
        t50,
        ESCALATE_FROM_50 as int,
    ) + with_texts(reads_100(lines, t30, t50), t100)
}

/// `texts[i]` is a text that `f` may return for `lines[i]`, for each `i`.
pub open spec fn answered_by<F: Fn(&LineCandidate) -> String>(
    f: F,
    lines: Seq<LineCandidate>,
    texts: Seq<String>,
) -> bool {
    &&& texts.len() == lines.len()
    &&& forall|i: int| 0 <= i < lines.len() ==> f.ensures((&lines[i],), #[trigger] texts[i])
}

/// `res` is what the cascade gives for some texts the three recognisers may
/// return.
pub open spec fn cascade_outcome<
    F30: Fn(&LineCandidate) -> String,
    F50: Fn(&LineCandidate) -> String,
    F100: Fn(&LineCandidate) -> String,
>(
    lines: Seq<LineCandidate>,
    recognize30: F30,
    recognize50: F50,
    recognize100: F100,
    res: Seq<(usize, String)>,
) -> bool {
    exists|t30: Seq<String>, t50: Seq<String>, t100: Seq<String>|
        {
            &&& answered_by(recognize30, reads_30(lines), t30)
            &&& answered_by(recognize50, reads_50(lines, t30), t50)
            &&& answered_by(recognize100, reads_100(lines, t30, t50), t100)
            &&& res == #[trigger] cascade_result(lines, t30, t50, t100)
        }
}

/// The lines of `lines` in bucket `b`, in order (see [`in_bucket`]).
pub fn select_bucket(lines: &Vec<LineCandidate>, b: PredCharBucket) -> (res: Vec<LineCandidate>)
    ensures
        res@ == in_bucket(lines@, b),
{
    let mut out: Vec<LineCandidate> = Vec::new();
    let mut i: usize = 0;
    proof {
        assert(lines@.take(0) =~= Seq::<LineCandidate>::empty());
    }
    while i < lines.len()
        invariant
            i <= lines@.len(),
            out@ == in_bucket(lines@.take(i as int), b),
        decreases lines.len() - i,
    {
        proof {
            assert(lines@.take(i + 1).drop_last() =~= lines@.take(i as int));
            assert(lines@.take(i + 1).last() == lines@[i as int]);
        }
        if lines[i].bucket == b {
            out.push(lines[i]);
        }
        i = i + 1;
    }
    proof {
        assert(lines@.take(lines@.len() as int) =~= lines@);
    }
    out
}

/// Reads `lines` with `f`; the readings shorter than `limit` go to `all`,
/// the lines of the others are returned.
fn read_and_split<F: Fn(&LineCandidate) -> String>(
    lines: &Vec<LineCandidate>,
    f: &F,
    limit: usize,
    all: &mut Vec<(usize, String)>,
) -> (res: (Vec<LineCandidate>, Ghost<Seq<String>>))
    requires
        forall|l: &LineCandidate| #[trigger] f.requires((l,)),
    ensures
        answered_by(*f, lines@, res.1@),
        final(all)@ == old(all)@ + kept(lines@, res.1@, limit as int),
        res.0@ == escalated(lines@, res.1@, limit as int),
{
    let ghost all0 = all@;
    let ghost mut texts: Seq<String> = seq![];
    let mut up: Vec<LineCandidate> = Vec::new();
    let mut i: usize = 0;
    while i < lines.len()
        invariant
            i <= lines@.len(),
            forall|l: &LineCandidate| #[trigger] f.requires((l,)),
            texts.len() == i,
            forall|k: int| 0 <= k < i ==> f.ensures((&lines@[k],), #[trigger] texts[k]),
            all@ == all0 + kept(lines@.take(i as int), texts, limit as int),
            up@ == escalated(lines@.take(i as int), texts, limit as int),
        decreases lines.len() - i,
    {
        let l = lines[i];
        let s = f(&l);
        let n = crate::chars::str_to_chars(s.as_str()).len();
        let ghost old_texts = texts;
        proof {
            texts = texts.push(s);
            lemma_kept_prefix(lines@.take(i as int), old_texts, texts, limit as int);
            assert(lines@.take(i + 1).drop_last() =~= lines@.take(i as int));
            assert(lines@.take(i + 1)[i as int] == l);
        }
        if n >= limit {
            up.push(l);
        } else {
            all.push((l.idx, s));
        }
        i = i + 1;
    }
    proof {
        assert(lines@.take(lines@.len() as int) =~= lines@);
    }
    (up, Ghost(texts))
}

proof fn lemma_kept_prefix(lines: Seq<LineCandidate>, t1: Seq<String>, t2: Seq<String>, limit: int)
    requires
        forall|i: int| 0 <= i < lines.len() ==> t1[i] == t2[i],
    ensures
        kept(lines, t1, limit) == kept(lines, t2, limit),
        escalated(lines, t1, limit) == escalated(lines, t2, limit),
    decreases lines.len(),
{
    if lines.len() > 0 {
        lemma_kept_prefix(lines.drop_last(), t1, t2, limit);
    }
}

/// Sorts readings by position, stably.
fn sort_by_idx(all: Vec<(usize, String)>) -> (res: Vec<(usize, String)>)
    ensures
        res@ == stable_sort(all@, by_idx()),
{
    let mut all = all;
    let total = all.len();
    let ghost unsorted = all@;
    let ghost le = by_idx();
    let ghost n = unsorted.len();
    assert(n == total);
    let mut rest: Vec<(usize, String)> = Vec::new();
    while all.len() > 0
        invariant
            all@ == unsorted.take(all@.len() as int),
            all@.len() + rest@.len() == n,
            n == unsorted.len(),
            forall|j: int| 0 <= j < rest@.len() ==> #[trigger] rest@[j] == unsorted[n - 1 - j],
        decreases all.len(),
    {
        let ghost m = all@.len();
        match all.pop() {
            Some(x) => {
                rest.push(x);
                proof {
                    assert(all@ =~= unsorted.take(m - 1));
                }
            },
            None => {},
        }
    }
    let mut out: Vec<(usize, String)> = Vec::new();
    let mut i: usize = 0;
    proof {
        assert(unsorted.take(0) =~= Seq::<(usize, String)>::empty());
    }
    while rest.len() > 0
        invariant
            rest@.len() + i == n,
            n == unsorted.len(),
            n == total,
            forall|j: int| 0 <= j < rest@.len() ==> #[trigger] rest@[j] == unsorted[n - 1 - j],
            le == by_idx(),
            out@ == stable_sort(unsorted.take(i as int), le),
        decreases rest.len(),
    {
        let ghost r0 = rest@;
        let x = match rest.pop() {
            Some(x) => x,
            None => {
                return out;
            },
        };
        proof {
            assert(x == r0[r0.len() - 1]);
            assert(x == unsorted[i as int]);
            assert(unsorted.take(i + 1).last() == x);
        }
        let mut p: usize = out.len();
        while p > 0 && x.0 < out[p - 1].0
            invariant
                p <= out@.len(),
                le == by_idx(),
                forall|j: int| p <= j < out@.len() ==> !le(#[trigger] out@[j], x),
            decreases p,
        {
            p = p - 1;
        }
        proof {
            lemma_insert_at(out@, x, p as int, le);
            assert(unsorted.take(i + 1).drop_last() =~= unsorted.take(i as int));
        }
        out.insert(p, x);
        i = i + 1;
    }
    proof {
        assert(unsorted.take(n as int) =~= unsorted);
    }
    out
}

/// Recognises `lines` with the cascade and returns each line's position
/// with its text, sorted by position (see [`cascade_result`]); the 30- and
/// 50-character readings are escalated from 25 and 45 characters.
pub fn run_cascade_with_idx<
    F30: Fn(&LineCandidate) -> String,
    F50: Fn(&LineCandidate) -> String,
    F100: Fn(&LineCandidate) -> String,
>(lines: Vec<LineCandidate>, recognize30: F30, recognize50: F50, recognize100: F100) -> (res: Vec<
    (usize, String),
>)
    requires
        forall|l: &LineCandidate| #[trigger] recognize30.requires((l,)),
        forall|l: &LineCandidate| #[trigger] recognize50.requires((l,)),
        forall|l: &LineCandidate| #[trigger] recognize100.requires((l,)),
    ensures
        cascade_outcome(lines@, recognize30, recognize50, recognize100, res@),
{
    let t30 = select_bucket(&lines, PredCharBucket::Chars30);
    let mut t50 = select_bucket(&lines, PredCharBucket::Chars50);
    let mut t100 = select_bucket(&lines, PredCharBucket::Chars100);
    let mut all: Vec<(usize, String)> = Vec::new();
    let (up30, Ghost(a30)) = read_and_split(&t30, &recognize30, ESCALATE_FROM_30, &mut all);
    let mut k: usize = 0;
    let ghost t50_base = t50@;
    while k < up30.len()
        invariant
            k <= up30@.len(),
            t50@ == t50_base + up30@.take(k as int),
        decreases up30.len() - k,
    {
        t50.push(up30[k]);
        proof {
            assert(up30@.take(k + 1) =~= up30@.take(k as int).push(up30@[k as int]));
        }
        k = k + 1;
    }
    proof {
        assert(up30@.take(up30@.len() as int) =~= up30@);
    }
    let (up50, Ghost(a50)) = read_and_split(&t50, &recognize50, ESCALATE_FROM_50, &mut all);
    let mut k: usize = 0;
    let ghost t100_base = t100@;
    while k < up50.len()
        invariant
            k <= up50@.len(),
            t100@ == t100_base + up50@.take(k as int),
        decreases up50.len() - k,
    {
        t100.push(up50[k]);
        proof {
            assert(up50@.take(k + 1) =~= up50@.take(k as int).push(up50@[k as int]));
        }
        k = k + 1;
    }
    proof {
        assert(up50@.take(up50@.len() as int) =~= up50@);
    }
    let ghost all_before_100 = all@;
    proof {
        assert(all_before_100 =~= kept(t30@, a30, ESCALATE_FROM_30 as int) + kept(
            t50@,
            a50,
            ESCALATE_FROM_50 as int,
        ));
    }
    let ghost mut a100: Seq<String> = seq![];
    let mut k: usize = 0;
    while k < t100.len()
        invariant
            k <= t100@.len(),
            forall|l: &LineCandidate| #[trigger] recognize100.requires((l,)),
            a100.len() == k,
            forall|j: int| 0 <= j < k ==> recognize100.ensures((&t100@[j],), #[trigger] a100[j]),
            all@ == all_before_100 + with_texts(t100@.take(k as int), a100),
        decreases t100.len() - k,
    {
        let l = t100[k];
        let s = recognize100(&l);
        proof {
            a100 = a100.push(s);
            assert(with_texts(t100@.take(k + 1), a100) =~= with_texts(t100@.take(k as int), a100.drop_last()).push((l.idx, s)));
            assert(with_texts(t100@.take(k as int), a100.drop_last()) =~= with_texts(t100@.take(k as int), a100));
        }
        all.push((l.idx, s));
        k = k + 1;
    }
    proof {
        assert(t100@.take(t100@.len() as int) =~= t100@);
    }
    proof {
        assert(all@ =~= unsorted_all(lines@, a30, a50, a100));
    }
    let res = sort_by_idx(all);
    proof {
        assert(t30@ == reads_30(lines@));
        assert(t50@ == reads_50(lines@, a30));
        assert(t100@ == reads_100(lines@, a30, a50));
        assert(unsorted_all(lines@, a30, a50, a100) =~= kept(reads_30(lines@), a30, ESCALATE_FROM_30 as int)
            + kept(reads_50(lines@, a30), a50, ESCALATE_FROM_50 as int) + with_texts(
            reads_100(lines@, a30, a50),
            a100,
        ));
        assert(res@ == cascade_result(lines@, a30, a50, a100));
        assert(answered_by(recognize30, reads_30(lines@), a30));
        assert(answered_by(recognize50, reads_50(lines@, a30), a50));
        assert(answered_by(recognize100, reads_100(lines@, a30, a50), a100));
    }
    res
}

/// Recognises `lines` with the cascade and returns the texts in position
/// order (see [`run_cascade_with_idx`]).
pub fn run_cascade<
    F30: Fn(&LineCandidate) -> String,
    F50: Fn(&LineCandidate) -> String,
    F100: Fn(&LineCandidate) -> String,
>(lines: Vec<LineCandidate>, recognize30: F30, recognize50: F50, recognize100: F100) -> (res: Vec<
    String,
>)
    requires
        forall|l: &LineCandidate| #[trigger] recognize30.requires((l,)),
        forall|l: &LineCandidate| #[trigger] recognize50.requires((l,)),
        forall|l: &LineCandidate| #[trigger] recognize100.requires((l,)),
    ensures
        exists|r: Seq<(usize, String)>|
            cascade_outcome(lines@, recognize30, recognize50, recognize100, r) && res@ == r.map_values(
                |p: (usize, String)| p.1,
            ),
{
    let ghost ls = lines@;
    let pairs = run_cascade_with_idx(lines, recognize30, recognize50, recognize100);
    let ghost r = pairs@;
    let mut pairs = pairs;
    let mut texts: Vec<String> = Vec::new();
    let mut rev: Vec<String> = Vec::new();
    while pairs.len() > 0
        invariant
            pairs@ == r.take(pairs@.len() as int),
            pairs@.len() + rev@.len() == r.len(),
            forall|j: int| 0 <= j < rev@.len() ==> #[trigger] rev@[j] == r[r.len() - 1 - j].1,
        decreases pairs.len(),
    {
        let ghost m = pairs@.len();
        match pairs.pop() {
            Some(p) => {
                rev.push(p.1);
                proof {
                    assert(pairs@ =~= r.take(m - 1));
                }
            },
            None => {},
        }
    }
    while rev.len() > 0
        invariant
            rev@.len() + texts@.len() == r.len(),
            forall|j: int| 0 <= j < rev@.len() ==> #[trigger] rev@[j] == r[r.len() - 1 - j].1,
            texts@ == r.take(texts@.len() as int).map_values(|p: (usize, String)| p.1),
        decreases rev.len(),
    {
        let ghost k = texts@.len();
        match rev.pop() {
            Some(t) => {
                texts.push(t);
                proof {
                    assert(r.take((k + 1) as int).map_values(|p: (usize, String)| p.1) =~= r.take(
                        k as int,
                    ).map_values(|p: (usize, String)| p.1).push(r[k as int].1));
                }
            },
            None => {},
        }
    }
    proof {
        assert(r.take(r.len() as int) =~= r);
        assert(cascade_outcome(ls, recognize30, recognize50, recognize100, r));
    }
    texts
}

// ---------------------------------------------------------------------------
// Every line is read to the end exactly once
// ---------------------------------------------------------------------------

/// The positions of lines, counted with multiplicity.
pub open spec fn line_positions(ls: Seq<LineCandidate>) -> Multiset<usize> {
    ls.map_values(|l: LineCandidate| l.idx).to_multiset()
}

/// The position of a reading.
pub open spec fn reading_position() -> spec_fn((usize, String)) -> usize {
    |p: (usize, String)| p.0
}

/// The positions of readings, counted with multiplicity.
pub open spec fn reading_positions(ps: Seq<(usize, String)>) -> Multiset<usize> {
    ps.map_values(reading_position()).to_multiset()
}

proof fn lemma_line_positions_push(ls: Seq<LineCandidate>, l: LineCandidate)
    ensures
        line_positions(ls.push(l)) =~= line_positions(ls).insert(l.idx),
{
    broadcast use vstd::seq_lib::group_to_multiset_ensures;

    assert(ls.push(l).map_values(|l: LineCandidate| l.idx) =~= ls.map_values(
        |l: LineCandidate| l.idx,
    ).push(l.idx));
}

proof fn lemma_reading_positions_push(ps: Seq<(usize, String)>, p: (usize, String))
    ensures
        reading_positions(ps.push(p)) =~= reading_positions(ps).insert(p.0),
{
    broadcast use vstd::seq_lib::group_to_multiset_ensures;

    assert(ps.push(p).map_values(reading_position()) =~= ps.map_values(
        reading_position()).push(p.0));
}

proof fn lemma_line_positions_concat(a: Seq<LineCandidate>, b: Seq<LineCandidate>)
    ensures
        line_positions(a + b) =~= line_positions(a).add(line_positions(b)),
{
    assert((a + b).map_values(|l: LineCandidate| l.idx) =~= a.map_values(|l: LineCandidate| l.idx)
        + b.map_values(|l: LineCandidate| l.idx));
    vstd::seq_lib::lemma_multiset_commutative(
        a.map_values(|l: LineCandidate| l.idx),
        b.map_values(|l: LineCandidate| l.idx),
    );
}

proof fn lemma_reading_positions_concat(a: Seq<(usize, String)>, b: Seq<(usize, String)>)
    ensures
        reading_positions(a + b) =~= reading_positions(a).add(reading_positions(b)),
{
    assert((a + b).map_values(reading_position()) =~= a.map_values(reading_position())
        + b.map_values(reading_position()));
    vstd::seq_lib::lemma_multiset_commutative(
        a.map_values(reading_position()),
        b.map_values(reading_position()),
    );
}

proof fn lemma_empty_positions()
    ensures
        line_positions(Seq::<LineCandidate>::empty()) =~= Multiset::<usize>::empty(),
        reading_positions(Seq::<(usize, String)>::empty()) =~= Multiset::<usize>::empty(),
{
    broadcast use vstd::seq_lib::group_to_multiset_ensures;

    assert(Seq::<LineCandidate>::empty().map_values(|l: LineCandidate| l.idx) =~= Seq::<
        usize,
    >::empty());
    assert(Seq::<(usize, String)>::empty().map_values(reading_position()) =~= Seq::<
        usize,
    >::empty());
}

proof fn lemma_buckets_partition(lines: Seq<LineCandidate>)
    ensures
        line_positions(in_bucket(lines, PredCharBucket::Chars30)).add(
            line_positions(in_bucket(lines, PredCharBucket::Chars50)),
        ).add(line_positions(in_bucket(lines, PredCharBucket::Chars100))) =~= line_positions(lines),
    decreases lines.len(),
{
    lemma_empty_positions();
    if lines.len() > 0 {
        let t = lines.drop_last();
        let l = lines.last();
        lemma_buckets_partition(t);
        assert(t.push(l) =~= lines);
        lemma_line_positions_push(t, l);
        lemma_line_positions_push(in_bucket(t, l.bucket), l);
    }
}

proof fn lemma_kept_escalated_partition(ls: Seq<LineCandidate>, texts: Seq<String>, limit: int)
    ensures
        reading_positions(kept(ls, texts, limit)).add(line_positions(escalated(ls, texts, limit)))
            =~= line_positions(ls),
    decreases ls.len(),
{
    lemma_empty_positions();
    if ls.len() > 0 {
        let t = ls.drop_last();
        let n = ls.len() - 1;
        lemma_kept_escalated_partition(t, texts, limit);
        assert(t.push(ls[n]) =~= ls);
        lemma_line_positions_push(t, ls[n]);
        lemma_line_positions_push(escalated(t, texts, limit), ls[n]);
        lemma_reading_positions_push(kept(t, texts, limit), (ls[n].idx, texts[n]));
    }
}

proof fn lemma_with_texts_positions(ls: Seq<LineCandidate>, texts: Seq<String>)
    requires
        texts.len() == ls.len(),
    ensures
        reading_positions(with_texts(ls, texts)) =~= line_positions(ls),
{
    assert(with_texts(ls, texts).map_values(reading_position()) =~= ls.map_values(
        |l: LineCandidate| l.idx,
    ));
}

/// Whatever the recognisers return, the cascade gives each line exactly one
/// reading (the positions of the result are those of the lines, counted
/// with multiplicity), in order of position.
pub proof fn lemma_cascade_reads_each_line_once(
    lines: Seq<LineCandidate>,
    t30: Seq<String>,
    t50: Seq<String>,
    t100: Seq<String>,
)
    requires
        t100.len() == reads_100(lines, t30, t50).len(),
    ensures
        reading_positions(cascade_result(lines, t30, t50, t100)) =~= line_positions(lines),
        sorted_by(cascade_result(lines, t30, t50, t100), by_idx()),
{
    let r30 = reads_30(lines);
    let r50 = reads_50(lines, t30);
    let r100 = reads_100(lines, t30, t50);
    let k30 = kept(r30, t30, ESCALATE_FROM_30 as int);
    let k50 = kept(r50, t50, ESCALATE_FROM_50 as int);
    let w100 = with_texts(r100, t100);
    let all = k30 + k50 + w100;
    lemma_buckets_partition(lines);
    lemma_kept_escalated_partition(r30, t30, ESCALATE_FROM_30 as int);
    lemma_kept_escalated_partition(r50, t50, ESCALATE_FROM_50 as int);
    lemma_line_positions_concat(
        in_bucket(lines, PredCharBucket::Chars50),
        escalated(r30, t30, ESCALATE_FROM_30 as int),
    );
    lemma_line_positions_concat(
        in_bucket(lines, PredCharBucket::Chars100),
        escalated(r50, t50, ESCALATE_FROM_50 as int),
    );
    lemma_with_texts_positions(r100, t100);
    lemma_reading_positions_concat(k30, k50);
    lemma_reading_positions_concat(k30 + k50, w100);
    lemma_stable_sort_map_multiset(all, by_idx(), reading_position());
    let m_lines = line_positions(lines);
    let m30 = line_positions(r30);
    let m_in50 = line_positions(in_bucket(lines, PredCharBucket::Chars50));
    let m_in100 = line_positions(in_bucket(lines, PredCharBucket::Chars100));
    let m_e30 = line_positions(escalated(r30, t30, ESCALATE_FROM_30 as int));
    let m_e50 = line_positions(escalated(r50, t50, ESCALATE_FROM_50 as int));
    assert forall|v: usize| #[trigger] reading_positions(all).count(v) == m_lines.count(v) by {
        assert(reading_positions(all).count(v) == reading_positions(k30).count(v)
            + reading_positions(k50).count(v) + reading_positions(w100).count(v));
        assert(r100 == in_bucket(lines, PredCharBucket::Chars100) + escalated(
            r50,
            t50,
            ESCALATE_FROM_50 as int,
        ));
        assert(reading_positions(w100).count(v) == m_in100.count(v) + m_e50.count(v));
        assert(r50 == in_bucket(lines, PredCharBucket::Chars50) + escalated(
            r30,
            t30,
            ESCALATE_FROM_30 as int,
        ));
        assert(line_positions(r50).count(v) == m_in50.count(v) + m_e30.count(v));
        assert(reading_positions(k50).count(v) + m_e50.count(v) == line_positions(r50).count(v));
        assert(reading_positions(k50).count(v) + m_e50.count(v) == m_in50.count(v) + m_e30.count(v));
        assert(reading_positions(k30).count(v) + m_e30.count(v) == m30.count(v));
        assert(m30.count(v) + m_in50.count(v) + m_in100.count(v) == m_lines.count(v));
    }
    assert(reading_positions(stable_sort(all, by_idx())) =~= reading_positions(all));
    assert(transitive(by_idx()));
    assert(strongly_connected(by_idx()));
    lemma_stable_sort_sorted(all, by_idx());
}

/// The lines whose count `counts[i]` reaches `limit`, in order.
pub open spec fn escalated_by_count(lines: Seq<LineCandidate>, counts: Seq<int>, limit: int) -> Seq<
    LineCandidate,
>
    decreases lines.len(),
{
    if lines.len() == 0 {
        seq![]
    } else {
        let n = lines.len() - 1;
        let prev = escalated_by_count(lines.drop_last(), counts, limit);
        if counts[n] >= limit {
            prev.push(lines[n])
        } else {
            prev
        }
    }
}

/// The number of characters of each text.
pub open spec fn char_counts(texts: Seq<String>) -> Seq<int> {
    texts.map_values(|s: String| s@.len() as int)
}

/// The lines of `lines` whose reading had `counts[i]` characters and
/// reaches `limit`, in order (see [`escalated_by_count`]).
pub fn escalate_by_count(lines: &Vec<LineCandidate>, counts: &Vec<usize>, limit: usize) -> (res: Vec<
    LineCandidate,
>)
    requires
        lines@.len() == counts@.len(),
    ensures
        res@ == escalated_by_count(lines@, counts@.map_values(|c: usize| c as int), limit as int),
{
    let ghost cs = counts@.map_values(|c: usize| c as int);
    let mut out: Vec<LineCandidate> = Vec::new();
    let mut i: usize = 0;
    proof {
        assert(lines@.take(0) =~= Seq::<LineCandidate>::empty());
    }
    while i < lines.len()
        invariant
            i <= lines@.len(),
            lines@.len() == counts@.len(),
            cs == counts@.map_values(|c: usize| c as int),
            out@ == escalated_by_count(lines@.take(i as int), cs, limit as int),
        decreases lines.len() - i,
    {
        proof {
            assert(lines@.take(i + 1).drop_last() =~= lines@.take(i as int));
            assert(lines@.take(i + 1)[i as int] == lines@[i as int]);
            assert(cs[i as int] == counts@[i as int] as int);
        }
        if counts[i] >= limit {
            out.push(lines[i]);
        }
        i = i + 1;
    }
    proof {
        assert(lines@.take(lines@.len() as int) =~= lines@);
    }
    out
}

proof fn lemma_escalated_by_counts(lines: Seq<LineCandidate>, texts: Seq<String>, limit: int)
    requires
        lines.len() <= texts.len(),
    ensures
        escalated(lines, texts, limit) == escalated_by_count(lines, char_counts(texts), limit),
    decreases lines.len(),
{
    if lines.len() > 0 {
        lemma_escalated_by_counts(lines.drop_last(), texts, limit);
    }
}

proof fn lemma_escalated_by_count_prefix(lines: Seq<LineCandidate>, c1: Seq<int>, c2: Seq<int>, limit: int)
    requires
        lines.len() <= c1.len(),
        lines.len() <= c2.len(),
        forall|i: int| 0 <= i < lines.len() ==> c1[i] == c2[i],
    ensures
        escalated_by_count(lines, c1, limit) == escalated_by_count(lines, c2, limit),
    decreases lines.len(),
{
    if lines.len() > 0 {
        lemma_escalated_by_count_prefix(lines.drop_last(), c1, c2, limit);
    }
}

proof fn lemma_escalated_by_count_append(
    a: Seq<LineCandidate>,
    b: Seq<LineCandidate>,
    counts: Seq<int>,
    limit: int,
)
    requires
        a.len() + b.len() <= counts.len(),
    ensures
        escalated_by_count(a + b, counts, limit) == escalated_by_count(a, counts, limit)
            + escalated_by_count(b, counts.skip(a.len() as int), limit),
    decreases b.len(),
{
    if b.len() == 0 {
        assert(a + b =~= a);
        assert(escalated_by_count(b, counts.skip(a.len() as int), limit) =~= Seq::<LineCandidate>::empty());
    } else {
        lemma_escalated_by_count_append(a, b.drop_last(), counts, limit);
        assert((a + b).drop_last() =~= a + b.drop_last());
        assert((a + b)[(a + b).len() - 1] == b[b.len() - 1]);
        assert(counts.skip(a.len() as int)[b.len() - 1] == counts[a.len() + b.len() - 1]);
    }
}

/// A cascade run in batches reads, with each model, the same lines in the
/// same order as the one-by-one cascade: the 50-character model reads its
/// bucket, then the lines of the 30-character bucket whose reading reached
/// 25 characters; the 100-character model reads its bucket, then the lines
/// of the 50-character bucket whose reading reached 45 characters, then the
/// lines escalated from the 30-character model whose second reading did.
/// `t30` and `t50` are the texts the two smaller models gave, in the order
/// they read.
pub proof fn lemma_batched_cascade_reads(lines: Seq<LineCandidate>, t30: Seq<String>, t50: Seq<String>)
    requires
        t30.len() == reads_30(lines).len(),
        t50.len() == reads_50(lines, t30).len(),
    ensures
        reads_50(lines, t30) == in_bucket(lines, PredCharBucket::Chars50) + escalated_by_count(
            in_bucket(lines, PredCharBucket::Chars30),
            char_counts(t30),
            ESCALATE_FROM_30 as int,
        ),
        reads_100(lines, t30, t50) == in_bucket(lines, PredCharBucket::Chars100) + escalated_by_count(
            in_bucket(lines, PredCharBucket::Chars50),
            char_counts(t50),
            ESCALATE_FROM_50 as int,
        ) + escalated_by_count(
            escalated_by_count(in_bucket(lines, PredCharBucket::Chars30), char_counts(t30), ESCALATE_FROM_30 as int),
            char_counts(t50.skip(in_bucket(lines, PredCharBucket::Chars50).len() as int)),
            ESCALATE_FROM_50 as int,
        ),
{
    let p30 = in_bucket(lines, PredCharBucket::Chars30);
    let p50 = in_bucket(lines, PredCharBucket::Chars50);
    lemma_escalated_by_counts(p30, t30, ESCALATE_FROM_30 as int);
    let e30 = escalated_by_count(p30, char_counts(t30), ESCALATE_FROM_30 as int);
    let r50 = reads_50(lines, t30);
    assert(r50 == p50 + e30);
    lemma_escalated_by_counts(r50, t50, ESCALATE_FROM_50 as int);
    lemma_escalated_by_count_append(p50, e30, char_counts(t50), ESCALATE_FROM_50 as int);
    lemma_escalated_by_count_prefix(
        e30,
        char_counts(t50).skip(p50.len() as int),
        char_counts(t50.skip(p50.len() as int)),
        ESCALATE_FROM_50 as int,
    );
    assert(in_bucket(lines, PredCharBucket::Chars100) + (escalated_by_count(
        p50,
        char_counts(t50),
        ESCALATE_FROM_50 as int,
    ) + escalated_by_count(e30, char_counts(t50.skip(p50.len() as int)), ESCALATE_FROM_50 as int))
        =~= in_bucket(lines, PredCharBucket::Chars100) + escalated_by_count(
        p50,
        char_counts(t50),
        ESCALATE_FROM_50 as int,
    ) + escalated_by_count(e30, char_counts(t50.skip(p50.len() as int)), ESCALATE_FROM_50 as int));
}

/// The reading the cascade keeps for line `l` when the three models read
/// `r30(l)`, `r50(l)` and `r100(l)`: the 30-character reading for a line
/// of that bucket when it is shorter than 25 characters; else the
/// 50-character reading for a line of the 30- or 50-character bucket when
/// it is shorter than 45 characters; else the 100-character reading.
pub open spec fn chosen_reading(
    r30: spec_fn(LineCandidate) -> String,
    r50: spec_fn(LineCandidate) -> String,
    r100: spec_fn(LineCandidate) -> String,
    l: LineCandidate,
) -> String {
    if l.bucket == PredCharBucket::Chars30 && r30(l)@.len() < ESCALATE_FROM_30 {
        r30(l)
    } else if (l.bucket == PredCharBucket::Chars30 || l.bucket == PredCharBucket::Chars50) && r50(
        l,
    )@.len() < ESCALATE_FROM_50 {
        r50(l)
    } else {
        r100(l)
    }
}

proof fn lemma_in_bucket_keeps(lines: Seq<LineCandidate>, b: PredCharBucket, p: spec_fn(LineCandidate) -> bool)
    requires
        forall|i: int| 0 <= i < lines.len() ==> #[trigger] p(lines[i]),
    ensures
        forall|i: int|
            0 <= i < in_bucket(lines, b).len() ==> #[trigger] p(in_bucket(lines, b)[i]) && in_bucket(
                lines,
                b,
            )[i].bucket == b,
    decreases lines.len(),
{
    if lines.len() > 0 {
        let t = lines.drop_last();
        assert forall|i: int| 0 <= i < t.len() implies #[trigger] p(t[i]) by {
            assert(t[i] == lines[i]);
        }
        lemma_in_bucket_keeps(t, b, p);
        assert(p(lines[lines.len() - 1]));
    }
}

proof fn lemma_escalated_keeps(
    ls: Seq<LineCandidate>,
    texts: Seq<String>,
    limit: int,
    r: spec_fn(LineCandidate) -> String,
    p: spec_fn(LineCandidate) -> bool,
)
    requires
        texts.len() >= ls.len(),
        forall|i: int| #![trigger ls[i]] 0 <= i < ls.len() ==> p(ls[i]) && texts[i] == r(ls[i]),
    ensures
        forall|i: int|
            0 <= i < escalated(ls, texts, limit).len() ==> #[trigger] p(escalated(ls, texts, limit)[i]) && r(
                escalated(ls, texts, limit)[i],
            )@.len() >= limit,
    decreases ls.len(),
{
    if ls.len() > 0 {
        let t = ls.drop_last();
        assert forall|i: int| #![trigger t[i]] 0 <= i < t.len() implies p(t[i]) && texts[i] == r(t[i]) by {
            assert(t[i] == ls[i]);
            assert(p(ls[i]));
        }
        lemma_escalated_keeps(t, texts, limit, r, p);
        let n = ls.len() - 1;
        assert(p(ls[n]) && texts[n] == r(ls[n]));
        let prev = escalated(t, texts, limit);
        let e = escalated(ls, texts, limit);
        if texts[n]@.len() >= limit {
            assert(e == prev.push(ls[n]));
            assert forall|i: int| 0 <= i < e.len() implies #[trigger] p(e[i]) && r(e[i])@.len() >= limit by {
                if i < prev.len() {
                    assert(e[i] == prev[i]);
                    assert(p(prev[i]));
                }
            }
        } else {
            assert(e == prev);
        }
    }
}

proof fn lemma_kept_keeps(
    ls: Seq<LineCandidate>,
    texts: Seq<String>,
    limit: int,
    r: spec_fn(LineCandidate) -> String,
    p: spec_fn(LineCandidate) -> bool,
    q: spec_fn((usize, String)) -> bool,
)
    requires
        texts.len() >= ls.len(),
        forall|i: int| #![trigger ls[i]] 0 <= i < ls.len() ==> p(ls[i]) && texts[i] == r(ls[i]),
        forall|l: LineCandidate| #[trigger] p(l) && r(l)@.len() < limit ==> q((l.idx, r(l))),
    ensures
        forall|i: int| 0 <= i < kept(ls, texts, limit).len() ==> #[trigger] q(kept(ls, texts, limit)[i]),
    decreases ls.len(),
{
    if ls.len() > 0 {
        let t = ls.drop_last();
        assert forall|i: int| #![trigger t[i]] 0 <= i < t.len() implies p(t[i]) && texts[i] == r(t[i]) by {
            assert(t[i] == ls[i]);
            assert(p(ls[i]));
        }
        lemma_kept_keeps(t, texts, limit, r, p, q);
        let n = ls.len() - 1;
        assert(p(ls[n]) && texts[n] == r(ls[n]));
        let prev = kept(t, texts, limit);
        let k = kept(ls, texts, limit);
        if texts[n]@.len() < limit {
            assert(q((ls[n].idx, r(ls[n]))));
            assert(k == prev.push((ls[n].idx, texts[n])));
            assert forall|i: int| 0 <= i < k.len() implies #[trigger] q(k[i]) by {
                if i < prev.len() {
                    assert(k[i] == prev[i]);
                    assert(q(prev[i]));
                }
            }
        } else {
            assert(k == prev);
        }
    }
}

proof fn lemma_concat_keeps(a: Seq<LineCandidate>, b: Seq<LineCandidate>, p: spec_fn(LineCandidate) -> bool)
    requires
        forall|i: int| 0 <= i < a.len() ==> #[trigger] p(a[i]),
        forall|i: int| 0 <= i < b.len() ==> #[trigger] p(b[i]),
    ensures
        forall|i: int| 0 <= i < (a + b).len() ==> #[trigger] p((a + b)[i]),
{
    assert forall|i: int| 0 <= i < (a + b).len() implies #[trigger] p((a + b)[i]) by {
        if i < a.len() {
            assert((a + b)[i] == a[i]);
        } else {
            assert((a + b)[i] == b[i - a.len()]);
        }
    }
}

/// Which reading each line gets, for lines at any distinct positions: when
/// the models read line `l` as `r30(l)`, `r50(l)` and `r100(l)`, the
/// cascade gives one reading per line, in increasing order of position,
/// and each is the position of a line with that line's
/// [`chosen_reading`].
pub proof fn lemma_cascade_reading_of_distinct_lines(
    lines: Seq<LineCandidate>,
    r30: spec_fn(LineCandidate) -> String,
    r50: spec_fn(LineCandidate) -> String,
    r100: spec_fn(LineCandidate) -> String,
)
    requires
        forall|i: int, j: int|
            0 <= i < j < lines.len() ==> (#[trigger] lines[i]).idx != (#[trigger] lines[j]).idx,
    ensures
        ({
            let t30 = reads_30(lines).map_values(r30);
            let t50 = reads_50(lines, t30).map_values(r50);
            let t100 = reads_100(lines, t30, t50).map_values(r100);
            let res = cascade_result(lines, t30, t50, t100);
            &&& res.len() == lines.len()
            &&& forall|i: int, j: int| 0 <= i < j < res.len() ==> (#[trigger] res[i]).0 < (#[trigger] res[j]).0
            &&& forall|k: int|
                0 <= k < res.len() ==> exists|j: int|
                    0 <= j < lines.len() && (#[trigger] lines[j]).idx == (#[trigger] res[k]).0
                        && res[k].1 == chosen_reading(r30, r50, r100, lines[j])
            &&& forall|j: int|
                0 <= j < lines.len() ==> exists|k: int|
                    0 <= k < res.len() && (#[trigger] res[k]).0 == (#[trigger] lines[j]).idx
        }),
{
    broadcast use vstd::seq_lib::group_to_multiset_ensures;

    let n = lines.len();
    let t30 = reads_30(lines).map_values(r30);
    let t50 = reads_50(lines, t30).map_values(r50);
    let t100 = reads_100(lines, t30, t50).map_values(r100);
    let inl = |l: LineCandidate| exists|j: int| 0 <= j < n && #[trigger] lines[j] == l;
    let p30 = |l: LineCandidate| inl(l) && l.bucket == PredCharBucket::Chars30;
    let p50 = |l: LineCandidate|
        inl(l) && (l.bucket == PredCharBucket::Chars50 || (l.bucket == PredCharBucket::Chars30 && r30(
            l,
        )@.len() >= ESCALATE_FROM_30));
    let p100 = |l: LineCandidate|
        inl(l) && (l.bucket == PredCharBucket::Chars100 || (p50(l) && r50(l)@.len()
            >= ESCALATE_FROM_50));
    let q = |e: (usize, String)|
        exists|j: int|
            0 <= j < n && (#[trigger] lines[j]).idx == e.0 && e.1 == chosen_reading(
                r30,
                r50,
                r100,
                lines[j],
            );
    assert forall|i: int| 0 <= i < n implies #[trigger] inl(lines[i]) by {
        assert(lines[i] == lines[i]);
    }
    // Lines each model reads.
    lemma_in_bucket_keeps(lines, PredCharBucket::Chars30, inl);
    let b30 = in_bucket(lines, PredCharBucket::Chars30);
    assert forall|i: int| 0 <= i < b30.len() implies #[trigger] p30(b30[i]) by {}
    lemma_in_bucket_keeps(lines, PredCharBucket::Chars50, inl);
    let b50 = in_bucket(lines, PredCharBucket::Chars50);
    assert forall|i: int| 0 <= i < b50.len() implies #[trigger] p50(b50[i]) by {}
    assert forall|i: int| 0 <= i < b30.len() implies #[trigger] p30(b30[i]) && t30[i] == r30(b30[i]) by {}
    lemma_escalated_keeps(b30, t30, ESCALATE_FROM_30 as int, r30, p30);
    let e30 = escalated(b30, t30, ESCALATE_FROM_30 as int);
    assert forall|i: int| 0 <= i < e30.len() implies #[trigger] p50(e30[i]) by {
        assert(p30(e30[i]));
    }
    lemma_concat_keeps(b50, e30, p50);
    let rd50 = reads_50(lines, t30);
    assert(rd50 == b50 + e30);
    lemma_in_bucket_keeps(lines, PredCharBucket::Chars100, inl);
    let b100 = in_bucket(lines, PredCharBucket::Chars100);
    assert forall|i: int| 0 <= i < b100.len() implies #[trigger] p100(b100[i]) by {}
    assert forall|i: int| 0 <= i < rd50.len() implies #[trigger] p50(rd50[i]) && t50[i] == r50(rd50[i]) by {}
    lemma_escalated_keeps(rd50, t50, ESCALATE_FROM_50 as int, r50, p50);
    let e50 = escalated(rd50, t50, ESCALATE_FROM_50 as int);
    assert forall|i: int| 0 <= i < e50.len() implies #[trigger] p100(e50[i]) by {
        assert(p50(e50[i]));
    }
    lemma_concat_keeps(b100, e50, p100);
    let rd100 = reads_100(lines, t30, t50);
    assert(rd100 == b100 + e50);
    // Every reading is the chosen one of its line.
    assert forall|l: LineCandidate| #[trigger] p30(l) && r30(l)@.len() < ESCALATE_FROM_30 implies q(
        (l.idx, r30(l)),
    ) by {
        let j = choose|j: int| 0 <= j < n && #[trigger] lines[j] == l;
        assert(lines[j].idx == l.idx);
    }
    lemma_kept_keeps(b30, t30, ESCALATE_FROM_30 as int, r30, p30, q);
    assert forall|l: LineCandidate| #[trigger] p50(l) && r50(l)@.len() < ESCALATE_FROM_50 implies q(
        (l.idx, r50(l)),
    ) by {
        let j = choose|j: int| 0 <= j < n && #[trigger] lines[j] == l;
        assert(lines[j].idx == l.idx);
    }
    lemma_kept_keeps(rd50, t50, ESCALATE_FROM_50 as int, r50, p50, q);
    let k30 = kept(b30, t30, ESCALATE_FROM_30 as int);
    let k50 = kept(rd50, t50, ESCALATE_FROM_50 as int);
    let w100 = with_texts(rd100, t100);
    assert forall|i: int| 0 <= i < w100.len() implies #[trigger] q(w100[i]) by {
        let l = rd100[i];
        assert(p100(l));
        let j = choose|j: int| 0 <= j < n && #[trigger] lines[j] == l;
        assert(lines[j].idx == w100[i].0);
    }
    let all = k30 + k50 + w100;
    assert forall|i: int| 0 <= i < all.len() implies #[trigger] q(all[i]) by {
        if i < k30.len() {
            assert(all[i] == k30[i]);
        } else if i < k30.len() + k50.len() {
            assert(all[i] == k50[i - k30.len()]);
        } else {
            assert(all[i] == w100[i - k30.len() - k50.len()]);
        }
    }
    assert(all == unsorted_all(lines, t30, t50, t100));
    let res = cascade_result(lines, t30, t50, t100);
    assert(res == stable_sort(all, by_idx()));
    crate::sorting::lemma_stable_sort_permutation(all, by_idx());
    assert forall|k: int| 0 <= k < res.len() implies #[trigger] q(res[k]) by {
        assert(res.to_multiset().count(res[k]) > 0);
        assert(all.to_multiset().count(res[k]) > 0);
        assert(all.contains(res[k]));
        let i = choose|i: int| 0 <= i < all.len() && all[i] == res[k];
        assert(q(all[i]));
    }
    // One reading per line, in increasing order of position.
    lemma_cascade_reads_each_line_once(lines, t30, t50, t100);
    let a = res.map_values(reading_position());
    let b = lines.map_values(|l: LineCandidate| l.idx);
    assert(a.to_multiset() =~= b.to_multiset());
    assert(res.len() == n) by {
        assert(a.to_multiset().len() == a.len());
        assert(b.to_multiset().len() == b.len());
    }
    assert(b.no_duplicates()) by {
        assert forall|i: int, j: int| 0 <= i < b.len() && 0 <= j < b.len() && i != j implies b[i]
            != b[j] by {
            if i < j {
                assert(lines[i].idx != lines[j].idx);
            } else {
                assert(lines[j].idx != lines[i].idx);
            }
        }
    }
    b.lemma_multiset_has_no_duplicates();
    assert forall|i: int, j: int| 0 <= i < j < res.len() implies (#[trigger] res[i]).0 < (
    #[trigger] res[j]).0 by {
        assert(by_idx()(res[i], res[j]));
        if res[i].0 == res[j].0 {
            assert(a[i] == a[j]);
            crate::pipeline::connect::lemma_count_two(a, i, j);
            assert(a.to_multiset().count(a[i]) >= 2);
            assert(b.to_multiset().contains(a[i]));
        }
    }
    assert forall|k: int| 0 <= k < res.len() implies exists|j: int|
        0 <= j < lines.len() && (#[trigger] lines[j]).idx == (#[trigger] res[k]).0 && res[k].1
            == chosen_reading(r30, r50, r100, lines[j]) by {
        assert(q(res[k]));
    }
    assert forall|j: int| 0 <= j < lines.len() implies exists|k: int|
        0 <= k < res.len() && (#[trigger] res[k]).0 == (#[trigger] lines[j]).idx by {
        assert(b[j] == lines[j].idx);
        assert(b.to_multiset().count(b[j]) > 0);
        assert(a.contains(b[j]));
        let k = choose|k: int| 0 <= k < a.len() && a[k] == b[j];
        assert(res[k].0 == a[k]);
    }
}

/// Which reading each line gets: when the models read line `l` as
/// `r30(l)`, `r50(l)` and `r100(l)`, the cascade over lines at positions
/// `0..n` gives each line, in order, its position with its
/// [`chosen_reading`].
#[verifier::rlimit(50)]
pub proof fn lemma_cascade_reading_of_each_line(
    lines: Seq<LineCandidate>,
    r30: spec_fn(LineCandidate) -> String,
    r50: spec_fn(LineCandidate) -> String,
    r100: spec_fn(LineCandidate) -> String,
)
    requires
        lines.len() <= usize::MAX,
        forall|k: int| 0 <= k < lines.len() ==> (#[trigger] lines[k]).idx == k,
    ensures
        ({
            let t30 = reads_30(lines).map_values(r30);
            let t50 = reads_50(lines, t30).map_values(r50);
            let t100 = reads_100(lines, t30, t50).map_values(r100);
            cascade_result(lines, t30, t50, t100) == lines.map_values(
                |l: LineCandidate| (l.idx, chosen_reading(r30, r50, r100, l)),
            )
        }),
{
    let n = lines.len();
    assert forall|i: int, j: int| 0 <= i < j < n implies (#[trigger] lines[i]).idx != (
    #[trigger] lines[j]).idx by {}
    lemma_cascade_reading_of_distinct_lines(lines, r30, r50, r100);
    let t30 = reads_30(lines).map_values(r30);
    let t50 = reads_50(lines, t30).map_values(r50);
    let t100 = reads_100(lines, t30, t50).map_values(r100);
    let res = cascade_result(lines, t30, t50, t100);
    let idxs = res.map_values(|e: (usize, String)| e.0);
    assert forall|i: int, j: int| 0 <= i < j < n implies #[trigger] idxs[i] < #[trigger] idxs[j] by {
        assert(res[i].0 < res[j].0);
    }
    assert forall|k: int| 0 <= k < n implies #[trigger] idxs[k] < n by {
        let j = choose|j: int|
            0 <= j < lines.len() && (#[trigger] lines[j]).idx == (#[trigger] res[k]).0 && res[k].1
                == chosen_reading(r30, r50, r100, lines[j]);
        assert(lines[j].idx == j);
    }
    crate::pipeline::connect::lemma_increasing_is_identity(idxs, n);
    let target = lines.map_values(|l: LineCandidate| (l.idx, chosen_reading(r30, r50, r100, l)));
    assert forall|k: int| 0 <= k < n implies #[trigger] res[k] == target[k] by {
        assert(idxs[k] == res[k].0);
        let j = choose|j: int|
            0 <= j < lines.len() && (#[trigger] lines[j]).idx == (#[trigger] res[k]).0 && res[k].1
                == chosen_reading(r30, r50, r100, lines[j]);
        assert(lines[j].idx == j);
        assert(lines[k].idx == k);
    }
    assert(res =~= target);
}


// ---------------------------------------------------------------------------
// Assembling the readings of the batches
// ---------------------------------------------------------------------------

/// The position of the last entry of `idxs` that is line `i`, if any.
pub open spec fn last_position(idxs: Seq<usize>, i: int) -> Option<int>
    decreases idxs.len(),
{
    if idxs.len() == 0 {
        None
    } else if idxs.last() == i {
        Some(idxs.len() - 1)
    } else {
        last_position(idxs.drop_last(), i)
    }
}

proof fn lemma_last_position_bound(idxs: Seq<usize>, i: int)
    ensures
        last_position(idxs, i) matches Some(p) ==> 0 <= p < idxs.len() && idxs[p] == i,
    decreases idxs.len(),
{
    if idxs.len() > 0 && idxs.last() != i {
        lemma_last_position_bound(idxs.drop_last(), i);
    }
}

/// Where the reading each of lines `0..n` keeps stands, when the readings
/// of several batches, put one after the other, name their lines by
/// `idxs`: a later reading of a line replaces an earlier one, so each line
/// keeps its last (see [`last_position`]). When a line has no reading, the
/// first such line is the error.
pub fn last_positions(n: usize, idxs: &Vec<usize>) -> (res: Result<Vec<usize>, usize>)
    requires
        forall|k: int| 0 <= k < idxs@.len() ==> #[trigger] idxs@[k] < n,
    ensures
        res is Ok <==> forall|i: int| 0 <= i < n ==> #[trigger] last_position(idxs@, i) is Some,
        res matches Ok(v) ==> v@.len() == n && forall|i: int|
            0 <= i < n ==> last_position(idxs@, i) == Some(#[trigger] v@[i] as int),
        res matches Err(i) ==> i < n && last_position(idxs@, i as int) is None && forall|j: int|
            0 <= j < i ==> #[trigger] last_position(idxs@, j) is Some,
{
    let mut pos: Vec<Option<usize>> = Vec::new();
    let mut j: usize = 0;
    while j < n
        invariant
            j <= n,
            pos@.len() == j,
            forall|i: int| 0 <= i < j ==> #[trigger] pos@[i] is None,
        decreases n - j,
    {
        pos.push(None);
        j = j + 1;
    }
    let mut k: usize = 0;
    proof {
        assert(idxs@.take(0) =~= Seq::<usize>::empty());
    }
    while k < idxs.len()
        invariant
            k <= idxs@.len(),
            pos@.len() == n,
            forall|m: int| 0 <= m < idxs@.len() ==> #[trigger] idxs@[m] < n,
            forall|i: int|
                0 <= i < n ==> match #[trigger] pos@[i] {
                    Some(p) => last_position(idxs@.take(k as int), i) == Some(p as int),
                    None => last_position(idxs@.take(k as int), i) is None,
                },
        decreases idxs.len() - k,
    {
        let line = idxs[k];
        proof {
            assert(idxs@.take(k + 1).drop_last() =~= idxs@.take(k as int));
            assert(idxs@.take(k + 1).last() == line);
        }
        pos.set(line, Some(k));
        k = k + 1;
    }
    proof {
        assert(idxs@.take(idxs@.len() as int) =~= idxs@);
    }
    let mut out: Vec<usize> = Vec::new();
    let mut i: usize = 0;
    while i < n
        invariant
            i <= n,
            pos@.len() == n,
            out@.len() == i,
            forall|m: int|
                0 <= m < n ==> match #[trigger] pos@[m] {
                    Some(p) => last_position(idxs@, m) == Some(p as int),
                    None => last_position(idxs@, m) is None,
                },
            forall|m: int| 0 <= m < i ==> last_position(idxs@, m) == Some(#[trigger] out@[m] as int),
        decreases n - i,
    {
        match pos[i] {
            Some(p) => {
                out.push(p);
            },
            None => {
                proof {
                    assert(last_position(idxs@, i as int) is None);
                }
                proof {
                    assert forall|j: int| 0 <= j < i implies #[trigger] last_position(idxs@, j) is Some by {
                        assert(last_position(idxs@, j) == Some(out@[j] as int));
                    }
                }
                return Err(i);
            },
        }
        i = i + 1;
    }
    proof {
        assert forall|m: int| 0 <= m < n implies #[trigger] last_position(idxs@, m) is Some by {
            assert(last_position(idxs@, m) == Some(out@[m] as int));
        }
    }
    Ok(out)
}


/// The line numbers of `ls`, in order.
pub open spec fn line_ids(ls: Seq<LineCandidate>) -> Seq<usize> {
    ls.map_values(|l: LineCandidate| l.idx)
}

/// Line `i` is among `ls`.
pub open spec fn has_line(ls: Seq<LineCandidate>, i: int) -> bool {
    exists|k: int| 0 <= k < ls.len() && (#[trigger] ls[k]).idx == i
}

/// Every line of `s` is the line of `lines` at its position.
pub open spec fn from_lines(lines: Seq<LineCandidate>, s: Seq<LineCandidate>) -> bool {
    forall|k: int| 0 <= k < s.len() ==> (#[trigger] s[k]).idx < lines.len() && lines[s[k].idx as int] == s[k]
}

proof fn lemma_last_position_concat(a: Seq<usize>, b: Seq<usize>, i: int)
    ensures
        last_position(a + b, i) == match last_position(b, i) {
            Some(p) => Some(a.len() + p),
            None => last_position(a, i),
        },
    decreases b.len(),
{
    if b.len() == 0 {
        assert(a + b =~= a);
    } else {
        assert((a + b).drop_last() =~= a + b.drop_last());
        assert((a + b).last() == b.last());
        lemma_last_position_concat(a, b.drop_last(), i);
    }
}

proof fn lemma_last_position_in_lines(s: Seq<LineCandidate>, i: int)
    ensures
        has_line(s, i) ==> (last_position(line_ids(s), i) matches Some(p) && 0 <= p < s.len()
            && s[p].idx == i),
        !has_line(s, i) ==> last_position(line_ids(s), i) is None,
    decreases s.len(),
{
    if s.len() > 0 {
        let t = s.drop_last();
        assert(line_ids(s).drop_last() =~= line_ids(t));
        lemma_last_position_in_lines(t, i);
        if s.last().idx != i {
            if has_line(s, i) {
                let k = choose|k: int| 0 <= k < s.len() && (#[trigger] s[k]).idx == i;
                assert(t[k].idx == i);
            }
            if has_line(t, i) {
                let k = choose|k: int| 0 <= k < t.len() && (#[trigger] t[k]).idx == i;
                assert(s[k].idx == i);
            }
        } else {
            assert(s[s.len() - 1].idx == i);
        }
    }
}

/// Appending a batch of readings: a line in the batch keeps its reading
/// from it; any other line keeps what it had.
proof fn lemma_append_batch(
    lines: Seq<LineCandidate>,
    ids: Seq<usize>,
    texts: Seq<String>,
    s: Seq<LineCandidate>,
    r: spec_fn(LineCandidate) -> String,
    i: int,
)
    requires
        ids.len() == texts.len(),
        from_lines(lines, s),
    ensures
        (ids + line_ids(s)).len() == (texts + s.map_values(r)).len(),
        has_line(s, i) ==> (last_position(ids + line_ids(s), i) matches Some(p) && (texts
            + s.map_values(r))[p] == r(lines[i])),
        !has_line(s, i) ==> last_position(ids + line_ids(s), i) == last_position(ids, i) && (
        last_position(ids, i) matches Some(p) ==> (texts + s.map_values(r))[p] == texts[p]),
{
    lemma_last_position_concat(ids, line_ids(s), i);
    lemma_last_position_in_lines(s, i);
    lemma_last_position_bound(ids, i);
    if has_line(s, i) {
        let q = last_position(line_ids(s), i)->0;
        assert(s[q] == lines[s[q].idx as int]);
        assert((texts + s.map_values(r))[texts.len() + q] == s.map_values(r)[q]);
    }
}

proof fn lemma_in_bucket_from_lines(lines: Seq<LineCandidate>, b: PredCharBucket, i: int)
    requires
        forall|k: int| 0 <= k < lines.len() ==> (#[trigger] lines[k]).idx == k,
        0 <= i < lines.len(),
    ensures
        from_lines(lines, in_bucket(lines, b)),
        has_line(in_bucket(lines, b), i) <==> lines[i].bucket == b,
{
    let p = |l: LineCandidate| l.idx < lines.len() && lines[l.idx as int] == l;
    assert forall|k: int| 0 <= k < lines.len() implies #[trigger] p(lines[k]) by {}
    lemma_in_bucket_keeps(lines, b, p);
    let s = in_bucket(lines, b);
    assert forall|k: int| 0 <= k < s.len() implies (#[trigger] s[k]).idx < lines.len() && lines[s[k].idx as int] == s[k] by {
        assert(p(s[k]));
    }
    if has_line(s, i) {
        let k = choose|k: int| 0 <= k < s.len() && (#[trigger] s[k]).idx == i;
        assert(p(s[k]));
    }
    if lines[i].bucket == b {
        lemma_in_bucket_has(lines, b, i);
        let j = choose|j: int| 0 <= j < s.len() && s[j] == lines[i];
        assert(s[j].idx == i);
    }
}

proof fn lemma_in_bucket_has(lines: Seq<LineCandidate>, b: PredCharBucket, k: int)
    requires
        0 <= k < lines.len(),
        lines[k].bucket == b,
    ensures
        exists|j: int| 0 <= j < in_bucket(lines, b).len() && in_bucket(lines, b)[j] == lines[k],
    decreases lines.len(),
{
    let t = lines.drop_last();
    let prev = in_bucket(t, b);
    if k == lines.len() - 1 {
        assert(in_bucket(lines, b)[prev.len() as int] == lines[k]);
    } else {
        lemma_in_bucket_has(t, b, k);
        let j = choose|j: int| 0 <= j < prev.len() && prev[j] == t[k];
        if lines.last().bucket == b {
            assert(in_bucket(lines, b)[j] == lines[k]);
        } else {
            assert(in_bucket(lines, b)[j] == lines[k]);
        }
    }
}

proof fn lemma_escalated_from_lines(
    lines: Seq<LineCandidate>,
    s: Seq<LineCandidate>,
    r: spec_fn(LineCandidate) -> String,
    limit: int,
    i: int,
)
    requires
        from_lines(lines, s),
    ensures
        from_lines(lines, escalated_by_count(s, char_counts(s.map_values(r)), limit)),
        has_line(escalated_by_count(s, char_counts(s.map_values(r)), limit), i) <==> has_line(s, i)
            && 0 <= i < lines.len() && r(lines[i])@.len() >= limit,
{
    lemma_escalated_count_from_lines(lines, s, char_counts(s.map_values(r)), r, limit, i);
}

proof fn lemma_escalated_count_from_lines(
    lines: Seq<LineCandidate>,
    s: Seq<LineCandidate>,
    counts: Seq<int>,
    r: spec_fn(LineCandidate) -> String,
    limit: int,
    i: int,
)
    requires
        from_lines(lines, s),
        counts.len() >= s.len(),
        forall|k: int| 0 <= k < s.len() ==> #[trigger] counts[k] == r(s[k])@.len(),
    ensures
        from_lines(lines, escalated_by_count(s, counts, limit)),
        has_line(escalated_by_count(s, counts, limit), i) <==> has_line(s, i) && 0 <= i < lines.len()
            && r(lines[i])@.len() >= limit,
    decreases s.len(),
{
    if s.len() > 0 {
        let t = s.drop_last();
        let n = s.len() - 1;
        assert forall|k: int| 0 <= k < t.len() implies (#[trigger] t[k]).idx < lines.len()
            && lines[t[k].idx as int] == t[k] by {
            assert(t[k] == s[k]);
        }
        assert forall|k: int| 0 <= k < t.len() implies #[trigger] counts[k] == r(t[k])@.len() by {
            assert(t[k] == s[k]);
            assert(counts[k] == r(s[k])@.len());
        }
        lemma_escalated_count_from_lines(lines, t, counts, r, limit, i);
        let prev = escalated_by_count(t, counts, limit);
        let e = escalated_by_count(s, counts, limit);
        assert(counts[n] == r(s[n])@.len());
        assert(s[n].idx < lines.len() && lines[s[n].idx as int] == s[n]);
        if counts[n] >= limit {
            assert(e == prev.push(s[n]));
            assert forall|k: int| 0 <= k < e.len() implies (#[trigger] e[k]).idx < lines.len()
                && lines[e[k].idx as int] == e[k] by {
                if k < prev.len() {
                    assert(e[k] == prev[k]);
                }
            }
        } else {
            assert(e == prev);
        }
        if has_line(s, i) && !has_line(t, i) {
            let k = choose|k: int| 0 <= k < s.len() && (#[trigger] s[k]).idx == i;
            if k < n {
                assert(t[k].idx == i);
            }
            assert(s[n].idx == i);
        }
        if has_line(t, i) {
            let k = choose|k: int| 0 <= k < t.len() && (#[trigger] t[k]).idx == i;
            assert(s[k].idx == i);
        }
        if has_line(e, i) {
            let k = choose|k: int| 0 <= k < e.len() && (#[trigger] e[k]).idx == i;
            if k < prev.len() {
                assert(prev[k].idx == i);
            } else {
                assert(e[k] == s[n]);
                assert(s[n].idx == i);
            }
        }
        if counts[n] >= limit && s[n].idx == i {
            assert(e[prev.len() as int] == s[n]);
        }
        if has_line(prev, i) && counts[n] >= limit {
            let k = choose|k: int| 0 <= k < prev.len() && (#[trigger] prev[k]).idx == i;
            assert(e[k] == prev[k]);
        }
    } else {
        if has_line(s, i) {
            let k = choose|k: int| 0 <= k < s.len() && (#[trigger] s[k]).idx == i;
        }
    }
}

/// The lines the batches of a cascade run read, in the order their
/// readings are put one after the other: the three models' batches of
/// their own buckets, then the 50-character model's rereading of the
/// 30-character lines that reached 25 characters, the 100-character
/// model's rereading of the 50-character lines that reached 45, and its
/// rereading of the lines whose second reading reached 45. The models read
/// line `l` as `r30(l)` and `r50(l)`.
pub open spec fn batched_lines(
    lines: Seq<LineCandidate>,
    r30: spec_fn(LineCandidate) -> String,
    r50: spec_fn(LineCandidate) -> String,
) -> Seq<Seq<LineCandidate>> {
    let p30 = in_bucket(lines, PredCharBucket::Chars30);
    let p50 = in_bucket(lines, PredCharBucket::Chars50);
    let p100 = in_bucket(lines, PredCharBucket::Chars100);
    let redo50 = escalated_by_count(p30, char_counts(p30.map_values(r30)), ESCALATE_FROM_30 as int);
    let redo100 = escalated_by_count(p50, char_counts(p50.map_values(r50)), ESCALATE_FROM_50 as int);
    let last100 = escalated_by_count(redo50, char_counts(redo50.map_values(r50)), ESCALATE_FROM_50 as int);
    seq![p30, p50, p100, redo50, redo100, last100]
}

/// The line numbers of the batches' readings, one batch after the other.
pub open spec fn batched_ids(
    lines: Seq<LineCandidate>,
    r30: spec_fn(LineCandidate) -> String,
    r50: spec_fn(LineCandidate) -> String,
) -> Seq<usize> {
    let b = batched_lines(lines, r30, r50);
    line_ids(b[0]) + line_ids(b[1]) + line_ids(b[2]) + line_ids(b[3]) + line_ids(b[4]) + line_ids(b[5])
}

/// The texts of the batches' readings, one batch after the other: each
/// batch read by its model.
pub open spec fn batched_texts(
    lines: Seq<LineCandidate>,
    r30: spec_fn(LineCandidate) -> String,
    r50: spec_fn(LineCandidate) -> String,
    r100: spec_fn(LineCandidate) -> String,
) -> Seq<String> {
    let b = batched_lines(lines, r30, r50);
    b[0].map_values(r30) + b[1].map_values(r50) + b[2].map_values(r100) + b[3].map_values(r50)
        + b[4].map_values(r100) + b[5].map_values(r100)
}

proof fn lemma_batched_reading_of_line(
    lines: Seq<LineCandidate>,
    r30: spec_fn(LineCandidate) -> String,
    r50: spec_fn(LineCandidate) -> String,
    r100: spec_fn(LineCandidate) -> String,
    i: int,
)
    requires
        forall|k: int| 0 <= k < lines.len() ==> (#[trigger] lines[k]).idx == k,
        0 <= i < lines.len(),
    ensures
        last_position(batched_ids(lines, r30, r50), i) is Some,
        batched_texts(lines, r30, r50, r100)[last_position(batched_ids(lines, r30, r50), i)->0]
            == chosen_reading(r30, r50, r100, lines[i]),
{
    let p30 = in_bucket(lines, PredCharBucket::Chars30);
    let p50 = in_bucket(lines, PredCharBucket::Chars50);
    let p100 = in_bucket(lines, PredCharBucket::Chars100);
    let redo50 = escalated_by_count(p30, char_counts(p30.map_values(r30)), ESCALATE_FROM_30 as int);
    let redo100 = escalated_by_count(p50, char_counts(p50.map_values(r50)), ESCALATE_FROM_50 as int);
    let last100 = escalated_by_count(redo50, char_counts(redo50.map_values(r50)), ESCALATE_FROM_50 as int);
    let i0 = Seq::<usize>::empty();
    let x0 = Seq::<String>::empty();
    let i1 = i0 + line_ids(p30);
    let x1 = x0 + p30.map_values(r30);
    let i2 = i1 + line_ids(p50);
    let x2 = x1 + p50.map_values(r50);
    let i3 = i2 + line_ids(p100);
    let x3 = x2 + p100.map_values(r100);
    let i4 = i3 + line_ids(redo50);
    let x4 = x3 + redo50.map_values(r50);
    let i5 = i4 + line_ids(redo100);
    let x5 = x4 + redo100.map_values(r100);
    let i6 = i5 + line_ids(last100);
    let x6 = x5 + last100.map_values(r100);
    assert(i0 + line_ids(p30) =~= line_ids(p30));
    assert(x0 + p30.map_values(r30) =~= p30.map_values(r30));
    {
        lemma_in_bucket_from_lines(lines, PredCharBucket::Chars30, i);
        lemma_in_bucket_from_lines(lines, PredCharBucket::Chars50, i);
        lemma_in_bucket_from_lines(lines, PredCharBucket::Chars100, i);
        lemma_escalated_from_lines(lines, p30, r30, ESCALATE_FROM_30 as int, i);
        lemma_escalated_from_lines(lines, p50, r50, ESCALATE_FROM_50 as int, i);
        lemma_escalated_from_lines(lines, redo50, r50, ESCALATE_FROM_50 as int, i);
        lemma_append_batch(lines, i0, x0, p30, r30, i);
        lemma_append_batch(lines, i1, x1, p50, r50, i);
        lemma_append_batch(lines, i2, x2, p100, r100, i);
        lemma_append_batch(lines, i3, x3, redo50, r50, i);
        lemma_append_batch(lines, i4, x4, redo100, r100, i);
        lemma_append_batch(lines, i5, x5, last100, r100, i);
        assert(last_position(i0, i) is None);
    }
    let b = batched_lines(lines, r30, r50);
    assert(b[0] == p30 && b[1] == p50 && b[2] == p100 && b[3] == redo50 && b[4] == redo100 && b[5] == last100);
    assert(i6 == batched_ids(lines, r30, r50));
    assert(x6 == batched_texts(lines, r30, r50, r100));
}

/// Line `i` keeps its [`chosen_reading`] from the batches (see
/// [`batched_lines`]): a reading of it comes last at some position, and its
/// text there is the chosen one.
pub open spec fn batched_keeps_chosen(
    lines: Seq<LineCandidate>,
    r30: spec_fn(LineCandidate) -> String,
    r50: spec_fn(LineCandidate) -> String,
    r100: spec_fn(LineCandidate) -> String,
    i: int,
) -> bool {
    &&& last_position(batched_ids(lines, r30, r50), i) is Some
    &&& batched_texts(lines, r30, r50, r100)[last_position(batched_ids(lines, r30, r50), i)->0]
        == chosen_reading(r30, r50, r100, lines[i])
}

/// The readings of a cascade run in batches (see [`batched_lines`]), put
/// one after the other and each later reading of a line replacing an
/// earlier one, leave each line with its [`chosen_reading`].
pub proof fn lemma_batched_readings_choose(
    lines: Seq<LineCandidate>,
    r30: spec_fn(LineCandidate) -> String,
    r50: spec_fn(LineCandidate) -> String,
    r100: spec_fn(LineCandidate) -> String,
)
    requires
        forall|k: int| 0 <= k < lines.len() ==> (#[trigger] lines[k]).idx == k,
    ensures
        forall|i: int| 0 <= i < lines.len() ==> #[trigger] batched_keeps_chosen(lines, r30, r50, r100, i),
{
    assert forall|i: int| 0 <= i < lines.len() implies #[trigger] batched_keeps_chosen(lines, r30, r50, r100, i) by {
        lemma_batched_reading_of_line(lines, r30, r50, r100, i);
    }
}

} // verus!

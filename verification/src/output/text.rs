//! Plain text of a page.
use vstd::prelude::*;

use crate::chars::{chars_to_string, extend_chars, str_to_chars};

verus! {

broadcast use vstd::seq_lib::group_seq_properties;

/// `lines` joined with `sep` between consecutive lines.
pub open spec fn join_with(lines: Seq<Seq<char>>, sep: Seq<char>) -> Seq<char>
    decreases lines.len(),
{
    if lines.len() == 0 {
        seq![]
    } else if lines.len() == 1 {
        lines[0]
    } else {
        join_with(lines.drop_last(), sep) + sep + lines.last()
    }
}

/// The views of a slice of strings.
pub open spec fn lines_view(lines: Seq<String>) -> Seq<Seq<char>> {
    lines.map_values(|s: String| s@)
}

/// The text of a page: its lines joined by newlines.
pub fn build_text(lines: &[String]) -> (res: String)
    ensures
        res@ == join_with(lines_view(lines@), seq!['\n']),
{
    let ghost ls = lines_view(lines@);
    let mut out: Vec<char> = Vec::new();
    let mut i: usize = 0;
    while i < lines.len()
        invariant
            i <= lines@.len(),
            ls == lines_view(lines@),
            out@ == join_with(ls.take(i as int), seq!['\n']),
        decreases lines.len() - i,
    {
        proof {
            assert(ls.take(i + 1).drop_last() =~= ls.take(i as int));
            assert(ls.take(i + 1).last() == lines@[i as int]@);
        }
        if i > 0 {
            out.push('\n');
        }
        extend_chars(&mut out, &str_to_chars(lines[i].as_str()));
        proof {
            if i == 0 {
                assert(ls.take(1)[0] == lines@[0]@);
            }
        }
        i = i + 1;
    }
    proof {
        assert(ls.take(lines@.len() as int) =~= ls);
    }
    chars_to_string(&out)
}

/// The pieces of `s` between occurrences of `c`, as `str::split` gives them:
/// one more piece than there are occurrences.
pub open spec fn split_on(s: Seq<char>, c: char) -> Seq<Seq<char>>
    decreases s.len(),
{
    if s.len() == 0 {
        seq![seq![]]
    } else {
        let prev = split_on(s.drop_last(), c);
        if s.last() == c {
            prev.push(seq![])
        } else {
            prev.update(prev.len() - 1, prev.last().push(s.last()))
        }
    }
}

proof fn lemma_split_on_nonempty(s: Seq<char>, c: char)
    ensures
        split_on(s, c).len() >= 1,
    decreases s.len(),
{
    if s.len() > 0 {
        lemma_split_on_nonempty(s.drop_last(), c);
    }
}

proof fn lemma_split_on_extend(x: Seq<char>, b: Seq<char>, c: char)
    requires
        !b.contains(c),
    ensures
        split_on(x + b, c) == split_on(x, c).update(
            split_on(x, c).len() - 1,
            split_on(x, c).last() + b,
        ),
    decreases b.len(),
{
    lemma_split_on_nonempty(x, c);
    if b.len() == 0 {
        assert(x + b =~= x);
        assert(split_on(x, c).last() + b =~= split_on(x, c).last());
        assert(split_on(x, c).update(split_on(x, c).len() - 1, split_on(x, c).last()) =~= split_on(x, c));
    } else {
        let bi = b.drop_last();
        assert(!bi.contains(c)) by {
            if bi.contains(c) {
                let j = choose|j: int| 0 <= j < bi.len() && bi[j] == c;
                assert(b[j] == c);
            }
        }
        lemma_split_on_extend(x, bi, c);
        assert((x + b).drop_last() =~= x + bi);
        assert((x + b).last() == b.last());
        assert(b.last() != c) by {
            assert(b[b.len() - 1] == b.last());
        }
        lemma_split_on_nonempty(x + bi, c);
        let p = split_on(x, c);
        assert((p.last() + bi).push(b.last()) =~= p.last() + b);
        assert(split_on(x + b, c) =~= p.update(p.len() - 1, p.last() + b));
    }
}

/// Splitting the text of lines without newlines at its newlines gives the
/// lines back (for at least one line; no lines give the empty text).
pub proof fn lemma_split_text_gives_lines(lines: Seq<Seq<char>>)
    requires
        lines.len() > 0,
        forall|i: int| 0 <= i < lines.len() ==> !(#[trigger] lines[i]).contains('\n'),
    ensures
        split_on(join_with(lines, seq!['\n']), '\n') == lines,
    decreases lines.len(),
{
    if lines.len() == 1 {
        lemma_split_on_extend(seq![], lines[0], '\n');
        assert(Seq::<char>::empty() + lines[0] =~= lines[0]);
        assert(split_on(Seq::<char>::empty(), '\n') =~= seq![seq![]]);
        assert(seq![Seq::<char>::empty()].update(0, Seq::<char>::empty() + lines[0]) =~= lines);
    } else {
        let init = lines.drop_last();
        assert forall|i: int| 0 <= i < init.len() implies !(#[trigger] init[i]).contains('\n') by {
            assert(init[i] == lines[i]);
        }
        lemma_split_text_gives_lines(init);
        let a = join_with(init, seq!['\n']) + seq!['\n'];
        assert(a.drop_last() =~= join_with(init, seq!['\n']));
        assert(a.last() == '\n');
        assert(split_on(a, '\n') == init.push(seq![]));
        assert(!lines.last().contains('\n')) by {
            assert(lines.last() == lines[lines.len() - 1]);
        }
        lemma_split_on_extend(a, lines.last(), '\n');
        assert(join_with(lines, seq!['\n']) == a + lines.last());
        assert(Seq::<char>::empty() + lines.last() =~= lines.last());
        assert(init.push(seq![]).update(init.len() as int, Seq::<char>::empty() + lines.last()) =~= lines);
    }
}

} // verus!

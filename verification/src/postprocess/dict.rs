//! User dictionary of text replacements applied to each recognised line.
use vstd::prelude::*;

use crate::chars::{
    chars_to_string, contains, replace_all, replace_pairs, replace_pairs_chars, str_to_chars,
};

verus! {

/// Replace every occurrence of `from` by `to`.
#[derive(Debug)]
pub struct Replacement {
    pub from: String,
    pub to: String,
}

impl Clone for Replacement {
    fn clone(&self) -> (res: Self)
        ensures
            res.from@ == self.from@,
            res.to@ == self.to@,
    {
        Replacement { from: self.from.clone(), to: self.to.clone() }
    }
}

/// An ordered list of replacements.
#[derive(Debug)]
pub struct PostprocessDict {
    pub replacements: Vec<Replacement>,
}

impl Clone for PostprocessDict {
    fn clone(&self) -> (res: Self)
        ensures
            res.pairs() == self.pairs(),
    {
        let mut reps: Vec<Replacement> = Vec::new();
        let mut i: usize = 0;
        while i < self.replacements.len()
            invariant
                i <= self.replacements@.len(),
                reps@.len() == i,
                forall|k: int|
                    0 <= k < i ==> (#[trigger] reps@[k]).from@ == self.replacements@[k].from@
                        && reps@[k].to@ == self.replacements@[k].to@,
            decreases self.replacements.len() - i,
        {
            reps.push(self.replacements[i].clone());
            i = i + 1;
        }
        let res = PostprocessDict { replacements: reps };
        proof {
            assert(res.pairs() =~= self.pairs());
        }
        res
    }
}

impl PostprocessDict {
    /// The replacement pairs, in order.
    pub open spec fn pairs(&self) -> Seq<(Seq<char>, Seq<char>)> {
        Seq::new(self.replacements@.len(), |i: int| (self.replacements@[i].from@, self.replacements@[i].to@))
    }

    /// Drops replacements whose `from` is empty, as a loaded dictionary does.
    pub fn retain_non_empty(&mut self)
        ensures
            final(self).pairs() == old(self).pairs().filter(
                |p: (Seq<char>, Seq<char>)| p.0.len() > 0,
            ),
    {
        let ghost pairs0 = self.pairs();
        let mut reps: Vec<Replacement> = Vec::new();
        let mut i: usize = 0;
        proof {
            reveal_with_fuel(Seq::<_>::filter, 1);
            assert(pairs0.take(0) =~= Seq::<(Seq<char>, Seq<char>)>::empty());
        }
        while i < self.replacements.len()
            invariant
                i <= self.replacements.len(),
                pairs0 == self.pairs(),
                Seq::new(reps@.len(), |j: int| (reps@[j].from@, reps@[j].to@)) == pairs0.take(
                    i as int,
                ).filter(|p: (Seq<char>, Seq<char>)| p.0.len() > 0),
            decreases self.replacements.len() - i,
        {
            let ghost before = Seq::new(reps@.len(), |j: int| (reps@[j].from@, reps@[j].to@));
            proof {
                reveal_with_fuel(Seq::<_>::filter, 1);
                assert(pairs0.take(i + 1).drop_last() =~= pairs0.take(i as int));
                assert(pairs0.take(i + 1).last() == (
                    self.replacements@[i as int].from@,
                    self.replacements@[i as int].to@,
                ));
            }
            if !self.replacements[i].from.as_str().is_empty() {
                let r = self.replacements[i].clone();
                reps.push(r);
                proof {
                    assert(Seq::new(reps@.len(), |j: int| (reps@[j].from@, reps@[j].to@))
                        =~= before.push(
                        (self.replacements@[i as int].from@, self.replacements@[i as int].to@),
                    ));
                }
            }
            i = i + 1;
        }
        proof {
            assert(pairs0.take(self.replacements.len() as int) =~= pairs0);
        }
        self.replacements = reps;
        proof {
            assert(self.pairs() =~= pairs0.filter(|p: (Seq<char>, Seq<char>)| p.0.len() > 0));
        }
    }

    /// `text` with every replacement applied in order, each to all of its
    /// non-overlapping occurrences.
    pub fn apply(&self, text: &str) -> (res: String)
        ensures
            res@ == replace_pairs(text@, self.pairs()),
    {
        let mut pairs: Vec<(Vec<char>, Vec<char>)> = Vec::new();
        let mut k: usize = 0;
        while k < self.replacements.len()
            invariant
                k <= self.replacements.len(),
                pairs@.len() == k,
                forall|j: int|
                    0 <= j < k ==> (#[trigger] pairs@[j]).0@ == self.replacements@[j].from@
                        && pairs@[j].1@ == self.replacements@[j].to@,
            decreases self.replacements.len() - k,
        {
            let r = &self.replacements[k];
            pairs.push((str_to_chars(r.from.as_str()), str_to_chars(r.to.as_str())));
            k = k + 1;
        }
        let chars = str_to_chars(text);
        let out = replace_pairs_chars(&chars, &pairs, Ghost(self.pairs()));
        chars_to_string(&out)
    }
}

/// A dictionary without replacements leaves text unchanged.
pub proof fn lemma_empty_dict_is_identity(text: Seq<char>)
    ensures
        replace_pairs(text, seq![]) == text,
{
}

/// A replacement whose non-empty `from` does not occur leaves text
/// unchanged.
pub proof fn lemma_absent_pattern_is_identity(text: Seq<char>, from: Seq<char>, to: Seq<char>)
    requires
        from.len() > 0,
        !contains(text, from),
    ensures
        replace_all(text, from, to) == text,
    decreases text.len(),
{
    crate::chars::lemma_replace_all_absent(text, from, to);
}

} // verus!

//! Domain-specific correction packs: line merges, in-line replacements and
//! optional collapsing of adjacent duplicate lines.
use vstd::prelude::*;

use crate::chars::{
    chars_to_strings, ends_with, ends_with_chars, extend_chars, lemma_chars_deep_view,
    replace_all, replace_all_chars, replace_pairs, replace_pairs_chars, slice_chars, starts_with, starts_with_chars,
    str_to_chars, strings_to_chars, trim_end, trim_end_chars, trim_start, trim_start_chars,
};
use crate::postprocess::page_rules::{
    collapse_duplicate_adjacent_chars, collapse_duplicate_adjacent_lines,
    lemma_collapse_no_adjacent_duplicates,
};

verus! {

broadcast use vstd::seq_lib::group_seq_properties;

/// A set of correction rules for one kind of document.
#[derive(Debug)]
pub struct RulePack {
    pub line_replacements: Vec<LineReplacement>,
    pub merge_rules: Vec<MergeRule>,
    pub collapse_duplicate_adjacent_lines: bool,
}

/// Replace every occurrence of `from` by `to` in each line.
#[derive(Debug)]
pub struct LineReplacement {
    pub from: String,
    pub to: String,
}

/// Merge a line ending with `left_suffix` with a following line starting
/// with `right_prefix`, dropping the first `drop_right_prefix_chars`
/// characters of the right line.
#[derive(Debug)]
pub struct MergeRule {
    pub left_suffix: String,
    pub right_prefix: String,
    pub drop_right_prefix_chars: usize,
}

impl Clone for LineReplacement {
    fn clone(&self) -> (res: Self)
        ensures
            res.from@ == self.from@,
            res.to@ == self.to@,
    {
        LineReplacement { from: self.from.clone(), to: self.to.clone() }
    }
}

impl Clone for MergeRule {
    fn clone(&self) -> (res: Self)
        ensures
            res.left_suffix@ == self.left_suffix@,
            res.right_prefix@ == self.right_prefix@,
            res.drop_right_prefix_chars == self.drop_right_prefix_chars,
    {
        MergeRule {
            left_suffix: self.left_suffix.clone(),
            right_prefix: self.right_prefix.clone(),
            drop_right_prefix_chars: self.drop_right_prefix_chars,
        }
    }
}

/// A merge rule as plain values: left suffix, right prefix, characters
/// dropped from the right line.
pub type MergeRuleView = (Seq<char>, Seq<char>, nat);

impl LineReplacement {
    pub open spec fn view_pair(&self) -> (Seq<char>, Seq<char>) {
        (self.from@, self.to@)
    }
}

impl MergeRule {
    pub open spec fn view_rule(&self) -> MergeRuleView {
        (self.left_suffix@, self.right_prefix@, self.drop_right_prefix_chars as nat)
    }
}

impl RulePack {
    /// The replacement pairs, in order.
    pub open spec fn replacement_pairs(&self) -> Seq<(Seq<char>, Seq<char>)> {
        Seq::new(self.line_replacements@.len(), |i: int| self.line_replacements@[i].view_pair())
    }

    /// The merge rules, in order.
    pub open spec fn merge_rule_views(&self) -> Seq<MergeRuleView> {
        Seq::new(self.merge_rules@.len(), |i: int| self.merge_rules@[i].view_rule())
    }
}

impl Default for RulePack {
    /// A pack without rules that does not collapse lines.
    fn default() -> (res: Self)
        ensures
            res.replacement_pairs().len() == 0,
            res.merge_rule_views().len() == 0,
            !res.collapse_duplicate_adjacent_lines,
    {
        RulePack { line_replacements: Vec::new(), merge_rules: Vec::new(), collapse_duplicate_adjacent_lines: false }
    }
}

impl Clone for RulePack {
    fn clone(&self) -> (res: Self)
        ensures
            res.replacement_pairs() == self.replacement_pairs(),
            res.merge_rule_views() == self.merge_rule_views(),
            res.collapse_duplicate_adjacent_lines == self.collapse_duplicate_adjacent_lines,
    {
        let mut reps: Vec<LineReplacement> = Vec::new();
        let mut i: usize = 0;
        while i < self.line_replacements.len()
            invariant
                i <= self.line_replacements@.len(),
                reps@.len() == i,
                forall|k: int| 0 <= k < i ==> (#[trigger] reps@[k]).view_pair() == self.line_replacements@[k].view_pair(),
            decreases self.line_replacements.len() - i,
        {
            reps.push(self.line_replacements[i].clone());
            i = i + 1;
        }
        let mut rules: Vec<MergeRule> = Vec::new();
        let mut j: usize = 0;
        while j < self.merge_rules.len()
            invariant
                j <= self.merge_rules@.len(),
                rules@.len() == j,
                forall|k: int| 0 <= k < j ==> (#[trigger] rules@[k]).view_rule() == self.merge_rules@[k].view_rule(),
            decreases self.merge_rules.len() - j,
        {
            rules.push(self.merge_rules[j].clone());
            j = j + 1;
        }
        let res = RulePack {
            line_replacements: reps,
            merge_rules: rules,
            collapse_duplicate_adjacent_lines: self.collapse_duplicate_adjacent_lines,
        };
        proof {
            assert(res.replacement_pairs() =~= self.replacement_pairs());
            assert(res.merge_rule_views() =~= self.merge_rule_views());
        }
        res
    }
}

/// Rule `r` joins `left` with `right`.
pub open spec fn rule_matches(r: MergeRuleView, left: Seq<char>, right: Seq<char>) -> bool {
    ends_with(left, r.0) && starts_with(right, r.1)
}

/// The index of the first rule that joins `left` with `right`.
pub open spec fn first_matching_rule(rules: Seq<MergeRuleView>, left: Seq<char>, right: Seq<char>) -> Option<
    int,
>
    decreases rules.len(),
{
    if rules.len() == 0 {
        None
    } else if rule_matches(rules[0], left, right) {
        Some(0)
    } else {
        match first_matching_rule(rules.drop_first(), left, right) {
            Some(k) => Some(k + 1),
            None => None,
        }
    }
}

/// `s` without its first `n` characters (empty when `n` exceeds its length).
pub open spec fn drop_chars(s: Seq<char>, n: nat) -> Seq<char> {
    if n >= s.len() {
        seq![]
    } else {
        s.skip(n as int)
    }
}

/// The merge stage: each line, scanned from the top, is joined with the
/// next one when a rule matches the trimmed end of the first and the
/// trimmed start of the second; a joined line is not joined again.
pub open spec fn apply_merge_rules(rules: Seq<MergeRuleView>, ls: Seq<Seq<char>>) -> Seq<Seq<char>>
    decreases ls.len(),
{
    if ls.len() >= 2 && first_matching_rule(rules, trim_end(ls[0]), trim_start(ls[1])) is Some {
        let k = first_matching_rule(rules, trim_end(ls[0]), trim_start(ls[1])).unwrap();
        seq![trim_end(ls[0]) + drop_chars(trim_start(ls[1]), rules[k].2)] + apply_merge_rules(
            rules,
            ls.skip(2),
        )
    } else if ls.len() >= 1 {
        seq![ls[0]] + apply_merge_rules(rules, ls.skip(1))
    } else {
        seq![]
    }
}

/// The whole pack: merges, then replacements in each line, then (when the
/// pack says so) collapsing of adjacent duplicates.
pub open spec fn apply_rule_pack(
    replacements: Seq<(Seq<char>, Seq<char>)>,
    rules: Seq<MergeRuleView>,
    collapse: bool,
    ls: Seq<Seq<char>>,
) -> Seq<Seq<char>> {
    let merged = apply_merge_rules(rules, ls);
    let replaced = merged.map_values(|l: Seq<char>| replace_pairs(l, replacements));
    if collapse {
        collapse_duplicate_adjacent_lines(replaced)
    } else {
        replaced
    }
}

proof fn lemma_first_matching_rule(rules: Seq<MergeRuleView>, left: Seq<char>, right: Seq<char>)
    ensures
        first_matching_rule(rules, left, right) matches Some(k) ==> 0 <= k < rules.len()
            && rule_matches(rules[k], left, right) && forall|j: int|
            0 <= j < k ==> !rule_matches(#[trigger] rules[j], left, right),
        first_matching_rule(rules, left, right) is None ==> forall|j: int|
            0 <= j < rules.len() ==> !rule_matches(#[trigger] rules[j], left, right),
    decreases rules.len(),
{
    if rules.len() > 0 {
        lemma_first_matching_rule(rules.drop_first(), left, right);
        assert forall|j: int| 1 <= j < rules.len() implies rules[j] == rules.drop_first()[j - 1] by {}
    }
}

impl RulePack {
    /// Drops replacements with an empty `from` and merge rules with an empty
    /// side, as a loaded pack does.
    pub fn retain_non_empty_rules(&mut self)
        ensures
            final(self).replacement_pairs() == old(self).replacement_pairs().filter(
                |p: (Seq<char>, Seq<char>)| p.0.len() > 0,
            ),
            final(self).merge_rule_views() == old(self).merge_rule_views().filter(
                |r: MergeRuleView| r.0.len() > 0 && r.1.len() > 0,
            ),
            final(self).collapse_duplicate_adjacent_lines == old(
                self,
            ).collapse_duplicate_adjacent_lines,
    {
        let ghost pairs0 = self.replacement_pairs();
        let ghost rules0 = self.merge_rule_views();
        let mut reps: Vec<LineReplacement> = Vec::new();
        let mut i: usize = 0;
        proof {
            reveal_with_fuel(Seq::<_>::filter, 1);
            assert(pairs0.take(0) =~= Seq::<(Seq<char>, Seq<char>)>::empty());
        }
        while i < self.line_replacements.len()
            invariant
                i <= self.line_replacements.len(),
                pairs0 == self.replacement_pairs(),
                Seq::new(reps@.len(), |j: int| reps@[j].view_pair()) == pairs0.take(i as int).filter(
                    |p: (Seq<char>, Seq<char>)| p.0.len() > 0,
                ),
            decreases self.line_replacements.len() - i,
        {
            let ghost before = Seq::new(reps@.len(), |j: int| reps@[j].view_pair());
            proof {
                reveal_with_fuel(Seq::<_>::filter, 1);
                assert(pairs0.take(i + 1).drop_last() =~= pairs0.take(i as int));
                assert(pairs0.take(i + 1).last() == self.line_replacements@[i as int].view_pair());
            }
            if !self.line_replacements[i].from.as_str().is_empty() {
                let r = self.line_replacements[i].clone();
                reps.push(r);
                proof {
                    assert(Seq::new(reps@.len(), |j: int| reps@[j].view_pair()) =~= before.push(
                        self.line_replacements@[i as int].view_pair(),
                    ));
                }
            }
            i = i + 1;
        }
        proof {
            assert(pairs0.take(self.line_replacements.len() as int) =~= pairs0);
        }
        let mut rules: Vec<MergeRule> = Vec::new();
        let mut k: usize = 0;
        proof {
            reveal_with_fuel(Seq::<_>::filter, 1);
            assert(rules0.take(0) =~= Seq::<MergeRuleView>::empty());
        }
        while k < self.merge_rules.len()
            invariant
                k <= self.merge_rules.len(),
                rules0 == self.merge_rule_views(),
                Seq::new(rules@.len(), |j: int| rules@[j].view_rule()) == rules0.take(k as int).filter(
                    |r: MergeRuleView| r.0.len() > 0 && r.1.len() > 0,
                ),
            decreases self.merge_rules.len() - k,
        {
            let ghost before = Seq::new(rules@.len(), |j: int| rules@[j].view_rule());
            proof {
                reveal_with_fuel(Seq::<_>::filter, 1);
                assert(rules0.take(k + 1).drop_last() =~= rules0.take(k as int));
                assert(rules0.take(k + 1).last() == self.merge_rules@[k as int].view_rule());
            }
            let keep = !self.merge_rules[k].left_suffix.as_str().is_empty()
                && !self.merge_rules[k].right_prefix.as_str().is_empty();
            if keep {
                let r = self.merge_rules[k].clone();
                rules.push(r);
                proof {
                    assert(Seq::new(rules@.len(), |j: int| rules@[j].view_rule()) =~= before.push(
                        self.merge_rules@[k as int].view_rule(),
                    ));
                }
            }
            k = k + 1;
        }
        proof {
            assert(rules0.take(self.merge_rules.len() as int) =~= rules0);
        }
        self.line_replacements = reps;
        self.merge_rules = rules;
        proof {
            assert(self.replacement_pairs() =~= pairs0.filter(
                |p: (Seq<char>, Seq<char>)| p.0.len() > 0,
            ));
            assert(self.merge_rule_views() =~= rules0.filter(
                |r: MergeRuleView| r.0.len() > 0 && r.1.len() > 0,
            ));
        }
    }

    /// Applies the pack to the lines of a page (see [`apply_rule_pack`]).
    pub fn apply(&self, lines: &[String]) -> (res: Vec<String>)
        ensures
            res.deep_view() == apply_rule_pack(
                self.replacement_pairs(),
                self.merge_rule_views(),
                self.collapse_duplicate_adjacent_lines,
                lines.deep_view(),
            ),
    {
        let ls = strings_to_chars(lines);
        let merged = self.apply_merge_rules(&ls);
        let replaced = self.apply_line_replacements(&merged);
        let out = if self.collapse_duplicate_adjacent_lines {
            collapse_duplicate_adjacent_chars(&replaced)
        } else {
            replaced
        };
        chars_to_strings(&out)
    }

    /// The merge rules, as character vectors, with their drop counts.
    fn merge_rule_chars(&self) -> (res: Vec<(Vec<char>, Vec<char>, usize)>)
        ensures
            res@.len() == self.merge_rules@.len(),
            forall|k: int|
                0 <= k < res@.len() ==> (#[trigger] res@[k]).0@ == self.merge_rules@[k].left_suffix@
                    && res@[k].1@ == self.merge_rules@[k].right_prefix@ && res@[k].2
                    == self.merge_rules@[k].drop_right_prefix_chars,
    {
        let mut out: Vec<(Vec<char>, Vec<char>, usize)> = Vec::new();
        let mut k: usize = 0;
        while k < self.merge_rules.len()
            invariant
                k <= self.merge_rules.len(),
                out@.len() == k,
                forall|j: int|
                    0 <= j < k ==> (#[trigger] out@[j]).0@ == self.merge_rules@[j].left_suffix@
                        && out@[j].1@ == self.merge_rules@[j].right_prefix@ && out@[j].2
                        == self.merge_rules@[j].drop_right_prefix_chars,
            decreases self.merge_rules.len() - k,
        {
            let r = &self.merge_rules[k];
            out.push(
                (
                    str_to_chars(r.left_suffix.as_str()),
                    str_to_chars(r.right_prefix.as_str()),
                    r.drop_right_prefix_chars,
                ),
            );
            k = k + 1;
        }
        out
    }

    fn apply_merge_rules(&self, ls: &Vec<Vec<char>>) -> (res: Vec<Vec<char>>)
        ensures
            res.deep_view() == apply_merge_rules(self.merge_rule_views(), ls.deep_view()),
    {
        let rules = self.merge_rule_chars();
        let ghost views = self.merge_rule_views();
        let mut out: Vec<Vec<char>> = Vec::new();
        let mut i: usize = 0;
        proof {
            assert(ls.deep_view().skip(0) =~= ls.deep_view());
        }
        while i < ls.len()
            invariant
                i <= ls.len(),
                views == self.merge_rule_views(),
                rules@.len() == views.len(),
                forall|k: int|
                    0 <= k < rules@.len() ==> (#[trigger] rules@[k]).0@ == views[k].0
                        && rules@[k].1@ == views[k].1 && rules@[k].2 == views[k].2,
                apply_merge_rules(views, ls.deep_view()) == out.deep_view() + apply_merge_rules(
                    views,
                    ls.deep_view().skip(i as int),
                ),
            decreases ls.len() - i,
        {
            let ghost rest = ls.deep_view().skip(i as int);
            let ghost out0 = out.deep_view();
            proof {
                lemma_chars_deep_view(ls@[i as int]);
                assert(rest[0] == ls@[i as int]@);
            }
            let mut merged: Option<Vec<char>> = None;
            if i + 1 < ls.len() {
                proof {
                    lemma_chars_deep_view(ls@[i + 1]);
                    assert(rest[1] == ls@[i + 1]@);
                }
                let left = trim_end_chars(&ls[i]);
                let right = trim_start_chars(&ls[i + 1]);
                let mut k: usize = 0;
                proof {
                    lemma_first_matching_rule(views, left@, right@);
                }
                while k < rules.len()
                    invariant
                        k <= rules@.len(),
                        rules@.len() == views.len(),
                        forall|j: int|
                            0 <= j < rules@.len() ==> (#[trigger] rules@[j]).0@ == views[j].0
                                && rules@[j].1@ == views[j].1 && rules@[j].2 == views[j].2,
                        forall|j: int| 0 <= j < k ==> !rule_matches(#[trigger] views[j], left@, right@),
                    ensures
                        k <= rules@.len(),
                        forall|j: int| 0 <= j < k ==> !rule_matches(#[trigger] views[j], left@, right@),
                        k < rules@.len() ==> rule_matches(views[k as int], left@, right@),
                    decreases rules.len() - k,
                {
                    if ends_with_chars(&left, &rules[k].0) && starts_with_chars(&right, &rules[k].1) {
                        break;
                    }
                    k = k + 1;
                }
                if k < rules.len() {
                    proof {
                        assert(rule_matches(views[k as int], left@, right@));
                        lemma_first_matching_rule(views, left@, right@);
                        let f = first_matching_rule(views, left@, right@);
                        assert(f == Some(k as int)) by {
                            if f is None {
                                assert(!rule_matches(views[k as int], left@, right@));
                            } else {
                                let fk = f.unwrap();
                                if fk < k {
                                    assert(!rule_matches(views[fk], left@, right@));
                                }
                                if fk > k {
                                    assert(!rule_matches(views[k as int], left@, right@));
                                }
                            }
                        }
                    }
                    let drop = rules[k].2;
                    let kept = if drop >= right.len() {
                        Vec::new()
                    } else {
                        slice_chars(&right, drop, right.len())
                    };
                    proof {
                        assert(kept@ =~= drop_chars(right@, views[k as int].2));
                    }
                    let mut line = left;
                    extend_chars(&mut line, &kept);
                    merged = Some(line);
                } else {
                    proof {
                        lemma_first_matching_rule(views, left@, right@);
                        if first_matching_rule(views, left@, right@) is Some {
                            let fk = first_matching_rule(views, left@, right@).unwrap();
                            assert(rule_matches(views[fk], left@, right@));
                        }
                    }
                }
            }
            match merged {
                Some(line) => {
                    proof {
                        lemma_chars_deep_view(line);
                        assert(rest.skip(2) =~= ls.deep_view().skip(i + 2));
                    }
                    out.push(line);
                    proof {
                        assert(out.deep_view() =~= out0.push(line@));
                        assert(out0 + (seq![line@] + apply_merge_rules(views, rest.skip(2)))
                            =~= out.deep_view() + apply_merge_rules(
                            views,
                            ls.deep_view().skip(i + 2),
                        ));
                    }
                    i = i + 2;
                },
                None => {
                    proof {
                        assert(rest.skip(1) =~= ls.deep_view().skip(i + 1));
                    }
                    out.push(ls[i].clone());
                    proof {
                        assert(out.deep_view() =~= out0.push(ls@[i as int]@));
                        assert(out0 + (seq![rest[0]] + apply_merge_rules(views, rest.skip(1)))
                            =~= out.deep_view() + apply_merge_rules(
                            views,
                            ls.deep_view().skip(i + 1),
                        ));
                    }
                    i = i + 1;
                },
            }
        }
        proof {
            assert(ls.deep_view().skip(i as int) =~= Seq::<Seq<char>>::empty());
            assert(out.deep_view() + Seq::<Seq<char>>::empty() =~= out.deep_view());
        }
        out
    }

    fn apply_line_replacements(&self, ls: &Vec<Vec<char>>) -> (res: Vec<Vec<char>>)
        ensures
            res.deep_view() == ls.deep_view().map_values(
                |l: Seq<char>| replace_pairs(l, self.replacement_pairs()),
            ),
    {
        let mut pairs: Vec<(Vec<char>, Vec<char>)> = Vec::new();
        let mut k: usize = 0;
        while k < self.line_replacements.len()
            invariant
                k <= self.line_replacements.len(),
                pairs@.len() == k,
                forall|j: int|
                    0 <= j < k ==> (#[trigger] pairs@[j]).0@ == self.line_replacements@[j].from@
                        && pairs@[j].1@ == self.line_replacements@[j].to@,
            decreases self.line_replacements.len() - k,
        {
            let r = &self.line_replacements[k];
            pairs.push((str_to_chars(r.from.as_str()), str_to_chars(r.to.as_str())));
            k = k + 1;
        }
        let mut out: Vec<Vec<char>> = Vec::new();
        let mut i: usize = 0;
        while i < ls.len()
            invariant
                i <= ls.len(),
                pairs@.len() == self.line_replacements@.len(),
                forall|j: int|
                    0 <= j < pairs@.len() ==> (#[trigger] pairs@[j]).0@
                        == self.line_replacements@[j].from@ && pairs@[j].1@
                        == self.line_replacements@[j].to@,
                out.len() == i,
                forall|j: int|
                    0 <= j < i ==> (#[trigger] out@[j])@ == replace_pairs(
                        ls@[j]@,
                        self.replacement_pairs(),
                    ),
            decreases ls.len() - i,
        {
            let line = replace_pairs_chars(&ls[i], &pairs, Ghost(self.replacement_pairs()));
            out.push(line);
            i = i + 1;
        }
        proof {
            assert forall|j: int| 0 <= j < out.len() implies out.deep_view()[j]
                == ls.deep_view().map_values(
                |l: Seq<char>| replace_pairs(l, self.replacement_pairs()),
            )[j] by {
                lemma_chars_deep_view(out@[j]);
                lemma_chars_deep_view(ls@[j]);
            }
            assert(out.deep_view() =~= ls.deep_view().map_values(
                |l: Seq<char>| replace_pairs(l, self.replacement_pairs()),
            ));
        }
        out
    }
}

// ---------------------------------------------------------------------------
// Laws
// ---------------------------------------------------------------------------

/// A pack without rules and without collapsing leaves the page unchanged.
pub proof fn lemma_empty_pack_is_identity(ls: Seq<Seq<char>>)
    ensures
        apply_rule_pack(seq![], seq![], false, ls) == ls,
    decreases ls.len(),
{
    lemma_no_rules_no_merge(ls);
    assert(ls.map_values(|l: Seq<char>| replace_pairs(l, seq![])) =~= ls);
}

/// A pack with no replacements, no merge rules and no collapsing (the
/// default pack) leaves every page unchanged.
pub proof fn lemma_default_pack_is_identity(pack: RulePack, ls: Seq<Seq<char>>)
    requires
        pack.replacement_pairs().len() == 0,
        pack.merge_rule_views().len() == 0,
        !pack.collapse_duplicate_adjacent_lines,
    ensures
        apply_rule_pack(
            pack.replacement_pairs(),
            pack.merge_rule_views(),
            pack.collapse_duplicate_adjacent_lines,
            ls,
        ) == ls,
{
    assert(pack.replacement_pairs() =~= seq![]);
    assert(pack.merge_rule_views() =~= seq![]);
    lemma_empty_pack_is_identity(ls);
}

proof fn lemma_no_rules_no_merge(ls: Seq<Seq<char>>)
    ensures
        apply_merge_rules(seq![], ls) == ls,
    decreases ls.len(),
{
    if ls.len() >= 1 {
        lemma_no_rules_no_merge(ls.skip(1));
        assert(seq![ls[0]] + ls.skip(1) =~= ls);
    } else {
        assert(ls =~= Seq::<Seq<char>>::empty());
    }
}

proof fn lemma_merge_not_longer(rules: Seq<MergeRuleView>, ls: Seq<Seq<char>>)
    ensures
        apply_merge_rules(rules, ls).len() <= ls.len(),
    decreases ls.len(),
{
    if ls.len() >= 2 && first_matching_rule(rules, trim_end(ls[0]), trim_start(ls[1])) is Some {
        lemma_merge_not_longer(rules, ls.skip(2));
    } else if ls.len() >= 1 {
        lemma_merge_not_longer(rules, ls.skip(1));
    }
}

/// A pack never adds lines: its result has at most as many lines as the
/// page it is applied to.
pub proof fn lemma_rule_pack_not_longer(
    replacements: Seq<(Seq<char>, Seq<char>)>,
    rules: Seq<MergeRuleView>,
    collapse: bool,
    ls: Seq<Seq<char>>,
)
    ensures
        apply_rule_pack(replacements, rules, collapse, ls).len() <= ls.len(),
{
    lemma_merge_not_longer(rules, ls);
    let merged = apply_merge_rules(rules, ls);
    let replaced = merged.map_values(|l: Seq<char>| replace_pairs(l, replacements));
    lemma_collapse_no_adjacent_duplicates(replaced);
}

/// A pack without merge rules and without collapsing keeps every line in
/// its place and applies the replacements to each, in order.
pub proof fn lemma_rule_pack_without_merges_replaces_each_line(
    replacements: Seq<(Seq<char>, Seq<char>)>,
    ls: Seq<Seq<char>>,
)
    ensures
        apply_rule_pack(replacements, seq![], false, ls).len() == ls.len(),
        forall|i: int|
            0 <= i < ls.len() ==> #[trigger] apply_rule_pack(replacements, seq![], false, ls)[i]
                == replace_pairs(ls[i], replacements),
{
    lemma_no_rules_no_merge(ls);
}

/// With collapsing on, the result never has two equal adjacent lines.
pub proof fn lemma_collapsing_pack_has_no_adjacent_duplicates(
    replacements: Seq<(Seq<char>, Seq<char>)>,
    rules: Seq<MergeRuleView>,
    ls: Seq<Seq<char>>,
)
    ensures
        forall|i: int|
            0 <= i < apply_rule_pack(replacements, rules, true, ls).len() - 1
                ==> #[trigger] apply_rule_pack(replacements, rules, true, ls)[i]
                != apply_rule_pack(replacements, rules, true, ls)[i + 1],
{
    let merged = apply_merge_rules(rules, ls);
    let replaced = merged.map_values(|l: Seq<char>| replace_pairs(l, replacements));
    lemma_collapse_no_adjacent_duplicates(replaced);
}

} // verus!

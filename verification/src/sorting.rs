//! Stable insertion sort, as a specification, with its laws.
use vstd::prelude::*;
use vstd::relations::{sorted_by, strongly_connected, transitive};

verus! {

broadcast use vstd::seq_lib::group_seq_properties;

/// Inserts `x` after the last element `e` of `s` (scanning from the end) with
/// `le(e, x)`; at the front when there is none.
pub open spec fn insert_stable<E>(s: Seq<E>, x: E, le: spec_fn(E, E) -> bool) -> Seq<E>
    decreases s.len(),
{
    if s.len() == 0 {
        seq![x]
    } else if le(s.last(), x) {
        s.push(x)
    } else {
        insert_stable(s.drop_last(), x, le).push(s.last())
    }
}

/// The stable sort of `s` by the total preorder `le`: each element in turn
/// is inserted after every element that does not follow it.
pub open spec fn stable_sort<E>(s: Seq<E>, le: spec_fn(E, E) -> bool) -> Seq<E>
    decreases s.len(),
{
    if s.len() == 0 {
        s
    } else {
        insert_stable(stable_sort(s.drop_last(), le), s.last(), le)
    }
}

/// Inserting at the position found by a backward scan is `insert_stable`.
pub proof fn lemma_insert_at<E>(s: Seq<E>, x: E, p: int, le: spec_fn(E, E) -> bool)
    requires
        0 <= p <= s.len(),
        p == 0 || le(s[p - 1], x),
        forall|k: int| p <= k < s.len() ==> !le(#[trigger] s[k], x),
    ensures
        insert_stable(s, x, le) == s.insert(p, x),
    decreases s.len(),
{
    if s.len() == 0 {
        assert(s.insert(p, x) =~= seq![x]);
    } else if p == s.len() {
        assert(s.insert(p, x) =~= s.push(x));
    } else {
        assert(!le(s[s.len() - 1], x));
        let t = s.drop_last();
        lemma_insert_at(t, x, p, le);
        assert(t.insert(p, x).push(s.last()) =~= s.insert(p, x));
    }
}

proof fn lemma_insert_multiset<E>(s: Seq<E>, x: E, le: spec_fn(E, E) -> bool)
    ensures
        insert_stable(s, x, le).to_multiset() =~= s.to_multiset().insert(x),
    decreases s.len(),
{
    broadcast use vstd::seq_lib::group_to_multiset_ensures;

    if s.len() > 0 && !le(s.last(), x) {
        let t = s.drop_last();
        lemma_insert_multiset(t, x, le);
        assert(t.push(s.last()) =~= s);
    } else if s.len() == 0 {
        assert(seq![x] =~= Seq::<E>::empty().push(x));
    }
}

proof fn lemma_insert_bounded<E>(s: Seq<E>, x: E, z: E, le: spec_fn(E, E) -> bool)
    requires
        le(x, z),
        forall|k: int| 0 <= k < s.len() ==> le(#[trigger] s[k], z),
    ensures
        insert_stable(s, x, le).len() == s.len() + 1,
        forall|i: int|
            0 <= i < insert_stable(s, x, le).len() ==> le(#[trigger] insert_stable(s, x, le)[i], z),
    decreases s.len(),
{
    if s.len() > 0 && !le(s.last(), x) {
        let t = s.drop_last();
        lemma_insert_bounded(t, x, z, le);
        assert(le(s[s.len() - 1], z));
    }
}

proof fn lemma_insert_sorted<E>(s: Seq<E>, x: E, le: spec_fn(E, E) -> bool)
    requires
        transitive(le),
        strongly_connected(le),
        sorted_by(s, le),
    ensures
        sorted_by(insert_stable(s, x, le), le),
        insert_stable(s, x, le).len() == s.len() + 1,
    decreases s.len(),
{
    if s.len() == 0 {
    } else if le(s.last(), x) {
        let r = s.push(x);
        assert forall|i: int, j: int| 0 <= i < j < r.len() implies #[trigger] le(r[i], r[j]) by {
            if j == s.len() && i < s.len() - 1 {
                assert(le(s[i], s[s.len() - 1]));
                assert(le(s[s.len() - 1], x));
            }
        }
    } else {
        let t = s.drop_last();
        let y = s.last();
        assert(sorted_by(t, le));
        lemma_insert_sorted(t, x, le);
        assert(le(x, y));
        assert forall|k: int| 0 <= k < t.len() implies le(#[trigger] t[k], y) by {
            assert(le(s[k], s[s.len() - 1]));
        }
        lemma_insert_bounded(t, x, y, le);
        let u = insert_stable(t, x, le);
        let r = u.push(y);
        assert forall|i: int, j: int| 0 <= i < j < r.len() implies #[trigger] le(r[i], r[j]) by {
            if j == u.len() {
                assert(le(u[i], y));
            } else {
                assert(le(u[i], u[j]));
            }
        }
    }
}

/// The stable sort is a permutation of its input.
pub proof fn lemma_stable_sort_permutation<E>(s: Seq<E>, le: spec_fn(E, E) -> bool)
    ensures
        stable_sort(s, le).to_multiset() =~= s.to_multiset(),
    decreases s.len(),
{
    broadcast use vstd::seq_lib::group_to_multiset_ensures;

    if s.len() > 0 {
        let t = s.drop_last();
        lemma_stable_sort_permutation(t, le);
        lemma_insert_multiset(stable_sort(t, le), s.last(), le);
        assert(t.push(s.last()) =~= s);
    }
}

/// For a total preorder, the stable sort is sorted.
pub proof fn lemma_stable_sort_sorted<E>(s: Seq<E>, le: spec_fn(E, E) -> bool)
    requires
        transitive(le),
        strongly_connected(le),
    ensures
        sorted_by(stable_sort(s, le), le),
        stable_sort(s, le).len() == s.len(),
    decreases s.len(),
{
    if s.len() > 0 {
        lemma_stable_sort_sorted(s.drop_last(), le);
        lemma_insert_sorted(stable_sort(s.drop_last(), le), s.last(), le);
    }
}

/// A sequence that is already sorted is left as it is.
pub proof fn lemma_stable_sort_of_sorted<E>(s: Seq<E>, le: spec_fn(E, E) -> bool)
    requires
        sorted_by(s, le),
    ensures
        stable_sort(s, le) == s,
    decreases s.len(),
{
    if s.len() > 0 {
        let t = s.drop_last();
        assert(sorted_by(t, le));
        lemma_stable_sort_of_sorted(t, le);
        if t.len() > 0 {
            assert(le(s[t.len() - 1], s[s.len() - 1]));
            assert(le(t.last(), s.last()));
        }
        assert(t.push(s.last()) =~= s);
    }
}


proof fn lemma_insert_map_multiset<E, V>(s: Seq<E>, x: E, le: spec_fn(E, E) -> bool, f: spec_fn(E) -> V)
    ensures
        insert_stable(s, x, le).map_values(f).to_multiset() =~= s.map_values(f).to_multiset().insert(
            f(x),
        ),
    decreases s.len(),
{
    broadcast use vstd::seq_lib::group_to_multiset_ensures;

    if s.len() > 0 && !le(s.last(), x) {
        let t = s.drop_last();
        lemma_insert_map_multiset(t, x, le, f);
        assert(insert_stable(s, x, le).map_values(f) =~= insert_stable(t, x, le).map_values(f).push(
            f(s.last()),
        ));
        assert(s.map_values(f) =~= t.map_values(f).push(f(s.last())));
    } else if s.len() == 0 {
        assert(seq![x].map_values(f) =~= Seq::<V>::empty().push(f(x)));
        assert(s.map_values(f) =~= Seq::<V>::empty());
    } else {
        assert(s.push(x).map_values(f) =~= s.map_values(f).push(f(x)));
    }
}

/// The stable sort keeps the multiset of any function of the elements.
pub proof fn lemma_stable_sort_map_multiset<E, V>(s: Seq<E>, le: spec_fn(E, E) -> bool, f: spec_fn(E) -> V)
    ensures
        stable_sort(s, le).map_values(f).to_multiset() =~= s.map_values(f).to_multiset(),
    decreases s.len(),
{
    broadcast use vstd::seq_lib::group_to_multiset_ensures;

    if s.len() > 0 {
        let t = s.drop_last();
        lemma_stable_sort_map_multiset(t, le, f);
        lemma_insert_map_multiset(stable_sort(t, le), s.last(), le, f);
        assert(s.map_values(f) =~= t.map_values(f).push(f(s.last())));
    } else {
        assert(s.map_values(f) =~= Seq::<V>::empty());
    }
}

/// `a` and `b` are tied: each comes before the other.
pub open spec fn tied<E>(le: spec_fn(E, E) -> bool, a: E, b: E) -> bool {
    le(a, b) && le(b, a)
}

proof fn lemma_insert_keeps_ties<E>(t: Seq<E>, x: E, y: E, le: spec_fn(E, E) -> bool)
    requires
        transitive(le),
    ensures
        insert_stable(t, x, le).filter(|e: E| tied(le, e, y)) == if tied(le, x, y) {
            t.filter(|e: E| tied(le, e, y)).push(x)
        } else {
            t.filter(|e: E| tied(le, e, y))
        },
    decreases t.len(),
{
    let p = |e: E| tied(le, e, y);
    if t.len() == 0 {
        t.lemma_filter_push(x, p);
        assert(seq![x] =~= t.push(x));
    } else if le(t.last(), x) {
        t.lemma_filter_push(x, p);
    } else {
        let u = t.drop_last();
        lemma_insert_keeps_ties(u, x, y, le);
        insert_stable(u, x, le).lemma_filter_push(t.last(), p);
        u.lemma_filter_push(t.last(), p);
        assert(u.push(t.last()) =~= t);
        if tied(le, x, y) && p(t.last()) {
            // t.last() ties with y and y with x, so it comes before x.
            assert(le(t.last(), y) && le(y, x));
            assert(le(t.last(), x));
        }
        if tied(le, x, y) {
            assert(!p(t.last()));
        }
    }
}

/// The stable sort keeps tied elements in their order: for any `y`, the
/// elements tied with `y` come out in the order they went in.
pub proof fn lemma_stable_sort_keeps_ties<E>(s: Seq<E>, y: E, le: spec_fn(E, E) -> bool)
    requires
        transitive(le),
    ensures
        stable_sort(s, le).filter(|e: E| tied(le, e, y)) == s.filter(|e: E| tied(le, e, y)),
    decreases s.len(),
{
    let p = |e: E| tied(le, e, y);
    if s.len() > 0 {
        let u = s.drop_last();
        lemma_stable_sort_keeps_ties(u, y, le);
        lemma_insert_keeps_ties(stable_sort(u, le), s.last(), y, le);
        u.lemma_filter_push(s.last(), p);
        assert(u.push(s.last()) =~= s);
    }
}

} // verus!

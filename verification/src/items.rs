//! Facts about sequences taken as collections of items.

use vstd::prelude::*;
use vstd::seq_lib::*;

verus! {

/// The sequences hold the same items, each as often, in whatever order.
pub open spec fn same_items<A>(s: Seq<A>, t: Seq<A>) -> bool {
    s.to_multiset() == t.to_multiset()
}

/// Removing an item and putting the last one in its place, or closing the gap,
/// leaves the same items.
pub proof fn lemma_swap_removed<A>(s: Seq<A>, i: int)
    requires
        0 <= i < s.len(),
    ensures
        crate::dag::swap_removed(s, i).to_multiset() == s.to_multiset().remove(s[i]),
{
    broadcast use vstd::multiset::group_multiset_axioms;

    let t = crate::dag::swap_removed(s, i);
    if i == s.len() - 1 {
        assert(t =~= s.remove(i));
        to_multiset_remove(s, i);
    } else {
        let u = s.update(i, s.last());
        assert(t =~= u.remove(u.len() - 1));
        to_multiset_remove(u, u.len() - 1);
        to_multiset_update(s, i, s.last());
        assert(u.to_multiset() == s.to_multiset().insert(s.last()).remove(s[i]));
        to_multiset_contains(s, s[i]);
        to_multiset_contains(s, s.last());
        let m = s.to_multiset();
        assert(m.insert(s.last()).remove(s[i]).remove(s.last()) =~= m.remove(s[i]));
    }
}

/// An item that stands at one place only occurs once.
pub proof fn lemma_count_one<A>(s: Seq<A>, i: int)
    requires
        0 <= i < s.len(),
        forall|j: int| 0 <= j < s.len() && j != i ==> s[j] != s[i],
    ensures
        s.to_multiset().count(s[i]) == 1,
{
    broadcast use vstd::multiset::group_multiset_axioms;

    let t = s.remove(i);
    to_multiset_remove(s, i);
    to_multiset_contains(t, s[i]);
    to_multiset_contains(s, s[i]);
    if t.contains(s[i]) {
        let j = choose|j: int| 0 <= j < t.len() && t[j] == s[i];
        if j < i {
            assert(s[j] == t[j]);
        } else {
            assert(s[j + 1] == t[j]);
        }
        assert(false);
    }
    assert(s.contains(s[i]));
}

/// An item that stands at two places occurs more than once.
pub proof fn lemma_count_two<A>(s: Seq<A>, i: int, j: int)
    requires
        0 <= i < s.len(),
        0 <= j < s.len(),
        i != j,
        s[i] == s[j],
    ensures
        s.to_multiset().count(s[i]) > 1,
{
    broadcast use vstd::multiset::group_multiset_axioms;

    let t = s.remove(i);
    to_multiset_remove(s, i);
    to_multiset_contains(t, s[i]);
    to_multiset_contains(s, s[i]);
    if j < i {
        assert(t[j] == s[i]);
    } else {
        assert(t[j - 1] == s[i]);
    }
    assert(t.contains(s[i]));
    assert(s.contains(s[i]));
}

/// Different numbers below `n` are at most `n` in number.
pub proof fn lemma_distinct_below(s: Seq<int>, n: int)
    requires
        s.no_duplicates(),
        forall|i: int| 0 <= i < s.len() ==> 0 <= #[trigger] s[i] < n,
        n >= 0,
    ensures
        s.len() <= n,
{
    s.unique_seq_to_set();
    vstd::set_lib::lemma_int_range(0, n);
    let r = vstd::set_lib::set_int_range(0, n);
    assert(s.to_set().subset_of(r)) by {
        assert forall|x: int| s.to_set().contains(x) implies r.contains(x) by {
            let i = choose|i: int| 0 <= i < s.len() && s[i] == x;
            assert(0 <= s[i] < n);
        }
    }
    vstd::set_lib::lemma_len_subset(s.to_set(), r);
}

/// The same items, each sent through `f`, are the same items.
pub proof fn lemma_map_same_items<A, B>(s: Seq<A>, t: Seq<A>, f: spec_fn(A) -> B)
    requires
        same_items(s, t),
    ensures
        same_items(s.map_values(f), t.map_values(f)),
    decreases s.len(),
{
    broadcast use vstd::multiset::group_multiset_axioms;

    to_multiset_len(s);
    to_multiset_len(t);
    if s.len() == 0 {
        assert(s.map_values(f) =~= t.map_values(f));
    } else {
        let x = s.last();
        to_multiset_contains(s, x);
        assert(s.contains(x)) by {
            assert(s[s.len() - 1] == x);
        }
        to_multiset_contains(t, x);
        let j = choose|j: int| 0 <= j < t.len() && t[j] == x;
        let s1 = s.drop_last();
        let t1 = t.remove(j);
        assert(s1 =~= s.remove(s.len() - 1));
        to_multiset_remove(s, s.len() - 1);
        to_multiset_remove(t, j);
        lemma_map_same_items(s1, t1, f);
        assert(s.map_values(f) =~= s1.map_values(f).push(f(x)));
        to_multiset_build(s1.map_values(f), f(x));
        assert(t.map_values(f) =~= t1.map_values(f).insert(j, f(x)));
        to_multiset_insert(t1.map_values(f), j, f(x));
    }
}

/// How often an item occurs among those that satisfy `p`.
pub proof fn lemma_filter_count<A>(s: Seq<A>, p: spec_fn(A) -> bool, x: A)
    ensures
        s.filter(p).to_multiset().count(x) == (if p(x) {
            s.to_multiset().count(x)
        } else {
            0
        }),
    decreases s.len(),
{
    broadcast use vstd::multiset::group_multiset_axioms;

    reveal(Seq::filter);
    if s.len() == 0 {
        assert(s.filter(p) =~= s);
        to_multiset_contains(s, x);
    } else {
        let t = s.drop_last();
        lemma_filter_count(t, p, x);
        assert(s =~= t.push(s.last()));
        to_multiset_build(t, s.last());
        to_multiset_build(t.filter(p), s.last());
    }
}

/// Of the same items, those that satisfy `p` are the same.
pub proof fn lemma_filter_same_items<A>(s: Seq<A>, t: Seq<A>, p: spec_fn(A) -> bool)
    requires
        same_items(s, t),
    ensures
        same_items(s.filter(p), t.filter(p)),
{
    assert forall|x: A| s.filter(p).to_multiset().count(x) == t.filter(p).to_multiset().count(
        x,
    ) by {
        lemma_filter_count(s, p, x);
        lemma_filter_count(t, p, x);
    }
    assert(s.filter(p).to_multiset() =~= t.filter(p).to_multiset());
}

/// Filtering after mapping is mapping after filtering.
pub proof fn lemma_filter_map<A, B>(s: Seq<A>, f: spec_fn(A) -> B, p: spec_fn(B) -> bool)
    ensures
        s.map_values(f).filter(p) == s.filter(|x: A| p(f(x))).map_values(f),
    decreases s.len(),
{
    reveal(Seq::filter);
    let q = |x: A| p(f(x));
    if s.len() == 0 {
        assert(s.map_values(f).filter(p) =~= s.filter(q).map_values(f));
    } else {
        let t = s.drop_last();
        lemma_filter_map(t, f, p);
        assert(s.map_values(f).drop_last() =~= t.map_values(f));
        assert(s.map_values(f).last() == f(s.last()));
        if q(s.last()) {
            assert(s.filter(q) =~= t.filter(q).push(s.last()));
            assert(s.map_values(f).filter(p) =~= t.map_values(f).filter(p).push(f(s.last())));
            assert(t.filter(q).push(s.last()).map_values(f) =~= t.filter(q).map_values(f).push(
                f(s.last()),
            ));
        } else {
            assert(s.filter(q) =~= t.filter(q));
            assert(s.map_values(f).filter(p) =~= t.map_values(f).filter(p));
        }
    }
}

/// Filtering by what holds of every item keeps the sequence.
pub proof fn lemma_filter_all<A>(s: Seq<A>, p: spec_fn(A) -> bool)
    requires
        forall|i: int| 0 <= i < s.len() ==> p(#[trigger] s[i]),
    ensures
        s.filter(p) == s,
    decreases s.len(),
{
    reveal(Seq::filter);
    if s.len() > 0 {
        let t = s.drop_last();
        assert forall|i: int| 0 <= i < t.len() implies p(#[trigger] t[i]) by {
            assert(t[i] == s[i]);
        }
        lemma_filter_all(t, p);
        assert(p(s[s.len() - 1]));
        assert(s =~= t.push(s.last()));
    } else {
        assert(s.filter(p) =~= s);
    }
}

/// Filtering by two conditions in turn.
pub proof fn lemma_filter_twice<A>(
    s: Seq<A>,
    p: spec_fn(A) -> bool,
    q: spec_fn(A) -> bool,
    r: spec_fn(A) -> bool,
)
    requires
        forall|x: A| #[trigger] r(x) == (p(x) && q(x)),
    ensures
        s.filter(p).filter(q) == s.filter(r),
    decreases s.len(),
{
    reveal(Seq::filter);
    if s.len() == 0 {
        assert(s.filter(p).filter(q) =~= s.filter(r));
    } else {
        let t = s.drop_last();
        let x = s.last();
        lemma_filter_twice(t, p, q, r);
        assert(r(x) == (p(x) && q(x)));
        if p(x) {
            assert(s.filter(p).drop_last() =~= t.filter(p));
            assert(s.filter(p).last() == x);
        }
    }
}

/// Conditions that agree on every item pick the same items.
pub proof fn lemma_filter_congruent<A>(s: Seq<A>, p: spec_fn(A) -> bool, q: spec_fn(A) -> bool)
    requires
        forall|i: int| 0 <= i < s.len() ==> p(#[trigger] s[i]) == q(s[i]),
    ensures
        s.filter(p) == s.filter(q),
    decreases s.len(),
{
    reveal(Seq::filter);
    if s.len() > 0 {
        let t = s.drop_last();
        assert forall|i: int| 0 <= i < t.len() implies p(#[trigger] t[i]) == q(t[i]) by {
            assert(t[i] == s[i]);
        }
        lemma_filter_congruent(t, p, q);
        assert(p(s[s.len() - 1]) == q(s[s.len() - 1]));
    }
}

/// What no other item is sent to stands as often as its image.
pub proof fn lemma_count_injective<A, B>(s: Seq<A>, f: spec_fn(A) -> B, x: A)
    requires
        forall|i: int| 0 <= i < s.len() && f(#[trigger] s[i]) == f(x) ==> s[i] == x,
    ensures
        s.map_values(f).to_multiset().count(f(x)) == s.to_multiset().count(x),
    decreases s.len(),
{
    broadcast use vstd::multiset::group_multiset_axioms;

    if s.len() == 0 {
        assert(s.map_values(f) =~= Seq::<B>::empty());
        assert(s =~= Seq::<A>::empty());
        to_multiset_len(s);
        to_multiset_len(s.map_values(f));
        to_multiset_contains(s, x);
        to_multiset_contains(s.map_values(f), f(x));
    } else {
        let rest = s.drop_last();
        let last = s.last();
        assert forall|i: int| 0 <= i < rest.len() && f(#[trigger] rest[i]) == f(x) implies rest[i]
            == x by {
            assert(rest[i] == s[i]);
        }
        lemma_count_injective(rest, f, x);
        assert(s =~= rest.push(last));
        assert(s.map_values(f) =~= rest.map_values(f).push(f(last)));
        to_multiset_build(rest, last);
        to_multiset_build(rest.map_values(f), f(last));
        assert(s[s.len() - 1] == last);
    }
}

} // verus!

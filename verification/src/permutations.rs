//! What does not depend on the order of a sequence.
use vstd::prelude::*;

verus! {

/// Filtering a sequence filters its elements.
pub proof fn lemma_filter_permutes<T>(s: Seq<T>, p: spec_fn(T) -> bool)
    ensures
        s.filter(p).to_multiset() == s.to_multiset().filter(p),
    decreases s.len(),
{
    broadcast use vstd::seq_lib::group_to_multiset_ensures;

    reveal(Seq::filter);
    if s.len() > 0 {
        let d = s.drop_last();
        lemma_filter_permutes(d, p);
        assert(s =~= d.push(s.last()));
        assert(s.filter(p).to_multiset() =~= s.to_multiset().filter(p));
    } else {
        assert(s.filter(p).to_multiset() =~= s.to_multiset().filter(p));
    }
}

/// Sequences with the same elements have the same images.
pub proof fn lemma_map_permutes<T, U>(s: Seq<T>, t: Seq<T>, f: spec_fn(T) -> U)
    requires
        s.to_multiset() == t.to_multiset(),
    ensures
        s.map_values(f).to_multiset() == t.map_values(f).to_multiset(),
    decreases s.len(),
{
    broadcast use vstd::seq_lib::group_to_multiset_ensures;

    assert(s.len() == s.to_multiset().len() && t.len() == t.to_multiset().len());
    if s.len() > 0 {
        let (d, x) = (s.drop_last(), s.last());
        assert(s.contains(x));
        assert(t.to_multiset().count(x) > 0);
        let i = choose|i: int| 0 <= i < t.len() && t[i] == x;
        assert(d =~= s.remove(s.len() - 1));
        lemma_map_permutes(d, t.remove(i), f);
        let (m, n) = (s.map_values(f), t.map_values(f));
        assert(d.map_values(f) =~= m.remove(s.len() - 1));
        assert(t.remove(i).map_values(f) =~= n.remove(i));
        assert(m.contains(m[s.len() - 1]) && n.contains(n[i]));
        assert(m.to_multiset().count(f(x)) > 0 && n.to_multiset().count(f(x)) > 0);
        assert(m.to_multiset() =~= m.to_multiset().remove(f(x)).insert(f(x)));
        assert(n.to_multiset() =~= n.to_multiset().remove(f(x)).insert(f(x)));
    } else {
        assert(s.map_values(f) =~= t.map_values(f));
    }
}

/// What holds of the first elements of a sequence and of no others parts it there.
pub proof fn lemma_filter_parts<T>(
    s: Seq<T>,
    p: spec_fn(T) -> bool,
    q: spec_fn(T) -> bool,
    n: int,
)
    requires
        0 <= n <= s.len(),
        forall|i: int| 0 <= i < s.len() ==> p(#[trigger] s[i]) == (i < n) && q(s[i]) == (i >= n),
    ensures
        s.filter(p) == s.take(n),
        s.filter(q) == s.skip(n),
    decreases s.len(),
{
    reveal(Seq::filter);
    if s.len() > 0 {
        let d = s.drop_last();
        assert forall|i: int| 0 <= i < d.len() implies p(#[trigger] d[i]) == (i < n) && q(d[i]) == (
        i >= n) by {
            assert(d[i] == s[i]);
        }
        assert(p(s[s.len() - 1]) == (s.len() - 1 < n));
        if n == s.len() {
            lemma_filter_parts(d, p, q, n - 1);
            assert(s.take(n) =~= d.take(n - 1).push(s.last()));
            assert(s.skip(n) =~= d.skip(n - 1));
        } else {
            lemma_filter_parts(d, p, q, n);
            assert(s.take(n) =~= d.take(n));
            assert(s.skip(n) =~= d.skip(n).push(s.last()));
        }
    } else {
        assert(s.filter(p) =~= s.take(n));
        assert(s.filter(q) =~= s.skip(n));
    }
}

/// Sequences with the same elements have the same length, and what one holds the other holds.
pub proof fn lemma_same_elements<T>(s: Seq<T>, t: Seq<T>)
    requires
        s.to_multiset() == t.to_multiset(),
    ensures
        s.len() == t.len(),
        forall|x: T| #[trigger] s.contains(x) ==> t.contains(x),
        forall|x: T| #[trigger] t.contains(x) ==> s.contains(x),
{
    broadcast use vstd::seq_lib::group_to_multiset_ensures;

    assert(s.len() == s.to_multiset().len() && t.len() == t.to_multiset().len());
    assert forall|x: T| #[trigger] s.contains(x) implies t.contains(x) by {
        assert(s.to_multiset().count(x) > 0);
    }
    assert forall|x: T| #[trigger] t.contains(x) implies s.contains(x) by {
        assert(t.to_multiset().count(x) > 0);
    }
}

/// Whether a relation holds between any two elements at different places.
pub open spec fn pairwise<T>(s: Seq<T>, f: spec_fn(T, T) -> bool) -> bool {
    forall|i: int, j: int|
        0 <= i < s.len() && 0 <= j < s.len() && i != j ==> f(#[trigger] s[i], #[trigger] s[j])
}

/// What holds between any two elements of a sequence holds of them in every order.
pub proof fn lemma_pairwise_permutes<T>(s: Seq<T>, t: Seq<T>, f: spec_fn(T, T) -> bool)
    requires
        s.to_multiset() == t.to_multiset(),
        pairwise(s, f),
    ensures
        pairwise(t, f),
    decreases t.len(),
{
    broadcast use vstd::seq_lib::group_to_multiset_ensures;

    lemma_same_elements(s, t);
    if t.len() > 0 {
        let (d, x) = (t.drop_last(), t.last());
        assert(t.contains(x));
        let k = choose|k: int| 0 <= k < s.len() && s[k] == x;
        let rest = s.remove(k);
        assert(d =~= t.remove(t.len() - 1));
        assert forall|i: int, j: int|
            0 <= i < rest.len() && 0 <= j < rest.len() && i != j implies f(
            #[trigger] rest[i],
            #[trigger] rest[j],
        ) by {
            let (a, b) = (if i < k { i } else { i + 1 }, if j < k { j } else { j + 1 });
            assert(f(s[a], s[b]));
        }
        lemma_pairwise_permutes(rest, d, f);
        lemma_same_elements(rest, d);
        assert forall|i: int| 0 <= i < d.len() implies f(#[trigger] d[i], x) && f(x, d[i]) by {
            assert(d.contains(d[i]));
            let m = choose|m: int| 0 <= m < rest.len() && rest[m] == d[i];
            let a = if m < k { m } else { m + 1 };
            assert(f(s[a], s[k]) && f(s[k], s[a]));
        }
        assert forall|i: int, j: int| 0 <= i < t.len() && 0 <= j < t.len() && i != j implies f(
            #[trigger] t[i],
            #[trigger] t[j],
        ) by {
            if i < d.len() && j < d.len() {
                assert(f(d[i], d[j]));
            } else if i < d.len() {
                assert(f(d[i], x));
            } else {
                assert(f(x, d[j]));
            }
        }
    }
}

/// What holds between any two elements of a sequence holds of those that a filter leaves.
pub proof fn lemma_filter_keeps_pairs<T>(
    s: Seq<T>,
    p: spec_fn(T) -> bool,
    f: spec_fn(T, T) -> bool,
)
    requires
        pairwise(s, f),
    ensures
        pairwise(s.filter(p), f),
    decreases s.len(),
{
    reveal(Seq::filter);
    if s.len() > 0 {
        let (d, x) = (s.drop_last(), s.last());
        assert forall|i: int, j: int| 0 <= i < d.len() && 0 <= j < d.len() && i != j implies f(
            #[trigger] d[i],
            #[trigger] d[j],
        ) by {
            assert(f(s[i], s[j]));
        }
        lemma_filter_keeps_pairs(d, p, f);
        let before = d.filter(p);
        assert forall|i: int| 0 <= i < before.len() implies f(#[trigger] before[i], x) && f(
            x,
            before[i],
        ) by {
            assert(before.contains(before[i]));
            d.lemma_filter_contains_rev(p, before[i]);
            let k = choose|k: int| 0 <= k < d.len() && d[k] == before[i];
            assert(f(s[k], s[s.len() - 1]) && f(s[s.len() - 1], s[k]));
        }
    }
}

} // verus!

//! Stable sorting by keys.
use vstd::prelude::*;

verus! {

/// A sort key: three integers, compared from the first to the last.
#[derive(Clone, Copy, Debug, PartialEq, Eq, Structural)]
pub struct Key {
    pub first: i64,
    pub second: i64,
    pub third: u64,
}

impl Key {
    /// Whether this key is not after the other.
    pub open spec fn at_most(self, other: Key) -> bool {
        self.first < other.first || (self.first == other.first && (self.second < other.second || (
        self.second == other.second && self.third <= other.third)))
    }

    /// Whether this key is not after the other.
    pub fn le(self, other: Key) -> (r: bool)
        ensures
            r == self.at_most(other),
    {
        self.first < other.first || (self.first == other.first && (self.second < other.second || (
        self.second == other.second && self.third <= other.third)))
    }
}

/// What is sorted by a key.
pub trait Keyed: Sized {
    /// The key.
    spec fn key(self) -> Key;
}

/// What can tell its key.
pub trait KeyedValue: Keyed {
    /// The key.
    fn key_of(&self) -> (k: Key)
        ensures
            k == self.key(),
    ;
}

/// The sequence with `t` put in after the last element whose key is not after that of `t`,
/// where the sequence ends in elements with later keys.
pub open spec fn inserted<T: Keyed>(s: Seq<T>, t: T) -> Seq<T>
    decreases s.len(),
{
    if s.len() == 0 || s.last().key().at_most(t.key()) {
        s.push(t)
    } else {
        inserted(s.drop_last(), t).push(s.last())
    }
}

/// The sequence in the order of the keys; elements with the same key keep their order.
pub open spec fn sorted<T: Keyed>(s: Seq<T>) -> Seq<T>
    decreases s.len(),
{
    if s.len() == 0 {
        s
    } else {
        inserted(sorted(s.drop_last()), s.last())
    }
}

/// Whether no key is followed by an earlier one.
pub open spec fn in_key_order<T: Keyed>(s: Seq<T>) -> bool {
    forall|i: int, j: int| 0 <= i <= j < s.len() ==> (#[trigger] s[i]).key().at_most((#[trigger] s[j]).key())
}

proof fn lemma_inserted<T: Keyed>(s: Seq<T>, t: T)
    requires
        in_key_order(s),
    ensures
        inserted(s, t).len() == s.len() + 1,
        inserted(s, t).to_multiset() =~= s.to_multiset().insert(t),
        in_key_order(inserted(s, t)),
        forall|k: Key| s.len() > 0 && t.key().at_most(k) && s.last().key().at_most(k)
            ==> (#[trigger] inserted(s, t).last().key().at_most(k)),
    decreases s.len(),
{
    broadcast use vstd::seq_lib::group_to_multiset_ensures;

    let r = inserted(s, t);
    if s.len() == 0 || s.last().key().at_most(t.key()) {
    } else {
        let d = s.drop_last();
        lemma_inserted(d, t);
        assert(s =~= d.push(s.last()));
        assert(r =~= inserted(d, t).push(s.last()));
        let p = inserted(d, t);
        assert forall|i: int, j: int| 0 <= i <= j < r.len() implies (#[trigger] r[i]).key().at_most(
            (#[trigger] r[j]).key(),
        ) by {
            if j == p.len() && i < p.len() {
                assert(p[i].key().at_most(p.last().key()));
                if d.len() > 0 {
                    assert(s[d.len() - 1].key().at_most(s[d.len() as int].key()));
                    assert(p.last().key().at_most(s.last().key()));
                } else {
                    assert(p =~= seq![t]);
                }
            } else if j < p.len() {
                assert(p[i].key().at_most(p[j].key()));
            }
        }
    }
}

/// Sorting keeps the elements, with their multiplicities, and puts the keys in order.
pub proof fn sorting_permutes_into_order<T: Keyed>(s: Seq<T>)
    ensures
        sorted(s).len() == s.len(),
        sorted(s).to_multiset() == s.to_multiset(),
        in_key_order(sorted(s)),
    decreases s.len(),
{
    broadcast use vstd::seq_lib::group_to_multiset_ensures;

    if s.len() > 0 {
        sorting_permutes_into_order(s.drop_last());
        lemma_inserted(sorted(s.drop_last()), s.last());
        assert(s =~= s.drop_last().push(s.last()));
    }
}

/// What is in order already stays as it is.
pub proof fn sorting_keeps_what_is_in_order<T: Keyed>(s: Seq<T>)
    requires
        in_key_order(s),
    ensures
        sorted(s) == s,
    decreases s.len(),
{
    if s.len() > 0 {
        let d = s.drop_last();
        assert forall|i: int, j: int| 0 <= i <= j < d.len() implies (#[trigger] d[i]).key().at_most(
            (#[trigger] d[j]).key(),
        ) by {
            assert(s[i].key().at_most(s[j].key()));
        }
        sorting_keeps_what_is_in_order(d);
        if d.len() > 0 {
            assert(s[s.len() - 2].key().at_most(s[s.len() - 1].key()));
        }
        assert(d.push(s.last()) =~= s);
    }
}

/// Whether no two elements have the same key.
pub open spec fn keys_tell_apart<T: Keyed>(s: Seq<T>) -> bool {
    forall|a: T, b: T|
        s.contains(a) && s.contains(b) && #[trigger] a.key() == #[trigger] b.key() ==> a == b
}

proof fn lemma_one_order<T: Keyed>(s: Seq<T>, t: Seq<T>)
    requires
        s.to_multiset() == t.to_multiset(),
        keys_tell_apart(s),
        in_key_order(s),
        in_key_order(t),
    ensures
        s == t,
    decreases s.len(),
{
    broadcast use vstd::seq_lib::group_to_multiset_ensures;

    assert(s.len() == s.to_multiset().len() && t.len() == t.to_multiset().len());
    if s.len() > 0 {
        let (x, y) = (s.last(), t.last());
        assert(s.contains(x) && t.contains(y));
        assert(t.to_multiset().count(x) > 0 && s.to_multiset().count(y) > 0);
        assert(t.contains(x) && s.contains(y));
        let i = choose|i: int| 0 <= i < t.len() && t[i] == x;
        let j = choose|j: int| 0 <= j < s.len() && s[j] == y;
        assert(t[i].key().at_most(t[t.len() - 1].key()));
        assert(s[j].key().at_most(s[s.len() - 1].key()));
        assert(x.key() == y.key());
        let (d, e) = (s.drop_last(), t.drop_last());
        assert(d =~= s.remove(s.len() - 1) && e =~= t.remove(t.len() - 1));
        assert forall|a: T, b: T|
            d.contains(a) && d.contains(b) && #[trigger] a.key() == #[trigger] b.key() implies a
            == b by {
            assert(s.contains(a) && s.contains(b));
        }
        assert forall|i: int, j: int| 0 <= i <= j < d.len() implies (#[trigger] d[i]).key().at_most(
            (#[trigger] d[j]).key(),
        ) by {
            assert(s[i].key().at_most(s[j].key()));
        }
        assert forall|i: int, j: int| 0 <= i <= j < e.len() implies (#[trigger] e[i]).key().at_most(
            (#[trigger] e[j]).key(),
        ) by {
            assert(t[i].key().at_most(t[j].key()));
        }
        lemma_one_order(d, e);
        assert(s =~= d.push(x) && t =~= e.push(y));
    } else {
        assert(s =~= t);
    }
}

/// Where the keys tell the elements apart, sorting does not depend on the order that they came in.
pub proof fn sorting_ignores_the_order<T: Keyed>(s: Seq<T>, t: Seq<T>)
    requires
        s.to_multiset() == t.to_multiset(),
        keys_tell_apart(s),
    ensures
        sorted(s) == sorted(t),
{
    broadcast use vstd::seq_lib::group_to_multiset_ensures;

    sorting_permutes_into_order(s);
    sorting_permutes_into_order(t);
    assert forall|a: T, b: T|
        sorted(s).contains(a) && sorted(s).contains(b) && #[trigger] a.key()
            == #[trigger] b.key() implies a == b by {
        assert(sorted(s).to_multiset().count(a) > 0 && sorted(s).to_multiset().count(b) > 0);
        assert(s.contains(a) && s.contains(b));
    }
    lemma_one_order(sorted(s), sorted(t));
}

/// Sorting commutes with a map that keeps the keys.
pub proof fn lemma_sorted_map<T: Keyed, U: Keyed>(s: Seq<T>, f: spec_fn(T) -> U)
    requires
        forall|t: T| s.contains(t) ==> (#[trigger] f(t)).key() == t.key(),
    ensures
        sorted(s).map_values(f) == sorted(s.map_values(f)),
    decreases s.len(),
{
    if s.len() > 0 {
        let d = s.drop_last();
        assert forall|t: T| d.contains(t) implies (#[trigger] f(t)).key() == t.key() by {
            assert(s.contains(t));
        }
        lemma_sorted_map(d, f);
        assert(s.map_values(f).drop_last() =~= d.map_values(f));
        assert(s.contains(s.last()));
        sorting_permutes_into_order(d);
        assert forall|t: T| sorted(d).contains(t) implies (#[trigger] f(t)).key() == t.key() by {
            broadcast use vstd::seq_lib::group_to_multiset_ensures;
            assert(sorted(d).to_multiset().count(t) > 0);
            assert(d.contains(t));
            assert(s.contains(t));
        }
        lemma_inserted_map(sorted(d), s.last(), f);
    } else {
        assert(sorted(s).map_values(f) =~= sorted(s.map_values(f)));
    }
}

proof fn lemma_inserted_map<T: Keyed, U: Keyed>(s: Seq<T>, t: T, f: spec_fn(T) -> U)
    requires
        forall|x: T| s.contains(x) ==> (#[trigger] f(x)).key() == x.key(),
        f(t).key() == t.key(),
    ensures
        inserted(s, t).map_values(f) == inserted(s.map_values(f), f(t)),
    decreases s.len(),
{
    if s.len() == 0 {
        assert(inserted(s, t).map_values(f) =~= inserted(s.map_values(f), f(t)));
    } else {
        assert(s.contains(s.last()));
        if s.last().key().at_most(t.key()) {
            assert(inserted(s, t).map_values(f) =~= inserted(s.map_values(f), f(t)));
        } else {
            let d = s.drop_last();
            assert forall|x: T| d.contains(x) implies (#[trigger] f(x)).key() == x.key() by {
                assert(s.contains(x));
            }
            lemma_inserted_map(d, t, f);
            assert(s.map_values(f).drop_last() =~= d.map_values(f));
            assert(inserted(s, t).map_values(f) =~= inserted(d, t).map_values(f).push(f(s.last())));
        }
    }
}

/// Sorting what is left of a sequence is leaving the same of the sorted sequence.
pub proof fn sorting_commutes_with_filtering<T: Keyed>(s: Seq<T>, p: spec_fn(T) -> bool)
    ensures
        sorted(s.filter(p)) == sorted(s).filter(p),
    decreases s.len(),
{
    reveal(Seq::filter);
    if s.len() > 0 {
        let d = s.drop_last();
        sorting_commutes_with_filtering(d, p);
        sorting_permutes_into_order(d);
        lemma_inserted_filter(sorted(d), s.last(), p);
        if p(s.last()) {
            assert(d.filter(p).push(s.last()).drop_last() =~= d.filter(p));
        }
    }
}

proof fn lemma_inserted_filter<T: Keyed>(s: Seq<T>, t: T, p: spec_fn(T) -> bool)
    requires
        in_key_order(s),
    ensures
        inserted(s, t).filter(p) == if p(t) {
            inserted(s.filter(p), t)
        } else {
            s.filter(p)
        },
    decreases s.len(),
{
    reveal(Seq::filter);
    let kept = s.filter(p);
    if s.len() == 0 || s.last().key().at_most(t.key()) {
        assert(s.push(t).drop_last() =~= s);
        if p(t) && kept.len() > 0 {
            assert(kept.contains(kept.last()));
            s.lemma_filter_contains_rev(p, kept.last());
            let i = choose|i: int| 0 <= i < s.len() && s[i] == kept.last();
            assert(s[i].key().at_most(s[s.len() - 1].key()));
        }
    } else {
        let d = s.drop_last();
        assert forall|i: int, j: int| 0 <= i <= j < d.len() implies (#[trigger] d[i]).key().at_most(
            (#[trigger] d[j]).key(),
        ) by {
            assert(s[i].key().at_most(s[j].key()));
        }
        lemma_inserted_filter(d, t, p);
        assert(inserted(d, t).push(s.last()).drop_last() =~= inserted(d, t));
        if p(s.last()) {
            assert(d.filter(p).push(s.last()).drop_last() =~= d.filter(p));
        }
    }
}

proof fn lemma_inserted_at<T: Keyed>(s: Seq<T>, t: T, pos: int)
    requires
        0 <= pos <= s.len(),
        pos > 0 ==> s[pos - 1].key().at_most(t.key()),
        forall|i: int| pos <= i < s.len() ==> !(#[trigger] s[i]).key().at_most(t.key()),
    ensures
        inserted(s, t) == s.insert(pos, t),
    decreases s.len(),
{
    if pos == s.len() {
        assert(s.push(t) =~= s.insert(pos, t));
    } else {
        assert(!s[s.len() - 1].key().at_most(t.key()));
        lemma_inserted_at(s.drop_last(), t, pos);
        assert(s.drop_last().insert(pos, t).push(s.last()) =~= s.insert(pos, t));
    }
}

/// Sorts by the keys; elements with the same key keep their order.
pub fn sort<T: KeyedValue>(v: Vec<T>) -> (r: Vec<T>)
    ensures
        r@ == sorted(v@),
{
    let ghost s = v@;
    let n: usize = v.len();
    let mut rest: Vec<T> = v;
    let mut out: Vec<T> = Vec::new();
    let mut reversed: Vec<T> = Vec::new();
    while rest.len() > 0
        invariant
            rest@.len() <= n,
            s.len() == n,
            rest@ == s.take(rest@.len() as int),
            reversed@ == s.skip(rest@.len() as int).reverse(),
        decreases rest@.len(),
    {
        let ghost k = rest@.len() as int;
        if let Some(t) = rest.pop() {
            reversed.push(t);
            assert(s.skip(k - 1).reverse() =~= s.skip(k).reverse().push(s[k - 1]));
            assert(s.take(k).drop_last() =~= s.take(k - 1));
        }
    }
    assert(s.skip(0) =~= s);
    while reversed.len() > 0
        invariant
            reversed@.len() <= n,
            s.len() == n,
            reversed@ == s.skip(n - reversed@.len()).reverse(),
            out@ == sorted(s.take(n - reversed@.len())),
        decreases reversed@.len(),
    {
        let ghost k = n - reversed@.len();
        if let Some(t) = reversed.pop() {
            assert(t == s[k]);
            assert(s.skip(k).reverse().drop_last() =~= s.skip(k + 1).reverse());
            let key: Key = t.key_of();
            let mut pos: usize = out.len();
            while pos > 0 && !out[pos - 1].key_of().le(key)
                invariant
                    pos <= out@.len(),
                    key == t.key(),
                    forall|i: int| pos <= i < out@.len() ==> !(#[trigger] out@[i]).key().at_most(key),
                decreases pos,
            {
                pos = pos - 1;
            }
            proof {
                lemma_inserted_at(out@, t, pos as int);
                assert(s.take(k + 1).drop_last() =~= s.take(k));
            }
            out.insert(pos, t);
        }
    }
    assert(s.take(n as int) =~= s);
    out
}

} // verus!

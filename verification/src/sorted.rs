//! Order statistics: where an element of a collection stands once the
//! collection is sorted.
use crate::float_utils::FloatType;
use vstd::multiset::Multiset;
use vstd::prelude::*;
use vstd::seq_lib::*;

verus! {

/// Whether `s` is in ascending order.
pub open spec fn ascending<T: FloatType>(s: Seq<T>) -> bool {
    forall|i: int, j: int| 0 <= i <= j < s.len() ==> s[i].rank() <= s[j].rank()
}

/// The elements of `m` that are below rank `r`.
spec fn below<T: FloatType>(m: Multiset<T>, r: int) -> Multiset<T> {
    m.filter(|x: T| x.rank() < r)
}

/// The elements of `m` that are not above rank `r`.
spec fn up_to<T: FloatType>(m: Multiset<T>, r: int) -> Multiset<T> {
    m.filter(|x: T| x.rank() <= r)
}

/// Filtering the sum of two collections filters each.
proof fn lemma_filter_add<T>(a: Multiset<T>, b: Multiset<T>, f: spec_fn(T) -> bool)
    ensures
        a.add(b).filter(f) == a.filter(f).add(b.filter(f)),
        a.add(b).filter(f).len() == a.filter(f).len() + b.filter(f).len(),
{
    broadcast use vstd::multiset::group_multiset_axioms;

    assert(a.add(b).filter(f) =~= a.filter(f).add(b.filter(f)));
}

/// A filter splits a collection in two: what passes and what does not.
proof fn lemma_filter_split<T>(m: Multiset<T>, f: spec_fn(T) -> bool)
    ensures
        m.len() == m.filter(f).len() + m.filter(|x: T| !f(x)).len(),
{
    broadcast use vstd::multiset::group_multiset_axioms;

    let g = |x: T| !f(x);
    assert(m =~= m.filter(f).add(m.filter(g)));
}

/// A filter that every element passes keeps the collection.
proof fn lemma_filter_all<T>(m: Multiset<T>, f: spec_fn(T) -> bool)
    requires
        forall|x: T| m.contains(x) ==> f(x),
    ensures
        m.filter(f) == m,
{
    broadcast use vstd::multiset::group_multiset_axioms;

    assert forall|v: T| m.filter(f).count(v) == m.count(v) by {
        if m.count(v) > 0 {
            assert(m.contains(v));
        }
    }
    assert(m.filter(f) =~= m);
}

/// A filter that no element passes leaves nothing.
proof fn lemma_filter_none<T>(m: Multiset<T>, f: spec_fn(T) -> bool)
    requires
        forall|x: T| m.contains(x) ==> !f(x),
    ensures
        m.filter(f).len() == 0,
{
    broadcast use vstd::multiset::group_multiset_axioms;

    assert forall|v: T| m.filter(f).count(v) == 0 by {
        if m.count(v) > 0 {
            assert(m.contains(v));
        }
    }
    assert(m.filter(f) =~= Multiset::<T>::empty());
}

/// A filter that an element of the collection passes leaves something.
proof fn lemma_filter_some<T>(m: Multiset<T>, f: spec_fn(T) -> bool, x: T)
    requires
        m.contains(x),
        f(x),
    ensures
        m.filter(f).len() >= 1,
{
    broadcast use vstd::multiset::group_multiset_axioms;

    assert(m.filter(f).count(x) >= 1);
}

/// In an ascending sequence the element in place `k` has rank `r`, if at most
/// `k` elements are below `r` and more than `k` are not above it.
proof fn lemma_place_of_rank<T: FloatType>(s: Seq<T>, r: int, k: int)
    requires
        ascending(s),
        0 <= k < s.len(),
        below(s.to_multiset(), r).len() <= k,
        up_to(s.to_multiset(), r).len() >= k + 1,
    ensures
        s[k].rank() == r,
{
    broadcast use {to_multiset_len, to_multiset_contains};

    if s[k].rank() < r {
        let f = |x: T| x.rank() < r;
        let head = s.take(k + 1);
        let tail = s.skip(k + 1);
        assert(s =~= head + tail);
        lemma_multiset_commutative(head, tail);
        lemma_filter_add(head.to_multiset(), tail.to_multiset(), f);
        assert forall|x: T| head.to_multiset().contains(x) implies f(x) by {
            let i = choose|i: int| 0 <= i < head.len() && head[i] == x;
            assert(s[i].rank() <= s[k].rank());
        }
        lemma_filter_all(head.to_multiset(), f);
        assert(false);
    } else if s[k].rank() > r {
        let f = |x: T| x.rank() <= r;
        let head = s.take(k);
        let tail = s.skip(k);
        assert(s =~= head + tail);
        lemma_multiset_commutative(head, tail);
        lemma_filter_add(head.to_multiset(), tail.to_multiset(), f);
        assert forall|x: T| tail.to_multiset().contains(x) implies !f(x) by {
            let i = choose|i: int| 0 <= i < tail.len() && tail[i] == x;
            assert(s[k].rank() <= s[k + i].rank());
        }
        lemma_filter_none(tail.to_multiset(), f);
        lemma_filter_split(head.to_multiset(), f);
        assert(false);
    }
}

/// Where the halves of a collection are partitioned, a greatest element of
/// the lower half stands last among as many elements as that half has, once
/// the collection is sorted.
pub proof fn lemma_top_of_lower<T: FloatType>(
    lower: Multiset<T>,
    upper: Multiset<T>,
    t: T,
    s: Seq<T>,
)
    requires
        ascending(s),
        s.to_multiset() == lower.add(upper),
        forall|a: T, b: T| lower.contains(a) && upper.contains(b) ==> a.rank() <= b.rank(),
        lower.contains(t),
        forall|a: T| lower.contains(a) ==> a.rank() <= t.rank(),
    ensures
        0 < lower.len() <= s.len(),
        s[lower.len() - 1].rank() == t.rank(),
{
    broadcast use to_multiset_len;

    let r = t.rank();
    let lt = |x: T| x.rank() < r;
    let le = |x: T| x.rank() <= r;
    let ge = |x: T| !lt(x);
    assert(lower.len() >= 1 && s.len() == lower.len() + upper.len()) by {
        broadcast use vstd::multiset::group_multiset_axioms;

        assert(lower.count(t) >= 1);
        assert(s.to_multiset().len() == s.len());
        assert(lower.add(upper).len() == lower.len() + upper.len());
    }
    lemma_filter_add(lower, upper, lt);
    lemma_filter_add(lower, upper, le);
    lemma_filter_none(upper, lt);
    lemma_filter_split(lower, lt);
    lemma_filter_some(lower, ge, t);
    lemma_filter_all(lower, le);
    lemma_place_of_rank(s, r, lower.len() - 1);
}

/// Where the halves of a collection are partitioned, a smallest element of
/// the upper half stands right after as many elements as the lower half has,
/// once the collection is sorted.
pub proof fn lemma_top_of_upper<T: FloatType>(
    lower: Multiset<T>,
    upper: Multiset<T>,
    t: T,
    s: Seq<T>,
)
    requires
        ascending(s),
        s.to_multiset() == lower.add(upper),
        forall|a: T, b: T| lower.contains(a) && upper.contains(b) ==> a.rank() <= b.rank(),
        upper.contains(t),
        forall|b: T| upper.contains(b) ==> t.rank() <= b.rank(),
    ensures
        lower.len() < s.len(),
        s[lower.len() as int].rank() == t.rank(),
{
    broadcast use to_multiset_len;

    let r = t.rank();
    let lt = |x: T| x.rank() < r;
    let le = |x: T| x.rank() <= r;
    assert(upper.len() >= 1 && s.len() == lower.len() + upper.len()) by {
        broadcast use vstd::multiset::group_multiset_axioms;

        assert(upper.count(t) >= 1);
        assert(s.to_multiset().len() == s.len());
        assert(lower.add(upper).len() == lower.len() + upper.len());
    }
    lemma_filter_add(lower, upper, lt);
    lemma_filter_add(lower, upper, le);
    lemma_filter_none(upper, lt);
    lemma_filter_split(lower, lt);
    lemma_filter_all(lower, le);
    lemma_filter_some(upper, le, t);
    lemma_place_of_rank(s, r, lower.len() as int);
}

} // verus!

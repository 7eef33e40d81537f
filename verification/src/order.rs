//! Sorting by repeated placement: each element goes in front of the first one
//! that it precedes, so elements that tie keep the order in which they came.
use vstd::prelude::*;
use vstd::multiset::Multiset;

verus! {

/// `x` placed into `s` in front of the first element that it precedes.
pub open spec fn placed<T>(s: Seq<T>, x: T, precedes: spec_fn(T, T) -> bool) -> Seq<T>
    decreases s.len(),
{
    if s.len() == 0 {
        seq![x]
    } else if precedes(x, s[0]) {
        seq![x] + s
    } else {
        seq![s[0]] + placed(s.drop_first(), x, precedes)
    }
}

/// The elements of `s` placed one after the other.
pub open spec fn ranked<T>(s: Seq<T>, precedes: spec_fn(T, T) -> bool) -> Seq<T>
    decreases s.len(),
{
    if s.len() == 0 {
        Seq::empty()
    } else {
        placed(ranked(s.drop_last(), precedes), s.last(), precedes)
    }
}

/// No element precedes one that stands in front of it.
pub open spec fn is_ranked<T>(s: Seq<T>, precedes: spec_fn(T, T) -> bool) -> bool {
    forall|i: int, j: int| 0 <= i < j < s.len() ==> !precedes(#[trigger] s[j], #[trigger] s[i])
}

/// On the elements of `among`, `precedes` is a strict order in which "neither
/// precedes the other" is an equivalence.
pub open spec fn strict_weak<T>(precedes: spec_fn(T, T) -> bool, among: Set<T>) -> bool {
    &&& forall|a: T, b: T|
        among.contains(a) && among.contains(b) && #[trigger] precedes(a, b) ==> !precedes(b, a)
    &&& forall|a: T, b: T, c: T|
        among.contains(a) && among.contains(b) && among.contains(c) && !#[trigger] precedes(a, b)
            && !#[trigger] precedes(b, c) ==> !precedes(a, c)
}

/// Placing at the first position whose element `x` precedes.
pub proof fn placed_at<T>(s: Seq<T>, x: T, precedes: spec_fn(T, T) -> bool, k: int)
    requires
        0 <= k <= s.len(),
        forall|i: int| 0 <= i < k ==> !precedes(x, #[trigger] s[i]),
        k < s.len() ==> precedes(x, s[k]),
    ensures
        placed(s, x, precedes) == s.insert(k, x),
    decreases s.len(),
{
    if s.len() == 0 {
        assert(s.insert(0, x) =~= seq![x]);
    } else if k == 0 {
        assert(s.insert(0, x) =~= seq![x] + s);
    } else {
        assert(!precedes(x, s[0]));
        let t = s.drop_first();
        assert forall|i: int| 0 <= i < k - 1 implies !precedes(x, #[trigger] t[i]) by {
            assert(t[i] == s[i + 1]);
        }
        placed_at(t, x, precedes, k - 1);
        assert(s.insert(k, x) =~= seq![s[0]] + t.insert(k - 1, x));
    }
}

/// Placing keeps the elements and adds one.
pub proof fn placed_keeps<T>(s: Seq<T>, x: T, precedes: spec_fn(T, T) -> bool)
    ensures
        placed(s, x, precedes).to_multiset() == s.to_multiset().insert(x),
        placed(s, x, precedes).len() == s.len() + 1,
    decreases s.len(),
{
    broadcast use vstd::seq_lib::group_to_multiset_ensures;

    if s.len() == 0 {
        assert(seq![x] =~= Seq::<T>::empty().push(x));
        assert(s =~= Seq::<T>::empty());
    } else {
        let t = s.drop_first();
        placed_keeps(t, x, precedes);
        assert(s =~= seq![s[0]] + t);
        vstd::seq_lib::lemma_multiset_commutative(seq![s[0]], t);
        vstd::seq_lib::lemma_multiset_commutative(seq![x], s);
        vstd::seq_lib::lemma_multiset_commutative(seq![s[0]], placed(t, x, precedes));
        assert(seq![x] =~= Seq::<T>::empty().push(x));
        assert(seq![s[0]] =~= Seq::<T>::empty().push(s[0]));
        assert((seq![x] + s).to_multiset() =~= s.to_multiset().insert(x));
        assert((seq![s[0]] + placed(t, x, precedes)).to_multiset() =~= s.to_multiset().insert(x));
    }
}

/// The ranked list holds the same elements, as often.
pub proof fn ranked_keeps<T>(s: Seq<T>, precedes: spec_fn(T, T) -> bool)
    ensures
        ranked(s, precedes).to_multiset() == s.to_multiset(),
        ranked(s, precedes).len() == s.len(),
    decreases s.len(),
{
    broadcast use vstd::seq_lib::group_to_multiset_ensures;

    if s.len() == 0 {
        assert(s =~= Seq::<T>::empty());
    } else {
        ranked_keeps(s.drop_last(), precedes);
        placed_keeps(ranked(s.drop_last(), precedes), s.last(), precedes);
        assert(s =~= s.drop_last().push(s.last()));
    }
}

/// Placing into a ranked list leaves it ranked.
pub proof fn placed_is_ranked<T>(
    s: Seq<T>,
    x: T,
    precedes: spec_fn(T, T) -> bool,
    among: Set<T>,
)
    requires
        is_ranked(s, precedes),
        strict_weak(precedes, among),
        among.contains(x),
        forall|i: int| 0 <= i < s.len() ==> among.contains(#[trigger] s[i]),
    ensures
        is_ranked(placed(s, x, precedes), precedes),
        forall|y: T| #[trigger] placed(s, x, precedes).contains(y) ==> y == x || s.contains(y),
    decreases s.len(),
{
    let r = placed(s, x, precedes);
    if s.len() == 0 {
    } else if precedes(x, s[0]) {
        assert forall|i: int, j: int| 0 <= i < j < r.len() implies !precedes(
            #[trigger] r[j],
            #[trigger] r[i],
        ) by {
            if i == 0 {
                let y = s[j - 1];
                assert(r[j] == y);
                if precedes(y, x) {
                    assert(!precedes(x, y));
                    if j > 1 {
                        assert(!precedes(s[j - 1], s[0]));
                    }
                    assert(!precedes(s[0], x));
                    assert(!precedes(y, s[0]) || y == s[0]);
                    assert(!precedes(y, s[0]));
                    assert(!precedes(y, x));
                }
            } else {
                assert(r[i] == s[i - 1] && r[j] == s[j - 1]);
            }
        }
        assert forall|y: T| #[trigger] r.contains(y) implies y == x || s.contains(y) by {
            let k = choose|k: int| 0 <= k < r.len() && r[k] == y;
            if k > 0 {
                assert(s[k - 1] == y);
            }
        }
    } else {
        let t = s.drop_first();
        assert forall|i: int, j: int| 0 <= i < j < t.len() implies !precedes(
            #[trigger] t[j],
            #[trigger] t[i],
        ) by {
            assert(t[i] == s[i + 1] && t[j] == s[j + 1]);
        }
        assert forall|i: int| 0 <= i < t.len() implies among.contains(#[trigger] t[i]) by {
            assert(t[i] == s[i + 1]);
        }
        placed_is_ranked(t, x, precedes, among);
        let p = placed(t, x, precedes);
        assert forall|i: int, j: int| 0 <= i < j < r.len() implies !precedes(
            #[trigger] r[j],
            #[trigger] r[i],
        ) by {
            assert(r[j] == p[j - 1]);
            if i == 0 {
                assert(p.contains(p[j - 1]));
                if r[j] != x {
                    assert(t.contains(r[j]));
                    let k = choose|k: int| 0 <= k < t.len() && t[k] == r[j];
                    assert(s[k + 1] == r[j]);
                }
            } else {
                assert(r[i] == p[i - 1]);
            }
        }
        assert forall|y: T| #[trigger] r.contains(y) implies y == x || s.contains(y) by {
            let k = choose|k: int| 0 <= k < r.len() && r[k] == y;
            if k > 0 {
                assert(p[k - 1] == y);
                assert(p.contains(y));
                if y != x {
                    let m = choose|m: int| 0 <= m < t.len() && t[m] == y;
                    assert(s[m + 1] == y);
                }
            } else {
                assert(s[0] == y);
            }
        }
    }
}

/// The ranked list is ranked.
pub proof fn ranked_is_ranked<T>(s: Seq<T>, precedes: spec_fn(T, T) -> bool, among: Set<T>)
    requires
        strict_weak(precedes, among),
        forall|i: int| 0 <= i < s.len() ==> among.contains(#[trigger] s[i]),
    ensures
        is_ranked(ranked(s, precedes), precedes),
        forall|i: int|
            0 <= i < s.len() ==> among.contains(#[trigger] ranked(s, precedes)[i]),
        ranked(s, precedes).len() == s.len(),
    decreases s.len(),
{
    if s.len() > 0 {
        let t = s.drop_last();
        assert forall|i: int| 0 <= i < t.len() implies among.contains(#[trigger] t[i]) by {
            assert(t[i] == s[i]);
        }
        ranked_is_ranked(t, precedes, among);
        let r = ranked(t, precedes);
        assert(among.contains(s[s.len() - 1]));
        placed_is_ranked(r, s.last(), precedes, among);
        placed_keeps(r, s.last(), precedes);
        let p = placed(r, s.last(), precedes);
        assert forall|i: int| 0 <= i < p.len() implies among.contains(#[trigger] p[i]) by {
            assert(p.contains(p[i]));
            if p[i] != s.last() {
                let k = choose|k: int| 0 <= k < r.len() && r[k] == p[i];
            }
        }
    }
}

} // verus!

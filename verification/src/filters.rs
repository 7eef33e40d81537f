//! How filters of lists go together.
use vstd::prelude::*;

verus! {

/// A filter that everything passes keeps the list.
pub proof fn filter_of_all<T>(s: Seq<T>, keep: spec_fn(T) -> bool)
    requires
        forall|i: int| 0 <= i < s.len() ==> keep(#[trigger] s[i]),
    ensures
        s.filter(keep) == s,
    decreases s.len(),
{
    reveal(Seq::filter);
    if s.len() > 0 {
        assert forall|i: int| 0 <= i < s.drop_last().len() implies keep(
            #[trigger] s.drop_last()[i],
        ) by {
            assert(keep(s[i]));
        }
        filter_of_all(s.drop_last(), keep);
        assert(keep(s[s.len() - 1]));
        assert(s =~= s.drop_last().push(s.last()));
    } else {
        assert(s.filter(keep) =~= s);
    }
}

/// A filter that nothing passes leaves nothing.
pub proof fn filter_of_none<T>(s: Seq<T>, keep: spec_fn(T) -> bool)
    requires
        forall|i: int| 0 <= i < s.len() ==> !keep(#[trigger] s[i]),
    ensures
        s.filter(keep).len() == 0,
    decreases s.len(),
{
    reveal(Seq::filter);
    if s.len() > 0 {
        assert forall|i: int| 0 <= i < s.drop_last().len() implies !keep(
            #[trigger] s.drop_last()[i],
        ) by {
            assert(!keep(s[i]));
        }
        filter_of_none(s.drop_last(), keep);
        assert(!keep(s[s.len() - 1]));
    }
}

/// Two lists are filtered together as they are apart.
pub proof fn filter_of_halves<T>(a: Seq<T>, b: Seq<T>, keep: spec_fn(T) -> bool)
    ensures
        (a + b).filter(keep) == a.filter(keep) + b.filter(keep),
    decreases b.len(),
{
    reveal(Seq::filter);
    if b.len() == 0 {
        assert(a + b =~= a);
        assert(a.filter(keep) + b.filter(keep) =~= a.filter(keep));
    } else {
        assert((a + b).drop_last() =~= a + b.drop_last());
        filter_of_halves(a, b.drop_last(), keep);
        assert((a + b).last() == b.last());
        if keep(b.last()) {
            assert(a.filter(keep) + b.drop_last().filter(keep).push(b.last()) =~= (a.filter(keep)
                + b.drop_last().filter(keep)).push(b.last()));
        }
    }
}

/// A filter behind a wider one does what it does alone.
pub proof fn filter_of_filter<T>(s: Seq<T>, first: spec_fn(T) -> bool, second: spec_fn(T) -> bool)
    requires
        forall|x: T| #[trigger] second(x) ==> first(x),
    ensures
        s.filter(first).filter(second) == s.filter(second),
    decreases s.len(),
{
    reveal(Seq::filter);
    if s.len() > 0 {
        let t = s.drop_last();
        filter_of_filter(t, first, second);
        if first(s.last()) {
            let f = t.filter(first).push(s.last());
            assert(f.drop_last() =~= t.filter(first));
            assert(f.filter(second) =~= if second(s.last()) {
                t.filter(first).filter(second).push(s.last())
            } else {
                t.filter(first).filter(second)
            });
        }
    }
}

/// Filters that agree on all elements keep the same ones.
pub proof fn filter_of_agreeing<T>(s: Seq<T>, p: spec_fn(T) -> bool, q: spec_fn(T) -> bool)
    requires
        forall|i: int| 0 <= i < s.len() ==> p(#[trigger] s[i]) == q(s[i]),
    ensures
        s.filter(p) == s.filter(q),
    decreases s.len(),
{
    reveal(Seq::filter);
    if s.len() > 0 {
        let t = s.drop_last();
        assert forall|i: int| 0 <= i < t.len() implies p(#[trigger] t[i]) == q(t[i]) by {
            assert(t[i] == s[i]);
        }
        filter_of_agreeing(t, p, q);
        assert(p(s[s.len() - 1]) == q(s[s.len() - 1]));
    }
}

} // verus!

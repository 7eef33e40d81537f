//! The numbers of symbols and chunks: each is given once.
use vstd::prelude::*;
use crate::content;
use crate::content::{ContentModel, Manner};
use crate::files::ScopeModel;

verus! {

/// The least number in the content, or `bound` where it has none.
pub open spec fn least(c: ContentModel, bound: int) -> int {
    if c.symbols.len() > 0 {
        c.symbols[0].id as int
    } else if c.chunks.len() > 0 {
        c.chunks[0].id as int
    } else {
        bound
    }
}

/// The numbers in the content ascend, first those of its symbols and then those
/// of its chunks, and lie below `bound`.
pub open spec fn is_numbered(c: ContentModel, bound: int) -> bool {
    &&& forall|i: int, j: int|
        0 <= i < j < c.symbols.len() ==> (#[trigger] c.symbols[i]).id < (
        #[trigger] c.symbols[j]).id
    &&& forall|i: int, j: int|
        0 <= i < j < c.chunks.len() ==> (#[trigger] c.chunks[i]).id < (#[trigger] c.chunks[j]).id
    &&& forall|i: int, j: int|
        0 <= i < c.symbols.len() && 0 <= j < c.chunks.len() ==> (#[trigger] c.symbols[i]).id < (
        #[trigger] c.chunks[j]).id
    &&& forall|i: int| 0 <= i < c.symbols.len() ==> (#[trigger] c.symbols[i]).id < bound
    &&& forall|i: int| 0 <= i < c.chunks.len() ==> (#[trigger] c.chunks[i]).id < bound
}

/// The numbers in the contents ascend from each content to the next, and lie below
/// `bound`: no number occurs twice.
pub open spec fn are_numbered(cs: Seq<ContentModel>, bound: int) -> bool
    decreases cs.len(),
{
    cs.len() == 0 || (is_numbered(cs.last(), bound) && are_numbered(
        cs.drop_last(),
        least(cs.last(), bound),
    ))
}

/// What lies below a bound lies below a higher one.
pub proof fn higher_bounds_hold(cs: Seq<ContentModel>, low: int, high: int)
    requires
        are_numbered(cs, low),
        low <= high,
    ensures
        are_numbered(cs, high),
    decreases cs.len(),
{
    if cs.len() > 0 {
        higher_bounds_hold(cs.drop_last(), least(cs.last(), low), least(cs.last(), high));
    }
}

/// A file that is read with the numbers from `base` on goes behind the others.
pub proof fn new_numbers_go_behind(
    cs: Seq<ContentModel>,
    path: Seq<char>,
    s: Seq<char>,
    how: Manner,
    scope: ScopeModel,
    base: int,
)
    requires
        are_numbered(cs, base),
        0 <= base,
        base + content::content_size(s, how) <= u64::MAX,
    ensures
        are_numbered(
            cs.push(content::content_of(path, s, how, scope, base)),
            base + content::content_size(s, how),
        ),
{
    let c = content::content_of(path, s, how, scope, base);
    let bound = base + content::content_size(s, how);
    assert(cs.push(c).drop_last() =~= cs);
    assert(is_numbered(c, bound));
    assert(base <= least(c, bound));
    higher_bounds_hold(cs, base, least(c, bound));
}

/// Contents that are taken away leave the others numbered.
pub proof fn fewer_stay_numbered(
    cs: Seq<ContentModel>,
    bound: int,
    keep: spec_fn(ContentModel) -> bool,
)
    requires
        are_numbered(cs, bound),
    ensures
        are_numbered(cs.filter(keep), bound),
    decreases cs.len(),
{
    reveal(Seq::filter);
    if cs.len() > 0 {
        let t = cs.drop_last();
        fewer_stay_numbered(t, least(cs.last(), bound), keep);
        if keep(cs.last()) {
            assert(t.filter(keep).push(cs.last()).drop_last() =~= t.filter(keep));
        } else {
            least_is_low(cs.last(), bound);
            higher_bounds_hold(t.filter(keep), least(cs.last(), bound), bound);
        }
    }
}

/// The least number lies below the bound.
pub proof fn least_is_low(c: ContentModel, bound: int)
    requires
        is_numbered(c, bound),
    ensures
        least(c, bound) <= bound,
{
    if c.symbols.len() > 0 {
        assert(c.symbols[0].id < bound);
    } else if c.chunks.len() > 0 {
        assert(c.chunks[0].id < bound);
    }
}

/// The two contents hold the same numbers.
pub open spec fn same_numbers(a: ContentModel, b: ContentModel) -> bool {
    &&& a.symbols.len() == b.symbols.len()
    &&& forall|i: int|
        0 <= i < a.symbols.len() ==> (#[trigger] a.symbols[i]).id == b.symbols[i].id
    &&& a.chunks.len() == b.chunks.len()
    &&& forall|i: int| 0 <= i < a.chunks.len() ==> (#[trigger] a.chunks[i]).id == b.chunks[i].id
}

/// Contents with the same numbers are numbered alike.
pub proof fn same_numbers_stay(a: Seq<ContentModel>, b: Seq<ContentModel>, bound: int)
    requires
        are_numbered(a, bound),
        a.len() == b.len(),
        forall|i: int| 0 <= i < a.len() ==> same_numbers(#[trigger] b[i], a[i]),
    ensures
        are_numbered(b, bound),
    decreases a.len(),
{
    if a.len() > 0 {
        let (c, d) = (a.last(), b.last());
        assert(same_numbers(b[b.len() - 1], a[a.len() - 1]));
        assert(is_numbered(d, bound)) by {
            assert forall|i: int| 0 <= i < d.symbols.len() implies (#[trigger] d.symbols[i]).id
                == c.symbols[i].id by {}
            assert forall|i: int| 0 <= i < d.chunks.len() implies (#[trigger] d.chunks[i]).id
                == c.chunks[i].id by {}
        }
        if d.symbols.len() > 0 {
            assert(d.symbols[0].id == c.symbols[0].id);
        }
        if d.chunks.len() > 0 {
            assert(d.chunks[0].id == c.chunks[0].id);
        }
        assert(least(c, bound) == least(d, bound));
        let (t, u) = (a.drop_last(), b.drop_last());
        assert forall|i: int| 0 <= i < t.len() implies same_numbers(#[trigger] u[i], t[i]) by {
            assert(same_numbers(b[i], a[i]));
        }
        same_numbers_stay(t, u, least(c, bound));
    }
}

} // verus!

//! Paths of indexed files: segments separated by `/`, any other character being
//! part of a name.
use vstd::prelude::*;

verus! {

/// The directory that holds a path: everything before the last separator, and
/// nothing where there is none.
pub open spec fn parent(p: Seq<char>) -> Seq<char>
    decreases p.len(),
{
    if p.len() == 0 {
        p
    } else if p.last() == '/' {
        p.drop_last()
    } else {
        parent(p.drop_last())
    }
}

/// A parent is shorter.
pub proof fn parent_is_shorter(p: Seq<char>)
    ensures
        p.len() > 0 ==> parent(p).len() < p.len(),
        p.len() == 0 ==> parent(p).len() == 0,
    decreases p.len(),
{
    if p.len() > 0 && p.last() != '/' {
        parent_is_shorter(p.drop_last());
    }
}

/// How many segments a path has, as far as its parents go.
pub open spec fn depth(p: Seq<char>) -> nat
    decreases p.len(),
    via depth_decreases
{
    if p.len() == 0 {
        0
    } else {
        depth(parent(p)) + 1
    }
}

#[via_fn]
proof fn depth_decreases(p: Seq<char>) {
    parent_is_shorter(p);
}

/// `p` is `dir` itself or lies in it, directly or further down.
pub open spec fn within(p: Seq<char>, dir: Seq<char>) -> bool
    decreases p.len(),
    via within_decreases
{
    p == dir || (p.len() > 0 && within(parent(p), dir))
}

#[via_fn]
proof fn within_decreases(p: Seq<char>, dir: Seq<char>) {
    parent_is_shorter(p);
}

/// Every path lies in the root.
pub proof fn within_root(p: Seq<char>)
    ensures
        within(p, Seq::empty()),
    decreases p.len(),
{
    parent_is_shorter(p);
    if p.len() == 0 {
        assert(p =~= Seq::empty());
    } else {
        within_root(parent(p));
    }
}

/// What lies in a directory lies in everything that the directory lies in.
pub proof fn within_transitive(p: Seq<char>, d: Seq<char>, e: Seq<char>)
    requires
        within(p, d),
        within(d, e),
    ensures
        within(p, e),
    decreases p.len(),
{
    parent_is_shorter(p);
    if p != d {
        within_transitive(parent(p), d, e);
    }
}

/// What lies in a directory and is not it is longer and deeper.
pub proof fn within_is_longer(p: Seq<char>, d: Seq<char>)
    requires
        within(p, d),
    ensures
        p == d || (p.len() > d.len() && depth(p) > depth(d)),
    decreases p.len(),
{
    parent_is_shorter(p);
    if p != d {
        within_is_longer(parent(p), d);
    }
}

/// A path that lies in a directory other than itself begins with the directory's
/// path, and then comes a separator, unless the directory is the root.
pub proof fn within_is_prefixed(p: Seq<char>, d: Seq<char>)
    requires
        within(p, d),
        p != d,
        d.len() > 0,
    ensures
        p.len() > d.len(),
        p.take(d.len() as int) == d,
        p[d.len() as int] == '/',
    decreases p.len(),
{
    let q = parent(p);
    parent_is_shorter(p);
    parent_is_prefix(p);
    if q != d {
        within_is_prefixed(q, d);
        assert(p.take(d.len() as int) =~= q.take(d.len() as int));
        assert(p[d.len() as int] == p.take(q.len() as int)[d.len() as int]);
    }
}

proof fn parent_is_prefix(p: Seq<char>)
    ensures
        parent(p).len() <= p.len(),
        p.take(parent(p).len() as int) == parent(p),
        parent(p).len() > 0 ==> parent(p).len() < p.len() && p[parent(p).len() as int] == '/',
    decreases p.len(),
{
    if p.len() > 0 {
        if p.last() == '/' {
            assert(p.take(p.len() - 1) =~= p.drop_last());
        } else {
            let d = p.drop_last();
            parent_is_prefix(d);
            assert(p.take(parent(p).len() as int) =~= d.take(parent(d).len() as int));
            if parent(p).len() > 0 {
                assert(p[parent(p).len() as int] == d[parent(d).len() as int]);
            }
        }
    } else {
        assert(p.take(0) =~= p);
    }
}

/// The directory that holds a path.
pub fn parent_of(p: &str) -> (r: String)
    ensures
        r@ == parent(p@),
{
    let n: usize = p.unicode_len();
    let mut k: usize = n;
    assert(p@.take(n as int) =~= p@);
    while k > 0
        invariant
            k <= n == p@.len(),
            parent(p@) == parent(p@.take(k as int)),
        decreases k,
    {
        let c: char = p.get_char(k - 1);
        assert(p@.take(k as int).last() == c);
        assert(p@.take(k as int).drop_last() =~= p@.take(k - 1));
        if c == '/' {
            assert(p@.subrange(0, k - 1) =~= p@.take(k - 1));
            return p.substring_char(0, k - 1).to_owned();
        }
        k -= 1;
    }
    let r = String::new();
    assert(p@.take(0) =~= Seq::empty());
    assert(r@ =~= Seq::empty());
    r
}

/// How many segments a path has.
pub fn depth_of(p: &str) -> (r: usize)
    ensures
        r == depth(p@),
        r <= p@.len(),
{
    let longest: usize = p.unicode_len();
    let mut rest: String = p.to_owned();
    let mut r: usize = 0;
    while !is_empty_text(rest.as_str())
        invariant
            r + depth(rest@) == depth(p@),
            r + rest@.len() <= p@.len(),
            p@.len() == longest,
        decreases rest@.len(),
    {
        let up = parent_of(rest.as_str());
        proof {
            parent_is_shorter(rest@);
        }
        rest = up;
        r += 1;
    }
    r
}

/// Whether a text is empty.
pub fn is_empty_text(s: &str) -> (r: bool)
    ensures
        r == (s@.len() == 0),
{
    s.unicode_len() == 0
}

/// Whether `p` is `dir` or lies in it.
pub fn lies_within(p: &str, dir: &str) -> (r: bool)
    ensures
        r == within(p@, dir@),
{
    let wanted = dir.to_owned();
    let mut rest: String = p.to_owned();
    loop
        invariant
            wanted@ == dir@,
            within(p@, dir@) == within(rest@, dir@),
        decreases rest@.len(),
    {
        if rest == wanted {
            return true;
        }
        if is_empty_text(rest.as_str()) {
            return false;
        }
        let up = parent_of(rest.as_str());
        proof {
            parent_is_shorter(rest@);
        }
        rest = up;
    }
}

} // verus!

//! Laws on what is measured of a class: how far it is spread, how much its members hold
//! together, and which of them is closest to the others.
use vstd::prelude::*;
use crate::candidates;
use crate::classes;
use crate::index::IndexModel;
use crate::paths;

verus! {

/// The directories that hold the files of the first `k` members.
pub open spec fn homes(db: IndexModel, g: Seq<(int, int)>, k: nat) -> Set<Seq<char>> {
    Set::new(
        |d: Seq<char>|
            exists|a: int|
                0 <= a < k && d == paths::parent(db.contents[(#[trigger] g[a]).0].path),
    )
}

proof fn directories_are_homes(db: IndexModel, g: Seq<(int, int)>, k: nat)
    requires
        k <= g.len(),
    ensures
        classes::directories(db, g, k).no_duplicates(),
        classes::directories(db, g, k).to_set() == homes(db, g, k),
    decreases k,
{
    let now = classes::directories(db, g, k);
    if k == 0 {
        assert(now.to_set() =~= homes(db, g, k));
    } else {
        let n = (k - 1) as nat;
        directories_are_homes(db, g, n);
        let rest = classes::directories(db, g, n);
        let dir = paths::parent(db.contents[g[k - 1].0].path);
        assert forall|d: Seq<char>| homes(db, g, k).contains(d) <==> homes(db, g, n).contains(d)
            || d == dir by {
            if homes(db, g, n).contains(d) {
                let a = choose|a: int|
                    0 <= a < n && d == paths::parent(db.contents[(#[trigger] g[a]).0].path);
                assert(0 <= a < k && d == paths::parent(db.contents[g[a].0].path));
            }
            if d == dir {
                assert(d == paths::parent(db.contents[g[k - 1].0].path));
            }
        }
        assert(rest.contains(dir) <==> rest.to_set().contains(dir));
        if rest.contains(dir) {
            assert(now.to_set() =~= homes(db, g, k));
        } else {
            assert forall|d: Seq<char>| now.to_set().contains(d) <==> rest.to_set().contains(d) || d
                == dir by {
                if rest.contains(d) {
                    let i = choose|i: int| 0 <= i < rest.len() && rest[i] == d;
                    assert(now[i] == d);
                }
                if now.contains(d) {
                    let i = choose|i: int| 0 <= i < now.len() && now[i] == d;
                    if i < rest.len() {
                        assert(rest[i] == d);
                    }
                }
                assert(now[now.len() - 1] == dir);
            }
            assert(now.to_set() =~= homes(db, g, k));
        }
    }
}

/// A class is spread over as many directories as hold files of its members.
pub proof fn spread_counts_directories(db: IndexModel, g: Seq<(int, int)>)
    ensures
        homes(db, g, g.len()).finite(),
        classes::spread(db, g) == homes(db, g, g.len()).len(),
{
    directories_are_homes(db, g, g.len());
    classes::directories(db, g, g.len()).unique_seq_to_set();
}

/// The function has tokens.
pub open spec fn has_tokens(db: IndexModel, p: (int, int)) -> bool {
    candidates::print_at(db, p).shape.len() > 0
}

proof fn less_goes_on(s: (nat, nat), r: (nat, nat), h: (nat, nat))
    requires
        r.1 > 0,
        s.0 * r.1 >= r.0 * s.1,
        h.0 * r.1 < r.0 * h.1,
    ensures
        s.0 * h.1 >= h.0 * s.1,
{
    let (s0, s1) = (s.0 as int, s.1 as int);
    let (r0, r1) = (r.0 as int, r.1 as int);
    let (h0, h1) = (h.0 as int, h.1 as int);
    assert(s0 * h1 >= h0 * s1) by (nonlinear_arith)
        requires
            r1 > 0,
            s0 >= 0,
            s1 >= 0,
            h1 >= 0,
            s0 * r1 >= r0 * s1,
            h0 * r1 < r0 * h1,
    {
        assert((s0 * r1) * h1 >= (r0 * s1) * h1);
        assert((r0 * h1) * s1 >= (h0 * r1) * s1);
        assert((s0 * h1) * r1 >= (h0 * s1) * r1);
    }
}

proof fn shares_are_no_less(db: IndexModel, g: Seq<(int, int)>, k: nat, b: nat)
    requires
        1 <= k <= g.len(),
        b < k,
        forall|a: int| 0 <= a < g.len() ==> has_tokens(db, #[trigger] g[a]),
    ensures
        classes::least_share(db, g, k, b).1 > 0,
        forall|x: int, y: int|
            0 <= x < y < k && (y < k - 1 || x < b) ==> (#[trigger] classes::shared(
                db,
                g[x],
                g[y],
            )).0 * classes::least_share(db, g, k, b).1 >= classes::least_share(db, g, k, b).0
                * classes::shared(db, g[x], g[y]).1,
        classes::least_share(db, g, k, b) == (1nat, 1nat) || exists|x: int, y: int|
            0 <= x < y < k && #[trigger] classes::shared(db, g[x], g[y]) == classes::least_share(
                db,
                g,
                k,
                b,
            ),
    decreases k, b,
{
    if k > 1 {
        if b == 0 {
            shares_are_no_less(db, g, (k - 1) as nat, (k - 2) as nat);
        } else {
            shares_are_no_less(db, g, k, (b - 1) as nat);
            let rest = classes::least_share(db, g, k, (b - 1) as nat);
            let here = classes::shared(db, g[b - 1], g[k - 1]);
            let now = classes::least_share(db, g, k, b);
            assert(has_tokens(db, g[b - 1]) && has_tokens(db, g[k - 1]));
            assert forall|x: int, y: int| 0 <= x < y < k && (y < k - 1 || x < b) implies (
            #[trigger] classes::shared(db, g[x], g[y])).0 * now.1 >= now.0 * classes::shared(
                db,
                g[x],
                g[y],
            ).1 by {
                let s = classes::shared(db, g[x], g[y]);
                if y == k - 1 && x == b - 1 {
                    assert(s == here);
                } else {
                    assert(s.0 * rest.1 >= rest.0 * s.1);
                    if classes::is_less(here, rest) {
                        less_goes_on(s, rest, here);
                    }
                }
            }
        }
    }
}

/// The cohesion of a class is the least share that two of its members have in common:
/// no two have less, and two have just as much, unless all have everything in common.
pub proof fn cohesion_is_the_least_share(db: IndexModel, g: Seq<(int, int)>)
    requires
        g.len() > 0,
        forall|a: int| 0 <= a < g.len() ==> has_tokens(db, #[trigger] g[a]),
    ensures
        forall|x: int, y: int|
            0 <= x < y < g.len() ==> (#[trigger] classes::shared(db, g[x], g[y])).0
                * classes::cohesion(db, g).1 >= classes::cohesion(db, g).0 * classes::shared(
                db,
                g[x],
                g[y],
            ).1,
        classes::cohesion(db, g) == (1nat, 1nat) || exists|x: int, y: int|
            0 <= x < y < g.len() && #[trigger] classes::shared(db, g[x], g[y])
                == classes::cohesion(db, g),
{
    shares_are_no_less(db, g, g.len(), (g.len() - 1) as nat);
}

proof fn closest_below(db: IndexModel, g: Seq<(int, int)>, k: nat)
    requires
        1 <= k <= g.len(),
    ensures
        0 <= classes::closest(db, g, k) < k,
        forall|a: int|
            0 <= a < k ==> #[trigger] classes::closeness(db, g, a, g.len()) <= classes::closeness(
                db,
                g,
                classes::closest(db, g, k),
                g.len(),
            ),
    decreases k,
{
    if k > 1 {
        closest_below(db, g, (k - 1) as nat);
    }
}

/// No member is closer to the others than the one that stands for the class.
pub proof fn nobody_is_closer(db: IndexModel, g: Seq<(int, int)>, a: int)
    requires
        0 <= a < g.len(),
    ensures
        0 <= classes::closest(db, g, g.len()) < g.len(),
        classes::closeness(db, g, a, g.len()) <= classes::closeness(
            db,
            g,
            classes::closest(db, g, g.len()),
            g.len(),
        ),
{
    closest_below(db, g, g.len());
}

} // verus!

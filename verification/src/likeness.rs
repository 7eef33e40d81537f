//! Laws on clones: which functions are looked at, which of them are alike, and that
//! those which are alike are found, in terms of the stored rows, the languages and the
//! tokens alone.
use vstd::prelude::*;
use vstd::multiset::Multiset;
use crate::candidates;
use crate::classes;
use crate::clones;
use crate::clones::{FindClonesOptions, FindClonesResult};
use crate::content::SymbolModel;
use crate::files;
use crate::fingerprint;
use crate::fingerprint::{PrintModel, Theta, NORM_VERSION};
use crate::groups;
use crate::index::IndexModel;
use crate::kinship;
use crate::order;
use crate::scoped;

verus! {

/// The place is that of a symbol with a fingerprint of the version in use, in a file
/// that nobody generated and of which a reader sees a row.
pub open spec fn is_looked_at(db: IndexModel, p: (int, int)) -> bool {
    &&& 0 <= p.0 < db.contents.len()
    &&& 0 <= p.1 < db.contents[p.0].symbols.len()
    &&& db.contents[p.0].symbols[p.1].print is Some
    &&& db.contents[p.0].symbols[p.1].print->0.version == NORM_VERSION
    &&& exists|i: int|
        0 <= i < db.files.len() && (#[trigger] db.files[i]).repo_id == db.contents[p.0].repo_id
            && db.files[i].path == db.contents[p.0].path && db.files[i].commit_sha
            == db.contents[p.0].commit_sha && db.files[i].worktree_id
            == db.contents[p.0].worktree_id && db.files[i].generation
            == db.contents[p.0].generation && !db.files[i].generated && files::is_visible(
            db.files,
            db.files[i],
            db.scope(),
        )
}

proof fn printed_are_those(symbols: Seq<SymbolModel>, i: int, k: nat, p: (int, int))
    requires
        k <= symbols.len(),
    ensures
        candidates::printed(symbols, i, k).contains(p) <==> p.0 == i && 0 <= p.1 < k
            && candidates::has_print(symbols[p.1]),
        candidates::printed(symbols, i, k).no_duplicates(),
    decreases k,
{
    if k > 0 {
        let rest = candidates::printed(symbols, i, (k - 1) as nat);
        let now = candidates::printed(symbols, i, k);
        let x = (i, k - 1);
        printed_are_those(symbols, i, (k - 1) as nat, p);
        printed_are_those(symbols, i, (k - 1) as nat, x);
        assert(!rest.contains(x));
        if now.len() > rest.len() {
            assert(now[now.len() - 1] == x);
        }
        if rest.contains(p) {
            let a = choose|a: int| 0 <= a < rest.len() && rest[a] == p;
            assert(now[a] == p);
        }
        if now.contains(p) && p != x {
            let a = choose|a: int| 0 <= a < now.len() && now[a] == p;
            assert(rest[a] == p);
        }
    }
}

proof fn candidates_below_are_those(db: IndexModel, k: nat, p: (int, int))
    requires
        k <= db.contents.len(),
    ensures
        candidates::candidates_below(db, k).contains(p) <==> p.0 < k && is_looked_at(db, p),
        candidates::candidates_below(db, k).no_duplicates(),
    decreases k,
{
    if k > 0 {
        let i = k - 1;
        let c = db.contents[i];
        let rest = candidates::candidates_below(db, (k - 1) as nat);
        let now = candidates::candidates_below(db, k);
        let own = candidates::printed(c.symbols, i, c.symbols.len());
        candidates_below_are_those(db, (k - 1) as nat, p);
        printed_are_those(c.symbols, i, c.symbols.len(), p);
        if scoped::is_seen(db, c, false) {
            assert(now == rest + own);
            if rest.contains(p) {
                let a = choose|a: int| 0 <= a < rest.len() && rest[a] == p;
                assert(now[a] == p);
            }
            if own.contains(p) {
                let a = choose|a: int| 0 <= a < own.len() && own[a] == p;
                assert(now[rest.len() + a] == p);
            }
            if now.contains(p) {
                let a = choose|a: int| 0 <= a < now.len() && now[a] == p;
                if a < rest.len() {
                    assert(rest[a] == p);
                } else {
                    assert(own[a - rest.len()] == p);
                }
            }
            assert forall|a: int, b: int| 0 <= a < b < now.len() implies now[a] != now[b] by {
                if b < rest.len() {
                    assert(rest[a] != rest[b]);
                } else if a >= rest.len() {
                    assert(own[a - rest.len()] != own[b - rest.len()]);
                } else {
                    candidates_below_are_those(db, (k - 1) as nat, rest[a]);
                    assert(rest.contains(rest[a]));
                    printed_are_those(c.symbols, i, c.symbols.len(), own[b - rest.len()]);
                    assert(own.contains(own[b - rest.len()]));
                }
            }
        }
    }
}

/// The candidates are the places that are looked at, each once.
pub proof fn candidates_are_those(db: IndexModel, p: (int, int))
    ensures
        candidates::candidates(db).contains(p) <==> is_looked_at(db, p),
        candidates::candidates(db).no_duplicates(),
{
    candidates_below_are_those(db, db.contents.len(), p);
}

/// The functions at the two places are alike: they are in one language, and what
/// their bags have in common is at least the share that is asked for of each of them,
/// and so of the longer.
pub open spec fn are_alike(db: IndexModel, p: (int, int), q: (int, int), t: Theta) -> bool {
    let a = db.contents[p.0].symbols[p.1].print->0;
    let b = db.contents[q.0].symbols[q.1].print->0;
    let common = fingerprint::overlap(a.bag, b.bag);
    &&& db.contents[p.0].language == db.contents[q.0].language
    &&& common * t.den >= t.num * a.shape.len()
    &&& common * t.den >= t.num * b.shape.len()
}

proof fn rounding_does_not_matter(x: int, num: int, len: int, den: int)
    requires
        den > 0,
    ensures
        x >= (num * len + den - 1) / den <==> x * den >= num * len,
{
    let y = num * len;
    let q = (y + den - 1) / den;
    assert(q * den <= y + den - 1 < (q + 1) * den) by (nonlinear_arith)
        requires
            den > 0,
            q == (y + den - 1) / den,
    ;
    if x >= q {
        assert(x * den >= q * den) by (nonlinear_arith)
            requires
                x >= q,
                den > 0,
        ;
        assert((q + 1) * den == q * den + den) by (nonlinear_arith);
    } else {
        assert((x + 1) * den <= q * den) by (nonlinear_arith)
            requires
                x + 1 <= q,
                den > 0,
        ;
        assert((x + 1) * den == x * den + den) by (nonlinear_arith);
    }
}

proof fn larger_share(x: int, num: int, a: int, b: int)
    requires
        num >= 0,
        a >= b,
        x >= num * a,
    ensures
        x >= num * b,
{
    assert(num * a >= num * b) by (nonlinear_arith)
        requires
            num >= 0,
            a >= b,
    ;
}

proof fn linked_is_alike(db: IndexModel, p: (int, int), q: (int, int), t: Theta)
    requires
        t.den > 0,
    ensures
        candidates::linked(db, p, q, t) <==> are_alike(db, p, q, t),
{
    let a = candidates::print_at(db, p);
    let b = candidates::print_at(db, q);
    let x = fingerprint::overlap(a.bag, b.bag) as int;
    let (la, lb) = (a.shape.len() as int, b.shape.len() as int);
    let (num, den) = (t.num as int, t.den as int);
    rounding_does_not_matter(x, num, la, den);
    rounding_does_not_matter(x, num, lb, den);
    if la >= lb && x * den >= num * la {
        larger_share(x * den, num, la, lb);
    }
    if lb >= la && x * den >= num * lb {
        larger_share(x * den, num, lb, la);
    }
}

/// Two functions that are alike are found, whatever files they lie in: one component
/// holds both, and each stands in a class that a search without a limit lists.
pub proof fn functions_that_are_alike_are_found(
    db: IndexModel,
    t: Theta,
    p: (int, int),
    q: (int, int),
)
    requires
        t.den > 0,
        is_looked_at(db, p),
        is_looked_at(db, q),
        p != q,
        are_alike(db, p, q, t),
        are_alike(db, q, p, t),
    ensures
        exists|c: int|
            0 <= c < candidates::clone_components(db, t).len() && (
            #[trigger] candidates::clone_components(db, t)[c]).contains(
                db.contents[p.0].symbols[p.1].id,
            ) && candidates::clone_components(db, t)[c].contains(
                db.contents[q.0].symbols[q.1].id,
            ),
        exists|c: int|
            0 <= c < clones::ranked_groups(db, t, 2).len() && (#[trigger] clones::ranked_groups(
                db,
                t,
                2,
            )[c]).contains(p),
        exists|c: int|
            0 <= c < clones::ranked_groups(db, t, 2).len() && (#[trigger] clones::ranked_groups(
                db,
                t,
                2,
            )[c]).contains(q),
{
    let ps = candidates::candidates(db);
    let m = candidates::relation_of(db, ps, t);
    candidates_are_those(db, p);
    candidates_are_those(db, q);
    let i = choose|i: int| 0 <= i < ps.len() && ps[i] == p;
    let j = choose|j: int| 0 <= j < ps.len() && ps[j] == q;
    linked_is_alike(db, p, q, t);
    linked_is_alike(db, q, p, t);
    if i < j {
        assert(m[j][i] == candidates::linked(db, ps[j], ps[i], t));
    } else {
        assert(m[i][j] == candidates::linked(db, ps[i], ps[j], t));
    }
    assert(groups::related(m, i, j));
    assert(groups::related(m, j, i));
    groups::relatives_stand_together(m, i, j);
    let cs = groups::components(m);
    let c = choose|c: int|
        0 <= c < cs.len() && (#[trigger] cs[c]).contains(i) && cs[c].contains(j);
    let ids = candidates::clone_components(db, t);
    assert(ids[c] == candidates::ids_at(db, ps, cs[c]));
    let a = choose|a: int| 0 <= a < cs[c].len() && cs[c][a] == i;
    let b = choose|b: int| 0 <= b < cs[c].len() && cs[c][b] == j;
    assert(ids[c][a] == db.contents[p.0].symbols[p.1].id);
    assert(ids[c][b] == db.contents[q.0].symbols[q.1].id);
    assert(ids[c].contains(db.contents[p.0].symbols[p.1].id));
    groups::groups_reach_all(m, i, j);
    groups::groups_reach_all(m, j, i);
    covered_places_are_listed(db, t, i);
    covered_places_are_listed(db, t, j);
}

proof fn covered_places_are_listed(db: IndexModel, t: Theta, i: int)
    requires
        groups::is_covered(
            groups::coherent_groups(
                candidates::relation_of(db, candidates::candidates(db), t),
            ),
            i,
        ),
    ensures
        exists|c: int|
            0 <= c < clones::ranked_groups(db, t, 2).len() && (#[trigger] clones::ranked_groups(
                db,
                t,
                2,
            )[c]).contains(candidates::candidates(db)[i]),
{
    broadcast use vstd::seq_lib::group_to_multiset_ensures;

    let ps = candidates::candidates(db);
    let m = candidates::relation_of(db, ps, t);
    let gs = groups::coherent_groups(m);
    let c = choose|c: int| 0 <= c < gs.len() && (#[trigger] gs[c]).contains(i);
    let k = choose|k: int| 0 <= k < gs[c].len() && gs[c][k] == i;
    let all = gs.map_values(|l: Seq<int>| clones::picked(ps, l));
    let many = |g: Seq<(int, int)>| g.len() >= 2;
    groups::cover_below(m, m.len()).lemma_filter_pred(|g: Seq<int>| g.len() >= 2, c);
    assert(all[c].len() == gs[c].len());
    all.lemma_filter_contains(many, c);
    let found = clones::found_groups(db, t, 2);
    assert(found =~= all.filter(many));
    assert(all[c][k] == ps[i]);
    let more = |g: Seq<(int, int)>, h: Seq<(int, int)>| clones::is_worth_more(db, g, h);
    order::ranked_keeps(found, more);
    let r = clones::ranked_groups(db, t, 2);
    assert(found.contains(all[c]));
    assert(r.to_multiset().count(all[c]) > 0);
    assert(r.contains(all[c]));
    let d = choose|d: int| 0 <= d < r.len() && r[d] == all[c];
    assert(r[d].contains(ps[i]));
}

/// Any two members of a class are alike, and both are places that are looked at: a
/// class never rests on a chain.
pub proof fn members_of_a_class_are_alike(
    db: IndexModel,
    t: Theta,
    copies: nat,
    c: int,
    a: int,
    b: int,
)
    requires
        t.den > 0,
        0 <= c < clones::found_groups(db, t, copies).len(),
        0 <= b < a < clones::found_groups(db, t, copies)[c].len(),
    ensures
        are_alike(
            db,
            clones::found_groups(db, t, copies)[c][a],
            clones::found_groups(db, t, copies)[c][b],
            t,
        ),
        clones::found_groups(db, t, copies)[c][a] != clones::found_groups(db, t, copies)[c][b],
        is_looked_at(db, clones::found_groups(db, t, copies)[c][a]),
        is_looked_at(db, clones::found_groups(db, t, copies)[c][b]),
        clones::found_groups(db, t, copies)[c].len() >= copies,
{
    let g = clones::found_groups(db, t, copies)[c];
    kinship::members_are_alike(db, t, copies, c, a, b);
    linked_is_alike(db, g[a], g[b], t);
    let ps = candidates::candidates(db);
    let m = candidates::relation_of(db, ps, t);
    let d = kinship::found_group_is_picked(db, t, copies, c);
    let l = groups::coherent_groups(m)[d];
    groups::groups_are_coherent(m, d, b, a);
    assert(g[a] == ps[l[a]] && g[b] == ps[l[b]]);
    candidates_are_those(db, g[a]);
    candidates_are_those(db, g[b]);
    assert(ps.contains(ps[l[a]]) && ps.contains(ps[l[b]]));
}

/// The class holds the symbol among its members, unless it has more of them than are
/// listed.
pub open spec fn class_holds(c: classes::ClassModel, id: u64) -> bool {
    c.member_count > 50 || exists|k: int|
        0 <= k < c.members.len() && (#[trigger] c.members[k]).symbol_id == id
}

/// What a search for clones answers, where no limit is set and two copies are enough,
/// has for each of two functions that are alike a class that holds it.
pub proof fn searches_show_functions_that_are_alike(
    r: FindClonesResult,
    db: IndexModel,
    tree: Seq<(Seq<char>, Seq<char>)>,
    kept: Seq<(Seq<char>, (nat, nat))>,
    o: FindClonesOptions,
    p: (int, int),
    q: (int, int),
)
    requires
        clones::is_result(r, db, tree, kept, o),
        o.limit is None,
        o.min_copies is None || o.min_copies->0 <= 2,
        (match o.min_similarity {
            Some(t) => t.den > 0,
            None => true,
        }),
        is_looked_at(db, p),
        is_looked_at(db, q),
        p != q,
        are_alike(
            db,
            p,
            q,
            match o.min_similarity {
                Some(t) => t,
                None => Theta { num: 7, den: 10 },
            },
        ),
        are_alike(
            db,
            q,
            p,
            match o.min_similarity {
                Some(t) => t,
                None => Theta { num: 7, den: 10 },
            },
        ),
    ensures
        exists|c: int|
            0 <= c < r.classes@.len() && #[trigger] class_holds(
                r.classes@[c]@,
                db.contents[p.0].symbols[p.1].id,
            ),
        exists|c: int|
            0 <= c < r.classes@.len() && #[trigger] class_holds(
                r.classes@[c]@,
                db.contents[q.0].symbols[q.1].id,
            ),
{
    let t = clones::asked_theta(o);
    functions_that_are_alike_are_found(db, t, p, q);
    place_is_shown(r, db, tree, kept, o, p);
    place_is_shown(r, db, tree, kept, o, q);
}

proof fn place_is_shown(
    r: FindClonesResult,
    db: IndexModel,
    tree: Seq<(Seq<char>, Seq<char>)>,
    kept: Seq<(Seq<char>, (nat, nat))>,
    o: FindClonesOptions,
    p: (int, int),
)
    requires
        clones::is_result(r, db, tree, kept, o),
        o.limit is None,
        clones::asked_copies(o) == 2,
        exists|c: int|
            0 <= c < clones::ranked_groups(db, clones::asked_theta(o), 2).len() && (
            #[trigger] clones::ranked_groups(db, clones::asked_theta(o), 2)[c]).contains(p),
    ensures
        exists|c: int|
            0 <= c < r.classes@.len() && #[trigger] class_holds(
                r.classes@[c]@,
                db.contents[p.0].symbols[p.1].id,
            ),
{
    let gs = clones::ranked_groups(db, clones::asked_theta(o), 2);
    let c = choose|c: int| 0 <= c < gs.len() && (#[trigger] gs[c]).contains(p);
    let models = classes::class_models(r.classes@);
    assert(models.len() == gs.len());
    assert(models[c] == r.classes@[c]@);
    let k = choose|k: int| 0 <= k < gs[c].len() && gs[c][k] == p;
    if gs[c].len() <= 50 {
        assert(models[c].members[k].symbol_id == db.contents[p.0].symbols[p.1].id);
    }
    assert(class_holds(r.classes@[c]@, db.contents[p.0].symbols[p.1].id));
}

spec fn copies_of(x: Seq<char>, n: nat) -> Multiset<Seq<char>>
    decreases n,
{
    if n == 0 {
        Multiset::empty()
    } else {
        copies_of(x, (n - 1) as nat).insert(x)
    }
}

proof fn copies_are_many(x: Seq<char>, n: nat)
    ensures
        copies_of(x, n).len() == n,
        copies_of(x, n).count(x) == n,
        forall|y: Seq<char>| y != x ==> #[trigger] copies_of(x, n).count(y) == 0,
    decreases n,
{
    broadcast use vstd::multiset::group_multiset_axioms;

    if n > 0 {
        copies_are_many(x, (n - 1) as nat);
    }
}

spec fn shared(a: Seq<(Seq<char>, u64)>, b: Seq<(Seq<char>, u64)>) -> Multiset<Seq<char>>
    decreases a.len(),
{
    if a.len() == 0 {
        Multiset::empty()
    } else {
        shared(a.drop_last(), b).add(
            copies_of(
                a.last().0,
                fingerprint::min_of(a.last().1, fingerprint::freq_in(b, a.last().0)),
            ),
        )
    }
}

proof fn shared_counts(a: Seq<(Seq<char>, u64)>, b: Seq<(Seq<char>, u64)>)
    requires
        fingerprint::is_distinct(a),
    ensures
        shared(a, b).len() == fingerprint::overlap(a, b),
        forall|x: Seq<char>| #[trigger]
            shared(a, b).count(x) == fingerprint::min_of(
                fingerprint::freq_in(a, x),
                fingerprint::freq_in(b, x),
            ),
    decreases a.len(),
{
    broadcast use vstd::multiset::group_multiset_axioms;

    if a.len() > 0 {
        let rest = a.drop_last();
        let e = a.last();
        assert forall|i: int, j: int| 0 <= i < j < rest.len() implies (#[trigger] rest[i]).0 != (
        #[trigger] rest[j]).0 by {
            assert(a[i].0 != a[j].0);
        }
        shared_counts(rest, b);
        assert forall|i: int| 0 <= i < rest.len() implies (#[trigger] rest[i]).0 != e.0 by {
            assert(a[i].0 != a[a.len() - 1].0);
        }
        missing_has_no_count(rest, e.0);
        let n = fingerprint::min_of(e.1, fingerprint::freq_in(b, e.0));
        copies_are_many(e.0, n);
        assert forall|x: Seq<char>| #[trigger]
            shared(a, b).count(x) == fingerprint::min_of(
                fingerprint::freq_in(a, x),
                fingerprint::freq_in(b, x),
            ) by {
            assert(shared(rest, b).count(x) == fingerprint::min_of(
                fingerprint::freq_in(rest, x),
                fingerprint::freq_in(b, x),
            ));
            if x != e.0 {
                assert(copies_of(e.0, n).count(x) == 0);
            }
        }
    }
}

proof fn missing_has_no_count(bag: Seq<(Seq<char>, u64)>, x: Seq<char>)
    requires
        forall|i: int| 0 <= i < bag.len() ==> (#[trigger] bag[i]).0 != x,
    ensures
        fingerprint::freq_in(bag, x) == 0,
    decreases bag.len(),
{
    if bag.len() > 0 {
        assert(bag[bag.len() - 1].0 != x);
        let rest = bag.drop_last();
        assert forall|i: int| 0 <= i < rest.len() implies (#[trigger] rest[i]).0 != x by {
            assert(bag[i].0 != x);
        }
        missing_has_no_count(rest, x);
    }
}

proof fn occurrences(shape: Seq<Seq<char>>, x: Seq<char>)
    ensures
        shape.to_multiset().count(x) == fingerprint::count_in(shape, x),
    decreases shape.len(),
{
    broadcast use vstd::seq_lib::group_to_multiset_ensures;

    if shape.len() == 0 {
        assert(shape =~= Seq::<Seq<char>>::empty());
    } else {
        occurrences(shape.drop_last(), x);
        assert(shape =~= shape.drop_last().push(shape.last()));
    }
}

/// What the bags of two shapes have in common is the number of tokens that the
/// shapes have in common, each as often as in the one that has it less often.
pub proof fn overlap_is_what_is_in_common(a: Seq<Seq<char>>, b: Seq<Seq<char>>)
    requires
        a.len() <= u64::MAX,
        b.len() <= u64::MAX,
    ensures
        fingerprint::overlap(fingerprint::bag_of(a), fingerprint::bag_of(b))
            == a.to_multiset().intersection_with(b.to_multiset()).len(),
{
    broadcast use vstd::multiset::group_multiset_axioms;

    fingerprint::bag_counts(a);
    fingerprint::bag_counts(b);
    let (x, y) = (fingerprint::bag_of(a), fingerprint::bag_of(b));
    shared_counts(x, y);
    let both = a.to_multiset().intersection_with(b.to_multiset());
    assert forall|t: Seq<char>| #[trigger] both.count(t) == shared(x, y).count(t) by {
        occurrences(a, t);
        occurrences(b, t);
        vstd::multiset::lemma_intersection_count(a.to_multiset(), b.to_multiset(), t);
        assert(fingerprint::freq_in(x, t) == fingerprint::count_in(a, t));
        assert(fingerprint::freq_in(y, t) == fingerprint::count_in(b, t));
    }
    assert(both =~= shared(x, y));
}

/// Two functions of one shape are alike, however much is asked for.
pub proof fn one_shape_is_alike(db: IndexModel, t: Theta, p: (int, int), q: (int, int))
    requires
        0 < t.den,
        t.num <= t.den,
        db.contents[p.0].language == db.contents[q.0].language,
        db.contents[p.0].symbols[p.1].print is Some,
        db.contents[q.0].symbols[q.1].print is Some,
        db.contents[p.0].symbols[p.1].print->0.shape.len() <= u64::MAX,
        db.contents[p.0].symbols[p.1].print->0.shape
            == db.contents[q.0].symbols[q.1].print->0.shape,
        has_own_bag(db.contents[p.0].symbols[p.1].print->0),
        has_own_bag(db.contents[q.0].symbols[q.1].print->0),
    ensures
        are_alike(db, p, q, t),
        are_alike(db, q, p, t),
{
    let shape = db.contents[p.0].symbols[p.1].print->0.shape;
    fingerprint::bag_counts(shape);
    fingerprint::overlap_with_itself(fingerprint::bag_of(shape));
    let n = shape.len() as int;
    let (num, den) = (t.num as int, t.den as int);
    assert(n * den >= num * n) by (nonlinear_arith)
        requires
            num <= den,
            n >= 0,
    ;
}

/// The bag of the fingerprint is that of its shape.
pub open spec fn has_own_bag(f: PrintModel) -> bool {
    f.bag == fingerprint::bag_of(f.shape)
}

} // verus!

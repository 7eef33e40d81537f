//! What holds of the functions that stand in one class.
use vstd::prelude::*;
use crate::candidates;
use crate::clones;
use crate::fingerprint::Theta;
use crate::groups;
use crate::index::IndexModel;
use crate::order;
use crate::resolution;

verus! {

pub(crate) proof fn found_group_is_picked(db: IndexModel, t: Theta, copies: nat, c: int) -> (d: int)
    requires
        0 <= c < clones::found_groups(db, t, copies).len(),
    ensures
        ({
            let ps = candidates::candidates(db);
            let gs = groups::coherent_groups(candidates::relation_of(db, ps, t));
            0 <= d < gs.len() && clones::found_groups(db, t, copies)[c] == clones::picked(ps, gs[d])
        }),
        clones::found_groups(db, t, copies)[c].len() >= copies,
{
    let ps = candidates::candidates(db);
    let gs = groups::coherent_groups(candidates::relation_of(db, ps, t));
    let all = gs.map_values(|l: Seq<int>| clones::picked(ps, l));
    let many = |g: Seq<(int, int)>| g.len() >= copies;
    all.lemma_filter_pred(many, c);
    let g = clones::found_groups(db, t, copies)[c];
    assert(all.filter(many).contains(g));
    all.lemma_filter_contains_rev(many, g);
    let d = choose|d: int| 0 <= d < all.len() && all[d] == g;
    d
}

/// Any two members of a class are similar and in one language: a class is never
/// held together by a chain alone.
pub proof fn members_are_alike(db: IndexModel, t: Theta, copies: nat, c: int, a: int, b: int)
    requires
        0 <= c < clones::found_groups(db, t, copies).len(),
        0 <= b < a < clones::found_groups(db, t, copies)[c].len(),
    ensures
        candidates::linked(
            db,
            clones::found_groups(db, t, copies)[c][a],
            clones::found_groups(db, t, copies)[c][b],
            t,
        ),
{
    let ps = candidates::candidates(db);
    let m = candidates::relation_of(db, ps, t);
    let d = found_group_is_picked(db, t, copies, c);
    let l = groups::coherent_groups(m)[d];
    let g = clones::found_groups(db, t, copies)[c];
    groups::groups_are_coherent(m, d, b, a);
    assert(m[l[a]][l[b]] == candidates::linked(db, ps[l[a]], ps[l[b]], t));
    assert(g[a] == ps[l[a]] && g[b] == ps[l[b]]);
}

/// A component never mixes languages.
pub proof fn components_keep_to_one_language(db: IndexModel, t: Theta, c: int, i: int, j: int)
    requires
        ({
            let cs = groups::components(candidates::relation_of(db, candidates::candidates(db), t));
            0 <= c < cs.len() && cs[c].contains(i) && cs[c].contains(j)
        }),
    ensures
        db.contents[candidates::candidates(db)[i].0].language
            == db.contents[candidates::candidates(db)[j].0].language,
{
    let ps = candidates::candidates(db);
    let m = candidates::relation_of(db, ps, t);
    let tongue = db.contents[ps[i].0].language;
    let s = Set::new(|k: int| db.contents[ps[k].0].language == tongue);
    assert forall|x: int, y: int|
        0 <= x < m.len() && 0 <= y < m.len() && #[trigger] groups::related(m, x, y) implies (
    s.contains(x) <==> s.contains(y)) by {
        if x < y {
            assert(m[y][x] == candidates::linked(db, ps[y], ps[x], t));
        } else {
            assert(m[x][y] == candidates::linked(db, ps[x], ps[y], t));
        }
    }
    groups::components_are_connected(m, c, s, i, j);
    assert(s.contains(i));
}

proof fn index_is_found(g: Seq<(int, int)>, p: (int, int), k: int)
    requires
        0 <= k < g.len(),
        g[k] == p,
    ensures
        resolution::index_in(g, p) is Some,
    decreases g.len(),
{
    if g.last() != p {
        index_is_found(g.drop_last(), p, k);
    }
}

proof fn home_is_found(gs: Seq<Seq<(int, int)>>, p: (int, int), c: int)
    requires
        0 <= c < gs.len(),
        resolution::index_in(gs[c], p) is Some,
    ensures
        resolution::home_of(gs, p) is Some,
    decreases gs.len(),
{
    if c < gs.len() - 1 {
        home_is_found(gs.drop_last(), p, c);
    }
}

proof fn covered_functions_have_a_class(db: IndexModel, i: int)
    requires
        groups::is_covered(
            groups::coherent_groups(
                candidates::relation_of(db, candidates::candidates(db), Theta { num: 7, den: 10 }),
            ),
            i,
        ),
    ensures
        resolution::home_of(
            resolution::standard_groups(db),
            candidates::candidates(db)[i],
        ) is Some,
{
    let t = Theta { num: 7, den: 10 };
    let ps = candidates::candidates(db);
    let m = candidates::relation_of(db, ps, t);
    let gs = groups::coherent_groups(m);
    let c = choose|c: int| 0 <= c < gs.len() && (#[trigger] gs[c]).contains(i);
    let k = choose|k: int| 0 <= k < gs[c].len() && gs[c][k] == i;
    let all = gs.map_values(|l: Seq<int>| clones::picked(ps, l));
    let many = |g: Seq<(int, int)>| g.len() >= 2;
    groups::cover_below(m, m.len()).lemma_filter_pred(|g: Seq<int>| g.len() >= 2, c);
    assert(all[c].len() == gs[c].len());
    assert(many(all[c]));
    all.lemma_filter_contains(many, c);
    let found = resolution::standard_groups(db);
    assert(found =~= all.filter(many));
    let d = choose|d: int| 0 <= d < found.len() && found[d] == all[c];
    assert(found[d][k] == ps[i]);
    index_is_found(found[d], ps[i], k);
    home_is_found(found, ps[i], d);
}

/// Two functions that are similar have a class each: a lookup by symbol finds it.
pub proof fn similar_functions_have_a_class(db: IndexModel, i: int, j: int)
    requires
        0 <= j < i < candidates::candidates(db).len(),
        candidates::linked(
            db,
            candidates::candidates(db)[i],
            candidates::candidates(db)[j],
            Theta { num: 7, den: 10 },
        ),
    ensures
        resolution::home_of(
            resolution::standard_groups(db),
            candidates::candidates(db)[i],
        ) is Some,
        resolution::home_of(
            resolution::standard_groups(db),
            candidates::candidates(db)[j],
        ) is Some,
{
    let t = Theta { num: 7, den: 10 };
    let ps = candidates::candidates(db);
    let m = candidates::relation_of(db, ps, t);
    assert(m[i][j] == candidates::linked(db, ps[i], ps[j], t));
    groups::groups_reach_all(m, i, j);
    groups::groups_reach_all(m, j, i);
    covered_functions_have_a_class(db, i);
    covered_functions_have_a_class(db, j);
}

/// The class that a lookup by symbol finds is one of those that a search without
/// a limit lists.
pub proof fn lookups_agree_with_the_listing(db: IndexModel, p: (int, int))
    requires
        resolution::home_of(resolution::standard_groups(db), p) is Some,
    ensures
        ({
            let gs = resolution::standard_groups(db);
            let i = resolution::home_of(gs, p)->0;
            clones::ranked_groups(db, Theta { num: 7, den: 10 }, 2).contains(gs[i])
        }),
{
    broadcast use vstd::seq_lib::group_to_multiset_ensures;

    let gs = resolution::standard_groups(db);
    resolution::home_holds(gs, p);
    let i = resolution::home_of(gs, p)->0;
    let more = |g: Seq<(int, int)>, h: Seq<(int, int)>| clones::is_worth_more(db, g, h);
    order::ranked_keeps(gs, more);
    assert(gs.contains(gs[i]));
    assert(order::ranked(gs, more).to_multiset().contains(gs[i]));
}

} // verus!

//! Finding the clones of an index.
use vstd::prelude::*;
use crate::candidates;
use crate::candidates::{find_candidates, print_of, relate, Place};
use crate::classes;
use crate::classes::{build_class, find_worth, ClassModel, CloneClass, MAX_MEMBERS};
use crate::content;
use crate::content::ContentModel;
use crate::files::FileModel;
use crate::fingerprint;
use crate::fingerprint::{default_theta, Theta, NORM_VERSION};
use crate::groups;
use crate::groups::find_coherent_groups;
use crate::hash;
use crate::hash::hex_sha256;
use crate::index::{IndexDatabase, IndexModel, Refinement};
use crate::order;
use crate::refine;
use crate::refine::{find_least_common, load_places, refinement_key, RefineMode};
use crate::scoped;
use crate::source;
use crate::source::SourceTree;
use crate::text;
use crate::text::{contains_text, same_text};

verus! {

/// No more classes than this are compared token by token, or returned where a
/// limit was asked for.
pub const UNLIMITED_REFINE_BUDGET: usize = 50;

/// Lists of places, as plain values.
pub open spec fn group_models(v: Seq<Vec<Place>>) -> Seq<Seq<(int, int)>> {
    v.map_values(|g: Vec<Place>| candidates::place_models(g@))
}

/// All places of all groups are those of symbols with fingerprints, and no group
/// is empty.
pub open spec fn all_groups_fit(db: IndexModel, v: Seq<Vec<Place>>) -> bool {
    forall|i: int|
        0 <= i < v.len() ==> classes::all_candidates(db, (#[trigger] v[i])@) && v[i]@.len() > 0
}

/// The places that a list picks.
pub open spec fn picked(ps: Seq<(int, int)>, list: Seq<int>) -> Seq<(int, int)> {
    list.map_values(|a: int| ps[a])
}

/// The coherent groups of candidates with at least `copies` members.
pub open spec fn found_groups(db: IndexModel, t: Theta, copies: nat) -> Seq<Seq<(int, int)>> {
    let ps = candidates::candidates(db);
    groups::coherent_groups(candidates::relation_of(db, ps, t)).map_values(
        |l: Seq<int>| picked(ps, l),
    ).filter(|g: Seq<(int, int)>| g.len() >= copies)
}

/// The first group is provisionally worth more.
pub open spec fn is_worth_more(db: IndexModel, g: Seq<(int, int)>, h: Seq<(int, int)>) -> bool {
    classes::worth(db, g) > classes::worth(db, h)
}

/// The coherent groups, by their provisional worth.
pub open spec fn ranked_groups(db: IndexModel, t: Theta, copies: nat) -> Seq<Seq<(int, int)>> {
    order::ranked(
        found_groups(db, t, copies),
        |g: Seq<(int, int)>, h: Seq<(int, int)>| is_worth_more(db, g, h),
    )
}

fn pick_places(db: &IndexDatabase, ps: &Vec<Place>, list: &Vec<usize>) -> (r: Vec<Place>)
    requires
        forall|a: int|
            0 <= a < ps.len() ==> candidates::is_candidate(
                db@,
                #[trigger] candidates::place_models(ps@)[a],
            ),
        forall|a: int| 0 <= a < list.len() ==> (#[trigger] list@[a]) < ps.len(),
    ensures
        candidates::place_models(r@) == picked(
            candidates::place_models(ps@),
            groups::numbers(list@),
        ),
        classes::all_candidates(db@, r@),
        r.len() == list.len(),
{
    let ghost all = candidates::place_models(ps@);
    let ghost goal = picked(all, groups::numbers(list@));
    let mut r: Vec<Place> = Vec::new();
    let mut a: usize = 0;
    assert(candidates::place_models(r@) =~= goal.take(0));
    while a < list.len()
        invariant
            a <= list.len(),
            r.len() == a,
            all == candidates::place_models(ps@),
            goal == picked(all, groups::numbers(list@)),
            forall|x: int| 0 <= x < ps.len() ==> candidates::is_candidate(db@, #[trigger] all[x]),
            forall|x: int| 0 <= x < list.len() ==> (#[trigger] list@[x]) < ps.len(),
            candidates::place_models(r@) == goal.take(a as int),
            classes::all_candidates(db@, r@),
        decreases list.len() - a,
    {
        let p = ps[list[a]];
        let ghost sofar = candidates::place_models(r@);
        let ghost old_r = r@;
        proof {
            assert(candidates::is_candidate(db@, all[list@[a as int] as int]));
            assert(groups::numbers(list@)[a as int] == list@[a as int]);
        }
        r.push(p);
        proof {
            assert(goal[a as int] == classes::at(p));
            assert(candidates::place_models(r@) =~= sofar.push(classes::at(p)));
            assert(goal.take(a + 1) =~= goal.take(a as int).push(goal[a as int]));
            assert forall|x: int| 0 <= x < r.len() implies candidates::is_candidate(
                db@,
                classes::at(#[trigger] r@[x]),
            ) by {
                if x < old_r.len() {
                    assert(r@[x] == old_r[x]);
                }
            }
        }
        a += 1;
    }
    assert(goal.take(a as int) =~= goal);
    r
}

/// The coherent groups of candidates with at least `copies` members.
pub fn collect_groups(db: &IndexDatabase, t: Theta, copies: usize) -> (r: Vec<Vec<Place>>)
    requires
        t.den > 0,
        copies > 0,
    ensures
        group_models(r@) == found_groups(db@, t, copies as nat),
        all_groups_fit(db@, r@),
{
    let ps = find_candidates(db);
    let m = relate(db, &ps, t);
    let lists = find_coherent_groups(&m);
    let ghost all = candidates::place_models(ps@);
    let ghost gs = groups::number_lists(lists@).map_values(|l: Seq<int>| picked(all, l));
    let ghost many = |g: Seq<(int, int)>| g.len() >= copies as nat;
    let mut r: Vec<Vec<Place>> = Vec::new();
    let mut i: usize = 0;
    proof {
        reveal(Seq::filter);
        assert(group_models(r@) =~= gs.take(0).filter(many));
    }
    while i < lists.len()
        invariant
            i <= lists.len(),
            copies > 0,
            all == candidates::place_models(ps@),
            gs == groups::number_lists(lists@).map_values(|l: Seq<int>| picked(all, l)),
            many == (|g: Seq<(int, int)>| g.len() >= copies as nat),
            forall|x: int| 0 <= x < ps.len() ==> candidates::is_candidate(db@, #[trigger] all[x]),
            forall|c: int, a: int|
                0 <= c < lists.len() && 0 <= a < lists@[c].len() ==> (#[trigger] lists@[c]@[a])
                    < ps.len(),
            group_models(r@) == gs.take(i as int).filter(many),
            all_groups_fit(db@, r@),
        decreases lists.len() - i,
    {
        let g = pick_places(db, &ps, &lists[i]);
        proof {
            reveal(Seq::filter);
            assert(groups::number_lists(lists@)[i as int] == groups::numbers(lists@[i as int]@));
            assert(gs[i as int] == candidates::place_models(g@));
            assert(gs.take(i + 1).drop_last() =~= gs.take(i as int));
            assert(gs.take(i + 1).last() == gs[i as int]);
            assert(candidates::place_models(g@).len() == g.len());
        }
        if g.len() >= copies {
            let ghost sofar = group_models(r@);
            let ghost old_r = r@;
            r.push(g);
            proof {
                assert(group_models(r@) =~= sofar.push(candidates::place_models(g@)));
                assert forall|x: int| 0 <= x < r.len() implies classes::all_candidates(
                    db@,
                    (#[trigger] r@[x])@,
                ) && r@[x]@.len() > 0 by {
                    if x < old_r.len() {
                        assert(r@[x] == old_r[x]);
                    }
                }
            }
        }
        i += 1;
    }
    assert(gs.take(i as int) =~= gs);
    r
}

fn copy_places(g: &Vec<Place>) -> (r: Vec<Place>)
    ensures
        r@ == g@,
{
    let mut r: Vec<Place> = Vec::new();
    let mut i: usize = 0;
    while i < g.len()
        invariant
            i <= g.len(),
            r@ == g@.take(i as int),
        decreases g.len() - i,
    {
        r.push(g[i]);
        assert(r@ =~= g@.take(i + 1));
        i += 1;
    }
    assert(r@ =~= g@);
    r
}

fn rank_groups(db: &IndexDatabase, gs: &Vec<Vec<Place>>) -> (r: Vec<Vec<Place>>)
    requires
        all_groups_fit(db@, gs@),
    ensures
        group_models(r@) == order::ranked(
            group_models(gs@),
            |g: Seq<(int, int)>, h: Seq<(int, int)>| is_worth_more(db@, g, h),
        ),
        all_groups_fit(db@, r@),
{
    let ghost all = group_models(gs@);
    let ghost more = |g: Seq<(int, int)>, h: Seq<(int, int)>| is_worth_more(db@, g, h);
    let mut r: Vec<Vec<Place>> = Vec::new();
    let mut worths: Vec<u128> = Vec::new();
    let mut i: usize = 0;
    assert(group_models(r@) =~= order::ranked(all.take(0), more));
    while i < gs.len()
        invariant
            i <= gs.len(),
            all == group_models(gs@),
            more == (|g: Seq<(int, int)>, h: Seq<(int, int)>| is_worth_more(db@, g, h)),
            all_groups_fit(db@, gs@),
            all_groups_fit(db@, r@),
            worths.len() == r.len(),
            forall|a: int|
                0 <= a < worths.len() ==> #[trigger] worths@[a] == classes::worth(
                    db@,
                    group_models(r@)[a],
                ),
            group_models(r@) == order::ranked(all.take(i as int), more),
        decreases gs.len() - i,
    {
        let g = copy_places(&gs[i]);
        assert(gs@[i as int]@ == g@);
        let w: u128 = find_worth(db, &g);
        let ghost gm = candidates::place_models(g@);
        let ghost old_m = group_models(r@);
        let ghost old_r = r@;
        let ghost old_w = worths@;
        let mut k: usize = 0;
        while k < r.len() && !(w > worths[k])
            invariant
                k <= r.len(),
                worths.len() == r.len(),
                worths@ == old_w,
                old_m == group_models(r@),
                w == classes::worth(db@, gm),
                more == (|g: Seq<(int, int)>, h: Seq<(int, int)>| is_worth_more(db@, g, h)),
                forall|a: int|
                    0 <= a < old_w.len() ==> #[trigger] old_w[a] == classes::worth(db@, old_m[a]),
                forall|a: int| 0 <= a < k ==> !more(gm, #[trigger] old_m[a]),
            decreases r.len() - k,
        {
            assert(old_w[k as int] == classes::worth(db@, old_m[k as int]));
            k += 1;
        }
        proof {
            if k < r.len() {
                assert(old_w[k as int] == classes::worth(db@, old_m[k as int]));
            }
            order::placed_at(old_m, gm, more, k as int);
            assert(all.take(i + 1).drop_last() =~= all.take(i as int));
            assert(all.take(i + 1).last() == gm);
        }
        r.insert(k, g);
        worths.insert(k, w);
        proof {
            let now = group_models(r@);
            assert(now =~= old_m.insert(k as int, gm));
            assert forall|a: int| 0 <= a < worths.len() implies #[trigger] worths@[a]
                == classes::worth(db@, now[a]) by {
                if a < k {
                    assert(worths@[a] == old_w[a]);
                } else if a > k {
                    assert(worths@[a] == old_w[a - 1]);
                    assert(now[a] == old_m[a - 1]);
                }
            }
            assert forall|a: int| 0 <= a < r.len() implies classes::all_candidates(
                db@,
                (#[trigger] r@[a])@,
            ) && r@[a]@.len() > 0 by {
                if a < k {
                    assert(r@[a] == old_r[a]);
                } else if a > k {
                    assert(r@[a] == old_r[a - 1]);
                }
            }
        }
        i += 1;
    }
    assert(all.take(i as int) =~= all);
    r
}

/// The hash of the file that the content is of, as the file table has it.
pub open spec fn stored_sha(files: Seq<FileModel>, c: ContentModel) -> Seq<char>
    decreases files.len(),
{
    if files.len() == 0 {
        Seq::empty()
    } else if scoped::belongs(c, files.last()) {
        files.last().sha256
    } else {
        stored_sha(files.drop_last(), c)
    }
}

fn find_sha(db: &IndexDatabase, i: usize) -> (r: String)
    requires
        i < db.contents.len(),
    ensures
        r@ == stored_sha(db@.files, db@.contents[i as int]),
{
    let ghost all = db@.files;
    let ghost c = db@.contents[i as int];
    assert(c == db.contents@[i as int]@);
    let mut k: usize = db.store.files.len();
    assert(all.take(k as int) =~= all);
    while k > 0
        invariant
            i < db.contents.len(),
            k <= db.store.files.len(),
            all == db@.files,
            c == db.contents@[i as int]@,
            stored_sha(all, c) == stored_sha(all.take(k as int), c),
        decreases k,
    {
        proof {
            assert(all.take(k as int).last() == db.store.files@[k - 1]@);
            assert(all.take(k as int).drop_last() =~= all.take(k - 1));
        }
        k -= 1;
        let row = &db.store.files[k];
        if row.generation == db.contents[i].generation && row.path == db.contents[i].path
            && row.worktree_id == db.contents[i].worktree_id && row.commit_sha
            == db.contents[i].commit_sha && row.repo_id == db.contents[i].repo_id {
            return row.sha256.clone();
        }
    }
    let r = String::new();
    assert(r@ =~= Seq::empty());
    r
}

/// The hashes of the members' shapes.
pub open spec fn shape_hashes(db: IndexModel, g: Seq<(int, int)>) -> Seq<Seq<char>> {
    g.map_values(|p: (int, int)| candidates::print_at(db, p).struct_hash)
}

/// The hashes of the members' files.
pub open spec fn source_hashes(db: IndexModel, g: Seq<(int, int)>) -> Seq<Seq<char>> {
    g.map_values(|p: (int, int)| stored_sha(db.files, db.contents[p.0]))
}

/// The key under which what is found out about a group is kept.
pub open spec fn group_key(db: IndexModel, g: Seq<(int, int)>) -> Seq<char> {
    refine::key_of(
        content::language_name(db.contents[g[0].0].language),
        RefineMode::Baseline,
        shape_hashes(db, g),
        source_hashes(db, g),
    )
}

fn find_group_key(db: &IndexDatabase, g: &Vec<Place>) -> (r: String)
    requires
        classes::all_candidates(db@, g@),
        g.len() > 0,
    ensures
        r@ == group_key(db@, candidates::place_models(g@)),
{
    let ghost ps = candidates::place_models(g@);
    let ghost hs = shape_hashes(db@, ps);
    let ghost ss = source_hashes(db@, ps);
    let mut hashes: Vec<String> = Vec::new();
    let mut sources: Vec<String> = Vec::new();
    let mut k: usize = 0;
    assert(text::views(hashes@) =~= hs.take(0));
    assert(text::views(sources@) =~= ss.take(0));
    while k < g.len()
        invariant
            k <= g.len(),
            ps == candidates::place_models(g@),
            hs == shape_hashes(db@, ps),
            ss == source_hashes(db@, ps),
            classes::all_candidates(db@, g@),
            text::views(hashes@) == hs.take(k as int),
            text::views(sources@) == ss.take(k as int),
        decreases g.len() - k,
    {
        assert(candidates::is_candidate(db@, classes::at(g@[k as int])));
        let h = print_of(db, g[k]).struct_hash.clone();
        let s = find_sha(db, g[k].content);
        let ghost sofar_h = text::views(hashes@);
        let ghost sofar_s = text::views(sources@);
        hashes.push(h);
        sources.push(s);
        proof {
            assert(hs[k as int] == h@);
            assert(ss[k as int] == s@);
            assert(text::views(hashes@) =~= sofar_h.push(h@));
            assert(text::views(sources@) =~= sofar_s.push(s@));
            assert(hs.take(k + 1) =~= hs.take(k as int).push(hs[k as int]));
            assert(ss.take(k + 1) =~= ss.take(k as int).push(ss[k as int]));
        }
        k += 1;
    }
    proof {
        assert(hs.take(k as int) =~= hs);
        assert(ss.take(k as int) =~= ss);
        assert(candidates::is_candidate(db@, classes::at(g@[0])));
        assert(db@.contents[g@[0].content as int] == db.contents@[g@[0].content as int]@);
    }
    let language = db.contents[g[0].content].language;
    refinement_key(language.as_str(), RefineMode::Baseline, &hashes, &sources)
}

/// The refinements that are kept, as plain values.
pub open spec fn refinement_models(v: Seq<Refinement>) -> Seq<(Seq<char>, (nat, nat))> {
    v.map_values(|r: Refinement| (r.key@, (r.lcs as nat, r.lcs_of as nat)))
}

/// What is kept under the key.
pub open spec fn kept_under(kept: Seq<(Seq<char>, (nat, nat))>, key: Seq<char>) -> Option<(nat, nat)>
    decreases kept.len(),
{
    if kept.len() == 0 {
        None
    } else if kept.last().0 == key {
        Some(kept.last().1)
    } else {
        kept_under(kept.drop_last(), key)
    }
}

/// What is known about a group, and what is kept from then on: what was kept
/// before, or else what reading its members again shows. Where they cannot be
/// read, nothing is known and nothing is kept.
pub open spec fn refined(
    db: IndexModel,
    tree: Seq<(Seq<char>, Seq<char>)>,
    kept: Seq<(Seq<char>, (nat, nat))>,
    g: Seq<(int, int)>,
) -> (Seq<(Seq<char>, (nat, nat))>, Option<(nat, nat)>) {
    let key = group_key(db, g);
    match kept_under(kept, key) {
        Some(x) => (kept, Some(x)),
        None => match refine::refine_inputs(db, tree, g) {
            Some(ms) => {
                let x = refine::least_common(ms, ms.len());
                (kept.push((key, x)), Some(x))
            },
            None => (kept, None),
        },
    }
}

/// What was found out once needs no source: where it is kept, the checkout does
/// not matter.
pub proof fn kept_needs_no_source(
    db: IndexModel,
    t1: Seq<(Seq<char>, Seq<char>)>,
    t2: Seq<(Seq<char>, Seq<char>)>,
    kept: Seq<(Seq<char>, (nat, nat))>,
    g: Seq<(int, int)>,
)
    ensures
        ({
            let (once, x) = refined(db, t1, kept, g);
            x is Some ==> refined(db, t2, once, g) == (once, x)
        }),
{
    let key = group_key(db, g);
    let (once, x) = refined(db, t1, kept, g);
    if kept_under(kept, key) is None && x is Some {
        assert(once.drop_last() =~= kept);
    }
}

fn find_kept(rows: &Vec<Refinement>, key: &str) -> (r: Option<(usize, usize)>)
    ensures
        classes::optional_share(r) == kept_under(refinement_models(rows@), key@),
{
    let ghost all = refinement_models(rows@);
    let mut i: usize = rows.len();
    assert(all.take(i as int) =~= all);
    while i > 0
        invariant
            i <= rows.len(),
            all == refinement_models(rows@),
            kept_under(all, key@) == kept_under(all.take(i as int), key@),
        decreases i,
    {
        proof {
            assert(all.take(i as int).last() == all[i - 1]);
            assert(all.take(i as int).drop_last() =~= all.take(i - 1));
        }
        i -= 1;
        if same_text(rows[i].key.as_str(), key) {
            return Some((rows[i].lcs, rows[i].lcs_of));
        }
    }
    None
}

proof fn places_fit(db: IndexModel, g: Seq<Place>)
    requires
        classes::all_candidates(db, g),
    ensures
        forall|a: int|
            0 <= a < g.len() ==> candidates::is_candidate(
                db,
                #[trigger] candidates::place_models(g)[a],
            ),
{
    assert forall|a: int| 0 <= a < g.len() implies candidates::is_candidate(
        db,
        #[trigger] candidates::place_models(g)[a],
    ) by {
        assert(candidates::is_candidate(db, classes::at(g[a])));
    }
}

/// The members that were read again are as many as there are, up to the cap.
proof fn inputs_are_some(db: IndexModel, tree: Seq<(Seq<char>, Seq<char>)>, g: Seq<(int, int)>)
    requires
        g.len() > 0,
        refine::refine_inputs(db, tree, g) is Some,
    ensures
        refine::refine_inputs(db, tree, g)->0.len() > 0,
{
    let first = refine::canonical(db, g);
    order::ranked_keeps(g, |p: (int, int), q: (int, int)| refine::earlier(db, p, q));
    let used = if first.len() > refine::MEMBER_VALUE_CAP {
        first.take(refine::MEMBER_VALUE_CAP as int)
    } else {
        first
    };
    assert(used.len() > 0);
}

/// Finds out how much the members of a group have in common, or recalls it.
pub fn refine_group(db: &mut IndexDatabase, tree: &SourceTree, g: &Vec<Place>) -> (r: Option<
    (usize, usize),
>)
    requires
        classes::all_candidates(old(db)@, g@),
        g.len() > 0,
    ensures
        *final(db) == (IndexDatabase { refinements: final(db).refinements, ..*old(db) }),
        (refinement_models(final(db).refinements@), classes::optional_share(r)) == refined(
            old(db)@,
            tree@,
            refinement_models(old(db).refinements@),
            candidates::place_models(g@),
        ),
{
    let ghost before = db@;
    let ghost kept = refinement_models(db.refinements@);
    let key = find_group_key(db, g);
    match find_kept(&db.refinements, key.as_str()) {
        Some(x) => {
            return Some(x);
        },
        None => {},
    }
    proof {
        places_fit(db@, g@);
    }
    match load_places(db, tree, g) {
        Some(ms) => {
            proof {
                inputs_are_some(db@, tree@, candidates::place_models(g@));
            }
            let x = find_least_common(&ms);
            let row = Refinement { key, lcs: x.0, lcs_of: x.1 };
            db.refinements.push(row);
            assert(refinement_models(db.refinements@) =~= kept.push(
                (row.key@, (x.0 as nat, x.1 as nat)),
            ));
            Some(x)
        },
        None => None,
    }
}

/// What is kept after the first `k` groups have been refined.
pub open spec fn kept_after(
    db: IndexModel,
    tree: Seq<(Seq<char>, Seq<char>)>,
    kept: Seq<(Seq<char>, (nat, nat))>,
    gs: Seq<Seq<(int, int)>>,
    k: nat,
) -> Seq<(Seq<char>, (nat, nat))>
    decreases k,
{
    if k == 0 {
        kept
    } else {
        refined(db, tree, kept_after(db, tree, kept, gs, (k - 1) as nat), gs[k - 1]).0
    }
}

/// What is known about group `i` when the groups are refined one after the
/// other, up to the budget.
pub open spec fn known_of(
    db: IndexModel,
    tree: Seq<(Seq<char>, Seq<char>)>,
    kept: Seq<(Seq<char>, (nat, nat))>,
    gs: Seq<Seq<(int, int)>>,
    i: int,
) -> Option<(nat, nat)> {
    if i < UNLIMITED_REFINE_BUDGET {
        refined(db, tree, kept_after(db, tree, kept, gs, i as nat), gs[i]).1
    } else {
        None
    }
}

/// The classes of the groups, refined one after the other.
pub open spec fn refined_classes(
    db: IndexModel,
    tree: Seq<(Seq<char>, Seq<char>)>,
    kept: Seq<(Seq<char>, (nat, nat))>,
    gs: Seq<Seq<(int, int)>>,
) -> Seq<classes::ClassModel> {
    Seq::new(
        gs.len(),
        |i: int| classes::class_of(db, gs[i], None, known_of(db, tree, kept, gs, i)),
    )
}

pub open spec fn lesser(a: nat, b: nat) -> nat {
    if a <= b {
        a
    } else {
        b
    }
}

/// The groups that are returned: all of them, or as many as were asked for, but
/// no more than can be refined.
pub open spec fn shown_groups(gs: Seq<Seq<(int, int)>>, limit: Option<usize>) -> Seq<
    Seq<(int, int)>,
> {
    match limit {
        None => gs,
        Some(n) => gs.take(
            lesser(lesser(n as nat, UNLIMITED_REFINE_BUDGET as nat), gs.len()) as int,
        ),
    }
}

/// The file of the symbol at the place is not what the index has read.
pub open spec fn is_stale(db: IndexModel, tree: Seq<(Seq<char>, Seq<char>)>, p: (int, int)) -> bool {
    let c = db.contents[p.0];
    match source::text_in(tree, c.path) {
        Some(s) => hash::text_sha256(s) != stored_sha(db.files, c),
        None => true,
    }
}

/// The paths of the stale files among the places, each once.
pub open spec fn stale_paths(
    db: IndexModel,
    tree: Seq<(Seq<char>, Seq<char>)>,
    ps: Seq<(int, int)>,
) -> Seq<Seq<char>>
    decreases ps.len(),
{
    if ps.len() == 0 {
        Seq::empty()
    } else {
        let rest = stale_paths(db, tree, ps.drop_last());
        let path = db.contents[ps.last().0].path;
        if is_stale(db, tree, ps.last()) && !rest.contains(path) {
            rest.push(path)
        } else {
            rest
        }
    }
}

/// The members of the first `k` groups that are listed.
pub open spec fn listed_places(gs: Seq<Seq<(int, int)>>, k: nat) -> Seq<(int, int)>
    decreases k,
{
    if k == 0 {
        Seq::empty()
    } else {
        listed_places(gs, (k - 1) as nat) + classes::listed(gs[k - 1], None)
    }
}

/// How many files of listed members have changed since they were read. A
/// worktree is not held against a checkout that is not its own.
pub open spec fn stale_count(
    db: IndexModel,
    tree: Seq<(Seq<char>, Seq<char>)>,
    gs: Seq<Seq<(int, int)>>,
) -> nat {
    if db.worktree_id.len() > 0 {
        0
    } else {
        stale_paths(db, tree, listed_places(gs, gs.len())).len()
    }
}

fn stale(db: &IndexDatabase, tree: &SourceTree, p: Place) -> (r: bool)
    requires
        candidates::is_candidate(db@, classes::at(p)),
    ensures
        r == is_stale(db@, tree@, classes::at(p)),
{
    assert(db@.contents[p.content as int] == db.contents@[p.content as int]@);
    match tree.read(db.contents[p.content].path.as_str()) {
        Some(s) => {
            let now = hex_sha256(s.as_bytes_vec().as_slice());
            !same_text(now.as_str(), find_sha(db, p.content).as_str())
        },
        None => true,
    }
}

fn add_stale(db: &IndexDatabase, tree: &SourceTree, g: &Vec<Place>, found: &mut Vec<String>, Ghost(
    ps,
): Ghost<Seq<(int, int)>>)
    requires
        classes::all_candidates(db@, g@),
        text::views(old(found)@) == stale_paths(db@, tree@, ps),
    ensures
        text::views(final(found)@) == stale_paths(
            db@,
            tree@,
            ps + classes::listed(candidates::place_models(g@), None),
        ),
{
    let ghost gm = candidates::place_models(g@);
    let ghost chosen = classes::listed(gm, None);
    let n: usize = if g.len() <= MAX_MEMBERS {
        g.len()
    } else {
        MAX_MEMBERS
    };
    let mut k: usize = 0;
    assert(ps + chosen.take(0) =~= ps);
    while k < n
        invariant
            k <= n <= g.len(),
            gm == candidates::place_models(g@),
            chosen == gm.take(n as int),
            classes::all_candidates(db@, g@),
            text::views(found@) == stale_paths(db@, tree@, ps + chosen.take(k as int)),
        decreases n - k,
    {
        proof {
            assert(candidates::is_candidate(db@, classes::at(g@[k as int])));
            let next = ps + chosen.take(k + 1);
            assert(next.drop_last() =~= ps + chosen.take(k as int));
            assert(next.last() == classes::at(g@[k as int]));
            let i = g@[k as int].content as int;
            assert(db@.contents[i] == db.contents@[i]@);
        }
        let path = &db.contents[g[k].content].path;
        if stale(db, tree, g[k]) && !contains_text(found, path.as_str()) {
            let ghost sofar = text::views(found@);
            found.push(path.clone());
            assert(text::views(found@) =~= sofar.push(path@));
        }
        k += 1;
    }
    assert(chosen.take(k as int) =~= chosen);
}

fn count_stale(db: &IndexDatabase, tree: &SourceTree, gs: &Vec<Vec<Place>>) -> (r: usize)
    requires
        all_groups_fit(db@, gs@),
    ensures
        r == stale_count(db@, tree@, group_models(gs@)),
{
    if db.active_scope_is_linked_overlay() {
        return 0;
    }
    let ghost all = group_models(gs@);
    let mut found: Vec<String> = Vec::new();
    let mut k: usize = 0;
    assert(text::views(found@) =~= Seq::empty());
    while k < gs.len()
        invariant
            k <= gs.len(),
            all == group_models(gs@),
            all_groups_fit(db@, gs@),
            text::views(found@) == stale_paths(db@, tree@, listed_places(all, k as nat)),
        decreases gs.len() - k,
    {
        assert(classes::all_candidates(db@, gs@[k as int]@));
        assert(all[k as int] == candidates::place_models(gs@[k as int]@));
        add_stale(db, tree, &gs[k], &mut found, Ghost(listed_places(all, k as nat)));
        k += 1;
    }
    found.len()
}

/// Some group has more members than are listed.
pub open spec fn any_capped(gs: Seq<Seq<(int, int)>>) -> bool {
    exists|i: int| 0 <= i < gs.len() && (#[trigger] gs[i]).len() > MAX_MEMBERS
}

fn is_any_capped(gs: &Vec<Vec<Place>>) -> (r: bool)
    ensures
        r == any_capped(group_models(gs@)),
{
    let ghost all = group_models(gs@);
    let mut i: usize = 0;
    while i < gs.len()
        invariant
            i <= gs.len(),
            all == group_models(gs@),
            forall|j: int| 0 <= j < i ==> (#[trigger] all[j]).len() <= MAX_MEMBERS,
        decreases gs.len() - i,
    {
        assert(all[i as int].len() == gs@[i as int].len());
        if gs[i].len() > MAX_MEMBERS {
            return true;
        }
        i += 1;
    }
    false
}

/// What to look for.
pub struct FindClonesOptions {
    pub min_similarity: Option<Theta>,
    pub min_copies: Option<usize>,
    pub limit: Option<usize>,
}

/// Why clones could not be looked for.
#[derive(Debug)]
pub enum CloneError {
    /// The similarity that was asked for is not between one half and the whole.
    MinSimilarity,
    /// Several symbols with fingerprints have the name.
    Ambiguous(String),
}

impl CloneError {
    /// The error in words.
    pub fn message(&self) -> (r: String)
        ensures
            r@ == match *self {
                CloneError::MinSimilarity => "min_similarity must lie in [0.5, 1.0]"@,
                CloneError::Ambiguous(name) => "several symbols are named "@ + name@
                    + "; disambiguate by path and line"@,
            },
    {
        match self {
            CloneError::MinSimilarity => "min_similarity must lie in [0.5, 1.0]".to_owned(),
            CloneError::Ambiguous(name) => {
                let mut r = "several symbols are named ".to_owned();
                r.append(name.as_str());
                r.append("; disambiguate by path and line");
                r
            },
        }
    }
}

/// What shares of two functions are measured by: the overlap of their tokens, of
/// the longer of them.
pub const CANDIDATE_METRIC: &'static str = "overlap_max_denominator";

/// The classes that were found, and how complete they are.
#[derive(Debug)]
pub struct FindClonesResult {
    pub classes: Vec<CloneClass>,
    pub normalizer_version: u64,
    pub min_similarity: Theta,
    /// Classes were left out, or members of a class are not listed.
    pub truncated: bool,
    /// More classes were asked for than can be refined, and there were more.
    pub refine_budget_clamped: bool,
    pub stale_members: usize,
}

/// The similarity that is asked for.
pub open spec fn asked_theta(o: FindClonesOptions) -> Theta {
    match o.min_similarity {
        Some(t) => t,
        None => Theta { num: 7, den: 10 },
    }
}

/// How many members a class must have.
pub open spec fn asked_copies(o: FindClonesOptions) -> nat {
    match o.min_copies {
        Some(n) => if n >= 2 {
            n as nat
        } else {
            2
        },
        None => 2,
    }
}

/// The result is that of looking for clones in the index.
pub open spec fn is_result(
    r: FindClonesResult,
    db: IndexModel,
    tree: Seq<(Seq<char>, Seq<char>)>,
    kept: Seq<(Seq<char>, (nat, nat))>,
    o: FindClonesOptions,
) -> bool {
    let all = ranked_groups(db, asked_theta(o), asked_copies(o));
    let gs = shown_groups(all, o.limit);
    &&& classes::class_models(r.classes@) == refined_classes(db, tree, kept, gs)
    &&& r.normalizer_version == NORM_VERSION
    &&& r.min_similarity == asked_theta(o)
    &&& r.truncated == (gs.len() < all.len() || any_capped(gs))
    &&& r.refine_budget_clamped == (o.limit is Some && o.limit->0 > UNLIMITED_REFINE_BUDGET
        && all.len() > UNLIMITED_REFINE_BUDGET)
    &&& r.stale_members == stale_count(db, tree, gs)
}

/// The classes with their scores, in pairs.
pub open spec fn scored(classes: Seq<ClassModel>, scores: Seq<u64>) -> Seq<(ClassModel, u64)> {
    Seq::new(classes.len(), |i: int| (classes[i], scores[i]))
}

/// The first class has the higher score.
pub open spec fn scores_higher(a: (ClassModel, u64), b: (ClassModel, u64)) -> bool {
    a.1 > b.1
}

/// The classes by their scores, the highest first. Classes with the same score stay
/// in the order in which they came.
pub open spec fn by_score(classes: Seq<ClassModel>, scores: Seq<u64>) -> Seq<ClassModel> {
    order::ranked(
        scored(classes, scores),
        |a: (ClassModel, u64), b: (ClassModel, u64)| scores_higher(a, b),
    ).map_values(|p: (ClassModel, u64)| p.0)
}

/// Puts classes in their final order, by scores that were worked out after they were
/// refined.
pub fn rank_by_score(classes: &mut Vec<CloneClass>, scores: &Vec<u64>)
    requires
        scores.len() == old(classes).len(),
    ensures
        classes::class_models(final(classes)@) == by_score(
            classes::class_models(old(classes)@),
            scores@,
        ),
{
    let ghost all = classes::class_models(classes@);
    let ghost pairs = scored(all, scores@);
    let ghost more = |a: (ClassModel, u64), b: (ClassModel, u64)| scores_higher(a, b);
    let mut keys: Vec<u64> = Vec::new();
    let mut i: usize = 0;
    proof {
        assert(pairs.take(0) =~= Seq::empty());
        assert(scored(all.take(0), keys@) =~= Seq::empty());
    }
    while i < scores.len()
        invariant
            i <= scores.len(),
            classes.len() == scores.len(),
            all.len() == scores.len(),
            keys.len() == i,
            pairs == scored(all, scores@),
            more == (|a: (ClassModel, u64), b: (ClassModel, u64)| scores_higher(a, b)),
            scored(classes::class_models(classes@).take(i as int), keys@) == order::ranked(
                pairs.take(i as int),
                more,
            ),
            forall|j: int|
                i <= j < classes.len() ==> (#[trigger] classes::class_models(classes@)[j])
                    == all[j],
        decreases scores.len() - i,
    {
        let ghost before = classes::class_models(classes@);
        let ghost front = before.take(i as int);
        let ghost sofar = scored(front, keys@);
        let ghost old_keys = keys@;
        let key: u64 = scores[i];
        let ghost x = (all[i as int], key);
        let mut k: usize = 0;
        while k < i && !(key > keys[k])
            invariant
                k <= i,
                keys.len() == i,
                keys@ == old_keys,
                front.len() == i,
                sofar == scored(front, old_keys),
                x.1 == key,
                more == (|a: (ClassModel, u64), b: (ClassModel, u64)| scores_higher(a, b)),
                forall|a: int| 0 <= a < k ==> !more(x, #[trigger] sofar[a]),
            decreases i - k,
        {
            assert(sofar[k as int].1 == keys@[k as int]);
            k += 1;
        }
        proof {
            if k < i {
                assert(sofar[k as int].1 == keys@[k as int]);
            }
            order::placed_at(sofar, x, more, k as int);
            assert(pairs.take(i + 1).drop_last() =~= pairs.take(i as int));
            assert(pairs.take(i + 1).last() == x);
        }
        let class = classes.remove(i);
        let ghost cm = class@;
        classes.insert(k, class);
        keys.insert(k, key);
        proof {
            let now = classes::class_models(classes@);
            assert(before[i as int] == cm);
            assert(now =~= before.remove(i as int).insert(k as int, cm));
            assert(now.take(i + 1) =~= front.insert(k as int, cm));
            assert(scored(now.take(i + 1), keys@) =~= sofar.insert(k as int, x));
            assert forall|j: int| i + 1 <= j < classes.len() implies (#[trigger] now[j])
                == all[j] by {
                assert(now[j] == before[j]);
            }
        }
        i += 1;
    }
    proof {
        let now = classes::class_models(classes@);
        assert(now.take(i as int) =~= now);
        assert(pairs.take(i as int) =~= pairs);
        assert(now =~= scored(now, keys@).map_values(|p: (ClassModel, u64)| p.0));
    }
}

/// In the final order no class comes behind one with a lower score, and every class
/// is still there.
pub proof fn higher_scores_come_first(classes: Seq<ClassModel>, scores: Seq<u64>)
    requires
        scores.len() == classes.len(),
    ensures
        ({
            let pairs = order::ranked(
                scored(classes, scores),
                |a: (ClassModel, u64), b: (ClassModel, u64)| scores_higher(a, b),
            );
            &&& pairs.to_multiset() == scored(classes, scores).to_multiset()
            &&& by_score(classes, scores) == pairs.map_values(|p: (ClassModel, u64)| p.0)
            &&& forall|i: int, j: int|
                0 <= i < j < pairs.len() ==> (#[trigger] pairs[i]).1 >= (#[trigger] pairs[j]).1
        }),
{
    let all = scored(classes, scores);
    let more = |a: (ClassModel, u64), b: (ClassModel, u64)| scores_higher(a, b);
    order::ranked_keeps(all, more);
    order::ranked_is_ranked(all, more, Set::full());
    let pairs = order::ranked(all, more);
    assert forall|i: int, j: int| 0 <= i < j < pairs.len() implies (#[trigger] pairs[i]).1 >= (
    #[trigger] pairs[j]).1 by {
        assert(!more(pairs[j], pairs[i]));
    }
}

fn valid_theta(t: Theta) -> (r: bool)
    ensures
        r == fingerprint::is_theta(t),
{
    t.den > 0 && t.den as u64 <= 2 * t.num as u64 && t.num <= t.den
}

fn truncate_groups(gs: &mut Vec<Vec<Place>>, limit: Option<usize>, Ghost(db): Ghost<IndexModel>)
    requires
        all_groups_fit(db, old(gs)@),
    ensures
        group_models(final(gs)@) == shown_groups(group_models(old(gs)@), limit),
        all_groups_fit(db, final(gs)@),
{
    match limit {
        None => {},
        Some(n) => {
            let ghost before = group_models(gs@);
            let ghost old_gs = gs@;
            let m: usize = if n <= UNLIMITED_REFINE_BUDGET {
                n
            } else {
                UNLIMITED_REFINE_BUDGET
            };
            if m < gs.len() {
                gs.truncate(m);
            }
            proof {
                assert(group_models(gs@) =~= shown_groups(before, limit));
                assert forall|i: int| 0 <= i < gs.len() implies classes::all_candidates(
                    db,
                    (#[trigger] gs@[i])@,
                ) && gs@[i]@.len() > 0 by {
                    assert(gs@[i] == old_gs[i]);
                }
            }
        },
    }
}

impl IndexDatabase {
    /// Looks for classes of clones in what a reader sees. As many as the budget
    /// allows are compared token by token, from the checkout where nothing is kept
    /// about them.
    ///
    /// The classes come by their provisional worth, which decides which of them are
    /// shown and refined. That is not their final order: it leaves out the
    /// load-bearing factor, and a class that could not be refined still counts by its
    /// number of members and not by its logarithm. The final order is that of
    /// [`rank_by_score`].
    pub fn find_clones(&mut self, tree: &SourceTree, options: &FindClonesOptions) -> (r: Result<
        FindClonesResult,
        CloneError,
    >)
        ensures
            *final(self) == (IndexDatabase { refinements: final(self).refinements, ..*old(self) }),
            r is Ok <==> fingerprint::is_theta(asked_theta(*options)),
            match r {
                Err(e) => e is MinSimilarity && final(self).refinements == old(self).refinements,
                Ok(f) => {
                    let kept = refinement_models(old(self).refinements@);
                    let gs = shown_groups(
                        ranked_groups(
                            old(self)@,
                            asked_theta(*options),
                            asked_copies(*options),
                        ),
                        options.limit,
                    );
                    &&& is_result(f, old(self)@, tree@, kept, *options)
                    &&& refinement_models(final(self).refinements@) == kept_after(
                        old(self)@,
                        tree@,
                        kept,
                        gs,
                        lesser(gs.len(), UNLIMITED_REFINE_BUDGET as nat),
                    )
                },
            },
    {
        let ghost before = *self;
        let ghost kept = refinement_models(self.refinements@);
        let t: Theta = match options.min_similarity {
            Some(t) => t,
            None => default_theta(),
        };
        if !valid_theta(t) {
            return Err(CloneError::MinSimilarity);
        }
        let copies: usize = match options.min_copies {
            Some(n) => if n >= 2 {
                n
            } else {
                2
            },
            None => 2,
        };
        let found = collect_groups(self, t, copies);
        let mut gs = rank_groups(self, &found);
        let total: usize = gs.len();
        let ghost all = group_models(gs@);
        truncate_groups(&mut gs, options.limit, Ghost(self@));
        let ghost shown = group_models(gs@);
        let stale_members = count_stale(self, tree, &gs);
        let capped = is_any_capped(&gs);
        let ghost goal = refined_classes(before@, tree@, kept, shown);
        let mut out: Vec<CloneClass> = Vec::new();
        let mut i: usize = 0;
        assert(classes::class_models(out@) =~= goal.take(0));
        while i < gs.len()
            invariant
                i <= gs.len(),
                *self == (IndexDatabase { refinements: self.refinements, ..before }),
                self@ == before@,
                shown == group_models(gs@),
                all_groups_fit(before@, gs@),
                goal == refined_classes(before@, tree@, kept, shown),
                refinement_models(self.refinements@) == kept_after(
                    before@,
                    tree@,
                    kept,
                    shown,
                    lesser(i as nat, UNLIMITED_REFINE_BUDGET as nat),
                ),
                classes::class_models(out@) == goal.take(i as int),
            decreases gs.len() - i,
        {
            proof {
                assert(classes::all_candidates(before@, gs@[i as int]@));
                assert(shown[i as int] == candidates::place_models(gs@[i as int]@));
            }
            let known: Option<(usize, usize)> = if i < UNLIMITED_REFINE_BUDGET {
                refine_group(self, tree, &gs[i])
            } else {
                None
            };
            let class = build_class(self, &gs[i], None, known);
            let ghost sofar = classes::class_models(out@);
            out.push(class);
            proof {
                assert(goal[i as int] == class@);
                assert(classes::class_models(out@) =~= sofar.push(class@));
                assert(goal.take(i + 1) =~= goal.take(i as int).push(goal[i as int]));
            }
            i += 1;
        }
        assert(goal.take(i as int) =~= goal);
        let clamped: bool = match options.limit {
            Some(n) => n > UNLIMITED_REFINE_BUDGET && total > UNLIMITED_REFINE_BUDGET,
            None => false,
        };
        Ok(
            FindClonesResult {
                classes: out,
                normalizer_version: NORM_VERSION,
                min_similarity: t,
                truncated: gs.len() < total || capped,
                refine_budget_clamped: clamped,
                stale_members,
            },
        )
    }
}

} // verus!

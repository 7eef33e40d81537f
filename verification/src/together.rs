//! Laws on files that change together: what is counted, what is stored, and what is
//! shown, in terms of the commits, the changes and the stored rows alone.
use vstd::prelude::*;
use crate::coupling;
use crate::coupling::{CoupledModel, WindowModel};
use crate::files::FileModel;
use crate::history::{ChangeModel, CommitModel, CouplingModel, HistoryModel};
use crate::order;
use crate::text;

verus! {

/// The commits of the window that changed the file, by their places. A commit with
/// fewer than two paths or more than forty says nothing.
pub open spec fn changing(w: Seq<WindowModel>, p: Seq<char>) -> Set<int> {
    Set::new(
        |i: int| 0 <= i < w.len() && 2 <= w[i].paths.len() <= 40 && w[i].paths.contains(p),
    )
}

/// The counts of a window are the numbers of the commits that changed the one file,
/// and of those that changed both.
pub proof fn counts_are_of_commits(w: Seq<WindowModel>, p: Seq<char>, q: Seq<char>)
    ensures
        changing(w, p).finite(),
        changing(w, p).intersect(changing(w, q)).finite(),
        coupling::change_count(w, p) == changing(w, p).len(),
        coupling::co_change_count(w, p, q) == changing(w, p).intersect(changing(w, q)).len(),
    decreases w.len(),
{
    let (a, both) = (changing(w, p), changing(w, p).intersect(changing(w, q)));
    if w.len() == 0 {
        assert(a =~= Set::empty());
        assert(both =~= Set::empty());
    } else {
        let rest = w.drop_last();
        let n = w.len() - 1;
        counts_are_of_commits(rest, p, q);
        let (b, old_both) = (changing(rest, p), changing(rest, p).intersect(changing(rest, q)));
        assert forall|i: int| 0 <= i < n implies rest[i] == w[i] by {}
        if coupling::touches(w.last(), p) {
            assert(a =~= b.insert(n));
        } else {
            assert(a =~= b);
        }
        if coupling::touches(w.last(), p) && coupling::touches(w.last(), q) {
            assert(both =~= old_both.insert(n));
        } else {
            assert(both =~= old_both);
        }
    }
}

/// A pair is stored, with its counts, if and only if two commits or more of the window
/// changed both of its files, and twice their number times that of all commits is at
/// least three times the product of the numbers of those that changed each: its lift
/// is at least one and a half. Nothing else bears on it.
pub proof fn two_floors_decide_what_is_stored(
    rows: Seq<CouplingModel>,
    w: Seq<WindowModel>,
    repo_id: Seq<char>,
    now_ms: i64,
    p: Seq<char>,
    q: Seq<char>,
)
    requires
        coupling::is_coupling_table(rows, w, repo_id, now_ms),
        w.len() <= 1000,
        text::before(p, q),
    ensures
        ({
            let co = changing(w, p).intersect(changing(w, q)).len() as int;
            let a = changing(w, p).len() as int;
            let b = changing(w, q).len() as int;
            let n = w.len() as int;
            &&& (exists|i: int|
                0 <= i < rows.len() && (#[trigger] rows[i]).path_a == p && rows[i].path_b == q)
                <==> co >= 2 && 2 * co * n >= 3 * a * b
            &&& forall|i: int|
                0 <= i < rows.len() && (#[trigger] rows[i]).path_a == p && rows[i].path_b == q
                    ==> rows[i].repo_id == repo_id && rows[i].co_change_count == co
                    && rows[i].path_a_change_count == a && rows[i].path_b_change_count == b
                    && rows[i].window_commit_count == n && rows[i].computed_at_ms == now_ms
        }),
{
    counts_are_of_commits(w, p, q);
    counts_are_of_commits(w, q, p);
    coupling::counts_are_bounded(w, p, q);
    let co = coupling::co_change_count(w, p, q) as int;
    let a = coupling::change_count(w, p) as int;
    let b = coupling::change_count(w, q) as int;
    let n = w.len() as int;
    assert(2 * co * n == 2 * (co * n)) by (nonlinear_arith);
    assert(3 * a * b == 3 * (a * b)) by (nonlinear_arith);
    if co >= 2 && 2 * co * n >= 3 * a * b {
        assert(coupling::couples(w, p, q));
        assert(coupling::has_pair(rows, p, q));
    }
    assert forall|i: int|
        0 <= i < rows.len() && (#[trigger] rows[i]).path_a == p && rows[i].path_b == q implies
        coupling::couples(w, p, q) && rows[i] == coupling::row_of(w, repo_id, p, q, now_ms) by {
        assert(coupling::couples(w, rows[i].path_a, rows[i].path_b));
    }
}

/// The pairs of a table stand in path order, and none stands twice.
pub proof fn pairs_are_stored_once(
    rows: Seq<CouplingModel>,
    w: Seq<WindowModel>,
    repo_id: Seq<char>,
    now_ms: i64,
    i: int,
    j: int,
)
    requires
        coupling::is_coupling_table(rows, w, repo_id, now_ms),
        0 <= i < j < rows.len(),
    ensures
        text::before(rows[i].path_a, rows[i].path_b),
        rows[i].path_a != rows[j].path_a || rows[i].path_b != rows[j].path_b,
        text::before(rows[i].path_a, rows[j].path_a) || (rows[i].path_a == rows[j].path_a
            && text::before(rows[i].path_b, rows[j].path_b)),
{
    assert(coupling::couples(w, rows[i].path_a, rows[i].path_b));
    assert(coupling::pair_before(rows[i], rows[j]));
    text::before_irreflexive(rows[i].path_a);
    text::before_irreflexive(rows[i].path_b);
}

/// The row shows the partner to one who asks about the path: it is one of the
/// repository, it holds the path, its lift is at least one and a half, and a file
/// that nobody generated has the other path.
pub open spec fn shows(
    r: CouplingModel,
    files: Seq<FileModel>,
    repo_id: Seq<char>,
    path: Seq<char>,
    x: CoupledModel,
) -> bool {
    &&& r.repo_id == repo_id
    &&& 2 * (r.co_change_count as int) * (r.window_commit_count as int) >= 3 * (
    r.path_a_change_count as int) * (r.path_b_change_count as int)
    &&& x.co_change_count == r.co_change_count
    &&& x.window_commit_count == r.window_commit_count
    &&& {
        ||| r.path_a == path && x.other_path == r.path_b && x.path_change_count
            == r.path_a_change_count && x.other_change_count == r.path_b_change_count
        ||| r.path_b == path && r.path_a != path && x.other_path == r.path_a && x.path_change_count
            == r.path_b_change_count && x.other_change_count == r.path_a_change_count
    }
    &&& exists|f: int|
        0 <= f < files.len() && (#[trigger] files[f]).path == x.other_path && !files[f].generated
}

/// At a read the lift of a stored row alone decides, besides whether the partner is
/// still a file: the partners are those that some row shows.
pub proof fn lift_decides_what_is_shown(
    couplings: Seq<CouplingModel>,
    files: Seq<FileModel>,
    repo_id: Seq<char>,
    path: Seq<char>,
    x: CoupledModel,
)
    ensures
        coupling::partners_among(couplings, files, repo_id, path).contains(x) <==> exists|i: int|
            0 <= i < couplings.len() && shows(#[trigger] couplings[i], files, repo_id, path, x),
        coupling::partners_among(couplings, files, repo_id, path).len() == couplings.filter(
            |r: CouplingModel|
                exists|y: CoupledModel| shows(r, files, repo_id, path, y),
        ).len(),
{
    broadcast use vstd::seq_lib::group_to_multiset_ensures;

    let fits = |r: CouplingModel| coupling::surfaces(r, files, repo_id, path);
    let seen = |r: CouplingModel| coupling::seen_from(r, path);
    let rank = |y: CoupledModel, z: CoupledModel| coupling::outranks(y, z);
    let rows = couplings.filter(fits);
    let s = rows.map_values(seen);
    let all = coupling::partners_among(couplings, files, repo_id, path);
    order::ranked_keeps(s, rank);
    assert(all.to_multiset() == s.to_multiset());
    assert(all.contains(x) <==> all.to_multiset().count(x) > 0);
    assert(s.contains(x) <==> s.to_multiset().count(x) > 0);
    assert forall|r: CouplingModel, y: CoupledModel| #[trigger] shows(
        r,
        files,
        repo_id,
        path,
        y,
    ) <==> fits(r) && y == seen(r) by {
        row_shows_one(r, files, repo_id, path, y);
    }
    if s.contains(x) {
        let k = choose|k: int| 0 <= k < s.len() && s[k] == x;
        couplings.lemma_filter_pred(fits, k);
        assert(rows.contains(rows[k]));
        couplings.lemma_filter_contains_rev(fits, rows[k]);
        let i = choose|i: int| 0 <= i < couplings.len() && couplings[i] == rows[k];
        assert(shows(couplings[i], files, repo_id, path, x));
    }
    if exists|i: int|
        0 <= i < couplings.len() && shows(#[trigger] couplings[i], files, repo_id, path, x) {
        let i = choose|i: int|
            0 <= i < couplings.len() && shows(#[trigger] couplings[i], files, repo_id, path, x);
        couplings.lemma_filter_contains(fits, i);
        let k = choose|k: int| 0 <= k < rows.len() && rows[k] == couplings[i];
        assert(s[k] == x);
    }
    let some = |r: CouplingModel| exists|y: CoupledModel| shows(r, files, repo_id, path, y);
    assert forall|r: CouplingModel| #[trigger] some(r) == fits(r) by {
        if fits(r) {
            assert(shows(r, files, repo_id, path, seen(r)));
        }
    }
    assert(some =~= fits);
}

proof fn row_shows_one(
    r: CouplingModel,
    files: Seq<FileModel>,
    repo_id: Seq<char>,
    path: Seq<char>,
    y: CoupledModel,
)
    ensures
        shows(r, files, repo_id, path, y) <==> coupling::surfaces(r, files, repo_id, path) && y
            == coupling::seen_from(r, path),
{
    let co = r.co_change_count as int;
    let a = r.path_a_change_count as int;
    let b = r.path_b_change_count as int;
    let n = r.window_commit_count as int;
    assert(2 * co * n == 2 * (co * n)) by (nonlinear_arith);
    assert(3 * a * b == 3 * (a * b)) by (nonlinear_arith);
    let z = coupling::seen_from(r, path);
    if shows(r, files, repo_id, path, y) {
        assert(y =~= z);
        assert(coupling::is_listed(files, z.other_path));
    }
    if coupling::surfaces(r, files, repo_id, path) && y == z {
        assert(coupling::is_listed(files, z.other_path));
    }
}

/// The repository, and a number of files from two to forty, make a commit count.
pub open spec fn counts(c: CommitModel, repo_id: Seq<char>) -> bool {
    c.repo_id == repo_id && 2 <= c.changed_file_count <= 40
}

/// The window is made of commits of the repository that count: as many as there are,
/// but no more than a thousand. Each has the paths of its changes, and one that counts
/// and is left out is no newer than any of them.
pub proof fn window_holds_the_newest(h: HistoryModel, repo_id: Seq<char>) -> (commits: Seq<
    CommitModel,
>)
    ensures
        commits.to_multiset() == h.commits.filter(
            |c: CommitModel| counts(c, repo_id),
        ).to_multiset(),
        coupling::window(h, repo_id).len() == if commits.len() < 1000 {
            commits.len() as int
        } else {
            1000
        },
        forall|i: int, j: int|
            0 <= i < j < commits.len() ==> (#[trigger] commits[i]).committed_at_s >= (
            #[trigger] commits[j]).committed_at_s,
        forall|i: int|
            0 <= i < coupling::window(h, repo_id).len() ==> (#[trigger] coupling::window(
                h,
                repo_id,
            )[i]).committed_at_s == commits[i].committed_at_s && counts(commits[i], repo_id),
        forall|i: int, p: Seq<char>|
            0 <= i < coupling::window(h, repo_id).len() ==> (#[trigger] coupling::window(
                h,
                repo_id,
            )[i].paths.contains(p) <==> exists|k: int|
                0 <= k < h.changes.len() && (#[trigger] h.changes[k]).repo_id == repo_id
                    && h.changes[k].commit_hash == commits[i].hash && h.changes[k].path == p),
        forall|i: int|
            0 <= i < coupling::window(h, repo_id).len() ==> (#[trigger] coupling::window(
                h,
                repo_id,
            )[i]).paths.no_duplicates(),
{
    broadcast use vstd::seq_lib::group_to_multiset_ensures;

    let fits = |c: CommitModel| coupling::is_eligible(c, repo_id);
    let mine = |c: CommitModel| counts(c, repo_id);
    let newer = |a: CommitModel, b: CommitModel| coupling::is_newer(a, b);
    assert(fits =~= mine);
    let some = h.commits.filter(fits);
    let all = coupling::by_recency(h.commits, repo_id);
    let w = coupling::window(h, repo_id);
    order::ranked_keeps(some, newer);
    coupling::recency_is_strict_weak();
    order::ranked_is_ranked(some, newer, Set::full());
    assert forall|i: int, j: int| 0 <= i < j < all.len() implies (#[trigger] all[i]).committed_at_s
        >= (#[trigger] all[j]).committed_at_s by {
        assert(!newer(all[j], all[i]));
    }
    assert forall|i: int| 0 <= i < all.len() implies counts(#[trigger] all[i], repo_id) by {
        assert(all.to_multiset().count(all[i]) > 0) by {
            assert(all.contains(all[i]));
        }
        assert(some.contains(all[i]));
        let k = choose|k: int| 0 <= k < some.len() && some[k] == all[i];
        h.commits.lemma_filter_pred(fits, k);
    }
    assert forall|i: int, p: Seq<char>| 0 <= i < w.len() implies (#[trigger] w[i].paths.contains(p)
        <==> exists|k: int|
        0 <= k < h.changes.len() && (#[trigger] h.changes[k]).repo_id == repo_id
            && h.changes[k].commit_hash == all[i].hash && h.changes[k].path == p) by {
        paths_are_of_changes(h.changes, repo_id, all[i].hash, p);
    }
    assert forall|i: int| 0 <= i < w.len() implies (#[trigger] w[i]).paths.no_duplicates() by {
        paths_are_of_changes(h.changes, repo_id, all[i].hash, Seq::empty());
    }
    all
}

proof fn paths_are_of_changes(
    changes: Seq<ChangeModel>,
    repo_id: Seq<char>,
    hash: Seq<char>,
    p: Seq<char>,
)
    ensures
        coupling::distinct_paths(changes, repo_id, hash).contains(p) <==> exists|k: int|
            0 <= k < changes.len() && (#[trigger] changes[k]).repo_id == repo_id
                && changes[k].commit_hash == hash && changes[k].path == p,
        coupling::distinct_paths(changes, repo_id, hash).no_duplicates(),
    decreases changes.len(),
{
    if changes.len() > 0 {
        let rest = changes.drop_last();
        paths_are_of_changes(rest, repo_id, hash, p);
        let before = coupling::distinct_paths(rest, repo_id, hash);
        let now = coupling::distinct_paths(changes, repo_id, hash);
        let c = changes.last();
        assert(changes[changes.len() - 1] == c);
        if exists|k: int|
            0 <= k < rest.len() && (#[trigger] rest[k]).repo_id == repo_id && rest[k].commit_hash
                == hash && rest[k].path == p {
            let k = choose|k: int|
                0 <= k < rest.len() && (#[trigger] rest[k]).repo_id == repo_id
                    && rest[k].commit_hash == hash && rest[k].path == p;
            assert(changes[k] == rest[k]);
        }
        if exists|k: int|
            0 <= k < changes.len() && (#[trigger] changes[k]).repo_id == repo_id
                && changes[k].commit_hash == hash && changes[k].path == p {
            let k = choose|k: int|
                0 <= k < changes.len() && (#[trigger] changes[k]).repo_id == repo_id
                    && changes[k].commit_hash == hash && changes[k].path == p;
            if k < rest.len() {
                assert(rest[k] == changes[k]);
            }
        }
        if before.contains(p) {
            let i = choose|i: int| 0 <= i < before.len() && before[i] == p;
            assert(now[i] == p);
        }
        if now.len() > before.len() {
            assert(now[now.len() - 1] == c.path);
            if now.contains(p) && p != c.path {
                let i = choose|i: int| 0 <= i < now.len() && now[i] == p;
                assert(before[i] == p);
            }
        }
    }
}

/// The last time of a pair is that of the newest of the commits that changed both.
pub proof fn last_time_is_the_newest(w: Seq<WindowModel>, p: Seq<char>, q: Seq<char>)
    ensures
        coupling::last_co_change(w, p, q) is None <==> changing(w, p).intersect(
            changing(w, q),
        ).is_empty(),
        forall|i: int| #[trigger]
            changing(w, p).intersect(changing(w, q)).contains(i) ==> coupling::last_co_change(
                w,
                p,
                q,
            )->0 >= w[i].committed_at_s,
        coupling::last_co_change(w, p, q) is Some ==> exists|i: int| #[trigger]
            changing(w, p).intersect(changing(w, q)).contains(i) && w[i].committed_at_s
                == coupling::last_co_change(w, p, q)->0,
    decreases w.len(),
{
    let both = changing(w, p).intersect(changing(w, q));
    if w.len() == 0 {
        assert(both =~= Set::empty());
    } else {
        let rest = w.drop_last();
        let n = w.len() - 1;
        last_time_is_the_newest(rest, p, q);
        let before = changing(rest, p).intersect(changing(rest, q));
        assert forall|i: int| 0 <= i < n implies rest[i] == w[i] by {}
        if coupling::touches(w.last(), p) && coupling::touches(w.last(), q) {
            assert(both =~= before.insert(n));
            assert(both.contains(n));
        } else {
            assert(both =~= before);
        }
        if coupling::last_co_change(rest, p, q) is Some {
            let i = choose|i: int| #[trigger]
                before.contains(i) && rest[i].committed_at_s == coupling::last_co_change(
                    rest,
                    p,
                    q,
                )->0;
            assert(both.contains(i));
        }
        if both.is_empty() {
            assert(!both.contains(n));
        }
        if !before.is_empty() {
            let i = before.choose();
            assert(before.contains(i));
            assert(both.contains(i));
        }
    }
}

/// Once the couplings of a repository are computed anew, a file is shown as a partner
/// of another, with the counts of the window, if and only if they changed together in
/// two commits or more, their lift is at least one and a half, and a file that nobody
/// generated has its path.
pub proof fn recomputed_pairs_are_shown(
    before: HistoryModel,
    after: HistoryModel,
    repo_id: Seq<char>,
    now_ms: i64,
    files: Seq<FileModel>,
    p: Seq<char>,
    q: Seq<char>,
    x: CoupledModel,
)
    requires
        coupling::is_recomputed(before, after, repo_id, now_ms),
        x.other_path == q,
    ensures
        ({
            let w = coupling::window(before, repo_id);
            let co = changing(w, p).intersect(changing(w, q)).len() as int;
            let a = changing(w, p).len() as int;
            let b = changing(w, q).len() as int;
            coupling::partners_among(after.couplings, files, repo_id, p).contains(x) <==> {
                &&& p != q
                &&& co >= 2
                &&& 2 * co * w.len() >= 3 * a * b
                &&& x.co_change_count == co
                &&& x.path_change_count == a
                &&& x.other_change_count == b
                &&& x.window_commit_count == w.len()
                &&& exists|f: int|
                    0 <= f < files.len() && (#[trigger] files[f]).path == q && !files[f].generated
            }
        }),
{
    let w = coupling::window(before, repo_id);
    let others = coupling::rows_of_others(before.couplings, repo_id);
    let n = others.len() as int;
    let rows = after.couplings.skip(n);
    let _ = window_holds_the_newest(before, repo_id);
    lift_decides_what_is_shown(after.couplings, files, repo_id, p, x);
    let (cp, cq) = (changing(w, p), changing(w, q));
    assert(cp.intersect(cq) =~= cq.intersect(cp));
    let co = cp.intersect(cq).len() as int;
    let (a, b) = (cp.len() as int, cq.len() as int);
    assert(3 * a * b == 3 * b * a) by (nonlinear_arith);
    text::before_total(p, q);
    if text::before(p, q) {
        two_floors_decide_what_is_stored(rows, w, repo_id, now_ms, p, q);
    }
    if text::before(q, p) {
        two_floors_decide_what_is_stored(rows, w, repo_id, now_ms, q, p);
    }
    if exists|i: int|
        0 <= i < after.couplings.len() && shows(
            #[trigger] after.couplings[i],
            files,
            repo_id,
            p,
            x,
        ) {
        let i = choose|i: int|
            0 <= i < after.couplings.len() && shows(
                #[trigger] after.couplings[i],
                files,
                repo_id,
                p,
                x,
            );
        let r = after.couplings[i];
        if i < n {
            assert(after.couplings.take(n)[i] == r);
            before.couplings.lemma_filter_pred(|m: CouplingModel| m.repo_id != repo_id, i);
        }
        assert(rows[i - n] == r);
        assert(coupling::couples(w, rows[i - n].path_a, rows[i - n].path_b));
        text::before_irreflexive(p);
    }
    if p != q && co >= 2 && 2 * co * w.len() >= 3 * a * b && x.co_change_count == co
        && x.path_change_count == a && x.other_change_count == b && x.window_commit_count == w.len()
        && exists|f: int|
        0 <= f < files.len() && (#[trigger] files[f]).path == q && !files[f].generated {
        let (u, v) = if text::before(p, q) {
            (p, q)
        } else {
            (q, p)
        };
        let k = choose|k: int|
            0 <= k < rows.len() && (#[trigger] rows[k]).path_a == u && rows[k].path_b == v;
        assert(after.couplings[n + k] == rows[k]);
        assert(shows(after.couplings[n + k], files, repo_id, p, x));
    }
}

} // verus!

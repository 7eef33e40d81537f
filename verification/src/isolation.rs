//! What the couplings of a repository rest on, and what they leave alone.
use vstd::prelude::*;
use crate::coupling;
use crate::coupling::CoupledModel;
use crate::files::FileModel;
use crate::filters;
use crate::history::{CouplingModel, HistoryModel};
use crate::order;
use crate::text;

verus! {

/// The stored rows of a repository, in the order in which they are stored.
pub open spec fn own_rows(h: HistoryModel, repo_id: Seq<char>) -> Seq<CouplingModel> {
    h.couplings.filter(|r: CouplingModel| r.repo_id == repo_id)
}

proof fn table_is_own(before: HistoryModel, after: HistoryModel, repo_id: Seq<char>, now_ms: i64)
    requires
        coupling::is_recomputed(before, after, repo_id, now_ms),
    ensures
        own_rows(after, repo_id) == after.couplings.skip(
            coupling::rows_of_others(before.couplings, repo_id).len() as int,
        ),
{
    let others = coupling::rows_of_others(before.couplings, repo_id);
    let table = after.couplings.skip(others.len() as int);
    let ours = |r: CouplingModel| r.repo_id == repo_id;
    let not_ours = |r: CouplingModel| r.repo_id != repo_id;
    assert(after.couplings =~= others + table);
    filters::filter_of_halves(others, table, ours);
    assert forall|i: int| 0 <= i < others.len() implies !ours(#[trigger] others[i]) by {
        before.couplings.lemma_filter_pred(not_ours, i);
    }
    filters::filter_of_none(others, ours);
    assert forall|i: int| 0 <= i < table.len() implies ours(#[trigger] table[i]) by {
        let w = coupling::window(before, repo_id);
        assert(table[i] == coupling::row_of(w, repo_id, table[i].path_a, table[i].path_b, now_ms));
    }
    filters::filter_of_all(table, ours);
    assert(others.filter(ours) + table =~= table);
}

/// What is stored rests on the history alone: two stores with the same commits
/// and changes get the same rows, whatever files they list and whatever they
/// stored before.
pub proof fn history_alone_matters(
    h1: HistoryModel,
    h2: HistoryModel,
    after1: HistoryModel,
    after2: HistoryModel,
    repo_id: Seq<char>,
    now_ms: i64,
)
    requires
        h1.commits == h2.commits,
        h1.changes == h2.changes,
        coupling::is_recomputed(h1, after1, repo_id, now_ms),
        coupling::is_recomputed(h2, after2, repo_id, now_ms),
    ensures
        own_rows(after1, repo_id) == own_rows(after2, repo_id),
{
    table_is_own(h1, after1, repo_id, now_ms);
    table_is_own(h2, after2, repo_id, now_ms);
    assert(coupling::window(h1, repo_id) =~= coupling::window(h2, repo_id));
    coupling::table_is_unique(
        own_rows(after1, repo_id),
        own_rows(after2, repo_id),
        coupling::window(h1, repo_id),
        repo_id,
        now_ms,
    );
}

/// A recompute for one repository leaves the rows and the settings of another as
/// they are.
pub proof fn other_repositories_stay(
    before: HistoryModel,
    after: HistoryModel,
    repo_id: Seq<char>,
    other: Seq<char>,
    key: Seq<char>,
    now_ms: i64,
)
    requires
        coupling::is_recomputed(before, after, repo_id, now_ms),
        other != repo_id,
    ensures
        own_rows(after, other) == own_rows(before, other),
        after.setting(other, key) == before.setting(other, key),
{
    let others = coupling::rows_of_others(before.couplings, repo_id);
    let table = after.couplings.skip(others.len() as int);
    let theirs = |r: CouplingModel| r.repo_id == other;
    let not_ours = |r: CouplingModel| r.repo_id != repo_id;
    assert(after.couplings =~= others + table);
    filters::filter_of_halves(others, table, theirs);
    assert forall|i: int| 0 <= i < table.len() implies !theirs(#[trigger] table[i]) by {
        let w = coupling::window(before, repo_id);
        assert(table[i] == coupling::row_of(w, repo_id, table[i].path_a, table[i].path_b, now_ms));
    }
    filters::filter_of_none(table, theirs);
    assert(others.filter(theirs) + table.filter(theirs) =~= others.filter(theirs));
    filters::filter_of_filter(before.couplings, not_ours, theirs);
}

/// The rows are of distinct pairs, each in path order.
pub open spec fn distinct_pairs(rows: Seq<CouplingModel>) -> bool {
    &&& forall|i: int|
        0 <= i < rows.len() ==> text::before((#[trigger] rows[i]).path_a, rows[i].path_b)
    &&& forall|i: int, j: int|
        0 <= i < j < rows.len() ==> (#[trigger] rows[i]).path_a != (#[trigger] rows[j]).path_a
            || rows[i].path_b != rows[j].path_b
}

/// A recompute stores each pair once.
pub proof fn pairs_are_stored_once(
    before: HistoryModel,
    after: HistoryModel,
    repo_id: Seq<char>,
    now_ms: i64,
)
    requires
        coupling::is_recomputed(before, after, repo_id, now_ms),
    ensures
        distinct_pairs(own_rows(after, repo_id)),
{
    table_is_own(before, after, repo_id, now_ms);
    let rows = own_rows(after, repo_id);
    let w = coupling::window(before, repo_id);
    assert forall|i: int| 0 <= i < rows.len() implies text::before(
        (#[trigger] rows[i]).path_a,
        rows[i].path_b,
    ) by {
        assert(coupling::couples(w, rows[i].path_a, rows[i].path_b));
    }
    assert forall|i: int, j: int| 0 <= i < j < rows.len() implies (#[trigger] rows[i]).path_a != (
    #[trigger] rows[j]).path_a || rows[i].path_b != rows[j].path_b by {
        assert(coupling::pair_before(rows[i], rows[j]));
        text::before_irreflexive(rows[i].path_a);
        text::before_irreflexive(rows[i].path_b);
    }
}

proof fn filter_keeps_distinct(rows: Seq<CouplingModel>, keep: spec_fn(CouplingModel) -> bool)
    requires
        distinct_pairs(rows),
    ensures
        distinct_pairs(rows.filter(keep)),
        forall|x: CouplingModel| #[trigger] rows.filter(keep).contains(x) ==> rows.contains(x),
    decreases rows.len(),
{
    reveal(Seq::filter);
    let f = rows.filter(keep);
    if rows.len() > 0 {
        let t = rows.drop_last();
        assert forall|i: int, j: int| 0 <= i < j < t.len() implies (#[trigger] t[i]).path_a != (
        #[trigger] t[j]).path_a || t[i].path_b != t[j].path_b by {
            assert(t[i] == rows[i] && t[j] == rows[j]);
        }
        assert forall|i: int| 0 <= i < t.len() implies text::before(
            (#[trigger] t[i]).path_a,
            t[i].path_b,
        ) by {
            assert(t[i] == rows[i]);
        }
        filter_keeps_distinct(t, keep);
        let g = t.filter(keep);
        assert forall|i: int| 0 <= i < f.len() implies text::before(
            (#[trigger] f[i]).path_a,
            f[i].path_b,
        ) by {
            if i < g.len() {
                assert(f[i] == g[i]);
            } else {
                assert(f[i] == rows[rows.len() - 1]);
            }
        }
        assert forall|i: int, j: int| 0 <= i < j < f.len() implies (#[trigger] f[i]).path_a != (
        #[trigger] f[j]).path_a || f[i].path_b != f[j].path_b by {
            assert(f[i] == g[i]);
            if j < g.len() {
                assert(f[j] == g[j]);
            } else {
                assert(g.contains(g[i]));
                let k = choose|k: int| 0 <= k < t.len() && t[k] == g[i];
                assert(rows[k] == f[i] && rows[rows.len() - 1] == f[j]);
            }
        }
        assert forall|x: CouplingModel| #[trigger] f.contains(x) implies rows.contains(x) by {
            let i = choose|i: int| 0 <= i < f.len() && f[i] == x;
            if i < g.len() {
                assert(g.contains(g[i]));
                let k = choose|k: int| 0 <= k < t.len() && t[k] == g[i];
                assert(rows[k] == x);
            } else {
                assert(rows[rows.len() - 1] == x);
            }
        }
    }
}

/// A reader gets each partner once, however many rows the file table has for its
/// path.
pub proof fn partners_are_listed_once(
    h: HistoryModel,
    files: Seq<FileModel>,
    repo_id: Seq<char>,
    path: Seq<char>,
    i: int,
    j: int,
)
    requires
        distinct_pairs(own_rows(h, repo_id)),
        0 <= i < j < coupling::partners_among(h.couplings, files, repo_id, path).len(),
    ensures
        coupling::partners_among(h.couplings, files, repo_id, path)[i].other_path != coupling::partners_among(
            h.couplings,
            files,
            repo_id,
            path,
        )[j].other_path,
{
    broadcast use vstd::seq_lib::group_to_multiset_ensures;

    let ours = |r: CouplingModel| r.repo_id == repo_id;
    let fits = |r: CouplingModel| coupling::surfaces(r, files, repo_id, path);
    let seen = |r: CouplingModel| coupling::seen_from(r, path);
    let ahead = |x: CoupledModel, y: CoupledModel| coupling::outranks(x, y);
    filters::filter_of_filter(h.couplings, ours, fits);
    filter_keeps_distinct(own_rows(h, repo_id), fits);
    let rows = h.couplings.filter(fits);
    let s = rows.map_values(seen);
    assert forall|a: int, b: int| 0 <= a < b < s.len() implies (#[trigger] s[a]).other_path != (
    #[trigger] s[b]).other_path by {
        h.couplings.lemma_filter_pred(fits, a);
        h.couplings.lemma_filter_pred(fits, b);
        let (x, y) = (rows[a], rows[b]);
        assert(x.path_a != y.path_a || x.path_b != y.path_b);
        assert(text::before(x.path_a, x.path_b) && text::before(y.path_a, y.path_b));
        text::before_irreflexive(path);
        if s[a].other_path == s[b].other_path {
            if x.path_a == path && y.path_a != path {
                text::before_transitive(path, x.path_b, path);
            }
            if x.path_a != path && y.path_a == path {
                text::before_transitive(path, y.path_b, path);
            }
        }
    }
    let p = order::ranked(s, ahead);
    order::ranked_keeps(s, ahead);
    assert(s.no_duplicates()) by {
        assert forall|a: int, b: int| 0 <= a < s.len() && 0 <= b < s.len() && a != b implies s[a]
            != s[b] by {
            if a < b {
                assert(s[a].other_path != s[b].other_path);
            } else {
                assert(s[b].other_path != s[a].other_path);
            }
        }
    }
    s.lemma_multiset_has_no_duplicates();
    p.lemma_multiset_has_no_duplicates_conv();
    assert(p[i] != p[j]);
    assert(p.to_multiset().contains(p[i]) && p.to_multiset().contains(p[j]));
    assert(s.contains(p[i]) && s.contains(p[j]));
    let a = choose|a: int| 0 <= a < s.len() && s[a] == p[i];
    let b = choose|b: int| 0 <= b < s.len() && s[b] == p[j];
    if a < b {
        assert(s[a].other_path != s[b].other_path);
    } else {
        assert(s[b].other_path != s[a].other_path);
    }
}

} // verus!

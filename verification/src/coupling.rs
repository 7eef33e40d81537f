//! Which files change together: pairs of paths counted over the newest commits
//! of a repository, and the partners of one path read back from the table.
use vstd::prelude::*;
use crate::files;
use crate::files::{visible_rows, FileModel, FileRow};
use crate::history;
use crate::history::{
    add_commit, add_fillers, find_live_files, fresh_conn, repo, repo_meta, set_repo_meta,
    ChangeModel, CommitModel, CouplingModel, CouplingRow, FileChange, GitCommit, HistoryError,
    HistoryModel, HistoryStore,
};
use crate::index::IndexDatabase;
use crate::order;
use crate::scoped;
use crate::text;
use crate::text::{comes_before, contains_text, decimal_text, same_text};

verus! {

/// How many of the newest eligible commits are counted.
pub const COUPLING_WINDOW_COMMITS: u32 = 1000;

/// A commit with more files than this says nothing of any pair.
pub const MAX_COUPLING_COMMIT_FILES: u32 = 40;

/// A pair is stored only where it changed together at least this often.
pub const MIN_COUPLING_SUPPORT: u32 = 2;

/// The version of the rules above and of the lift floor, as the freshness
/// stamp records it.
pub const COUPLING_PARAMS_VERSION: &'static str = "1";

/// A commit of the window and its paths, each once.
pub struct WindowCommit {
    pub committed_at_s: i64,
    pub paths: Vec<String>,
}

/// What a [`WindowCommit`] holds, as plain values.
#[verifier::ext_equal]
pub struct WindowModel {
    pub committed_at_s: i64,
    pub paths: Seq<Seq<char>>,
}

impl View for WindowCommit {
    type V = WindowModel;

    open spec fn view(&self) -> WindowModel {
        WindowModel { committed_at_s: self.committed_at_s, paths: text::views(self.paths@) }
    }
}

pub open spec fn window_models(rows: Seq<WindowCommit>) -> Seq<WindowModel> {
    rows.map_values(|r: WindowCommit| r@)
}

/// A commit of the repository that says it changed neither too few nor too
/// many files. A merge says that it changed none.
pub open spec fn is_eligible(c: CommitModel, repo_id: Seq<char>) -> bool {
    c.repo_id == repo_id && 2 <= c.changed_file_count <= MAX_COUPLING_COMMIT_FILES
}

/// `a` is the newer commit. Commits of one second go by hash.
pub open spec fn is_newer(a: CommitModel, b: CommitModel) -> bool {
    a.committed_at_s > b.committed_at_s || (a.committed_at_s == b.committed_at_s && text::before(
        a.hash,
        b.hash,
    ))
}

/// The eligible commits of a repository, newest first.
pub open spec fn by_recency(commits: Seq<CommitModel>, repo_id: Seq<char>) -> Seq<CommitModel> {
    order::ranked(
        commits.filter(|c: CommitModel| is_eligible(c, repo_id)),
        |a: CommitModel, b: CommitModel| is_newer(a, b),
    )
}

/// The paths that a commit changed, each once, in the order of its rows.
pub open spec fn distinct_paths(
    changes: Seq<ChangeModel>,
    repo_id: Seq<char>,
    hash: Seq<char>,
) -> Seq<Seq<char>>
    decreases changes.len(),
{
    if changes.len() == 0 {
        Seq::empty()
    } else {
        let rest = distinct_paths(changes.drop_last(), repo_id, hash);
        let c = changes.last();
        if c.repo_id == repo_id && c.commit_hash == hash && !rest.contains(c.path) {
            rest.push(c.path)
        } else {
            rest
        }
    }
}

/// The newest eligible commits of a repository with their paths.
pub open spec fn window(h: HistoryModel, repo_id: Seq<char>) -> Seq<WindowModel> {
    let all = by_recency(h.commits, repo_id);
    let n = if all.len() < COUPLING_WINDOW_COMMITS { all.len() as int } else {
        COUPLING_WINDOW_COMMITS as int
    };
    all.take(n).map_values(
        |c: CommitModel|
            WindowModel {
                committed_at_s: c.committed_at_s,
                paths: distinct_paths(h.changes, repo_id, c.hash),
            },
    )
}

/// A commit counts only with at least two paths and not too many.
pub open spec fn contributes(c: WindowModel) -> bool {
    2 <= c.paths.len() <= MAX_COUPLING_COMMIT_FILES
}

/// The commit counts and changed `p`.
pub open spec fn touches(c: WindowModel, p: Seq<char>) -> bool {
    contributes(c) && c.paths.contains(p)
}

/// How many commits changed `p`.
pub open spec fn change_count(w: Seq<WindowModel>, p: Seq<char>) -> nat
    decreases w.len(),
{
    if w.len() == 0 {
        0
    } else {
        change_count(w.drop_last(), p) + if touches(w.last(), p) {
            1nat
        } else {
            0
        }
    }
}

/// How many commits changed both `p` and `q`.
pub open spec fn co_change_count(w: Seq<WindowModel>, p: Seq<char>, q: Seq<char>) -> nat
    decreases w.len(),
{
    if w.len() == 0 {
        0
    } else {
        co_change_count(w.drop_last(), p, q) + if touches(w.last(), p) && touches(w.last(), q) {
            1nat
        } else {
            0
        }
    }
}

/// When both `p` and `q` were last changed by one commit.
pub open spec fn last_co_change(w: Seq<WindowModel>, p: Seq<char>, q: Seq<char>) -> Option<i64>
    decreases w.len(),
{
    if w.len() == 0 {
        None
    } else {
        let rest = last_co_change(w.drop_last(), p, q);
        if touches(w.last(), p) && touches(w.last(), q) {
            match rest {
                Some(t) if t >= w.last().committed_at_s => Some(t),
                _ => Some(w.last().committed_at_s),
            }
        } else {
            rest
        }
    }
}

/// The lift floor of one and a half: the pair occurs at least half again as
/// often as two independent files with these counts would.
pub open spec fn lift_clears(co: int, a: int, b: int, n: int) -> bool {
    2 * (co * n) >= 3 * (a * b)
}

/// The pair is stored: in path order, with enough support and enough lift.
pub open spec fn couples(w: Seq<WindowModel>, p: Seq<char>, q: Seq<char>) -> bool {
    &&& text::before(p, q)
    &&& co_change_count(w, p, q) >= MIN_COUPLING_SUPPORT
    &&& lift_clears(
        co_change_count(w, p, q) as int,
        change_count(w, p) as int,
        change_count(w, q) as int,
        w.len() as int,
    )
}

/// The row that stores a pair.
pub open spec fn row_of(
    w: Seq<WindowModel>,
    repo_id: Seq<char>,
    p: Seq<char>,
    q: Seq<char>,
    now_ms: i64,
) -> CouplingModel {
    CouplingModel {
        repo_id,
        path_a: p,
        path_b: q,
        co_change_count: co_change_count(w, p, q) as u32,
        path_a_change_count: change_count(w, p) as u32,
        path_b_change_count: change_count(w, q) as u32,
        window_commit_count: w.len() as u32,
        last_co_change_at_s: last_co_change(w, p, q).unwrap_or(0),
        computed_at_ms: now_ms,
    }
}

/// The order of the pairs of two rows.
pub open spec fn pair_before(x: CouplingModel, y: CouplingModel) -> bool {
    text::before(x.path_a, y.path_a) || (x.path_a == y.path_a && text::before(x.path_b, y.path_b))
}

pub open spec fn has_pair(rows: Seq<CouplingModel>, p: Seq<char>, q: Seq<char>) -> bool {
    exists|i: int| 0 <= i < rows.len() && (#[trigger] rows[i]).path_a == p && rows[i].path_b == q
}

/// Rows of pairs that couple, in strict pair order.
pub open spec fn sound_rows(
    rows: Seq<CouplingModel>,
    w: Seq<WindowModel>,
    repo_id: Seq<char>,
    now_ms: i64,
) -> bool {
    &&& forall|i: int|
        0 <= i < rows.len() ==> couples(w, (#[trigger] rows[i]).path_a, rows[i].path_b)
            && rows[i] == row_of(w, repo_id, rows[i].path_a, rows[i].path_b, now_ms)
    &&& forall|i: int, j: int|
        0 <= i < j < rows.len() ==> pair_before(#[trigger] rows[i], #[trigger] rows[j])
}

/// The table of a window: exactly the pairs that couple, in pair order.
pub open spec fn is_coupling_table(
    rows: Seq<CouplingModel>,
    w: Seq<WindowModel>,
    repo_id: Seq<char>,
    now_ms: i64,
) -> bool {
    &&& sound_rows(rows, w, repo_id, now_ms)
    &&& forall|p: Seq<char>, q: Seq<char>| #[trigger] couples(w, p, q) ==> has_pair(rows, p, q)
}

/// The rows of the other repositories.
pub open spec fn rows_of_others(rows: Seq<CouplingModel>, repo_id: Seq<char>) -> Seq<
    CouplingModel,
> {
    rows.filter(|r: CouplingModel| r.repo_id != repo_id)
}

fn copy_commit(c: &GitCommit) -> (r: GitCommit)
    ensures
        r@ == c@,
{
    GitCommit {
        repo_id: c.repo_id.clone(),
        hash: c.hash.clone(),
        author_name: c.author_name.clone(),
        author_email: c.author_email.clone(),
        authored_at_s: c.authored_at_s,
        committed_at_s: c.committed_at_s,
        subject: c.subject.clone(),
        body: c.body.clone(),
        changed_file_count: c.changed_file_count,
    }
}

fn copy_row(c: &CouplingRow) -> (r: CouplingRow)
    ensures
        r@ == c@,
{
    CouplingRow {
        repo_id: c.repo_id.clone(),
        path_a: c.path_a.clone(),
        path_b: c.path_b.clone(),
        co_change_count: c.co_change_count,
        path_a_change_count: c.path_a_change_count,
        path_b_change_count: c.path_b_change_count,
        window_commit_count: c.window_commit_count,
        last_co_change_at_s: c.last_co_change_at_s,
        computed_at_ms: c.computed_at_ms,
    }
}

/// The eligible commits of a repository, newest first.
fn commits_by_recency(commits: &Vec<GitCommit>, repo_id: &str) -> (r: Vec<GitCommit>)
    ensures
        history::commit_models(r@) == by_recency(history::commit_models(commits@), repo_id@),
{
    let ghost all = history::commit_models(commits@);
    let ghost fits = |c: CommitModel| is_eligible(c, repo_id@);
    let ghost newer = |a: CommitModel, b: CommitModel| is_newer(a, b);
    let wanted = repo_id.to_owned();
    let mut r: Vec<GitCommit> = Vec::new();
    let mut i: usize = 0;
    proof {
        assert(all.take(0) =~= Seq::empty());
        reveal(Seq::filter);
        assert(history::commit_models(r@) =~= Seq::empty());
    }
    while i < commits.len()
        invariant
            i <= commits.len(),
            all == history::commit_models(commits@),
            wanted@ == repo_id@,
            fits == (|c: CommitModel| is_eligible(c, repo_id@)),
            newer == (|a: CommitModel, b: CommitModel| is_newer(a, b)),
            history::commit_models(r@) == order::ranked(all.take(i as int).filter(fits), newer),
        decreases commits.len() - i,
    {
        let c = &commits[i];
        let ghost sofar = all.take(i as int).filter(fits);
        proof {
            assert(all.take(i + 1).drop_last() =~= all.take(i as int));
            assert(all.take(i + 1).last() == c@);
            reveal(Seq::filter);
        }
        if c.repo_id == wanted && 2 <= c.changed_file_count && c.changed_file_count
            <= MAX_COUPLING_COMMIT_FILES as i64 {
            let ghost old_r = history::commit_models(r@);
            let mut k: usize = 0;
            while k < r.len() && !(c.committed_at_s > r[k].committed_at_s || (c.committed_at_s
                == r[k].committed_at_s && comes_before(c.hash.as_str(), r[k].hash.as_str())))
                invariant
                    k <= r.len(),
                    newer == (|a: CommitModel, b: CommitModel| is_newer(a, b)),
                    old_r == history::commit_models(r@),
                    forall|j: int| 0 <= j < k ==> !newer(c@, #[trigger] old_r[j]),
                decreases r.len() - k,
            {
                assert(old_r[k as int] == r@[k as int]@);
                k += 1;
            }
            proof {
                if k < r.len() {
                    assert(old_r[k as int] == r@[k as int]@);
                }
                order::placed_at(old_r, c@, newer, k as int);
                assert(sofar.push(c@).drop_last() =~= sofar);
            }
            let copy = copy_commit(c);
            r.insert(k, copy);
            assert(history::commit_models(r@) =~= old_r.insert(k as int, c@));
        }
        i += 1;
    }
    assert(all.take(i as int) =~= all);
    r
}

/// The paths that a commit changed, each once.
fn paths_of_commit(changes: &Vec<FileChange>, repo_id: &str, hash: &str) -> (r: Vec<String>)
    ensures
        text::views(r@) == distinct_paths(history::change_models(changes@), repo_id@, hash@),
{
    let ghost all = history::change_models(changes@);
    let wanted_repo = repo_id.to_owned();
    let wanted_hash = hash.to_owned();
    let mut r: Vec<String> = Vec::new();
    let mut i: usize = 0;
    assert(text::views(r@) =~= Seq::empty());
    while i < changes.len()
        invariant
            i <= changes.len(),
            all == history::change_models(changes@),
            wanted_repo@ == repo_id@,
            wanted_hash@ == hash@,
            text::views(r@) == distinct_paths(all.take(i as int), repo_id@, hash@),
        decreases changes.len() - i,
    {
        let c = &changes[i];
        proof {
            assert(all.take(i + 1).drop_last() =~= all.take(i as int));
            assert(all.take(i + 1).last() == c@);
        }
        if c.commit_hash == wanted_hash && c.repo_id == wanted_repo && !contains_text(
            &r,
            c.path.as_str(),
        ) {
            let ghost old_r = text::views(r@);
            r.push(c.path.clone());
            assert(text::views(r@) =~= old_r.push(c.path@));
        }
        i += 1;
    }
    assert(all.take(i as int) =~= all);
    r
}

/// The newest eligible commits of a repository with their paths.
pub fn coupling_window(conn: &HistoryStore, repo_id: &str) -> (r: Vec<WindowCommit>)
    ensures
        window_models(r@) == window(conn@, repo_id@),
        r.len() <= COUPLING_WINDOW_COMMITS,
{
    let commits = commits_by_recency(&conn.commits, repo_id);
    let ghost all = by_recency(conn@.commits, repo_id@);
    let n: usize = if commits.len() < COUPLING_WINDOW_COMMITS as usize {
        commits.len()
    } else {
        COUPLING_WINDOW_COMMITS as usize
    };
    let mut r: Vec<WindowCommit> = Vec::new();
    let mut i: usize = 0;
    while i < n
        invariant
            i <= n <= commits.len(),
            all == history::commit_models(commits@),
            r.len() == i,
            forall|j: int|
                0 <= j < i ==> (#[trigger] r@[j])@ == (WindowModel {
                    committed_at_s: all[j].committed_at_s,
                    paths: distinct_paths(conn@.changes, repo_id@, all[j].hash),
                }),
        decreases n - i,
    {
        assert(all[i as int] == commits@[i as int]@);
        r.push(
            WindowCommit {
                committed_at_s: commits[i].committed_at_s,
                paths: paths_of_commit(&conn.changes, repo_id, commits[i].hash.as_str()),
            },
        );
        i += 1;
    }
    assert(window_models(r@) =~= window(conn@, repo_id@));
    r
}

struct PairCounts {
    co: u32,
    a: u32,
    b: u32,
    last: Option<i64>,
}

fn count_pair(w: &Vec<WindowCommit>, p: &str, q: &str) -> (r: PairCounts)
    requires
        w.len() <= COUPLING_WINDOW_COMMITS,
    ensures
        r.co == co_change_count(window_models(w@), p@, q@),
        r.a == change_count(window_models(w@), p@),
        r.b == change_count(window_models(w@), q@),
        r.last == last_co_change(window_models(w@), p@, q@),
        r.a <= w.len(),
        r.b <= w.len(),
        r.co <= w.len(),
{
    let ghost all = window_models(w@);
    let mut r = PairCounts { co: 0, a: 0, b: 0, last: None };
    let mut i: usize = 0;
    while i < w.len()
        invariant
            i <= w.len(),
            w.len() <= COUPLING_WINDOW_COMMITS,
            all == window_models(w@),
            r.co == co_change_count(all.take(i as int), p@, q@),
            r.a == change_count(all.take(i as int), p@),
            r.b == change_count(all.take(i as int), q@),
            r.last == last_co_change(all.take(i as int), p@, q@),
            r.co <= i,
            r.a <= i,
            r.b <= i,
        decreases w.len() - i,
    {
        proof {
            assert(all.take(i + 1).drop_last() =~= all.take(i as int));
            assert(all.take(i + 1).last() == w@[i as int]@);
        }
        let n: usize = w[i].paths.len();
        if 2 <= n && n <= MAX_COUPLING_COMMIT_FILES as usize {
            let has_p: bool = contains_text(&w[i].paths, p);
            let has_q: bool = contains_text(&w[i].paths, q);
            if has_p {
                r.a = r.a + 1;
            }
            if has_q {
                r.b = r.b + 1;
            }
            if has_p && has_q {
                r.co = r.co + 1;
                let at: i64 = w[i].committed_at_s;
                match r.last {
                    Some(t) => {
                        if t < at {
                            r.last = Some(at);
                        }
                    },
                    None => {
                        r.last = Some(at);
                    },
                }
            }
        }
        i += 1;
    }
    assert(all.take(i as int) =~= all);
    r
}

proof fn sound_rows_inserted(
    rows: Seq<CouplingModel>,
    row: CouplingModel,
    k: int,
    w: Seq<WindowModel>,
    repo_id: Seq<char>,
    now_ms: i64,
)
    requires
        sound_rows(rows, w, repo_id, now_ms),
        couples(w, row.path_a, row.path_b),
        row == row_of(w, repo_id, row.path_a, row.path_b, now_ms),
        0 <= k <= rows.len(),
        forall|i: int| 0 <= i < k ==> pair_before(#[trigger] rows[i], row),
        k < rows.len() ==> pair_before(row, rows[k]),
    ensures
        sound_rows(rows.insert(k, row), w, repo_id, now_ms),
        has_pair(rows.insert(k, row), row.path_a, row.path_b),
        forall|p: Seq<char>, q: Seq<char>| #[trigger]
            has_pair(rows, p, q) ==> has_pair(rows.insert(k, row), p, q),
{
    let r = rows.insert(k, row);
    assert(r[k] == row);
    assert forall|i: int| 0 <= i < r.len() implies couples(w, (#[trigger] r[i]).path_a, r[i].path_b)
        && r[i] == row_of(w, repo_id, r[i].path_a, r[i].path_b, now_ms) by {
        if i < k {
            assert(r[i] == rows[i]);
        } else if i > k {
            assert(r[i] == rows[i - 1]);
        }
    }
    assert forall|i: int, j: int| 0 <= i < j < r.len() implies pair_before(
        #[trigger] r[i],
        #[trigger] r[j],
    ) by {
        if i < k {
            assert(r[i] == rows[i]);
            if j < k {
                assert(r[j] == rows[j]);
            } else if j > k {
                assert(r[j] == rows[j - 1]);
            }
        } else {
            assert(r[j] == rows[j - 1]);
            if i > k {
                assert(r[i] == rows[i - 1]);
            } else if j - 1 > k {
                pair_before_transitive(row, rows[k], rows[j - 1]);
            }
        }
    }
    assert forall|p: Seq<char>, q: Seq<char>| #[trigger] has_pair(rows, p, q) implies has_pair(
        r,
        p,
        q,
    ) by {
        let m = choose|m: int|
            0 <= m < rows.len() && (#[trigger] rows[m]).path_a == p && rows[m].path_b == q;
        if m < k {
            assert(r[m] == rows[m]);
        } else {
            assert(r[m + 1] == rows[m]);
        }
    }
}

/// The order of pairs is transitive.
pub proof fn pair_before_transitive(x: CouplingModel, y: CouplingModel, z: CouplingModel)
    requires
        pair_before(x, y),
        pair_before(y, z),
    ensures
        pair_before(x, z),
{
    if text::before(x.path_a, y.path_a) {
        if text::before(y.path_a, z.path_a) {
            text::before_transitive(x.path_a, y.path_a, z.path_a);
        }
    } else if !text::before(y.path_a, z.path_a) {
        text::before_transitive(x.path_b, y.path_b, z.path_b);
    }
}

/// Adds the pair to the rows where it couples and is not there yet.
fn note_pair(
    rows: &mut Vec<CouplingRow>,
    w: &Vec<WindowCommit>,
    repo_id: &str,
    p: &str,
    q: &str,
    now_ms: i64,
)
    requires
        w.len() <= COUPLING_WINDOW_COMMITS,
        sound_rows(history::coupling_models(old(rows)@), window_models(w@), repo_id@, now_ms),
    ensures
        sound_rows(history::coupling_models(final(rows)@), window_models(w@), repo_id@, now_ms),
        forall|a: Seq<char>, b: Seq<char>| #[trigger]
            has_pair(history::coupling_models(old(rows)@), a, b) ==> has_pair(
                history::coupling_models(final(rows)@),
                a,
                b,
            ),
        couples(window_models(w@), p@, q@) ==> has_pair(
            history::coupling_models(final(rows)@),
            p@,
            q@,
        ),
{
    if !comes_before(p, q) {
        return ;
    }
    let c = count_pair(w, p, q);
    let ghost wm = window_models(w@);
    if c.co < MIN_COUPLING_SUPPORT {
        return ;
    }
    assert(c.co * w.len() <= 1000 * 1000 && c.a * c.b <= 1000 * 1000) by (nonlinear_arith)
        requires
            c.co <= 1000,
            w.len() <= 1000,
            c.a <= 1000,
            c.b <= 1000,
    ;
    let lhs: u64 = c.co as u64 * w.len() as u64;
    let rhs: u64 = c.a as u64 * c.b as u64;
    if 2 * lhs < 3 * rhs {
        return ;
    }
    let at: i64 = match c.last {
        Some(t) => t,
        None => 0,
    };
    let row = CouplingRow {
        repo_id: repo_id.to_owned(),
        path_a: p.to_owned(),
        path_b: q.to_owned(),
        co_change_count: c.co,
        path_a_change_count: c.a,
        path_b_change_count: c.b,
        window_commit_count: w.len() as u32,
        last_co_change_at_s: at,
        computed_at_ms: now_ms,
    };
    assert(couples(wm, p@, q@));
    assert(row@ == row_of(wm, repo_id@, p@, q@, now_ms));
    let ghost models = history::coupling_models(rows@);
    let mut k: usize = 0;
    while k < rows.len()
        invariant
            k <= rows.len(),
            *rows == *old(rows),
            models == history::coupling_models(rows@),
            row.path_a@ == p@,
            row.path_b@ == q@,
            sound_rows(models, window_models(w@), repo_id@, now_ms),
            couples(window_models(w@), p@, q@),
            row@ == row_of(window_models(w@), repo_id@, p@, q@, now_ms),
            forall|i: int| 0 <= i < k ==> pair_before(#[trigger] models[i], row@),
        decreases rows.len() - k,
    {
        assert(models[k as int] == rows@[k as int]@);
        if rows[k].path_a == row.path_a {
            if rows[k].path_b == row.path_b {
                return ;
            }
            if comes_before(q, rows[k].path_b.as_str()) {
                proof {
                    sound_rows_inserted(
                        models,
                        row@,
                        k as int,
                        window_models(w@),
                        repo_id@,
                        now_ms,
                    );
                }
                rows.insert(k, row);
                assert(history::coupling_models(rows@) =~= models.insert(k as int, row@));
                return ;
            }
            proof {
                text::before_total(q@, models[k as int].path_b);
            }
        } else if comes_before(p, rows[k].path_a.as_str()) {
            proof {
                sound_rows_inserted(models, row@, k as int, window_models(w@), repo_id@, now_ms);
            }
            rows.insert(k, row);
            assert(history::coupling_models(rows@) =~= models.insert(k as int, row@));
            return ;
        } else {
            proof {
                text::before_total(p@, models[k as int].path_a);
            }
        }
        k += 1;
    }
    proof {
        sound_rows_inserted(models, row@, k as int, wm, repo_id@, now_ms);
    }
    rows.push(row);
    assert(history::coupling_models(rows@) =~= models.insert(k as int, row@));
}

/// Every pair of the first `upto` commits that couples is among the rows.
spec fn covers(rows: Seq<CouplingModel>, w: Seq<WindowModel>, upto: int) -> bool {
    forall|c: int, p: Seq<char>, q: Seq<char>|
        0 <= c < upto && #[trigger] touches(w[c], p) && #[trigger] touches(w[c], q) && couples(
            w,
            p,
            q,
        ) ==> has_pair(rows, p, q)
}

proof fn co_change_has_witness(w: Seq<WindowModel>, p: Seq<char>, q: Seq<char>)
    requires
        co_change_count(w, p, q) > 0,
    ensures
        exists|c: int| 0 <= c < w.len() && #[trigger] touches(w[c], p) && touches(w[c], q),
    decreases w.len(),
{
    if touches(w.last(), p) && touches(w.last(), q) {
        assert(touches(w[w.len() - 1], p));
    } else {
        co_change_has_witness(w.drop_last(), p, q);
        let c = choose|c: int|
            0 <= c < w.drop_last().len() && #[trigger] touches(w.drop_last()[c], p) && touches(
                w.drop_last()[c],
                q,
            );
        assert(touches(w[c], p));
    }
}

/// The table of a window.
pub fn coupling_table(w: &Vec<WindowCommit>, repo_id: &str, now_ms: i64) -> (r: Vec<CouplingRow>)
    requires
        w.len() <= COUPLING_WINDOW_COMMITS,
    ensures
        is_coupling_table(history::coupling_models(r@), window_models(w@), repo_id@, now_ms),
{
    let ghost wm = window_models(w@);
    let mut rows: Vec<CouplingRow> = Vec::new();
    let mut c: usize = 0;
    while c < w.len()
        invariant
            c <= w.len(),
            w.len() <= COUPLING_WINDOW_COMMITS,
            wm == window_models(w@),
            sound_rows(history::coupling_models(rows@), wm, repo_id@, now_ms),
            covers(history::coupling_models(rows@), wm, c as int),
        decreases w.len() - c,
    {
        let n: usize = w[c].paths.len();
        assert(wm[c as int] == w@[c as int]@);
        if 2 <= n && n <= MAX_COUPLING_COMMIT_FILES as usize {
            let ghost paths = wm[c as int].paths;
            let mut i: usize = 0;
            while i < n
                invariant
                    i <= n == paths.len(),
                    c < w.len(),
                    w.len() <= COUPLING_WINDOW_COMMITS,
                    wm == window_models(w@),
                    paths == text::views(w@[c as int].paths@),
                    sound_rows(history::coupling_models(rows@), wm, repo_id@, now_ms),
                    covers(history::coupling_models(rows@), wm, c as int),
                    forall|x: int, y: int|
                        #![trigger paths[x], paths[y]]
                        0 <= x < i && 0 <= y < n && couples(wm, paths[x], paths[y]) ==> has_pair(
                            history::coupling_models(rows@),
                            paths[x],
                            paths[y],
                        ),
                decreases n - i,
            {
                let mut j: usize = 0;
                while j < n
                    invariant
                        i < n == paths.len(),
                        j <= n,
                        c < w.len(),
                        w.len() <= COUPLING_WINDOW_COMMITS,
                        wm == window_models(w@),
                        paths == text::views(w@[c as int].paths@),
                        sound_rows(history::coupling_models(rows@), wm, repo_id@, now_ms),
                        covers(history::coupling_models(rows@), wm, c as int),
                        forall|x: int, y: int|
                            #![trigger paths[x], paths[y]]
                            0 <= x < i && 0 <= y < n && couples(wm, paths[x], paths[y])
                                ==> has_pair(
                                history::coupling_models(rows@),
                                paths[x],
                                paths[y],
                            ),
                        forall|y: int|
                            0 <= y < j && couples(wm, paths[i as int], #[trigger] paths[y])
                                ==> has_pair(
                                history::coupling_models(rows@),
                                paths[i as int],
                                paths[y],
                            ),
                    decreases n - j,
                {
                    assert(paths[i as int] == w@[c as int].paths@[i as int]@);
                    assert(paths[j as int] == w@[c as int].paths@[j as int]@);
                    note_pair(
                        &mut rows,
                        w,
                        repo_id,
                        w[c].paths[i].as_str(),
                        w[c].paths[j].as_str(),
                        now_ms,
                    );
                    j += 1;
                }
                i += 1;
            }
            assert forall|p: Seq<char>, q: Seq<char>| #[trigger]
                touches(wm[c as int], p) && #[trigger] touches(wm[c as int], q) && couples(
                    wm,
                    p,
                    q,
                ) implies has_pair(history::coupling_models(rows@), p, q) by {
                let x = choose|x: int| 0 <= x < paths.len() && paths[x] == p;
                let y = choose|y: int| 0 <= y < paths.len() && paths[y] == q;
                assert(couples(wm, paths[x], paths[y]));
            }
        }
        c += 1;
    }
    proof {
        assert forall|p: Seq<char>, q: Seq<char>| #[trigger] couples(wm, p, q) implies has_pair(
            history::coupling_models(rows@),
            p,
            q,
        ) by {
            co_change_has_witness(wm, p, q);
            let k = choose|k: int|
                0 <= k < wm.len() && #[trigger] touches(wm[k], p) && touches(wm[k], q);
            assert(touches(wm[k], p) && touches(wm[k], q));
        }
    }
    rows
}

/// A cursor that says up to where the history has been read, if it was recorded.
pub open spec fn cursor(h: HistoryModel, repo_id: Seq<char>, key: Seq<char>) -> Option<Seq<char>> {
    h.setting(repo_id, key)
}

/// The line in front of a cursor: its length, or a dash where there is none.
pub open spec fn cursor_head(c: Option<Seq<char>>) -> Seq<char> {
    match c {
        Some(v) => text::decimal(v.len()),
        None => seq!['-'],
    }
}

/// The text of a cursor; of one that was not recorded it is empty.
pub open spec fn cursor_body(c: Option<Seq<char>>) -> Seq<char> {
    match c {
        Some(v) => v,
        None => Seq::empty(),
    }
}

/// A cursor behind a line with its length.
pub open spec fn measured(c: Option<Seq<char>>) -> Seq<char> {
    cursor_head(c) + seq!['\n'] + cursor_body(c)
}

/// Four cursors, each behind its length, and the version of the rules.
pub open spec fn stamp_of(
    a: Option<Seq<char>>,
    b: Option<Seq<char>>,
    c: Option<Seq<char>>,
    d: Option<Seq<char>>,
) -> Seq<char> {
    measured(a) + (measured(b) + (measured(c) + (measured(d) + COUPLING_PARAMS_VERSION@)))
}

/// The freshness stamp of a repository: its cursors and the version of the rules.
pub open spec fn coupling_stamp(h: HistoryModel, repo_id: Seq<char>) -> Seq<char> {
    stamp_of(
        cursor(h, repo_id, "git_history_indexed_head"@),
        cursor(h, repo_id, "git_history_indexed_root"@),
        cursor(h, repo_id, "git_history_indexed_shallow"@),
        cursor(h, repo_id, "git_history_indexed_complete"@),
    )
}

proof fn stamp_of_appended(
    a: Option<Seq<char>>,
    b: Option<Seq<char>>,
    c: Option<Seq<char>>,
    d: Option<Seq<char>>,
)
    ensures
        Seq::<char>::empty() + measured(a) + measured(b) + measured(c) + measured(d)
            + COUPLING_PARAMS_VERSION@ == stamp_of(a, b, c, d),
{
    assert(Seq::<char>::empty() + measured(a) + measured(b) + measured(c) + measured(d)
        + COUPLING_PARAMS_VERSION@ =~= stamp_of(a, b, c, d));
}

fn append_cursor(conn: &HistoryStore, repo_id: &str, key: &str, stamp: &mut String)
    ensures
        final(stamp)@ == old(stamp)@ + measured(cursor(conn@, repo_id@, key@)),
{
    proof {
        reveal_strlit("\n");
        assert("\n"@ =~= seq!['\n']);
        reveal_strlit("-\n");
        assert("-\n"@ =~= seq!['-'] + seq!['\n'] + Seq::<char>::empty());
    }
    let ghost before = stamp@;
    match repo_meta(conn, repo_id, key) {
        Some(v) => {
            stamp.append(decimal_text(v.as_str().unicode_len() as u64).as_str());
            stamp.append("\n");
            stamp.append(v.as_str());
            assert(stamp@ =~= before + measured(Some(v@)));
        },
        None => {
            stamp.append("-\n");
        },
    }
}

fn current_stamp(conn: &HistoryStore, repo_id: &str) -> (r: String)
    ensures
        r@ == coupling_stamp(conn@, repo_id@),
{
    let mut r = String::new();
    append_cursor(conn, repo_id, "git_history_indexed_head", &mut r);
    append_cursor(conn, repo_id, "git_history_indexed_root", &mut r);
    append_cursor(conn, repo_id, "git_history_indexed_shallow", &mut r);
    append_cursor(conn, repo_id, "git_history_indexed_complete", &mut r);
    r.append(COUPLING_PARAMS_VERSION);
    proof {
        stamp_of_appended(
            cursor(conn@, repo_id@, "git_history_indexed_head"@),
            cursor(conn@, repo_id@, "git_history_indexed_root"@),
            cursor(conn@, repo_id@, "git_history_indexed_shallow"@),
            cursor(conn@, repo_id@, "git_history_indexed_complete"@),
        );
    }
    r
}

/// `after` is `before` with the couplings of one repository computed anew from
/// its window, and its stamp written.
pub open spec fn is_recomputed(
    before: HistoryModel,
    after: HistoryModel,
    repo_id: Seq<char>,
    now_ms: i64,
) -> bool {
    let others = rows_of_others(before.couplings, repo_id);
    &&& after.active_repo_id == before.active_repo_id
    &&& after.repos == before.repos
    &&& after.commits == before.commits
    &&& after.changes == before.changes
    &&& after.files == before.files
    &&& after.couplings.len() >= others.len()
    &&& after.couplings.take(others.len() as int) == others
    &&& is_coupling_table(
        after.couplings.skip(others.len() as int),
        window(before, repo_id),
        repo_id,
        now_ms,
    )
    &&& forall|r: Seq<char>, k: Seq<char>| #[trigger]
        after.setting(r, k) == if r == repo_id && k == "git_coupling_stamp"@ {
            Some(coupling_stamp(before, repo_id))
        } else {
            before.setting(r, k)
        }
}

fn copy_rows_of_others(rows: &Vec<CouplingRow>, repo_id: &str) -> (r: Vec<CouplingRow>)
    ensures
        history::coupling_models(r@) == rows_of_others(history::coupling_models(rows@), repo_id@),
{
    let ghost all = history::coupling_models(rows@);
    let ghost other = |m: CouplingModel| m.repo_id != repo_id@;
    let wanted = repo_id.to_owned();
    let mut r: Vec<CouplingRow> = Vec::new();
    let mut i: usize = 0;
    proof {
        reveal(Seq::filter);
        assert(history::coupling_models(r@) =~= Seq::empty());
    }
    while i < rows.len()
        invariant
            i <= rows.len(),
            all == history::coupling_models(rows@),
            other == (|m: CouplingModel| m.repo_id != repo_id@),
            wanted@ == repo_id@,
            history::coupling_models(r@) == all.take(i as int).filter(other),
        decreases rows.len() - i,
    {
        proof {
            assert(all.take(i + 1).drop_last() =~= all.take(i as int));
            assert(all.take(i + 1).last() == rows@[i as int]@);
            reveal(Seq::filter);
        }
        if rows[i].repo_id != wanted {
            let ghost old_r = history::coupling_models(r@);
            let row = copy_row(&rows[i]);
            r.push(row);
            assert(history::coupling_models(r@) =~= old_r.push(row@));
        }
        i += 1;
    }
    assert(all.take(i as int) =~= all);
    r
}

/// Computes the couplings of one repository anew from its newest commits and
/// writes its stamp. Nothing of another repository changes. For a repository that
/// is not registered the write fails and changes nothing.
pub fn recompute_couplings(conn: &mut HistoryStore, repo_id: &str, now_ms: i64) -> (r: Result<
    (),
    HistoryError,
>)
    ensures
        r == if old(conn)@.is_registered(repo_id@) {
            Ok(())
        } else {
            Err(HistoryError::UnknownRepository)
        },
        match r {
            Ok(_) => is_recomputed(old(conn)@, final(conn)@, repo_id@, now_ms),
            Err(_) => *final(conn) == *old(conn),
        },
{
    if !contains_text(&conn.repos, repo_id) {
        return Err(HistoryError::UnknownRepository);
    }
    let w = coupling_window(conn, repo_id);
    let mut table = coupling_table(&w, repo_id, now_ms);
    let stamp = current_stamp(conn, repo_id);
    let mut rows = copy_rows_of_others(&conn.couplings, repo_id);
    let ghost others = history::coupling_models(rows@);
    let ghost fresh = history::coupling_models(table@);
    rows.append(&mut table);
    assert(history::coupling_models(rows@) =~= others + fresh);
    conn.couplings = rows;
    assert(conn@.couplings.take(others.len() as int) =~= others);
    assert(conn@.couplings.skip(others.len() as int) =~= fresh);
    set_repo_meta(conn, repo_id, "git_coupling_stamp", stamp.as_str())
}

/// Computes the couplings of the active repository anew unless its stamp says
/// that they already rest on the history as it was last read. Where they do not,
/// and the repository is not registered, the write fails and changes nothing.
pub fn ensure_coupling_fresh(conn: &mut HistoryStore, now_ms: i64) -> (r: Result<(), HistoryError>)
    ensures
        if old(conn)@.setting(old(conn)@.active_repo_id, "git_coupling_stamp"@) == Some(
            coupling_stamp(old(conn)@, old(conn)@.active_repo_id),
        ) {
            r is Ok && *final(conn) == *old(conn)
        } else if old(conn)@.is_registered(old(conn)@.active_repo_id) {
            r is Ok && is_recomputed(
                old(conn)@,
                final(conn)@,
                old(conn)@.active_repo_id,
                now_ms,
            )
        } else {
            r == Err::<(), HistoryError>(HistoryError::UnknownRepository) && *final(conn) == *old(
                conn,
            )
        },
{
    let active = conn.active_repo_id.clone();
    let stamp = current_stamp(conn, active.as_str());
    let fresh: bool = match repo_meta(conn, active.as_str(), "git_coupling_stamp") {
        Some(v) => v == stamp,
        None => false,
    };
    if !fresh {
        return recompute_couplings(conn, active.as_str(), now_ms);
    }
    Ok(())
}

/// A row as it is listed: the two paths, how often both, the first and the
/// second changed, how many commits were counted, and when both last changed.
pub type ListedCoupling = (String, String, u32, u32, u32, u32, i64);

/// What a [`ListedCoupling`] holds, as plain values.
pub type ListedModel = (Seq<char>, Seq<char>, u32, u32, u32, u32, i64);

pub open spec fn listed_model(t: ListedCoupling) -> ListedModel {
    (t.0@, t.1@, t.2, t.3, t.4, t.5, t.6)
}

pub open spec fn listed_row(m: CouplingModel) -> ListedModel {
    (
        m.path_a,
        m.path_b,
        m.co_change_count,
        m.path_a_change_count,
        m.path_b_change_count,
        m.window_commit_count,
        m.last_co_change_at_s,
    )
}

/// The rows of one repository, in pair order.
pub open spec fn rows_of_repo(rows: Seq<CouplingModel>, repo_id: Seq<char>) -> Seq<CouplingModel> {
    order::ranked(
        rows.filter(|r: CouplingModel| r.repo_id == repo_id),
        |x: CouplingModel, y: CouplingModel| pair_before(x, y),
    )
}

/// Lists the stored rows of one repository in pair order.
pub fn coupling_rows(conn: &HistoryStore, repo_id: &str) -> (r: Vec<ListedCoupling>)
    ensures
        r@.map_values(|t: ListedCoupling| listed_model(t)) == rows_of_repo(
            conn@.couplings,
            repo_id@,
        ).map_values(|m: CouplingModel| listed_row(m)),
{
    let ghost all = conn@.couplings;
    let ghost ours = |m: CouplingModel| m.repo_id == repo_id@;
    let ghost earlier = |x: CouplingModel, y: CouplingModel| pair_before(x, y);
    let wanted = repo_id.to_owned();
    let mut sorted: Vec<CouplingRow> = Vec::new();
    let mut i: usize = 0;
    proof {
        reveal(Seq::filter);
        assert(history::coupling_models(sorted@) =~= Seq::empty());
    }
    while i < conn.couplings.len()
        invariant
            i <= conn.couplings.len(),
            all == history::coupling_models(conn.couplings@),
            ours == (|m: CouplingModel| m.repo_id == repo_id@),
            earlier == (|x: CouplingModel, y: CouplingModel| pair_before(x, y)),
            wanted@ == repo_id@,
            history::coupling_models(sorted@) == order::ranked(
                all.take(i as int).filter(ours),
                earlier,
            ),
        decreases conn.couplings.len() - i,
    {
        let row = &conn.couplings[i];
        let ghost sofar = all.take(i as int).filter(ours);
        proof {
            assert(all.take(i + 1).drop_last() =~= all.take(i as int));
            assert(all.take(i + 1).last() == row@);
            reveal(Seq::filter);
        }
        if row.repo_id == wanted {
            let ghost old_sorted = history::coupling_models(sorted@);
            let mut k: usize = 0;
            while k < sorted.len() && !(comes_before(
                row.path_a.as_str(),
                sorted[k].path_a.as_str(),
            ) || (row.path_a == sorted[k].path_a && comes_before(
                row.path_b.as_str(),
                sorted[k].path_b.as_str(),
            )))
                invariant
                    k <= sorted.len(),
                    earlier == (|x: CouplingModel, y: CouplingModel| pair_before(x, y)),
                    old_sorted == history::coupling_models(sorted@),
                    forall|j: int| 0 <= j < k ==> !earlier(row@, #[trigger] old_sorted[j]),
                decreases sorted.len() - k,
            {
                assert(old_sorted[k as int] == sorted@[k as int]@);
                k += 1;
            }
            proof {
                if k < sorted.len() {
                    assert(old_sorted[k as int] == sorted@[k as int]@);
                }
                order::placed_at(old_sorted, row@, earlier, k as int);
                assert(sofar.push(row@).drop_last() =~= sofar);
            }
            let copy = copy_row(row);
            sorted.insert(k, copy);
            assert(history::coupling_models(sorted@) =~= old_sorted.insert(k as int, row@));
        }
        i += 1;
    }
    assert(all.take(i as int) =~= all);
    let mut r: Vec<ListedCoupling> = Vec::new();
    let mut j: usize = 0;
    while j < sorted.len()
        invariant
            j <= sorted.len(),
            r.len() == j,
            forall|x: int|
                0 <= x < j ==> listed_model(#[trigger] r@[x]) == listed_row(sorted@[x]@),
        decreases sorted.len() - j,
    {
        let row = &sorted[j];
        r.push(
            (
                row.path_a.clone(),
                row.path_b.clone(),
                row.co_change_count,
                row.path_a_change_count,
                row.path_b_change_count,
                row.window_commit_count,
                row.last_co_change_at_s,
            ),
        );
        j += 1;
    }
    assert(r@.map_values(|t: ListedCoupling| listed_model(t)) =~= rows_of_repo(
        conn@.couplings,
        repo_id@,
    ).map_values(|m: CouplingModel| listed_row(m)));
    r
}

/// Stores a pair with the given counts: how often both, the first and the
/// second changed, and how many commits were counted. No floor is applied.
pub fn insert_coupling(
    conn: &mut HistoryStore,
    repo_id: &str,
    path_a: &str,
    path_b: &str,
    counts: (u32, u32, u32, u32),
)
    requires
        text::before(path_a@, path_b@),
    ensures
        final(conn)@ == (HistoryModel {
            couplings: old(conn)@.couplings.push(
                CouplingModel {
                    repo_id: repo_id@,
                    path_a: path_a@,
                    path_b: path_b@,
                    co_change_count: counts.0,
                    path_a_change_count: counts.1,
                    path_b_change_count: counts.2,
                    window_commit_count: counts.3,
                    last_co_change_at_s: 0,
                    computed_at_ms: 0,
                },
            ),
            ..old(conn)@
        }),
{
    let row = CouplingRow {
        repo_id: repo_id.to_owned(),
        path_a: path_a.to_owned(),
        path_b: path_b.to_owned(),
        co_change_count: counts.0,
        path_a_change_count: counts.1,
        path_b_change_count: counts.2,
        window_commit_count: counts.3,
        last_co_change_at_s: 0,
        computed_at_ms: 0,
    };
    conn.couplings.push(row);
    assert(conn@.couplings =~= old(conn)@.couplings.push(row@));
}

/// When the first stored row of a repository was computed.
pub open spec fn first_computed_at(rows: Seq<CouplingModel>, repo_id: Seq<char>) -> Option<i64>
    decreases rows.len(),
{
    if rows.len() == 0 {
        None
    } else if rows[0].repo_id == repo_id {
        Some(rows[0].computed_at_ms)
    } else {
        first_computed_at(rows.drop_first(), repo_id)
    }
}

/// When the stored rows of a repository were computed, of which there is one.
pub fn coupling_computed_at(conn: &HistoryStore, repo_id: &str) -> (r: i64)
    requires
        exists|i: int|
            0 <= i < conn@.couplings.len() && (#[trigger] conn@.couplings[i]).repo_id == repo_id@,
    ensures
        Some(r) == first_computed_at(conn@.couplings, repo_id@),
        exists|i: int|
            0 <= i < conn@.couplings.len() && (#[trigger] conn@.couplings[i]).repo_id == repo_id@
                && conn@.couplings[i].computed_at_ms == r,
{
    let ghost all = conn@.couplings;
    let mut i: usize = 0;
    assert(all.skip(0) =~= all);
    while !same_text(conn.couplings[i].repo_id.as_str(), repo_id)
        invariant
            i < conn.couplings.len(),
            all == history::coupling_models(conn.couplings@),
            first_computed_at(all, repo_id@) == first_computed_at(all.skip(i as int), repo_id@),
            exists|k: int| i <= k < all.len() && (#[trigger] all[k]).repo_id == repo_id@,
        decreases conn.couplings.len() - i,
    {
        proof {
            assert(all[i as int] == conn.couplings@[i as int]@);
            assert(all.skip(i as int)[0] == all[i as int]);
            assert(all.skip(i as int).drop_first() =~= all.skip(i + 1));
        }
        i += 1;
    }
    proof {
        assert(all[i as int] == conn.couplings@[i as int]@);
        assert(all.skip(i as int)[0] == all[i as int]);
    }
    conn.couplings[i].computed_at_ms
}

/// A file that changes together with the one asked about.
///
/// The confidence is `co_change_count / path_change_count`; the lift is
/// `co_change_count * window_commit_count / (path_change_count * other_change_count)`.
#[derive(Debug)]
pub struct CoupledFile {
    pub other_path: String,
    pub co_change_count: u32,
    pub path_change_count: u32,
    pub other_change_count: u32,
    pub window_commit_count: u32,
}

/// What a [`CoupledFile`] holds, as plain values.
#[verifier::ext_equal]
pub struct CoupledModel {
    pub other_path: Seq<char>,
    pub co_change_count: u32,
    pub path_change_count: u32,
    pub other_change_count: u32,
    pub window_commit_count: u32,
}

impl View for CoupledFile {
    type V = CoupledModel;

    open spec fn view(&self) -> CoupledModel {
        CoupledModel {
            other_path: self.other_path@,
            co_change_count: self.co_change_count,
            path_change_count: self.path_change_count,
            other_change_count: self.other_change_count,
            window_commit_count: self.window_commit_count,
        }
    }
}

pub open spec fn coupled_models(rows: Seq<CoupledFile>) -> Seq<CoupledModel> {
    rows.map_values(|r: CoupledFile| r@)
}

/// The path is that of a listed file that is not generated.
pub open spec fn is_listed(files: Seq<FileModel>, path: Seq<char>) -> bool {
    exists|i: int|
        0 <= i < files.len() && (#[trigger] files[i]).path == path && !files[i].generated
}

/// The row as seen from `path`, whichever of its two paths that is.
pub open spec fn seen_from(r: CouplingModel, path: Seq<char>) -> CoupledModel {
    if r.path_a == path {
        CoupledModel {
            other_path: r.path_b,
            co_change_count: r.co_change_count,
            path_change_count: r.path_a_change_count,
            other_change_count: r.path_b_change_count,
            window_commit_count: r.window_commit_count,
        }
    } else {
        CoupledModel {
            other_path: r.path_a,
            co_change_count: r.co_change_count,
            path_change_count: r.path_b_change_count,
            other_change_count: r.path_a_change_count,
            window_commit_count: r.window_commit_count,
        }
    }
}

/// The row couples `path` to a listed file, above the lift floor.
pub open spec fn surfaces(
    r: CouplingModel,
    files: Seq<FileModel>,
    repo_id: Seq<char>,
    path: Seq<char>,
) -> bool {
    &&& r.repo_id == repo_id
    &&& r.path_a == path || r.path_b == path
    &&& lift_clears(
        r.co_change_count as int,
        r.path_a_change_count as int,
        r.path_b_change_count as int,
        r.window_commit_count as int,
    )
    &&& is_listed(files, seen_from(r, path).other_path)
}

/// The better partner: the higher confidence, then the higher support, then
/// the path that comes first.
pub open spec fn outranks(x: CoupledModel, y: CoupledModel) -> bool {
    let cx = x.co_change_count * y.path_change_count;
    let cy = y.co_change_count * x.path_change_count;
    cx > cy || (cx == cy && (x.co_change_count > y.co_change_count || (x.co_change_count
        == y.co_change_count && text::before(x.other_path, y.other_path))))
}

/// The partners of a path among some files, the best first.
pub open spec fn partners_among(
    couplings: Seq<CouplingModel>,
    files: Seq<FileModel>,
    repo_id: Seq<char>,
    path: Seq<char>,
) -> Seq<CoupledModel> {
    order::ranked(
        couplings.filter(|r: CouplingModel| surfaces(r, files, repo_id, path)).map_values(
            |r: CouplingModel| seen_from(r, path),
        ),
        |x: CoupledModel, y: CoupledModel| outranks(x, y),
    )
}

/// The partners of a path among the live files, the best first.
pub open spec fn partners(h: HistoryModel, repo_id: Seq<char>, path: Seq<char>) -> Seq<
    CoupledModel,
> {
    partners_among(h.couplings, h.live_files(), repo_id, path)
}

/// The first `limit` of some partners.
pub open spec fn first_of(all: Seq<CoupledModel>, limit: usize) -> Seq<CoupledModel> {
    all.take(
        if limit < all.len() {
            limit as int
        } else {
            all.len() as int
        },
    )
}

fn listed(files: &Vec<FileRow>, path: &String) -> (r: bool)
    ensures
        r == is_listed(files::file_models(files@), path@),
{
    let ghost all = files::file_models(files@);
    let mut i: usize = 0;
    while i < files.len()
        invariant
            i <= files.len(),
            all == files::file_models(files@),
            forall|j: int| 0 <= j < i ==> !((#[trigger] all[j]).path == path@ && !all[j].generated),
        decreases files.len() - i,
    {
        assert(all[i as int] == files@[i as int]@);
        if files[i].path == *path && !files[i].generated {
            return true;
        }
        i += 1;
    }
    false
}

fn better(x: &CoupledFile, y: &CoupledFile) -> (r: bool)
    ensures
        r == outranks(x@, y@),
{
    assert(0 <= x.co_change_count * y.path_change_count <= u32::MAX * u32::MAX)
        by (nonlinear_arith)
        requires
            0 <= x.co_change_count <= u32::MAX,
            0 <= y.path_change_count <= u32::MAX,
    ;
    assert(0 <= y.co_change_count * x.path_change_count <= u32::MAX * u32::MAX)
        by (nonlinear_arith)
        requires
            0 <= y.co_change_count <= u32::MAX,
            0 <= x.path_change_count <= u32::MAX,
    ;
    let cx: u64 = x.co_change_count as u64 * y.path_change_count as u64;
    let cy: u64 = y.co_change_count as u64 * x.path_change_count as u64;
    cx > cy || (cx == cy && (x.co_change_count > y.co_change_count || (x.co_change_count
        == y.co_change_count && comes_before(x.other_path.as_str(), y.other_path.as_str()))))
}

fn clears_lift(r: &CouplingRow) -> (ok: bool)
    ensures
        ok == lift_clears(
            r.co_change_count as int,
            r.path_a_change_count as int,
            r.path_b_change_count as int,
            r.window_commit_count as int,
        ),
{
    assert(0 <= r.co_change_count * r.window_commit_count <= u32::MAX * u32::MAX)
        by (nonlinear_arith)
        requires
            0 <= r.co_change_count <= u32::MAX,
            0 <= r.window_commit_count <= u32::MAX,
    ;
    assert(0 <= r.path_a_change_count * r.path_b_change_count <= u32::MAX * u32::MAX)
        by (nonlinear_arith)
        requires
            0 <= r.path_a_change_count <= u32::MAX,
            0 <= r.path_b_change_count <= u32::MAX,
    ;
    let lhs: u64 = r.co_change_count as u64 * r.window_commit_count as u64;
    let rhs: u64 = r.path_a_change_count as u64 * r.path_b_change_count as u64;
    2 * (lhs as u128) >= 3 * (rhs as u128)
}

/// The files that change together with `path`, the best partner first and at
/// most `limit` of them: those of a stored pair above the lift floor whose file
/// is live and not generated.
pub fn coupled_files_for_path(
    conn: &HistoryStore,
    repo_id: &str,
    path: &str,
    limit: usize,
) -> (r: Vec<CoupledFile>)
    ensures
        coupled_models(r@) == first_of(partners(conn@, repo_id@, path@), limit),
{
    let files = find_live_files(conn);
    coupled_files_among(conn, &files, repo_id, path, limit)
}

impl IndexDatabase {
    /// The files that change together with `path` in the repository that the scope
    /// is of, the best partner first and at most `limit` of them: those of a stored
    /// pair above the lift floor whose file a reader sees and that is not generated.
    pub fn coupled_files(&self, path: &str, limit: usize) -> (r: Vec<CoupledFile>)
        ensures
            coupled_models(r@) == first_of(
                partners_among(
                    self.history@.couplings,
                    scoped::seen_rows(self@),
                    self@.repo_id,
                    path@,
                ),
                limit,
            ),
    {
        let files = visible_rows(&self.store.files, &self.scope);
        coupled_files_among(&self.history, &files, self.scope.repo_id.as_str(), path, limit)
    }
}

/// The files that change together with `path`, among some files: the best partner
/// first and at most `limit` of them.
pub fn coupled_files_among(
    conn: &HistoryStore,
    files: &Vec<FileRow>,
    repo_id: &str,
    path: &str,
    limit: usize,
) -> (r: Vec<CoupledFile>)
    ensures
        coupled_models(r@) == first_of(
            partners_among(
                conn@.couplings,
                files::file_models(files@),
                repo_id@,
                path@,
            ),
            limit,
        ),
{
    let ghost listed_files = files::file_models(files@);
    let ghost all = conn@.couplings;
    let ghost fits = |m: CouplingModel| surfaces(m, listed_files, repo_id@, path@);
    let ghost seen = |m: CouplingModel| seen_from(m, path@);
    let ghost ahead = |x: CoupledModel, y: CoupledModel| outranks(x, y);
    let wanted_repo = repo_id.to_owned();
    let wanted_path = path.to_owned();
    let mut r: Vec<CoupledFile> = Vec::new();
    let mut i: usize = 0;
    proof {
        reveal(Seq::filter);
        assert(all.take(0).filter(fits).map_values(seen) =~= Seq::empty());
        assert(coupled_models(r@) =~= Seq::empty());
    }
    while i < conn.couplings.len()
        invariant
            i <= conn.couplings.len(),
            all == history::coupling_models(conn.couplings@),
            listed_files == files::file_models(files@),
            fits == (|m: CouplingModel| surfaces(m, listed_files, repo_id@, path@)),
            seen == (|m: CouplingModel| seen_from(m, path@)),
            ahead == (|x: CoupledModel, y: CoupledModel| outranks(x, y)),
            wanted_repo@ == repo_id@,
            wanted_path@ == path@,
            coupled_models(r@) == order::ranked(
                all.take(i as int).filter(fits).map_values(seen),
                ahead,
            ),
        decreases conn.couplings.len() - i,
    {
        let row = &conn.couplings[i];
        let ghost sofar = all.take(i as int).filter(fits);
        proof {
            assert(all.take(i + 1).drop_last() =~= all.take(i as int));
            assert(all.take(i + 1).last() == row@);
            reveal(Seq::filter);
        }
        let is_a: bool = row.path_a == wanted_path;
        if row.repo_id == wanted_repo && (is_a || row.path_b == wanted_path) && clears_lift(row) {
            let item = if is_a {
                CoupledFile {
                    other_path: row.path_b.clone(),
                    co_change_count: row.co_change_count,
                    path_change_count: row.path_a_change_count,
                    other_change_count: row.path_b_change_count,
                    window_commit_count: row.window_commit_count,
                }
            } else {
                CoupledFile {
                    other_path: row.path_a.clone(),
                    co_change_count: row.co_change_count,
                    path_change_count: row.path_b_change_count,
                    other_change_count: row.path_a_change_count,
                    window_commit_count: row.window_commit_count,
                }
            };
            assert(item@ == seen_from(row@, path@));
            if listed(files, &item.other_path) {
                let ghost old_r = coupled_models(r@);
                let mut k: usize = 0;
                while k < r.len() && !better(&item, &r[k])
                    invariant
                        k <= r.len(),
                        ahead == (|x: CoupledModel, y: CoupledModel| outranks(x, y)),
                        old_r == coupled_models(r@),
                        forall|j: int| 0 <= j < k ==> !ahead(item@, #[trigger] old_r[j]),
                    decreases r.len() - k,
                {
                    assert(old_r[k as int] == r@[k as int]@);
                    k += 1;
                }
                proof {
                    if k < r.len() {
                        assert(old_r[k as int] == r@[k as int]@);
                    }
                    order::placed_at(old_r, item@, ahead, k as int);
                    assert(sofar.push(row@).map_values(seen) =~= sofar.map_values(seen).push(
                        item@,
                    ));
                    assert(sofar.map_values(seen).push(item@).drop_last() =~= sofar.map_values(
                        seen,
                    ));
                }
                r.insert(k, item);
                assert(coupled_models(r@) =~= old_r.insert(k as int, item@));
            }
        }
        i += 1;
    }
    assert(all.take(i as int) =~= all);
    let ghost full = coupled_models(r@);
    if limit < r.len() {
        r.truncate(limit);
    }
    assert(coupled_models(r@) =~= full.take(
        if limit < full.len() {
            limit as int
        } else {
            full.len() as int
        },
    ));
    r
}

/// A history in which one pair changes together in two of four commits, and
/// the repository that it belongs to.
pub fn stamp_fixture() -> (r: (HistoryStore, String))
    ensures
        r.1@ == history::LEGACY_REPO_ID@,
        r.0@ == history::with_fillers(
            history::with_commit(
                history::with_commit(
                    history::empty_history(),
                    r.1@,
                    "c1"@,
                    10,
                    seq!["a.rs"@, "b.rs"@],
                    2,
                ),
                r.1@,
                "c2"@,
                20,
                seq!["a.rs"@, "b.rs"@],
                2,
            ),
            r.1@,
            2,
            100,
        ),
{
    let mut conn = fresh_conn();
    let repo = repo();
    let mut paths: Vec<String> = Vec::new();
    paths.push("a.rs".to_owned());
    paths.push("b.rs".to_owned());
    assert(text::views(paths@) =~= seq!["a.rs"@, "b.rs"@]);
    assert(conn@.repos[0] == repo@);
    add_commit(&mut conn, repo.as_str(), "c1", 10, &paths);
    add_commit(&mut conn, repo.as_str(), "c2", 20, &paths);
    add_fillers(&mut conn, repo.as_str(), 2, 100);
    (conn, repo)
}

/// No pair comes before itself.
pub proof fn pair_before_irreflexive(x: CouplingModel)
    ensures
        !pair_before(x, x),
{
    text::before_irreflexive(x.path_a);
    text::before_irreflexive(x.path_b);
}

proof fn same_members_same_rows(r1: Seq<CouplingModel>, r2: Seq<CouplingModel>)
    requires
        forall|i: int, j: int|
            0 <= i < j < r1.len() ==> pair_before(#[trigger] r1[i], #[trigger] r1[j]),
        forall|i: int, j: int|
            0 <= i < j < r2.len() ==> pair_before(#[trigger] r2[i], #[trigger] r2[j]),
        forall|i: int| 0 <= i < r1.len() ==> r2.contains(#[trigger] r1[i]),
        forall|i: int| 0 <= i < r2.len() ==> r1.contains(#[trigger] r2[i]),
    ensures
        r1 == r2,
    decreases r1.len(),
{
    if r1.len() == 0 {
        if r2.len() > 0 {
            assert(r1.contains(r2[0]));
        }
        assert(r1 =~= r2);
    } else {
        assert(r2.contains(r1[0]));
        let m = choose|m: int| 0 <= m < r2.len() && r2[m] == r1[0];
        assert(r1.contains(r2[0]));
        let k = choose|k: int| 0 <= k < r1.len() && r1[k] == r2[0];
        if m > 0 {
            assert(pair_before(r2[0], r2[m]));
            if k > 0 {
                assert(pair_before(r1[0], r1[k]));
                pair_before_transitive(r1[0], r2[0], r1[0]);
            }
            pair_before_irreflexive(r1[0]);
        }
        let d1 = r1.drop_first();
        let d2 = r2.drop_first();
        assert forall|i: int, j: int| 0 <= i < j < d1.len() implies pair_before(
            #[trigger] d1[i],
            #[trigger] d1[j],
        ) by {
            assert(d1[i] == r1[i + 1] && d1[j] == r1[j + 1]);
        }
        assert forall|i: int, j: int| 0 <= i < j < d2.len() implies pair_before(
            #[trigger] d2[i],
            #[trigger] d2[j],
        ) by {
            assert(d2[i] == r2[i + 1] && d2[j] == r2[j + 1]);
        }
        assert forall|i: int| 0 <= i < d1.len() implies d2.contains(#[trigger] d1[i]) by {
            assert(d1[i] == r1[i + 1]);
            assert(r2.contains(r1[i + 1]));
            let x = choose|x: int| 0 <= x < r2.len() && r2[x] == r1[i + 1];
            assert(pair_before(r1[0], r1[i + 1]));
            if x == 0 {
                pair_before_irreflexive(r1[0]);
            }
            assert(d2[x - 1] == d1[i]);
        }
        assert forall|i: int| 0 <= i < d2.len() implies d1.contains(#[trigger] d2[i]) by {
            assert(d2[i] == r2[i + 1]);
            assert(r1.contains(r2[i + 1]));
            let x = choose|x: int| 0 <= x < r1.len() && r1[x] == r2[i + 1];
            assert(pair_before(r2[0], r2[i + 1]));
            if x == 0 {
                pair_before_irreflexive(r2[0]);
            }
            assert(d1[x - 1] == d2[i]);
        }
        same_members_same_rows(d1, d2);
        assert(r1 =~= seq![r1[0]] + d1);
        assert(r2 =~= seq![r2[0]] + d2);
    }
}

/// The stored table is a function of the window alone: a window has one table.
pub proof fn table_is_unique(
    r1: Seq<CouplingModel>,
    r2: Seq<CouplingModel>,
    w: Seq<WindowModel>,
    repo_id: Seq<char>,
    now_ms: i64,
)
    requires
        is_coupling_table(r1, w, repo_id, now_ms),
        is_coupling_table(r2, w, repo_id, now_ms),
    ensures
        r1 == r2,
{
    assert forall|i: int| 0 <= i < r1.len() implies r2.contains(#[trigger] r1[i]) by {
        assert(couples(w, r1[i].path_a, r1[i].path_b));
        assert(has_pair(r2, r1[i].path_a, r1[i].path_b));
        let m = choose|m: int|
            0 <= m < r2.len() && (#[trigger] r2[m]).path_a == r1[i].path_a && r2[m].path_b
                == r1[i].path_b;
        assert(r2[m] == r1[i]);
    }
    assert forall|i: int| 0 <= i < r2.len() implies r1.contains(#[trigger] r2[i]) by {
        assert(couples(w, r2[i].path_a, r2[i].path_b));
        assert(has_pair(r1, r2[i].path_a, r2[i].path_b));
        let m = choose|m: int|
            0 <= m < r1.len() && (#[trigger] r1[m]).path_a == r2[i].path_a && r1[m].path_b
                == r2[i].path_b;
        assert(r1[m] == r2[i]);
    }
    same_members_same_rows(r1, r2);
}

/// Two files change together no more often than either changes, and no file
/// changes more often than there are commits.
pub proof fn counts_are_bounded(w: Seq<WindowModel>, p: Seq<char>, q: Seq<char>)
    ensures
        co_change_count(w, p, q) <= change_count(w, p) <= w.len(),
        co_change_count(w, p, q) <= change_count(w, q) <= w.len(),
    decreases w.len(),
{
    if w.len() > 0 {
        counts_are_bounded(w.drop_last(), p, q);
    }
}

/// The counts of a pair do not depend on what else the commits changed, as long
/// as the same commits count: a sibling file adds pairs of its own and leaves
/// the others as they are.
pub proof fn siblings_do_not_matter(
    w1: Seq<WindowModel>,
    w2: Seq<WindowModel>,
    p: Seq<char>,
    q: Seq<char>,
)
    requires
        w1.len() == w2.len(),
        forall|i: int| #![trigger w1[i]] #![trigger w2[i]]
            0 <= i < w1.len() ==> w1[i].committed_at_s == w2[i].committed_at_s && touches(w1[i], p)
                == touches(w2[i], p) && touches(w1[i], q) == touches(w2[i], q),
    ensures
        co_change_count(w1, p, q) == co_change_count(w2, p, q),
        change_count(w1, p) == change_count(w2, p),
        change_count(w1, q) == change_count(w2, q),
        last_co_change(w1, p, q) == last_co_change(w2, p, q),
        couples(w1, p, q) == couples(w2, p, q),
    decreases w1.len(),
{
    if w1.len() > 0 {
        let n = w1.len() - 1;
        assert(touches(w1[n], p) == touches(w2[n], p));
        let d1 = w1.drop_last();
        let d2 = w2.drop_last();
        assert forall|i: int| #![trigger d1[i]] #![trigger d2[i]] 0 <= i < d1.len() implies
            d1[i].committed_at_s == d2[i].committed_at_s && touches(d1[i], p) == touches(d2[i], p)
            && touches(d1[i], q) == touches(d2[i], q) by {
            assert(d1[i] == w1[i] && d2[i] == w2[i]);
        }
        siblings_do_not_matter(d1, d2, p, q);
    }
}

/// The order of commits is a strict weak one.
pub proof fn recency_is_strict_weak()
    ensures
        order::strict_weak(|a: CommitModel, b: CommitModel| is_newer(a, b), Set::full()),
{
    let newer = |a: CommitModel, b: CommitModel| is_newer(a, b);
    assert forall|a: CommitModel, b: CommitModel| #[trigger] newer(a, b) implies !newer(b, a) by {
        if a.committed_at_s == b.committed_at_s && text::before(b.hash, a.hash) {
            text::before_transitive(a.hash, b.hash, a.hash);
            text::before_irreflexive(a.hash);
        }
    }
    assert forall|a: CommitModel, b: CommitModel, c: CommitModel|
        !#[trigger] newer(a, b) && !#[trigger] newer(b, c) implies !newer(a, c) by {
        if newer(a, c) && a.committed_at_s == c.committed_at_s {
            text::before_total(a.hash, b.hash);
            text::before_total(b.hash, c.hash);
            if text::before(b.hash, a.hash) {
                text::before_transitive(b.hash, a.hash, c.hash);
            }
        }
    }
}

/// The window holds the newest eligible commits: none that it leaves out is
/// newer than one that it keeps.
pub proof fn window_is_newest(commits: Seq<CommitModel>, repo_id: Seq<char>, i: int, j: int)
    requires
        0 <= i < COUPLING_WINDOW_COMMITS <= j < by_recency(commits, repo_id).len(),
    ensures
        !is_newer(by_recency(commits, repo_id)[j], by_recency(commits, repo_id)[i]),
{
    let newer = |a: CommitModel, b: CommitModel| is_newer(a, b);
    recency_is_strict_weak();
    order::ranked_is_ranked(
        commits.filter(|c: CommitModel| is_eligible(c, repo_id)),
        newer,
        Set::full(),
    );
    let all = by_recency(commits, repo_id);
    assert(!newer(all[j], all[i]));
}

/// The window holds eligible commits of the repository and no others, each as
/// often as it was recorded.
pub proof fn window_is_of_eligible(commits: Seq<CommitModel>, repo_id: Seq<char>)
    ensures
        by_recency(commits, repo_id).to_multiset() == commits.filter(
            |c: CommitModel| is_eligible(c, repo_id),
        ).to_multiset(),
{
    order::ranked_keeps(
        commits.filter(|c: CommitModel| is_eligible(c, repo_id)),
        |a: CommitModel, b: CommitModel| is_newer(a, b),
    );
}

/// The ranking of partners is a strict weak order on counts above zero.
pub proof fn ranking_is_strict_weak()
    ensures
        order::strict_weak(
            |x: CoupledModel, y: CoupledModel| outranks(x, y),
            Set::new(|x: CoupledModel| x.path_change_count > 0),
        ),
{
    let ahead = |x: CoupledModel, y: CoupledModel| outranks(x, y);
    let among = Set::new(|x: CoupledModel| x.path_change_count > 0);
    assert forall|x: CoupledModel, y: CoupledModel|
        among.contains(x) && among.contains(y) && #[trigger] ahead(x, y) implies !ahead(y, x) by {
        if ahead(y, x) {
            text::before_transitive(x.other_path, y.other_path, x.other_path);
            text::before_irreflexive(x.other_path);
        }
    }
    assert forall|x: CoupledModel, y: CoupledModel, z: CoupledModel|
        among.contains(x) && among.contains(y) && among.contains(z) && !#[trigger] ahead(x, y)
            && !#[trigger] ahead(y, z) implies !ahead(x, z) by {
        let (a, b, c) = (
            x.co_change_count as int,
            y.co_change_count as int,
            z.co_change_count as int,
        );
        let (m, n, k) = (
            x.path_change_count as int,
            y.path_change_count as int,
            z.path_change_count as int,
        );
        ratios_chain(a, m, b, n, c, k);
        if a * k == c * m && a * n == b * m && b * k == c * n {
            text::before_total(x.other_path, y.other_path);
            text::before_total(y.other_path, z.other_path);
            if ahead(x, z) && a == b && b == c && text::before(y.other_path, x.other_path) {
                text::before_transitive(y.other_path, x.other_path, z.other_path);
            }
        }
    }
}

proof fn ratios_chain(a: int, m: int, b: int, n: int, c: int, k: int)
    requires
        m > 0,
        n > 0,
        k > 0,
        a * n <= b * m,
        b * k <= c * n,
    ensures
        a * k <= c * m,
        a * k == c * m ==> a * n == b * m && b * k == c * n,
{
    assert(a * n * k <= b * m * k) by (nonlinear_arith)
        requires
            a * n <= b * m,
            k > 0,
    ;
    assert(b * k * m <= c * n * m) by (nonlinear_arith)
        requires
            b * k <= c * n,
            m > 0,
    ;
    assert((a * k) * n == a * n * k && (c * m) * n == c * n * m && b * m * k == b * k * m)
        by (nonlinear_arith);
    assert(a * k <= c * m) by (nonlinear_arith)
        requires
            (a * k) * n <= (c * m) * n,
            n > 0,
    ;
    if a * k == c * m {
        assert(a * n * k == b * m * k && b * k * m == c * n * m);
        assert(a * n == b * m) by (nonlinear_arith)
            requires
                a * n * k == b * m * k,
                k > 0,
        ;
        assert(b * k == c * n) by (nonlinear_arith)
            requires
                b * k * m == c * n * m,
                m > 0,
        ;
    }
}

/// The partners of a path come in rank order: none outranks one in front of it.
pub proof fn partners_are_ranked(
    couplings: Seq<CouplingModel>,
    files: Seq<FileModel>,
    repo_id: Seq<char>,
    path: Seq<char>,
)
    requires
        forall|i: int|
            0 <= i < couplings.len() ==> (#[trigger] couplings[i]).path_a_change_count > 0
                && couplings[i].path_b_change_count > 0,
    ensures
        order::is_ranked(
            partners_among(couplings, files, repo_id, path),
            |x: CoupledModel, y: CoupledModel| outranks(x, y),
        ),
{
    let fits = |r: CouplingModel| surfaces(r, files, repo_id, path);
    let seen = |r: CouplingModel| seen_from(r, path);
    let rows = couplings.filter(fits);
    let among = Set::new(|x: CoupledModel| x.path_change_count > 0);
    ranking_is_strict_weak();
    let s = rows.map_values(seen);
    assert forall|i: int| 0 <= i < s.len() implies among.contains(#[trigger] s[i]) by {
        couplings.lemma_filter_contains_rev(fits, rows[i]);
        let k = choose|k: int| 0 <= k < couplings.len() && couplings[k] == rows[i];
        assert(s[i] == seen_from(couplings[k], path));
    }
    order::ranked_is_ranked(s, |x: CoupledModel, y: CoupledModel| outranks(x, y), among);
}

/// The stamp rests on the four cursors alone: neither the files, nor the rows
/// computed before, nor any other setting bears on it.
pub proof fn stamp_rests_on_cursors(h1: HistoryModel, h2: HistoryModel, repo_id: Seq<char>)
    requires
        same_cursors(h1, h2, repo_id),
    ensures
        coupling_stamp(h1, repo_id) == coupling_stamp(h2, repo_id),
{
}

/// A recomputed table is fresh: its stamp is the current one, so that
/// [`ensure_coupling_fresh`] then changes nothing until a cursor moves.
pub proof fn recomputed_is_fresh(
    before: HistoryModel,
    after: HistoryModel,
    repo_id: Seq<char>,
    now_ms: i64,
)
    requires
        is_recomputed(before, after, repo_id, now_ms),
    ensures
        after.setting(repo_id, "git_coupling_stamp"@) == Some(coupling_stamp(after, repo_id)),
{
    reveal_strlit("git_coupling_stamp");
    reveal_strlit("git_history_indexed_head");
    reveal_strlit("git_history_indexed_root");
    reveal_strlit("git_history_indexed_shallow");
    reveal_strlit("git_history_indexed_complete");
    assert("git_coupling_stamp"@.len() == 18);
    assert("git_history_indexed_head"@.len() == 24);
    assert("git_history_indexed_root"@.len() == 24);
    assert("git_history_indexed_shallow"@.len() == 27);
    assert("git_history_indexed_complete"@.len() == 28);
    stamp_rests_on_cursors(before, after, repo_id);
}

/// The text holds no line break.
pub open spec fn one_line(s: Seq<char>) -> bool {
    forall|i: int| 0 <= i < s.len() ==> #[trigger] s[i] != '\n'
}

proof fn first_lines_agree(a: Seq<char>, x: Seq<char>, b: Seq<char>, y: Seq<char>)
    requires
        one_line(a),
        one_line(b),
        a + seq!['\n'] + x == b + seq!['\n'] + y,
    ensures
        a == b,
        x == y,
{
    let s = a + seq!['\n'] + x;
    let t = b + seq!['\n'] + y;
    assert(s[a.len() as int] == '\n');
    assert(t[b.len() as int] == '\n');
    if a.len() < b.len() {
        assert(t[a.len() as int] == b[a.len() as int]);
    }
    if b.len() < a.len() {
        assert(s[b.len() as int] == a[b.len() as int]);
    }
    assert(a =~= s.take(a.len() as int));
    assert(b =~= t.take(b.len() as int));
    assert(x =~= s.skip((a.len() + 1) as int));
    assert(y =~= t.skip((b.len() + 1) as int));
}

/// The four cursors of a repository are the same in both.
pub open spec fn same_cursors(h1: HistoryModel, h2: HistoryModel, repo_id: Seq<char>) -> bool {
    &&& cursor(h1, repo_id, "git_history_indexed_head"@) == cursor(
        h2,
        repo_id,
        "git_history_indexed_head"@,
    )
    &&& cursor(h1, repo_id, "git_history_indexed_root"@) == cursor(
        h2,
        repo_id,
        "git_history_indexed_root"@,
    )
    &&& cursor(h1, repo_id, "git_history_indexed_shallow"@) == cursor(
        h2,
        repo_id,
        "git_history_indexed_shallow"@,
    )
    &&& cursor(h1, repo_id, "git_history_indexed_complete"@) == cursor(
        h2,
        repo_id,
        "git_history_indexed_complete"@,
    )
}

proof fn measures_tell_apart(
    a: Option<Seq<char>>,
    x: Seq<char>,
    b: Option<Seq<char>>,
    y: Seq<char>,
)
    requires
        measured(a) + x == measured(b) + y,
    ensures
        a == b,
        x == y,
{
    let (ha, hb) = (cursor_head(a), cursor_head(b));
    let (ba, bb) = (cursor_body(a), cursor_body(b));
    head_is_a_line(a);
    head_is_a_line(b);
    assert(measured(a) + x =~= ha + seq!['\n'] + (ba + x));
    assert(measured(b) + y =~= hb + seq!['\n'] + (bb + y));
    first_lines_agree(ha, ba + x, hb, bb + y);
    match (a, b) {
        (Some(v), Some(w)) => {
            text::decimals_differ(v.len(), w.len());
        },
        (Some(v), None) => {
            text::decimal_has_digits(v.len());
            assert(ha[0] == '-');
        },
        (None, Some(w)) => {
            text::decimal_has_digits(w.len());
            assert(hb[0] == '-');
        },
        (None, None) => {},
    }
    let n = ba.len() as int;
    assert(ba =~= (ba + x).take(n));
    assert(bb =~= (bb + y).take(n));
    assert(x =~= (ba + x).skip(n));
    assert(y =~= (bb + y).skip(n));
}

proof fn head_is_a_line(c: Option<Seq<char>>)
    ensures
        one_line(cursor_head(c)),
{
    match c {
        Some(v) => {
            text::decimal_has_digits(v.len());
        },
        None => {},
    }
}

/// A cursor that moves changes the stamp: two histories with the same stamp have
/// the same cursors.
pub proof fn stamp_tells_cursors_apart(h1: HistoryModel, h2: HistoryModel, repo_id: Seq<char>)
    requires
        coupling_stamp(h1, repo_id) == coupling_stamp(h2, repo_id),
    ensures
        same_cursors(h1, h2, repo_id),
{
    let v = COUPLING_PARAMS_VERSION@;
    let a1 = cursor(h1, repo_id, "git_history_indexed_head"@);
    let b1 = cursor(h1, repo_id, "git_history_indexed_root"@);
    let c1 = cursor(h1, repo_id, "git_history_indexed_shallow"@);
    let d1 = cursor(h1, repo_id, "git_history_indexed_complete"@);
    let a2 = cursor(h2, repo_id, "git_history_indexed_head"@);
    let b2 = cursor(h2, repo_id, "git_history_indexed_root"@);
    let c2 = cursor(h2, repo_id, "git_history_indexed_shallow"@);
    let d2 = cursor(h2, repo_id, "git_history_indexed_complete"@);
    let (t1, t2) = (measured(d1) + v, measured(d2) + v);
    let (u1, u2) = (measured(c1) + t1, measured(c2) + t2);
    measures_tell_apart(a1, measured(b1) + u1, a2, measured(b2) + u2);
    measures_tell_apart(b1, u1, b2, u2);
    measures_tell_apart(c1, t1, c2, t2);
    measures_tell_apart(d1, v, d2, v);
}

} // verus!

//! Laws on filler commits: what they add to a history, and that they never meet.
use vstd::prelude::*;
use crate::history;
use crate::history::{ChangeModel, CommitModel, HistoryModel};
use crate::text;

verus! {

/// What tells one filler commit from all others.
pub open spec fn tag(start_ts: i64, i: nat) -> Seq<char> {
    text::signed_decimal(start_ts as int) + "-"@ + text::decimal(i)
}

/// A filler commit.
pub open spec fn filler_commit(repo_id: Seq<char>, start_ts: i64, i: nat) -> CommitModel {
    CommitModel {
        repo_id,
        hash: history::filler_hash(start_ts, i),
        author_name: "a"@,
        author_email: "a@b"@,
        authored_at_s: (start_ts + i) as i64,
        committed_at_s: (start_ts + i) as i64,
        subject: "s"@,
        body: Seq::empty(),
        changed_file_count: 2,
    }
}

/// One of the changes of filler commits, of which each has two in a row.
pub open spec fn filler_change(repo_id: Seq<char>, start_ts: i64, k: nat) -> ChangeModel {
    ChangeModel {
        repo_id,
        commit_hash: history::filler_hash(start_ts, k / 2),
        path: history::filler_path(
            if k % 2 == 0 {
                "fa-"@
            } else {
                "fb-"@
            },
            start_ts,
            k / 2,
        ),
        additions: 0,
        deletions: 0,
        change_kind: "modified"@,
    }
}

/// The rows of `count` filler commits.
pub open spec fn filler_commits(repo_id: Seq<char>, count: nat, start_ts: i64) -> Seq<CommitModel> {
    Seq::new(count, |i: int| filler_commit(repo_id, start_ts, i as nat))
}

/// The changes of `count` filler commits.
pub open spec fn filler_changes(repo_id: Seq<char>, count: nat, start_ts: i64) -> Seq<ChangeModel> {
    Seq::new(2 * count, |k: int| filler_change(repo_id, start_ts, k as nat))
}

/// Filler commits are added behind the commits that are there, and their changes
/// behind the changes. Nothing else changes, and none of them changes nothing.
pub proof fn fillers_are_appended(h: HistoryModel, repo_id: Seq<char>, count: nat, start_ts: i64)
    ensures
        history::with_fillers(h, repo_id, count, start_ts) == (HistoryModel {
            commits: h.commits + filler_commits(repo_id, count, start_ts),
            changes: h.changes + filler_changes(repo_id, count, start_ts),
            ..h
        }),
        count == 0 ==> history::with_fillers(h, repo_id, count, start_ts) == h,
    decreases count,
{
    let now = history::with_fillers(h, repo_id, count, start_ts);
    if count > 0 {
        let i = (count - 1) as nat;
        let before = history::with_fillers(h, repo_id, i, start_ts);
        fillers_are_appended(h, repo_id, i, start_ts);
        let old_changes = filler_changes(repo_id, i, start_ts);
        let changes = filler_changes(repo_id, count, start_ts);
        let hash = history::filler_hash(start_ts, i);
        let paths = seq![
            history::filler_path("fa-"@, start_ts, i),
            history::filler_path("fb-"@, start_ts, i),
        ];
        let own = history::changes_of(repo_id, hash, paths);
        assert(2 * i / 2 == i && (2 * i + 1) / 2 == i && 2 * i % 2 == 0 && (2 * i + 1) % 2 == 1);
        assert(own[0] =~= filler_change(repo_id, start_ts, 2 * i));
        assert(own[1] =~= filler_change(repo_id, start_ts, 2 * i + 1));
        assert(changes =~= old_changes + own);
        assert(now.changes =~= h.changes + changes);
        assert(now.commits =~= h.commits + filler_commits(repo_id, count, start_ts));
    } else {
        assert(now.changes =~= h.changes + filler_changes(repo_id, count, start_ts));
        assert(now.commits =~= h.commits + filler_commits(repo_id, count, start_ts));
    }
}

/// Commits with different start times or different places have different tags.
pub proof fn tags_differ(s: i64, i: nat, t: i64, j: nat)
    requires
        tag(s, i) == tag(t, j),
    ensures
        s == t,
        i == j,
{
    let (x, y) = (text::signed_decimal(s as int), text::signed_decimal(t as int));
    let (u, v) = (text::decimal(i), text::decimal(j));
    reveal_strlit("-");
    text::decimal_has_digits(i);
    text::decimal_has_digits(j);
    signs_stand_first(s);
    signs_stand_first(t);
    let (a, b) = (tag(s, i), tag(t, j));
    assert(a[x.len() as int] == '-');
    assert(b[y.len() as int] == '-');
    assert(a.len() == x.len() + 1 + u.len());
    assert(b.len() == y.len() + 1 + v.len());
    if x.len() < y.len() {
        assert(b[x.len() as int] == y[x.len() as int]);
    } else if y.len() < x.len() {
        assert(a[y.len() as int] == x[y.len() as int]);
    }
    assert(x =~= a.take(x.len() as int));
    assert(y =~= b.take(y.len() as int));
    assert(u =~= a.skip(x.len() as int + 1));
    assert(v =~= b.skip(y.len() as int + 1));
    text::decimals_differ(i, j);
    signed_decimals_differ(s, t);
}

proof fn signs_stand_first(n: i64)
    ensures
        text::signed_decimal(n as int).len() > 0,
        forall|k: int|
            0 < k < text::signed_decimal(n as int).len() ==> '0' <= #[trigger] text::signed_decimal(
                n as int,
            )[k] <= '9',
        n >= 0 ==> '0' <= text::signed_decimal(n as int)[0] <= '9',
        n < 0 ==> text::signed_decimal(n as int)[0] == '-',
{
    if n < 0 {
        let m = (-n) as nat;
        text::decimal_has_digits(m);
        let x = text::signed_decimal(n as int);
        assert forall|k: int| 0 < k < x.len() implies '0' <= #[trigger] x[k] <= '9' by {
            assert(x[k] == text::decimal(m)[k - 1]);
        }
    } else {
        text::decimal_has_digits(n as nat);
    }
}

proof fn signed_decimals_differ(m: i64, n: i64)
    requires
        text::signed_decimal(m as int) == text::signed_decimal(n as int),
    ensures
        m == n,
{
    signs_stand_first(m);
    signs_stand_first(n);
    if m < 0 {
        let (a, b) = ((-m) as nat, (-n) as nat);
        assert(text::decimal(a) =~= text::signed_decimal(m as int).skip(1));
        assert(text::decimal(b) =~= text::signed_decimal(n as int).skip(1));
        text::decimals_differ(a, b);
    } else {
        text::decimals_differ(m as nat, n as nat);
    }
}

/// No path of filler commits occurs twice: not in one commit, nor in two of them,
/// whether they start at the same time or not.
pub proof fn filler_paths_occur_once(s: i64, i: nat, t: i64, j: nat)
    ensures
        history::filler_path("fa-"@, s, i) != history::filler_path("fb-"@, t, j),
        (s, i) != (t, j) ==> history::filler_path("fa-"@, s, i) != history::filler_path(
            "fa-"@,
            t,
            j,
        ),
        (s, i) != (t, j) ==> history::filler_path("fb-"@, s, i) != history::filler_path(
            "fb-"@,
            t,
            j,
        ),
        (s, i) != (t, j) ==> history::filler_hash(s, i) != history::filler_hash(t, j),
{
    reveal_strlit("fa-");
    reveal_strlit("fb-");
    assert(history::filler_path("fa-"@, s, i)[1] == 'a');
    assert(history::filler_path("fb-"@, t, j)[1] == 'b');
    paths_hold_tags("fa-"@, s, i);
    paths_hold_tags("fa-"@, t, j);
    paths_hold_tags("fb-"@, s, i);
    paths_hold_tags("fb-"@, t, j);
    hashes_hold_tags(s, i);
    hashes_hold_tags(t, j);
    if tag(s, i) == tag(t, j) {
        tags_differ(s, i, t, j);
    }
}

proof fn paths_hold_tags(side: Seq<char>, s: i64, i: nat)
    ensures
        ({
            let p = history::filler_path(side, s, i);
            p.len() >= side.len() + ".rs"@.len() && tag(s, i) == p.subrange(
                side.len() as int,
                p.len() - ".rs"@.len(),
            )
        }),
{
    let p = history::filler_path(side, s, i);
    assert(p =~= side + tag(s, i) + ".rs"@);
    assert(tag(s, i) =~= p.subrange(side.len() as int, p.len() - ".rs"@.len()));
}

proof fn hashes_hold_tags(s: i64, i: nat)
    ensures
        history::filler_hash(s, i).len() >= "fill-"@.len(),
        tag(s, i) == history::filler_hash(s, i).skip("fill-"@.len() as int),
{
    assert(history::filler_hash(s, i) =~= "fill-"@ + tag(s, i));
    assert(tag(s, i) =~= history::filler_hash(s, i).skip("fill-"@.len() as int));
}

/// Fillers that are added twice, with different start times, never meet: every
/// added commit has a hash of its own and counts two files, and of the paths that
/// are added, two for each commit, none occurs twice.
pub proof fn repeated_fillers_never_meet(
    h: HistoryModel,
    repo_id: Seq<char>,
    n: nat,
    s: i64,
    m: nat,
    t: i64,
)
    requires
        s != t,
    ensures
        ({
            let now = history::with_fillers(
                history::with_fillers(h, repo_id, n, s),
                repo_id,
                m,
                t,
            );
            let commits = now.commits.skip(h.commits.len() as int);
            let changes = now.changes.skip(h.changes.len() as int);
            &&& now == (HistoryModel {
                commits: h.commits + commits,
                changes: h.changes + changes,
                ..h
            })
            &&& commits.len() == n + m
            &&& changes.len() == 2 * commits.len()
            &&& forall|q: int|
                0 <= q < commits.len() ==> (#[trigger] commits[q]).changed_file_count == 2
                    && commits[q].repo_id == repo_id && changes[2 * q].commit_hash
                    == commits[q].hash && changes[2 * q + 1].commit_hash == commits[q].hash
            &&& forall|q: int, k: int|
                0 <= q < k < commits.len() ==> (#[trigger] commits[q]).hash != (
                #[trigger] commits[k]).hash
            &&& forall|q: int, k: int|
                0 <= q < k < changes.len() ==> (#[trigger] changes[q]).path != (
                #[trigger] changes[k]).path
        }),
{
    let mid = history::with_fillers(h, repo_id, n, s);
    let now = history::with_fillers(mid, repo_id, m, t);
    fillers_are_appended(h, repo_id, n, s);
    fillers_are_appended(mid, repo_id, m, t);
    let commits = filler_commits(repo_id, n, s) + filler_commits(repo_id, m, t);
    let changes = filler_changes(repo_id, n, s) + filler_changes(repo_id, m, t);
    assert(now.commits =~= h.commits + commits);
    assert(now.changes =~= h.changes + changes);
    assert(now.commits.skip(h.commits.len() as int) =~= commits);
    assert(now.changes.skip(h.changes.len() as int) =~= changes);
    assert forall|q: int| 0 <= q < commits.len() implies (#[trigger] commits[q]).changed_file_count
        == 2 && commits[q].repo_id == repo_id && changes[2 * q].commit_hash == commits[q].hash
        && changes[2 * q + 1].commit_hash == commits[q].hash by {
        if q < n {
            assert(changes[2 * q] == filler_change(repo_id, s, (2 * q) as nat));
            assert(changes[2 * q + 1] == filler_change(repo_id, s, (2 * q + 1) as nat));
        } else {
            let d = q - n;
            assert(changes[2 * q] == filler_change(repo_id, t, (2 * d) as nat));
            assert(changes[2 * q + 1] == filler_change(repo_id, t, (2 * d + 1) as nat));
        }
    }
    assert forall|q: int, k: int| 0 <= q < k < commits.len() implies (#[trigger] commits[q]).hash
        != (#[trigger] commits[k]).hash by {
        let (a, b) = (if q < n { q } else { q - n }, if k < n { k } else { k - n });
        let (u, v) = (if q < n { s } else { t }, if k < n { s } else { t });
        assert(commits[q] == filler_commit(repo_id, u, a as nat));
        assert(commits[k] == filler_commit(repo_id, v, b as nat));
        filler_paths_occur_once(u, a as nat, v, b as nat);
    }
    assert forall|q: int, k: int| 0 <= q < k < changes.len() implies (#[trigger] changes[q]).path
        != (#[trigger] changes[k]).path by {
        let (a, b) = (if q < 2 * n { q } else { q - 2 * n }, if k < 2 * n { k } else { k - 2 * n });
        let (u, v) = (if q < 2 * n { s } else { t }, if k < 2 * n { s } else { t });
        assert(changes[q] == filler_change(repo_id, u, a as nat));
        assert(changes[k] == filler_change(repo_id, v, b as nat));
        filler_paths_occur_once(u, (a / 2) as nat, v, (b / 2) as nat);
        filler_paths_occur_once(v, (b / 2) as nat, u, (a / 2) as nat);
    }
}

} // verus!

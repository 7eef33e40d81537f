//! Git history rows, the stored coupling table and the per-repository settings.
use vstd::prelude::*;
use crate::files;
use crate::files::{FileModel, FileRow};
use crate::text;
use crate::text::{contains_text, decimal_text, same_text, signed_decimal_text};

verus! {

/// The repository that a fresh store works on.
pub const LEGACY_REPO_ID: &'static str = "legacy";

/// A commit of one repository: who made it and when, what it says, and how many
/// files it says it changed.
pub struct GitCommit {
    pub repo_id: String,
    pub hash: String,
    pub author_name: String,
    pub author_email: String,
    pub authored_at_s: i64,
    pub committed_at_s: i64,
    pub subject: String,
    pub body: String,
    pub changed_file_count: i64,
}

/// A path that a commit changed, and how.
pub struct FileChange {
    pub repo_id: String,
    pub commit_hash: String,
    pub path: String,
    pub additions: i64,
    pub deletions: i64,
    pub change_kind: String,
}

/// A stored pair of paths that change together, with the counts it rests on.
pub struct CouplingRow {
    pub repo_id: String,
    pub path_a: String,
    pub path_b: String,
    pub co_change_count: u32,
    pub path_a_change_count: u32,
    pub path_b_change_count: u32,
    pub window_commit_count: u32,
    pub last_co_change_at_s: i64,
    pub computed_at_ms: i64,
}

/// A setting of one repository.
pub struct MetaRow {
    pub repo_id: String,
    pub key: String,
    pub value: String,
}

/// What a [`GitCommit`] holds, as plain values.
#[verifier::ext_equal]
pub struct CommitModel {
    pub repo_id: Seq<char>,
    pub hash: Seq<char>,
    pub author_name: Seq<char>,
    pub author_email: Seq<char>,
    pub authored_at_s: i64,
    pub committed_at_s: i64,
    pub subject: Seq<char>,
    pub body: Seq<char>,
    pub changed_file_count: i64,
}

/// What a [`FileChange`] holds, as plain values.
#[verifier::ext_equal]
pub struct ChangeModel {
    pub repo_id: Seq<char>,
    pub commit_hash: Seq<char>,
    pub path: Seq<char>,
    pub additions: i64,
    pub deletions: i64,
    pub change_kind: Seq<char>,
}

/// What a [`CouplingRow`] holds, as plain values.
#[verifier::ext_equal]
pub struct CouplingModel {
    pub repo_id: Seq<char>,
    pub path_a: Seq<char>,
    pub path_b: Seq<char>,
    pub co_change_count: u32,
    pub path_a_change_count: u32,
    pub path_b_change_count: u32,
    pub window_commit_count: u32,
    pub last_co_change_at_s: i64,
    pub computed_at_ms: i64,
}

/// What a [`MetaRow`] holds, as plain values.
#[verifier::ext_equal]
pub struct MetaModel {
    pub repo_id: Seq<char>,
    pub key: Seq<char>,
    pub value: Seq<char>,
}

impl View for GitCommit {
    type V = CommitModel;

    open spec fn view(&self) -> CommitModel {
        CommitModel {
            repo_id: self.repo_id@,
            hash: self.hash@,
            author_name: self.author_name@,
            author_email: self.author_email@,
            authored_at_s: self.authored_at_s,
            committed_at_s: self.committed_at_s,
            subject: self.subject@,
            body: self.body@,
            changed_file_count: self.changed_file_count,
        }
    }
}

impl View for FileChange {
    type V = ChangeModel;

    open spec fn view(&self) -> ChangeModel {
        ChangeModel {
            repo_id: self.repo_id@,
            commit_hash: self.commit_hash@,
            path: self.path@,
            additions: self.additions,
            deletions: self.deletions,
            change_kind: self.change_kind@,
        }
    }
}

impl View for CouplingRow {
    type V = CouplingModel;

    open spec fn view(&self) -> CouplingModel {
        CouplingModel {
            repo_id: self.repo_id@,
            path_a: self.path_a@,
            path_b: self.path_b@,
            co_change_count: self.co_change_count,
            path_a_change_count: self.path_a_change_count,
            path_b_change_count: self.path_b_change_count,
            window_commit_count: self.window_commit_count,
            last_co_change_at_s: self.last_co_change_at_s,
            computed_at_ms: self.computed_at_ms,
        }
    }
}

impl View for MetaRow {
    type V = MetaModel;

    open spec fn view(&self) -> MetaModel {
        MetaModel { repo_id: self.repo_id@, key: self.key@, value: self.value@ }
    }
}

pub open spec fn commit_models(rows: Seq<GitCommit>) -> Seq<CommitModel> {
    rows.map_values(|r: GitCommit| r@)
}

pub open spec fn change_models(rows: Seq<FileChange>) -> Seq<ChangeModel> {
    rows.map_values(|r: FileChange| r@)
}

pub open spec fn coupling_models(rows: Seq<CouplingRow>) -> Seq<CouplingModel> {
    rows.map_values(|r: CouplingRow| r@)
}

pub open spec fn meta_models(rows: Seq<MetaRow>) -> Seq<MetaModel> {
    rows.map_values(|r: MetaRow| r@)
}

/// The value of a setting: that of the first row with its repository and key.
pub open spec fn meta_value(rows: Seq<MetaModel>, repo_id: Seq<char>, key: Seq<char>) -> Option<
    Seq<char>,
>
    decreases rows.len(),
{
    if rows.len() == 0 {
        None
    } else if rows[0].repo_id == repo_id && rows[0].key == key {
        Some(rows[0].value)
    } else {
        meta_value(rows.drop_first(), repo_id, key)
    }
}

/// The repositories that are registered, their history, what was computed from
/// it, and the file table that reads of it are filtered by.
pub struct HistoryStore {
    pub active_repo_id: String,
    pub repos: Vec<String>,
    pub commits: Vec<GitCommit>,
    pub changes: Vec<FileChange>,
    pub couplings: Vec<CouplingRow>,
    pub meta: Vec<MetaRow>,
    pub files: Vec<FileRow>,
}

/// What a [`HistoryStore`] holds, as plain values.
#[verifier::ext_equal]
pub struct HistoryModel {
    pub active_repo_id: Seq<char>,
    pub repos: Seq<Seq<char>>,
    pub commits: Seq<CommitModel>,
    pub changes: Seq<ChangeModel>,
    pub couplings: Seq<CouplingModel>,
    pub meta: Seq<MetaModel>,
    pub files: Seq<FileModel>,
}

impl View for HistoryStore {
    type V = HistoryModel;

    open spec fn view(&self) -> HistoryModel {
        HistoryModel {
            active_repo_id: self.active_repo_id@,
            repos: text::views(self.repos@),
            commits: commit_models(self.commits@),
            changes: change_models(self.changes@),
            couplings: coupling_models(self.couplings@),
            meta: meta_models(self.meta@),
            files: files::file_models(self.files@),
        }
    }
}

impl HistoryModel {
    /// The value of a setting.
    pub open spec fn setting(self, repo_id: Seq<char>, key: Seq<char>) -> Option<Seq<char>> {
        meta_value(self.meta, repo_id, key)
    }

    /// The repository is registered.
    pub open spec fn is_registered(self, repo_id: Seq<char>) -> bool {
        self.repos.contains(repo_id)
    }

    /// The generation of the active repository's files is the live one: that which
    /// the setting names, or the first.
    pub open spec fn is_live_generation(self, generation: u64) -> bool {
        match self.setting(self.active_repo_id, "live_files_generation"@) {
            Some(v) => text::decimal(generation as nat) == v,
            None => generation == 0,
        }
    }

    /// The files of the active repository that are live, of whatever snapshot.
    pub open spec fn live_files(self) -> Seq<FileModel> {
        self.files.filter(
            |f: FileModel|
                f.repo_id == self.active_repo_id && self.is_live_generation(f.generation)
                    && f.kind != "deleted"@,
        )
    }

    /// Everything but the settings is the same in both.
    pub open spec fn same_but_meta(self, other: HistoryModel) -> bool {
        &&& self.active_repo_id == other.active_repo_id
        &&& self.repos == other.repos
        &&& self.commits == other.commits
        &&& self.changes == other.changes
        &&& self.couplings == other.couplings
        &&& self.files == other.files
    }
}

/// A write that the history does not take.
#[derive(Clone, Copy, PartialEq, Eq, Structural, Debug)]
pub enum HistoryError {
    /// The row names a repository that is not registered.
    UnknownRepository,
}

impl HistoryError {
    /// The error in words.
    pub fn message(&self) -> (r: String)
        ensures
            r@ == "FOREIGN KEY constraint failed"@,
    {
        "FOREIGN KEY constraint failed".to_owned()
    }
}

/// The change rows of one commit, one per path: each says that the file was
/// modified, and counts no lines.
pub open spec fn changes_of(repo_id: Seq<char>, hash: Seq<char>, paths: Seq<Seq<char>>) -> Seq<
    ChangeModel,
> {
    paths.map_values(
        |p: Seq<char>|
            ChangeModel {
                repo_id,
                commit_hash: hash,
                path: p,
                additions: 0,
                deletions: 0,
                change_kind: "modified"@,
            },
    )
}

/// The history with one more commit, authored when it was committed.
pub open spec fn with_commit(
    h: HistoryModel,
    repo_id: Seq<char>,
    hash: Seq<char>,
    committed_at_s: i64,
    paths: Seq<Seq<char>>,
    changed_file_count: i64,
) -> HistoryModel {
    HistoryModel {
        commits: h.commits.push(
            CommitModel {
                repo_id,
                hash,
                author_name: "a"@,
                author_email: "a@b"@,
                authored_at_s: committed_at_s,
                committed_at_s,
                subject: "s"@,
                body: Seq::empty(),
                changed_file_count,
            },
        ),
        changes: h.changes + changes_of(repo_id, hash, paths),
        ..h
    }
}

/// The repository that a fresh store works on.
pub fn repo() -> (r: String)
    ensures
        r@ == LEGACY_REPO_ID@,
{
    LEGACY_REPO_ID.to_owned()
}

/// A history with no rows, of one repository.
pub open spec fn empty_history() -> HistoryModel {
    HistoryModel {
        active_repo_id: LEGACY_REPO_ID@,
        repos: seq![LEGACY_REPO_ID@],
        commits: Seq::empty(),
        changes: Seq::empty(),
        couplings: Seq::empty(),
        meta: Seq::empty(),
        files: Seq::empty(),
    }
}

/// A store with no rows that works on [`repo`], which is registered.
pub fn fresh_conn() -> (r: HistoryStore)
    ensures
        r@ == empty_history(),
{
    let mut repos: Vec<String> = Vec::new();
    repos.push(repo());
    let r = HistoryStore {
        active_repo_id: repo(),
        repos,
        commits: Vec::new(),
        changes: Vec::new(),
        couplings: Vec::new(),
        meta: Vec::new(),
        files: Vec::new(),
    };
    assert(r@.repos =~= seq![LEGACY_REPO_ID@]);
    assert(r@.commits =~= Seq::empty());
    assert(r@.changes =~= Seq::empty());
    assert(r@.couplings =~= Seq::empty());
    assert(r@.meta =~= Seq::empty());
    assert(r@.files =~= Seq::empty());
    r
}

/// Registers a repository, unless it is already.
pub fn register_repo(conn: &mut HistoryStore, repo_id: &str)
    ensures
        final(conn)@.is_registered(repo_id@),
        final(conn)@ == (HistoryModel {
            repos: if old(conn)@.repos.contains(repo_id@) {
                old(conn)@.repos
            } else {
                old(conn)@.repos.push(repo_id@)
            },
            ..old(conn)@
        }),
{
    if !contains_text(&conn.repos, repo_id) {
        conn.repos.push(repo_id.to_owned());
        assert(conn@.repos =~= old(conn)@.repos.push(repo_id@));
        assert(conn@.repos[old(conn)@.repos.len() as int] == repo_id@);
    }
}

/// Adds a source file of the base snapshot.
pub fn add_file(conn: &mut HistoryStore, path: &str, generated: bool)
    requires
        !files::holds_key(
            old(conn)@.files,
            files::base_model(
                old(conn)@.active_repo_id,
                path@,
                "sha"@,
                "source"@,
                generated,
                Seq::empty(),
                0,
            ),
        ),
    ensures
        final(conn)@ == (HistoryModel {
            files: old(conn)@.files.push(
                files::base_model(
                    old(conn)@.active_repo_id,
                    path@,
                    "sha"@,
                    "source"@,
                    generated,
                    Seq::empty(),
                    0,
                ),
            ),
            ..old(conn)@
        }),
{
    let row = FileRow::of_base(
        conn.active_repo_id.as_str(),
        path,
        "sha",
        "source",
        generated,
        "",
        0,
    );
    proof {
        reveal_strlit("");
        assert(""@ =~= Seq::<char>::empty());
    }
    conn.files.push(row);
    assert(conn@.files =~= old(conn)@.files.push(row@));
}

/// Adds a source file that is not generated, as of one commit.
pub fn add_file_at_commit(conn: &mut HistoryStore, path: &str, commit_sha: &str)
    requires
        !files::holds_key(
            old(conn)@.files,
            files::base_model(
                old(conn)@.active_repo_id,
                path@,
                "sha"@,
                "source"@,
                false,
                commit_sha@,
                0,
            ),
        ),
    ensures
        final(conn)@ == (HistoryModel {
            files: old(conn)@.files.push(
                files::base_model(
                    old(conn)@.active_repo_id,
                    path@,
                    "sha"@,
                    "source"@,
                    false,
                    commit_sha@,
                    0,
                ),
            ),
            ..old(conn)@
        }),
{
    let row = FileRow::of_base(
        conn.active_repo_id.as_str(),
        path,
        "sha",
        "source",
        false,
        commit_sha,
        0,
    );
    conn.files.push(row);
    assert(conn@.files =~= old(conn)@.files.push(row@));
}

/// Adds a commit that changed `paths`, and counts them as its changed files.
pub fn add_commit(
    conn: &mut HistoryStore,
    repo_id: &str,
    hash: &str,
    committed_at_s: i64,
    paths: &Vec<String>,
)
    requires
        old(conn)@.is_registered(repo_id@),
        paths.len() <= i64::MAX,
    ensures
        final(conn)@ == with_commit(
            old(conn)@,
            repo_id@,
            hash@,
            committed_at_s,
            text::views(paths@),
            paths.len() as i64,
        ),
{
    add_commit_counted(conn, repo_id, hash, committed_at_s, paths, paths.len() as i64);
}

/// Adds a commit that changed `paths` and says how many files it changed,
/// whatever the number of paths.
pub fn add_commit_counted(
    conn: &mut HistoryStore,
    repo_id: &str,
    hash: &str,
    committed_at_s: i64,
    paths: &Vec<String>,
    changed_file_count: i64,
)
    requires
        old(conn)@.is_registered(repo_id@),
    ensures
        final(conn)@ == with_commit(
            old(conn)@,
            repo_id@,
            hash@,
            committed_at_s,
            text::views(paths@),
            changed_file_count,
        ),
{
    let commit = GitCommit {
        repo_id: repo_id.to_owned(),
        hash: hash.to_owned(),
        author_name: "a".to_owned(),
        author_email: "a@b".to_owned(),
        authored_at_s: committed_at_s,
        committed_at_s,
        subject: "s".to_owned(),
        body: String::new(),
        changed_file_count,
    };
    assert(commit@.body =~= Seq::empty());
    conn.commits.push(commit);
    let mut i: usize = 0;
    while i < paths.len()
        invariant
            i <= paths.len(),
            conn@.active_repo_id == old(conn)@.active_repo_id,
            conn@.repos == old(conn)@.repos,
            commit_models(conn.commits@) =~= old(conn)@.commits.push(commit@),
            conn@.changes =~= old(conn)@.changes + changes_of(
                repo_id@,
                hash@,
                text::views(paths@).take(i as int),
            ),
            conn@.couplings == old(conn)@.couplings,
            conn@.meta == old(conn)@.meta,
            conn@.files == old(conn)@.files,
        decreases paths.len() - i,
    {
        let change = FileChange {
            repo_id: repo_id.to_owned(),
            commit_hash: hash.to_owned(),
            path: paths[i].clone(),
            additions: 0,
            deletions: 0,
            change_kind: "modified".to_owned(),
        };
        let ghost before_push = conn@.changes;
        conn.changes.push(change);
        assert(conn@.changes =~= before_push.push(change@));
        i += 1;
    }
    assert(text::views(paths@).take(i as int) =~= text::views(paths@));
}

/// The hash of a filler commit.
pub open spec fn filler_hash(start_ts: i64, i: nat) -> Seq<char> {
    "fill-"@ + text::signed_decimal(start_ts as int) + "-"@ + text::decimal(i)
}

/// One of the two paths of a filler commit.
pub open spec fn filler_path(side: Seq<char>, start_ts: i64, i: nat) -> Seq<char> {
    side + text::signed_decimal(start_ts as int) + "-"@ + text::decimal(i) + ".rs"@
}

/// The history with `count` filler commits, each with two paths of its own.
pub open spec fn with_fillers(h: HistoryModel, repo_id: Seq<char>, count: nat, start_ts: i64) -> HistoryModel
    decreases count,
{
    if count == 0 {
        h
    } else {
        let i = (count - 1) as nat;
        with_commit(
            with_fillers(h, repo_id, i, start_ts),
            repo_id,
            filler_hash(start_ts, i),
            (start_ts + i) as i64,
            seq![filler_path("fa-"@, start_ts, i), filler_path("fb-"@, start_ts, i)],
            2,
        )
    }
}

fn filler_name(side: &str, start_ts: i64, i: usize, end: &str) -> (r: String)
    ensures
        r@ == side@ + text::signed_decimal(start_ts as int) + "-"@ + text::decimal(i as nat) + end@,
{
    let mut r = side.to_owned();
    r.append(signed_decimal_text(start_ts).as_str());
    r.append("-");
    r.append(decimal_text(i as u64).as_str());
    r.append(end);
    r
}

/// Adds `count` commits of two paths each, no path of which occurs twice, the
/// first at `start_ts` and each of the others a second after the one before.
pub fn add_fillers(conn: &mut HistoryStore, repo_id: &str, count: usize, start_ts: i64)
    requires
        old(conn)@.is_registered(repo_id@),
        count > 0 ==> start_ts + count - 1 <= i64::MAX,
    ensures
        final(conn)@ == with_fillers(old(conn)@, repo_id@, count as nat, start_ts),
        final(conn)@.repos == old(conn)@.repos,
{
    let mut i: usize = 0;
    while i < count
        invariant
            i <= count,
            count > 0 ==> start_ts + count - 1 <= i64::MAX,
            conn@.repos == old(conn)@.repos,
            old(conn)@.is_registered(repo_id@),
            conn@ == with_fillers(old(conn)@, repo_id@, i as nat, start_ts),
        decreases count - i,
    {
        let hash = filler_name("fill-", start_ts, i, "");
        proof {
            reveal_strlit("");
            assert(hash@ =~= filler_hash(start_ts, i as nat));
        }
        let mut paths: Vec<String> = Vec::new();
        paths.push(filler_name("fa-", start_ts, i, ".rs"));
        paths.push(filler_name("fb-", start_ts, i, ".rs"));
        assert(text::views(paths@) =~= seq![
            filler_path("fa-"@, start_ts, i as nat),
            filler_path("fb-"@, start_ts, i as nat),
        ]);
        let at: i64 = (start_ts as i128 + i as i128) as i64;
        add_commit(conn, repo_id, hash.as_str(), at, &paths);
        i += 1;
    }
}

/// Reads a setting.
pub fn repo_meta(conn: &HistoryStore, repo_id: &str, key: &str) -> (r: Option<String>)
    ensures
        (match r {
            Some(v) => Some(v@),
            None => None,
        }) == conn@.setting(repo_id@, key@),
{
    let wanted_repo = repo_id.to_owned();
    let wanted_key = key.to_owned();
    let mut i: usize = 0;
    assert(conn@.meta.skip(0) =~= conn@.meta);
    while i < conn.meta.len()
        invariant
            i <= conn.meta.len(),
            wanted_repo@ == repo_id@,
            wanted_key@ == key@,
            conn@.setting(repo_id@, key@) == meta_value(
                conn@.meta.skip(i as int),
                repo_id@,
                key@,
            ),
        decreases conn.meta.len() - i,
    {
        assert(conn@.meta.skip(i as int)[0] == conn.meta@[i as int]@);
        if conn.meta[i].repo_id == wanted_repo && conn.meta[i].key == wanted_key {
            return Some(conn.meta[i].value.clone());
        }
        assert(conn@.meta.skip(i as int).drop_first() =~= conn@.meta.skip(i + 1));
        i += 1;
    }
    None
}

proof fn meta_value_unaffected(rows: Seq<MetaModel>, k: int, row: MetaModel, repo_id: Seq<char>, key: Seq<char>)
    requires
        0 <= k < rows.len(),
        rows[k].repo_id == row.repo_id,
        rows[k].key == row.key,
        forall|i: int|
            0 <= i < k ==> !((#[trigger] rows[i]).repo_id == row.repo_id && rows[i].key == row.key),
    ensures
        meta_value(rows.update(k, row), repo_id, key) == if repo_id == row.repo_id && key
            == row.key {
            Some(row.value)
        } else {
            meta_value(rows, repo_id, key)
        },
    decreases rows.len(),
{
    if k == 0 {
        assert(rows.update(k, row).drop_first() =~= rows.drop_first());
    } else {
        let rest = rows.drop_first();
        assert forall|i: int| 0 <= i < k - 1 implies !((#[trigger] rest[i]).repo_id == row.repo_id
            && rest[i].key == row.key) by {
            assert(rest[i] == rows[i + 1]);
        }
        meta_value_unaffected(rest, k - 1, row, repo_id, key);
        assert(rows.update(k, row).drop_first() =~= rest.update(k - 1, row));
        assert(!(rows[0].repo_id == row.repo_id && rows[0].key == row.key));
    }
}

proof fn meta_value_appended(rows: Seq<MetaModel>, row: MetaModel, repo_id: Seq<char>, key: Seq<char>)
    requires
        forall|i: int|
            0 <= i < rows.len() ==> !((#[trigger] rows[i]).repo_id == row.repo_id && rows[i].key
                == row.key),
    ensures
        meta_value(rows.push(row), repo_id, key) == if repo_id == row.repo_id && key == row.key {
            Some(row.value)
        } else {
            meta_value(rows, repo_id, key)
        },
    decreases rows.len(),
{
    if rows.len() == 0 {
        assert(rows.push(row).drop_first() =~= Seq::empty());
        assert(rows =~= Seq::empty());
    } else {
        let rest = rows.drop_first();
        assert forall|i: int| 0 <= i < rest.len() implies !((#[trigger] rest[i]).repo_id
            == row.repo_id && rest[i].key == row.key) by {
            assert(rest[i] == rows[i + 1]);
        }
        meta_value_appended(rest, row, repo_id, key);
        assert(rows.push(row).drop_first() =~= rest.push(row));
        assert(!(rows[0].repo_id == row.repo_id && rows[0].key == row.key));
    }
}

/// Writes a setting of a repository that is registered; where it is not, the
/// write fails and changes nothing. Every other setting, and everything else,
/// stays.
pub fn set_repo_meta(conn: &mut HistoryStore, repo_id: &str, key: &str, value: &str) -> (r: Result<
    (),
    HistoryError,
>)
    ensures
        r == if old(conn)@.is_registered(repo_id@) {
            Ok(())
        } else {
            Err(HistoryError::UnknownRepository)
        },
        r is Err ==> *final(conn) == *old(conn),
        final(conn)@.same_but_meta(old(conn)@),
        r is Ok ==> forall|r: Seq<char>, k: Seq<char>| #[trigger]
            final(conn)@.setting(r, k) == if r == repo_id@ && k == key@ {
                Some(value@)
            } else {
                old(conn)@.setting(r, k)
            },
{
    if !contains_text(&conn.repos, repo_id) {
        return Err(HistoryError::UnknownRepository);
    }
    let row = MetaRow {
        repo_id: repo_id.to_owned(),
        key: key.to_owned(),
        value: value.to_owned(),
    };
    let mut i: usize = 0;
    while i < conn.meta.len()
        invariant
            i <= conn.meta.len(),
            *conn == *old(conn),
            old(conn)@.is_registered(repo_id@),
            row@ == (MetaModel { repo_id: repo_id@, key: key@, value: value@ }),
            forall|j: int|
                0 <= j < i ==> !((#[trigger] conn@.meta[j]).repo_id == repo_id@
                    && conn@.meta[j].key == key@),
        decreases conn.meta.len() - i,
    {
        assert(conn@.meta[i as int] == conn.meta@[i as int]@);
        if conn.meta[i].repo_id == row.repo_id && conn.meta[i].key == row.key {
            conn.meta.set(i, row);
            proof {
                assert(conn@.meta =~= old(conn)@.meta.update(i as int, row@));
                assert forall|r: Seq<char>, k: Seq<char>| #[trigger]
                    conn@.setting(r, k) == if r == repo_id@ && k == key@ {
                        Some(value@)
                    } else {
                        old(conn)@.setting(r, k)
                    } by {
                    meta_value_unaffected(old(conn)@.meta, i as int, row@, r, k);
                }
            }
            return Ok(());
        }
        i += 1;
    }
    conn.meta.push(row);
    proof {
        assert(conn@.meta =~= old(conn)@.meta.push(row@));
        assert forall|r: Seq<char>, k: Seq<char>| #[trigger]
            conn@.setting(r, k) == if r == repo_id@ && k == key@ {
                Some(value@)
            } else {
                old(conn)@.setting(r, k)
            } by {
            meta_value_appended(old(conn)@.meta, row@, r, k);
        }
    }
    Ok(())
}

/// The files of the active repository that are live, of whatever snapshot.
pub fn find_live_files(conn: &HistoryStore) -> (r: Vec<FileRow>)
    ensures
        files::file_models(r@) == conn@.live_files(),
{
    let ghost all = conn@.files;
    let ghost lives = |f: FileModel|
        f.repo_id == conn@.active_repo_id && conn@.is_live_generation(f.generation) && f.kind
            != "deleted"@;
    let setting = repo_meta(conn, conn.active_repo_id.as_str(), "live_files_generation");
    let mut r: Vec<FileRow> = Vec::new();
    let mut i: usize = 0;
    proof {
        reveal(Seq::filter);
        assert(files::file_models(r@) =~= Seq::empty());
    }
    while i < conn.files.len()
        invariant
            i <= conn.files.len(),
            all == files::file_models(conn.files@),
            (match setting {
                Some(v) => Some(v@),
                None => None,
            }) == conn@.setting(conn@.active_repo_id, "live_files_generation"@),
            lives == (|f: FileModel|
                f.repo_id == conn@.active_repo_id && conn@.is_live_generation(f.generation)
                    && f.kind != "deleted"@),
            files::file_models(r@) == all.take(i as int).filter(lives),
        decreases conn.files.len() - i,
    {
        let row = &conn.files[i];
        proof {
            assert(all.take(i + 1).drop_last() =~= all.take(i as int));
            assert(all.take(i + 1).last() == row@);
            reveal(Seq::filter);
        }
        let live: bool = match &setting {
            Some(v) => same_text(decimal_text(row.generation).as_str(), v.as_str()),
            None => row.generation == 0,
        };
        if live && row.repo_id == conn.active_repo_id && !same_text(row.kind.as_str(), "deleted") {
            let ghost old_r = files::file_models(r@);
            let copy = row.copy();
            r.push(copy);
            assert(files::file_models(r@) =~= old_r.push(copy@));
        }
        i += 1;
    }
    assert(all.take(i as int) =~= all);
    r
}

/// The text of a yes-or-no setting.
pub open spec fn bit(b: bool) -> Seq<char> {
    if b {
        "1"@
    } else {
        "0"@
    }
}

fn bit_text(b: bool) -> (r: &'static str)
    ensures
        r@ == bit(b),
{
    if b {
        "1"
    } else {
        "0"
    }
}

/// Records up to where the history of a repository has been read: the head and
/// the root it was read at, whether it was shallow, whether it was complete.
pub fn set_history_cursors(
    conn: &mut HistoryStore,
    repo_id: &str,
    head: &str,
    root: &str,
    shallow: bool,
    complete: bool,
)
    requires
        old(conn)@.is_registered(repo_id@),
    ensures
        final(conn)@.same_but_meta(old(conn)@),
        forall|r: Seq<char>, k: Seq<char>| #[trigger]
            final(conn)@.setting(r, k) == if r != repo_id@ {
                old(conn)@.setting(r, k)
            } else if k == "git_history_indexed_complete"@ {
                Some(bit(complete))
            } else if k == "git_history_indexed_shallow"@ {
                Some(bit(shallow))
            } else if k == "git_history_indexed_root"@ {
                Some(root@)
            } else if k == "git_history_indexed_head"@ {
                Some(head@)
            } else {
                old(conn)@.setting(r, k)
            },
{
    let _ = set_repo_meta(conn, repo_id, "git_history_indexed_head", head);
    let _ = set_repo_meta(conn, repo_id, "git_history_indexed_root", root);
    let _ = set_repo_meta(conn, repo_id, "git_history_indexed_shallow", bit_text(shallow));
    let _ = set_repo_meta(conn, repo_id, "git_history_indexed_complete", bit_text(complete));
}

} // verus!

//! Rows of the file table.
use vstd::prelude::*;
use crate::text::same_text;

verus! {

/// One indexed file: its path, what it holds and which snapshot it belongs to.
///
/// `commit_sha` and `worktree_id` say which snapshot the row describes; the
/// base snapshot has an empty `worktree_id`. `generation` numbers the rebuild
/// that wrote the row.
pub struct FileRow {
    pub repo_id: String,
    pub path: String,
    pub language: String,
    pub kind: String,
    pub sha256: String,
    pub modified_at_ms: i64,
    pub indexed_at_ms: i64,
    pub generated: bool,
    pub commit_sha: String,
    pub worktree_id: String,
    pub generation: u64,
}

/// What a [`FileRow`] holds, as plain values.
#[verifier::ext_equal]
pub struct FileModel {
    pub repo_id: Seq<char>,
    pub path: Seq<char>,
    pub language: Seq<char>,
    pub kind: Seq<char>,
    pub sha256: Seq<char>,
    pub modified_at_ms: i64,
    pub indexed_at_ms: i64,
    pub generated: bool,
    pub commit_sha: Seq<char>,
    pub worktree_id: Seq<char>,
    pub generation: u64,
}

impl View for FileRow {
    type V = FileModel;

    open spec fn view(&self) -> FileModel {
        FileModel {
            repo_id: self.repo_id@,
            path: self.path@,
            language: self.language@,
            kind: self.kind@,
            sha256: self.sha256@,
            modified_at_ms: self.modified_at_ms,
            indexed_at_ms: self.indexed_at_ms,
            generated: self.generated,
            commit_sha: self.commit_sha@,
            worktree_id: self.worktree_id@,
            generation: self.generation,
        }
    }
}

/// The rows of a file table as plain values.
pub open spec fn file_models(rows: Seq<FileRow>) -> Seq<FileModel> {
    rows.map_values(|r: FileRow| r@)
}

/// A row of the base snapshot for a Rust file, with both times zero.
pub open spec fn base_model(
    repo_id: Seq<char>,
    path: Seq<char>,
    sha256: Seq<char>,
    kind: Seq<char>,
    generated: bool,
    commit_sha: Seq<char>,
    generation: u64,
) -> FileModel {
    FileModel {
        repo_id,
        path,
        language: "rust"@,
        kind,
        sha256,
        modified_at_ms: 0,
        indexed_at_ms: 0,
        generated,
        commit_sha,
        worktree_id: Seq::empty(),
        generation,
    }
}

impl FileRow {
    /// A row of the base snapshot for a Rust file, with both times zero.
    pub fn of_base(
        repo_id: &str,
        path: &str,
        sha256: &str,
        kind: &str,
        generated: bool,
        commit_sha: &str,
        generation: u64,
    ) -> (r: FileRow)
        ensures
            r@ == base_model(
                repo_id@,
                path@,
                sha256@,
                kind@,
                generated,
                commit_sha@,
                generation,
            ),
    {
        FileRow {
            repo_id: repo_id.to_owned(),
            path: path.to_owned(),
            language: "rust".to_owned(),
            kind: kind.to_owned(),
            sha256: sha256.to_owned(),
            modified_at_ms: 0,
            indexed_at_ms: 0,
            generated,
            commit_sha: commit_sha.to_owned(),
            worktree_id: String::new(),
            generation,
        }
    }

    /// The same row once more.
    pub fn copy(&self) -> (r: FileRow)
        ensures
            r@ == self@,
    {
        FileRow {
            repo_id: self.repo_id.clone(),
            path: self.path.clone(),
            language: self.language.clone(),
            kind: self.kind.clone(),
            sha256: self.sha256.clone(),
            modified_at_ms: self.modified_at_ms,
            indexed_at_ms: self.indexed_at_ms,
            generated: self.generated,
            commit_sha: self.commit_sha.clone(),
            worktree_id: self.worktree_id.clone(),
            generation: self.generation,
        }
    }
}

/// The two rows have the same key: they stand for one file in one snapshot.
pub open spec fn same_key(f: FileModel, g: FileModel) -> bool {
    &&& f.repo_id == g.repo_id
    &&& f.path == g.path
    &&& f.commit_sha == g.commit_sha
    &&& f.worktree_id == g.worktree_id
    &&& f.generation == g.generation
}

/// Some row has the key of `f`.
pub open spec fn holds_key(rows: Seq<FileModel>, f: FileModel) -> bool {
    exists|i: int| 0 <= i < rows.len() && same_key(#[trigger] rows[i], f)
}

/// No two rows have one key.
pub open spec fn keys_are_unique(rows: Seq<FileModel>) -> bool {
    forall|i: int, j: int|
        0 <= i < j < rows.len() ==> !same_key(#[trigger] rows[i], #[trigger] rows[j])
}

/// Whether some row has the key of `f`.
pub fn key_is_taken(rows: &Vec<FileRow>, f: &FileRow) -> (r: bool)
    ensures
        r == holds_key(file_models(rows@), f@),
{
    let ghost all = file_models(rows@);
    let mut i: usize = 0;
    while i < rows.len()
        invariant
            i <= rows.len(),
            all == file_models(rows@),
            forall|j: int| 0 <= j < i ==> !same_key(#[trigger] all[j], f@),
        decreases rows.len() - i,
    {
        assert(all[i as int] == rows@[i as int]@);
        if rows[i].repo_id == f.repo_id && rows[i].path == f.path && rows[i].commit_sha
            == f.commit_sha && rows[i].worktree_id == f.worktree_id && rows[i].generation
            == f.generation {
            return true;
        }
        i += 1;
    }
    false
}

/// A row with a key of its own leaves the keys unique.
pub proof fn new_keys_stay_unique(rows: Seq<FileModel>, f: FileModel)
    requires
        keys_are_unique(rows),
        !holds_key(rows, f),
    ensures
        keys_are_unique(rows.push(f)),
{
    let more = rows.push(f);
    assert forall|i: int, j: int| 0 <= i < j < more.len() implies !same_key(
        #[trigger] more[i],
        #[trigger] more[j],
    ) by {
        assert(more[i] == rows[i]);
        if j < rows.len() {
            assert(more[j] == rows[j]);
        }
    }
}

/// Taking rows away leaves the keys unique.
pub proof fn fewer_keys_stay_unique(rows: Seq<FileModel>, keep: spec_fn(FileModel) -> bool)
    requires
        keys_are_unique(rows),
    ensures
        keys_are_unique(rows.filter(keep)),
        forall|f: FileModel|
            !holds_key(rows, f) ==> !#[trigger] holds_key(rows.filter(keep), f),
    decreases rows.len(),
{
    reveal(Seq::filter);
    let kept = rows.filter(keep);
    assert forall|f: FileModel| !holds_key(rows, f) implies !#[trigger] holds_key(kept, f) by {
        if holds_key(kept, f) {
            let i = choose|i: int| 0 <= i < kept.len() && same_key(#[trigger] kept[i], f);
            assert(kept.contains(kept[i]));
            rows.lemma_filter_contains_rev(keep, kept[i]);
            let k = choose|k: int| 0 <= k < rows.len() && rows[k] == kept[i];
            assert(same_key(rows[k], f));
        }
    }
    if rows.len() > 0 {
        let t = rows.drop_last();
        assert forall|i: int, j: int| 0 <= i < j < t.len() implies !same_key(
            #[trigger] t[i],
            #[trigger] t[j],
        ) by {
            assert(t[i] == rows[i] && t[j] == rows[j]);
        }
        fewer_keys_stay_unique(t, keep);
        if keep(rows.last()) {
            if holds_key(t, rows.last()) {
                let i = choose|i: int| 0 <= i < t.len() && same_key(#[trigger] t[i], rows.last());
                assert(t[i] == rows[i]);
                assert(same_key(rows[i], rows[rows.len() - 1]));
            }
            new_keys_stay_unique(t.filter(keep), rows.last());
        }
    }
}

/// What a reader sees: the rows of one worktree over those of the base, in one
/// repository and its live generation. The base is that of one commit, and has an
/// empty `worktree_id`.
pub struct Scope {
    pub repo_id: String,
    pub commit_sha: String,
    pub worktree_id: String,
    pub generation: u64,
}

/// What a [`Scope`] holds, as plain values.
#[verifier::ext_equal]
pub struct ScopeModel {
    pub repo_id: Seq<char>,
    pub commit_sha: Seq<char>,
    pub worktree_id: Seq<char>,
    pub generation: u64,
}

impl View for Scope {
    type V = ScopeModel;

    open spec fn view(&self) -> ScopeModel {
        ScopeModel {
            repo_id: self.repo_id@,
            commit_sha: self.commit_sha@,
            worktree_id: self.worktree_id@,
            generation: self.generation,
        }
    }
}

/// A row of the worktree at this path, deleted or not, hides the base row.
pub open spec fn is_shadowed(rows: Seq<FileModel>, scope: ScopeModel, path: Seq<char>) -> bool {
    exists|i: int|
        0 <= i < rows.len() && (#[trigger] rows[i]).repo_id == scope.repo_id
            && rows[i].worktree_id == scope.worktree_id && rows[i].generation == scope.generation
            && rows[i].path == path
}

/// The reader sees the row: it is of the repository, live and not the mark of a
/// deleted file, and belongs to the worktree, or to the base of the commit with
/// nothing of the worktree over it.
pub open spec fn is_visible(rows: Seq<FileModel>, f: FileModel, scope: ScopeModel) -> bool {
    &&& f.repo_id == scope.repo_id
    &&& f.generation == scope.generation
    &&& f.kind != "deleted"@
    &&& if f.worktree_id.len() == 0 {
        f.commit_sha == scope.commit_sha && (scope.worktree_id.len() == 0 || !is_shadowed(
            rows,
            scope,
            f.path,
        ))
    } else {
        f.worktree_id == scope.worktree_id
    }
}

/// The rows that a reader sees.
pub open spec fn visible(rows: Seq<FileModel>, scope: ScopeModel) -> Seq<FileModel> {
    rows.filter(|f: FileModel| is_visible(rows, f, scope))
}

fn shadowed(rows: &Vec<FileRow>, scope: &Scope, path: &String) -> (r: bool)
    ensures
        r == is_shadowed(file_models(rows@), scope@, path@),
{
    let ghost all = file_models(rows@);
    let mut i: usize = 0;
    while i < rows.len()
        invariant
            i <= rows.len(),
            all == file_models(rows@),
            forall|j: int|
                0 <= j < i ==> !((#[trigger] all[j]).repo_id == scope.repo_id@
                    && all[j].worktree_id == scope.worktree_id@ && all[j].generation
                    == scope.generation && all[j].path == path@),
        decreases rows.len() - i,
    {
        assert(all[i as int] == rows@[i as int]@);
        if rows[i].repo_id == scope.repo_id && rows[i].worktree_id == scope.worktree_id
            && rows[i].generation == scope.generation && rows[i].path == *path {
            return true;
        }
        i += 1;
    }
    false
}

/// Whether a reader sees the row at `i`.
pub fn sees(rows: &Vec<FileRow>, scope: &Scope, i: usize) -> (r: bool)
    requires
        i < rows.len(),
    ensures
        r == is_visible(file_models(rows@), rows@[i as int]@, scope@),
{
    let row = &rows[i];
    if row.repo_id != scope.repo_id || row.generation != scope.generation || same_text(
        row.kind.as_str(),
        "deleted",
    ) {
        return false;
    }
    if row.worktree_id.as_str().unicode_len() == 0 {
        row.commit_sha == scope.commit_sha && (scope.worktree_id.as_str().unicode_len() == 0
            || !shadowed(rows, scope, &row.path))
    } else {
        row.worktree_id == scope.worktree_id
    }
}

/// The rows that a reader sees, in stored order.
pub fn visible_rows(rows: &Vec<FileRow>, scope: &Scope) -> (r: Vec<FileRow>)
    ensures
        file_models(r@) == visible(file_models(rows@), scope@),
{
    let ghost all = file_models(rows@);
    let ghost seen = |f: FileModel| is_visible(all, f, scope@);
    let mut r: Vec<FileRow> = Vec::new();
    let mut i: usize = 0;
    proof {
        reveal(Seq::filter);
        assert(file_models(r@) =~= Seq::empty());
    }
    while i < rows.len()
        invariant
            i <= rows.len(),
            all == file_models(rows@),
            seen == (|f: FileModel| is_visible(all, f, scope@)),
            file_models(r@) == all.take(i as int).filter(seen),
        decreases rows.len() - i,
    {
        proof {
            assert(all.take(i + 1).drop_last() =~= all.take(i as int));
            assert(all.take(i + 1).last() == rows@[i as int]@);
            reveal(Seq::filter);
        }
        if sees(rows, scope, i) {
            let ghost old_r = file_models(r@);
            let row = rows[i].copy();
            r.push(row);
            assert(file_models(r@) =~= old_r.push(row@));
        }
        i += 1;
    }
    assert(all.take(i as int) =~= all);
    r
}

/// The base reads the same whatever rows a worktree adds: an overlay is seen in
/// its own scope alone.
pub proof fn overlays_leave_the_base(rows: Seq<FileModel>, f: FileModel, scope: ScopeModel)
    requires
        f.worktree_id.len() > 0,
        scope.worktree_id.len() == 0,
    ensures
        visible(rows.push(f), scope) == visible(rows, scope),
{
    let more = rows.push(f);
    let p1 = |g: FileModel| is_visible(more, g, scope);
    let p2 = |g: FileModel| is_visible(rows, g, scope);
    assert(p1 =~= p2);
    reveal(Seq::filter);
    assert(more.drop_last() =~= rows);
    assert(f.worktree_id != scope.worktree_id);
}

/// An overlay row hides the base row at its own path and no other.
pub proof fn overlays_shadow_one_path(
    rows: Seq<FileModel>,
    f: FileModel,
    other: FileModel,
    scope: ScopeModel,
)
    requires
        f.worktree_id.len() > 0,
        f.worktree_id == scope.worktree_id,
        f.repo_id == scope.repo_id,
        f.generation == scope.generation,
        other.path != f.path,
    ensures
        is_visible(rows.push(f), other, scope) == is_visible(rows, other, scope),
        forall|g: FileModel|
            g.path == f.path && g.worktree_id.len() == 0 ==> !#[trigger] is_visible(
                rows.push(f),
                g,
                scope,
            ),
{
    let more = rows.push(f);
    assert(more[rows.len() as int] == f);
    assert(is_shadowed(more, scope, f.path));
    if is_shadowed(more, scope, other.path) {
        let i = choose|i: int|
            0 <= i < more.len() && (#[trigger] more[i]).repo_id == scope.repo_id
                && more[i].worktree_id == scope.worktree_id && more[i].generation
                == scope.generation && more[i].path == other.path;
        assert(rows[i] == more[i]);
    }
    if is_shadowed(rows, scope, other.path) {
        let i = choose|i: int|
            0 <= i < rows.len() && (#[trigger] rows[i]).repo_id == scope.repo_id
                && rows[i].worktree_id == scope.worktree_id && rows[i].generation
                == scope.generation && rows[i].path == other.path;
        assert(rows[i] == more[i]);
    }
}

/// Rows of another repository are not seen, and what is seen of the others does
/// not depend on them.
pub proof fn other_repositories_are_unseen(rows: Seq<FileModel>, f: FileModel, scope: ScopeModel)
    requires
        f.repo_id != scope.repo_id,
    ensures
        visible(rows.push(f), scope) == visible(rows, scope),
{
    let more = rows.push(f);
    let p1 = |g: FileModel| is_visible(more, g, scope);
    let p2 = |g: FileModel| is_visible(rows, g, scope);
    assert forall|path: Seq<char>| #[trigger]
        is_shadowed(more, scope, path) == is_shadowed(rows, scope, path) by {
        if is_shadowed(more, scope, path) {
            let i = choose|i: int|
                0 <= i < more.len() && (#[trigger] more[i]).repo_id == scope.repo_id
                    && more[i].worktree_id == scope.worktree_id && more[i].generation
                    == scope.generation && more[i].path == path;
            assert(rows[i] == more[i]);
        }
        if is_shadowed(rows, scope, path) {
            let i = choose|i: int|
                0 <= i < rows.len() && (#[trigger] rows[i]).repo_id == scope.repo_id
                    && rows[i].worktree_id == scope.worktree_id && rows[i].generation
                    == scope.generation && rows[i].path == path;
            assert(rows[i] == more[i]);
        }
    }
    assert(p1 =~= p2);
    reveal(Seq::filter);
    assert(more.drop_last() =~= rows);
}

} // verus!

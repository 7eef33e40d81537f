//! What an index holds of other repositories than the one it is read for: it is
//! neither changed nor read.
use vstd::prelude::*;
use crate::content::ContentModel;
use crate::digest;
use crate::embedding;
use crate::files;
use crate::files::FileModel;
use crate::filters;
use crate::index;
use crate::index::{IndexModel, TargetModel};
use crate::scoped;

verus! {

/// The row is of another repository.
pub open spec fn is_foreign_row(f: FileModel, repo_id: Seq<char>) -> bool {
    f.repo_id != repo_id
}

/// The content is of another repository.
pub open spec fn is_foreign_content(c: ContentModel, repo_id: Seq<char>) -> bool {
    c.repo_id != repo_id
}

/// The rows of other repositories than the active one.
pub open spec fn foreign_rows(db: IndexModel) -> Seq<FileModel> {
    db.files.filter(|f: FileModel| is_foreign_row(f, db.repo_id))
}

/// The contents of other repositories than the active one.
pub open spec fn foreign_contents(db: IndexModel) -> Seq<ContentModel> {
    db.contents.filter(|c: ContentModel| is_foreign_content(c, db.repo_id))
}

/// The two indexes are read for one repository and hold the same of all others.
pub open spec fn same_foreign(a: IndexModel, b: IndexModel) -> bool {
    &&& a.repo_id == b.repo_id
    &&& foreign_rows(a) == foreign_rows(b)
    &&& foreign_contents(a) == foreign_contents(b)
}

proof fn reading_stays_at_home(
    db: IndexModel,
    targets: Seq<TargetModel>,
    tree: Seq<(Seq<char>, Seq<char>)>,
    worktree_id: Seq<char>,
)
    ensures
        same_foreign(index::with_files(db, targets, tree, worktree_id), db),
    decreases tree.len(),
{
    if tree.len() > 0 {
        reading_stays_at_home(db, targets, tree.drop_last(), worktree_id);
        let rest = index::with_files(db, targets, tree.drop_last(), worktree_id);
        match index::target_of(targets, tree.last().0) {
            Some(t) => {
                one_file_stays_at_home(rest, t, tree.last().0, tree.last().1, worktree_id);
            },
            None => {},
        }
    }
}

proof fn one_file_stays_at_home(
    db: IndexModel,
    t: TargetModel,
    path: Seq<char>,
    s: Seq<char>,
    worktree_id: Seq<char>,
)
    ensures
        same_foreign(index::with_file(db, t, path, s, worktree_id), db),
{
    reveal(Seq::filter);
    let w = index::with_file(db, t, path, s, worktree_id);
    assert(w.files.drop_last() =~= db.files);
    assert(w.contents.drop_last() =~= db.contents);
}

proof fn carrying_stays_at_home(db: IndexModel, rows: Seq<FileModel>, cs: Seq<ContentModel>)
    ensures
        rows.map_values(|f: FileModel| index::carried_row(f, db.scope())).filter(
            |f: FileModel| is_foreign_row(f, db.repo_id),
        ) == rows.filter(|f: FileModel| is_foreign_row(f, db.repo_id)),
        cs.map_values(|c: ContentModel| index::carried_content(c, db.scope())).filter(
            |c: ContentModel| is_foreign_content(c, db.repo_id),
        ) == cs.filter(|c: ContentModel| is_foreign_content(c, db.repo_id)),
    decreases rows.len() + cs.len(),
{
    reveal(Seq::filter);
    let carry_row = |f: FileModel| index::carried_row(f, db.scope());
    let carry = |c: ContentModel| index::carried_content(c, db.scope());
    if rows.len() > 0 {
        carrying_stays_at_home(db, rows.drop_last(), cs);
        assert(rows.map_values(carry_row).drop_last() =~= rows.drop_last().map_values(carry_row));
        assert(rows.map_values(carry_row).last() == index::carried_row(rows.last(), db.scope()));
    } else {
        assert(rows.map_values(carry_row) =~= rows);
    }
    if cs.len() > 0 {
        carrying_stays_at_home(db, rows, cs.drop_last());
        assert(cs.map_values(carry).drop_last() =~= cs.drop_last().map_values(carry));
        assert(cs.map_values(carry).last() == index::carried_content(cs.last(), db.scope()));
    } else {
        assert(cs.map_values(carry) =~= cs);
    }
}

/// A rebuild leaves everything of other repositories as it is.
pub proof fn rebuilds_stay_at_home(
    db: IndexModel,
    targets: Seq<TargetModel>,
    tree: Seq<(Seq<char>, Seq<char>)>,
)
    ensures
        same_foreign(index::rebuilt(db, targets, tree), db),
{
    carrying_stays_at_home(db, db.files, db.contents);
    reading_stays_at_home(index::advanced(db), targets, tree, Seq::empty());
}

/// Healing a file leaves everything of other repositories as it is.
pub proof fn healing_stays_at_home(
    db: IndexModel,
    targets: Seq<TargetModel>,
    tree: Seq<(Seq<char>, Seq<char>)>,
    path: Seq<char>,
)
    ensures
        same_foreign(index::healed(db, targets, tree, path), db),
{
    let rest = index::without_file(db, path);
    filters::filter_of_filter(
        db.files,
        |f: FileModel| !index::is_of(digest::key_of(f), db.scope(), path),
        |f: FileModel| is_foreign_row(f, db.repo_id),
    );
    filters::filter_of_filter(
        db.contents,
        |c: ContentModel| !index::is_of(index::content_key(c), db.scope(), path),
        |c: ContentModel| is_foreign_content(c, db.repo_id),
    );
    assert(same_foreign(rest, db));
    match (crate::source::text_in(tree, path), index::target_of(targets, path)) {
        (Some(s), Some(t)) => {
            one_file_stays_at_home(rest, t, path, s, db.worktree_id);
        },
        _ => {},
    }
}

/// Laying a worktree over the base leaves everything of other repositories as it
/// is.
pub proof fn overlays_stay_at_home(
    db: IndexModel,
    targets: Seq<TargetModel>,
    tree: Seq<(Seq<char>, Seq<char>)>,
    worktree_id: Seq<char>,
)
    ensures
        same_foreign(index::overlaid(db, targets, tree, worktree_id), db),
{
    let foreign = |f: FileModel| is_foreign_row(f, db.repo_id);
    let rest = index::without_worktree(db, worktree_id);
    let marks = index::tombstones(rest.files, db.scope(), tree, worktree_id);
    let marked = IndexModel { files: rest.files + marks, worktree_id, ..rest };
    filters::filter_of_filter(
        db.files,
        |f: FileModel| !(f.repo_id == db.repo_id && f.worktree_id == worktree_id),
        foreign,
    );
    filters::filter_of_filter(
        db.contents,
        |c: ContentModel| !(c.repo_id == db.repo_id && c.worktree_id == worktree_id),
        |c: ContentModel| is_foreign_content(c, db.repo_id),
    );
    filters::filter_of_halves(rest.files, marks, foreign);
    let gone = |f: FileModel| index::is_gone(f, db.scope(), tree);
    assert forall|i: int| 0 <= i < marks.len() implies !foreign(#[trigger] marks[i]) by {
        rest.files.lemma_filter_pred(gone, i);
    }
    filters::filter_of_none(marks, foreign);
    assert(rest.files.filter(foreign) + marks.filter(foreign) =~= rest.files.filter(foreign));
    assert(same_foreign(marked, db));
    reading_stays_at_home(marked, targets, index::differing(rest, tree), worktree_id);
}

/// A sweep leaves everything of other repositories as it is, and so does finding
/// the policies anew.
pub proof fn sweeps_stay_at_home(
    db: IndexModel,
    commits: Seq<Seq<char>>,
    worktrees: Seq<Seq<char>>,
)
    ensures
        same_foreign(index::pruned(db, commits, worktrees), db),
        same_foreign(index::collected(db), db),
        same_foreign(embedding::repoliced(db), db),
{
    let foreign = |f: FileModel| is_foreign_row(f, db.repo_id);
    let foreign_c = |c: ContentModel| is_foreign_content(c, db.repo_id);
    filters::filter_of_filter(
        db.files,
        |f: FileModel| index::outlives(digest::key_of(f), db, commits, worktrees),
        foreign,
    );
    filters::filter_of_filter(
        db.contents,
        |c: ContentModel| index::outlives(index::content_key(c), db, commits, worktrees),
        foreign_c,
    );
    filters::filter_of_filter(
        db.files,
        |f: FileModel| index::is_kept(digest::key_of(f), db),
        foreign,
    );
    filters::filter_of_filter(
        db.contents,
        |c: ContentModel| index::is_kept(index::content_key(c), db),
        foreign_c,
    );
    policing_stays_at_home(db, db.contents);
}

proof fn policing_stays_at_home(db: IndexModel, cs: Seq<ContentModel>)
    ensures
        cs.map_values(|c: ContentModel| embedding::repoliced_here(db, c)).filter(
            |c: ContentModel| is_foreign_content(c, db.repo_id),
        ) == cs.filter(|c: ContentModel| is_foreign_content(c, db.repo_id)),
    decreases cs.len(),
{
    reveal(Seq::filter);
    let police = |c: ContentModel| embedding::repoliced_here(db, c);
    if cs.len() > 0 {
        policing_stays_at_home(db, cs.drop_last());
        assert(cs.map_values(police).drop_last() =~= cs.drop_last().map_values(police));
        assert(cs.map_values(police).last() == embedding::repoliced_here(db, cs.last()));
    } else {
        assert(cs.map_values(police) =~= cs);
    }
}

/// The index with what it holds of the active repository alone.
pub open spec fn at_home(db: IndexModel) -> IndexModel {
    IndexModel {
        files: db.files.filter(|f: FileModel| f.repo_id == db.repo_id),
        contents: db.contents.filter(|c: ContentModel| c.repo_id == db.repo_id),
        ..db
    }
}

proof fn shadows_are_own(db: IndexModel, path: Seq<char>)
    ensures
        files::is_shadowed(at_home(db).files, db.scope(), path) == files::is_shadowed(
            db.files,
            db.scope(),
            path,
        ),
{
    let own = |f: FileModel| f.repo_id == db.repo_id;
    let home = at_home(db).files;
    let s = db.scope();
    if files::is_shadowed(db.files, s, path) {
        let i = choose|i: int|
            0 <= i < db.files.len() && (#[trigger] db.files[i]).repo_id == s.repo_id
                && db.files[i].worktree_id == s.worktree_id && db.files[i].generation
                == s.generation && db.files[i].path == path;
        db.files.lemma_filter_contains(own, i);
        let k = choose|k: int| 0 <= k < home.len() && home[k] == db.files[i];
        assert(home[k].repo_id == s.repo_id);
    }
    if files::is_shadowed(home, s, path) {
        let i = choose|i: int|
            0 <= i < home.len() && (#[trigger] home[i]).repo_id == s.repo_id
                && home[i].worktree_id == s.worktree_id && home[i].generation == s.generation
                && home[i].path == path;
        assert(home.contains(home[i]));
        db.files.lemma_filter_contains_rev(own, home[i]);
        let k = choose|k: int| 0 <= k < db.files.len() && db.files[k] == home[i];
        assert(db.files[k].repo_id == s.repo_id);
    }
}

proof fn sight_is_own(db: IndexModel, f: FileModel)
    ensures
        files::is_visible(at_home(db).files, f, db.scope()) == files::is_visible(
            db.files,
            f,
            db.scope(),
        ),
{
    shadows_are_own(db, f.path);
}

/// Rows of other repositories are not read: a reader sees what they would see of
/// the active repository alone.
pub proof fn foreign_rows_are_unseen(db: IndexModel)
    ensures
        scoped::seen_rows(at_home(db)) == scoped::seen_rows(db),
{
    let own = |f: FileModel| f.repo_id == db.repo_id;
    let p = |f: FileModel| files::is_visible(at_home(db).files, f, db.scope());
    let q = |f: FileModel| files::is_visible(db.files, f, db.scope());
    assert forall|f: FileModel| #[trigger] p(f) == q(f) by {
        sight_is_own(db, f);
    }
    assert(p =~= q);
    assert(at_home(db).scope() == db.scope());
    filters::filter_of_filter(db.files, own, q);
}

proof fn seeing_is_own(db: IndexModel, c: ContentModel, generated: bool)
    ensures
        scoped::is_seen(at_home(db), c, generated) == scoped::is_seen(db, c, generated),
        scoped::is_seen(db, c, generated) ==> c.repo_id == db.repo_id,
{
    let own = |f: FileModel| f.repo_id == db.repo_id;
    let home = at_home(db).files;
    let s = db.scope();
    assert(at_home(db).scope() == s);
    if scoped::is_seen(db, c, generated) {
        let i = choose|i: int|
            0 <= i < db.files.len() && scoped::belongs(c, #[trigger] db.files[i])
                && files::is_visible(db.files, db.files[i], s) && db.files[i].generated
                == generated;
        sight_is_own(db, db.files[i]);
        db.files.lemma_filter_contains(own, i);
        let k = choose|k: int| 0 <= k < home.len() && home[k] == db.files[i];
        assert(scoped::belongs(c, home[k]));
    }
    if scoped::is_seen(at_home(db), c, generated) {
        let i = choose|i: int|
            0 <= i < home.len() && scoped::belongs(c, #[trigger] home[i]) && files::is_visible(
                home,
                home[i],
                s,
            ) && home[i].generated == generated;
        sight_is_own(db, home[i]);
        assert(home.contains(home[i]));
        db.files.lemma_filter_contains_rev(own, home[i]);
        let k = choose|k: int| 0 <= k < db.files.len() && db.files[k] == home[i];
        assert(scoped::belongs(c, db.files[k]));
    }
}

proof fn reads_are_own(db: IndexModel, cs: Seq<ContentModel>, path: Seq<char>)
    ensures
        ({
            let own = cs.filter(|c: ContentModel| c.repo_id == db.repo_id);
            &&& scoped::seen_names(at_home(db), own) == scoped::seen_names(db, cs)
            &&& scoped::seen_names_at(at_home(db), own, path) == scoped::seen_names_at(
                db,
                cs,
                path,
            )
            &&& scoped::seen_chunk_ids(at_home(db), own, path) == scoped::seen_chunk_ids(
                db,
                cs,
                path,
            )
        }),
    decreases cs.len(),
{
    reveal(Seq::filter);
    let own = |c: ContentModel| c.repo_id == db.repo_id;
    if cs.len() > 0 {
        let t = cs.drop_last();
        reads_are_own(db, t, path);
        seeing_is_own(db, cs.last(), false);
        seeing_is_own(db, cs.last(), true);
        if own(cs.last()) {
            assert(t.filter(own).push(cs.last()).drop_last() =~= t.filter(own));
        }
    }
}

/// Contents of other repositories are not read: names and chunks are those that
/// the active repository alone would give.
pub proof fn foreign_contents_are_unread(db: IndexModel, path: Seq<char>)
    ensures
        ({
            let home = at_home(db);
            &&& scoped::seen_names(home, home.contents) == scoped::seen_names(db, db.contents)
            &&& scoped::seen_names_at(home, home.contents, path) == scoped::seen_names_at(
                db,
                db.contents,
                path,
            )
            &&& scoped::seen_chunk_ids(home, home.contents, path) == scoped::seen_chunk_ids(
                db,
                db.contents,
                path,
            )
        }),
{
    reads_are_own(db, db.contents, path);
}

} // verus!

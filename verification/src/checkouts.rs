//! What holds of an index over several checkouts and several rebuilds.
use vstd::prelude::*;
use crate::content;
use crate::content::{ContentModel, Manner};
use crate::digest;
use crate::files;
use crate::files::{FileModel, ScopeModel};
use crate::filters;
use crate::index;
use crate::index::{IndexModel, TargetModel};
use crate::scoped;
use crate::source;

verus! {

/// The index as a reader of the base sees it.
pub open spec fn based(db: IndexModel) -> IndexModel {
    IndexModel { worktree_id: Seq::empty(), ..db }
}

proof fn base_is_seen(rows: Seq<FileModel>, scope: ScopeModel)
    requires
        scope.worktree_id.len() == 0,
    ensures
        files::visible(rows, scope) == rows.filter(
            |f: FileModel| index::is_in_base(f, scope),
        ),
        forall|f: FileModel| #[trigger]
            files::is_visible(rows, f, scope) == index::is_in_base(f, scope),
{
    let p = |f: FileModel| files::is_visible(rows, f, scope);
    let q = |f: FileModel| index::is_in_base(f, scope);
    assert(p =~= q);
}

/// The rows that reading a tree adds.
pub open spec fn added_rows(
    db: IndexModel,
    targets: Seq<TargetModel>,
    tree: Seq<(Seq<char>, Seq<char>)>,
    worktree_id: Seq<char>,
) -> Seq<FileModel>
    decreases tree.len(),
{
    if tree.len() == 0 {
        Seq::empty()
    } else {
        let rest = added_rows(db, targets, tree.drop_last(), worktree_id);
        match index::target_of(targets, tree.last().0) {
            Some(t) => rest.push(
                index::row_of(db, t, tree.last().0, tree.last().1, worktree_id),
            ),
            None => rest,
        }
    }
}

proof fn rows_are_added(
    db: IndexModel,
    targets: Seq<TargetModel>,
    tree: Seq<(Seq<char>, Seq<char>)>,
    worktree_id: Seq<char>,
)
    ensures
        ({
            let w = index::with_files(db, targets, tree, worktree_id);
            let added = added_rows(db, targets, tree, worktree_id);
            &&& w.files == db.files + added
            &&& w.repo_id == db.repo_id
            &&& w.commit_sha == db.commit_sha
            &&& w.worktree_id == db.worktree_id
            &&& w.generation == db.generation
            &&& forall|i: int|
                0 <= i < added.len() ==> (#[trigger] added[i]).worktree_id == worktree_id
                    && added[i].generation == db.generation && added[i].repo_id == db.repo_id
                    && added[i].commit_sha == db.commit_sha
        }),
    decreases tree.len(),
{
    if tree.len() == 0 {
        assert(db.files + added_rows(db, targets, tree, worktree_id) =~= db.files);
    } else {
        rows_are_added(db, targets, tree.drop_last(), worktree_id);
        let rest = added_rows(db, targets, tree.drop_last(), worktree_id);
        let r = index::with_files(db, targets, tree.drop_last(), worktree_id);
        match index::target_of(targets, tree.last().0) {
            Some(t) => {
                let row = index::row_of(db, t, tree.last().0, tree.last().1, worktree_id);
                assert(row == index::row_of(r, t, tree.last().0, tree.last().1, worktree_id));
                assert((db.files + rest).push(row) =~= db.files + rest.push(row));
            },
            None => {},
        }
    }
}

/// A worktree that is laid over the base leaves what a reader of the base sees.
pub proof fn the_base_stays(
    db: IndexModel,
    targets: Seq<TargetModel>,
    tree: Seq<(Seq<char>, Seq<char>)>,
    worktree_id: Seq<char>,
)
    requires
        worktree_id.len() > 0,
    ensures
        scoped::seen_rows(based(index::overlaid(db, targets, tree, worktree_id)))
            == scoped::seen_rows(based(db)),
{
    let scope = based(db).scope();
    let rest = index::without_worktree(db, worktree_id);
    let tombs = index::tombstones(rest.files, db.scope(), tree, worktree_id);
    let marked = IndexModel { files: rest.files + tombs, worktree_id, ..rest };
    let differing = index::differing(rest, tree);
    let added = added_rows(marked, targets, differing, worktree_id);
    let seen = |f: FileModel| index::is_in_base(f, scope);
    let others = |f: FileModel| !(f.repo_id == db.repo_id && f.worktree_id == worktree_id);
    rows_are_added(marked, targets, differing, worktree_id);
    base_is_seen(index::overlaid(db, targets, tree, worktree_id).files, scope);
    base_is_seen(db.files, scope);
    assert(based(index::overlaid(db, targets, tree, worktree_id)).scope() == scope);
    filters::filter_of_halves(rest.files + tombs, added, seen);
    filters::filter_of_halves(rest.files, tombs, seen);
    assert forall|i: int| 0 <= i < added.len() implies !seen(#[trigger] added[i]) by {}
    filters::filter_of_none(added, seen);
    assert forall|i: int| 0 <= i < tombs.len() implies !seen(#[trigger] tombs[i]) by {}
    filters::filter_of_none(tombs, seen);
    assert(rest.files.filter(seen) + tombs.filter(seen) + added.filter(seen)
        =~= rest.files.filter(seen));
    filters::filter_of_filter(db.files, others, seen);
}

/// The rows of the base that a reader of the base sees.
pub open spec fn base_rows(db: IndexModel) -> Seq<FileModel> {
    db.files.filter(|f: FileModel| index::is_in_base(f, based(db).scope()))
}

proof fn seen_by_the_base(db: IndexModel, c: ContentModel, generated: bool)
    ensures
        scoped::is_seen(based(db), c, generated) == exists|i: int|
            0 <= i < base_rows(db).len() && scoped::belongs(c, #[trigger] base_rows(db)[i])
                && base_rows(db)[i].generated == generated,
{
    let scope = based(db).scope();
    let seen = |f: FileModel| index::is_in_base(f, scope);
    let rows = base_rows(db);
    base_is_seen(db.files, scope);
    if scoped::is_seen(based(db), c, generated) {
        let i = choose|i: int|
            0 <= i < db.files.len() && scoped::belongs(c, #[trigger] db.files[i])
                && files::is_visible(db.files, db.files[i], scope)
                && db.files[i].generated == generated;
        assert(seen(db.files[i]));
        db.files.lemma_filter_contains(seen, i);
        let k = choose|k: int| 0 <= k < rows.len() && rows[k] == db.files[i];
        assert(scoped::belongs(c, rows[k]));
    }
    if exists|i: int|
        0 <= i < rows.len() && scoped::belongs(c, #[trigger] rows[i]) && rows[i].generated
            == generated {
        let i = choose|i: int|
            0 <= i < rows.len() && scoped::belongs(c, #[trigger] rows[i]) && rows[i].generated
                == generated;
        db.files.lemma_filter_pred(seen, i);
        assert(rows.contains(rows[i]));
        db.files.lemma_filter_contains_rev(seen, rows[i]);
        let k = choose|k: int| 0 <= k < db.files.len() && db.files[k] == rows[i];
        assert(files::is_visible(db.files, db.files[k], scope));
        assert(scoped::belongs(c, based(db).files[k]));
    }
}

proof fn scope_of_the_base_stays(
    db: IndexModel,
    targets: Seq<TargetModel>,
    tree: Seq<(Seq<char>, Seq<char>)>,
    worktree_id: Seq<char>,
    c: ContentModel,
)
    requires
        worktree_id.len() > 0,
    ensures
        scoped::in_scope(based(index::overlaid(db, targets, tree, worktree_id)), c)
            == scoped::in_scope(based(db), c),
        c.worktree_id.len() > 0 ==> !scoped::in_scope(based(db), c),
{
    let o = index::overlaid(db, targets, tree, worktree_id);
    let rest = index::without_worktree(db, worktree_id);
    let tombs = index::tombstones(rest.files, db.scope(), tree, worktree_id);
    let marked = IndexModel { files: rest.files + tombs, worktree_id, ..rest };
    rows_are_added(marked, targets, index::differing(rest, tree), worktree_id);
    the_base_stays(db, targets, tree, worktree_id);
    base_is_seen(o.files, based(db).scope());
    base_is_seen(db.files, based(db).scope());
    assert(based(o).scope() == based(db).scope());
    assert(base_rows(o) == scoped::seen_rows(based(o)));
    assert(base_rows(db) == scoped::seen_rows(based(db)));
    seen_by_the_base(o, c, false);
    seen_by_the_base(o, c, true);
    seen_by_the_base(db, c, false);
    seen_by_the_base(db, c, true);
    let seen = |f: FileModel| index::is_in_base(f, based(db).scope());
    if c.worktree_id.len() > 0 && scoped::in_scope(based(db), c) {
        let i = choose|i: int|
            0 <= i < base_rows(db).len() && scoped::belongs(c, #[trigger] base_rows(db)[i]);
        db.files.lemma_filter_pred(seen, i);
    }
}

proof fn unseen_contents_add_no_names(
    db: IndexModel,
    a: Seq<ContentModel>,
    b: Seq<ContentModel>,
    path: Seq<char>,
)
    requires
        forall|i: int| 0 <= i < b.len() ==> !scoped::in_scope(db, #[trigger] b[i]),
    ensures
        scoped::seen_names_at(db, a + b, path) == scoped::seen_names_at(db, a, path),
    decreases b.len(),
{
    if b.len() == 0 {
        assert(a + b =~= a);
    } else {
        assert((a + b).drop_last() =~= a + b.drop_last());
        assert(!scoped::in_scope(db, b[b.len() - 1]));
        assert forall|i: int| 0 <= i < b.drop_last().len() implies !scoped::in_scope(
            db,
            #[trigger] b.drop_last()[i],
        ) by {
            assert(!scoped::in_scope(db, b[i]));
        }
        unseen_contents_add_no_names(db, a, b.drop_last(), path);
    }
}

proof fn dropped_contents_lose_no_names(
    db: IndexModel,
    a: Seq<ContentModel>,
    keep: spec_fn(ContentModel) -> bool,
    path: Seq<char>,
)
    requires
        forall|c: ContentModel| !#[trigger] keep(c) ==> !scoped::in_scope(db, c),
    ensures
        scoped::seen_names_at(db, a.filter(keep), path) == scoped::seen_names_at(db, a, path),
    decreases a.len(),
{
    reveal(Seq::filter);
    if a.len() > 0 {
        let t = a.drop_last();
        dropped_contents_lose_no_names(db, t, keep, path);
        if keep(a.last()) {
            assert(t.filter(keep).push(a.last()).drop_last() =~= t.filter(keep));
        }
    }
}

proof fn names_rest_on_scope(
    d1: IndexModel,
    d2: IndexModel,
    a: Seq<ContentModel>,
    path: Seq<char>,
)
    requires
        forall|i: int|
            0 <= i < a.len() ==> scoped::in_scope(d1, #[trigger] a[i]) == scoped::in_scope(
                d2,
                a[i],
            ),
    ensures
        scoped::seen_names_at(d1, a, path) == scoped::seen_names_at(d2, a, path),
    decreases a.len(),
{
    if a.len() > 0 {
        assert(scoped::in_scope(d1, a[a.len() - 1]) == scoped::in_scope(d2, a[a.len() - 1]));
        assert forall|i: int| 0 <= i < a.drop_last().len() implies scoped::in_scope(
            d1,
            #[trigger] a.drop_last()[i],
        ) == scoped::in_scope(d2, a.drop_last()[i]) by {
            assert(scoped::in_scope(d1, a[i]) == scoped::in_scope(d2, a[i]));
        }
        names_rest_on_scope(d1, d2, a.drop_last(), path);
    }
}

/// The contents that reading a tree adds stand behind those that were there and
/// belong to the worktree.
proof fn contents_are_added(
    db: IndexModel,
    targets: Seq<TargetModel>,
    tree: Seq<(Seq<char>, Seq<char>)>,
    worktree_id: Seq<char>,
) -> (added: Seq<ContentModel>)
    ensures
        index::with_files(db, targets, tree, worktree_id).contents == db.contents + added,
        forall|i: int| 0 <= i < added.len() ==> (#[trigger] added[i]).worktree_id == worktree_id,
    decreases tree.len(),
{
    if tree.len() == 0 {
        let added = Seq::<ContentModel>::empty();
        assert(db.contents + added =~= db.contents);
        added
    } else {
        let rest = contents_are_added(db, targets, tree.drop_last(), worktree_id);
        let r = index::with_files(db, targets, tree.drop_last(), worktree_id);
        match index::target_of(targets, tree.last().0) {
            Some(t) => {
                let c = content::content_of(
                    tree.last().0,
                    tree.last().1,
                    index::manner_of(t, tree.last().0),
                    r.scope_in(worktree_id),
                    r.next_id,
                );
                assert((db.contents + rest).push(c) =~= db.contents + rest.push(c));
                rest.push(c)
            },
            None => rest,
        }
    }
}

/// A worktree that is laid over the base leaves the names that a reader of the
/// base sees at each path.
pub proof fn names_of_the_base_stay(
    db: IndexModel,
    targets: Seq<TargetModel>,
    tree: Seq<(Seq<char>, Seq<char>)>,
    worktree_id: Seq<char>,
    path: Seq<char>,
)
    requires
        worktree_id.len() > 0,
    ensures
        ({
            let o = index::overlaid(db, targets, tree, worktree_id);
            scoped::seen_names_at(based(o), o.contents, path) == scoped::seen_names_at(
                based(db),
                db.contents,
                path,
            )
        }),
{
    let o = index::overlaid(db, targets, tree, worktree_id);
    let rest = index::without_worktree(db, worktree_id);
    let tombs = index::tombstones(rest.files, db.scope(), tree, worktree_id);
    let marked = IndexModel { files: rest.files + tombs, worktree_id, ..rest };
    let added = contents_are_added(marked, targets, index::differing(rest, tree), worktree_id);
    let keep = |c: ContentModel| !(c.repo_id == db.repo_id && c.worktree_id == worktree_id);
    assert forall|c: ContentModel| true implies scoped::in_scope(based(o), c) == #[trigger]
        scoped::in_scope(based(db), c) by {
        scope_of_the_base_stays(db, targets, tree, worktree_id, c);
    }
    assert forall|i: int| 0 <= i < added.len() implies !scoped::in_scope(
        based(o),
        #[trigger] added[i],
    ) by {
        scope_of_the_base_stays(db, targets, tree, worktree_id, added[i]);
    }
    assert forall|c: ContentModel| !#[trigger] keep(c) implies !scoped::in_scope(based(db), c) by {
        scope_of_the_base_stays(db, targets, tree, worktree_id, c);
    }
    unseen_contents_add_no_names(based(o), rest.contents, added, path);
    assert forall|i: int| 0 <= i < rest.contents.len() implies scoped::in_scope(
        based(o),
        #[trigger] rest.contents[i],
    ) == scoped::in_scope(based(db), rest.contents[i]) by {
        scope_of_the_base_stays(db, targets, tree, worktree_id, rest.contents[i]);
    }
    names_rest_on_scope(based(o), based(db), rest.contents, path);
    dropped_contents_lose_no_names(based(db), db.contents, keep, path);
}

/// The index is of one repository, a rebuild leaves no live row of it unread, and
/// no row is newer than the live generation.
pub open spec fn is_settled(db: IndexModel) -> bool {
    &&& db.generation < u64::MAX
    &&& !index::carries(db.files, db.scope())
    &&& forall|i: int|
        0 <= i < db.files.len() ==> (#[trigger] db.files[i]).generation <= db.generation
            && db.files[i].repo_id == db.repo_id
}

proof fn only_new_rows_stay(
    db: IndexModel,
    targets: Seq<TargetModel>,
    tree: Seq<(Seq<char>, Seq<char>)>,
)
    requires
        is_settled(db),
    ensures
        index::collected(index::rebuilt(db, targets, tree)).files == added_rows(
            index::advanced(db),
            targets,
            tree,
            Seq::empty(),
        ),
{
    let a = index::advanced(db);
    let g = (db.generation + 1) as u64;
    let r = index::rebuilt(db, targets, tree);
    let live = |f: FileModel| index::is_kept(digest::key_of(f), r);
    let added = added_rows(a, targets, tree, Seq::empty());
    rows_are_added(a, targets, tree, Seq::empty());
    assert(r.generation == g && r.repo_id == db.repo_id && r.commit_sha == db.commit_sha);
    filters::filter_of_halves(a.files, added, live);
    assert forall|i: int| 0 <= i < a.files.len() implies !live(#[trigger] a.files[i]) by {
        assert(db.files[i].generation <= db.generation);
        assert(a.files[i] == index::carried_row(db.files[i], db.scope()));
    }
    filters::filter_of_none(a.files, live);
    assert forall|i: int| 0 <= i < added.len() implies live(#[trigger] added[i]) by {}
    filters::filter_of_all(added, live);
    assert(a.files.filter(live) + added =~= added);
}

proof fn added_rows_count_alike(
    d1: IndexModel,
    d2: IndexModel,
    targets: Seq<TargetModel>,
    tree: Seq<(Seq<char>, Seq<char>)>,
    k: int,
)
    ensures
        ({
            let r1 = added_rows(d1, targets, tree, Seq::empty());
            let r2 = added_rows(d2, targets, tree, Seq::empty());
            &&& r1.len() == r2.len()
            &&& forall|i: int|
                0 <= i < r1.len() ==> digest::share(#[trigger] r1[i], k) == digest::share(r2[i], k)
                    && digest::is_member(r1[i]) == digest::is_member(r2[i])
        }),
    decreases tree.len(),
{
    if tree.len() > 0 {
        added_rows_count_alike(d1, d2, targets, tree.drop_last(), k);
    }
}

/// The digest rests on the content alone: two indexes of the same files have one
/// digest once their dead rows are swept, however often each was rebuilt.
pub proof fn revision_rests_on_content(
    d1: IndexModel,
    d2: IndexModel,
    targets: Seq<TargetModel>,
    tree: Seq<(Seq<char>, Seq<char>)>,
)
    requires
        is_settled(d1),
        is_settled(d2),
    ensures
        ({
            let f1 = index::collected(index::rebuilt(d1, targets, tree)).files;
            let f2 = index::collected(index::rebuilt(d2, targets, tree)).files;
            digest::scan_state(f1) == digest::scan_state(f2) && digest::members(f1)
                == digest::members(f2)
        }),
{
    only_new_rows_stay(d1, targets, tree);
    only_new_rows_stay(d2, targets, tree);
    let (a1, a2) = (index::advanced(d1), index::advanced(d2));
    let r1 = added_rows(a1, targets, tree, Seq::empty());
    let r2 = added_rows(a2, targets, tree, Seq::empty());
    added_rows_count_alike(a1, a2, targets, tree, 0);
    added_rows_count_alike(a1, a2, targets, tree, 1);
    added_rows_count_alike(a1, a2, targets, tree, 2);
    added_rows_count_alike(a1, a2, targets, tree, 3);
    digest::totals_of_alike(r1, r2, 0);
    digest::totals_of_alike(r1, r2, 1);
    digest::totals_of_alike(r1, r2, 2);
    digest::totals_of_alike(r1, r2, 3);
}

/// An index stays settled through a rebuild and a sweep.
pub proof fn rebuilds_stay_settled(
    db: IndexModel,
    targets: Seq<TargetModel>,
    tree: Seq<(Seq<char>, Seq<char>)>,
)
    requires
        is_settled(db),
        db.generation + 1 < u64::MAX,
    ensures
        is_settled(index::collected(index::rebuilt(db, targets, tree))),
{
    let a = index::advanced(db);
    only_new_rows_stay(db, targets, tree);
    rows_are_added(a, targets, tree, Seq::empty());
    let r = index::collected(index::rebuilt(db, targets, tree));
    let added = added_rows(a, targets, tree, Seq::empty());
    assert(r.files == added);
    assert(r.scope() == a.scope_in(r.worktree_id));
    assert forall|i: int| 0 <= i < added.len() implies !index::is_carried(
        (#[trigger] added[i]).repo_id,
        added[i].commit_sha,
        added[i].worktree_id,
        added[i].generation,
        r.scope(),
    ) by {}
    assert(!index::carries(r.files, r.scope()));
}

/// The two contents say the same, but for the ids of their symbols and chunks and
/// for where they are kept.
pub open spec fn same_but_ids(a: ContentModel, b: ContentModel) -> bool {
    &&& a.path == b.path
    &&& a.language == b.language
    &&& a.source == b.source
    &&& a.has_test_code == b.has_test_code
    &&& a.symbols.len() == b.symbols.len()
    &&& forall|i: int|
        0 <= i < a.symbols.len() ==> (content::SymbolModel { id: 0, ..(#[trigger] a.symbols[i]) })
            == (content::SymbolModel { id: 0, ..b.symbols[i] })
    &&& a.chunks.len() == b.chunks.len()
    &&& forall|i: int|
        0 <= i < a.chunks.len() ==> (content::ChunkModel { id: 0, ..(#[trigger] a.chunks[i]) }) == (
        content::ChunkModel { id: 0, ..b.chunks[i] })
}

proof fn content_rests_on_text(
    path: Seq<char>,
    s: Seq<char>,
    how: Manner,
    s1: ScopeModel,
    b1: int,
    s2: ScopeModel,
    b2: int,
)
    ensures
        same_but_ids(
            content::content_of(path, s, how, s1, b1),
            content::content_of(path, s, how, s2, b2),
        ),
{
}

proof fn file_is_read(
    db: IndexModel,
    targets: Seq<TargetModel>,
    tree: Seq<(Seq<char>, Seq<char>)>,
    worktree_id: Seq<char>,
    path: Seq<char>,
) -> (r: (int, int))
    requires
        source::text_in(tree, path) is Some,
        index::target_of(targets, path) is Some,
    ensures
        0 <= r.0 < index::with_files(db, targets, tree, worktree_id).contents.len(),
        index::with_files(db, targets, tree, worktree_id).contents[r.0] == content::content_of(
            path,
            source::text_in(tree, path)->0,
            index::manner_of(index::target_of(targets, path)->0, path),
            db.scope_in(worktree_id),
            r.1,
        ),
    decreases tree.len(),
{
    let rest = index::with_files(db, targets, tree.drop_last(), worktree_id);
    let w = index::with_files(db, targets, tree, worktree_id);
    rows_are_added(db, targets, tree.drop_last(), worktree_id);
    if tree.last().0 == path {
        (w.contents.len() - 1, rest.next_id)
    } else {
        let r = file_is_read(db, targets, tree.drop_last(), worktree_id, path);
        assert(w.contents[r.0] == rest.contents[r.0]);
        r
    }
}

/// A file that is healed is read as a rebuild reads it: the same symbols, the
/// same chunks, the same policies.
pub proof fn healing_reads_as_rebuilding_does(
    db: IndexModel,
    targets: Seq<TargetModel>,
    tree: Seq<(Seq<char>, Seq<char>)>,
    path: Seq<char>,
)
    requires
        source::text_in(tree, path) is Some,
        index::target_of(targets, path) is Some,
    ensures
        ({
            let r = index::rebuilt(db, targets, tree);
            let h = index::healed(r, targets, tree, path);
            h.contents.len() > 0 && exists|k: int|
                0 <= k < r.contents.len() && same_but_ids(
                    h.contents.last(),
                    #[trigger] r.contents[k],
                )
        }),
{
    let r = index::rebuilt(db, targets, tree);
    let h = index::healed(r, targets, tree, path);
    let (k, base) = file_is_read(index::advanced(db), targets, tree, Seq::empty(), path);
    let s = source::text_in(tree, path)->0;
    let how = index::manner_of(index::target_of(targets, path)->0, path);
    content_rests_on_text(
        path,
        s,
        how,
        r.scope(),
        r.next_id,
        index::advanced(db).scope_in(Seq::empty()),
        base,
    );
    assert(same_but_ids(h.contents.last(), r.contents[k]));
}

} // verus!

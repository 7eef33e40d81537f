//! Reading an index: what a reader sees of it.
use vstd::prelude::*;
use crate::content;
use crate::content::{Content, ContentModel, SymbolModel};
use crate::files;
use crate::files::{sees, visible_rows, FileModel};
use crate::ids;
use crate::index::{IndexDatabase, IndexModel};
use crate::order;
use crate::text;
use crate::text::{same_text, sort_texts};

verus! {

/// The rows that a reader of the index sees.
pub open spec fn seen_rows(db: IndexModel) -> Seq<FileModel> {
    files::visible(db.files, db.scope())
}

/// The content belongs to the row.
pub open spec fn belongs(c: ContentModel, f: FileModel) -> bool {
    &&& c.repo_id == f.repo_id
    &&& c.path == f.path
    &&& c.commit_sha == f.commit_sha
    &&& c.worktree_id == f.worktree_id
    &&& c.generation == f.generation
}

/// A reader sees a row that the content belongs to and that is `generated` as
/// asked.
pub open spec fn is_seen(db: IndexModel, c: ContentModel, generated: bool) -> bool {
    exists|i: int|
        0 <= i < db.files.len() && belongs(c, #[trigger] db.files[i]) && files::is_visible(
            db.files,
            db.files[i],
            db.scope(),
        ) && db.files[i].generated == generated
}

/// A reader sees the content.
pub open spec fn in_scope(db: IndexModel, c: ContentModel) -> bool {
    is_seen(db, c, false) || is_seen(db, c, true)
}

/// The paths of the files that a reader sees, in order.
pub open spec fn seen_paths(db: IndexModel) -> Seq<Seq<char>> {
    text::alphabetical(seen_rows(db).map_values(|f: FileModel| f.path))
}

/// The paths of the files that a reader sees, in order.
pub fn scoped_paths(db: &IndexDatabase) -> (r: Vec<String>)
    ensures
        text::views(r@) == seen_paths(db@),
{
    let rows = visible_rows(&db.store.files, &db.scope);
    let ghost all = files::file_models(rows@);
    let ghost goal = all.map_values(|f: FileModel| f.path);
    let mut r: Vec<String> = Vec::new();
    let mut i: usize = 0;
    assert(text::views(r@) =~= goal.take(0));
    while i < rows.len()
        invariant
            i <= rows.len(),
            all == files::file_models(rows@),
            goal == all.map_values(|f: FileModel| f.path),
            text::views(r@) == goal.take(i as int),
        decreases rows.len() - i,
    {
        let ghost sofar = text::views(r@);
        r.push(rows[i].path.clone());
        proof {
            assert(goal[i as int] == rows@[i as int].path@);
            assert(text::views(r@) =~= sofar.push(goal[i as int]));
            assert(goal.take(i + 1) =~= goal.take(i as int).push(goal[i as int]));
        }
        i += 1;
    }
    assert(goal.take(i as int) =~= goal);
    sort_texts(&r)
}

fn seen(db: &IndexDatabase, c: &Content, generated: bool) -> (r: bool)
    ensures
        r == is_seen(db@, c@, generated),
{
    let ghost all = db@.files;
    let mut i: usize = 0;
    while i < db.store.files.len()
        invariant
            i <= db.store.files.len(),
            all == db@.files,
            forall|j: int|
                0 <= j < i ==> !(belongs(c@, #[trigger] all[j]) && files::is_visible(
                    all,
                    all[j],
                    db@.scope(),
                ) && all[j].generated == generated),
        decreases db.store.files.len() - i,
    {
        assert(all[i as int] == db.store.files@[i as int]@);
        let row = &db.store.files[i];
        if row.generated == generated && row.generation == c.generation && row.path == c.path
            && row.worktree_id == c.worktree_id && row.commit_sha == c.commit_sha && row.repo_id
            == c.repo_id && sees(&db.store.files, &db.scope, i) {
            return true;
        }
        i += 1;
    }
    false
}

/// Whether a reader sees the content.
pub fn sees_content(db: &IndexDatabase, c: &Content) -> (r: bool)
    ensures
        r == in_scope(db@, c@),
{
    seen(db, c, false) || seen(db, c, true)
}

/// Whether a reader sees the content and it is hand-written.
pub fn sees_written(db: &IndexDatabase, c: &Content) -> (r: bool)
    ensures
        r == is_seen(db@, c@, false),
{
    seen(db, c, false)
}

/// The names of symbols.
pub open spec fn symbol_names(symbols: Seq<SymbolModel>) -> Seq<Seq<char>> {
    symbols.map_values(|s: SymbolModel| s.qualified_name)
}

/// The names of the symbols in the contents that a reader sees.
pub open spec fn seen_names(db: IndexModel, contents: Seq<ContentModel>) -> Seq<Seq<char>>
    decreases contents.len(),
{
    if contents.len() == 0 {
        Seq::empty()
    } else {
        let rest = seen_names(db, contents.drop_last());
        if in_scope(db, contents.last()) {
            rest + symbol_names(contents.last().symbols)
        } else {
            rest
        }
    }
}

fn add_names(names: &mut Vec<String>, c: &Content)
    ensures
        text::views(final(names)@) == text::views(old(names)@) + symbol_names(c@.symbols),
{
    let ghost before = text::views(names@);
    let ghost goal = symbol_names(c@.symbols);
    let mut i: usize = 0;
    assert(text::views(names@) =~= before + goal.take(0));
    while i < c.symbols.len()
        invariant
            i <= c.symbols.len(),
            goal == symbol_names(c@.symbols),
            text::views(names@) == before + goal.take(i as int),
        decreases c.symbols.len() - i,
    {
        let ghost sofar = text::views(names@);
        names.push(c.symbols[i].qualified_name.clone());
        proof {
            assert(goal[i as int] == c.symbols@[i as int].qualified_name@);
            assert(text::views(names@) =~= sofar.push(goal[i as int]));
            assert(goal.take(i + 1) =~= goal.take(i as int).push(goal[i as int]));
        }
        i += 1;
    }
    assert(goal.take(i as int) =~= goal);
}

/// The qualified names of the symbols that a reader sees, in order.
pub fn scoped_qualified_names(db: &IndexDatabase) -> (r: Vec<String>)
    ensures
        text::views(r@) == text::alphabetical(seen_names(db@, db@.contents)),
{
    let ghost all = db@.contents;
    let mut r: Vec<String> = Vec::new();
    let mut i: usize = 0;
    assert(text::views(r@) =~= seen_names(db@, all.take(0)));
    while i < db.contents.len()
        invariant
            i <= db.contents.len(),
            all == db@.contents,
            text::views(r@) == seen_names(db@, all.take(i as int)),
        decreases db.contents.len() - i,
    {
        proof {
            assert(all.take(i + 1).drop_last() =~= all.take(i as int));
            assert(all.take(i + 1).last() == db.contents@[i as int]@);
        }
        if sees_content(db, &db.contents[i]) {
            add_names(&mut r, &db.contents[i]);
        }
        i += 1;
    }
    assert(all.take(i as int) =~= all);
    sort_texts(&r)
}

/// The names of the symbols of the file at the path, in the contents that a
/// reader sees.
pub open spec fn seen_names_at(
    db: IndexModel,
    contents: Seq<ContentModel>,
    path: Seq<char>,
) -> Seq<Seq<char>>
    decreases contents.len(),
{
    if contents.len() == 0 {
        Seq::empty()
    } else {
        let rest = seen_names_at(db, contents.drop_last(), path);
        let c = contents.last();
        if c.path == path && in_scope(db, c) {
            rest + c.symbols.map_values(|s: SymbolModel| s.name)
        } else {
            rest
        }
    }
}

fn add_short_names(names: &mut Vec<String>, c: &Content)
    ensures
        text::views(final(names)@) == text::views(old(names)@) + c@.symbols.map_values(
            |s: SymbolModel| s.name,
        ),
{
    let ghost before = text::views(names@);
    let ghost goal = c@.symbols.map_values(|s: SymbolModel| s.name);
    let mut i: usize = 0;
    assert(text::views(names@) =~= before + goal.take(0));
    while i < c.symbols.len()
        invariant
            i <= c.symbols.len(),
            goal == c@.symbols.map_values(|s: SymbolModel| s.name),
            text::views(names@) == before + goal.take(i as int),
        decreases c.symbols.len() - i,
    {
        let ghost sofar = text::views(names@);
        names.push(c.symbols[i].name.clone());
        proof {
            assert(goal[i as int] == c.symbols@[i as int].name@);
            assert(text::views(names@) =~= sofar.push(goal[i as int]));
            assert(goal.take(i + 1) =~= goal.take(i as int).push(goal[i as int]));
        }
        i += 1;
    }
    assert(goal.take(i as int) =~= goal);
}

/// The names of the symbols that a reader sees of the file at the path.
pub fn names_in_scope(db: &IndexDatabase, path: &str) -> (r: Vec<String>)
    ensures
        text::views(r@) == seen_names_at(db@, db@.contents, path@),
{
    let ghost all = db@.contents;
    let mut r: Vec<String> = Vec::new();
    let mut i: usize = 0;
    assert(text::views(r@) =~= seen_names_at(db@, all.take(0), path@));
    while i < db.contents.len()
        invariant
            i <= db.contents.len(),
            all == db@.contents,
            text::views(r@) == seen_names_at(db@, all.take(i as int), path@),
        decreases db.contents.len() - i,
    {
        proof {
            assert(all.take(i + 1).drop_last() =~= all.take(i as int));
            assert(all.take(i + 1).last() == db.contents@[i as int]@);
        }
        if same_text(db.contents[i].path.as_str(), path) && sees_content(db, &db.contents[i]) {
            add_short_names(&mut r, &db.contents[i]);
        }
        i += 1;
    }
    assert(all.take(i as int) =~= all);
    r
}

/// The numbers of the chunks of the file at the path, in the contents that a
/// reader sees, as they are stored.
pub open spec fn seen_chunk_ids(
    db: IndexModel,
    contents: Seq<ContentModel>,
    path: Seq<char>,
) -> Seq<u64>
    decreases contents.len(),
{
    if contents.len() == 0 {
        Seq::empty()
    } else {
        let rest = seen_chunk_ids(db, contents.drop_last(), path);
        let c = contents.last();
        if c.path == path && in_scope(db, c) {
            rest + c.chunks.map_values(|k: content::ChunkModel| k.id)
        } else {
            rest
        }
    }
}

fn add_chunk_ids(ids: &mut Vec<u64>, c: &Content)
    ensures
        final(ids)@ == old(ids)@ + c@.chunks.map_values(|k: content::ChunkModel| k.id),
{
    let ghost before = ids@;
    let ghost goal = c@.chunks.map_values(|k: content::ChunkModel| k.id);
    let mut i: usize = 0;
    assert(ids@ =~= before + goal.take(0));
    while i < c.chunks.len()
        invariant
            i <= c.chunks.len(),
            goal == c@.chunks.map_values(|k: content::ChunkModel| k.id),
            ids@ == before + goal.take(i as int),
        decreases c.chunks.len() - i,
    {
        ids.push(c.chunks[i].id);
        proof {
            assert(goal[i as int] == c.chunks@[i as int].id);
            assert(ids@ =~= before + goal.take(i + 1));
        }
        i += 1;
    }
    assert(goal.take(i as int) =~= goal);
}

/// Numbers in order.
pub open spec fn ascending(s: Seq<u64>) -> Seq<u64> {
    order::ranked(s, |a: u64, b: u64| a < b)
}

/// The numbers in order.
pub fn sort_numbers(list: &Vec<u64>) -> (r: Vec<u64>)
    ensures
        r@ == ascending(list@),
{
    let ghost all = list@;
    let ghost earlier = |a: u64, b: u64| a < b;
    let mut r: Vec<u64> = Vec::new();
    let mut i: usize = 0;
    assert(r@ =~= order::ranked(all.take(0), earlier));
    while i < list.len()
        invariant
            i <= list.len(),
            all == list@,
            earlier == (|a: u64, b: u64| a < b),
            r@ == order::ranked(all.take(i as int), earlier),
        decreases list.len() - i,
    {
        let x: u64 = list[i];
        let ghost old_r = r@;
        let mut k: usize = 0;
        while k < r.len() && !(x < r[k])
            invariant
                k <= r.len(),
                earlier == (|a: u64, b: u64| a < b),
                old_r == r@,
                forall|j: int| 0 <= j < k ==> !earlier(x, #[trigger] old_r[j]),
            decreases r.len() - k,
        {
            k += 1;
        }
        proof {
            order::placed_at(old_r, x, earlier, k as int);
            assert(all.take(i + 1).drop_last() =~= all.take(i as int));
            assert(all.take(i + 1).last() == x);
        }
        r.insert(k, x);
        i += 1;
    }
    assert(all.take(i as int) =~= all);
    r
}

/// Each number is greater than the one before.
pub open spec fn ascends(s: Seq<u64>) -> bool {
    forall|i: int, j: int| 0 <= i < j < s.len() ==> #[trigger] s[i] < #[trigger] s[j]
}

/// Numbers that ascend are in order.
pub proof fn ascending_stays(s: Seq<u64>)
    requires
        ascends(s),
    ensures
        ascending(s) == s,
    decreases s.len(),
{
    if s.len() > 0 {
        let t = s.drop_last();
        let earlier = |a: u64, b: u64| a < b;
        assert forall|i: int, j: int| 0 <= i < j < t.len() implies #[trigger] t[i]
            < #[trigger] t[j] by {
            assert(s[i] < s[j]);
        }
        ascending_stays(t);
        assert forall|i: int| 0 <= i < t.len() implies !earlier(s.last(), #[trigger] t[i]) by {
            assert(s[i] < s[s.len() - 1]);
        }
        order::placed_at(t, s.last(), earlier, t.len() as int);
        assert(t.insert(t.len() as int, s.last()) =~= s);
    }
}

proof fn chunk_ids_ascend(db: IndexModel, cs: Seq<ContentModel>, path: Seq<char>, bound: int)
    requires
        ids::are_numbered(cs, bound),
    ensures
        ascends(seen_chunk_ids(db, cs, path)),
        forall|i: int|
            0 <= i < seen_chunk_ids(db, cs, path).len() ==> #[trigger] seen_chunk_ids(
                db,
                cs,
                path,
            )[i] < bound,
    decreases cs.len(),
{
    if cs.len() > 0 {
        let c = cs.last();
        let low = ids::least(c, bound);
        chunk_ids_ascend(db, cs.drop_last(), path, low);
        let rest = seen_chunk_ids(db, cs.drop_last(), path);
        let own = c.chunks.map_values(|k: content::ChunkModel| k.id);
        let all = seen_chunk_ids(db, cs, path);
        ids::least_is_low(c, bound);
        assert forall|i: int| 0 <= i < own.len() implies low <= #[trigger] own[i] < bound by {
            assert(own[i] == c.chunks[i].id);
            if c.symbols.len() > 0 {
                assert(c.symbols[0].id < c.chunks[i].id);
            } else if i > 0 {
                assert(c.chunks[0].id < c.chunks[i].id);
            }
        }
        assert forall|i: int, j: int| 0 <= i < j < own.len() implies #[trigger] own[i]
            < #[trigger] own[j] by {
            assert(c.chunks[i].id < c.chunks[j].id);
        }
        if all != rest {
            assert(all == rest + own);
            assert forall|i: int, j: int| 0 <= i < j < all.len() implies #[trigger] all[i]
                < #[trigger] all[j] by {
                if i >= rest.len() {
                    assert(own[i - rest.len()] < own[j - rest.len()]);
                } else if j >= rest.len() {
                    assert(rest[i] < low <= own[j - rest.len()]);
                } else {
                    assert(rest[i] < rest[j]);
                }
            }
            assert forall|i: int| 0 <= i < all.len() implies #[trigger] all[i] < bound by {
                if i >= rest.len() {
                    assert(own[i - rest.len()] < bound);
                } else {
                    assert(rest[i] < low);
                }
            }
        }
    }
}

/// No chunk number is given twice: those that a reader sees of a file ascend as
/// they are stored.
pub proof fn chunk_ids_are_given_once(db: IndexModel, path: Seq<char>)
    requires
        db.is_sound(),
    ensures
        ascends(seen_chunk_ids(db, db.contents, path)),
        ascending(seen_chunk_ids(db, db.contents, path)) == seen_chunk_ids(
            db,
            db.contents,
            path,
        ),
{
    chunk_ids_ascend(db, db.contents, path, db.next_id);
    ascending_stays(seen_chunk_ids(db, db.contents, path));
}

proof fn chunk_ids_are_apart(
    db: IndexModel,
    cs: Seq<ContentModel>,
    p: Seq<char>,
    q: Seq<char>,
    bound: int,
    i: int,
    j: int,
)
    requires
        ids::are_numbered(cs, bound),
        p != q,
        0 <= i < seen_chunk_ids(db, cs, p).len(),
        0 <= j < seen_chunk_ids(db, cs, q).len(),
    ensures
        seen_chunk_ids(db, cs, p)[i] != seen_chunk_ids(db, cs, q)[j],
    decreases cs.len(),
{
    let c = cs.last();
    let t = cs.drop_last();
    let low = ids::least(c, bound);
    let (a, b) = (seen_chunk_ids(db, t, p), seen_chunk_ids(db, t, q));
    let own = c.chunks.map_values(|k: content::ChunkModel| k.id);
    chunk_ids_ascend(db, t, p, low);
    chunk_ids_ascend(db, t, q, low);
    assert forall|k: int| 0 <= k < own.len() implies low <= #[trigger] own[k] by {
        assert(own[k] == c.chunks[k].id);
        if c.symbols.len() > 0 {
            assert(c.symbols[0].id < c.chunks[k].id);
        } else if k > 0 {
            assert(c.chunks[0].id < c.chunks[k].id);
        }
    }
    if i < a.len() && j < b.len() {
        chunk_ids_are_apart(db, t, p, q, low, i, j);
    } else if i < a.len() {
        assert(seen_chunk_ids(db, cs, q)[j] == own[j - b.len()]);
        assert(seen_chunk_ids(db, cs, p)[i] == a[i]);
    } else {
        assert(seen_chunk_ids(db, cs, p)[i] == own[i - a.len()]);
        assert(seen_chunk_ids(db, cs, q)[j] == b[j]);
    }
}

/// Two paths have no chunk in common.
pub proof fn paths_share_no_chunks(db: IndexModel, p: Seq<char>, q: Seq<char>, id: u64)
    requires
        db.is_sound(),
        p != q,
    ensures
        !(ascending(seen_chunk_ids(db, db.contents, p)).contains(id) && ascending(
            seen_chunk_ids(db, db.contents, q),
        ).contains(id)),
{
    chunk_ids_are_given_once(db, p);
    chunk_ids_are_given_once(db, q);
    let (a, b) = (seen_chunk_ids(db, db.contents, p), seen_chunk_ids(db, db.contents, q));
    if a.contains(id) && b.contains(id) {
        let i = choose|i: int| 0 <= i < a.len() && a[i] == id;
        let j = choose|j: int| 0 <= j < b.len() && b[j] == id;
        chunk_ids_are_apart(db, db.contents, p, q, db.next_id, i, j);
    }
}

/// The numbers of the chunks that a reader sees of the file at the path, in order.
pub fn scoped_chunk_ids(db: &IndexDatabase, path: &str) -> (r: Vec<u64>)
    ensures
        r@ == ascending(seen_chunk_ids(db@, db@.contents, path@)),
        db@.is_sound() ==> ascends(r@),
{
    proof {
        if db@.is_sound() {
            chunk_ids_are_given_once(db@, path@);
        }
    }
    let ghost all = db@.contents;
    let mut r: Vec<u64> = Vec::new();
    let mut i: usize = 0;
    assert(r@ =~= seen_chunk_ids(db@, all.take(0), path@));
    while i < db.contents.len()
        invariant
            i <= db.contents.len(),
            all == db@.contents,
            r@ == seen_chunk_ids(db@, all.take(i as int), path@),
        decreases db.contents.len() - i,
    {
        proof {
            assert(all.take(i + 1).drop_last() =~= all.take(i as int));
            assert(all.take(i + 1).last() == db.contents@[i as int]@);
        }
        if same_text(db.contents[i].path.as_str(), path) && sees_content(db, &db.contents[i]) {
            add_chunk_ids(&mut r, &db.contents[i]);
        }
        i += 1;
    }
    assert(all.take(i as int) =~= all);
    sort_numbers(&r)
}

/// The flag of the content at the path that a reader sees first.
pub open spec fn seen_test_flag(db: IndexModel, contents: Seq<ContentModel>, path: Seq<char>) -> bool
    decreases contents.len(),
{
    if contents.len() == 0 {
        false
    } else if contents[0].path == path && in_scope(db, contents[0]) {
        contents[0].has_test_code
    } else {
        seen_test_flag(db, contents.drop_first(), path)
    }
}

/// Whether the file that a reader sees at the path holds test code.
pub fn is_test_file(db: &IndexDatabase, path: &str) -> (r: bool)
    ensures
        r == seen_test_flag(db@, db@.contents, path@),
{
    let ghost all = db@.contents;
    let mut i: usize = 0;
    assert(all.skip(0) =~= all);
    while i < db.contents.len()
        invariant
            i <= db.contents.len(),
            all == db@.contents,
            seen_test_flag(db@, all, path@) == seen_test_flag(db@, all.skip(i as int), path@),
        decreases db.contents.len() - i,
    {
        proof {
            assert(all.skip(i as int)[0] == db.contents@[i as int]@);
            assert(all.skip(i as int).drop_first() =~= all.skip(i + 1));
        }
        if same_text(db.contents[i].path.as_str(), path) && sees_content(db, &db.contents[i]) {
            return db.contents[i].has_test_code;
        }
        i += 1;
    }
    false
}

} // verus!

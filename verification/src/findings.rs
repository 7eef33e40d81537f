//! Laws on looking things up: where a path lies, how many files a directory has, and
//! which symbols a query finds, each said without following how it is worked out.
use vstd::prelude::*;
use crate::content::{ContentModel, SymbolModel};
use crate::files;
use crate::files::FileModel;
use crate::index::IndexModel;
use crate::lookup;
use crate::lookup::{SymbolQuery, SymbolSelector};
use crate::paths;
use crate::scoped;
use crate::tree;

verus! {

/// The parent of a path is what stands before its last separator, or the root where
/// it has none.
pub proof fn parents_stand_before_the_last_separator(p: Seq<char>, k: int)
    requires
        -1 <= k < p.len(),
        k >= 0 ==> p[k] == '/',
        forall|j: int| k < j < p.len() ==> #[trigger] p[j] != '/',
    ensures
        paths::parent(p) == if k >= 0 {
            p.take(k)
        } else {
            Seq::empty()
        },
    decreases p.len(),
{
    if p.len() == 0 {
        assert(p =~= Seq::empty());
    } else if p.last() == '/' {
        assert(k == p.len() - 1);
        assert(p.drop_last() =~= p.take(k));
    } else {
        let q = p.drop_last();
        assert forall|j: int| k < j < q.len() implies #[trigger] q[j] != '/' by {
            assert(q[j] == p[j]);
        }
        assert(k < q.len());
        parents_stand_before_the_last_separator(q, k);
        if k >= 0 {
            assert(q.take(k) =~= p.take(k));
        }
    }
}

proof fn last_separator(p: Seq<char>) -> (k: int)
    ensures
        -1 <= k < p.len(),
        k >= 0 ==> p[k] == '/',
        forall|j: int| k < j < p.len() ==> #[trigger] p[j] != '/',
    decreases p.len(),
{
    if p.len() == 0 {
        -1
    } else if p.last() == '/' {
        p.len() - 1
    } else {
        let q = p.drop_last();
        let k = last_separator(q);
        assert forall|j: int| k < j < p.len() implies #[trigger] p[j] != '/' by {
            if j < q.len() {
                assert(q[j] == p[j]);
            }
        }
        k
    }
}

/// A path lies in a directory if and only if the directory is the root or the path
/// itself, or the path goes on behind it with a separator.
pub proof fn paths_lie_in_what_they_begin_with(p: Seq<char>, d: Seq<char>)
    ensures
        paths::within(p, d) <==> d.len() == 0 || p == d || (p.len() > d.len() && p.take(
            d.len() as int,
        ) == d && p[d.len() as int] == '/'),
    decreases p.len(),
{
    if d.len() == 0 {
        assert(d =~= Seq::empty());
        paths::within_root(p);
    } else {
        if paths::within(p, d) && p != d {
            paths::within_is_prefixed(p, d);
        }
        if p.len() > d.len() && p.take(d.len() as int) == d && p[d.len() as int] == '/' {
            let n = d.len() as int;
            let k = last_separator(p);
            parents_stand_before_the_last_separator(p, k);
            paths::parent_is_shorter(p);
            let q = paths::parent(p);
            assert(k >= n);
            if k == n {
                assert(q == d);
                assert(paths::within(q, d));
            } else {
                assert(q.take(n) =~= p.take(n));
                assert(q[n] == p[n]);
                paths_lie_in_what_they_begin_with(q, d);
            }
        }
    }
}

/// The rows of the files that lie directly in the directory and that nobody generated,
/// by their places.
pub open spec fn files_in(rows: Seq<FileModel>, dir: Seq<char>) -> Set<int> {
    Set::new(
        |i: int| 0 <= i < rows.len() && !rows[i].generated && paths::parent(rows[i].path) == dir,
    )
}

/// A directory has as many files as there are such rows.
pub proof fn files_are_counted(rows: Seq<FileModel>, dir: Seq<char>)
    ensures
        files_in(rows, dir).finite(),
        tree::file_count(rows, dir) == files_in(rows, dir).len(),
    decreases rows.len(),
{
    let all = files_in(rows, dir);
    if rows.len() == 0 {
        assert(all =~= Set::empty());
    } else {
        let rest = rows.drop_last();
        let n = rows.len() - 1;
        files_are_counted(rest, dir);
        let before = files_in(rest, dir);
        assert forall|i: int| 0 <= i < n implies rest[i] == rows[i] by {}
        if !rows.last().generated && paths::parent(rows.last().path) == dir {
            assert(all =~= before.insert(n));
        } else {
            assert(all =~= before);
        }
    }
}

/// The reader sees a row that the content belongs to, and it is generated or not as is
/// said.
pub open spec fn has_row(db: IndexModel, c: ContentModel, generated: bool) -> bool {
    exists|i: int|
        0 <= i < db.files.len() && (#[trigger] db.files[i]).repo_id == c.repo_id
            && db.files[i].path == c.path && db.files[i].commit_sha == c.commit_sha
            && db.files[i].worktree_id == c.worktree_id && db.files[i].generation == c.generation
            && db.files[i].generated == generated && files::is_visible(
            db.files,
            db.files[i],
            db.scope(),
        )
}

/// The symbol is what was asked for: it has the name, the name with its path, or the
/// number.
pub open spec fn is_meant(q: SymbolQuery, s: SymbolModel) -> bool {
    match q {
        SymbolQuery::Name(name) => name@ == s.name,
        SymbolQuery::Path(name) => name@ == s.qualified_name,
        SymbolQuery::Id(id) => id == s.id,
    }
}

/// The symbol at the place answers the selector.
pub open spec fn answers(
    db: IndexModel,
    q: SymbolSelector,
    with_generated: bool,
    i: int,
    j: int,
) -> bool {
    &&& 0 <= i < db.contents.len()
    &&& 0 <= j < db.contents[i].symbols.len()
    &&& is_meant(q.query, db.contents[i].symbols[j])
    &&& (match q.language {
        None => true,
        Some(l) => l == db.contents[i].language,
    })
    &&& has_row(db, db.contents[i], false) || ((with_generated || q.query is Id) && has_row(
        db,
        db.contents[i],
        true,
    ))
}

proof fn file_hits_are_those(
    c: ContentModel,
    q: SymbolQuery,
    k: nat,
    x: (u64, Seq<char>, Seq<char>),
)
    requires
        k <= c.symbols.len(),
    ensures
        lookup::hits_in(c, q, k).contains(x) <==> exists|j: int|
            0 <= j < k && is_meant(q, #[trigger] c.symbols[j]) && x == (
                c.symbols[j].id,
                c.path,
                c.symbols[j].qualified_name,
            ),
    decreases k,
{
    if k > 0 {
        let n = (k - 1) as nat;
        file_hits_are_those(c, q, n, x);
        let (rest, now) = (lookup::hits_in(c, q, n), lookup::hits_in(c, q, k));
        let s = c.symbols[k - 1];
        assert(is_meant(q, s) == lookup::asks_for(q, s));
        if rest.contains(x) {
            let a = choose|a: int| 0 <= a < rest.len() && rest[a] == x;
            assert(now[a] == x);
        }
        if now.len() > rest.len() {
            assert(now[now.len() - 1] == (s.id, c.path, s.qualified_name));
        }
        if now.contains(x) && !rest.contains(x) {
            let a = choose|a: int| 0 <= a < now.len() && now[a] == x;
            if a < rest.len() {
                assert(rest[a] == x);
            }
            assert(is_meant(q, c.symbols[k - 1]));
        }
    }
}

proof fn hits_below_are_those(
    db: IndexModel,
    q: SymbolSelector,
    with_generated: bool,
    k: nat,
    x: (u64, Seq<char>, Seq<char>),
)
    requires
        k <= db.contents.len(),
    ensures
        lookup::hits_below(db, q, with_generated, k).contains(x) <==> exists|i: int, j: int|
            i < k && #[trigger] answers(db, q, with_generated, i, j) && x == hit_at(db, i, j),
    decreases k,
{
    if k > 0 {
        let n = (k - 1) as nat;
        let i = k - 1;
        let c = db.contents[i];
        hits_below_are_those(db, q, with_generated, n, x);
        file_hits_are_those(c, q.query, c.symbols.len(), x);
        let rest = lookup::hits_below(db, q, with_generated, n);
        let own = lookup::hits_in(c, q.query, c.symbols.len());
        let now = lookup::hits_below(db, q, with_generated, k);
        rows_are_seen(db, c);
        if rest.contains(x) {
            let a = choose|a: int| 0 <= a < rest.len() && rest[a] == x;
            assert(now[a] == x);
        }
        if lookup::looks_at(db, c, q, with_generated) {
            assert(now == rest + own);
            if own.contains(x) {
                let a = choose|a: int| 0 <= a < own.len() && own[a] == x;
                assert(now[rest.len() + a] == x);
                let j = choose|j: int|
                    0 <= j < c.symbols.len() && is_meant(q.query, #[trigger] c.symbols[j]) && x == (
                        c.symbols[j].id,
                        c.path,
                        c.symbols[j].qualified_name,
                    );
                assert(answers(db, q, with_generated, i, j));
            }
            if now.contains(x) && !rest.contains(x) {
                let a = choose|a: int| 0 <= a < now.len() && now[a] == x;
                if a < rest.len() {
                    assert(rest[a] == x);
                }
                assert(own[a - rest.len()] == x);
            }
        }
        if exists|a: int, j: int|
            a < k && #[trigger] answers(db, q, with_generated, a, j) && x == hit_at(db, a, j) {
            let (a, j) = choose|a: int, j: int|
                a < k && #[trigger] answers(db, q, with_generated, a, j) && x == hit_at(db, a, j);
            if a == i {
                assert(lookup::looks_at(db, c, q, with_generated));
                assert(is_meant(q.query, c.symbols[j]));
            } else {
                assert(a < n && answers(db, q, with_generated, a, j));
            }
        }
    }
}

proof fn rows_are_seen(db: IndexModel, c: ContentModel)
    ensures
        scoped::is_seen(db, c, false) == has_row(db, c, false),
        scoped::is_seen(db, c, true) == has_row(db, c, true),
{
}

/// What is told of the symbol at the place.
pub open spec fn hit_at(db: IndexModel, i: int, j: int) -> (u64, Seq<char>, Seq<char>) {
    (
        db.contents[i].symbols[j].id,
        db.contents[i].path,
        db.contents[i].symbols[j].qualified_name,
    )
}

/// A query finds a symbol if and only if it answers: of the language that is asked for,
/// with the name or number, and in a file that a reader sees, a generated one only where
/// those are asked for or a number is.
pub proof fn queries_find_what_answers(
    db: IndexModel,
    q: SymbolSelector,
    with_generated: bool,
    x: (u64, Seq<char>, Seq<char>),
)
    ensures
        lookup::hits_below(db, q, with_generated, db.contents.len()).contains(x) <==> exists|
            i: int,
            j: int,
        | #[trigger]
            answers(db, q, with_generated, i, j) && x == hit_at(db, i, j),
{
    hits_below_are_those(db, q, with_generated, db.contents.len(), x);
}

} // verus!

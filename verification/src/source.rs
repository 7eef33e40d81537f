//! The files of a checkout: what an index is built from.
use vstd::prelude::*;
use crate::order;
use crate::text;
use crate::text::{comes_before, same_text};

verus! {

/// One file of a checkout. The path is taken as it is spelled: a backslash in
/// it is part of a name, not a separator.
pub struct SourceFile {
    pub path: String,
    pub text: String,
}

/// The paths and texts of files, as plain values.
pub open spec fn source_models(rows: Seq<SourceFile>) -> Seq<(Seq<char>, Seq<char>)> {
    rows.map_values(|r: SourceFile| (r.path@, r.text@))
}

/// The files of a checkout.
pub struct SourceTree {
    pub files: Vec<SourceFile>,
}

impl View for SourceTree {
    type V = Seq<(Seq<char>, Seq<char>)>;

    open spec fn view(&self) -> Seq<(Seq<char>, Seq<char>)> {
        source_models(self.files@)
    }
}

/// The text of the file at the path.
pub open spec fn text_in(files: Seq<(Seq<char>, Seq<char>)>, path: Seq<char>) -> Option<Seq<char>>
    decreases files.len(),
{
    if files.len() == 0 {
        None
    } else if files.last().0 == path {
        Some(files.last().1)
    } else {
        text_in(files.drop_last(), path)
    }
}

/// The files with the text in place of what stands at the path.
pub open spec fn overwritten(
    files: Seq<(Seq<char>, Seq<char>)>,
    path: Seq<char>,
    text: Seq<char>,
) -> Seq<(Seq<char>, Seq<char>)> {
    files.map_values(
        |f: (Seq<char>, Seq<char>)|
            if f.0 == path {
                (path, text)
            } else {
                f
            },
    )
}

/// The order in which files are kept: that of their paths.
pub open spec fn by_path() -> spec_fn((Seq<char>, Seq<char>), (Seq<char>, Seq<char>)) -> bool {
    |a: (Seq<char>, Seq<char>), b: (Seq<char>, Seq<char>)| text::before(a.0, b.0)
}

/// The files after the one at the path has been given the text. A file that was
/// not there goes where its path belongs.
pub open spec fn written(
    files: Seq<(Seq<char>, Seq<char>)>,
    path: Seq<char>,
    text: Seq<char>,
) -> Seq<(Seq<char>, Seq<char>)> {
    if text_in(files, path) is Some {
        overwritten(files, path, text)
    } else {
        order::placed(files, (path, text), by_path())
    }
}

/// The files without the one at the path.
pub open spec fn removed(files: Seq<(Seq<char>, Seq<char>)>, path: Seq<char>) -> Seq<
    (Seq<char>, Seq<char>),
> {
    files.filter(|f: (Seq<char>, Seq<char>)| f.0 != path)
}

/// What was written is read, and the other files are as they were.
pub proof fn write_is_read_back(
    files: Seq<(Seq<char>, Seq<char>)>,
    path: Seq<char>,
    text: Seq<char>,
    other: Seq<char>,
)
    ensures
        text_in(written(files, path, text), path) == Some(text),
        other != path ==> text_in(written(files, path, text), other) == text_in(files, other),
{
    if text_in(files, path) is Some {
        write_over(files, path, text, other);
    } else {
        write_between(files, path, text, other);
    }
}

proof fn text_in_halves(
    a: Seq<(Seq<char>, Seq<char>)>,
    b: Seq<(Seq<char>, Seq<char>)>,
    path: Seq<char>,
)
    ensures
        text_in(a + b, path) == match text_in(b, path) {
            Some(t) => Some(t),
            None => text_in(a, path),
        },
    decreases b.len(),
{
    if b.len() == 0 {
        assert(a + b =~= a);
    } else {
        assert((a + b).drop_last() =~= a + b.drop_last());
        text_in_halves(a, b.drop_last(), path);
    }
}

proof fn write_between(
    files: Seq<(Seq<char>, Seq<char>)>,
    path: Seq<char>,
    text: Seq<char>,
    other: Seq<char>,
)
    requires
        text_in(files, path) is None,
    ensures
        text_in(order::placed(files, (path, text), by_path()), path) == Some(text),
        other != path ==> text_in(order::placed(files, (path, text), by_path()), other) == text_in(
            files,
            other,
        ),
    decreases files.len(),
{
    let x = (path, text);
    let one = seq![x];
    assert(one.drop_last() =~= Seq::empty());
    assert(text_in(one, path) == Some(text));
    assert(text_in(one.drop_last(), other) is None);
    assert(other != path ==> text_in(one, other) is None);
    if files.len() > 0 {
        let first = seq![files[0]];
        let rest = files.drop_first();
        assert(first + rest =~= files);
        text_in_halves(first, rest, path);
        text_in_halves(first, rest, other);
        if text::before(path, files[0].0) {
            text_in_halves(one, files, path);
            text_in_halves(one, files, other);
        } else {
            write_between(rest, path, text, other);
            text_in_halves(first, order::placed(rest, x, by_path()), path);
            text_in_halves(first, order::placed(rest, x, by_path()), other);
        }
    }
}

proof fn paths_are_ordered()
    ensures
        order::strict_weak(by_path(), Set::full()),
{
    assert forall|a: (Seq<char>, Seq<char>), b: (Seq<char>, Seq<char>)| #[trigger]
        by_path()(a, b) implies !by_path()(b, a) by {
        if by_path()(b, a) {
            text::before_transitive(a.0, b.0, a.0);
            text::before_irreflexive(a.0);
        }
    }
    assert forall|
        a: (Seq<char>, Seq<char>),
        b: (Seq<char>, Seq<char>),
        c: (Seq<char>, Seq<char>),
    |
        !#[trigger] by_path()(a, b) && !#[trigger] by_path()(b, c) implies !by_path()(a, c) by {
        text::before_total(a.0, b.0);
        text::before_total(b.0, c.0);
        if by_path()(a, c) {
            if a.0 != b.0 {
                text::before_transitive(b.0, a.0, c.0);
            }
        }
    }
}

/// Files that stand in the order of their paths still do after a write.
pub proof fn writes_keep_the_order(
    files: Seq<(Seq<char>, Seq<char>)>,
    path: Seq<char>,
    text: Seq<char>,
)
    requires
        order::is_ranked(files, by_path()),
    ensures
        order::is_ranked(written(files, path, text), by_path()),
{
    let w = written(files, path, text);
    if text_in(files, path) is Some {
        assert forall|i: int, j: int| 0 <= i < j < w.len() implies !by_path()(
            #[trigger] w[j],
            #[trigger] w[i],
        ) by {
            assert(!by_path()(files[j], files[i]));
            assert(w[i].0 == files[i].0 && w[j].0 == files[j].0);
        }
    } else {
        paths_are_ordered();
        order::placed_is_ranked(files, (path, text), by_path(), Set::full());
    }
}

proof fn write_over(
    files: Seq<(Seq<char>, Seq<char>)>,
    path: Seq<char>,
    text: Seq<char>,
    other: Seq<char>,
)
    ensures
        text_in(files, path) is Some ==> text_in(overwritten(files, path, text), path) == Some(
            text,
        ),
        other != path ==> text_in(overwritten(files, path, text), other) == text_in(files, other),
    decreases files.len(),
{
    if files.len() > 0 {
        write_over(files.drop_last(), path, text, other);
        assert(overwritten(files, path, text).drop_last() =~= overwritten(
            files.drop_last(),
            path,
            text,
        ));
    }
}

/// A file that was removed is not read, and the others are as they were.
pub proof fn removal_is_seen(
    files: Seq<(Seq<char>, Seq<char>)>,
    path: Seq<char>,
    other: Seq<char>,
)
    ensures
        text_in(removed(files, path), path) is None,
        other != path ==> text_in(removed(files, path), other) == text_in(files, other),
    decreases files.len(),
{
    reveal(Seq::filter);
    if files.len() > 0 {
        removal_is_seen(files.drop_last(), path, other);
        let rest = removed(files.drop_last(), path);
        if files.last().0 != path {
            assert(removed(files, path) =~= rest.push(files.last()));
            assert(removed(files, path).drop_last() =~= rest);
        }
    }
}

/// No path occurs twice.
pub open spec fn paths_are_unique(files: Seq<(Seq<char>, Seq<char>)>) -> bool {
    forall|i: int, j: int|
        0 <= i < j < files.len() ==> (#[trigger] files[i]).0 != (#[trigger] files[j]).0
}

/// Of a path that is not read, no file is listed.
pub proof fn absent_paths_are_not_listed(
    files: Seq<(Seq<char>, Seq<char>)>,
    path: Seq<char>,
    i: int,
)
    requires
        text_in(files, path) is None,
        0 <= i < files.len(),
    ensures
        files[i].0 != path,
    decreases files.len(),
{
    if i < files.len() - 1 {
        absent_paths_are_not_listed(files.drop_last(), path, i);
    }
}

/// Taking files away leaves the paths unique.
pub proof fn fewer_paths_are_unique(
    files: Seq<(Seq<char>, Seq<char>)>,
    keep: spec_fn((Seq<char>, Seq<char>)) -> bool,
)
    requires
        paths_are_unique(files),
    ensures
        paths_are_unique(files.filter(keep)),
    decreases files.len(),
{
    reveal(Seq::filter);
    if files.len() > 0 {
        let t = files.drop_last();
        assert forall|i: int, j: int| 0 <= i < j < t.len() implies (#[trigger] t[i]).0 != (
        #[trigger] t[j]).0 by {
            assert(t[i] == files[i] && t[j] == files[j]);
        }
        fewer_paths_are_unique(t, keep);
        if keep(files.last()) {
            let rest = t.filter(keep);
            assert forall|i: int| 0 <= i < rest.len() implies (#[trigger] rest[i]).0
                != files.last().0 by {
                assert(rest.contains(rest[i]));
                t.lemma_filter_contains_rev(keep, rest[i]);
                let k = choose|k: int| 0 <= k < t.len() && t[k] == rest[i];
                assert(files[k].0 != files[files.len() - 1].0);
            }
        }
    }
}

proof fn where_placed<T>(s: Seq<T>, x: T, precedes: spec_fn(T, T) -> bool) -> (k: int)
    ensures
        0 <= k <= s.len(),
        order::placed(s, x, precedes) == s.insert(k, x),
    decreases s.len(),
{
    if s.len() == 0 {
        assert(s.insert(0, x) =~= seq![x]);
        0
    } else if precedes(x, s[0]) {
        assert(s.insert(0, x) =~= seq![x] + s);
        0
    } else {
        let k = where_placed(s.drop_first(), x, precedes);
        assert(s.insert(k + 1, x) =~= seq![s[0]] + s.drop_first().insert(k, x));
        k + 1
    }
}

proof fn removing_keeps_unique(files: Seq<(Seq<char>, Seq<char>)>, path: Seq<char>)
    requires
        paths_are_unique(files),
    ensures
        paths_are_unique(removed(files, path)),
    decreases files.len(),
{
    reveal(Seq::filter);
    if files.len() > 0 {
        let t = files.drop_last();
        assert forall|i: int, j: int| 0 <= i < j < t.len() implies (#[trigger] t[i]).0 != (
        #[trigger] t[j]).0 by {
            assert(t[i] == files[i] && t[j] == files[j]);
        }
        removing_keeps_unique(t, path);
        let rest = removed(t, path);
        if files.last().0 != path {
            assert(removed(files, path) =~= rest.push(files.last()));
            assert forall|i: int| 0 <= i < rest.len() implies (#[trigger] rest[i]).0
                != files.last().0 by {
                removed_is_listed(t, path, i);
                let k = choose|k: int| 0 <= k < t.len() && t[k] == rest[i];
                assert(files[k].0 != files[files.len() - 1].0);
            }
        }
    }
}

proof fn removed_is_listed(files: Seq<(Seq<char>, Seq<char>)>, path: Seq<char>, i: int)
    requires
        0 <= i < removed(files, path).len(),
    ensures
        files.contains(removed(files, path)[i]),
    decreases files.len(),
{
    reveal(Seq::filter);
    if files.len() > 0 {
        let t = files.drop_last();
        let rest = removed(t, path);
        if files.last().0 != path {
            assert(removed(files, path) =~= rest.push(files.last()));
        }
        if i < rest.len() {
            removed_is_listed(t, path, i);
            let k = choose|k: int| 0 <= k < t.len() && t[k] == rest[i];
            assert(files[k] == rest[i]);
        } else {
            assert(files[files.len() - 1] == removed(files, path)[i]);
        }
    }
}

/// Writing and removing leave the paths unique.
pub proof fn paths_stay_unique(
    files: Seq<(Seq<char>, Seq<char>)>,
    path: Seq<char>,
    text: Seq<char>,
)
    requires
        paths_are_unique(files),
    ensures
        paths_are_unique(written(files, path, text)),
        paths_are_unique(removed(files, path)),
{
    removing_keeps_unique(files, path);
    if text_in(files, path) is None {
        assert forall|i: int| 0 <= i < files.len() implies (#[trigger] files[i]).0 != path by {
            absent_paths_are_not_listed(files, path, i);
        }
        let k = where_placed(files, (path, text), by_path());
        let w = written(files, path, text);
        assert forall|i: int, j: int| 0 <= i < j < w.len() implies (#[trigger] w[i]).0 != (
        #[trigger] w[j]).0 by {
            let a = if i < k {
                i
            } else {
                i - 1
            };
            let b = if j < k {
                j
            } else {
                j - 1
            };
            assert(i != k ==> w[i] == files[a]);
            assert(j != k ==> w[j] == files[b]);
        }
    } else {
        let w = written(files, path, text);
        assert forall|i: int, j: int| 0 <= i < j < w.len() implies (#[trigger] w[i]).0 != (
        #[trigger] w[j]).0 by {
            assert(w[i].0 == files[i].0 && w[j].0 == files[j].0);
        }
    }
}

impl SourceTree {
    /// A checkout without files.
    pub fn new() -> (r: SourceTree)
        ensures
            r@ == Seq::<(Seq<char>, Seq<char>)>::empty(),
    {
        let r = SourceTree { files: Vec::new() };
        assert(r@ =~= Seq::empty());
        r
    }

    fn find(&self, path: &str) -> (r: Option<usize>)
        ensures
            match r {
                Some(i) => i < self.files.len() && self@[i as int].0 == path@ && text_in(
                    self@,
                    path@,
                ) == Some(self@[i as int].1),
                None => text_in(self@, path@) is None,
            },
    {
        let mut i: usize = self.files.len();
        assert(self@.take(i as int) =~= self@);
        while i > 0
            invariant
                i <= self.files.len(),
                text_in(self@, path@) == text_in(self@.take(i as int), path@),
            decreases i,
        {
            proof {
                assert(self@.take(i as int).last() == self@[i - 1]);
                assert(self@.take(i as int).drop_last() =~= self@.take(i - 1));
            }
            i -= 1;
            if same_text(self.files[i].path.as_str(), path) {
                return Some(i);
            }
        }
        None
    }

    /// The text of the file at the path, if there is one.
    pub fn read(&self, path: &str) -> (r: Option<String>)
        ensures
            match r {
                Some(text) => text_in(self@, path@) == Some(text@),
                None => text_in(self@, path@) is None,
            },
    {
        match self.find(path) {
            Some(i) => Some(self.files[i].text.clone()),
            None => None,
        }
    }

    /// Gives the file at the path the text, and makes it where there is none.
    pub fn write(&mut self, path: &str, text: &str)
        ensures
            final(self)@ == written(old(self)@, path@, text@),
    {
        let ghost before = self@;
        let row = SourceFile { path: path.to_owned(), text: text.to_owned() };
        if self.find(path).is_none() {
            let mut k: usize = 0;
            while k < self.files.len() && !comes_before(path, self.files[k].path.as_str())
                invariant
                    k <= self.files.len(),
                    self@ == before,
                    forall|i: int|
                        0 <= i < k ==> !by_path()((path@, text@), #[trigger] before[i]),
                decreases self.files.len() - k,
            {
                assert(before[k as int].0 == self.files@[k as int].path@);
                k += 1;
            }
            proof {
                if k < self.files.len() {
                    assert(before[k as int].0 == self.files@[k as int].path@);
                }
                order::placed_at(before, (path@, text@), by_path(), k as int);
            }
            self.files.insert(k, row);
            assert(self@ =~= before.insert(k as int, (path@, text@)));
            return;
        }
        let mut i: usize = 0;
        while i < self.files.len()
            invariant
                i <= self.files.len(),
                before == old(self)@,
                self@.len() == before.len(),
                text_in(before, path@) is Some,
                self@ =~= written(before, path@, text@).take(i as int) + before.skip(i as int),
            decreases self.files.len() - i,
        {
            let ghost now = self@;
            let ghost goal = written(before, path@, text@);
            assert(now[i as int] == before[i as int]);
            if same_text(self.files[i].path.as_str(), path) {
                let new_row = SourceFile { path: path.to_owned(), text: text.to_owned() };
                self.files.set(i, new_row);
                assert(self@ =~= now.update(i as int, (path@, text@)));
            }
            assert(self@[i as int] == goal[i as int]);
            i += 1;
        }
    }

    /// Takes the file at the path away.
    pub fn remove(&mut self, path: &str)
        ensures
            final(self)@ == removed(old(self)@, path@),
    {
        let ghost before = self@;
        let ghost other = |f: (Seq<char>, Seq<char>)| f.0 != path@;
        let ghost mut done: int = 0;
        let mut i: usize = 0;
        proof {
            reveal(Seq::filter);
            assert(before.take(0).filter(other) =~= Seq::empty());
        }
        while i < self.files.len()
            invariant
                0 <= done <= before.len(),
                i <= self.files.len(),
                before == old(self)@,
                self@.len() - i == before.len() - done,
                self@.take(i as int) == before.take(done).filter(other),
                self@.skip(i as int) =~= before.skip(done),
                other == (|f: (Seq<char>, Seq<char>)| f.0 != path@),
            decreases before.len() - done,
        {
            let ghost now = self@;
            proof {
                reveal(Seq::filter);
                assert(now.skip(i as int)[0] == before.skip(done)[0]);
                assert(before.take(done + 1).drop_last() =~= before.take(done));
                assert(before.take(done + 1).last() == now[i as int]);
                assert(now.skip(i + 1) =~= now.skip(i as int).skip(1));
                assert(before.skip(done + 1) =~= before.skip(done).skip(1));
            }
            if same_text(self.files[i].path.as_str(), path) {
                let _ = self.files.remove(i);
                proof {
                    assert(self@ =~= now.remove(i as int));
                    assert(self@.take(i as int) =~= now.take(i as int));
                    assert(self@.skip(i as int) =~= now.skip(i + 1));
                    assert(now.skip(i + 1) =~= before.skip(done + 1));
                }
            } else {
                proof {
                    assert(now.take(i + 1) =~= now.take(i as int).push(now[i as int]));
                    assert(now.skip(i + 1) =~= before.skip(done + 1));
                }
                i += 1;
            }
            proof {
                done = done + 1;
            }
        }
        assert(before.take(done) =~= before);
        assert(self@.take(i as int) =~= self@);
    }
}

} // verus!

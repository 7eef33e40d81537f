//! An outline of the directories worth showing: those with enough files or a
//! note of their own, the directories that lead to them, and nothing else.
use vstd::prelude::*;
use crate::files;
use crate::files::{FileModel, FileRow};
use crate::memory;
use crate::memory::{title_of_dir, MemoryModel, MemoryStore};
use crate::paths;
use crate::paths::{depth_of, is_empty_text, parent_of};
use crate::text;
use crate::text::comes_before;

verus! {

/// What to show: how deep a directory may lie, how many files it needs, and how
/// many directories are shown at most.
#[derive(Clone, Copy)]
pub struct TreeOpts {
    pub max_depth: usize,
    pub min_files: usize,
    pub max_nodes: usize,
}

impl Default for TreeOpts {
    fn default() -> (r: Self)
        ensures
            r.max_depth == 6,
            r.min_files == 3,
            r.max_nodes == 30,
    {
        TreeOpts { max_depth: 6, min_files: 3, max_nodes: 30 }
    }
}

/// A directory that takes part: its own files, those further down not counted,
/// and the title of the note bound to it.
pub struct DirEntry {
    pub path: String,
    pub file_count: usize,
    pub memory_title: Option<String>,
}

/// What a [`DirEntry`] holds, as plain values.
#[verifier::ext_equal]
pub struct DirModel {
    pub path: Seq<char>,
    pub file_count: nat,
    pub memory_title: Option<Seq<char>>,
}

impl View for DirEntry {
    type V = DirModel;

    open spec fn view(&self) -> DirModel {
        DirModel {
            path: self.path@,
            file_count: self.file_count as nat,
            memory_title: memory::optional_text(self.memory_title),
        }
    }
}

pub open spec fn dir_models(rows: Seq<DirEntry>) -> Seq<DirModel> {
    rows.map_values(|r: DirEntry| r@)
}

/// A shown directory. Where it stands for a chain of directories, `path` is the
/// first of them and `label` leads to the last.
#[derive(Debug)]
pub struct TreeNode {
    pub path: String,
    pub label: String,
    pub depth: usize,
    pub file_count: usize,
    pub memory_title: Option<String>,
}

/// What a [`TreeNode`] holds, as plain values.
#[verifier::ext_equal]
pub struct NodeModel {
    pub path: Seq<char>,
    pub label: Seq<char>,
    pub depth: nat,
    pub file_count: nat,
    pub memory_title: Option<Seq<char>>,
}

impl View for TreeNode {
    type V = NodeModel;

    open spec fn view(&self) -> NodeModel {
        NodeModel {
            path: self.path@,
            label: self.label@,
            depth: self.depth as nat,
            file_count: self.file_count as nat,
            memory_title: memory::optional_text(self.memory_title),
        }
    }
}

pub open spec fn node_models(rows: Seq<TreeNode>) -> Seq<NodeModel> {
    rows.map_values(|r: TreeNode| r@)
}

/// The outline, with the title of the note bound to the root and how many
/// directories were left out for want of room.
#[derive(Debug)]
pub struct DirTree {
    pub root_memory_title: Option<String>,
    pub nodes: Vec<TreeNode>,
    pub truncated: usize,
}

/// How many files that are not generated lie directly in the directory.
pub open spec fn file_count(rows: Seq<FileModel>, dir: Seq<char>) -> nat
    decreases rows.len(),
{
    if rows.len() == 0 {
        0
    } else {
        file_count(rows.drop_last(), dir) + if !rows.last().generated && paths::parent(
            rows.last().path,
        ) == dir {
            1nat
        } else {
            0
        }
    }
}

/// The directory is worth showing for its own sake: not too deep, and with
/// enough files or a note.
pub open spec fn qualifies(
    rows: Seq<FileModel>,
    memories: Seq<MemoryModel>,
    opts: TreeOpts,
    dir: Seq<char>,
) -> bool {
    &&& dir.len() > 0
    &&& paths::depth(dir) <= opts.max_depth
    &&& (file_count(rows, dir) >= 1 && file_count(rows, dir) >= opts.min_files)
        || memory::dir_title(memories, dir) is Some
}

/// The directory takes part: one worth showing is it or lies in it.
pub open spec fn is_included(
    rows: Seq<FileModel>,
    memories: Seq<MemoryModel>,
    opts: TreeOpts,
    dir: Seq<char>,
) -> bool {
    dir.len() > 0 && exists|q: Seq<char>| #[trigger]
        qualifies(rows, memories, opts, q) && paths::within(q, dir)
}

pub open spec fn entry_of(rows: Seq<FileModel>, memories: Seq<MemoryModel>, dir: Seq<char>) -> DirModel {
    DirModel {
        path: dir,
        file_count: file_count(rows, dir),
        memory_title: memory::dir_title(memories, dir),
    }
}

pub open spec fn has_dir(dirs: Seq<DirModel>, dir: Seq<char>) -> bool {
    exists|i: int| 0 <= i < dirs.len() && (#[trigger] dirs[i]).path == dir
}

/// Entries of directories that take part, in path order.
pub open spec fn sound_dirs(
    dirs: Seq<DirModel>,
    rows: Seq<FileModel>,
    memories: Seq<MemoryModel>,
    opts: TreeOpts,
) -> bool {
    &&& forall|i: int|
        0 <= i < dirs.len() ==> is_included(rows, memories, opts, (#[trigger] dirs[i]).path)
            && dirs[i] == entry_of(rows, memories, dirs[i].path)
    &&& forall|i: int, j: int|
        0 <= i < j < dirs.len() ==> text::before(
            (#[trigger] dirs[i]).path,
            (#[trigger] dirs[j]).path,
        )
}

/// Exactly the directories that take part, in path order.
pub open spec fn is_dir_list(
    dirs: Seq<DirModel>,
    rows: Seq<FileModel>,
    memories: Seq<MemoryModel>,
    opts: TreeOpts,
) -> bool {
    &&& sound_dirs(dirs, rows, memories, opts)
    &&& forall|d: Seq<char>| #[trigger]
        is_included(rows, memories, opts, d) ==> has_dir(dirs, d)
}

/// The directories directly in `dir`.
pub open spec fn children(dirs: Seq<DirModel>, dir: Seq<char>) -> Seq<DirModel> {
    dirs.filter(|d: DirModel| paths::parent(d.path) == dir)
}

/// The directory has nothing of its own to show and leads to just one other.
pub open spec fn is_link(dirs: Seq<DirModel>, d: DirModel) -> bool {
    d.file_count == 0 && d.memory_title is None && children(dirs, d.path).len() == 1
}

/// The last directory of the chain that begins at `d`.
pub open spec fn chain_end(dirs: Seq<DirModel>, d: DirModel, levels: nat) -> DirModel
    decreases levels,
{
    if levels > 0 && is_link(dirs, d) {
        chain_end(dirs, children(dirs, d.path)[0], (levels - 1) as nat)
    } else {
        d
    }
}

/// The path as seen from a directory that it lies in.
pub open spec fn label_from(path: Seq<char>, above: Seq<char>) -> Seq<char> {
    if above.len() == 0 {
        path
    } else {
        path.skip((above.len() + 1) as int)
    }
}

/// The nodes of some siblings, each followed by what lies in it. A chain is one
/// node; what lies in it is seen from its end.
pub open spec fn outline(
    dirs: Seq<DirModel>,
    siblings: Seq<DirModel>,
    above: Seq<char>,
    depth: nat,
    levels: nat,
) -> Seq<NodeModel>
    decreases levels, siblings.len(),
{
    if levels == 0 || siblings.len() == 0 {
        Seq::empty()
    } else {
        let d = siblings.last();
        let end = chain_end(dirs, d, levels);
        outline(dirs, siblings.drop_last(), above, depth, levels).push(
            NodeModel {
                path: d.path,
                label: label_from(end.path, above),
                depth,
                file_count: d.file_count,
                memory_title: d.memory_title,
            },
        ) + outline(dirs, children(dirs, end.path), end.path, depth + 1, (levels - 1) as nat)
    }
}

/// The whole outline of the directories that take part.
pub open spec fn full_outline(dirs: Seq<DirModel>, opts: TreeOpts) -> Seq<NodeModel> {
    outline(dirs, children(dirs, Seq::empty()), Seq::empty(), 0, opts.max_depth as nat)
}

fn count_files(rows: &Vec<FileRow>, dir: &str) -> (r: usize)
    ensures
        r == file_count(files::file_models(rows@), dir@),
{
    let ghost all = files::file_models(rows@);
    let wanted = dir.to_owned();
    let mut r: usize = 0;
    let mut i: usize = 0;
    while i < rows.len()
        invariant
            i <= rows.len(),
            all == files::file_models(rows@),
            wanted@ == dir@,
            r == file_count(all.take(i as int), dir@),
            r <= i,
        decreases rows.len() - i,
    {
        proof {
            assert(all.take(i + 1).drop_last() =~= all.take(i as int));
            assert(all.take(i + 1).last() == rows@[i as int]@);
        }
        if !rows[i].generated && parent_of(rows[i].path.as_str()) == wanted {
            r += 1;
        }
        i += 1;
    }
    assert(all.take(i as int) =~= all);
    r
}

proof fn sound_dirs_inserted(
    dirs: Seq<DirModel>,
    d: DirModel,
    k: int,
    rows: Seq<FileModel>,
    memories: Seq<MemoryModel>,
    opts: TreeOpts,
)
    requires
        sound_dirs(dirs, rows, memories, opts),
        is_included(rows, memories, opts, d.path),
        d == entry_of(rows, memories, d.path),
        0 <= k <= dirs.len(),
        forall|i: int| 0 <= i < k ==> text::before((#[trigger] dirs[i]).path, d.path),
        k < dirs.len() ==> text::before(d.path, dirs[k].path),
    ensures
        sound_dirs(dirs.insert(k, d), rows, memories, opts),
        has_dir(dirs.insert(k, d), d.path),
        forall|p: Seq<char>| #[trigger] has_dir(dirs, p) ==> has_dir(dirs.insert(k, d), p),
{
    let r = dirs.insert(k, d);
    assert(r[k] == d);
    assert forall|i: int| 0 <= i < r.len() implies is_included(
        rows,
        memories,
        opts,
        (#[trigger] r[i]).path,
    ) && r[i] == entry_of(rows, memories, r[i].path) by {
        if i < k {
            assert(r[i] == dirs[i]);
        } else if i > k {
            assert(r[i] == dirs[i - 1]);
        }
    }
    assert forall|i: int, j: int| 0 <= i < j < r.len() implies text::before(
        (#[trigger] r[i]).path,
        (#[trigger] r[j]).path,
    ) by {
        if i < k {
            assert(r[i] == dirs[i]);
            if j < k {
                assert(r[j] == dirs[j]);
            } else if j > k {
                assert(r[j] == dirs[j - 1]);
            }
        } else {
            assert(r[j] == dirs[j - 1]);
            if i > k {
                assert(r[i] == dirs[i - 1]);
            } else if j - 1 > k {
                text::before_transitive(d.path, dirs[k].path, dirs[j - 1].path);
            }
        }
    }
    assert forall|p: Seq<char>| #[trigger] has_dir(dirs, p) implies has_dir(r, p) by {
        let m = choose|m: int| 0 <= m < dirs.len() && (#[trigger] dirs[m]).path == p;
        if m < k {
            assert(r[m] == dirs[m]);
        } else {
            assert(r[m + 1] == dirs[m]);
        }
    }
}

/// Adds the entry of a directory that takes part, where it is not there yet.
fn note_dir(
    dirs: &mut Vec<DirEntry>,
    rows: &Vec<FileRow>,
    store: &MemoryStore,
    opts: &TreeOpts,
    dir: &str,
)
    requires
        memory::well_formed(store@),
        sound_dirs(dir_models(old(dirs)@), files::file_models(rows@), store@, *opts),
        is_included(files::file_models(rows@), store@, *opts, dir@),
    ensures
        sound_dirs(dir_models(final(dirs)@), files::file_models(rows@), store@, *opts),
        has_dir(dir_models(final(dirs)@), dir@),
        forall|p: Seq<char>| #[trigger]
            has_dir(dir_models(old(dirs)@), p) ==> has_dir(dir_models(final(dirs)@), p),
{
    let ghost models = dir_models(dirs@);
    let ghost fm = files::file_models(rows@);
    let wanted = dir.to_owned();
    let mut k: usize = 0;
    while k < dirs.len() && comes_before(dirs[k].path.as_str(), dir)
        invariant
            k <= dirs.len(),
            *dirs == *old(dirs),
            models == dir_models(dirs@),
            forall|i: int| 0 <= i < k ==> text::before((#[trigger] models[i]).path, dir@),
        decreases dirs.len() - k,
    {
        assert(models[k as int] == dirs@[k as int]@);
        k += 1;
    }
    if k < dirs.len() {
        assert(models[k as int] == dirs@[k as int]@);
        if dirs[k].path == wanted {
            return ;
        }
        proof {
            text::before_total(dir@, models[k as int].path);
        }
    }
    let entry = DirEntry {
        path: wanted,
        file_count: count_files(rows, dir),
        memory_title: title_of_dir(store, dir),
    };
    proof {
        sound_dirs_inserted(models, entry@, k as int, fm, store@, *opts);
    }
    dirs.insert(k, entry);
    assert(dir_models(dirs@) =~= models.insert(k as int, entry@));
}

/// Adds the entries of a directory worth showing and of all that it lies in.
fn note_with_parents(
    dirs: &mut Vec<DirEntry>,
    rows: &Vec<FileRow>,
    store: &MemoryStore,
    opts: &TreeOpts,
    dir: &str,
)
    requires
        memory::well_formed(store@),
        sound_dirs(dir_models(old(dirs)@), files::file_models(rows@), store@, *opts),
        qualifies(files::file_models(rows@), store@, *opts, dir@),
    ensures
        sound_dirs(dir_models(final(dirs)@), files::file_models(rows@), store@, *opts),
        forall|d: Seq<char>|
            d.len() > 0 && #[trigger] paths::within(dir@, d) ==> has_dir(
                dir_models(final(dirs)@),
                d,
            ),
        forall|p: Seq<char>| #[trigger]
            has_dir(dir_models(old(dirs)@), p) ==> has_dir(dir_models(final(dirs)@), p),
{
    let mut rest: String = dir.to_owned();
    while !is_empty_text(rest.as_str())
        invariant
            memory::well_formed(store@),
            sound_dirs(dir_models(dirs@), files::file_models(rows@), store@, *opts),
            qualifies(files::file_models(rows@), store@, *opts, dir@),
            paths::within(dir@, rest@),
            forall|d: Seq<char>|
                d.len() > 0 && #[trigger] paths::within(dir@, d) ==> has_dir(
                    dir_models(dirs@),
                    d,
                ) || paths::within(rest@, d),
            forall|p: Seq<char>| #[trigger]
                has_dir(dir_models(old(dirs)@), p) ==> has_dir(dir_models(dirs@), p),
        decreases rest@.len(),
    {
        note_dir(dirs, rows, store, opts, rest.as_str());
        let up = parent_of(rest.as_str());
        proof {
            paths::parent_is_shorter(rest@);
            assert(paths::within(rest@, up@)) by {
                reveal_with_fuel(paths::within, 2);
            }
            paths::within_transitive(dir@, rest@, up@);
        }
        rest = up;
    }
}

fn qualifies_for(
    rows: &Vec<FileRow>,
    store: &MemoryStore,
    opts: &TreeOpts,
    dir: &str,
) -> (r: bool)
    requires
        memory::well_formed(store@),
    ensures
        r == qualifies(files::file_models(rows@), store@, *opts, dir@),
{
    if is_empty_text(dir) || depth_of(dir) > opts.max_depth {
        return false;
    }
    let n: usize = count_files(rows, dir);
    (n >= 1 && n >= opts.min_files) || title_of_dir(store, dir).is_some()
}

proof fn file_count_has_witness(rows: Seq<FileModel>, dir: Seq<char>)
    requires
        file_count(rows, dir) >= 1,
    ensures
        exists|i: int| 0 <= i < rows.len() && paths::parent((#[trigger] rows[i]).path) == dir,
    decreases rows.len(),
{
    if !rows.last().generated && paths::parent(rows.last().path) == dir {
        assert(paths::parent(rows[rows.len() - 1].path) == dir);
    } else {
        file_count_has_witness(rows.drop_last(), dir);
        let i = choose|i: int|
            0 <= i < rows.drop_last().len() && paths::parent((#[trigger] rows.drop_last()[i]).path)
                == dir;
        assert(paths::parent(rows[i].path) == dir);
    }
}

proof fn dir_title_has_witness(memories: Seq<MemoryModel>, dir: Seq<char>)
    requires
        memory::dir_title(memories, dir) is Some,
    ensures
        exists|i: int|
            0 <= i < memories.len() && (#[trigger] memories[i]).bindings[0].binding_id == dir,
    decreases memories.len(),
{
    if memories[0].bindings[0].binding_id != dir {
        let rest = memories.drop_first();
        dir_title_has_witness(rest, dir);
        let i = choose|i: int|
            0 <= i < rest.len() && (#[trigger] rest[i]).bindings[0].binding_id == dir;
        assert(memories[i + 1].bindings[0].binding_id == dir);
    }
}

/// The directories that take part, in path order.
pub fn included_dirs(rows: &Vec<FileRow>, store: &MemoryStore, opts: &TreeOpts) -> (r: Vec<
    DirEntry,
>)
    requires
        memory::well_formed(store@),
    ensures
        is_dir_list(dir_models(r@), files::file_models(rows@), store@, *opts),
{
    let ghost fm = files::file_models(rows@);
    let mut dirs: Vec<DirEntry> = Vec::new();
    let mut i: usize = 0;
    while i < rows.len()
        invariant
            i <= rows.len(),
            memory::well_formed(store@),
            fm == files::file_models(rows@),
            sound_dirs(dir_models(dirs@), fm, store@, *opts),
            forall|j: int, d: Seq<char>|
                0 <= j < i && qualifies(fm, store@, *opts, paths::parent(fm[j].path)) && d.len()
                    > 0 && #[trigger] paths::within(paths::parent(fm[j].path), d) ==> has_dir(
                    dir_models(dirs@),
                    d,
                ),
        decreases rows.len() - i,
    {
        assert(fm[i as int] == rows@[i as int]@);
        let dir = parent_of(rows[i].path.as_str());
        if qualifies_for(rows, store, opts, dir.as_str()) {
            note_with_parents(&mut dirs, rows, store, opts, dir.as_str());
        }
        i += 1;
    }
    let mut m: usize = 0;
    while m < store.memories.len()
        invariant
            m <= store.memories.len(),
            memory::well_formed(store@),
            fm == files::file_models(rows@),
            sound_dirs(dir_models(dirs@), fm, store@, *opts),
            forall|j: int, d: Seq<char>|
                0 <= j < fm.len() && qualifies(fm, store@, *opts, paths::parent(fm[j].path))
                    && d.len() > 0 && #[trigger] paths::within(paths::parent(fm[j].path), d)
                    ==> has_dir(dir_models(dirs@), d),
            forall|j: int, d: Seq<char>|
                0 <= j < m && qualifies(fm, store@, *opts, store@[j].bindings[0].binding_id)
                    && d.len() > 0 && #[trigger] paths::within(
                    store@[j].bindings[0].binding_id,
                    d,
                ) ==> has_dir(dir_models(dirs@), d),
        decreases store.memories.len() - m,
    {
        assert(store@[m as int] == store.memories@[m as int]@);
        assert(store@[m as int].bindings[0] == store.memories@[m as int].bindings@[0]@);
        let dir = store.memories[m].bindings[0].binding_id.clone();
        if qualifies_for(rows, store, opts, dir.as_str()) {
            note_with_parents(&mut dirs, rows, store, opts, dir.as_str());
        }
        m += 1;
    }
    proof {
        assert forall|d: Seq<char>| #[trigger] is_included(fm, store@, *opts, d) implies has_dir(
            dir_models(dirs@),
            d,
        ) by {
            let q = choose|q: Seq<char>| #[trigger]
                qualifies(fm, store@, *opts, q) && paths::within(q, d);
            if file_count(fm, q) >= 1 && file_count(fm, q) >= opts.min_files {
                file_count_has_witness(fm, q);
                let j = choose|j: int|
                    0 <= j < fm.len() && paths::parent((#[trigger] fm[j]).path) == q;
                assert(paths::within(paths::parent(fm[j].path), d));
            } else {
                dir_title_has_witness(store@, q);
                let j = choose|j: int|
                    0 <= j < store@.len() && (#[trigger] store@[j]).bindings[0].binding_id == q;
                assert(paths::within(store@[j].bindings[0].binding_id, d));
            }
        }
    }
    dirs
}

/// The entries at some places.
spec fn at_places(dirs: Seq<DirModel>, places: Seq<usize>) -> Seq<DirModel> {
    places.map_values(|i: usize| dirs[i as int])
}

/// The places of the directories directly in `dir`.
fn child_places(dirs: &Vec<DirEntry>, dir: &str) -> (r: Vec<usize>)
    ensures
        at_places(dir_models(dirs@), r@) == children(dir_models(dirs@), dir@),
        forall|i: int|
            0 <= i < r.len() ==> (#[trigger] r@[i]) < dirs.len() && paths::parent(
                dirs@[r@[i] as int].path@,
            ) == dir@,
{
    let ghost all = dir_models(dirs@);
    let ghost fits = |d: DirModel| paths::parent(d.path) == dir@;
    let wanted = dir.to_owned();
    let mut r: Vec<usize> = Vec::new();
    let mut i: usize = 0;
    proof {
        reveal(Seq::filter);
        assert(at_places(all, r@) =~= Seq::empty());
    }
    while i < dirs.len()
        invariant
            i <= dirs.len(),
            all == dir_models(dirs@),
            fits == (|d: DirModel| paths::parent(d.path) == dir@),
            wanted@ == dir@,
            at_places(all, r@) == all.take(i as int).filter(fits),
            forall|j: int|
                0 <= j < r.len() ==> (#[trigger] r@[j]) < dirs.len() && paths::parent(
                    dirs@[r@[j] as int].path@,
                ) == dir@,
        decreases dirs.len() - i,
    {
        proof {
            assert(all.take(i + 1).drop_last() =~= all.take(i as int));
            assert(all.take(i + 1).last() == dirs@[i as int]@);
            reveal(Seq::filter);
        }
        if parent_of(dirs[i].path.as_str()) == wanted {
            let ghost old_r = at_places(all, r@);
            r.push(i);
            assert(at_places(all, r@) =~= old_r.push(all[i as int]));
        }
        i += 1;
    }
    assert(all.take(i as int) =~= all);
    r
}

/// The place of the last directory of the chain that begins at `start`.
fn chain_end_place(dirs: &Vec<DirEntry>, start: usize, levels: usize) -> (r: usize)
    requires
        start < dirs.len(),
    ensures
        r < dirs.len(),
        dirs@[r as int]@ == chain_end(dir_models(dirs@), dirs@[start as int]@, levels as nat),
        paths::within(dirs@[r as int].path@, dirs@[start as int].path@),
{
    let ghost all = dir_models(dirs@);
    let mut at: usize = start;
    let mut left: usize = levels;
    while left > 0
        invariant
            at < dirs.len(),
            start < dirs.len(),
            all == dir_models(dirs@),
            chain_end(all, dirs@[start as int]@, levels as nat) == chain_end(
                all,
                dirs@[at as int]@,
                left as nat,
            ),
            paths::within(dirs@[at as int].path@, dirs@[start as int].path@),
        decreases left,
    {
        let places = child_places(dirs, dirs[at].path.as_str());
        let ghost kids = children(all, dirs@[at as int].path@);
        assert(places@.len() == kids.len()) by {
            assert(at_places(all, places@).len() == places@.len());
        }
        if !(dirs[at].file_count == 0 && dirs[at].memory_title.is_none() && places.len() == 1) {
            return at;
        }
        let next: usize = places[0];
        proof {
            assert(kids[0] == at_places(all, places@)[0]);
            assert(kids[0] == dirs@[next as int]@);
            let p = dirs@[next as int].path@;
            let q = dirs@[at as int].path@;
            assert(paths::parent(p) == q);
            if p.len() > 0 {
                assert(paths::within(p, q)) by {
                    reveal_with_fuel(paths::within, 2);
                }
            } else {
                paths::parent_is_shorter(p);
                assert(p =~= q);
            }
            paths::within_transitive(p, q, dirs@[start as int].path@);
        }
        at = next;
        left = left - 1;
    }
    at
}

/// Adds the nodes of the directories at some places, each followed by what lies
/// in it.
fn add_nodes(
    dirs: &Vec<DirEntry>,
    siblings: &Vec<usize>,
    above: &str,
    depth: usize,
    levels: usize,
    out: &mut Vec<TreeNode>,
)
    requires
        depth + levels <= usize::MAX,
        forall|i: int| 0 <= i < dirs.len() ==> (#[trigger] dirs@[i]).path@.len() > 0,
        forall|i: int|
            0 <= i < siblings.len() ==> (#[trigger] siblings@[i]) < dirs.len() && paths::parent(
                dirs@[siblings@[i] as int].path@,
            ) == above@,
    ensures
        node_models(final(out)@) == node_models(old(out)@) + outline(
            dir_models(dirs@),
            at_places(dir_models(dirs@), siblings@),
            above@,
            depth as nat,
            levels as nat,
        ),
    decreases levels,
{
    let ghost all = dir_models(dirs@);
    let ghost list = at_places(all, siblings@);
    let ghost start = node_models(out@);
    if levels == 0 {
        assert(start + Seq::<NodeModel>::empty() =~= start);
        return ;
    }
    let above_len: usize = above.unicode_len();
    let mut i: usize = 0;
    proof {
        assert(list.take(0) =~= Seq::empty());
        assert(start + Seq::<NodeModel>::empty() =~= start);
    }
    while i < siblings.len()
        invariant
            i <= siblings.len(),
            levels > 0,
            depth + levels <= usize::MAX,
            above_len == above@.len(),
            all == dir_models(dirs@),
            list == at_places(all, siblings@),
            forall|j: int| 0 <= j < dirs.len() ==> (#[trigger] dirs@[j]).path@.len() > 0,
            forall|j: int|
                0 <= j < siblings.len() ==> (#[trigger] siblings@[j]) < dirs.len()
                    && paths::parent(dirs@[siblings@[j] as int].path@) == above@,
            node_models(out@) == start + outline(
                all,
                list.take(i as int),
                above@,
                depth as nat,
                levels as nat,
            ),
        decreases siblings.len() - i,
    {
        let at: usize = siblings[i];
        let end: usize = chain_end_place(dirs, at, levels);
        let ghost d = dirs@[at as int]@;
        let ghost e = dirs@[end as int]@;
        proof {
            assert(paths::within(d.path, above@)) by {
                reveal_with_fuel(paths::within, 2);
            }
            paths::within_transitive(e.path, d.path, above@);
            paths::parent_is_shorter(d.path);
            paths::within_is_longer(e.path, d.path);
            if above@.len() > 0 {
                paths::within_is_prefixed(e.path, above@);
            }
        }
        let end_path: &str = dirs[end].path.as_str();
        let label: String = if above_len == 0 {
            end_path.to_owned()
        } else {
            let n: usize = end_path.unicode_len();
            assert(end_path@.subrange(above_len + 1, n as int) =~= end_path@.skip(above_len + 1));
            end_path.substring_char(above_len + 1, n).to_owned()
        };
        let title: Option<String> = match &dirs[at].memory_title {
            Some(t) => Some(t.clone()),
            None => None,
        };
        let node = TreeNode {
            path: dirs[at].path.clone(),
            label,
            depth,
            file_count: dirs[at].file_count,
            memory_title: title,
        };
        let ghost sofar = node_models(out@);
        out.push(node);
        assert(node_models(out@) =~= sofar.push(node@));
        let places = child_places(dirs, end_path);
        add_nodes(dirs, &places, end_path, depth + 1, levels - 1, out);
        proof {
            assert(list.take(i + 1).drop_last() =~= list.take(i as int));
            assert(list.take(i + 1).last() == d);
            let before = outline(all, list.take(i as int), above@, depth as nat, levels as nat);
            let inner = outline(
                all,
                children(all, e.path),
                e.path,
                depth as nat + 1,
                (levels - 1) as nat,
            );
            assert((start + before).push(node@) + inner =~= start + (before.push(node@) + inner));
        }
        i += 1;
    }
    assert(list.take(i as int) =~= list);
}

/// The outline of the directories of some files and notes.
pub fn dir_tree(rows: &Vec<FileRow>, store: &MemoryStore, opts: &TreeOpts) -> (r: DirTree)
    requires
        memory::well_formed(store@),
    ensures
        memory::optional_text(r.root_memory_title) == memory::dir_title(store@, Seq::empty()),
        exists|dirs: Seq<DirModel>| #[trigger]
            is_dir_list(dirs, files::file_models(rows@), store@, *opts) && ({
                let all = full_outline(dirs, *opts);
                let shown = if all.len() < opts.max_nodes {
                    all.len() as int
                } else {
                    opts.max_nodes as int
                };
                node_models(r.nodes@) == all.take(shown) && r.truncated == all.len() - shown
            }),
{
    let dirs = included_dirs(rows, store, opts);
    let ghost dm = dir_models(dirs@);
    proof {
        assert forall|i: int| 0 <= i < dirs.len() implies (#[trigger] dirs@[i]).path@.len() > 0 by {
            assert(dm[i] == dirs@[i]@);
            assert(is_included(files::file_models(rows@), store@, *opts, dm[i].path));
        }
        reveal_strlit("");
        assert(""@ =~= Seq::<char>::empty());
    }
    let top = child_places(&dirs, "");
    let mut nodes: Vec<TreeNode> = Vec::new();
    add_nodes(&dirs, &top, "", 0, opts.max_depth, &mut nodes);
    let ghost all = full_outline(dm, *opts);
    assert(node_models(nodes@) =~= all);
    let total: usize = nodes.len();
    let truncated: usize = if total > opts.max_nodes {
        nodes.truncate(opts.max_nodes);
        total - opts.max_nodes
    } else {
        0
    };
    proof {
        let shown = if all.len() < opts.max_nodes {
            all.len() as int
        } else {
            opts.max_nodes as int
        };
        assert(node_models(nodes@) =~= all.take(shown));
        assert(is_dir_list(dm, files::file_models(rows@), store@, *opts));
    }
    DirTree { root_memory_title: title_of_dir(store, ""), nodes, truncated }
}

proof fn same_members_same_dirs(d1: Seq<DirModel>, d2: Seq<DirModel>)
    requires
        forall|i: int, j: int|
            0 <= i < j < d1.len() ==> text::before(
                (#[trigger] d1[i]).path,
                (#[trigger] d1[j]).path,
            ),
        forall|i: int, j: int|
            0 <= i < j < d2.len() ==> text::before(
                (#[trigger] d2[i]).path,
                (#[trigger] d2[j]).path,
            ),
        forall|i: int| 0 <= i < d1.len() ==> d2.contains(#[trigger] d1[i]),
        forall|i: int| 0 <= i < d2.len() ==> d1.contains(#[trigger] d2[i]),
    ensures
        d1 == d2,
    decreases d1.len(),
{
    if d1.len() == 0 {
        if d2.len() > 0 {
            assert(d1.contains(d2[0]));
        }
        assert(d1 =~= d2);
    } else {
        assert(d2.contains(d1[0]));
        let m = choose|m: int| 0 <= m < d2.len() && d2[m] == d1[0];
        assert(d1.contains(d2[0]));
        let k = choose|k: int| 0 <= k < d1.len() && d1[k] == d2[0];
        if m > 0 {
            assert(text::before(d2[0].path, d2[m].path));
            if k > 0 {
                assert(text::before(d1[0].path, d1[k].path));
                text::before_transitive(d1[0].path, d2[0].path, d1[0].path);
            }
            text::before_irreflexive(d1[0].path);
        }
        let t1 = d1.drop_first();
        let t2 = d2.drop_first();
        assert forall|i: int, j: int| 0 <= i < j < t1.len() implies text::before(
            (#[trigger] t1[i]).path,
            (#[trigger] t1[j]).path,
        ) by {
            assert(t1[i] == d1[i + 1] && t1[j] == d1[j + 1]);
        }
        assert forall|i: int, j: int| 0 <= i < j < t2.len() implies text::before(
            (#[trigger] t2[i]).path,
            (#[trigger] t2[j]).path,
        ) by {
            assert(t2[i] == d2[i + 1] && t2[j] == d2[j + 1]);
        }
        assert forall|i: int| 0 <= i < t1.len() implies t2.contains(#[trigger] t1[i]) by {
            assert(t1[i] == d1[i + 1]);
            assert(d2.contains(d1[i + 1]));
            let x = choose|x: int| 0 <= x < d2.len() && d2[x] == d1[i + 1];
            assert(text::before(d1[0].path, d1[i + 1].path));
            if x == 0 {
                text::before_irreflexive(d1[0].path);
            }
            assert(t2[x - 1] == t1[i]);
        }
        assert forall|i: int| 0 <= i < t2.len() implies t1.contains(#[trigger] t2[i]) by {
            assert(t2[i] == d2[i + 1]);
            assert(d1.contains(d2[i + 1]));
            let x = choose|x: int| 0 <= x < d1.len() && d1[x] == d2[i + 1];
            assert(text::before(d2[0].path, d2[i + 1].path));
            if x == 0 {
                text::before_irreflexive(d2[0].path);
            }
            assert(t1[x - 1] == t2[i]);
        }
        same_members_same_dirs(t1, t2);
        assert(d1 =~= seq![d1[0]] + t1);
        assert(d2 =~= seq![d2[0]] + t2);
    }
}

/// There is one list of the directories that take part, so an outline is a
/// function of the files, the notes and the options.
pub proof fn dir_list_is_unique(
    d1: Seq<DirModel>,
    d2: Seq<DirModel>,
    rows: Seq<FileModel>,
    memories: Seq<MemoryModel>,
    opts: TreeOpts,
)
    requires
        is_dir_list(d1, rows, memories, opts),
        is_dir_list(d2, rows, memories, opts),
    ensures
        d1 == d2,
{
    assert forall|i: int| 0 <= i < d1.len() implies d2.contains(#[trigger] d1[i]) by {
        assert(is_included(rows, memories, opts, d1[i].path));
        let m = choose|m: int| 0 <= m < d2.len() && (#[trigger] d2[m]).path == d1[i].path;
        assert(d2[m] == d1[i]);
    }
    assert forall|i: int| 0 <= i < d2.len() implies d1.contains(#[trigger] d2[i]) by {
        assert(is_included(rows, memories, opts, d2[i].path));
        let m = choose|m: int| 0 <= m < d1.len() && (#[trigger] d1[m]).path == d2[i].path;
        assert(d1[m] == d2[i]);
    }
    same_members_same_dirs(d1, d2);
}

/// A generated file counts in no directory.
pub proof fn generated_files_do_not_count(rows: Seq<FileModel>, f: FileModel, dir: Seq<char>)
    requires
        f.generated,
    ensures
        file_count(rows.push(f), dir) == file_count(rows, dir),
{
    assert(rows.push(f).drop_last() =~= rows);
}

/// A directory that takes part brings along every directory that it lies in.
pub proof fn parents_take_part(
    rows: Seq<FileModel>,
    memories: Seq<MemoryModel>,
    opts: TreeOpts,
    dir: Seq<char>,
    above: Seq<char>,
)
    requires
        is_included(rows, memories, opts, dir),
        paths::within(dir, above),
        above.len() > 0,
    ensures
        is_included(rows, memories, opts, above),
{
    let q = choose|q: Seq<char>| #[trigger]
        qualifies(rows, memories, opts, q) && paths::within(q, dir);
    paths::within_transitive(q, dir, above);
}

} // verus!

//! Notes about the repository, each bound to a directory or a file.
use vstd::prelude::*;
use crate::files;
use crate::files::{FileModel, FileRow};
use crate::paths;
use crate::paths::{lies_within, parent_of};
use crate::text;
use crate::text::{copy_texts, same_text};

verus! {

/// What a note is to be bound to: a directory, where one is given, else a file.
pub struct RepoMemoryBindTarget {
    pub path: Option<String>,
    pub dir: Option<String>,
}

impl Default for RepoMemoryBindTarget {
    fn default() -> (r: Self)
        ensures
            r.path is None,
            r.dir is None,
    {
        RepoMemoryBindTarget { path: None, dir: None }
    }
}

/// A note to be made.
pub struct RepoMemoryCreate {
    pub kind: String,
    pub title: String,
    pub body: String,
    pub confidence: String,
    pub created_by: Option<String>,
    pub source: Option<String>,
    pub tags: Vec<String>,
    pub bind: RepoMemoryBindTarget,
}

/// What a note is bound to, and whether that is still there.
#[derive(Debug)]
pub struct MemoryBinding {
    pub binding_kind: String,
    pub binding_id: String,
    pub anchor_status: String,
}

/// A note.
#[derive(Debug)]
pub struct RepoMemory {
    pub memory_id: u64,
    pub kind: String,
    pub title: String,
    pub body: String,
    pub confidence: String,
    pub created_by: Option<String>,
    pub source: Option<String>,
    pub tags: Vec<String>,
    pub status: String,
    pub bindings: Vec<MemoryBinding>,
}

/// What a [`MemoryBinding`] holds, as plain values.
#[verifier::ext_equal]
pub struct BindingModel {
    pub binding_kind: Seq<char>,
    pub binding_id: Seq<char>,
    pub anchor_status: Seq<char>,
}

/// What a [`RepoMemory`] holds, as plain values.
#[verifier::ext_equal]
pub struct MemoryModel {
    pub memory_id: u64,
    pub kind: Seq<char>,
    pub title: Seq<char>,
    pub body: Seq<char>,
    pub confidence: Seq<char>,
    pub created_by: Option<Seq<char>>,
    pub source: Option<Seq<char>>,
    pub tags: Seq<Seq<char>>,
    pub status: Seq<char>,
    pub bindings: Seq<BindingModel>,
}

impl View for MemoryBinding {
    type V = BindingModel;

    open spec fn view(&self) -> BindingModel {
        BindingModel {
            binding_kind: self.binding_kind@,
            binding_id: self.binding_id@,
            anchor_status: self.anchor_status@,
        }
    }
}

pub open spec fn binding_models(rows: Seq<MemoryBinding>) -> Seq<BindingModel> {
    rows.map_values(|r: MemoryBinding| r@)
}

/// A text that may be missing.
pub open spec fn optional_text(s: Option<String>) -> Option<Seq<char>> {
    match s {
        Some(t) => Some(t@),
        None => None,
    }
}

impl View for RepoMemory {
    type V = MemoryModel;

    open spec fn view(&self) -> MemoryModel {
        MemoryModel {
            memory_id: self.memory_id,
            kind: self.kind@,
            title: self.title@,
            body: self.body@,
            confidence: self.confidence@,
            created_by: optional_text(self.created_by),
            source: optional_text(self.source),
            tags: text::views(self.tags@),
            status: self.status@,
            bindings: binding_models(self.bindings@),
        }
    }
}

pub open spec fn memory_models(rows: Seq<RepoMemory>) -> Seq<MemoryModel> {
    rows.map_values(|r: RepoMemory| r@)
}

/// The notes made so far, numbered from one.
pub struct MemoryStore {
    pub memories: Vec<RepoMemory>,
}

impl View for MemoryStore {
    type V = Seq<MemoryModel>;

    open spec fn view(&self) -> Seq<MemoryModel> {
        memory_models(self.memories@)
    }
}

/// Every note has one binding and the number of its place.
pub open spec fn well_formed(memories: Seq<MemoryModel>) -> bool {
    forall|i: int|
        0 <= i < memories.len() ==> (#[trigger] memories[i]).bindings.len() == 1
            && memories[i].memory_id == i + 1
}

/// A file is indexed somewhere in the directory. The empty path is the root.
pub open spec fn dir_has_files(rows: Seq<FileModel>, dir: Seq<char>) -> bool {
    exists|i: int|
        0 <= i < rows.len() && paths::within(paths::parent((#[trigger] rows[i]).path), dir)
}

/// A file is indexed at exactly this path.
pub open spec fn path_is_indexed(rows: Seq<FileModel>, path: Seq<char>) -> bool {
    exists|i: int| 0 <= i < rows.len() && (#[trigger] rows[i]).path == path
}

/// Whether what a note is bound to is there.
pub open spec fn anchor_status(
    rows: Seq<FileModel>,
    binding_kind: Seq<char>,
    binding_id: Seq<char>,
) -> Seq<char> {
    let there = if binding_kind == "dir"@ {
        dir_has_files(rows, binding_id)
    } else {
        path_is_indexed(rows, binding_id)
    };
    if there {
        "current"@
    } else {
        "gone"@
    }
}

/// The binding that a target asks for, if it asks for one.
pub open spec fn resolved(rows: Seq<FileModel>, bind: RepoMemoryBindTarget) -> Option<
    BindingModel,
> {
    match (bind.dir, bind.path) {
        (Some(dir), _) => Some(
            BindingModel {
                binding_kind: "dir"@,
                binding_id: dir@,
                anchor_status: anchor_status(rows, "dir"@, dir@),
            },
        ),
        (None, Some(path)) => Some(
            BindingModel {
                binding_kind: "path"@,
                binding_id: path@,
                anchor_status: anchor_status(rows, "path"@, path@),
            },
        ),
        (None, None) => None,
    }
}

fn status_of(rows: &Vec<FileRow>, is_dir: bool, id: &String) -> (r: String)
    ensures
        r@ == if (if is_dir {
            dir_has_files(files::file_models(rows@), id@)
        } else {
            path_is_indexed(files::file_models(rows@), id@)
        }) {
            "current"@
        } else {
            "gone"@
        },
{
    let ghost all = files::file_models(rows@);
    let mut i: usize = 0;
    while i < rows.len()
        invariant
            i <= rows.len(),
            all == files::file_models(rows@),
            is_dir ==> forall|j: int|
                0 <= j < i ==> !paths::within(paths::parent((#[trigger] all[j]).path), id@),
            !is_dir ==> forall|j: int| 0 <= j < i ==> (#[trigger] all[j]).path != id@,
        decreases rows.len() - i,
    {
        assert(all[i as int] == rows@[i as int]@);
        let there: bool = if is_dir {
            lies_within(parent_of(rows[i].path.as_str()).as_str(), id.as_str())
        } else {
            rows[i].path == *id
        };
        if there {
            return "current".to_owned();
        }
        i += 1;
    }
    "gone".to_owned()
}

/// A note that could not be made.
#[derive(Clone, Copy, PartialEq, Eq, Structural, Debug)]
pub enum MemoryError {
    /// Nothing was given to bind it to.
    NoTarget,
}

/// A note and whether it had already been made.
#[derive(Debug)]
pub struct MemoryCreated {
    pub memory: RepoMemory,
    pub duplicate: bool,
}

/// The same note: of the same kind, with the same words, bound to the same thing.
pub open spec fn is_same_note(m: MemoryModel, input: RepoMemoryCreate, b: BindingModel) -> bool {
    &&& m.kind == input.kind@
    &&& m.title == input.title@
    &&& m.body == input.body@
    &&& m.bindings[0].binding_kind == b.binding_kind
    &&& m.bindings[0].binding_id == b.binding_id
}

/// The note that an input makes.
pub open spec fn new_note(input: RepoMemoryCreate, id: u64, b: BindingModel) -> MemoryModel {
    MemoryModel {
        memory_id: id,
        kind: input.kind@,
        title: input.title@,
        body: input.body@,
        confidence: input.confidence@,
        created_by: optional_text(input.created_by),
        source: optional_text(input.source),
        tags: text::views(input.tags@),
        status: "active"@,
        bindings: seq![b],
    }
}

fn copy_optional(s: &Option<String>) -> (r: Option<String>)
    ensures
        optional_text(r) == optional_text(*s),
{
    match s {
        Some(t) => Some(t.clone()),
        None => None,
    }
}

fn copy_binding(b: &MemoryBinding) -> (r: MemoryBinding)
    ensures
        r@ == b@,
{
    MemoryBinding {
        binding_kind: b.binding_kind.clone(),
        binding_id: b.binding_id.clone(),
        anchor_status: b.anchor_status.clone(),
    }
}

fn copy_memory(m: &RepoMemory) -> (r: RepoMemory)
    ensures
        r@ == m@,
{
    let mut bindings: Vec<MemoryBinding> = Vec::new();
    let mut i: usize = 0;
    while i < m.bindings.len()
        invariant
            i <= m.bindings.len(),
            bindings.len() == i,
            forall|j: int| 0 <= j < i ==> (#[trigger] bindings@[j])@ == m.bindings@[j]@,
        decreases m.bindings.len() - i,
    {
        bindings.push(copy_binding(&m.bindings[i]));
        i += 1;
    }
    assert(binding_models(bindings@) =~= binding_models(m.bindings@));
    RepoMemory {
        memory_id: m.memory_id,
        kind: m.kind.clone(),
        title: m.title.clone(),
        body: m.body.clone(),
        confidence: m.confidence.clone(),
        created_by: copy_optional(&m.created_by),
        source: copy_optional(&m.source),
        tags: copy_texts(&m.tags),
        status: m.status.clone(),
        bindings,
    }
}

/// Makes a note. One that has already been made is returned as it is; one that
/// is bound to nothing is refused.
pub fn create_memory(store: &mut MemoryStore, rows: &Vec<FileRow>, input: RepoMemoryCreate) -> (r:
    Result<MemoryCreated, MemoryError>)
    requires
        well_formed(old(store)@),
        old(store)@.len() < u64::MAX,
    ensures
        well_formed(final(store)@),
        match resolved(files::file_models(rows@), input.bind) {
            None => r is Err && *final(store) == *old(store),
            Some(b) => r is Ok && if exists|i: int|
                0 <= i < old(store)@.len() && is_same_note(#[trigger] old(store)@[i], input, b) {
                let first = choose|k: int|
                    0 <= k < old(store)@.len() && is_same_note(#[trigger] old(store)@[k], input, b)
                        && forall|j: int|
                        0 <= j < k ==> !is_same_note(#[trigger] old(store)@[j], input, b);
                r->Ok_0.duplicate && r->Ok_0.memory@ == old(store)@[first] && *final(store) == *old(
                    store,
                )
            } else {
                let note = new_note(input, (old(store)@.len() + 1) as u64, b);
                !r->Ok_0.duplicate && r->Ok_0.memory@ == note && final(store)@ == old(store)@.push(
                    note,
                )
            },
        },
{
    let binding = match (&input.bind.dir, &input.bind.path) {
        (Some(dir), _) => MemoryBinding {
            binding_kind: "dir".to_owned(),
            binding_id: dir.clone(),
            anchor_status: status_of(rows, true, dir),
        },
        (None, Some(path)) => MemoryBinding {
            binding_kind: "path".to_owned(),
            binding_id: path.clone(),
            anchor_status: status_of(rows, false, path),
        },
        (None, None) => {
            return Err(MemoryError::NoTarget);
        },
    };
    let ghost b = binding@;
    proof {
        reveal_strlit("dir");
        reveal_strlit("path");
        assert("dir"@.len() == 3 && "path"@.len() == 4);
        assert(resolved(files::file_models(rows@), input.bind) == Some(b));
    }
    let ghost all = store@;
    let mut i: usize = 0;
    while i < store.memories.len()
        invariant
            i <= store.memories.len(),
            *store == *old(store),
            all == memory_models(store.memories@),
            well_formed(all),
            binding@ == b,
            resolved(files::file_models(rows@), input.bind) == Some(b),
            forall|j: int| 0 <= j < i ==> !is_same_note(#[trigger] all[j], input, b),
        decreases store.memories.len() - i,
    {
        let m = &store.memories[i];
        assert(all[i as int] == m@);
        assert(all[i as int].bindings[0] == m.bindings@[0]@);
        if m.kind == input.kind && m.title == input.title && m.body == input.body
            && m.bindings[0].binding_kind == binding.binding_kind && m.bindings[0].binding_id
            == binding.binding_id {
            proof {
                let first = choose|k: int|
                    0 <= k < all.len() && is_same_note(#[trigger] all[k], input, b) && forall|
                        j: int,
                    |
                        0 <= j < k ==> !is_same_note(#[trigger] all[j], input, b);
                assert(is_same_note(all[i as int], input, b));
                assert(first == i as int);
            }
            return Ok(MemoryCreated { memory: copy_memory(m), duplicate: true });
        }
        i += 1;
    }
    let mut bindings: Vec<MemoryBinding> = Vec::new();
    bindings.push(binding);
    assert(binding_models(bindings@) =~= seq![b]);
    let note = RepoMemory {
        memory_id: store.memories.len() as u64 + 1,
        kind: input.kind,
        title: input.title,
        body: input.body,
        confidence: input.confidence,
        created_by: input.created_by,
        source: input.source,
        tags: input.tags,
        status: "active".to_owned(),
        bindings,
    };
    let copy = copy_memory(&note);
    store.memories.push(note);
    assert(store@ =~= all.push(note@));
    Ok(MemoryCreated { memory: copy, duplicate: false })
}

/// How many notes are bound to something that is there, and how many are not.
#[derive(Debug)]
pub struct ValidationReport {
    pub current: usize,
    pub gone: usize,
}

/// The note with its binding looked up again.
pub open spec fn revalidated(m: MemoryModel, rows: Seq<FileModel>) -> MemoryModel {
    let b = m.bindings[0];
    MemoryModel {
        bindings: seq![
            BindingModel {
                anchor_status: anchor_status(rows, b.binding_kind, b.binding_id),
                ..b
            },
        ],
        ..m
    }
}

/// How many of the notes have this anchor status.
pub open spec fn count_status(memories: Seq<MemoryModel>, status: Seq<char>) -> nat
    decreases memories.len(),
{
    if memories.len() == 0 {
        0
    } else {
        count_status(memories.drop_last(), status) + if memories.last().bindings[0].anchor_status
            == status {
            1nat
        } else {
            0
        }
    }
}

/// Looks up again what each note is bound to.
pub fn memory_validate(store: &mut MemoryStore, rows: &Vec<FileRow>) -> (r: ValidationReport)
    requires
        well_formed(old(store)@),
    ensures
        well_formed(final(store)@),
        final(store)@ == old(store)@.map_values(
            |m: MemoryModel| revalidated(m, files::file_models(rows@)),
        ),
        r.current == count_status(final(store)@, "current"@),
        r.gone == count_status(final(store)@, "gone"@),
        r.current + r.gone == final(store)@.len(),
{
    let ghost all = store@;
    let ghost again = all.map_values(|m: MemoryModel| revalidated(m, files::file_models(rows@)));
    proof {
        reveal_strlit("current");
        reveal_strlit("gone");
        assert("current"@.len() == 7 && "gone"@.len() == 4);
    }
    let mut r = ValidationReport { current: 0, gone: 0 };
    let mut i: usize = 0;
    while i < store.memories.len()
        invariant
            i <= store.memories.len(),
            store.memories.len() == all.len(),
            well_formed(all),
            "current"@.len() == 7 && "gone"@.len() == 4,
            again == all.map_values(
                |m: MemoryModel| revalidated(m, files::file_models(rows@)),
            ),
            forall|j: int| 0 <= j < i ==> #[trigger] store@[j] == again[j],
            forall|j: int| i <= j < all.len() ==> #[trigger] store@[j] == all[j],
            r.current == count_status(again.take(i as int), "current"@),
            r.gone == count_status(again.take(i as int), "gone"@),
            r.current + r.gone == i,
        decreases store.memories.len() - i,
    {
        let ghost now = store@;
        assert(now[i as int] == store.memories@[i as int]@);
        assert(now[i as int] == all[i as int]);
        let mut m = copy_memory(&store.memories[i]);
        assert(m@.bindings[0] == m.bindings@[0]@);
        let is_dir: bool = same_text(m.bindings[0].binding_kind.as_str(), "dir");
        let status = status_of(rows, is_dir, &m.bindings[0].binding_id);
        let is_current: bool = same_text(status.as_str(), "current");
        let binding = MemoryBinding {
            binding_kind: m.bindings[0].binding_kind.clone(),
            binding_id: m.bindings[0].binding_id.clone(),
            anchor_status: status,
        };
        let mut bindings: Vec<MemoryBinding> = Vec::new();
        bindings.push(binding);
        assert(binding_models(bindings@) =~= seq![binding@]);
        m.bindings = bindings;
        assert(m@ == again[i as int]);
        proof {
            assert(again.take(i + 1).drop_last() =~= again.take(i as int));
            assert(again.take(i + 1).last() == again[i as int]);
        }
        if is_current {
            r.current = r.current + 1;
        } else {
            r.gone = r.gone + 1;
        }
        store.memories.set(i, m);
        assert(store@ =~= now.update(i as int, m@));
        i += 1;
    }
    assert(again.take(i as int) =~= again);
    assert(store@ =~= again);
    r
}

/// A note in a list.
#[derive(Debug)]
pub struct MemorySummary {
    pub memory_id: u64,
    pub kind: String,
    pub title: String,
    pub status: String,
    pub binding_kind: String,
    pub binding_id: String,
}

/// What a [`MemorySummary`] holds, as plain values.
#[verifier::ext_equal]
pub struct SummaryModel {
    pub memory_id: u64,
    pub kind: Seq<char>,
    pub title: Seq<char>,
    pub status: Seq<char>,
    pub binding_kind: Seq<char>,
    pub binding_id: Seq<char>,
}

impl View for MemorySummary {
    type V = SummaryModel;

    open spec fn view(&self) -> SummaryModel {
        SummaryModel {
            memory_id: self.memory_id,
            kind: self.kind@,
            title: self.title@,
            status: self.status@,
            binding_kind: self.binding_kind@,
            binding_id: self.binding_id@,
        }
    }
}

pub open spec fn summary_models(rows: Seq<MemorySummary>) -> Seq<SummaryModel> {
    rows.map_values(|r: MemorySummary| r@)
}

/// The note as it is listed.
pub open spec fn summarised(m: MemoryModel) -> SummaryModel {
    SummaryModel {
        memory_id: m.memory_id,
        kind: m.kind,
        title: m.title,
        status: m.status,
        binding_kind: m.bindings[0].binding_kind,
        binding_id: m.bindings[0].binding_id,
    }
}

/// The note is listed: no kind of binding was asked for, or its own was.
pub open spec fn is_listed(m: MemoryModel, binding_kind: Option<Seq<char>>) -> bool {
    match binding_kind {
        Some(k) => m.bindings[0].binding_kind == k,
        None => true,
    }
}

/// A text that may not have been asked for.
pub open spec fn asked(s: Option<&str>) -> Option<Seq<char>> {
    match s {
        Some(t) => Some(t@),
        None => None,
    }
}

/// The notes as they are listed.
pub open spec fn listing(memories: Seq<MemoryModel>, binding_kind: Option<Seq<char>>) -> Seq<
    SummaryModel,
> {
    memories.filter(|m: MemoryModel| is_listed(m, binding_kind)).map_values(
        |m: MemoryModel| summarised(m),
    )
}

/// Lists the notes, all of them or those of one kind of binding.
pub fn list_memories(store: &MemoryStore, binding_kind: Option<&str>) -> (r: Vec<MemorySummary>)
    requires
        well_formed(store@),
    ensures
        summary_models(r@) == listing(store@, asked(binding_kind)),
{
    let ghost all = store@;
    let ghost wanted = asked(binding_kind);
    let ghost fits = |m: MemoryModel| is_listed(m, wanted);
    let ghost brief = |m: MemoryModel| summarised(m);
    let mut r: Vec<MemorySummary> = Vec::new();
    let mut i: usize = 0;
    proof {
        reveal(Seq::filter);
        assert(all.take(0).filter(fits).map_values(brief) =~= Seq::empty());
        assert(summary_models(r@) =~= Seq::empty());
    }
    while i < store.memories.len()
        invariant
            i <= store.memories.len(),
            all == memory_models(store.memories@),
            well_formed(all),
            wanted == asked(binding_kind),
            fits == (|m: MemoryModel| is_listed(m, wanted)),
            brief == (|m: MemoryModel| summarised(m)),
            summary_models(r@) == all.take(i as int).filter(fits).map_values(brief),
        decreases store.memories.len() - i,
    {
        let m = &store.memories[i];
        let ghost sofar = all.take(i as int).filter(fits);
        proof {
            assert(all.take(i + 1).drop_last() =~= all.take(i as int));
            assert(all.take(i + 1).last() == all[i as int]);
            assert(all[i as int] == m@);
            assert(m@.bindings[0] == m.bindings@[0]@);
            reveal(Seq::filter);
        }
        let listed: bool = match binding_kind {
            Some(k) => same_text(m.bindings[0].binding_kind.as_str(), k),
            None => true,
        };
        if listed {
            let ghost old_r = summary_models(r@);
            let s = MemorySummary {
                memory_id: m.memory_id,
                kind: m.kind.clone(),
                title: m.title.clone(),
                status: m.status.clone(),
                binding_kind: m.bindings[0].binding_kind.clone(),
                binding_id: m.bindings[0].binding_id.clone(),
            };
            r.push(s);
            assert(summary_models(r@) =~= old_r.push(s@));
            assert(sofar.push(m@).map_values(brief) =~= sofar.map_values(brief).push(s@));
        }
        i += 1;
    }
    assert(all.take(i as int) =~= all);
    r
}

/// The note is bound to exactly this file.
pub open spec fn is_about_path(m: MemoryModel, path: Seq<char>) -> bool {
    m.bindings[0].binding_kind == "path"@ && m.bindings[0].binding_id == path
}

/// The notes bound to a file, at most `limit` of them.
pub fn memories_for_path(store: &MemoryStore, path: &str, limit: usize) -> (r: Vec<RepoMemory>)
    requires
        well_formed(store@),
    ensures
        ({
            let all = store@.filter(|m: MemoryModel| is_about_path(m, path@));
            memory_models(r@) == all.take(
                if limit < all.len() {
                    limit as int
                } else {
                    all.len() as int
                },
            )
        }),
{
    let ghost all = store@;
    let ghost fits = |m: MemoryModel| is_about_path(m, path@);
    let mut r: Vec<RepoMemory> = Vec::new();
    let mut i: usize = 0;
    proof {
        reveal(Seq::filter);
        assert(memory_models(r@) =~= Seq::empty());
    }
    while i < store.memories.len()
        invariant
            i <= store.memories.len(),
            all == memory_models(store.memories@),
            well_formed(all),
            fits == (|m: MemoryModel| is_about_path(m, path@)),
            memory_models(r@) == all.take(i as int).filter(fits),
        decreases store.memories.len() - i,
    {
        let m = &store.memories[i];
        proof {
            assert(all.take(i + 1).drop_last() =~= all.take(i as int));
            assert(all.take(i + 1).last() == all[i as int]);
            assert(all[i as int] == m@);
            assert(m@.bindings[0] == m.bindings@[0]@);
            reveal(Seq::filter);
        }
        if same_text(m.bindings[0].binding_kind.as_str(), "path") && same_text(
            m.bindings[0].binding_id.as_str(),
            path,
        ) {
            let ghost old_r = memory_models(r@);
            let copy = copy_memory(m);
            r.push(copy);
            assert(memory_models(r@) =~= old_r.push(copy@));
        }
        i += 1;
    }
    assert(all.take(i as int) =~= all);
    let ghost full = memory_models(r@);
    if limit < r.len() {
        r.truncate(limit);
    }
    assert(memory_models(r@) =~= full.take(
        if limit < full.len() {
            limit as int
        } else {
            full.len() as int
        },
    ));
    r
}

/// The title of the first note bound to a directory.
pub open spec fn dir_title(memories: Seq<MemoryModel>, dir: Seq<char>) -> Option<Seq<char>>
    decreases memories.len(),
{
    if memories.len() == 0 {
        None
    } else {
        let m = memories[0];
        if m.bindings[0].binding_kind == "dir"@ && m.bindings[0].binding_id == dir {
            Some(m.title)
        } else {
            dir_title(memories.drop_first(), dir)
        }
    }
}

/// The title of the first note bound to a directory.
pub fn title_of_dir(store: &MemoryStore, dir: &str) -> (r: Option<String>)
    requires
        well_formed(store@),
    ensures
        optional_text(r) == dir_title(store@, dir@),
{
    let ghost all = store@;
    let mut i: usize = 0;
    assert(all.skip(0) =~= all);
    while i < store.memories.len()
        invariant
            i <= store.memories.len(),
            all == memory_models(store.memories@),
            well_formed(all),
            dir_title(all, dir@) == dir_title(all.skip(i as int), dir@),
        decreases store.memories.len() - i,
    {
        let m = &store.memories[i];
        proof {
            assert(all.skip(i as int)[0] == all[i as int]);
            assert(all[i as int] == m@);
            assert(m@.bindings[0] == m.bindings@[0]@);
        }
        if same_text(m.bindings[0].binding_kind.as_str(), "dir") && same_text(
            m.bindings[0].binding_id.as_str(),
            dir,
        ) {
            return Some(m.title.clone());
        }
        assert(all.skip(i as int).drop_first() =~= all.skip(i + 1));
        i += 1;
    }
    None
}

/// A note bound to one file is not about another, however alike the two paths
/// are.
pub proof fn notes_keep_to_their_path(m: MemoryModel, p: Seq<char>, q: Seq<char>)
    requires
        is_about_path(m, p),
        p != q,
    ensures
        !is_about_path(m, q),
{
}

} // verus!

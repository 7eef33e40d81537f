//! The index of a repository: which files it holds in which snapshot, and what
//! was read out of each of them.
use vstd::prelude::*;
use crate::chunks;
use crate::chunks::{holds_word, DEFAULT_MAX_EMBEDDING_CHARS};
use crate::content;
use crate::content::{read_content, Content, ContentModel, Language, Manner, Symbol, SymbolModel};
use crate::digest;
use crate::digest::{
    apply_schema, delete_files, key_is_picked, try_insert_file, verify_content_digest_parity,
    DigestModel, DigestStore, LiveParts, RowFilter, RowKey,
};
use crate::files;
use crate::files::{FileModel, FileRow, Scope, ScopeModel};
use crate::filters;
use crate::hash;
use crate::hash::hex_sha256;
use crate::history;
use crate::history::{fresh_conn, set_repo_meta, HistoryModel, HistoryStore};
use crate::ids;
use crate::lexer::chars_of;
use crate::memory::MemoryStore;
use crate::paths;
use crate::paths::{is_empty_text, lies_within};
use crate::search;
use crate::search::{collect_terms, TermRow};
use crate::source;
use crate::source::SourceTree;
use crate::text;
use crate::text::{contains_text, copy_texts, decimal_text, same_text};

verus! {

/// What the files of a target are.
#[derive(Clone, Copy, PartialEq, Eq, Structural, Debug)]
pub enum TargetKind {
    /// Written by hand.
    Source,
    /// Written by a program.
    Generated,
}

/// The name of a kind of target.
pub open spec fn kind_text(kind: TargetKind) -> Seq<char> {
    match kind {
        TargetKind::Source => "source"@,
        TargetKind::Generated => "generated"@,
    }
}

impl TargetKind {
    /// The name of the kind.
    pub fn as_str(&self) -> (r: &'static str)
        ensures
            r@ == kind_text(*self),
    {
        match self {
            TargetKind::Source => "source",
            TargetKind::Generated => "generated",
        }
    }
}

/// A directory whose files are indexed, and what they are.
pub struct Target {
    pub directory: String,
    pub language: Language,
    pub kind: TargetKind,
}

/// What a [`Target`] holds, as plain values.
pub struct TargetModel {
    pub directory: Seq<char>,
    pub language: Language,
    pub kind: TargetKind,
}

impl View for Target {
    type V = TargetModel;

    open spec fn view(&self) -> TargetModel {
        TargetModel { directory: self.directory@, language: self.language, kind: self.kind }
    }
}

/// What is to be indexed.
pub struct Config {
    pub targets: Vec<Target>,
}

impl View for Config {
    type V = Seq<TargetModel>;

    open spec fn view(&self) -> Seq<TargetModel> {
        self.targets@.map_values(|t: Target| t@)
    }
}

impl Config {
    /// One directory with hand-written files in one language.
    pub fn of_source(directory: &str, language: Language) -> (r: Config)
        ensures
            r@ == seq![
                TargetModel { directory: directory@, language, kind: TargetKind::Source },
            ],
    {
        let mut targets: Vec<Target> = Vec::new();
        targets.push(Target { directory: directory.to_owned(), language, kind: TargetKind::Source });
        let r = Config { targets };
        assert(r@ =~= seq![
            TargetModel { directory: directory@, language, kind: TargetKind::Source },
        ]);
        r
    }
}

/// The target that a file belongs to: the last one whose directory it lies in.
pub open spec fn target_of(targets: Seq<TargetModel>, path: Seq<char>) -> Option<TargetModel>
    decreases targets.len(),
{
    if targets.len() == 0 {
        None
    } else if paths::within(path, targets.last().directory) {
        Some(targets.last())
    } else {
        target_of(targets.drop_last(), path)
    }
}

/// A program has written the file, by its path: it lies in a directory of that
/// name.
pub open spec fn is_generated_path(path: Seq<char>) -> bool {
    chunks::holds(path, "/generated/"@) || chunks::begins_at(path, 0, "generated/"@)
}

/// How a file of the target is read.
pub open spec fn manner_of(t: TargetModel, path: Seq<char>) -> Manner {
    Manner {
        language: t.language,
        has_symbols: t.language != Language::Markdown && t.kind == TargetKind::Source,
        generated: t.kind == TargetKind::Generated || is_generated_path(path),
    }
}

/// An embedding that was made of a chunk.
pub struct Embedding {
    pub chunk_id: u64,
    pub model: String,
}

/// What was found out about a group of clones by comparing them token by token.
pub struct Refinement {
    pub key: String,
    /// The common length of the two members that have least in common.
    pub lcs: usize,
    /// The length of the longer of those two.
    pub lcs_of: usize,
}

/// An index: the file table with its digest, what was read out of the files, and
/// what a reader sees of it.
pub struct IndexDatabase {
    pub store: DigestStore,
    pub contents: Vec<Content>,
    pub names: Vec<String>,
    pub next_id: u64,
    pub scope: Scope,
    pub history: HistoryStore,
    pub memories: MemoryStore,
    pub terms: Vec<TermRow>,
    pub model: Option<String>,
    pub embeddings: Vec<Embedding>,
    pub refinements: Vec<Refinement>,
}

/// The tables of an [`IndexDatabase`] and its scope, as plain values.
#[verifier::ext_equal]
pub struct IndexModel {
    pub files: Seq<FileModel>,
    pub contents: Seq<ContentModel>,
    pub names: Seq<Seq<char>>,
    pub next_id: int,
    pub repo_id: Seq<char>,
    pub commit_sha: Seq<char>,
    pub worktree_id: Seq<char>,
    pub generation: u64,
}

impl View for IndexDatabase {
    type V = IndexModel;

    open spec fn view(&self) -> IndexModel {
        IndexModel {
            files: self.store@.files,
            contents: content::content_models(self.contents@),
            names: text::views(self.names@),
            next_id: self.next_id as int,
            repo_id: self.scope.repo_id@,
            commit_sha: self.scope.commit_sha@,
            worktree_id: self.scope.worktree_id@,
            generation: self.scope.generation,
        }
    }
}

impl IndexModel {
    /// What a reader sees.
    pub open spec fn scope(self) -> ScopeModel {
        self.scope_in(self.worktree_id)
    }

    /// What a reader of the worktree sees, or one of the base where there is none.
    pub open spec fn scope_in(self, worktree_id: Seq<char>) -> ScopeModel {
        ScopeModel {
            repo_id: self.repo_id,
            commit_sha: self.commit_sha,
            worktree_id,
            generation: self.generation,
        }
    }

    /// No two rows stand for one file in one snapshot, none of the repository is
    /// newer than the live generation, and no number is given twice.
    pub open spec fn is_sound(self) -> bool {
        &&& files::keys_are_unique(self.files)
        &&& forall|i: int|
            0 <= i < self.files.len() && (#[trigger] self.files[i]).repo_id == self.repo_id
                ==> self.files[i].generation <= self.generation
        &&& 0 <= self.next_id
        &&& ids::are_numbered(self.contents, self.next_id)
    }
}

/// There is room to count `n` more rows.
pub open spec fn has_room(store: DigestModel, n: nat) -> bool {
    i64::MIN + store.files.len() + 2 * n < store.rows_folded < i64::MAX - store.files.len() - 2 * n
}

impl IndexDatabase {
    /// The digest follows every write, the tables are sound, and the settings are
    /// those of the repository that the scope names, which is registered.
    pub open spec fn wf(self) -> bool {
        &&& self.store@.fold_registered
        &&& self.store@.triggers_live()
        &&& self@.is_sound()
        &&& self.scope.repo_id@ == self.history@.active_repo_id
        &&& self.history@.is_registered(self.scope.repo_id@)
    }

    /// Everything but the tables, the words and the settings is the same in both.
    pub open spec fn same_notes(self, other: IndexDatabase) -> bool {
        &&& self.memories == other.memories
        &&& self.model == other.model
        &&& self.embeddings == other.embeddings
        &&& self.refinements == other.refinements
    }

    /// An index without files.
    pub fn open(commit_sha: &str) -> (r: IndexDatabase)
        ensures
            r.wf(),
            r@ == (IndexModel {
                files: Seq::empty(),
                contents: Seq::empty(),
                names: Seq::empty(),
                next_id: 1,
                repo_id: history::LEGACY_REPO_ID@,
                commit_sha: commit_sha@,
                worktree_id: Seq::empty(),
                generation: 0,
            }),
            r.store@.has_parity(),
            r.history@ == history::empty_history(),
            r.memories.memories@.len() == 0,
            r.terms@.len() == 0,
            r.model is None,
            r.embeddings@.len() == 0,
            r.refinements@.len() == 0,
    {
        let r = IndexDatabase {
            store: apply_schema(),
            contents: Vec::new(),
            names: Vec::new(),
            next_id: 1,
            scope: Scope {
                repo_id: history::repo(),
                commit_sha: commit_sha.to_owned(),
                worktree_id: String::new(),
                generation: 0,
            },
            history: fresh_conn(),
            memories: MemoryStore { memories: Vec::new() },
            terms: Vec::new(),
            model: None,
            embeddings: Vec::new(),
            refinements: Vec::new(),
        };
        proof {
            assert(r@.files =~= Seq::empty());
            assert(r@.contents =~= Seq::empty());
            assert(r@.names =~= Seq::empty());
            assert(r@.worktree_id =~= Seq::empty());
            assert(r.history@.repos[0] == history::LEGACY_REPO_ID@);
        }
        r
    }
}

/// The pool of names with those of the symbols in it, each once.
pub open spec fn pooled(names: Seq<Seq<char>>, symbols: Seq<SymbolModel>) -> Seq<Seq<char>>
    decreases symbols.len(),
{
    if symbols.len() == 0 {
        names
    } else {
        let rest = pooled(names, symbols.drop_last());
        if rest.contains(symbols.last().qualified_name) {
            rest
        } else {
            rest.push(symbols.last().qualified_name)
        }
    }
}

/// The row of a file. The index keeps no times: both are zero.
pub open spec fn row_of(
    db: IndexModel,
    t: TargetModel,
    path: Seq<char>,
    s: Seq<char>,
    worktree_id: Seq<char>,
) -> FileModel {
    FileModel {
        repo_id: db.repo_id,
        path,
        language: content::language_name(t.language),
        kind: kind_text(t.kind),
        sha256: hash::text_sha256(s),
        modified_at_ms: 0,
        indexed_at_ms: 0,
        generated: manner_of(t, path).generated,
        commit_sha: db.commit_sha,
        worktree_id,
        generation: db.generation,
    }
}

/// The index with one more file of the target.
pub open spec fn with_file(
    db: IndexModel,
    t: TargetModel,
    path: Seq<char>,
    s: Seq<char>,
    worktree_id: Seq<char>,
) -> IndexModel {
    let how = manner_of(t, path);
    let c = content::content_of(path, s, how, db.scope_in(worktree_id), db.next_id);
    IndexModel {
        files: db.files.push(row_of(db, t, path, s, worktree_id)),
        contents: db.contents.push(c),
        names: pooled(db.names, c.symbols),
        next_id: db.next_id + content::content_size(s, how),
        ..db
    }
}

/// The row is that of the path in the snapshot.
pub open spec fn is_at(f: FileModel, scope: ScopeModel, path: Seq<char>) -> bool {
    &&& f.repo_id == scope.repo_id
    &&& f.path == path
    &&& f.commit_sha == scope.commit_sha
    &&& f.worktree_id == scope.worktree_id
    &&& f.generation == scope.generation
}

/// The index has no row for the path in the worktree, or in the base.
pub open spec fn is_free(db: IndexModel, path: Seq<char>, worktree_id: Seq<char>) -> bool {
    forall|i: int|
        0 <= i < db.files.len() ==> !is_at(
            #[trigger] db.files[i],
            db.scope_in(worktree_id),
            path,
        )
}

fn generated_path(path: &str) -> (r: bool)
    ensures
        r == is_generated_path(path@),
{
    let s = chars_of(path);
    holds_word(&s, "/generated/") || chunks::begins(&s, 0, "generated/")
}

fn find_manner(t: &Target, path: &str) -> (r: Manner)
    ensures
        r == manner_of(t@, path@),
{
    Manner {
        language: t.language,
        has_symbols: t.language != Language::Markdown && t.kind == TargetKind::Source,
        generated: t.kind == TargetKind::Generated || generated_path(path),
    }
}

fn find_target(config: &Config, path: &str) -> (r: Option<usize>)
    ensures
        match r {
            Some(i) => i < config.targets.len() && target_of(config@, path@) == Some(
                config.targets@[i as int]@,
            ),
            None => target_of(config@, path@) is None,
        },
{
    let ghost all = config@;
    let mut i: usize = config.targets.len();
    assert(all.take(i as int) =~= all);
    while i > 0
        invariant
            i <= config.targets.len(),
            all == config@,
            target_of(all, path@) == target_of(all.take(i as int), path@),
        decreases i,
    {
        proof {
            assert(all.take(i as int).last() == config.targets@[i - 1]@);
            assert(all.take(i as int).drop_last() =~= all.take(i - 1));
        }
        i -= 1;
        if lies_within(path, config.targets[i].directory.as_str()) {
            return Some(i);
        }
    }
    None
}

fn pool_names(names: &mut Vec<String>, symbols: &Vec<Symbol>)
    ensures
        text::views(final(names)@) == pooled(
            text::views(old(names)@),
            content::symbol_models(symbols@),
        ),
{
    let ghost before = text::views(names@);
    let ghost all = content::symbol_models(symbols@);
    let mut i: usize = 0;
    assert(all.take(0) =~= Seq::empty());
    while i < symbols.len()
        invariant
            i <= symbols.len(),
            all == content::symbol_models(symbols@),
            text::views(names@) == pooled(before, all.take(i as int)),
        decreases symbols.len() - i,
    {
        proof {
            assert(all.take(i + 1).drop_last() =~= all.take(i as int));
            assert(all.take(i + 1).last() == symbols@[i as int]@);
        }
        if !contains_text(names, symbols[i].qualified_name.as_str()) {
            let ghost sofar = text::views(names@);
            names.push(symbols[i].qualified_name.clone());
            assert(text::views(names@) =~= sofar.push(symbols@[i as int].qualified_name@));
        }
        i += 1;
    }
    assert(all.take(i as int) =~= all);
}

proof fn members_of_push(rows: Seq<FileModel>, f: FileModel)
    ensures
        digest::members(rows) <= digest::members(rows.push(f)) <= digest::members(rows) + 1,
{
    assert(rows.push(f).drop_last() =~= rows);
}

impl IndexDatabase {
    fn index_file(&mut self, t: &Target, path: &str, source: &str, worktree_id: &str)
        requires
            old(self).wf(),
            has_room(old(self).store@, 1),
            old(self).next_id + content::content_size(source@, manner_of(t@, path@)) <= u64::MAX,
            is_free(old(self)@, path@, worktree_id@),
        ensures
            final(self).wf(),
            final(self)@ == with_file(old(self)@, t@, path@, source@, worktree_id@),
            final(self).store@.same_drift(old(self).store@),
            final(self).store@.same_surroundings(old(self).store@),
            old(self).store@.rows_folded <= final(self).store@.rows_folded <= old(
                self,
            ).store@.rows_folded + 1,
            forall|p: Seq<char>|
                p != path@ && is_free(old(self)@, p, worktree_id@) ==> #[trigger] is_free(
                    final(self)@,
                    p,
                    worktree_id@,
                ),
            final(self).same_notes(*old(self)),
            final(self).history == old(self).history,
            final(self).terms == old(self).terms,
    {
        let ghost before = self@;
        let how = find_manner(t, path);
        let row = FileRow {
            repo_id: self.scope.repo_id.clone(),
            path: path.to_owned(),
            language: t.language.as_str().to_owned(),
            kind: t.kind.as_str().to_owned(),
            sha256: hex_sha256(source.as_bytes_vec().as_slice()),
            modified_at_ms: 0,
            indexed_at_ms: 0,
            generated: how.generated,
            commit_sha: self.scope.commit_sha.clone(),
            worktree_id: worktree_id.to_owned(),
            generation: self.scope.generation,
        };
        let place = Scope {
            repo_id: self.scope.repo_id.clone(),
            commit_sha: self.scope.commit_sha.clone(),
            worktree_id: worktree_id.to_owned(),
            generation: self.scope.generation,
        };
        let c = read_content(path, source, how, &place, self.next_id);
        let added: u64 = c.symbols.len() as u64 + c.chunks.len() as u64;
        proof {
            members_of_push(self.store@.files, row@);
            assert(!files::holds_key(before.files, row@));
            files::new_keys_stay_unique(before.files, row@);
            ids::new_numbers_go_behind(
                before.contents,
                path@,
                source@,
                how,
                before.scope_in(worktree_id@),
                before.next_id,
            );
        }
        let _ = try_insert_file(&mut self.store, row);
        pool_names(&mut self.names, &c.symbols);
        self.next_id = self.next_id + added;
        let ghost sofar = content::content_models(self.contents@);
        self.contents.push(c);
        proof {
            assert(content::content_models(self.contents@) =~= sofar.push(c@));
            assert(self@ =~= with_file(before, t@, path@, source@, worktree_id@));
            assert forall|i: int|
                0 <= i < self@.files.len() && (#[trigger] self@.files[i]).repo_id
                    == self@.repo_id implies self@.files[i].generation <= self@.generation by {
                if i < before.files.len() {
                    assert(self@.files[i] == before.files[i]);
                }
            }
            assert forall|p: Seq<char>|
                p != path@ && is_free(before, p, worktree_id@) implies #[trigger] is_free(
                self@,
                p,
                worktree_id@,
            ) by {
                assert forall|i: int| 0 <= i < self@.files.len() implies !is_at(
                    #[trigger] self@.files[i],
                    self@.scope_in(worktree_id@),
                    p,
                ) by {
                    if i < before.files.len() {
                        assert(self@.files[i] == before.files[i]);
                    }
                }
            }
        }
    }
}

/// A rebuild at the scope's commit does not read the file anew: it is live, and of
/// a worktree or of the base of another commit.
pub open spec fn is_carried(
    repo_id: Seq<char>,
    commit_sha: Seq<char>,
    worktree_id: Seq<char>,
    generation: u64,
    scope: ScopeModel,
) -> bool {
    repo_id == scope.repo_id && generation == scope.generation && (worktree_id.len() > 0
        || commit_sha != scope.commit_sha)
}

/// The row in the next generation, where a rebuild does not read its file anew.
pub open spec fn carried_row(f: FileModel, scope: ScopeModel) -> FileModel {
    if is_carried(f.repo_id, f.commit_sha, f.worktree_id, f.generation, scope) {
        FileModel { generation: (scope.generation + 1) as u64, ..f }
    } else {
        f
    }
}

/// What was read out of a file, in the next generation, where a rebuild does not
/// read it anew.
pub open spec fn carried_content(c: ContentModel, scope: ScopeModel) -> ContentModel {
    if is_carried(c.repo_id, c.commit_sha, c.worktree_id, c.generation, scope) {
        ContentModel { generation: (scope.generation + 1) as u64, ..c }
    } else {
        c
    }
}

/// A rebuild leaves some live row unread.
pub open spec fn carries(files: Seq<FileModel>, scope: ScopeModel) -> bool {
    exists|i: int|
        0 <= i < files.len() && is_carried(
            (#[trigger] files[i]).repo_id,
            files[i].commit_sha,
            files[i].worktree_id,
            files[i].generation,
            scope,
        )
}

fn carried(
    repo_id: &String,
    commit_sha: &String,
    worktree_id: &String,
    generation: u64,
    scope: &Scope,
) -> (r: bool)
    ensures
        r == is_carried(repo_id@, commit_sha@, worktree_id@, generation, scope@),
{
    *repo_id == scope.repo_id && generation == scope.generation && (!is_empty_text(
        worktree_id.as_str(),
    ) || *commit_sha != scope.commit_sha)
}

proof fn carried_keys_stay_unique(db: IndexModel)
    requires
        db.is_sound(),
        db.generation < u64::MAX,
    ensures
        files::keys_are_unique(advanced(db).files),
        forall|i: int|
            0 <= i < advanced(db).files.len() && (#[trigger] advanced(db).files[i]).repo_id
                == db.repo_id ==> advanced(db).files[i].generation <= db.generation + 1,
        forall|p: Seq<char>| #[trigger] is_free(advanced(db), p, Seq::empty()),
{
    let a = advanced(db);
    let s = db.scope();
    assert forall|i: int, j: int| 0 <= i < j < a.files.len() implies !files::same_key(
        #[trigger] a.files[i],
        #[trigger] a.files[j],
    ) by {
        assert(a.files[i] == carried_row(db.files[i], s));
        assert(a.files[j] == carried_row(db.files[j], s));
        assert(!files::same_key(db.files[i], db.files[j]));
    }
    assert forall|i: int|
        0 <= i < a.files.len() && (#[trigger] a.files[i]).repo_id
            == db.repo_id implies a.files[i].generation <= db.generation + 1 by {
        assert(a.files[i] == carried_row(db.files[i], s));
        assert(db.files[i].generation <= db.generation);
    }
    assert forall|p: Seq<char>| #[trigger] is_free(a, p, Seq::empty()) by {
        assert forall|i: int| 0 <= i < a.files.len() implies !is_at(
            #[trigger] a.files[i],
            a.scope_in(Seq::empty()),
            p,
        ) by {
            assert(a.files[i] == carried_row(db.files[i], s));
            if a.files[i].repo_id == db.repo_id {
                assert(db.files[i].generation <= db.generation);
            }
        }
    }
}

proof fn advanced_is_sound(db: IndexModel)
    requires
        db.is_sound(),
        db.generation < u64::MAX,
    ensures
        advanced(db).is_sound(),
        forall|p: Seq<char>| #[trigger] is_free(advanced(db), p, Seq::empty()),
{
    carried_keys_stay_unique(db);
    let a = advanced(db);
    assert forall|i: int| 0 <= i < a.contents.len() implies ids::same_numbers(
        #[trigger] a.contents[i],
        db.contents[i],
    ) by {
        assert(a.contents[i] == carried_content(db.contents[i], db.scope()));
    }
    ids::same_numbers_stay(db.contents, a.contents, db.next_id);
}

/// The index at the beginning of a rebuild: a new generation that holds what is
/// not read anew, of worktrees and of other commits, and nothing of the base yet.
pub open spec fn advanced(db: IndexModel) -> IndexModel {
    IndexModel {
        files: db.files.map_values(|f: FileModel| carried_row(f, db.scope())),
        contents: db.contents.map_values(|c: ContentModel| carried_content(c, db.scope())),
        worktree_id: Seq::empty(),
        generation: (db.generation + 1) as u64,
        ..db
    }
}

/// The index with all files of a checkout that belong to a target.
pub open spec fn with_files(
    db: IndexModel,
    targets: Seq<TargetModel>,
    tree: Seq<(Seq<char>, Seq<char>)>,
    worktree_id: Seq<char>,
) -> IndexModel
    decreases tree.len(),
{
    if tree.len() == 0 {
        db
    } else {
        let rest = with_files(db, targets, tree.drop_last(), worktree_id);
        match target_of(targets, tree.last().0) {
            Some(t) => with_file(rest, t, tree.last().0, tree.last().1, worktree_id),
            None => rest,
        }
    }
}

/// The index after a rebuild from a checkout.
pub open spec fn rebuilt(
    db: IndexModel,
    targets: Seq<TargetModel>,
    tree: Seq<(Seq<char>, Seq<char>)>,
) -> IndexModel {
    with_files(advanced(db), targets, tree, Seq::empty())
}

proof fn ids_grow(
    db: IndexModel,
    targets: Seq<TargetModel>,
    tree: Seq<(Seq<char>, Seq<char>)>,
    worktree_id: Seq<char>,
    k: int,
)
    requires
        0 <= k <= tree.len(),
    ensures
        with_files(db, targets, tree.take(k), worktree_id).next_id <= with_files(
            db,
            targets,
            tree,
            worktree_id,
        ).next_id,
        with_files(db, targets, tree, worktree_id).generation == db.generation,
        with_files(db, targets, tree, worktree_id).repo_id == db.repo_id,
        with_files(db, targets, tree, worktree_id).commit_sha == db.commit_sha,
        with_files(db, targets, tree, worktree_id).worktree_id == db.worktree_id,
    decreases tree.len(),
{
    if tree.len() == 0 {
        assert(tree.take(k) =~= tree);
    } else if k == tree.len() {
        assert(tree.take(k) =~= tree);
        ids_grow(db, targets, tree.drop_last(), worktree_id, k - 1);
    } else {
        ids_grow(db, targets, tree.drop_last(), worktree_id, k);
        assert(tree.drop_last().take(k) =~= tree.take(k));
    }
}

fn carry_rows(store: &mut DigestStore, scope: &Scope)
    requires
        scope.generation < u64::MAX,
    ensures
        final(store)@ == (DigestModel {
            files: old(store)@.files.map_values(|f: FileModel| carried_row(f, scope@)),
            ..old(store)@
        }),
        final(store)@.same_drift(old(store)@),
{
    let ghost before = store@;
    let ghost goal = before.files.map_values(|f: FileModel| carried_row(f, scope@));
    let mut i: usize = 0;
    while i < store.files.len()
        invariant
            scope.generation < u64::MAX,
            i <= store.files.len(),
            before == old(store)@,
            goal == before.files.map_values(|f: FileModel| carried_row(f, scope@)),
            store@.files.len() == before.files.len(),
            store@.files =~= goal.take(i as int) + before.files.skip(i as int),
            store@ == (DigestModel { files: store@.files, ..before }),
        decreases store.files.len() - i,
    {
        let ghost now = store@.files;
        assert(now[i as int] == before.files[i as int]);
        let f = &store.files[i];
        if carried(&f.repo_id, &f.commit_sha, &f.worktree_id, f.generation, scope) {
            let mut row = store.files[i].copy();
            row.generation = scope.generation + 1;
            store.files.set(i, row);
            assert(store@.files =~= now.update(i as int, row@));
        }
        proof {
            assert(store@.files[i as int] =~= goal[i as int]);
            assert(store@.files =~= goal.take(i + 1) + before.files.skip(i + 1));
        }
        i += 1;
    }
    proof {
        assert(store@.files =~= goal);
        digest::totals_of_alike(goal, before.files, 0);
        digest::totals_of_alike(goal, before.files, 1);
        digest::totals_of_alike(goal, before.files, 2);
        digest::totals_of_alike(goal, before.files, 3);
    }
}

fn carry_contents(contents: &mut Vec<Content>, scope: &Scope)
    requires
        scope.generation < u64::MAX,
    ensures
        content::content_models(final(contents)@) == content::content_models(
            old(contents)@,
        ).map_values(|c: ContentModel| carried_content(c, scope@)),
{
    let ghost before = content::content_models(contents@);
    let ghost goal = before.map_values(|c: ContentModel| carried_content(c, scope@));
    let mut i: usize = 0;
    while i < contents.len()
        invariant
            scope.generation < u64::MAX,
            i <= contents.len(),
            before.len() == contents.len(),
            goal == before.map_values(|c: ContentModel| carried_content(c, scope@)),
            content::content_models(contents@) =~= goal.take(i as int) + before.skip(i as int),
        decreases contents.len() - i,
    {
        let ghost now = content::content_models(contents@);
        assert(now[i as int] == before[i as int]);
        assert(now[i as int] == contents@[i as int]@);
        let c = &contents[i];
        if carried(&c.repo_id, &c.commit_sha, &c.worktree_id, c.generation, scope) {
            contents[i].generation = scope.generation + 1;
            assert(content::content_models(contents@) =~= now.update(
                i as int,
                carried_content(before[i as int], scope@),
            ));
        }
        assert(content::content_models(contents@)[i as int] =~= goal[i as int]);
        i += 1;
    }
}

fn any_carried(rows: &Vec<FileRow>, scope: &Scope) -> (r: bool)
    ensures
        r == carries(files::file_models(rows@), scope@),
{
    let ghost all = files::file_models(rows@);
    let mut i: usize = 0;
    while i < rows.len()
        invariant
            i <= rows.len(),
            all == files::file_models(rows@),
            forall|j: int|
                0 <= j < i ==> !is_carried(
                    (#[trigger] all[j]).repo_id,
                    all[j].commit_sha,
                    all[j].worktree_id,
                    all[j].generation,
                    scope@,
                ),
        decreases rows.len() - i,
    {
        assert(all[i as int] == rows@[i as int]@);
        let f = &rows[i];
        if carried(&f.repo_id, &f.commit_sha, &f.worktree_id, f.generation, scope) {
            return true;
        }
        i += 1;
    }
    false
}

/// The setting that says by which version of the rules the policies of the
/// stored chunks were found.
pub const EMBEDDING_POLICY_VERSION_KEY: &'static str = "embedding_policy_version";

/// The setting that says at which cap they were found.
pub const EMBEDDING_POLICY_CAP_KEY: &'static str = "embedding_policy_cap";

/// The version of the rules in use.
pub const EMBEDDING_POLICY_VERSION: &'static str = "1";

/// The settings certify that the policies of all chunks are those of the rules
/// in use, at the default cap. All other settings are the same in both.
pub open spec fn is_stamped(
    before: history::HistoryModel,
    after: history::HistoryModel,
    repo_id: Seq<char>,
) -> bool {
    &&& after.same_but_meta(before)
    &&& forall|r: Seq<char>, k: Seq<char>| #[trigger]
        after.setting(r, k) == if r == repo_id && k == EMBEDDING_POLICY_VERSION_KEY@ {
            Some(EMBEDDING_POLICY_VERSION@)
        } else if r == repo_id && k == EMBEDDING_POLICY_CAP_KEY@ {
            Some(text::decimal(DEFAULT_MAX_EMBEDDING_CHARS as nat))
        } else {
            before.setting(r, k)
        }
}

/// Certifies the policies of all chunks.
pub fn stamp_policies(conn: &mut HistoryStore)
    requires
        old(conn)@.is_registered(old(conn)@.active_repo_id),
    ensures
        is_stamped(old(conn)@, final(conn)@, old(conn)@.active_repo_id),
{
    let repo_id = conn.active_repo_id.clone();
    let cap = decimal_text(DEFAULT_MAX_EMBEDDING_CHARS as u64);
    let _ = set_repo_meta(conn, repo_id.as_str(), EMBEDDING_POLICY_CAP_KEY, cap.as_str());
    let _ = set_repo_meta(
        conn,
        repo_id.as_str(),
        EMBEDDING_POLICY_VERSION_KEY,
        EMBEDDING_POLICY_VERSION,
    );
    proof {
        reveal_strlit("embedding_policy_version");
        reveal_strlit("embedding_policy_cap");
        assert(EMBEDDING_POLICY_VERSION_KEY@.len() != EMBEDDING_POLICY_CAP_KEY@.len());
    }
}

impl IndexDatabase {
    fn index_tree(&mut self, config: &Config, tree: &SourceTree, worktree_id: &str)
        requires
            old(self).wf(),
            has_room(old(self).store@, tree@.len()),
            with_files(old(self)@, config@, tree@, worktree_id@).next_id <= u64::MAX,
            source::paths_are_unique(tree@),
            forall|k: int|
                0 <= k < tree@.len() ==> is_free(
                    old(self)@,
                    (#[trigger] tree@[k]).0,
                    worktree_id@,
                ),
        ensures
            final(self).wf(),
            final(self)@ == with_files(old(self)@, config@, tree@, worktree_id@),
            final(self).store@.same_drift(old(self).store@),
            final(self).store@.same_surroundings(old(self).store@),
            final(self).same_notes(*old(self)),
            final(self).history == old(self).history,
            final(self).terms == old(self).terms,
    {
        let ghost before = *self;
        let ghost all = tree@;
        let mut i: usize = 0;
        assert(all.take(0) =~= Seq::empty());
        while i < tree.files.len()
            invariant
                i <= tree.files.len(),
                all == tree@,
                before == *old(self),
                self.wf(),
                has_room(self.store@, (all.len() - i) as nat),
                with_files(before@, config@, all, worktree_id@).next_id <= u64::MAX,
                source::paths_are_unique(all),
                forall|k: int|
                    i <= k < all.len() ==> is_free(self@, (#[trigger] all[k]).0, worktree_id@),
                self@ == with_files(before@, config@, all.take(i as int), worktree_id@),
                self.store@.same_drift(before.store@),
                self.store@.same_surroundings(before.store@),
                self.same_notes(before),
                self.history == before.history,
                self.terms == before.terms,
            decreases tree.files.len() - i,
        {
            proof {
                ids_grow(before@, config@, all, worktree_id@, i + 1);
                assert(all.take(i + 1).drop_last() =~= all.take(i as int));
                assert(all.take(i + 1).last() == all[i as int]);
                assert(is_free(self@, all[i as int].0, worktree_id@));
            }
            let ghost now = self@;
            let path = tree.files[i].path.as_str();
            match find_target(config, path) {
                Some(t) => {
                    self.index_file(
                        &config.targets[t],
                        path,
                        tree.files[i].text.as_str(),
                        worktree_id,
                    );
                },
                None => {},
            }
            proof {
                assert forall|k: int| i < k < all.len() implies is_free(
                    self@,
                    (#[trigger] all[k]).0,
                    worktree_id@,
                ) by {
                    assert(is_free(now, all[k].0, worktree_id@));
                    assert(all[k].0 != all[i as int].0);
                }
            }
            i += 1;
        }
        assert(all.take(i as int) =~= all);
    }

    /// Reads a checkout into a new generation of the base, which readers see from
    /// then on. What belongs to worktrees and to other commits is carried over as it
    /// is; unless something was carried, the policies of all chunks are certified.
    pub fn rebuild(&mut self, config: &Config, tree: &SourceTree)
        requires
            old(self).wf(),
            old(self).scope.generation < u64::MAX,
            has_room(old(self).store@, tree@.len()),
            rebuilt(old(self)@, config@, tree@).next_id <= u64::MAX,
            source::paths_are_unique(tree@),
        ensures
            final(self).wf(),
            final(self)@ == rebuilt(old(self)@, config@, tree@),
            final(self).store@.same_drift(old(self).store@),
            final(self).store@.same_surroundings(old(self).store@),
            search::term_models(final(self).terms@) == search::terms_of(final(self)@.contents),
            if carries(old(self)@.files, old(self)@.scope()) {
                final(self).history == old(self).history
            } else {
                is_stamped(old(self).history@, final(self).history@, old(self)@.repo_id)
            },
            final(self).same_notes(*old(self)),
    {
        let ghost before = *self;
        let carried: bool = any_carried(&self.store.files, &self.scope);
        carry_rows(&mut self.store, &self.scope);
        carry_contents(&mut self.contents, &self.scope);
        self.scope.worktree_id = String::new();
        self.scope.generation = self.scope.generation + 1;
        proof {
            reveal_strlit("");
            assert(""@ =~= Seq::<char>::empty());
            assert(self@.worktree_id =~= Seq::empty());
            assert(self@ =~= advanced(before@));
            advanced_is_sound(before@);
            ids_grow(advanced(before@), config@, tree@, Seq::empty(), 0);
        }
        self.index_tree(config, tree, "");
        if !carried {
            stamp_policies(&mut self.history);
        }
        self.terms = collect_terms(&self.contents);
    }

    /// Makes the word table anew from the texts of the chunks.
    pub fn rebuild_fts(&mut self)
        ensures
            search::term_models(final(self).terms@) == search::terms_of(old(self)@.contents),
            *final(self) == (IndexDatabase { terms: final(self).terms, ..*old(self) }),
    {
        self.terms = collect_terms(&self.contents);
    }
}

/// The filter takes the content away.
pub open spec fn drops(filter: RowFilter, c: ContentModel) -> bool {
    digest::picks_key(
        filter,
        (RowKey {
            repo_id: c.repo_id,
            path: c.path,
            commit_sha: c.commit_sha,
            worktree_id: c.worktree_id,
            generation: c.generation,
        }),
    )
}

fn drops_content(filter: &RowFilter, c: &Content) -> (r: bool)
    ensures
        r == drops(*filter, c@),
{
    key_is_picked(filter, &c.repo_id, &c.path, &c.commit_sha, &c.worktree_id, c.generation)
}

fn drop_contents(contents: &mut Vec<Content>, filter: &RowFilter)
    ensures
        content::content_models(final(contents)@) == content::content_models(
            old(contents)@,
        ).filter(|c: ContentModel| !drops(*filter, c)),
{
    let ghost before = content::content_models(contents@);
    let ghost stays = |c: ContentModel| !drops(*filter, c);
    let ghost mut done: int = 0;
    let mut i: usize = 0;
    proof {
        reveal(Seq::filter);
        assert(before.take(0).filter(stays) =~= Seq::empty());
        assert(content::content_models(contents@).take(0) =~= Seq::empty());
    }
    while i < contents.len()
        invariant
            0 <= done <= before.len(),
            i <= contents.len(),
            contents.len() - i == before.len() - done,
            stays == (|c: ContentModel| !drops(*filter, c)),
            content::content_models(contents@).take(i as int) == before.take(done).filter(stays),
            content::content_models(contents@).skip(i as int) =~= before.skip(done),
        decreases before.len() - done,
    {
        let ghost now = content::content_models(contents@);
        proof {
            reveal(Seq::filter);
            assert(now.skip(i as int)[0] == before.skip(done)[0]);
            assert(now[i as int] == contents@[i as int]@);
            assert(before.take(done + 1).drop_last() =~= before.take(done));
            assert(before.take(done + 1).last() == now[i as int]);
            assert(now.skip(i + 1) =~= now.skip(i as int).skip(1));
            assert(before.skip(done + 1) =~= before.skip(done).skip(1));
        }
        if drops_content(filter, &contents[i]) {
            let _ = contents.remove(i);
            proof {
                let after = content::content_models(contents@);
                assert(after =~= now.remove(i as int));
                assert(after.take(i as int) =~= now.take(i as int));
                assert(after.skip(i as int) =~= now.skip(i + 1));
            }
        } else {
            assert(now.take(i + 1) =~= now.take(i as int).push(now[i as int]));
            i += 1;
        }
        proof {
            done = done + 1;
        }
    }
    assert(before.take(done) =~= before);
    assert(content::content_models(contents@).take(i as int) =~= content::content_models(
        contents@,
    ));
}

/// Some symbol has the name.
pub open spec fn is_used(contents: Seq<ContentModel>, name: Seq<char>) -> bool {
    exists|i: int, j: int|
        0 <= i < contents.len() && 0 <= j < contents[i].symbols.len()
            && #[trigger] contents[i].symbols[j].qualified_name == name
}

fn name_is_used(contents: &Vec<Content>, name: &str) -> (r: bool)
    ensures
        r == is_used(content::content_models(contents@), name@),
{
    let ghost all = content::content_models(contents@);
    let mut i: usize = 0;
    while i < contents.len()
        invariant
            i <= contents.len(),
            all == content::content_models(contents@),
            forall|a: int, b: int|
                0 <= a < i && 0 <= b < all[a].symbols.len() ==> #[trigger] all[a].symbols[b].qualified_name
                    != name@,
        decreases contents.len() - i,
    {
        let mut j: usize = 0;
        assert(all[i as int] == contents@[i as int]@);
        while j < contents[i].symbols.len()
            invariant
                i < contents.len(),
                j <= contents[i as int].symbols.len(),
                all == content::content_models(contents@),
                all[i as int] == contents@[i as int]@,
                forall|b: int|
                    0 <= b < j ==> #[trigger] all[i as int].symbols[b].qualified_name != name@,
            decreases contents[i as int].symbols.len() - j,
        {
            assert(all[i as int].symbols[j as int] == contents@[i as int].symbols@[j as int]@);
            if same_text(contents[i].symbols[j].qualified_name.as_str(), name) {
                assert(all[i as int].symbols[j as int].qualified_name == name@);
                return true;
            }
            j += 1;
        }
        i += 1;
    }
    false
}

fn sweep_names(names: &Vec<String>, contents: &Vec<Content>) -> (r: Vec<String>)
    ensures
        text::views(r@) == text::views(names@).filter(
            |n: Seq<char>| is_used(content::content_models(contents@), n),
        ),
{
    let ghost all = text::views(names@);
    let ghost used = |n: Seq<char>| is_used(content::content_models(contents@), n);
    let mut r: Vec<String> = Vec::new();
    let mut i: usize = 0;
    proof {
        reveal(Seq::filter);
        assert(text::views(r@) =~= all.take(0).filter(used));
    }
    while i < names.len()
        invariant
            i <= names.len(),
            all == text::views(names@),
            used == (|n: Seq<char>| is_used(content::content_models(contents@), n)),
            text::views(r@) == all.take(i as int).filter(used),
        decreases names.len() - i,
    {
        proof {
            reveal(Seq::filter);
            assert(all.take(i + 1).drop_last() =~= all.take(i as int));
            assert(all.take(i + 1).last() == names@[i as int]@);
        }
        if name_is_used(contents, names[i].as_str()) {
            let ghost sofar = text::views(r@);
            r.push(names[i].clone());
            assert(text::views(r@) =~= sofar.push(names@[i as int]@));
        }
        i += 1;
    }
    assert(all.take(i as int) =~= all);
    r
}

/// What has the key outlives a sweep: it is of another repository, or of the live
/// generation and of a live base or worktree.
pub open spec fn outlives(
    key: RowKey,
    db: IndexModel,
    commits: Seq<Seq<char>>,
    worktrees: Seq<Seq<char>>,
) -> bool {
    key.repo_id != db.repo_id || (key.generation == db.generation && digest::is_live_part(
        key,
        commits,
        worktrees,
    ))
}

/// The key of what was read out of a file.
pub open spec fn content_key(c: ContentModel) -> RowKey {
    RowKey {
        repo_id: c.repo_id,
        path: c.path,
        commit_sha: c.commit_sha,
        worktree_id: c.worktree_id,
        generation: c.generation,
    }
}

/// The index without what does not outlive a sweep that leaves the base of some
/// commits and some worktrees, and without the names that no symbol has.
pub open spec fn pruned(
    db: IndexModel,
    commits: Seq<Seq<char>>,
    worktrees: Seq<Seq<char>>,
) -> IndexModel {
    let contents = db.contents.filter(
        |c: ContentModel| outlives(content_key(c), db, commits, worktrees),
    );
    IndexModel {
        files: db.files.filter(
            |f: FileModel| outlives(digest::key_of(f), db, commits, worktrees),
        ),
        contents,
        names: db.names.filter(|n: Seq<char>| is_used(contents, n)),
        ..db
    }
}

/// What has the key outlives a collection: it is of another repository, or of the
/// live generation and of a worktree or the base of the active commit.
pub open spec fn is_kept(key: RowKey, db: IndexModel) -> bool {
    key.repo_id != db.repo_id || (key.generation == db.generation && (key.worktree_id.len() > 0
        || key.commit_sha == db.commit_sha))
}

/// The index without the rows and contents of dead generations and of the base of
/// other commits, and without the names that no symbol has. Other repositories
/// stay.
pub open spec fn collected(db: IndexModel) -> IndexModel {
    let contents = db.contents.filter(|c: ContentModel| is_kept(content_key(c), db));
    IndexModel {
        files: db.files.filter(|f: FileModel| is_kept(digest::key_of(f), db)),
        contents,
        names: db.names.filter(|n: Seq<char>| is_used(contents, n)),
        ..db
    }
}

/// A name that a live symbol has outlives a collection.
pub proof fn used_names_survive(db: IndexModel, i: int, j: int)
    requires
        0 <= i < db.contents.len(),
        is_kept(content_key(db.contents[i]), db),
        0 <= j < db.contents[i].symbols.len(),
        db.names.contains(db.contents[i].symbols[j].qualified_name),
    ensures
        collected(db).names.contains(db.contents[i].symbols[j].qualified_name),
{
    let live = |c: ContentModel| is_kept(content_key(c), db);
    let name = db.contents[i].symbols[j].qualified_name;
    db.contents.lemma_filter_contains(live, i);
    let kept = collected(db).contents;
    let k = choose|k: int| 0 <= k < kept.len() && kept[k] == db.contents[i];
    assert(kept[k].symbols[j].qualified_name == name);
    assert(is_used(kept, name));
    let n = choose|n: int| 0 <= n < db.names.len() && db.names[n] == name;
    db.names.lemma_filter_contains(|w: Seq<char>| is_used(kept, w), n);
}

/// The index without what the worktree has added.
pub open spec fn without_worktree(db: IndexModel, worktree_id: Seq<char>) -> IndexModel {
    IndexModel {
        files: db.files.filter(
            |f: FileModel| !(f.repo_id == db.repo_id && f.worktree_id == worktree_id),
        ),
        contents: db.contents.filter(
            |c: ContentModel| !(c.repo_id == db.repo_id && c.worktree_id == worktree_id),
        ),
        ..db
    }
}

/// What has the key is of the path in the snapshot that the scope is of. What a
/// worktree has is of no commit.
pub open spec fn is_of(key: RowKey, scope: ScopeModel, path: Seq<char>) -> bool {
    &&& key.repo_id == scope.repo_id
    &&& key.path == path
    &&& key.worktree_id == scope.worktree_id
    &&& key.generation == scope.generation
    &&& key.worktree_id.len() > 0 || key.commit_sha == scope.commit_sha
}

/// The index without the file at the path in the active snapshot.
pub open spec fn without_file(db: IndexModel, path: Seq<char>) -> IndexModel {
    IndexModel {
        files: db.files.filter(|f: FileModel| !is_of(digest::key_of(f), db.scope(), path)),
        contents: db.contents.filter(|c: ContentModel| !is_of(content_key(c), db.scope(), path)),
        ..db
    }
}

/// The index after the file at the path has been read anew from a checkout.
pub open spec fn healed(
    db: IndexModel,
    targets: Seq<TargetModel>,
    tree: Seq<(Seq<char>, Seq<char>)>,
    path: Seq<char>,
) -> IndexModel {
    let rest = without_file(db, path);
    match (source::text_in(tree, path), target_of(targets, path)) {
        (Some(s), Some(t)) => with_file(rest, t, path, s, db.worktree_id),
        _ => rest,
    }
}

proof fn fewer_is_sound(
    db: IndexModel,
    less: IndexModel,
    row: spec_fn(FileModel) -> bool,
    content: spec_fn(ContentModel) -> bool,
)
    requires
        db.is_sound(),
        less.files == db.files.filter(row),
        less.contents == db.contents.filter(content),
        less.next_id == db.next_id,
        less.repo_id == db.repo_id,
        less.generation == db.generation,
    ensures
        less.is_sound(),
{
    files::fewer_keys_stay_unique(db.files, row);
    ids::fewer_stay_numbered(db.contents, db.next_id, content);
    assert forall|i: int|
        0 <= i < less.files.len() && (#[trigger] less.files[i]).repo_id
            == less.repo_id implies less.files[i].generation <= less.generation by {
        let f = less.files[i];
        assert(less.files.contains(f));
        db.files.lemma_filter_contains_rev(row, f);
        let k = choose|k: int| 0 <= k < db.files.len() && db.files[k] == f;
        assert(db.files[k].generation <= db.generation);
    }
}

proof fn members_of_filter(rows: Seq<FileModel>, p: spec_fn(FileModel) -> bool)
    ensures
        digest::members(rows.filter(p)) <= digest::members(rows),
        digest::members(rows) - digest::members(rows.filter(p)) <= rows.len() - rows.filter(p).len(),
        rows.filter(p).len() <= rows.len(),
    decreases rows.len(),
{
    reveal(Seq::filter);
    if rows.len() > 0 {
        members_of_filter(rows.drop_last(), p);
        if p(rows.last()) {
            let kept = rows.drop_last().filter(p);
            assert(rows.filter(p) =~= kept.push(rows.last()));
            assert(kept.push(rows.last()).drop_last() =~= kept);
        }
    }
}

fn delete_rows(store: &mut DigestStore, filter: RowFilter, Ghost(n): Ghost<nat>)
    requires
        old(store)@.fold_registered,
        old(store)@.triggers_live(),
        has_room(old(store)@, n),
    ensures
        final(store)@.files == old(store)@.files.filter(|f: FileModel| !digest::picks(filter, f)),
        final(store)@.same_surroundings(old(store)@),
        final(store)@.same_drift(old(store)@),
        final(store)@.fold_registered,
        final(store)@.triggers_live(),
        has_room(final(store)@, n),
{
    proof {
        members_of_filter(store@.files, |f: FileModel| !digest::picks(filter, f));
    }
    let _ = delete_files(store, filter);
}

fn known_worktrees(rows: &Vec<FileRow>, contents: &Vec<Content>) -> (r: Vec<String>)
    ensures
        forall|i: int|
            0 <= i < rows.len() ==> text::views(r@).contains((#[trigger] rows@[i]).worktree_id@),
        forall|i: int|
            0 <= i < contents.len() ==> text::views(r@).contains(
                (#[trigger] contents@[i]).worktree_id@,
            ),
{
    let mut r: Vec<String> = Vec::new();
    let mut i: usize = 0;
    while i < rows.len()
        invariant
            i <= rows.len(),
            forall|j: int|
                0 <= j < i ==> text::views(r@).contains((#[trigger] rows@[j]).worktree_id@),
        decreases rows.len() - i,
    {
        add_text(&mut r, rows[i].worktree_id.as_str());
        i += 1;
    }
    let mut k: usize = 0;
    while k < contents.len()
        invariant
            k <= contents.len(),
            forall|j: int|
                0 <= j < rows.len() ==> text::views(r@).contains(
                    (#[trigger] rows@[j]).worktree_id@,
                ),
            forall|j: int|
                0 <= j < k ==> text::views(r@).contains((#[trigger] contents@[j]).worktree_id@),
        decreases contents.len() - k,
    {
        add_text(&mut r, contents[k].worktree_id.as_str());
        k += 1;
    }
    r
}

fn add_text(list: &mut Vec<String>, s: &str)
    ensures
        text::views(final(list)@).contains(s@),
        forall|t: Seq<char>|
            text::views(old(list)@).contains(t) ==> #[trigger] text::views(final(list)@).contains(
                t,
            ),
{
    if !contains_text(list, s) {
        let ghost before = text::views(list@);
        list.push(s.to_owned());
        proof {
            let after = text::views(list@);
            assert(after =~= before.push(s@));
            assert(after[before.len() as int] == s@);
            assert forall|t: Seq<char>| before.contains(t) implies #[trigger] after.contains(t) by {
                let k = choose|k: int| 0 <= k < before.len() && before[k] == t;
                assert(after[k] == t);
            }
        }
    }
}

proof fn collected_is_pruned(db: IndexModel, commits: Seq<Seq<char>>, worktrees: Seq<Seq<char>>)
    requires
        commits == seq![db.commit_sha],
        forall|i: int|
            0 <= i < db.files.len() ==> worktrees.contains((#[trigger] db.files[i]).worktree_id),
        forall|i: int|
            0 <= i < db.contents.len() ==> worktrees.contains(
                (#[trigger] db.contents[i]).worktree_id,
            ),
    ensures
        pruned(db, commits, worktrees) == collected(db),
{
    assert(commits[0] == db.commit_sha);
    filters::filter_of_agreeing(
        db.files,
        |f: FileModel| outlives(digest::key_of(f), db, commits, worktrees),
        |f: FileModel| is_kept(digest::key_of(f), db),
    );
    filters::filter_of_agreeing(
        db.contents,
        |c: ContentModel| outlives(content_key(c), db, commits, worktrees),
        |c: ContentModel| is_kept(content_key(c), db),
    );
}

impl IndexDatabase {
    /// Takes away the rows and contents of the repository that are of dead
    /// generations, or of neither a live commit's base nor a live worktree, and the
    /// names that no symbol has, and sets the digest right.
    pub fn prune_to_live(&mut self, live_commits: &Vec<String>, live_worktrees: &Vec<String>)
        requires
            old(self).wf(),
            has_room(old(self).store@, 0),
        ensures
            final(self).wf(),
            final(self)@ == pruned(
                old(self)@,
                text::views(live_commits@),
                text::views(live_worktrees@),
            ),
            final(self).store@.has_parity(),
            final(self).store@.same_surroundings(old(self).store@),
            search::term_models(final(self).terms@) == search::terms_of(final(self)@.contents),
            final(self).same_notes(*old(self)),
            final(self).history == old(self).history,
    {
        let ghost before = self@;
        let filter = RowFilter::Dead(
            LiveParts {
                repo_id: self.scope.repo_id.clone(),
                generation: self.scope.generation,
                commits: copy_texts(live_commits),
                worktrees: copy_texts(live_worktrees),
            },
        );
        drop_contents(&mut self.contents, &filter);
        delete_rows(&mut self.store, filter, Ghost(0));
        self.names = sweep_names(&self.names, &self.contents);
        verify_content_digest_parity(&mut self.store);
        self.terms = collect_terms(&self.contents);
        proof {
            let commits = text::views(live_commits@);
            let worktrees = text::views(live_worktrees@);
            let f1 = |f: FileModel| !digest::picks(filter, f);
            let f2 = |f: FileModel| outlives(digest::key_of(f), before, commits, worktrees);
            assert(f1 =~= f2);
            let c1 = |c: ContentModel| !drops(filter, c);
            let c2 = |c: ContentModel| outlives(content_key(c), before, commits, worktrees);
            assert(c1 =~= c2);
            assert(self@ =~= pruned(before, commits, worktrees));
            fewer_is_sound(before, self@, f2, c2);
        }
    }

    /// Takes away the rows and contents of the repository that are of dead
    /// generations or of the base of another commit, and the names that no symbol
    /// has, and sets the digest right. Where other commits are checked out too,
    /// [`IndexDatabase::prune_to_live`] keeps their base.
    pub fn garbage_collect(&mut self)
        requires
            old(self).wf(),
            has_room(old(self).store@, 0),
        ensures
            final(self).wf(),
            final(self)@ == collected(old(self)@),
            final(self).store@.has_parity(),
            final(self).store@.same_surroundings(old(self).store@),
            search::term_models(final(self).terms@) == search::terms_of(final(self)@.contents),
            final(self).same_notes(*old(self)),
            final(self).history == old(self).history,
    {
        let mut commits: Vec<String> = Vec::new();
        commits.push(self.scope.commit_sha.clone());
        let worktrees = known_worktrees(&self.store.files, &self.contents);
        proof {
            assert(text::views(commits@) =~= seq![self@.commit_sha]);
            assert forall|i: int| 0 <= i < self@.files.len() implies text::views(
                worktrees@,
            ).contains((#[trigger] self@.files[i]).worktree_id) by {
                assert(self@.files[i] == self.store.files@[i]@);
            }
            assert forall|i: int| 0 <= i < self@.contents.len() implies text::views(
                worktrees@,
            ).contains((#[trigger] self@.contents[i]).worktree_id) by {
                assert(self@.contents[i] == self.contents@[i]@);
            }
            collected_is_pruned(self@, text::views(commits@), text::views(worktrees@));
        }
        self.prune_to_live(&commits, &worktrees);
    }

    /// Reads one file anew from the checkout that the scope is of. A file that is
    /// gone, or belongs to no target, leaves the index.
    pub fn heal_file(&mut self, config: &Config, tree: &SourceTree, path: &str)
        requires
            old(self).wf(),
            has_room(old(self).store@, 1),
            healed(old(self)@, config@, tree@, path@).next_id <= u64::MAX,
        ensures
            final(self).wf(),
            final(self)@ == healed(old(self)@, config@, tree@, path@),
            final(self).store@.same_drift(old(self).store@),
            final(self).store@.same_surroundings(old(self).store@),
            search::term_models(final(self).terms@) == search::terms_of(final(self)@.contents),
            final(self).same_notes(*old(self)),
            final(self).history == old(self).history,
    {
        let ghost before = self@;
        let worktree = self.scope.worktree_id.clone();
        let at = Scope {
            repo_id: self.scope.repo_id.clone(),
            commit_sha: self.scope.commit_sha.clone(),
            worktree_id: worktree.clone(),
            generation: self.scope.generation,
        };
        let filter = RowFilter::Exact(at, path.to_owned());
        drop_contents(&mut self.contents, &filter);
        delete_rows(&mut self.store, filter, Ghost(1));
        proof {
            let f1 = |f: FileModel| !digest::picks(filter, f);
            let f2 = |f: FileModel| !is_of(digest::key_of(f), before.scope(), path@);
            assert(f1 =~= f2);
            let c1 = |c: ContentModel| !drops(filter, c);
            let c2 = |c: ContentModel| !is_of(content_key(c), before.scope(), path@);
            assert(c1 =~= c2);
            assert(self@ =~= without_file(before, path@));
            fewer_is_sound(before, self@, f2, c2);
            assert forall|i: int| 0 <= i < self@.files.len() implies !is_at(
                #[trigger] self@.files[i],
                self@.scope_in(worktree@),
                path@,
            ) by {
                before.files.lemma_filter_pred(f2, i);
            }
            assert(is_free(self@, path@, worktree@));
        }
        match (tree.read(path), find_target(config, path)) {
            (Some(s), Some(t)) => {
                self.index_file(&config.targets[t], path, s.as_str(), worktree.as_str());
            },
            _ => {},
        }
        self.terms = collect_terms(&self.contents);
    }

    /// Lets readers see the base of another repository, which is registered, in its
    /// live generation. From then on writes are to that one.
    pub fn select_repo(&mut self, repo_id: &str, generation: u64)
        requires
            old(self).wf(),
            old(self).history@.is_registered(repo_id@),
            forall|i: int|
                0 <= i < old(self)@.files.len() && (#[trigger] old(self)@.files[i]).repo_id
                    == repo_id@ ==> old(self)@.files[i].generation <= generation,
        ensures
            final(self).wf(),
            final(self)@ == (IndexModel {
                repo_id: repo_id@,
                worktree_id: Seq::empty(),
                generation,
                ..old(self)@
            }),
            final(self).history@ == (HistoryModel {
                active_repo_id: repo_id@,
                ..old(self).history@
            }),
            final(self).store == old(self).store,
            final(self).terms == old(self).terms,
            final(self).same_notes(*old(self)),
    {
        self.scope.repo_id = repo_id.to_owned();
        self.scope.worktree_id = String::new();
        self.scope.generation = generation;
        self.history.active_repo_id = repo_id.to_owned();
        assert(self@.worktree_id =~= Seq::empty());
    }

    /// Lets the base be that of another commit. Readers see none of it until the
    /// commit is read.
    pub fn set_active_commit(&mut self, commit_sha: &str)
        ensures
            final(self)@ == (IndexModel { commit_sha: commit_sha@, ..old(self)@ }),
            old(self).wf() ==> final(self).wf(),
            final(self).store == old(self).store,
            final(self).history == old(self).history,
            final(self).terms == old(self).terms,
            final(self).same_notes(*old(self)),
    {
        self.scope.commit_sha = commit_sha.to_owned();
    }

    /// Lets readers see the base alone.
    pub fn set_base_scope(&mut self)
        ensures
            final(self)@ == (IndexModel { worktree_id: Seq::empty(), ..old(self)@ }),
            old(self).wf() ==> final(self).wf(),
            final(self).store == old(self).store,
            final(self).history == old(self).history,
            final(self).terms == old(self).terms,
            final(self).same_notes(*old(self)),
    {
        self.scope.worktree_id = String::new();
        assert(self@.worktree_id =~= Seq::empty());
    }

    /// Whether readers see a worktree over the base.
    pub fn active_scope_is_linked_overlay(&self) -> (r: bool)
        ensures
            r == (self@.worktree_id.len() > 0),
    {
        !is_empty_text(self.scope.worktree_id.as_str())
    }
}

/// The base holds the file with the same content.
pub open spec fn base_has(
    files: Seq<FileModel>,
    scope: ScopeModel,
    path: Seq<char>,
    sha256: Seq<char>,
) -> bool {
    exists|i: int|
        0 <= i < files.len() && is_in_base(#[trigger] files[i], scope) && files[i].path == path
            && files[i].sha256 == sha256
}

/// The row is one of the base that the scope names, and no mark of a deleted file.
pub open spec fn is_in_base(f: FileModel, scope: ScopeModel) -> bool {
    &&& f.repo_id == scope.repo_id
    &&& f.commit_sha == scope.commit_sha
    &&& f.worktree_id.len() == 0
    &&& f.generation == scope.generation
    &&& f.kind != "deleted"@
}

fn in_base_row(f: &FileRow, scope: &Scope) -> (r: bool)
    ensures
        r == is_in_base(f@, scope@),
{
    f.repo_id == scope.repo_id && f.commit_sha == scope.commit_sha && is_empty_text(
        f.worktree_id.as_str(),
    ) && f.generation == scope.generation && !same_text(f.kind.as_str(), "deleted")
}

/// The files of a checkout that are not in the base as they are.
pub open spec fn differing(db: IndexModel, tree: Seq<(Seq<char>, Seq<char>)>) -> Seq<
    (Seq<char>, Seq<char>),
> {
    tree.filter(
        |f: (Seq<char>, Seq<char>)|
            !base_has(db.files, db.scope(), f.0, hash::text_sha256(f.1)),
    )
}

/// The row is one of the base whose file the checkout does not have.
pub open spec fn is_gone(
    f: FileModel,
    scope: ScopeModel,
    tree: Seq<(Seq<char>, Seq<char>)>,
) -> bool {
    is_in_base(f, scope) && source::text_in(tree, f.path) is None
}

/// The mark that a worktree leaves of a file that it does not have.
pub open spec fn tombstone(f: FileModel, worktree_id: Seq<char>) -> FileModel {
    FileModel { kind: "deleted"@, sha256: Seq::empty(), worktree_id, ..f }
}

/// The marks that a worktree leaves.
pub open spec fn tombstones(
    files: Seq<FileModel>,
    scope: ScopeModel,
    tree: Seq<(Seq<char>, Seq<char>)>,
    worktree_id: Seq<char>,
) -> Seq<FileModel> {
    files.filter(|f: FileModel| is_gone(f, scope, tree)).map_values(
        |f: FileModel| tombstone(f, worktree_id),
    )
}

/// The index with a worktree over the base: the files in which it differs from
/// the base, and marks for those that it does not have.
pub open spec fn overlaid(
    db: IndexModel,
    targets: Seq<TargetModel>,
    tree: Seq<(Seq<char>, Seq<char>)>,
    worktree_id: Seq<char>,
) -> IndexModel {
    let rest = without_worktree(db, worktree_id);
    let marked = IndexModel {
        files: rest.files + tombstones(rest.files, db.scope(), tree, worktree_id),
        worktree_id,
        ..rest
    };
    with_files(marked, targets, differing(rest, tree), worktree_id)
}

/// What came of indexing a worktree.
#[derive(Debug)]
pub struct OverlayReport {
    /// How many rows the worktree has.
    pub indexed: usize,
}

fn in_base(rows: &Vec<FileRow>, scope: &Scope, path: &str, sha256: &str) -> (r: bool)
    ensures
        r == base_has(files::file_models(rows@), scope@, path@, sha256@),
{
    let ghost all = files::file_models(rows@);
    let mut i: usize = 0;
    while i < rows.len()
        invariant
            i <= rows.len(),
            all == files::file_models(rows@),
            forall|j: int|
                0 <= j < i ==> !(is_in_base(#[trigger] all[j], scope@) && all[j].path == path@
                    && all[j].sha256 == sha256@),
        decreases rows.len() - i,
    {
        assert(all[i as int] == rows@[i as int]@);
        if in_base_row(&rows[i], scope) && same_text(
            rows[i].path.as_str(),
            path,
        ) && same_text(rows[i].sha256.as_str(), sha256) {
            return true;
        }
        i += 1;
    }
    false
}

fn find_differing(rows: &Vec<FileRow>, scope: &Scope, tree: &SourceTree) -> (r: SourceTree)
    ensures
        r@ == tree@.filter(
            |f: (Seq<char>, Seq<char>)|
                !base_has(
                    files::file_models(rows@),
                    scope@,
                    f.0,
                    hash::text_sha256(f.1),
                ),
        ),
{
    let ghost all = tree@;
    let ghost differs = |f: (Seq<char>, Seq<char>)|
        !base_has(files::file_models(rows@), scope@, f.0, hash::text_sha256(f.1));
    let mut r = SourceTree::new();
    let mut i: usize = 0;
    proof {
        reveal(Seq::filter);
        assert(r@ =~= all.take(0).filter(differs));
    }
    while i < tree.files.len()
        invariant
            i <= tree.files.len(),
            all == tree@,
            differs == (|f: (Seq<char>, Seq<char>)|
                !base_has(files::file_models(rows@), scope@, f.0, hash::text_sha256(f.1))),
            r@ == all.take(i as int).filter(differs),
        decreases tree.files.len() - i,
    {
        proof {
            reveal(Seq::filter);
            assert(all.take(i + 1).drop_last() =~= all.take(i as int));
            assert(all.take(i + 1).last() == all[i as int]);
        }
        let sha = hex_sha256(tree.files[i].text.as_str().as_bytes_vec().as_slice());
        if !in_base(rows, scope, tree.files[i].path.as_str(), sha.as_str()) {
            let ghost sofar = r@;
            let row = source::SourceFile {
                path: tree.files[i].path.clone(),
                text: tree.files[i].text.clone(),
            };
            r.files.push(row);
            assert(r@ =~= sofar.push(all[i as int]));
        }
        i += 1;
    }
    assert(all.take(i as int) =~= all);
    r
}

fn find_gone(rows: &Vec<FileRow>, scope: &Scope, tree: &SourceTree, worktree_id: &str) -> (r: Vec<
    FileRow,
>)
    ensures
        files::file_models(r@) == tombstones(
            files::file_models(rows@),
            scope@,
            tree@,
            worktree_id@,
        ),
{
    let ghost all = files::file_models(rows@);
    let ghost gone = |f: FileModel| is_gone(f, scope@, tree@);
    let ghost mark = |f: FileModel| tombstone(f, worktree_id@);
    let mut r: Vec<FileRow> = Vec::new();
    let mut i: usize = 0;
    proof {
        reveal(Seq::filter);
        assert(files::file_models(r@) =~= all.take(0).filter(gone).map_values(mark));
    }
    while i < rows.len()
        invariant
            i <= rows.len(),
            all == files::file_models(rows@),
            gone == (|f: FileModel| is_gone(f, scope@, tree@)),
            mark == (|f: FileModel| tombstone(f, worktree_id@)),
            files::file_models(r@) == all.take(i as int).filter(gone).map_values(mark),
        decreases rows.len() - i,
    {
        proof {
            reveal(Seq::filter);
            assert(all.take(i + 1).drop_last() =~= all.take(i as int));
            assert(all.take(i + 1).last() == rows@[i as int]@);
        }
        let ghost kept = all.take(i as int).filter(gone);
        if in_base_row(&rows[i], scope) && tree.read(
            rows[i].path.as_str(),
        ).is_none() {
            let ghost sofar = files::file_models(r@);
            let mut row = rows[i].copy();
            row.kind = "deleted".to_owned();
            row.sha256 = String::new();
            row.worktree_id = worktree_id.to_owned();
            r.push(row);
            proof {
                assert(row@.sha256 =~= Seq::empty());
                assert(row@ =~= tombstone(all[i as int], worktree_id@));
                assert(files::file_models(r@) =~= sofar.push(row@));
                assert(kept.push(all[i as int]).map_values(mark) =~= kept.map_values(mark).push(
                    row@,
                ));
            }
        }
        i += 1;
    }
    assert(all.take(i as int) =~= all);
    r
}

fn insert_rows(store: &mut DigestStore, rows: &Vec<FileRow>, Ghost(n): Ghost<nat>)
    requires
        old(store)@.fold_registered,
        old(store)@.triggers_live(),
        has_room(old(store)@, rows@.len() + n),
        files::keys_are_unique(old(store)@.files + files::file_models(rows@)),
    ensures
        final(store)@.files == old(store)@.files + files::file_models(rows@),
        final(store)@.same_surroundings(old(store)@),
        final(store)@.same_drift(old(store)@),
        final(store)@.fold_registered,
        final(store)@.triggers_live(),
        has_room(final(store)@, n),
{
    let ghost before = store@;
    let ghost all = files::file_models(rows@);
    let mut i: usize = 0;
    assert(before.files + all.take(0) =~= before.files);
    while i < rows.len()
        invariant
            i <= rows.len(),
            all == files::file_models(rows@),
            before == old(store)@,
            store@.fold_registered,
            store@.triggers_live(),
            has_room(store@, (rows@.len() - i + n) as nat),
            store@.files == before.files + all.take(i as int),
            store@.same_surroundings(before),
            store@.same_drift(before),
            files::keys_are_unique(before.files + all),
        decreases rows.len() - i,
    {
        proof {
            members_of_push(store@.files, rows@[i as int]@);
            let whole = before.files + all;
            let n = before.files.len() + i;
            assert(whole[n] == rows@[i as int]@);
            assert forall|j: int| 0 <= j < store@.files.len() implies !files::same_key(
                #[trigger] store@.files[j],
                rows@[i as int]@,
            ) by {
                assert(store@.files[j] == whole[j]);
                assert(!files::same_key(whole[j], whole[n]));
            }
        }
        let ghost sofar = store@.files;
        let _ = try_insert_file(store, rows[i].copy());
        proof {
            assert(all.take(i + 1) =~= all.take(i as int).push(all[i as int]));
            assert(store@.files =~= before.files + all.take(i + 1));
        }
        i += 1;
    }
    assert(all.take(i as int) =~= all);
}

impl IndexDatabase {
    /// Lays a worktree over the base and lets readers see it: the files in which
    /// its checkout differs from the base, and marks for those that it lacks. What
    /// the worktree had before is taken away; the base stays as it is.
    pub fn index_worktree_overlay(
        &mut self,
        config: &Config,
        linked: &SourceTree,
        worktree_id: &str,
    ) -> (r: OverlayReport)
        requires
            old(self).wf(),
            worktree_id@.len() > 0,
            has_room(old(self).store@, linked@.len() + old(self)@.files.len()),
            overlaid(old(self)@, config@, linked@, worktree_id@).next_id <= u64::MAX,
            source::paths_are_unique(linked@),
        ensures
            final(self).wf(),
            final(self)@ == overlaid(old(self)@, config@, linked@, worktree_id@),
            r.indexed == final(self)@.files.len() - without_worktree(
                old(self)@,
                worktree_id@,
            ).files.len(),
            final(self).store@.same_drift(old(self).store@),
            final(self).store@.same_surroundings(old(self).store@),
            search::term_models(final(self).terms@) == search::terms_of(final(self)@.contents),
            final(self).same_notes(*old(self)),
            final(self).history == old(self).history,
    {
        let ghost before = self@;
        let ghost n = linked@.len();
        let filter = RowFilter::Worktree(self.scope.repo_id.clone(), worktree_id.to_owned());
        drop_contents(&mut self.contents, &filter);
        delete_rows(&mut self.store, filter, Ghost((n + before.files.len()) as nat));
        let ghost rest = without_worktree(before, worktree_id@);
        proof {
            let f1 = |f: FileModel| !digest::picks(filter, f);
            let f2 = |f: FileModel|
                !(f.repo_id == before.repo_id && f.worktree_id == worktree_id@);
            assert(f1 =~= f2);
            let c1 = |c: ContentModel| !drops(filter, c);
            let c2 = |c: ContentModel|
                !(c.repo_id == before.repo_id && c.worktree_id == worktree_id@);
            assert(c1 =~= c2);
            assert(self@ =~= rest);
            members_of_filter(before.files, f2);
            fewer_is_sound(before, rest, f2, c2);
            marks_are_new(before, linked@, worktree_id@);
        }
        let kept: usize = self.store.files.len();
        let changed = find_differing(&self.store.files, &self.scope, linked);
        let gone = find_gone(&self.store.files, &self.scope, linked, worktree_id);
        proof {
            let p = |f: FileModel| is_gone(f, before.scope(), linked@);
            rest.files.lemma_filter_len(p);
            let q = |f: (Seq<char>, Seq<char>)|
                !base_has(rest.files, before.scope(), f.0, hash::text_sha256(f.1));
            linked@.lemma_filter_len(q);
            assert(self.scope@ =~= before.scope());
            assert(changed@ == differing(rest, linked@));
        }
        insert_rows(&mut self.store, &gone, Ghost(n));
        self.scope.worktree_id = worktree_id.to_owned();
        proof {
            let marked = IndexModel {
                files: rest.files + tombstones(
                    rest.files,
                    before.scope(),
                    linked@,
                    worktree_id@,
                ),
                worktree_id: worktree_id@,
                ..rest
            };
            assert(self@ =~= marked);
            ids_grow(marked, config@, changed@, worktree_id@, 0);
            rows_grow(marked, config@, changed@, worktree_id@);
        }
        self.index_tree(config, &changed, worktree_id);
        self.terms = collect_terms(&self.contents);
        OverlayReport { indexed: self.store.files.len() - kept }
    }
}

proof fn marks_are_new(
    db: IndexModel,
    tree: Seq<(Seq<char>, Seq<char>)>,
    worktree_id: Seq<char>,
)
    requires
        db.is_sound(),
        worktree_id.len() > 0,
        source::paths_are_unique(tree),
    ensures
        ({
            let rest = without_worktree(db, worktree_id);
            let marks = tombstones(rest.files, db.scope(), tree, worktree_id);
            let marked = IndexModel { files: rest.files + marks, worktree_id, ..rest };
            let changed = differing(rest, tree);
            &&& files::keys_are_unique(rest.files + marks)
            &&& marked.is_sound()
            &&& source::paths_are_unique(changed)
            &&& forall|k: int|
                0 <= k < changed.len() ==> is_free(
                    marked,
                    (#[trigger] changed[k]).0,
                    worktree_id,
                )
        }),
{
    let rest = without_worktree(db, worktree_id);
    let scope = db.scope();
    let marks = tombstones(rest.files, scope, tree, worktree_id);
    let whole = rest.files + marks;
    let marked = IndexModel { files: whole, worktree_id, ..rest };
    let changed = differing(rest, tree);
    let others = |f: FileModel| !(f.repo_id == db.repo_id && f.worktree_id == worktree_id);
    let gone = |f: FileModel| is_gone(f, scope, tree);
    let kept = rest.files.filter(gone);
    fewer_is_sound(
        db,
        rest,
        others,
        |c: ContentModel| !(c.repo_id == db.repo_id && c.worktree_id == worktree_id),
    );
    files::fewer_keys_stay_unique(rest.files, gone);
    assert forall|i: int| 0 <= i < rest.files.len() implies others(#[trigger] rest.files[i]) by {
        db.files.lemma_filter_pred(others, i);
    }
    assert forall|i: int| 0 <= i < marks.len() implies gone(#[trigger] kept[i]) && marks[i]
        == tombstone(kept[i], worktree_id) by {
        rest.files.lemma_filter_pred(gone, i);
    }
    assert forall|i: int, j: int| 0 <= i < j < whole.len() implies !files::same_key(
        #[trigger] whole[i],
        #[trigger] whole[j],
    ) by {
        let n = rest.files.len();
        if j < n {
            assert(whole[i] == rest.files[i] && whole[j] == rest.files[j]);
        } else {
            let b = j - n;
            assert(gone(kept[b]));
            if i < n {
                assert(others(rest.files[i]));
            } else {
                let a = i - n;
                assert(gone(kept[a]));
                assert(!files::same_key(kept[a], kept[b]));
                assert(kept[a].worktree_id =~= kept[b].worktree_id);
            }
        }
    }
    assert forall|i: int|
        0 <= i < whole.len() && (#[trigger] whole[i]).repo_id
            == db.repo_id implies whole[i].generation <= db.generation by {
        if i < rest.files.len() {
            assert(whole[i] == rest.files[i]);
        } else {
            assert(gone(kept[i - rest.files.len()]));
        }
    }
    let differs = |f: (Seq<char>, Seq<char>)|
        !base_has(rest.files, rest.scope(), f.0, hash::text_sha256(f.1));
    source::fewer_paths_are_unique(tree, differs);
    assert forall|k: int| 0 <= k < changed.len() implies is_free(
        marked,
        (#[trigger] changed[k]).0,
        worktree_id,
    ) by {
        assert(changed.contains(changed[k]));
        tree.lemma_filter_contains_rev(differs, changed[k]);
        let m = choose|m: int| 0 <= m < tree.len() && tree[m] == changed[k];
        assert forall|i: int| 0 <= i < whole.len() implies !is_at(
            #[trigger] whole[i],
            marked.scope_in(worktree_id),
            changed[k].0,
        ) by {
            if i < rest.files.len() {
                assert(whole[i] == rest.files[i]);
                assert(others(rest.files[i]));
            } else {
                assert(gone(kept[i - rest.files.len()]));
                source::absent_paths_are_not_listed(tree, whole[i].path, m);
            }
        }
    }
}

proof fn rows_grow(
    db: IndexModel,
    targets: Seq<TargetModel>,
    tree: Seq<(Seq<char>, Seq<char>)>,
    worktree_id: Seq<char>,
)
    ensures
        db.files.len() <= with_files(db, targets, tree, worktree_id).files.len(),
    decreases tree.len(),
{
    if tree.len() > 0 {
        rows_grow(db, targets, tree.drop_last(), worktree_id);
    }
}

} // verus!

//! Small checkouts and indexes to try the library on.
use vstd::prelude::*;
use crate::chunks::EmbeddingPolicy;
use crate::content;
use crate::content::{ChunkModel, Content, ContentModel, Language};
use crate::embedding;
use crate::history;
use crate::ids;
use crate::index;
use crate::index::{Config, IndexDatabase, IndexModel, TargetKind, TargetModel};
use crate::source;
use crate::source::SourceTree;

verus! {

/// The path of a file in a directory `foo`.
pub const NESTED_PATH: &'static str = "src/foo/bar.rs";

/// The path of a file whose name holds a backslash.
pub const BACKSLASH_PATH: &'static str = "src/foo\\bar.rs";

/// Writes two files whose paths differ in a slash and a backslash alone.
pub fn write_colliding_pair(tree: &mut SourceTree, nested_body: &str, backslash_body: &str)
    ensures
        final(tree)@ == source::written(
            source::written(old(tree)@, NESTED_PATH@, nested_body@),
            BACKSLASH_PATH@,
            backslash_body@,
        ),
{
    tree.write(NESTED_PATH, nested_body);
    tree.write(BACKSLASH_PATH, backslash_body);
}

/// The two files of a colliding pair are two: each is read as it was written.
pub proof fn pair_does_not_collide(
    tree: Seq<(Seq<char>, Seq<char>)>,
    nested_body: Seq<char>,
    backslash_body: Seq<char>,
)
    ensures
        ({
            let both = source::written(
                source::written(tree, NESTED_PATH@, nested_body),
                BACKSLASH_PATH@,
                backslash_body,
            );
            &&& source::text_in(both, NESTED_PATH@) == Some(nested_body)
            &&& source::text_in(both, BACKSLASH_PATH@) == Some(backslash_body)
        }),
{
    reveal_strlit("src/foo/bar.rs");
    reveal_strlit("src/foo\\bar.rs");
    assert(NESTED_PATH@[7] != BACKSLASH_PATH@[7]);
    let one = source::written(tree, NESTED_PATH@, nested_body);
    source::write_is_read_back(tree, NESTED_PATH@, nested_body, BACKSLASH_PATH@);
    source::write_is_read_back(one, BACKSLASH_PATH@, backslash_body, NESTED_PATH@);
}

/// The targets of a checkout with Rust sources.
pub open spec fn rust_targets() -> Seq<TargetModel> {
    seq![TargetModel { directory: "src"@, language: Language::Rust, kind: TargetKind::Source }]
}

/// A checkout with one small file, and what is to be indexed of it.
pub fn digest_repo_config() -> (r: (SourceTree, Config))
    ensures
        r.0@ == seq![("src/lib.rs"@, "pub fn a() {}\n"@)],
        r.1@ == rust_targets(),
{
    let mut tree = SourceTree::new();
    tree.write("src/lib.rs", "pub fn a() {}\n");
    assert(tree@ =~= seq![("src/lib.rs"@, "pub fn a() {}\n"@)]);
    (tree, Config::of_source("src", Language::Rust))
}

/// A function that is worth an embedding.
pub const RUST_CODE: &'static str =
    "pub fn compute(x: i64, y: i64) -> i64 {\n    let sum = x * 2 + y - 1;\n    sum.wrapping_mul(3)\n}\n";

/// Leaves one file in the checkout, with a function that is worth an embedding.
pub fn rust_fixture(tree: &mut SourceTree)
    ensures
        final(tree)@ == seq![("src/code.rs"@, RUST_CODE@)],
{
    *tree = SourceTree::new();
    tree.write("src/code.rs", RUST_CODE);
    assert(tree@ =~= seq![("src/code.rs"@, RUST_CODE@)]);
}

/// The name of the model that needs no download.
pub const HASH_MODEL_ID: &'static str = "hash";

/// The chunk, with a policy that says not to embed where it said to.
pub open spec fn poisoned_chunk(k: ChunkModel) -> ChunkModel {
    if k.policy == EmbeddingPolicy::Embed {
        ChunkModel { policy: EmbeddingPolicy::SkipLowSignal, ..k }
    } else {
        k
    }
}

/// The content with poisoned chunks.
pub open spec fn poisoned_content(c: ContentModel) -> ContentModel {
    ContentModel { chunks: c.chunks.map_values(|k: ChunkModel| poisoned_chunk(k)), ..c }
}

/// The index with poisoned chunks.
pub open spec fn poisoned(db: IndexModel) -> IndexModel {
    IndexModel {
        contents: db.contents.map_values(|c: ContentModel| poisoned_content(c)),
        ..db
    }
}

fn poison_content(c: &mut Content)
    ensures
        final(c)@ == poisoned_content(old(c)@),
{
    let ghost before = c@;
    let ghost goal = before.chunks.map_values(|k: ChunkModel| poisoned_chunk(k));
    let mut i: usize = 0;
    while i < c.chunks.len()
        invariant
            i <= c.chunks.len(),
            before == old(c)@,
            before.chunks.len() == c.chunks.len(),
            goal == before.chunks.map_values(|k: ChunkModel| poisoned_chunk(k)),
            c@.chunks =~= goal.take(i as int) + before.chunks.skip(i as int),
            c@ == (ContentModel { chunks: c@.chunks, ..before }),
        decreases c.chunks.len() - i,
    {
        let ghost now = c@.chunks;
        assert(now[i as int] == before.chunks[i as int]);
        assert(now[i as int] == c.chunks@[i as int]@);
        if c.chunks[i].policy == EmbeddingPolicy::Embed {
            c.chunks[i].policy = EmbeddingPolicy::SkipLowSignal;
            assert(c@.chunks =~= now.update(i as int, goal[i as int]));
        }
        assert(c@.chunks[i as int] =~= goal[i as int]);
        i += 1;
    }
    assert(c@ =~= poisoned_content(before));
}

/// Poisons the stored policies: whoever reads them finds nothing to embed.
pub fn poison_policies(db: &mut IndexDatabase)
    ensures
        final(db)@ == poisoned(old(db)@),
        *final(db) == (IndexDatabase { contents: final(db).contents, ..*old(db) }),
{
    let ghost before = *db;
    let ghost goal = poisoned(before@).contents;
    let mut i: usize = 0;
    while i < db.contents.len()
        invariant
            i <= db.contents.len(),
            before == *old(db),
            *db == (IndexDatabase { contents: db.contents, ..before }),
            before@.contents.len() == db.contents.len(),
            goal == poisoned(before@).contents,
            db@.contents =~= goal.take(i as int) + before@.contents.skip(i as int),
        decreases db.contents.len() - i,
    {
        let ghost now = db@.contents;
        proof {
            assert(now[i as int] == before@.contents[i as int]);
            assert(now[i as int] == db.contents@[i as int]@);
        }
        poison_content(&mut db.contents[i]);
        assert(db@.contents =~= now.update(i as int, goal[i as int]));
        i += 1;
    }
    assert(db@ =~= poisoned(before@));
}

/// An index without files.
pub open spec fn empty_index(commit_sha: Seq<char>) -> IndexModel {
    IndexModel {
        files: Seq::empty(),
        contents: Seq::empty(),
        names: Seq::empty(),
        next_id: 1,
        repo_id: history::LEGACY_REPO_ID@,
        commit_sha,
        worktree_id: Seq::empty(),
        generation: 0,
    }
}

/// An index of [`rust_fixture`] with certified but poisoned policies, and a model
/// to embed with.
pub fn poisoned_embed_fixture(tree: &mut SourceTree) -> (r: IndexDatabase)
    ensures
        final(tree)@ == seq![("src/code.rs"@, RUST_CODE@)],
        r.wf(),
        r@ == poisoned(
            index::rebuilt(empty_index(Seq::empty()), rust_targets(), final(tree)@),
        ),
        r.store@.has_parity(),
        embedding::is_certified(r.history@),
        embedding::model_text(r.model) == HASH_MODEL_ID@,
        r.embeddings@.len() == 0,
{
    rust_fixture(tree);
    let config = Config::of_source("src", Language::Rust);
    let mut db = IndexDatabase::open("");
    proof {
        reveal_strlit("");
        assert(""@ =~= Seq::<char>::empty());
        assert(config@ =~= rust_targets());
        fixture_fits(db@, config@, tree@);
        assert(!index::carries(db@.files, db@.scope()));
        assert(source::paths_are_unique(tree@));
    }
    let ghost before = db;
    db.rebuild(&config, tree);
    proof {
        crate::digest::parity_is_no_drift(before.store@, db.store@);
        embedding::stamping_certifies(before.history@, db.history@, 0);
    }
    db.install_model(HASH_MODEL_ID);
    let ghost clean = db@;
    poison_policies(&mut db);
    proof {
        assert forall|i: int| 0 <= i < db@.contents.len() implies ids::same_numbers(
            #[trigger] db@.contents[i],
            clean.contents[i],
        ) by {
            assert(db@.contents[i] == poisoned_content(clean.contents[i]));
        }
        ids::same_numbers_stay(clean.contents, db@.contents, clean.next_id);
    }
    db
}

proof fn fixture_fits(db: IndexModel, targets: Seq<TargetModel>, tree: Seq<(Seq<char>, Seq<char>)>)
    requires
        db.next_id == 1,
        tree == seq![("src/code.rs"@, RUST_CODE@)],
    ensures
        index::rebuilt(db, targets, tree).next_id <= u64::MAX,
{
    reveal_strlit(
        "pub fn compute(x: i64, y: i64) -> i64 {\n    let sum = x * 2 + y - 1;\n    sum.wrapping_mul(3)\n}\n",
    );
    assert(tree.drop_last() =~= Seq::empty());
    let rest = index::with_files(index::advanced(db), targets, tree.drop_last(), Seq::empty());
    assert(rest == index::advanced(db));
    match index::target_of(targets, tree.last().0) {
        Some(t) => {
            content::content_is_bounded(RUST_CODE@, index::manner_of(t, tree.last().0));
        },
        None => {},
    }
}

} // verus!

//! When stored embedding policies may be read, and when they are found anew.

use rag_rat_core::chunks::{EmbeddingPolicy, DEFAULT_MAX_EMBEDDING_CHARS};
use rag_rat_core::content::Language;
use rag_rat_core::digest::try_insert_file;
use rag_rat_core::embedding::{embedding_policy_skip_summary, policy_version, stale_the_stamp};
use rag_rat_core::files::FileRow;
use rag_rat_core::fixtures::{poisoned_embed_fixture, rust_fixture, HASH_MODEL_ID};
use rag_rat_core::history::repo_meta;
use rag_rat_core::index::{
    Config, IndexDatabase, Target, TargetKind, EMBEDDING_POLICY_CAP_KEY, EMBEDDING_POLICY_VERSION,
    EMBEDDING_POLICY_VERSION_KEY,
};
use rag_rat_core::source::SourceTree;

fn rebuild(tree: &SourceTree) -> (Config, IndexDatabase) {
    let config = Config::of_source("src", Language::Rust);
    let mut db = IndexDatabase::open("");
    db.rebuild(&config, tree);
    (config, db)
}

fn fixture() -> (SourceTree, Config, IndexDatabase) {
    let mut tree = SourceTree::new();
    rust_fixture(&mut tree);
    let (config, db) = rebuild(&tree);
    (tree, config, db)
}

/// Stores `SkipGenerated` for the first chunk that is embedded.
fn poison_first(db: &mut IndexDatabase) {
    for content in db.contents.iter_mut() {
        for chunk in content.chunks.iter_mut() {
            if chunk.policy == EmbeddingPolicy::Embed {
                chunk.policy = EmbeddingPolicy::SkipGenerated;
                return;
            }
        }
    }
    panic!("no chunk is embedded");
}

fn policy_in_column(db: &IndexDatabase, value: EmbeddingPolicy) -> usize {
    db.contents
        .iter()
        .filter(|c| c.generation == db.scope.generation)
        .flat_map(|c| c.chunks.iter())
        .filter(|chunk| chunk.policy == value)
        .count()
}

#[test]
fn rebuild_stamps_the_policy_version_current() {
    let (_, _, db) = fixture();
    assert_eq!(policy_version(&db).as_deref(), Some(EMBEDDING_POLICY_VERSION));
    assert_eq!(
        repo_meta(&db.history, &db.history.active_repo_id, EMBEDDING_POLICY_CAP_KEY).as_deref(),
        Some(DEFAULT_MAX_EMBEDDING_CHARS.to_string().as_str()),
        "the stamp records the DEFAULT cap the column was derived at"
    );
}

#[test]
fn rebuild_carrying_overlay_rows_does_not_certify() {
    let mut tree = SourceTree::new();
    tree.write("src/lib.rs", "pub fn base() {}\n");
    let (config, mut db) = rebuild(&tree);
    assert_eq!(policy_version(&db).as_deref(), Some(EMBEDDING_POLICY_VERSION));

    let overlay = FileRow {
        repo_id: db.history.active_repo_id.clone(),
        path: "src/lib.rs".to_string(),
        language: "rust".to_string(),
        kind: "source".to_string(),
        sha256: "stale".to_string(),
        modified_at_ms: 0,
        indexed_at_ms: 0,
        generated: false,
        commit_sha: String::new(),
        worktree_id: "some-linked-worktree".to_string(),
        generation: db.scope.generation,
    };
    try_insert_file(&mut db.store, overlay).unwrap();
    stale_the_stamp(&mut db);

    db.rebuild(&config, &tree);
    assert_ne!(
        policy_version(&db).as_deref(),
        Some(EMBEDDING_POLICY_VERSION),
        "a rebuild that carried un-reparsed overlay rows must not certify the version current"
    );
}

#[test]
fn fast_path_refused_at_non_default_cap() {
    let (_, _, mut db) = fixture();
    poison_first(&mut db);

    let fast = embedding_policy_skip_summary(&db, DEFAULT_MAX_EMBEDDING_CHARS);
    let recomputed = embedding_policy_skip_summary(&db, DEFAULT_MAX_EMBEDDING_CHARS + 1_000);
    assert!(
        fast.generated > recomputed.generated,
        "default-cap fast path reads the poisoned column; a non-default cap recomputes from \
         source: {fast:?} vs {recomputed:?}"
    );
}

#[test]
fn self_heal_skipped_at_non_default_cap() {
    let (_, _, mut db) = fixture();
    stale_the_stamp(&mut db);
    db.reconcile(DEFAULT_MAX_EMBEDDING_CHARS + 1_000);
    assert_eq!(
        policy_version(&db).as_deref(),
        Some("pre-upgrade"),
        "a non-default-cap reconcile must not certify the DEFAULT-cap column"
    );
}

#[test]
fn reconcile_plan_classifies_at_the_requested_cap() {
    let mut tree = SourceTree::new();
    let big =
        "// generated data line with sufficient length to matter for the cap xxxxx\n".repeat(80);
    tree.write("gen/bindings.rs", &big);
    let config = Config {
        targets: vec![Target {
            directory: "gen".to_string(),
            language: Language::Rust,
            kind: TargetKind::Generated,
        }],
    };
    let mut db = IndexDatabase::open("");
    db.rebuild(&config, &tree);

    let default_plan = db.reconcile_plan();
    assert!(
        default_plan.skipped.generated > 0,
        "default cap: the generated chunk is SkipGenerated: {:?}",
        default_plan.skipped
    );
    let small_plan = db.reconcile_plan_with_cap(1_000);
    assert!(
        small_plan.skipped.too_large > 0,
        "cap=1000: the same chunk is now SkipTooLarge: {:?}",
        small_plan.skipped
    );
}

#[test]
fn incremental_edit_keeps_the_certified_column_fresh() {
    let (mut tree, config, mut db) = fixture();

    assert_eq!(policy_version(&db).as_deref(), Some(EMBEDDING_POLICY_VERSION));
    assert!(
        policy_in_column(&db, EmbeddingPolicy::Embed) >= 1,
        "the fn chunk is Embed in the column"
    );
    assert_eq!(
        policy_in_column(&db, EmbeddingPolicy::SkipLowSignal),
        0,
        "no low-signal chunk yet"
    );

    tree.write(
        "src/code.rs",
        "use std::collections::HashMap;\nuse std::fmt::Debug;\nuse std::io::Read;\nuse \
         std::sync::Arc;\n",
    );
    db.heal_file(&config, &tree, "src/code.rs");

    assert_eq!(
        policy_in_column(&db, EmbeddingPolicy::Embed),
        0,
        "the old Embed value is gone from the column"
    );
    assert!(
        policy_in_column(&db, EmbeddingPolicy::SkipLowSignal) >= 1,
        "the heal wrote the flipped policy into the certified column"
    );
    assert_eq!(
        policy_version(&db).as_deref(),
        Some(EMBEDDING_POLICY_VERSION),
        "incremental indexing must not invalidate the stamp"
    );
}

#[test]
fn reconcile_embed_path_reads_the_stamped_policy_column() {
    let mut tree = SourceTree::new();
    let mut db = poisoned_embed_fixture(&mut tree);
    let report = db.reconcile(DEFAULT_MAX_EMBEDDING_CHARS);
    assert_eq!(
        report.embeddings_written, 0,
        "a certified-stamp reconcile must serve the poisoned column; an embedding written means \
         the embed path re-derived policy from text"
    );
    assert_eq!(db.current_embedding_count(HASH_MODEL_ID), 0);
    assert_eq!(
        report.classified_from_text, 0,
        "a certified-stamp embed path must not re-classify any candidate FromText"
    );
}

#[test]
fn stale_stamp_reconcile_heals_then_takes_the_fast_path() {
    let mut tree = SourceTree::new();
    let mut db = poisoned_embed_fixture(&mut tree);
    stale_the_stamp(&mut db);
    let report = db.reconcile(DEFAULT_MAX_EMBEDDING_CHARS);
    assert_eq!(
        report.classified_from_text, 0,
        "after the heal re-certifies the stamp, the embed loop must read the column, not \
         re-parse: {report:?}"
    );
    assert_eq!(
        policy_version(&db).as_deref(),
        Some(EMBEDDING_POLICY_VERSION),
        "the stale-stamp reconcile heals and re-certifies"
    );
    assert!(report.embeddings_written >= 1, "the healed Embed chunk still embeds: {report:?}");
}

#[test]
fn reconcile_plan_classifies_from_the_stamped_column_like_the_embed_path() {
    let mut tree = SourceTree::new();
    let db = poisoned_embed_fixture(&mut tree);
    let plan = db.reconcile_plan();
    assert_eq!(
        plan.classified_from_text, 0,
        "a certified-stamp plan must read the column, not re-classify FromText"
    );
    assert_eq!(
        plan.missing, 0,
        "the plan reads the poisoned (SkipLowSignal) column, so nothing is eligible: {plan:?}"
    );
}

#[test]
fn self_heal_refreshes_stale_priorities_under_an_unchanged_policy() {
    let (_, _, mut db) = fixture();
    let mut poisoned = 0;
    for content in db.contents.iter_mut() {
        for chunk in content.chunks.iter_mut() {
            if chunk.policy == EmbeddingPolicy::Embed {
                chunk.priority = 7;
                poisoned += 1;
            }
        }
    }
    assert!(poisoned >= 1, "the fixture must have an Embed chunk whose priority can be poisoned");
    stale_the_stamp(&mut db);

    db.reconcile(DEFAULT_MAX_EMBEDDING_CHARS);

    let still_poisoned =
        db.contents.iter().flat_map(|c| c.chunks.iter()).filter(|c| c.priority == 7).count();
    assert_eq!(still_poisoned, 0, "the heal must recompute priorities, not just policy names");
    assert_eq!(
        policy_version(&db).as_deref(),
        Some(EMBEDDING_POLICY_VERSION),
        "the heal re-certifies after writing BOTH columns"
    );
}

#[test]
fn reconcile_embed_path_recomputes_at_a_non_default_cap() {
    let mut tree = SourceTree::new();
    let mut db = poisoned_embed_fixture(&mut tree);
    let report = db.reconcile(DEFAULT_MAX_EMBEDDING_CHARS + 1_000);
    assert!(
        report.embeddings_written >= 1,
        "a non-default-cap reconcile must not trust the DEFAULT-cap column: {report:?}"
    );
    assert!(
        report.classified_from_text > 0,
        "the uncertified embed path must re-derive policy FromText (the fallback the fast path \
         avoids)"
    );
}

#[test]
fn absent_stamp_takes_the_recompute_path() {
    let (_, _, mut db) = fixture();
    poison_first(&mut db);
    db.history.meta.retain(|m| m.key != EMBEDDING_POLICY_VERSION_KEY);

    let summary = embedding_policy_skip_summary(&db, DEFAULT_MAX_EMBEDDING_CHARS);
    assert_eq!(
        summary.generated, 0,
        "an absent stamp forces a recompute that ignores the poisoned column: {summary:?}"
    );
}

#[test]
fn a_blocked_reconcile_still_finds_the_policies_anew() {
    let (_, _, mut db) = fixture();
    poison_first(&mut db);
    stale_the_stamp(&mut db);
    let report = db.reconcile(DEFAULT_MAX_EMBEDDING_CHARS);
    assert!(report.blocked && report.embeddings_written == 0 && db.embeddings.is_empty());
    assert_eq!(policy_in_column(&db, EmbeddingPolicy::SkipGenerated), 0);
    assert_eq!(policy_version(&db).as_deref(), Some(EMBEDDING_POLICY_VERSION));
}

#[test]
fn a_reconcile_without_a_model_is_blocked() {
    let (_, _, mut db) = fixture();
    let report = db.reconcile(DEFAULT_MAX_EMBEDDING_CHARS);
    assert!(report.blocked);
    assert_eq!(report.embeddings_written, 0);
    assert!(db.embeddings.is_empty());
}

#[test]
fn a_plan_foretells_the_reconcile_that_follows() {
    let (_, _, mut db) = fixture();
    db.install_model(HASH_MODEL_ID);
    let plan = db.reconcile_plan();
    let report = db.reconcile(DEFAULT_MAX_EMBEDDING_CHARS);
    assert_eq!(plan.missing, report.embeddings_written);
    assert_eq!(db.current_embedding_count(HASH_MODEL_ID), report.embeddings_written);
    assert_eq!(db.reconcile_plan().missing, 0);
    assert_eq!(db.reconcile(DEFAULT_MAX_EMBEDDING_CHARS).embeddings_written, 0);
}

#[test]
fn policies_go_by_kind_and_length() {
    let text = |n: usize| "x".repeat(n);
    let cap = DEFAULT_MAX_EMBEDDING_CHARS;
    let classify = rag_rat_core::chunks::classify;
    assert_eq!(classify(&text(cap + 1), false, cap), EmbeddingPolicy::SkipTooLarge);
    assert_eq!(classify(&text(cap), true, cap), EmbeddingPolicy::SkipGenerated);
    assert_eq!(classify("fn f() {}", false, cap), EmbeddingPolicy::SkipTooSmall);
    assert_eq!(EmbeddingPolicy::SkipTooLarge.as_str(), "SkipTooLarge");
}

//! A backslash in a file name is part of the name and separates nothing.

use rag_rat_core::content::Language;
use rag_rat_core::files::visible_rows;
use rag_rat_core::fixtures::{write_colliding_pair, BACKSLASH_PATH, NESTED_PATH};
use rag_rat_core::index::{Config, IndexDatabase};
use rag_rat_core::memory::{
    create_memory, memories_for_path, RepoMemoryBindTarget, RepoMemoryCreate,
};
use rag_rat_core::scoped::{
    names_in_scope, scoped_chunk_ids, scoped_paths, scoped_qualified_names,
};
use rag_rat_core::source::SourceTree;

fn rebuild(tree: &SourceTree) -> (Config, IndexDatabase) {
    let config = Config::of_source("", Language::Rust);
    let mut db = IndexDatabase::open("");
    db.rebuild(&config, tree);
    (config, db)
}

#[test]
fn a_backslash_named_file_gets_its_own_row_chunks_and_qualified_names() {
    let mut tree = SourceTree::new();
    write_colliding_pair(
        &mut tree,
        "pub fn nested_fn() -> i32 { 1 }\n",
        "pub fn backslash_fn() -> i32 { 2 }\n",
    );
    let (_, db) = rebuild(&tree);

    assert_eq!(
        scoped_paths(&db),
        vec![NESTED_PATH.to_string(), BACKSLASH_PATH.to_string()],
        "the nested file and the backslash-named file are two rows"
    );

    let nested_chunks = scoped_chunk_ids(&db, NESTED_PATH);
    let backslash_chunks = scoped_chunk_ids(&db, BACKSLASH_PATH);
    assert!(!nested_chunks.is_empty(), "the nested file has chunks");
    assert!(!backslash_chunks.is_empty(), "the backslash-named file has chunks");
    assert!(
        nested_chunks.iter().all(|id| !backslash_chunks.contains(id)),
        "the two files must not share chunks: {nested_chunks:?} vs {backslash_chunks:?}"
    );

    assert_eq!(
        scoped_qualified_names(&db),
        vec![format!("{NESTED_PATH}::nested_fn"), format!("{BACKSLASH_PATH}::backslash_fn")],
        "each file names its own symbol"
    );
}

#[test]
fn a_path_bound_memory_resolves_to_the_file_it_names_not_its_slash_sibling() {
    let mut tree = SourceTree::new();
    write_colliding_pair(
        &mut tree,
        "pub fn nested_fn() -> i32 { 1 }\n",
        "pub fn backslash_fn() -> i32 { 2 }\n",
    );
    let (_, mut db) = rebuild(&tree);

    let rows = visible_rows(&db.store.files, &db.scope);
    let mut bind_to = |path: &str, title: &str| {
        create_memory(
            &mut db.memories,
            &rows,
            RepoMemoryCreate {
                kind: "Invariant".to_string(),
                title: title.to_string(),
                body: "body".to_string(),
                confidence: "high".to_string(),
                created_by: None,
                source: None,
                tags: Vec::new(),
                bind: RepoMemoryBindTarget {
                    path: Some(path.to_string()),
                    ..RepoMemoryBindTarget::default()
                },
            },
        )
        .unwrap()
    };
    let backslash = bind_to(BACKSLASH_PATH, "about the backslash-named file");
    let nested = bind_to(NESTED_PATH, "about the nested file");
    assert_eq!(
        backslash.memory.bindings[0].anchor_status, "current",
        "the binding resolves against a real row, not a collapsed sibling's"
    );

    let titles = |path: &str| {
        let mut found: Vec<String> =
            memories_for_path(&db.memories, path, 10).into_iter().map(|m| m.title).collect();
        found.sort();
        found
    };
    assert_eq!(
        titles(BACKSLASH_PATH),
        vec![backslash.memory.title.clone()],
        "the backslash-named file surfaces only its own memory"
    );
    assert_eq!(
        titles(NESTED_PATH),
        vec![nested.memory.title.clone()],
        "and the nested sibling surfaces only its own"
    );
}

#[test]
fn a_worktree_overlay_shadows_only_the_backslash_named_sibling() {
    let mut main = SourceTree::new();
    write_colliding_pair(
        &mut main,
        "pub fn nested_base() -> i32 { 1 }\n",
        "pub fn backslash_base() -> i32 { 2 }\n",
    );
    let (config, mut db) = rebuild(&main);
    assert_eq!(names_in_scope(&db, NESTED_PATH), vec!["nested_base".to_string()]);
    assert_eq!(names_in_scope(&db, BACKSLASH_PATH), vec!["backslash_base".to_string()]);

    let mut linked = SourceTree::new();
    write_colliding_pair(
        &mut linked,
        "pub fn nested_base() -> i32 { 1 }\n",
        "pub fn backslash_branch() -> i32 { 3 }\n",
    );

    let report = db.index_worktree_overlay(&config, &linked, "linked");
    assert!(report.indexed >= 1, "the branch's edited file is indexed as an overlay row");

    assert_eq!(
        names_in_scope(&db, BACKSLASH_PATH),
        vec!["backslash_branch".to_string()],
        "the overlay scope sees the branch's backslash-named file"
    );
    assert_eq!(
        names_in_scope(&db, NESTED_PATH),
        vec!["nested_base".to_string()],
        "the nested sibling is not shadowed by an edit to the backslash-named file"
    );

    db.set_base_scope();
    assert_eq!(
        names_in_scope(&db, BACKSLASH_PATH),
        vec!["backslash_base".to_string()],
        "the base scope keeps its own backslash-named file, unshadowed by the branch"
    );
    assert_eq!(names_in_scope(&db, NESTED_PATH), vec!["nested_base".to_string()]);
}

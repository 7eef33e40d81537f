//! What an index keeps of each file: its chunks, its words and its names.

use rag_rat_core::chunks::{has_test_code, EmbeddingPolicy};
use rag_rat_core::content::{Content, Language, Symbol};
use rag_rat_core::digest::try_insert_file;
use rag_rat_core::files::FileRow;
use rag_rat_core::graph::FileSyntax;
use rag_rat_core::imports::{find_package, find_packages, find_type_references};
use rag_rat_core::index::{Config, IndexDatabase};
use rag_rat_core::items::ItemKind;
use rag_rat_core::scoped::{is_test_file, scoped_paths, scoped_qualified_names};
use rag_rat_core::search::count_matches;
use rag_rat_core::source::SourceTree;

fn rebuild(tree: &SourceTree, language: Language) -> (Config, IndexDatabase) {
    let config = Config::of_source("src", language);
    let mut db = IndexDatabase::open("");
    db.rebuild(&config, tree);
    (config, db)
}

fn corpus(db: &IndexDatabase) -> String {
    db.contents
        .iter()
        .filter(|c| c.generation == db.scope.generation)
        .flat_map(|c| c.chunks.iter())
        .map(|chunk| chunk.text.as_str())
        .collect()
}

#[test]
fn rebuild_fts_repopulates_contentless_chunk_fts_from_the_store() {
    let mut tree = SourceTree::new();
    tree.write("src/a.rs", "pub fn alpha_recovery() {}\n");
    let (_, mut db) = rebuild(&tree, Language::Rust);
    let match_count = |db: &IndexDatabase| count_matches(&db.terms, "alpha_recovery");

    assert_eq!(match_count(&db), 1, "full rebuild writes chunk_fts inline");

    db.terms.clear();
    assert_eq!(match_count(&db), 0);
    db.rebuild_fts();
    assert_eq!(
        match_count(&db),
        1,
        "rebuild_fts repopulates contentless chunk_fts from chunk_text"
    );
}

#[test]
fn a_rebuild_keeps_the_text_of_every_chunk() {
    let mut tree = SourceTree::new();
    tree.write("src/a.rs", "pub fn alpha() {}\npub fn beta(x: u8) -> u8 { x }\n");
    tree.write("src/b.rs", "pub fn gamma() -> u8 { 3 }\n");
    let (_, db) = rebuild(&tree, Language::Rust);
    let text = corpus(&db);
    assert!(
        text.contains("alpha") && text.contains("beta") && text.contains("gamma"),
        "the store contains the indexed source"
    );
}

#[test]
fn healing_replaces_the_text_of_a_file() {
    let mut tree = SourceTree::new();
    tree.write("src/a.rs", "pub fn original() -> u8 { 1 }\n");
    let (config, mut db) = rebuild(&tree, Language::Rust);
    tree.write("src/a.rs", "pub fn changed() -> u8 { 2 }\npub fn added() {}\n");
    db.heal_file(&config, &tree, "src/a.rs");
    let text = corpus(&db);
    assert!(text.contains("changed") && text.contains("added"), "the NEW text is what's stored");
    assert!(!text.contains("original"), "stale pre-heal text is gone from the store");
    assert_eq!(count_matches(&db.terms, "original"), 0);
    assert_eq!(count_matches(&db.terms, "changed"), 1);
}

#[test]
fn a_blank_file_has_no_chunks_until_it_is_healed_with_text() {
    let mut tree = SourceTree::new();
    tree.write("src/empty.md", "   \n\t\n  \n");
    let (config, mut db) = rebuild(&tree, Language::Markdown);
    assert_eq!(scoped_paths(&db), vec!["src/empty.md".to_string()]);
    assert_eq!(db.contents.iter().map(|c| c.chunks.len()).sum::<usize>(), 0);

    tree.write("src/empty.md", "# Title\n\nReal content that yields a chunk.\n");
    db.heal_file(&config, &tree, "src/empty.md");
    assert!(db.contents.iter().map(|c| c.chunks.len()).sum::<usize>() >= 1);
    assert!(corpus(&db).contains("Real content"));
}

#[test]
fn gc_preserves_a_name_strings_entry_referenced_only_by_a_symbol() {
    let mut tree = SourceTree::new();
    tree.write("src/note.md", "# Note\nplaceholder\n");
    let (_, mut db) = rebuild(&tree, Language::Markdown);
    let row = FileRow {
        repo_id: db.scope.repo_id.clone(),
        path: "only.rs".to_string(),
        language: "rust".to_string(),
        kind: "source".to_string(),
        sha256: "h".to_string(),
        modified_at_ms: 0,
        indexed_at_ms: 0,
        generated: false,
        commit_sha: db.scope.commit_sha.clone(),
        worktree_id: db.scope.worktree_id.clone(),
        generation: db.scope.generation,
    };
    try_insert_file(&mut db.store, row).unwrap();
    let symbol_only_qn = "only.rs::orphan_if_gc_is_wrong";
    db.names.push(symbol_only_qn.to_string());
    db.names.push("unused::name".to_string());
    let id = db.next_id;
    db.next_id += 1;
    db.contents.push(Content {
        repo_id: db.scope.repo_id.clone(),
        path: "only.rs".to_string(),
        commit_sha: db.scope.commit_sha.clone(),
        worktree_id: db.scope.worktree_id.clone(),
        generation: db.scope.generation,
        language: Language::Rust,
        source: String::new(),
        has_test_code: false,
        symbols: vec![Symbol {
            id,
            name: "orphan_if_gc_is_wrong".to_string(),
            qualified_name: symbol_only_qn.to_string(),
            kind: ItemKind::Function,
            start: 0,
            end: 10,
            start_line: 1,
            end_line: 1,
            print: None,
        }],
        chunks: vec![],
    });

    let live_commits = vec![db.scope.commit_sha.clone()];
    let live_worktrees = vec![db.scope.worktree_id.clone()];
    db.prune_to_live(&live_commits, &live_worktrees);

    let surviving = db.names.iter().filter(|n| n.as_str() == symbol_only_qn).count();
    assert_eq!(surviving, 1, "gc must NOT prune a pool entry a live symbol references");
    assert!(!db.names.iter().any(|n| n == "unused::name"), "an unused entry is swept");
    assert!(scoped_qualified_names(&db).contains(&symbol_only_qn.to_string()));
}

#[test]
fn files_has_test_code_flag_is_computed_at_index_time() {
    let mut tree = SourceTree::new();
    tree.write("src/markers.rs", "#[cfg(test)]\nmod inner {\n    pub fn check() {}\n}\n");
    tree.write("src/plain.rs", "pub fn plain_helper() {}\n");
    let (_, db) = rebuild(&tree, Language::Rust);

    let flag = |path: &str| -> i64 { is_test_file(&db, path) as i64 };
    assert_eq!(flag("src/markers.rs"), 1, "a #[cfg(test)] file gets has_test_code = 1");
    assert_eq!(flag("src/plain.rs"), 0, "a plain file gets has_test_code = 0");
}

#[test]
fn files_has_test_code_flag_survives_the_heal_path() {
    let mut tree = SourceTree::new();
    tree.write("src/markers.rs", "#[cfg(test)]\nmod inner {\n    pub fn check() {}\n}\n");
    let (config, mut db) = rebuild(&tree, Language::Rust);
    assert!(is_test_file(&db, "src/markers.rs"), "full index sets has_test_code");
    db.heal_file(&config, &tree, "src/markers.rs");
    assert!(is_test_file(&db, "src/markers.rs"), "heal_file keeps has_test_code = 1");
}

#[test]
fn heal_reindexes_a_file_to_the_same_chunk_policies_as_a_full_rebuild() {
    let src = "//! Module documentation explaining what this file is for.\n\nuse \
               std::collections::BTreeMap;\nuse std::collections::HashSet;\nuse \
               std::path::PathBuf;\n\npub fn real_work(input: usize) -> usize {\n    let doubled \
               = input * 2;\n    let shifted = doubled + 7;\n    shifted * shifted\n}\n\npub fn \
               more_work(count: usize) -> usize {\n    let mut total = 0;\n    for step in \
               0..count {\n        total += step;\n    }\n    total\n}\n";
    let mut tree = SourceTree::new();
    tree.write("src/lib.rs", src);
    let (config, mut db) = rebuild(&tree, Language::Rust);

    let policies = |db: &IndexDatabase| -> Vec<(usize, usize, String)> {
        let mut found: Vec<(usize, usize, String)> = db
            .contents
            .iter()
            .filter(|c| c.path == "src/lib.rs")
            .flat_map(|c| c.chunks.iter())
            .map(|c| (c.start, c.end, c.policy.as_str().to_string()))
            .collect();
        found.sort();
        found
    };

    let before = policies(&db);
    assert!(
        before.iter().any(|(.., p)| p == "SkipLowSignal"),
        "fixture must exercise the low-signal outcome: {before:?}"
    );
    assert!(
        before.iter().any(|(.., p)| p == "Embed"),
        "fixture must exercise the embed outcome: {before:?}"
    );

    db.heal_file(&config, &tree, "src/lib.rs");
    assert_eq!(
        policies(&db),
        before,
        "heal re-indexes the file to the same span-based chunk policies as the full rebuild"
    );
}

#[test]
fn has_test_code_backfill_is_case_sensitive() {
    assert!(has_test_code("fn f() { test() }"), "lowercase test( marks the file");
    assert!(!has_test_code("fn g() { TEST() }"), "uppercase TEST( does NOT");
}

#[test]
fn chunk_policies_have_the_names_that_are_stored() {
    let names: Vec<&str> = [
        EmbeddingPolicy::Embed,
        EmbeddingPolicy::SkipGenerated,
        EmbeddingPolicy::SkipTooLarge,
        EmbeddingPolicy::SkipTooSmall,
        EmbeddingPolicy::SkipLowSignal,
    ]
    .iter()
    .map(|p| p.as_str())
    .collect();
    assert_eq!(
        names,
        ["Embed", "SkipGenerated", "SkipTooLarge", "SkipTooSmall", "SkipLowSignal"]
    );
}

#[test]
fn full_rebuild_applies_per_package_import_scope() {
    let mut tree = SourceTree::new();
    tree.write("Cargo.toml", "[package]\nname = \"myapp\"\n");
    tree.write(
        "src/lib.rs",
        "use std::fmt::Display;\npub struct Helper;\npub struct Display;\npub fn run() {\n    let \
         _ = Display;\n    let _ = Helper;\n}\n",
    );

    let (_, db) = rebuild(&tree, Language::Rust);
    assert_eq!(scoped_paths(&db), vec!["src/lib.rs".to_string()]);

    let packages = find_packages(&tree);
    let package_count = packages.len();
    assert!(package_count >= 1, "rebuild writes a packages row for the manifest");
    assert_eq!(packages[0].name, "myapp");
    assert_eq!(find_package(&packages, "src/lib.rs"), Some(0));

    let references = db.type_references(&packages);
    let bound = |name: &str| -> usize {
        references.iter().filter(|r| r.to_name == name && r.to_symbol.is_some()).count()
    };
    assert_eq!(
        bound("Display"),
        0,
        "a `Display` use'd from external std must not bind to the local `Display` struct"
    );
    assert_eq!(bound("Helper"), 1, "a local type still resolves");
}

#[test]
fn imports_from_the_workspace_leave_names_bound() {
    let mut tree = SourceTree::new();
    tree.write("app/Cargo.toml", "[package]\nversion = \"1\"\nname = \"my-app\"\n");
    tree.write("lib/Cargo.toml", "[workspace]\n[package]\nname = \"helpers\"\n");
    let packages = find_packages(&tree);
    assert_eq!(packages.len(), 2);
    assert_eq!(find_package(&packages, "lib/src/a.rs"), Some(1));
    assert_eq!(find_package(&packages, "other/a.rs"), None);

    let files = vec![
        FileSyntax::read(
            "app/src/a.rs",
            "use my_app::Local;\nuse crate::x::{Near as Close, Other};\nuse serde::{Value as Json, \
             Map};\nfn f() { Local; Near; Close; Other; Json; Value; Map; a::Path; }\n",
        ),
        FileSyntax::read(
            "app/src/b.rs",
            "struct Local; struct Near; enum Other { A } struct Json; struct Value; struct Map; \
             struct Path;",
        ),
        FileSyntax::read("lib/src/c.rs", "struct Close;"),
    ];
    let found: Vec<(String, Option<String>)> = find_type_references(&files, &packages)
        .into_iter()
        .map(|r| (r.to_name, r.to_symbol))
        .collect();
    let local = |name: &str| Some(format!("app/src/b.rs::{name}"));
    assert_eq!(
        found,
        vec![
            ("Local".to_string(), local("Local")),
            ("Near".to_string(), local("Near")),
            ("Close".to_string(), None),
            ("Other".to_string(), local("Other")),
            ("Json".to_string(), None),
            ("Value".to_string(), local("Value")),
            ("Map".to_string(), None),
        ]
    );
}

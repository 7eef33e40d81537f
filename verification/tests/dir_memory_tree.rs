//! Notes on directories, and the outline of a repository that shows them.
use rag_rat_core::content::Language;
use rag_rat_core::digest::{try_insert_file, update_files, RowChange};
use rag_rat_core::files::{visible_rows, FileRow};
use rag_rat_core::index::{Config, IndexDatabase};
use rag_rat_core::memory::{
    create_memory, list_memories, memories_for_path, memory_validate, MemoryCreated, MemoryError,
    RepoMemoryBindTarget, RepoMemoryCreate,
};
use rag_rat_core::source::SourceTree;
use rag_rat_core::tree::{dir_tree, DirTree, TreeOpts};

fn rebuild(files: &SourceTree, directory: &str) -> IndexDatabase {
    let mut db = IndexDatabase::open("");
    db.rebuild(&Config::of_source(directory, Language::Rust), files);
    db
}

fn seen(db: &IndexDatabase) -> Vec<FileRow> {
    visible_rows(&db.store.files, &db.scope)
}

fn memory_create(db: &mut IndexDatabase, input: RepoMemoryCreate) -> Result<MemoryCreated, MemoryError> {
    let rows = seen(db);
    create_memory(&mut db.memories, &rows, input)
}

fn dir_bind(dir: Option<String>) -> RepoMemoryBindTarget {
    RepoMemoryBindTarget { dir, ..RepoMemoryBindTarget::default() }
}

fn path_bind(path: String) -> RepoMemoryBindTarget {
    RepoMemoryBindTarget { path: Some(path), ..RepoMemoryBindTarget::default() }
}

fn note(kind: &str, title: &str, body: &str, confidence: &str, bind: RepoMemoryBindTarget) -> RepoMemoryCreate {
    RepoMemoryCreate {
        kind: kind.to_string(),
        title: title.to_string(),
        body: body.to_string(),
        confidence: confidence.to_string(),
        created_by: Some("test".to_string()),
        source: Some("agent".to_string()),
        tags: vec![],
        bind,
    }
}

fn create_dir_memory(db: &mut IndexDatabase, title: &str, dir: Option<String>) {
    memory_create(db, note("Decision", title, "body", "high", dir_bind(dir))).unwrap();
}

fn outline(db: &IndexDatabase, opts: &TreeOpts) -> DirTree {
    dir_tree(&seen(db), &db.memories, opts)
}

#[test]
fn dir_memory_binds_to_a_directory() {
    let mut files = SourceTree::new();
    files.write("src/lib.rs", "pub fn dir_anchor() {}\n");
    let mut db = rebuild(&files, "src");

    let created = memory_create(
        &mut db,
        RepoMemoryCreate {
            kind: "Decision".to_string(),
            title: "src holds the core library".to_string(),
            body: "All Rust source lives under src/.".to_string(),
            confidence: "high".to_string(),
            created_by: Some("test-agent".to_string()),
            source: Some("agent".to_string()),
            tags: vec![],
            bind: dir_bind(Some("src".to_string())),
        },
    )
    .unwrap();

    assert!(!created.duplicate);
    assert_eq!(created.memory.bindings.len(), 1);
    let binding = &created.memory.bindings[0];
    assert_eq!(binding.binding_kind, "dir");
    assert_eq!(binding.binding_id, "src");
    assert_eq!(binding.anchor_status, "current");
}

#[test]
fn dir_memory_validation_current_and_gone() {
    let mut files = SourceTree::new();
    files.write("src/lib.rs", "pub fn dir_validate_anchor() {}\n");
    let mut db = rebuild(&files, "src");

    memory_create(
        &mut db,
        note(
            "Decision",
            "src dir is the library root",
            "All source lives under src/.",
            "high",
            dir_bind(Some("src".to_string())),
        ),
    )
    .unwrap();
    memory_create(
        &mut db,
        note(
            "Decision",
            "nonexistent dir has no files",
            "This directory does not exist in the index.",
            "low",
            dir_bind(Some("does/not/exist".to_string())),
        ),
    )
    .unwrap();
    memory_create(
        &mut db,
        note(
            "Decision",
            "repo root anchors the whole index",
            "The entire repo is indexed.",
            "high",
            dir_bind(Some("".to_string())),
        ),
    )
    .unwrap();

    let rows = seen(&db);
    let report = memory_validate(&mut db.memories, &rows);
    assert_eq!(report.current, 2, "expected 2 current dir bindings");
    assert_eq!(report.gone, 1, "expected 1 gone dir binding");
}

#[test]
fn list_memories_returns_summaries_and_filters_by_binding_kind() {
    let mut files = SourceTree::new();
    files.write("src/lib.rs", "pub fn list_anchor() {}\n");
    let mut db = rebuild(&files, "src");

    let dir_result = memory_create(
        &mut db,
        note(
            "Decision",
            "src is the library root",
            "Core library lives under src/.",
            "high",
            dir_bind(Some("src".to_string())),
        ),
    )
    .unwrap();
    let path_result = memory_create(
        &mut db,
        note(
            "Invariant",
            "lib.rs exports the public surface",
            "All public symbols are re-exported from lib.rs.",
            "medium",
            path_bind("src/lib.rs".to_string()),
        ),
    )
    .unwrap();

    let all = list_memories(&db.memories, None);
    assert_eq!(all.len(), 2, "expected 2 summaries, got: {all:?}");

    let dir_summary = all.iter().find(|s| s.memory_id == dir_result.memory.memory_id).unwrap();
    assert_eq!(dir_summary.kind, "Decision");
    assert_eq!(dir_summary.title, "src is the library root");
    assert_eq!(dir_summary.status, "active");
    assert_eq!(dir_summary.binding_kind, "dir");
    assert_eq!(dir_summary.binding_id, "src");

    let path_summary = all.iter().find(|s| s.memory_id == path_result.memory.memory_id).unwrap();
    assert_eq!(path_summary.kind, "Invariant");
    assert_eq!(path_summary.binding_kind, "path");
    assert_eq!(path_summary.binding_id, "src/lib.rs");

    let dir_only = list_memories(&db.memories, Some("dir"));
    assert_eq!(dir_only.len(), 1, "expected 1 dir-kind summary, got: {dir_only:?}");
    assert_eq!(dir_only[0].binding_kind, "dir");
    assert_eq!(dir_only[0].memory_id, dir_result.memory.memory_id);

    let path_only = list_memories(&db.memories, Some("path"));
    assert_eq!(path_only.len(), 1, "expected 1 path-kind summary, got: {path_only:?}");
    assert_eq!(path_only[0].binding_kind, "path");
}

#[test]
fn dir_tree_label_depth_flat_siblings() {
    let mut files = SourceTree::new();
    for name in &["x.rs", "y.rs", "z.rs"] {
        files.write(&format!("src/a/{name}"), "pub fn f() {}\n");
        files.write(&format!("src/b/{name}"), "pub fn g() {}\n");
    }
    let db = rebuild(&files, "src");

    let opts = TreeOpts::default();
    let tree = outline(&db, &opts);

    let find = |p: &str| {
        tree.nodes.iter().find(|n| n.path == p).unwrap_or_else(|| {
            panic!(
                "no node for {p}; nodes: {:?}",
                tree.nodes.iter().map(|n| &n.path).collect::<Vec<_>>()
            )
        })
    };

    let src = find("src");
    assert_eq!(src.depth, 0, "src depth");
    assert_eq!(src.label, "src", "src label");

    let a = find("src/a");
    assert_eq!(a.depth, 1, "src/a depth");
    assert_eq!(a.label, "a", "src/a label");

    let b = find("src/b");
    assert_eq!(b.depth, 1, "src/b depth");
    assert_eq!(b.label, "b", "src/b label");

    assert_eq!(tree.truncated, 0);
}

#[test]
fn dir_tree_label_depth_collapse_single_child_chain() {
    let mut files = SourceTree::new();
    for name in &["a.rs", "b.rs", "c.rs"] {
        files.write(&format!("src/pkg/inner/deep/{name}"), "pub fn f() {}\n");
    }
    let db = rebuild(&files, "src");

    let opts = TreeOpts { max_depth: 5, min_files: 3, max_nodes: 25 };
    let tree = outline(&db, &opts);

    let collapsed = tree.nodes.iter().find(|n| n.path == "src");
    assert!(
        collapsed.is_some(),
        "expected a collapsed node anchored at 'src'; nodes: {:?}",
        tree.nodes.iter().map(|n| (&n.path, &n.label, n.depth)).collect::<Vec<_>>()
    );
    let collapsed = collapsed.unwrap();
    assert_eq!(collapsed.label, "src/pkg/inner/deep", "collapsed label must span full chain");
    assert_eq!(collapsed.depth, 0, "collapsed chain anchor must be depth 0");
    assert_eq!(collapsed.file_count, 0, "file_count on chain anchor is 0 (files live at deep)");

    assert_eq!(
        tree.nodes.len(),
        1,
        "only one node after full collapse; got: {:?}",
        tree.nodes.iter().map(|n| &n.path).collect::<Vec<_>>()
    );
    assert_eq!(tree.truncated, 0);
}

#[test]
fn dir_tree_memory_only_dir_appears_without_min_files() {
    let mut files = SourceTree::new();
    files.write("src/a/only.rs", "pub fn only() {}\n");
    for name in &["p.rs", "q.rs", "r.rs"] {
        files.write(&format!("src/b/{name}"), "pub fn f() {}\n");
    }
    let mut db = rebuild(&files, "src");

    create_dir_memory(&mut db, "sparse subsystem", Some("src/a".to_string()));

    let opts = TreeOpts::default();
    let tree = outline(&db, &opts);

    let node_a = tree.nodes.iter().find(|n| n.path == "src/a").unwrap_or_else(|| {
        panic!(
            "src/a missing from tree; nodes: {:?}",
            tree.nodes.iter().map(|n| &n.path).collect::<Vec<_>>()
        )
    });
    assert_eq!(node_a.file_count, 1, "src/a file_count");
    assert_eq!(node_a.memory_title.as_deref(), Some("sparse subsystem"), "src/a memory_title");
    assert_eq!(node_a.depth, 1, "src/a depth");
    assert_eq!(node_a.label, "a", "src/a label");
}

#[test]
fn dir_tree_excludes_generated_files_from_count() {
    let mut files = SourceTree::new();
    for name in &["a.rs", "b.rs", "c.rs"] {
        files.write(&format!("src/real/{name}"), "pub fn f() {}\n");
        files.write(&format!("src/also/{name}"), "pub fn g() {}\n");
    }
    for name in &["g1.rs", "g2.rs", "g3.rs"] {
        files.write(&format!("src/gen/{name}"), "// generated\npub fn gen() {}\n");
    }
    let mut db = rebuild(&files, "src");

    for name in &["g1.rs", "g2.rs", "g3.rs"] {
        let path = format!("src/gen/{name}");
        update_files(&mut db.store, &path, RowChange::Generated(true)).unwrap();
    }

    let opts = TreeOpts::default();
    let tree = outline(&db, &opts);

    if let Some(gen_node) = tree.nodes.iter().find(|n| n.path == "src/gen") {
        assert_eq!(
            gen_node.file_count,
            0,
            "generated dir must have file_count=0; got {}: {:?}",
            gen_node.file_count,
            tree.nodes.iter().map(|n| (&n.path, n.file_count)).collect::<Vec<_>>()
        );
    }
    let real_node = tree.nodes.iter().find(|n| n.path == "src/real").unwrap_or_else(|| {
        panic!(
            "src/real missing; nodes: {:?}",
            tree.nodes.iter().map(|n| &n.path).collect::<Vec<_>>()
        )
    });
    assert_eq!(real_node.file_count, 3, "src/real file_count must be 3 (non-generated only)");
}

#[test]
fn dir_tree_scope_excludes_other_worktree_files() {
    let mut files = SourceTree::new();
    for name in &["a.rs", "b.rs", "c.rs"] {
        files.write(&format!("src/a/{name}"), "pub fn f() {}\n");
    }
    for name in &["p.rs", "q.rs", "r.rs"] {
        files.write(&format!("src/b/{name}"), "pub fn g() {}\n");
    }
    let mut db = rebuild(&files, "src");

    for name in &["x.rs", "y.rs", "z.rs"] {
        let row = FileRow {
            repo_id: db.history.active_repo_id.clone(),
            path: format!("src/a/{name}"),
            language: "rust".to_string(),
            kind: "source".to_string(),
            sha256: "sha-other".to_string(),
            modified_at_ms: 0,
            indexed_at_ms: 0,
            generated: false,
            commit_sha: String::new(),
            worktree_id: "other-worktree".to_string(),
            generation: db.scope.generation,
        };
        try_insert_file(&mut db.store, row).unwrap();
    }

    let opts = TreeOpts::default();
    let tree = outline(&db, &opts);

    let node_a = tree.nodes.iter().find(|n| n.path == "src/a").unwrap_or_else(|| {
        panic!("src/a missing; nodes: {:?}", tree.nodes.iter().map(|n| &n.path).collect::<Vec<_>>())
    });
    assert_eq!(
        node_a.file_count, 3,
        "file_count must not be inflated by other-worktree rows; got {}",
        node_a.file_count
    );
}

#[test]
fn dir_tree_truncates_at_max_nodes() {
    let mut files = SourceTree::new();
    for i in 0..5u8 {
        files.write(&format!("pkg{i}/lib.rs"), "pub fn f() {}\n");
    }
    let db = rebuild(&files, "");

    let opts = TreeOpts { max_depth: 2, min_files: 1, max_nodes: 3 };
    let tree = outline(&db, &opts);

    assert!(tree.nodes.len() <= 3, "nodes.len()={} must be <= max_nodes=3", tree.nodes.len());
    assert!(tree.truncated > 0, "truncated must be >0 when nodes were dropped");
    assert_eq!((tree.nodes.len(), tree.truncated), (3, 2));
}

#[test]
fn dir_tree_builds_annotated_layout() {
    let mut files = SourceTree::new();
    for name in &["x.rs", "y.rs", "z.rs"] {
        files.write(&format!("src/a/{name}"), "pub fn ax() {}\n");
        files.write(&format!("src/b/{name}"), "pub fn bx() {}\n");
    }
    let mut db = rebuild(&files, "src");

    create_dir_memory(&mut db, "alpha core", Some("src/a".to_string()));
    create_dir_memory(&mut db, "the repo", Some("".to_string()));

    let opts = TreeOpts::default();
    let tree = outline(&db, &opts);

    assert_eq!(
        tree.root_memory_title.as_deref(),
        Some("the repo"),
        "root_memory_title mismatch; got: {:?}",
        tree.root_memory_title
    );

    let src = tree.nodes.iter().find(|n| n.path == "src");
    assert!(
        src.is_some(),
        "no node for src; nodes: {:?}",
        tree.nodes.iter().map(|n| &n.path).collect::<Vec<_>>()
    );
    let src = src.unwrap();
    assert_eq!(src.depth, 0, "src depth");
    assert_eq!(src.label, "src", "src label");

    let node_a = tree.nodes.iter().find(|n| n.path == "src/a");
    assert!(
        node_a.is_some(),
        "no node for src/a; nodes: {:?}",
        tree.nodes.iter().map(|n| &n.path).collect::<Vec<_>>()
    );
    let node_a = node_a.unwrap();
    assert_eq!(node_a.file_count, 3, "src/a file_count");
    assert_eq!(node_a.depth, 1, "src/a depth");
    assert_eq!(node_a.label, "a", "src/a label");
    assert_eq!(
        node_a.memory_title.as_deref(),
        Some("alpha core"),
        "src/a memory_title mismatch: {:?}",
        node_a.memory_title
    );

    let node_b = tree.nodes.iter().find(|n| n.path == "src/b");
    assert!(
        node_b.is_some(),
        "no node for src/b; nodes: {:?}",
        tree.nodes.iter().map(|n| &n.path).collect::<Vec<_>>()
    );
    let node_b = node_b.unwrap();
    assert_eq!(node_b.file_count, 3, "src/b file_count");
    assert_eq!(node_b.depth, 1, "src/b depth");
    assert_eq!(node_b.label, "b", "src/b label");

    assert_eq!(tree.truncated, 0, "unexpected truncation");

    let tree2 = outline(&db, &opts);
    let node_a2 = tree2.nodes.iter().find(|n| n.path == "src/a").unwrap();
    assert_eq!(node_a2.file_count, 3, "file_count changed on a second reading");
}

#[test]
fn dir_tree_children_of_collapsed_node_use_leaf_labels() {
    let mut files = SourceTree::new();
    for name in &["a.rs", "b.rs", "c.rs"] {
        files.write(&format!("top/mid/x/{name}"), "pub fn fx() {}\n");
        files.write(&format!("top/mid/y/{name}"), "pub fn fy() {}\n");
    }
    let db = rebuild(&files, "");

    let opts = TreeOpts { max_depth: 6, min_files: 3, max_nodes: 30 };
    let tree = outline(&db, &opts);

    let node_labels: Vec<(&str, &str, usize)> =
        tree.nodes.iter().map(|n| (n.path.as_str(), n.label.as_str(), n.depth)).collect();

    let collapsed = tree
        .nodes
        .iter()
        .find(|n| n.path == "top")
        .unwrap_or_else(|| panic!("no collapsed node at 'top'; nodes: {node_labels:?}"));
    assert_eq!(collapsed.label, "top/mid", "collapsed node label; nodes: {node_labels:?}");
    let collapsed_depth = collapsed.depth;

    let x = tree
        .nodes
        .iter()
        .find(|n| n.path == "top/mid/x")
        .unwrap_or_else(|| panic!("no node for top/mid/x; nodes: {node_labels:?}"));
    assert_eq!(x.label, "x", "top/mid/x label must be leaf 'x'; nodes: {node_labels:?}");
    assert_eq!(
        x.depth,
        collapsed_depth + 1,
        "top/mid/x depth must be parent+1; nodes: {node_labels:?}"
    );

    let y = tree
        .nodes
        .iter()
        .find(|n| n.path == "top/mid/y")
        .unwrap_or_else(|| panic!("no node for top/mid/y; nodes: {node_labels:?}"));
    assert_eq!(y.label, "y", "top/mid/y label must be leaf 'y'; nodes: {node_labels:?}");
    assert_eq!(
        y.depth,
        collapsed_depth + 1,
        "top/mid/y depth must be parent+1; nodes: {node_labels:?}"
    );

    assert_eq!(tree.truncated, 0);
}

#[test]
fn a_note_made_twice_is_kept_once() {
    let mut files = SourceTree::new();
    files.write("src/lib.rs", "pub fn f() {}\n");
    let mut db = rebuild(&files, "src");
    let make = || note("Decision", "one", "body", "high", path_bind("src/lib.rs".to_string()));
    let first = memory_create(&mut db, make()).unwrap();
    let second = memory_create(&mut db, make()).unwrap();
    assert!(!first.duplicate);
    assert!(second.duplicate);
    assert_eq!(first.memory.memory_id, second.memory.memory_id);
    assert_eq!(memories_for_path(&db.memories, "src/lib.rs", 10).len(), 1);
    assert_eq!(memories_for_path(&db.memories, "src/lib.rs", 0).len(), 0);
}

#[test]
fn a_note_bound_to_nothing_is_refused() {
    let mut db = rebuild(&SourceTree::new(), "src");
    let input = note("Decision", "one", "body", "high", RepoMemoryBindTarget::default());
    assert!(matches!(memory_create(&mut db, input), Err(MemoryError::NoTarget)));
    assert!(db.memories.memories.is_empty());
}

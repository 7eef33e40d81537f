//! The digest of a corpus: kept by triggers, checked against a scan, and stamped on what was
//! derived from the corpus.

use rag_rat_core::digest::{
    self, apply_content_digest_state, apply_schema, assert_trigger_parity, content_revision,
    content_revision_from_scan, digest_scan, digest_stored, ensure_content_digest, insert_file,
    object_exists, purge_repo_rows, rebuild_files_table, try_insert_file,
    verify_content_digest_parity, CloneGeneration, DigestError, DigestStore, IndexMeta, Lanes,
    RowChange, RowFilter,
};
use rag_rat_core::files::FileRow;
use rag_rat_core::fixtures::digest_repo_config;
use rag_rat_core::hash::hex_sha256;
use rag_rat_core::history::MetaRow;
use rag_rat_core::index::IndexDatabase;
use rag_rat_core::schema::SchemaObject;

const FOLD_TRIGGERS: [&str; 3] =
    ["files_content_digest_ai", "files_content_digest_ad", "files_content_digest_au"];

fn update_files(conn: &mut DigestStore, path: &str, change: RowChange) {
    digest::update_files(conn, path, change).unwrap();
}

fn delete_files(conn: &mut DigestStore, filter: RowFilter) {
    digest::delete_files(conn, filter).unwrap();
}

fn plain_row() -> FileRow {
    FileRow {
        repo_id: "r".to_string(),
        path: "a.rs".to_string(),
        language: "rust".to_string(),
        kind: "source".to_string(),
        sha256: "aa".to_string(),
        modified_at_ms: 0,
        indexed_at_ms: 0,
        generated: false,
        commit_sha: String::new(),
        worktree_id: String::new(),
        generation: 1,
    }
}

#[test]
fn content_digest_state_has_live_fold_triggers() {
    let conn = apply_schema();

    let (state, rows) = digest_stored(&conn);
    assert_eq!(state, "0".repeat(64), "a fresh empty corpus seeds the all-zero state");
    assert_eq!(rows, 0);
    for trigger in FOLD_TRIGGERS {
        assert!(object_exists(&conn, "trigger", trigger), "{trigger} exists after the full ladder");
    }
}

#[test]
fn a_files_table_rebuild_drops_the_fold_triggers_and_ensure_recreates_them() {
    let mut conn = apply_schema();
    insert_file(&mut conn, "a.rs", "aa", "source", 1);
    for trigger in FOLD_TRIGGERS {
        assert!(object_exists(&conn, "trigger", trigger));
    }

    rebuild_files_table(&mut conn);
    for trigger in FOLD_TRIGGERS {
        assert!(
            !object_exists(&conn, "trigger", trigger),
            "{trigger} is dropped by a files-table rebuild"
        );
    }

    ensure_content_digest(&mut conn);
    for trigger in FOLD_TRIGGERS {
        assert!(object_exists(&conn, "trigger", trigger), "{trigger} recreated by ensure");
    }
}

#[test]
fn triggers_hold_parity_through_insert_tombstone_flip_delete_and_purge() {
    let mut conn = apply_schema();
    insert_file(&mut conn, "a.rs", "aa", "source", 1);
    insert_file(&mut conn, "b.rs", "bb", "docs", 1);
    assert!(assert_trigger_parity(&conn));
    assert_eq!(digest_stored(&conn).1, 2);

    insert_file(&mut conn, "c.rs", "", "deleted", 1);
    assert!(assert_trigger_parity(&conn));
    assert_eq!(digest_stored(&conn).1, 2);

    update_files(&mut conn, "a.rs", RowChange::Sha256("aa2".to_string()));
    assert!(assert_trigger_parity(&conn));

    update_files(&mut conn, "b.rs", RowChange::KindAndSha256("deleted".to_string(), String::new()));
    assert!(assert_trigger_parity(&conn));
    assert_eq!(digest_stored(&conn).1, 1);
    update_files(
        &mut conn,
        "b.rs",
        RowChange::KindAndSha256("docs".to_string(), "bb3".to_string()),
    );
    assert!(assert_trigger_parity(&conn));
    assert_eq!(digest_stored(&conn).1, 2);

    let before = digest_stored(&conn);
    update_files(&mut conn, "a.rs", RowChange::Generated(true));
    assert_eq!(digest_stored(&conn), before, "a generated-flag flip does not touch the digest");
    assert!(assert_trigger_parity(&conn));

    delete_files(&mut conn, RowFilter::Path("a.rs".to_string()));
    assert!(assert_trigger_parity(&conn));
    delete_files(&mut conn, RowFilter::Path("c.rs".to_string()));
    assert!(assert_trigger_parity(&conn));

    purge_repo_rows(&mut conn, "r").unwrap();
    assert!(assert_trigger_parity(&conn));
    assert_eq!(digest_stored(&conn).1, 0, "purging the repo removes every member");
    assert_eq!(digest_stored(&conn).0, "0".repeat(64));
}

#[test]
fn digest_is_a_multiset_not_a_set_and_is_order_invariant() {
    let mut conn = apply_schema();
    insert_file(&mut conn, "dup.rs", "same", "source", 1);
    let one = digest_stored(&conn);

    insert_file(&mut conn, "dup.rs", "same", "source", 2);
    let two = digest_stored(&conn);
    assert_ne!(two, one, "a duplicate pair moves the digest (XOR would cancel it to the prior)");
    assert_ne!(two.0, "0".repeat(64), "two identical rows are NOT the empty state (XOR pin)");
    assert!(assert_trigger_parity(&conn));

    delete_files(&mut conn, RowFilter::PathInGeneration("dup.rs".to_string(), 2));
    assert_eq!(digest_stored(&conn), one, "add+remove of the same pair is a no-op on the digest");

    let mut other = apply_schema();
    insert_file(&mut other, "z.rs", "zz", "source", 7);
    insert_file(&mut other, "a.rs", "aa", "source", 3);
    let mut reverse = apply_schema();
    insert_file(&mut reverse, "a.rs", "aa", "source", 9);
    insert_file(&mut reverse, "z.rs", "zz", "source", 4);
    assert_eq!(
        digest_stored(&other).0,
        digest_stored(&reverse).0,
        "identical row multisets give identical digests regardless of order/rowid/generation"
    );
}

#[test]
fn a_files_write_without_the_fold_function_fails_closed() {
    let mut unregistered = apply_schema();
    unregistered.fold_registered = false;
    let err = try_insert_file(&mut unregistered, plain_row()).unwrap_err();
    assert!(
        err.message().contains("no such function"),
        "an unregistered writer must fail closed, got: {err:?}"
    );
    assert_eq!(digest_stored(&unregistered).1, 0, "the rolled-back INSERT left the digest untouched");
}

#[test]
fn content_revision_is_content_stable_across_rebuilds_and_moves_on_edits() {
    let (mut tree, config) = digest_repo_config();

    let mut db = IndexDatabase::open("");
    db.rebuild(&config, &tree);
    let d1 = content_revision(&db.store);
    assert!(d1.starts_with("ms1-"), "rendered digest is ms1-prefixed: {d1}");
    assert_eq!(d1, content_revision_from_scan(&db.store), "O(1) read == from-scratch scan");

    db.rebuild(&config, &tree);
    assert_eq!(content_revision(&db.store), content_revision_from_scan(&db.store));
    db.garbage_collect();
    assert_eq!(content_revision(&db.store), content_revision_from_scan(&db.store));
    assert_eq!(
        content_revision(&db.store),
        d1,
        "after gc sweeps the dead generation, a content-identical rebuild is digest-stable"
    );

    tree.write("src/lib.rs", "pub fn a() -> u8 { 1 }\n");
    db.rebuild(&config, &tree);
    let d2 = content_revision(&db.store);
    assert_ne!(d2, d1, "a content edit moves the digest");
    assert_eq!(d2, content_revision_from_scan(&db.store));
}

#[test]
fn poisoned_state_is_read_verbatim_then_parity_heals() {
    let (tree, config) = digest_repo_config();
    let mut db = IndexDatabase::open("");
    db.rebuild(&config, &tree);
    let real = content_revision(&db.store);

    let poison = "1".repeat(64);
    let lane: u64 = 0x1111111111111111;
    db.store.state = Lanes { a: lane, b: lane, c: lane, d: lane };
    assert_eq!(
        content_revision(&db.store),
        format!("ms1-{poison}"),
        "content_revision() returns the poisoned state"
    );
    assert_ne!(content_revision(&db.store), real);

    verify_content_digest_parity(&mut db.store);
    assert_eq!(content_revision(&db.store), real, "parity reseeded the drifted state");
    assert_eq!(content_revision(&db.store), content_revision_from_scan(&db.store));
}

#[test]
fn migration_restamps_fresh_legacy_stamps_but_leaves_stale_ones() {
    let mut conn = apply_schema();
    insert_file(&mut conn, "a.rs", "aa", "source", 1);
    insert_file(&mut conn, "b.rs", "bb", "source", 1);

    let legacy = hex_sha256("a.rs:aa,b.rs:bb".as_bytes());
    let new_digest = format!("ms1-{}", digest_scan(&conn).0);

    for key in ["fts_source_revision", "content_revision"] {
        conn.index_meta.push(IndexMeta { key: key.to_string(), value: legacy.clone() });
    }
    conn.generations.push(CloneGeneration { generation: 990, source_revision: legacy.clone() });
    conn.generations.push(CloneGeneration {
        generation: 991,
        source_revision: "already-stale-rev".to_string(),
    });
    conn.repo_meta.push(MetaRow {
        repo_id: "r".to_string(),
        key: "clone_graph_quiet_candidate_revision".to_string(),
        value: legacy.clone(),
    });

    apply_content_digest_state(&mut conn);

    let meta = |key: &str| -> String {
        conn.index_meta.iter().find(|m| m.key == key).unwrap().value.clone()
    };
    assert_eq!(meta("fts_source_revision"), new_digest, "a fresh legacy FTS stamp is re-stamped");
    assert_eq!(meta("content_revision"), new_digest, "the stored content_revision is re-stamped");
    let gen_rev = |g: u64| -> String {
        conn.generations.iter().find(|c| c.generation == g).unwrap().source_revision.clone()
    };
    assert_eq!(gen_rev(990), new_digest, "a clone generation at the legacy digest is re-stamped");
    assert_eq!(
        gen_rev(991),
        "already-stale-rev",
        "an already-stale stamp is left for the freshness machinery"
    );
    let quiet = conn
        .repo_meta
        .iter()
        .find(|m| m.key == "clone_graph_quiet_candidate_revision")
        .unwrap()
        .value
        .clone();
    assert_eq!(quiet, new_digest, "the armed quiet-window candidate survives the upgrade");
}

#[test]
fn sha256_of_known_inputs() {
    assert_eq!(
        hex_sha256(b""),
        "e3b0c44298fc1c149afbf4c8996fb92427ae41e4649b934ca495991b7852b855"
    );
    assert_eq!(
        hex_sha256(b"abc"),
        "ba7816bf8f01cfea414140de5dae2223b00361a396177a9cb410ff61f20015ad"
    );
}

#[test]
fn legacy_digest_hashes_the_sorted_pairs() {
    let mut conn = apply_schema();
    insert_file(&mut conn, "b.rs", "bb", "source", 1);
    insert_file(&mut conn, "a.rs", "aa", "source", 1);
    insert_file(&mut conn, "c.rs", "", "deleted", 1);
    assert_eq!(
        digest::legacy_content_digest(&conn),
        hex_sha256("a.rs:aa,b.rs:bb".as_bytes())
    );
    assert_eq!(digest::legacy_content_digest(&apply_schema()), hex_sha256(b""));
}

#[test]
fn a_refused_write_changes_nothing_in_any_direction() {
    let mut conn = apply_schema();
    insert_file(&mut conn, "a.rs", "aa", "source", 1);
    let before = digest_stored(&conn);
    conn.fold_registered = false;
    assert_eq!(
        digest::update_files(&mut conn, "a.rs", RowChange::Sha256("bb".to_string())),
        Err(DigestError::NoSuchFunction)
    );
    assert_eq!(
        digest::delete_files(&mut conn, RowFilter::Repository("r".to_string())),
        Err(DigestError::NoSuchFunction)
    );
    assert_eq!(conn.files.len(), 1);
    assert_eq!(conn.files[0].sha256, "aa");
    assert_eq!(digest_stored(&conn), before);
}

#[test]
fn one_file_has_one_row_in_one_snapshot() {
    let mut conn = apply_schema();
    insert_file(&mut conn, "dup.rs", "same", "source", 1);
    let before = digest_stored(&conn);
    let mut again = plain_row();
    again.path = "dup.rs".to_string();
    again.sha256 = "other".to_string();
    let error = digest::try_insert_file(&mut conn, again).unwrap_err();
    assert_eq!(error, DigestError::DuplicateKey);
    assert!(error.message().contains("UNIQUE constraint failed"));
    assert_eq!(conn.files.len(), 1);
    assert_eq!(digest_stored(&conn), before);
    insert_file(&mut conn, "dup.rs", "same", "source", 2);
    assert_eq!(conn.files.len(), 2);
    let row = &conn.files[1];
    assert_eq!((row.language.as_str(), row.modified_at_ms, row.indexed_at_ms), ("rust", 0, 0));
}

#[test]
fn the_digest_follows_a_row_to_another_path() {
    let mut conn = apply_schema();
    insert_file(&mut conn, "a.rs", "aa", "source", 1);
    insert_file(&mut conn, "b.rs", "bb", "source", 1);
    let before = digest_stored(&conn);
    assert_eq!(
        digest::update_files(&mut conn, "a.rs", RowChange::Path("b.rs".to_string())),
        Err(DigestError::DuplicateKey)
    );
    assert_eq!(digest_stored(&conn), before);
    update_files(&mut conn, "a.rs", RowChange::Path("c.rs".to_string()));
    assert!(assert_trigger_parity(&conn));
    assert_ne!(digest_stored(&conn).0, before.0);
    update_files(&mut conn, "c.rs", RowChange::Path("a.rs".to_string()));
    assert_eq!(digest_stored(&conn), before);
}

#[test]
fn the_schema_holds_its_tables() {
    let conn = apply_schema();
    for table in ["files", "content_digest_state", "repos", "git_commits", "symbols", "chunks"] {
        assert!(object_exists(&conn, "table", table), "{table}");
        assert!(!object_exists(&conn, "trigger", table), "{table} is no trigger");
    }
    assert!(!object_exists(&conn, "table", "files_content_digest_ai"));
}

#[test]
fn a_rebuild_of_the_file_table_leaves_what_stands_on_others() {
    let mut conn = apply_schema();
    conn.objects.push(SchemaObject {
        kind: "trigger".to_string(),
        name: "edges_view_insert".to_string(),
        table: "edges".to_string(),
    });
    conn.objects.push(SchemaObject {
        kind: "index".to_string(),
        name: "idx_files_path".to_string(),
        table: "files".to_string(),
    });
    rebuild_files_table(&mut conn);
    assert!(object_exists(&conn, "trigger", "edges_view_insert"));
    assert!(object_exists(&conn, "table", "files"));
    assert!(object_exists(&conn, "table", "content_digest_state"));
    assert!(!object_exists(&conn, "index", "idx_files_path"), "an index goes with its table");
    assert!(!object_exists(&conn, "trigger", "files_content_digest_au"));
}

#[test]
fn the_table_of_the_state_is_made_with_the_digest() {
    let mut conn = apply_schema();
    conn.objects.clear();
    apply_content_digest_state(&mut conn);
    assert!(object_exists(&conn, "table", "content_digest_state"));
    for trigger in FOLD_TRIGGERS {
        assert!(object_exists(&conn, "trigger", trigger));
    }
}

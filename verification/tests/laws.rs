//! What the library promises of all inputs, tried on some.

use rag_rat_core::chunks::{classify, find_paragraphs, prioritise, EmbeddingPolicy};
use rag_rat_core::clones::{rank_by_score, FindClonesOptions};
use rag_rat_core::content::Language;
use rag_rat_core::digest::{
    content_revision, content_revision_from_scan, content_row_hash, digest_stored, encode_state,
    fold_row, Lanes,
};
use rag_rat_core::embedding::{policy_version, stale_the_stamp};
use rag_rat_core::fingerprint::{
    common, default_theta, normalise, similar, Fingerprint, Theta,
};
use rag_rat_core::graph::find_callers;
use rag_rat_core::groups::{find_coherent_groups, find_components, Relation};
use rag_rat_core::hash::{hex_bytes_text, hex_text};
use rag_rat_core::history::register_repo;
use rag_rat_core::index::{Config, IndexDatabase, EMBEDDING_POLICY_VERSION};
use rag_rat_core::lcs::lcs_len;
use rag_rat_core::lexer::{chars_of, tokenize};
use rag_rat_core::lookup::{symbol_candidates, SymbolQuery, SymbolSelector};
use rag_rat_core::paths::{depth_of, lies_within, parent_of};
use rag_rat_core::refine::load_refine_members;
use rag_rat_core::scoped::{names_in_scope, scoped_chunk_ids, scoped_paths, sort_numbers};
use rag_rat_core::source::SourceTree;
use rag_rat_core::text::{comes_before, decimal_text, signed_decimal_text, sort_texts};
use rag_rat_core::utf8::byte_places;

fn words(text: &str) -> Vec<String> {
    text.split_whitespace().map(|w| w.to_string()).collect()
}

fn shape(source: &str) -> Vec<String> {
    let toks = tokenize(source);
    let n = toks.len();
    normalise(&toks, 0, n)
}

fn relation(n: usize, pairs: &[(usize, usize)]) -> Relation {
    let rows = (0..n)
        .map(|i| (0..i).map(|j| pairs.contains(&(j, i)) || pairs.contains(&(i, j))).collect())
        .collect();
    Relation { rows }
}

#[test]
fn renaming_keeps_the_shape() {
    let a = shape("fn load_user(db: Db) -> i32 { let u = db.get(10); validate(u); u + 1 }");
    let b = shape("fn load_order(s: Db) -> i32 { let o = s.get(20); validate(o); o + 1 }");
    assert_eq!(a, b);
    let c = shape("fn load_order(s: Db) -> i32 { let o = s.get(20); validate(s); o + 1 }");
    assert_ne!(a, c, "another variable is another shape");
    assert_eq!(Fingerprint::of(a).struct_hash, Fingerprint::of(b).struct_hash);
}

#[test]
fn overlap_is_symmetric_bounded_and_whole_with_itself() {
    let a = Fingerprint::of(words("a a b c"));
    let b = Fingerprint::of(words("a b b d e"));
    assert_eq!(common(&a.bag, &b.bag), 2);
    assert_eq!(common(&b.bag, &a.bag), 2);
    assert_eq!(common(&a.bag, &a.bag), 4);
    assert_eq!(a.token_len(), 4);
}

#[test]
fn containment_is_not_similarity_and_a_lower_threshold_widens() {
    let small = Fingerprint::of(words("a b c d e"));
    let large = Fingerprint::of(words("a b c d e f g h i j"));
    assert!(!similar(&small, &large, default_theta()), "five of ten");
    assert!(similar(&small, &large, Theta { num: 1, den: 2 }), "five of ten is one half");
    assert!(similar(&small, &small, Theta { num: 1, den: 1 }));
    let seven = Fingerprint::of(words("a b c d e f g x y z"));
    assert!(similar(&large, &seven, default_theta()), "seven of ten");
}

#[test]
fn common_subsequences_are_longest_symmetric_and_bounded() {
    let a = words("a b c b d a b");
    let b = words("b d c a b a");
    assert_eq!(lcs_len(&a, &b), 4);
    assert_eq!(lcs_len(&b, &a), 4);
    assert_eq!(lcs_len(&a, &a), 7);
    assert_eq!(lcs_len(&a, &Vec::new()), 0);
}

#[test]
fn components_chain_and_groups_do_not() {
    let chain = relation(5, &[(0, 1), (1, 2), (3, 4)]);
    assert_eq!(find_components(&chain), vec![vec![0, 1, 2], vec![3, 4]]);
    let groups = find_coherent_groups(&chain);
    assert_eq!(groups, vec![vec![0, 1], vec![1, 2], vec![3, 4]]);
    let full = relation(3, &[(0, 1), (1, 2), (0, 2)]);
    assert_eq!(find_coherent_groups(&full), vec![vec![0, 1, 2]]);
    assert!(find_components(&relation(3, &[])).is_empty());
    assert!(find_coherent_groups(&relation(3, &[])).is_empty());
}

#[test]
fn folding_a_row_in_and_out_leaves_the_state() {
    let a = content_row_hash("a.rs", "aa");
    let b = content_row_hash("b.rs", "bb");
    let mut one = Lanes { a: u64::MAX, b: 1, c: 2, d: 3 };
    let mut two = Lanes { a: u64::MAX, b: 1, c: 2, d: 3 };
    let start = encode_state(&one);
    assert_eq!(start, "ffffffffffffffff000000000000000100000000000000020000000000000003");
    fold_row(&mut one, &a, true);
    fold_row(&mut one, &b, true);
    fold_row(&mut two, &b, true);
    fold_row(&mut two, &a, true);
    assert_eq!(encode_state(&one), encode_state(&two), "the order does not matter");
    assert_ne!(encode_state(&one), start);
    fold_row(&mut one, &a, false);
    fold_row(&mut one, &b, false);
    assert_eq!(encode_state(&one), start);
}

#[test]
fn hexadecimal_texts_have_their_width() {
    assert_eq!(hex_text(0, 4), "0000");
    assert_eq!(hex_text(0xbeef, 4), "beef");
    assert_eq!(hex_bytes_text(&vec![0, 15, 255]), "000fff");
    assert_eq!(decimal_text(0), "0");
    assert_eq!(decimal_text(u64::MAX), u64::MAX.to_string());
    assert_eq!(signed_decimal_text(i64::MIN), i64::MIN.to_string());
}

#[test]
fn sorting_ignores_the_order_of_what_is_sorted() {
    let a = words("b/c b a \\ a/b");
    let mut b = a.clone();
    b.reverse();
    let mut expected = a.clone();
    expected.sort();
    assert_eq!(sort_texts(&a), expected);
    assert_eq!(sort_texts(&b), expected);
    assert!(comes_before("a", "ab") && !comes_before("ab", "a") && !comes_before("a", "a"));
    assert_eq!(sort_numbers(&vec![3, 1, 2, 1]), vec![1, 1, 2, 3]);
}

#[test]
fn a_directory_holds_what_lies_below_it() {
    assert_eq!(parent_of("a/b/c.rs"), "a/b");
    assert_eq!(parent_of("c.rs"), "");
    assert_eq!(parent_of("a\\b.rs"), "");
    assert_eq!(depth_of("a/b/c.rs"), 3);
    assert!(lies_within("a/b/c.rs", "a") && lies_within("a/b/c.rs", "") && lies_within("a", "a"));
    assert!(!lies_within("ab/c.rs", "a") && !lies_within("a", "a/b"));
}

#[test]
fn what_is_written_is_read_back_in_path_order() {
    let mut tree = SourceTree::new();
    for path in ["b", "a/z", "c", "a"] {
        tree.write(path, path);
    }
    tree.write("b", "other");
    let paths: Vec<&str> = tree.files.iter().map(|f| f.path.as_str()).collect();
    assert_eq!(paths, ["a", "a/z", "b", "c"]);
    assert_eq!(tree.read("b").as_deref(), Some("other"));
    assert_eq!(tree.read("a").as_deref(), Some("a"));
    tree.remove("b");
    assert_eq!(tree.read("b"), None);
    assert_eq!(tree.read("c").as_deref(), Some("c"));
}

#[test]
fn a_worktree_leaves_the_base_and_its_names() {
    let config = Config::of_source("", Language::Rust);
    let mut base = SourceTree::new();
    base.write("src/a.rs", "fn one() {}\n");
    base.write("src/b.rs", "fn two() {}\n");
    let mut db = IndexDatabase::open("");
    db.rebuild(&config, &base);
    let mut linked = SourceTree::new();
    linked.write("src/a.rs", "fn changed() {}\n");
    linked.write("src/new.rs", "fn new() {}\n");
    let report = db.index_worktree_overlay(&config, &linked, "w");
    assert_eq!(report.indexed, 3, "two files that differ and the mark of one that is gone");
    assert_eq!(scoped_paths(&db), ["src/a.rs", "src/new.rs"]);
    assert_eq!(names_in_scope(&db, "src/a.rs"), ["changed"]);
    db.set_base_scope();
    assert_eq!(scoped_paths(&db), ["src/a.rs", "src/b.rs"]);
    assert_eq!(names_in_scope(&db, "src/a.rs"), ["one"]);
    assert!(names_in_scope(&db, "src/new.rs").is_empty());
}

#[test]
fn the_digest_rests_on_the_content_alone() {
    let config = Config::of_source("", Language::Rust);
    let mut tree = SourceTree::new();
    tree.write("a.rs", "fn one() {}\n");
    tree.write("b.rs", "fn two() {}\n");
    let mut once = IndexDatabase::open("x");
    once.rebuild(&config, &tree);
    once.garbage_collect();
    let mut often = IndexDatabase::open("y");
    let mut other = SourceTree::new();
    other.write("c.rs", "fn three() {}\n");
    often.rebuild(&config, &other);
    for _ in 0..3 {
        often.rebuild(&config, &tree);
    }
    assert_ne!(content_revision(&once.store), content_revision(&often.store));
    often.garbage_collect();
    assert_eq!(content_revision(&once.store), content_revision(&often.store));
    assert_eq!(digest_stored(&often.store).1, 2);
}

#[test]
fn a_larger_cap_embeds_no_less() {
    let text = "fn work(x: u32) -> u32 {\n    let y = x * 2;\n    y + 1\n}\n".repeat(3);
    assert_eq!(classify(&text, false, 100), EmbeddingPolicy::SkipTooLarge);
    assert_eq!(classify(&text, false, 1000), EmbeddingPolicy::Embed);
    assert_eq!(classify(&text, false, 2000), EmbeddingPolicy::Embed);
    assert_eq!(prioritise(&text, EmbeddingPolicy::SkipTooLarge), 0);
    let imports = "use std::collections::HashMap;\nuse std::fmt::Debug;\nuse std::io::Read;\n";
    assert_eq!(classify(imports, false, 1000), EmbeddingPolicy::SkipLowSignal);
}

#[test]
fn paragraphs_are_parted_by_blank_lines() {
    let text = "a\nb\n\n  \nc\n";
    let spans = find_paragraphs(&chars_of(text));
    let parts: Vec<&str> = spans.iter().map(|&(lo, hi)| text[lo..hi].trim()).collect();
    assert_eq!(parts, ["a\nb", "c"]);
    assert!(find_paragraphs(&chars_of(" \n\t\n")).is_empty());
}

#[test]
fn leaving_generated_files_out_finds_fewer_symbols() {
    let config = Config::of_source("", Language::Rust);
    let mut tree = SourceTree::new();
    tree.write("src/a.rs", "fn shared() {}\n");
    tree.write("src/generated/a.rs", "fn shared() {}\n");
    let mut db = IndexDatabase::open("");
    db.rebuild(&config, &tree);
    let ask = |query: SymbolQuery, language: Option<Language>, limit: usize| SymbolSelector {
        query,
        language,
        limit,
    };
    let query = ask(SymbolQuery::Name("shared".to_string()), None, 10);
    assert_eq!(symbol_candidates(&db, &query, true).len(), 2);
    let found = symbol_candidates(&db, &query, false);
    assert_eq!(found.len(), 1);
    assert_eq!(found[0].qualified_name, "src/a.rs::shared");
    let by_id = ask(SymbolQuery::Id(found[0].symbol_id), Some(Language::Rust), 1);
    assert_eq!(symbol_candidates(&db, &by_id, false)[0].path, "src/a.rs");
    let by_path = SymbolQuery::Path("src/a.rs::shared".to_string());
    assert_eq!(symbol_candidates(&db, &ask(by_path, None, 10), true).len(), 1);
    let one = ask(SymbolQuery::Name("shared".to_string()), Some(Language::Rust), 1);
    assert_eq!(symbol_candidates(&db, &one, true).len(), 1);
    let none = ask(SymbolQuery::Name("shared".to_string()), Some(Language::Python), 10);
    assert!(symbol_candidates(&db, &none, true).is_empty());
}

#[test]
fn seven_copies_are_one_class_worth_their_product() {
    let mut tree = SourceTree::new();
    for (i, v) in ["a", "b", "c", "d", "e", "f", "g"].iter().enumerate() {
        tree.write(
            &format!("src/f{i}.rs"),
            &format!(
                "pub fn collect_{v}(db: Db) -> i32 {{ let {v} = db.get(1); validate({v}); \
                 transform({v}); {v} + 1 }}\n"
            ),
        );
    }
    let mut db = IndexDatabase::open("");
    db.rebuild(&Config::of_source("src", Language::Rust), &tree);
    let options = FindClonesOptions { min_similarity: None, min_copies: None, limit: None };
    let found = db.find_clones(&tree, &options).unwrap();
    assert_eq!(found.classes.len(), 1);
    let class = &found.classes[0];
    assert_eq!(class.member_count, 7);
    assert_eq!(class.refinement, Some((class.body_token_len_medoid, class.body_token_len_medoid)));
    assert_eq!(class.cross_module_spread, 1);
    assert_eq!(class.worth, 7 * class.body_token_len_medoid as u128 * 1_000_000);
    assert!(!class.metrics_sampled());

    let eight = FindClonesOptions { min_similarity: None, min_copies: Some(8), limit: None };
    assert!(db.find_clones(&tree, &eight).unwrap().classes.is_empty());
}

#[test]
fn a_class_that_cannot_be_read_again_is_not_refined() {
    let mut tree = SourceTree::new();
    for (path, v) in [("src/a.rs", "u"), ("src/b.rs", "o"), ("src/c.rs", "p")] {
        tree.write(
            path,
            &format!(
                "pub fn load_{v}(db: Db) -> i32 {{ let {v}1 = db.get(1); let {v}2 = db.get(2); \
                 validate({v}1); validate({v}2); {v}1 + {v}2 }}\n"
            ),
        );
    }
    let mut db = IndexDatabase::open("");
    db.rebuild(&Config::of_source("src", Language::Rust), &tree);
    tree.write(
        "src/c.rs",
        "pub fn load_c(db: Db) -> i32 { let mut n = 0; while n < 9 { n += 1; } n }\n",
    );
    let options = FindClonesOptions { min_similarity: None, min_copies: None, limit: None };
    let found = db.find_clones(&tree, &options).unwrap();
    assert_eq!(found.classes.len(), 1);
    assert_eq!(found.classes[0].member_count, 3);
    assert_eq!(found.classes[0].refinement, None);
    assert_eq!(found.classes[0].class_kind(), "candidate_component");
    assert_eq!(found.stale_members, 1);
    assert!(db.refinements.is_empty());
}

fn files_of(index: &IndexDatabase, repo_id: &str) -> Vec<(String, u64)> {
    index
        .store
        .files
        .iter()
        .filter(|f| f.repo_id == repo_id)
        .map(|f| (f.path.clone(), f.generation))
        .collect()
}

#[test]
fn other_repositories_are_neither_changed_nor_read() {
    let config = Config::of_source("", Language::Rust);
    let mut theirs = SourceTree::new();
    theirs.write("src/a.rs", "fn theirs() {}\n");
    theirs.write("src/only.rs", "fn only() {}\n");
    let mut ours = SourceTree::new();
    ours.write("src/a.rs", "fn ours() {}\n");
    let mut db = IndexDatabase::open("");
    register_repo(&mut db.history, "other");
    db.select_repo("other", 0);
    db.rebuild(&config, &theirs);
    let before = files_of(&db, "other");
    db.select_repo("legacy", 0);
    assert!(scoped_paths(&db).is_empty());
    db.rebuild(&config, &ours);
    db.rebuild(&config, &ours);
    db.heal_file(&config, &theirs, "src/only.rs");
    db.heal_file(&config, &ours, "src/only.rs");
    db.index_worktree_overlay(&config, &theirs, "w");
    db.set_base_scope();
    db.garbage_collect();
    assert_eq!(files_of(&db, "other"), before);
    assert_eq!(scoped_paths(&db), ["src/a.rs"]);
    assert_eq!(names_in_scope(&db, "src/a.rs"), ["ours"]);
    let query = SymbolSelector {
        query: SymbolQuery::Name("theirs".to_string()),
        language: None,
        limit: 10,
    };
    assert!(symbol_candidates(&db, &query, true).is_empty());
    db.select_repo("other", 1);
    assert_eq!(scoped_paths(&db), ["src/a.rs", "src/only.rs"]);
    assert_eq!(names_in_scope(&db, "src/a.rs"), ["theirs"]);
}

#[test]
fn rows_of_another_commit_are_carried_until_they_are_swept() {
    let config = Config::of_source("", Language::Rust);
    let mut tree = SourceTree::new();
    tree.write("a.rs", "fn one() {}\n");
    let mut db = IndexDatabase::open("c1");
    db.rebuild(&config, &tree);
    assert_eq!(policy_version(&db).as_deref(), Some(EMBEDDING_POLICY_VERSION));
    stale_the_stamp(&mut db);
    db.set_active_commit("c2");
    assert!(scoped_paths(&db).is_empty(), "nothing of the commit has been read");
    tree.write("a.rs", "fn two() {}\n");
    db.rebuild(&config, &tree);
    assert_eq!(policy_version(&db).as_deref(), Some("pre-upgrade"), "a carried row is not read");
    assert_eq!(names_in_scope(&db, "a.rs"), ["two"]);
    db.set_active_commit("c1");
    assert_eq!(names_in_scope(&db, "a.rs"), ["one"]);
    db.set_active_commit("c2");

    db.prune_to_live(&vec!["c1".to_string(), "c2".to_string()], &Vec::new());
    assert_eq!(db.store.files.len(), 2);
    db.garbage_collect();
    assert_eq!(db.store.files.len(), 1, "the base of the other commit is dead");
    assert_eq!(names_in_scope(&db, "a.rs"), ["two"]);
    db.rebuild(&config, &tree);
    assert_eq!(policy_version(&db).as_deref(), Some(EMBEDDING_POLICY_VERSION));
}

#[test]
fn worktrees_that_are_not_live_are_swept() {
    let config = Config::of_source("", Language::Rust);
    let mut tree = SourceTree::new();
    tree.write("a.rs", "fn one() {}\n");
    let mut db = IndexDatabase::open("c1");
    db.rebuild(&config, &tree);
    let mut linked = SourceTree::new();
    linked.write("a.rs", "fn other() {}\n");
    db.index_worktree_overlay(&config, &linked, "w");
    db.set_base_scope();
    db.garbage_collect();
    assert_eq!(db.store.files.len(), 2, "a worktree is kept");
    db.prune_to_live(&vec!["c1".to_string()], &vec!["w".to_string()]);
    assert_eq!(db.store.files.len(), 2);
    db.prune_to_live(&vec!["c1".to_string()], &Vec::new());
    assert_eq!(db.store.files.len(), 1);
    assert_eq!(db.names, ["a.rs::one"]);
    assert_eq!(content_revision(&db.store), content_revision_from_scan(&db.store));
}

#[test]
fn chunk_numbers_ascend_and_are_given_once() {
    let config = Config::of_source("", Language::Rust);
    let mut tree = SourceTree::new();
    tree.write("a.rs", "fn one() {}\n\nfn two() {}\n");
    tree.write("b.rs", "fn three() {}\n\nfn four() {}\n");
    let mut db = IndexDatabase::open("");
    db.rebuild(&config, &tree);
    db.heal_file(&config, &tree, "a.rs");
    let (a, b) = (scoped_chunk_ids(&db, "a.rs"), scoped_chunk_ids(&db, "b.rs"));
    assert_eq!((a.len(), b.len()), (2, 2));
    assert!(a[0] < a[1] && b[0] < b[1]);
    assert!(a.iter().all(|id| !b.contains(id)));
    assert!(scoped_chunk_ids(&db, "c.rs").is_empty());
}

#[test]
fn the_graph_is_that_of_the_files_that_are_seen() {
    let config = Config::of_source("", Language::Rust);
    let mut tree = SourceTree::new();
    tree.write("a.rs", "fn caller() { target() }\nfn target() {}\n");
    let mut db = IndexDatabase::open("");
    db.rebuild(&config, &tree);
    assert_eq!(find_callers(&db.graph(), "target", 10).len(), 1);
    tree.write("a.rs", "fn caller() { other() }\nfn target() {}\n");
    db.rebuild(&config, &tree);
    assert!(find_callers(&db.graph(), "target", 10).is_empty(), "the old generation is not read");
    let mut linked = SourceTree::new();
    linked.write("a.rs", "fn caller() { target() }\nfn again() { target() }\nfn target() {}\n");
    db.index_worktree_overlay(&config, &linked, "w");
    assert_eq!(find_callers(&db.graph(), "target", 10).len(), 2);
    db.set_base_scope();
    assert!(find_callers(&db.graph(), "target", 10).is_empty());
}

#[test]
fn places_are_counted_in_bytes() {
    let text = "aé漢😀z";
    assert_eq!(byte_places(text, &chars_of(text)), vec![0, 1, 3, 6, 10, 11]);
    assert_eq!(byte_places("", &chars_of("")), vec![0]);
}

#[test]
fn spans_recover_the_text_behind_wide_letters() {
    let mut tree = SourceTree::new();
    let a = "// é漢😀\n\npub fn load_é(db: Db) -> i32 { let é = db.get(1); validate(é); é + 1 }\n";
    let b = "pub fn load_o(s: Db) -> i32 { let o = s.get(2); validate(o); o + 1 }\n";
    tree.write("src/a.rs", a);
    tree.write("src/b.rs", b);
    let mut db = IndexDatabase::open("");
    db.rebuild(&Config::of_source("src", Language::Rust), &tree);

    let content = db.contents.iter().find(|c| c.path == "src/a.rs").unwrap();
    let symbol = &content.symbols[0];
    assert_eq!(&a[symbol.start..symbol.end], "fn load_é(db: Db) -> i32 { let é = db.get(1); validate(é); é + 1 }");
    assert_eq!((symbol.start_line, symbol.end_line), (3, 3));
    for chunk in &content.chunks {
        assert_eq!(&a[chunk.start..chunk.end], chunk.text);
    }

    let ids: Vec<u64> = db.contents.iter().map(|c| c.symbols[0].id).collect();
    let members = load_refine_members(&db, &tree, &ids).unwrap();
    assert_eq!(members.len(), 2);
    for m in &members {
        let words: Vec<&str> = m.spans.iter().map(|&(lo, hi)| &m.text[lo..hi]).collect();
        assert_eq!((words[0], words[2], words[words.len() - 1]), ("fn", "(", "}"));
        let own = if m.text == a { symbol.start..symbol.end } else { 4..b.len() - 1 };
        assert_eq!(words.concat(), m.text[own].replace(' ', ""));
    }
}

#[test]
fn classes_come_by_their_scores_in_the_end() {
    let mut tree = SourceTree::new();
    for v in ["a", "b", "c", "d", "e"] {
        tree.write(
            &format!("src/get_{v}.rs"),
            &format!(
                "pub fn load_{v}(db: Db) -> i32 {{ let {v}1 = db.get(1); let {v}2 = db.get(2); \
                 validate({v}1); validate({v}2); {v}1 + {v}2 }}\n"
            ),
        );
    }
    for v in ["p", "q", "r", "s"] {
        tree.write(
            &format!("src/loop_{v}.rs"),
            &format!(
                "pub fn count_{v}(n: u64) -> u64 {{ let mut {v} = 0; while {v} < n {{ if {v} % 3 == \
                 0 {{ {v} += 2; }} else {{ {v} += 1; }} }} {v} }}\n"
            ),
        );
    }
    let mut db = IndexDatabase::open("");
    db.rebuild(&Config::of_source("src", Language::Rust), &tree);
    tree.write("src/get_a.rs", "pub fn load_a() {}\n");
    let options = FindClonesOptions { min_similarity: None, min_copies: None, limit: None };
    let mut found = db.find_clones(&tree, &options).unwrap();
    let counts: Vec<usize> = found.classes.iter().map(|c| c.member_count).collect();
    assert_eq!(counts, vec![5, 4], "by the provisional worth the larger class is first");
    assert!(found.classes[0].refinement.is_none(), "a member has drifted");
    assert!(found.classes[1].refinement.is_some());

    let scores: Vec<u64> = found
        .classes
        .iter()
        .map(|c| {
            let members = c.member_count as f64;
            let size = if c.refinement.is_some() { members } else { 1.0 + members.ln_1p() };
            (size * c.cross_module_spread as f64 * c.body_token_len_medoid as f64).to_bits()
        })
        .collect();
    rank_by_score(&mut found.classes, &scores);
    let counts: Vec<usize> = found.classes.iter().map(|c| c.member_count).collect();
    assert_eq!(counts, vec![4, 5], "the size of a class that was not refined is dampened");
    rank_by_score(&mut found.classes, &vec![7, 7]);
    let counts: Vec<usize> = found.classes.iter().map(|c| c.member_count).collect();
    assert_eq!(counts, vec![4, 5], "classes with one score stay as they are");
}

#[test]
fn an_index_that_was_put_together_badly_is_told_apart() {
    let mut tree = SourceTree::new();
    tree.write("src/a.rs", "pub fn one() {}\n\npub fn two() {}\n");
    tree.write("src/b.rs", "pub fn three() {}\n");
    let indexed = || {
        let mut db = IndexDatabase::open("");
        db.rebuild(&Config::of_source("src", Language::Rust), &tree);
        assert!(db.is_well_formed());
        db
    };
    let mut db = indexed();
    db.contents[0].symbols[1].id = db.contents[0].symbols[0].id;
    assert!(!db.is_well_formed(), "a number is given twice");
    let mut db = indexed();
    db.contents[1].symbols[0].id = db.contents[0].chunks[0].id;
    assert!(!db.is_well_formed(), "a number is given to two files");
    let mut db = indexed();
    db.next_id = db.contents[1].chunks[0].id;
    assert!(!db.is_well_formed(), "the next number is taken");
    let mut db = indexed();
    db.store.files[1].path = db.store.files[0].path.clone();
    assert!(!db.is_well_formed(), "one file has two rows");
    let mut db = indexed();
    db.store.files[0].generation = db.scope.generation + 1;
    assert!(!db.is_well_formed(), "a row is newer than the index");
    let mut db = indexed();
    db.store.fold_registered = false;
    assert!(!db.is_well_formed());
    let mut db = indexed();
    db.store.objects.clear();
    assert!(!db.is_well_formed(), "the triggers are gone");
    let mut db = indexed();
    db.history.repos.clear();
    assert!(!db.is_well_formed(), "the repository is not registered");
}

//! Clones: which functions are alike, and what is said of each class of them.

use std::cell::RefCell;
use std::rc::Rc;

use rag_rat_core::classes::{CloneClass, MAX_MEMBERS};
use rag_rat_core::clones::{self, CANDIDATE_METRIC};
use rag_rat_core::content::{Language, Symbol};
use rag_rat_core::fingerprint::{struct_hash, BagEntry, Theta, NORM_VERSION};
use rag_rat_core::frequency::clone_token_df;
use rag_rat_core::history::register_repo;
use rag_rat_core::index::{Config, IndexDatabase as Index, OverlayReport, Target, TargetKind};
use rag_rat_core::items::ItemKind;
use rag_rat_core::refine::{
    self, refinement_key, RefineMember, RefineMode, LCS_MEMBER_SAMPLE, MEMBER_VALUE_CAP,
};
use rag_rat_core::resolution::{
    resolve, CloneEligibility, CloneIneligibilityReason, CloneSymbolSelector, Resolved,
};
use rag_rat_core::source::SourceTree;

/// A checkout that an index reads again after it was edited.
#[derive(Clone)]
struct Root {
    tree: Rc<RefCell<SourceTree>>,
}

impl Root {
    fn new() -> Root {
        Root { tree: Rc::new(RefCell::new(SourceTree::new())) }
    }

    fn write(&self, path: impl AsRef<str>, text: impl AsRef<str>) {
        self.tree.borrow_mut().write(path.as_ref(), text.as_ref());
    }

    fn remove(&self, path: &str) {
        self.tree.borrow_mut().remove(path);
    }

    fn remove_dir(&self, dir: &str) {
        let inside = format!("{dir}/");
        self.tree.borrow_mut().files.retain(|f| !f.path.starts_with(&inside));
    }
}

struct FindClonesOptions {
    min_similarity: Option<f64>,
    min_copies: Option<usize>,
    limit: Option<usize>,
}

#[derive(Debug)]
struct Member {
    reference: String,
}

#[derive(Debug)]
struct Class {
    members: Vec<Member>,
    member_count: usize,
    total_members: usize,
    members_returned: usize,
    class_kind: &'static str,
    refined: bool,
    refine_mode: Option<&'static str>,
    lcs_ratio: Option<f64>,
    similarity_min: f64,
    cohesion_min_pairwise: f64,
    cross_module_spread: usize,
    language: &'static str,
    class_key: String,
    medoid_symbol_id: Option<u64>,
    metrics_sampled: bool,
    refinement: Option<(usize, usize)>,
    body_token_len_medoid: usize,
    worth: u128,
}

impl Class {
    fn of(c: CloneClass) -> Class {
        let similarity = c.similarity as f64 / c.similarity_of as f64;
        Class {
            member_count: c.member_count,
            total_members: c.member_count,
            members_returned: c.members.len(),
            class_kind: c.class_kind(),
            refined: c.refinement.is_some(),
            refine_mode: c.refine_mode().map(|m| m.as_str()),
            lcs_ratio: c.refinement.map(|(lcs, of)| lcs as f64 / of as f64),
            similarity_min: similarity,
            cohesion_min_pairwise: similarity,
            cross_module_spread: c.cross_module_spread,
            language: c.language.as_str(),
            metrics_sampled: c.metrics_sampled(),
            refinement: c.refinement,
            body_token_len_medoid: c.body_token_len_medoid,
            worth: c.worth,
            medoid_symbol_id: Some(c.medoid_symbol_id),
            class_key: c.class_key,
            members: c.members.into_iter().map(|m| Member { reference: m.reference }).collect(),
        }
    }
}

#[derive(Debug)]
struct Completeness {
    candidate_metric: &'static str,
    normalizer_version: u64,
    min_similarity: f64,
    truncated: bool,
    refine_budget_clamped: bool,
    stale_members: usize,
}

#[derive(Debug)]
struct Found {
    classes: Vec<Class>,
    completeness: Completeness,
}

#[derive(Debug)]
struct ForSymbol {
    symbol_resolved: bool,
    symbol_fingerprinted: bool,
    eligibility: CloneEligibility,
    class: Option<Class>,
}

fn theta(x: f64) -> Theta {
    Theta { num: (x * 1000.0).round() as u32, den: 1000 }
}

fn rust_config(directories: &[&str]) -> Config {
    Config {
        targets: directories
            .iter()
            .map(|d| Target {
                directory: d.to_string(),
                language: Language::Rust,
                kind: TargetKind::Source,
            })
            .collect(),
    }
}

/// A repository that is kept in the same tables as the one under test.
const SIBLING: &str = "sibling";

type SiblingFile = (String, String, u64, Vec<u64>, Vec<u64>);

/// What the index holds of the sibling repository.
fn sibling_files(index: &Index) -> Vec<SiblingFile> {
    let rows: Vec<_> = index.store.files.iter().filter(|f| f.repo_id == SIBLING).collect();
    let contents: Vec<_> = index.contents.iter().filter(|c| c.repo_id == SIBLING).collect();
    assert_eq!(rows.len(), contents.len());
    rows.iter()
        .zip(contents)
        .map(|(f, c)| {
            (
                f.path.clone(),
                f.sha256.clone(),
                f.generation,
                c.symbols.iter().map(|s| s.id).collect(),
                c.chunks.iter().map(|k| k.id).collect(),
            )
        })
        .collect()
}

struct IndexDatabase {
    root: Root,
    config: Config,
    index: RefCell<Index>,
    sibling: Vec<SiblingFile>,
}

impl IndexDatabase {
    fn rebuild(root: &Root, directories: &[&str]) -> IndexDatabase {
        IndexDatabase::rebuild_with(root, rust_config(directories))
    }

    fn rebuild_with(root: &Root, config: Config) -> IndexDatabase {
        let tree = root.tree.borrow();
        let mut index = Index::open("");
        let own = index.scope.repo_id.clone();
        register_repo(&mut index.history, SIBLING);
        index.select_repo(SIBLING, 0);
        index.rebuild(&config, &tree);
        let sibling = sibling_files(&index);
        index.select_repo(&own, 0);
        index.rebuild(&config, &tree);
        IndexDatabase { root: root.clone(), config, index: RefCell::new(index), sibling }
    }

    /// The sibling repository is as it was before the first read.
    fn assert_sibling_intact(&self) {
        assert!(!self.sibling.is_empty());
        assert_eq!(sibling_files(&self.index.borrow()), self.sibling);
    }

    fn find_clones(&self, options: FindClonesOptions) -> Result<Found, String> {
        let options = clones::FindClonesOptions {
            min_similarity: options.min_similarity.map(theta),
            min_copies: options.min_copies,
            limit: options.limit,
        };
        let tree = self.root.tree.borrow();
        let found =
            self.index.borrow_mut().find_clones(&tree, &options).map_err(|e| e.message())?;
        Ok(Found {
            completeness: Completeness {
                candidate_metric: CANDIDATE_METRIC,
                normalizer_version: found.normalizer_version,
                min_similarity: found.min_similarity.num as f64 / found.min_similarity.den as f64,
                truncated: found.truncated,
                refine_budget_clamped: found.refine_budget_clamped,
                stale_members: found.stale_members,
            },
            classes: found.classes.into_iter().map(Class::of).collect(),
        })
    }

    fn clones_for_symbol(&self, selector: CloneSymbolSelector) -> Result<ForSymbol, String> {
        let tree = self.root.tree.borrow();
        let found =
            self.index.borrow_mut().clones_for_symbol(&tree, &selector).map_err(|e| e.message())?;
        Ok(ForSymbol {
            symbol_resolved: found.symbol_resolved,
            symbol_fingerprinted: found.symbol_fingerprinted,
            eligibility: found.eligibility,
            class: found.class.map(Class::of),
        })
    }

    fn candidate_clone_components(&self) -> Vec<Vec<u64>> {
        rag_rat_core::candidates::candidate_clone_components(&self.index.borrow())
    }

    fn load_refine_members(&self, ids: &[u64]) -> Option<Vec<RefineMember>> {
        let tree = self.root.tree.borrow();
        refine::load_refine_members(&self.index.borrow(), &tree, &ids.to_vec())
    }

    fn heal_file(&self, path: &str) {
        self.index.borrow_mut().heal_file(&self.config, &self.root.tree.borrow(), path);
    }

    fn index_worktree_overlay(&self, linked: &Root) -> OverlayReport {
        let tree = linked.tree.borrow();
        self.index.borrow_mut().index_worktree_overlay(&self.config, &tree, "linked")
    }

    fn set_base_scope(&self) {
        self.index.borrow_mut().set_base_scope();
    }

    fn active_scope_is_linked_overlay(&self) -> bool {
        self.index.borrow().active_scope_is_linked_overlay()
    }

    /// The fingerprints that were written, each with the path of its file.
    fn fingerprints(&self) -> Vec<(String, usize, Vec<(String, u64)>)> {
        let index = self.index.borrow();
        let mut found = Vec::new();
        for content in index.contents.iter().filter(|c| c.repo_id != SIBLING) {
            for symbol in &content.symbols {
                if let Some(print) = &symbol.print {
                    let bag: Vec<(String, u64)> =
                        print.bag.iter().map(|e| (e.token.clone(), e.freq)).collect();
                    found.push((content.path.clone(), print.token_len(), bag));
                }
            }
        }
        found
    }

    fn fp_rows_for(&self, part: &str) -> usize {
        self.fingerprints().iter().filter(|f| f.0.contains(part)).count()
    }

    fn refinement_count(&self) -> usize {
        self.index.borrow().refinements.len()
    }
}

fn fingerprinted_symbol_id_for_ref(db: &IndexDatabase, reference: &str) -> u64 {
    let index = db.index.borrow();
    for content in index.contents.iter().filter(|c| c.repo_id != SIBLING) {
        for symbol in &content.symbols {
            if symbol.qualified_name == reference && symbol.print.is_some() {
                return symbol.id;
            }
        }
    }
    panic!("no fingerprinted symbol is named {reference}");
}

fn copy_of_print(symbol: &Symbol) -> Option<rag_rat_core::fingerprint::Fingerprint> {
    symbol.print.as_ref().map(|p| rag_rat_core::fingerprint::Fingerprint {
        version: p.version,
        shape: p.shape.clone(),
        struct_hash: p.struct_hash.clone(),
        bag: p
            .bag
            .iter()
            .map(|e| BagEntry { token: e.token.clone(), freq: e.freq })
            .collect(),
    })
}

fn write_four_renamed_clones(root: &Root) -> IndexDatabase {
    for (dir, name, var) in [
        ("a", "load_user", "u"),
        ("a", "load_order", "o"),
        ("b", "load_item", "i"),
        ("b", "load_blob", "x"),
    ] {
        root.write(
            format!("{dir}/{name}.rs"),
            format!(
                "pub fn {name}(db: Db) -> i32 {{ let {var} = db.get(1); validate({var}); {var} + \
                 1 }}\n"
            ),
        );
    }
    IndexDatabase::rebuild(root, &["a", "b"])
}

#[test]
fn clones_indexing_writes_baseline_fingerprints_for_functions() {
    let root = Root::new();
    root.write(
        "src/lib.rs",
        "pub fn load_user(db: Db) -> i32 { let u = db.get(10); validate(u); u + 1 }\npub fn \
         load_order(store: Db) -> i32 { let o = store.get(20); validate(o); o + 1 }\npub fn \
         tiny() -> i32 { 0 }\n",
    );
    let db = IndexDatabase::rebuild(&root, &["src"]);

    let rows = db.fingerprints();
    assert_eq!(
        rows.len(),
        2,
        "the two functions are fingerprinted; tiny() is below MIN_TOKENS"
    );
    for (_, token_len, bag) in &rows {
        assert!(!bag.is_empty(), "a fingerprinted symbol has a non-empty bag");
        let total_freq: u64 = bag.iter().map(|(_, f)| *f).sum();
        assert_eq!(total_freq, *token_len as u64, "token_len == sum of freqs (lossless bag)");
        let mut tokens: Vec<&String> = bag.iter().map(|(t, _)| t).collect();
        let distinct = tokens.len();
        tokens.sort();
        tokens.dedup();
        assert_eq!(tokens.len(), distinct, "no duplicate token in the indexed bag");
    }

    let df = clone_token_df(&db.index.borrow());
    assert!(!df.is_empty(), "the token frequencies are there after indexing");
    let max_df = df.iter().map(|e| e.freq).max().unwrap_or(0);
    assert!(max_df >= 2, "a token shared by both clones has df >= 2, got {max_df}");

    for content in db.index.borrow_mut().contents.iter_mut() {
        content.symbols.clear();
    }
    assert_eq!(db.fingerprints().len(), 0, "fingerprints cascade on symbol delete");
}

#[test]
fn clones_clone_token_df_recomputed_from_blobs_matches_postings_era() {
    let root = Root::new();
    root.write(
        "src/lib.rs",
        "pub fn load_user(db: Db) -> i32 { let u = db.get(10); validate(u); u + 1 }\npub fn \
         load_order(store: Db) -> i32 { let o = store.get(20); validate(o); o + 1 }\npub fn \
         compute_totals(items: Vec<i64>) -> i64 { let mut s = 0; for it in items { s += it * 2; } \
         s + 1 }\n",
    );
    let db = IndexDatabase::rebuild(&root, &["src"]);

    let mut expected: std::collections::BTreeMap<String, u64> = std::collections::BTreeMap::new();
    for (_, _, bag) in db.fingerprints() {
        for (token, _freq) in bag {
            *expected.entry(token).or_insert(0) += 1;
        }
    }
    assert!(!expected.is_empty(), "fixture produced fingerprints");

    let persisted: std::collections::BTreeMap<String, u64> =
        clone_token_df(&db.index.borrow()).into_iter().map(|e| (e.token, e.freq)).collect();
    assert_eq!(persisted, expected, "the frequency is the distinct-symbol count per token");
    assert!(
        expected.values().any(|&d| d == 2),
        "the two renamed clones share at least one token (df == 2)"
    );
}

#[test]
fn clones_candidate_components_group_renamed_clones_and_exclude_unrelated() {
    let root = Root::new();
    root.write("src/a.rs", "pub fn load_user(db: Db) -> i32 { let u = db.get(10); validate(u); u + 1 }\n");
    root.write("src/b.rs", "pub fn load_order(store: Db) -> i32 { let o = store.get(20); validate(o); o + 1 }\n");
    root.write("src/c.rs", "pub fn parse_config(raw: String) -> Vec<u8> { let mut v = Vec::new(); for b in \
         raw.bytes() { v.push(b ^ 7); } v }\n");
    let db = IndexDatabase::rebuild(&root, &["src"]);

    let components = db.candidate_clone_components();
    assert_eq!(components.len(), 1, "exactly one clone component: {components:?}");
    assert_eq!(components[0].len(), 2, "the component is the two renamed clones: {components:?}");
}

#[test]
fn clones_candidate_components_reject_small_function_contained_in_large_one() {
    let root = Root::new();

    let a_body = "let mut acc = 0; let p = compute(seed); acc += p; for q in items.iter() { acc \
                  += transform(q); } acc";
    root.write(
        "src/a.rs",
        format!("pub fn small(seed: i32, items: Vec<i32>) -> i32 {{ {a_body} }}\n"),
    );

    let mut filler = String::new();
    for i in 0..40 {
        filler.push_str(&format!(
            "let v{i} = step{i}(base{i}, factor{i}) + delta{i}; total += v{i} * weight{i} - \
             offset{i};\n"
        ));
    }
    root.write(
        "src/b.rs",
        format!(
            "pub fn big(seed: i32, items: Vec<i32>, base: i32) -> i32 {{ let mut total = base; \
             {filler} {a_body}; total += acc; total }}\n"
        ),
    );
    let db = IndexDatabase::rebuild(&root, &["src"]);

    let mut lens: Vec<usize> = db.fingerprints().iter().map(|f| f.1).collect();
    lens.sort();
    assert_eq!(lens.len(), 2, "both functions are fingerprinted: {lens:?}");
    assert!(
        lens[1] >= 5 * lens[0],
        "B is much larger than A so overlap/max stays below THETA: {lens:?}"
    );

    let components = db.candidate_clone_components();
    assert!(
        components.is_empty(),
        "a small function contained in a large one is NOT a whole-symbol clone: {components:?}"
    );
}

#[test]
fn clones_candidate_components_exclude_generated_files_via_read_filter() {
    let root = Root::new();
    root.write(
        "src/a.rs",
        "pub fn load_user(db: Db) -> i32 { let u = db.get(10); validate(u); u + 1 }\n",
    );
    root.write(
        "src/b.rs",
        "pub fn load_order(store: Db) -> i32 { let o = store.get(20); validate(o); o + 1 }\n",
    );
    let db = IndexDatabase::rebuild(&root, &["src"]);

    let before = db.candidate_clone_components();
    assert_eq!(before.len(), 1, "baseline: one clone component: {before:?}");
    assert_eq!(before[0].len(), 2, "baseline component has 2 members: {before:?}");

    let mut updated = 0;
    for row in db.index.borrow_mut().store.files.iter_mut() {
        if row.repo_id != SIBLING && row.path.ends_with("b.rs") {
            row.generated = true;
            updated += 1;
        }
    }
    assert_eq!(updated, 1, "exactly one file row marked generated");

    let fp_count = db.fp_rows_for("b.rs");
    assert!(fp_count > 0, "b.rs still has fingerprint rows after marking generated: {fp_count}");

    let after = db.candidate_clone_components();
    let has_b_pair = after.iter().any(|component| component.len() >= 2);
    assert!(
        !has_b_pair,
        "generated b.rs must be excluded from clone components by the read filter: {after:?}"
    );
}

#[test]
fn clones_generated_files_are_not_fingerprinted_at_index_time() {
    let root = Root::new();
    root.write(
        "src/normal.rs",
        "pub fn load_user(db: Db) -> i32 { let u = db.get(10); validate(u); u + 1 }\n",
    );
    root.write(
        "src/generated/bindings.rs",
        "pub fn load_order(store: Db) -> i32 { let o = store.get(20); validate(o); o + 1 }\n",
    );
    let db = IndexDatabase::rebuild(&root, &["src"]);

    assert!(db.fp_rows_for("normal.rs") > 0, "normal source file must be fingerprinted");
    assert_eq!(
        db.fp_rows_for("/generated/"),
        0,
        "generated file must NOT be fingerprinted on a full rebuild"
    );

    let gen_symbols: usize = db
        .index
        .borrow()
        .contents
        .iter()
        .filter(|c| c.path.contains("/generated/"))
        .map(|c| c.symbols.len())
        .sum();
    assert!(
        gen_symbols > 0,
        "generated file must still get symbols (only fingerprints are skipped)"
    );

    db.heal_file("src/generated/bindings.rs");
    assert_eq!(
        db.fp_rows_for("/generated/"),
        0,
        "generated file must NOT be fingerprinted after a single-file heal"
    );
}

#[test]
fn clones_multi_language_clone_integration_finds_within_language_no_cross() {
    let root = Root::new();
    root.write(
        "rs/a.rs",
        "pub fn load_user(db: Db) -> i32 { let u = db.get(10); validate(u); u + 1 }\n",
    );
    root.write(
        "rs/b.rs",
        "pub fn load_order(s: Db) -> i32 {\n    // a different comment\n    let o = s.get(20); /* \
         x */ validate(o); o + 1 }\n",
    );
    root.write(
        "ts/a.ts",
        "const load = (id) => { const row = get(id); const tag = label(\"alpha\"); send(row, \
         tag); return row; }\n",
    );
    root.write(
        "ts/b.ts",
        "const fetch2 = (key) => { const item = get(key); const note = label(\"omega\"); \
         send(item, note); return item; }\n",
    );
    root.write(
        "py/a.py",
        "def load_user(db):\n    u = db.get(10)\n    validate(u)\n    return u + 1\n",
    );
    root.write(
        "py/b.py",
        "def load_order(s):\n    # a comment\n    o = s.get(20)  # trailing\n    validate(o)\n    \
         return o + 1\n",
    );

    let target = |directory: &str, language: Language| Target {
        directory: directory.to_string(),
        language,
        kind: TargetKind::Source,
    };
    let config = Config {
        targets: vec![
            target("rs", Language::Rust),
            target("ts", Language::TypeScript),
            target("py", Language::Python),
        ],
    };
    let db = IndexDatabase::rebuild_with(&root, config);

    let index = db.index.borrow();
    let lang_of = |symbol_id: u64| -> &'static str {
        let content = index
            .contents
            .iter()
            .find(|c| c.symbols.iter().any(|s| s.id == symbol_id))
            .unwrap();
        content.language.as_str()
    };

    let components = db.candidate_clone_components();
    let mut langs_with_clone: std::collections::BTreeSet<&str> = Default::default();
    for component in &components {
        let langs: std::collections::BTreeSet<&str> =
            component.iter().map(|&id| lang_of(id)).collect();
        assert_eq!(
            langs.len(),
            1,
            "a clone component must be single-language (no cross-language pairs): {langs:?}"
        );
        langs_with_clone.insert(langs.into_iter().next().unwrap());
    }

    for expected in ["rust", "typescript", "python"] {
        assert!(
            langs_with_clone.contains(expected),
            "expected a within-language clone in {expected}; got {langs_with_clone:?}"
        );
    }
}

#[test]
fn clones_candidate_components_reject_partial_overlap_below_max_denominator_theta() {
    let root = Root::new();
    root.write(
        "src/a.rs",
        "pub fn a(x: i32, y: i32) -> i32 { let p = alpha(x); let q = beta(y); let r = gamma(p); \
         let s = delta(q); let t = epsilon(r, s); p + q + r + s + t }\n",
    );
    root.write(
        "src/b.rs",
        "pub fn b(items: Vec<i32>, acc: i32) -> i32 { let mut total = acc; for item in \
         items.iter() { let v = process(item); match v { 0 => total += 1, _ => total += v } } if \
         total > 0 { total } else { -1 } }\n",
    );
    let db = IndexDatabase::rebuild(&root, &["src"]);

    let mut lens: Vec<usize> = db.fingerprints().iter().map(|f| f.1).collect();
    lens.sort();
    assert_eq!(lens.len(), 2, "both functions must be fingerprinted: {lens:?}");
    let min_len = lens[0];
    let max_len = lens[1];
    let threshold = (0.7_f64 * max_len as f64).ceil() as usize;
    assert!(
        min_len >= threshold,
        "pair must survive the size prune (min_len={min_len} >= ceil(0.7*max_len)={threshold}) so \
         the next assertion targets the overlap/max gate, not the prune"
    );

    let comps = db.candidate_clone_components();
    assert!(
        comps.is_empty(),
        "a partial-overlap pair below overlap/max θ must NOT be a candidate (no regression to \
         containment): min_len={min_len} max_len={max_len} threshold={threshold} {comps:?}"
    );
}

#[test]
fn clones_candidate_read_ignores_stale_normalizer_version_rows() {
    let root = Root::new();
    root.write(
        "src/a.rs",
        "pub fn load_user(db: Db) -> i32 { let u = db.get(1); validate(u); u + 1 }\n",
    );
    root.write(
        "src/b.rs",
        "pub fn load_order(s: Db) -> i32 { let o = s.get(2); validate(o); o + 1 }\n",
    );
    let db = IndexDatabase::rebuild(&root, &["src"]);
    assert_eq!(
        db.candidate_clone_components().len(),
        1,
        "renamed clones form one component at the current version"
    );

    for content in db.index.borrow_mut().contents.iter_mut() {
        for symbol in content.symbols.iter_mut() {
            if let Some(print) = symbol.print.as_mut() {
                print.version -= 1;
            }
        }
    }
    assert!(
        db.candidate_clone_components().is_empty(),
        "stale-version fingerprints must be ignored by the read"
    );
}

#[test]
fn clones_find_clones_ranks_a_clean_clone_class_with_metrics() {

    let root = Root::new();
    for (dir, name, var) in [
        ("a", "load_user", "u"),
        ("a", "load_order", "o"),
        ("b", "load_item", "i"),
        ("b", "load_blob", "x"),
    ] {
        root.write(
            format!("{dir}/{name}.rs"),
            format!(
                "pub fn {name}(db: Db) -> i32 {{ let {var} = db.get(1); validate({var}); {var} + \
                 1 }}\n"
            ),
        );
    }
    root.write("a/misc.rs", "pub fn misc(v: Vec<u8>) -> usize { let mut n = 0; for b in v { n += b as usize; } n }\n");

    let db = IndexDatabase::rebuild(&root, &["a", "b"]);

    let res = db
        .find_clones(FindClonesOptions { min_similarity: None, min_copies: None, limit: None })
        .unwrap();

    assert_eq!(res.classes.len(), 1, "exactly one clone class (the four rename-clones)");
    let c = &res.classes[0];
    assert_eq!(c.member_count, 4, "all four rename-clone functions are members");
    assert_eq!(c.class_kind, "refined_class");
    assert!(c.refined, "a clean class inside the refine budget is refined");
    assert_eq!(c.refine_mode, Some("baseline"), "refined classes carry the baseline refine mode");
    assert!(
        c.similarity_min > 0.9,
        "rename-clones are near-identical; expected similarity_min > 0.9, got {}",
        c.similarity_min
    );
    assert_eq!(c.cross_module_spread, 2, "members span two directories (a/ and b/)");
    assert_eq!(c.language, "rust");
    assert!(!c.class_key.is_empty());
    assert_eq!(res.completeness.candidate_metric, "overlap_max_denominator");
    assert_eq!(res.completeness.normalizer_version, NORM_VERSION);
    assert!(!res.completeness.truncated);
}

#[test]
fn clones_clones_for_symbol_returns_the_class_by_ref_and_by_path_line() {
    let root = Root::new();
    root.write("src/a.rs", "pub fn load_user(db: Db) -> i32 { let u = db.get(1); validate(u); u + 1 }\n");
    root.write("src/b.rs", "pub fn load_order(s: Db) -> i32 { let o = s.get(2); validate(o); o + 1 }\n");

    let db = IndexDatabase::rebuild(&root, &["src"]);
    let by_ref_res =
        db.clones_for_symbol(CloneSymbolSelector::Ref("src/a.rs::load_user".into())).unwrap();
    let by_ref = by_ref_res.class.as_ref().expect("src/a.rs::load_user should be in a clone class");
    assert_eq!(by_ref.member_count, 2, "class must contain both rename-clones");
    assert!(
        by_ref.members.iter().any(|m| m.reference.ends_with("b.rs::load_order")),
        "siblings must include the other clone; got: {:?}",
        by_ref.members.iter().map(|m| &m.reference).collect::<Vec<_>>()
    );
    let by_line_res = db
        .clones_for_symbol(CloneSymbolSelector::PathLine { path: "src/a.rs".into(), line: 1 })
        .unwrap();
    let by_line = by_line_res
        .class
        .as_ref()
        .expect("PathLine at line 1 in src/a.rs should resolve to the same clone class");
    assert_eq!(
        by_line.class_key, by_ref.class_key,
        "PathLine and Ref must resolve to the same class_key"
    );
    root.write("src/c.rs", "pub fn solo(v: Vec<u8>) -> usize { let mut n = 0; for b in v { n ^= b as usize; } n }\n");
    let db2 = IndexDatabase::rebuild(&root, &["src"]);
    let solo_res =
        db2.clones_for_symbol(CloneSymbolSelector::Ref("src/c.rs::solo".into())).unwrap();
    assert!(solo_res.class.is_none(), "a symbol in no clone class must have class: None");
    assert!(solo_res.symbol_resolved, "the solo symbol still resolves");
    assert!(solo_res.symbol_fingerprinted, "the solo function is eligible (fingerprinted)");
    db2.assert_sibling_intact();
}

#[test]
fn clones_find_clones_min_similarity_below_theta_widens_and_is_reported() {
    let root = Root::new();
    root.write("src/a.rs", "pub fn a(x: i32, y: i32) -> i32 { let p = alpha(x); let q = beta(y); let r = gamma(p); \
         let s = delta(q); let t = epsilon(r, s); p + q + r + s + t }\n");
    root.write("src/b.rs", "pub fn b(x: i32, y: i32) -> i32 { let p = alpha(x); let q = beta(y); let r = gamma(p); \
         let s = delta(q); for item in items.iter() { let v = process(item); match v { 0 => total \
         += 1, _ => total += v } } if total > 0 { total } else { -1 } }\n");
    let db = IndexDatabase::rebuild(&root, &["src"]);
    let widened = db
        .find_clones(FindClonesOptions { min_similarity: Some(0.5), min_copies: None, limit: None })
        .unwrap();
    assert_eq!(
        widened.classes.len(),
        1,
        "θ=0.5 must surface the borderline pair as a class: {:?}",
        widened.classes
    );
    let sim = widened.classes[0].similarity_min;
    assert!(
        (0.5..0.7).contains(&sim),
        "the planted pair's similarity must sit in [0.5, 0.7): got {sim}"
    );
    assert_eq!(
        widened.completeness.min_similarity, 0.5,
        "completeness must report the θ actually used (0.5)"
    );
    let default = db
        .find_clones(FindClonesOptions { min_similarity: None, min_copies: None, limit: None })
        .unwrap();
    assert!(
        default.classes.is_empty(),
        "θ=0.7 must NOT surface the borderline pair: {:?}",
        default.classes
    );
    assert_eq!(default.completeness.min_similarity, 0.7, "default completeness θ is 0.7");
}

#[test]
fn clones_find_clones_rejects_out_of_range_min_similarity() {
    let root = Root::new();
    root.write("src/a.rs", "pub fn load_user(db: Db) -> i32 { let u = db.get(1); validate(u); u + 1 }\n");
    root.write("src/b.rs", "pub fn load_order(s: Db) -> i32 { let o = s.get(2); validate(o); o + 1 }\n");
    let db = IndexDatabase::rebuild(&root, &["src"]);
    let zero = db.find_clones(FindClonesOptions {
        min_similarity: Some(0.0),
        min_copies: None,
        limit: None,
    });
    let err = zero.expect_err("min_similarity = 0.0 must be rejected");
    assert!(err.contains("[0.5, 1.0]"), "expected '[0.5, 1.0]' in error, got: {err}");
    let below_floor = db.find_clones(FindClonesOptions {
        min_similarity: Some(0.4),
        min_copies: None,
        limit: None,
    });
    let err = below_floor
        .expect_err("min_similarity = 0.4 must be rejected (below 0.5 floor)");
    assert!(err.contains("[0.5, 1.0]"), "expected '[0.5, 1.0]' in error for 0.4, got: {err}");
    let high = db.find_clones(FindClonesOptions {
        min_similarity: Some(1.5),
        min_copies: None,
        limit: None,
    });
    let err = high.expect_err("min_similarity = 1.5 must be rejected");
    assert!(err.contains("[0.5, 1.0]"), "expected '[0.5, 1.0]' in error for 1.5, got: {err}");
    db.find_clones(FindClonesOptions { min_similarity: Some(1.0), min_copies: None, limit: None })
        .expect("min_similarity = 1.0 is the inclusive upper bound and must be accepted");
    db.find_clones(FindClonesOptions { min_similarity: Some(0.5), min_copies: None, limit: None })
        .expect("min_similarity = 0.5 is the inclusive lower bound and must be accepted");
}

#[test]
fn clones_find_clones_truncated_reflects_class_limit() {
    let root = Root::new();
    root.write("src/a.rs", "pub fn load_user(db: Db) -> i32 { let u = db.get(1); validate(u); u + 1 }\n");
    root.write("src/b.rs", "pub fn load_order(s: Db) -> i32 { let o = s.get(2); validate(o); o + 1 }\n");
    root.write("src/c.rs", "pub fn sum_bytes(v: Vec<u8>) -> usize { let mut n = 0; for b in v { n += b as usize; } n \
         }\n");
    root.write("src/d.rs", "pub fn sum_words(w: Vec<u8>) -> usize { let mut m = 0; for c in w { m += c as usize; } m \
         }\n");
    let db = IndexDatabase::rebuild(&root, &["src"]);
    let all = db
        .find_clones(FindClonesOptions { min_similarity: None, min_copies: None, limit: None })
        .unwrap();
    assert_eq!(all.classes.len(), 2, "two distinct clone classes are planted: {:?}", all.classes);
    assert!(!all.completeness.truncated, "no limit ⇒ not truncated");
    let limited = db
        .find_clones(FindClonesOptions { min_similarity: None, min_copies: None, limit: Some(1) })
        .unwrap();
    assert_eq!(limited.classes.len(), 1, "limit=1 returns exactly one class");
    assert!(
        limited.completeness.truncated,
        "dropping a whole class via the limit must set completeness.truncated"
    );
}

#[test]
fn clones_coherence_split_applied_in_find_clones() {
    let core = "let c1 = ca(x); let c2 = cb(c1); let c3 = cc(c2);";
    let s1 = "if x > 0 { acc = p1(x); } else { acc = p2(x); } if acc > 1 { acc = p3(acc); } else \
              { acc = p4(acc); }";
    let s2 = "for it in xs { match it { 0 => acc += q1(it), 1 => acc += q2(it), _ => acc -= \
              q3(it) } } for jt in ys { match jt { 0 => acc += q4(jt), _ => acc -= q5(jt) } }";
    let sx = "while acc > 0 { acc = r1(acc); acc = r2(acc); acc = r3(acc); } while acc < 9 { acc \
              = r4(acc); acc = r5(acc); }";
    let sy = "loop { acc = s1f(acc); acc = s2f(acc); acc = s3f(acc); if acc == 0 { break; } } \
              loop { acc = s4f(acc); if acc < 0 { break; } }";
    let a = format!("pub fn fa(x: i32) -> i32 {{ {core} {s1} {sx} 0 }}\n");
    let b = format!("pub fn fb(x: i32) -> i32 {{ {core} {s1} {s2} 0 }}\n");
    let c = format!("pub fn fc(x: i32) -> i32 {{ {core} {s2} {sy} 0 }}\n");
    let (a, b, c) = (a.as_str(), b.as_str(), c.as_str());

    const THETA: f64 = 0.7;
    let edge_sim = |src1: (&str, &str), src2: (&str, &str)| -> f64 {
        let r = Root::new();
        r.write(format!("src/{}.rs", src1.0), src1.1);
        r.write(format!("src/{}.rs", src2.0), src2.1);
        let d = IndexDatabase::rebuild(&r, &["src"]);
        let res = d
            .find_clones(FindClonesOptions {
                min_similarity: Some(0.5),
                min_copies: None,
                limit: None,
            })
            .unwrap();
        let sim = res.classes.first().map(|c| c.similarity_min).unwrap_or(0.0);
        sim
    };
    let ab = edge_sim(("a", a), ("b", b));
    let bc = edge_sim(("b", b), ("c", c));
    let ac = edge_sim(("a", a), ("c", c));
    assert!(ab >= THETA, "A/B must be a real (≥θ) edge: measured {ab}");
    assert!(bc >= THETA, "B/C must be a real (≥θ) edge: measured {bc}");
    assert!(
        ac < THETA,
        "A/C must be BELOW θ so the three only link transitively through B: measured {ac}"
    );
    let root = Root::new();
    root.write("src/a.rs", a);
    root.write("src/b.rs", b);
    root.write("src/c.rs", c);
    let db = IndexDatabase::rebuild(&root, &["src"]);

    let res = db
        .find_clones(FindClonesOptions { min_similarity: None, min_copies: None, limit: None })
        .unwrap();
    assert!(
        res.classes.iter().all(|c| c.member_count < 3),
        "the over-merged chain must split — no class may keep all 3 members: {:?}",
        res.classes.iter().map(|c| c.member_count).collect::<Vec<_>>()
    );
    for class in &res.classes {
        assert!(
            class.cohesion_min_pairwise >= THETA - 1e-9,
            "a coherence-split class must be internally ≥ θ: got {}",
            class.cohesion_min_pairwise
        );
    }
    assert_eq!(
        res.classes.len(),
        2,
        "the chain yields two coherent ≥2 classes: {{A,B}} and {{B,C}}"
    );
    for class in &res.classes {
        assert_eq!(class.member_count, 2, "each coherent class has 2 members");
    }
    let by_a = db.clones_for_symbol(CloneSymbolSelector::Ref("src/a.rs::fa".into())).unwrap();
    let a_class = by_a.class.as_ref().expect("fa is in the coherent {A,B} sub-class");
    assert_eq!(a_class.member_count, 2, "clones_for_symbol(fa) returns A's coherent sub-class");
    assert!(
        res.classes.iter().any(|c| c.class_key == a_class.class_key),
        "find_clones and clones_for_symbol must return the SAME coherent sub-class for A"
    );
    let by_c = db.clones_for_symbol(CloneSymbolSelector::Ref("src/c.rs::fc".into())).unwrap();
    let c_class = by_c.class.as_ref().expect("fc is in the coherent {B,C} sub-class");
    assert_eq!(
        c_class.member_count, 2,
        "clones_for_symbol(fc) returns C's coherent {{B,C}} sub-class"
    );
    assert!(c_class.refined, "the {{B,C}} sub-class is refined");
}

#[test]
fn clones_clone_split_full_path_is_deterministic() {
    let core = "let c1 = ca(x); let c2 = cb(c1); let c3 = cc(c2);";
    let s1 = "if x > 0 { acc = p1(x); } else { acc = p2(x); } if acc > 1 { acc = p3(acc); } else \
              { acc = p4(acc); }";
    let s2 = "for it in xs { match it { 0 => acc += q1(it), 1 => acc += q2(it), _ => acc -= \
              q3(it) } } for jt in ys { match jt { 0 => acc += q4(jt), _ => acc -= q5(jt) } }";
    let sx = "while acc > 0 { acc = r1(acc); acc = r2(acc); acc = r3(acc); } while acc < 9 { acc \
              = r4(acc); acc = r5(acc); }";
    let sy = "loop { acc = s1f(acc); acc = s2f(acc); acc = s3f(acc); if acc == 0 { break; } } \
              loop { acc = s4f(acc); if acc < 0 { break; } }";
    let a = format!("pub fn fa(x: i32) -> i32 {{ {core} {s1} {sx} 0 }}\n");
    let b = format!("pub fn fb(x: i32) -> i32 {{ {core} {s1} {s2} 0 }}\n");
    let c = format!("pub fn fc(x: i32) -> i32 {{ {core} {s2} {sy} 0 }}\n");

    let build_and_list = || -> (Vec<String>, Option<String>) {
        let root = Root::new();
        root.write("src/a.rs", a.as_str());
        root.write("src/b.rs", b.as_str());
        root.write("src/c.rs", c.as_str());
        let db = IndexDatabase::rebuild(&root, &["src"]);
        let res = db
            .find_clones(FindClonesOptions { min_similarity: None, min_copies: None, limit: None })
            .unwrap();
        let keys: Vec<String> = res.classes.iter().map(|cl| cl.class_key.clone()).collect();
        let by_b = db.clones_for_symbol(CloneSymbolSelector::Ref("src/b.rs::fb".into())).unwrap();
        let b_key = by_b.class.as_ref().map(|cl| cl.class_key.clone());
        (keys, b_key)
    };

    let (keys1, b1) = build_and_list();
    let (keys2, b2) = build_and_list();
    assert_eq!(keys1, keys2, "find_clones class order must be identical across rebuilds");
    assert_eq!(b1, b2, "clones_for_symbol(fb) must resolve to the same class across rebuilds");
    assert_eq!(keys1.len(), 2, "the chain must split into two coherent classes: {keys1:?}");
}

#[test]
fn clones_clones_for_chained_symbol_serves_tight_neighborhood() {
    let core = "let c1 = ca(x); let c2 = cb(c1); let c3 = cc(c2);";
    let s1 = "if x > 0 { acc = p1(x); } else { acc = p2(x); } if acc > 1 { acc = p3(acc); } else \
              { acc = p4(acc); }";
    let s2 = "for it in xs { match it { 0 => acc += q1(it), 1 => acc += q2(it), _ => acc -= \
              q3(it) } } for jt in ys { match jt { 0 => acc += q4(jt), _ => acc -= q5(jt) } }";
    let sx = "while acc > 0 { acc = r1(acc); acc = r2(acc); acc = r3(acc); } while acc < 9 { acc \
              = r4(acc); acc = r5(acc); }";
    let sy = "loop { acc = s1f(acc); acc = s2f(acc); acc = s3f(acc); if acc == 0 { break; } } \
              loop { acc = s4f(acc); if acc < 0 { break; } }";
    let a = format!("pub fn fa(x: i32) -> i32 {{ {core} {s1} {sx} 0 }}\n");
    let b = format!("pub fn fb(x: i32) -> i32 {{ {core} {s1} {s2} 0 }}\n");
    let c = format!("pub fn fc(x: i32) -> i32 {{ {core} {s2} {sy} 0 }}\n");

    const THETA: f64 = 0.7;
    let root = Root::new();
    root.write("src/a.rs", a.as_str());
    root.write("src/b.rs", b.as_str());
    root.write("src/c.rs", c.as_str());
    let db = IndexDatabase::rebuild(&root, &["src"]);

    let by_b = db.clones_for_symbol(CloneSymbolSelector::Ref("src/b.rs::fb".into())).unwrap();
    let b_class = by_b.class.as_ref().expect("fb is the bridge symbol — it has coherent peers");
    assert_eq!(
        b_class.member_count, 2,
        "the chained subject's class must be the TIGHT 2-member neighborhood, never the \
         over-merged 3-member component"
    );
    assert!(
        b_class.cohesion_min_pairwise >= THETA - 1e-9,
        "the served class must be internally coherent (≥ θ): got {}",
        b_class.cohesion_min_pairwise
    );
}

#[test]
fn clones_clones_for_symbol_returns_refined_class() {
    let root = Root::new();
    let db = write_four_renamed_clones(&root);

    let res =
        db.clones_for_symbol(CloneSymbolSelector::Ref("a/load_user.rs::load_user".into())).unwrap();
    let class = res.class.as_ref().expect("load_user is in the clone class");
    assert!(class.refined, "clones_for_symbol refines the subject's class");
    assert_eq!(class.class_kind, "refined_class");
    assert_eq!(class.refine_mode, Some("baseline"));
    assert!(class.lcs_ratio.is_some(), "a refined class carries an lcs_ratio");
    assert!(
        class.members.iter().any(|m| m.reference.ends_with("load_user.rs::load_user")),
        "the subject must appear in its own refined class: {:?}",
        class.members.iter().map(|m| &m.reference).collect::<Vec<_>>()
    );
}

#[test]
fn clones_refinement_key_is_content_addressed_and_distinct_from_read_key() {
    let hashes = vec!["h1".to_string(), "h2".to_string(), "h3".to_string()];
    let shuffled = vec!["h3".to_string(), "h1".to_string(), "h2".to_string()];
    let discs = vec!["d1".to_string(), "d2".to_string(), "d3".to_string()];
    let discs_shuffled = vec!["d3".to_string(), "d1".to_string(), "d2".to_string()];

    assert_eq!(
        refinement_key("rust", RefineMode::Baseline, &hashes, &discs),
        refinement_key("rust", RefineMode::Baseline, &shuffled, &discs_shuffled),
        "the same struct_hash + source-discriminator multiset must address the same refinement"
    );

    let root = Root::new();
    let db = write_four_renamed_clones(&root);
    let res = db
        .find_clones(FindClonesOptions { min_similarity: None, min_copies: None, limit: None })
        .unwrap();
    let read_key = &res.classes[0].class_key;

    let refinement_pk: String = db.index.borrow().refinements[0].key.clone();
    assert_ne!(
        &refinement_pk, read_key,
        "the content-addressed refinement key must differ from the location-derived read key"
    );
}

#[test]
fn clones_refine_cache_is_read_through() {
    let root = Root::new();
    let db = write_four_renamed_clones(&root);

    let count_rows = |db: &IndexDatabase| -> usize { db.refinement_count() };
    assert_eq!(count_rows(&db), 0, "no refinements before the first run");
    let r1 = db
        .find_clones(FindClonesOptions { min_similarity: None, min_copies: None, limit: None })
        .unwrap();
    assert!(r1.classes[0].refined, "run 1 refines the class");
    let after_run1 = count_rows(&db);
    assert_eq!(after_run1, 1, "run 1 persists exactly one refinement row");
    let r2 = db
        .find_clones(FindClonesOptions { min_similarity: None, min_copies: None, limit: None })
        .unwrap();
    assert!(r2.classes[0].refined, "run 2 still refined (served from cache)");
    assert_eq!(count_rows(&db), after_run1, "run 2 is a cache hit — the row count must not grow");
}

#[test]
fn clones_find_clones_warm_cache_serves_refined_without_reparse() {
    let root = Root::new();
    let db = write_four_renamed_clones(&root);
    let r1 = db
        .find_clones(FindClonesOptions { min_similarity: None, min_copies: None, limit: None })
        .unwrap();
    assert!(r1.classes[0].refined, "run 1 must refine the class (cold path)");
    for dir in ["a", "b"] {
        root.remove_dir(dir);
    }
    let r2 = db
        .find_clones(FindClonesOptions { min_similarity: None, min_copies: None, limit: None })
        .unwrap();
    assert!(
        r2.classes[0].refined,
        "run 2 must still be refined from the cache — warm path must not re-parse source files"
    );
    assert_eq!(
        r1.classes[0].lcs_ratio, r2.classes[0].lcs_ratio,
        "warm-path lcs_ratio must match the cold-path value"
    );
}

#[test]
fn clones_find_clones_warm_cache_metrics_sampled_consistent() {
    let root = Root::new();
    let db = write_four_renamed_clones(&root);
    let r1 = db
        .find_clones(FindClonesOptions { min_similarity: None, min_copies: None, limit: None })
        .unwrap();
    assert!(r1.classes[0].refined, "run 1 refines the class");
    let sampled_cold = r1.classes[0].metrics_sampled;
    let r2 = db
        .find_clones(FindClonesOptions { min_similarity: None, min_copies: None, limit: None })
        .unwrap();
    assert!(r2.classes[0].refined, "run 2 is refined from the cache");
    let sampled_warm = r2.classes[0].metrics_sampled;

    assert_eq!(
        sampled_cold, sampled_warm,
        "metrics_sampled must be consistent across cold ({sampled_cold}) and warm \
         ({sampled_warm}) paths"
    );
}

#[test]
fn clones_unrefined_class_outside_top_n_keeps_plan2_shape() {
    let root = Root::new();
    let big = |name: &str, v: &str| {
        format!(
            "pub fn {name}(db: Db) -> i32 {{ let {v}1 = db.get(1); let {v}2 = db.get(2); let {v}3 \
             = db.get(3); validate({v}1); validate({v}2); validate({v}3); {v}1 + {v}2 + {v}3 }}\n"
        )
    };
    root.write("src/big_a.rs", big("big_user", "u"));
    root.write("src/big_b.rs", big("big_order", "o"));
    let small = |name: &str, v: &str| {
        format!(
            "pub fn {name}(xs: Vec<u8>) -> usize {{ let mut {v} = 0; for e in xs {{ {v} += e as \
             usize; }} {v} }}\n"
        )
    };
    root.write("src/small_a.rs", small("sum_bytes", "n"));
    root.write("src/small_b.rs", small("sum_words", "m"));
    let db = IndexDatabase::rebuild(&root, &["src"]);

    let count_rows = |db: &IndexDatabase| -> usize { db.refinement_count() };
    let all = db
        .find_clones(FindClonesOptions { min_similarity: None, min_copies: None, limit: None })
        .unwrap();
    assert_eq!(all.classes.len(), 2, "two distinct clean classes are planted");
    assert!(all.classes.iter().all(|c| c.refined), "default budget refines both");
    assert_eq!(count_rows(&db), 2, "default budget persists both refinements");
    let root2 = Root::new();
    root2.write("src/big_a.rs", big("big_user", "u"));
    root2.write("src/big_b.rs", big("big_order", "o"));
    root2.write("src/small_a.rs", small("sum_bytes", "n"));
    root2.write("src/small_b.rs", small("sum_words", "m"));
    let db2 = IndexDatabase::rebuild(&root2, &["src"]);
    let limited = db2
        .find_clones(FindClonesOptions { min_similarity: None, min_copies: None, limit: Some(1) })
        .unwrap();
    assert_eq!(limited.classes.len(), 1, "limit=1 returns exactly one class");
    let top = &limited.classes[0];
    assert!(top.refined, "the single returned (top-1) class is refined");
    assert!(top.lcs_ratio.is_some(), "the refined class carries an lcs_ratio");
    assert_eq!(top.refine_mode, Some("baseline"));
    assert_eq!(
        count_rows(&db2),
        1,
        "limit=1 refines only the top-1 class — the out-of-budget class is never refined"
    );
}

#[test]
fn clones_find_clones_limited_result_contains_only_refined_classes() {
    let root = Root::new();
    let big = |name: &str, v: &str| {
        format!(
            "pub fn {name}(db: Db) -> i32 {{ let {v}1 = db.get(1); let {v}2 = db.get(2); let {v}3 \
             = db.get(3); validate({v}1); validate({v}2); validate({v}3); {v}1 + {v}2 + {v}3 }}\n"
        )
    };
    root.write("src/big_a.rs", big("big_user", "u"));
    root.write("src/big_b.rs", big("big_order", "o"));
    let matchy = |name: &str, v: &str| {
        format!(
            "pub fn {name}(k: i32) -> i32 {{ let {v} = match k {{ 0 => 10, 1 => 20, 2 => 30, _ => \
             40 }}; {v} + 1 }}\n"
        )
    };
    root.write("src/match_a.rs", matchy("classify_a", "n"));
    root.write("src/match_b.rs", matchy("classify_b", "m"));
    let small = |name: &str, v: &str| {
        format!(
            "pub fn {name}(xs: Vec<u8>) -> usize {{ let mut {v} = 0; for e in xs {{ {v} += e as \
             usize; }} {v} }}\n"
        )
    };
    root.write("src/small_a.rs", small("sum_bytes", "s"));
    root.write("src/small_b.rs", small("sum_words", "t"));

    let db = IndexDatabase::rebuild(&root, &["src"]);
    let all = db
        .find_clones(FindClonesOptions { min_similarity: None, min_copies: None, limit: None })
        .unwrap();
    assert_eq!(all.classes.len(), 3, "three distinct clone classes are planted: {:?}", all.classes);
    assert!(all.classes.iter().all(|c| c.refined), "unlimited refines all 3 (budget=50)");
    let root2 = Root::new();
    root2.write("src/big_a.rs", big("big_user", "u"));
    root2.write("src/big_b.rs", big("big_order", "o"));
    root2.write("src/match_a.rs", matchy("classify_a", "n"));
    root2.write("src/match_b.rs", matchy("classify_b", "m"));
    root2.write("src/small_a.rs", small("sum_bytes", "s"));
    root2.write("src/small_b.rs", small("sum_words", "t"));
    let db2 = IndexDatabase::rebuild(&root2, &["src"]);
    let limited = db2
        .find_clones(FindClonesOptions { min_similarity: None, min_copies: None, limit: Some(2) })
        .unwrap();
    assert_eq!(limited.classes.len(), 2, "limit=2 returns exactly 2 classes");
    for (i, c) in limited.classes.iter().enumerate() {
        assert!(
            c.refined,
            "every class in a limited result must be refined (or best-effort-unrefined); \
             class[{i}] (key={}) has refined=false",
            c.class_key
        );
    }
}

#[test]
fn clones_find_clones_huge_limit_clamps_to_refine_budget() {
    let root = Root::new();
    let ops = [
        "+", "-", "*", "/", "%", "&", "|", "^", "<<", ">>", "<", ">", "<=", ">=", "==", "!=", "&&",
        "||",
    ];
    let tiers = [64usize, 104, 168, 270];
    let body = |op: &str, n: usize, var: &str, name: &str| {
        let mut s = format!("pub fn {name}({var}: i64) -> i64 {{\n    {var}");
        for _ in 0..n {
            s.push_str(&format!(" {op} {var}"));
        }
        s.push_str("\n}\n");
        s
    };
    let mut idx = 0usize;
    for (ti, &n) in tiers.iter().enumerate() {
        for (oi, op) in ops.iter().enumerate() {
            let fa = body(op, n, "a", &format!("fn_a_t{ti}_o{oi}"));
            let fb = body(op, n, "b", &format!("fn_b_t{ti}_o{oi}"));
            root.write(format!("src/clone_a{idx}.rs"), fa);
            root.write(format!("src/clone_b{idx}.rs"), fb);
            idx += 1;
        }
    }

    let db = IndexDatabase::rebuild(&root, &["src"]);
    let all = db
        .find_clones(FindClonesOptions { min_similarity: None, min_copies: None, limit: None })
        .unwrap();
    assert!(
        all.classes.len() > 50,
        "fixture must plant > 50 clone classes to exercise the clamp; got {}",
        all.classes.len()
    );
    let limited = db
        .find_clones(FindClonesOptions {
            min_similarity: None,
            min_copies: None,
            limit: Some(100_000),
        })
        .unwrap();
    assert_eq!(
        limited.classes.len(),
        50,
        "a huge limit over > 50 classes must return EXACTLY the refine budget (50); got {}",
        limited.classes.len()
    );
    assert!(
        limited.classes.iter().all(|c| c.refined),
        "every class in a huge-limited result must be refined"
    );
    assert!(
        limited.completeness.truncated,
        "dropping whole classes to honor the budget must set truncated"
    );
    assert!(
        limited.completeness.refine_budget_clamped,
        "a limit above the budget that drops classes must set refine_budget_clamped"
    );
}

#[test]
fn clones_load_refine_members_returns_up_to_value_cap() {
    assert_eq!(MEMBER_VALUE_CAP, 50, "MEMBER_VALUE_CAP must be 50");
    assert_eq!(MAX_MEMBERS, 50, "MAX_MEMBERS must be 50");
    assert_eq!(LCS_MEMBER_SAMPLE, 64, "LCS_MEMBER_SAMPLE must be 64");
    assert!(MEMBER_VALUE_CAP < LCS_MEMBER_SAMPLE);

    const MEMBERS: usize = MEMBER_VALUE_CAP + 1;
    let root = Root::new();
    for i in 0..MEMBERS {
        let src = format!(
            "pub fn fn_{i}(db: Db) -> i32 {{ let a{i} = db.get(); let b{i} = db.get(); let c{i} = \
             db.get(); validate(a{i}); validate(b{i}); validate(c{i}); a{i} + b{i} + c{i} }}\n"
        );
        root.write(format!("src/m{i}.rs"), src);
    }

    let db = IndexDatabase::rebuild(&root, &["src"]);
    let components = db.candidate_clone_components();
    let mut big = components
        .into_iter()
        .find(|c| c.len() == MEMBERS)
        .unwrap_or_else(|| panic!("expected one component of {MEMBERS} exact clones"));
    big.sort_unstable();
    let members = db.load_refine_members(&big)
        .expect("refine inputs available for an in-scope class");
    assert_eq!(
        members.len(),
        MEMBER_VALUE_CAP,
        "load_refine_members must cap a {MEMBERS}-member class to MEMBER_VALUE_CAP (50)"
    );
    let returned_ids: Vec<u64> = members.iter().map(|m| m.symbol_id).collect();
    let expected_ids: Vec<u64> = big.iter().copied().take(MEMBER_VALUE_CAP).collect();
    assert_eq!(
        returned_ids, expected_ids,
        "capped members must be the first MEMBER_VALUE_CAP in canonical (struct_hash, id) order"
    );
}

#[test]
fn clones_refine_member_carries_spans_len_eq_seq() {
    let root = Root::new();
    root.write(
        "src/a.rs",
        "pub fn load_user(db: Db) -> i32 { let u = db.get(1); validate(u); u + 1 }\n",
    );
    root.write(
        "src/b.rs",
        "pub fn load_order(s: Db) -> i32 { let o = s.get(2); validate(o); o + 1 }\n",
    );
    let db = IndexDatabase::rebuild(&root, &["src"]);

    let id_a = fingerprinted_symbol_id_for_ref(&db, "src/a.rs::load_user");
    let id_b = fingerprinted_symbol_id_for_ref(&db, "src/b.rs::load_order");

    let members = db.load_refine_members(&[id_a, id_b]).expect("refine inputs available");
    assert_eq!(members.len(), 2, "both members must be returned");

    for m in &members {
        assert_eq!(
            m.spans.len(),
            m.shape.len(),
            "spans.len() must equal shape.len() for member {}",
            m.symbol_id
        );
        assert!(!m.text.is_empty(), "member text must be non-empty");
        for &(start, end) in &m.spans {
            let slice = m.text.get(start..end).expect("leaf span byte range");
            assert!(!slice.trim().is_empty(), "leaf span must recover non-empty source text");
        }
    }
}

#[test]
fn clones_faithfulness_pin_still_drops_drifted_member() {
    let root = Root::new();
    root.write("src/a.rs", "pub fn load_user(db: Db) -> i32 { let u = db.get(1); validate(u); u + 1 }\n");
    root.write("src/b.rs", "pub fn load_order(s: Db) -> i32 { let o = s.get(2); validate(o); o + 1 }\n");
    let db = IndexDatabase::rebuild(&root, &["src"]);

    let id_a = fingerprinted_symbol_id_for_ref(&db, "src/a.rs::load_user");
    let id_b = fingerprinted_symbol_id_for_ref(&db, "src/b.rs::load_order");
    assert!(
        db.load_refine_members(&[id_a, id_b]).is_some(),
        "before drift: refine inputs must be available"
    );
    root.write("src/b.rs", "pub fn load_order(s: Db) -> i32 { let o = s.get(2); while o > 0 { o -= 1; } o }\n");
    let result = db.load_refine_members(&[id_a, id_b]);
    assert!(
        result.is_none(),
        "a drifted member (struct_hash mismatch) must cause load_refine_members to return Ok(None)"
    );
}

#[test]
fn clones_clones_for_symbol_reports_eligibility() {
    let root = Root::new();
    root.write("src/tiny.rs", "pub fn tiny() -> i32 { 0 }\n");
    root.write("src/solo.rs", "pub fn solo(v: Vec<u8>) -> usize { let mut n = 0; for b in v { n ^= b as usize; } n }\n");
    root.write("src/a.rs", "pub fn load_user(db: Db) -> i32 { let u = db.get(1); validate(u); u + 1 }\n");
    root.write("src/b.rs", "pub fn load_order(s: Db) -> i32 { let o = s.get(2); validate(o); o + 1 }\n");
    let db = IndexDatabase::rebuild(&root, &["src"]);
    let tiny = db.clones_for_symbol(CloneSymbolSelector::Ref("src/tiny.rs::tiny".into())).unwrap();
    assert!(tiny.symbol_resolved, "tiny resolves to a scoped symbol");
    assert!(!tiny.symbol_fingerprinted, "tiny is below MIN_TOKENS ⇒ not fingerprinted");
    assert!(tiny.class.is_none(), "an unfingerprinted symbol is in no class");
    let solo = db.clones_for_symbol(CloneSymbolSelector::Ref("src/solo.rs::solo".into())).unwrap();
    assert!(solo.symbol_resolved, "solo resolves");
    assert!(solo.symbol_fingerprinted, "solo is substantial ⇒ fingerprinted (eligible)");
    assert!(solo.class.is_none(), "a unique eligible symbol has no clone class");
    let clone =
        db.clones_for_symbol(CloneSymbolSelector::Ref("src/a.rs::load_user".into())).unwrap();
    assert!(clone.symbol_resolved, "load_user resolves");
    assert!(clone.symbol_fingerprinted, "load_user is fingerprinted");
    let class = clone.class.expect("load_user is in a clone class");
    assert_eq!(class.member_count, 2, "the clone class has both rename-clones");
}

#[test]
fn clones_clones_for_symbol_distinguishes_ineligibility_reasons() {
    let root = Root::new();
    root.write("src/tiny.rs", "pub fn tiny() -> i32 { 0 }\n");
    root.write(
        "src/shape.rs",
        "pub struct Shape { pub width: i32, pub height: i32, pub depth: i32 }\n",
    );
    root.write(
        "src/generated/bindings.rs",
        "pub fn shared_symbol(v: Vec<u8>) -> usize { let mut n = 0; for b in v { n ^= b as usize; \
         } n }\n",
    );
    root.write(
        "src/stale.rs",
        "pub fn stale_fn(v: Vec<u8>) -> usize { let mut n = 0; for b in v { n += b as usize; } n \
         }\n",
    );
    root.write(
        "src/a.rs",
        "pub fn load_user(db: Db) -> i32 { let u = db.get(1); validate(u); u + 1 }\n",
    );
    root.write(
        "src/b.rs",
        "pub fn load_order(s: Db) -> i32 { let o = s.get(2); validate(o); o + 1 }\n",
    );
    let db = IndexDatabase::rebuild(&root, &["src"]);

    {
        let mut updated = 0;
        let mut index = db.index.borrow_mut();
        for content in index.contents.iter_mut().filter(|c| c.repo_id != SIBLING) {
            for symbol in content.symbols.iter_mut() {
                if symbol.qualified_name == "src/stale.rs::stale_fn" {
                    if let Some(print) = symbol.print.as_mut() {
                        assert_eq!(print.version, NORM_VERSION);
                        print.version = NORM_VERSION - 1;
                        updated += 1;
                    }
                }
            }
        }
        assert_eq!(updated, 1, "exactly one stale_fn baseline row should be demoted");
    }

    let assert_consistent = |res: &ForSymbol| match res.eligibility {
        CloneEligibility::SymbolNotResolved => {
            assert!(!res.symbol_resolved && !res.symbol_fingerprinted);
        }
        CloneEligibility::Eligible => {
            assert!(res.symbol_resolved && res.symbol_fingerprinted);
        }
        CloneEligibility::Ineligible { .. } => {
            assert!(res.symbol_resolved && !res.symbol_fingerprinted);
        }
    };

    let tiny = db.clones_for_symbol(CloneSymbolSelector::Ref("src/tiny.rs::tiny".into())).unwrap();
    assert_eq!(
        tiny.eligibility,
        CloneEligibility::Ineligible { reason: CloneIneligibilityReason::BelowMinTokens },
        "a below-MIN_TOKENS function reports BelowMinTokens"
    );
    assert_consistent(&tiny);

    let shape =
        db.clones_for_symbol(CloneSymbolSelector::Ref("src/shape.rs::Shape".into())).unwrap();
    assert_eq!(
        shape.eligibility,
        CloneEligibility::Ineligible { reason: CloneIneligibilityReason::NonFunctionKind },
        "a struct (non-function kind) reports NonFunctionKind"
    );
    assert_consistent(&shape);

    let generated = db
        .clones_for_symbol(CloneSymbolSelector::Ref(
            "src/generated/bindings.rs::shared_symbol".into(),
        ))
        .unwrap();
    assert_eq!(
        generated.eligibility,
        CloneEligibility::Ineligible { reason: CloneIneligibilityReason::Generated },
        "a substantial function in a generated file reports Generated"
    );
    assert_consistent(&generated);

    let stale =
        db.clones_for_symbol(CloneSymbolSelector::Ref("src/stale.rs::stale_fn".into())).unwrap();
    assert_eq!(
        stale.eligibility,
        CloneEligibility::Ineligible { reason: CloneIneligibilityReason::StaleNormalizerVersion },
        "a symbol whose only fingerprint row is at a prior normalizer_version reports \
         StaleNormalizerVersion"
    );
    assert_consistent(&stale);

    let eligible =
        db.clones_for_symbol(CloneSymbolSelector::Ref("src/a.rs::load_user".into())).unwrap();
    assert_eq!(
        eligible.eligibility,
        CloneEligibility::Eligible,
        "a fingerprinted symbol reports Eligible"
    );
    assert!(eligible.class.is_some(), "load_user is in a clone class");
    assert_consistent(&eligible);

    let missing = db
        .clones_for_symbol(CloneSymbolSelector::Ref("src/nope.rs::does_not_exist".into()))
        .unwrap();
    assert_eq!(
        missing.eligibility,
        CloneEligibility::SymbolNotResolved,
        "an unresolved selector reports SymbolNotResolved"
    );
    assert_consistent(&missing);

    assert_eq!(tiny.eligibility.status(), "ineligible");
    assert_eq!(CloneIneligibilityReason::BelowMinTokens.as_db_str(), "below_min_tokens");
    assert_eq!(eligible.eligibility.status(), "eligible");

    for reason in [
        CloneIneligibilityReason::Generated,
        CloneIneligibilityReason::NonFunctionKind,
        CloneIneligibilityReason::StaleNormalizerVersion,
        CloneIneligibilityReason::BelowMinTokens,
    ] {
        assert_eq!(
            CloneIneligibilityReason::from_db_str(reason.as_db_str()),
            Some(reason),
            "as_db_str/from_db_str must round-trip"
        );
    }
    assert_eq!(CloneIneligibilityReason::from_db_str("bogus"), None);
}

#[test]
fn clones_build_class_surfaces_medoid_symbol_id() {
    let root = Root::new();
    root.write("src/a.rs", "pub fn load_user(db: Db) -> i32 { let u = db.get(1); validate(u); u + 1 }\n");
    root.write("src/b.rs", "pub fn load_order(s: Db) -> i32 { let o = s.get(2); validate(o); o + 1 }\n");

    let db = IndexDatabase::rebuild(&root, &["src"]);

    let res = db
        .find_clones(FindClonesOptions { min_similarity: None, min_copies: None, limit: None })
        .unwrap();
    assert_eq!(res.classes.len(), 1, "one clone class");
    let class = &res.classes[0];
    let medoid_id = class
        .medoid_symbol_id
        .expect("medoid_symbol_id must be Some for a non-degenerate clone class");
    let id_a = fingerprinted_symbol_id_for_ref(&db, "src/a.rs::load_user");
    let id_b = fingerprinted_symbol_id_for_ref(&db, "src/b.rs::load_order");
    let member_ids = [id_a, id_b];

    assert!(
        member_ids.contains(&medoid_id),
        "medoid_symbol_id ({medoid_id}) must be one of the class's member symbol_ids \
         ({member_ids:?})"
    );
    let res2 = db
        .find_clones(FindClonesOptions { min_similarity: None, min_copies: None, limit: None })
        .unwrap();
    let medoid_id2 =
        res2.classes[0].medoid_symbol_id.expect("medoid_symbol_id must be Some on second call");
    assert_eq!(
        medoid_id, medoid_id2,
        "medoid_symbol_id must be deterministic across repeated calls"
    );
}

#[test]
fn clones_worktree_overlay_find_clones_reflects_branch_clone_pair() {
    let main = Root::new();
    main.write("src/base.rs", "pub fn tiny() -> i32 { 0 }\n");
    let db = IndexDatabase::rebuild(&main, &["src"]);
    let base_before = db
        .find_clones(FindClonesOptions { min_similarity: None, min_copies: None, limit: None })
        .unwrap();
    assert!(
        base_before.classes.is_empty(),
        "base scope must have no clone classes before overlay: {:?}",
        base_before.classes
    );
    let linked = Root::new();
    linked.write("src/a.rs", "pub fn load_user(db: Db) -> i32 { let u = db.get(1); validate(u); u + 1 }\n");
    linked.write("src/b.rs", "pub fn load_order(s: Db) -> i32 { let o = s.get(2); validate(o); o + 1 }\n");
    let report = db.index_worktree_overlay(&linked);
    assert!(report.indexed >= 1, "the branch's new files are indexed as overlay rows");
    let overlay_res = db
        .find_clones(FindClonesOptions { min_similarity: None, min_copies: None, limit: None })
        .unwrap();
    assert_eq!(
        overlay_res.classes.len(),
        1,
        "overlay scope must expose exactly the branch's clone class: {:?}",
        overlay_res.classes
    );
    let class = &overlay_res.classes[0];
    assert_eq!(class.member_count, 2, "the branch clone class has 2 members");
    assert_eq!(
        overlay_res.completeness.stale_members, 0,
        "branch-only overlay members must not be falsely reported stale against the main checkout"
    );
    db.set_base_scope();
    let base_after = db
        .find_clones(FindClonesOptions { min_similarity: None, min_copies: None, limit: None })
        .unwrap();
    assert!(
        base_after.classes.is_empty(),
        "base scope must have no clone classes after overlay indexing: {:?}",
        base_after.classes
    );
}

#[test]
fn clones_find_clones_falls_back_to_unrefined_when_source_unavailable() {
    let root = Root::new();
    let db = write_four_renamed_clones(&root);
    root.remove_dir("a");
    root.remove_dir("b");

    let res = db
        .find_clones(FindClonesOptions { min_similarity: None, min_copies: None, limit: None })
        .unwrap();
    assert_eq!(
        res.classes.len(),
        1,
        "the class is still built from persisted bags even with source gone"
    );
    let c = &res.classes[0];

    assert!(!c.refined, "source gone → refine inputs unavailable → class stays un-refined");
    assert_eq!(c.class_kind, "candidate_component", "un-refined classes keep the candidate kind");
    assert!(c.lcs_ratio.is_none(), "no lcs_ratio on an un-refined class");
    assert!(c.refine_mode.is_none(), "no refine_mode on an un-refined class");
}

#[test]
fn clones_find_clones_caps_large_class_and_pins_late_subject() {

    let root = Root::new();
    const N: usize = 60;
    for i in 0..N {
        let var = format!("v{i}");
        root.write(format!("src/f{i:02}.rs"), format!(
                "pub fn f{i:02}(db: Db) -> i32 {{ let {var} = db.get(1); validate({var}); {var} + \
                 1 }}\n"
            ));
    }
    let db = IndexDatabase::rebuild(&root, &["src"]);
    let res = db
        .find_clones(FindClonesOptions { min_similarity: None, min_copies: None, limit: None })
        .unwrap();
    assert_eq!(
        res.classes.len(),
        1,
        "the 60 rename-clones form one class: {:?}",
        res.classes.len()
    );
    let class = &res.classes[0];
    assert_eq!(class.member_count, N, "member_count reflects the FULL component");
    assert_eq!(class.total_members, N, "total_members reflects the FULL component");
    assert_eq!(class.members.len(), MAX_MEMBERS, "returned members are capped at MAX_MEMBERS");
    assert_eq!(class.members_returned, MAX_MEMBERS, "members_returned == cap");
    assert!(res.completeness.truncated, "a capped member list must set truncated");
    let late_ref: String = db
        .index
        .borrow()
        .contents
        .iter()
        .flat_map(|c| c.symbols.iter())
        .filter(|s| s.print.is_some())
        .max_by_key(|s| s.id)
        .unwrap()
        .qualified_name
        .clone();
    let by_ref = db.clones_for_symbol(CloneSymbolSelector::Ref(late_ref.clone())).unwrap();
    let pinned = by_ref.class.as_ref().expect("the late subject is in the clone class");
    assert_eq!(pinned.member_count, N, "the class still reports the full population");
    assert_eq!(pinned.members.len(), MAX_MEMBERS, "members are capped at MAX_MEMBERS");
    assert!(
        pinned.members.iter().any(|m| m.reference == late_ref),
        "the pinned late subject {late_ref} must appear in the capped members: {:?}",
        pinned.members.iter().map(|m| &m.reference).collect::<Vec<_>>()
    );
}

#[test]
fn clones_find_clones_returns_no_class_when_fingerprints_vanish() {
    let root = Root::new();
    root.write("src/a.rs", "pub fn load_user(db: Db) -> i32 { let u = db.get(1); validate(u); u + 1 }\n");
    root.write("src/b.rs", "pub fn load_order(s: Db) -> i32 { let o = s.get(2); validate(o); o + 1 }\n");
    let db = IndexDatabase::rebuild(&root, &["src"]);
    let before = db
        .find_clones(FindClonesOptions { min_similarity: None, min_copies: None, limit: None })
        .unwrap();
    assert_eq!(before.classes.len(), 1, "baseline: one clone class");
    for content in db.index.borrow_mut().contents.iter_mut() {
        for symbol in content.symbols.iter_mut() {
            symbol.print = None;
        }
    }
    let after = db
        .find_clones(FindClonesOptions { min_similarity: None, min_copies: None, limit: None })
        .unwrap();
    assert!(after.classes.is_empty(), "no fingerprints ⇒ no clone classes (no error): {after:?}");
}

#[test]
fn clones_clones_for_symbol_prefers_fingerprinted_row_on_resolution() {
    let root = Root::new();
    root.write("src/a.rs", "pub fn load_user(db: Db) -> i32 { let u = db.get(1); validate(u); u + 1 }\n");
    root.write("src/b.rs", "pub fn load_order(s: Db) -> i32 { let o = s.get(2); validate(o); o + 1 }\n");
    let db = IndexDatabase::rebuild(&root, &["src"]);
    let by_ref =
        db.clones_for_symbol(CloneSymbolSelector::Ref("src/a.rs::load_user".into())).unwrap();
    assert!(by_ref.symbol_fingerprinted, "Ref must resolve to the fingerprinted row");
    let ref_class = by_ref.class.as_ref().expect("Ref resolves into the clone class");
    let by_line = db
        .clones_for_symbol(CloneSymbolSelector::PathLine { path: "src/a.rs".into(), line: 1 })
        .unwrap();
    assert!(by_line.symbol_fingerprinted, "PathLine must resolve to the fingerprinted row");
    let line_class = by_line.class.as_ref().expect("PathLine resolves into the clone class");
    assert_eq!(
        ref_class.class_key, line_class.class_key,
        "Ref and PathLine must resolve to the same fingerprinted class"
    );
}

#[test]
fn clones_pathline_tightest_span_wins_over_fingerprinted_enclosing() {
    let root = Root::new();
    root.write(
        "src/a.rs",
        "pub fn load_user(db: Db) -> i32 { let u = db.get(1); validate(u); u + 1 }\n",
    );
    root.write(
        "src/b.rs",
        "pub fn load_order(s: Db) -> i32 { let o = s.get(2); validate(o); o + 1 }\n",
    );
    let db = IndexDatabase::rebuild(&root, &["src"]);

    let (outer_id, inner_id) = (9001, 9002);
    {
        let mut index = db.index.borrow_mut();
        let content = index.contents.iter_mut().find(|c| c.repo_id != SIBLING && c.path == "src/a.rs").unwrap();
        let print = copy_of_print(&content.symbols[0]);
        assert!(print.is_some(), "outer must be fingerprinted for the regression to be testable");
        content.symbols.push(Symbol {
            id: outer_id,
            name: "synthetic_outer".to_string(),
            qualified_name: "src/a.rs::synthetic_outer".to_string(),
            kind: ItemKind::Function,
            start: 0,
            end: 1000,
            start_line: 1,
            end_line: 20,
            print,
        });
        content.symbols.push(Symbol {
            id: inner_id,
            name: "synthetic_inner".to_string(),
            qualified_name: "src/a.rs::synthetic_inner".to_string(),
            kind: ItemKind::Function,
            start: 0,
            end: 10,
            start_line: 1,
            end_line: 1,
            print: None,
        });
    }

    let index = db.index.borrow();
    let selector = CloneSymbolSelector::PathLine { path: "src/a.rs".to_string(), line: 1 };
    let place = match resolve(&index, &selector) {
        Resolved::Symbol(place) => place,
        _ => panic!("line 1 in src/a.rs must resolve to SOME symbol"),
    };
    let resolved = &index.contents[place.content].symbols[place.symbol];
    assert_ne!(
        resolved.id, outer_id,
        "PathLine must NOT resolve to synthetic_outer (span=19, fingerprinted) — the tightest \
         span (0) must win; this would fail with fingerprint-first ORDER BY"
    );
    assert_eq!(
        resolved.end_line - resolved.start_line,
        0,
        "resolved symbol must have span=0, not the wide outer (span=19)"
    );
}

#[test]
fn clones_clones_for_symbol_ref_single_fingerprinted_resolves_unfingerprinted_falls_back() {
    let root = Root::new();
    root.write("src/a.rs", "pub fn load_user(db: Db) -> i32 { let u = db.get(1); validate(u); u + 1 }\n");
    root.write("src/b.rs", "pub fn load_order(s: Db) -> i32 { let o = s.get(2); validate(o); o + 1 }\n");
    root.write("src/tiny.rs", "pub fn tiny() -> i32 { 0 }\n");
    let db = IndexDatabase::rebuild(&root, &["src"]);
    let res = db.clones_for_symbol(CloneSymbolSelector::Ref("src/a.rs::load_user".into())).unwrap();
    assert!(res.symbol_resolved);
    assert!(res.symbol_fingerprinted);
    assert!(res.class.is_some(), "single fingerprinted Ref must return its clone class");
    let tiny_res =
        db.clones_for_symbol(CloneSymbolSelector::Ref("src/tiny.rs::tiny".into())).unwrap();
    assert!(tiny_res.symbol_resolved, "the unfingerprinted symbol still resolves");
    assert!(!tiny_res.symbol_fingerprinted, "tiny is below MIN_TOKENS");
    assert!(tiny_res.class.is_none());
}

#[test]
fn clones_clones_for_symbol_ref_ambiguous_fingerprinted_returns_err() {
    let root = Root::new();
    root.write(
        "src/a.rs",
        "pub fn load_user(db: Db) -> i32 { let u = db.get(1); validate(u); u + 1 }\n",
    );
    root.write(
        "src/b.rs",
        "pub fn load_order(s: Db) -> i32 { let o = s.get(2); validate(o); o + 1 }\n",
    );
    let db = IndexDatabase::rebuild(&root, &["src"]);
    {
        let mut index = db.index.borrow_mut();
        let content = index.contents.iter_mut().find(|c| c.repo_id != SIBLING && c.path == "src/a.rs").unwrap();
        let print = copy_of_print(&content.symbols[0]);
        assert!(print.is_some());
        content.symbols.push(Symbol {
            id: 9001,
            name: "load_user".to_string(),
            qualified_name: "src/a.rs::load_user".to_string(),
            kind: ItemKind::Function,
            start: 10,
            end: 50,
            start_line: 2,
            end_line: 5,
            print,
        });
    }

    let msg = db
        .clones_for_symbol(CloneSymbolSelector::Ref("src/a.rs::load_user".into()))
        .expect_err("Ref matching >1 fingerprinted symbols must return Err, not silently pick one");
    assert!(msg.contains("disambiguate"), "error message must mention 'disambiguate', got: {msg}");
    assert!(
        msg.contains("src/a.rs::load_user"),
        "error message must name the ambiguous ref, got: {msg}"
    );
}

#[test]
fn clones_find_clones_stale_members_zero_on_clean_index_and_nonzero_after_disk_edit() {
    let root = Root::new();
    root.write("src/a.rs", "pub fn load_user(db: Db) -> i32 { let u = db.get(1); validate(u); u + 1 }\n");
    root.write("src/b.rs", "pub fn load_order(s: Db) -> i32 { let o = s.get(2); validate(o); o + 1 }\n");
    let db = IndexDatabase::rebuild(&root, &["src"]);
    let clean = db
        .find_clones(FindClonesOptions { min_similarity: None, min_copies: None, limit: None })
        .unwrap();
    assert_eq!(clean.classes.len(), 1, "the two rename-clones form one class");
    assert_eq!(
        clean.completeness.stale_members, 0,
        "a freshly-indexed index with unchanged files must report stale_members=0"
    );
    root.write("src/a.rs", "pub fn load_user(db: Db) -> i32 { /* EDITED: body replaced */ 42 }\n");
    let stale = db
        .find_clones(FindClonesOptions { min_similarity: None, min_copies: None, limit: None })
        .unwrap();
    assert_eq!(
        stale.classes.len(),
        1,
        "the class is still returned (stale detection is read-only)"
    );
    assert!(
        stale.completeness.stale_members >= 1,
        "after editing src/a.rs on disk, stale_members must be >= 1, got {}",
        stale.completeness.stale_members
    );
}

#[test]
fn clones_load_refine_members_reparse_is_faithful_to_persisted_struct_hash() {
    let root = Root::new();
    root.write(
        "src/a.rs",
        "pub fn load_user(db: Db) -> i32 { let u = db.get(1); validate(u); u + 1 }\n",
    );
    root.write(
        "src/b.rs",
        "pub fn load_order(s: Db) -> i32 { let o = s.get(2); validate(o); o + 1 }\n",
    );
    let db = IndexDatabase::rebuild(&root, &["src"]);

    let id_a = fingerprinted_symbol_id_for_ref(&db, "src/a.rs::load_user");
    let id_b = fingerprinted_symbol_id_for_ref(&db, "src/b.rs::load_order");

    let members = db
        .load_refine_members(&[id_a, id_b])
        .expect("refine inputs available for an unchanged, in-scope clone pair");
    assert_eq!(members.len(), 2, "both members loaded");

    let persisted = |sid: u64| -> String {
        let index = db.index.borrow();
        let symbol =
            index.contents.iter().flat_map(|c| c.symbols.iter()).find(|s| s.id == sid).unwrap();
        symbol.print.as_ref().unwrap().struct_hash.clone()
    };

    for m in &members {
        assert!(!m.shape.is_empty(), "the re-parsed token sequence must be non-empty");
        assert_eq!(m.language, Language::Rust, "member language is rust");
        assert_eq!(
            struct_hash(&m.shape),
            m.struct_hash,
            "re-parsed struct_hash must equal the member's persisted struct_hash"
        );
        assert_eq!(
            m.struct_hash,
            persisted(m.symbol_id),
            "the member's carried struct_hash must equal the DB-persisted struct_hash"
        );
    }

    let mut expected =
        members.iter().map(|m| (m.struct_hash.clone(), m.symbol_id)).collect::<Vec<_>>();
    expected.sort();
    let actual = members.iter().map(|m| (m.struct_hash.clone(), m.symbol_id)).collect::<Vec<_>>();
    assert_eq!(actual, expected, "members must be in canonical (struct_hash, path, start) order");
}

#[test]
fn clones_load_refine_members_empty_input_returns_empty() {
    let root = Root::new();
    root.write("src/a.rs", "pub fn f() -> i32 { 0 }\n");
    let db = IndexDatabase::rebuild(&root, &["src"]);

    let members =
        db.load_refine_members(&[]).expect("empty input is a valid empty set");
    assert!(members.is_empty(), "empty member_ids → empty members");
}

#[test]
fn clones_load_refine_members_returns_none_when_source_missing() {
    let root = Root::new();
    root.write("src/a.rs", "pub fn load_user(db: Db) -> i32 { let u = db.get(1); validate(u); u + 1 }\n");
    root.write("src/b.rs", "pub fn load_order(s: Db) -> i32 { let o = s.get(2); validate(o); o + 1 }\n");
    let db = IndexDatabase::rebuild(&root, &["src"]);

    let id_a = fingerprinted_symbol_id_for_ref(&db, "src/a.rs::load_user");
    let id_b = fingerprinted_symbol_id_for_ref(&db, "src/b.rs::load_order");
    root.remove("src/b.rs");

    let result = db.load_refine_members(&[id_a, id_b]);
    assert!(
        result.is_none(),
        "a member with a deleted source file must yield Ok(None) for the whole class"
    );
}

#[test]
fn clones_load_refine_members_returns_none_under_linked_overlay_scope() {
    let main = Root::new();
    main.write("src/base.rs", "pub fn tiny() -> i32 { 0 }\n");
    let db = IndexDatabase::rebuild(&main, &["src"]);
    let linked = Root::new();
    linked.write("src/a.rs", "pub fn load_user(db: Db) -> i32 { let u = db.get(1); validate(u); u + 1 }\n");
    linked.write("src/b.rs", "pub fn load_order(s: Db) -> i32 { let o = s.get(2); validate(o); o + 1 }\n");
    db.index_worktree_overlay(&linked);
    assert!(db.active_scope_is_linked_overlay(), "connection must be in the overlay scope");
    let id_a = fingerprinted_symbol_id_for_ref(&db, "src/a.rs::load_user");
    let id_b = fingerprinted_symbol_id_for_ref(&db, "src/b.rs::load_order");
    let result = db.load_refine_members(&[id_a, id_b]);
    assert!(
        result.is_none(),
        "refine must be unavailable (Ok(None)) under a linked-worktree overlay scope"
    );
}

#[test]
fn clones_find_clones_recall_pin_seven_copy_clone_still_found() {
    let root = Root::new();
    for (i, (name, var)) in [
        ("collect_a", "a"),
        ("collect_b", "b"),
        ("collect_c", "c"),
        ("collect_d", "d"),
        ("collect_e", "e"),
        ("collect_f", "f"),
        ("collect_g", "g"),
    ]
    .iter()
    .enumerate()
    {
        root.write(
            format!("src/f{i}.rs"),
            format!(
                "pub fn {name}(db: Db) -> i32 {{ let {var} = db.get(1); validate({var}); \
                 transform({var}); {var} + 1 }}\n"
            ),
        );
    }
    let db = IndexDatabase::rebuild(&root, &["src"]);

    let res = db
        .find_clones(FindClonesOptions { min_similarity: None, min_copies: None, limit: None })
        .unwrap();
    let seven = res
        .classes
        .iter()
        .find(|c| c.member_count == 7)
        .expect("the 7-copy clone class must still be found at θ=0.7");
    assert!(seven.refined, "the 7-copy clone is refined");
    let (common, of) = seven.refinement.unwrap();
    assert!(
        common as f64 / of as f64 >= 0.5,
        "a byte-identical 7-copy clone must have high coverage, got {common} of {of}"
    );
    assert!(seven.worth > 0, "a genuine clone keeps a positive ROI");
}

#[test]
fn clones_find_clones_refines_a_clean_class() {
    let root = Root::new();
    let db = write_four_renamed_clones(&root);

    let res = db
        .find_clones(FindClonesOptions { min_similarity: None, min_copies: None, limit: None })
        .unwrap();
    assert_eq!(res.classes.len(), 1, "the four renamed clones are one class");
    let c = &res.classes[0];

    assert!(c.refined, "a clean class inside the refine budget must be refined");
    assert_eq!(c.class_kind, "refined_class");
    assert_eq!(c.refine_mode, Some("baseline"));
    let lcs = c.lcs_ratio.expect("a refined class carries an lcs_ratio");
    assert!(lcs > 0.95, "renamed clones are near-identical; lcs_ratio should be ~1.0, got {lcs}");
    assert_eq!(
        c.refinement,
        Some((c.body_token_len_medoid, c.body_token_len_medoid)),
        "renamed clones have every token in common"
    );
    assert_eq!(
        c.worth,
        c.cross_module_spread as u128
            * c.member_count as u128
            * c.body_token_len_medoid as u128
            * 1_000_000,
        "the worth of a class whose members are all alike"
    );
}

#[test]
fn clones_refine_failed_class_member_count_dampened_end_to_end() {
    let root = Root::new();
    let body = |name: &str, v: &str| {
        format!(
            "pub fn {name}(db: Db) -> i32 {{ let {v}1 = db.get(1); let {v}2 = db.get(2); let {v}3 \
             = db.get(3); validate({v}1); validate({v}2); validate({v}3); {v}1 + {v}2 + {v}3 }}\n"
        )
    };
    root.write("src/a.rs", body("load_a", "u"));
    root.write("src/b.rs", body("load_b", "o"));
    root.write("src/c.rs", body("load_c", "p"));

    let db = IndexDatabase::rebuild(&root, &["src"]);
    root.write(
        "src/c.rs",
        "pub fn load_c(db: Db) -> i32 { let mut n = 0; while n < 9 { n += 1; } n }\n",
    );

    let result = db
        .find_clones(FindClonesOptions { min_similarity: None, min_copies: None, limit: None })
        .unwrap();
    assert_eq!(
        result.classes.len(),
        1,
        "the three rename-clones form one class: {:?}",
        result.classes
    );
    let class = &result.classes[0];
    assert_eq!(
        class.member_count, 3,
        "the class is built with all 3 members from persisted tables"
    );
    assert!(
        !class.refined,
        "the drifted class fails the all-or-nothing refine and stays un-refined"
    );
    assert_eq!(class.class_kind, "candidate_component");
    assert_eq!(class.refinement, None);
    assert_eq!(db.refinement_count(), 0, "a refinement that failed is not kept");

    let mc = class.member_count as f64;
    let raw_roi = class.cross_module_spread as f64
        * mc
        * class.body_token_len_medoid as f64
        * class.cohesion_min_pairwise;
    let provisional = class.worth as f64 / 1_000_000.0;
    assert!(
        (provisional - raw_roi).abs() < 1e-3,
        "the worth that comes with the class counts its members one by one: {provisional}"
    );
    let dampened_roi = provisional / mc * (1.0 + mc.ln_1p());
    assert!(
        dampened_roi < raw_roi,
        "the dampened roi {dampened_roi} must be strictly below the raw linear roi {raw_roi}"
    );
}

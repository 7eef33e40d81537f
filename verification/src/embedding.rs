//! Which chunks get an embedding, and where the answer is read from: from the
//! stored policies, as long as they are certified, or else from the texts.
use vstd::prelude::*;
use crate::chunks;
use crate::chunks::{classify, prioritise, EmbeddingPolicy, DEFAULT_MAX_EMBEDDING_CHARS};
use crate::content::{Chunk, ChunkModel, Content, ContentModel};
use crate::files::FileModel;
use crate::history::{repo_meta, set_repo_meta, HistoryModel, HistoryStore};
use crate::ids;
use crate::index;
use crate::index::{
    stamp_policies, Embedding, IndexDatabase, IndexModel, EMBEDDING_POLICY_CAP_KEY,
    EMBEDDING_POLICY_VERSION, EMBEDDING_POLICY_VERSION_KEY,
};
use crate::scoped;
use crate::scoped::sees_content;
use crate::text;
use crate::text::{decimal_text, same_text};

verus! {

/// The stored policies are those of the rules in use, at the default cap.
pub open spec fn is_certified(h: HistoryModel) -> bool {
    &&& h.setting(h.active_repo_id, EMBEDDING_POLICY_VERSION_KEY@) == Some(
        EMBEDDING_POLICY_VERSION@,
    )
    &&& h.setting(h.active_repo_id, EMBEDDING_POLICY_CAP_KEY@) == Some(
        text::decimal(DEFAULT_MAX_EMBEDDING_CHARS as nat),
    )
}

/// The stored policies may be read: they are certified, and the cap is theirs.
pub open spec fn reads_column(h: HistoryModel, cap: nat) -> bool {
    cap == DEFAULT_MAX_EMBEDDING_CHARS && is_certified(h)
}

/// The version by which the stored policies are certified.
pub fn policy_version(db: &IndexDatabase) -> (r: Option<String>)
    ensures
        match r {
            Some(v) => db.history@.setting(
                db.history@.active_repo_id,
                EMBEDDING_POLICY_VERSION_KEY@,
            ) == Some(v@),
            None => db.history@.setting(
                db.history@.active_repo_id,
                EMBEDDING_POLICY_VERSION_KEY@,
            ) is None,
        },
{
    repo_meta(
        &db.history,
        db.history.active_repo_id.as_str(),
        EMBEDDING_POLICY_VERSION_KEY,
    )
}

/// Marks the stored policies as those of older rules.
pub fn stale_the_stamp(db: &mut IndexDatabase)
    requires
        old(db).history@.is_registered(old(db).history@.active_repo_id),
    ensures
        !is_certified(final(db).history@),
        final(db).history@.same_but_meta(old(db).history@),
        forall|r: Seq<char>, k: Seq<char>| #[trigger]
            final(db).history@.setting(r, k) == if r == old(db).history@.active_repo_id && k
                == EMBEDDING_POLICY_VERSION_KEY@ {
                Some("pre-upgrade"@)
            } else {
                old(db).history@.setting(r, k)
            },
        *final(db) == (IndexDatabase { history: final(db).history, ..*old(db) }),
{
    let repo_id = db.history.active_repo_id.clone();
    let _ = set_repo_meta(
        &mut db.history,
        repo_id.as_str(),
        EMBEDDING_POLICY_VERSION_KEY,
        "pre-upgrade",
    );
    proof {
        reveal_strlit("pre-upgrade");
        reveal_strlit("1");
        assert("pre-upgrade"@.len() != EMBEDDING_POLICY_VERSION@.len());
    }
}

fn column_is_read(conn: &HistoryStore, cap: usize) -> (r: bool)
    ensures
        r == reads_column(conn@, cap as nat),
{
    if cap != DEFAULT_MAX_EMBEDDING_CHARS {
        return false;
    }
    let repo_id = conn.active_repo_id.as_str();
    let version = repo_meta(conn, repo_id, EMBEDDING_POLICY_VERSION_KEY);
    let stamped = repo_meta(conn, repo_id, EMBEDDING_POLICY_CAP_KEY);
    match (version, stamped) {
        (Some(v), Some(c)) => same_text(v.as_str(), EMBEDDING_POLICY_VERSION) && same_text(
            c.as_str(),
            decimal_text(DEFAULT_MAX_EMBEDDING_CHARS as u64).as_str(),
        ),
        _ => false,
    }
}

/// A program has written the file that the content is of.
pub open spec fn is_generated(files: Seq<FileModel>, c: ContentModel) -> bool {
    exists|i: int|
        0 <= i < files.len() && scoped::belongs(c, #[trigger] files[i]) && files[i].generated
}

fn generated(db: &IndexDatabase, c: &Content) -> (r: bool)
    ensures
        r == is_generated(db@.files, c@),
{
    let ghost all = db@.files;
    let mut i: usize = 0;
    while i < db.store.files.len()
        invariant
            i <= db.store.files.len(),
            all == db@.files,
            forall|j: int|
                0 <= j < i ==> !(scoped::belongs(c@, #[trigger] all[j]) && all[j].generated),
        decreases db.store.files.len() - i,
    {
        assert(all[i as int] == db.store.files@[i as int]@);
        let row = &db.store.files[i];
        if row.generated && row.generation == c.generation && row.path == c.path
            && row.worktree_id == c.worktree_id && row.commit_sha == c.commit_sha && row.repo_id
            == c.repo_id {
            return true;
        }
        i += 1;
    }
    false
}

/// The policy of a chunk: the stored one, or what its text says at the cap.
pub open spec fn policy_of(k: ChunkModel, generated: bool, column: bool, cap: nat) -> EmbeddingPolicy {
    if column {
        k.policy
    } else {
        chunks::classified(k.text, generated, cap)
    }
}

fn find_policy(k: &Chunk, generated: bool, column: bool, cap: usize) -> (r: EmbeddingPolicy)
    ensures
        r == policy_of(k@, generated, column, cap as nat),
{
    if column {
        k.policy
    } else {
        classify(k.text.as_str(), generated, cap)
    }
}

/// How many of the chunks have the policy.
pub open spec fn chunk_count(
    ks: Seq<ChunkModel>,
    p: EmbeddingPolicy,
    generated: bool,
    column: bool,
    cap: nat,
) -> nat
    decreases ks.len(),
{
    if ks.len() == 0 {
        0
    } else {
        chunk_count(ks.drop_last(), p, generated, column, cap) + if policy_of(
            ks.last(),
            generated,
            column,
            cap,
        ) == p {
            1nat
        } else {
            0
        }
    }
}

/// How many of the chunks that a reader sees have the policy.
pub open spec fn policy_count(
    db: IndexModel,
    cs: Seq<ContentModel>,
    p: EmbeddingPolicy,
    column: bool,
    cap: nat,
) -> nat
    decreases cs.len(),
{
    if cs.len() == 0 {
        0
    } else {
        let c = cs.last();
        policy_count(db, cs.drop_last(), p, column, cap) + if scoped::in_scope(db, c) {
            chunk_count(c.chunks, p, is_generated(db.files, c), column, cap)
        } else {
            0
        }
    }
}

/// How many chunks a reader sees.
pub open spec fn chunk_total(db: IndexModel, cs: Seq<ContentModel>) -> nat
    decreases cs.len(),
{
    if cs.len() == 0 {
        0
    } else {
        chunk_total(db, cs.drop_last()) + if scoped::in_scope(db, cs.last()) {
            cs.last().chunks.len()
        } else {
            0
        }
    }
}

/// How many chunks get no embedding, and why.
#[derive(Debug)]
pub struct SkipSummary {
    pub generated: usize,
    pub too_large: usize,
    pub too_small: usize,
    pub low_signal: usize,
}

/// The summary counts the chunks that a reader sees.
pub open spec fn is_summary(s: SkipSummary, db: IndexModel, column: bool, cap: nat) -> bool {
    let cs = db.contents;
    &&& s.generated == policy_count(db, cs, EmbeddingPolicy::SkipGenerated, column, cap)
    &&& s.too_large == policy_count(db, cs, EmbeddingPolicy::SkipTooLarge, column, cap)
    &&& s.too_small == policy_count(db, cs, EmbeddingPolicy::SkipTooSmall, column, cap)
    &&& s.low_signal == policy_count(db, cs, EmbeddingPolicy::SkipLowSignal, column, cap)
}

fn count_in_content(
    c: &Content,
    p: EmbeddingPolicy,
    generated: bool,
    column: bool,
    cap: usize,
) -> (r: usize)
    ensures
        r == chunk_count(c@.chunks, p, generated, column, cap as nat),
        r <= c@.chunks.len(),
{
    let ghost all = c@.chunks;
    let mut n: usize = 0;
    let mut i: usize = 0;
    while i < c.chunks.len()
        invariant
            i <= c.chunks.len(),
            all == c@.chunks,
            n == chunk_count(all.take(i as int), p, generated, column, cap as nat),
            n <= i,
        decreases c.chunks.len() - i,
    {
        proof {
            assert(all.take(i + 1).drop_last() =~= all.take(i as int));
            assert(all.take(i + 1).last() == c.chunks@[i as int]@);
        }
        if find_policy(&c.chunks[i], generated, column, cap) == p {
            n += 1;
        }
        i += 1;
    }
    assert(all.take(i as int) =~= all);
    n
}

proof fn total_of_prefix(db: IndexModel, cs: Seq<ContentModel>, k: int)
    requires
        0 <= k <= cs.len(),
    ensures
        chunk_total(db, cs.take(k)) <= chunk_total(db, cs),
    decreases cs.len(),
{
    if k == cs.len() {
        assert(cs.take(k) =~= cs);
    } else {
        total_of_prefix(db, cs.drop_last(), k);
        assert(cs.drop_last().take(k) =~= cs.take(k));
    }
}

fn count_policy(db: &IndexDatabase, p: EmbeddingPolicy, column: bool, cap: usize) -> (r: usize)
    requires
        chunk_total(db@, db@.contents) <= usize::MAX,
    ensures
        r == policy_count(db@, db@.contents, p, column, cap as nat),
        r <= chunk_total(db@, db@.contents),
{
    let ghost all = db@.contents;
    let mut n: usize = 0;
    let mut i: usize = 0;
    while i < db.contents.len()
        invariant
            i <= db.contents.len(),
            all == db@.contents,
            chunk_total(db@, all) <= usize::MAX,
            n == policy_count(db@, all.take(i as int), p, column, cap as nat),
            n <= chunk_total(db@, all.take(i as int)),
        decreases db.contents.len() - i,
    {
        proof {
            assert(all.take(i + 1).drop_last() =~= all.take(i as int));
            assert(all.take(i + 1).last() == db.contents@[i as int]@);
            total_of_prefix(db@, all, i + 1);
        }
        if sees_content(db, &db.contents[i]) {
            let made = generated(db, &db.contents[i]);
            n = n + count_in_content(&db.contents[i], p, made, column, cap);
        }
        i += 1;
    }
    assert(all.take(i as int) =~= all);
    n
}

fn summarise(db: &IndexDatabase, column: bool, cap: usize) -> (r: SkipSummary)
    requires
        chunk_total(db@, db@.contents) <= usize::MAX,
    ensures
        is_summary(r, db@, column, cap as nat),
{
    SkipSummary {
        generated: count_policy(db, EmbeddingPolicy::SkipGenerated, column, cap),
        too_large: count_policy(db, EmbeddingPolicy::SkipTooLarge, column, cap),
        too_small: count_policy(db, EmbeddingPolicy::SkipTooSmall, column, cap),
        low_signal: count_policy(db, EmbeddingPolicy::SkipLowSignal, column, cap),
    }
}

/// How many chunks get no embedding at the cap, and why.
pub fn embedding_policy_skip_summary(db: &IndexDatabase, cap: usize) -> (r: SkipSummary)
    requires
        chunk_total(db@, db@.contents) <= usize::MAX,
    ensures
        is_summary(r, db@, reads_column(db.history@, cap as nat), cap as nat),
{
    let column = column_is_read(&db.history, cap);
    summarise(db, column, cap)
}

/// The embeddings, as plain values.
pub open spec fn embedding_models(rows: Seq<Embedding>) -> Seq<(u64, Seq<char>)> {
    rows.map_values(|e: Embedding| (e.chunk_id, e.model@))
}

/// The chunks among these that are to be embedded and are not yet.
pub open spec fn missing_chunks(
    ks: Seq<ChunkModel>,
    generated: bool,
    column: bool,
    cap: nat,
    embedded: Seq<(u64, Seq<char>)>,
    model: Seq<char>,
) -> Seq<u64>
    decreases ks.len(),
{
    if ks.len() == 0 {
        Seq::empty()
    } else {
        let rest = missing_chunks(ks.drop_last(), generated, column, cap, embedded, model);
        let k = ks.last();
        if policy_of(k, generated, column, cap) == EmbeddingPolicy::Embed && !embedded.contains(
            (k.id, model),
        ) {
            rest.push(k.id)
        } else {
            rest
        }
    }
}

/// The chunks that a reader sees, that are to be embedded and are not yet.
pub open spec fn missing(
    db: IndexModel,
    cs: Seq<ContentModel>,
    column: bool,
    cap: nat,
    embedded: Seq<(u64, Seq<char>)>,
    model: Seq<char>,
) -> Seq<u64>
    decreases cs.len(),
{
    if cs.len() == 0 {
        Seq::empty()
    } else {
        let rest = missing(db, cs.drop_last(), column, cap, embedded, model);
        let c = cs.last();
        if scoped::in_scope(db, c) {
            rest + missing_chunks(
                c.chunks,
                is_generated(db.files, c),
                column,
                cap,
                embedded,
                model,
            )
        } else {
            rest
        }
    }
}

fn is_embedded(rows: &Vec<Embedding>, chunk_id: u64, model: &str) -> (r: bool)
    ensures
        r == embedding_models(rows@).contains((chunk_id, model@)),
{
    let ghost all = embedding_models(rows@);
    let mut i: usize = 0;
    while i < rows.len()
        invariant
            i <= rows.len(),
            all == embedding_models(rows@),
            forall|j: int| 0 <= j < i ==> (#[trigger] all[j]) != (chunk_id, model@),
        decreases rows.len() - i,
    {
        assert(all[i as int] == (rows@[i as int].chunk_id, rows@[i as int].model@));
        if rows[i].chunk_id == chunk_id && same_text(rows[i].model.as_str(), model) {
            return true;
        }
        i += 1;
    }
    false
}

fn add_missing(
    ids: &mut Vec<u64>,
    c: &Content,
    made: bool,
    column: bool,
    cap: usize,
    rows: &Vec<Embedding>,
    model: &str,
)
    ensures
        final(ids)@ == old(ids)@ + missing_chunks(
            c@.chunks,
            made,
            column,
            cap as nat,
            embedding_models(rows@),
            model@,
        ),
{
    let ghost before = ids@;
    let ghost all = c@.chunks;
    let ghost embedded = embedding_models(rows@);
    let mut i: usize = 0;
    assert(ids@ =~= before + missing_chunks(
        all.take(0),
        made,
        column,
        cap as nat,
        embedded,
        model@,
    ));
    while i < c.chunks.len()
        invariant
            i <= c.chunks.len(),
            all == c@.chunks,
            embedded == embedding_models(rows@),
            ids@ == before + missing_chunks(
                all.take(i as int),
                made,
                column,
                cap as nat,
                embedded,
                model@,
            ),
        decreases c.chunks.len() - i,
    {
        let ghost sofar = missing_chunks(
            all.take(i as int),
            made,
            column,
            cap as nat,
            embedded,
            model@,
        );
        proof {
            assert(all.take(i + 1).drop_last() =~= all.take(i as int));
            assert(all.take(i + 1).last() == c.chunks@[i as int]@);
        }
        if find_policy(&c.chunks[i], made, column, cap) == EmbeddingPolicy::Embed && !is_embedded(
            rows,
            c.chunks[i].id,
            model,
        ) {
            ids.push(c.chunks[i].id);
            assert(ids@ =~= before + sofar.push(c.chunks@[i as int].id));
        }
        i += 1;
    }
    assert(all.take(i as int) =~= all);
}

fn find_missing(db: &IndexDatabase, column: bool, cap: usize, model: &str) -> (r: Vec<u64>)
    ensures
        r@ == missing(
            db@,
            db@.contents,
            column,
            cap as nat,
            embedding_models(db.embeddings@),
            model@,
        ),
{
    let ghost all = db@.contents;
    let ghost embedded = embedding_models(db.embeddings@);
    let mut r: Vec<u64> = Vec::new();
    let mut i: usize = 0;
    assert(r@ =~= missing(db@, all.take(0), column, cap as nat, embedded, model@));
    while i < db.contents.len()
        invariant
            i <= db.contents.len(),
            all == db@.contents,
            embedded == embedding_models(db.embeddings@),
            r@ == missing(db@, all.take(i as int), column, cap as nat, embedded, model@),
        decreases db.contents.len() - i,
    {
        proof {
            assert(all.take(i + 1).drop_last() =~= all.take(i as int));
            assert(all.take(i + 1).last() == db.contents@[i as int]@);
        }
        if sees_content(db, &db.contents[i]) {
            let made = generated(db, &db.contents[i]);
            add_missing(&mut r, &db.contents[i], made, column, cap, &db.embeddings, model);
        }
        i += 1;
    }
    assert(all.take(i as int) =~= all);
    r
}

fn count_chunks(db: &IndexDatabase) -> (r: usize)
    requires
        chunk_total(db@, db@.contents) <= usize::MAX,
    ensures
        r == chunk_total(db@, db@.contents),
{
    let ghost all = db@.contents;
    let mut n: usize = 0;
    let mut i: usize = 0;
    while i < db.contents.len()
        invariant
            i <= db.contents.len(),
            all == db@.contents,
            chunk_total(db@, all) <= usize::MAX,
            n == chunk_total(db@, all.take(i as int)),
        decreases db.contents.len() - i,
    {
        proof {
            assert(all.take(i + 1).drop_last() =~= all.take(i as int));
            assert(all.take(i + 1).last() == db.contents@[i as int]@);
            assert(db.contents@[i as int]@.chunks.len() == db.contents@[i as int].chunks.len());
            total_of_prefix(db@, all, i + 1);
        }
        if sees_content(db, &db.contents[i]) {
            n = n + db.contents[i].chunks.len();
        }
        i += 1;
    }
    assert(all.take(i as int) =~= all);
    n
}

/// The chunk with the policy and the priority that its text has at the default
/// cap.
pub open spec fn repoliced_chunk(k: ChunkModel, generated: bool) -> ChunkModel {
    let policy = chunks::classified(k.text, generated, DEFAULT_MAX_EMBEDDING_CHARS as nat);
    ChunkModel { policy, priority: chunks::priority_of(k.text, policy), ..k }
}

/// The content with the policies of its chunks found anew.
pub open spec fn repoliced_content(c: ContentModel, generated: bool) -> ContentModel {
    ContentModel {
        chunks: c.chunks.map_values(|k: ChunkModel| repoliced_chunk(k, generated)),
        ..c
    }
}

/// The content with the policies of its chunks found anew, where it is of the
/// repository.
pub open spec fn repoliced_here(db: IndexModel, c: ContentModel) -> ContentModel {
    if c.repo_id == db.repo_id {
        repoliced_content(c, is_generated(db.files, c))
    } else {
        c
    }
}

/// The index with all policies of the repository found anew.
pub open spec fn repoliced(db: IndexModel) -> IndexModel {
    IndexModel {
        contents: db.contents.map_values(|c: ContentModel| repoliced_here(db, c)),
        ..db
    }
}

proof fn repolicing_is_sound(db: IndexModel)
    requires
        db.is_sound(),
    ensures
        repoliced(db).is_sound(),
{
    let new = repoliced(db);
    assert forall|i: int| 0 <= i < new.contents.len() implies ids::same_numbers(
        #[trigger] new.contents[i],
        db.contents[i],
    ) by {
        assert(new.contents[i] == repoliced_here(db, db.contents[i]));
    }
    ids::same_numbers_stay(db.contents, new.contents, db.next_id);
}

fn repolice_content(c: &mut Content, made: bool)
    ensures
        final(c)@ == repoliced_content(old(c)@, made),
{
    let ghost before = c@;
    let ghost goal = before.chunks.map_values(|k: ChunkModel| repoliced_chunk(k, made));
    let mut i: usize = 0;
    while i < c.chunks.len()
        invariant
            i <= c.chunks.len(),
            before == old(c)@,
            before.chunks.len() == c.chunks.len(),
            goal == before.chunks.map_values(|k: ChunkModel| repoliced_chunk(k, made)),
            c@.chunks =~= goal.take(i as int) + before.chunks.skip(i as int),
            c@ == (ContentModel { chunks: c@.chunks, ..before }),
        decreases c.chunks.len() - i,
    {
        let ghost now = c@.chunks;
        assert(now[i as int] == before.chunks[i as int]);
        assert(now[i as int] == c.chunks@[i as int]@);
        let policy = classify(c.chunks[i].text.as_str(), made, DEFAULT_MAX_EMBEDDING_CHARS);
        let priority = prioritise(c.chunks[i].text.as_str(), policy);
        let k = Chunk {
            id: c.chunks[i].id,
            start: c.chunks[i].start,
            end: c.chunks[i].end,
            text: c.chunks[i].text.clone(),
            policy,
            priority,
        };
        c.chunks.set(i, k);
        proof {
            assert(k@ =~= goal[i as int]);
            assert(c@.chunks =~= now.update(i as int, k@));
        }
        i += 1;
    }
    assert(c@ =~= repoliced_content(before, made));
}

fn repolice(db: &mut IndexDatabase)
    ensures
        final(db)@ == repoliced(old(db)@),
        *final(db) == (IndexDatabase { contents: final(db).contents, ..*old(db) }),
{
    let ghost before = *db;
    let ghost goal = repoliced(before@).contents;
    let mut i: usize = 0;
    while i < db.contents.len()
        invariant
            i <= db.contents.len(),
            before == *old(db),
            *db == (IndexDatabase { contents: db.contents, ..before }),
            before@.contents.len() == db.contents.len(),
            goal == repoliced(before@).contents,
            db@.contents =~= goal.take(i as int) + before@.contents.skip(i as int),
        decreases db.contents.len() - i,
    {
        let ghost now = db@.contents;
        proof {
            assert(now[i as int] == before@.contents[i as int]);
            assert(now[i as int] == db.contents@[i as int]@);
        }
        if db.contents[i].repo_id == db.scope.repo_id {
            let made = generated(db, &db.contents[i]);
            repolice_content(&mut db.contents[i], made);
        }
        proof {
            assert(db@.contents =~= now.update(i as int, goal[i as int]));
        }
        i += 1;
    }
    assert(db@ =~= repoliced(before@));
}

proof fn repoliced_chunks_agree(
    ks: Seq<ChunkModel>,
    p: EmbeddingPolicy,
    made: bool,
    embedded: Seq<(u64, Seq<char>)>,
    model: Seq<char>,
)
    ensures
        ({
            let new = ks.map_values(|k: ChunkModel| repoliced_chunk(k, made));
            let cap = DEFAULT_MAX_EMBEDDING_CHARS as nat;
            &&& chunk_count(new, p, made, true, cap) == chunk_count(ks, p, made, false, cap)
            &&& missing_chunks(new, made, true, cap, embedded, model) == missing_chunks(
                ks,
                made,
                false,
                cap,
                embedded,
                model,
            )
        }),
    decreases ks.len(),
{
    let new = ks.map_values(|k: ChunkModel| repoliced_chunk(k, made));
    if ks.len() > 0 {
        repoliced_chunks_agree(ks.drop_last(), p, made, embedded, model);
        assert(new.drop_last() =~= ks.drop_last().map_values(
            |k: ChunkModel| repoliced_chunk(k, made),
        ));
        assert(new.last() == repoliced_chunk(ks.last(), made));
    }
}

proof fn scope_ignores_chunks(db: IndexModel, other: IndexModel, c: ContentModel, d: ContentModel)
    requires
        db.files == other.files,
        db.scope() == other.scope(),
        c.repo_id == d.repo_id,
        c.commit_sha == d.commit_sha,
        c.path == d.path,
        c.worktree_id == d.worktree_id,
        c.generation == d.generation,
    ensures
        scoped::in_scope(db, c) == scoped::in_scope(other, d),
        is_generated(db.files, c) == is_generated(other.files, d),
{
    assert forall|f: FileModel| #[trigger] scoped::belongs(c, f) == scoped::belongs(d, f) by {
    }
    if scoped::is_seen(db, c, true) {
        let i = choose|i: int|
            0 <= i < db.files.len() && scoped::belongs(c, #[trigger] db.files[i])
                && crate::files::is_visible(db.files, db.files[i], db.scope()) && db.files[i].generated == true;
        assert(scoped::belongs(d, other.files[i]));
    }
    if scoped::is_seen(db, c, false) {
        let i = choose|i: int|
            0 <= i < db.files.len() && scoped::belongs(c, #[trigger] db.files[i])
                && crate::files::is_visible(db.files, db.files[i], db.scope()) && db.files[i].generated == false;
        assert(scoped::belongs(d, other.files[i]));
    }
    if scoped::is_seen(other, d, true) {
        let i = choose|i: int|
            0 <= i < db.files.len() && scoped::belongs(d, #[trigger] other.files[i])
                && crate::files::is_visible(other.files, other.files[i], other.scope()) && other.files[i].generated == true;
        assert(scoped::belongs(c, db.files[i]));
    }
    if scoped::is_seen(other, d, false) {
        let i = choose|i: int|
            0 <= i < db.files.len() && scoped::belongs(d, #[trigger] other.files[i])
                && crate::files::is_visible(other.files, other.files[i], other.scope()) && other.files[i].generated == false;
        assert(scoped::belongs(c, db.files[i]));
    }
    if is_generated(db.files, c) {
        let i = choose|i: int|
            0 <= i < db.files.len() && scoped::belongs(c, #[trigger] db.files[i])
                && db.files[i].generated;
        assert(scoped::belongs(d, other.files[i]));
    }
    if is_generated(other.files, d) {
        let i = choose|i: int|
            0 <= i < other.files.len() && scoped::belongs(d, #[trigger] other.files[i])
                && other.files[i].generated;
        assert(scoped::belongs(c, db.files[i]));
    }
}

proof fn in_scope_is_own(db: IndexModel, c: ContentModel)
    requires
        scoped::in_scope(db, c),
    ensures
        c.repo_id == db.repo_id,
{
    if scoped::is_seen(db, c, false) {
        let i = choose|i: int|
            0 <= i < db.files.len() && scoped::belongs(c, #[trigger] db.files[i])
                && crate::files::is_visible(db.files, db.files[i], db.scope());
    } else {
        let i = choose|i: int|
            0 <= i < db.files.len() && scoped::belongs(c, #[trigger] db.files[i])
                && crate::files::is_visible(db.files, db.files[i], db.scope());
    }
}

proof fn repoliced_contents_agree(
    db: IndexModel,
    n: int,
    p: EmbeddingPolicy,
    embedded: Seq<(u64, Seq<char>)>,
    model: Seq<char>,
)
    requires
        0 <= n <= db.contents.len(),
    ensures
        ({
            let new = repoliced(db);
            let cap = DEFAULT_MAX_EMBEDDING_CHARS as nat;
            &&& policy_count(new, new.contents.take(n), p, true, cap) == policy_count(
                db,
                db.contents.take(n),
                p,
                false,
                cap,
            )
            &&& missing(new, new.contents.take(n), true, cap, embedded, model) == missing(
                db,
                db.contents.take(n),
                false,
                cap,
                embedded,
                model,
            )
        }),
    decreases n,
{
    let new = repoliced(db);
    if n > 0 {
        repoliced_contents_agree(db, n - 1, p, embedded, model);
        let c = db.contents[n - 1];
        let d = new.contents[n - 1];
        assert(db.contents.take(n).drop_last() =~= db.contents.take(n - 1));
        assert(new.contents.take(n).drop_last() =~= new.contents.take(n - 1));
        assert(d == repoliced_here(db, c));
        scope_ignores_chunks(db, new, c, d);
        if scoped::in_scope(db, c) {
            in_scope_is_own(db, c);
        }
        repoliced_chunks_agree(c.chunks, p, is_generated(db.files, c), embedded, model);
    }
}

/// Finding all policies anew changes no answer that is read from the texts: from
/// then on the stored policies say at the default cap what the texts said.
pub proof fn stored_policies_agree(
    db: IndexModel,
    p: EmbeddingPolicy,
    embedded: Seq<(u64, Seq<char>)>,
    model: Seq<char>,
)
    ensures
        ({
            let new = repoliced(db);
            let cap = DEFAULT_MAX_EMBEDDING_CHARS as nat;
            &&& policy_count(new, new.contents, p, true, cap) == policy_count(
                db,
                db.contents,
                p,
                false,
                cap,
            )
            &&& missing(new, new.contents, true, cap, embedded, model) == missing(
                db,
                db.contents,
                false,
                cap,
                embedded,
                model,
            )
        }),
{
    let n = db.contents.len() as int;
    repoliced_contents_agree(db, n, p, embedded, model);
    assert(db.contents.take(n) =~= db.contents);
    assert(repoliced(db).contents.take(n) =~= repoliced(db).contents);
}

/// A reconcile at this cap first finds the policies anew: the cap is the default
/// one, at which they could be certified, and they are not.
pub open spec fn heals(h: HistoryModel, cap: nat) -> bool {
    cap == DEFAULT_MAX_EMBEDDING_CHARS && !is_certified(h)
}

/// What came of a reconcile.
#[derive(Debug)]
pub struct ReconcileReport {
    /// No model is installed, and no embedding was made.
    pub blocked: bool,
    pub embeddings_written: usize,
    /// How many policies were found from texts instead of being read.
    pub classified_from_text: usize,
}

/// What a reconcile would do.
#[derive(Debug)]
pub struct ReconcilePlan {
    pub missing: usize,
    pub skipped: SkipSummary,
    pub classified_from_text: usize,
}

/// The model that embeddings are made with; nothing where none is installed.
pub open spec fn model_text(model: Option<String>) -> Seq<char> {
    match model {
        Some(m) => m@,
        None => Seq::empty(),
    }
}

impl IndexDatabase {
    /// Sets the model that embeddings are made with.
    pub fn install_model(&mut self, model: &str)
        ensures
            final(self).model is Some,
            model_text(final(self).model) == model@,
            *final(self) == (IndexDatabase { model: final(self).model, ..*old(self) }),
    {
        self.model = Some(model.to_owned());
    }

    /// Makes the embeddings that are missing, where a model is installed. At the
    /// default cap the policies are first found anew and certified where they are
    /// not, model or no model; at another cap they are found from the texts, and
    /// what is stored stays.
    pub fn reconcile(&mut self, cap: usize) -> (r: ReconcileReport)
        requires
            old(self).wf(),
            chunk_total(old(self)@, old(self)@.contents) <= usize::MAX,
        ensures
            final(self).wf(),
            r.blocked == (old(self).model is None),
            final(self)@ == if heals(old(self).history@, cap as nat) {
                repoliced(old(self)@)
            } else {
                old(self)@
            },
            if heals(old(self).history@, cap as nat) {
                is_stamped_here(old(self).history@, final(self).history@)
            } else {
                final(self).history == old(self).history
            },
            final(self).store == old(self).store,
            final(self).terms == old(self).terms,
            final(self).memories == old(self).memories,
            final(self).model == old(self).model,
            final(self).refinements == old(self).refinements,
            r.blocked ==> final(self).embeddings == old(self).embeddings && r.embeddings_written
                == 0 && r.classified_from_text == 0,
            !r.blocked ==> {
                let column = heals(old(self).history@, cap as nat) || reads_column(
                    old(self).history@,
                    cap as nat,
                );
                let model = model_text(old(self).model);
                let embedded = embedding_models(old(self).embeddings@);
                let due = missing(
                    final(self)@,
                    final(self)@.contents,
                    column,
                    cap as nat,
                    embedded,
                    model,
                );
                &&& embedding_models(final(self).embeddings@) == embedded + due.map_values(
                    |id: u64| (id, model),
                )
                &&& r.embeddings_written == due.len()
                &&& r.classified_from_text == if column {
                    0
                } else {
                    chunk_total(old(self)@, old(self)@.contents)
                }
            },
    {
        let ghost before = *self;
        if cap == DEFAULT_MAX_EMBEDDING_CHARS && !column_is_read(&self.history, cap) {
            repolice(self);
            stamp_policies(&mut self.history);
            proof {
                stamping_certifies(before.history@, self.history@, cap as nat);
                assert(self@ =~= repoliced(before@));
                repolicing_is_sound(before@);
            }
        }
        let ghost heal = heals(before.history@, cap as nat);
        assert(reads_column(self.history@, cap as nat) == (heal || reads_column(
            before.history@,
            cap as nat,
        )));
        let model = match &self.model {
            Some(m) => m.clone(),
            None => {
                return ReconcileReport {
                    blocked: true,
                    embeddings_written: 0,
                    classified_from_text: 0,
                };
            },
        };
        let column = column_is_read(&self.history, cap);
        let due = find_missing(self, column, cap, model.as_str());
        let classified: usize = if column {
            0
        } else {
            count_chunks(self)
        };
        let ghost embedded = embedding_models(self.embeddings@);
        let ghost with_model = |id: u64| (id, model@);
        let ghost now = *self;
        let mut i: usize = 0;
        assert(embedding_models(self.embeddings@) =~= embedded + due@.take(0).map_values(
            with_model,
        ));
        while i < due.len()
            invariant
                i <= due.len(),
                with_model == (|id: u64| (id, model@)),
                *self == (IndexDatabase { embeddings: self.embeddings, ..now }),
                embedding_models(self.embeddings@) == embedded + due@.take(i as int).map_values(
                    with_model,
                ),
            decreases due.len() - i,
        {
            let ghost sofar = embedding_models(self.embeddings@);
            self.embeddings.push(Embedding { chunk_id: due[i], model: model.clone() });
            proof {
                assert(embedding_models(self.embeddings@) =~= sofar.push((due@[i as int], model@)));
                assert(due@.take(i + 1).map_values(with_model) =~= due@.take(i as int).map_values(
                    with_model,
                ).push((due@[i as int], model@)));
            }
            i += 1;
        }
        assert(due@.take(i as int) =~= due@);
        ReconcileReport {
            blocked: false,
            embeddings_written: due.len(),
            classified_from_text: classified,
        }
    }

    /// What a reconcile at the cap would do.
    pub fn reconcile_plan_with_cap(&self, cap: usize) -> (r: ReconcilePlan)
        requires
            chunk_total(self@, self@.contents) <= usize::MAX,
        ensures
            ({
                let column = reads_column(self.history@, cap as nat);
                &&& r.missing == missing(
                    self@,
                    self@.contents,
                    column,
                    cap as nat,
                    embedding_models(self.embeddings@),
                    model_text(self.model),
                ).len()
                &&& is_summary(r.skipped, self@, column, cap as nat)
                &&& r.classified_from_text == if column {
                    0
                } else {
                    chunk_total(self@, self@.contents)
                }
            }),
    {
        let column = column_is_read(&self.history, cap);
        let model = match &self.model {
            Some(m) => m.clone(),
            None => String::new(),
        };
        assert(model@ =~= model_text(self.model));
        let due = find_missing(self, column, cap, model.as_str());
        let classified: usize = if column {
            0
        } else {
            count_chunks(self)
        };
        ReconcilePlan {
            missing: due.len(),
            skipped: summarise(self, column, cap),
            classified_from_text: classified,
        }
    }

    /// What a reconcile at the default cap would do.
    pub fn reconcile_plan(&self) -> (r: ReconcilePlan)
        requires
            chunk_total(self@, self@.contents) <= usize::MAX,
        ensures
            ({
                let cap = DEFAULT_MAX_EMBEDDING_CHARS as nat;
                let column = reads_column(self.history@, cap);
                &&& r.missing == missing(
                    self@,
                    self@.contents,
                    column,
                    cap,
                    embedding_models(self.embeddings@),
                    model_text(self.model),
                ).len()
                &&& is_summary(r.skipped, self@, column, cap)
                &&& r.classified_from_text == if column {
                    0
                } else {
                    chunk_total(self@, self@.contents)
                }
            }),
    {
        self.reconcile_plan_with_cap(DEFAULT_MAX_EMBEDDING_CHARS)
    }

    /// How many embeddings of the model there are.
    pub fn current_embedding_count(&self, model: &str) -> (r: usize)
        ensures
            r == model_count(embedding_models(self.embeddings@), model@),
    {
        let ghost all = embedding_models(self.embeddings@);
        let mut n: usize = 0;
        let mut i: usize = 0;
        while i < self.embeddings.len()
            invariant
                i <= self.embeddings.len(),
                all == embedding_models(self.embeddings@),
                n == model_count(all.take(i as int), model@),
                n <= i,
            decreases self.embeddings.len() - i,
        {
            proof {
                assert(all.take(i + 1).drop_last() =~= all.take(i as int));
                assert(all.take(i + 1).last() == all[i as int]);
            }
            if same_text(self.embeddings[i].model.as_str(), model) {
                n += 1;
            }
            i += 1;
        }
        assert(all.take(i as int) =~= all);
        n
    }
}

/// How many of the embeddings are of the model.
pub open spec fn model_count(rows: Seq<(u64, Seq<char>)>, model: Seq<char>) -> nat
    decreases rows.len(),
{
    if rows.len() == 0 {
        0
    } else {
        model_count(rows.drop_last(), model) + if rows.last().1 == model {
            1nat
        } else {
            0
        }
    }
}

/// The settings have been certified for the active repository.
pub open spec fn is_stamped_here(before: HistoryModel, after: HistoryModel) -> bool {
    index::is_stamped(before, after, before.active_repo_id)
}

/// Certifying makes the policies readable at the default cap and at no other.
pub proof fn stamping_certifies(before: HistoryModel, after: HistoryModel, cap: nat)
    requires
        is_stamped_here(before, after),
    ensures
        is_certified(after),
        reads_column(after, cap) == (cap == DEFAULT_MAX_EMBEDDING_CHARS),
{
    reveal_strlit("embedding_policy_version");
    reveal_strlit("embedding_policy_cap");
    assert(EMBEDDING_POLICY_VERSION_KEY@.len() != EMBEDDING_POLICY_CAP_KEY@.len());
}

/// A plan foretells a reconcile: however the policies stand, it counts the
/// embeddings that a reconcile at the same cap goes on to make.
pub proof fn plan_foretells_reconcile(
    db: IndexModel,
    h: HistoryModel,
    cap: nat,
    embedded: Seq<(u64, Seq<char>)>,
    model: Seq<char>,
)
    ensures
        ({
            let heal = heals(h, cap);
            let after = if heal {
                repoliced(db)
            } else {
                db
            };
            missing(db, db.contents, reads_column(h, cap), cap, embedded, model) == missing(
                after,
                after.contents,
                heal || reads_column(h, cap),
                cap,
                embedded,
                model,
            )
        }),
{
    stored_policies_agree(db, EmbeddingPolicy::Embed, embedded, model);
}

} // verus!

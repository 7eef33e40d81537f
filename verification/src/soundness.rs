//! Testing an index that was put together elsewhere, row by row.
use vstd::prelude::*;
use crate::content::{chunk_models, content_models, symbol_models, Content};
use crate::digest::object_exists;
use crate::files;
use crate::files::FileRow;
use crate::ids;
use crate::index::IndexDatabase;
use crate::text::{contains_text, same_text};

verus! {

fn same_row_key(f: &FileRow, g: &FileRow) -> (r: bool)
    ensures
        r == files::same_key(f@, g@),
{
    same_text(f.repo_id.as_str(), g.repo_id.as_str()) && same_text(
        f.path.as_str(),
        g.path.as_str(),
    ) && same_text(f.commit_sha.as_str(), g.commit_sha.as_str()) && same_text(
        f.worktree_id.as_str(),
        g.worktree_id.as_str(),
    ) && f.generation == g.generation
}

/// Whether no two rows have one key.
pub fn has_unique_keys(rows: &Vec<FileRow>) -> (r: bool)
    ensures
        r == files::keys_are_unique(files::file_models(rows@)),
{
    let ghost all = files::file_models(rows@);
    let mut j: usize = 0;
    while j < rows.len()
        invariant
            j <= rows.len(),
            all == files::file_models(rows@),
            forall|a: int, b: int|
                0 <= a < b < j ==> !files::same_key(#[trigger] all[a], #[trigger] all[b]),
        decreases rows.len() - j,
    {
        let mut i: usize = 0;
        while i < j
            invariant
                i <= j < rows.len(),
                all == files::file_models(rows@),
                forall|a: int| 0 <= a < i ==> !files::same_key(#[trigger] all[a], all[j as int]),
            decreases j - i,
        {
            assert(all[i as int] == rows@[i as int]@);
            assert(all[j as int] == rows@[j as int]@);
            if same_row_key(&rows[i], &rows[j]) {
                return false;
            }
            i += 1;
        }
        j += 1;
    }
    true
}

fn is_content_numbered(c: &Content, bound: u64) -> (r: bool)
    ensures
        r == ids::is_numbered(c@, bound as int),
{
    let ghost symbols = symbol_models(c.symbols@);
    let ghost chunks = chunk_models(c.chunks@);
    let mut i: usize = 0;
    while i < c.symbols.len()
        invariant
            i <= c.symbols.len(),
            symbols == symbol_models(c.symbols@),
            symbols == c@.symbols,
            forall|a: int, b: int|
                0 <= a < b < i ==> (#[trigger] symbols[a]).id < (#[trigger] symbols[b]).id,
            forall|a: int| 0 <= a < i ==> (#[trigger] symbols[a]).id < bound,
        decreases c.symbols.len() - i,
    {
        assert(symbols[i as int] == c.symbols@[i as int]@);
        if c.symbols[i].id >= bound {
            return false;
        }
        if i > 0 {
            assert(symbols[i - 1] == c.symbols@[i - 1]@);
            if c.symbols[i - 1].id >= c.symbols[i].id {
                return false;
            }
        }
        i += 1;
    }
    let mut k: usize = 0;
    while k < c.chunks.len()
        invariant
            k <= c.chunks.len(),
            symbols == symbol_models(c.symbols@),
            symbols == c@.symbols,
            chunks == chunk_models(c.chunks@),
            chunks == c@.chunks,
            forall|a: int, b: int|
                0 <= a < b < symbols.len() ==> (#[trigger] symbols[a]).id < (
                #[trigger] symbols[b]).id,
            forall|a: int, b: int|
                0 <= a < b < k ==> (#[trigger] chunks[a]).id < (#[trigger] chunks[b]).id,
            forall|a: int, b: int|
                0 <= a < symbols.len() && 0 <= b < k ==> (#[trigger] symbols[a]).id < (
                #[trigger] chunks[b]).id,
            forall|a: int| 0 <= a < k ==> (#[trigger] chunks[a]).id < bound,
        decreases c.chunks.len() - k,
    {
        assert(chunks[k as int] == c.chunks@[k as int]@);
        if c.chunks[k].id >= bound {
            return false;
        }
        if k > 0 {
            assert(chunks[k - 1] == c.chunks@[k - 1]@);
            if c.chunks[k - 1].id >= c.chunks[k].id {
                return false;
            }
        }
        let n: usize = c.symbols.len();
        if n > 0 {
            assert(symbols[n - 1] == c.symbols@[n - 1]@);
            if c.symbols[n - 1].id >= c.chunks[k].id {
                return false;
            }
        }
        k += 1;
    }
    true
}

fn least_id(c: &Content, bound: u64) -> (r: u64)
    ensures
        r == ids::least(c@, bound as int),
{
    if c.symbols.len() > 0 {
        assert(c@.symbols[0] == c.symbols@[0]@);
        c.symbols[0].id
    } else if c.chunks.len() > 0 {
        assert(c@.chunks[0] == c.chunks@[0]@);
        c.chunks[0].id
    } else {
        bound
    }
}

/// Whether the numbers in the contents ascend and lie below `bound`.
pub fn has_ascending_ids(contents: &Vec<Content>, bound: u64) -> (r: bool)
    ensures
        r == ids::are_numbered(content_models(contents@), bound as int),
{
    let ghost all = content_models(contents@);
    let mut n: usize = contents.len();
    let mut limit: u64 = bound;
    assert(all.take(n as int) =~= all);
    while n > 0
        invariant
            n <= contents.len(),
            all == content_models(contents@),
            ids::are_numbered(all, bound as int) == ids::are_numbered(
                all.take(n as int),
                limit as int,
            ),
        decreases n,
    {
        let ghost here = all.take(n as int);
        proof {
            assert(here.last() == contents@[n - 1]@);
            assert(here.drop_last() =~= all.take(n - 1));
        }
        if !is_content_numbered(&contents[n - 1], limit) {
            return false;
        }
        limit = least_id(&contents[n - 1], limit);
        n -= 1;
    }
    true
}

impl IndexDatabase {
    /// Whether the index can be worked on: the digest follows every write, the
    /// tables are sound, and the repository that the scope names is the active one
    /// and registered.
    pub fn is_well_formed(&self) -> (r: bool)
        ensures
            r == self.wf(),
    {
        let ghost rows = self@.files;
        let mut i: usize = 0;
        while i < self.store.files.len()
            invariant
                i <= self.store.files.len(),
                rows == files::file_models(self.store.files@),
                rows == self@.files,
                forall|k: int|
                    0 <= k < i && (#[trigger] rows[k]).repo_id == self@.repo_id
                        ==> rows[k].generation <= self@.generation,
            decreases self.store.files.len() - i,
        {
            assert(rows[i as int] == self.store.files@[i as int]@);
            if same_text(self.store.files[i].repo_id.as_str(), self.scope.repo_id.as_str())
                && self.store.files[i].generation > self.scope.generation {
                return false;
            }
            i += 1;
        }
        self.store.fold_registered && object_exists(
            &self.store,
            "trigger",
            "files_content_digest_ai",
        ) && object_exists(&self.store, "trigger", "files_content_digest_ad") && object_exists(
            &self.store,
            "trigger",
            "files_content_digest_au",
        ) && has_unique_keys(&self.store.files) && has_ascending_ids(
            &self.contents,
            self.next_id,
        ) && same_text(self.scope.repo_id.as_str(), self.history.active_repo_id.as_str())
            && contains_text(&self.history.repos, self.scope.repo_id.as_str())
    }
}

} // verus!

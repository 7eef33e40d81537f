//! What is read out of one file: its symbols and its chunks.
use vstd::prelude::*;
use crate::chunks;
use crate::chunks::{
    classify, find_paragraphs, has_test_code, prioritise, EmbeddingPolicy,
    DEFAULT_MAX_EMBEDDING_CHARS,
};
use crate::files::{Scope, ScopeModel};
use crate::fingerprint;
use crate::fingerprint::{normalise, Fingerprint, PrintModel, MIN_TOKENS};
use crate::graph;
use crate::items;
use crate::items::{Item, ItemKind, ItemModel};
use crate::lexer;
use crate::lexer::{chars_of, TokenModel};
use crate::scripts;
use crate::scripts::{read_code, read_units};
use crate::syntax::Code;
use crate::utf8;
use crate::utf8::byte_places;

verus! {

/// The language of a file.
#[derive(Clone, Copy, PartialEq, Eq, Structural, Debug)]
pub enum Language {
    Rust,
    TypeScript,
    Python,
    Markdown,
}

/// The name of a language.
pub open spec fn language_name(l: Language) -> Seq<char> {
    match l {
        Language::Rust => "rust"@,
        Language::TypeScript => "typescript"@,
        Language::Python => "python"@,
        Language::Markdown => "markdown"@,
    }
}

impl Language {
    /// The name of the language.
    pub fn as_str(&self) -> (r: &'static str)
        ensures
            r@ == language_name(*self),
    {
        match self {
            Language::Rust => "rust",
            Language::TypeScript => "typescript",
            Language::Python => "python",
            Language::Markdown => "markdown",
        }
    }
}

/// A symbol of a file: where it stands, in bytes and in lines, and the fingerprint of its tokens where it has one.
pub struct Symbol {
    pub id: u64,
    pub name: String,
    pub qualified_name: String,
    pub kind: ItemKind,
    pub start: usize,
    pub end: usize,
    pub start_line: usize,
    pub end_line: usize,
    pub print: Option<Fingerprint>,
}

/// What a [`Symbol`] holds, as plain values.
#[verifier::ext_equal]
pub struct SymbolModel {
    pub id: u64,
    pub name: Seq<char>,
    pub qualified_name: Seq<char>,
    pub kind: ItemKind,
    pub start: int,
    pub end: int,
    pub start_line: int,
    pub end_line: int,
    pub print: Option<PrintModel>,
}

pub open spec fn optional_print(p: Option<Fingerprint>) -> Option<PrintModel> {
    match p {
        Some(f) => Some(f@),
        None => None,
    }
}

impl View for Symbol {
    type V = SymbolModel;

    open spec fn view(&self) -> SymbolModel {
        SymbolModel {
            id: self.id,
            name: self.name@,
            qualified_name: self.qualified_name@,
            kind: self.kind,
            start: self.start as int,
            end: self.end as int,
            start_line: self.start_line as int,
            end_line: self.end_line as int,
            print: optional_print(self.print),
        }
    }
}

pub open spec fn symbol_models(rows: Seq<Symbol>) -> Seq<SymbolModel> {
    rows.map_values(|r: Symbol| r@)
}

/// A chunk of a file: where it stands, in bytes, and what is to be done about its
/// embedding.
pub struct Chunk {
    pub id: u64,
    pub start: usize,
    pub end: usize,
    pub text: String,
    pub policy: EmbeddingPolicy,
    pub priority: u64,
}

/// What a [`Chunk`] holds, as plain values.
#[verifier::ext_equal]
pub struct ChunkModel {
    pub id: u64,
    pub start: int,
    pub end: int,
    pub text: Seq<char>,
    pub policy: EmbeddingPolicy,
    pub priority: u64,
}

impl View for Chunk {
    type V = ChunkModel;

    open spec fn view(&self) -> ChunkModel {
        ChunkModel {
            id: self.id,
            start: self.start as int,
            end: self.end as int,
            text: self.text@,
            policy: self.policy,
            priority: self.priority,
        }
    }
}

pub open spec fn chunk_models(rows: Seq<Chunk>) -> Seq<ChunkModel> {
    rows.map_values(|r: Chunk| r@)
}

/// How many line ends stand before `i`.
pub open spec fn line_ends(s: Seq<char>, i: int) -> nat
    decreases i,
{
    if i <= 0 {
        0
    } else {
        line_ends(s, i - 1) + if lexer::char_at(s, i - 1) == '\n' {
            1nat
        } else {
            0
        }
    }
}

/// The number of the line that `i` stands on, counted from 1.
pub open spec fn line_of(s: Seq<char>, i: int) -> nat {
    line_ends(s, i) + 1
}

/// The tokens of an item.
pub open spec fn item_tokens(toks: Seq<TokenModel>, it: ItemModel) -> Seq<TokenModel> {
    toks.subrange(it.first, it.last)
}

/// The fingerprint of an item: that of its tokens, if it is a function and long
/// enough.
pub open spec fn item_print(toks: Seq<TokenModel>, it: ItemModel) -> Option<PrintModel> {
    if it.kind == ItemKind::Function && it.last - it.first >= MIN_TOKENS {
        Some(fingerprint::print_of(fingerprint::normalised(item_tokens(toks, it))))
    } else {
        None
    }
}

/// The symbol of an item.
pub open spec fn symbol_of(
    path: Seq<char>,
    s: Seq<char>,
    language: Language,
    it: ItemModel,
    generated: bool,
    id: u64,
) -> SymbolModel {
    let toks = scripts::tokens_of(language, s);
    SymbolModel {
        id,
        name: toks[it.name].text,
        qualified_name: graph::qualified(path, toks[it.name].text),
        kind: it.kind,
        start: utf8::byte_place(s, toks[it.first].start),
        end: utf8::byte_place(s, toks[it.last - 1].end),
        start_line: line_of(s, toks[it.first].start) as int,
        end_line: line_of(s, toks[it.last - 1].end - 1) as int,
        print: if generated {
            None
        } else {
            item_print(toks, it)
        },
    }
}

/// The symbols of a file, numbered from `base` on. A generated file has
/// symbols, but no fingerprints.
pub open spec fn symbols_of(
    path: Seq<char>,
    s: Seq<char>,
    language: Language,
    generated: bool,
    base: int,
) -> Seq<SymbolModel> {
    let its = scripts::units(language, s);
    Seq::new(its.len(), |i: int| symbol_of(path, s, language, its[i], generated, (base + i) as u64))
}

/// A chunk of a file.
pub open spec fn chunk_of(s: Seq<char>, span: (int, int), generated: bool, id: u64) -> ChunkModel {
    let t = s.subrange(span.0, span.1);
    let policy = chunks::classified(t, generated, DEFAULT_MAX_EMBEDDING_CHARS as nat);
    ChunkModel {
        id,
        start: utf8::byte_place(s, span.0),
        end: utf8::byte_place(s, span.1),
        text: t,
        policy,
        priority: chunks::priority_of(t, policy),
    }
}

/// The chunks of a file, numbered from `base` on.
pub open spec fn chunks_of(s: Seq<char>, generated: bool, base: int) -> Seq<ChunkModel> {
    let spans = chunks::paragraphs(s);
    Seq::new(spans.len(), |i: int| chunk_of(s, spans[i], generated, (base + i) as u64))
}

/// The bytes of a symbol are those of the text from its first token to its last.
pub proof fn symbols_recover_their_text(
    path: Seq<char>,
    s: Seq<char>,
    language: Language,
    generated: bool,
    base: int,
    k: int,
)
    requires
        0 <= k < symbols_of(path, s, language, generated, base).len(),
    ensures
        ({
            let toks = scripts::tokens_of(language, s);
            let it = scripts::units(language, s)[k];
            let symbol = symbols_of(path, s, language, generated, base)[k];
            utf8::recovers(
                s,
                (symbol.start, symbol.end),
                s.subrange(toks[it.first].start, toks[it.last - 1].end),
            )
        }),
{
    let toks = scripts::tokens_of(language, s);
    let it = scripts::units(language, s)[k];
    scripts::units_lie_inside(language, s, k);
    lexer::tokens_are_inside(s, 0, scripts::dialect_of(language));
    lexer::tokens_ascend(s, 0, scripts::dialect_of(language));
    assert(toks[it.first].start < toks[it.first].end);
    assert(toks[it.last - 1].start < toks[it.last - 1].end);
    utf8::bytes_recover_text(s, toks[it.first].start, toks[it.last - 1].end);
}

/// The bytes of a chunk are those of its text.
pub proof fn chunks_recover_their_text(s: Seq<char>, generated: bool, base: int, k: int)
    requires
        0 <= k < chunks_of(s, generated, base).len(),
    ensures
        utf8::recovers(
            s,
            (chunks_of(s, generated, base)[k].start, chunks_of(s, generated, base)[k].end),
            chunks_of(s, generated, base)[k].text,
        ),
{
    let span = chunks::paragraphs(s)[k];
    chunks::paragraphs_lie_inside(s, 0);
    utf8::bytes_recover_text(s, span.0, span.1);
}

/// What is read out of one file, and which row of the file table it belongs to.
pub struct Content {
    pub repo_id: String,
    pub path: String,
    pub commit_sha: String,
    pub worktree_id: String,
    pub generation: u64,
    pub language: Language,
    pub source: String,
    pub has_test_code: bool,
    pub symbols: Vec<Symbol>,
    pub chunks: Vec<Chunk>,
}

/// What a [`Content`] holds, as plain values.
#[verifier::ext_equal]
pub struct ContentModel {
    pub repo_id: Seq<char>,
    pub path: Seq<char>,
    pub commit_sha: Seq<char>,
    pub worktree_id: Seq<char>,
    pub generation: u64,
    pub language: Language,
    pub source: Seq<char>,
    pub has_test_code: bool,
    pub symbols: Seq<SymbolModel>,
    pub chunks: Seq<ChunkModel>,
}

impl View for Content {
    type V = ContentModel;

    open spec fn view(&self) -> ContentModel {
        ContentModel {
            repo_id: self.repo_id@,
            path: self.path@,
            commit_sha: self.commit_sha@,
            worktree_id: self.worktree_id@,
            generation: self.generation,
            language: self.language,
            source: self.source@,
            has_test_code: self.has_test_code,
            symbols: symbol_models(self.symbols@),
            chunks: chunk_models(self.chunks@),
        }
    }
}

pub open spec fn content_models(rows: Seq<Content>) -> Seq<ContentModel> {
    rows.map_values(|r: Content| r@)
}

/// How a file is to be read.
#[derive(Clone, Copy, PartialEq, Eq, Structural, Debug)]
pub struct Manner {
    /// The language that the file is in.
    pub language: Language,
    /// Whether symbols are looked for at all.
    pub has_symbols: bool,
    /// Whether a program has written the file.
    pub generated: bool,
}

/// How many symbols and chunks a file has.
pub open spec fn content_size(s: Seq<char>, how: Manner) -> nat {
    chunks::paragraphs(s).len() + if how.has_symbols {
        scripts::units(how.language, s).len()
    } else {
        0
    }
}

/// What is read out of a file of the snapshot that the scope names. Its symbols are numbered from `base` on, and its
/// chunks behind them.
pub open spec fn content_of(
    path: Seq<char>,
    s: Seq<char>,
    how: Manner,
    scope: ScopeModel,
    base: int,
) -> ContentModel {
    let symbols = if how.has_symbols {
        symbols_of(path, s, how.language, how.generated, base)
    } else {
        Seq::empty()
    };
    ContentModel {
        repo_id: scope.repo_id,
        path,
        commit_sha: scope.commit_sha,
        worktree_id: scope.worktree_id,
        generation: scope.generation,
        language: how.language,
        source: s,
        has_test_code: chunks::is_test_code(s),
        symbols,
        chunks: chunks_of(s, how.generated, base + symbols.len()),
    }
}

/// A file has no more symbols and no more chunks than characters.
pub proof fn content_is_bounded(s: Seq<char>, how: Manner)
    ensures
        content_size(s, how) <= 2 * s.len(),
{
    scripts::units_are_few(how.language, s);
    chunks::paragraphs_are_few(s, 0);
}

fn find_line(s: &Vec<char>, i: usize) -> (r: usize)
    requires
        i < s.len(),
    ensures
        r == line_of(s@, i as int),
{
    let mut n: usize = 1;
    let mut k: usize = 0;
    while k < i
        invariant
            k <= i < s.len(),
            n == line_ends(s@, k as int) + 1,
            n <= k + 1,
        decreases i - k,
    {
        if s[k] == '\n' {
            n += 1;
        }
        k += 1;
    }
    n
}

fn qualify(path: &str, name: &str) -> (r: String)
    ensures
        r@ == graph::qualified(path@, name@),
{
    let mut r = path.to_owned();
    r.append("::");
    r.append(name);
    r
}

fn read_symbol(
    path: &str,
    s: &Vec<char>,
    places: &Vec<usize>,
    language: Language,
    code: &Code,
    it: &Item,
    generated: bool,
    id: u64,
) -> (r: Symbol)
    requires
        code.wf(),
        code@ == scripts::tokens_of(language, s@),
        items::item_fits(code@, *it),
        places.len() == s.len() + 1,
        forall|k: int| 0 <= k <= s.len() ==> #[trigger] places@[k] == utf8::byte_place(s@, k),
    ensures
        r@ == symbol_of(path@, s@, language, it@, generated, id),
{
    proof {
        lexer::tokens_are_inside(s@, 0, scripts::dialect_of(language));
        assert(code@[it.first as int].start < code@[it.first as int].end <= s@.len());
        assert(code@[it.last - 1].start < code@[it.last - 1].end <= s@.len());
        assert(code@[it.name as int] == code.toks@[it.name as int]@);
        assert(code@[it.first as int] == code.toks@[it.first as int]@);
        assert(code@[it.last - 1] == code.toks@[it.last - 1]@);
    }
    let name = code.toks[it.name].text.clone();
    let qualified_name = qualify(path, name.as_str());
    let from: usize = code.toks[it.first].start;
    let to: usize = code.toks[it.last - 1].end;
    let start: usize = places[from];
    let end: usize = places[to];
    let start_line = find_line(s, from);
    let end_line = find_line(s, to - 1);
    let print: Option<Fingerprint> = if !generated && it.kind == ItemKind::Function && it.last
        - it.first >= MIN_TOKENS {
        Some(Fingerprint::of(normalise(&code.toks, it.first, it.last)))
    } else {
        None
    };
    Symbol { id, name, qualified_name, kind: it.kind, start, end, start_line, end_line, print }
}

/// The symbols of a file, numbered from `base` on.
pub fn read_symbols(
    path: &str,
    source: &str,
    language: Language,
    generated: bool,
    base: u64,
) -> (r: Vec<Symbol>)
    requires
        base + scripts::units(language, source@).len() <= u64::MAX,
    ensures
        symbol_models(r@) == symbols_of(path@, source@, language, generated, base as int),
{
    let s = chars_of(source);
    let places = byte_places(source, &s);
    let code = read_code(language, source);
    let its = read_units(language, &s, &code);
    let ghost models = items::item_models(its@);
    let ghost goal = symbols_of(path@, source@, language, generated, base as int);
    let mut r: Vec<Symbol> = Vec::new();
    let mut i: usize = 0;
    assert(symbol_models(r@) =~= goal.take(0));
    while i < its.len()
        invariant
            i <= its.len(),
            s@ == source@,
            places.len() == s.len() + 1,
            forall|k: int|
                0 <= k <= s.len() ==> #[trigger] places@[k] == utf8::byte_place(source@, k),
            code.wf(),
            code@ == scripts::tokens_of(language, source@),
            models == items::item_models(its@),
            models == scripts::units(language, source@),
            base + models.len() <= u64::MAX,
            goal == symbols_of(path@, source@, language, generated, base as int),
            symbol_models(r@) == goal.take(i as int),
            forall|k: int| 0 <= k < its.len() ==> items::item_fits(code@, #[trigger] its@[k]),
        decreases its.len() - i,
    {
        let ghost sofar = symbol_models(r@);
        assert(models[i as int] == its@[i as int]@);
        let symbol = read_symbol(
            path,
            &s,
            &places,
            language,
            &code,
            &its[i],
            generated,
            base + i as u64,
        );
        r.push(symbol);
        proof {
            assert(symbol_models(r@) =~= sofar.push(symbol@));
            assert(goal[i as int] == symbol@);
            assert(goal.take(i + 1) =~= goal.take(i as int).push(goal[i as int]));
        }
        i += 1;
    }
    assert(goal.take(i as int) =~= goal);
    r
}

/// The chunks of a file, numbered from `base` on.
pub fn read_chunks(source: &str, generated: bool, base: u64) -> (r: Vec<Chunk>)
    requires
        base + chunks::paragraphs(source@).len() <= u64::MAX,
    ensures
        chunk_models(r@) == chunks_of(source@, generated, base as int),
{
    let s = chars_of(source);
    let places = byte_places(source, &s);
    let spans = find_paragraphs(&s);
    let ghost models = chunks::span_models(spans@);
    let ghost goal = chunks_of(source@, generated, base as int);
    let mut r: Vec<Chunk> = Vec::new();
    let mut i: usize = 0;
    assert(chunk_models(r@) =~= goal.take(0));
    while i < spans.len()
        invariant
            i <= spans.len(),
            s@ == source@,
            places.len() == s.len() + 1,
            forall|k: int|
                0 <= k <= s.len() ==> #[trigger] places@[k] == utf8::byte_place(source@, k),
            models == chunks::span_models(spans@),
            models == chunks::paragraphs(source@),
            base + models.len() <= u64::MAX,
            goal == chunks_of(source@, generated, base as int),
            chunk_models(r@) == goal.take(i as int),
            forall|k: int| 0 <= k < spans.len() ==> (#[trigger] spans@[k]).0 <= spans@[k].1
                <= s.len(),
        decreases spans.len() - i,
    {
        let ghost sofar = chunk_models(r@);
        assert(models[i as int] == (spans@[i as int].0 as int, spans@[i as int].1 as int));
        let (lo, hi) = spans[i];
        let text = source.substring_char(lo, hi).to_owned();
        let policy = classify(text.as_str(), generated, DEFAULT_MAX_EMBEDDING_CHARS);
        let priority = prioritise(text.as_str(), policy);
        let chunk = Chunk {
            id: base + i as u64,
            start: places[lo],
            end: places[hi],
            text,
            policy,
            priority,
        };
        r.push(chunk);
        proof {
            assert(chunk_models(r@) =~= sofar.push(chunk@));
            assert(goal[i as int] == chunk@);
            assert(goal.take(i + 1) =~= goal.take(i as int).push(goal[i as int]));
        }
        i += 1;
    }
    assert(goal.take(i as int) =~= goal);
    r
}

/// Reads a file of the snapshot that the scope names. Its symbols are numbered from `base` on, and its chunks behind
/// them.
pub fn read_content(
    path: &str,
    source: &str,
    how: Manner,
    scope: &Scope,
    base: u64,
) -> (r: Content)
    requires
        base + content_size(source@, how) <= u64::MAX,
    ensures
        r@ == content_of(path@, source@, how, scope@, base as int),
        r.symbols.len() + r.chunks.len() == content_size(source@, how),
{
    let symbols = if how.has_symbols {
        read_symbols(path, source, how.language, how.generated, base)
    } else {
        Vec::new()
    };
    let n: u64 = symbols.len() as u64;
    let chunks = read_chunks(source, how.generated, base + n);
    let r = Content {
        repo_id: scope.repo_id.clone(),
        path: path.to_owned(),
        commit_sha: scope.commit_sha.clone(),
        worktree_id: scope.worktree_id.clone(),
        generation: scope.generation,
        language: how.language,
        source: source.to_owned(),
        has_test_code: has_test_code(source),
        symbols,
        chunks,
    };
    proof {
        let goal = content_of(path@, source@, how, scope@, base as int);
        assert(symbol_models(r.symbols@).len() == r.symbols.len());
        assert(chunk_models(r.chunks@).len() == r.chunks.len());
        assert(r@.symbols =~= goal.symbols);
        assert(r@ =~= goal);
    }
    r
}

} // verus!

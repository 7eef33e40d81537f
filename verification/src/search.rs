//! Word search over the chunks of an index.
use vstd::prelude::*;
use crate::content;
use crate::content::{Content, ContentModel};
use crate::lexer;
use crate::lexer::{tokenize, Kind, TokenModel};
use crate::text;
use crate::text::contains_text;

verus! {

/// The words of one chunk.
pub struct TermRow {
    pub chunk_id: u64,
    pub terms: Vec<String>,
}

/// The rows of a word table, as plain values.
pub open spec fn term_models(rows: Seq<TermRow>) -> Seq<(u64, Seq<Seq<char>>)> {
    rows.map_values(|r: TermRow| (r.chunk_id, text::views(r.terms@)))
}

/// The words among tokens.
pub open spec fn word_texts(toks: Seq<TokenModel>) -> Seq<Seq<char>>
    decreases toks.len(),
{
    if toks.len() == 0 {
        Seq::empty()
    } else if toks.last().kind == Kind::Word {
        word_texts(toks.drop_last()).push(toks.last().text)
    } else {
        word_texts(toks.drop_last())
    }
}

/// The words of a text.
pub open spec fn words_of(s: Seq<char>) -> Seq<Seq<char>> {
    word_texts(lexer::tokens(s))
}

/// The word rows of one file.
pub open spec fn content_terms(c: ContentModel) -> Seq<(u64, Seq<Seq<char>>)> {
    Seq::new(c.chunks.len(), |i: int| (c.chunks[i].id, words_of(c.chunks[i].text)))
}

/// The word rows of all files.
pub open spec fn terms_of(contents: Seq<ContentModel>) -> Seq<(u64, Seq<Seq<char>>)>
    decreases contents.len(),
{
    if contents.len() == 0 {
        Seq::empty()
    } else {
        terms_of(contents.drop_last()) + content_terms(contents.last())
    }
}

fn read_words(source: &str) -> (r: Vec<String>)
    ensures
        text::views(r@) == words_of(source@),
{
    let toks = tokenize(source);
    let ghost all = lexer::token_models(toks@);
    let mut r: Vec<String> = Vec::new();
    let mut i: usize = 0;
    assert(text::views(r@) =~= word_texts(all.take(0)));
    while i < toks.len()
        invariant
            i <= toks.len(),
            all == lexer::token_models(toks@),
            text::views(r@) == word_texts(all.take(i as int)),
        decreases toks.len() - i,
    {
        proof {
            assert(all.take(i + 1).drop_last() =~= all.take(i as int));
            assert(all.take(i + 1).last() == toks@[i as int]@);
        }
        if toks[i].kind == Kind::Word {
            let ghost sofar = text::views(r@);
            r.push(toks[i].text.clone());
            assert(text::views(r@) =~= sofar.push(toks@[i as int].text@));
        }
        i += 1;
    }
    assert(all.take(i as int) =~= all);
    r
}

fn add_terms(rows: &mut Vec<TermRow>, c: &Content)
    ensures
        term_models(final(rows)@) == term_models(old(rows)@) + content_terms(c@),
{
    let ghost before = term_models(rows@);
    let ghost goal = content_terms(c@);
    let mut i: usize = 0;
    assert(term_models(rows@) =~= before + goal.take(0));
    while i < c.chunks.len()
        invariant
            i <= c.chunks.len(),
            goal == content_terms(c@),
            term_models(rows@) == before + goal.take(i as int),
        decreases c.chunks.len() - i,
    {
        let ghost sofar = term_models(rows@);
        let row = TermRow {
            chunk_id: c.chunks[i].id,
            terms: read_words(c.chunks[i].text.as_str()),
        };
        rows.push(row);
        proof {
            assert(c@.chunks[i as int] == c.chunks@[i as int]@);
            assert(goal[i as int] == (row.chunk_id, text::views(row.terms@)));
            assert(term_models(rows@) =~= sofar.push(goal[i as int]));
            assert(goal.take(i + 1) =~= goal.take(i as int).push(goal[i as int]));
        }
        i += 1;
    }
    assert(goal.take(i as int) =~= goal);
}

/// The word rows of all files, from the texts of their chunks.
pub fn collect_terms(contents: &Vec<Content>) -> (r: Vec<TermRow>)
    ensures
        term_models(r@) == terms_of(content::content_models(contents@)),
{
    let ghost all = content::content_models(contents@);
    let mut r: Vec<TermRow> = Vec::new();
    let mut i: usize = 0;
    assert(term_models(r@) =~= terms_of(all.take(0)));
    while i < contents.len()
        invariant
            i <= contents.len(),
            all == content::content_models(contents@),
            term_models(r@) == terms_of(all.take(i as int)),
        decreases contents.len() - i,
    {
        proof {
            assert(all.take(i + 1).drop_last() =~= all.take(i as int));
            assert(all.take(i + 1).last() == contents@[i as int]@);
        }
        add_terms(&mut r, &contents[i]);
        i += 1;
    }
    assert(all.take(i as int) =~= all);
    r
}

/// How many rows hold the word.
pub open spec fn match_count(rows: Seq<(u64, Seq<Seq<char>>)>, word: Seq<char>) -> nat
    decreases rows.len(),
{
    if rows.len() == 0 {
        0
    } else {
        match_count(rows.drop_last(), word) + if rows.last().1.contains(word) {
            1nat
        } else {
            0
        }
    }
}

/// How many chunks hold the word.
pub fn count_matches(rows: &Vec<TermRow>, word: &str) -> (r: usize)
    ensures
        r == match_count(term_models(rows@), word@),
{
    let ghost all = term_models(rows@);
    let mut n: usize = 0;
    let mut i: usize = 0;
    while i < rows.len()
        invariant
            i <= rows.len(),
            all == term_models(rows@),
            n == match_count(all.take(i as int), word@),
            n <= i,
        decreases rows.len() - i,
    {
        proof {
            assert(all.take(i + 1).drop_last() =~= all.take(i as int));
            assert(all.take(i + 1).last() == all[i as int]);
        }
        if contains_text(&rows[i].terms, word) {
            n += 1;
        }
        i += 1;
    }
    assert(all.take(i as int) =~= all);
    n
}

/// One of the tokens of the text is this word.
pub open spec fn says_word(s: Seq<char>, word: Seq<char>) -> bool {
    exists|k: int|
        0 <= k < lexer::tokens(s).len() && (#[trigger] lexer::tokens(s)[k]).kind == Kind::Word
            && lexer::tokens(s)[k].text == word
}

proof fn word_texts_are_those(toks: Seq<TokenModel>, word: Seq<char>)
    ensures
        word_texts(toks).contains(word) <==> exists|k: int|
            0 <= k < toks.len() && (#[trigger] toks[k]).kind == Kind::Word && toks[k].text == word,
    decreases toks.len(),
{
    if toks.len() > 0 {
        let rest = toks.drop_last();
        word_texts_are_those(rest, word);
        let (now, before) = (word_texts(toks), word_texts(rest));
        if before.contains(word) {
            let i = choose|i: int| 0 <= i < before.len() && before[i] == word;
            assert(now[i] == word);
            let k = choose|k: int|
                0 <= k < rest.len() && (#[trigger] rest[k]).kind == Kind::Word && rest[k].text
                    == word;
            assert(toks[k] == rest[k]);
        } else if toks.last().kind == Kind::Word && toks.last().text == word {
            assert(now[now.len() - 1] == word);
            assert(toks[toks.len() - 1].kind == Kind::Word);
        } else {
            if now.contains(word) {
                let i = choose|i: int| 0 <= i < now.len() && now[i] == word;
                assert(i < before.len() && before[i] == word);
            }
            assert forall|k: int| 0 <= k < toks.len() && (#[trigger] toks[k]).kind
                == Kind::Word implies toks[k].text != word by {
                if k < rest.len() {
                    assert(rest[k] == toks[k]);
                }
            }
        }
    }
}

/// The words of a text are the word tokens of it, whatever their length: a word is
/// among them if and only if some token is that word.
pub proof fn words_are_the_word_tokens(s: Seq<char>, word: Seq<char>)
    ensures
        words_of(s).contains(word) <==> says_word(s, word),
{
    word_texts_are_those(lexer::tokens(s), word);
}

/// The chunks that hold the word, by the places of their files and their own.
pub open spec fn chunks_that_say(contents: Seq<ContentModel>, word: Seq<char>) -> Set<(int, int)> {
    Set::new(
        |p: (int, int)|
            0 <= p.0 < contents.len() && 0 <= p.1 < contents[p.0].chunks.len() && says_word(
                contents[p.0].chunks[p.1].text,
                word,
            ),
    )
}

spec fn chunks_below(c: ContentModel, i: int, k: int, word: Seq<char>) -> Set<(int, int)> {
    Set::new(
        |p: (int, int)| p.0 == i && 0 <= p.1 < k && says_word(c.chunks[p.1].text, word),
    )
}

proof fn file_matches(c: ContentModel, i: int, k: int, word: Seq<char>)
    requires
        0 <= k <= c.chunks.len(),
    ensures
        chunks_below(c, i, k, word).finite(),
        match_count(content_terms(c).take(k), word) == chunks_below(c, i, k, word).len(),
    decreases k,
{
    let now = chunks_below(c, i, k, word);
    if k == 0 {
        assert(now =~= Set::empty());
    } else {
        file_matches(c, i, k - 1, word);
        let before = chunks_below(c, i, k - 1, word);
        let rows = content_terms(c).take(k);
        let t = c.chunks[k - 1].text;
        assert(rows.drop_last() =~= content_terms(c).take(k - 1));
        assert(rows.last().1 == words_of(t));
        words_are_the_word_tokens(t, word);
        if says_word(t, word) {
            assert(now =~= before.insert((i, k - 1)));
        } else {
            assert(now =~= before);
        }
    }
}

proof fn counts_join(
    a: Seq<(u64, Seq<Seq<char>>)>,
    b: Seq<(u64, Seq<Seq<char>>)>,
    word: Seq<char>,
)
    ensures
        match_count(a + b, word) == match_count(a, word) + match_count(b, word),
    decreases b.len(),
{
    if b.len() == 0 {
        assert(a + b =~= a);
    } else {
        assert((a + b).drop_last() =~= a + b.drop_last());
        counts_join(a, b.drop_last(), word);
    }
}

/// The count for a word is the number of the chunks of which some token is that
/// word.
pub proof fn every_chunk_that_says_it_is_counted(contents: Seq<ContentModel>, word: Seq<char>)
    ensures
        chunks_that_say(contents, word).finite(),
        match_count(terms_of(contents), word) == chunks_that_say(contents, word).len(),
    decreases contents.len(),
{
    let all = chunks_that_say(contents, word);
    if contents.len() == 0 {
        assert(all =~= Set::empty());
    } else {
        let rest = contents.drop_last();
        let c = contents.last();
        let i = contents.len() - 1;
        every_chunk_that_says_it_is_counted(rest, word);
        file_matches(c, i, c.chunks.len() as int, word);
        counts_join(terms_of(rest), content_terms(c), word);
        let own = chunks_below(c, i, c.chunks.len() as int, word);
        let others = chunks_that_say(rest, word);
        assert(content_terms(c).take(c.chunks.len() as int) =~= content_terms(c));
        assert(all =~= others + own);
        assert(others.disjoint(own));
        vstd::set_lib::lemma_set_disjoint_lens(others, own);
    }
}

} // verus!

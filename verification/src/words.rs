//! Laws on reading a text: the words that stand in it are its word tokens, and what is
//! not white space stands in one of its chunks.
use vstd::prelude::*;
use crate::chunks;
use crate::lexer;
use crate::lexer::{Dialect, Kind, TokenModel};
use crate::search;

verus! {

/// A letter, a digit, an underscore or anything beyond ASCII.
pub open spec fn is_letter(c: char) -> bool {
    ||| 'a' as int <= c as int <= 'z' as int
    ||| 'A' as int <= c as int <= 'Z' as int
    ||| '0' as int <= c as int <= '9' as int
    ||| c == '_'
    ||| c as int >= 128
}

/// The places from `a` to `b` hold a whole word: letters alone, the first of them no
/// digit, and none before or behind it.
pub open spec fn is_word(s: Seq<char>, a: int, b: int) -> bool {
    &&& 0 <= a < b <= s.len()
    &&& forall|k: int| a <= k < b ==> is_letter(#[trigger] s[k])
    &&& !('0' as int <= s[a] as int <= '9' as int)
    &&& a == 0 || !is_letter(s[a - 1])
    &&& b == s.len() || !is_letter(s[b])
}

/// Nothing in the text begins a literal or a comment.
pub open spec fn is_plain(s: Seq<char>) -> bool {
    forall|k: int|
        0 <= k < s.len() ==> #[trigger] s[k] != '"' && s[k] != '\'' && s[k] != '/'
}

proof fn word_ends_at(s: Seq<char>, i: int)
    requires
        0 <= i <= s.len(),
    ensures
        i <= lexer::word_end(s, i) <= s.len(),
        forall|k: int| i <= k < lexer::word_end(s, i) ==> is_letter(#[trigger] s[k]),
        lexer::word_end(s, i) < s.len() ==> !is_letter(s[lexer::word_end(s, i)]),
    decreases s.len() - i,
{
    if i < s.len() && lexer::is_word_part(s[i]) {
        word_ends_at(s, i + 1);
    }
}

proof fn number_ends_at(s: Seq<char>, i: int)
    requires
        0 <= i <= s.len(),
    ensures
        i <= lexer::number_end(s, i) <= s.len(),
        forall|k: int|
            i <= k < lexer::number_end(s, i) ==> is_letter(#[trigger] s[k]) || (s[k] == '.'
                && '0' as int <= lexer::char_at(s, k + 1) as int <= '9' as int),
    decreases s.len() - i,
{
    if i < s.len() && (lexer::is_word_part(s[i]) || (s[i] == '.' && lexer::is_digit(
        lexer::char_at(s, i + 1),
    ))) {
        number_ends_at(s, i + 1);
    }
}

proof fn tokens_stop_before_words(s: Seq<char>, from: int, a: int, b: int)
    requires
        is_plain(s),
        is_word(s, a, b),
        0 <= from < a,
        !lexer::is_space(s[from]),
    ensures
        from < lexer::token_end(s, from, Dialect::Rust) <= a,
{
    word_ends_at(s, from);
    number_ends_at(s, from);
    let e = lexer::word_end(s, from);
    if e >= a {
        assert(!is_letter(s[a - 1]));
    }
    if lexer::number_end(s, from) > a {
        assert(is_letter(s[a - 1]) || s[a - 1] == '.');
        assert(lexer::char_at(s, a) == s[a]);
    }
    let n = lexer::hashes(s, e);
    assert(lexer::char_at(s, e + n) != '"');
    assert(lexer::char_at(s, e) != '"' && lexer::char_at(s, e) != '\'');
    assert(is_letter(s[a]));
    if a == from + 1 {
        assert(lexer::char_at(s, from + 1) == s[a]);
    }
    if a == from + 2 {
        assert(lexer::char_at(s, from + 2) == s[a]);
    }
}

proof fn words_are_tokens_from(s: Seq<char>, from: int, a: int, b: int)
    requires
        is_plain(s),
        is_word(s, a, b),
        0 <= from <= a,
    ensures
        exists|k: int|
            0 <= k < lexer::tokens_from(s, from, Dialect::Rust).len() && is_token_of(
                #[trigger] lexer::tokens_from(s, from, Dialect::Rust)[k],
                s,
                a,
                b,
            ),
    decreases a - from,
{
    let all = lexer::tokens_from(s, from, Dialect::Rust);
    assert(s[from] != '/');
    if from < a {
        if lexer::is_space(s[from]) {
            words_are_tokens_from(s, from + 1, a, b);
        } else {
            tokens_stop_before_words(s, from, a, b);
            let e = lexer::token_end(s, from, Dialect::Rust);
            words_are_tokens_from(s, e, a, b);
            let rest = lexer::tokens_from(s, e, Dialect::Rust);
            let k = choose|k: int| 0 <= k < rest.len() && is_token_of(#[trigger] rest[k], s, a, b);
            assert(all[k + 1] == rest[k]);
        }
    } else {
        word_ends_at(s, a);
        let e = lexer::word_end(s, a);
        if e < b {
            assert(is_letter(s[e]));
        }
        if e > b {
            assert(is_letter(s[b]));
        }
        let n = lexer::hashes(s, e);
        assert(lexer::char_at(s, e + n) != '"');
        assert(lexer::char_at(s, e) != '"' && lexer::char_at(s, e) != '\'');
        assert(is_letter(s[a]));
        assert(!lexer::is_space(s[a]));
        assert(is_token_of(all[0], s, a, b));
    }
}

/// The token is the word that the places from `a` to `b` hold.
pub open spec fn is_token_of(t: TokenModel, s: Seq<char>, a: int, b: int) -> bool {
    t.kind == Kind::Word && t.start == a && t.end == b && t.text == s.subrange(a, b)
}

/// Every whole word of a text without literals and comments is a word token of it,
/// from its first letter to its last.
pub proof fn words_are_tokens(s: Seq<char>, a: int, b: int)
    requires
        is_plain(s),
        is_word(s, a, b),
    ensures
        exists|k: int|
            0 <= k < lexer::tokens(s).len() && is_token_of(
                #[trigger] lexer::tokens(s)[k],
                s,
                a,
                b,
            ),
{
    words_are_tokens_from(s, 0, a, b);
    let all = lexer::tokens_from(s, 0, Dialect::Rust);
    let k = choose|k: int| 0 <= k < all.len() && is_token_of(#[trigger] all[k], s, a, b);
    assert(is_token_of(lexer::tokens(s)[k], s, a, b));
}

/// A search for a whole word of a chunk without literals and comments finds the chunk:
/// the word is in the row of it.
pub proof fn words_are_found(s: Seq<char>, a: int, b: int)
    requires
        is_plain(s),
        is_word(s, a, b),
    ensures
        search::words_of(s).contains(s.subrange(a, b)),
{
    words_are_tokens(s, a, b);
    let toks = lexer::tokens(s);
    let k = choose|k: int| 0 <= k < toks.len() && is_token_of(#[trigger] toks[k], s, a, b);
    assert(toks[k].kind == Kind::Word);
    search::words_are_the_word_tokens(s, s.subrange(a, b));
}

/// The character is white space.
pub open spec fn is_white(c: char) -> bool {
    c == ' ' || c == '\n' || c == '\t' || c == '\r'
}

proof fn paragraph_ends_with_a_line(s: Seq<char>, i: int)
    requires
        0 <= i <= s.len(),
    ensures
        i <= chunks::paragraph_end(s, i) <= s.len(),
        chunks::paragraph_end(s, i) < s.len() ==> s[chunks::paragraph_end(s, i)] == '\n',
        chunks::paragraph_end(s, i) + 1 < s.len() ==> chunks::is_blank(
            s,
            chunks::paragraph_end(s, i) + 1,
            lexer::line_end(s, chunks::paragraph_end(s, i) + 1),
        ),
    decreases s.len() - i,
{
    chunks::line_ends_at_break(s, i);
    let e = lexer::line_end(s, i);
    if e + 1 < s.len() && !chunks::is_blank(s, e + 1, lexer::line_end(s, e + 1)) {
        paragraph_ends_with_a_line(s, e + 1);
    }
}

proof fn chunks_cover_from(s: Seq<char>, from: int, k: int)
    requires
        0 <= from <= k < s.len(),
        !is_white(s[k]),
    ensures
        exists|c: int|
            0 <= c < chunks::paragraphs_from(s, from).len() && (#[trigger] chunks::paragraphs_from(
                s,
                from,
            )[c]).0 <= k < chunks::paragraphs_from(s, from)[c].1,
    decreases s.len() - from,
{
    chunks::line_ends_at_break(s, from);
    let e = lexer::line_end(s, from);
    let all = chunks::paragraphs_from(s, from);
    if chunks::is_blank(s, from, e) {
        if k < e {
            assert(lexer::is_space(s[k]));
        }
        chunks_cover_from(s, e + 1, k);
    } else {
        paragraph_ends_with_a_line(s, from);
        let p = chunks::paragraph_end(s, from);
        if k < p {
            assert(all[0] == (from, p));
        } else {
            chunks_cover_from(s, p + 1, k);
            let rest = chunks::paragraphs_from(s, p + 1);
            let c = choose|c: int|
                0 <= c < rest.len() && (#[trigger] rest[c]).0 <= k < rest[c].1;
            assert(all[c + 1] == rest[c]);
        }
    }
}

/// Whatever is not white space stands in one of the chunks of the text.
pub proof fn chunks_cover_the_text(s: Seq<char>, k: int)
    requires
        0 <= k < s.len(),
        !is_white(s[k]),
    ensures
        exists|c: int|
            0 <= c < chunks::paragraphs(s).len() && (#[trigger] chunks::paragraphs(s)[c]).0 <= k
                < chunks::paragraphs(s)[c].1,
{
    chunks_cover_from(s, 0, k);
    let all = chunks::paragraphs_from(s, 0);
    let c = choose|c: int| 0 <= c < all.len() && (#[trigger] all[c]).0 <= k < all[c].1;
    assert(chunks::paragraphs(s)[c].0 <= k);
}

proof fn paragraphs_hold_no_blank_line(s: Seq<char>, i: int, l: int)
    requires
        0 <= i <= l < chunks::paragraph_end(s, i),
        i < s.len(),
        l == i || s[l - 1] == '\n',
        !chunks::is_blank(s, i, lexer::line_end(s, i)),
    ensures
        exists|k: int|
            l <= k < chunks::paragraph_end(s, i) && !is_white(#[trigger] s[k]) && forall|j: int|
                l <= j < k ==> #[trigger] s[j] != '\n',
    decreases s.len() - i,
{
    chunks::line_ends_at_break(s, i);
    paragraph_ends_with_a_line(s, i);
    let e = lexer::line_end(s, i);
    let p = chunks::paragraph_end(s, i);
    if l == i {
        let k = choose|k: int| i <= k < e && !lexer::is_space(#[trigger] s[k]);
        if e + 1 < s.len() && !chunks::is_blank(s, e + 1, lexer::line_end(s, e + 1)) {
            paragraph_ends_with_a_line(s, e + 1);
        }
        assert(!is_white(s[k]));
    } else {
        if l <= e {
            assert(s[l - 1] != '\n');
        }
        assert(e + 1 < s.len() && !chunks::is_blank(s, e + 1, lexer::line_end(s, e + 1)));
        paragraphs_hold_no_blank_line(s, e + 1, l);
    }
}

proof fn chunks_are_whole_from(s: Seq<char>, from: int, c: int)
    requires
        0 <= c < chunks::paragraphs_from(s, from).len(),
        0 <= from <= s.len(),
        from == 0 || s[from - 1] == '\n',
    ensures
        ({
            let p = chunks::paragraphs_from(s, from)[c];
            &&& from <= p.0 < p.1 <= s.len()
            &&& p.0 == 0 || s[p.0 - 1] == '\n'
            &&& p.1 < s.len() ==> s[p.1] == '\n'
            &&& forall|l: int|
                p.0 <= l < p.1 && (l == p.0 || #[trigger] s[l - 1] == '\n') ==> exists|k: int|
                    l <= k < p.1 && !is_white(#[trigger] s[k]) && forall|j: int|
                        l <= j < k ==> #[trigger] s[j] != '\n'
            &&& c + 1 < chunks::paragraphs_from(s, from).len() ==> p.1
                < chunks::paragraphs_from(s, from)[c + 1].0
        }),
    decreases s.len() - from,
{
    chunks::line_ends_at_break(s, from);
    let e = lexer::line_end(s, from);
    let all = chunks::paragraphs_from(s, from);
    if from < s.len() && from <= e {
        if chunks::is_blank(s, from, e) {
            assert(all == chunks::paragraphs_from(s, e + 1));
            if e + 1 <= s.len() {
                chunks_are_whole_from(s, e + 1, c);
            }
        } else {
            paragraph_ends_with_a_line(s, from);
            let p = chunks::paragraph_end(s, from);
            let rest = chunks::paragraphs_from(s, p + 1);
            if c == 0 {
                let k = choose|k: int| from <= k < e && !lexer::is_space(#[trigger] s[k]);
                if e + 1 < s.len() && !chunks::is_blank(s, e + 1, lexer::line_end(s, e + 1)) {
                    paragraph_ends_with_a_line(s, e + 1);
                }
                assert(from < p);
                assert forall|l: int|
                    from <= l < p && (l == from || #[trigger] s[l - 1] == '\n') implies exists|
                    k: int,
                |
                    l <= k < p && !is_white(#[trigger] s[k]) && forall|j: int|
                        l <= j < k ==> #[trigger] s[j] != '\n' by {
                    paragraphs_hold_no_blank_line(s, from, l);
                }
                if rest.len() > 0 {
                    assert(p + 1 <= s.len());
                    chunks_are_whole_from(s, p + 1, 0);
                    assert(all[1] == rest[0]);
                }
            } else {
                assert(all[c] == rest[c - 1]);
                if c + 1 < all.len() {
                    assert(all[c + 1] == rest[c]);
                }
                chunks_are_whole_from(s, p + 1, c - 1);
            }
        }
    }
}

/// A chunk is a run of whole lines, each of which holds something that is not white
/// space, and the next chunk begins behind it.
pub proof fn chunks_are_whole_lines(s: Seq<char>, c: int)
    requires
        0 <= c < chunks::paragraphs(s).len(),
    ensures
        ({
            let p = chunks::paragraphs(s)[c];
            &&& 0 <= p.0 < p.1 <= s.len()
            &&& p.0 == 0 || s[p.0 - 1] == '\n'
            &&& p.1 < s.len() ==> s[p.1] == '\n'
            &&& forall|l: int|
                p.0 <= l < p.1 && (l == p.0 || #[trigger] s[l - 1] == '\n') ==> exists|k: int|
                    l <= k < p.1 && !is_white(#[trigger] s[k]) && forall|j: int|
                        l <= j < k ==> #[trigger] s[j] != '\n'
            &&& c + 1 < chunks::paragraphs(s).len() ==> p.1 < chunks::paragraphs(s)[c + 1].0
        }),
{
    chunks_are_whole_from(s, 0, c);
}

} // verus!

//! The chunks of a text, and which of them are worth an embedding.
use vstd::prelude::*;
use crate::lexer;
use crate::lexer::chars_of;
use crate::syntax;

verus! {

/// Every character from `lo` to `hi` is white space.
pub open spec fn is_blank(s: Seq<char>, lo: int, hi: int) -> bool {
    forall|i: int| lo <= i < hi ==> lexer::is_space(#[trigger] s[i])
}

/// Where the run of lines ends that begins at `i` and goes on until a blank line.
pub open spec fn paragraph_end(s: Seq<char>, i: int) -> int
    decreases syntax::span(i, s.len() as int),
{
    let e = lexer::line_end(s, i);
    if 0 <= i <= e && e + 1 < s.len() && !is_blank(s, e + 1, lexer::line_end(s, e + 1)) {
        paragraph_end(s, e + 1)
    } else {
        e
    }
}

/// The runs of lines that are not blank, from the line that begins at `i` on.
pub open spec fn paragraphs_from(s: Seq<char>, i: int) -> Seq<(int, int)>
    decreases syntax::span(i, s.len() as int),
{
    let e = lexer::line_end(s, i);
    if !(0 <= i < s.len() && i <= e) {
        Seq::empty()
    } else if is_blank(s, i, e) {
        paragraphs_from(s, e + 1)
    } else {
        let p = paragraph_end(s, i);
        if p < i {
            Seq::empty()
        } else {
            seq![(i, p)] + paragraphs_from(s, p + 1)
        }
    }
}

/// The chunks of a text: the runs of lines between blank ones.
pub open spec fn paragraphs(s: Seq<char>) -> Seq<(int, int)> {
    paragraphs_from(s, 0)
}

/// The places of chunks, as plain values.
pub open spec fn span_models(spans: Seq<(usize, usize)>) -> Seq<(int, int)> {
    spans.map_values(|p: (usize, usize)| (p.0 as int, p.1 as int))
}

/// There are no more chunks than characters.
pub proof fn paragraphs_are_few(s: Seq<char>, from: int)
    ensures
        paragraphs_from(s, from).len() <= syntax::span(from, s.len() as int),
    decreases syntax::span(from, s.len() as int),
{
    let e = lexer::line_end(s, from);
    if 0 <= from < s.len() && from <= e {
        if is_blank(s, from, e) {
            paragraphs_are_few(s, e + 1);
        } else {
            let p = paragraph_end(s, from);
            if p >= from {
                paragraphs_are_few(s, p + 1);
            }
        }
    }
}

proof fn line_ends_inside(s: Seq<char>, i: int)
    requires
        0 <= i <= s.len(),
    ensures
        i <= lexer::line_end(s, i) <= s.len(),
    decreases s.len() - i,
{
    if i < s.len() && s[i] != '\n' {
        line_ends_inside(s, i + 1);
    }
}

proof fn paragraph_ends_inside(s: Seq<char>, i: int)
    requires
        0 <= i <= s.len(),
    ensures
        i <= paragraph_end(s, i) <= s.len(),
    decreases s.len() - i,
{
    line_ends_inside(s, i);
    let e = lexer::line_end(s, i);
    if e + 1 < s.len() && !is_blank(s, e + 1, lexer::line_end(s, e + 1)) {
        paragraph_ends_inside(s, e + 1);
    }
}

/// Every chunk lies within the text.
pub proof fn paragraphs_lie_inside(s: Seq<char>, from: int)
    ensures
        forall|k: int|
            0 <= k < paragraphs_from(s, from).len() ==> 0 <= (#[trigger] paragraphs_from(
                s,
                from,
            )[k]).0 <= paragraphs_from(s, from)[k].1 <= s.len(),
    decreases syntax::span(from, s.len() as int),
{
    let e = lexer::line_end(s, from);
    if 0 <= from < s.len() && from <= e {
        if is_blank(s, from, e) {
            paragraphs_lie_inside(s, e + 1);
            assert(paragraphs_from(s, from) == paragraphs_from(s, e + 1));
        } else {
            let p = paragraph_end(s, from);
            paragraph_ends_inside(s, from);
            paragraphs_lie_inside(s, p + 1);
            let all = paragraphs_from(s, from);
            let rest = paragraphs_from(s, p + 1);
            assert forall|k: int| 0 <= k < all.len() implies 0 <= (#[trigger] all[k]).0
                <= all[k].1 <= s.len() by {
                if k > 0 {
                    assert(all[k] == rest[k - 1]);
                }
            }
        }
    } else {
        assert(paragraphs_from(s, from).len() == 0);
    }
}

fn space_char(c: char) -> (r: bool)
    ensures
        r == lexer::is_space(c),
{
    c == ' ' || c == '\n' || c == '\t' || c == '\r'
}

fn blank(s: &Vec<char>, lo: usize, hi: usize) -> (r: bool)
    requires
        lo <= hi <= s.len(),
    ensures
        r == is_blank(s@, lo as int, hi as int),
{
    let mut i: usize = lo;
    while i < hi
        invariant
            lo <= i <= hi <= s.len(),
            is_blank(s@, lo as int, i as int),
        decreases hi - i,
    {
        if !space_char(s[i]) {
            return false;
        }
        i += 1;
    }
    true
}

fn end_of_line(s: &Vec<char>, start: usize) -> (r: usize)
    requires
        start <= s.len(),
    ensures
        r == lexer::line_end(s@, start as int),
        start <= r <= s.len(),
{
    let mut i: usize = start;
    while i < s.len() && s[i] != '\n'
        invariant
            start <= i <= s.len(),
            lexer::line_end(s@, start as int) == lexer::line_end(s@, i as int),
        decreases s.len() - i,
    {
        i += 1;
    }
    i
}

fn end_of_paragraph(s: &Vec<char>, start: usize) -> (r: usize)
    requires
        start < s.len(),
    ensures
        r == paragraph_end(s@, start as int),
        start <= r <= s.len(),
{
    let mut i: usize = start;
    loop
        invariant
            start <= i < s.len(),
            paragraph_end(s@, start as int) == paragraph_end(s@, i as int),
        decreases s.len() - i,
    {
        let e = end_of_line(s, i);
        if e >= s.len() || e + 1 >= s.len() {
            return e;
        }
        let f = end_of_line(s, e + 1);
        if blank(s, e + 1, f) {
            return e;
        }
        i = e + 1;
    }
}

/// The places of the chunks of a text.
pub fn find_paragraphs(s: &Vec<char>) -> (r: Vec<(usize, usize)>)
    ensures
        span_models(r@) == paragraphs(s@),
        forall|i: int| 0 <= i < r.len() ==> (#[trigger] r@[i]).0 <= r@[i].1 <= s.len(),
{
    let mut r: Vec<(usize, usize)> = Vec::new();
    let mut i: usize = 0;
    assert(span_models(r@) + paragraphs_from(s@, 0) =~= paragraphs(s@));
    while i < s.len()
        invariant
            i <= s.len(),
            span_models(r@) + paragraphs_from(s@, i as int) == paragraphs(s@),
            forall|j: int| 0 <= j < r.len() ==> (#[trigger] r@[j]).0 <= r@[j].1 <= s.len(),
        decreases s.len() - i,
    {
        let e = end_of_line(s, i);
        if blank(s, i, e) {
            if e >= s.len() {
                assert(paragraphs_from(s@, e + 1) =~= Seq::empty());
                assert(span_models(r@) + paragraphs_from(s@, i as int) =~= span_models(r@));
                return r;
            }
            i = e + 1;
        } else {
            let p = end_of_paragraph(s, i);
            let ghost sofar = span_models(r@);
            r.push((i, p));
            proof {
                assert(span_models(r@) =~= sofar.push((i as int, p as int)));
                assert(sofar + (seq![(i as int, p as int)] + paragraphs_from(s@, p + 1))
                    =~= span_models(r@) + paragraphs_from(s@, p + 1));
            }
            if p >= s.len() {
                assert(paragraphs_from(s@, p + 1) =~= Seq::empty());
                assert(span_models(r@) + paragraphs_from(s@, p + 1) =~= span_models(r@));
                return r;
            }
            i = p + 1;
        }
    }
    assert(paragraphs_from(s@, i as int) =~= Seq::empty());
    assert(span_models(r@) + paragraphs_from(s@, i as int) =~= span_models(r@));
    r
}

/// The word stands at `i`.
pub open spec fn begins_at(s: Seq<char>, i: int, word: Seq<char>) -> bool {
    0 <= i && i + word.len() <= s.len() && s.subrange(i, i + word.len()) == word
}

/// The word stands somewhere in the text.
pub open spec fn holds(s: Seq<char>, word: Seq<char>) -> bool {
    exists|i: int| #[trigger] begins_at(s, i, word)
}

/// Whether the word stands at `i`.
pub fn begins(s: &Vec<char>, i: usize, word: &str) -> (r: bool)
    ensures
        r == begins_at(s@, i as int, word@),
{
    let w = chars_of(word);
    if i > s.len() || w.len() > s.len() - i {
        return false;
    }
    let mut k: usize = 0;
    while k < w.len()
        invariant
            k <= w.len(),
            w@ == word@,
            i + w.len() <= s.len(),
            forall|j: int| 0 <= j < k ==> s@[i + j] == w@[j],
        decreases w.len() - k,
    {
        if s[i + k] != w[k] {
            proof {
                assert(s@.subrange(i as int, i + w@.len())[k as int] == s@[i + k]);
            }
            return false;
        }
        k += 1;
    }
    assert(s@.subrange(i as int, i + w@.len()) =~= w@);
    true
}

/// Whether the word stands somewhere in the text.
pub fn holds_word(s: &Vec<char>, word: &str) -> (r: bool)
    ensures
        r == holds(s@, word@),
{
    let mut i: usize = 0;
    loop
        invariant
            i <= s.len(),
            forall|j: int| 0 <= j < i ==> !#[trigger] begins_at(s@, j, word@),
        decreases s.len() - i,
    {
        if begins(s, i, word) {
            return true;
        }
        if i >= s.len() {
            assert forall|j: int| !#[trigger] begins_at(s@, j, word@) by {
                if j > i {
                    assert(j + word@.len() > s@.len());
                }
            }
            return false;
        }
        i += 1;
    }
}

/// The text holds a mark of test code: a test-only item, or a call of a test.
/// Capital letters count as written.
pub open spec fn is_test_code(s: Seq<char>) -> bool {
    holds(s, "#[cfg(test)]"@) || holds(s, "test("@)
}

/// Whether the text holds a mark of test code.
pub fn has_test_code(text: &str) -> (r: bool)
    ensures
        r == is_test_code(text@),
{
    let s = chars_of(text);
    holds_word(&s, "#[cfg(test)]") || holds_word(&s, "test(")
}

/// What is done with a chunk when embeddings are made.
#[derive(Clone, Copy, PartialEq, Eq, Structural, Debug)]
pub enum EmbeddingPolicy {
    /// It gets an embedding.
    Embed,
    /// It belongs to a generated file.
    SkipGenerated,
    /// It is longer than the cap.
    SkipTooLarge,
    /// It is too short to mean anything.
    SkipTooSmall,
    /// It holds imports and comments alone.
    SkipLowSignal,
}

/// The name of a policy.
pub open spec fn policy_name(p: EmbeddingPolicy) -> Seq<char> {
    match p {
        EmbeddingPolicy::Embed => "Embed"@,
        EmbeddingPolicy::SkipGenerated => "SkipGenerated"@,
        EmbeddingPolicy::SkipTooLarge => "SkipTooLarge"@,
        EmbeddingPolicy::SkipTooSmall => "SkipTooSmall"@,
        EmbeddingPolicy::SkipLowSignal => "SkipLowSignal"@,
    }
}

impl EmbeddingPolicy {
    /// The name of the policy.
    pub fn as_str(&self) -> (r: &'static str)
        ensures
            r@ == policy_name(*self),
    {
        match self {
            EmbeddingPolicy::Embed => "Embed",
            EmbeddingPolicy::SkipGenerated => "SkipGenerated",
            EmbeddingPolicy::SkipTooLarge => "SkipTooLarge",
            EmbeddingPolicy::SkipTooSmall => "SkipTooSmall",
            EmbeddingPolicy::SkipLowSignal => "SkipLowSignal",
        }
    }
}

/// The cap on the length of a chunk that is used unless another is asked for.
pub const DEFAULT_MAX_EMBEDDING_CHARS: usize = 8000;

/// A chunk with fewer characters gets no embedding.
pub const MIN_EMBEDDING_CHARS: usize = 40;

/// Where the white space that begins at `i` ends.
pub open spec fn space_end(s: Seq<char>, i: int) -> int
    decreases s.len() - i,
{
    if 0 <= i < s.len() && lexer::is_space(s[i]) {
        space_end(s, i + 1)
    } else {
        i
    }
}

/// What stands at `i` is an import or a comment.
pub open spec fn is_noise(s: Seq<char>, i: int) -> bool {
    ||| begins_at(s, i, "use "@)
    ||| begins_at(s, i, "import "@)
    ||| begins_at(s, i, "//"@)
}

/// Some line from `i` on is neither blank nor an import nor a comment.
pub open spec fn has_signal(s: Seq<char>, i: int) -> bool
    decreases syntax::span(i, s.len() as int),
{
    let j = space_end(s, i);
    if !(0 <= i <= j < s.len()) {
        false
    } else if is_noise(s, j) {
        let e = lexer::line_end(s, j);
        if e < j {
            false
        } else {
            has_signal(s, e + 1)
        }
    } else {
        true
    }
}

/// The policy of a chunk with the text. The cap comes first, so that a chunk of
/// a generated file that is over it counts as too large.
pub open spec fn classified(s: Seq<char>, generated: bool, cap: nat) -> EmbeddingPolicy {
    if s.len() > cap {
        EmbeddingPolicy::SkipTooLarge
    } else if generated {
        EmbeddingPolicy::SkipGenerated
    } else if s.len() < MIN_EMBEDDING_CHARS {
        EmbeddingPolicy::SkipTooSmall
    } else if !has_signal(s, 0) {
        EmbeddingPolicy::SkipLowSignal
    } else {
        EmbeddingPolicy::Embed
    }
}

/// How urgent an embedding of the chunk is: code that others can call first.
pub open spec fn priority_of(s: Seq<char>, policy: EmbeddingPolicy) -> u64 {
    if policy != EmbeddingPolicy::Embed {
        0
    } else if holds(s, "pub "@) {
        2
    } else {
        1
    }
}

fn skip_space(s: &Vec<char>, start: usize) -> (r: usize)
    requires
        start <= s.len(),
    ensures
        r == space_end(s@, start as int),
        start <= r <= s.len(),
{
    let mut i: usize = start;
    while i < s.len() && space_char(s[i])
        invariant
            start <= i <= s.len(),
            space_end(s@, start as int) == space_end(s@, i as int),
        decreases s.len() - i,
    {
        i += 1;
    }
    i
}

fn signal(s: &Vec<char>) -> (r: bool)
    ensures
        r == has_signal(s@, 0),
{
    let mut i: usize = 0;
    loop
        invariant
            i <= s.len(),
            has_signal(s@, 0) == has_signal(s@, i as int),
        decreases s.len() - i,
    {
        let j = skip_space(s, i);
        if j >= s.len() {
            return false;
        }
        if !(begins(s, j, "use ") || begins(s, j, "import ") || begins(s, j, "//")) {
            return true;
        }
        let e = end_of_line(s, j);
        if e >= s.len() {
            assert(!has_signal(s@, e + 1));
            return false;
        }
        i = e + 1;
    }
}

/// The policy of a chunk with the text.
pub fn classify(text: &str, generated: bool, cap: usize) -> (r: EmbeddingPolicy)
    ensures
        r == classified(text@, generated, cap as nat),
{
    let s = chars_of(text);
    if s.len() > cap {
        EmbeddingPolicy::SkipTooLarge
    } else if generated {
        EmbeddingPolicy::SkipGenerated
    } else if s.len() < MIN_EMBEDDING_CHARS {
        EmbeddingPolicy::SkipTooSmall
    } else if !signal(&s) {
        EmbeddingPolicy::SkipLowSignal
    } else {
        EmbeddingPolicy::Embed
    }
}

/// How urgent an embedding of the chunk is.
pub fn prioritise(text: &str, policy: EmbeddingPolicy) -> (r: u64)
    ensures
        r == priority_of(text@, policy),
{
    if policy != EmbeddingPolicy::Embed {
        return 0;
    }
    let s = chars_of(text);
    if holds_word(&s, "pub ") {
        2
    } else {
        1
    }
}

/// The line that begins at `i` says something, and begins to say it at `j`: what
/// stands there is no white space, and no import and no comment begins there.
pub open spec fn says_something(s: Seq<char>, i: int, j: int) -> bool {
    &&& 0 <= i <= j < s.len()
    &&& i == 0 || s[i - 1] == '\n'
    &&& forall|k: int|
        i <= k < j ==> (#[trigger] s[k] == ' ' || s[k] == '\t' || s[k] == '\r')
    &&& s[j] != ' ' && s[j] != '\t' && s[j] != '\r' && s[j] != '\n'
    &&& !(j + 4 <= s.len() && s[j] == 'u' && s[j + 1] == 's' && s[j + 2] == 'e' && s[j + 3] == ' ')
    &&& !(j + 7 <= s.len() && s[j] == 'i' && s[j + 1] == 'm' && s[j + 2] == 'p' && s[j + 3] == 'o'
        && s[j + 4] == 'r' && s[j + 5] == 't' && s[j + 6] == ' ')
    &&& !(j + 2 <= s.len() && s[j] == '/' && s[j + 1] == '/')
}

proof fn noise_is_spelled(s: Seq<char>, j: int)
    requires
        0 <= j < s.len(),
    ensures
        is_noise(s, j) == ((j + 4 <= s.len() && s[j] == 'u' && s[j + 1] == 's' && s[j + 2] == 'e'
            && s[j + 3] == ' ') || (j + 7 <= s.len() && s[j] == 'i' && s[j + 1] == 'm' && s[j + 2]
            == 'p' && s[j + 3] == 'o' && s[j + 4] == 'r' && s[j + 5] == 't' && s[j + 6] == ' ') || (
        j + 2 <= s.len() && s[j] == '/' && s[j + 1] == '/')),
{
    reveal_strlit("use ");
    reveal_strlit("import ");
    reveal_strlit("//");
    if j + 4 <= s.len() {
        let t = s.subrange(j, j + 4);
        assert(t[0] == s[j] && t[1] == s[j + 1] && t[2] == s[j + 2] && t[3] == s[j + 3]);
        assert(t =~= "use "@ <==> (t[0] == 'u' && t[1] == 's' && t[2] == 'e' && t[3] == ' '));
    }
    if j + 7 <= s.len() {
        let t = s.subrange(j, j + 7);
        assert(t[0] == s[j] && t[1] == s[j + 1] && t[2] == s[j + 2] && t[3] == s[j + 3] && t[4]
            == s[j + 4] && t[5] == s[j + 5] && t[6] == s[j + 6]);
        assert(t =~= "import "@ <==> (t[0] == 'i' && t[1] == 'm' && t[2] == 'p' && t[3] == 'o'
            && t[4] == 'r' && t[5] == 't' && t[6] == ' '));
    }
    if j + 2 <= s.len() {
        let t = s.subrange(j, j + 2);
        assert(t[0] == s[j] && t[1] == s[j + 1]);
        assert(t =~= "//"@ <==> (t[0] == '/' && t[1] == '/'));
    }
}

proof fn space_ends_inside(s: Seq<char>, i: int)
    requires
        0 <= i <= s.len(),
    ensures
        i <= space_end(s, i) <= s.len(),
        forall|k: int| i <= k < space_end(s, i) ==> lexer::is_space(#[trigger] s[k]),
        space_end(s, i) < s.len() ==> !lexer::is_space(s[space_end(s, i)]),
    decreases s.len() - i,
{
    if i < s.len() && lexer::is_space(s[i]) {
        space_ends_inside(s, i + 1);
    }
}

pub(crate) proof fn line_ends_at_break(s: Seq<char>, i: int)
    requires
        0 <= i <= s.len(),
    ensures
        i <= lexer::line_end(s, i) <= s.len(),
        forall|k: int| i <= k < lexer::line_end(s, i) ==> #[trigger] s[k] != '\n',
        lexer::line_end(s, i) < s.len() ==> s[lexer::line_end(s, i)] == '\n',
    decreases s.len() - i,
{
    if i < s.len() && s[i] != '\n' {
        line_ends_at_break(s, i + 1);
    }
}

proof fn last_line_start(s: Seq<char>, i: int, j: int) -> (a: int)
    requires
        0 <= i <= j <= s.len(),
        i == 0 || s[i - 1] == '\n',
    ensures
        i <= a <= j,
        a == 0 || s[a - 1] == '\n',
        forall|k: int| a <= k < j ==> #[trigger] s[k] != '\n',
    decreases j - i,
{
    if i == j || s[j - 1] == '\n' {
        j
    } else {
        last_line_start(s, i, j - 1)
    }
}

proof fn signal_is_a_line(s: Seq<char>, i: int)
    requires
        0 <= i <= s.len(),
        i == 0 || s[i - 1] == '\n',
        has_signal(s, i),
    ensures
        exists|a: int, j: int| says_something(s, a, j),
    decreases s.len() - i,
{
    space_ends_inside(s, i);
    let j = space_end(s, i);
    noise_is_spelled(s, j);
    if is_noise(s, j) {
        line_ends_at_break(s, j);
        let e = lexer::line_end(s, j);
        assert(has_signal(s, e + 1));
        signal_is_a_line(s, e + 1);
    } else {
        let a = last_line_start(s, i, j);
        assert(says_something(s, a, j));
    }
}

proof fn a_line_is_signal(s: Seq<char>, i: int, a: int, k: int)
    requires
        0 <= i <= a,
        i == 0 || s[i - 1] == '\n',
        says_something(s, a, k),
    ensures
        has_signal(s, i),
    decreases s.len() - i,
{
    space_ends_inside(s, i);
    let j = space_end(s, i);
    if j > k {
        assert(lexer::is_space(s[k]));
    }
    noise_is_spelled(s, j);
    noise_is_spelled(s, k);
    if is_noise(s, j) {
        assert(j < k);
        if j >= a {
            assert(lexer::is_space(s[j]));
        }
        line_ends_at_break(s, j);
        if lexer::line_end(s, j) >= a {
            assert(s[a - 1] != '\n');
        }
        a_line_is_signal(s, lexer::line_end(s, j) + 1, a, k);
    }
}

/// What is embedded is exactly a chunk that nobody generated, of forty characters
/// or more and no more than the cap, in which some line says something. Of the
/// chunks that are left, one in which no line does has too little signal.
pub proof fn what_says_something_is_embedded(s: Seq<char>, generated: bool, cap: nat)
    ensures
        classified(s, generated, cap) == EmbeddingPolicy::Embed <==> !generated && 40 <= s.len()
            <= cap && exists|i: int, j: int| says_something(s, i, j),
        classified(s, generated, cap) == EmbeddingPolicy::SkipLowSignal <==> !generated && 40
            <= s.len() <= cap && forall|i: int, j: int| !says_something(s, i, j),
        classified(s, generated, cap) == EmbeddingPolicy::SkipTooSmall <==> !generated && s.len()
            <= cap && s.len() < 40,
        classified(s, generated, cap) == EmbeddingPolicy::SkipGenerated <==> generated && s.len()
            <= cap,
        classified(s, generated, cap) == EmbeddingPolicy::SkipTooLarge <==> s.len() > cap,
{
    if has_signal(s, 0) {
        signal_is_a_line(s, 0);
    } else if exists|i: int, j: int| says_something(s, i, j) {
        let (i, j) = choose|i: int, j: int| says_something(s, i, j);
        a_line_is_signal(s, 0, i, j);
    }
}

/// A higher cap never makes a chunk too large that was not, and changes nothing
/// about a chunk that both caps admit.
pub proof fn caps_are_monotonic(s: Seq<char>, generated: bool, low: nat, high: nat)
    requires
        low <= high,
    ensures
        classified(s, generated, high) == EmbeddingPolicy::SkipTooLarge ==> classified(
            s,
            generated,
            low,
        ) == EmbeddingPolicy::SkipTooLarge,
        classified(s, generated, low) != EmbeddingPolicy::SkipTooLarge ==> classified(
            s,
            generated,
            low,
        ) == classified(s, generated, high),
{
}

} // verus!

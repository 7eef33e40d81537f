//! The tokens of source text in the languages that functions are read of. Comments
//! and white space are left out.
use vstd::prelude::*;

verus! {

/// How a text is cut into tokens.
#[derive(Clone, Copy, PartialEq, Eq, Structural, Debug)]
pub enum Dialect {
    Rust,
    TypeScript,
    Python,
}

/// What a token is.
#[derive(Clone, Copy, PartialEq, Eq, Structural, Debug)]
pub enum Kind {
    /// A name or a keyword.
    Word,
    /// A lifetime or a loop label.
    Lifetime,
    /// A number.
    Number,
    /// A string or a character.
    Literal,
    /// An operator, a bracket or another mark.
    Mark,
}

/// A token: its text, and where in the source it begins and ends, in characters.
pub struct Token {
    pub kind: Kind,
    pub text: String,
    pub start: usize,
    pub end: usize,
}

/// What a [`Token`] holds, as plain values.
#[verifier::ext_equal]
pub struct TokenModel {
    pub kind: Kind,
    pub text: Seq<char>,
    pub start: int,
    pub end: int,
}

impl View for Token {
    type V = TokenModel;

    open spec fn view(&self) -> TokenModel {
        TokenModel {
            kind: self.kind,
            text: self.text@,
            start: self.start as int,
            end: self.end as int,
        }
    }
}

pub open spec fn token_models(rows: Seq<Token>) -> Seq<TokenModel> {
    rows.map_values(|r: Token| r@)
}

pub open spec fn is_space(c: char) -> bool {
    c == ' ' || c == '\n' || c == '\t' || c == '\r'
}

pub open spec fn is_digit(c: char) -> bool {
    '0' as int <= c as int <= '9' as int
}

pub open spec fn is_upper(c: char) -> bool {
    'A' as int <= c as int <= 'Z' as int
}

/// The character may begin a name.
pub open spec fn is_word_start(c: char) -> bool {
    is_upper(c) || 'a' as int <= c as int <= 'z' as int || c == '_' || c as int >= 128
}

/// The character may go on with a name.
pub open spec fn is_word_part(c: char) -> bool {
    is_word_start(c) || is_digit(c)
}

/// The character at `i`, and a space past the end.
pub open spec fn char_at(s: Seq<char>, i: int) -> char {
    if 0 <= i < s.len() {
        s[i]
    } else {
        ' '
    }
}

/// Where the word characters that begin at `i` end.
pub open spec fn word_end(s: Seq<char>, i: int) -> int
    decreases s.len() - i,
{
    if 0 <= i < s.len() && is_word_part(s[i]) {
        word_end(s, i + 1)
    } else {
        i
    }
}

/// Where a number that goes on at `i` ends: at the first character that is
/// neither part of a word nor a point with a digit behind it.
pub open spec fn number_end(s: Seq<char>, i: int) -> int
    decreases s.len() - i,
{
    if 0 <= i < s.len() && (is_word_part(s[i]) || (s[i] == '.' && is_digit(char_at(s, i + 1)))) {
        number_end(s, i + 1)
    } else {
        i
    }
}

/// Where a line ends that goes on at `i`.
pub open spec fn line_end(s: Seq<char>, i: int) -> int
    decreases s.len() - i,
{
    if 0 <= i < s.len() && s[i] != '\n' {
        line_end(s, i + 1)
    } else {
        i
    }
}

/// Where a comment ends of which `depth` beginnings are open at `i`.
pub open spec fn comment_end(s: Seq<char>, i: int, depth: nat) -> int
    decreases s.len() - i,
{
    if depth == 0 || !(0 <= i < s.len()) {
        i
    } else if s[i] == '*' && char_at(s, i + 1) == '/' {
        comment_end(s, i + 2, (depth - 1) as nat)
    } else if s[i] == '/' && char_at(s, i + 1) == '*' {
        comment_end(s, i + 2, depth + 1)
    } else {
        comment_end(s, i + 1, depth)
    }
}

/// Where a comment ends that goes on at `i` and holds no other comment.
pub open spec fn flat_end(s: Seq<char>, i: int) -> int
    decreases s.len() - i,
{
    if !(0 <= i < s.len()) {
        i
    } else if s[i] == '*' && char_at(s, i + 1) == '/' {
        i + 2
    } else {
        flat_end(s, i + 1)
    }
}

/// Where a text that goes on at `i` ends: behind the next three of `quote` that
/// no backslash stands before.
pub open spec fn triple_end(s: Seq<char>, i: int, quote: char) -> int
    decreases s.len() - i,
{
    if !(0 <= i < s.len()) {
        i
    } else if s[i] == '\\' && i + 1 < s.len() {
        triple_end(s, i + 2, quote)
    } else if s[i] == quote && char_at(s, i + 1) == quote && char_at(s, i + 2) == quote {
        i + 3
    } else {
        triple_end(s, i + 1, quote)
    }
}

/// Where a quoted text that goes on at `i` ends: behind the next `quote` that no
/// backslash stands before.
pub open spec fn quote_end(s: Seq<char>, i: int, quote: char) -> int
    decreases s.len() - i,
{
    if !(0 <= i < s.len()) {
        i
    } else if s[i] == '\\' && i + 1 < s.len() {
        quote_end(s, i + 2, quote)
    } else if s[i] == quote {
        i + 1
    } else {
        quote_end(s, i + 1, quote)
    }
}

/// How many `#` stand at `i`.
pub open spec fn hashes(s: Seq<char>, i: int) -> nat
    decreases s.len() - i,
{
    if 0 <= i < s.len() && s[i] == '#' {
        hashes(s, i + 1) + 1
    } else {
        0
    }
}

/// Where a raw string that goes on at `i` ends: behind the next quote that `n`
/// times `#` follow.
pub open spec fn raw_end(s: Seq<char>, i: int, n: nat) -> int
    decreases s.len() - i,
{
    if !(0 <= i < s.len()) {
        i
    } else if s[i] == '"' && hashes(s, i + 1) >= n {
        i + 1 + n
    } else {
        raw_end(s, i + 1, n)
    }
}

/// The prefix of a literal: nothing, or what marks it as raw or as bytes.
pub open spec fn is_literal_prefix(w: Seq<char>) -> bool {
    w == seq!['r'] || w == seq!['b'] || w == seq!['b', 'r'] || w == seq!['c'] || w == seq!['c', 'r']
}

/// The prefix marks a raw literal.
pub open spec fn is_raw_prefix(w: Seq<char>) -> bool {
    is_literal_prefix(w) && w.last() == 'r'
}

/// The three characters make one mark.
pub open spec fn is_mark3(a: char, b: char, c: char) -> bool {
    ||| a == '<' && b == '<' && c == '='
    ||| a == '>' && b == '>' && c == '='
    ||| a == '.' && b == '.' && c == '='
    ||| a == '.' && b == '.' && c == '.'
}

/// The two characters make one mark.
pub open spec fn is_mark2(a: char, b: char) -> bool {
    ||| a == ':' && b == ':'
    ||| a == '-' && b == '>'
    ||| a == '=' && (b == '>' || b == '=')
    ||| a == '&' && b == '&'
    ||| a == '|' && b == '|'
    ||| a == '<' && b == '<'
    ||| a == '>' && b == '>'
    ||| a == '.' && b == '.'
    ||| b == '=' && (a == '!' || a == '<' || a == '>' || a == '+' || a == '-' || a == '*' || a
        == '/' || a == '%' || a == '^' || a == '&' || a == '|')
}

/// The kind and the end of a mark at `i`.
pub open spec fn mark_at(s: Seq<char>, i: int) -> (Kind, int) {
    let c = s[i];
    let d = char_at(s, i + 1);
    if is_mark3(c, d, char_at(s, i + 2)) {
        (Kind::Mark, i + 3)
    } else if is_mark2(c, d) {
        (Kind::Mark, i + 2)
    } else {
        (Kind::Mark, i + 1)
    }
}

/// The kind and the end of the token of Rust at `i`.
pub open spec fn rust_token_at(s: Seq<char>, i: int) -> (Kind, int) {
    let c = s[i];
    let d = char_at(s, i + 1);
    if is_word_start(c) {
        let e = word_end(s, i);
        let w = s.subrange(i, e);
        let n = hashes(s, e);
        if is_raw_prefix(w) && char_at(s, e + n) == '"' {
            (Kind::Literal, raw_end(s, e + n + 1, n))
        } else if is_literal_prefix(w) && (char_at(s, e) == '"' || char_at(s, e) == '\'') {
            (Kind::Literal, quote_end(s, e + 1, s[e]))
        } else {
            (Kind::Word, e)
        }
    } else if is_digit(c) {
        (Kind::Number, number_end(s, i))
    } else if c == '"' {
        (Kind::Literal, quote_end(s, i + 1, '"'))
    } else if c == '\'' {
        if d == '\\' {
            (Kind::Literal, quote_end(s, i + 1, '\''))
        } else if char_at(s, i + 2) == '\'' {
            (Kind::Literal, i + 3)
        } else {
            (Kind::Lifetime, word_end(s, i + 1))
        }
    } else {
        mark_at(s, i)
    }
}

/// The character begins a text of the dialect.
pub open spec fn is_quote(c: char, dialect: Dialect) -> bool {
    c == '"' || c == '\'' || (c == '`' && dialect == Dialect::TypeScript)
}

/// The kind and the end of the token of a scripting language at `i`.
pub open spec fn script_token_at(s: Seq<char>, i: int, dialect: Dialect) -> (Kind, int) {
    let c = s[i];
    if is_word_start(c) {
        (Kind::Word, word_end(s, i))
    } else if is_digit(c) {
        (Kind::Number, number_end(s, i))
    } else if is_quote(c, dialect) {
        if dialect == Dialect::Python && char_at(s, i + 1) == c && char_at(s, i + 2) == c {
            (Kind::Literal, triple_end(s, i + 3, c))
        } else {
            (Kind::Literal, quote_end(s, i + 1, c))
        }
    } else {
        mark_at(s, i)
    }
}

/// The kind and the end of the token at `i`.
pub open spec fn token_at(s: Seq<char>, i: int, dialect: Dialect) -> (Kind, int) {
    if dialect == Dialect::Rust {
        rust_token_at(s, i)
    } else {
        script_token_at(s, i, dialect)
    }
}

/// The end of a token, never past the end of the text nor at its beginning.
pub open spec fn token_end(s: Seq<char>, i: int, dialect: Dialect) -> int {
    let e = token_at(s, i, dialect).1;
    if e > s.len() {
        s.len() as int
    } else if e <= i {
        i + 1
    } else {
        e
    }
}

/// A comment begins at `i`.
pub open spec fn is_comment(s: Seq<char>, i: int, dialect: Dialect) -> bool {
    if dialect == Dialect::Python {
        char_at(s, i) == '#'
    } else {
        char_at(s, i) == '/' && (char_at(s, i + 1) == '/' || char_at(s, i + 1) == '*')
    }
}

/// Where a comment that begins at `i` ends, never past the end of the text.
pub open spec fn skipped_comment(s: Seq<char>, i: int, dialect: Dialect) -> int {
    let e = if dialect == Dialect::Python {
        line_end(s, i + 1)
    } else if char_at(s, i + 1) == '/' {
        line_end(s, i + 2)
    } else if dialect == Dialect::TypeScript {
        flat_end(s, i + 2)
    } else {
        comment_end(s, i + 2, 1)
    };
    if e > s.len() {
        s.len() as int
    } else if e <= i {
        i + 1
    } else {
        e
    }
}

/// The tokens from `i` on.
pub open spec fn tokens_from(s: Seq<char>, i: int, dialect: Dialect) -> Seq<TokenModel>
    decreases s.len() - i,
{
    if !(0 <= i < s.len()) {
        Seq::empty()
    } else if is_space(s[i]) {
        tokens_from(s, i + 1, dialect)
    } else if is_comment(s, i, dialect) {
        tokens_from(s, skipped_comment(s, i, dialect), dialect)
    } else {
        let e = token_end(s, i, dialect);
        seq![
            TokenModel {
                kind: token_at(s, i, dialect).0,
                text: s.subrange(i, e),
                start: i,
                end: e,
            },
        ] + tokens_from(s, e, dialect)
    }
}

/// The tokens of a text of Rust.
pub open spec fn tokens(s: Seq<char>) -> Seq<TokenModel> {
    tokens_from(s, 0, Dialect::Rust)
}

/// Every token lies within the text and is not empty.
pub proof fn tokens_are_inside(s: Seq<char>, from: int, dialect: Dialect)
    ensures
        forall|k: int|
            0 <= k < tokens_from(s, from, dialect).len() ==> 0 <= (#[trigger] tokens_from(s, from, dialect)[k]).start
                < tokens_from(s, from, dialect)[k].end <= s.len(),
    decreases s.len() - from,
{
    if !(0 <= from < s.len()) {
    } else if is_space(s[from]) {
        tokens_are_inside(s, from + 1, dialect);
    } else if is_comment(s, from, dialect) {
        tokens_are_inside(s, skipped_comment(s, from, dialect), dialect);
    } else {
        let e = token_end(s, from, dialect);
        tokens_are_inside(s, e, dialect);
        let rest = tokens_from(s, e, dialect);
        assert forall|k: int| 0 <= k < tokens_from(s, from, dialect).len() implies 0 <= (
        #[trigger] tokens_from(s, from, dialect)[k]).start < tokens_from(s, from, dialect)[k].end <= s.len() by {
            if k > 0 {
                assert(tokens_from(s, from, dialect)[k] == rest[k - 1]);
            }
        }
    }
}

/// The text of every token is what stands in its place.
pub proof fn tokens_are_cut_out(s: Seq<char>, from: int, dialect: Dialect)
    ensures
        forall|k: int|
            0 <= k < tokens_from(s, from, dialect).len() ==> (#[trigger] tokens_from(
                s,
                from,
                dialect,
            )[k]).text == s.subrange(
                tokens_from(s, from, dialect)[k].start,
                tokens_from(s, from, dialect)[k].end,
            ),
    decreases s.len() - from,
{
    if !(0 <= from < s.len()) {
    } else if is_space(s[from]) {
        tokens_are_cut_out(s, from + 1, dialect);
    } else if is_comment(s, from, dialect) {
        tokens_are_cut_out(s, skipped_comment(s, from, dialect), dialect);
    } else {
        let e = token_end(s, from, dialect);
        tokens_are_cut_out(s, e, dialect);
        let all = tokens_from(s, from, dialect);
        let rest = tokens_from(s, e, dialect);
        assert forall|k: int| 0 <= k < all.len() implies (#[trigger] all[k]).text == s.subrange(
            all[k].start,
            all[k].end,
        ) by {
            if k > 0 {
                assert(all[k] == rest[k - 1]);
            }
        }
    }
}

/// Every token begins where the one before it ends, or behind that.
pub proof fn tokens_ascend(s: Seq<char>, from: int, dialect: Dialect)
    ensures
        forall|j: int, k: int|
            0 <= j < k < tokens_from(s, from, dialect).len() ==> (#[trigger] tokens_from(
                s,
                from,
                dialect,
            )[j]).end <= (#[trigger] tokens_from(s, from, dialect)[k]).start,
        forall|k: int|
            0 <= k < tokens_from(s, from, dialect).len() ==> from <= (#[trigger] tokens_from(
                s,
                from,
                dialect,
            )[k]).start,
    decreases s.len() - from,
{
    if !(0 <= from < s.len()) {
    } else if is_space(s[from]) {
        tokens_ascend(s, from + 1, dialect);
    } else if is_comment(s, from, dialect) {
        tokens_ascend(s, skipped_comment(s, from, dialect), dialect);
    } else {
        let e = token_end(s, from, dialect);
        tokens_ascend(s, e, dialect);
        let all = tokens_from(s, from, dialect);
        let rest = tokens_from(s, e, dialect);
        assert forall|j: int, k: int| 0 <= j < k < all.len() implies (#[trigger] all[j]).end <= (
        #[trigger] all[k]).start by {
            assert(all[k] == rest[k - 1]);
            if j > 0 {
                assert(all[j] == rest[j - 1]);
            }
        }
        assert forall|k: int| 0 <= k < all.len() implies from <= (#[trigger] all[k]).start by {
            if k > 0 {
                assert(all[k] == rest[k - 1]);
            }
        }
    }
}

/// There are no more tokens than characters.
pub proof fn tokens_are_few(s: Seq<char>, from: int, dialect: Dialect)
    requires
        0 <= from <= s.len(),
    ensures
        tokens_from(s, from, dialect).len() <= s.len() - from,
    decreases s.len() - from,
{
    if from == s.len() {
    } else if is_space(s[from]) {
        tokens_are_few(s, from + 1, dialect);
    } else if is_comment(s, from, dialect) {
        tokens_are_few(s, skipped_comment(s, from, dialect), dialect);
    } else {
        tokens_are_few(s, token_end(s, from, dialect), dialect);
    }
}

/// The characters of a text.
pub fn chars_of(s: &str) -> (r: Vec<char>)
    ensures
        r@ == s@,
{
    let mut r: Vec<char> = Vec::new();
    for c in it: s.chars()
        invariant
            r@ == it.seq().take(it.index() as int),
            it.seq() == s@,
    {
        r.push(c);
        assert(r@ =~= it.seq().take(it.index() + 1));
    }
    assert(r@ =~= s@);
    r
}

fn is_space_char(c: char) -> (r: bool)
    ensures
        r == is_space(c),
{
    c == ' ' || c == '\n' || c == '\t' || c == '\r'
}

fn is_digit_char(c: char) -> (r: bool)
    ensures
        r == is_digit(c),
{
    let n: u32 = c as u32;
    48 <= n && n <= 57
}

/// Whether the character is a capital letter.
pub fn is_upper_char(c: char) -> (r: bool)
    ensures
        r == is_upper(c),
{
    let n: u32 = c as u32;
    65 <= n && n <= 90
}

fn is_word_start_char(c: char) -> (r: bool)
    ensures
        r == is_word_start(c),
{
    let n: u32 = c as u32;
    (65 <= n && n <= 90) || (97 <= n && n <= 122) || c == '_' || n >= 128
}

fn is_word_part_char(c: char) -> (r: bool)
    ensures
        r == is_word_part(c),
{
    is_word_start_char(c) || is_digit_char(c)
}

fn peek(s: &Vec<char>, i: usize, ahead: usize) -> (r: char)
    ensures
        r == char_at(s@, i + ahead),
{
    if i < s.len() && ahead < s.len() - i {
        s[i + ahead]
    } else {
        ' '
    }
}

fn find_word_end(s: &Vec<char>, start: usize) -> (r: usize)
    requires
        start <= s.len(),
    ensures
        r == word_end(s@, start as int),
        start <= r <= s.len(),
        r == start ==> start == s.len() || !is_word_part(s@[start as int]),
{
    let mut i: usize = start;
    while i < s.len() && is_word_part_char(s[i])
        invariant
            start <= i <= s.len(),
            word_end(s@, start as int) == word_end(s@, i as int),
        decreases s.len() - i,
    {
        i += 1;
    }
    i
}

fn find_number_end(s: &Vec<char>, start: usize) -> (r: usize)
    requires
        start <= s.len(),
    ensures
        r == number_end(s@, start as int),
        start <= r <= s.len(),
        r == start ==> start == s.len() || !is_word_part(s@[start as int]),
{
    let mut i: usize = start;
    while i < s.len() && (is_word_part_char(s[i]) || (s[i] == '.' && is_digit_char(peek(s, i, 1))))
        invariant
            start <= i <= s.len(),
            number_end(s@, start as int) == number_end(s@, i as int),
        decreases s.len() - i,
    {
        i += 1;
    }
    i
}

fn find_line_end(s: &Vec<char>, start: usize) -> (r: usize)
    requires
        start <= s.len(),
    ensures
        r == line_end(s@, start as int),
        start <= r <= s.len(),
{
    let mut i: usize = start;
    while i < s.len() && s[i] != '\n'
        invariant
            start <= i <= s.len(),
            line_end(s@, start as int) == line_end(s@, i as int),
        decreases s.len() - i,
    {
        i += 1;
    }
    i
}

fn find_comment_end(s: &Vec<char>, start: usize) -> (r: usize)
    requires
        start <= s.len(),
    ensures
        r == comment_end(s@, start as int, 1),
        start <= r <= s.len(),
{
    let mut i: usize = start;
    let mut depth: usize = 1;
    while depth > 0 && i < s.len()
        invariant
            start <= i <= s.len(),
            depth <= i + 1,
            comment_end(s@, start as int, 1) == comment_end(s@, i as int, depth as nat),
        decreases s.len() - i,
    {
        if s[i] == '*' && peek(s, i, 1) == '/' {
            i += 2;
            depth -= 1;
        } else if s[i] == '/' && peek(s, i, 1) == '*' {
            i += 2;
            depth += 1;
        } else {
            i += 1;
        }
    }
    i
}

fn find_flat_end(s: &Vec<char>, start: usize) -> (r: usize)
    requires
        start <= s.len(),
    ensures
        r == flat_end(s@, start as int),
        start <= r <= s.len(),
{
    let mut i: usize = start;
    while i < s.len()
        invariant
            start <= i <= s.len(),
            flat_end(s@, start as int) == flat_end(s@, i as int),
        decreases s.len() - i,
    {
        if s[i] == '*' && peek(s, i, 1) == '/' {
            return i + 2;
        }
        i += 1;
    }
    i
}

fn find_triple_end(s: &Vec<char>, start: usize, quote: char) -> (r: usize)
    requires
        start <= s.len(),
        !is_space(quote),
    ensures
        r == triple_end(s@, start as int, quote),
        start <= r <= s.len(),
{
    let mut i: usize = start;
    while i < s.len()
        invariant
            start <= i <= s.len(),
            !is_space(quote),
            triple_end(s@, start as int, quote) == triple_end(s@, i as int, quote),
        decreases s.len() - i,
    {
        if s[i] == '\\' && i + 1 < s.len() {
            i += 2;
        } else if s[i] == quote && peek(s, i, 1) == quote && peek(s, i, 2) == quote {
            return i + 3;
        } else {
            i += 1;
        }
    }
    i
}

fn find_quote_end(s: &Vec<char>, start: usize, quote: char) -> (r: usize)
    requires
        start <= s.len(),
    ensures
        r == quote_end(s@, start as int, quote),
        start <= r <= s.len(),
{
    let mut i: usize = start;
    while i < s.len()
        invariant
            start <= i <= s.len(),
            quote_end(s@, start as int, quote) == quote_end(s@, i as int, quote),
        decreases s.len() - i,
    {
        if s[i] == '\\' && i + 1 < s.len() {
            i += 2;
        } else if s[i] == quote {
            return i + 1;
        } else {
            i += 1;
        }
    }
    i
}

fn count_hashes(s: &Vec<char>, start: usize) -> (r: usize)
    requires
        start <= s.len(),
    ensures
        r == hashes(s@, start as int),
        start + r <= s.len(),
{
    let mut i: usize = start;
    while i < s.len() && s[i] == '#'
        invariant
            start <= i <= s.len(),
            hashes(s@, start as int) == hashes(s@, i as int) + (i - start),
        decreases s.len() - i,
    {
        i += 1;
    }
    i - start
}

fn find_raw_end(s: &Vec<char>, start: usize, n: usize) -> (r: usize)
    requires
        start <= s.len(),
    ensures
        r == raw_end(s@, start as int, n as nat),
        start <= r <= s.len(),
{
    let mut i: usize = start;
    while i < s.len()
        invariant
            start <= i <= s.len(),
            raw_end(s@, start as int, n as nat) == raw_end(s@, i as int, n as nat),
        decreases s.len() - i,
    {
        if s[i] == '"' {
            let m: usize = count_hashes(s, i + 1);
            if m >= n {
                return i + 1 + n;
            }
        }
        i += 1;
    }
    i
}

/// The word at `from..to` is the prefix of a literal, and of a raw one.
fn literal_prefix(s: &Vec<char>, from: usize, to: usize) -> (r: (bool, bool))
    requires
        from < to <= s.len(),
    ensures
        r.0 == is_literal_prefix(s@.subrange(from as int, to as int)),
        r.1 == is_raw_prefix(s@.subrange(from as int, to as int)),
{
    let ghost w = s@.subrange(from as int, to as int);
    if to - from == 1 {
        let a: char = s[from];
        proof {
            assert(w[0] == a);
            assert(w == seq!['r'] <==> a == 'r') by {
                if a == 'r' {
                    assert(w =~= seq!['r']);
                }
            }
            assert(w == seq!['b'] <==> a == 'b') by {
                if a == 'b' {
                    assert(w =~= seq!['b']);
                }
            }
            assert(w == seq!['c'] <==> a == 'c') by {
                if a == 'c' {
                    assert(w =~= seq!['c']);
                }
            }
            assert(seq!['b', 'r'].len() == 2 && seq!['c', 'r'].len() == 2);
        }
        (a == 'r' || a == 'b' || a == 'c', a == 'r')
    } else if to - from == 2 {
        let a: char = s[from];
        let b: char = s[from + 1];
        proof {
            assert(w[0] == a && w[1] == b);
            assert(w == seq!['b', 'r'] <==> a == 'b' && b == 'r') by {
                if a == 'b' && b == 'r' {
                    assert(w =~= seq!['b', 'r']);
                }
            }
            assert(w == seq!['c', 'r'] <==> a == 'c' && b == 'r') by {
                if a == 'c' && b == 'r' {
                    assert(w =~= seq!['c', 'r']);
                }
            }
            assert(seq!['r'].len() == 1 && seq!['b'].len() == 1 && seq!['c'].len() == 1);
        }
        let yes: bool = (a == 'b' || a == 'c') && b == 'r';
        (yes, yes)
    } else {
        proof {
            assert(seq!['r'].len() == 1 && seq!['b'].len() == 1 && seq!['c'].len() == 1);
            assert(seq!['b', 'r'].len() == 2 && seq!['c', 'r'].len() == 2);
        }
        (false, false)
    }
}

fn is_mark2_chars(a: char, b: char) -> (r: bool)
    ensures
        r == is_mark2(a, b),
{
    (a == ':' && b == ':') || (a == '-' && b == '>') || (a == '=' && (b == '>' || b == '=')) || (a
        == '&' && b == '&') || (a == '|' && b == '|') || (a == '<' && b == '<') || (a == '>' && b
        == '>') || (a == '.' && b == '.') || (b == '=' && (a == '!' || a == '<' || a == '>' || a
        == '+' || a == '-' || a == '*' || a == '/' || a == '%' || a == '^' || a == '&' || a
        == '|'))
}

fn is_mark3_chars(a: char, b: char, c: char) -> (r: bool)
    ensures
        r == is_mark3(a, b, c),
{
    (a == '<' && b == '<' && c == '=') || (a == '>' && b == '>' && c == '=') || (a == '.' && b
        == '.' && (c == '=' || c == '.'))
}

fn read_mark(s: &Vec<char>, i: usize) -> (r: (Kind, usize))
    requires
        i < s.len(),
    ensures
        r.0 == mark_at(s@, i as int).0,
        r.1 == mark_at(s@, i as int).1,
        i < r.1 <= s.len(),
{
    let c: char = s[i];
    let d: char = peek(s, i, 1);
    if is_mark3_chars(c, d, peek(s, i, 2)) {
        (Kind::Mark, i + 3)
    } else if is_mark2_chars(c, d) {
        (Kind::Mark, i + 2)
    } else {
        (Kind::Mark, i + 1)
    }
}

fn read_rust_token(s: &Vec<char>, i: usize) -> (r: (Kind, usize))
    requires
        i < s.len(),
    ensures
        r.0 == token_at(s@, i as int, Dialect::Rust).0,
        r.1 == token_end(s@, i as int, Dialect::Rust),
        i < r.1 <= s.len(),
{
    let c: char = s[i];
    let d: char = peek(s, i, 1);
    if is_word_start_char(c) {
        let e: usize = find_word_end(s, i);
        let (prefix, raw) = literal_prefix(s, i, e);
        let n: usize = count_hashes(s, e);
        if raw && peek(s, e, n) == '"' {
            (Kind::Literal, find_raw_end(s, e + n + 1, n))
        } else if prefix && (peek(s, e, 0) == '"' || peek(s, e, 0) == '\'') {
            (Kind::Literal, find_quote_end(s, e + 1, s[e]))
        } else {
            (Kind::Word, e)
        }
    } else if is_digit_char(c) {
        (Kind::Number, find_number_end(s, i))
    } else if c == '"' {
        (Kind::Literal, find_quote_end(s, i + 1, '"'))
    } else if c == '\'' {
        if d == '\\' {
            (Kind::Literal, find_quote_end(s, i + 1, '\''))
        } else if peek(s, i, 2) == '\'' {
            (Kind::Literal, i + 3)
        } else {
            (Kind::Lifetime, find_word_end(s, i + 1))
        }
    } else {
        read_mark(s, i)
    }
}

fn read_script_token(s: &Vec<char>, i: usize, dialect: Dialect) -> (r: (Kind, usize))
    requires
        i < s.len(),
        dialect != Dialect::Rust,
    ensures
        r.0 == token_at(s@, i as int, dialect).0,
        r.1 == token_end(s@, i as int, dialect),
        i < r.1 <= s.len(),
{
    let c: char = s[i];
    if is_word_start_char(c) {
        (Kind::Word, find_word_end(s, i))
    } else if is_digit_char(c) {
        (Kind::Number, find_number_end(s, i))
    } else if c == '"' || c == '\'' || (c == '`' && dialect == Dialect::TypeScript) {
        if dialect == Dialect::Python && peek(s, i, 1) == c && peek(s, i, 2) == c {
            (Kind::Literal, find_triple_end(s, i + 3, c))
        } else {
            (Kind::Literal, find_quote_end(s, i + 1, c))
        }
    } else {
        read_mark(s, i)
    }
}

/// The kind and the end of the token at `i`.
fn read_token(s: &Vec<char>, i: usize, dialect: Dialect) -> (r: (Kind, usize))
    requires
        i < s.len(),
    ensures
        r.0 == token_at(s@, i as int, dialect).0,
        r.1 == token_end(s@, i as int, dialect),
        i < r.1 <= s.len(),
{
    if dialect == Dialect::Rust {
        read_rust_token(s, i)
    } else {
        read_script_token(s, i, dialect)
    }
}

fn begins_comment(s: &Vec<char>, i: usize, dialect: Dialect) -> (r: bool)
    ensures
        r == is_comment(s@, i as int, dialect),
{
    if dialect == Dialect::Python {
        peek(s, i, 0) == '#'
    } else {
        peek(s, i, 0) == '/' && (peek(s, i, 1) == '/' || peek(s, i, 1) == '*')
    }
}

fn skip_comment(s: &Vec<char>, i: usize, dialect: Dialect) -> (r: usize)
    requires
        i < s.len(),
        is_comment(s@, i as int, dialect),
    ensures
        r == skipped_comment(s@, i as int, dialect),
        i < r <= s.len(),
{
    if dialect == Dialect::Python {
        find_line_end(s, i + 1)
    } else if peek(s, i, 1) == '/' {
        find_line_end(s, i + 2)
    } else if dialect == Dialect::TypeScript {
        find_flat_end(s, i + 2)
    } else {
        find_comment_end(s, i + 2)
    }
}

/// The tokens of a text of Rust.
pub fn tokenize(source: &str) -> (r: Vec<Token>)
    ensures
        token_models(r@) == tokens(source@),
{
    tokenize_in(source, Dialect::Rust)
}

/// The tokens of a text.
pub fn tokenize_in(source: &str, dialect: Dialect) -> (r: Vec<Token>)
    ensures
        token_models(r@) == tokens_from(source@, 0, dialect),
{
    let s = chars_of(source);
    let ghost goal = tokens_from(source@, 0, dialect);
    let mut r: Vec<Token> = Vec::new();
    let mut i: usize = 0;
    assert(token_models(r@) + tokens_from(s@, 0, dialect) =~= goal);
    while i < s.len()
        invariant
            i <= s.len(),
            s@ == source@,
            token_models(r@) + tokens_from(s@, i as int, dialect) == goal,
        decreases s.len() - i,
    {
        if is_space_char(s[i]) {
            i += 1;
        } else if begins_comment(&s, i, dialect) {
            i = skip_comment(&s, i, dialect);
        } else {
            let (kind, end) = read_token(&s, i, dialect);
            let t = Token {
                kind,
                text: source.substring_char(i, end).to_owned(),
                start: i,
                end,
            };
            let ghost sofar = token_models(r@);
            r.push(t);
            proof {
                assert(token_models(r@) =~= sofar.push(t@));
                assert(sofar + (seq![t@] + tokens_from(s@, end as int, dialect)) =~= sofar.push(t@)
                    + tokens_from(s@, end as int, dialect));
            }
            i = end;
        }
    }
    assert(token_models(r@) + tokens_from(s@, i as int, dialect) =~= token_models(r@));
    r
}

} // verus!

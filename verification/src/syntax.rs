//! The shape of Rust source: bracketed groups, the items of a file, and the
//! parts that expressions and patterns are made of.
use vstd::prelude::*;
use crate::lexer;
use crate::lexer::{is_upper_char, tokenize_in, Dialect, Kind, Token, TokenModel};

verus! {

/// The token at `i` is this word or mark.
pub open spec fn at(toks: Seq<TokenModel>, i: int, s: Seq<char>) -> bool {
    0 <= i < toks.len() && toks[i].kind != Kind::Literal && toks[i].text == s
}

/// The token at `i` is a name or a keyword.
pub open spec fn word_at(toks: Seq<TokenModel>, i: int) -> bool {
    0 <= i < toks.len() && toks[i].kind == Kind::Word
}

/// The token at `i` is a name that begins with a capital letter.
pub open spec fn capital_at(toks: Seq<TokenModel>, i: int) -> bool {
    word_at(toks, i) && toks[i].text.len() > 0 && lexer::is_upper(toks[i].text[0])
}

/// The token at `i` opens a group.
pub open spec fn opens(toks: Seq<TokenModel>, i: int) -> bool {
    at(toks, i, "("@) || at(toks, i, "["@) || at(toks, i, "{"@)
}

/// The token at `i` closes a group.
pub open spec fn closes(toks: Seq<TokenModel>, i: int) -> bool {
    at(toks, i, ")"@) || at(toks, i, "]"@) || at(toks, i, "}"@)
}

/// The place behind the bracket that closes the last of `depth` groups open at
/// `i`, and the end where none does.
pub open spec fn group_end(toks: Seq<TokenModel>, i: int, depth: nat) -> int
    decreases toks.len() - i,
{
    if !(0 <= i < toks.len()) {
        toks.len() as int
    } else if opens(toks, i) {
        group_end(toks, i + 1, depth + 1)
    } else if closes(toks, i) {
        if depth <= 1 {
            i + 1
        } else {
            group_end(toks, i + 1, (depth - 1) as nat)
        }
    } else {
        group_end(toks, i + 1, depth)
    }
}

/// The place behind the token at `i`, or behind the group that it opens.
pub open spec fn after(toks: Seq<TokenModel>, i: int) -> int {
    if opens(toks, i) {
        group_end(toks, i + 1, 1)
    } else {
        i + 1
    }
}

/// The same, but not past `hi`.
pub open spec fn next(toks: Seq<TokenModel>, i: int, hi: int) -> int {
    if after(toks, i) < hi {
        after(toks, i)
    } else {
        hi
    }
}

pub(crate) proof fn group_end_bounds(toks: Seq<TokenModel>, i: int, depth: nat)
    requires
        0 <= i <= toks.len(),
    ensures
        i <= group_end(toks, i, depth) <= toks.len(),
        i < toks.len() ==> i < group_end(toks, i, depth),
    decreases toks.len() - i,
{
    if i < toks.len() {
        if opens(toks, i) {
            group_end_bounds(toks, i + 1, depth + 1);
        } else if closes(toks, i) {
            if depth > 1 {
                group_end_bounds(toks, i + 1, (depth - 1) as nat);
            }
        } else {
            group_end_bounds(toks, i + 1, depth);
        }
    }
}

/// The next place lies ahead.
pub broadcast proof fn next_is_ahead(toks: Seq<TokenModel>, i: int, hi: int)
    requires
        i < hi,
    ensures
        i < #[trigger] next(toks, i, hi) <= hi,
{
    if opens(toks, i) {
        group_end_bounds(toks, i + 1, 1);
    }
}

/// The first place in `lo..hi`, outside of any group, that holds this word or
/// mark, and `hi` where none does.
pub open spec fn find(toks: Seq<TokenModel>, lo: int, hi: int, s: Seq<char>) -> int
    decreases hi - lo,
    via find_decreases
{
    if lo >= hi {
        hi
    } else if at(toks, lo, s) {
        lo
    } else {
        find(toks, next(toks, lo, hi), hi, s)
    }
}

#[via_fn]
proof fn find_decreases(toks: Seq<TokenModel>, lo: int, hi: int, s: Seq<char>) {
    if lo < hi {
        next_is_ahead(toks, lo, hi);
    }
}

/// The place found lies in the range, or is its end.
pub broadcast proof fn find_is_inside(toks: Seq<TokenModel>, lo: int, hi: int, s: Seq<char>)
    ensures
        lo <= hi ==> lo <= #[trigger] find(toks, lo, hi, s) <= hi,
        lo > hi ==> find(toks, lo, hi, s) == hi,
        find(toks, lo, hi, s) < hi ==> at(toks, find(toks, lo, hi, s), s),
    decreases hi - lo,
{
    if lo < hi && !at(toks, lo, s) {
        next_is_ahead(toks, lo, hi);
        find_is_inside(toks, next(toks, lo, hi), hi, s);
    }
}

/// The first place in `lo..hi`, outside of any group, that holds a block or the
/// end of a statement.
pub open spec fn find_body(toks: Seq<TokenModel>, lo: int, hi: int) -> int {
    let b = find(toks, lo, hi, "{"@);
    find(toks, lo, b, ";"@)
}

/// The place behind the `>` that closes the last of `depth` angle brackets open
/// at `i`, and `hi` where none does.
pub open spec fn angle_end(toks: Seq<TokenModel>, i: int, hi: int, depth: int) -> int
    decreases hi - i,
    via angle_end_decreases
{
    if i >= hi {
        hi
    } else if at(toks, i, "<"@) {
        angle_end(toks, i + 1, hi, depth + 1)
    } else if at(toks, i, "<<"@) {
        angle_end(toks, i + 1, hi, depth + 2)
    } else if at(toks, i, ">"@) {
        if depth <= 1 {
            i + 1
        } else {
            angle_end(toks, i + 1, hi, depth - 1)
        }
    } else if at(toks, i, ">>"@) {
        if depth <= 2 {
            i + 1
        } else {
            angle_end(toks, i + 1, hi, depth - 2)
        }
    } else {
        angle_end(toks, next(toks, i, hi), hi, depth)
    }
}

#[via_fn]
proof fn angle_end_decreases(toks: Seq<TokenModel>, i: int, hi: int, depth: int) {
    if i < hi {
        next_is_ahead(toks, i, hi);
    }
}

/// The place behind the angle brackets lies ahead.
pub broadcast proof fn angle_end_is_ahead(toks: Seq<TokenModel>, i: int, hi: int, depth: int)
    ensures
        i < hi ==> i < #[trigger] angle_end(toks, i, hi, depth) <= hi,
        i >= hi ==> angle_end(toks, i, hi, depth) == hi,
    decreases hi - i,
{
    if i < hi {
        next_is_ahead(toks, i, hi);
        if at(toks, i, "<"@) {
            angle_end_is_ahead(toks, i + 1, hi, depth + 1);
        } else if at(toks, i, "<<"@) {
            angle_end_is_ahead(toks, i + 1, hi, depth + 2);
        } else if at(toks, i, ">"@) {
            if depth > 1 {
                angle_end_is_ahead(toks, i + 1, hi, depth - 1);
            }
        } else if at(toks, i, ">>"@) {
            if depth > 2 {
                angle_end_is_ahead(toks, i + 1, hi, depth - 2);
            }
        } else {
            angle_end_is_ahead(toks, next(toks, i, hi), hi, depth);
        }
    }
}

/// How many places a range holds.
pub open spec fn span(lo: int, hi: int) -> nat {
    if lo < hi {
        (hi - lo) as nat
    } else {
        0
    }
}

/// The places that the walks over tokens come to.
pub broadcast group group_places {
    next_is_ahead,
    find_is_inside,
    angle_end_is_ahead,
}

/// Source that has been read: its tokens, and for each the place behind it or
/// behind the group that it opens.
pub struct Code {
    pub toks: Vec<Token>,
    pub ends: Vec<usize>,
}

impl View for Code {
    type V = Seq<TokenModel>;

    open spec fn view(&self) -> Seq<TokenModel> {
        lexer::token_models(self.toks@)
    }
}

fn same_short(a: &str, b: &str) -> (r: bool)
    ensures
        r == (a@ == b@),
{
    let n: usize = a.unicode_len();
    if n != b.unicode_len() {
        return false;
    }
    let mut i: usize = 0;
    while i < n
        invariant
            i <= n,
            n == a@.len(),
            n == b@.len(),
            forall|j: int| 0 <= j < i ==> a@[j] == b@[j],
        decreases n - i,
    {
        if a.get_char(i) != b.get_char(i) {
            return false;
        }
        i += 1;
    }
    assert(a@ =~= b@);
    true
}

fn token_is(toks: &Vec<Token>, i: usize, s: &str) -> (r: bool)
    ensures
        r == at(lexer::token_models(toks@), i as int, s@),
{
    if i < toks.len() {
        assert(lexer::token_models(toks@)[i as int] == toks@[i as int]@);
        toks[i].kind != Kind::Literal && same_short(toks[i].text.as_str(), s)
    } else {
        false
    }
}

fn token_opens(toks: &Vec<Token>, i: usize) -> (r: bool)
    ensures
        r == opens(lexer::token_models(toks@), i as int),
{
    token_is(toks, i, "(") || token_is(toks, i, "[") || token_is(toks, i, "{")
}

fn token_closes(toks: &Vec<Token>, i: usize) -> (r: bool)
    ensures
        r == closes(lexer::token_models(toks@), i as int),
{
    token_is(toks, i, ")") || token_is(toks, i, "]") || token_is(toks, i, "}")
}

fn find_group_end(toks: &Vec<Token>, start: usize) -> (r: usize)
    requires
        1 <= start <= toks.len(),
    ensures
        r == group_end(lexer::token_models(toks@), start as int, 1),
        r <= toks.len(),
{
    let ghost all = lexer::token_models(toks@);
    let mut i: usize = start;
    let mut depth: usize = 1;
    while i < toks.len()
        invariant
            1 <= start <= i <= toks.len(),
            all == lexer::token_models(toks@),
            1 <= depth <= i - start + 1,
            group_end(all, start as int, 1) == group_end(all, i as int, depth as nat),
        decreases toks.len() - i,
    {
        if token_opens(toks, i) {
            depth += 1;
        } else if token_closes(toks, i) {
            if depth <= 1 {
                return i + 1;
            }
            depth -= 1;
        }
        i += 1;
    }
    i
}

impl Code {
    /// The places behind the groups are those of the tokens.
    pub open spec fn wf(self) -> bool {
        &&& self.ends@.len() == self.toks@.len()
        &&& forall|i: int|
            0 <= i < self.ends@.len() ==> (#[trigger] self.ends@[i]) == after(self@, i)
    }

    /// Reads a source text of Rust.
    pub fn read(source: &str) -> (r: Code)
        ensures
            r@ == lexer::tokens(source@),
            r.wf(),
    {
        Code::read_in(source, Dialect::Rust)
    }

    /// Reads a source text.
    pub fn read_in(source: &str, dialect: Dialect) -> (r: Code)
        ensures
            r@ == lexer::tokens_from(source@, 0, dialect),
            r.wf(),
    {
        let toks = tokenize_in(source, dialect);
        let mut ends: Vec<usize> = Vec::new();
        let mut i: usize = 0;
        while i < toks.len()
            invariant
                i <= toks.len(),
                ends.len() == i,
                forall|j: int|
                    0 <= j < i ==> (#[trigger] ends@[j]) == after(lexer::token_models(toks@), j),
            decreases toks.len() - i,
        {
            let e: usize = if token_opens(&toks, i) {
                find_group_end(&toks, i + 1)
            } else {
                i + 1
            };
            ends.push(e);
            i += 1;
        }
        Code { toks, ends }
    }

    /// Whether the token at `i` is this word or mark.
    pub fn is(&self, i: usize, s: &str) -> (r: bool)
        ensures
            r == at(self@, i as int, s@),
    {
        token_is(&self.toks, i, s)
    }

    /// Whether the token at `i` is a name or a keyword.
    pub fn is_word(&self, i: usize) -> (r: bool)
        ensures
            r == word_at(self@, i as int),
    {
        if i < self.toks.len() {
            assert(self@[i as int] == self.toks@[i as int]@);
            self.toks[i].kind == Kind::Word
        } else {
            false
        }
    }

    /// Whether the token at `i` is a name that begins with a capital letter.
    pub fn is_capital(&self, i: usize) -> (r: bool)
        ensures
            r == capital_at(self@, i as int),
    {
        if self.is_word(i) {
            assert(self@[i as int] == self.toks@[i as int]@);
            self.toks[i].text.as_str().unicode_len() > 0 && is_upper_char(
                self.toks[i].text.as_str().get_char(0),
            )
        } else {
            false
        }
    }

    /// Whether the token at `i` opens a group.
    pub fn is_open(&self, i: usize) -> (r: bool)
        ensures
            r == opens(self@, i as int),
    {
        token_opens(&self.toks, i)
    }

    /// The place behind the token at `i`, or behind the group that it opens, but
    /// not past `hi`.
    pub fn next_place(&self, i: usize, hi: usize) -> (r: usize)
        requires
            self.wf(),
            i < hi <= self@.len(),
        ensures
            r == next(self@, i as int, hi as int),
            i < r <= hi,
    {
        proof {
            next_is_ahead(self@, i as int, hi as int);
        }
        let e: usize = self.ends[i];
        if e < hi {
            e
        } else {
            hi
        }
    }

    /// The first place in the range, outside of any group, that holds this word
    /// or mark, and `hi` where none does.
    pub fn find_place(&self, lo: usize, hi: usize, s: &str) -> (r: usize)
        requires
            self.wf(),
            hi <= self@.len(),
        ensures
            r == find(self@, lo as int, hi as int, s@),
            lo <= hi ==> lo <= r <= hi,
            lo > hi ==> r == hi,
            r < hi ==> at(self@, r as int, s@),
    {
        let mut i: usize = lo;
        while i < hi
            invariant
                self.wf(),
                hi <= self@.len(),
                lo <= hi ==> lo <= i <= hi,
                lo > hi ==> i == lo,
                find(self@, lo as int, hi as int, s@) == find(self@, i as int, hi as int, s@),
            decreases hi - i,
        {
            if self.is(i, s) {
                return i;
            }
            i = self.next_place(i, hi);
        }
        hi
    }

    /// The first place in the range, outside of any group, that holds a block or
    /// the end of a statement.
    pub fn find_body_place(&self, lo: usize, hi: usize) -> (r: usize)
        requires
            self.wf(),
            lo <= hi <= self@.len(),
        ensures
            r == find_body(self@, lo as int, hi as int),
            lo <= r <= hi,
    {
        let b: usize = self.find_place(lo, hi, "{");
        self.find_place(lo, b, ";")
    }

    /// The place behind the angle brackets that are open at `start`.
    pub fn find_angle_end(&self, start: usize, hi: usize) -> (r: usize)
        requires
            self.wf(),
            hi <= self@.len(),
        ensures
            r == angle_end(self@, start as int, hi as int, 0),
            start < hi ==> start < r <= hi,
            start >= hi ==> r == hi,
    {
        let mut i: usize = start;
        let mut depth: u128 = 0;
        proof {
            angle_end_is_ahead(self@, start as int, hi as int, 0);
        }
        while i < hi
            invariant
                self.wf(),
                hi <= self@.len(),
                start < hi ==> start <= i <= hi,
                start >= hi ==> i == start,
                depth <= 2 * i,
                angle_end(self@, start as int, hi as int, 0) == angle_end(
                    self@,
                    i as int,
                    hi as int,
                    depth as int,
                ),
            decreases hi - i,
        {
            if self.is(i, "<") {
                depth += 1;
                i += 1;
            } else if self.is(i, "<<") {
                depth += 2;
                i += 1;
            } else if self.is(i, ">") {
                if depth <= 1 {
                    return i + 1;
                }
                depth -= 1;
                i += 1;
            } else if self.is(i, ">>") {
                if depth <= 2 {
                    return i + 1;
                }
                depth -= 2;
                i += 1;
            } else {
                i = self.next_place(i, hi);
            }
        }
        hi
    }
}

} // verus!

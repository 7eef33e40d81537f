//! The functions of a file, in each of the languages that functions are read of.
use vstd::prelude::*;
use crate::content::Language;
use crate::items;
use crate::items::{read_items, Item, ItemKind, ItemModel};
use crate::lexer;
use crate::lexer::{Dialect, TokenModel};
use crate::syntax;
use crate::syntax::Code;

verus! {

broadcast use syntax::group_places;

/// What stands at a place of a script.
pub enum UnitModel {
    /// A function.
    Function(ItemModel),
    /// A group of functions: the mark before it, where it ends, the place behind
    /// it, and the name of the class that it is of.
    Inner(int, int, int, int),
    /// Something else.
    Other,
}

/// What stands at a place of a script.
#[derive(Clone, Copy, PartialEq, Eq, Structural, Debug)]
pub enum Unit {
    Function(Item),
    Inner(usize, usize, usize, usize),
    Other,
}

impl View for Unit {
    type V = UnitModel;

    open spec fn view(&self) -> UnitModel {
        match *self {
            Unit::Function(it) => UnitModel::Function(it@),
            Unit::Inner(lo, hi, last, name) => UnitModel::Inner(
                lo as int,
                hi as int,
                last as int,
                name as int,
            ),
            Unit::Other => UnitModel::Other,
        }
    }
}

/// The place, or the end where the place does not lie ahead.
pub open spec fn ahead(place: int, lo: int, hi: int) -> int {
    if lo < place <= hi {
        place
    } else {
        hi
    }
}

/// Where a group inside begins: behind the mark before it.
pub open spec fn inner_start(place: int, lo: int) -> int {
    if place > lo {
        place + 1
    } else {
        lo + 1
    }
}

/// Where a group inside ends: not past what it belongs to.
pub open spec fn inner_end(place: int, last: int) -> int {
    if place <= last {
        place
    } else {
        last
    }
}

fn find_ahead(place: usize, lo: usize, hi: usize) -> (r: usize)
    requires
        lo < hi,
    ensures
        r == ahead(place as int, lo as int, hi as int),
        lo < r <= hi,
{
    if lo < place && place <= hi {
        place
    } else {
        hi
    }
}

/// A function of a script.
pub open spec fn function(
    first: int,
    name: int,
    owner: Option<int>,
    body_lo: int,
    body_hi: int,
    last: int,
) -> ItemModel {
    ItemModel { kind: ItemKind::Function, name, owner, first, body_lo, body_hi, last }
}

/// The function whose body is the group at `b`.
pub open spec fn braced(
    toks: Seq<TokenModel>,
    first: int,
    name: int,
    owner: Option<int>,
    b: int,
    hi: int,
) -> ItemModel {
    let e = items::body_end(toks, b, hi);
    function(
        first,
        name,
        owner,
        if b < hi {
            b + 1
        } else {
            e
        },
        if b < hi {
            e - 1
        } else {
            e
        },
        e,
    )
}

/// A name is bound at `i`.
pub open spec fn binds(toks: Seq<TokenModel>, i: int, hi: int) -> bool {
    &&& i + 3 < hi
    &&& syntax::at(toks, i, "const"@) || syntax::at(toks, i, "let"@) || syntax::at(toks, i, "var"@)
    &&& syntax::word_at(toks, i + 1)
    &&& syntax::at(toks, i + 2, "="@)
}

/// The arrow behind the parameters at `p`, and behind the type that is returned
/// where one is given.
pub open spec fn arrow(toks: Seq<TokenModel>, p: int, hi: int) -> int {
    let q = syntax::next(toks, p, hi);
    if syntax::at(toks, q, ":"@) {
        syntax::find(toks, q, syntax::find(toks, q, hi, ";"@), "=>"@)
    } else {
        q
    }
}

/// The place of the parameters of a function that is bound at `i`.
pub open spec fn parameters(toks: Seq<TokenModel>, i: int, hi: int) -> int {
    if syntax::at(toks, i + 3, "async"@) && i + 4 < hi {
        i + 4
    } else {
        i + 3
    }
}

/// There is a method at `i` of a class.
pub open spec fn is_method(toks: Seq<TokenModel>, i: int, hi: int) -> bool {
    &&& i + 1 < hi
    &&& syntax::word_at(toks, i)
    &&& syntax::at(toks, i + 1, "("@)
    &&& {
        let q = syntax::next(toks, i + 1, hi);
        q < hi && (syntax::at(toks, q, "{"@) || syntax::at(toks, q, ":"@))
    }
}

/// What stands at `i` of a text of TypeScript: a function declaration, a function
/// that a name is bound to, a class, or a method of a class.
pub open spec fn ts_step(
    toks: Seq<TokenModel>,
    i: int,
    hi: int,
    owner: Option<int>,
) -> UnitModel {
    if items::names(toks, i, hi, "function"@) {
        let b = syntax::find(toks, i + 1, hi, "{"@);
        UnitModel::Function(braced(toks, i, i + 1, owner, b, hi))
    } else if items::names(toks, i, hi, "class"@) {
        let b = syntax::find(toks, i + 1, hi, "{"@);
        let e = items::body_end(toks, b, hi);
        UnitModel::Inner(b, e - 1, e, i + 1)
    } else if binds(toks, i, hi) && arrow(toks, parameters(toks, i, hi), hi) + 1 < hi && syntax::at(
        toks,
        arrow(toks, parameters(toks, i, hi), hi),
        "=>"@,
    ) {
        let a = arrow(toks, parameters(toks, i, hi), hi);
        if syntax::at(toks, a + 1, "{"@) {
            UnitModel::Function(braced(toks, i, i + 1, owner, a + 1, hi))
        } else {
            let e = syntax::find(toks, a + 1, hi, ";"@);
            UnitModel::Function(function(i, i + 1, owner, a + 1, e, e))
        }
    } else if owner is Some && is_method(toks, i, hi) {
        let b = syntax::find(toks, syntax::next(toks, i + 1, hi), hi, "{"@);
        UnitModel::Function(braced(toks, i, i, owner, b, hi))
    } else {
        UnitModel::Other
    }
}

/// Where the line begins that `i` is on.
pub open spec fn line_start(s: Seq<char>, i: int) -> int
    decreases i,
{
    if i <= 0 {
        0
    } else if lexer::char_at(s, i - 1) == '\n' {
        i
    } else {
        line_start(s, i - 1)
    }
}

/// Where the blanks that begin at `i` end.
pub open spec fn blank_end(s: Seq<char>, i: int) -> int
    decreases s.len() - i,
{
    if 0 <= i < s.len() && (s[i] == ' ' || s[i] == '\t') {
        blank_end(s, i + 1)
    } else {
        i
    }
}

/// How far the line that `i` is on is indented.
pub open spec fn indent(s: Seq<char>, i: int) -> int {
    blank_end(s, line_start(s, i)) - line_start(s, i)
}

/// Nothing but blanks stands before `i` on its line.
pub open spec fn starts_line(s: Seq<char>, i: int) -> bool {
    blank_end(s, line_start(s, i)) == i
}

/// The first token from `k` on, outside of any group, that begins a line which is
/// indented no further than `depth`.
pub open spec fn dedent(
    s: Seq<char>,
    toks: Seq<TokenModel>,
    k: int,
    hi: int,
    depth: int,
) -> int
    decreases hi - k,
{
    if k >= hi {
        hi
    } else if starts_line(s, toks[k].start) && indent(s, toks[k].start) <= depth {
        k
    } else {
        dedent(s, toks, syntax::next(toks, k, hi), hi, depth)
    }
}

/// What stands at `i` of a text of Python: a function, or a class.
pub open spec fn py_step(
    s: Seq<char>,
    toks: Seq<TokenModel>,
    i: int,
    hi: int,
    owner: Option<int>,
) -> UnitModel {
    let h = syntax::find(toks, i + 1, hi, ":"@);
    let e = dedent(s, toks, h + 1, hi, indent(s, toks[i].start));
    if items::names(toks, i, hi, "def"@) {
        UnitModel::Function(
            function(
                i,
                i + 1,
                owner,
                if h < e {
                    h + 1
                } else {
                    e
                },
                e,
                e,
            ),
        )
    } else if items::names(toks, i, hi, "class"@) {
        UnitModel::Inner(h, e, e, i + 1)
    } else {
        UnitModel::Other
    }
}

/// What stands at `i` of a script.
#[verifier::opaque]
pub open spec fn step_at(
    dialect: Dialect,
    s: Seq<char>,
    toks: Seq<TokenModel>,
    i: int,
    hi: int,
    owner: Option<int>,
) -> UnitModel {
    if dialect == Dialect::Python {
        py_step(s, toks, i, hi, owner)
    } else {
        ts_step(toks, i, hi, owner)
    }
}

/// The functions in the places `lo..hi` of a script, the methods of a class in
/// place of it.
pub open spec fn functions(
    dialect: Dialect,
    s: Seq<char>,
    toks: Seq<TokenModel>,
    lo: int,
    hi: int,
    owner: Option<int>,
) -> Seq<ItemModel>
    decreases syntax::span(lo, hi),
{
    if lo >= hi {
        Seq::empty()
    } else {
        match step_at(dialect, s, toks, lo, hi, owner) {
            UnitModel::Function(it) => seq![it] + functions(
                dialect,
                s,
                toks,
                ahead(it.last, lo, hi),
                hi,
                owner,
            ),
            UnitModel::Inner(from, to, last, name) => {
                let e = ahead(last, lo, hi);
                functions(
                    dialect,
                    s,
                    toks,
                    inner_start(from, lo),
                    inner_end(to, e),
                    Some(name),
                ) + functions(dialect, s, toks, e, hi, owner)
            },
            UnitModel::Other => functions(
                dialect,
                s,
                toks,
                syntax::next(toks, lo, hi),
                hi,
                owner,
            ),
        }
    }
}

/// How a language is cut into tokens.
pub open spec fn dialect_of(language: Language) -> Dialect {
    match language {
        Language::TypeScript => Dialect::TypeScript,
        Language::Python => Dialect::Python,
        _ => Dialect::Rust,
    }
}

/// The tokens of a text.
pub open spec fn tokens_of(language: Language, s: Seq<char>) -> Seq<TokenModel> {
    lexer::tokens_from(s, 0, dialect_of(language))
}

/// The functions and types of a text. A text in no programming language has none.
pub open spec fn units(language: Language, s: Seq<char>) -> Seq<ItemModel> {
    let toks = tokens_of(language, s);
    match language {
        Language::Rust => items::file_items(toks),
        Language::Markdown => Seq::empty(),
        _ => functions(dialect_of(language), s, toks, 0, toks.len() as int, None),
    }
}

proof fn functions_are_few(
    dialect: Dialect,
    s: Seq<char>,
    toks: Seq<TokenModel>,
    lo: int,
    hi: int,
    owner: Option<int>,
)
    ensures
        functions(dialect, s, toks, lo, hi, owner).len() <= syntax::span(lo, hi),
    decreases syntax::span(lo, hi),
{
    if lo < hi {
        match step_at(dialect, s, toks, lo, hi, owner) {
            UnitModel::Function(it) => {
                functions_are_few(dialect, s, toks, ahead(it.last, lo, hi), hi, owner);
            },
            UnitModel::Inner(from, to, last, name) => {
                let e = ahead(last, lo, hi);
                functions_are_few(
                    dialect,
                    s,
                    toks,
                    inner_start(from, lo),
                    inner_end(to, e),
                    Some(name),
                );
                functions_are_few(dialect, s, toks, e, hi, owner);
            },
            UnitModel::Other => {
                functions_are_few(dialect, s, toks, syntax::next(toks, lo, hi), hi, owner);
            },
        }
    }
}

proof fn dedent_is_inside(s: Seq<char>, toks: Seq<TokenModel>, k: int, hi: int, depth: int)
    ensures
        k <= hi ==> k <= dedent(s, toks, k, hi, depth) <= hi,
        k > hi ==> dedent(s, toks, k, hi, depth) == hi,
    decreases hi - k,
{
    if k < hi {
        syntax::next_is_ahead(toks, k, hi);
        dedent_is_inside(s, toks, syntax::next(toks, k, hi), hi, depth);
    }
}

proof fn function_lies_inside(
    dialect: Dialect,
    s: Seq<char>,
    toks: Seq<TokenModel>,
    i: int,
    hi: int,
    owner: Option<int>,
)
    requires
        i < hi,
    ensures
        step_at(dialect, s, toks, i, hi, owner) matches UnitModel::Function(it) ==> i == it.first
            < it.last <= hi,
{
    broadcast use {syntax::next_is_ahead, syntax::find_is_inside};

    reveal(step_at);
    let h = syntax::find(toks, i + 1, hi, ":"@);
    dedent_is_inside(s, toks, h + 1, hi, indent(s, toks[i].start));
}

proof fn functions_lie_inside(
    dialect: Dialect,
    s: Seq<char>,
    toks: Seq<TokenModel>,
    lo: int,
    hi: int,
    owner: Option<int>,
)
    ensures
        forall|k: int|
            0 <= k < functions(dialect, s, toks, lo, hi, owner).len() ==> lo <= (
            #[trigger] functions(dialect, s, toks, lo, hi, owner)[k]).first < functions(
                dialect,
                s,
                toks,
                lo,
                hi,
                owner,
            )[k].last <= hi,
    decreases syntax::span(lo, hi),
{
    if lo < hi {
        syntax::next_is_ahead(toks, lo, hi);
        function_lies_inside(dialect, s, toks, lo, hi, owner);
        let all = functions(dialect, s, toks, lo, hi, owner);
        match step_at(dialect, s, toks, lo, hi, owner) {
            UnitModel::Function(it) => {
                let rest = functions(dialect, s, toks, ahead(it.last, lo, hi), hi, owner);
                functions_lie_inside(dialect, s, toks, ahead(it.last, lo, hi), hi, owner);
                assert forall|k: int| 0 <= k < all.len() implies lo <= (#[trigger] all[k]).first
                    < all[k].last <= hi by {
                    if k > 0 {
                        assert(all[k] == rest[k - 1]);
                    }
                }
            },
            UnitModel::Inner(from, to, last, name) => {
                let e = ahead(last, lo, hi);
                let (a, b) = (inner_start(from, lo), inner_end(to, e));
                let own = functions(dialect, s, toks, a, b, Some(name));
                let rest = functions(dialect, s, toks, e, hi, owner);
                functions_lie_inside(dialect, s, toks, a, b, Some(name));
                functions_lie_inside(dialect, s, toks, e, hi, owner);
                assert forall|k: int| 0 <= k < all.len() implies lo <= (#[trigger] all[k]).first
                    < all[k].last <= hi by {
                    if k < own.len() {
                        assert(all[k] == own[k]);
                    } else {
                        assert(all[k] == rest[k - own.len()]);
                    }
                }
            },
            UnitModel::Other => {
                functions_lie_inside(dialect, s, toks, syntax::next(toks, lo, hi), hi, owner);
            },
        }
    }
}

/// Every function and every type has tokens, and they are tokens of the text.
pub proof fn units_lie_inside(language: Language, s: Seq<char>, k: int)
    requires
        0 <= k < units(language, s).len(),
    ensures
        0 <= units(language, s)[k].first < units(language, s)[k].last <= tokens_of(
            language,
            s,
        ).len(),
{
    let toks = tokens_of(language, s);
    items::items_lie_inside(toks, 0, toks.len() as int, None);
    functions_lie_inside(dialect_of(language), s, toks, 0, toks.len() as int, None);
}

/// A text has no more functions and types than characters.
pub proof fn units_are_few(language: Language, s: Seq<char>)
    ensures
        units(language, s).len() <= s.len(),
{
    let toks = tokens_of(language, s);
    lexer::tokens_are_few(s, 0, dialect_of(language));
    items::items_are_few(toks, 0, toks.len() as int, None);
    functions_are_few(dialect_of(language), s, toks, 0, toks.len() as int, None);
}

/// How a language is cut into tokens.
pub fn find_dialect(language: Language) -> (r: Dialect)
    ensures
        r == dialect_of(language),
{
    match language {
        Language::TypeScript => Dialect::TypeScript,
        Language::Python => Dialect::Python,
        _ => Dialect::Rust,
    }
}

/// Reads a text.
pub fn read_code(language: Language, source: &str) -> (r: Code)
    ensures
        r@ == tokens_of(language, source@),
        r.wf(),
{
    Code::read_in(source, find_dialect(language))
}

fn read_braced(
    code: &Code,
    first: usize,
    name: usize,
    owner: Option<usize>,
    b: usize,
    hi: usize,
) -> (r: Item)
    requires
        code.wf(),
        first < b <= hi <= code@.len(),
        name < code@.len(),
        owner is Some ==> owner->0 < code@.len(),
    ensures
        r@ == braced(
            code@,
            first as int,
            name as int,
            items::optional_place(owner),
            b as int,
            hi as int,
        ),
        items::item_fits(code@, r),
{
    let e: usize = if b < hi {
        code.next_place(b, hi)
    } else {
        hi
    };
    Item {
        kind: ItemKind::Function,
        name,
        owner,
        first,
        body_lo: if b < hi {
            b + 1
        } else {
            e
        },
        body_hi: if b < hi {
            e - 1
        } else {
            e
        },
        last: e,
    }
}

fn names_here(code: &Code, i: usize, hi: usize, keyword: &str) -> (r: bool)
    requires
        i < hi <= code@.len(),
        code.wf(),
    ensures
        r == items::names(code@, i as int, hi as int, keyword@),
{
    i + 1 < hi && code.is(i, keyword) && code.is_word(i + 1)
}

fn binds_here(code: &Code, i: usize, hi: usize) -> (r: bool)
    requires
        i < hi <= code@.len(),
        code.wf(),
    ensures
        r == binds(code@, i as int, hi as int),
{
    hi - i > 3 && (code.is(i, "const") || code.is(i, "let") || code.is(i, "var")) && code.is_word(
        i + 1,
    ) && code.is(i + 2, "=")
}

fn find_arrow(code: &Code, p: usize, hi: usize) -> (r: usize)
    requires
        code.wf(),
        p < hi <= code@.len(),
    ensures
        r == arrow(code@, p as int, hi as int),
        p < r <= hi,
{
    let q: usize = code.next_place(p, hi);
    if code.is(q, ":") {
        let e: usize = code.find_place(q, hi, ";");
        code.find_place(q, e, "=>")
    } else {
        q
    }
}

fn read_ts_step(code: &Code, i: usize, hi: usize, owner: Option<usize>) -> (r: Unit)
    requires
        code.wf(),
        i < hi <= code@.len(),
        owner is Some ==> owner->0 < code@.len(),
    ensures
        r@ == ts_step(code@, i as int, hi as int, items::optional_place(owner)),
        r matches Unit::Function(it) ==> items::item_fits(code@, it),
        r matches Unit::Inner(_, _, _, name) ==> name < code@.len(),
{
    if names_here(code, i, hi, "function") {
        let b: usize = code.find_place(i + 1, hi, "{");
        return Unit::Function(read_braced(code, i, i + 1, owner, b, hi));
    }
    if names_here(code, i, hi, "class") {
        let b: usize = code.find_place(i + 1, hi, "{");
        let e: usize = if b < hi {
            code.next_place(b, hi)
        } else {
            hi
        };
        return Unit::Inner(b, e - 1, e, i + 1);
    }
    if binds_here(code, i, hi) {
        let p: usize = if code.is(i + 3, "async") && hi - i > 4 {
            i + 4
        } else {
            i + 3
        };
        let a: usize = find_arrow(code, p, hi);
        if hi - a > 1 && code.is(a, "=>") {
            if code.is(a + 1, "{") {
                return Unit::Function(read_braced(code, i, i + 1, owner, a + 1, hi));
            }
            let e: usize = code.find_place(a + 1, hi, ";");
            return Unit::Function(
                Item {
                    kind: ItemKind::Function,
                    name: i + 1,
                    owner,
                    first: i,
                    body_lo: a + 1,
                    body_hi: e,
                    last: e,
                },
            );
        }
    }
    if owner.is_some() && hi - i > 1 && code.is_word(i) && code.is(i + 1, "(") {
        let q: usize = code.next_place(i + 1, hi);
        if q < hi && (code.is(q, "{") || code.is(q, ":")) {
            let b: usize = code.find_place(q, hi, "{");
            return Unit::Function(read_braced(code, i, i, owner, b, hi));
        }
    }
    Unit::Other
}

fn find_line_start(s: &Vec<char>, i: usize) -> (r: usize)
    requires
        i <= s.len(),
    ensures
        r == line_start(s@, i as int),
        r <= i,
{
    let mut k: usize = i;
    while k > 0
        invariant
            k <= i <= s.len(),
            line_start(s@, i as int) == line_start(s@, k as int),
        decreases k,
    {
        if s[k - 1] == '\n' {
            return k;
        }
        k -= 1;
    }
    0
}

fn find_blank_end(s: &Vec<char>, i: usize) -> (r: usize)
    requires
        i <= s.len(),
    ensures
        r == blank_end(s@, i as int),
        i <= r <= s.len(),
{
    let mut k: usize = i;
    while k < s.len() && (s[k] == ' ' || s[k] == '\t')
        invariant
            i <= k <= s.len(),
            blank_end(s@, i as int) == blank_end(s@, k as int),
        decreases s.len() - k,
    {
        k += 1;
    }
    k
}

fn find_dedent(s: &Vec<char>, code: &Code, start: usize, hi: usize, depth: usize) -> (r: usize)
    requires
        code.wf(),
        hi <= code@.len(),
        code@ == lexer::tokens_from(s@, 0, Dialect::Python),
    ensures
        r == dedent(s@, code@, start as int, hi as int, depth as int),
        start <= hi ==> start <= r <= hi,
        start > hi ==> r == hi,
{
    let mut k: usize = start;
    proof {
        lexer::tokens_are_inside(s@, 0, Dialect::Python);
    }
    while k < hi
        invariant
            code.wf(),
            hi <= code@.len(),
            start <= k,
            start <= hi ==> k <= hi,
            forall|t: int|
                0 <= t < code@.len() ==> 0 <= (#[trigger] code@[t]).start < code@[t].end
                    <= s@.len(),
            dedent(s@, code@, start as int, hi as int, depth as int) == dedent(
                s@,
                code@,
                k as int,
                hi as int,
                depth as int,
            ),
        decreases hi - k,
    {
        assert(code@[k as int] == code.toks@[k as int]@);
        let at: usize = code.toks[k].start;
        let from: usize = find_line_start(s, at);
        let to: usize = find_blank_end(s, from);
        if to == at && to - from <= depth {
            return k;
        }
        k = code.next_place(k, hi);
    }
    hi
}

fn read_py_step(s: &Vec<char>, code: &Code, i: usize, hi: usize, owner: Option<usize>) -> (r: Unit)
    requires
        code.wf(),
        i < hi <= code@.len(),
        code@ == lexer::tokens_from(s@, 0, Dialect::Python),
        owner is Some ==> owner->0 < code@.len(),
    ensures
        r@ == py_step(s@, code@, i as int, hi as int, items::optional_place(owner)),
        r matches Unit::Function(it) ==> items::item_fits(code@, it),
        r matches Unit::Inner(_, _, _, name) ==> name < code@.len(),
{
    let is_def: bool = names_here(code, i, hi, "def");
    if !is_def && !names_here(code, i, hi, "class") {
        return Unit::Other;
    }
    proof {
        lexer::tokens_are_inside(s@, 0, Dialect::Python);
        assert(0 <= code@[i as int].start < code@[i as int].end <= s@.len());
        assert(code@[i as int] == code.toks@[i as int]@);
    }
    let from: usize = find_line_start(s, code.toks[i].start);
    let depth: usize = find_blank_end(s, from) - from;
    let h: usize = code.find_place(i + 1, hi, ":");
    let e: usize = if h < hi {
        find_dedent(s, code, h + 1, hi, depth)
    } else {
        hi
    };
    if is_def {
        Unit::Function(
            Item {
                kind: ItemKind::Function,
                name: i + 1,
                owner,
                first: i,
                body_lo: if h < e {
                    h + 1
                } else {
                    e
                },
                body_hi: e,
                last: e,
            },
        )
    } else {
        Unit::Inner(h, e, e, i + 1)
    }
}

fn add_functions(
    dialect: Dialect,
    s: &Vec<char>,
    code: &Code,
    lo: usize,
    hi: usize,
    owner: Option<usize>,
    out: &mut Vec<Item>,
)
    requires
        code.wf(),
        hi <= code@.len(),
        code@ == lexer::tokens_from(s@, 0, dialect),
        owner is Some ==> owner->0 < code@.len(),
        forall|i: int|
            0 <= i < old(out).len() ==> items::item_fits(code@, #[trigger] old(out)@[i]),
    ensures
        items::item_models(final(out)@) == items::item_models(old(out)@) + functions(
            dialect,
            s@,
            code@,
            lo as int,
            hi as int,
            items::optional_place(owner),
        ),
        forall|i: int|
            0 <= i < final(out).len() ==> items::item_fits(code@, #[trigger] final(out)@[i]),
    decreases syntax::span(lo as int, hi as int),
{
    let ghost start = items::item_models(out@);
    let ghost own = items::optional_place(owner);
    let mut i: usize = lo;
    while i < hi
        invariant
            code.wf(),
            lo <= i,
            hi <= code@.len(),
            code@ == lexer::tokens_from(s@, 0, dialect),
            owner is Some ==> owner->0 < code@.len(),
            own == items::optional_place(owner),
            items::item_models(out@) + functions(dialect, s@, code@, i as int, hi as int, own)
                == start + functions(dialect, s@, code@, lo as int, hi as int, own),
            forall|j: int| 0 <= j < out.len() ==> items::item_fits(code@, #[trigger] out@[j]),
        decreases hi - i,
    {
        let ghost sofar = items::item_models(out@);
        let unit: Unit = if dialect == Dialect::Python {
            read_py_step(s, code, i, hi, owner)
        } else {
            read_ts_step(code, i, hi, owner)
        };
        assert(unit@ == step_at(dialect, s@, code@, i as int, hi as int, own)) by {
            reveal(step_at);
        }
        match unit {
            Unit::Function(it) => {
                let e: usize = find_ahead(it.last, i, hi);
                out.push(it);
                proof {
                    assert(items::item_models(out@) =~= sofar.push(it@));
                    let rest = functions(dialect, s@, code@, e as int, hi as int, own);
                    assert(sofar + (seq![it@] + rest) =~= sofar.push(it@) + rest);
                }
                i = e;
            },
            Unit::Inner(from, to, last, name) => {
                let e: usize = find_ahead(last, i, hi);
                let inner_hi: usize = if to <= e {
                    to
                } else {
                    e
                };
                let ghost inner_lo = inner_start(from as int, i as int);
                let ghost a = functions(
                    dialect,
                    s@,
                    code@,
                    inner_lo,
                    inner_hi as int,
                    Some(name as int),
                );
                let before: usize = if from > i {
                    from
                } else {
                    i
                };
                if before < inner_hi {
                    add_functions(dialect, s, code, before + 1, inner_hi, Some(name), out);
                } else {
                    assert(a =~= Seq::empty());
                    assert(sofar + a =~= sofar);
                }
                proof {
                    let rest = functions(dialect, s@, code@, e as int, hi as int, own);
                    assert(sofar + (a + rest) =~= (sofar + a) + rest);
                }
                i = e;
            },
            Unit::Other => {
                i = code.next_place(i, hi);
            },
        }
    }
    assert(items::item_models(out@) + Seq::<ItemModel>::empty() =~= items::item_models(out@));
}

/// The functions and types of a text that has been read.
pub fn read_units(language: Language, s: &Vec<char>, code: &Code) -> (r: Vec<Item>)
    requires
        code.wf(),
        code@ == tokens_of(language, s@),
    ensures
        items::item_models(r@) == units(language, s@),
        forall|i: int| 0 <= i < r.len() ==> items::item_fits(code@, #[trigger] r@[i]),
{
    let mut r: Vec<Item> = Vec::new();
    match language {
        Language::Rust => {
            r = read_items(code);
        },
        Language::Markdown => {
            assert(items::item_models(r@) =~= Seq::empty());
        },
        _ => {
            add_functions(find_dialect(language), s, code, 0, code.toks.len(), None, &mut r);
            assert(items::item_models(r@) =~= units(language, s@));
        },
    }
    r
}

} // verus!

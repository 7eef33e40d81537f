//! Which calls the value of an expression comes from.
//!
//! The trace follows the value through wrappers, branches, projections and
//! `let` bindings. Where it cannot tell, it names no call: a call left out is
//! acceptable, a wrong one is not.
use vstd::prelude::*;
use crate::lexer::TokenModel;
use crate::syntax;
use crate::syntax::Code;

verus! {

broadcast use crate::syntax::group_places;

/// A name in scope, by the place of its token, and the calls that its value
/// comes from, by the places of their names.
pub struct Binding {
    pub name: usize,
    pub producers: Vec<usize>,
}

/// What a [`Binding`] holds, as plain values.
#[verifier::ext_equal]
pub struct BindingModel {
    pub name: int,
    pub producers: Seq<int>,
}

/// Places as plain integers.
pub open spec fn places(v: Seq<usize>) -> Seq<int> {
    v.map_values(|i: usize| i as int)
}

impl View for Binding {
    type V = BindingModel;

    open spec fn view(&self) -> BindingModel {
        BindingModel { name: self.name as int, producers: places(self.producers@) }
    }
}

pub open spec fn scope_model(s: Seq<Binding>) -> Seq<BindingModel> {
    s.map_values(|b: Binding| b@)
}

/// The calls that the name at `i` comes from: those of the last binding with
/// this name.
pub open spec fn lookup(toks: Seq<TokenModel>, scope: Seq<BindingModel>, i: int) -> Seq<int>
    decreases scope.len(),
{
    if scope.len() == 0 {
        Seq::empty()
    } else if toks[scope.last().name].text == toks[i].text {
        scope.last().producers
    } else {
        lookup(toks, scope.drop_last(), i)
    }
}

/// The word at `i` names something that a pattern binds. The qualifier of a
/// path, the label of a field and what is called or built are not bound.
pub open spec fn is_binder(toks: Seq<TokenModel>, i: int) -> bool {
    &&& syntax::word_at(toks, i)
    &&& !syntax::capital_at(toks, i)
    &&& !syntax::at(toks, i, "mut"@)
    &&& !syntax::at(toks, i, "ref"@)
    &&& !syntax::at(toks, i, "_"@)
    &&& !syntax::at(toks, i, "true"@)
    &&& !syntax::at(toks, i, "false"@)
    &&& !syntax::at(toks, i - 1, "::"@)
    &&& !syntax::at(toks, i + 1, "::"@)
    &&& !syntax::at(toks, i + 1, ":"@)
    &&& !syntax::at(toks, i + 1, "("@)
    &&& !syntax::at(toks, i + 1, "{"@)
    &&& !syntax::at(toks, i + 1, "!"@)
}

/// One of the places holds the same name as `i`.
pub open spec fn is_named(toks: Seq<TokenModel>, names: Seq<int>, i: int) -> bool {
    exists|k: int| 0 <= k < names.len() && toks[#[trigger] names[k]].text == toks[i].text
}

/// The names that the pattern `lo..hi` binds, each once.
pub open spec fn pattern_names(toks: Seq<TokenModel>, lo: int, hi: int) -> Seq<int>
    decreases hi - lo,
{
    if lo >= hi {
        Seq::empty()
    } else {
        let rest = pattern_names(toks, lo, hi - 1);
        if is_binder(toks, hi - 1) && !is_named(toks, rest, hi - 1) {
            rest.push(hi - 1)
        } else {
            rest
        }
    }
}

/// The scope with the names bound to nothing that is known.
pub open spec fn with_unknown(scope: Seq<BindingModel>, names: Seq<int>) -> Seq<BindingModel> {
    scope + names.map_values(|n: int| BindingModel { name: n, producers: Seq::empty() })
}

/// The scope inside a pattern: where it binds one name, that name has the value
/// that is matched; where it binds several, none of them is known.
pub open spec fn with_pattern(
    toks: Seq<TokenModel>,
    scope: Seq<BindingModel>,
    lo: int,
    hi: int,
    producers: Seq<int>,
) -> Seq<BindingModel> {
    let names = pattern_names(toks, lo, hi);
    if names.len() == 1 {
        scope.push(BindingModel { name: names[0], producers })
    } else {
        with_unknown(scope, names)
    }
}

/// A path: its last segment, the one before, and the place behind it.
#[verifier::ext_equal]
pub struct PathModel {
    pub last: int,
    pub qualifier: Option<int>,
    pub qualified_type: bool,
    pub end: int,
}

/// The path that goes on at the segment `i`. Generic arguments are passed over.
pub open spec fn path_from(
    toks: Seq<TokenModel>,
    i: int,
    hi: int,
    qualifier: Option<int>,
    qualified_type: bool,
) -> PathModel
    decreases hi - i,
{
    if i + 2 < hi && syntax::at(toks, i + 1, "::"@) {
        if syntax::at(toks, i + 2, "<"@) {
            let g = syntax::angle_end(toks, i + 2, hi, 0);
            if g + 1 < hi && syntax::at(toks, g, "::"@) && syntax::word_at(toks, g + 1) {
                path_from(toks, g + 1, hi, Some(i), qualified_type)
            } else {
                PathModel { last: i, qualifier, qualified_type, end: g }
            }
        } else if syntax::word_at(toks, i + 2) {
            path_from(toks, i + 2, hi, Some(i), qualified_type)
        } else {
            PathModel { last: i, qualifier, qualified_type, end: i + 1 }
        }
    } else {
        PathModel { last: i, qualifier, qualified_type, end: i + 1 }
    }
}

/// The path that an expression begins with, if it begins with one. A path that
/// begins with a type in angle brackets is marked.
pub open spec fn path_head(toks: Seq<TokenModel>, lo: int, hi: int) -> Option<PathModel> {
    if syntax::at(toks, lo, "<"@) {
        let g = syntax::angle_end(toks, lo, hi, 0);
        if g + 1 < hi && syntax::at(toks, g, "::"@) && syntax::word_at(toks, g + 1) {
            Some(path_from(toks, g + 1, hi, None, true))
        } else {
            None
        }
    } else if syntax::word_at(toks, lo) {
        Some(path_from(toks, lo, hi, None, false))
    } else {
        None
    }
}

/// The path ends inside the range, behind where it begins.
pub proof fn path_from_bounds(
    toks: Seq<TokenModel>,
    i: int,
    hi: int,
    qualifier: Option<int>,
    qualified_type: bool,
)
    requires
        i < hi,
    ensures
        ({
            let p = path_from(toks, i, hi, qualifier, qualified_type);
            i <= p.last < p.end <= hi
        }),
    decreases hi - i,
{
    if i + 2 < hi && syntax::at(toks, i + 1, "::"@) {
        if syntax::at(toks, i + 2, "<"@) {
            let g = syntax::angle_end(toks, i + 2, hi, 0);
            syntax::angle_end_is_ahead(toks, i + 2, hi, 0);
            if g + 1 < hi && syntax::at(toks, g, "::"@) && syntax::word_at(toks, g + 1) {
                path_from_bounds(toks, g + 1, hi, Some(i), qualified_type);
            }
        } else if syntax::word_at(toks, i + 2) {
            path_from_bounds(toks, i + 2, hi, Some(i), qualified_type);
        }
    }
}

/// The one part of a list without or with a comma behind it, if it has just one.
pub open spec fn one_part(toks: Seq<TokenModel>, lo: int, hi: int) -> Option<(int, int)> {
    let e = syntax::find(toks, lo, hi, ","@);
    if lo >= hi {
        None
    } else if e >= hi {
        Some((lo, hi))
    } else if e == hi - 1 && e > lo {
        Some((lo, e))
    } else {
        None
    }
}

/// The value goes through what stands at `i` unchanged.
pub open spec fn is_transparent(toks: Seq<TokenModel>, i: int) -> bool {
    ||| syntax::at(toks, i, "*"@)
    ||| syntax::at(toks, i, "&"@)
    ||| syntax::at(toks, i, "&&"@)
    ||| syntax::at(toks, i, "-"@)
    ||| syntax::at(toks, i, "!"@)
    ||| syntax::at(toks, i, "mut"@)
    ||| syntax::at(toks, i, "unsafe"@)
    ||| syntax::at(toks, i, "async"@)
    ||| syntax::at(toks, i, "move"@)
    ||| syntax::at(toks, i, "return"@)
}

/// An expression that ends with a block begins at `i`.
pub open spec fn starts_block(toks: Seq<TokenModel>, i: int) -> bool {
    ||| syntax::at(toks, i, "{"@)
    ||| syntax::at(toks, i, "if"@)
    ||| syntax::at(toks, i, "match"@)
    ||| syntax::at(toks, i, "while"@)
    ||| syntax::at(toks, i, "for"@)
    ||| syntax::at(toks, i, "loop"@)
    ||| syntax::at(toks, i, "unsafe"@)
}

/// The place behind the expression with a block that begins at `lo`.
pub open spec fn block_end(toks: Seq<TokenModel>, lo: int, hi: int) -> int
    decreases syntax::span(lo, hi),
{
    if lo >= hi {
        hi
    } else if syntax::at(toks, lo, "{"@) {
        syntax::next(toks, lo, hi)
    } else {
        let b = syntax::find(toks, lo + 1, hi, "{"@);
        let e = syntax::next(toks, b, hi);
        if b >= hi {
            hi
        } else if syntax::at(toks, lo, "if"@) && e + 1 < hi && syntax::at(toks, e, "else"@) {
            block_end(toks, e + 1, hi)
        } else {
            e
        }
    }
}

/// The expression goes on behind its block.
pub open spec fn goes_on(toks: Seq<TokenModel>, i: int) -> bool {
    syntax::at(toks, i, "."@) || syntax::at(toks, i, "?"@)
}

/// The place behind the block lies ahead.
pub proof fn block_end_is_ahead(toks: Seq<TokenModel>, lo: int, hi: int)
    ensures
        lo < hi ==> lo < block_end(toks, lo, hi) <= hi,
        lo >= hi ==> block_end(toks, lo, hi) == hi,
    decreases syntax::span(lo, hi),
{
    if lo < hi {
        syntax::next_is_ahead(toks, lo, hi);
        let b = syntax::find(toks, lo + 1, hi, "{"@);
        syntax::find_is_inside(toks, lo + 1, hi, "{"@);
        if b < hi {
            syntax::next_is_ahead(toks, b, hi);
            let e = syntax::next(toks, b, hi);
            block_end_is_ahead(toks, e + 1, hi);
        }
    }
}

/// The place behind the body of a match arm that begins at `lo`.
pub open spec fn arm_end(toks: Seq<TokenModel>, lo: int, hi: int) -> int {
    if lo < hi && starts_block(toks, lo) {
        let k = block_end(toks, lo, hi);
        if goes_on(toks, k) {
            syntax::find(toks, k, hi, ","@)
        } else {
            k
        }
    } else {
        syntax::find(toks, lo, hi, ","@)
    }
}

/// The place of the arm behind one that ends at `e`.
pub open spec fn next_arm(toks: Seq<TokenModel>, e: int) -> int {
    if syntax::at(toks, e, ","@) {
        e + 1
    } else {
        e
    }
}

/// The calls that a value comes from once the rest of the expression, from `i`
/// on, was applied to one that comes from `base`. A method call replaces it; a
/// field, an index, `?`, `await` and a cast keep it.
pub open spec fn trace_rest(toks: Seq<TokenModel>, i: int, hi: int, base: Seq<int>) -> Seq<int>
    decreases syntax::span(i, hi),
{
    if i >= hi {
        base
    } else if syntax::at(toks, i, "?"@) {
        trace_rest(toks, i + 1, hi, base)
    } else if syntax::at(toks, i, "["@) {
        trace_rest(toks, syntax::next(toks, i, hi), hi, base)
    } else if syntax::at(toks, i, "as"@) {
        base
    } else if syntax::at(toks, i, "."@) && i + 1 < hi {
        let t = if i + 3 < hi && syntax::at(toks, i + 2, "::"@) && syntax::at(toks, i + 3, "<"@) {
            syntax::angle_end(toks, i + 3, hi, 0)
        } else {
            i + 2
        };
        if t < hi && syntax::at(toks, t, "("@) && syntax::word_at(toks, i + 1) {
            trace_rest(toks, syntax::next(toks, t, hi), hi, seq![i + 1])
        } else {
            trace_rest(toks, i + 2, hi, base)
        }
    } else {
        Seq::empty()
    }
}

/// The calls that the value of the expression `lo..hi` comes from.
pub open spec fn trace(toks: Seq<TokenModel>, lo: int, hi: int, scope: Seq<BindingModel>) -> Seq<
    int,
>
    decreases syntax::span(lo, hi), 3int,
{
    if lo >= hi {
        Seq::empty()
    } else if syntax::at(toks, hi - 1, "?"@) {
        trace(toks, lo, hi - 1, scope)
    } else if syntax::at(toks, hi - 1, "await"@) && hi - 2 >= lo && syntax::at(
        toks,
        hi - 2,
        "."@,
    ) {
        trace(toks, lo, hi - 2, scope)
    } else if is_transparent(toks, lo) {
        trace(toks, lo + 1, hi, scope)
    } else if syntax::opens(toks, lo) && syntax::next(toks, lo, hi) == hi {
        if syntax::at(toks, lo, "("@) {
            match one_part(toks, lo + 1, hi - 1) {
                Some((a, b)) => trace(toks, a, b, scope),
                None => Seq::empty(),
            }
        } else if syntax::at(toks, lo, "{"@) {
            trace_block(toks, lo + 1, hi - 1, scope)
        } else {
            Seq::empty()
        }
    } else if syntax::at(toks, lo, "if"@) {
        trace_if(toks, lo, hi, scope)
    } else if syntax::at(toks, lo, "match"@) {
        let b = syntax::find(toks, lo + 1, hi, "{"@);
        if b < hi {
            trace_arms(
                toks,
                b + 1,
                syntax::next(toks, b, hi) - 1,
                scope,
                trace(toks, lo + 1, b, scope),
            )
        } else {
            Seq::empty()
        }
    } else {
        trace_path(toks, lo, hi, scope)
    }
}

/// The calls that either branch of an `if` comes from. Its condition feeds no
/// branch, but for a name that `if let` binds.
pub open spec fn trace_if(toks: Seq<TokenModel>, lo: int, hi: int, scope: Seq<BindingModel>) -> Seq<
    int,
>
    decreases syntax::span(lo, hi), 2int,
{
    let b = syntax::find(toks, lo + 1, hi, "{"@);
    if lo >= hi || b >= hi {
        Seq::empty()
    } else {
        let e = syntax::next(toks, b, hi);
        let eq = syntax::find(toks, lo + 2, b, "="@);
        let inner = if syntax::at(toks, lo + 1, "let"@) && eq < b {
            with_pattern(toks, scope, lo + 2, eq, trace(toks, eq + 1, b, scope))
        } else {
            scope
        };
        let yes = trace_block(toks, b + 1, e - 1, inner);
        if e < hi && syntax::at(toks, e, "else"@) {
            yes + trace(toks, e + 1, hi, scope)
        } else {
            yes
        }
    }
}

/// The calls that the arms of a match come from, the value matched coming from
/// `producers`.
pub open spec fn trace_arms(
    toks: Seq<TokenModel>,
    lo: int,
    hi: int,
    scope: Seq<BindingModel>,
    producers: Seq<int>,
) -> Seq<int>
    decreases syntax::span(lo, hi), 2int,
{
    let a = syntax::find(toks, lo, hi, "=>"@);
    if lo >= hi || a >= hi {
        Seq::empty()
    } else {
        let guard = syntax::find(toks, lo, a, "if"@);
        let e = arm_end(toks, a + 1, hi);
        proof {
            block_end_is_ahead(toks, a + 1, hi);
        }
        trace(toks, a + 1, e, with_pattern(toks, scope, lo, guard, producers)) + trace_arms(
            toks,
            next_arm(toks, e),
            hi,
            scope,
            producers,
        )
    }
}

/// The calls that the last expression of a block comes from. Its `let`
/// statements bind names in the order in which they stand.
pub open spec fn trace_block(
    toks: Seq<TokenModel>,
    lo: int,
    hi: int,
    scope: Seq<BindingModel>,
) -> Seq<int>
    decreases syntax::span(lo, hi), 4int,
{
    let e = syntax::find(toks, lo, hi, ";"@);
    let k = block_end(toks, lo, hi);
    proof {
        block_end_is_ahead(toks, lo, hi);
    }
    if lo >= hi {
        Seq::empty()
    } else if syntax::at(toks, lo, "let"@) {
        let eq = syntax::find(toks, lo + 1, e, "="@);
        let pe = syntax::find(toks, lo + 1, eq, ":"@);
        let value = trace(toks, eq + 1, syntax::find(toks, eq + 1, e, "else"@), scope);
        let name = if syntax::at(toks, lo + 1, "mut"@) {
            lo + 2
        } else {
            lo + 1
        };
        let inner = if syntax::word_at(toks, name) && pe == name + 1 {
            scope.push(BindingModel { name, producers: value })
        } else {
            with_unknown(scope, pattern_names(toks, lo + 1, pe))
        };
        trace_block(toks, e + 1, hi, inner)
    } else if starts_block(toks, lo) && k < hi && !goes_on(toks, k) {
        trace_block(
            toks,
            if syntax::at(toks, k, ";"@) {
                k + 1
            } else {
                k
            },
            hi,
            scope,
        )
    } else if e < hi {
        trace_block(toks, e + 1, hi, scope)
    } else {
        trace(toks, lo, hi, scope)
    }
}

/// The calls that an expression comes from that begins with a path: a call of a
/// function, a value wrapped by a constructor, or a name in scope.
///
/// A constructor has a capital letter. It passes on the value of its one
/// argument, but for `Err`. A function of a type configures a value and is no
/// source of it.
pub open spec fn trace_path(
    toks: Seq<TokenModel>,
    lo: int,
    hi: int,
    scope: Seq<BindingModel>,
) -> Seq<int>
    decreases syntax::span(lo, hi), 1int,
{
    match path_head(toks, lo, hi) {
        None => Seq::empty(),
        Some(p) => {
            if lo >= hi || !(lo < p.end) {
                Seq::empty()
            } else if p.end < hi && syntax::at(toks, p.end, "("@) {
                let x = syntax::next(toks, p.end, hi);
                let base = if syntax::capital_at(toks, p.last) {
                    match one_part(toks, p.end + 1, x - 1) {
                        Some((a, b)) => if syntax::at(toks, p.last, "Err"@) {
                            Seq::empty()
                        } else {
                            trace(toks, a, b, scope)
                        },
                        None => Seq::empty(),
                    }
                } else if p.qualified_type || (p.qualifier is Some && syntax::capital_at(
                    toks,
                    p.qualifier->0,
                )) {
                    Seq::empty()
                } else {
                    seq![p.last]
                };
                trace_rest(toks, x, hi, base)
            } else if p.end < hi && syntax::at(toks, p.end, "{"@) && syntax::capital_at(
                toks,
                p.last,
            ) {
                let x = syntax::next(toks, p.end, hi);
                let base = match one_part(toks, p.end + 1, x - 1) {
                    Some((a, b)) => if a + 1 < b && syntax::at(toks, a + 1, ":"@) {
                        trace(toks, a + 2, b, scope)
                    } else if b == a + 1 {
                        lookup(toks, scope, a)
                    } else {
                        Seq::empty()
                    },
                    None => Seq::empty(),
                };
                trace_rest(toks, x, hi, base)
            } else if p.end < hi && syntax::at(toks, p.end, "!"@) {
                Seq::empty()
            } else if p.qualified_type || p.qualifier is Some {
                Seq::empty()
            } else {
                trace_rest(toks, p.end, hi, lookup(toks, scope, p.last))
            }
        },
    }
}

/// The places of a scope are places of the file.
pub open spec fn scope_fits(toks: Seq<TokenModel>, scope: Seq<Binding>) -> bool {
    forall|i: int|
        0 <= i < scope.len() ==> (#[trigger] scope[i]).name < toks.len() && places_fit(
            toks,
            scope[i].producers@,
        )
}

/// The places are places of the file.
pub open spec fn places_fit(toks: Seq<TokenModel>, v: Seq<usize>) -> bool {
    forall|i: int| 0 <= i < v.len() ==> #[trigger] v[i] < toks.len()
}

fn same_token_text(code: &Code, i: usize, j: usize) -> (r: bool)
    requires
        i < code@.len(),
        j < code@.len(),
    ensures
        r == (code@[i as int].text == code@[j as int].text),
{
    assert(code@[i as int] == code.toks@[i as int]@);
    assert(code@[j as int] == code.toks@[j as int]@);
    code.toks[i].text == code.toks[j].text
}

fn copy_places(v: &Vec<usize>) -> (r: Vec<usize>)
    ensures
        r@ == v@,
{
    let mut r: Vec<usize> = Vec::new();
    let mut i: usize = 0;
    while i < v.len()
        invariant
            i <= v.len(),
            r@ == v@.take(i as int),
        decreases v.len() - i,
    {
        r.push(v[i]);
        assert(r@ =~= v@.take(i + 1));
        i += 1;
    }
    assert(r@ =~= v@);
    r
}

fn copy_scope(scope: &Vec<Binding>) -> (r: Vec<Binding>)
    ensures
        scope_model(r@) == scope_model(scope@),
        forall|toks: Seq<TokenModel>| #[trigger]
            scope_fits(toks, scope@) ==> scope_fits(toks, r@),
{
    let mut r: Vec<Binding> = Vec::new();
    let mut i: usize = 0;
    while i < scope.len()
        invariant
            i <= scope.len(),
            r.len() == i,
            forall|j: int|
                0 <= j < i ==> (#[trigger] r@[j]).name == scope@[j].name && r@[j].producers@
                    == scope@[j].producers@,
        decreases scope.len() - i,
    {
        r.push(Binding { name: scope[i].name, producers: copy_places(&scope[i].producers) });
        i += 1;
    }
    assert(scope_model(r@) =~= scope_model(scope@));
    assert forall|toks: Seq<TokenModel>| #[trigger] scope_fits(toks, scope@) implies scope_fits(
        toks,
        r@,
    ) by {
        assert forall|j: int| 0 <= j < r@.len() implies (#[trigger] r@[j]).name < toks.len()
            && places_fit(toks, r@[j].producers@) by {
            assert(scope@[j].name < toks.len());
        }
    }
    r
}

fn look_up(code: &Code, scope: &Vec<Binding>, i: usize) -> (r: Vec<usize>)
    requires
        i < code@.len(),
        scope_fits(code@, scope@),
    ensures
        places(r@) == lookup(code@, scope_model(scope@), i as int),
        places_fit(code@, r@),
{
    let ghost all = scope_model(scope@);
    let mut k: usize = scope.len();
    assert(all.take(k as int) =~= all);
    while k > 0
        invariant
            k <= scope.len(),
            i < code@.len(),
            scope_fits(code@, scope@),
            all == scope_model(scope@),
            lookup(code@, all, i as int) == lookup(code@, all.take(k as int), i as int),
        decreases k,
    {
        proof {
            assert(all.take(k as int).last() == scope@[k - 1]@);
            assert(all.take(k as int).drop_last() =~= all.take(k - 1));
        }
        if same_token_text(code, scope[k - 1].name, i) {
            return copy_places(&scope[k - 1].producers);
        }
        k -= 1;
    }
    let r: Vec<usize> = Vec::new();
    assert(places(r@) =~= Seq::empty());
    r
}

fn binds_name(code: &Code, i: usize) -> (r: bool)
    ensures
        r == is_binder(code@, i as int),
{
    if !code.is_word(i) || code.is_capital(i) || code.is(i, "mut") || code.is(i, "ref") || code.is(
        i,
        "_",
    ) || code.is(i, "true") || code.is(i, "false") {
        return false;
    }
    if i > 0 && code.is(i - 1, "::") {
        return false;
    }
    assert(i < code.toks.len());
    !code.is(i + 1, "::") && !code.is(i + 1, ":") && !code.is(i + 1, "(") && !code.is(i + 1, "{")
        && !code.is(i + 1, "!")
}

fn already_named(code: &Code, names: &Vec<usize>, i: usize) -> (r: bool)
    requires
        i < code@.len(),
        places_fit(code@, names@),
    ensures
        r == is_named(code@, places(names@), i as int),
{
    let ghost all = places(names@);
    let mut k: usize = 0;
    while k < names.len()
        invariant
            k <= names.len(),
            i < code@.len(),
            places_fit(code@, names@),
            all == places(names@),
            forall|j: int| 0 <= j < k ==> code@[#[trigger] all[j]].text != code@[i as int].text,
        decreases names.len() - k,
    {
        assert(all[k as int] == names@[k as int]);
        if same_token_text(code, names[k], i) {
            return true;
        }
        k += 1;
    }
    false
}

/// The names that a pattern binds, each once.
pub fn find_pattern_names(code: &Code, lo: usize, hi: usize) -> (r: Vec<usize>)
    requires
        hi <= code@.len(),
    ensures
        places(r@) == pattern_names(code@, lo as int, hi as int),
        places_fit(code@, r@),
{
    let mut r: Vec<usize> = Vec::new();
    let mut i: usize = lo;
    assert(places(r@) =~= Seq::empty());
    while i < hi
        invariant
            lo <= i,
            lo <= hi ==> i <= hi,
            lo > hi ==> i == lo,
            hi <= code@.len(),
            places(r@) == pattern_names(code@, lo as int, i as int),
            places_fit(code@, r@),
        decreases hi - i,
    {
        if binds_name(code, i) && !already_named(code, &r, i) {
            let ghost old_r = places(r@);
            r.push(i);
            assert(places(r@) =~= old_r.push(i as int));
        }
        i += 1;
    }
    r
}

pub(crate) fn extend_unknown(code: &Code, scope: &Vec<Binding>, lo: usize, hi: usize) -> (r: Vec<Binding>)
    requires
        hi <= code@.len(),
        scope_fits(code@, scope@),
    ensures
        scope_model(r@) == with_unknown(
            scope_model(scope@),
            pattern_names(code@, lo as int, hi as int),
        ),
        scope_fits(code@, r@),
{
    let names = find_pattern_names(code, lo, hi);
    let ghost nm = places(names@);
    let ghost base = scope_model(scope@);
    let mut r = copy_scope(scope);
    let mut i: usize = 0;
    assert(with_unknown(base, nm.take(0)) =~= base);
    while i < names.len()
        invariant
            i <= names.len(),
            nm == places(names@),
            places_fit(code@, names@),
            scope_model(r@) == with_unknown(base, nm.take(i as int)),
            scope_fits(code@, r@),
        decreases names.len() - i,
    {
        let b = Binding { name: names[i], producers: Vec::new() };
        let ghost old_r = scope_model(r@);
        r.push(b);
        proof {
            assert(places(b.producers@) =~= Seq::empty());
            assert(scope_model(r@) =~= old_r.push(b@));
            assert(with_unknown(base, nm.take(i + 1)) =~= with_unknown(base, nm.take(i as int)).push(
                BindingModel { name: nm[i as int], producers: Seq::empty() },
            ));
        }
        i += 1;
    }
    assert(nm.take(i as int) =~= nm);
    r
}

fn extend_pattern(
    code: &Code,
    scope: &Vec<Binding>,
    lo: usize,
    hi: usize,
    producers: &Vec<usize>,
) -> (r: Vec<Binding>)
    requires
        hi <= code@.len(),
        scope_fits(code@, scope@),
        places_fit(code@, producers@),
    ensures
        scope_model(r@) == with_pattern(
            code@,
            scope_model(scope@),
            lo as int,
            hi as int,
            places(producers@),
        ),
        scope_fits(code@, r@),
{
    let names = find_pattern_names(code, lo, hi);
    assert(places(names@).len() == names@.len());
    if names.len() == 1 {
        let mut r = copy_scope(scope);
        let b = Binding { name: names[0], producers: copy_places(producers) };
        let ghost old_r = scope_model(r@);
        r.push(b);
        assert(scope_model(r@) =~= old_r.push(b@));
        r
    } else {
        extend_unknown(code, scope, lo, hi)
    }
}

/// A path: its last segment, the one before, whether it begins with a type in
/// angle brackets, and the place behind it.
#[derive(Clone, Copy)]
pub struct Path {
    pub last: usize,
    pub qualifier: Option<usize>,
    pub qualified_type: bool,
    pub end: usize,
}

impl View for Path {
    type V = PathModel;

    open spec fn view(&self) -> PathModel {
        PathModel {
            last: self.last as int,
            qualifier: match self.qualifier {
                Some(q) => Some(q as int),
                None => None,
            },
            qualified_type: self.qualified_type,
            end: self.end as int,
        }
    }
}

fn read_path_from(code: &Code, start: usize, hi: usize, qualified_type: bool) -> (r: Path)
    requires
        code.wf(),
        start < hi <= code@.len(),
    ensures
        r@ == path_from(code@, start as int, hi as int, None, qualified_type),
        start <= r.last < r.end <= hi,
        r.qualifier is Some ==> r.qualifier->0 < code@.len(),
{
    let mut i: usize = start;
    let mut qualifier: Option<usize> = None;
    proof {
        path_from_bounds(code@, start as int, hi as int, None, qualified_type);
    }
    while hi - i > 2 && code.is(i + 1, "::")
        invariant
            code.wf(),
            start <= i < hi <= code@.len(),
            qualifier is Some ==> qualifier->0 < code@.len(),
            path_from(code@, start as int, hi as int, None, qualified_type) == path_from(
                code@,
                i as int,
                hi as int,
                match qualifier {
                    Some(q) => Some(q as int),
                    None => None,
                },
                qualified_type,
            ),
        decreases hi - i,
    {
        if code.is(i + 2, "<") {
            let g: usize = code.find_angle_end(i + 2, hi);
            if g < hi && g + 1 < hi && code.is(g, "::") && code.is_word(g + 1) {
                qualifier = Some(i);
                i = g + 1;
            } else {
                return Path { last: i, qualifier, qualified_type, end: g };
            }
        } else if code.is_word(i + 2) {
            qualifier = Some(i);
            i = i + 2;
        } else {
            return Path { last: i, qualifier, qualified_type, end: i + 1 };
        }
    }
    Path { last: i, qualifier, qualified_type, end: i + 1 }
}

/// The path that an expression begins with, if it begins with one.
pub fn read_path(code: &Code, lo: usize, hi: usize) -> (r: Option<Path>)
    requires
        code.wf(),
        lo < hi <= code@.len(),
    ensures
        match r {
            Some(p) => path_head(code@, lo as int, hi as int) == Some(p@) && lo <= p.last < p.end
                <= hi && (p.qualifier is Some ==> p.qualifier->0 < code@.len()),
            None => path_head(code@, lo as int, hi as int) is None,
        },
{
    if code.is(lo, "<") {
        let g: usize = code.find_angle_end(lo, hi);
        if g < hi && g + 1 < hi && code.is(g, "::") && code.is_word(g + 1) {
            Some(read_path_from(code, g + 1, hi, true))
        } else {
            None
        }
    } else if code.is_word(lo) {
        Some(read_path_from(code, lo, hi, false))
    } else {
        None
    }
}

fn read_one_part(code: &Code, lo: usize, hi: usize) -> (r: Option<(usize, usize)>)
    requires
        code.wf(),
        hi <= code@.len(),
    ensures
        match r {
            Some((a, b)) => one_part(code@, lo as int, hi as int) == Some((a as int, b as int))
                && lo <= a < b <= hi,
            None => one_part(code@, lo as int, hi as int) is None,
        },
{
    if lo >= hi {
        return None;
    }
    let e: usize = code.find_place(lo, hi, ",");
    if e >= hi {
        Some((lo, hi))
    } else if e == hi - 1 && e > lo {
        Some((lo, e))
    } else {
        None
    }
}

fn passes_through(code: &Code, i: usize) -> (r: bool)
    ensures
        r == is_transparent(code@, i as int),
{
    code.is(i, "*") || code.is(i, "&") || code.is(i, "&&") || code.is(i, "-") || code.is(i, "!")
        || code.is(i, "mut") || code.is(i, "unsafe") || code.is(i, "async") || code.is(i, "move")
        || code.is(i, "return")
}

pub(crate) fn begins_block(code: &Code, i: usize) -> (r: bool)
    ensures
        r == starts_block(code@, i as int),
{
    code.is(i, "{") || code.is(i, "if") || code.is(i, "match") || code.is(i, "while") || code.is(
        i,
        "for",
    ) || code.is(i, "loop") || code.is(i, "unsafe")
}

pub(crate) fn continues(code: &Code, i: usize) -> (r: bool)
    ensures
        r == goes_on(code@, i as int),
{
    code.is(i, ".") || code.is(i, "?")
}

pub(crate) fn find_block_end(code: &Code, start: usize, hi: usize) -> (r: usize)
    requires
        code.wf(),
        start < hi <= code@.len(),
    ensures
        r == block_end(code@, start as int, hi as int),
        start < r <= hi,
{
    let mut lo: usize = start;
    proof {
        block_end_is_ahead(code@, start as int, hi as int);
    }
    loop
        invariant
            code.wf(),
            start <= lo < hi <= code@.len(),
            start < block_end(code@, start as int, hi as int) <= hi,
            block_end(code@, start as int, hi as int) == block_end(code@, lo as int, hi as int),
        decreases hi - lo,
    {
        if code.is(lo, "{") {
            return code.next_place(lo, hi);
        }
        let b: usize = code.find_place(lo + 1, hi, "{");
        if b >= hi {
            return hi;
        }
        let e: usize = code.next_place(b, hi);
        if code.is(lo, "if") && e < hi && e + 1 < hi && code.is(e, "else") {
            lo = e + 1;
        } else {
            return e;
        }
    }
}

/// The place behind the body of a match arm.
pub fn find_arm_end(code: &Code, lo: usize, hi: usize) -> (r: usize)
    requires
        code.wf(),
        lo <= hi <= code@.len(),
    ensures
        r == arm_end(code@, lo as int, hi as int),
        lo <= r <= hi,
{
    if lo < hi && begins_block(code, lo) {
        let k: usize = find_block_end(code, lo, hi);
        if continues(code, k) {
            code.find_place(k, hi, ",")
        } else {
            k
        }
    } else {
        code.find_place(lo, hi, ",")
    }
}

/// The place of the arm behind one that ends at `e`.
pub fn find_next_arm(code: &Code, e: usize) -> (r: usize)
    requires
        e <= code@.len(),
    ensures
        r == next_arm(code@, e as int),
        e <= r <= code@.len(),
{
    if code.is(e, ",") {
        assert(e < code.toks.len());
        e + 1
    } else {
        e
    }
}

fn trace_rest_value(code: &Code, start: usize, hi: usize, given: Vec<usize>) -> (r: Vec<usize>)
    requires
        code.wf(),
        hi <= code@.len(),
        places_fit(code@, given@),
    ensures
        places(r@) == trace_rest(code@, start as int, hi as int, places(given@)),
        places_fit(code@, r@),
{
    let ghost whole = trace_rest(code@, start as int, hi as int, places(given@));
    let mut base: Vec<usize> = given;
    let mut i: usize = start;
    while i < hi
        invariant
            code.wf(),
            hi <= code@.len(),
            places_fit(code@, base@),
            whole == trace_rest(code@, start as int, hi as int, places(given@)),
            whole == trace_rest(code@, i as int, hi as int, places(base@)),
        decreases hi - i,
    {
        if code.is(i, "?") {
            i += 1;
        } else if code.is(i, "[") {
            i = code.next_place(i, hi);
        } else if code.is(i, "as") {
            return base;
        } else if code.is(i, ".") && i + 1 < hi {
            let t: usize = if hi - i > 3 && code.is(i + 2, "::") && code.is(i + 3, "<") {
                code.find_angle_end(i + 3, hi)
            } else {
                i + 2
            };
            if t < hi && code.is(t, "(") && code.is_word(i + 1) {
                base = Vec::new();
                base.push(i + 1);
                assert(places(base@) =~= seq![i + 1]);
                i = code.next_place(t, hi);
            } else {
                i = i + 2;
            }
        } else {
            let none: Vec<usize> = Vec::new();
            assert(places(none@) =~= Seq::empty());
            return none;
        }
    }
    base
}

pub(crate) fn no_places() -> (r: Vec<usize>)
    ensures
        places(r@) == Seq::<int>::empty(),
        r@.len() == 0,
{
    let r: Vec<usize> = Vec::new();
    assert(places(r@) =~= Seq::empty());
    r
}

/// The calls that the value of an expression comes from.
pub fn trace_value(code: &Code, lo: usize, hi: usize, scope: &Vec<Binding>) -> (r: Vec<usize>)
    requires
        code.wf(),
        hi <= code@.len(),
        scope_fits(code@, scope@),
    ensures
        places(r@) == trace(code@, lo as int, hi as int, scope_model(scope@)),
        places_fit(code@, r@),
    decreases syntax::span(lo as int, hi as int), 3int,
{
    if lo >= hi {
        no_places()
    } else if code.is(hi - 1, "?") {
        trace_value(code, lo, hi - 1, scope)
    } else if code.is(hi - 1, "await") && hi >= 2 && hi - 2 >= lo && code.is(hi - 2, ".") {
        trace_value(code, lo, hi - 2, scope)
    } else if passes_through(code, lo) {
        trace_value(code, lo + 1, hi, scope)
    } else if code.is_open(lo) && code.next_place(lo, hi) == hi {
        if code.is(lo, "(") {
            match read_one_part(code, lo + 1, hi - 1) {
                Some((a, b)) => trace_value(code, a, b, scope),
                None => no_places(),
            }
        } else if code.is(lo, "{") {
            trace_block_value(code, lo + 1, hi - 1, scope)
        } else {
            no_places()
        }
    } else if code.is(lo, "if") {
        trace_if_value(code, lo, hi, scope)
    } else if code.is(lo, "match") {
        let b: usize = code.find_place(lo + 1, hi, "{");
        if b < hi {
            let producers = trace_value(code, lo + 1, b, scope);
            let e: usize = code.next_place(b, hi);
            trace_arms_value(code, b + 1, e - 1, scope, &producers)
        } else {
            no_places()
        }
    } else {
        trace_path_value(code, lo, hi, scope)
    }
}

pub(crate) fn joined_places(a: Vec<usize>, b: Vec<usize>) -> (r: Vec<usize>)
    ensures
        r@ == a@ + b@,
        places(r@) == places(a@) + places(b@),
{
    let mut r: Vec<usize> = a;
    let mut tail: Vec<usize> = b;
    r.append(&mut tail);
    assert(places(r@) =~= places(a@) + places(b@));
    r
}

fn trace_if_value(code: &Code, lo: usize, hi: usize, scope: &Vec<Binding>) -> (r: Vec<usize>)
    requires
        code.wf(),
        lo < hi <= code@.len(),
        scope_fits(code@, scope@),
    ensures
        places(r@) == trace_if(code@, lo as int, hi as int, scope_model(scope@)),
        places_fit(code@, r@),
    decreases syntax::span(lo as int, hi as int), 2int,
{
    let b: usize = code.find_place(lo + 1, hi, "{");
    if b >= hi {
        return no_places();
    }
    let e: usize = code.next_place(b, hi);
    let inner = if code.is(lo + 1, "let") {
        let eq: usize = code.find_place(lo + 2, b, "=");
        if eq < b {
            let producers = trace_value(code, eq + 1, b, scope);
            extend_pattern(code, scope, lo + 2, eq, &producers)
        } else {
            copy_scope(scope)
        }
    } else {
        copy_scope(scope)
    };
    let yes = trace_block_value(code, b + 1, e - 1, &inner);
    if e < hi && code.is(e, "else") {
        let no = trace_value(code, e + 1, hi, scope);
        joined_places(yes, no)
    } else {
        yes
    }
}

fn trace_arms_value(
    code: &Code,
    lo: usize,
    hi: usize,
    scope: &Vec<Binding>,
    producers: &Vec<usize>,
) -> (r: Vec<usize>)
    requires
        code.wf(),
        hi <= code@.len(),
        scope_fits(code@, scope@),
        places_fit(code@, producers@),
    ensures
        places(r@) == trace_arms(
            code@,
            lo as int,
            hi as int,
            scope_model(scope@),
            places(producers@),
        ),
        places_fit(code@, r@),
    decreases syntax::span(lo as int, hi as int), 2int,
{
    if lo >= hi {
        return no_places();
    }
    let a: usize = code.find_place(lo, hi, "=>");
    if a >= hi {
        return no_places();
    }
    let guard: usize = code.find_place(lo, a, "if");
    let e: usize = find_arm_end(code, a + 1, hi);
    let inner = extend_pattern(code, scope, lo, guard, producers);
    let one = trace_value(code, a + 1, e, &inner);
    let n: usize = find_next_arm(code, e);
    let rest = trace_arms_value(code, n, hi, scope, producers);
    joined_places(one, rest)
}

fn trace_block_value(code: &Code, lo: usize, hi: usize, scope: &Vec<Binding>) -> (r: Vec<usize>)
    requires
        code.wf(),
        hi <= code@.len(),
        scope_fits(code@, scope@),
    ensures
        places(r@) == trace_block(code@, lo as int, hi as int, scope_model(scope@)),
        places_fit(code@, r@),
    decreases syntax::span(lo as int, hi as int), 4int,
{
    if lo >= hi {
        return no_places();
    }
    let e: usize = code.find_place(lo, hi, ";");
    if code.is(lo, "let") {
        let eq: usize = code.find_place(lo + 1, e, "=");
        let pe: usize = code.find_place(lo + 1, eq, ":");
        let value: Vec<usize> = if eq < e {
            let stop: usize = code.find_place(eq + 1, e, "else");
            trace_value(code, eq + 1, stop, scope)
        } else {
            proof {
                let stop = syntax::find(code@, eq + 1, e as int, "else"@);
                syntax::find_is_inside(code@, eq + 1, e as int, "else"@);
                assert(trace(code@, eq + 1, stop, scope_model(scope@)) == Seq::<int>::empty());
            }
            no_places()
        };
        let name: usize = if code.is(lo + 1, "mut") {
            assert(lo + 1 < code.toks.len());
            lo + 2
        } else {
            lo + 1
        };
        let inner = if code.is_word(name) && name < pe && pe - name == 1 {
            let mut s = copy_scope(scope);
            let ghost old_s = scope_model(s@);
            let binding = Binding { name, producers: value };
            s.push(binding);
            assert(scope_model(s@) =~= old_s.push(binding@));
            s
        } else {
            extend_unknown(code, scope, lo + 1, pe)
        };
        if e < hi {
            trace_block_value(code, e + 1, hi, &inner)
        } else {
            assert(trace_block(code@, e + 1, hi as int, scope_model(inner@)) == Seq::<
                int,
            >::empty());
            no_places()
        }
    } else {
        let k: usize = find_block_end(code, lo, hi);
        if begins_block(code, lo) && k < hi && !continues(code, k) {
            if code.is(k, ";") {
                trace_block_value(code, k + 1, hi, scope)
            } else {
                trace_block_value(code, k, hi, scope)
            }
        } else if e < hi {
            trace_block_value(code, e + 1, hi, scope)
        } else {
            trace_value(code, lo, hi, scope)
        }
    }
}

fn trace_path_value(code: &Code, lo: usize, hi: usize, scope: &Vec<Binding>) -> (r: Vec<usize>)
    requires
        code.wf(),
        lo < hi <= code@.len(),
        scope_fits(code@, scope@),
    ensures
        places(r@) == trace_path(code@, lo as int, hi as int, scope_model(scope@)),
        places_fit(code@, r@),
    decreases syntax::span(lo as int, hi as int), 1int,
{
    match read_path(code, lo, hi) {
        None => no_places(),
        Some(p) => {
            if p.end < hi && code.is(p.end, "(") {
                let x: usize = code.next_place(p.end, hi);
                let base: Vec<usize> = if code.is_capital(p.last) {
                    match read_one_part(code, p.end + 1, x - 1) {
                        Some((a, b)) => {
                            if code.is(p.last, "Err") {
                                no_places()
                            } else {
                                trace_value(code, a, b, scope)
                            }
                        },
                        None => no_places(),
                    }
                } else if p.qualified_type || (match p.qualifier {
                    Some(q) => code.is_capital(q),
                    None => false,
                }) {
                    no_places()
                } else {
                    let mut v = no_places();
                    v.push(p.last);
                    assert(places(v@) =~= seq![p.last as int]);
                    v
                };
                trace_rest_value(code, x, hi, base)
            } else if p.end < hi && code.is(p.end, "{") && code.is_capital(p.last) {
                let x: usize = code.next_place(p.end, hi);
                let base: Vec<usize> = match read_one_part(code, p.end + 1, x - 1) {
                    Some((a, b)) => {
                        if b - a > 1 && code.is(a + 1, ":") {
                            trace_value(code, a + 2, b, scope)
                        } else if b - a == 1 {
                            look_up(code, scope, a)
                        } else {
                            no_places()
                        }
                    },
                    None => no_places(),
                };
                trace_rest_value(code, x, hi, base)
            } else if p.end < hi && code.is(p.end, "!") {
                no_places()
            } else if p.qualified_type || p.qualifier.is_some() {
                no_places()
            } else {
                let base = look_up(code, scope, p.last);
                trace_rest_value(code, p.end, hi, base)
            }
        },
    }
}

} // verus!

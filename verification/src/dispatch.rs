//! What a function says about messages: which variants it builds, and which
//! call handles a variant that it matches on.
use vstd::prelude::*;
use crate::lexer::TokenModel;
use crate::syntax;
use crate::syntax::Code;
use crate::trace;
use crate::trace::{find_arm_end, find_next_arm, read_path, trace_value, Binding, BindingModel};

verus! {

broadcast use crate::syntax::group_places;

/// The token at `i` assigns.
pub open spec fn is_assignment(toks: Seq<TokenModel>, i: int) -> bool {
    ||| syntax::at(toks, i, "="@)
    ||| syntax::at(toks, i, "+="@)
    ||| syntax::at(toks, i, "-="@)
    ||| syntax::at(toks, i, "*="@)
    ||| syntax::at(toks, i, "/="@)
    ||| syntax::at(toks, i, "%="@)
    ||| syntax::at(toks, i, "^="@)
    ||| syntax::at(toks, i, "&="@)
    ||| syntax::at(toks, i, "|="@)
    ||| syntax::at(toks, i, "<<="@)
    ||| syntax::at(toks, i, ">>="@)
}

/// Something in `lo..hi` is assigned to, other than by a `let`.
pub open spec fn assigns(toks: Seq<TokenModel>, lo: int, hi: int) -> bool
    decreases syntax::span(lo, hi),
{
    if lo >= hi {
        false
    } else if syntax::at(toks, lo, "let"@) {
        let e = syntax::find(toks, lo, hi, ";"@);
        let eq = syntax::find(toks, lo + 1, e, "="@);
        if eq < e {
            assigns(toks, eq + 1, hi)
        } else {
            assigns(toks, lo + 1, hi)
        }
    } else if is_assignment(toks, lo) {
        true
    } else if syntax::opens(toks, lo) {
        assigns(toks, lo + 1, syntax::next(toks, lo, hi)) || assigns(
            toks,
            syntax::next(toks, lo, hi),
            hi,
        )
    } else {
        assigns(toks, lo + 1, hi)
    }
}

/// The calls that the statements of a block make for their effect alone and
/// whose failure they pass on, each written out as a call.
pub open spec fn effect_calls(toks: Seq<TokenModel>, lo: int, hi: int) -> Seq<int>
    decreases syntax::span(lo, hi),
{
    let e = syntax::find(toks, lo, hi, ";"@);
    let k = trace::block_end(toks, lo, hi);
    proof {
        trace::block_end_is_ahead(toks, lo, hi);
    }
    if lo >= hi {
        Seq::empty()
    } else if trace::starts_block(toks, lo) && k < hi && !trace::goes_on(toks, k) {
        effect_calls(
            toks,
            if syntax::at(toks, k, ";"@) {
                k + 1
            } else {
                k
            },
            hi,
        )
    } else if e < hi {
        let calls = if !syntax::at(toks, lo, "let"@) && syntax::at(toks, e - 1, "?"@) {
            trace::trace(toks, lo, e, Seq::empty())
        } else {
            Seq::empty()
        };
        calls + effect_calls(toks, e + 1, hi)
    } else {
        Seq::empty()
    }
}

/// The calls that handle a message in the arm with the pattern `plo..phi` and
/// the body `lo..hi`: those that its value comes from, or the one call that it
/// makes for its effect. An arm that assigns to anything is left alone.
pub open spec fn arm_calls(toks: Seq<TokenModel>, plo: int, phi: int, lo: int, hi: int) -> Seq<
    int,
> {
    let scope = trace::with_unknown(Seq::empty(), trace::pattern_names(toks, plo, phi));
    let calls = trace::trace(toks, lo, hi, scope);
    if assigns(toks, lo, hi) {
        Seq::empty()
    } else if calls.len() > 0 {
        calls
    } else if lo < hi && syntax::at(toks, lo, "{"@) && syntax::next(toks, lo, hi) == hi {
        let effects = effect_calls(toks, lo + 1, hi - 1);
        if effects.len() == 1 {
            effects
        } else {
            Seq::empty()
        }
    } else {
        Seq::empty()
    }
}

/// A variant, by the places of its enum and of itself.
pub type VariantModel = (int, int);

/// The variant that one alternative of a pattern begins with. What the pattern
/// holds further in is not looked at.
pub open spec fn pattern_variant(toks: Seq<TokenModel>, lo: int, hi: int) -> Seq<VariantModel> {
    match trace::path_head(toks, lo, hi) {
        Some(p) => if lo < hi && p.qualifier is Some && syntax::capital_at(toks, p.last) {
            seq![(p.qualifier->0, p.last)]
        } else {
            Seq::empty()
        },
        None => Seq::empty(),
    }
}

/// The variants that the alternatives of a pattern begin with.
pub open spec fn pattern_variants(toks: Seq<TokenModel>, lo: int, hi: int) -> Seq<VariantModel>
    decreases syntax::span(lo, hi),
{
    if lo >= hi {
        Seq::empty()
    } else {
        let e = syntax::find(toks, lo, hi, "|"@);
        pattern_variant(toks, lo, e) + pattern_variants(toks, e + 1, hi)
    }
}

/// A variant and a call that handles it.
pub type HandleModel = (int, int, int);

/// Every variant with every call.
pub open spec fn handled(variants: Seq<VariantModel>, calls: Seq<int>) -> Seq<HandleModel>
    decreases variants.len(),
{
    if variants.len() == 0 {
        Seq::empty()
    } else {
        let v = variants.last();
        handled(variants.drop_last(), calls) + calls.map_values(|c: int| (v.0, v.1, c))
    }
}

/// What the arms of a match say.
pub open spec fn arm_handles(toks: Seq<TokenModel>, lo: int, hi: int) -> Seq<HandleModel>
    decreases syntax::span(lo, hi),
{
    let a = syntax::find(toks, lo, hi, "=>"@);
    if lo >= hi || a >= hi {
        Seq::empty()
    } else {
        let guard = syntax::find(toks, lo, a, "if"@);
        let e = trace::arm_end(toks, a + 1, hi);
        proof {
            trace::block_end_is_ahead(toks, a + 1, hi);
        }
        handled(
            pattern_variants(toks, lo, guard),
            arm_calls(toks, lo, guard, a + 1, e),
        ) + arm_handles(toks, trace::next_arm(toks, e), hi)
    }
}

/// What the matches in `lo..hi` say.
pub open spec fn handles(toks: Seq<TokenModel>, lo: int, hi: int) -> Seq<HandleModel>
    decreases syntax::span(lo, hi),
{
    if lo >= hi {
        Seq::empty()
    } else {
        let b = syntax::find(toks, lo + 1, hi, "{"@);
        let here = if syntax::at(toks, lo, "match"@) && b < hi {
            arm_handles(toks, b + 1, syntax::next(toks, b, hi) - 1)
        } else {
            Seq::empty()
        };
        here + handles(toks, lo + 1, hi)
    }
}

/// A variant is written at `i`.
pub open spec fn variant_at(toks: Seq<TokenModel>, i: int, hi: int) -> bool {
    &&& i + 2 < hi
    &&& syntax::capital_at(toks, i)
    &&& syntax::at(toks, i + 1, "::"@)
    &&& syntax::capital_at(toks, i + 2)
    &&& !syntax::at(toks, i + 3, "::"@)
}

/// The variants that the expressions in `lo..hi` build. Patterns build nothing.
pub open spec fn constructs(toks: Seq<TokenModel>, lo: int, hi: int) -> Seq<VariantModel>
    decreases syntax::span(lo, hi), 1int,
{
    let b = syntax::find(toks, lo + 1, hi, "{"@);
    if lo >= hi {
        Seq::empty()
    } else if syntax::at(toks, lo, "match"@) && b < hi {
        let e = syntax::next(toks, b, hi);
        constructs(toks, lo + 1, b) + (arm_constructs(toks, b + 1, e - 1) + constructs(
            toks,
            e,
            hi,
        ))
    } else if syntax::at(toks, lo, "let"@) {
        let e = syntax::find(toks, lo, hi, ";"@);
        let eq = syntax::find(toks, lo + 1, e, "="@);
        if eq < e {
            constructs(toks, eq + 1, hi)
        } else {
            constructs(toks, lo + 1, hi)
        }
    } else if syntax::opens(toks, lo) {
        let e = syntax::next(toks, lo, hi);
        constructs(toks, lo + 1, e - 1) + constructs(toks, e, hi)
    } else if variant_at(toks, lo, hi) {
        seq![(lo, lo + 2)] + constructs(toks, lo + 3, hi)
    } else {
        constructs(toks, lo + 1, hi)
    }
}

/// The variants that the guards and the bodies of the arms build.
pub open spec fn arm_constructs(toks: Seq<TokenModel>, lo: int, hi: int) -> Seq<VariantModel>
    decreases syntax::span(lo, hi), 0int,
{
    let a = syntax::find(toks, lo, hi, "=>"@);
    if lo >= hi || a >= hi {
        Seq::empty()
    } else {
        let guard = syntax::find(toks, lo, a, "if"@);
        let e = trace::arm_end(toks, a + 1, hi);
        proof {
            trace::block_end_is_ahead(toks, a + 1, hi);
        }
        constructs(toks, guard, a) + (constructs(toks, a + 1, e) + arm_constructs(
            toks,
            trace::next_arm(toks, e),
            hi,
        ))
    }
}

/// A keyword that a bracket may follow.
pub open spec fn is_keyword(toks: Seq<TokenModel>, i: int) -> bool {
    ||| syntax::at(toks, i, "if"@)
    ||| syntax::at(toks, i, "while"@)
    ||| syntax::at(toks, i, "match"@)
    ||| syntax::at(toks, i, "return"@)
    ||| syntax::at(toks, i, "in"@)
    ||| syntax::at(toks, i, "let"@)
    ||| syntax::at(toks, i, "else"@)
    ||| syntax::at(toks, i, "move"@)
    ||| syntax::at(toks, i, "mut"@)
}

/// The name at `i` is that of something called: its arguments follow, or its
/// generic arguments and then they.
pub open spec fn is_call(toks: Seq<TokenModel>, i: int, hi: int) -> bool {
    let t = if i + 2 < hi && syntax::at(toks, i + 1, "::"@) && syntax::at(toks, i + 2, "<"@) {
        syntax::angle_end(toks, i + 2, hi, 0)
    } else {
        i + 1
    };
    syntax::word_at(toks, i) && !is_keyword(toks, i) && t < hi && syntax::at(toks, t, "("@)
}

/// The names of everything called in `lo..hi`.
pub open spec fn calls(toks: Seq<TokenModel>, lo: int, hi: int) -> Seq<int>
    decreases syntax::span(lo, hi),
{
    if lo >= hi {
        Seq::empty()
    } else if is_call(toks, lo, hi) {
        seq![lo] + calls(toks, lo + 1, hi)
    } else {
        calls(toks, lo + 1, hi)
    }
}

pub open spec fn variant_models(v: Seq<(usize, usize)>) -> Seq<VariantModel> {
    v.map_values(|x: (usize, usize)| (x.0 as int, x.1 as int))
}

pub open spec fn handle_models(v: Seq<(usize, usize, usize)>) -> Seq<HandleModel> {
    v.map_values(|x: (usize, usize, usize)| (x.0 as int, x.1 as int, x.2 as int))
}

/// The places of the variants are places of the file.
pub open spec fn variants_fit(toks: Seq<TokenModel>, v: Seq<(usize, usize)>) -> bool {
    forall|i: int| 0 <= i < v.len() ==> (#[trigger] v[i]).0 < toks.len() && v[i].1 < toks.len()
}

/// The places of the handled variants and of the calls are places of the file.
pub open spec fn handles_fit(toks: Seq<TokenModel>, v: Seq<(usize, usize, usize)>) -> bool {
    forall|i: int|
        0 <= i < v.len() ==> (#[trigger] v[i]).0 < toks.len() && v[i].1 < toks.len() && v[i].2
            < toks.len()
}

fn assigns_at(code: &Code, i: usize) -> (r: bool)
    ensures
        r == is_assignment(code@, i as int),
{
    code.is(i, "=") || code.is(i, "+=") || code.is(i, "-=") || code.is(i, "*=") || code.is(i, "/=")
        || code.is(i, "%=") || code.is(i, "^=") || code.is(i, "&=") || code.is(i, "|=") || code.is(
        i,
        "<<=",
    ) || code.is(i, ">>=")
}

fn assigns_in(code: &Code, lo: usize, hi: usize) -> (r: bool)
    requires
        code.wf(),
        hi <= code@.len(),
    ensures
        r == assigns(code@, lo as int, hi as int),
    decreases syntax::span(lo as int, hi as int),
{
    let mut i: usize = lo;
    while i < hi
        invariant
            code.wf(),
            lo <= i,
            hi <= code@.len(),
            assigns(code@, lo as int, hi as int) == assigns(code@, i as int, hi as int),
        decreases hi - i,
    {
        if code.is(i, "let") {
            let e: usize = code.find_place(i, hi, ";");
            let eq: usize = code.find_place(i + 1, e, "=");
            if eq < e {
                i = eq + 1;
            } else {
                i = i + 1;
            }
        } else if assigns_at(code, i) {
            return true;
        } else if code.is_open(i) {
            let n: usize = code.next_place(i, hi);
            if assigns_in(code, i + 1, n) {
                return true;
            }
            i = n;
        } else {
            i = i + 1;
        }
    }
    false
}

fn effect_calls_in(code: &Code, lo: usize, hi: usize) -> (r: Vec<usize>)
    requires
        code.wf(),
        hi <= code@.len(),
    ensures
        trace::places(r@) == effect_calls(code@, lo as int, hi as int),
        trace::places_fit(code@, r@),
{
    let scope: Vec<Binding> = Vec::new();
    assert(trace::scope_model(scope@) =~= Seq::empty());
    let mut r: Vec<usize> = Vec::new();
    let mut i: usize = lo;
    assert(trace::places(r@) + effect_calls(code@, lo as int, hi as int) =~= effect_calls(
        code@,
        lo as int,
        hi as int,
    ));
    while i < hi
        invariant
            code.wf(),
            hi <= code@.len(),
            scope@.len() == 0,
            trace::scope_model(scope@) == Seq::<BindingModel>::empty(),
            trace::places_fit(code@, r@),
            trace::places(r@) + effect_calls(code@, i as int, hi as int) == effect_calls(
                code@,
                lo as int,
                hi as int,
            ),
        decreases hi - i,
    {
        let e: usize = code.find_place(i, hi, ";");
        let k: usize = trace::find_block_end(code, i, hi);
        if trace::begins_block(code, i) && k < hi && !trace::continues(code, k) {
            if code.is(k, ";") {
                i = k + 1;
            } else {
                i = k;
            }
        } else if e < hi {
            let ghost sofar = trace::places(r@);
            let ghost rest = effect_calls(code@, e + 1, hi as int);
            if !code.is(i, "let") && e > 0 && code.is(e - 1, "?") {
                let calls = trace_value(code, i, e, &scope);
                let ghost found = trace::places(calls@);
                r = trace::joined_places(r, calls);
                assert(sofar + (found + rest) =~= (sofar + found) + rest);
            } else {
                assert(sofar + (Seq::<int>::empty() + rest) =~= sofar + rest);
            }
            i = e + 1;
        } else {
            assert(trace::places(r@) + Seq::<int>::empty() =~= trace::places(r@));
            return r;
        }
    }
    assert(trace::places(r@) + Seq::<int>::empty() =~= trace::places(r@));
    r
}

fn arm_calls_in(code: &Code, plo: usize, phi: usize, lo: usize, hi: usize) -> (r: Vec<usize>)
    requires
        code.wf(),
        phi <= code@.len(),
        hi <= code@.len(),
    ensures
        trace::places(r@) == arm_calls(code@, plo as int, phi as int, lo as int, hi as int),
        trace::places_fit(code@, r@),
{
    if assigns_in(code, lo, hi) {
        return trace::no_places();
    }
    let empty: Vec<Binding> = Vec::new();
    assert(trace::scope_model(empty@) =~= Seq::empty());
    let scope = trace::extend_unknown(code, &empty, plo, phi);
    let calls = trace_value(code, lo, hi, &scope);
    assert(trace::places(calls@).len() == calls@.len());
    if calls.len() > 0 {
        calls
    } else if lo < hi && code.is(lo, "{") && code.next_place(lo, hi) == hi {
        let effects = effect_calls_in(code, lo + 1, hi - 1);
        assert(trace::places(effects@).len() == effects@.len());
        if effects.len() == 1 {
            effects
        } else {
            trace::no_places()
        }
    } else {
        trace::no_places()
    }
}

fn pattern_variants_in(code: &Code, lo: usize, hi: usize) -> (r: Vec<(usize, usize)>)
    requires
        code.wf(),
        hi <= code@.len(),
    ensures
        variant_models(r@) == pattern_variants(code@, lo as int, hi as int),
        variants_fit(code@, r@),
{
    let ghost whole = pattern_variants(code@, lo as int, hi as int);
    let mut r: Vec<(usize, usize)> = Vec::new();
    let mut i: usize = lo;
    assert(variant_models(r@) + whole =~= whole);
    while i < hi
        invariant
            code.wf(),
            hi <= code@.len(),
            whole == pattern_variants(code@, lo as int, hi as int),
            variants_fit(code@, r@),
            variant_models(r@) + pattern_variants(code@, i as int, hi as int) == whole,
        decreases hi - i,
    {
        let e: usize = code.find_place(i, hi, "|");
        let ghost sofar = variant_models(r@);
        let ghost rest = pattern_variants(code@, e + 1, hi as int);
        let ghost here = pattern_variant(code@, i as int, e as int);
        if i < e {
            match read_path(code, i, e) {
                Some(p) => {
                    if let Some(q) = p.qualifier {
                        if code.is_capital(p.last) {
                            r.push((q, p.last));
                            assert(variant_models(r@) =~= sofar.push((q as int, p.last as int)));
                            assert(here == seq![(q as int, p.last as int)]);
                        }
                    }
                },
                None => {},
            }
        }
        proof {
            assert(variant_models(r@) =~= sofar + here);
            assert(sofar + (here + rest) =~= (sofar + here) + rest);
        }
        if e >= hi {
            assert(rest =~= Seq::empty());
            assert(variant_models(r@) + rest =~= variant_models(r@));
            return r;
        }
        i = e + 1;
    }
    assert(variant_models(r@) + Seq::<VariantModel>::empty() =~= variant_models(r@));
    r
}

fn add_handled(
    code: &Code,
    variants: &Vec<(usize, usize)>,
    calls: &Vec<usize>,
    out: &mut Vec<(usize, usize, usize)>,
)
    requires
        variants_fit(code@, variants@),
        trace::places_fit(code@, calls@),
        handles_fit(code@, old(out)@),
    ensures
        handle_models(final(out)@) == handle_models(old(out)@) + handled(
            variant_models(variants@),
            trace::places(calls@),
        ),
        handles_fit(code@, final(out)@),
{
    let ghost start = handle_models(out@);
    let ghost vm = variant_models(variants@);
    let ghost cm = trace::places(calls@);
    let mut i: usize = 0;
    proof {
        assert(vm.take(0) =~= Seq::empty());
        assert(start + handled(vm.take(0), cm) =~= start);
    }
    while i < variants.len()
        invariant
            i <= variants.len(),
            vm == variant_models(variants@),
            cm == trace::places(calls@),
            variants_fit(code@, variants@),
            trace::places_fit(code@, calls@),
            handles_fit(code@, out@),
            handle_models(out@) == start + handled(vm.take(i as int), cm),
        decreases variants.len() - i,
    {
        let (h, v) = variants[i];
        let ghost sofar = handle_models(out@);
        let ghost row = cm.map_values(|c: int| (h as int, v as int, c));
        let mut j: usize = 0;
        assert(sofar + row.take(0) =~= sofar);
        while j < calls.len()
            invariant
                i < variants.len(),
                j <= calls.len(),
                cm == trace::places(calls@),
                row == cm.map_values(|c: int| (h as int, v as int, c)),
                h < code@.len(),
                v < code@.len(),
                trace::places_fit(code@, calls@),
                handles_fit(code@, out@),
                handle_models(out@) == sofar + row.take(j as int),
            decreases calls.len() - j,
        {
            let ghost now = handle_models(out@);
            out.push((h, v, calls[j]));
            proof {
                assert(handle_models(out@) =~= now.push((h as int, v as int, calls@[j as int] as int)));
                assert(row.take(j + 1) =~= row.take(j as int).push(row[j as int]));
                assert(sofar + row.take(j + 1) =~= (sofar + row.take(j as int)).push(
                    row[j as int],
                ));
            }
            j += 1;
        }
        proof {
            assert(row.take(j as int) =~= row);
            assert(vm.take(i + 1).drop_last() =~= vm.take(i as int));
            assert(vm.take(i + 1).last() == (h as int, v as int));
            let before = handled(vm.take(i as int), cm);
            assert(handled(vm.take(i + 1), cm) =~= before + row);
            assert(start + (before + row) =~= (start + before) + row);
        }
        i += 1;
    }
    assert(vm.take(i as int) =~= vm);
}

fn add_arm_handles(code: &Code, lo: usize, hi: usize, out: &mut Vec<(usize, usize, usize)>)
    requires
        code.wf(),
        hi <= code@.len(),
        handles_fit(code@, old(out)@),
    ensures
        handle_models(final(out)@) == handle_models(old(out)@) + arm_handles(
            code@,
            lo as int,
            hi as int,
        ),
        handles_fit(code@, final(out)@),
{
    let ghost start = handle_models(out@);
    let ghost whole = arm_handles(code@, lo as int, hi as int);
    let mut i: usize = lo;
    while i < hi
        invariant
            start == handle_models(old(out)@),
            code.wf(),
            hi <= code@.len(),
            whole == arm_handles(code@, lo as int, hi as int),
            handles_fit(code@, out@),
            handle_models(out@) + arm_handles(code@, i as int, hi as int) == start + whole,
        decreases syntax::span(i as int, hi as int),
    {
        let a: usize = code.find_place(i, hi, "=>");
        if a >= hi {
            assert(handle_models(out@) + Seq::<HandleModel>::empty() =~= handle_models(out@));
            return ;
        }
        let guard: usize = code.find_place(i, a, "if");
        let e: usize = find_arm_end(code, a + 1, hi);
        let variants = pattern_variants_in(code, i, guard);
        let calls = arm_calls_in(code, i, guard, a + 1, e);
        let ghost sofar = handle_models(out@);
        add_handled(code, &variants, &calls, out);
        let n: usize = find_next_arm(code, e);
        proof {
            let here = handled(variant_models(variants@), trace::places(calls@));
            let rest = arm_handles(code@, n as int, hi as int);
            assert(sofar + (here + rest) =~= (sofar + here) + rest);
        }
        i = n;
    }
    assert(handle_models(out@) + Seq::<HandleModel>::empty() =~= handle_models(out@));
}

/// What the matches in a range say.
pub fn find_handles(code: &Code, lo: usize, hi: usize) -> (r: Vec<(usize, usize, usize)>)
    requires
        code.wf(),
        hi <= code@.len(),
    ensures
        handle_models(r@) == handles(code@, lo as int, hi as int),
        handles_fit(code@, r@),
{
    let ghost whole = handles(code@, lo as int, hi as int);
    let mut r: Vec<(usize, usize, usize)> = Vec::new();
    let mut i: usize = lo;
    assert(handle_models(r@) + whole =~= whole);
    while i < hi
        invariant
            code.wf(),
            hi <= code@.len(),
            whole == handles(code@, lo as int, hi as int),
            handles_fit(code@, r@),
            handle_models(r@) + handles(code@, i as int, hi as int) == whole,
        decreases hi - i,
    {
        let ghost sofar = handle_models(r@);
        let ghost rest = handles(code@, i + 1, hi as int);
        if code.is(i, "match") {
            let b: usize = code.find_place(i + 1, hi, "{");
            if b < hi {
                let e: usize = code.next_place(b, hi);
                add_arm_handles(code, b + 1, e - 1, &mut r);
                proof {
                    let here = arm_handles(code@, b + 1, e - 1);
                    assert(sofar + (here + rest) =~= (sofar + here) + rest);
                }
            } else {
                assert(sofar + (Seq::<HandleModel>::empty() + rest) =~= sofar + rest);
            }
        } else {
            assert(sofar + (Seq::<HandleModel>::empty() + rest) =~= sofar + rest);
        }
        i += 1;
    }
    assert(handle_models(r@) + Seq::<HandleModel>::empty() =~= handle_models(r@));
    r
}

fn is_variant(code: &Code, i: usize, hi: usize) -> (r: bool)
    requires
        i < hi <= code@.len(),
    ensures
        r == variant_at(code@, i as int, hi as int),
{
    hi - i > 2 && code.is_capital(i) && code.is(i + 1, "::") && code.is_capital(i + 2) && !{
        assert(i + 2 < code.toks.len());
        code.is(i + 3, "::")
    }
}

fn add_constructs(code: &Code, lo: usize, hi: usize, out: &mut Vec<(usize, usize)>)
    requires
        code.wf(),
        hi <= code@.len(),
        variants_fit(code@, old(out)@),
    ensures
        variant_models(final(out)@) == variant_models(old(out)@) + constructs(
            code@,
            lo as int,
            hi as int,
        ),
        variants_fit(code@, final(out)@),
    decreases syntax::span(lo as int, hi as int), 1int,
{
    let ghost start = variant_models(out@);
    let ghost whole = constructs(code@, lo as int, hi as int);
    let mut i: usize = lo;
    while i < hi
        invariant
            code.wf(),
            lo <= i,
            hi <= code@.len(),
            whole == constructs(code@, lo as int, hi as int),
            variants_fit(code@, out@),
            variant_models(out@) + constructs(code@, i as int, hi as int) == start + whole,
        decreases hi - i,
    {
        let ghost sofar = variant_models(out@);
        let b: usize = code.find_place(i + 1, hi, "{");
        if code.is(i, "match") && b < hi {
            let e: usize = code.next_place(b, hi);
            add_constructs(code, i + 1, b, out);
            add_arm_constructs(code, b + 1, e - 1, out);
            proof {
                let x = constructs(code@, i + 1, b as int);
                let y = arm_constructs(code@, b + 1, e - 1);
                let z = constructs(code@, e as int, hi as int);
                assert(sofar + (x + (y + z)) =~= ((sofar + x) + y) + z);
            }
            i = e;
        } else if code.is(i, "let") {
            let e: usize = code.find_place(i, hi, ";");
            let eq: usize = code.find_place(i + 1, e, "=");
            if eq < e {
                i = eq + 1;
            } else {
                i = i + 1;
            }
        } else if code.is_open(i) {
            let e: usize = code.next_place(i, hi);
            add_constructs(code, i + 1, e - 1, out);
            proof {
                let x = constructs(code@, i + 1, e - 1);
                let z = constructs(code@, e as int, hi as int);
                assert(sofar + (x + z) =~= (sofar + x) + z);
            }
            i = e;
        } else if is_variant(code, i, hi) {
            out.push((i, i + 2));
            proof {
                assert(variant_models(out@) =~= sofar.push((i as int, i + 2)));
                let z = constructs(code@, i + 3, hi as int);
                assert(sofar + (seq![(i as int, i + 2)] + z) =~= sofar.push((i as int, i + 2)) + z);
            }
            i = i + 3;
        } else {
            i = i + 1;
        }
    }
    assert(variant_models(out@) + Seq::<VariantModel>::empty() =~= variant_models(out@));
}

fn add_arm_constructs(code: &Code, lo: usize, hi: usize, out: &mut Vec<(usize, usize)>)
    requires
        code.wf(),
        hi <= code@.len(),
        variants_fit(code@, old(out)@),
    ensures
        variant_models(final(out)@) == variant_models(old(out)@) + arm_constructs(
            code@,
            lo as int,
            hi as int,
        ),
        variants_fit(code@, final(out)@),
    decreases syntax::span(lo as int, hi as int), 0int,
{
    let ghost start = variant_models(out@);
    let ghost whole = arm_constructs(code@, lo as int, hi as int);
    let mut i: usize = lo;
    while i < hi
        invariant
            start == variant_models(old(out)@),
            code.wf(),
            lo <= i,
            hi <= code@.len(),
            whole == arm_constructs(code@, lo as int, hi as int),
            variants_fit(code@, out@),
            variant_models(out@) + arm_constructs(code@, i as int, hi as int) == start + whole,
        decreases syntax::span(i as int, hi as int),
    {
        let ghost sofar = variant_models(out@);
        let a: usize = code.find_place(i, hi, "=>");
        if a >= hi {
            assert(variant_models(out@) + Seq::<VariantModel>::empty() =~= variant_models(out@));
            return ;
        }
        let guard: usize = code.find_place(i, a, "if");
        let e: usize = find_arm_end(code, a + 1, hi);
        add_constructs(code, guard, a, out);
        add_constructs(code, a + 1, e, out);
        let n: usize = find_next_arm(code, e);
        proof {
            let x = constructs(code@, guard as int, a as int);
            let y = constructs(code@, a + 1, e as int);
            let z = arm_constructs(code@, n as int, hi as int);
            assert(sofar + (x + (y + z)) =~= ((sofar + x) + y) + z);
        }
        i = n;
    }
    assert(variant_models(out@) + Seq::<VariantModel>::empty() =~= variant_models(out@));
}

/// The variants that the expressions in a range build.
pub fn find_constructs(code: &Code, lo: usize, hi: usize) -> (r: Vec<(usize, usize)>)
    requires
        code.wf(),
        hi <= code@.len(),
    ensures
        variant_models(r@) == constructs(code@, lo as int, hi as int),
        variants_fit(code@, r@),
{
    let mut r: Vec<(usize, usize)> = Vec::new();
    add_constructs(code, lo, hi, &mut r);
    assert(variant_models(r@) =~= constructs(code@, lo as int, hi as int));
    r
}

fn is_keyword_at(code: &Code, i: usize) -> (r: bool)
    ensures
        r == is_keyword(code@, i as int),
{
    code.is(i, "if") || code.is(i, "while") || code.is(i, "match") || code.is(i, "return")
        || code.is(i, "in") || code.is(i, "let") || code.is(i, "else") || code.is(i, "move")
        || code.is(i, "mut")
}

/// The names of everything called in a range.
pub fn find_calls(code: &Code, lo: usize, hi: usize) -> (r: Vec<usize>)
    requires
        code.wf(),
        hi <= code@.len(),
    ensures
        trace::places(r@) == calls(code@, lo as int, hi as int),
        trace::places_fit(code@, r@),
{
    let ghost whole = calls(code@, lo as int, hi as int);
    let mut r: Vec<usize> = Vec::new();
    let mut i: usize = lo;
    assert(trace::places(r@) + whole =~= whole);
    while i < hi
        invariant
            code.wf(),
            hi <= code@.len(),
            whole == calls(code@, lo as int, hi as int),
            trace::places_fit(code@, r@),
            trace::places(r@) + calls(code@, i as int, hi as int) == whole,
        decreases hi - i,
    {
        let t: usize = if hi - i > 2 && code.is(i + 1, "::") && code.is(i + 2, "<") {
            code.find_angle_end(i + 2, hi)
        } else {
            i + 1
        };
        if code.is_word(i) && !is_keyword_at(code, i) && t < hi && code.is(t, "(") {
            let ghost sofar = trace::places(r@);
            r.push(i);
            proof {
                assert(trace::places(r@) =~= sofar.push(i as int));
                let rest = calls(code@, i + 1, hi as int);
                assert(sofar + (seq![i as int] + rest) =~= sofar.push(i as int) + rest);
            }
        }
        i += 1;
    }
    assert(trace::places(r@) + Seq::<int>::empty() =~= trace::places(r@));
    r
}

} // verus!

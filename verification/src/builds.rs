//! Laws on what a function builds: every variant that it writes outside of patterns,
//! however deep.
use vstd::prelude::*;
use crate::dispatch;
use crate::graph;
use crate::graph::{EdgeKind, EdgeModel, HopModel, SyntaxModel};
use crate::items;
use crate::items::{ItemKind, ItemModel};
use crate::lexer::TokenModel;
use crate::syntax;
use crate::trace;

verus! {

broadcast use crate::syntax::group_places;

/// A variant is written at `i`: its enum, two colons and its own name, and no more
/// colons behind it.
pub open spec fn is_written(toks: Seq<TokenModel>, i: int) -> bool {
    &&& syntax::capital_at(toks, i)
    &&& syntax::at(toks, i + 1, "::"@)
    &&& syntax::capital_at(toks, i + 2)
    &&& !syntax::at(toks, i + 3, "::"@)
}

/// The place lies between the `let` at `l` and its `=`.
pub open spec fn in_let(toks: Seq<TokenModel>, l: int, h: int, i: int) -> bool {
    let e = syntax::find(toks, l, h, ";"@);
    let q = syntax::find(toks, l + 1, e, "="@);
    syntax::at(toks, l, "let"@) && l < i < q && q < e
}

/// The places are those at which the first arms of a match begin that stands in the
/// places from `first` to `end`, one after the other.
pub open spec fn are_arms(toks: Seq<TokenModel>, arms: Seq<int>, first: int, end: int) -> bool {
    &&& arms.len() > 0
    &&& arms[0] == first
    &&& forall|k: int|
        0 <= k < arms.len() - 1 ==> (#[trigger] arms[k]) < end && syntax::find(
            toks,
            arms[k],
            end,
            "=>"@,
        ) < end && arms[k + 1] == trace::next_arm(
            toks,
            trace::arm_end(toks, syntax::find(toks, arms[k], end, "=>"@) + 1, end),
        )
}

/// The place lies in the pattern of the last of these arms of the `match` at `m`:
/// before its guard, or before its arrow where it has none.
pub open spec fn in_arm(toks: Seq<TokenModel>, m: int, h: int, arms: Seq<int>, i: int) -> bool {
    let b = syntax::find(toks, m + 1, h, "{"@);
    let end = syntax::next(toks, b, h) - 1;
    let a = syntax::find(toks, arms.last(), end, "=>"@);
    &&& syntax::at(toks, m, "match"@)
    &&& m < b < h
    &&& are_arms(toks, arms, b + 1, end)
    &&& arms.last() <= i < if a < end {
        syntax::find(toks, arms.last(), a, "if"@)
    } else {
        end
    }
}

/// The place lies in a pattern, of a `let` or of an arm, before `top`.
pub open spec fn in_pattern(toks: Seq<TokenModel>, top: int, i: int) -> bool {
    ||| exists|l: int, h: int| h <= top && #[trigger] in_let(toks, l, h, i)
    ||| exists|m: int, h: int, arms: Seq<int>| h <= top && #[trigger] in_arm(toks, m, h, arms, i)
}

/// Every group that is opened in the range is closed in it.
pub open spec fn is_closed(toks: Seq<TokenModel>, lo: int, hi: int) -> bool {
    forall|i: int|
        lo <= i < hi && #[trigger] syntax::opens(toks, i) ==> syntax::after(toks, i) <= hi
}

/// What stands behind an `else` is a block or another `if`, and no other bracket.
pub open spec fn elses_have_blocks(toks: Seq<TokenModel>, lo: int, hi: int) -> bool {
    forall|i: int|
        lo <= i < hi && #[trigger] syntax::at(toks, i, "else"@) ==> !syntax::opens(toks, i + 1)
            || syntax::at(toks, i + 1, "{"@)
}

proof fn deeper_ends_later(toks: Seq<TokenModel>, j: int, c: nat, d: nat)
    requires
        0 <= j <= toks.len(),
        1 <= c < d,
        syntax::group_end(toks, j, d) < toks.len(),
    ensures
        syntax::group_end(toks, j, c) < syntax::group_end(toks, j, d),
    decreases toks.len() - j,
{
    if j < toks.len() {
        if syntax::opens(toks, j) {
            deeper_ends_later(toks, j + 1, c + 1, d + 1);
        } else if syntax::closes(toks, j) {
            if c <= 1 {
                syntax::group_end_bounds(toks, j + 1, (d - 1) as nat);
            } else {
                deeper_ends_later(toks, j + 1, (c - 1) as nat, (d - 1) as nat);
            }
        } else {
            deeper_ends_later(toks, j + 1, c, d);
        }
    }
}

proof fn depth_inside(toks: Seq<TokenModel>, j: int, d: nat, i: int) -> (e: nat)
    requires
        0 <= j <= i < syntax::group_end(toks, j, d),
        syntax::group_end(toks, j, d) <= toks.len(),
        d >= 1,
    ensures
        e >= 1,
        syntax::group_end(toks, i, e) == syntax::group_end(toks, j, d),
    decreases i - j,
{
    if i == j {
        d
    } else if syntax::opens(toks, j) {
        depth_inside(toks, j + 1, d + 1, i)
    } else if syntax::closes(toks, j) {
        depth_inside(toks, j + 1, (d - 1) as nat, i)
    } else {
        depth_inside(toks, j + 1, d, i)
    }
}

proof fn groups_end_with_a_bracket(toks: Seq<TokenModel>, j: int, d: nat)
    requires
        0 <= j <= toks.len(),
        syntax::group_end(toks, j, d) < toks.len(),
    ensures
        syntax::closes(toks, syntax::group_end(toks, j, d) - 1),
        j < syntax::group_end(toks, j, d),
    decreases toks.len() - j,
{
    if j < toks.len() {
        syntax::group_end_bounds(toks, j, d);
        if syntax::opens(toks, j) {
            groups_end_with_a_bracket(toks, j + 1, d + 1);
        } else if syntax::closes(toks, j) {
            if d > 1 {
                groups_end_with_a_bracket(toks, j + 1, (d - 1) as nat);
            }
        } else {
            groups_end_with_a_bracket(toks, j + 1, d);
        }
    }
}

proof fn inner_groups_are_closed(toks: Seq<TokenModel>, o: int)
    requires
        syntax::opens(toks, o),
        syntax::after(toks, o) < toks.len(),
    ensures
        syntax::closes(toks, syntax::after(toks, o) - 1),
        o + 1 < syntax::after(toks, o),
        is_closed(toks, o + 1, syntax::after(toks, o) - 1),
{
    let e = syntax::after(toks, o);
    groups_end_with_a_bracket(toks, o + 1, 1);
    assert forall|i: int|
        o + 1 <= i < e - 1 && #[trigger] syntax::opens(toks, i) implies syntax::after(toks, i) <= e
        - 1 by {
        let d = depth_inside(toks, o + 1, 1, i);
        deeper_ends_later(toks, i + 1, 1, d + 1);
    }
}

proof fn steps_are_closed(toks: Seq<TokenModel>, lo: int, hi: int)
    requires
        0 <= lo < hi < toks.len(),
        is_closed(toks, lo, hi),
    ensures
        is_closed(toks, lo, syntax::next(toks, lo, hi)),
        syntax::opens(toks, lo) ==> syntax::next(toks, lo, hi) == syntax::after(toks, lo),
{
    if syntax::opens(toks, lo) {
        inner_groups_are_closed(toks, lo);
        let e = syntax::after(toks, lo);
        assert forall|i: int|
            lo <= i < e && #[trigger] syntax::opens(toks, i) implies syntax::after(toks, i) <= e by {
            marks_are_no_names(toks, e - 1);
        }
    }
}

proof fn finds_are_closed(toks: Seq<TokenModel>, lo: int, hi: int, s: Seq<char>)
    requires
        0 <= lo <= hi < toks.len(),
        is_closed(toks, lo, hi),
    ensures
        is_closed(toks, lo, syntax::find(toks, lo, hi, s)),
    decreases hi - lo,
{
    if lo < hi && !syntax::at(toks, lo, s) {
        let n = syntax::next(toks, lo, hi);
        steps_are_closed(toks, lo, hi);
        finds_are_closed(toks, n, hi, s);
        let x = syntax::find(toks, n, hi, s);
        assert forall|i: int|
            lo <= i < x && #[trigger] syntax::opens(toks, i) implies syntax::after(toks, i) <= x by {
            if i < n {
                assert(syntax::after(toks, i) <= n);
            }
        }
    }
}

proof fn ranges_join(toks: Seq<TokenModel>, lo: int, mid: int, hi: int)
    requires
        lo <= mid <= hi,
        is_closed(toks, lo, mid),
        is_closed(toks, mid, hi),
    ensures
        is_closed(toks, lo, hi),
{
    assert forall|i: int|
        lo <= i < hi && #[trigger] syntax::opens(toks, i) implies syntax::after(toks, i) <= hi by {
        if i < mid {
            assert(syntax::after(toks, i) <= mid);
        }
    }
}

proof fn marks_are_no_names(toks: Seq<TokenModel>, x: int)
    ensures
        syntax::opens(toks, x) || syntax::closes(toks, x) || syntax::at(toks, x, ","@)
            || syntax::at(toks, x, "=>"@) || syntax::at(toks, x, "="@) || syntax::at(
            toks,
            x,
            "match"@,
        ) || syntax::at(toks, x, "let"@) ==> !syntax::capital_at(toks, x) && !syntax::at(
            toks,
            x,
            "::"@,
        ),
        syntax::closes(toks, x) ==> !syntax::opens(toks, x),
        syntax::at(toks, x, "match"@) || syntax::at(toks, x, "let"@) || syntax::at(
            toks,
            x,
            "=>"@,
        ) || syntax::capital_at(toks, x) || syntax::at(toks, x, "if"@) || syntax::at(
            toks,
            x,
            "else"@,
        ) ==> !syntax::opens(toks, x),
        syntax::capital_at(toks, x) ==> !syntax::at(toks, x, "match"@) && !syntax::at(
            toks,
            x,
            "let"@,
        ) && !syntax::at(toks, x, "::"@),
{
    reveal_strlit("(");
    reveal_strlit("[");
    reveal_strlit("{");
    reveal_strlit(")");
    reveal_strlit("]");
    reveal_strlit("}");
    reveal_strlit(",");
    reveal_strlit("=>");
    reveal_strlit("=");
    reveal_strlit("match");
    reveal_strlit("let");
    reveal_strlit("if");
    reveal_strlit("else");
    reveal_strlit("::");
    if 0 <= x < toks.len() {
        let t = toks[x].text;
        assert(t == "=>"@ || t == "="@ ==> t[0] == '=');
        assert(t == "::"@ ==> t[0] == ':');
    }
}

proof fn block_ends_are_closed(toks: Seq<TokenModel>, lo: int, hi: int)
    requires
        0 <= lo <= hi < toks.len(),
        is_closed(toks, lo, hi),
        elses_have_blocks(toks, lo, hi),
        lo < hi ==> !syntax::opens(toks, lo) || syntax::at(toks, lo, "{"@),
    ensures
        is_closed(toks, lo, trace::block_end(toks, lo, hi)),
        trace::block_end(toks, lo, hi) == hi || syntax::closes(
            toks,
            trace::block_end(toks, lo, hi) - 1,
        ),
    decreases hi - lo,
{
    trace::block_end_is_ahead(toks, lo, hi);
    if lo < hi {
        if syntax::at(toks, lo, "{"@) {
            steps_are_closed(toks, lo, hi);
            inner_groups_are_closed(toks, lo);
        } else {
            let b = syntax::find(toks, lo + 1, hi, "{"@);
            let e = syntax::next(toks, b, hi);
            finds_are_closed(toks, lo + 1, hi, "{"@);
            assert(is_closed(toks, lo, b));
            if b < hi {
                steps_are_closed(toks, b, hi);
                inner_groups_are_closed(toks, b);
                ranges_join(toks, lo, b, e);
                if syntax::at(toks, lo, "if"@) && e + 1 < hi && syntax::at(toks, e, "else"@) {
                    marks_are_no_names(toks, e);
                    assert(is_closed(toks, lo, e + 1)) by {
                        assert forall|i: int|
                            lo <= i < e + 1 && #[trigger] syntax::opens(
                                toks,
                                i,
                            ) implies syntax::after(toks, i) <= e + 1 by {
                            if i < e {
                                assert(syntax::after(toks, i) <= e);
                            }
                        }
                    }
                    block_ends_are_closed(toks, e + 1, hi);
                    trace::block_end_is_ahead(toks, e + 1, hi);
                    ranges_join(toks, lo, e + 1, trace::block_end(toks, e + 1, hi));
                }
            }
        }
    }
}

proof fn arm_ends_are_closed(toks: Seq<TokenModel>, lo: int, hi: int)
    requires
        0 <= lo <= hi < toks.len(),
        is_closed(toks, lo, hi),
        elses_have_blocks(toks, lo, hi),
    ensures
        lo <= trace::arm_end(toks, lo, hi) <= hi,
        is_closed(toks, lo, trace::arm_end(toks, lo, hi)),
        trace::arm_end(toks, lo, hi) == hi || syntax::at(toks, trace::arm_end(toks, lo, hi), ","@)
            || syntax::closes(toks, trace::arm_end(toks, lo, hi) - 1),
{
    if lo < hi && trace::starts_block(toks, lo) {
        blocks_start_with_words(toks, lo);
        trace::block_end_is_ahead(toks, lo, hi);
        block_ends_are_closed(toks, lo, hi);
        let k = trace::block_end(toks, lo, hi);
        if trace::goes_on(toks, k) {
            finds_are_closed(toks, k, hi, ","@);
            ranges_join(toks, lo, k, syntax::find(toks, k, hi, ","@));
        }
    } else {
        finds_are_closed(toks, lo, hi, ","@);
    }
}

proof fn blocks_start_with_words(toks: Seq<TokenModel>, x: int)
    ensures
        trace::starts_block(toks, x) ==> !syntax::opens(toks, x) || syntax::at(toks, x, "{"@),
{
    reveal_strlit("(");
    reveal_strlit("[");
    reveal_strlit("if");
    reveal_strlit("match");
    reveal_strlit("while");
    reveal_strlit("for");
    reveal_strlit("loop");
    reveal_strlit("unsafe");
    assert("("@.len() == 1 && "["@.len() == 1);
    assert("if"@.len() == 2 && "match"@.len() == 5 && "while"@.len() == 5);
    assert("for"@.len() == 3 && "loop"@.len() == 4 && "unsafe"@.len() == 6);
}

proof fn left_holds(a: Seq<(int, int)>, b: Seq<(int, int)>, x: (int, int))
    ensures
        a.contains(x) ==> (a + b).contains(x),
        b.contains(x) ==> (a + b).contains(x),
{
    if a.contains(x) {
        let k = choose|k: int| 0 <= k < a.len() && a[k] == x;
        assert((a + b)[k] == x);
    }
    if b.contains(x) {
        let k = choose|k: int| 0 <= k < b.len() && b[k] == x;
        assert((a + b)[a.len() + k] == x);
    }
}

proof fn range_builds(toks: Seq<TokenModel>, lo: int, hi: int, top: int, i: int)
    requires
        0 <= lo <= i,
        i + 2 < hi <= top < toks.len(),
        is_closed(toks, lo, hi),
        elses_have_blocks(toks, lo, hi),
        is_written(toks, i),
        !in_pattern(toks, top, i),
    ensures
        dispatch::constructs(toks, lo, hi).contains((i, i + 2)),
    decreases syntax::span(lo, hi), 1int,
{
    let x = (i, i + 2);
    let b = syntax::find(toks, lo + 1, hi, "{"@);
    marks_are_no_names(toks, lo);
    marks_are_no_names(toks, i);
    marks_are_no_names(toks, i + 1);
    marks_are_no_names(toks, i + 2);
    if syntax::at(toks, lo, "match"@) && b < hi {
        let e = syntax::next(toks, b, hi);
        finds_are_closed(toks, lo + 1, hi, "{"@);
        steps_are_closed(toks, b, hi);
        inner_groups_are_closed(toks, b);
        marks_are_no_names(toks, b);
        marks_are_no_names(toks, e - 1);
        let scrutinee = dispatch::constructs(toks, lo + 1, b);
        let arms = dispatch::arm_constructs(toks, b + 1, e - 1);
        let rest = dispatch::constructs(toks, e, hi);
        left_holds(scrutinee, arms + rest, x);
        left_holds(arms, rest, x);
        if i < b {
            range_builds(toks, lo + 1, b, top, i);
        } else if i < e {
            let first = seq![b + 1];
            assert(are_arms(toks, first, b + 1, e - 1));
            arms_build(toks, b + 1, e - 1, top, i, lo, hi, first);
        } else {
            range_builds(toks, e, hi, top, i);
        }
    } else if syntax::at(toks, lo, "let"@) {
        let e = syntax::find(toks, lo, hi, ";"@);
        let q = syntax::find(toks, lo + 1, e, "="@);
        if q < e {
            if i < q {
                assert(in_let(toks, lo, hi, i));
            }
            marks_are_no_names(toks, q);
            range_builds(toks, q + 1, hi, top, i);
        } else {
            range_builds(toks, lo + 1, hi, top, i);
        }
    } else if syntax::opens(toks, lo) {
        let e = syntax::next(toks, lo, hi);
        steps_are_closed(toks, lo, hi);
        inner_groups_are_closed(toks, lo);
        marks_are_no_names(toks, e - 1);
        let inner = dispatch::constructs(toks, lo + 1, e - 1);
        let rest = dispatch::constructs(toks, e, hi);
        left_holds(inner, rest, x);
        if i < e {
            range_builds(toks, lo + 1, e - 1, top, i);
        } else {
            range_builds(toks, e, hi, top, i);
        }
    } else if dispatch::variant_at(toks, lo, hi) {
        let own = seq![(lo, lo + 2)];
        let rest = dispatch::constructs(toks, lo + 3, hi);
        left_holds(own, rest, x);
        if i == lo {
            assert(own[0] == x);
        } else {
            marks_are_no_names(toks, lo + 1);
            assert(i >= lo + 3);
            range_builds(toks, lo + 3, hi, top, i);
        }
    } else {
        assert(i != lo);
        range_builds(toks, lo + 1, hi, top, i);
    }
}

proof fn arms_build(
    toks: Seq<TokenModel>,
    lo: int,
    hi: int,
    top: int,
    i: int,
    m: int,
    h: int,
    arms: Seq<int>,
)
    requires
        0 <= lo <= i,
        i + 2 < hi < toks.len(),
        hi <= top < toks.len(),
        h <= top,
        is_closed(toks, lo, hi),
        elses_have_blocks(toks, lo, hi),
        is_written(toks, i),
        !in_pattern(toks, top, i),
        syntax::at(toks, m, "match"@),
        m < syntax::find(toks, m + 1, h, "{"@) < h,
        hi == syntax::next(toks, syntax::find(toks, m + 1, h, "{"@), h) - 1,
        are_arms(toks, arms, syntax::find(toks, m + 1, h, "{"@) + 1, hi),
        arms.last() == lo,
    ensures
        dispatch::arm_constructs(toks, lo, hi).contains((i, i + 2)),
    decreases syntax::span(lo, hi), 0int,
{
    let x = (i, i + 2);
    let a = syntax::find(toks, lo, hi, "=>"@);
    if a >= hi {
        assert(in_arm(toks, m, h, arms, i));
    } else {
        let guard = syntax::find(toks, lo, a, "if"@);
        let e = trace::arm_end(toks, a + 1, hi);
        let n = trace::next_arm(toks, e);
        if i < guard {
            assert(in_arm(toks, m, h, arms, i));
        }
        finds_are_closed(toks, lo, hi, "=>"@);
        arm_ends_are_closed(toks, a + 1, hi);
        marks_are_no_names(toks, a);
        marks_are_no_names(toks, e);
        marks_are_no_names(toks, e - 1);
        marks_are_no_names(toks, i);
        let guarded = dispatch::constructs(toks, guard, a);
        let body = dispatch::constructs(toks, a + 1, e);
        let rest = dispatch::arm_constructs(toks, n, hi);
        left_holds(guarded, body + rest, x);
        left_holds(body, rest, x);
        if i < a {
            range_builds(toks, guard, a, top, i);
        } else if i < e {
            assert(i != a);
            range_builds(toks, a + 1, e, top, i);
        } else {
            assert(i >= n);
            let more = arms.push(n);
            let first = syntax::find(toks, m + 1, h, "{"@) + 1;
            assert forall|k: int| 0 <= k < more.len() - 1 implies (#[trigger] more[k]) < hi
                && syntax::find(toks, more[k], hi, "=>"@) < hi && more[k + 1] == trace::next_arm(
                toks,
                trace::arm_end(toks, syntax::find(toks, more[k], hi, "=>"@) + 1, hi),
            ) by {
                if k < arms.len() - 1 {
                    assert(more[k] == arms[k] && more[k + 1] == arms[k + 1]);
                }
            }
            assert(are_arms(toks, more, first, hi));
            arms_build(toks, n, hi, top, i, m, h, more);
        }
    }
}

/// Every variant that is written in a body, at any depth of blocks, brackets and arms,
/// and not in a pattern, is one that the body builds. In the body every bracket is
/// closed.
pub proof fn what_is_written_is_built(toks: Seq<TokenModel>, lo: int, hi: int, i: int)
    requires
        0 <= lo <= i,
        i + 2 < hi < toks.len(),
        is_closed(toks, lo, hi),
        elses_have_blocks(toks, lo, hi),
        is_written(toks, i),
        !in_pattern(toks, hi, i),
    ensures
        dispatch::constructs(toks, lo, hi).contains((i, i + 2)),
{
    range_builds(toks, lo, hi, hi, i);
}

/// Only variants that are written in the range are built there.
pub proof fn what_is_built_is_written(toks: Seq<TokenModel>, lo: int, hi: int, x: (int, int))
    requires
        dispatch::constructs(toks, lo, hi).contains(x),
    ensures
        lo <= x.0 && x.0 + 2 < hi && x.1 == x.0 + 2,
        is_written(toks, x.0),
    decreases syntax::span(lo, hi), 1int,
{
    let b = syntax::find(toks, lo + 1, hi, "{"@);
    if syntax::at(toks, lo, "match"@) && b < hi {
        let e = syntax::next(toks, b, hi);
        let scrutinee = dispatch::constructs(toks, lo + 1, b);
        let arms = dispatch::arm_constructs(toks, b + 1, e - 1);
        let rest = dispatch::constructs(toks, e, hi);
        one_side_holds(scrutinee, arms + rest, x);
        if scrutinee.contains(x) {
            what_is_built_is_written(toks, lo + 1, b, x);
        } else {
            one_side_holds(arms, rest, x);
            if arms.contains(x) {
                arms_are_written(toks, b + 1, e - 1, x);
            } else {
                what_is_built_is_written(toks, e, hi, x);
            }
        }
    } else if syntax::at(toks, lo, "let"@) {
        let e = syntax::find(toks, lo, hi, ";"@);
        let q = syntax::find(toks, lo + 1, e, "="@);
        if q < e {
            what_is_built_is_written(toks, q + 1, hi, x);
        } else {
            what_is_built_is_written(toks, lo + 1, hi, x);
        }
    } else if syntax::opens(toks, lo) {
        let e = syntax::next(toks, lo, hi);
        let inner = dispatch::constructs(toks, lo + 1, e - 1);
        let rest = dispatch::constructs(toks, e, hi);
        one_side_holds(inner, rest, x);
        if inner.contains(x) {
            what_is_built_is_written(toks, lo + 1, e - 1, x);
        } else {
            what_is_built_is_written(toks, e, hi, x);
        }
    } else if dispatch::variant_at(toks, lo, hi) {
        let own = seq![(lo, lo + 2)];
        let rest = dispatch::constructs(toks, lo + 3, hi);
        one_side_holds(own, rest, x);
        if rest.contains(x) {
            what_is_built_is_written(toks, lo + 3, hi, x);
        }
    } else {
        what_is_built_is_written(toks, lo + 1, hi, x);
    }
}

proof fn arms_are_written(toks: Seq<TokenModel>, lo: int, hi: int, x: (int, int))
    requires
        dispatch::arm_constructs(toks, lo, hi).contains(x),
    ensures
        lo <= x.0 && x.0 + 2 < hi && x.1 == x.0 + 2,
        is_written(toks, x.0),
    decreases syntax::span(lo, hi), 0int,
{
    let a = syntax::find(toks, lo, hi, "=>"@);
    let guard = syntax::find(toks, lo, a, "if"@);
    let e = trace::arm_end(toks, a + 1, hi);
    let n = trace::next_arm(toks, e);
    trace::block_end_is_ahead(toks, a + 1, hi);
    let guarded = dispatch::constructs(toks, guard, a);
    let body = dispatch::constructs(toks, a + 1, e);
    let rest = dispatch::arm_constructs(toks, n, hi);
    one_side_holds(guarded, body + rest, x);
    if guarded.contains(x) {
        what_is_built_is_written(toks, guard, a, x);
    } else {
        one_side_holds(body, rest, x);
        if body.contains(x) {
            what_is_built_is_written(toks, a + 1, e, x);
        } else {
            arms_are_written(toks, n, hi, x);
        }
    }
}

proof fn one_side_holds(a: Seq<(int, int)>, b: Seq<(int, int)>, x: (int, int))
    requires
        (a + b).contains(x),
    ensures
        a.contains(x) || b.contains(x),
{
    let k = choose|k: int| 0 <= k < (a + b).len() && (a + b)[k] == x;
    if k < a.len() {
        assert(a[k] == x);
    } else {
        assert(b[k - a.len()] == x);
    }
}

/// A function is called at `c`: a name that is no keyword stands there, and behind it
/// the bracket with the arguments.
pub open spec fn is_plain_call(toks: Seq<TokenModel>, c: int) -> bool {
    &&& syntax::word_at(toks, c)
    &&& syntax::at(toks, c + 1, "("@)
    &&& toks[c].text != "if"@ && toks[c].text != "while"@ && toks[c].text != "match"@
    &&& toks[c].text != "return"@ && toks[c].text != "in"@ && toks[c].text != "let"@
    &&& toks[c].text != "else"@ && toks[c].text != "move"@ && toks[c].text != "mut"@
}

/// Every plain call in a range is among its calls, however deep it stands.
pub proof fn every_plain_call_is_seen(toks: Seq<TokenModel>, lo: int, hi: int, c: int)
    requires
        lo <= c,
        c + 1 < hi,
        is_plain_call(toks, c),
    ensures
        dispatch::calls(toks, lo, hi).contains(c),
    decreases hi - lo,
{
    let all = dispatch::calls(toks, lo, hi);
    let rest = dispatch::calls(toks, lo + 1, hi);
    if lo == c {
        reveal_strlit("(");
        reveal_strlit("::");
        assert("("@.len() != "::"@.len());
        assert(dispatch::is_call(toks, c, hi));
        assert(all[0] == c);
    } else {
        every_plain_call_is_seen(toks, lo + 1, hi, c);
        let k = choose|k: int| 0 <= k < rest.len() && rest[k] == c;
        if dispatch::is_call(toks, lo, hi) {
            assert(all[k + 1] == c);
        }
    }
}

/// The function `it` of a file builds the variant that is written at `i`: it stands in
/// the body, where every bracket is closed, and not in a pattern.
pub open spec fn builds(m: SyntaxModel, it: ItemModel, i: int) -> bool {
    &&& it.kind == ItemKind::Function
    &&& 0 <= it.body_lo <= i
    &&& i + 2 < it.body_hi < m.toks.len()
    &&& is_closed(m.toks, it.body_lo, it.body_hi)
    &&& elses_have_blocks(m.toks, it.body_lo, it.body_hi)
    &&& is_written(m.toks, i)
    &&& !in_pattern(m.toks, it.body_hi, i)
}

proof fn item_facts_are_there(files: Seq<SyntaxModel>, f: int, k: int, e: EdgeModel)
    requires
        0 <= f < files.len(),
        0 <= k < items::file_items(files[f].toks).len(),
        graph::item_edges(files[f], items::file_items(files[f].toks)[k]).contains(e),
    ensures
        graph::facts(files).contains(e),
    decreases files.len(),
{
    let last = files.last();
    let its = items::file_items(last.toks);
    let before = graph::facts(files.drop_last());
    let own = graph::items_edges(last, its);
    if f == files.len() - 1 {
        list_facts_are_there(last, its, k, e);
        let j = choose|j: int| 0 <= j < own.len() && own[j] == e;
        assert((before + own)[before.len() + j] == e);
    } else {
        item_facts_are_there(files.drop_last(), f, k, e);
        let j = choose|j: int| 0 <= j < before.len() && before[j] == e;
        assert((before + own)[j] == e);
    }
}

proof fn list_facts_are_there(m: SyntaxModel, its: Seq<ItemModel>, k: int, e: EdgeModel)
    requires
        0 <= k < its.len(),
        graph::item_edges(m, its[k]).contains(e),
    ensures
        graph::items_edges(m, its).contains(e),
    decreases its.len(),
{
    let before = graph::items_edges(m, its.drop_last());
    let own = graph::item_edges(m, its.last());
    if k == its.len() - 1 {
        let j = choose|j: int| 0 <= j < own.len() && own[j] == e;
        assert((before + own)[before.len() + j] == e);
    } else {
        list_facts_are_there(m, its.drop_last(), k, e);
        let j = choose|j: int| 0 <= j < before.len() && before[j] == e;
        assert((before + own)[j] == e);
    }
}

proof fn shown_edges_are_callers(edges: Seq<EdgeModel>, e: EdgeModel)
    requires
        edges.contains(e),
        graph::is_shown(e),
    ensures
        graph::callers(edges, e.to).contains(graph::hop_of(e)),
{
    let fits = |x: EdgeModel| graph::is_shown(x) && x.to == e.to;
    let k = choose|k: int| 0 <= k < edges.len() && edges[k] == e;
    edges.lemma_filter_contains(fits, k);
    let some = edges.filter(fits);
    let j = choose|j: int| 0 <= j < some.len() && some[j] == e;
    assert(graph::callers(edges, e.to)[j] == graph::hop_of(e));
}

/// Whoever writes a plain call in the body of a function is among the callers of what
/// it names.
pub proof fn those_who_call_are_callers(
    edges: Seq<EdgeModel>,
    files: Seq<SyntaxModel>,
    f: int,
    k: int,
    c: int,
)
    requires
        graph::is_graph(edges, files),
        0 <= f < files.len(),
        0 <= k < items::file_items(files[f].toks).len(),
        items::file_items(files[f].toks)[k].kind == ItemKind::Function,
        items::file_items(files[f].toks)[k].body_lo <= c,
        c + 1 < items::file_items(files[f].toks)[k].body_hi,
        is_plain_call(files[f].toks, c),
    ensures
        ({
            let m = files[f];
            let it = items::file_items(m.toks)[k];
            graph::callers(edges, m.toks[c].text).contains(
                HopModel {
                    edge_kind: "calls_name"@,
                    from_symbol: Some(m.path + "::"@ + m.toks[it.name].text),
                    evidence: None,
                },
            )
        }),
{
    let m = files[f];
    let it = items::file_items(m.toks)[k];
    let found = dispatch::calls(m.toks, it.body_lo, it.body_hi);
    every_plain_call_is_seen(m.toks, it.body_lo, it.body_hi, c);
    let j = choose|j: int| 0 <= j < found.len() && found[j] == c;
    let e = graph::call_edge(m, it, c);
    assert(graph::item_edges(m, it)[j] == e);
    item_facts_are_there(files, f, k, e);
    let data = graph::facts(files);
    let d = choose|d: int| 0 <= d < data.len() && data[d] == e;
    assert(edges.take(data.len() as int)[d] == edges[d]);
    shown_edges_are_callers(edges, e);
}

/// Whoever builds a variant is among the callers of what some arm routes it to, with
/// the variant as evidence, provided that no two enums have the name of its enum and
/// that a function of the name is there.
pub proof fn those_who_build_are_callers(
    edges: Seq<EdgeModel>,
    files: Seq<SyntaxModel>,
    f: int,
    k: int,
    i: int,
    g: int,
    l: int,
    h: (int, int, int),
)
    requires
        graph::is_graph(edges, files),
        0 <= f < files.len(),
        0 <= k < items::file_items(files[f].toks).len(),
        builds(files[f], items::file_items(files[f].toks)[k], i),
        files[f].toks[i].text != "Self"@,
        0 <= g < files.len(),
        0 <= l < items::file_items(files[g].toks).len(),
        items::file_items(files[g].toks)[l].kind == ItemKind::Function,
        dispatch::handles(
            files[g].toks,
            items::file_items(files[g].toks)[l].body_lo,
            items::file_items(files[g].toks)[l].body_hi,
        ).contains(h),
        files[g].toks[h.0].text == files[f].toks[i].text,
        files[g].toks[h.1].text == files[f].toks[i + 2].text,
        graph::names_of(files, ItemKind::Function).contains(files[g].toks[h.2].text),
        forall|a: int, b: int|
            0 <= a < b < graph::names_of(files, ItemKind::Enum).len() ==> !(
            #[trigger] graph::names_of(files, ItemKind::Enum)[a] == files[f].toks[i].text
                && #[trigger] graph::names_of(files, ItemKind::Enum)[b] == files[f].toks[i].text),
    ensures
        ({
            let m = files[f];
            let it = items::file_items(m.toks)[k];
            graph::callers(edges, files[g].toks[h.2].text).contains(
                HopModel {
                    edge_kind: "dispatches"@,
                    from_symbol: Some(m.path + "::"@ + m.toks[it.name].text),
                    evidence: Some(m.toks[i].text + "::"@ + m.toks[i + 2].text),
                },
            )
        }),
{
    let m = files[f];
    let it = items::file_items(m.toks)[k];
    let n = files[g];
    let ot = items::file_items(n.toks)[l];
    what_is_written_is_built(m.toks, it.body_lo, it.body_hi, i);
    let calls = dispatch::calls(m.toks, it.body_lo, it.body_hi);
    let built = dispatch::constructs(m.toks, it.body_lo, it.body_hi);
    let p = choose|p: int| 0 <= p < built.len() && built[p] == (i, i + 2);
    let c = graph::construct_edge(m, it, (i, i + 2));
    assert(graph::item_edges(m, it)[calls.len() + p] == c);
    item_facts_are_there(files, f, k, c);
    let calls2 = dispatch::calls(n.toks, ot.body_lo, ot.body_hi);
    let built2 = dispatch::constructs(n.toks, ot.body_lo, ot.body_hi);
    let arms = dispatch::handles(n.toks, ot.body_lo, ot.body_hi);
    let q = choose|q: int| 0 <= q < arms.len() && arms[q] == h;
    let r = graph::handle_edge(n, ot, h);
    assert(graph::item_edges(n, ot)[calls2.len() + built2.len() + q] == r);
    item_facts_are_there(files, g, l, r);
    let data = graph::facts(files);
    let enums = graph::names_of(files, ItemKind::Enum);
    let functions = graph::names_of(files, ItemKind::Function);
    let x = choose|x: int| 0 <= x < data.len() && data[x] == c;
    let y = choose|y: int| 0 <= y < data.len() && data[y] == r;
    assert(graph::is_admitted(data[x], data[y], enums, functions));
    let e = graph::dispatch_edge(c, r);
    let made = edges.skip(data.len() as int);
    let z = choose|z: int| 0 <= z < made.len() && made[z] == e;
    assert(edges[data.len() + z] == e);
    shown_edges_are_callers(edges, e);
}

/// The arm that begins at `s` of a match that ends at `end` has a pattern that begins
/// with a variant, and its body, from `y` on, is one plain call of a function, in whose
/// arguments nothing is assigned.
pub open spec fn is_plain_arm(toks: Seq<TokenModel>, s: int, y: int, end: int) -> bool {
    let x = syntax::after(toks, y + 1);
    &&& is_written(toks, s)
    &&& s + 3 <= syntax::find(toks, s, y - 1, "if"@)
    &&& syntax::find(toks, s, end, "=>"@) == y - 1
    &&& is_plain_call(toks, y)
    &&& !syntax::capital_at(toks, y)
    &&& !syntax::opens(toks, y) && !syntax::at(toks, y, ","@) && !syntax::at(toks, y, "<"@)
    &&& !trace::starts_block(toks, y) && !trace::is_transparent(toks, y)
    &&& x == end || (x < end && syntax::at(toks, x, ","@))
    &&& forall|k: int| y <= k < x ==> !#[trigger] dispatch::is_assignment(toks, k)
}

proof fn nothing_is_assigned(toks: Seq<TokenModel>, lo: int, hi: int)
    requires
        forall|k: int| lo <= k < hi ==> !#[trigger] dispatch::is_assignment(toks, k),
    ensures
        !dispatch::assigns(toks, lo, hi),
    decreases syntax::span(lo, hi),
{
    if lo < hi {
        if syntax::at(toks, lo, "let"@) {
            let e = syntax::find(toks, lo, hi, ";"@);
            let q = syntax::find(toks, lo + 1, e, "="@);
            if q < e {
                nothing_is_assigned(toks, q + 1, hi);
            } else {
                nothing_is_assigned(toks, lo + 1, hi);
            }
        } else if syntax::opens(toks, lo) {
            nothing_is_assigned(toks, lo + 1, syntax::next(toks, lo, hi));
            nothing_is_assigned(toks, syntax::next(toks, lo, hi), hi);
        } else {
            nothing_is_assigned(toks, lo + 1, hi);
        }
    }
}

proof fn words_are_no_marks(toks: Seq<TokenModel>, x: int)
    ensures
        syntax::at(toks, x, "("@) || syntax::closes(toks, x) ==> !syntax::at(toks, x, "?"@)
            && !syntax::at(toks, x, "await"@) && !syntax::at(toks, x, "::"@) && !syntax::at(
            toks,
            x,
            ","@,
        ) && !syntax::at(toks, x, "<"@),
        syntax::at(toks, x, "::"@) || syntax::capital_at(toks, x) ==> !syntax::at(toks, x, "|"@)
            && !syntax::opens(toks, x) && !syntax::at(toks, x, "<"@),
{
    reveal_strlit("(");
    reveal_strlit("[");
    reveal_strlit("{");
    reveal_strlit(")");
    reveal_strlit("]");
    reveal_strlit("}");
    reveal_strlit("?");
    reveal_strlit("await");
    reveal_strlit("::");
    reveal_strlit(",");
    reveal_strlit("<");
    reveal_strlit("|");
    if 0 <= x < toks.len() {
        let t = toks[x].text;
        assert(t == "await"@ ==> t[0] == 'a');
        assert(t == "::"@ ==> t[0] == ':');
        assert(t == "?"@ ==> t[0] == '?');
        assert(t == ","@ ==> t[0] == ',');
        assert(t == "<"@ ==> t[0] == '<');
        assert(t == "("@ ==> t[0] == '(');
        assert(t == ")"@ ==> t[0] == ')');
        assert(t == "]"@ ==> t[0] == ']');
        assert(t == "}"@ ==> t[0] == '}');
    }
}

proof fn plain_arms_route(toks: Seq<TokenModel>, s: int, y: int, end: int)
    requires
        0 <= s < end < toks.len(),
        is_plain_arm(toks, s, y, end),
    ensures
        dispatch::arm_handles(toks, s, end).contains((s, s + 2, y)),
{
    let a = y - 1;
    let guard = syntax::find(toks, s, a, "if"@);
    let x = syntax::after(toks, y + 1);
    words_are_no_marks(toks, y + 1);
    syntax::group_end_bounds(toks, y + 2, 1);
    assert(syntax::opens(toks, y + 1));
    assert(y + 2 <= x);
    // The body is the call and no more.
    assert(syntax::next(toks, y, end) == y + 1);
    assert(syntax::next(toks, y + 1, end) == x);
    assert(syntax::find(toks, x, end, ","@) == x);
    assert(syntax::find(toks, y + 1, end, ","@) == syntax::find(toks, x, end, ","@));
    assert(syntax::find(toks, y, end, ","@) == syntax::find(toks, y + 1, end, ","@));
    assert(trace::arm_end(toks, y, end) == x);
    groups_end_with_a_bracket(toks, y + 2, 1);
    words_are_no_marks(toks, x - 1);
    let scope = trace::with_unknown(Seq::empty(), trace::pattern_names(toks, s, guard));
    assert(trace::path_head(toks, y, x) == Some(
        trace::PathModel { last: y, qualifier: None, qualified_type: false, end: y + 1 },
    ));
    assert(syntax::next(toks, y + 1, x) == x);
    assert(trace::trace_rest(toks, x, x, seq![y]) == seq![y]);
    assert(trace::trace_path(toks, y, x, scope) == seq![y]);
    assert(trace::trace(toks, y, x, scope) == seq![y]);
    nothing_is_assigned(toks, y, x);
    let calls = dispatch::arm_calls(toks, s, guard, y, x);
    assert(calls == seq![y]);
    // The pattern begins with the variant.
    let e = syntax::find(toks, s, guard, "|"@);
    words_are_no_marks(toks, s);
    words_are_no_marks(toks, s + 1);
    words_are_no_marks(toks, s + 2);
    assert(syntax::next(toks, s, guard) == s + 1);
    assert(syntax::next(toks, s + 1, guard) == s + 2);
    assert(syntax::find(toks, s, guard, "|"@) == syntax::find(toks, s + 1, guard, "|"@));
    assert(syntax::find(toks, s + 1, guard, "|"@) == syntax::find(toks, s + 2, guard, "|"@));
    assert(s + 2 < e) by {
        assert(syntax::next(toks, s + 2, guard) == s + 3);
        assert(syntax::find(toks, s + 2, guard, "|"@) == syntax::find(toks, s + 3, guard, "|"@));
    }
    assert(trace::path_from(toks, s + 2, e, Some(s), false) == (trace::PathModel {
        last: s + 2,
        qualifier: Some(s),
        qualified_type: false,
        end: s + 3,
    }));
    assert(trace::path_from(toks, s, e, None, false) == trace::path_from(
        toks,
        s + 2,
        e,
        Some(s),
        false,
    ));
    assert(dispatch::pattern_variant(toks, s, e) == seq![(s, s + 2)]);
    let variants = dispatch::pattern_variants(toks, s, guard);
    assert(variants[0] == (s, s + 2));
    every_variant_with_every_call(variants, calls, 0, 0);
    let own = dispatch::handled(variants, calls);
    let k = choose|k: int| 0 <= k < own.len() && own[k] == (s, s + 2, y);
    assert(dispatch::arm_handles(toks, s, end)[k] == (s, s + 2, y));
}

proof fn every_variant_with_every_call(
    variants: Seq<(int, int)>,
    calls: Seq<int>,
    v: int,
    c: int,
)
    requires
        0 <= v < variants.len(),
        0 <= c < calls.len(),
    ensures
        dispatch::handled(variants, calls).contains((variants[v].0, variants[v].1, calls[c])),
    decreases variants.len(),
{
    let rest = dispatch::handled(variants.drop_last(), calls);
    let w = variants.last();
    let own = calls.map_values(|c: int| (w.0, w.1, c));
    let x = (variants[v].0, variants[v].1, calls[c]);
    if v == variants.len() - 1 {
        assert(own[c] == x);
        assert((rest + own)[rest.len() + c] == x);
    } else {
        every_variant_with_every_call(variants.drop_last(), calls, v, c);
        let k = choose|k: int| 0 <= k < rest.len() && rest[k] == x;
        assert((rest + own)[k] == x);
    }
}

proof fn arms_behind_are_handled(
    toks: Seq<TokenModel>,
    arms: Seq<int>,
    first: int,
    end: int,
    x: (int, int, int),
)
    requires
        are_arms(toks, arms, first, end),
        dispatch::arm_handles(toks, arms.last(), end).contains(x),
    ensures
        dispatch::arm_handles(toks, first, end).contains(x),
    decreases arms.len(),
{
    if arms.len() > 1 {
        let rest = arms.drop_last();
        let k = rest.len() - 1;
        assert(arms[k + 1] == arms.last() && rest.last() == arms[k]);
        let s = arms[k];
        let a = syntax::find(toks, s, end, "=>"@);
        let guard = syntax::find(toks, s, a, "if"@);
        let e = trace::arm_end(toks, a + 1, end);
        let own = dispatch::handled(
            dispatch::pattern_variants(toks, s, guard),
            dispatch::arm_calls(toks, s, guard, a + 1, e),
        );
        let more = dispatch::arm_handles(toks, arms.last(), end);
        let j = choose|j: int| 0 <= j < more.len() && more[j] == x;
        assert(dispatch::arm_handles(toks, s, end)[own.len() + j] == x);
        assert forall|q: int| 0 <= q < rest.len() - 1 implies (#[trigger] rest[q]) < end
            && syntax::find(toks, rest[q], end, "=>"@) < end && rest[q + 1] == trace::next_arm(
            toks,
            trace::arm_end(toks, syntax::find(toks, rest[q], end, "=>"@) + 1, end),
        ) by {
            assert(rest[q] == arms[q] && rest[q + 1] == arms[q + 1]);
        }
        arms_behind_are_handled(toks, rest, first, end, x);
    }
}

/// An arm of a match in a body whose pattern begins with a variant, and whose body is
/// one plain call, routes the variant to what it calls.
pub proof fn plain_arms_are_handled(
    toks: Seq<TokenModel>,
    lo: int,
    hi: int,
    m: int,
    arms: Seq<int>,
    y: int,
)
    requires
        0 <= lo <= m < hi < toks.len(),
        syntax::at(toks, m, "match"@),
        syntax::find(toks, m + 1, hi, "{"@) < hi,
        are_arms(
            toks,
            arms,
            syntax::find(toks, m + 1, hi, "{"@) + 1,
            syntax::next(toks, syntax::find(toks, m + 1, hi, "{"@), hi) - 1,
        ),
        0 <= arms.last() < syntax::next(toks, syntax::find(toks, m + 1, hi, "{"@), hi) - 1,
        is_plain_arm(
            toks,
            arms.last(),
            y,
            syntax::next(toks, syntax::find(toks, m + 1, hi, "{"@), hi) - 1,
        ),
    ensures
        dispatch::handles(toks, lo, hi).contains((arms.last(), arms.last() + 2, y)),
    decreases m - lo,
{
    let x = (arms.last(), arms.last() + 2, y);
    let all = dispatch::handles(toks, lo, hi);
    let rest = dispatch::handles(toks, lo + 1, hi);
    let b = syntax::find(toks, lo + 1, hi, "{"@);
    let here = if syntax::at(toks, lo, "match"@) && b < hi {
        dispatch::arm_handles(toks, b + 1, syntax::next(toks, b, hi) - 1)
    } else {
        Seq::empty()
    };
    assert(all == here + rest);
    if lo == m {
        let end = syntax::next(toks, b, hi) - 1;
        plain_arms_route(toks, arms.last(), y, end);
        arms_behind_are_handled(toks, arms, b + 1, end, x);
        let k = choose|k: int| 0 <= k < here.len() && here[k] == x;
        assert(all[k] == x);
    } else {
        plain_arms_are_handled(toks, lo + 1, hi, m, arms, y);
        let k = choose|k: int| 0 <= k < rest.len() && rest[k] == x;
        assert(all[here.len() + k] == x);
    }
}

} // verus!

//! Laws on shapes: functions of one shape differ in what their names, numbers and
//! literals say alone.
use vstd::prelude::*;
use crate::fingerprint;
use crate::lexer::{Kind, TokenModel};
use crate::text;

verus! {

/// No mark begins with a letter.
pub open spec fn marks_are_signs(toks: Seq<TokenModel>) -> bool {
    forall|i: int|
        0 <= i < toks.len() && (#[trigger] toks[i]).kind == Kind::Mark ==> toks[i].text.len() > 0
            && !('a' as int <= toks[i].text[0] as int <= 'z' as int) && !('A' as int
            <= toks[i].text[0] as int <= 'Z' as int)
}

proof fn shape_has_each_token(toks: Seq<TokenModel>, i: int)
    requires
        0 <= i < toks.len(),
    ensures
        fingerprint::normalised(toks).len() == toks.len(),
        fingerprint::normalised(toks)[i] == fingerprint::normal_token(
            toks[i],
            fingerprint::names_in(toks.take(i + 1)),
        ),
    decreases toks.len(),
{
    let rest = toks.drop_last();
    if toks.len() > 1 {
        shape_has_each_token(rest, if i < rest.len() {
            i
        } else {
            0
        });
    } else {
        assert(fingerprint::normalised(rest).len() == 0);
    }
    if i == toks.len() - 1 {
        assert(toks.take(i + 1) =~= toks);
    } else {
        assert(toks.take(i + 1) =~= rest.take(i + 1));
        assert(rest[i] == toks[i]);
    }
}

proof fn names_come_once(toks: Seq<TokenModel>)
    ensures
        fingerprint::names_in(toks).no_duplicates(),
        forall|i: int|
            0 <= i < toks.len() && fingerprint::is_name(#[trigger] toks[i])
                ==> fingerprint::names_in(toks).contains(toks[i].text),
    decreases toks.len(),
{
    if toks.len() > 0 {
        let rest = toks.drop_last();
        names_come_once(rest);
        let (now, seen) = (fingerprint::names_in(toks), fingerprint::names_in(rest));
        assert forall|i: int|
            0 <= i < toks.len() && fingerprint::is_name(#[trigger] toks[i]) implies now.contains(
            toks[i].text,
        ) by {
            if i < rest.len() {
                assert(rest[i] == toks[i]);
                assert(seen.contains(toks[i].text));
                let k = choose|k: int| 0 <= k < seen.len() && seen[k] == toks[i].text;
                assert(now[k] == toks[i].text);
            } else if !seen.contains(toks[i].text) {
                assert(now[now.len() - 1] == toks[i].text);
            }
        }
    }
}

proof fn names_go_on(toks: Seq<TokenModel>, k: int)
    requires
        0 <= k <= toks.len(),
    ensures
        fingerprint::names_in(toks.take(k)).len() <= fingerprint::names_in(toks).len(),
        forall|j: int|
            0 <= j < fingerprint::names_in(toks.take(k)).len() ==> #[trigger] fingerprint::names_in(
                toks.take(k),
            )[j] == fingerprint::names_in(toks)[j],
    decreases toks.len(),
{
    if k == toks.len() {
        assert(toks.take(k) =~= toks);
    } else {
        let rest = toks.drop_last();
        names_go_on(rest, k);
        assert(rest.take(k) =~= toks.take(k));
    }
}

proof fn places_are_of_names(names: Seq<Seq<char>>, w: Seq<char>)
    requires
        names.contains(w),
    ensures
        fingerprint::place_in(names, w) < names.len(),
        names[fingerprint::place_in(names, w) as int] == w,
    decreases names.len(),
{
    let k = choose|k: int| 0 <= k < names.len() && names[k] == w;
    if names.last() != w {
        assert(names.drop_last()[k] == w);
        places_are_of_names(names.drop_last(), w);
    }
}

proof fn numbers_tell_names_apart(toks: Seq<TokenModel>, i: int, j: int)
    requires
        0 <= i < toks.len(),
        0 <= j < toks.len(),
        fingerprint::is_name(toks[i]),
        fingerprint::is_name(toks[j]),
    ensures
        toks[i].text == toks[j].text <==> fingerprint::place_in(
            fingerprint::names_in(toks.take(i + 1)),
            toks[i].text,
        ) == fingerprint::place_in(fingerprint::names_in(toks.take(j + 1)), toks[j].text),
{
    let (a, b) = (toks.take(i + 1), toks.take(j + 1));
    names_come_once(a);
    names_come_once(b);
    names_come_once(toks);
    assert(a[i] == toks[i] && b[j] == toks[j]);
    names_go_on(toks, i + 1);
    names_go_on(toks, j + 1);
    let (x, y) = (fingerprint::names_in(a), fingerprint::names_in(b));
    places_are_of_names(x, toks[i].text);
    places_are_of_names(y, toks[j].text);
    let (p, q) = (
        fingerprint::place_in(x, toks[i].text) as int,
        fingerprint::place_in(y, toks[j].text) as int,
    );
    let all = fingerprint::names_in(toks);
    assert(x[p] == all[p] && y[q] == all[q]);
}

proof fn keywords_are_small(w: Seq<char>)
    requires
        fingerprint::is_keyword(w),
    ensures
        w.len() > 0,
        'a' as int <= w[0] as int <= 'z' as int || (w.len() == 4 && w[0] == 'S' && w[1] == 'e'),
{
    reveal_strlit("as");
    reveal_strlit("async");
    reveal_strlit("await");
    reveal_strlit("break");
    reveal_strlit("const");
    reveal_strlit("continue");
    reveal_strlit("crate");
    reveal_strlit("dyn");
    reveal_strlit("else");
    reveal_strlit("enum");
    reveal_strlit("false");
    reveal_strlit("fn");
    reveal_strlit("for");
    reveal_strlit("if");
    reveal_strlit("impl");
    reveal_strlit("in");
    reveal_strlit("let");
    reveal_strlit("loop");
    reveal_strlit("match");
    reveal_strlit("mod");
    reveal_strlit("move");
    reveal_strlit("mut");
    reveal_strlit("pub");
    reveal_strlit("ref");
    reveal_strlit("return");
    reveal_strlit("self");
    reveal_strlit("Self");
    reveal_strlit("static");
    reveal_strlit("struct");
    reveal_strlit("super");
    reveal_strlit("trait");
    reveal_strlit("true");
    reveal_strlit("type");
    reveal_strlit("unsafe");
    reveal_strlit("use");
    reveal_strlit("where");
    reveal_strlit("while");
}

proof fn kinds_are_told_apart(
    s: TokenModel,
    t: TokenModel,
    m: Seq<Seq<char>>,
    n: Seq<Seq<char>>,
)
    requires
        fingerprint::normal_token(s, m) == fingerprint::normal_token(t, n),
        marks_are_signs(seq![s]),
        marks_are_signs(seq![t]),
    ensures
        s.kind == t.kind,
        fingerprint::is_name(s) == fingerprint::is_name(t),
        !fingerprint::is_name(s) && (s.kind == Kind::Word || s.kind == Kind::Mark) ==> s.text
            == t.text,
        fingerprint::is_name(s) ==> fingerprint::place_in(m, s.text) == fingerprint::place_in(
            n,
            t.text,
        ),
{
    reveal_strlit("ID");
    reveal_strlit("LIFETIME");
    reveal_strlit("NUM");
    reveal_strlit("STR");
    assert(seq![s][0] == s && seq![t][0] == t);
    if fingerprint::is_keyword(s.text) {
        keywords_are_small(s.text);
    }
    if fingerprint::is_keyword(t.text) {
        keywords_are_small(t.text);
    }
    let (x, y) = (fingerprint::normal_token(s, m), fingerprint::normal_token(t, n));
    let (a, b) = (
        text::decimal(fingerprint::place_in(m, s.text)),
        text::decimal(fingerprint::place_in(n, t.text)),
    );
    assert(("ID"@ + a)[0] == 'I' && ("ID"@ + b)[0] == 'I');
    assert("LIFETIME"@[0] == 'L' && "NUM"@[0] == 'N' && "STR"@[0] == 'S' && "STR"@[1] == 'T');
    assert(x[0] == y[0]);
    assert(x[1] == y[1]);
    if fingerprint::is_name(s) {
        assert(fingerprint::is_name(t));
        assert(a =~= x.skip(2));
        assert(b =~= y.skip(2));
        text::decimals_differ(
            fingerprint::place_in(m, s.text),
            fingerprint::place_in(n, t.text),
        );
    }
}

/// Functions of one shape are renamed ones of each other: they differ in what names,
/// numbers and literals say alone, and where one repeats a name, so does the other.
pub proof fn one_shape_means_renamed(a: Seq<TokenModel>, b: Seq<TokenModel>)
    requires
        marks_are_signs(a),
        marks_are_signs(b),
        fingerprint::normalised(a) == fingerprint::normalised(b),
    ensures
        fingerprint::is_renamed(a, b),
{
    if a.len() > 0 {
        shape_has_each_token(a, 0);
    }
    if b.len() > 0 {
        shape_has_each_token(b, 0);
    }
    assert(a.len() == b.len());
    assert forall|i: int| 0 <= i < a.len() implies {
        &&& (#[trigger] a[i]).kind == b[i].kind
        &&& fingerprint::is_name(a[i]) == fingerprint::is_name(b[i])
        &&& !fingerprint::is_name(a[i]) && (a[i].kind == Kind::Word || a[i].kind == Kind::Mark)
            ==> a[i].text == b[i].text
        &&& fingerprint::is_name(a[i]) ==> fingerprint::place_in(
            fingerprint::names_in(a.take(i + 1)),
            a[i].text,
        ) == fingerprint::place_in(fingerprint::names_in(b.take(i + 1)), b[i].text)
    } by {
        shape_has_each_token(a, i);
        shape_has_each_token(b, i);
        kinds_are_told_apart(
            a[i],
            b[i],
            fingerprint::names_in(a.take(i + 1)),
            fingerprint::names_in(b.take(i + 1)),
        );
    }
    assert forall|i: int, j: int|
        0 <= i < a.len() && 0 <= j < a.len() && fingerprint::is_name(#[trigger] a[i])
            && fingerprint::is_name(#[trigger] a[j]) implies (a[i].text == a[j].text <==> b[i].text
        == b[j].text) by {
        assert(fingerprint::is_name(b[i]) && fingerprint::is_name(b[j]));
        numbers_tell_names_apart(a, i, j);
        numbers_tell_names_apart(b, i, j);
    }
}

} // verus!

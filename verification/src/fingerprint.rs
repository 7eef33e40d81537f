//! The shape of a function: its tokens with the names taken out, and how much
//! two shapes have in common.
use vstd::prelude::*;
use crate::hash;
use crate::hash::hex_sha256;
use crate::lexer;
use crate::lexer::{Kind, Token, TokenModel};
use crate::text;
use crate::text::{contains_text, decimal_text, same_text};

verus! {

/// The version of the rules in this module. Shapes of another version are not
/// compared.
pub const NORM_VERSION: u64 = 2;

/// A function with fewer tokens has no fingerprint.
pub const MIN_TOKENS: usize = 20;

/// The word is a keyword, and not a name.
pub open spec fn is_keyword(w: Seq<char>) -> bool {
    ||| w == "as"@
    ||| w == "async"@
    ||| w == "await"@
    ||| w == "break"@
    ||| w == "const"@
    ||| w == "continue"@
    ||| w == "crate"@
    ||| w == "dyn"@
    ||| w == "else"@
    ||| w == "enum"@
    ||| w == "false"@
    ||| w == "fn"@
    ||| w == "for"@
    ||| w == "if"@
    ||| w == "impl"@
    ||| w == "in"@
    ||| w == "let"@
    ||| w == "loop"@
    ||| w == "match"@
    ||| w == "mod"@
    ||| w == "move"@
    ||| w == "mut"@
    ||| w == "pub"@
    ||| w == "ref"@
    ||| w == "return"@
    ||| w == "self"@
    ||| w == "Self"@
    ||| w == "static"@
    ||| w == "struct"@
    ||| w == "super"@
    ||| w == "trait"@
    ||| w == "true"@
    ||| w == "type"@
    ||| w == "unsafe"@
    ||| w == "use"@
    ||| w == "where"@
    ||| w == "while"@
}

fn keyword(w: &str) -> (r: bool)
    ensures
        r == is_keyword(w@),
{
    same_text(w, "as") || same_text(w, "async") || same_text(w, "await") || same_text(w, "break")
        || same_text(w, "const") || same_text(w, "continue") || same_text(w, "crate") || same_text(
        w,
        "dyn",
    ) || same_text(w, "else") || same_text(w, "enum") || same_text(w, "false") || same_text(w, "fn")
        || same_text(w, "for") || same_text(w, "if") || same_text(w, "impl") || same_text(w, "in")
        || same_text(w, "let") || same_text(w, "loop") || same_text(w, "match") || same_text(
        w,
        "mod",
    ) || same_text(w, "move") || same_text(w, "mut") || same_text(w, "pub") || same_text(w, "ref")
        || same_text(w, "return") || same_text(w, "self") || same_text(w, "Self") || same_text(
        w,
        "static",
    ) || same_text(w, "struct") || same_text(w, "super") || same_text(w, "trait") || same_text(
        w,
        "true",
    ) || same_text(w, "type") || same_text(w, "unsafe") || same_text(w, "use") || same_text(
        w,
        "where",
    ) || same_text(w, "while")
}

/// The token is a name.
pub open spec fn is_name(t: TokenModel) -> bool {
    t.kind == Kind::Word && !is_keyword(t.text)
}

/// The names among the tokens, each once, in the order in which they first occur.
pub open spec fn names_in(toks: Seq<TokenModel>) -> Seq<Seq<char>>
    decreases toks.len(),
{
    if toks.len() == 0 {
        Seq::empty()
    } else {
        let seen = names_in(toks.drop_last());
        let t = toks.last();
        if is_name(t) && !seen.contains(t.text) {
            seen.push(t.text)
        } else {
            seen
        }
    }
}

/// The place of a name in the list.
pub open spec fn place_in(names: Seq<Seq<char>>, w: Seq<char>) -> nat
    decreases names.len(),
{
    if names.len() == 0 {
        0
    } else if names.last() == w {
        (names.len() - 1) as nat
    } else {
        place_in(names.drop_last(), w)
    }
}

/// What stands for a token in a shape: names are numbered, numbers and literals
/// lose what they say, and the rest stays.
pub open spec fn normal_token(t: TokenModel, names: Seq<Seq<char>>) -> Seq<char> {
    match t.kind {
        Kind::Word => if is_keyword(t.text) {
            t.text
        } else {
            "ID"@ + text::decimal(place_in(names, t.text))
        },
        Kind::Lifetime => "LIFETIME"@,
        Kind::Number => "NUM"@,
        Kind::Literal => "STR"@,
        Kind::Mark => t.text,
    }
}

/// The shape of the tokens.
pub open spec fn normalised(toks: Seq<TokenModel>) -> Seq<Seq<char>>
    decreases toks.len(),
{
    if toks.len() == 0 {
        Seq::empty()
    } else {
        normalised(toks.drop_last()).push(normal_token(toks.last(), names_in(toks)))
    }
}

/// The two token lists differ in what names, numbers and literals say alone, and
/// where one list repeats a name, so does the other.
pub open spec fn is_renamed(a: Seq<TokenModel>, b: Seq<TokenModel>) -> bool {
    &&& a.len() == b.len()
    &&& forall|i: int|
        0 <= i < a.len() ==> {
            &&& (#[trigger] a[i]).kind == b[i].kind
            &&& is_name(a[i]) == is_name(b[i])
            &&& !is_name(a[i]) && (a[i].kind == Kind::Word || a[i].kind == Kind::Mark) ==> a[i].text
                == b[i].text
        }
    &&& forall|i: int, j: int|
        0 <= i < a.len() && 0 <= j < a.len() && is_name(#[trigger] a[i]) && is_name(#[trigger] a[j])
            ==> (a[i].text == a[j].text <==> b[i].text == b[j].text)
}

proof fn names_are_those(toks: Seq<TokenModel>, w: Seq<char>)
    ensures
        names_in(toks).contains(w) <==> exists|i: int|
            0 <= i < toks.len() && is_name(#[trigger] toks[i]) && toks[i].text == w,
    decreases toks.len(),
{
    if toks.len() > 0 {
        let rest = toks.drop_last();
        let t = toks.last();
        names_are_those(rest, w);
        let seen = names_in(rest);
        if seen.contains(w) {
            let i = choose|i: int|
                0 <= i < rest.len() && is_name(#[trigger] rest[i]) && rest[i].text == w;
            assert(toks[i] == rest[i]);
            if is_name(t) && !seen.contains(t.text) {
                let k = choose|k: int| 0 <= k < seen.len() && seen[k] == w;
                assert(seen.push(t.text)[k] == w);
            }
        }
        if is_name(t) && t.text == w {
            assert(toks[toks.len() - 1] == t);
            if !seen.contains(w) {
                assert(seen.push(w)[seen.len() as int] == w);
            }
        }
        if names_in(toks).contains(w) && !seen.contains(w) {
            let k = choose|k: int| 0 <= k < names_in(toks).len() && names_in(toks)[k] == w;
            if k < seen.len() {
                assert(seen[k] == w);
            }
            assert(is_name(t) && t.text == w);
        }
        if exists|i: int| 0 <= i < toks.len() && is_name(#[trigger] toks[i]) && toks[i].text == w {
            let i = choose|i: int|
                0 <= i < toks.len() && is_name(#[trigger] toks[i]) && toks[i].text == w;
            if i < rest.len() {
                assert(rest[i] == toks[i]);
            }
        }
    }
}

proof fn places_agree(a: Seq<TokenModel>, b: Seq<TokenModel>)
    requires
        is_renamed(a, b),
    ensures
        names_in(a).len() == names_in(b).len(),
        forall|i: int|
            0 <= i < a.len() && is_name(#[trigger] a[i]) ==> place_in(names_in(a), a[i].text)
                == place_in(names_in(b), b[i].text),
    decreases a.len(),
{
    if a.len() > 0 {
        let ra = a.drop_last();
        let rb = b.drop_last();
        let n = a.len() - 1;
        assert forall|i: int| 0 <= i < ra.len() implies (#[trigger] ra[i]) == a[i] && rb[i] == b[i] by {
        }
        assert(is_renamed(ra, rb));
        places_agree(ra, rb);
        names_are_those(ra, a[n].text);
        names_are_those(rb, b[n].text);
        if is_name(a[n]) {
            if names_in(ra).contains(a[n].text) {
                let i = choose|i: int|
                    0 <= i < ra.len() && is_name(#[trigger] ra[i]) && ra[i].text == a[n].text;
                assert(a[i] == ra[i]);
                assert(is_name(rb[i]) && rb[i].text == b[n].text);
            }
            if names_in(rb).contains(b[n].text) {
                let i = choose|i: int|
                    0 <= i < rb.len() && is_name(#[trigger] rb[i]) && rb[i].text == b[n].text;
                assert(is_name(a[i]));
                assert(is_name(ra[i]) && ra[i].text == a[n].text);
            }
        }
        assert forall|i: int| 0 <= i < a.len() && is_name(#[trigger] a[i]) implies place_in(
            names_in(a),
            a[i].text,
        ) == place_in(names_in(b), b[i].text) by {
            let sa = names_in(ra);
            let sb = names_in(rb);
            if i < n {
                assert(ra[i] == a[i]);
            }
            if is_name(a[n]) && !sa.contains(a[n].text) {
                assert(sa.push(a[n].text).drop_last() =~= sa);
                assert(sb.push(b[n].text).drop_last() =~= sb);
            } else if i == n {
                let j = choose|j: int|
                    0 <= j < ra.len() && is_name(#[trigger] ra[j]) && ra[j].text == a[n].text;
                assert(a[j] == ra[j]);
            }
        }
    }
}

/// Renaming leaves the shape as it is: two functions that differ in names, in
/// numbers and in what literals say have one shape.
pub proof fn renaming_keeps_the_shape(a: Seq<TokenModel>, b: Seq<TokenModel>)
    requires
        is_renamed(a, b),
    ensures
        normalised(a) == normalised(b),
    decreases a.len(),
{
    if a.len() > 0 {
        let ra = a.drop_last();
        let rb = b.drop_last();
        let n = a.len() - 1;
        assert forall|i: int| 0 <= i < ra.len() implies (#[trigger] ra[i]) == a[i] && rb[i] == b[i] by {
        }
        assert(is_renamed(ra, rb));
        renaming_keeps_the_shape(ra, rb);
        places_agree(a, b);
        assert(a[n].kind == b[n].kind);
    }
}

fn place_of(names: &Vec<String>, w: &str) -> (r: usize)
    ensures
        r == place_in(text::views(names@), w@),
{
    let ghost all = text::views(names@);
    let mut i: usize = names.len();
    assert(all.take(i as int) =~= all);
    while i > 0
        invariant
            i <= names.len(),
            all == text::views(names@),
            place_in(all, w@) == place_in(all.take(i as int), w@),
        decreases i,
    {
        proof {
            assert(all.take(i as int).last() == names@[i - 1]@);
            assert(all.take(i as int).drop_last() =~= all.take(i - 1));
        }
        i -= 1;
        if same_text(names[i].as_str(), w) {
            return i;
        }
    }
    0
}

fn normalise_token(t: &Token, names: &mut Vec<String>) -> (r: String)
    ensures
        text::views(final(names)@) == (if is_name(t@) && !text::views(old(names)@).contains(
            t@.text,
        ) {
            text::views(old(names)@).push(t@.text)
        } else {
            text::views(old(names)@)
        }),
        r@ == normal_token(t@, text::views(final(names)@)),
{
    match t.kind {
        Kind::Word => {
            if keyword(t.text.as_str()) {
                return t.text.clone();
            }
            if !contains_text(names, t.text.as_str()) {
                let ghost sofar = text::views(names@);
                names.push(t.text.clone());
                assert(text::views(names@) =~= sofar.push(t.text@));
            }
            let mut r = "ID".to_owned();
            r.append(decimal_text(place_of(names, t.text.as_str()) as u64).as_str());
            r
        },
        Kind::Lifetime => "LIFETIME".to_owned(),
        Kind::Number => "NUM".to_owned(),
        Kind::Literal => "STR".to_owned(),
        Kind::Mark => t.text.clone(),
    }
}

/// The shape of the tokens from `lo` to `hi`.
pub fn normalise(toks: &Vec<Token>, lo: usize, hi: usize) -> (r: Vec<String>)
    requires
        lo <= hi <= toks.len(),
    ensures
        text::views(r@) == normalised(
            lexer::token_models(toks@).subrange(lo as int, hi as int),
        ),
{
    let ghost all = lexer::token_models(toks@);
    let mut names: Vec<String> = Vec::new();
    let mut r: Vec<String> = Vec::new();
    let mut i: usize = lo;
    assert(text::views(r@) =~= normalised(all.subrange(lo as int, lo as int)));
    assert(text::views(names@) =~= names_in(all.subrange(lo as int, lo as int)));
    while i < hi
        invariant
            lo <= i <= hi <= toks.len(),
            all == lexer::token_models(toks@),
            text::views(r@) == normalised(all.subrange(lo as int, i as int)),
            text::views(names@) == names_in(all.subrange(lo as int, i as int)),
        decreases hi - i,
    {
        proof {
            let next = all.subrange(lo as int, i + 1);
            assert(next.drop_last() =~= all.subrange(lo as int, i as int));
            assert(next.last() == toks@[i as int]@);
        }
        let ghost sofar = text::views(r@);
        let w = normalise_token(&toks[i], &mut names);
        r.push(w);
        assert(text::views(r@) =~= sofar.push(w@));
        i += 1;
    }
    r
}

/// How often a token occurs in a shape.
pub struct BagEntry {
    pub token: String,
    pub freq: u64,
}

/// The entries of a bag, as plain values.
pub open spec fn bag_models(rows: Seq<BagEntry>) -> Seq<(Seq<char>, u64)> {
    rows.map_values(|r: BagEntry| (r.token@, r.freq))
}

/// How often the token occurs, by the bag.
pub open spec fn freq_in(bag: Seq<(Seq<char>, u64)>, token: Seq<char>) -> u64
    decreases bag.len(),
{
    if bag.len() == 0 {
        0
    } else if bag.last().0 == token {
        bag.last().1
    } else {
        freq_in(bag.drop_last(), token)
    }
}

/// How often the token occurs in the shape.
pub open spec fn count_in(shape: Seq<Seq<char>>, token: Seq<char>) -> nat
    decreases shape.len(),
{
    if shape.len() == 0 {
        0
    } else {
        count_in(shape.drop_last(), token) + if shape.last() == token {
            1nat
        } else {
            0
        }
    }
}

/// No token has two entries.
pub open spec fn is_distinct(bag: Seq<(Seq<char>, u64)>) -> bool {
    forall|i: int, j: int|
        0 <= i < j < bag.len() ==> (#[trigger] bag[i]).0 != (#[trigger] bag[j]).0
}

/// The bag counts the tokens of the shape.
pub open spec fn is_bag_of(bag: Seq<(Seq<char>, u64)>, shape: Seq<Seq<char>>) -> bool {
    &&& is_distinct(bag)
    &&& forall|t: Seq<char>| #[trigger] freq_in(bag, t) == count_in(shape, t)
    &&& forall|i: int| 0 <= i < bag.len() ==> (#[trigger] bag[i]).1 > 0
}

/// The sum of all frequencies.
pub open spec fn bag_total(bag: Seq<(Seq<char>, u64)>) -> nat
    decreases bag.len(),
{
    if bag.len() == 0 {
        0
    } else {
        bag_total(bag.drop_last()) + bag.last().1 as nat
    }
}

pub open spec fn min_of(a: u64, b: u64) -> nat {
    if a <= b {
        a as nat
    } else {
        b as nat
    }
}

/// What two bags have in common: for each token the lesser frequency.
pub open spec fn overlap(a: Seq<(Seq<char>, u64)>, b: Seq<(Seq<char>, u64)>) -> nat
    decreases a.len(),
{
    if a.len() == 0 {
        0
    } else {
        overlap(a.drop_last(), b) + min_of(a.last().1, freq_in(b, a.last().0))
    }
}

proof fn freq_absent(bag: Seq<(Seq<char>, u64)>, t: Seq<char>)
    requires
        forall|i: int| 0 <= i < bag.len() ==> (#[trigger] bag[i]).0 != t,
    ensures
        freq_in(bag, t) == 0,
    decreases bag.len(),
{
    if bag.len() > 0 {
        assert forall|i: int| 0 <= i < bag.drop_last().len() implies (
        #[trigger] bag.drop_last()[i]).0 != t by {
            assert(bag.drop_last()[i] == bag[i]);
        }
        freq_absent(bag.drop_last(), t);
    }
}

proof fn overlap_grows(b: Seq<(Seq<char>, u64)>, a: Seq<(Seq<char>, u64)>, e: (Seq<char>, u64))
    requires
        is_distinct(b),
        is_distinct(a.push(e)),
    ensures
        overlap(b, a.push(e)) == overlap(b, a) + min_of(e.1, freq_in(b, e.0)),
    decreases b.len(),
{
    let more = a.push(e);
    assert(more.drop_last() =~= a);
    assert forall|i: int| 0 <= i < a.len() implies (#[trigger] a[i]).0 != e.0 by {
        assert(more[i] == a[i]);
        assert(more[a.len() as int] == e);
    }
    freq_absent(a, e.0);
    if b.len() > 0 {
        let rest = b.drop_last();
        assert forall|i: int, j: int| 0 <= i < j < rest.len() implies (#[trigger] rest[i]).0 != (
        #[trigger] rest[j]).0 by {
            assert(rest[i] == b[i] && rest[j] == b[j]);
        }
        overlap_grows(rest, a, e);
        if b.last().0 == e.0 {
            assert forall|i: int| 0 <= i < rest.len() implies (#[trigger] rest[i]).0 != e.0 by {
                assert(rest[i] == b[i]);
                assert(b[b.len() - 1] == b.last());
            }
            freq_absent(rest, e.0);
        }
    }
}

/// What two bags have in common does not depend on which comes first.
pub proof fn overlap_is_symmetric(a: Seq<(Seq<char>, u64)>, b: Seq<(Seq<char>, u64)>)
    requires
        is_distinct(a),
        is_distinct(b),
    ensures
        overlap(a, b) == overlap(b, a),
    decreases a.len(),
{
    if a.len() == 0 {
        overlap_with_nothing(b, a);
    } else {
        let rest = a.drop_last();
        assert forall|i: int, j: int| 0 <= i < j < rest.len() implies (#[trigger] rest[i]).0 != (
        #[trigger] rest[j]).0 by {
            assert(rest[i] == a[i] && rest[j] == a[j]);
        }
        overlap_is_symmetric(rest, b);
        assert(rest.push(a.last()) =~= a);
        overlap_grows(b, rest, a.last());
    }
}

proof fn overlap_with_nothing(b: Seq<(Seq<char>, u64)>, a: Seq<(Seq<char>, u64)>)
    requires
        a.len() == 0,
    ensures
        overlap(b, a) == 0,
    decreases b.len(),
{
    if b.len() > 0 {
        overlap_with_nothing(b.drop_last(), a);
    }
}

/// Two bags have no more in common than either holds.
pub proof fn overlap_is_bounded(a: Seq<(Seq<char>, u64)>, b: Seq<(Seq<char>, u64)>)
    requires
        is_distinct(a),
        is_distinct(b),
    ensures
        overlap(a, b) <= bag_total(a),
        overlap(a, b) <= bag_total(b),
{
    overlap_within(a, b);
    overlap_within(b, a);
    overlap_is_symmetric(a, b);
}

proof fn overlap_within(a: Seq<(Seq<char>, u64)>, b: Seq<(Seq<char>, u64)>)
    ensures
        overlap(a, b) <= bag_total(a),
    decreases a.len(),
{
    if a.len() > 0 {
        overlap_within(a.drop_last(), b);
    }
}

/// A bag has all of itself in common with itself.
pub proof fn overlap_with_itself(a: Seq<(Seq<char>, u64)>)
    requires
        is_distinct(a),
    ensures
        overlap(a, a) == bag_total(a),
    decreases a.len(),
{
    if a.len() > 0 {
        let rest = a.drop_last();
        assert forall|i: int, j: int| 0 <= i < j < rest.len() implies (#[trigger] rest[i]).0 != (
        #[trigger] rest[j]).0 by {
            assert(rest[i] == a[i] && rest[j] == a[j]);
        }
        overlap_with_itself(rest);
        assert(rest.push(a.last()) =~= a);
        overlap_grows(rest, rest, a.last());
        assert forall|i: int| 0 <= i < rest.len() implies (#[trigger] rest[i]).0 != a.last().0 by {
            assert(rest[i] == a[i]);
            assert(a[a.len() - 1] == a.last());
        }
        freq_absent(rest, a.last().0);
    }
}

/// The place of the token's entry.
pub open spec fn entry_of(bag: Seq<(Seq<char>, u64)>, token: Seq<char>) -> Option<int>
    decreases bag.len(),
{
    if bag.len() == 0 {
        None
    } else if bag.last().0 == token {
        Some(bag.len() - 1)
    } else {
        entry_of(bag.drop_last(), token)
    }
}

/// The bag with the token counted once more.
pub open spec fn tallied(bag: Seq<(Seq<char>, u64)>, token: Seq<char>) -> Seq<(Seq<char>, u64)> {
    match entry_of(bag, token) {
        Some(i) => bag.update(i, (token, (bag[i].1 + 1) as u64)),
        None => bag.push((token, 1)),
    }
}

/// The bag of a shape.
pub open spec fn bag_of(shape: Seq<Seq<char>>) -> Seq<(Seq<char>, u64)>
    decreases shape.len(),
{
    if shape.len() == 0 {
        Seq::empty()
    } else {
        tallied(bag_of(shape.drop_last()), shape.last())
    }
}

proof fn entry_is_there(bag: Seq<(Seq<char>, u64)>, token: Seq<char>)
    ensures
        match entry_of(bag, token) {
            Some(i) => 0 <= i < bag.len() && bag[i].0 == token && freq_in(bag, token) == bag[i].1,
            None => freq_in(bag, token) == 0 && forall|i: int|
                0 <= i < bag.len() ==> (#[trigger] bag[i]).0 != token,
        },
    decreases bag.len(),
{
    if bag.len() > 0 {
        entry_is_there(bag.drop_last(), token);
        assert forall|i: int|
            0 <= i < bag.len() && entry_of(bag, token) is None implies (#[trigger] bag[i]).0
            != token by {
            if i < bag.len() - 1 {
                assert(bag.drop_last()[i] == bag[i]);
            }
        }
    }
}

proof fn total_of_update(bag: Seq<(Seq<char>, u64)>, i: int, e: (Seq<char>, u64))
    requires
        0 <= i < bag.len(),
    ensures
        bag_total(bag.update(i, e)) == bag_total(bag) - bag[i].1 + e.1,
        bag[i].1 <= bag_total(bag),
    decreases bag.len(),
{
    let u = bag.update(i, e);
    if i == bag.len() - 1 {
        assert(u.drop_last() =~= bag.drop_last());
    } else {
        total_of_update(bag.drop_last(), i, e);
        assert(u.drop_last() =~= bag.drop_last().update(i, e));
    }
}

proof fn freq_of_update(bag: Seq<(Seq<char>, u64)>, i: int, n: u64, t: Seq<char>)
    requires
        0 <= i < bag.len(),
        is_distinct(bag),
    ensures
        freq_in(bag.update(i, (bag[i].0, n)), t) == if t == bag[i].0 {
            n
        } else {
            freq_in(bag, t)
        },
    decreases bag.len(),
{
    let u = bag.update(i, (bag[i].0, n));
    let rest = bag.drop_last();
    if i == bag.len() - 1 {
        assert(u.drop_last() =~= rest);
    } else {
        assert forall|k: int, j: int| 0 <= k < j < rest.len() implies (#[trigger] rest[k]).0 != (
        #[trigger] rest[j]).0 by {
            assert(rest[k] == bag[k] && rest[j] == bag[j]);
        }
        freq_of_update(rest, i, n, t);
        assert(u.drop_last() =~= rest.update(i, (rest[i].0, n)));
        assert(bag[i].0 != bag[bag.len() - 1].0);
    }
}

/// The bag of a shape counts its tokens: each has one entry, and the entries
/// add up to the length of the shape.
pub proof fn bag_counts(shape: Seq<Seq<char>>)
    requires
        shape.len() <= u64::MAX,
    ensures
        is_bag_of(bag_of(shape), shape),
        bag_total(bag_of(shape)) == shape.len(),
    decreases shape.len(),
{
    if shape.len() > 0 {
        let rest = shape.drop_last();
        let w = shape.last();
        bag_counts(rest);
        let bag = bag_of(rest);
        entry_is_there(bag, w);
        match entry_of(bag, w) {
            Some(i) => {
                let n = (bag[i].1 + 1) as u64;
                total_of_update(bag, i, (w, n));
                let u = bag.update(i, (w, n));
                assert forall|t: Seq<char>| #[trigger] freq_in(u, t) == count_in(shape, t) by {
                    freq_of_update(bag, i, n, t);
                    assert(freq_in(bag, t) == count_in(rest, t));
                }
                assert forall|k: int, j: int| 0 <= k < j < u.len() implies (#[trigger] u[k]).0 != (
                #[trigger] u[j]).0 by {
                    assert(bag[k].0 != bag[j].0);
                }
            },
            None => {
                let u = bag.push((w, 1));
                assert(u.drop_last() =~= bag);
                assert forall|t: Seq<char>| #[trigger] freq_in(u, t) == count_in(shape, t) by {
                    assert(freq_in(bag, t) == count_in(rest, t));
                }
                assert forall|k: int, j: int| 0 <= k < j < u.len() implies (#[trigger] u[k]).0 != (
                #[trigger] u[j]).0 by {
                    if j < bag.len() {
                        assert(bag[k].0 != bag[j].0);
                    }
                }
            },
        }
    }
}

fn find_entry(bag: &Vec<BagEntry>, token: &str) -> (r: Option<usize>)
    ensures
        match r {
            Some(i) => i < bag.len() && entry_of(bag_models(bag@), token@) == Some(i as int),
            None => entry_of(bag_models(bag@), token@) is None,
        },
{
    let ghost all = bag_models(bag@);
    let mut i: usize = bag.len();
    assert(all.take(i as int) =~= all);
    while i > 0
        invariant
            i <= bag.len(),
            all == bag_models(bag@),
            entry_of(all, token@) == entry_of(all.take(i as int), token@),
        decreases i,
    {
        proof {
            assert(all.take(i as int).last() == all[i - 1]);
            assert(all.take(i as int).drop_last() =~= all.take(i - 1));
        }
        i -= 1;
        if same_text(bag[i].token.as_str(), token) {
            return Some(i);
        }
    }
    None
}

/// The bag of a shape.
pub fn make_bag(shape: &Vec<String>) -> (r: Vec<BagEntry>)
    ensures
        bag_models(r@) == bag_of(text::views(shape@)),
{
    let ghost all = text::views(shape@);
    let mut r: Vec<BagEntry> = Vec::new();
    let mut i: usize = 0;
    assert(bag_models(r@) =~= bag_of(all.take(0)));
    while i < shape.len()
        invariant
            i <= shape.len(),
            all == text::views(shape@),
            bag_models(r@) == bag_of(all.take(i as int)),
        decreases shape.len() - i,
    {
        proof {
            assert(all.take(i + 1).drop_last() =~= all.take(i as int));
            assert(all.take(i + 1).last() == shape@[i as int]@);
            bag_counts(all.take(i as int));
            entry_is_there(bag_models(r@), shape@[i as int]@);
        }
        let ghost sofar = bag_models(r@);
        match find_entry(&r, shape[i].as_str()) {
            Some(k) => {
                proof {
                    total_of_update(sofar, k as int, sofar[k as int]);
                }
                let n: u64 = r[k].freq + 1;
                r.set(k, BagEntry { token: shape[i].clone(), freq: n });
                assert(bag_models(r@) =~= sofar.update(k as int, (shape@[i as int]@, n)));
            },
            None => {
                r.push(BagEntry { token: shape[i].clone(), freq: 1 });
                assert(bag_models(r@) =~= sofar.push((shape@[i as int]@, 1)));
            },
        }
        i += 1;
    }
    assert(all.take(i as int) =~= all);
    r
}

/// What two bags have in common.
pub fn common(a: &Vec<BagEntry>, b: &Vec<BagEntry>) -> (r: u128)
    ensures
        r == overlap(bag_models(a@), bag_models(b@)),
{
    let ghost all = bag_models(a@);
    let ghost other = bag_models(b@);
    let mut r: u128 = 0;
    let mut i: usize = 0;
    while i < a.len()
        invariant
            i <= a.len(),
            all == bag_models(a@),
            other == bag_models(b@),
            r == overlap(all.take(i as int), other),
            r <= i * u64::MAX,
        decreases a.len() - i,
    {
        proof {
            assert(all.take(i + 1).drop_last() =~= all.take(i as int));
            assert(all.take(i + 1).last() == all[i as int]);
            entry_is_there(other, all[i as int].0);
            assert((i + 1) * u64::MAX == i * u64::MAX + u64::MAX) by (nonlinear_arith);
            assert((i + 1) * u64::MAX <= u128::MAX) by (nonlinear_arith)
                requires
                    i < usize::MAX,
            ;
        }
        let freq: u64 = match find_entry(b, a[i].token.as_str()) {
            Some(k) => b[k].freq,
            None => 0,
        };
        let least: u64 = if a[i].freq <= freq {
            a[i].freq
        } else {
            freq
        };
        r = r + least as u128;
        i += 1;
    }
    assert(all.take(i as int) =~= all);
    r
}

/// The tokens of a shape one after the other, each with a line end behind it.
pub open spec fn shape_text(shape: Seq<Seq<char>>) -> Seq<char>
    decreases shape.len(),
{
    if shape.len() == 0 {
        Seq::empty()
    } else {
        shape_text(shape.drop_last()) + shape.last() + "\n"@
    }
}

/// Writes tokens one after the other, each with a line end behind it.
pub fn write_shape(shape: &Vec<String>) -> (r: String)
    ensures
        r@ == shape_text(text::views(shape@)),
{
    let ghost all = text::views(shape@);
    let mut r = String::new();
    let mut i: usize = 0;
    assert(r@ =~= shape_text(all.take(0)));
    while i < shape.len()
        invariant
            i <= shape.len(),
            all == text::views(shape@),
            r@ == shape_text(all.take(i as int)),
        decreases shape.len() - i,
    {
        proof {
            assert(all.take(i + 1).drop_last() =~= all.take(i as int));
            assert(all.take(i + 1).last() == shape@[i as int]@);
        }
        r.append(shape[i].as_str());
        r.append("\n");
        i += 1;
    }
    assert(all.take(i as int) =~= all);
    r
}

/// The hash by which equal shapes are found.
pub open spec fn shape_hash(shape: Seq<Seq<char>>) -> Seq<char> {
    hash::text_sha256(shape_text(shape))
}

/// The hash by which equal shapes are found.
pub fn struct_hash(shape: &Vec<String>) -> (r: String)
    ensures
        r@ == shape_hash(text::views(shape@)),
{
    hex_sha256(write_shape(shape).as_bytes_vec().as_slice())
}

/// The fingerprint of a function: its shape, the hash of it and its bag.
pub struct Fingerprint {
    pub version: u64,
    pub shape: Vec<String>,
    pub struct_hash: String,
    pub bag: Vec<BagEntry>,
}

/// What a [`Fingerprint`] holds, as plain values.
#[verifier::ext_equal]
pub struct PrintModel {
    pub version: u64,
    pub shape: Seq<Seq<char>>,
    pub struct_hash: Seq<char>,
    pub bag: Seq<(Seq<char>, u64)>,
}

impl View for Fingerprint {
    type V = PrintModel;

    open spec fn view(&self) -> PrintModel {
        PrintModel {
            version: self.version,
            shape: text::views(self.shape@),
            struct_hash: self.struct_hash@,
            bag: bag_models(self.bag@),
        }
    }
}

/// The fingerprint of a shape.
pub open spec fn print_of(shape: Seq<Seq<char>>) -> PrintModel {
    PrintModel {
        version: NORM_VERSION,
        shape,
        struct_hash: shape_hash(shape),
        bag: bag_of(shape),
    }
}

impl Fingerprint {
    /// The fingerprint of a shape.
    pub fn of(shape: Vec<String>) -> (r: Fingerprint)
        ensures
            r@ == print_of(text::views(shape@)),
    {
        let struct_hash = struct_hash(&shape);
        let bag = make_bag(&shape);
        Fingerprint { version: NORM_VERSION, shape, struct_hash, bag }
    }

    /// How many tokens the function has.
    pub fn token_len(&self) -> (r: usize)
        ensures
            r == self@.shape.len(),
    {
        self.shape.len()
    }
}

/// How similar two shapes must be: `num` parts of `den`.
#[derive(Clone, Copy, PartialEq, Eq, Structural, Debug)]
pub struct Theta {
    pub num: u32,
    pub den: u32,
}

/// The similarity that is asked for unless the caller names another.
pub fn default_theta() -> (r: Theta)
    ensures
        r == (Theta { num: 7, den: 10 }),
{
    Theta { num: 7, den: 10 }
}

/// What is asked for lies between one half and the whole.
pub open spec fn is_theta(t: Theta) -> bool {
    t.den > 0 && t.den <= 2 * t.num && t.num <= t.den
}

pub open spec fn longer(a: nat, b: nat) -> nat {
    if a >= b {
        a
    } else {
        b
    }
}

/// The least overlap that is enough for shapes of which the longer has `len`
/// tokens: its share of them, rounded up.
pub open spec fn enough(t: Theta, len: nat) -> int {
    (t.num * len + t.den - 1) / t.den as int
}

/// The shapes are similar: they have enough in common for the longer of them.
pub open spec fn are_similar(a: PrintModel, b: PrintModel, t: Theta) -> bool {
    overlap(a.bag, b.bag) >= enough(t, longer(a.shape.len(), b.shape.len()))
}

/// Whether two shapes are similar.
pub fn similar(a: &Fingerprint, b: &Fingerprint, t: Theta) -> (r: bool)
    requires
        t.den > 0,
    ensures
        r == are_similar(a@, b@, t),
{
    let len: usize = if a.shape.len() >= b.shape.len() {
        a.shape.len()
    } else {
        b.shape.len()
    };
    proof {
        assert(t.num * len <= u32::MAX * u64::MAX) by (nonlinear_arith)
            requires
                t.num <= u32::MAX,
                len <= u64::MAX,
        ;
    }
    let need: u128 = (t.num as u128 * len as u128 + t.den as u128 - 1) / t.den as u128;
    common(&a.bag, &b.bag) >= need
}

/// Every shape is similar to itself, however much is asked for.
pub proof fn same_shapes_are_similar(shape: Seq<Seq<char>>, t: Theta)
    requires
        is_theta(t),
        shape.len() <= u64::MAX,
    ensures
        are_similar(print_of(shape), print_of(shape), t),
{
    bag_counts(shape);
    overlap_with_itself(bag_of(shape));
    let len = shape.len();
    let num = t.num as int;
    let den = t.den as int;
    assert((num * len + den - 1) / den <= len) by (nonlinear_arith)
        requires
            0 < den,
            0 <= num <= den,
            len >= 0,
    ;
}

/// A shape contained in one that is much longer is not similar to it: where the
/// shorter has less than its share of the longer, no overlap is enough.
pub proof fn containment_is_not_similarity(a: Seq<Seq<char>>, b: Seq<Seq<char>>, t: Theta)
    requires
        is_theta(t),
        a.len() <= u64::MAX,
        b.len() <= u64::MAX,
        a.len() * t.den < t.num * b.len(),
    ensures
        !are_similar(print_of(a), print_of(b), t),
{
    bag_counts(a);
    bag_counts(b);
    overlap_is_bounded(bag_of(a), bag_of(b));
    let num = t.num as int;
    let den = t.den as int;
    let la = a.len() as int;
    let lb = b.len() as int;
    assert(la <= lb) by (nonlinear_arith)
        requires
            la * den < num * lb,
            0 < den,
            num <= den,
            lb >= 0,
    ;
    assert((num * lb + den - 1) / den > la) by (nonlinear_arith)
        requires
            la * den < num * lb,
            0 < den,
    ;
}

/// Asking for less finds no less.
pub proof fn lower_theta_widens(a: PrintModel, b: PrintModel, low: Theta, high: Theta)
    requires
        is_theta(low),
        is_theta(high),
        low.num * high.den <= high.num * low.den,
    ensures
        are_similar(a, b, high) ==> are_similar(a, b, low),
{
    let len = longer(a.shape.len(), b.shape.len()) as int;
    let (n1, d1) = (low.num as int, low.den as int);
    let (n2, d2) = (high.num as int, high.den as int);
    assert(n1 * len * d2 <= n2 * len * d1) by (nonlinear_arith)
        requires
            n1 * d2 <= n2 * d1,
            len >= 0,
    ;
    let q1 = (n1 * len + d1 - 1) / d1;
    let q2 = (n2 * len + d2 - 1) / d2;
    rounding_up(n1 * len, d1);
    rounding_up(n2 * len, d2);
    assert(n1 * len <= q2 * d1) by (nonlinear_arith)
        requires
            n1 * len * d2 <= n2 * len * d1,
            n2 * len <= q2 * d2,
            0 < d1,
            0 < d2,
    ;
    assert(q1 <= q2) by (nonlinear_arith)
        requires
            n1 * len <= q2 * d1,
            q1 * d1 < n1 * len + d1,
            0 < d1,
    ;
}

proof fn rounding_up(x: int, d: int)
    by (nonlinear_arith)
    requires
        0 < d,
        0 <= x,
    ensures
        x <= ((x + d - 1) / d) * d,
        ((x + d - 1) / d) * d < x + d,
{
}

} // verus!

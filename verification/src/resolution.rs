//! The clones of one symbol: finding the symbol that is meant, whether it can
//! have clones, and the class that it is in.
use vstd::prelude::*;
use crate::candidates;
use crate::candidates::{is_fingerprinted, Place};
use crate::classes;
use crate::classes::{build_class, CloneClass};
use crate::clones;
use crate::clones::{refine_group, CloneError};
use crate::fingerprint::{default_theta, Theta};
use crate::index::{IndexDatabase, IndexModel};
use crate::items;
use crate::items::ItemKind;
use crate::scoped;
use crate::scoped::{sees_content, sees_written};
use crate::source::SourceTree;
use crate::text::same_text;

verus! {

/// Which symbol is meant.
pub enum CloneSymbolSelector {
    /// The one with the qualified name.
    Ref(String),
    /// The one at a line of a file, counted from 1.
    PathLine { path: String, line: usize },
}

/// The places of the first `k` symbols of content `i` that the selector fits.
pub open spec fn fitting(
    db: IndexModel,
    i: int,
    k: nat,
    selector: CloneSymbolSelector,
) -> Seq<(int, int)>
    decreases k,
{
    if k == 0 {
        Seq::empty()
    } else {
        let rest = fitting(db, i, (k - 1) as nat, selector);
        if fits(db, (i, k - 1), selector) {
            rest.push((i, k - 1))
        } else {
            rest
        }
    }
}

/// The selector fits the symbol at the place.
pub open spec fn fits(db: IndexModel, p: (int, int), selector: CloneSymbolSelector) -> bool {
    let s = candidates::symbol_at(db, p);
    match selector {
        CloneSymbolSelector::Ref(name) => s.qualified_name == name@,
        CloneSymbolSelector::PathLine { path, line } => db.contents[p.0].path == path@
            && s.start_line <= line <= s.end_line,
    }
}

/// The places in the first `k` contents that a reader sees and the selector fits.
pub open spec fn matches_below(db: IndexModel, k: nat, selector: CloneSymbolSelector) -> Seq<
    (int, int),
>
    decreases k,
{
    if k == 0 {
        Seq::empty()
    } else {
        let rest = matches_below(db, (k - 1) as nat, selector);
        if scoped::in_scope(db, db.contents[k - 1]) {
            rest + fitting(db, k - 1, db.contents[k - 1].symbols.len(), selector)
        } else {
            rest
        }
    }
}

/// The places of the symbols that a reader sees and the selector fits.
pub open spec fn matches_of(db: IndexModel, selector: CloneSymbolSelector) -> Seq<(int, int)> {
    matches_below(db, db.contents.len(), selector)
}

/// All places are those of symbols.
pub open spec fn all_places(db: IndexModel, v: Seq<Place>) -> bool {
    forall|a: int| 0 <= a < v.len() ==> candidates::is_place(db, classes::at(#[trigger] v[a]))
}

fn selector_fits(db: &IndexDatabase, i: usize, j: usize, selector: &CloneSymbolSelector) -> (r: bool)
    requires
        candidates::is_place(db@, (i as int, j as int)),
    ensures
        r == fits(db@, (i as int, j as int), *selector),
{
    proof {
        let c = db.contents@[i as int];
        assert(db@.contents[i as int] == c@);
        assert(c@.symbols[j as int] == c.symbols@[j as int]@);
    }
    let s = &db.contents[i].symbols[j];
    match selector {
        CloneSymbolSelector::Ref(name) => same_text(s.qualified_name.as_str(), name.as_str()),
        CloneSymbolSelector::PathLine { path, line } => same_text(
            db.contents[i].path.as_str(),
            path.as_str(),
        ) && s.start_line <= *line && *line <= s.end_line,
    }
}

fn add_fitting(db: &IndexDatabase, i: usize, selector: &CloneSymbolSelector, r: &mut Vec<Place>)
    requires
        i < db.contents.len(),
        all_places(db@, old(r)@),
    ensures
        candidates::place_models(final(r)@) == candidates::place_models(old(r)@) + fitting(
            db@,
            i as int,
            db@.contents[i as int].symbols.len(),
            *selector,
        ),
        all_places(db@, final(r)@),
{
    let ghost before = candidates::place_models(r@);
    let mut j: usize = 0;
    assert(db@.contents[i as int] == db.contents@[i as int]@);
    assert(candidates::place_models(r@) =~= before + fitting(db@, i as int, 0, *selector));
    while j < db.contents[i].symbols.len()
        invariant
            i < db.contents.len(),
            j <= db.contents[i as int].symbols.len(),
            db@.contents[i as int] == db.contents@[i as int]@,
            candidates::place_models(r@) == before + fitting(
                db@,
                i as int,
                j as nat,
                *selector,
            ),
            all_places(db@, r@),
        decreases db.contents[i as int].symbols.len() - j,
    {
        assert(candidates::is_place(db@, (i as int, j as int)));
        if selector_fits(db, i, j, selector) {
            let ghost sofar = candidates::place_models(r@);
            let ghost old_r = r@;
            r.push(Place { content: i, symbol: j });
            proof {
                assert(candidates::place_models(r@) =~= sofar.push((i as int, j as int)));
                assert(candidates::place_models(r@) =~= before + fitting(
                    db@,
                    i as int,
                    (j + 1) as nat,
                    *selector,
                ));
                assert forall|a: int| 0 <= a < r.len() implies candidates::is_place(
                    db@,
                    classes::at(#[trigger] r@[a]),
                ) by {
                    if a < old_r.len() {
                        assert(r@[a] == old_r[a]);
                    }
                }
            }
        }
        j += 1;
    }
}

fn find_matches(db: &IndexDatabase, selector: &CloneSymbolSelector) -> (r: Vec<Place>)
    ensures
        candidates::place_models(r@) == matches_of(db@, *selector),
        all_places(db@, r@),
{
    let mut r: Vec<Place> = Vec::new();
    let mut i: usize = 0;
    assert(candidates::place_models(r@) =~= matches_below(db@, 0, *selector));
    while i < db.contents.len()
        invariant
            i <= db.contents.len(),
            candidates::place_models(r@) == matches_below(db@, i as nat, *selector),
            all_places(db@, r@),
        decreases db.contents.len() - i,
    {
        assert(db@.contents[i as int] == db.contents@[i as int]@);
        if sees_content(db, &db.contents[i]) {
            add_fitting(db, i, selector, &mut r);
        }
        i += 1;
    }
    r
}

/// The symbol at the place has a fingerprint of the version in use.
pub open spec fn printed_at(db: IndexModel, p: (int, int)) -> bool {
    candidates::has_print(candidates::symbol_at(db, p))
}

fn is_printed(db: &IndexDatabase, p: Place) -> (r: bool)
    requires
        candidates::is_place(db@, classes::at(p)),
    ensures
        r == printed_at(db@, classes::at(p)),
{
    proof {
        let c = db.contents@[p.content as int];
        assert(db@.contents[p.content as int] == c@);
        assert(c@.symbols[p.symbol as int] == c.symbols@[p.symbol as int]@);
    }
    is_fingerprinted(&db.contents[p.content].symbols[p.symbol])
}

/// How many lines the symbol at the place goes on behind its first.
pub open spec fn line_span(db: IndexModel, p: (int, int)) -> int {
    candidates::symbol_at(db, p).end_line - candidates::symbol_at(db, p).start_line
}

/// The first symbol is the better answer: it is shorter, or as long and has a
/// fingerprint where the other has none, or all is equal and it came first.
pub open spec fn is_tighter(db: IndexModel, p: (int, int), q: (int, int)) -> bool {
    ||| line_span(db, p) < line_span(db, q)
    ||| line_span(db, p) == line_span(db, q) && printed_at(db, p) && !printed_at(db, q)
    ||| line_span(db, p) == line_span(db, q) && printed_at(db, p) == printed_at(db, q)
        && candidates::symbol_at(db, p).id < candidates::symbol_at(db, q).id
}

/// The best answer among the places.
pub open spec fn tightest(db: IndexModel, ps: Seq<(int, int)>) -> (int, int)
    decreases ps.len(),
{
    if ps.len() <= 1 {
        ps[0]
    } else {
        let rest = tightest(db, ps.drop_last());
        if is_tighter(db, ps.last(), rest) {
            ps.last()
        } else {
            rest
        }
    }
}

/// A symbol that goes on over more lines is never the answer where a shorter one
/// fits, whether or not either has a fingerprint.
pub proof fn shortest_span_wins(db: IndexModel, ps: Seq<(int, int)>, a: int)
    requires
        0 <= a < ps.len(),
    ensures
        line_span(db, tightest(db, ps)) <= line_span(db, ps[a]),
        ps.contains(tightest(db, ps)),
    decreases ps.len(),
{
    if ps.len() == 1 {
        assert(ps[0] == tightest(db, ps));
    } else {
        let rest = ps.drop_last();
        shortest_span_wins(db, rest, if a < rest.len() {
            a
        } else {
            0
        });
        let k = choose|k: int| 0 <= k < rest.len() && rest[k] == tightest(db, rest);
        assert(ps[k] == rest[k]);
        assert(ps[ps.len() - 1] == ps.last());
        if a < rest.len() {
            assert(rest[a] == ps[a]);
        }
    }
}

fn tighter(db: &IndexDatabase, p: Place, q: Place) -> (r: bool)
    requires
        candidates::is_place(db@, classes::at(p)),
        candidates::is_place(db@, classes::at(q)),
        line_span(db@, classes::at(p)) >= 0,
        line_span(db@, classes::at(q)) >= 0,
    ensures
        r == is_tighter(db@, classes::at(p), classes::at(q)),
{
    proof {
        let c = db.contents@[p.content as int];
        assert(db@.contents[p.content as int] == c@);
        assert(c@.symbols[p.symbol as int] == c.symbols@[p.symbol as int]@);
        let d = db.contents@[q.content as int];
        assert(db@.contents[q.content as int] == d@);
        assert(d@.symbols[q.symbol as int] == d.symbols@[q.symbol as int]@);
    }
    let s = &db.contents[p.content].symbols[p.symbol];
    let t = &db.contents[q.content].symbols[q.symbol];
    let a: usize = s.end_line - s.start_line;
    let b: usize = t.end_line - t.start_line;
    if a != b {
        return a < b;
    }
    let x = is_printed(db, p);
    let y = is_printed(db, q);
    if x != y {
        x
    } else {
        s.id < t.id
    }
}

/// The symbol that is meant: nothing, a place, or several.
pub enum Resolved {
    Nothing,
    Symbol(Place),
    Several,
}

/// The places of the symbols with fingerprints.
pub open spec fn printed_places(db: IndexModel, ps: Seq<(int, int)>) -> Seq<(int, int)> {
    ps.filter(|p: (int, int)| printed_at(db, p))
}

/// The symbol that the selector means. A name that several symbols with
/// fingerprints have means none of them; one that only symbols without have
/// means the first of those. A line means the best answer.
pub open spec fn is_resolution(db: IndexModel, selector: CloneSymbolSelector, r: Resolved) -> bool {
    let ps = matches_of(db, selector);
    match selector {
        CloneSymbolSelector::Ref(_) => {
            let prints = printed_places(db, ps);
            if prints.len() > 1 {
                r is Several
            } else if prints.len() == 1 {
                r matches Resolved::Symbol(p) && classes::at(p) == prints[0]
            } else if ps.len() > 0 {
                r matches Resolved::Symbol(p) && classes::at(p) == ps[0]
            } else {
                r is Nothing
            }
        },
        CloneSymbolSelector::PathLine { .. } => if ps.len() > 0 {
            r matches Resolved::Symbol(p) && classes::at(p) == tightest(db, ps)
        } else {
            r is Nothing
        },
    }
}

fn find_printed(db: &IndexDatabase, ps: &Vec<Place>) -> (r: Vec<Place>)
    requires
        all_places(db@, ps@),
    ensures
        candidates::place_models(r@) == printed_places(db@, candidates::place_models(ps@)),
        all_places(db@, r@),
{
    let ghost all = candidates::place_models(ps@);
    let ghost has = |p: (int, int)| printed_at(db@, p);
    let mut r: Vec<Place> = Vec::new();
    let mut i: usize = 0;
    proof {
        reveal(Seq::filter);
        assert(candidates::place_models(r@) =~= all.take(0).filter(has));
    }
    while i < ps.len()
        invariant
            i <= ps.len(),
            all == candidates::place_models(ps@),
            has == (|p: (int, int)| printed_at(db@, p)),
            all_places(db@, ps@),
            all_places(db@, r@),
            candidates::place_models(r@) == all.take(i as int).filter(has),
        decreases ps.len() - i,
    {
        proof {
            reveal(Seq::filter);
            assert(candidates::is_place(db@, classes::at(ps@[i as int])));
            assert(all.take(i + 1).drop_last() =~= all.take(i as int));
            assert(all.take(i + 1).last() == classes::at(ps@[i as int]));
        }
        if is_printed(db, ps[i]) {
            let ghost sofar = candidates::place_models(r@);
            let ghost old_r = r@;
            r.push(ps[i]);
            proof {
                assert(candidates::place_models(r@) =~= sofar.push(classes::at(ps@[i as int])));
                assert forall|a: int| 0 <= a < r.len() implies candidates::is_place(
                    db@,
                    classes::at(#[trigger] r@[a]),
                ) by {
                    if a < old_r.len() {
                        assert(r@[a] == old_r[a]);
                    }
                }
            }
        }
        i += 1;
    }
    assert(all.take(i as int) =~= all);
    r
}

proof fn fitting_fit(db: IndexModel, i: int, k: nat, selector: CloneSymbolSelector)
    ensures
        forall|a: int|
            0 <= a < fitting(db, i, k, selector).len() ==> fits(
                db,
                #[trigger] fitting(db, i, k, selector)[a],
                selector,
            ),
    decreases k,
{
    if k > 0 {
        fitting_fit(db, i, (k - 1) as nat, selector);
        let rest = fitting(db, i, (k - 1) as nat, selector);
        let now = fitting(db, i, k, selector);
        assert forall|a: int| 0 <= a < now.len() implies fits(db, #[trigger] now[a], selector) by {
            if a < rest.len() {
                assert(now[a] == rest[a]);
            }
        }
    }
}

proof fn matches_fit(db: IndexModel, k: nat, selector: CloneSymbolSelector)
    ensures
        forall|a: int|
            0 <= a < matches_below(db, k, selector).len() ==> fits(
                db,
                #[trigger] matches_below(db, k, selector)[a],
                selector,
            ),
    decreases k,
{
    if k > 0 {
        matches_fit(db, (k - 1) as nat, selector);
        fitting_fit(db, k - 1, db.contents[k - 1].symbols.len(), selector);
        let rest = matches_below(db, (k - 1) as nat, selector);
        let more = fitting(db, k - 1, db.contents[k - 1].symbols.len(), selector);
        let now = matches_below(db, k, selector);
        assert forall|a: int| 0 <= a < now.len() implies fits(db, #[trigger] now[a], selector) by {
            if a < rest.len() {
                assert(now[a] == rest[a]);
            } else {
                assert(now[a] == more[a - rest.len()]);
            }
        }
    }
}

fn find_tightest(db: &IndexDatabase, ps: &Vec<Place>) -> (r: Place)
    requires
        ps.len() > 0,
        all_places(db@, ps@),
        forall|a: int| 0 <= a < ps.len() ==> line_span(db@, classes::at(#[trigger] ps@[a])) >= 0,
    ensures
        classes::at(r) == tightest(db@, candidates::place_models(ps@)),
        candidates::is_place(db@, classes::at(r)),
{
    let ghost all = candidates::place_models(ps@);
    let mut r: Place = ps[0];
    let mut i: usize = 1;
    proof {
        assert(candidates::is_place(db@, classes::at(ps@[0])));
        assert(line_span(db@, classes::at(ps@[0])) >= 0);
        assert(all.take(1)[0] == classes::at(ps@[0]));
    }
    while i < ps.len()
        invariant
            1 <= i <= ps.len(),
            all == candidates::place_models(ps@),
            all_places(db@, ps@),
            forall|a: int|
                0 <= a < ps.len() ==> line_span(db@, classes::at(#[trigger] ps@[a])) >= 0,
            classes::at(r) == tightest(db@, all.take(i as int)),
            candidates::is_place(db@, classes::at(r)),
            line_span(db@, classes::at(r)) >= 0,
        decreases ps.len() - i,
    {
        proof {
            assert(candidates::is_place(db@, classes::at(ps@[i as int])));
            assert(line_span(db@, classes::at(ps@[i as int])) >= 0);
            assert(all.take(i + 1).drop_last() =~= all.take(i as int));
            assert(all.take(i + 1).last() == classes::at(ps@[i as int]));
        }
        if tighter(db, ps[i], r) {
            r = ps[i];
        }
        i += 1;
    }
    assert(all.take(i as int) =~= all);
    r
}

/// The symbol that the selector means.
pub fn resolve(db: &IndexDatabase, selector: &CloneSymbolSelector) -> (r: Resolved)
    ensures
        is_resolution(db@, *selector, r),
        r matches Resolved::Symbol(p) ==> candidates::is_place(db@, classes::at(p)),
{
    let ps = find_matches(db, selector);
    let ghost all = candidates::place_models(ps@);
    proof {
        matches_fit(db@, db@.contents.len(), *selector);
        assert(all.len() == ps.len());
    }
    match selector {
        CloneSymbolSelector::Ref(_) => {
            let prints = find_printed(db, &ps);
            assert(candidates::place_models(prints@).len() == prints.len());
            if prints.len() > 1 {
                Resolved::Several
            } else if prints.len() == 1 {
                assert(candidates::is_place(db@, classes::at(prints@[0])));
                Resolved::Symbol(prints[0])
            } else if ps.len() > 0 {
                assert(candidates::is_place(db@, classes::at(ps@[0])));
                Resolved::Symbol(ps[0])
            } else {
                Resolved::Nothing
            }
        },
        CloneSymbolSelector::PathLine { .. } => {
            if ps.len() > 0 {
                assert forall|a: int| 0 <= a < ps.len() implies line_span(
                    db@,
                    classes::at(#[trigger] ps@[a]),
                ) >= 0 by {
                    assert(fits(db@, all[a], *selector));
                }
                Resolved::Symbol(find_tightest(db, &ps))
            } else {
                Resolved::Nothing
            }
        },
    }
}

/// Why a symbol cannot have clones.
#[derive(Clone, Copy, PartialEq, Eq, Structural, Debug)]
pub enum CloneIneligibilityReason {
    /// A program has written its file.
    Generated,
    /// It is not a function.
    NonFunctionKind,
    /// Its fingerprint is of another version.
    StaleNormalizerVersion,
    /// It is too short to have a fingerprint.
    BelowMinTokens,
}

/// The name of a reason.
pub open spec fn reason_name(r: CloneIneligibilityReason) -> Seq<char> {
    match r {
        CloneIneligibilityReason::Generated => "generated"@,
        CloneIneligibilityReason::NonFunctionKind => "non_function_kind"@,
        CloneIneligibilityReason::StaleNormalizerVersion => "stale_normalizer_version"@,
        CloneIneligibilityReason::BelowMinTokens => "below_min_tokens"@,
    }
}

impl CloneIneligibilityReason {
    /// The name of the reason.
    pub fn as_db_str(&self) -> (r: &'static str)
        ensures
            r@ == reason_name(*self),
    {
        match self {
            CloneIneligibilityReason::Generated => "generated",
            CloneIneligibilityReason::NonFunctionKind => "non_function_kind",
            CloneIneligibilityReason::StaleNormalizerVersion => "stale_normalizer_version",
            CloneIneligibilityReason::BelowMinTokens => "below_min_tokens",
        }
    }

    /// The reason with the name.
    pub fn from_db_str(s: &str) -> (r: Option<CloneIneligibilityReason>)
        ensures
            match r {
                Some(x) => reason_name(x) == s@,
                None => forall|x: CloneIneligibilityReason| #[trigger] reason_name(x) != s@,
            },
    {
        if same_text(s, "generated") {
            Some(CloneIneligibilityReason::Generated)
        } else if same_text(s, "non_function_kind") {
            Some(CloneIneligibilityReason::NonFunctionKind)
        } else if same_text(s, "stale_normalizer_version") {
            Some(CloneIneligibilityReason::StaleNormalizerVersion)
        } else if same_text(s, "below_min_tokens") {
            Some(CloneIneligibilityReason::BelowMinTokens)
        } else {
            None
        }
    }
}

/// No two reasons have one name: what is written is read back.
pub proof fn reason_names_differ(x: CloneIneligibilityReason, y: CloneIneligibilityReason)
    requires
        reason_name(x) == reason_name(y),
    ensures
        x == y,
{
    reveal_strlit("generated");
    reveal_strlit("non_function_kind");
    reveal_strlit("stale_normalizer_version");
    reveal_strlit("below_min_tokens");
    assert("generated"@.len() == 9);
    assert("non_function_kind"@.len() == 17);
    assert("stale_normalizer_version"@.len() == 24);
    assert("below_min_tokens"@.len() == 16);
}

/// Whether a symbol can have clones.
#[derive(Clone, Copy, PartialEq, Eq, Structural, Debug)]
pub enum CloneEligibility {
    SymbolNotResolved,
    Eligible,
    Ineligible { reason: CloneIneligibilityReason },
}

impl CloneEligibility {
    /// The name of the verdict, without the reason.
    pub fn status(&self) -> (r: &'static str)
        ensures
            r@ == match *self {
                CloneEligibility::SymbolNotResolved => "symbol_not_resolved"@,
                CloneEligibility::Eligible => "eligible"@,
                CloneEligibility::Ineligible { .. } => "ineligible"@,
            },
    {
        match self {
            CloneEligibility::SymbolNotResolved => "symbol_not_resolved",
            CloneEligibility::Eligible => "eligible",
            CloneEligibility::Ineligible { .. } => "ineligible",
        }
    }
}

/// Whether the symbol at the place can have clones. That its file is generated
/// comes before all else.
pub open spec fn eligibility_at(db: IndexModel, p: (int, int)) -> CloneEligibility {
    let s = candidates::symbol_at(db, p);
    if !scoped::is_seen(db, db.contents[p.0], false) {
        CloneEligibility::Ineligible { reason: CloneIneligibilityReason::Generated }
    } else if candidates::has_print(s) {
        CloneEligibility::Eligible
    } else if s.kind != ItemKind::Function {
        CloneEligibility::Ineligible { reason: CloneIneligibilityReason::NonFunctionKind }
    } else if s.print is Some {
        CloneEligibility::Ineligible { reason: CloneIneligibilityReason::StaleNormalizerVersion }
    } else {
        CloneEligibility::Ineligible { reason: CloneIneligibilityReason::BelowMinTokens }
    }
}

fn find_eligibility(db: &IndexDatabase, p: Place) -> (r: CloneEligibility)
    requires
        candidates::is_place(db@, classes::at(p)),
    ensures
        r == eligibility_at(db@, classes::at(p)),
{
    proof {
        let c = db.contents@[p.content as int];
        assert(db@.contents[p.content as int] == c@);
        assert(c@.symbols[p.symbol as int] == c.symbols@[p.symbol as int]@);
    }
    let s = &db.contents[p.content].symbols[p.symbol];
    if !sees_written(db, &db.contents[p.content]) {
        CloneEligibility::Ineligible { reason: CloneIneligibilityReason::Generated }
    } else if is_fingerprinted(s) {
        CloneEligibility::Eligible
    } else if s.kind != ItemKind::Function {
        CloneEligibility::Ineligible { reason: CloneIneligibilityReason::NonFunctionKind }
    } else if s.print.is_some() {
        CloneEligibility::Ineligible { reason: CloneIneligibilityReason::StaleNormalizerVersion }
    } else {
        CloneEligibility::Ineligible { reason: CloneIneligibilityReason::BelowMinTokens }
    }
}

/// The place of a member in its group.
pub open spec fn index_in(g: Seq<(int, int)>, p: (int, int)) -> Option<int>
    decreases g.len(),
{
    if g.len() == 0 {
        None
    } else if g.last() == p {
        Some(g.len() - 1)
    } else {
        index_in(g.drop_last(), p)
    }
}

/// The first of the largest groups that the symbol is in.
pub open spec fn home_of(gs: Seq<Seq<(int, int)>>, p: (int, int)) -> Option<int>
    decreases gs.len(),
{
    if gs.len() == 0 {
        None
    } else {
        let rest = home_of(gs.drop_last(), p);
        if index_in(gs.last(), p) is Some && match rest {
            Some(i) => gs[i].len() < gs.last().len(),
            None => true,
        } {
            Some(gs.len() - 1)
        } else {
            rest
        }
    }
}

fn find_index(g: &Vec<Place>, p: Place) -> (r: Option<usize>)
    ensures
        items::optional_place(r) == index_in(candidates::place_models(g@), classes::at(p)),
        r is Some ==> r->0 < g.len(),
{
    let ghost all = candidates::place_models(g@);
    let mut i: usize = g.len();
    assert(all.take(i as int) =~= all);
    while i > 0
        invariant
            i <= g.len(),
            all == candidates::place_models(g@),
            index_in(all, classes::at(p)) == index_in(all.take(i as int), classes::at(p)),
        decreases i,
    {
        proof {
            assert(all.take(i as int).last() == classes::at(g@[i - 1]));
            assert(all.take(i as int).drop_last() =~= all.take(i - 1));
        }
        i -= 1;
        if g[i].content == p.content && g[i].symbol == p.symbol {
            return Some(i);
        }
    }
    None
}

fn find_home(gs: &Vec<Vec<Place>>, p: Place) -> (r: Option<usize>)
    ensures
        items::optional_place(r) == home_of(clones::group_models(gs@), classes::at(p)),
        r is Some ==> r->0 < gs.len(),
{
    let ghost all = clones::group_models(gs@);
    let mut r: Option<usize> = None;
    let mut i: usize = 0;
    assert(all.take(0) =~= Seq::empty());
    while i < gs.len()
        invariant
            i <= gs.len(),
            all == clones::group_models(gs@),
            items::optional_place(r) == home_of(all.take(i as int), classes::at(p)),
            r is Some ==> r->0 < i,
        decreases gs.len() - i,
    {
        proof {
            assert(all.take(i + 1).drop_last() =~= all.take(i as int));
            assert(all.take(i + 1).last() == candidates::place_models(gs@[i as int]@));
            assert(candidates::place_models(gs@[i as int]@).len() == gs@[i as int].len());
        }
        if find_index(&gs[i], p).is_some() {
            let larger: bool = match r {
                Some(k) => {
                    assert(all[k as int].len() == gs@[k as int].len());
                    assert(all.take(i + 1)[k as int] == all[k as int]);
                    assert(all.take(i as int)[k as int] == all[k as int]);
                    gs[k].len() < gs[i].len()
                },
                None => true,
            };
            if larger {
                r = Some(i);
            }
        }
        i += 1;
    }
    assert(all.take(i as int) =~= all);
    r
}

/// What is known about the clones of one symbol.
#[derive(Debug)]
pub struct ClonesForSymbolResult {
    pub symbol_resolved: bool,
    pub symbol_fingerprinted: bool,
    pub eligibility: CloneEligibility,
    pub class: Option<CloneClass>,
}

/// The groups that classes are looked for in.
pub open spec fn standard_groups(db: IndexModel) -> Seq<Seq<(int, int)>> {
    clones::found_groups(db, Theta { num: 7, den: 10 }, 2)
}

/// The class is that of the symbol at the place: the largest coherent group that
/// it is in, refined, with the symbol among the members that are listed.
pub open spec fn is_home_class(
    c: Option<CloneClass>,
    db: IndexModel,
    tree: Seq<(Seq<char>, Seq<char>)>,
    kept: Seq<(Seq<char>, (nat, nat))>,
    p: (int, int),
) -> bool {
    let gs = standard_groups(db);
    match home_of(gs, p) {
        None => c is None,
        Some(i) => c matches Some(k) && k@ == classes::class_of(
            db,
            gs[i],
            index_in(gs[i], p),
            clones::refined(db, tree, kept, gs[i]).1,
        ),
    }
}

/// What is kept once the class of the symbol has been refined.
pub open spec fn kept_for(
    db: IndexModel,
    tree: Seq<(Seq<char>, Seq<char>)>,
    kept: Seq<(Seq<char>, (nat, nat))>,
    p: (int, int),
) -> Seq<(Seq<char>, (nat, nat))> {
    let gs = standard_groups(db);
    match home_of(gs, p) {
        None => kept,
        Some(i) => clones::refined(db, tree, kept, gs[i]).0,
    }
}

/// The class of a symbol has it as a member.
pub proof fn home_holds(gs: Seq<Seq<(int, int)>>, p: (int, int))
    ensures
        home_of(gs, p) matches Some(i) ==> 0 <= i < gs.len() && index_in(gs[i], p) is Some,
    decreases gs.len(),
{
    if gs.len() > 0 {
        home_holds(gs.drop_last(), p);
    }
}

impl IndexDatabase {
    /// The clones of the symbol that the selector means.
    pub fn clones_for_symbol(&mut self, tree: &SourceTree, selector: &CloneSymbolSelector) -> (r:
        Result<ClonesForSymbolResult, CloneError>)
        ensures
            *final(self) == (IndexDatabase { refinements: final(self).refinements, ..*old(self) }),
            exists|s: Resolved| #[trigger]
                is_resolution(old(self)@, *selector, s) && is_answer(
                    r,
                    old(self)@,
                    tree@,
                    clones::refinement_models(old(self).refinements@),
                    clones::refinement_models(final(self).refinements@),
                    *selector,
                    s,
                ),
    {
        let ghost before = *self;
        let ghost kept = clones::refinement_models(self.refinements@);
        let s = resolve(self, selector);
        match s {
            Resolved::Several => {
                let name = match selector {
                    CloneSymbolSelector::Ref(name) => name.clone(),
                    CloneSymbolSelector::PathLine { path, .. } => path.clone(),
                };
                assert(is_resolution(before@, *selector, s));
                Err(CloneError::Ambiguous(name))
            },
            Resolved::Nothing => {
                assert(is_resolution(before@, *selector, s));
                Ok(
                    ClonesForSymbolResult {
                        symbol_resolved: false,
                        symbol_fingerprinted: false,
                        eligibility: CloneEligibility::SymbolNotResolved,
                        class: None,
                    },
                )
            },
            Resolved::Symbol(p) => {
                let eligibility = find_eligibility(self, p);
                let gs = clones::collect_groups(self, default_theta(), 2);
                let ghost all = clones::group_models(gs@);
                proof {
                    home_holds(all, classes::at(p));
                }
                let class: Option<CloneClass> = match find_home(&gs, p) {
                    Some(i) => {
                        assert(classes::all_candidates(self@, gs@[i as int]@));
                        assert(all[i as int] == candidates::place_models(gs@[i as int]@));
                        let known = refine_group(self, tree, &gs[i]);
                        assert(self@ == before@);
                        let at = find_index(&gs[i], p);
                        Some(build_class(self, &gs[i], at, known))
                    },
                    None => None,
                };
                assert(is_resolution(before@, *selector, s));
                Ok(
                    ClonesForSymbolResult {
                        symbol_resolved: true,
                        symbol_fingerprinted: eligibility == CloneEligibility::Eligible,
                        eligibility,
                        class,
                    },
                )
            },
        }
    }
}

/// The answer about a selector that means `s`.
pub open spec fn is_answer(
    r: Result<ClonesForSymbolResult, CloneError>,
    db: IndexModel,
    tree: Seq<(Seq<char>, Seq<char>)>,
    kept: Seq<(Seq<char>, (nat, nat))>,
    kept_then: Seq<(Seq<char>, (nat, nat))>,
    selector: CloneSymbolSelector,
    s: Resolved,
) -> bool {
    match s {
        Resolved::Several => {
            &&& r matches Err(CloneError::Ambiguous(name)) && (selector matches CloneSymbolSelector::Ref(
                asked,
            ) ==> name@ == asked@)
            &&& kept_then == kept
        },
        Resolved::Nothing => {
            &&& r matches Ok(a) && !a.symbol_resolved && !a.symbol_fingerprinted && a.eligibility
                == CloneEligibility::SymbolNotResolved && a.class is None
            &&& kept_then == kept
        },
        Resolved::Symbol(p) => {
            &&& r matches Ok(a) && a.symbol_resolved && a.eligibility == eligibility_at(
                db,
                classes::at(p),
            ) && a.symbol_fingerprinted == (a.eligibility == CloneEligibility::Eligible)
                && is_home_class(a.class, db, tree, kept, classes::at(p))
            &&& kept_then == kept_for(db, tree, kept, classes::at(p))
        },
    }
}

} // verus!

//! The functions of an index that can be clones of each other.
use vstd::prelude::*;
use crate::content::{Symbol, SymbolModel};
use crate::fingerprint;
use crate::fingerprint::{default_theta, similar, Fingerprint, PrintModel, Theta, NORM_VERSION};
use crate::groups;
use crate::groups::{find_components, Relation};
use crate::index::{IndexDatabase, IndexModel};
use crate::scoped;
use crate::scoped::sees_written;

verus! {

/// Where a symbol stands in an index: the place of its file's content, and its
/// place among the symbols there.
#[derive(Clone, Copy, PartialEq, Eq, Structural, Debug)]
pub struct Place {
    pub content: usize,
    pub symbol: usize,
}

/// Places, as plain values.
pub open spec fn place_models(v: Seq<Place>) -> Seq<(int, int)> {
    v.map_values(|p: Place| (p.content as int, p.symbol as int))
}

/// The symbol has a fingerprint of the version in use.
pub open spec fn has_print(s: SymbolModel) -> bool {
    s.print is Some && s.print->0.version == NORM_VERSION
}

/// Whether the symbol has a fingerprint of the version in use.
pub fn is_fingerprinted(s: &Symbol) -> (r: bool)
    ensures
        r == has_print(s@),
{
    match &s.print {
        Some(p) => p.version == NORM_VERSION,
        None => false,
    }
}

/// The places of the symbols with fingerprints among the first `k` of content `i`.
pub open spec fn printed(symbols: Seq<SymbolModel>, i: int, k: nat) -> Seq<(int, int)>
    decreases k,
{
    if k == 0 {
        Seq::empty()
    } else {
        let rest = printed(symbols, i, (k - 1) as nat);
        if has_print(symbols[k - 1]) {
            rest.push((i, k - 1))
        } else {
            rest
        }
    }
}

/// The candidates among the first `k` contents: the symbols with fingerprints of
/// the hand-written files that a reader sees.
pub open spec fn candidates_below(db: IndexModel, k: nat) -> Seq<(int, int)>
    decreases k,
{
    if k == 0 {
        Seq::empty()
    } else {
        let rest = candidates_below(db, (k - 1) as nat);
        let c = db.contents[k - 1];
        if scoped::is_seen(db, c, false) {
            rest + printed(c.symbols, k - 1, c.symbols.len())
        } else {
            rest
        }
    }
}

/// All candidates.
pub open spec fn candidates(db: IndexModel) -> Seq<(int, int)> {
    candidates_below(db, db.contents.len())
}

/// The place is one of a symbol.
pub open spec fn is_place(db: IndexModel, p: (int, int)) -> bool {
    0 <= p.0 < db.contents.len() && 0 <= p.1 < db.contents[p.0].symbols.len()
}

/// The place is one of a symbol with a fingerprint.
pub open spec fn is_candidate(db: IndexModel, p: (int, int)) -> bool {
    is_place(db, p) && has_print(symbol_at(db, p))
}

/// The symbol at the place.
pub open spec fn symbol_at(db: IndexModel, p: (int, int)) -> SymbolModel {
    db.contents[p.0].symbols[p.1]
}

/// The fingerprint of the symbol at the place.
pub open spec fn print_at(db: IndexModel, p: (int, int)) -> PrintModel {
    symbol_at(db, p).print->0
}

/// The symbols at the two places are similar and in one language.
pub open spec fn linked(db: IndexModel, p: (int, int), q: (int, int), t: Theta) -> bool {
    db.contents[p.0].language == db.contents[q.0].language && fingerprint::are_similar(
        print_at(db, p),
        print_at(db, q),
        t,
    )
}

/// Which of the places hold similar symbols.
pub open spec fn relation_of(db: IndexModel, ps: Seq<(int, int)>, t: Theta) -> Seq<Seq<bool>> {
    Seq::new(
        ps.len(),
        |a: int| Seq::new(a as nat, |b: int| linked(db, ps[a], ps[b], t)),
    )
}

fn add_printed(db: &IndexDatabase, i: usize, r: &mut Vec<Place>)
    requires
        i < db.contents.len(),
        forall|a: int|
            0 <= a < old(r).len() ==> is_candidate(
                db@,
                #[trigger] place_models(old(r)@)[a],
            ),
    ensures
        place_models(final(r)@) == place_models(old(r)@) + printed(
            db@.contents[i as int].symbols,
            i as int,
            db@.contents[i as int].symbols.len(),
        ),
        forall|a: int|
            0 <= a < final(r).len() ==> is_candidate(
                db@,
                #[trigger] place_models(final(r)@)[a],
            ),
{
    let ghost before = place_models(r@);
    let ghost all = db@.contents[i as int].symbols;
    let mut j: usize = 0;
    assert(place_models(r@) =~= before + printed(all, i as int, 0));
    assert(db@.contents[i as int] == db.contents@[i as int]@);
    while j < db.contents[i].symbols.len()
        invariant
            i < db.contents.len(),
            j <= db.contents[i as int].symbols.len(),
            all == db@.contents[i as int].symbols,
            db@.contents[i as int] == db.contents@[i as int]@,
            place_models(r@) == before + printed(all, i as int, j as nat),
            forall|a: int|
                0 <= a < r.len() ==> is_candidate(db@, #[trigger] place_models(r@)[a]),
        decreases db.contents[i as int].symbols.len() - j,
    {
        assert(all[j as int] == db.contents@[i as int].symbols@[j as int]@);
        if is_fingerprinted(&db.contents[i].symbols[j]) {
            let ghost sofar = place_models(r@);
            r.push(Place { content: i, symbol: j });
            proof {
                let now = place_models(r@);
                assert(now =~= sofar.push((i as int, j as int)));
                assert forall|a: int| 0 <= a < now.len() implies is_candidate(
                    db@,
                    #[trigger] now[a],
                ) by {
                    if a < sofar.len() {
                        assert(now[a] == sofar[a]);
                    }
                }
            }
        }
        j += 1;
    }
}

/// All candidates.
pub fn find_candidates(db: &IndexDatabase) -> (r: Vec<Place>)
    ensures
        place_models(r@) == candidates(db@),
        forall|a: int| 0 <= a < r.len() ==> is_candidate(db@, #[trigger] place_models(r@)[a]),
{
    let mut r: Vec<Place> = Vec::new();
    let mut i: usize = 0;
    assert(place_models(r@) =~= candidates_below(db@, 0));
    while i < db.contents.len()
        invariant
            i <= db.contents.len(),
            place_models(r@) == candidates_below(db@, i as nat),
            forall|a: int|
                0 <= a < r.len() ==> is_candidate(db@, #[trigger] place_models(r@)[a]),
        decreases db.contents.len() - i,
    {
        assert(db@.contents[i as int] == db.contents@[i as int]@);
        if sees_written(db, &db.contents[i]) {
            add_printed(db, i, &mut r);
        }
        i += 1;
    }
    r
}

/// The fingerprint of the symbol at the place.
pub fn print_of<'a>(db: &'a IndexDatabase, p: Place) -> (r: &'a Fingerprint)
    requires
        is_candidate(db@, (p.content as int, p.symbol as int)),
    ensures
        r@ == print_at(db@, (p.content as int, p.symbol as int)),
{
    proof {
        let c = db.contents@[p.content as int];
        assert(db@.contents[p.content as int] == c@);
        assert(c@.symbols[p.symbol as int] == c.symbols@[p.symbol as int]@);
    }
    match &db.contents[p.content].symbols[p.symbol].print {
        Some(f) => f,
        None => {
            assert(false);
            vstd::pervasive::unreached()
        },
    }
}

fn linked_places(db: &IndexDatabase, p: Place, q: Place, t: Theta) -> (r: bool)
    requires
        t.den > 0,
        is_candidate(db@, (p.content as int, p.symbol as int)),
        is_candidate(db@, (q.content as int, q.symbol as int)),
    ensures
        r == linked(
            db@,
            (p.content as int, p.symbol as int),
            (q.content as int, q.symbol as int),
            t,
        ),
{
    proof {
        assert(db@.contents[p.content as int] == db.contents@[p.content as int]@);
        assert(db@.contents[q.content as int] == db.contents@[q.content as int]@);
    }
    db.contents[p.content].language == db.contents[q.content].language && similar(
        print_of(db, p),
        print_of(db, q),
        t,
    )
}

/// Which of the places hold similar symbols.
pub fn relate(db: &IndexDatabase, ps: &Vec<Place>, t: Theta) -> (r: Relation)
    requires
        t.den > 0,
        forall|a: int| 0 <= a < ps.len() ==> is_candidate(db@, #[trigger] place_models(ps@)[a]),
    ensures
        r@ == relation_of(db@, place_models(ps@), t),
        groups::is_relation(r@),
        r@.len() == ps.len(),
{
    let ghost all = place_models(ps@);
    let ghost goal = relation_of(db@, all, t);
    let mut r = Relation { rows: Vec::new() };
    let mut a: usize = 0;
    assert(r@ =~= goal.take(0));
    while a < ps.len()
        invariant
            a <= ps.len(),
            t.den > 0,
            all == place_models(ps@),
            goal == relation_of(db@, all, t),
            forall|x: int| 0 <= x < ps.len() ==> is_candidate(db@, #[trigger] all[x]),
            r@ == goal.take(a as int),
        decreases ps.len() - a,
    {
        let mut row: Vec<bool> = Vec::new();
        let mut b: usize = 0;
        assert(row@ =~= goal[a as int].take(0));
        assert(is_candidate(db@, all[a as int]));
        while b < a
            invariant
                b <= a < ps.len(),
                t.den > 0,
                all == place_models(ps@),
                goal == relation_of(db@, all, t),
                is_candidate(db@, all[a as int]),
                forall|x: int| 0 <= x < ps.len() ==> is_candidate(db@, #[trigger] all[x]),
                row@ == goal[a as int].take(b as int),
            decreases a - b,
        {
            assert(is_candidate(db@, all[b as int]));
            let l: bool = linked_places(db, ps[a], ps[b], t);
            row.push(l);
            proof {
                assert(goal[a as int][b as int] == l);
                assert(row@ =~= goal[a as int].take(b + 1));
            }
            b += 1;
        }
        let ghost sofar = r@;
        r.rows.push(row);
        proof {
            assert(row@ =~= goal[a as int]);
            assert(r@ =~= sofar.push(row@));
            assert(goal.take(a + 1) =~= goal.take(a as int).push(goal[a as int]));
        }
        a += 1;
    }
    assert(goal.take(a as int) =~= goal);
    r
}

/// The numbers of the symbols at the places that a list picks.
pub open spec fn ids_at(db: IndexModel, ps: Seq<(int, int)>, list: Seq<int>) -> Seq<u64> {
    list.map_values(|a: int| symbol_at(db, ps[a]).id)
}

/// The components of the candidates, by the numbers of their symbols.
pub open spec fn clone_components(db: IndexModel, t: Theta) -> Seq<Seq<u64>> {
    groups::components(relation_of(db, candidates(db), t)).map_values(
        |g: Seq<int>| ids_at(db, candidates(db), g),
    )
}

/// The number of the symbol at the place.
pub fn id_at(db: &IndexDatabase, p: Place) -> (r: u64)
    requires
        is_place(db@, (p.content as int, p.symbol as int)),
    ensures
        r == symbol_at(db@, (p.content as int, p.symbol as int)).id,
{
    proof {
        let c = db.contents@[p.content as int];
        assert(db@.contents[p.content as int] == c@);
        assert(c@.symbols[p.symbol as int] == c.symbols@[p.symbol as int]@);
    }
    db.contents[p.content].symbols[p.symbol].id
}

fn find_ids(db: &IndexDatabase, ps: &Vec<Place>, list: &Vec<usize>) -> (r: Vec<u64>)
    requires
        forall|a: int| 0 <= a < ps.len() ==> is_candidate(db@, #[trigger] place_models(ps@)[a]),
        forall|a: int| 0 <= a < list.len() ==> (#[trigger] list@[a]) < ps.len(),
    ensures
        r@ == ids_at(db@, place_models(ps@), groups::numbers(list@)),
{
    let ghost goal = ids_at(db@, place_models(ps@), groups::numbers(list@));
    let mut r: Vec<u64> = Vec::new();
    let mut a: usize = 0;
    assert(r@ =~= goal.take(0));
    while a < list.len()
        invariant
            a <= list.len(),
            goal == ids_at(db@, place_models(ps@), groups::numbers(list@)),
            forall|x: int|
                0 <= x < ps.len() ==> is_candidate(db@, #[trigger] place_models(ps@)[x]),
            forall|x: int| 0 <= x < list.len() ==> (#[trigger] list@[x]) < ps.len(),
            r@ == goal.take(a as int),
        decreases list.len() - a,
    {
        let p = ps[list[a]];
        proof {
            assert(is_candidate(db@, place_models(ps@)[list@[a as int] as int]));
            assert(groups::numbers(list@)[a as int] == list@[a as int]);
        }
        r.push(id_at(db, p));
        proof {
            assert(goal[a as int] == symbol_at(db@, (p.content as int, p.symbol as int)).id);
            assert(r@ =~= goal.take(a + 1));
        }
        a += 1;
    }
    assert(goal.take(a as int) =~= goal);
    r
}

/// Lists of numbers, as plain values.
pub open spec fn id_lists(v: Seq<Vec<u64>>) -> Seq<Seq<u64>> {
    v.map_values(|l: Vec<u64>| l@)
}

/// The connected groups of functions that are similar at the default threshold,
/// by the numbers of their symbols.
pub fn candidate_clone_components(db: &IndexDatabase) -> (r: Vec<Vec<u64>>)
    ensures
        id_lists(r@) == clone_components(db@, (Theta { num: 7, den: 10 })),
{
    let ps = find_candidates(db);
    let t = default_theta();
    let m = relate(db, &ps, t);
    let gs = find_components(&m);
    let ghost all = groups::number_lists(gs@);
    let ghost goal = clone_components(db@, t);
    let mut r: Vec<Vec<u64>> = Vec::new();
    let mut i: usize = 0;
    assert(id_lists(r@) =~= goal.take(0));
    while i < gs.len()
        invariant
            i <= gs.len(),
            all == groups::number_lists(gs@),
            goal.len() == all.len(),
            goal == clone_components(db@, t),
            all == groups::components(relation_of(db@, candidates(db@), t)),
            place_models(ps@) == candidates(db@),
            forall|x: int|
                0 <= x < ps.len() ==> is_candidate(db@, #[trigger] place_models(ps@)[x]),
            forall|c: int, a: int|
                0 <= c < gs.len() && 0 <= a < gs@[c].len() ==> (#[trigger] gs@[c]@[a]) < ps.len(),
            id_lists(r@) == goal.take(i as int),
        decreases gs.len() - i,
    {
        let ids = find_ids(db, &ps, &gs[i]);
        let ghost sofar = id_lists(r@);
        r.push(ids);
        proof {
            assert(all[i as int] == groups::numbers(gs@[i as int]@));
            assert(goal[i as int] == ids@);
            assert(id_lists(r@) =~= sofar.push(ids@));
            assert(goal.take(i + 1) =~= goal.take(i as int).push(goal[i as int]));
        }
        i += 1;
    }
    assert(goal.take(i as int) =~= goal);
    r
}

} // verus!

//! Looking symbols up by name or by number.
use vstd::prelude::*;
use crate::content::{Content, ContentModel, Language, SymbolModel};
use crate::index::{IndexDatabase, IndexModel};
use crate::scoped;
use crate::scoped::{sees_content, sees_written};
use crate::text::same_text;

verus! {

/// What to look for.
pub enum SymbolQuery {
    /// Symbols with the name, without the path.
    Name(String),
    /// Symbols with the name and the path in front of it.
    Path(String),
    /// The symbol with the number.
    Id(u64),
}

/// Which symbols are asked for: those of one language, or of any, and how many.
pub struct SymbolSelector {
    pub query: SymbolQuery,
    pub language: Option<Language>,
    pub limit: usize,
}

/// A symbol that was found.
#[derive(Debug)]
pub struct SymbolHit {
    pub symbol_id: u64,
    pub path: String,
    pub qualified_name: String,
}

/// Symbols that were found, as plain values.
pub open spec fn hit_models(v: Seq<SymbolHit>) -> Seq<(u64, Seq<char>, Seq<char>)> {
    v.map_values(|h: SymbolHit| (h.symbol_id, h.path@, h.qualified_name@))
}

/// The query asks for the symbol.
pub open spec fn asks_for(q: SymbolQuery, s: SymbolModel) -> bool {
    match q {
        SymbolQuery::Name(name) => s.name == name@,
        SymbolQuery::Path(name) => s.qualified_name == name@,
        SymbolQuery::Id(id) => s.id == id,
    }
}

/// The selector looks at the content: it is of the language, where one is asked
/// for. A search by name passes over generated files unless they are asked for; a
/// number is looked for everywhere.
pub open spec fn looks_at(
    db: IndexModel,
    c: ContentModel,
    q: SymbolSelector,
    with_generated: bool,
) -> bool {
    &&& q.language is None || q.language == Some(c.language)
    &&& if with_generated || q.query is Id {
        scoped::in_scope(db, c)
    } else {
        scoped::is_seen(db, c, false)
    }
}

/// The hits among the first `k` symbols of the content.
pub open spec fn hits_in(c: ContentModel, q: SymbolQuery, k: nat) -> Seq<
    (u64, Seq<char>, Seq<char>),
>
    decreases k,
{
    if k == 0 {
        Seq::empty()
    } else {
        let rest = hits_in(c, q, (k - 1) as nat);
        let s = c.symbols[k - 1];
        if asks_for(q, s) {
            rest.push((s.id, c.path, s.qualified_name))
        } else {
            rest
        }
    }
}

/// The hits in the first `k` contents.
pub open spec fn hits_below(db: IndexModel, q: SymbolSelector, with_generated: bool, k: nat) -> Seq<
    (u64, Seq<char>, Seq<char>),
>
    decreases k,
{
    if k == 0 {
        Seq::empty()
    } else {
        let rest = hits_below(db, q, with_generated, (k - 1) as nat);
        let c = db.contents[k - 1];
        if looks_at(db, c, q, with_generated) {
            rest + hits_in(c, q.query, c.symbols.len())
        } else {
            rest
        }
    }
}

fn add_hits(c: &Content, q: &SymbolQuery, r: &mut Vec<SymbolHit>)
    ensures
        hit_models(final(r)@) == hit_models(old(r)@) + hits_in(c@, *q, c@.symbols.len()),
{
    let ghost before = hit_models(r@);
    let mut j: usize = 0;
    assert(hit_models(r@) =~= before + hits_in(c@, *q, 0));
    while j < c.symbols.len()
        invariant
            j <= c.symbols.len(),
            hit_models(r@) == before + hits_in(c@, *q, j as nat),
        decreases c.symbols.len() - j,
    {
        let s = &c.symbols[j];
        assert(c@.symbols[j as int] == c.symbols@[j as int]@);
        let asked: bool = match q {
            SymbolQuery::Name(name) => same_text(s.name.as_str(), name.as_str()),
            SymbolQuery::Path(name) => same_text(s.qualified_name.as_str(), name.as_str()),
            SymbolQuery::Id(id) => s.id == *id,
        };
        if asked {
            let ghost sofar = hit_models(r@);
            let hit = SymbolHit {
                symbol_id: s.id,
                path: c.path.clone(),
                qualified_name: s.qualified_name.clone(),
            };
            r.push(hit);
            proof {
                assert(hit_models(r@) =~= sofar.push(
                    (hit.symbol_id, hit.path@, hit.qualified_name@),
                ));
                assert(hit_models(r@) =~= before + hits_in(c@, *q, (j + 1) as nat));
            }
        }
        j += 1;
    }
}

/// The symbols that the selector asks for, as they are stored, and no more than it
/// asks for.
pub fn symbol_candidates(db: &IndexDatabase, q: &SymbolSelector, with_generated: bool) -> (r: Vec<
    SymbolHit,
>)
    ensures
        ({
            let all = hits_below(db@, *q, with_generated, db@.contents.len());
            hit_models(r@) == all.take(
                if q.limit < all.len() {
                    q.limit as int
                } else {
                    all.len() as int
                },
            )
        }),
{
    let by_id: bool = match &q.query {
        SymbolQuery::Id(_) => true,
        _ => false,
    };
    let mut r: Vec<SymbolHit> = Vec::new();
    let mut i: usize = 0;
    assert(hit_models(r@) =~= hits_below(db@, *q, with_generated, 0));
    while i < db.contents.len()
        invariant
            i <= db.contents.len(),
            by_id == (q.query is Id),
            hit_models(r@) == hits_below(db@, *q, with_generated, i as nat),
        decreases db.contents.len() - i,
    {
        assert(db@.contents[i as int] == db.contents@[i as int]@);
        let asked: bool = match q.language {
            Some(l) => l == db.contents[i].language,
            None => true,
        };
        let looked: bool = asked && if with_generated || by_id {
            sees_content(db, &db.contents[i])
        } else {
            sees_written(db, &db.contents[i])
        };
        if looked {
            add_hits(&db.contents[i], &q.query, &mut r);
        }
        i += 1;
    }
    let ghost full = hit_models(r@);
    if q.limit < r.len() {
        r.truncate(q.limit);
    }
    assert(hit_models(r@) =~= full.take(
        if q.limit < full.len() {
            q.limit as int
        } else {
            full.len() as int
        },
    ));
    r
}

/// A search by name finds no generated symbol unless it is asked to: leaving
/// generated files out never adds a hit.
pub proof fn fewer_without_generated(db: IndexModel, q: SymbolSelector, k: nat)
    ensures
        hits_below(db, q, false, k).len() <= hits_below(db, q, true, k).len(),
        q.query is Id ==> hits_below(db, q, false, k) == hits_below(db, q, true, k),
    decreases k,
{
    if k > 0 {
        fewer_without_generated(db, q, (k - 1) as nat);
    }
}

} // verus!

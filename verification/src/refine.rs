//! Comparing clones token by token: reading their sources again, and finding out
//! how much of them is the same.
use vstd::prelude::*;
use crate::candidates;
use crate::candidates::{print_of, Place};
use crate::content;
use crate::content::Language;
use crate::fingerprint;
use crate::fingerprint::{normalise, struct_hash, write_shape, MIN_TOKENS};
use crate::hash;
use crate::hash::hex_sha256;
use crate::index::{IndexDatabase, IndexModel};
use crate::items;
use crate::items::{ItemKind, ItemModel};
use crate::lcs;
use crate::lcs::lcs_len;
use crate::lexer;
use crate::lexer::{chars_of, TokenModel};
use crate::order;
use crate::scripts;
use crate::scripts::{read_code, read_units};
use crate::source;
use crate::source::SourceTree;
use crate::syntax::Code;
use crate::text;
use crate::text::{comes_before, same_text, sort_texts};
use crate::utf8;
use crate::utf8::byte_places;

verus! {

/// No more members of a class than this are compared.
pub const MEMBER_VALUE_CAP: usize = 50;

/// A class with more members than this is measured on some of them only.
pub const LCS_MEMBER_SAMPLE: usize = 64;

/// A member of a class, read again from its source. The spans are those of its
/// tokens in the text, in bytes.
#[derive(Debug)]
pub struct RefineMember {
    pub symbol_id: u64,
    pub struct_hash: String,
    pub language: Language,
    pub shape: Vec<String>,
    pub spans: Vec<(usize, usize)>,
    pub text: String,
}

/// What a [`RefineMember`] holds, as plain values.
#[verifier::ext_equal]
pub struct RefineModel {
    pub symbol_id: u64,
    pub struct_hash: Seq<char>,
    pub language: Language,
    pub shape: Seq<Seq<char>>,
    pub spans: Seq<(int, int)>,
    pub text: Seq<char>,
}

/// Places in a text, as plain values.
pub open spec fn span_models(v: Seq<(usize, usize)>) -> Seq<(int, int)> {
    v.map_values(|p: (usize, usize)| (p.0 as int, p.1 as int))
}

impl View for RefineMember {
    type V = RefineModel;

    open spec fn view(&self) -> RefineModel {
        RefineModel {
            symbol_id: self.symbol_id,
            struct_hash: self.struct_hash@,
            language: self.language,
            shape: text::views(self.shape@),
            spans: span_models(self.spans@),
            text: self.text@,
        }
    }
}

pub open spec fn refine_models(v: Seq<RefineMember>) -> Seq<RefineModel> {
    v.map_values(|m: RefineMember| m@)
}

/// Where the tokens of an item stand among the bytes of the text.
pub open spec fn item_spans(s: Seq<char>, toks: Seq<TokenModel>, it: ItemModel) -> Seq<
    (int, int),
> {
    content::item_tokens(toks, it).map_values(
        |t: TokenModel| utf8::span_of(s, t.start, t.end),
    )
}

/// The symbol at the place, read again from a checkout: nothing where its file
/// is gone, or where the function that now stands in its place has another shape.
pub open spec fn reparsed(
    db: IndexModel,
    tree: Seq<(Seq<char>, Seq<char>)>,
    p: (int, int),
) -> Option<RefineModel> {
    let c = db.contents[p.0];
    match source::text_in(tree, c.path) {
        None => None,
        Some(s) => {
            let toks = scripts::tokens_of(c.language, s);
            let its = scripts::units(c.language, s);
            if p.1 < its.len() && its[p.1].kind == ItemKind::Function && its[p.1].last
                - its[p.1].first >= MIN_TOKENS {
                let shape = fingerprint::normalised(content::item_tokens(toks, its[p.1]));
                if fingerprint::shape_hash(shape) == candidates::print_at(db, p).struct_hash {
                    Some(
                        RefineModel {
                            symbol_id: candidates::symbol_at(db, p).id,
                            struct_hash: candidates::print_at(db, p).struct_hash,
                            language: c.language,
                            shape,
                            spans: item_spans(s, toks, its[p.1]),
                            text: s,
                        },
                    )
                } else {
                    None
                }
            } else {
                None
            }
        },
    }
}

/// What is read again is faithful: its shape has the hash that the index stored,
/// and each of its tokens has its place in the text, where its bytes recover it.
pub proof fn reparse_is_faithful(
    db: IndexModel,
    tree: Seq<(Seq<char>, Seq<char>)>,
    p: (int, int),
)
    requires
        candidates::is_candidate(db, p),
        reparsed(db, tree, p) is Some,
    ensures
        fingerprint::shape_hash(reparsed(db, tree, p)->0.shape) == candidates::print_at(
            db,
            p,
        ).struct_hash,
        reparsed(db, tree, p)->0.spans.len() == reparsed(db, tree, p)->0.shape.len(),
        ({
            let m = reparsed(db, tree, p)->0;
            let it = scripts::units(m.language, m.text)[p.1];
            let toks = content::item_tokens(scripts::tokens_of(m.language, m.text), it);
            &&& m.shape == fingerprint::normalised(toks)
            &&& m.spans.len() == toks.len()
            &&& forall|k: int|
                0 <= k < toks.len() ==> (#[trigger] m.spans[k]).0 < m.spans[k].1
                    && utf8::recovers(m.text, m.spans[k], toks[k].text)
        }),
{
    let c = db.contents[p.0];
    let s = source::text_in(tree, c.path)->0;
    let toks = scripts::tokens_of(c.language, s);
    let its = scripts::units(c.language, s);
    let own = content::item_tokens(toks, its[p.1]);
    let spans = item_spans(s, toks, its[p.1]);
    shape_is_as_long(own);
    scripts::units_lie_inside(c.language, s, p.1);
    lexer::tokens_are_inside(s, 0, scripts::dialect_of(c.language));
    lexer::tokens_are_cut_out(s, 0, scripts::dialect_of(c.language));
    assert forall|k: int| 0 <= k < own.len() implies (#[trigger] spans[k]).0 < spans[k].1
        && utf8::recovers(s, spans[k], own[k].text) by {
        let t = toks[its[p.1].first + k];
        assert(own[k] == t);
        assert(0 <= t.start < t.end <= s.len());
        utf8::bytes_recover_text(s, t.start, t.end);
        utf8::text_takes_bytes(t.text);
        assert(vstd::utf8::encode_utf8(s).subrange(spans[k].0, spans[k].1).len() == spans[k].1
            - spans[k].0);
    }
}

proof fn shape_is_as_long(toks: Seq<TokenModel>)
    ensures
        fingerprint::normalised(toks).len() == toks.len(),
    decreases toks.len(),
{
    if toks.len() > 0 {
        shape_is_as_long(toks.drop_last());
    }
}

fn read_spans(
    code: &Code,
    lo: usize,
    hi: usize,
    places: &Vec<usize>,
    Ghost(s): Ghost<Seq<char>>,
) -> (r: Vec<(usize, usize)>)
    requires
        lo <= hi <= code.toks.len(),
        places.len() == s.len() + 1,
        forall|k: int| 0 <= k <= s.len() ==> #[trigger] places@[k] == utf8::byte_place(s, k),
        forall|k: int|
            0 <= k < code@.len() ==> 0 <= (#[trigger] code@[k]).start < code@[k].end <= s.len(),
    ensures
        span_models(r@) == code@.subrange(lo as int, hi as int).map_values(
            |t: TokenModel| utf8::span_of(s, t.start, t.end),
        ),
{
    let ghost goal = code@.subrange(lo as int, hi as int).map_values(
        |t: TokenModel| utf8::span_of(s, t.start, t.end),
    );
    let mut r: Vec<(usize, usize)> = Vec::new();
    let mut i: usize = lo;
    assert(span_models(r@) =~= goal.take(0));
    while i < hi
        invariant
            lo <= i <= hi <= code.toks.len(),
            places.len() == s.len() + 1,
            forall|k: int| 0 <= k <= s.len() ==> #[trigger] places@[k] == utf8::byte_place(s, k),
            forall|k: int|
                0 <= k < code@.len() ==> 0 <= (#[trigger] code@[k]).start < code@[k].end
                    <= s.len(),
            goal == code@.subrange(lo as int, hi as int).map_values(
                |t: TokenModel| utf8::span_of(s, t.start, t.end),
            ),
            span_models(r@) == goal.take(i - lo),
        decreases hi - i,
    {
        let ghost sofar = span_models(r@);
        assert(code@[i as int] == code.toks@[i as int]@);
        r.push((places[code.toks[i].start], places[code.toks[i].end]));
        proof {
            assert(goal[i - lo] == utf8::span_of(s, code@[i as int].start, code@[i as int].end));
            assert(span_models(r@) =~= sofar.push(goal[i - lo]));
            assert(goal.take(i - lo + 1) =~= goal.take(i - lo).push(goal[i - lo]));
        }
        i += 1;
    }
    assert(goal.take(i - lo) =~= goal);
    r
}

fn reparse(db: &IndexDatabase, tree: &SourceTree, p: Place) -> (r: Option<RefineMember>)
    requires
        candidates::is_candidate(db@, (p.content as int, p.symbol as int)),
    ensures
        match r {
            Some(m) => reparsed(db@, tree@, (p.content as int, p.symbol as int)) == Some(m@),
            None => reparsed(db@, tree@, (p.content as int, p.symbol as int)) is None,
        },
{
    let ghost at = (p.content as int, p.symbol as int);
    assert(db@.contents[p.content as int] == db.contents@[p.content as int]@);
    let s = match tree.read(db.contents[p.content].path.as_str()) {
        Some(s) => s,
        None => {
            return None;
        },
    };
    let language = db.contents[p.content].language;
    let chars = chars_of(s.as_str());
    let code = read_code(language, s.as_str());
    let its = read_units(language, &chars, &code);
    let ghost models = items::item_models(its@);
    if p.symbol >= its.len() {
        return None;
    }
    let it = its[p.symbol];
    proof {
        assert(models[p.symbol as int] == it@);
        assert(items::item_fits(code@, its@[p.symbol as int]));
    }
    if it.kind != ItemKind::Function || it.last - it.first < MIN_TOKENS {
        return None;
    }
    let shape = normalise(&code.toks, it.first, it.last);
    let now = struct_hash(&shape);
    let stored = print_of(db, p).struct_hash.clone();
    if !same_text(now.as_str(), stored.as_str()) {
        return None;
    }
    let places = byte_places(s.as_str(), &chars);
    proof {
        lexer::tokens_are_inside(s@, 0, scripts::dialect_of(language));
    }
    let m = RefineMember {
        symbol_id: candidates::id_at(db, p),
        struct_hash: stored,
        language,
        shape,
        spans: read_spans(&code, it.first, it.last, &places, Ghost(s@)),
        text: s,
    };
    assert(m@ =~= reparsed(db@, tree@, at)->0);
    Some(m)
}

/// The order in which members of a class are taken: by the hash of the shape, the
/// path, and where in the file they begin.
pub open spec fn earlier(db: IndexModel, p: (int, int), q: (int, int)) -> bool {
    let hp = candidates::print_at(db, p).struct_hash;
    let hq = candidates::print_at(db, q).struct_hash;
    let cp = db.contents[p.0].path;
    let cq = db.contents[q.0].path;
    ||| text::before(hp, hq)
    ||| hp == hq && text::before(cp, cq)
    ||| hp == hq && cp == cq && candidates::symbol_at(db, p).start < candidates::symbol_at(
        db,
        q,
    ).start
}

/// The members of a class in the order in which they are taken.
pub open spec fn canonical(db: IndexModel, ps: Seq<(int, int)>) -> Seq<(int, int)> {
    order::ranked(ps, |p: (int, int), q: (int, int)| earlier(db, p, q))
}

fn comes_earlier(db: &IndexDatabase, p: Place, q: Place) -> (r: bool)
    requires
        candidates::is_candidate(db@, (p.content as int, p.symbol as int)),
        candidates::is_candidate(db@, (q.content as int, q.symbol as int)),
    ensures
        r == earlier(
            db@,
            (p.content as int, p.symbol as int),
            (q.content as int, q.symbol as int),
        ),
{
    proof {
        let c = db.contents@[p.content as int];
        let d = db.contents@[q.content as int];
        assert(db@.contents[p.content as int] == c@);
        assert(db@.contents[q.content as int] == d@);
        assert(c@.symbols[p.symbol as int] == c.symbols@[p.symbol as int]@);
        assert(d@.symbols[q.symbol as int] == d.symbols@[q.symbol as int]@);
    }
    let hp = print_of(db, p).struct_hash.as_str();
    let hq = print_of(db, q).struct_hash.as_str();
    if comes_before(hp, hq) {
        return true;
    }
    if !same_text(hp, hq) {
        return false;
    }
    let cp = db.contents[p.content].path.as_str();
    let cq = db.contents[q.content].path.as_str();
    comes_before(cp, cq) || (same_text(cp, cq) && db.contents[p.content].symbols[p.symbol].start
        < db.contents[q.content].symbols[q.symbol].start)
}

fn sort_places(db: &IndexDatabase, ps: &Vec<Place>) -> (r: Vec<Place>)
    requires
        forall|a: int|
            0 <= a < ps.len() ==> candidates::is_candidate(
                db@,
                #[trigger] candidates::place_models(ps@)[a],
            ),
    ensures
        candidates::place_models(r@) == canonical(db@, candidates::place_models(ps@)),
        forall|a: int|
            0 <= a < r.len() ==> candidates::is_candidate(
                db@,
                #[trigger] candidates::place_models(r@)[a],
            ),
{
    let ghost all = candidates::place_models(ps@);
    let ghost first = |p: (int, int), q: (int, int)| earlier(db@, p, q);
    let mut r: Vec<Place> = Vec::new();
    let mut i: usize = 0;
    assert(candidates::place_models(r@) =~= order::ranked(all.take(0), first));
    while i < ps.len()
        invariant
            i <= ps.len(),
            all == candidates::place_models(ps@),
            first == (|p: (int, int), q: (int, int)| earlier(db@, p, q)),
            candidates::place_models(r@) == order::ranked(all.take(i as int), first),
            forall|a: int|
                0 <= a < ps.len() ==> candidates::is_candidate(db@, #[trigger] all[a]),
            forall|a: int|
                0 <= a < r.len() ==> candidates::is_candidate(
                    db@,
                    #[trigger] candidates::place_models(r@)[a],
                ),
        decreases ps.len() - i,
    {
        let x = ps[i];
        let ghost xm = (x.content as int, x.symbol as int);
        let ghost old_r = candidates::place_models(r@);
        assert(all[i as int] == xm);
        assert forall|a: int| 0 <= a < r.len() implies candidates::is_candidate(
            db@,
            ((#[trigger] r@[a]).content as int, r@[a].symbol as int),
        ) by {
            assert(candidates::is_candidate(db@, old_r[a]));
        }
        let mut k: usize = 0;
        while k < r.len() && !comes_earlier(db, x, r[k])
            invariant
                k <= r.len(),
                candidates::is_candidate(db@, xm),
                xm == (x.content as int, x.symbol as int),
                first == (|p: (int, int), q: (int, int)| earlier(db@, p, q)),
                old_r == candidates::place_models(r@),
                forall|a: int|
                    0 <= a < r.len() ==> candidates::is_candidate(
                        db@,
                        ((#[trigger] r@[a]).content as int, r@[a].symbol as int),
                    ),
                forall|j: int| 0 <= j < k ==> !first(xm, #[trigger] old_r[j]),
            decreases r.len() - k,
        {
            assert(old_r[k as int] == (r@[k as int].content as int, r@[k as int].symbol as int));
            k += 1;
        }
        proof {
            if k < r.len() {
                assert(candidates::is_candidate(db@, old_r[k as int]));
            }
            order::placed_at(old_r, xm, first, k as int);
            assert(all.take(i + 1).drop_last() =~= all.take(i as int));
            assert(all.take(i + 1).last() == xm);
        }
        r.insert(k, x);
        proof {
            let now = candidates::place_models(r@);
            assert(now =~= old_r.insert(k as int, xm));
            assert forall|a: int| 0 <= a < now.len() implies candidates::is_candidate(
                db@,
                #[trigger] now[a],
            ) by {
                if a < k {
                    assert(now[a] == old_r[a]);
                } else if a > k {
                    assert(now[a] == old_r[a - 1]);
                }
            }
        }
        i += 1;
    }
    assert(all.take(i as int) =~= all);
    r
}

/// The symbols at the places, read again; nothing where one cannot be.
pub open spec fn reparsed_all(
    db: IndexModel,
    tree: Seq<(Seq<char>, Seq<char>)>,
    ps: Seq<(int, int)>,
) -> Option<Seq<RefineModel>>
    decreases ps.len(),
{
    if ps.len() == 0 {
        Some(Seq::empty())
    } else {
        match (reparsed_all(db, tree, ps.drop_last()), reparsed(db, tree, ps.last())) {
            (Some(rest), Some(m)) => Some(rest.push(m)),
            _ => None,
        }
    }
}

/// The first members of a class, read again from a checkout. Under a worktree
/// there is no checkout of the right state, and nothing is read.
pub open spec fn refine_inputs(
    db: IndexModel,
    tree: Seq<(Seq<char>, Seq<char>)>,
    ps: Seq<(int, int)>,
) -> Option<Seq<RefineModel>> {
    let first = canonical(db, ps);
    if ps.len() == 0 {
        Some(Seq::empty())
    } else if db.worktree_id.len() > 0 {
        None
    } else if first.len() > MEMBER_VALUE_CAP {
        reparsed_all(db, tree, first.take(MEMBER_VALUE_CAP as int))
    } else {
        reparsed_all(db, tree, first)
    }
}

/// Reads the first members of a class again from a checkout.
pub fn load_places(db: &IndexDatabase, tree: &SourceTree, ps: &Vec<Place>) -> (r: Option<
    Vec<RefineMember>,
>)
    requires
        forall|a: int|
            0 <= a < ps.len() ==> candidates::is_candidate(
                db@,
                #[trigger] candidates::place_models(ps@)[a],
            ),
    ensures
        match r {
            Some(ms) => refine_inputs(db@, tree@, candidates::place_models(ps@)) == Some(
                refine_models(ms@),
            ),
            None => refine_inputs(db@, tree@, candidates::place_models(ps@)) is None,
        },
{
    let mut r: Vec<RefineMember> = Vec::new();
    if ps.len() == 0 {
        assert(refine_models(r@) =~= Seq::empty());
        return Some(r);
    }
    if db.active_scope_is_linked_overlay() {
        return None;
    }
    let first = sort_places(db, ps);
    let n: usize = if first.len() > MEMBER_VALUE_CAP {
        MEMBER_VALUE_CAP
    } else {
        first.len()
    };
    let ghost all = candidates::place_models(first@);
    let ghost used = all.take(n as int);
    proof {
        order::ranked_keeps(
            candidates::place_models(ps@),
            |p: (int, int), q: (int, int)| earlier(db@, p, q),
        );
        if n == first.len() {
            assert(used =~= all);
        }
        assert(refine_inputs(db@, tree@, candidates::place_models(ps@)) == reparsed_all(
            db@,
            tree@,
            used,
        ));
    }
    let mut i: usize = 0;
    assert(refine_models(r@) =~= Seq::empty());
    assert(used.take(0) =~= Seq::empty());
    while i < n
        invariant
            i <= n <= first.len(),
            all == candidates::place_models(first@),
            used == all.take(n as int),
            refine_inputs(db@, tree@, candidates::place_models(ps@)) == reparsed_all(
                db@,
                tree@,
                used,
            ),
            reparsed_all(db@, tree@, used.take(i as int)) == Some(refine_models(r@)),
            forall|a: int|
                0 <= a < first.len() ==> candidates::is_candidate(db@, #[trigger] all[a]),
        decreases n - i,
    {
        proof {
            assert(used.take(i + 1).drop_last() =~= used.take(i as int));
            assert(used.take(i + 1).last() == all[i as int]);
            assert(candidates::is_candidate(db@, all[i as int]));
        }
        match reparse(db, tree, first[i]) {
            Some(m) => {
                let ghost sofar = refine_models(r@);
                r.push(m);
                assert(refine_models(r@) =~= sofar.push(m@));
            },
            None => {
                proof {
                    missing_one_is_missing_all(db@, tree@, used, i + 1);
                }
                return None;
            },
        }
        i += 1;
    }
    assert(used.take(i as int) =~= used);
    Some(r)
}

proof fn missing_one_is_missing_all(
    db: IndexModel,
    tree: Seq<(Seq<char>, Seq<char>)>,
    ps: Seq<(int, int)>,
    k: int,
)
    requires
        0 <= k <= ps.len(),
        reparsed_all(db, tree, ps.take(k)) is None,
    ensures
        reparsed_all(db, tree, ps) is None,
    decreases ps.len(),
{
    if k == ps.len() {
        assert(ps.take(k) =~= ps);
    } else {
        assert(ps.drop_last().take(k) =~= ps.take(k));
        missing_one_is_missing_all(db, tree, ps.drop_last(), k);
    }
}

/// The place of the candidate with the number.
pub open spec fn place_of_id(db: IndexModel, ps: Seq<(int, int)>, id: u64) -> Option<(int, int)>
    decreases ps.len(),
{
    if ps.len() == 0 {
        None
    } else if candidates::symbol_at(db, ps.last()).id == id {
        Some(ps.last())
    } else {
        place_of_id(db, ps.drop_last(), id)
    }
}

/// The places of the candidates with the numbers; nothing where one has none.
pub open spec fn places_of_ids(db: IndexModel, ids: Seq<u64>) -> Option<Seq<(int, int)>>
    decreases ids.len(),
{
    if ids.len() == 0 {
        Some(Seq::empty())
    } else {
        match (
            places_of_ids(db, ids.drop_last()),
            place_of_id(db, candidates::candidates(db), ids.last()),
        ) {
            (Some(rest), Some(p)) => Some(rest.push(p)),
            _ => None,
        }
    }
}

fn find_place(db: &IndexDatabase, ps: &Vec<Place>, id: u64) -> (r: Option<Place>)
    requires
        forall|a: int|
            0 <= a < ps.len() ==> candidates::is_candidate(
                db@,
                #[trigger] candidates::place_models(ps@)[a],
            ),
    ensures
        match r {
            Some(p) => place_of_id(db@, candidates::place_models(ps@), id) == Some(
                (p.content as int, p.symbol as int),
            ) && candidates::is_candidate(db@, (p.content as int, p.symbol as int)),
            None => place_of_id(db@, candidates::place_models(ps@), id) is None,
        },
{
    let ghost all = candidates::place_models(ps@);
    let mut i: usize = ps.len();
    assert(all.take(i as int) =~= all);
    while i > 0
        invariant
            i <= ps.len(),
            all == candidates::place_models(ps@),
            place_of_id(db@, all, id) == place_of_id(db@, all.take(i as int), id),
            forall|a: int|
                0 <= a < ps.len() ==> candidates::is_candidate(db@, #[trigger] all[a]),
        decreases i,
    {
        proof {
            assert(all.take(i as int).last() == all[i - 1]);
            assert(all.take(i as int).drop_last() =~= all.take(i - 1));
            assert(candidates::is_candidate(db@, all[i - 1]));
        }
        i -= 1;
        if candidates::id_at(db, ps[i]) == id {
            return Some(ps[i]);
        }
    }
    None
}

proof fn one_unknown_is_enough(db: IndexModel, ids: Seq<u64>, k: int)
    requires
        0 <= k <= ids.len(),
        places_of_ids(db, ids.take(k)) is None,
    ensures
        places_of_ids(db, ids) is None,
    decreases ids.len(),
{
    if k == ids.len() {
        assert(ids.take(k) =~= ids);
    } else {
        assert(ids.drop_last().take(k) =~= ids.take(k));
        one_unknown_is_enough(db, ids.drop_last(), k);
    }
}

/// The members with the numbers, read again from a checkout, in the order in
/// which they are taken. Nothing comes back where one of them is no candidate,
/// where a file is gone or has drifted, or where a worktree is in scope.
pub fn load_refine_members(db: &IndexDatabase, tree: &SourceTree, ids: &Vec<u64>) -> (r: Option<
    Vec<RefineMember>,
>)
    ensures
        match (r, places_of_ids(db@, ids@)) {
            (Some(ms), Some(ps)) => refine_inputs(db@, tree@, ps) == Some(refine_models(ms@)),
            (None, Some(ps)) => refine_inputs(db@, tree@, ps) is None,
            (r, None) => r is None,
        },
{
    let all = candidates::find_candidates(db);
    let mut ps: Vec<Place> = Vec::new();
    let mut i: usize = 0;
    assert(candidates::place_models(ps@) =~= Seq::empty());
    assert(ids@.take(0) =~= Seq::empty());
    while i < ids.len()
        invariant
            i <= ids.len(),
            candidates::place_models(all@) == candidates::candidates(db@),
            places_of_ids(db@, ids@.take(i as int)) == Some(candidates::place_models(ps@)),
            forall|a: int|
                0 <= a < all.len() ==> candidates::is_candidate(
                    db@,
                    #[trigger] candidates::place_models(all@)[a],
                ),
            forall|a: int|
                0 <= a < ps.len() ==> candidates::is_candidate(
                    db@,
                    #[trigger] candidates::place_models(ps@)[a],
                ),
        decreases ids.len() - i,
    {
        proof {
            assert(ids@.take(i + 1).drop_last() =~= ids@.take(i as int));
            assert(ids@.take(i + 1).last() == ids@[i as int]);
        }
        match find_place(db, &all, ids[i]) {
            Some(p) => {
                let ghost sofar = candidates::place_models(ps@);
                ps.push(p);
                proof {
                    let now = candidates::place_models(ps@);
                    assert(now =~= sofar.push((p.content as int, p.symbol as int)));
                    assert forall|a: int| 0 <= a < now.len() implies candidates::is_candidate(
                        db@,
                        #[trigger] now[a],
                    ) by {
                        if a < sofar.len() {
                            assert(now[a] == sofar[a]);
                        }
                    }
                }
            },
            None => {
                proof {
                    one_unknown_is_enough(db@, ids@, i + 1);
                }
                return None;
            },
        }
        i += 1;
    }
    assert(ids@.take(i as int) =~= ids@);
    load_places(db, tree, &ps)
}

/// How refinements are made.
#[derive(Clone, Copy, PartialEq, Eq, Structural, Debug)]
pub enum RefineMode {
    /// From the tokens alone.
    Baseline,
    /// With what a compiler knows of names.
    Scip,
}

/// The name of a mode.
pub open spec fn mode_name(m: RefineMode) -> Seq<char> {
    match m {
        RefineMode::Baseline => "baseline"@,
        RefineMode::Scip => "scip"@,
    }
}

impl RefineMode {
    /// The name of the mode.
    pub fn as_str(&self) -> (r: &'static str)
        ensures
            r@ == mode_name(*self),
    {
        match self {
            RefineMode::Baseline => "baseline",
            RefineMode::Scip => "scip",
        }
    }
}

/// The key of a refinement: what the class is made of, in whatever order.
pub open spec fn key_of(
    language: Seq<char>,
    mode: RefineMode,
    hashes: Seq<Seq<char>>,
    sources: Seq<Seq<char>>,
) -> Seq<char> {
    hash::text_sha256(
        "refinement\n"@ + language + "\n"@ + mode_name(mode) + "\n"@ + fingerprint::shape_text(
            text::alphabetical(hashes),
        ) + "\n"@ + fingerprint::shape_text(text::alphabetical(sources)),
    )
}

/// The key of a refinement, from the hashes of the members' shapes and those of
/// their sources.
pub fn refinement_key(
    language: &str,
    mode: RefineMode,
    hashes: &Vec<String>,
    sources: &Vec<String>,
) -> (r: String)
    ensures
        r@ == key_of(language@, mode, text::views(hashes@), text::views(sources@)),
{
    let mut s = "refinement\n".to_owned();
    s.append(language);
    s.append("\n");
    s.append(mode.as_str());
    s.append("\n");
    s.append(write_shape(&sort_texts(hashes)).as_str());
    s.append("\n");
    s.append(write_shape(&sort_texts(sources)).as_str());
    hex_sha256(s.as_bytes_vec().as_slice())
}

/// The key does not depend on the order of the members.
pub proof fn key_ignores_order(
    language: Seq<char>,
    mode: RefineMode,
    h1: Seq<Seq<char>>,
    h2: Seq<Seq<char>>,
    s1: Seq<Seq<char>>,
    s2: Seq<Seq<char>>,
)
    requires
        h1.to_multiset() == h2.to_multiset(),
        s1.to_multiset() == s2.to_multiset(),
    ensures
        key_of(language, mode, h1, s1) == key_of(language, mode, h2, s2),
{
    text::sorting_ignores_order(h1, h2);
    text::sorting_ignores_order(s1, s2);
}

/// What two shapes have in common, and how long the longer of them is.
pub open spec fn compared(a: Seq<Seq<char>>, b: Seq<Seq<char>>) -> (nat, nat) {
    (lcs::lcs(a, b), fingerprint::longer(a.len(), b.len()))
}

/// The first share is less than the second.
pub open spec fn is_less(x: (nat, nat), y: (nat, nat)) -> bool {
    x.0 * y.1 < y.0 * x.1
}

/// The least share that one of the first `k` members has with the first.
pub open spec fn least_common(ms: Seq<RefineModel>, k: nat) -> (nat, nat)
    decreases k,
{
    if k <= 1 {
        (ms[0].shape.len(), ms[0].shape.len())
    } else {
        let rest = least_common(ms, (k - 1) as nat);
        let here = compared(ms[0].shape, ms[k - 1].shape);
        if is_less(here, rest) {
            here
        } else {
            rest
        }
    }
}

/// The least share that a member has with the first, and the tokens that it is a
/// share of.
pub fn find_least_common(ms: &Vec<RefineMember>) -> (r: (usize, usize))
    requires
        ms.len() > 0,
    ensures
        (r.0 as nat, r.1 as nat) == least_common(refine_models(ms@), ms@.len()),
{
    let ghost all = refine_models(ms@);
    let mut lcs: usize = ms[0].shape.len();
    let mut of: usize = ms[0].shape.len();
    let mut k: usize = 1;
    assert(all[0] == ms@[0]@);
    while k < ms.len()
        invariant
            1 <= k <= ms.len(),
            all == refine_models(ms@),
            (lcs as nat, of as nat) == least_common(all, k as nat),
        decreases ms.len() - k,
    {
        proof {
            assert(all[0] == ms@[0]@);
            assert(all[k as int] == ms@[k as int]@);
            lcs::lcs_is_bounded(all[0].shape, all[k as int].shape);
        }
        let here: usize = lcs_len(&ms[0].shape, &ms[k].shape);
        let len: usize = if ms[0].shape.len() >= ms[k].shape.len() {
            ms[0].shape.len()
        } else {
            ms[k].shape.len()
        };
        proof {
            assert(here * of <= usize::MAX * usize::MAX) by (nonlinear_arith)
                requires
                    here <= usize::MAX,
                    of <= usize::MAX,
            ;
            assert(lcs * len <= usize::MAX * usize::MAX) by (nonlinear_arith)
                requires
                    lcs <= usize::MAX,
                    len <= usize::MAX,
            ;
            assert(usize::MAX * usize::MAX <= u128::MAX) by (nonlinear_arith)
                requires
                    usize::MAX <= u64::MAX,
            ;
        }
        if (here as u128 * of as u128) < (lcs as u128 * len as u128) {
            lcs = here;
            of = len;
        }
        k += 1;
    }
    (lcs, of)
}

} // verus!

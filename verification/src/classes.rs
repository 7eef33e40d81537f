//! Classes of clones: what is said about a group of similar functions.
use vstd::prelude::*;
use crate::candidates;
use crate::candidates::{id_at, print_of, Place};
use crate::content::Language;
use crate::fingerprint;
use crate::fingerprint::{common, write_shape};
use crate::hash;
use crate::hash::hex_sha256;
use crate::index::{IndexDatabase, IndexModel};
use crate::paths;
use crate::paths::parent_of;
use crate::refine::{RefineMode, LCS_MEMBER_SAMPLE};
use crate::text;
use crate::text::{contains_text, sort_texts};

verus! {

/// No more members of a class than this are listed.
pub const MAX_MEMBERS: usize = 50;

/// The place, as a pair of numbers.
pub open spec fn at(p: Place) -> (int, int) {
    (p.content as int, p.symbol as int)
}

/// All places are those of symbols with fingerprints.
pub open spec fn all_candidates(db: IndexModel, g: Seq<Place>) -> bool {
    forall|a: int| 0 <= a < g.len() ==> candidates::is_candidate(db, at(#[trigger] g[a]))
}

/// What two functions have in common, and how long the longer of them is.
pub open spec fn shared(db: IndexModel, p: (int, int), q: (int, int)) -> (nat, nat) {
    let a = candidates::print_at(db, p);
    let b = candidates::print_at(db, q);
    let len = fingerprint::longer(a.shape.len(), b.shape.len());
    let both = fingerprint::overlap(a.bag, b.bag);
    (if both <= len {
        both
    } else {
        len
    }, len)
}

fn find_shared(db: &IndexDatabase, p: Place, q: Place) -> (r: (usize, usize))
    requires
        candidates::is_candidate(db@, at(p)),
        candidates::is_candidate(db@, at(q)),
    ensures
        (r.0 as nat, r.1 as nat) == shared(db@, at(p), at(q)),
        r.0 <= r.1,
{
    let a = print_of(db, p);
    let b = print_of(db, q);
    let len: usize = if a.shape.len() >= b.shape.len() {
        a.shape.len()
    } else {
        b.shape.len()
    };
    let both: u128 = common(&a.bag, &b.bag);
    if both <= len as u128 {
        (both as usize, len)
    } else {
        (len, len)
    }
}

/// The first share is less than the second.
pub open spec fn is_less(x: (nat, nat), y: (nat, nat)) -> bool {
    x.0 * y.1 < y.0 * x.1
}

fn less(x: (usize, usize), y: (usize, usize)) -> (r: bool)
    ensures
        r == is_less((x.0 as nat, x.1 as nat), (y.0 as nat, y.1 as nat)),
{
    proof {
        products_fit(x.0, y.1);
        products_fit(y.0, x.1);
    }
    (x.0 as u128 * y.1 as u128) < (y.0 as u128 * x.1 as u128)
}

proof fn products_fit(a: usize, b: usize)
    ensures
        0 <= a * b <= u128::MAX,
{
    assert(0 <= a * b <= u64::MAX * u64::MAX) by (nonlinear_arith)
        requires
            0 <= a <= u64::MAX,
            0 <= b <= u64::MAX,
    ;
}

/// The least share of two among the first `k` members, as far as the last of
/// them has been compared with the first `b`. A single member is the whole of
/// itself.
pub open spec fn least_share(db: IndexModel, g: Seq<(int, int)>, k: nat, b: nat) -> (nat, nat)
    decreases k, b,
{
    if k <= 1 {
        (1, 1)
    } else if b == 0 {
        least_share(db, g, (k - 1) as nat, (k - 2) as nat)
    } else {
        let rest = least_share(db, g, k, (b - 1) as nat);
        let here = shared(db, g[b - 1], g[k - 1]);
        if is_less(here, rest) {
            here
        } else {
            rest
        }
    }
}

/// The least share of two members.
pub open spec fn cohesion(db: IndexModel, g: Seq<(int, int)>) -> (nat, nat) {
    if g.len() == 0 {
        (1, 1)
    } else {
        least_share(db, g, g.len(), (g.len() - 1) as nat)
    }
}

fn find_cohesion(db: &IndexDatabase, g: &Vec<Place>) -> (r: (usize, usize))
    requires
        all_candidates(db@, g@),
    ensures
        (r.0 as nat, r.1 as nat) == cohesion(db@, candidates::place_models(g@)),
{
    let ghost ps = candidates::place_models(g@);
    let mut r: (usize, usize) = (1, 1);
    let mut k: usize = 1;
    while k < g.len()
        invariant
            1 <= k,
            g.len() > 0 ==> k <= g.len(),
            g.len() == 0 ==> k == 1,
            ps == candidates::place_models(g@),
            all_candidates(db@, g@),
            (r.0 as nat, r.1 as nat) == least_share(db@, ps, k as nat, (k - 1) as nat),
        decreases g.len() - k,
    {
        let mut b: usize = 0;
        while b < k
            invariant
                b <= k < g.len(),
                ps == candidates::place_models(g@),
                all_candidates(db@, g@),
                (r.0 as nat, r.1 as nat) == least_share(db@, ps, (k + 1) as nat, b as nat),
            decreases k - b,
        {
            assert(candidates::is_candidate(db@, at(g@[b as int])));
            assert(candidates::is_candidate(db@, at(g@[k as int])));
            let here = find_shared(db, g[b], g[k]);
            if less(here, r) {
                r = here;
            }
            b += 1;
        }
        k += 1;
    }
    r
}

/// The directories of the first `k` members, each once.
pub open spec fn directories(db: IndexModel, g: Seq<(int, int)>, k: nat) -> Seq<Seq<char>>
    decreases k,
{
    if k == 0 {
        Seq::empty()
    } else {
        let rest = directories(db, g, (k - 1) as nat);
        let dir = paths::parent(db.contents[g[k - 1].0].path);
        if rest.contains(dir) {
            rest
        } else {
            rest.push(dir)
        }
    }
}

/// Over how many directories the members are spread.
pub open spec fn spread(db: IndexModel, g: Seq<(int, int)>) -> nat {
    directories(db, g, g.len()).len()
}

fn find_spread(db: &IndexDatabase, g: &Vec<Place>) -> (r: usize)
    requires
        all_candidates(db@, g@),
    ensures
        r == spread(db@, candidates::place_models(g@)),
{
    let ghost ps = candidates::place_models(g@);
    let mut dirs: Vec<String> = Vec::new();
    let mut k: usize = 0;
    assert(text::views(dirs@) =~= directories(db@, ps, 0));
    while k < g.len()
        invariant
            k <= g.len(),
            ps == candidates::place_models(g@),
            all_candidates(db@, g@),
            text::views(dirs@) == directories(db@, ps, k as nat),
        decreases g.len() - k,
    {
        proof {
            assert(candidates::is_candidate(db@, at(g@[k as int])));
            let i = g@[k as int].content as int;
            assert(db@.contents[i] == db.contents@[i]@);
        }
        let dir = parent_of(db.contents[g[k].content].path.as_str());
        if !contains_text(&dirs, dir.as_str()) {
            let ghost sofar = text::views(dirs@);
            dirs.push(dir);
            assert(text::views(dirs@) =~= sofar.push(dir@));
        }
        k += 1;
    }
    dirs.len()
}

/// A share in millionths, rounded down.
pub open spec fn millionths(x: (nat, nat)) -> nat {
    if x.1 == 0 {
        0
    } else {
        (x.0 * 1_000_000) / x.1
    }
}

fn find_millionths(x: (usize, usize)) -> (r: u128)
    requires
        x.0 <= x.1,
    ensures
        r == millionths((x.0 as nat, x.1 as nat)),
        r <= 1_000_000,
{
    if x.1 == 0 {
        return 0;
    }
    let r: u128 = (x.0 as u128 * 1_000_000) / x.1 as u128;
    proof {
        let a = x.0 as int;
        let b = x.1 as int;
        assert((a * 1_000_000) / b <= 1_000_000) by (nonlinear_arith)
            requires
                0 <= a <= b,
                0 < b,
        ;
    }
    r
}

/// How close member `a` is to the first `k` members, in millionths for each.
pub open spec fn closeness(db: IndexModel, g: Seq<(int, int)>, a: int, k: nat) -> nat
    decreases k,
{
    if k == 0 {
        0
    } else {
        closeness(db, g, a, (k - 1) as nat) + if k - 1 == a {
            0
        } else {
            millionths(shared(db, g[a], g[k - 1]))
        }
    }
}

/// The first of the first `k` members that is closest to all members.
pub open spec fn closest(db: IndexModel, g: Seq<(int, int)>, k: nat) -> int
    decreases k,
{
    if k <= 1 {
        0
    } else {
        let rest = closest(db, g, (k - 1) as nat);
        if closeness(db, g, rest, g.len()) < closeness(db, g, k - 1, g.len()) {
            k - 1
        } else {
            rest
        }
    }
}

fn find_closeness(db: &IndexDatabase, g: &Vec<Place>, a: usize) -> (r: u128)
    requires
        all_candidates(db@, g@),
        a < g.len(),
    ensures
        r == closeness(db@, candidates::place_models(g@), a as int, g@.len()),
{
    let ghost ps = candidates::place_models(g@);
    let mut r: u128 = 0;
    let mut k: usize = 0;
    while k < g.len()
        invariant
            k <= g.len(),
            a < g.len(),
            ps == candidates::place_models(g@),
            all_candidates(db@, g@),
            r == closeness(db@, ps, a as int, k as nat),
            r <= k * 1_000_000,
        decreases g.len() - k,
    {
        assert(candidates::is_candidate(db@, at(g@[a as int])));
        assert(candidates::is_candidate(db@, at(g@[k as int])));
        if k != a {
            r = r + find_millionths(find_shared(db, g[a], g[k]));
        }
        k += 1;
    }
    r
}

fn find_closest(db: &IndexDatabase, g: &Vec<Place>) -> (r: usize)
    requires
        all_candidates(db@, g@),
        g.len() > 0,
    ensures
        r == closest(db@, candidates::place_models(g@), g@.len()),
        r < g.len(),
{
    let ghost ps = candidates::place_models(g@);
    let mut r: usize = 0;
    let mut best: u128 = find_closeness(db, g, 0);
    let mut k: usize = 1;
    while k < g.len()
        invariant
            1 <= k <= g.len(),
            r < k,
            ps == candidates::place_models(g@),
            all_candidates(db@, g@),
            r == closest(db@, ps, k as nat),
            best == closeness(db@, ps, r as int, ps.len()),
        decreases g.len() - k,
    {
        let here = find_closeness(db, g, k);
        if best < here {
            r = k;
            best = here;
        }
        k += 1;
    }
    r
}

/// A product, as large as it can be written.
pub open spec fn times(a: nat, b: nat) -> nat {
    if a * b <= u128::MAX {
        a * b
    } else {
        u128::MAX as nat
    }
}

fn multiply(a: u128, b: u128) -> (r: u128)
    ensures
        r == times(a as nat, b as nat),
{
    match a.checked_mul(b) {
        Some(p) => p,
        None => u128::MAX,
    }
}

/// What it would provisionally be worth to join the members of a class, before they
/// are compared token by token: their spread, how many they are, the length of the
/// closest of them and their cohesion.
///
/// How much else depends on the members, the load-bearing factor, is left out. So is
/// what comes of the comparison: a class that was refined counts by how well its
/// members can be joined in place of their cohesion, and one that was not by the
/// logarithm of their number.
pub open spec fn worth(db: IndexModel, g: Seq<(int, int)>) -> nat {
    times(
        times(
            times(spread(db, g), g.len()),
            candidates::print_at(db, g[closest(db, g, g.len())]).shape.len(),
        ),
        millionths(cohesion(db, g)),
    )
}

/// A member of a class.
#[derive(Debug)]
pub struct CloneMember {
    pub symbol_id: u64,
    pub reference: String,
    pub path: String,
    pub start_line: usize,
    pub end_line: usize,
}

/// What a [`CloneMember`] holds, as plain values.
#[verifier::ext_equal]
pub struct MemberModel {
    pub symbol_id: u64,
    pub reference: Seq<char>,
    pub path: Seq<char>,
    pub start_line: int,
    pub end_line: int,
}

impl View for CloneMember {
    type V = MemberModel;

    open spec fn view(&self) -> MemberModel {
        MemberModel {
            symbol_id: self.symbol_id,
            reference: self.reference@,
            path: self.path@,
            start_line: self.start_line as int,
            end_line: self.end_line as int,
        }
    }
}

pub open spec fn member_models(v: Seq<CloneMember>) -> Seq<MemberModel> {
    v.map_values(|m: CloneMember| m@)
}

/// The member at the place.
pub open spec fn member_at(db: IndexModel, p: (int, int)) -> MemberModel {
    let s = candidates::symbol_at(db, p);
    MemberModel {
        symbol_id: s.id,
        reference: s.qualified_name,
        path: db.contents[p.0].path,
        start_line: s.start_line,
        end_line: s.end_line,
    }
}

/// The members that are listed: the first ones, and the one that was asked for.
pub open spec fn listed(g: Seq<(int, int)>, subject: Option<int>) -> Seq<(int, int)> {
    if g.len() <= MAX_MEMBERS {
        g
    } else {
        let first = g.take(MAX_MEMBERS as int);
        match subject {
            Some(i) => if i < MAX_MEMBERS {
                first
            } else {
                first.update(MAX_MEMBERS - 1, g[i])
            },
            None => first,
        }
    }
}

/// The one that was asked for is listed, however late it comes.
pub proof fn subject_is_listed(g: Seq<(int, int)>, i: int)
    requires
        0 <= i < g.len(),
    ensures
        listed(g, Some(i)).contains(g[i]),
        listed(g, Some(i)).len() <= MAX_MEMBERS,
{
    let l = listed(g, Some(i));
    if g.len() <= MAX_MEMBERS || i < MAX_MEMBERS {
        assert(l[i] == g[i]);
    } else {
        assert(l[MAX_MEMBERS - 1] == g[i]);
    }
}

/// The names of the members.
pub open spec fn references(db: IndexModel, g: Seq<(int, int)>) -> Seq<Seq<char>> {
    g.map_values(|p: (int, int)| candidates::symbol_at(db, p).qualified_name)
}

/// The key of a class: who its members are, in whatever order.
pub open spec fn class_key_of(db: IndexModel, g: Seq<(int, int)>) -> Seq<char> {
    hash::text_sha256(
        "class\n"@ + fingerprint::shape_text(text::alphabetical(references(db, g))),
    )
}

fn find_class_key(db: &IndexDatabase, g: &Vec<Place>) -> (r: String)
    requires
        all_candidates(db@, g@),
    ensures
        r@ == class_key_of(db@, candidates::place_models(g@)),
{
    let ghost ps = candidates::place_models(g@);
    let ghost goal = references(db@, ps);
    let mut names: Vec<String> = Vec::new();
    let mut k: usize = 0;
    assert(text::views(names@) =~= goal.take(0));
    while k < g.len()
        invariant
            k <= g.len(),
            ps == candidates::place_models(g@),
            goal == references(db@, ps),
            all_candidates(db@, g@),
            text::views(names@) == goal.take(k as int),
        decreases g.len() - k,
    {
        let p = g[k];
        proof {
            assert(candidates::is_candidate(db@, at(g@[k as int])));
            let c = db.contents@[p.content as int];
            assert(db@.contents[p.content as int] == c@);
            assert(c@.symbols[p.symbol as int] == c.symbols@[p.symbol as int]@);
        }
        let ghost sofar = text::views(names@);
        let name = db.contents[p.content].symbols[p.symbol].qualified_name.clone();
        names.push(name);
        proof {
            assert(goal[k as int] == name@);
            assert(text::views(names@) =~= sofar.push(goal[k as int]));
            assert(goal.take(k + 1) =~= goal.take(k as int).push(goal[k as int]));
        }
        k += 1;
    }
    assert(goal.take(k as int) =~= goal);
    let mut s = "class\n".to_owned();
    s.append(write_shape(&sort_texts(&names)).as_str());
    hex_sha256(s.as_bytes_vec().as_slice())
}

/// A class of clones.
#[derive(Debug)]
pub struct CloneClass {
    /// The members that are listed.
    pub members: Vec<CloneMember>,
    /// How many members there are in all.
    pub member_count: usize,
    pub language: Language,
    pub class_key: String,
    /// The tokens that the two least similar members have in common.
    pub similarity: usize,
    /// The tokens of the longer of those two.
    pub similarity_of: usize,
    pub cross_module_spread: usize,
    pub medoid_symbol_id: u64,
    pub body_token_len_medoid: usize,
    pub worth: u128,
    /// What comparing the members token by token has shown, if they were compared.
    pub refinement: Option<(usize, usize)>,
}

impl CloneClass {
    /// What kind of class it is: one whose members were compared token by token, or
    /// one that rests on their fingerprints.
    pub fn class_kind(&self) -> (r: &'static str)
        ensures
            r@ == if self.refinement is Some {
                "refined_class"@
            } else {
                "candidate_component"@
            },
    {
        match self.refinement {
            Some(_) => "refined_class",
            None => "candidate_component",
        }
    }

    /// How the members were compared token by token, if they were.
    pub fn refine_mode(&self) -> (r: Option<RefineMode>)
        ensures
            r == if self.refinement is Some {
                Some(RefineMode::Baseline)
            } else {
                None
            },
    {
        match self.refinement {
            Some(_) => Some(RefineMode::Baseline),
            None => None,
        }
    }

    /// Whether there are too many members to compare all of them.
    pub fn metrics_sampled(&self) -> (r: bool)
        ensures
            r == (self.member_count > LCS_MEMBER_SAMPLE),
    {
        self.member_count > LCS_MEMBER_SAMPLE
    }
}

/// What a [`CloneClass`] holds, as plain values.
#[verifier::ext_equal]
pub struct ClassModel {
    pub members: Seq<MemberModel>,
    pub member_count: nat,
    pub language: Language,
    pub class_key: Seq<char>,
    pub similarity: (nat, nat),
    pub cross_module_spread: nat,
    pub medoid_symbol_id: u64,
    pub body_token_len_medoid: nat,
    pub worth: nat,
    pub refinement: Option<(nat, nat)>,
}

/// A share that may be missing.
pub open spec fn optional_share(x: Option<(usize, usize)>) -> Option<(nat, nat)> {
    match x {
        Some(s) => Some((s.0 as nat, s.1 as nat)),
        None => None,
    }
}

impl View for CloneClass {
    type V = ClassModel;

    open spec fn view(&self) -> ClassModel {
        ClassModel {
            members: member_models(self.members@),
            member_count: self.member_count as nat,
            language: self.language,
            class_key: self.class_key@,
            similarity: (self.similarity as nat, self.similarity_of as nat),
            cross_module_spread: self.cross_module_spread as nat,
            medoid_symbol_id: self.medoid_symbol_id,
            body_token_len_medoid: self.body_token_len_medoid as nat,
            worth: self.worth as nat,
            refinement: optional_share(self.refinement),
        }
    }
}

pub open spec fn class_models(v: Seq<CloneClass>) -> Seq<ClassModel> {
    v.map_values(|c: CloneClass| c@)
}

/// The class that a group of functions is.
pub open spec fn class_of(
    db: IndexModel,
    g: Seq<(int, int)>,
    subject: Option<int>,
    refinement: Option<(nat, nat)>,
) -> ClassModel {
    let medoid = g[closest(db, g, g.len())];
    ClassModel {
        members: listed(g, subject).map_values(|p: (int, int)| member_at(db, p)),
        member_count: g.len(),
        language: db.contents[g[0].0].language,
        class_key: class_key_of(db, g),
        similarity: cohesion(db, g),
        cross_module_spread: spread(db, g),
        medoid_symbol_id: candidates::symbol_at(db, medoid).id,
        body_token_len_medoid: candidates::print_at(db, medoid).shape.len(),
        worth: worth(db, g),
        refinement,
    }
}

fn list_member(db: &IndexDatabase, p: Place) -> (r: CloneMember)
    requires
        candidates::is_candidate(db@, at(p)),
    ensures
        r@ == member_at(db@, at(p)),
{
    proof {
        let c = db.contents@[p.content as int];
        assert(db@.contents[p.content as int] == c@);
        assert(c@.symbols[p.symbol as int] == c.symbols@[p.symbol as int]@);
    }
    let s = &db.contents[p.content].symbols[p.symbol];
    CloneMember {
        symbol_id: s.id,
        reference: s.qualified_name.clone(),
        path: db.contents[p.content].path.clone(),
        start_line: s.start_line,
        end_line: s.end_line,
    }
}

fn list_members(db: &IndexDatabase, g: &Vec<Place>, subject: Option<usize>) -> (r: Vec<CloneMember>)
    requires
        all_candidates(db@, g@),
        subject is Some ==> subject->0 < g.len(),
    ensures
        member_models(r@) == listed(
            candidates::place_models(g@),
            crate::items::optional_place(subject),
        ).map_values(|p: (int, int)| member_at(db@, p)),
{
    let ghost ps = candidates::place_models(g@);
    let ghost chosen = listed(ps, crate::items::optional_place(subject));
    let ghost goal = chosen.map_values(|p: (int, int)| member_at(db@, p));
    let n: usize = if g.len() <= MAX_MEMBERS {
        g.len()
    } else {
        MAX_MEMBERS
    };
    let mut r: Vec<CloneMember> = Vec::new();
    let mut k: usize = 0;
    assert(member_models(r@) =~= goal.take(0));
    while k < n
        invariant
            k <= n <= g.len(),
            n <= MAX_MEMBERS,
            g.len() <= MAX_MEMBERS ==> n == g.len(),
            g.len() > MAX_MEMBERS ==> n == MAX_MEMBERS,
            subject is Some ==> subject->0 < g.len(),
            ps == candidates::place_models(g@),
            chosen == listed(ps, crate::items::optional_place(subject)),
            chosen.len() == n,
            goal == chosen.map_values(|p: (int, int)| member_at(db@, p)),
            all_candidates(db@, g@),
            member_models(r@) == goal.take(k as int),
        decreases n - k,
    {
        let mut i: usize = k;
        if g.len() > MAX_MEMBERS && k == MAX_MEMBERS - 1 {
            match subject {
                Some(s) => {
                    if s >= MAX_MEMBERS {
                        i = s;
                    }
                },
                None => {},
            }
        }
        proof {
            assert(candidates::is_candidate(db@, at(g@[i as int])));
            assert(chosen[k as int] == ps[i as int]);
        }
        let m = list_member(db, g[i]);
        let ghost sofar = member_models(r@);
        r.push(m);
        proof {
            assert(goal[k as int] == m@);
            assert(member_models(r@) =~= sofar.push(m@));
            assert(goal.take(k + 1) =~= goal.take(k as int).push(goal[k as int]));
        }
        k += 1;
    }
    assert(goal.take(k as int) =~= goal);
    r
}

/// The worth of a group.
pub fn find_worth(db: &IndexDatabase, g: &Vec<Place>) -> (r: u128)
    requires
        all_candidates(db@, g@),
        g.len() > 0,
    ensures
        r == worth(db@, candidates::place_models(g@)),
{
    let spread = find_spread(db, g);
    let medoid = find_closest(db, g);
    assert(candidates::is_candidate(db@, at(g@[medoid as int])));
    let len: usize = print_of(db, g[medoid]).shape.len();
    let share = find_cohesion(db, g);
    proof {
        cohesion_is_share(db@, candidates::place_models(g@));
    }
    multiply(
        multiply(multiply(spread as u128, g.len() as u128), len as u128),
        find_millionths(share),
    )
}

proof fn cohesion_is_share(db: IndexModel, g: Seq<(int, int)>)
    ensures
        cohesion(db, g).0 <= cohesion(db, g).1,
{
    if g.len() > 0 {
        least_share_is_share(db, g, g.len(), (g.len() - 1) as nat);
    }
}

proof fn least_share_is_share(db: IndexModel, g: Seq<(int, int)>, k: nat, b: nat)
    ensures
        least_share(db, g, k, b).0 <= least_share(db, g, k, b).1,
    decreases k, b,
{
    if k > 1 {
        if b == 0 {
            least_share_is_share(db, g, (k - 1) as nat, (k - 2) as nat);
        } else {
            least_share_is_share(db, g, k, (b - 1) as nat);
        }
    }
}

/// The class that a group of functions is.
pub fn build_class(
    db: &IndexDatabase,
    g: &Vec<Place>,
    subject: Option<usize>,
    refinement: Option<(usize, usize)>,
) -> (r: CloneClass)
    requires
        all_candidates(db@, g@),
        g.len() > 0,
        subject is Some ==> subject->0 < g.len(),
    ensures
        r@ == class_of(
            db@,
            candidates::place_models(g@),
            crate::items::optional_place(subject),
            optional_share(refinement),
        ),
{
    let ghost ps = candidates::place_models(g@);
    let medoid = find_closest(db, g);
    proof {
        assert(candidates::is_candidate(db@, at(g@[medoid as int])));
        assert(candidates::is_candidate(db@, at(g@[0])));
        assert(db@.contents[g@[0].content as int] == db.contents@[g@[0].content as int]@);
    }
    let share = find_cohesion(db, g);
    let r = CloneClass {
        members: list_members(db, g, subject),
        member_count: g.len(),
        language: db.contents[g[0].content].language,
        class_key: find_class_key(db, g),
        similarity: share.0,
        similarity_of: share.1,
        cross_module_spread: find_spread(db, g),
        medoid_symbol_id: id_at(db, g[medoid]),
        body_token_len_medoid: print_of(db, g[medoid]).shape.len(),
        worth: find_worth(db, g),
        refinement,
    };
    assert(r@ =~= class_of(
        db@,
        ps,
        crate::items::optional_place(subject),
        optional_share(refinement),
    ));
    r
}

} // verus!

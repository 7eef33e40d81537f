//! How many functions use each token: a hint on which tokens tell functions apart.
use vstd::prelude::*;
use crate::candidates;
use crate::candidates::{find_candidates, print_of};
use crate::fingerprint;
use crate::fingerprint::{make_bag, BagEntry};
use crate::index::{IndexDatabase, IndexModel};
use crate::text;

verus! {

/// The tokens of a bag, each once.
pub open spec fn tokens_of(bag: Seq<(Seq<char>, u64)>) -> Seq<Seq<char>> {
    bag.map_values(|e: (Seq<char>, u64)| e.0)
}

/// The tokens of the functions at the places, one function after the other.
pub open spec fn listed(db: IndexModel, ps: Seq<(int, int)>) -> Seq<Seq<char>>
    decreases ps.len(),
{
    if ps.len() == 0 {
        Seq::empty()
    } else {
        listed(db, ps.drop_last()) + tokens_of(candidates::print_at(db, ps.last()).bag)
    }
}

/// How many of the functions at the places use the token.
pub open spec fn users(db: IndexModel, ps: Seq<(int, int)>, token: Seq<char>) -> nat
    decreases ps.len(),
{
    if ps.len() == 0 {
        0
    } else {
        users(db, ps.drop_last(), token) + if tokens_of(
            candidates::print_at(db, ps.last()).bag,
        ).contains(token) {
            1nat
        } else {
            0
        }
    }
}

/// Each token that a candidate uses, with the number of candidates that use it.
pub fn clone_token_df(db: &IndexDatabase) -> (r: Vec<BagEntry>)
    ensures
        fingerprint::bag_models(r@) == fingerprint::bag_of(
            listed(db@, candidates::candidates(db@)),
        ),
{
    let ps = find_candidates(db);
    let ghost all = candidates::place_models(ps@);
    let mut tokens: Vec<String> = Vec::new();
    let mut i: usize = 0;
    assert(text::views(tokens@) =~= listed(db@, all.take(0)));
    while i < ps.len()
        invariant
            i <= ps.len(),
            all == candidates::place_models(ps@),
            forall|a: int| 0 <= a < ps.len() ==> candidates::is_candidate(db@, #[trigger] all[a]),
            text::views(tokens@) == listed(db@, all.take(i as int)),
        decreases ps.len() - i,
    {
        let ghost before = text::views(tokens@);
        let ghost here = all[i as int];
        let print = print_of(db, ps[i]);
        let ghost goal = tokens_of(candidates::print_at(db@, here).bag);
        let mut k: usize = 0;
        assert(goal.take(0) =~= Seq::empty());
        while k < print.bag.len()
            invariant
                k <= print.bag.len(),
                goal == tokens_of(fingerprint::bag_models(print.bag@)),
                text::views(tokens@) =~= before + goal.take(k as int),
            decreases print.bag.len() - k,
        {
            let ghost sofar = text::views(tokens@);
            tokens.push(print.bag[k].token.clone());
            proof {
                assert(goal.take(k + 1) =~= goal.take(k as int).push(goal[k as int]));
                assert(text::views(tokens@) =~= sofar.push(goal[k as int]));
            }
            k += 1;
        }
        proof {
            assert(goal.take(k as int) =~= goal);
            assert(all.take(i + 1).drop_last() =~= all.take(i as int));
            assert(all.take(i + 1).last() == here);
        }
        i += 1;
    }
    assert(all.take(i as int) =~= all);
    make_bag(&tokens)
}

proof fn count_of_concat(a: Seq<Seq<char>>, b: Seq<Seq<char>>, token: Seq<char>)
    ensures
        fingerprint::count_in(a + b, token) == fingerprint::count_in(a, token)
            + fingerprint::count_in(b, token),
    decreases b.len(),
{
    if b.len() == 0 {
        assert(a + b =~= a);
    } else {
        count_of_concat(a, b.drop_last(), token);
        assert((a + b).drop_last() =~= a + b.drop_last());
        assert((a + b).last() == b.last());
    }
}

proof fn count_in_distinct(bag: Seq<(Seq<char>, u64)>, token: Seq<char>)
    requires
        fingerprint::is_distinct(bag),
    ensures
        fingerprint::count_in(tokens_of(bag), token) == if tokens_of(bag).contains(token) {
            1nat
        } else {
            0
        },
    decreases bag.len(),
{
    let ts = tokens_of(bag);
    if bag.len() > 0 {
        let rest = bag.drop_last();
        assert(tokens_of(rest) =~= ts.drop_last());
        count_in_distinct(rest, token);
        assert(ts.last() == bag.last().0);
        if ts.last() == token {
            assert(ts[ts.len() - 1] == token);
            if tokens_of(rest).contains(token) {
                let k = tokens_of(rest).index_of(token);
                assert(bag[k].0 == token);
                assert(bag[k].0 != bag[bag.len() - 1].0);
            }
        } else {
            if ts.contains(token) {
                let k = ts.index_of(token);
                assert(ts.drop_last()[k] == token);
            }
            if tokens_of(rest).contains(token) {
                let k = tokens_of(rest).index_of(token);
                assert(ts[k] == token);
            }
        }
    }
}

proof fn listing_counts_users(db: IndexModel, ps: Seq<(int, int)>, token: Seq<char>)
    requires
        forall|a: int|
            0 <= a < ps.len() ==> fingerprint::is_distinct(
                candidates::print_at(db, #[trigger] ps[a]).bag,
            ),
    ensures
        fingerprint::count_in(listed(db, ps), token) == users(db, ps, token),
    decreases ps.len(),
{
    if ps.len() > 0 {
        let rest = ps.drop_last();
        assert forall|a: int| 0 <= a < rest.len() implies fingerprint::is_distinct(
            candidates::print_at(db, #[trigger] rest[a]).bag,
        ) by {
            assert(rest[a] == ps[a]);
        }
        listing_counts_users(db, rest, token);
        assert(fingerprint::is_distinct(candidates::print_at(db, ps[ps.len() - 1]).bag));
        count_in_distinct(candidates::print_at(db, ps.last()).bag, token);
        count_of_concat(
            listed(db, rest),
            tokens_of(candidates::print_at(db, ps.last()).bag),
            token,
        );
    }
}

/// The frequency of a token is the number of functions that use it, where no bag
/// has a token twice. The bags that indexing makes are of that kind.
pub proof fn frequency_counts_functions(db: IndexModel, token: Seq<char>)
    requires
        forall|a: int|
            0 <= a < candidates::candidates(db).len() ==> fingerprint::is_distinct(
                candidates::print_at(db, #[trigger] candidates::candidates(db)[a]).bag,
            ),
        listed(db, candidates::candidates(db)).len() <= u64::MAX,
    ensures
        fingerprint::freq_in(
            fingerprint::bag_of(listed(db, candidates::candidates(db))),
            token,
        ) == users(db, candidates::candidates(db), token),
{
    let ps = candidates::candidates(db);
    listing_counts_users(db, ps, token);
    fingerprint::bag_counts(listed(db, ps));
}

} // verus!

//! Text as sequences of characters: ordering, membership and sorted lists.
use vstd::prelude::*;
use crate::order;

verus! {

/// Lexicographic order on character sequences: `a` comes strictly before `b`.
pub open spec fn before(a: Seq<char>, b: Seq<char>) -> bool
    decreases a.len(),
{
    if b.len() == 0 {
        false
    } else if a.len() == 0 {
        true
    } else if a[0] != b[0] {
        (a[0] as int) < (b[0] as int)
    } else {
        before(a.drop_first(), b.drop_first())
    }
}

/// The views of a list of strings.
pub open spec fn views(v: Seq<String>) -> Seq<Seq<char>> {
    v.map_values(|s: String| s@)
}

/// No text comes before itself.
pub proof fn before_irreflexive(a: Seq<char>)
    ensures
        !before(a, a),
    decreases a.len(),
{
    if a.len() > 0 {
        before_irreflexive(a.drop_first());
    }
}

/// The order on texts is transitive.
pub proof fn before_transitive(a: Seq<char>, b: Seq<char>, c: Seq<char>)
    requires
        before(a, b),
        before(b, c),
    ensures
        before(a, c),
    decreases a.len(),
{
    if a.len() > 0 && a[0] == b[0] && b[0] == c[0] {
        before_transitive(a.drop_first(), b.drop_first(), c.drop_first());
    }
}

/// Two texts are equal, or one comes before the other.
pub proof fn before_total(a: Seq<char>, b: Seq<char>)
    ensures
        a == b || before(a, b) || before(b, a),
    decreases a.len(),
{
    if a.len() > 0 && b.len() > 0 && a[0] == b[0] {
        before_total(a.drop_first(), b.drop_first());
        if a.drop_first() == b.drop_first() {
            assert(a =~= seq![a[0]] + a.drop_first());
            assert(b =~= seq![b[0]] + b.drop_first());
        }
    } else if a.len() == 0 && b.len() == 0 {
        assert(a =~= b);
    }
}

proof fn before_after_common(a: Seq<char>, b: Seq<char>, k: int)
    requires
        0 <= k <= a.len(),
        k <= b.len(),
        a.take(k) == b.take(k),
    ensures
        before(a, b) == before(a.skip(k), b.skip(k)),
    decreases k,
{
    if k == 0 {
        assert(a.skip(0) =~= a);
        assert(b.skip(0) =~= b);
    } else {
        assert(a[0] == a.take(k)[0]);
        assert(b[0] == b.take(k)[0]);
        let da = a.drop_first();
        let db = b.drop_first();
        assert(da.take(k - 1) =~= a.take(k).drop_first());
        assert(db.take(k - 1) =~= b.take(k).drop_first());
        before_after_common(da, db, k - 1);
        assert(da.skip(k - 1) =~= a.skip(k));
        assert(db.skip(k - 1) =~= b.skip(k));
    }
}

/// Whether `a` comes strictly before `b`.
pub fn comes_before(a: &str, b: &str) -> (r: bool)
    ensures
        r == before(a@, b@),
{
    let n: usize = a.unicode_len();
    let m: usize = b.unicode_len();
    let mut i: usize = 0;
    while i < n && i < m
        invariant
            n == a@.len(),
            m == b@.len(),
            i <= n,
            i <= m,
            a@.take(i as int) == b@.take(i as int),
        decreases n - i,
    {
        let x: char = a.get_char(i);
        let y: char = b.get_char(i);
        proof {
            before_after_common(a@, b@, i as int);
            assert(a@.skip(i as int)[0] == a@[i as int]);
            assert(b@.skip(i as int)[0] == b@[i as int]);
        }
        if x != y {
            return (x as u32) < (y as u32);
        }
        proof {
            assert(a@.take(i + 1) =~= a@.take(i as int).push(x));
            assert(b@.take(i + 1) =~= b@.take(i as int).push(y));
        }
        i += 1;
    }
    proof {
        before_after_common(a@, b@, i as int);
    }
    n == i && i < m
}

/// Whether the list holds the text.
pub fn contains_text(list: &Vec<String>, s: &str) -> (r: bool)
    ensures
        r == views(list@).contains(s@),
{
    let mut i: usize = 0;
    while i < list.len()
        invariant
            i <= list.len(),
            forall|j: int| 0 <= j < i ==> list@[j]@ != s@,
        decreases list.len() - i,
    {
        if same_text(list[i].as_str(), s) {
            assert(views(list@)[i as int] == s@);
            return true;
        }
        i += 1;
    }
    assert forall|j: int| 0 <= j < views(list@).len() implies views(list@)[j] != s@ by {
        assert(views(list@)[j] == list@[j]@);
    }
    false
}

/// Whether two texts are equal.
pub fn same_text(a: &str, b: &str) -> (r: bool)
    ensures
        r == (a@ == b@),
{
    a.to_owned() == b.to_owned()
}

/// The decimal digit for `d`.
pub open spec fn digit(d: nat) -> char
    recommends
        d < 10,
{
    ('0' as int + d) as char
}

/// A number written in decimal.
pub open spec fn decimal(n: nat) -> Seq<char>
    decreases n,
{
    if n < 10 {
        seq![digit(n)]
    } else {
        decimal(n / 10).push(digit(n % 10))
    }
}

/// Different numbers are written differently.
pub proof fn decimals_differ(m: nat, n: nat)
    requires
        decimal(m) == decimal(n),
    ensures
        m == n,
    decreases m,
{
    let (s, t) = (decimal(m), decimal(n));
    decimal_has_digits(m / 10);
    decimal_has_digits(n / 10);
    assert(s.last() as int == '0' as int + m % 10);
    assert(t.last() as int == '0' as int + n % 10);
    if m >= 10 && n >= 10 {
        assert(s.drop_last() =~= decimal(m / 10));
        assert(t.drop_last() =~= decimal(n / 10));
        decimals_differ(m / 10, n / 10);
    } else if m >= 10 {
        assert(s.len() > 1 && t.len() == 1);
    } else if n >= 10 {
        assert(t.len() > 1 && s.len() == 1);
    }
}

/// A number has a digit, and nothing but digits.
pub proof fn decimal_has_digits(n: nat)
    ensures
        decimal(n).len() > 0,
        forall|i: int| 0 <= i < decimal(n).len() ==> '0' <= #[trigger] decimal(n)[i] <= '9',
    decreases n,
{
    if n >= 10 {
        decimal_has_digits(n / 10);
    }
}

/// A signed number written in decimal.
pub open spec fn signed_decimal(n: int) -> Seq<char> {
    if n < 0 {
        seq!['-'] + decimal((-n) as nat)
    } else {
        decimal(n as nat)
    }
}

fn digit_text(d: u64) -> (r: &'static str)
    requires
        d < 10,
    ensures
        r@ == seq![digit(d as nat)],
{
    match d {
        0 => {
            proof {
                reveal_strlit("0");
                assert("0"@ =~= seq!['0']);
            }
            "0"
        },
        1 => {
            proof {
                reveal_strlit("1");
                assert("1"@ =~= seq!['1']);
            }
            "1"
        },
        2 => {
            proof {
                reveal_strlit("2");
                assert("2"@ =~= seq!['2']);
            }
            "2"
        },
        3 => {
            proof {
                reveal_strlit("3");
                assert("3"@ =~= seq!['3']);
            }
            "3"
        },
        4 => {
            proof {
                reveal_strlit("4");
                assert("4"@ =~= seq!['4']);
            }
            "4"
        },
        5 => {
            proof {
                reveal_strlit("5");
                assert("5"@ =~= seq!['5']);
            }
            "5"
        },
        6 => {
            proof {
                reveal_strlit("6");
                assert("6"@ =~= seq!['6']);
            }
            "6"
        },
        7 => {
            proof {
                reveal_strlit("7");
                assert("7"@ =~= seq!['7']);
            }
            "7"
        },
        8 => {
            proof {
                reveal_strlit("8");
                assert("8"@ =~= seq!['8']);
            }
            "8"
        },
        _ => {
            proof {
                reveal_strlit("9");
                assert("9"@ =~= seq!['9']);
            }
            "9"
        },
    }
}

/// Writes a number in decimal.
pub fn decimal_text(n: u64) -> (r: String)
    ensures
        r@ == decimal(n as nat),
    decreases n,
{
    if n < 10 {
        digit_text(n).to_owned()
    } else {
        let mut r = decimal_text(n / 10);
        r.append(digit_text(n % 10));
        assert(r@ =~= decimal((n / 10) as nat).push(digit((n % 10) as nat)));
        r
    }
}

/// Writes a signed number in decimal.
pub fn signed_decimal_text(n: i64) -> (r: String)
    ensures
        r@ == signed_decimal(n as int),
{
    if n < 0 {
        let mut r = "-".to_owned();
        let m: u64 = (-((n + 1) as i128) + 1) as u64;
        r.append(decimal_text(m).as_str());
        proof {
            reveal_strlit("-");
            assert("-"@ =~= seq!['-']);
        }
        r
    } else {
        decimal_text(n as u64)
    }
}

/// The texts in order.
pub open spec fn alphabetical(s: Seq<Seq<char>>) -> Seq<Seq<char>> {
    order::ranked(s, |a: Seq<char>, b: Seq<char>| before(a, b))
}

/// The texts in order.
pub fn sort_texts(list: &Vec<String>) -> (r: Vec<String>)
    ensures
        views(r@) == alphabetical(views(list@)),
{
    let ghost all = views(list@);
    let ghost earlier = |a: Seq<char>, b: Seq<char>| before(a, b);
    let mut r: Vec<String> = Vec::new();
    let mut i: usize = 0;
    assert(views(r@) =~= order::ranked(all.take(0), earlier));
    while i < list.len()
        invariant
            i <= list.len(),
            all == views(list@),
            earlier == (|a: Seq<char>, b: Seq<char>| before(a, b)),
            views(r@) == order::ranked(all.take(i as int), earlier),
        decreases list.len() - i,
    {
        let ghost old_r = views(r@);
        let ghost x = list@[i as int]@;
        let mut k: usize = 0;
        while k < r.len() && !comes_before(list[i].as_str(), r[k].as_str())
            invariant
                k <= r.len(),
                i < list.len(),
                x == list@[i as int]@,
                earlier == (|a: Seq<char>, b: Seq<char>| before(a, b)),
                old_r == views(r@),
                forall|j: int| 0 <= j < k ==> !earlier(x, #[trigger] old_r[j]),
            decreases r.len() - k,
        {
            assert(old_r[k as int] == r@[k as int]@);
            k += 1;
        }
        proof {
            if k < r.len() {
                assert(old_r[k as int] == r@[k as int]@);
            }
            order::placed_at(old_r, x, earlier, k as int);
            assert(all.take(i + 1).drop_last() =~= all.take(i as int));
            assert(all.take(i + 1).last() == x);
        }
        r.insert(k, list[i].clone());
        assert(views(r@) =~= old_r.insert(k as int, x));
        i += 1;
    }
    assert(all.take(i as int) =~= all);
    r
}

/// Sorting loses nothing and adds nothing, and leaves no text behind a later one.
pub proof fn sorting_sorts(s: Seq<Seq<char>>)
    ensures
        alphabetical(s).to_multiset() == s.to_multiset(),
        forall|i: int, j: int|
            0 <= i < j < alphabetical(s).len() ==> !before(
                #[trigger] alphabetical(s)[j],
                #[trigger] alphabetical(s)[i],
            ),
{
    let earlier = |a: Seq<char>, b: Seq<char>| before(a, b);
    let among = Set::<Seq<char>>::full();
    assert forall|a: Seq<char>, b: Seq<char>| #[trigger] earlier(a, b) implies !earlier(b, a) by {
        if before(b, a) {
            before_transitive(a, b, a);
            before_irreflexive(a);
        }
    }
    assert forall|a: Seq<char>, b: Seq<char>, c: Seq<char>|
        !#[trigger] earlier(a, b) && !#[trigger] earlier(b, c) implies !earlier(a, c) by {
        before_total(a, b);
        before_total(b, c);
        if before(a, c) {
            if a == b {
            } else if b == c {
            } else {
                before_transitive(c, b, a);
                before_transitive(a, c, a);
                before_irreflexive(a);
            }
        }
    }
    assert(order::strict_weak(earlier, among));
    order::ranked_keeps(s, earlier);
    order::ranked_is_ranked(s, earlier, among);
    assert forall|i: int, j: int| 0 <= i < j < alphabetical(s).len() implies !before(
        #[trigger] alphabetical(s)[j],
        #[trigger] alphabetical(s)[i],
    ) by {
        assert(!earlier(alphabetical(s)[j], alphabetical(s)[i]));
    }
}

/// The order in which texts come in does not matter to sorting.
pub proof fn sorting_ignores_order(s: Seq<Seq<char>>, t: Seq<Seq<char>>)
    requires
        s.to_multiset() == t.to_multiset(),
    ensures
        alphabetical(s) == alphabetical(t),
{
    let leq = |a: Seq<char>, b: Seq<char>| !before(b, a);
    sorting_sorts(s);
    sorting_sorts(t);
    assert(vstd::relations::total_ordering(leq)) by {
        assert forall|a: Seq<char>| #[trigger] leq(a, a) by {
            before_irreflexive(a);
        }
        assert forall|a: Seq<char>, b: Seq<char>| #[trigger] leq(a, b) && #[trigger] leq(
            b,
            a,
        ) implies a == b by {
            before_total(a, b);
        }
        assert forall|a: Seq<char>, b: Seq<char>, c: Seq<char>| #[trigger]
            leq(a, b) && #[trigger] leq(b, c) implies leq(a, c) by {
            if before(c, a) {
                before_total(a, b);
                before_total(b, c);
                if a != b && b != c {
                    before_transitive(a, b, c);
                    before_transitive(a, c, a);
                    before_irreflexive(a);
                }
            }
        }
        assert forall|a: Seq<char>, b: Seq<char>| #[trigger] leq(a, b) || #[trigger] leq(b, a) by {
            if before(b, a) && before(a, b) {
                before_transitive(a, b, a);
                before_irreflexive(a);
            }
        }
    }
    assert forall|i: int, j: int| 0 <= i < j < alphabetical(s).len() implies #[trigger] leq(
        alphabetical(s)[i],
        alphabetical(s)[j],
    ) by {
    }
    assert forall|i: int, j: int| 0 <= i < j < alphabetical(t).len() implies #[trigger] leq(
        alphabetical(t)[i],
        alphabetical(t)[j],
    ) by {
    }
    vstd::seq_lib::lemma_sorted_unique(alphabetical(s), alphabetical(t), leq);
}

/// The same texts once more.
pub fn copy_texts(list: &Vec<String>) -> (r: Vec<String>)
    ensures
        views(r@) == views(list@),
{
    let mut r: Vec<String> = Vec::new();
    let mut i: usize = 0;
    while i < list.len()
        invariant
            i <= list.len(),
            r.len() == i,
            forall|j: int| 0 <= j < i ==> (#[trigger] r@[j])@ == list@[j]@,
        decreases list.len() - i,
    {
        r.push(list[i].clone());
        i += 1;
    }
    assert(views(r@) =~= views(list@));
    r
}

} // verus!

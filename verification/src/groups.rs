//! Groups in a symmetric relation: connected components, and a cover by cliques.
use vstd::prelude::*;

verus! {

/// A symmetric relation on the numbers below `rows.len()`. The row of a number
/// says which of the lesser numbers it is related to.
pub struct Relation {
    pub rows: Vec<Vec<bool>>,
}

impl View for Relation {
    type V = Seq<Seq<bool>>;

    open spec fn view(&self) -> Seq<Seq<bool>> {
        self.rows@.map_values(|r: Vec<bool>| r@)
    }
}

/// Every row is as long as its number.
pub open spec fn is_relation(m: Seq<Seq<bool>>) -> bool {
    forall|i: int| 0 <= i < m.len() ==> (#[trigger] m[i]).len() == i
}

/// The two numbers are related. No number is related to itself.
pub open spec fn related(m: Seq<Seq<bool>>, i: int, j: int) -> bool {
    if i == j {
        false
    } else if i < j {
        m[j][i]
    } else {
        m[i][j]
    }
}

impl Relation {
    /// Whether two numbers are related.
    pub fn relates(&self, i: usize, j: usize) -> (r: bool)
        requires
            is_relation(self@),
            i < self@.len(),
            j < self@.len(),
        ensures
            r == related(self@, i as int, j as int),
    {
        assert(self@[i as int] == self.rows@[i as int]@);
        assert(self@[j as int] == self.rows@[j as int]@);
        if i == j {
            false
        } else if i < j {
            self.rows[j][i]
        } else {
            self.rows[i][j]
        }
    }
}

/// Lists of numbers, as plain values.
pub open spec fn numbers(v: Seq<usize>) -> Seq<int> {
    v.map_values(|i: usize| i as int)
}

/// Lists of lists of numbers, as plain values.
pub open spec fn number_lists(v: Seq<Vec<usize>>) -> Seq<Seq<int>> {
    v.map_values(|l: Vec<usize>| numbers(l@))
}

/// The least of `i` and the labels of those below `j` that are related to `i`.
pub open spec fn lowest(m: Seq<Seq<bool>>, labels: Seq<int>, i: int, j: nat) -> int
    decreases j,
{
    if j == 0 {
        i
    } else {
        let rest = lowest(m, labels, i, (j - 1) as nat);
        if related(m, j - 1, i) && labels[j - 1] < rest {
            labels[j - 1]
        } else {
            rest
        }
    }
}

/// One below `i` with the label is related to `i`.
pub open spec fn touches(m: Seq<Seq<bool>>, labels: Seq<int>, i: int, label: int) -> bool {
    exists|j: int| 0 <= j < i && #[trigger] related(m, j, i) && labels[j] == label
}

/// The labels of the numbers below `k`: the component of each within those
/// numbers, named by its least member. A new number joins all components that
/// it is related to into one.
pub open spec fn labels(m: Seq<Seq<bool>>, k: nat) -> Seq<int>
    decreases k,
{
    if k == 0 {
        Seq::empty()
    } else {
        let i = k - 1;
        let before = labels(m, i as nat);
        let low = lowest(m, before, i, i as nat);
        Seq::new(
            k,
            |j: int|
                if j == i || touches(m, before, i, before[j]) {
                    low
                } else {
                    before[j]
                },
        )
    }
}

/// Whether one related to another is in the set with it.
pub open spec fn is_closed(m: Seq<Seq<bool>>, s: Set<int>, k: nat) -> bool {
    forall|i: int, j: int|
        0 <= i < k && 0 <= j < k && #[trigger] related(m, i, j) ==> (s.contains(i) <==> s.contains(
            j,
        ))
}

proof fn lowest_is_low(m: Seq<Seq<bool>>, ls: Seq<int>, i: int, j: nat)
    requires
        j <= i,
        j <= ls.len(),
        forall|a: int| 0 <= a < ls.len() ==> 0 <= (#[trigger] ls[a]) <= a,
    ensures
        0 <= lowest(m, ls, i, j) <= i,
        lowest(m, ls, i, j) == i || exists|a: int|
            0 <= a < j && #[trigger] related(m, a, i) && ls[a] == lowest(m, ls, i, j),
        forall|a: int| 0 <= a < j && #[trigger] related(m, a, i) ==> lowest(m, ls, i, j) <= ls[a],
    decreases j,
{
    if j > 0 {
        lowest_is_low(m, ls, i, (j - 1) as nat);
        if related(m, j - 1, i) && ls[j - 1] < lowest(m, ls, i, (j - 1) as nat) {
            assert(related(m, j - 1, i));
        }
    }
}

proof fn labels_are_names(m: Seq<Seq<bool>>, k: nat)
    ensures
        labels(m, k).len() == k,
        forall|j: int| 0 <= j < k ==> 0 <= (#[trigger] labels(m, k)[j]) <= j,
        forall|j: int| 0 <= j < k ==> labels(m, k)[#[trigger] labels(m, k)[j]] == labels(m, k)[j],
    decreases k,
{
    if k > 0 {
        let i = k - 1;
        labels_are_names(m, i as nat);
        let before = labels(m, i as nat);
        let low = lowest(m, before, i, i as nat);
        let now = labels(m, k);
        lowest_is_low(m, before, i, i as nat);
        assert forall|j: int| 0 <= j < k implies 0 <= (#[trigger] now[j]) <= j by {
            if j < i && touches(m, before, i, before[j]) {
                let a = choose|a: int|
                    0 <= a < i && #[trigger] related(m, a, i) && before[a] == before[j];
                assert(low <= before[a]);
            }
        }
        if low != i {
            let a = choose|a: int| 0 <= a < i && #[trigger] related(m, a, i) && before[a] == low;
            assert(before[before[a]] == before[a]);
            assert(touches(m, before, i, before[low]));
        }
        assert(now[low] == low);
        assert forall|j: int| 0 <= j < k implies now[#[trigger] now[j]] == now[j] by {
            if now[j] != low {
                assert(now[j] == before[j]);
                assert(before[before[j]] == before[j]);
            }
        }
    }
}

/// Two that are related have one label.
pub proof fn relatives_share_a_label(m: Seq<Seq<bool>>, k: nat, i: int, j: int)
    requires
        0 <= i < k,
        0 <= j < k,
        related(m, i, j),
    ensures
        labels(m, k)[i] == labels(m, k)[j],
    decreases k,
{
    let last = k - 1;
    let before = labels(m, last as nat);
    if i < last && j < last {
        relatives_share_a_label(m, last as nat, i, j);
    } else if i == last {
        assert(related(m, j, i));
        assert(touches(m, before, last, before[j]));
    } else {
        assert(related(m, i, j));
        assert(touches(m, before, last, before[i]));
    }
}

/// Two that have one label are connected: no set that is closed under the
/// relation parts them.
pub proof fn labels_are_connected(m: Seq<Seq<bool>>, k: nat, s: Set<int>, a: int, b: int)
    requires
        is_closed(m, s, k),
        0 <= a < k,
        0 <= b < k,
        labels(m, k)[a] == labels(m, k)[b],
    ensures
        s.contains(a) <==> s.contains(b),
    decreases k,
{
    let i = k - 1;
    let before = labels(m, i as nat);
    let low = lowest(m, before, i, i as nat);
    labels_are_names(m, i as nat);
    labels_are_names(m, k);
    lowest_is_low(m, before, i, i as nat);
    if labels(m, k)[a] == low {
        one_side(m, k, s, a);
        one_side(m, k, s, b);
    } else {
        labels_are_connected(m, i as nat, s, a, b);
    }
}

proof fn one_side(m: Seq<Seq<bool>>, k: nat, s: Set<int>, a: int)
    requires
        is_closed(m, s, k),
        0 <= a < k,
        labels(m, k)[a] == lowest(m, labels(m, (k - 1) as nat), k - 1, (k - 1) as nat),
    ensures
        s.contains(a) <==> s.contains(k - 1),
    decreases k, 0nat,
{
    let i = k - 1;
    let before = labels(m, i as nat);
    let low = lowest(m, before, i, i as nat);
    labels_are_names(m, i as nat);
    lowest_is_low(m, before, i, i as nat);
    if a < i {
        if !touches(m, before, i, before[a]) {
            // The label of `a` is the least one that the new number touches.
            assert(before[a] == low);
            assert(low != i);
            let c = choose|c: int| 0 <= c < i && #[trigger] related(m, c, i) && before[c] == low;
            assert(touches(m, before, i, before[a]));
        }
        let c = choose|c: int| 0 <= c < i && #[trigger] related(m, c, i) && before[c] == before[a];
        assert(related(m, c, i));
        labels_are_connected(m, i as nat, s, a, c);
    }
}

/// The numbers below `k` with the label, in order.
pub open spec fn labelled(ls: Seq<int>, label: int, k: nat) -> Seq<int>
    decreases k,
{
    if k == 0 {
        Seq::empty()
    } else {
        let rest = labelled(ls, label, (k - 1) as nat);
        if ls[k - 1] == label {
            rest.push(k - 1)
        } else {
            rest
        }
    }
}

/// The components with a label below `k` and more than one member, by their
/// least members.
pub open spec fn components_below(ls: Seq<int>, k: nat) -> Seq<Seq<int>>
    decreases k,
{
    if k == 0 {
        Seq::empty()
    } else {
        let rest = components_below(ls, (k - 1) as nat);
        let group = labelled(ls, k - 1, ls.len());
        if group.len() >= 2 {
            rest.push(group)
        } else {
            rest
        }
    }
}

/// The connected components with more than one member.
pub open spec fn components(m: Seq<Seq<bool>>) -> Seq<Seq<int>> {
    components_below(labels(m, m.len()), m.len())
}

proof fn labelled_are_those(ls: Seq<int>, label: int, k: nat)
    requires
        k <= ls.len(),
    ensures
        forall|i: int|
            0 <= i < k ==> (#[trigger] labelled(ls, label, k).contains(i) <==> ls[i] == label),
        forall|a: int|
            0 <= a < labelled(ls, label, k).len() ==> 0 <= (#[trigger] labelled(ls, label, k)[a])
                < k && ls[labelled(ls, label, k)[a]] == label,
    decreases k,
{
    if k > 0 {
        let rest = labelled(ls, label, (k - 1) as nat);
        let now = labelled(ls, label, k);
        labelled_are_those(ls, label, (k - 1) as nat);
        assert forall|i: int| 0 <= i < k implies (#[trigger] now.contains(i) <==> ls[i] == label) by {
            if i < k - 1 {
                if rest.contains(i) {
                    let a = choose|a: int| 0 <= a < rest.len() && rest[a] == i;
                    assert(now[a] == i);
                }
                if now.contains(i) {
                    let a = choose|a: int| 0 <= a < now.len() && now[a] == i;
                    assert(rest[a] == i);
                }
            } else {
                if ls[i] == label {
                    assert(now[rest.len() as int] == i);
                }
                if now.contains(i) {
                    let a = choose|a: int| 0 <= a < now.len() && now[a] == i;
                    if a < rest.len() {
                        assert(rest[a] == i);
                    }
                }
            }
        }
    }
}

proof fn group_is_listed(ls: Seq<int>, label: int, k: nat)
    requires
        0 <= label < k,
        labelled(ls, label, ls.len()).len() >= 2,
    ensures
        exists|c: int|
            0 <= c < components_below(ls, k).len() && #[trigger] components_below(ls, k)[c]
                == labelled(ls, label, ls.len()),
    decreases k,
{
    let now = components_below(ls, k);
    let rest = components_below(ls, (k - 1) as nat);
    if label == k - 1 {
        assert(now[rest.len() as int] == labelled(ls, label, ls.len()));
    } else {
        group_is_listed(ls, label, (k - 1) as nat);
        let c = choose|c: int|
            0 <= c < rest.len() && #[trigger] rest[c] == labelled(ls, label, ls.len());
        assert(now[c] == rest[c]);
    }
}

/// Two that are related stand together in one of the components.
pub proof fn relatives_stand_together(m: Seq<Seq<bool>>, i: int, j: int)
    requires
        0 <= i < m.len(),
        0 <= j < m.len(),
        related(m, i, j),
    ensures
        exists|c: int|
            0 <= c < components(m).len() && (#[trigger] components(m)[c]).contains(i)
                && components(m)[c].contains(j),
{
    let n = m.len();
    let ls = labels(m, n);
    labels_are_names(m, n);
    relatives_share_a_label(m, n, i, j);
    let group = labelled(ls, ls[i], n);
    labelled_are_those(ls, ls[i], n);
    assert(group.contains(i) && group.contains(j));
    let a = choose|a: int| 0 <= a < group.len() && group[a] == i;
    let b = choose|b: int| 0 <= b < group.len() && group[b] == j;
    assert(a != b);
    group_is_listed(ls, ls[i], n);
    let c = choose|c: int| 0 <= c < components(m).len() && #[trigger] components(m)[c] == group;
    assert(components(m)[c].contains(i));
}

/// A component is connected, and no component is smaller than two.
pub proof fn components_are_connected(m: Seq<Seq<bool>>, c: int, s: Set<int>, i: int, j: int)
    requires
        0 <= c < components(m).len(),
        components(m)[c].contains(i),
        components(m)[c].contains(j),
        is_closed(m, s, m.len()),
    ensures
        components(m)[c].len() >= 2,
        s.contains(i) <==> s.contains(j),
{
    let n = m.len();
    let ls = labels(m, n);
    labels_are_names(m, n);
    let label = listed_group(ls, n, c);
    labelled_are_those(ls, label, n);
    labels_are_connected(m, n, s, i, j);
}

proof fn listed_group(ls: Seq<int>, k: nat, c: int) -> (label: int)
    requires
        0 <= c < components_below(ls, k).len(),
    ensures
        0 <= label < k,
        components_below(ls, k)[c] == labelled(ls, label, ls.len()),
        components_below(ls, k)[c].len() >= 2,
    decreases k,
{
    let rest = components_below(ls, (k - 1) as nat);
    if c < rest.len() {
        listed_group(ls, (k - 1) as nat, c)
    } else {
        k - 1
    }
}

fn join_labels(m: &Relation, ls: &mut Vec<usize>)
    requires
        is_relation(m@),
        old(ls).len() < m@.len(),
        numbers(old(ls)@) == labels(m@, old(ls)@.len()),
    ensures
        final(ls).len() == old(ls).len() + 1,
        numbers(final(ls)@) == labels(m@, final(ls)@.len()),
{
    let i: usize = ls.len();
    let ghost before = numbers(ls@);
    proof {
        labels_are_names(m@, i as nat);
    }
    let mut hit: Vec<bool> = Vec::new();
    let mut z: usize = 0;
    while z < i
        invariant
            z <= i,
            hit.len() == z,
            forall|l: int| 0 <= l < z ==> !#[trigger] hit@[l],
        decreases i - z,
    {
        hit.push(false);
        z += 1;
    }
    let mut low: usize = i;
    let mut j: usize = 0;
    while j < i
        invariant
            j <= i,
            i == ls.len(),
            i < m@.len(),
            is_relation(m@),
            hit.len() == i,
            before == numbers(ls@),
            before == labels(m@, i as nat),
            forall|a: int| 0 <= a < i ==> 0 <= (#[trigger] before[a]) <= a,
            low == lowest(m@, before, i as int, j as nat),
            forall|l: int|
                0 <= l < i ==> (#[trigger] hit@[l] <==> exists|a: int|
                    0 <= a < j && #[trigger] related(m@, a, i as int) && before[a] == l),
        decreases i - j,
    {
        let ghost was = hit@;
        assert(before[j as int] == ls@[j as int]);
        if m.relates(j, i) {
            let l: usize = ls[j];
            if l < low {
                low = l;
            }
            hit.set(l, true);
            assert forall|x: int| 0 <= x < i implies (#[trigger] hit@[x] <==> exists|a: int|
                0 <= a < j + 1 && #[trigger] related(m@, a, i as int) && before[a] == x) by {
                if x == l {
                    assert(related(m@, j as int, i as int));
                } else if was[x] {
                    let a = choose|a: int|
                        0 <= a < j && #[trigger] related(m@, a, i as int) && before[a] == x;
                    assert(0 <= a < j + 1);
                }
            }
        } else {
            assert forall|x: int| 0 <= x < i implies (#[trigger] hit@[x] <==> exists|a: int|
                0 <= a < j + 1 && #[trigger] related(m@, a, i as int) && before[a] == x) by {
                if was[x] {
                    let a = choose|a: int|
                        0 <= a < j && #[trigger] related(m@, a, i as int) && before[a] == x;
                    assert(0 <= a < j + 1);
                }
            }
        }
        j += 1;
    }
    let ghost goal = labels(m@, (i + 1) as nat);
    let mut k: usize = 0;
    while k < i
        invariant
            k <= i,
            i == ls.len(),
            i < m@.len(),
            hit.len() == i,
            before.len() == i,
            before == labels(m@, i as nat),
            goal == labels(m@, (i + 1) as nat),
            forall|a: int| 0 <= a < i ==> 0 <= (#[trigger] before[a]) <= a,
            low == lowest(m@, before, i as int, i as nat),
            forall|l: int|
                0 <= l < i ==> (#[trigger] hit@[l] <==> exists|a: int|
                    0 <= a < i && #[trigger] related(m@, a, i as int) && before[a] == l),
            forall|a: int| 0 <= a < k ==> #[trigger] ls@[a] == goal[a],
            forall|a: int| k <= a < i ==> #[trigger] ls@[a] == before[a],
        decreases i - k,
    {
        proof {
            assert(ls@[k as int] == before[k as int]);
            assert(hit@[before[k as int]] <==> touches(
                m@,
                before,
                i as int,
                before[k as int],
            ));
        }
        if hit[ls[k]] {
            ls.set(k, low);
        }
        k += 1;
    }
    ls.push(low);
    assert(numbers(ls@) =~= goal);
}

fn find_labels(m: &Relation) -> (r: Vec<usize>)
    requires
        is_relation(m@),
    ensures
        numbers(r@) == labels(m@, m@.len()),
        r.len() == m@.len(),
{
    let mut r: Vec<usize> = Vec::new();
    assert(numbers(r@) =~= labels(m@, 0));
    while r.len() < m.rows.len()
        invariant
            is_relation(m@),
            r.len() <= m@.len(),
            numbers(r@) == labels(m@, r@.len()),
        decreases m@.len() - r.len(),
    {
        join_labels(m, &mut r);
    }
    r
}

fn find_labelled(ls: &Vec<usize>, label: usize) -> (r: Vec<usize>)
    ensures
        numbers(r@) == labelled(numbers(ls@), label as int, ls@.len()),
        forall|a: int| 0 <= a < r.len() ==> (#[trigger] r@[a]) < ls.len(),
{
    let ghost all = numbers(ls@);
    let mut r: Vec<usize> = Vec::new();
    let mut k: usize = 0;
    assert(numbers(r@) =~= labelled(all, label as int, 0));
    while k < ls.len()
        invariant
            k <= ls.len(),
            all == numbers(ls@),
            numbers(r@) == labelled(all, label as int, k as nat),
            forall|a: int| 0 <= a < r.len() ==> (#[trigger] r@[a]) < ls.len(),
        decreases ls.len() - k,
    {
        assert(all[k as int] == ls@[k as int]);
        if ls[k] == label {
            let ghost sofar = numbers(r@);
            r.push(k);
            assert(numbers(r@) =~= sofar.push(k as int));
        }
        k += 1;
    }
    r
}

/// The connected components with more than one member.
pub fn find_components(m: &Relation) -> (r: Vec<Vec<usize>>)
    requires
        is_relation(m@),
    ensures
        number_lists(r@) == components(m@),
        forall|c: int, a: int|
            0 <= c < r.len() && 0 <= a < r@[c].len() ==> (#[trigger] r@[c]@[a]) < m@.len(),
{
    let ls = find_labels(m);
    let ghost all = numbers(ls@);
    let mut r: Vec<Vec<usize>> = Vec::new();
    let mut k: usize = 0;
    assert(number_lists(r@) =~= components_below(all, 0));
    while k < ls.len()
        invariant
            k <= ls.len(),
            all == numbers(ls@),
            ls.len() == m@.len(),
            number_lists(r@) == components_below(all, k as nat),
            forall|c: int, a: int|
                0 <= c < r.len() && 0 <= a < r@[c].len() ==> (#[trigger] r@[c]@[a]) < m@.len(),
        decreases ls.len() - k,
    {
        let group = find_labelled(&ls, k);
        if group.len() >= 2 {
            let ghost sofar = number_lists(r@);
            r.push(group);
            assert(number_lists(r@) =~= sofar.push(numbers(group@)));
        }
        k += 1;
    }
    r
}

/// The number is related to every one in the list.
pub open spec fn joins_all(m: Seq<Seq<bool>>, list: Seq<int>, j: int) -> bool {
    forall|a: int| 0 <= a < list.len() ==> related(m, #[trigger] list[a], j)
}

/// The clique that grows from the seed, as far as the numbers below `k`: in
/// order, each number joins that is related to the seed and to all that have
/// joined before it.
pub open spec fn clique_below(m: Seq<Seq<bool>>, seed: int, k: nat) -> Seq<int>
    decreases k,
{
    if k == 0 {
        Seq::empty()
    } else {
        let j = k - 1;
        let rest = clique_below(m, seed, j as nat);
        if j == seed || (related(m, j, seed) && joins_all(m, rest, j)) {
            rest.push(j)
        } else {
            rest
        }
    }
}

/// The clique that grows from the seed.
pub open spec fn clique(m: Seq<Seq<bool>>, seed: int) -> Seq<int> {
    clique_below(m, seed, m.len())
}

/// One of the lists holds the number.
pub open spec fn is_covered(lists: Seq<Seq<int>>, i: int) -> bool {
    exists|c: int| 0 <= c < lists.len() && (#[trigger] lists[c]).contains(i)
}

/// The cliques that cover the numbers below `k`: each number that no clique
/// holds yet becomes a seed.
pub open spec fn cover_below(m: Seq<Seq<bool>>, k: nat) -> Seq<Seq<int>>
    decreases k,
{
    if k == 0 {
        Seq::empty()
    } else {
        let rest = cover_below(m, (k - 1) as nat);
        if is_covered(rest, k - 1) {
            rest
        } else {
            rest.push(clique(m, k - 1))
        }
    }
}

/// The cliques that cover a relation, without those of one member.
pub open spec fn coherent_groups(m: Seq<Seq<bool>>) -> Seq<Seq<int>> {
    cover_below(m, m.len()).filter(|g: Seq<int>| g.len() >= 2)
}

proof fn clique_is_clique(m: Seq<Seq<bool>>, seed: int, k: nat)
    ensures
        forall|a: int|
            0 <= a < clique_below(m, seed, k).len() ==> 0 <= (#[trigger] clique_below(m, seed, k)[a])
                < k,
        forall|a: int|
            0 <= a < clique_below(m, seed, k).len() && #[trigger] clique_below(m, seed, k)[a]
                != seed ==> related(m, clique_below(m, seed, k)[a], seed),
        forall|a: int, b: int|
            0 <= a < b < clique_below(m, seed, k).len() ==> #[trigger] clique_below(m, seed, k)[a]
                < #[trigger] clique_below(m, seed, k)[b] && related(
                m,
                clique_below(m, seed, k)[a],
                clique_below(m, seed, k)[b],
            ),
    decreases k,
{
    if k > 0 {
        clique_is_clique(m, seed, (k - 1) as nat);
        let rest = clique_below(m, seed, (k - 1) as nat);
        let now = clique_below(m, seed, k);
        assert forall|a: int| 0 <= a < now.len() implies 0 <= (#[trigger] now[a]) < k && (now[a]
            != seed ==> related(m, now[a], seed)) by {
            if a < rest.len() {
                assert(now[a] == rest[a]);
            }
        }
        assert forall|a: int, b: int| 0 <= a < b < now.len() implies #[trigger] now[a]
            < #[trigger] now[b] && related(m, now[a], now[b]) by {
            assert(now[a] == rest[a]);
            if b < rest.len() {
                assert(now[b] == rest[b]);
            }
        }
    }
}

proof fn clique_takes(m: Seq<Seq<bool>>, seed: int, k: nat, i: int)
    requires
        0 <= i < k,
    ensures
        i == seed ==> clique_below(m, seed, k).contains(i),
        !clique_below(m, seed, k).contains(i) ==> !related(m, i, seed) || exists|a: int|
            0 <= a < clique_below(m, seed, k).len() && !related(
                m,
                #[trigger] clique_below(m, seed, k)[a],
                i,
            ),
    decreases k,
{
    let j = k - 1;
    let rest = clique_below(m, seed, j as nat);
    let now = clique_below(m, seed, k);
    if i == j {
        if i == seed || (related(m, j, seed) && joins_all(m, rest, j)) {
            assert(now[rest.len() as int] == i);
        } else if related(m, i, seed) {
            let a = choose|a: int| 0 <= a < rest.len() && !related(m, #[trigger] rest[a], j);
            assert(now[a] == rest[a]);
        }
    } else {
        clique_takes(m, seed, j as nat, i);
        if rest.contains(i) {
            let a = choose|a: int| 0 <= a < rest.len() && rest[a] == i;
            assert(now[a] == i);
        } else if related(m, i, seed) {
            let a = choose|a: int| 0 <= a < rest.len() && !related(m, #[trigger] rest[a], i);
            assert(now[a] == rest[a]);
        }
    }
}

proof fn cover_is_of_cliques(m: Seq<Seq<bool>>, k: nat, c: int) -> (seed: int)
    requires
        0 <= c < cover_below(m, k).len(),
    ensures
        0 <= seed < k,
        cover_below(m, k)[c] == clique(m, seed),
    decreases k,
{
    let rest = cover_below(m, (k - 1) as nat);
    if c < rest.len() {
        cover_is_of_cliques(m, (k - 1) as nat, c)
    } else {
        k - 1
    }
}

proof fn cover_reaches(m: Seq<Seq<bool>>, k: nat, i: int)
    requires
        0 <= i < k <= m.len(),
    ensures
        is_covered(cover_below(m, k), i),
    decreases k,
{
    let rest = cover_below(m, (k - 1) as nat);
    let now = cover_below(m, k);
    if i < k - 1 {
        cover_reaches(m, (k - 1) as nat, i);
        let c = choose|c: int| 0 <= c < rest.len() && (#[trigger] rest[c]).contains(i);
        assert(now[c].contains(i));
    } else if !is_covered(rest, i) {
        clique_takes(m, i, m.len(), i);
        assert(now[rest.len() as int].contains(i));
    }
}

/// Every group is coherent: any two of its members are related, and its members
/// are in order.
pub proof fn groups_are_coherent(m: Seq<Seq<bool>>, c: int, a: int, b: int)
    requires
        0 <= c < coherent_groups(m).len(),
        0 <= a < b < coherent_groups(m)[c].len(),
    ensures
        0 <= coherent_groups(m)[c][a] < coherent_groups(m)[c][b] < m.len(),
        related(m, coherent_groups(m)[c][a], coherent_groups(m)[c][b]),
{
    let all = cover_below(m, m.len());
    let big = |g: Seq<int>| g.len() >= 2;
    let g = coherent_groups(m)[c];
    all.lemma_filter_contains_rev(big, g);
    let d = choose|d: int| 0 <= d < all.len() && all[d] == g;
    let seed = cover_is_of_cliques(m, m.len(), d);
    clique_is_clique(m, seed, m.len());
}

/// No group can be made larger: one that is not in it is unrelated to a member.
pub proof fn groups_are_maximal(m: Seq<Seq<bool>>, c: int, i: int)
    requires
        0 <= c < coherent_groups(m).len(),
        0 <= i < m.len(),
        !coherent_groups(m)[c].contains(i),
    ensures
        exists|a: int|
            0 <= a < coherent_groups(m)[c].len() && !related(
                m,
                #[trigger] coherent_groups(m)[c][a],
                i,
            ),
{
    let all = cover_below(m, m.len());
    let big = |g: Seq<int>| g.len() >= 2;
    let g = coherent_groups(m)[c];
    all.lemma_filter_contains_rev(big, g);
    let d = choose|d: int| 0 <= d < all.len() && all[d] == g;
    let seed = cover_is_of_cliques(m, m.len(), d);
    clique_takes(m, seed, m.len(), i);
    clique_takes(m, seed, m.len(), seed);
    if !related(m, i, seed) {
        let a = choose|a: int| 0 <= a < g.len() && g[a] == seed;
        assert(!related(m, g[a], i));
    }
}

/// Nobody is left out: whoever is related to another stands in a group.
pub proof fn groups_reach_all(m: Seq<Seq<bool>>, i: int, j: int)
    requires
        0 <= i < m.len(),
        0 <= j < m.len(),
        related(m, i, j),
    ensures
        is_covered(coherent_groups(m), i),
{
    let n = m.len();
    let all = cover_below(m, n);
    let big = |g: Seq<int>| g.len() >= 2;
    cover_reaches(m, n, i);
    let d = choose|d: int| 0 <= d < all.len() && (#[trigger] all[d]).contains(i);
    let g = all[d];
    let seed = cover_is_of_cliques(m, n, d);
    clique_is_clique(m, seed, n);
    clique_takes(m, seed, n, seed);
    if g.len() < 2 {
        // The seed is `i` itself, and its clique would have taken `j`.
        let a = choose|a: int| 0 <= a < g.len() && g[a] == i;
        let b = choose|b: int| 0 <= b < g.len() && g[b] == seed;
        assert(i == seed);
        assert(!g.contains(j)) by {
            if g.contains(j) {
                let e = choose|e: int| 0 <= e < g.len() && g[e] == j;
                assert(e != a);
            }
        }
        clique_takes(m, seed, n, j);
        let e = choose|e: int| 0 <= e < g.len() && !related(m, #[trigger] g[e], j);
        assert(g[e] == i);
        assert(false);
    }
    all.lemma_filter_contains(big, d);
    let c = choose|c: int| 0 <= c < coherent_groups(m).len() && coherent_groups(m)[c] == g;
    assert(coherent_groups(m)[c].contains(i));
}

fn find_clique(m: &Relation, seed: usize) -> (r: Vec<usize>)
    requires
        is_relation(m@),
        seed < m@.len(),
    ensures
        numbers(r@) == clique(m@, seed as int),
        forall|a: int| 0 <= a < r.len() ==> (#[trigger] r@[a]) < m@.len(),
{
    let mut r: Vec<usize> = Vec::new();
    let mut j: usize = 0;
    assert(numbers(r@) =~= clique_below(m@, seed as int, 0));
    while j < m.rows.len()
        invariant
            j <= m@.len(),
            is_relation(m@),
            seed < m@.len(),
            numbers(r@) == clique_below(m@, seed as int, j as nat),
            forall|a: int| 0 <= a < r.len() ==> (#[trigger] r@[a]) < m@.len(),
        decreases m@.len() - j,
    {
        let ghost rest = numbers(r@);
        let mut joins: bool = j == seed || m.relates(j, seed);
        if joins && j != seed {
            let mut a: usize = 0;
            while a < r.len() && joins
                invariant
                    a <= r.len(),
                    j < m@.len(),
                    is_relation(m@),
                    rest == numbers(r@),
                    forall|x: int| 0 <= x < r.len() ==> (#[trigger] r@[x]) < m@.len(),
                    joins ==> forall|x: int|
                        0 <= x < a ==> related(m@, #[trigger] rest[x], j as int),
                    !joins ==> !joins_all(m@, rest, j as int),
                decreases r.len() - a,
            {
                assert(rest[a as int] == r@[a as int]);
                joins = m.relates(r[a], j);
                a += 1;
            }
        }
        if joins {
            r.push(j);
            assert(numbers(r@) =~= rest.push(j as int));
        }
        j += 1;
    }
    r
}

fn holds_number(list: &Vec<usize>, i: usize) -> (r: bool)
    ensures
        r == numbers(list@).contains(i as int),
{
    let mut a: usize = 0;
    while a < list.len()
        invariant
            a <= list.len(),
            forall|x: int| 0 <= x < a ==> (#[trigger] list@[x]) != i,
        decreases list.len() - a,
    {
        if list[a] == i {
            assert(numbers(list@)[a as int] == i);
            return true;
        }
        a += 1;
    }
    assert forall|x: int| 0 <= x < numbers(list@).len() implies numbers(list@)[x] != i by {
        assert(numbers(list@)[x] == list@[x]);
    }
    false
}

fn covered(lists: &Vec<Vec<usize>>, i: usize) -> (r: bool)
    ensures
        r == is_covered(number_lists(lists@), i as int),
{
    let mut c: usize = 0;
    while c < lists.len()
        invariant
            c <= lists.len(),
            forall|x: int|
                0 <= x < c ==> !(#[trigger] number_lists(lists@)[x]).contains(i as int),
        decreases lists.len() - c,
    {
        assert(number_lists(lists@)[c as int] == numbers(lists@[c as int]@));
        if holds_number(&lists[c], i) {
            return true;
        }
        c += 1;
    }
    false
}

fn find_cover(m: &Relation) -> (r: Vec<Vec<usize>>)
    requires
        is_relation(m@),
    ensures
        number_lists(r@) == cover_below(m@, m@.len()),
        forall|c: int, a: int|
            0 <= c < r.len() && 0 <= a < r@[c].len() ==> (#[trigger] r@[c]@[a]) < m@.len(),
{
    let mut r: Vec<Vec<usize>> = Vec::new();
    let mut k: usize = 0;
    assert(number_lists(r@) =~= cover_below(m@, 0));
    while k < m.rows.len()
        invariant
            k <= m@.len(),
            is_relation(m@),
            number_lists(r@) == cover_below(m@, k as nat),
            forall|c: int, a: int|
                0 <= c < r.len() && 0 <= a < r@[c].len() ==> (#[trigger] r@[c]@[a]) < m@.len(),
        decreases m@.len() - k,
    {
        if !covered(&r, k) {
            let g = find_clique(m, k);
            let ghost sofar = number_lists(r@);
            r.push(g);
            assert(number_lists(r@) =~= sofar.push(numbers(g@)));
        }
        k += 1;
    }
    r
}

/// The cliques that cover a relation, without those of one member.
pub fn find_coherent_groups(m: &Relation) -> (r: Vec<Vec<usize>>)
    requires
        is_relation(m@),
    ensures
        number_lists(r@) == coherent_groups(m@),
        forall|c: int, a: int|
            0 <= c < r.len() && 0 <= a < r@[c].len() ==> (#[trigger] r@[c]@[a]) < m@.len(),
{
    let all = find_cover(m);
    let ghost lists = number_lists(all@);
    let ghost big = |g: Seq<int>| g.len() >= 2;
    let mut r: Vec<Vec<usize>> = Vec::new();
    let mut i: usize = 0;
    proof {
        reveal(Seq::filter);
        assert(number_lists(r@) =~= lists.take(0).filter(big));
    }
    while i < all.len()
        invariant
            i <= all.len(),
            lists == number_lists(all@),
            big == (|g: Seq<int>| g.len() >= 2),
            number_lists(r@) == lists.take(i as int).filter(big),
            forall|c: int, a: int|
                0 <= c < all.len() && 0 <= a < all@[c].len() ==> (#[trigger] all@[c]@[a])
                    < m@.len(),
            forall|c: int, a: int|
                0 <= c < r.len() && 0 <= a < r@[c].len() ==> (#[trigger] r@[c]@[a]) < m@.len(),
        decreases all.len() - i,
    {
        proof {
            reveal(Seq::filter);
            assert(lists.take(i + 1).drop_last() =~= lists.take(i as int));
            assert(lists.take(i + 1).last() == numbers(all@[i as int]@));
        }
        if all[i].len() >= 2 {
            let g = copy_numbers(&all[i]);
            let ghost sofar = number_lists(r@);
            r.push(g);
            assert(number_lists(r@) =~= sofar.push(numbers(g@)));
        }
        i += 1;
    }
    assert(lists.take(i as int) =~= lists);
    r
}

fn copy_numbers(list: &Vec<usize>) -> (r: Vec<usize>)
    ensures
        r@ == list@,
{
    let mut r: Vec<usize> = Vec::new();
    let mut i: usize = 0;
    while i < list.len()
        invariant
            i <= list.len(),
            r@ == list@.take(i as int),
        decreases list.len() - i,
    {
        r.push(list[i]);
        assert(r@ =~= list@.take(i + 1));
        i += 1;
    }
    assert(r@ =~= list@);
    r
}

} // verus!

//! The longest common subsequence of two lists of texts.
use vstd::prelude::*;
use crate::text;

verus! {

/// The length of the longest common subsequence.
pub open spec fn lcs(a: Seq<Seq<char>>, b: Seq<Seq<char>>) -> nat
    decreases a.len() + b.len(),
{
    if a.len() == 0 || b.len() == 0 {
        0
    } else if a.last() == b.last() {
        lcs(a.drop_last(), b.drop_last()) + 1
    } else {
        let x = lcs(a.drop_last(), b);
        let y = lcs(a, b.drop_last());
        if x >= y {
            x
        } else {
            y
        }
    }
}

/// The common part of two lists is no longer than either.
pub proof fn lcs_is_bounded(a: Seq<Seq<char>>, b: Seq<Seq<char>>)
    ensures
        lcs(a, b) <= a.len(),
        lcs(a, b) <= b.len(),
    decreases a.len() + b.len(),
{
    if a.len() > 0 && b.len() > 0 {
        if a.last() == b.last() {
            lcs_is_bounded(a.drop_last(), b.drop_last());
        } else {
            lcs_is_bounded(a.drop_last(), b);
            lcs_is_bounded(a, b.drop_last());
        }
    }
}

/// It does not matter which list comes first.
pub proof fn lcs_is_symmetric(a: Seq<Seq<char>>, b: Seq<Seq<char>>)
    ensures
        lcs(a, b) == lcs(b, a),
    decreases a.len() + b.len(),
{
    if a.len() > 0 && b.len() > 0 {
        if a.last() == b.last() {
            lcs_is_symmetric(a.drop_last(), b.drop_last());
        } else {
            lcs_is_symmetric(a.drop_last(), b);
            lcs_is_symmetric(a, b.drop_last());
        }
    }
}

/// A list has all of itself in common with itself.
pub proof fn lcs_with_itself(a: Seq<Seq<char>>)
    ensures
        lcs(a, a) == a.len(),
    decreases a.len(),
{
    if a.len() > 0 {
        lcs_with_itself(a.drop_last());
    }
}

/// `picks` are places in the list, in order.
pub open spec fn is_picking(picks: Seq<int>, len: nat) -> bool {
    &&& forall|i: int| 0 <= i < picks.len() ==> 0 <= (#[trigger] picks[i]) < len
    &&& forall|i: int, j: int|
        0 <= i < j < picks.len() ==> (#[trigger] picks[i]) < (#[trigger] picks[j])
}

/// No common subsequence is longer: wherever one picks the same texts in order
/// from both lists, it picks no more than [`lcs`] says.
pub proof fn lcs_is_longest(
    a: Seq<Seq<char>>,
    b: Seq<Seq<char>>,
    in_a: Seq<int>,
    in_b: Seq<int>,
)
    requires
        is_picking(in_a, a.len()),
        is_picking(in_b, b.len()),
        in_a.len() == in_b.len(),
        forall|i: int| 0 <= i < in_a.len() ==> a[#[trigger] in_a[i]] == b[in_b[i]],
    ensures
        in_a.len() <= lcs(a, b),
    decreases a.len() + b.len(),
{
    let n = in_a.len();
    if n > 0 {
        let x = in_a[n - 1];
        let y = in_b[n - 1];
        assert(0 <= x < a.len() && 0 <= y < b.len());
        if x < a.len() - 1 && (y < b.len() - 1 || a.last() != b.last()) {
            assert forall|i: int| 0 <= i < n implies 0 <= (#[trigger] in_a[i]) < a.len() - 1 by {
                if i < n - 1 {
                    assert(in_a[i] < in_a[n - 1]);
                }
            }
            assert forall|i: int| 0 <= i < n implies a.drop_last()[#[trigger] in_a[i]] == b[in_b[i]] by {
            }
            lcs_is_longest(a.drop_last(), b, in_a, in_b);
            if a.last() == b.last() {
                lcs_step(a, b);
            }
        } else if y < b.len() - 1 {
            assert forall|i: int| 0 <= i < n implies 0 <= (#[trigger] in_b[i]) < b.len() - 1 by {
                if i < n - 1 {
                    assert(in_b[i] < in_b[n - 1]);
                }
            }
            assert forall|i: int| 0 <= i < n implies a[#[trigger] in_a[i]] == b.drop_last()[in_b[i]] by {
            }
            lcs_is_longest(a, b.drop_last(), in_a, in_b);
            if a.last() == b.last() {
                lcs_step(a, b);
            }
        } else {
            assert(a.last() == b.last());
            let pa = in_a.drop_last();
            let pb = in_b.drop_last();
            assert forall|i: int| 0 <= i < pa.len() implies 0 <= (#[trigger] pa[i]) < a.len() - 1 by {
                assert(pa[i] == in_a[i]);
                assert(in_a[i] < in_a[n - 1]);
            }
            assert forall|i: int| 0 <= i < pb.len() implies 0 <= (#[trigger] pb[i]) < b.len() - 1 by {
                assert(pb[i] == in_b[i]);
                assert(in_b[i] < in_b[n - 1]);
            }
            assert forall|i: int, j: int| 0 <= i < j < pa.len() implies (#[trigger] pa[i]) < (
            #[trigger] pa[j]) by {
                assert(in_a[i] < in_a[j]);
            }
            assert forall|i: int, j: int| 0 <= i < j < pb.len() implies (#[trigger] pb[i]) < (
            #[trigger] pb[j]) by {
                assert(in_b[i] < in_b[j]);
            }
            assert forall|i: int| 0 <= i < pa.len() implies a.drop_last()[#[trigger] pa[i]]
                == b.drop_last()[pb[i]] by {
                assert(pa[i] == in_a[i] && pb[i] == in_b[i]);
                assert(a[in_a[i]] == b[in_b[i]]);
            }
            lcs_is_longest(a.drop_last(), b.drop_last(), pa, pb);
        }
    }
}

/// One text more adds one at most, and never takes away.
proof fn lcs_step(a: Seq<Seq<char>>, b: Seq<Seq<char>>)
    ensures
        a.len() > 0 ==> lcs(a.drop_last(), b) <= lcs(a, b) <= lcs(a.drop_last(), b) + 1,
        b.len() > 0 ==> lcs(a, b.drop_last()) <= lcs(a, b) <= lcs(a, b.drop_last()) + 1,
    decreases a.len() + b.len(),
{
    if a.len() > 0 && b.len() > 0 {
        lcs_step(a.drop_last(), b);
        lcs_step(a, b.drop_last());
        lcs_step(a.drop_last(), b.drop_last());
    }
}

/// The length of the longest common subsequence.
pub fn lcs_len(a: &Vec<String>, b: &Vec<String>) -> (r: usize)
    ensures
        r == lcs(text::views(a@), text::views(b@)),
{
    let ghost x = text::views(a@);
    let ghost y = text::views(b@);
    let m: usize = b.len();
    // `row[j]` is the length for the first `i` texts of one list and `j + 1` of
    // the other.
    let mut row: Vec<usize> = Vec::new();
    let mut z: usize = 0;
    while z < m
        invariant
            z <= m,
            row.len() == z,
            forall|j: int| 0 <= j < z ==> #[trigger] row@[j] == lcs(x.take(0), y.take(j + 1)),
        decreases m - z,
    {
        row.push(0);
        z += 1;
    }
    let mut i: usize = 0;
    while i < a.len()
        invariant
            i <= a.len(),
            m == b.len(),
            x == text::views(a@),
            y == text::views(b@),
            row.len() == m,
            forall|j: int|
                0 <= j < m ==> #[trigger] row@[j] == lcs(x.take(i as int), y.take(j + 1)),
        decreases a.len() - i,
    {
        let ghost above = row@;
        let mut corner: usize = 0;
        let mut left: usize = 0;
        let mut j: usize = 0;
        while j < m
            invariant
                i < a.len(),
                j <= m,
                m == b.len(),
                x == text::views(a@),
                y == text::views(b@),
                row.len() == m,
                above.len() == m,
                forall|k: int|
                    0 <= k < m ==> #[trigger] above[k] == lcs(x.take(i as int), y.take(k + 1)),
                corner == lcs(x.take(i as int), y.take(j as int)),
                left == lcs(x.take(i + 1), y.take(j as int)),
                forall|k: int|
                    0 <= k < j ==> #[trigger] row@[k] == lcs(x.take(i + 1), y.take(k + 1)),
                forall|k: int| j <= k < m ==> #[trigger] row@[k] == above[k],
            decreases m - j,
        {
            proof {
                let p = x.take(i + 1);
                let q = y.take(j + 1);
                assert(p.drop_last() =~= x.take(i as int));
                assert(q.drop_last() =~= y.take(j as int));
                assert(p.last() == a@[i as int]@);
                assert(q.last() == b@[j as int]@);
                lcs_is_bounded(x.take(i as int), y.take(j as int));
            }
            let up: usize = row[j];
            let here: usize = if a[i] == b[j] {
                corner + 1
            } else if up >= left {
                up
            } else {
                left
            };
            row.set(j, here);
            corner = up;
            left = here;
            j += 1;
        }
        i += 1;
    }
    assert(x.take(i as int) =~= x);
    if m == 0 {
        0
    } else {
        assert(y.take(m as int) =~= y);
        row[m - 1]
    }
}

} // verus!

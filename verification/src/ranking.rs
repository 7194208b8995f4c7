//! Tie-averaged fractional ranking.
//!
//! The fractional rank of an element is its mean 0-based position among the
//! sorted copies of the sequence, ties sharing the mean of the run of
//! positions they occupy. Equivalently, an element with `l` strictly smaller
//! elements and `e` copies (itself included) occupies positions
//! `l .. l + e`, whose mean is `l + (e - 1) / 2`. Every rank is therefore a
//! multiple of one half, and the library returns the *doubled rank*
//! `2*l + e - 1`, an exact integer.

use vstd::prelude::*;

verus! {

/// Number of positions `i < k` with `s[i] < v`.
pub open spec fn count_lt_upto(s: Seq<u64>, v: u64, k: int) -> int
    decreases k,
{
    if k <= 0 || k > s.len() {
        0
    } else {
        count_lt_upto(s, v, k - 1) + if s[k - 1] < v {
            1int
        } else {
            0int
        }
    }
}

/// Number of positions `i < k` with `s[i] == v`.
pub open spec fn count_eq_upto(s: Seq<u64>, v: u64, k: int) -> int
    decreases k,
{
    if k <= 0 || k > s.len() {
        0
    } else {
        count_eq_upto(s, v, k - 1) + if s[k - 1] == v {
            1int
        } else {
            0int
        }
    }
}

/// Number of positions `i < k` with `s[i] > v`.
pub open spec fn count_gt_upto(s: Seq<u64>, v: u64, k: int) -> int
    decreases k,
{
    if k <= 0 || k > s.len() {
        0
    } else {
        count_gt_upto(s, v, k - 1) + if s[k - 1] > v {
            1int
        } else {
            0int
        }
    }
}

/// Number of elements of `s` strictly below `v`.
pub open spec fn count_lt(s: Seq<u64>, v: u64) -> int {
    count_lt_upto(s, v, s.len() as int)
}

/// Number of elements of `s` equal to `v`.
pub open spec fn count_eq(s: Seq<u64>, v: u64) -> int {
    count_eq_upto(s, v, s.len() as int)
}

/// Twice the fractional rank of the element at position `i` of `s`.
pub open spec fn doubled_rank(s: Seq<u64>, i: int) -> int {
    2 * count_lt(s, s[i]) + count_eq(s, s[i]) - 1
}

proof fn lemma_counts_bounded(s: Seq<u64>, v: u64, k: int)
    requires
        0 <= k <= s.len(),
    ensures
        0 <= count_lt_upto(s, v, k),
        0 <= count_eq_upto(s, v, k),
        0 <= count_gt_upto(s, v, k),
        count_lt_upto(s, v, k) + count_eq_upto(s, v, k) + count_gt_upto(s, v, k) == k,
    decreases k,
{
    if k > 0 {
        lemma_counts_bounded(s, v, k - 1);
    }
}

/// An element is counted among the copies of its own value: for `k` past
/// position `i`, the prefix holds at least the copy at `i` itself.
proof fn lemma_count_eq_self(s: Seq<u64>, i: int, k: int)
    requires
        0 <= i < k <= s.len(),
    ensures
        count_eq_upto(s, s[i], k) >= 1,
    decreases k,
{
    if i < k - 1 {
        lemma_count_eq_self(s, i, k - 1);
    } else {
        lemma_counts_bounded(s, s[i], k - 1);
    }
}

/// For `k` up to position `i` of a strictly increasing sequence every
/// counted element lies below `s[i]`; past it, exactly the `i` earlier
/// elements lie below and only position `i` itself holds the value.
proof fn lemma_counts_strictly_increasing(s: Seq<u64>, i: int, k: int)
    requires
        forall|p: int, q: int| 0 <= p < q < s.len() ==> s[p] < s[q],
        0 <= i < s.len(),
        0 <= k <= s.len(),
    ensures
        count_lt_upto(s, s[i], k) == (if k <= i {
            k
        } else {
            i
        }),
        count_eq_upto(s, s[i], k) == (if k <= i {
            0int
        } else {
            1int
        }),
    decreases k,
{
    if k > 0 {
        lemma_counts_strictly_increasing(s, i, k - 1);
        if k - 1 < i {
            assert(s[k - 1] < s[i]);
        } else if k - 1 > i {
            assert(s[i] < s[k - 1]);
        }
    }
}

/// Ranking preserves a strict order up to ties: in a strictly increasing
/// sequence the element at position `i` has fractional rank exactly `i`
/// (doubled rank `2*i`), so the ranks are `0, 1, ..., n-1` in input order.
pub proof fn lemma_rank_strictly_increasing(s: Seq<u64>, i: int)
    requires
        forall|p: int, q: int| 0 <= p < q < s.len() ==> s[p] < s[q],
        0 <= i < s.len(),
    ensures
        doubled_rank(s, i) == 2 * i,
{
    lemma_counts_strictly_increasing(s, i, s.len() as int);
}

proof fn lemma_counts_all_equal(s: Seq<u64>, v: u64, k: int)
    requires
        forall|p: int| 0 <= p < s.len() ==> #[trigger] s[p] == v,
        0 <= k <= s.len(),
    ensures
        count_lt_upto(s, v, k) == 0,
        count_eq_upto(s, v, k) == k,
    decreases k,
{
    if k > 0 {
        lemma_counts_all_equal(s, v, k - 1);
    }
}

/// Ranking a sequence of all-equal values gives every element the averaged
/// middle rank `(n-1)/2` (doubled rank `n-1`).
pub proof fn lemma_rank_all_equal(s: Seq<u64>, i: int)
    requires
        forall|p: int| 0 <= p < s.len() ==> #[trigger] s[p] == s[0],
        0 <= i < s.len(),
    ensures
        doubled_rank(s, i) == s.len() - 1,
{
    lemma_counts_all_equal(s, s[0], s.len() as int);
}

/// Sum of the doubled ranks of the first `k` elements of `s`, each rank
/// taken with respect to the whole of `s`.
pub open spec fn doubled_rank_sum_upto(s: Seq<u64>, k: int) -> int
    decreases k,
{
    if k <= 0 {
        0
    } else {
        doubled_rank_sum_upto(s, k - 1) + doubled_rank(s, k - 1)
    }
}

/// Sum of the doubled ranks of all elements of `s`.
pub open spec fn doubled_rank_sum(s: Seq<u64>) -> int {
    doubled_rank_sum_upto(s, s.len() as int)
}

/// A count over a prefix that stops short of the last element does not see
/// that element.
proof fn lemma_counts_drop_last(s: Seq<u64>, v: u64, k: int)
    requires
        s.len() >= 1,
        0 <= k <= s.len() - 1,
    ensures
        count_lt_upto(s.drop_last(), v, k) == count_lt_upto(s, v, k),
        count_eq_upto(s.drop_last(), v, k) == count_eq_upto(s, v, k),
        count_gt_upto(s.drop_last(), v, k) == count_gt_upto(s, v, k),
    decreases k,
{
    if k > 0 {
        lemma_counts_drop_last(s, v, k - 1);
        assert(s.drop_last()[k - 1] == s[k - 1]);
    }
}

/// Removing the last element lowers the doubled rank of each earlier
/// element by 2 where the removed value lay below it and by 1 where it
/// tied, so a partial sum of doubled ranks drops by twice the number of
/// earlier elements above the removed value plus the number tied with it.
proof fn lemma_rank_sum_split(s: Seq<u64>, k: int)
    requires
        s.len() >= 1,
        0 <= k <= s.len() - 1,
    ensures
        doubled_rank_sum_upto(s, k) == doubled_rank_sum_upto(s.drop_last(), k) + 2
            * count_gt_upto(s.drop_last(), s.last(), k) + count_eq_upto(
            s.drop_last(),
            s.last(),
            k,
        ),
    decreases k,
{
    let t = s.drop_last();
    let w = s.last();
    let n = s.len() as int;
    if k > 0 {
        lemma_rank_sum_split(s, k - 1);
        lemma_counts_drop_last(s, s[k - 1], n - 1);
        assert(t[k - 1] == s[k - 1]);
        assert(count_lt_upto(s, s[k - 1], n) == count_lt_upto(s, s[k - 1], n - 1) + (if s[n - 1]
            < s[k - 1] {
            1int
        } else {
            0int
        }));
        assert(count_eq_upto(s, s[k - 1], n) == count_eq_upto(s, s[k - 1], n - 1) + (if s[n - 1]
            == s[k - 1] {
            1int
        } else {
            0int
        }));
        assert(doubled_rank(s, k - 1) == doubled_rank(t, k - 1) + 2 * (if w < s[k - 1] {
            1int
        } else {
            0int
        }) + (if w == s[k - 1] {
            1int
        } else {
            0int
        }));
    }
}

/// Tie-averaging preserves total rank mass: the fractional ranks of any
/// sequence of length n sum to n(n-1)/2, whatever ties it holds; in
/// doubled form, the doubled ranks sum to exactly n(n-1).
pub proof fn lemma_rank_sum(s: Seq<u64>)
    ensures
        doubled_rank_sum(s) == s.len() * (s.len() - 1),
    decreases s.len(),
{
    let n = s.len() as int;
    if n > 0 {
        let t = s.drop_last();
        let w = s.last();
        lemma_rank_sum(t);
        lemma_rank_sum_split(s, n - 1);
        lemma_counts_drop_last(s, w, n - 1);
        lemma_counts_bounded(t, w, n - 1);
        assert(count_lt_upto(s, w, n) == count_lt_upto(s, w, n - 1) + (if s[n - 1] < w {
            1int
        } else {
            0int
        }));
        assert(count_eq_upto(s, w, n) == count_eq_upto(s, w, n - 1) + (if s[n - 1] == w {
            1int
        } else {
            0int
        }));
        assert(doubled_rank(s, n - 1) == 2 * count_lt_upto(t, w, n - 1) + count_eq_upto(
            t,
            w,
            n - 1,
        ));
        assert(t.len() == n - 1);
        assert(doubled_rank_sum(t) == doubled_rank_sum_upto(t, n - 1));
        assert(doubled_rank_sum_upto(s, n) == doubled_rank_sum_upto(s, n - 1) + doubled_rank(
            s,
            n - 1,
        ));
        assert(doubled_rank_sum_upto(s, n - 1) == doubled_rank_sum_upto(t, n - 1) + 2
            * count_gt_upto(t, w, n - 1) + count_eq_upto(t, w, n - 1));
        assert(doubled_rank_sum_upto(s, n) == doubled_rank_sum_upto(t, n - 1) + 2 * (count_lt_upto(
            t,
            w,
            n - 1,
        ) + count_eq_upto(t, w, n - 1) + count_gt_upto(t, w, n - 1)));
        assert(doubled_rank_sum_upto(s, n) == (n - 1) * (n - 2) + 2 * (n - 1));
        assert((n - 1) * (n - 2) + 2 * (n - 1) == n * (n - 1)) by (nonlinear_arith);
        assert(doubled_rank_sum(s) == n * (n - 1));
    } else {
        assert(doubled_rank_sum(s) == 0);
        assert(s.len() * (s.len() - 1) == 0) by (nonlinear_arith)
            requires
                s.len() == 0,
        ;
    }
}

/// Tie-averaged fractional ranks of a sequence of observation keys, each
/// returned doubled so that it is an exact integer.
///
/// The element at position `i` receives twice the mean sorted position of
/// its tie group: `2*l + e - 1`, where `l` elements of the input are
/// strictly below it and `e` equal it.
pub fn rank(l: &Vec<u64>) -> (r: Vec<u64>)
    requires
        l@.len() <= usize::MAX / 2,
    ensures
        r@.len() == l@.len(),
        forall|i: int| 0 <= i < l@.len() ==> r@[i] as int == doubled_rank(l@, i),
{
    let n = l.len();
    let mut r: Vec<u64> = Vec::new();
    let mut i: usize = 0;
    while i < n
        invariant
            i <= n,
            n == l@.len() <= usize::MAX / 2,
            r@.len() == i,
            forall|p: int| 0 <= p < i ==> r@[p] as int == doubled_rank(l@, p),
        decreases n - i,
    {
        let v = l[i];
        let mut lt: u64 = 0;
        let mut eq: u64 = 0;
        let mut j: usize = 0;
        while j < n
            invariant
                j <= n,
                n == l@.len() <= usize::MAX / 2,
                i < n,
                v == l@[i as int],
                lt as int == count_lt_upto(l@, v, j as int),
                eq as int == count_eq_upto(l@, v, j as int),
                lt as int + eq as int <= j as int,
                i < j ==> eq >= 1,
            decreases n - j,
        {
            if l[j] < v {
                lt = lt + 1;
            } else if l[j] == v {
                eq = eq + 1;
            }
            j = j + 1;
        }
        proof {
            lemma_count_eq_self(l@, i as int, n as int);
        }
        r.push(2 * lt + (eq - 1));
        i = i + 1;
    }
    r
}

} // verus!

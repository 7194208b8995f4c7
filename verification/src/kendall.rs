//! Concordance classification and discordant-pair counting for tau-a.
//!
//! Kendall's tau-a examines every unordered pair of distinct indices and
//! classifies the two observation pairs by the IEEE comparisons of the raw
//! values: `Equal` when both coordinates are equal, `Concordant` when both
//! move strictly in the same direction, `Discordant` otherwise (including
//! every pair with a tie in exactly one coordinate, and every comparison
//! that involves NaN, since no IEEE comparison with NaN holds). On keys the
//! IEEE comparisons are integer comparisons guarded by [`NAN_KEY`].

use crate::order::NAN_KEY;
use crate::ranking::count_eq_upto;
use crate::ranking::count_lt_upto;
use crate::ranking::doubled_rank;
use crate::ranking::lemma_rank_all_equal;
use vstd::prelude::*;

verus! {

/// IEEE equality, read off the keys: equal and not NaN.
pub open spec fn ieee_eq(a: u64, b: u64) -> bool {
    a == b && a != NAN_KEY
}

/// IEEE strict order, read off the keys: below under the key order and
/// neither operand NaN. Only the right guard is needed, since [`NAN_KEY`]
/// is the greatest key and so can never be the smaller operand.
pub open spec fn ieee_lt(a: u64, b: u64) -> bool {
    a < b && b != NAN_KEY
}

/// Classification of a pair of observation pairs.
#[derive(Clone, Copy, Debug, PartialEq, Eq, Structural)]
pub enum Concordance {
    Discordant,
    Concordant,
    Equal,
}

/// The classification of the observation pairs `(x1, y1)`, `(x2, y2)`.
pub open spec fn concordance_of(x1: u64, y1: u64, x2: u64, y2: u64) -> Concordance {
    if ieee_eq(x1, x2) && ieee_eq(y1, y2) {
        Concordance::Equal
    } else if (ieee_lt(x1, x2) && ieee_lt(y1, y2)) || (ieee_lt(x2, x1) && ieee_lt(y2, y1)) {
        Concordance::Concordant
    } else {
        Concordance::Discordant
    }
}

/// Classifies the two observation pairs `(x1, y1)` and `(x2, y2)`, given as
/// order keys.
pub fn concordance(x1: u64, y1: u64, x2: u64, y2: u64) -> (r: Concordance)
    ensures
        r == concordance_of(x1, y1, x2, y2),
{
    if x1 == x2 && x1 != NAN_KEY && y1 == y2 && y1 != NAN_KEY {
        Concordance::Equal
    } else if (x1 < x2 && x2 != NAN_KEY && y1 < y2 && y2 != NAN_KEY) || (x2 < x1 && x1 != NAN_KEY
        && y2 < y1 && y1 != NAN_KEY) {
        Concordance::Concordant
    } else {
        Concordance::Discordant
    }
}

/// A sequence is constant when every later element is IEEE-equal to the
/// first; under IEEE semantics a sequence holding NaN is never constant
/// unless it is too short to compare.
pub open spec fn is_constant(s: Seq<u64>) -> bool {
    forall|i: int| 1 <= i < s.len() ==> ieee_eq(s[0], s[i])
}

/// Whether every element of the sequence is IEEE-equal to its first.
pub fn constant(l: &Vec<u64>) -> (r: bool)
    ensures
        r == is_constant(l@),
{
    if l.len() == 0 {
        return true;
    }
    let k = l[0];
    let mut i: usize = 1;
    while i < l.len()
        invariant
            1 <= i <= l@.len(),
            k == l@[0],
            forall|p: int| 1 <= p < i ==> ieee_eq(l@[0], l@[p]),
        decreases l@.len() - i,
    {
        if !(k == l[i] && k != NAN_KEY) {
            assert(!ieee_eq(l@[0], l@[i as int]));
            return false;
        }
        i = i + 1;
    }
    true
}

/// A constant input sequence ranks to a constant output: every element of
/// it receives the same averaged middle rank `(n-1)/2` (doubled: `n-1`).
/// This is what degenerates Spearman's coefficient, whose Pearson step
/// divides by the rank variance, to NaN on a constant input.
pub proof fn lemma_constant_input_ranks_constant(s: Seq<u64>, i: int)
    requires
        is_constant(s),
        0 <= i < s.len(),
    ensures
        doubled_rank(s, i) == s.len() - 1,
{
    if s.len() >= 2 {
        assert forall|p: int| 0 <= p < s.len() implies #[trigger] s[p] == s[0] by {
            if p >= 1 {
                assert(ieee_eq(s[0], s[p]));
            }
        }
        lemma_rank_all_equal(s, i);
    } else {
        assert(count_lt_upto(s, s[0], 1) == count_lt_upto(s, s[0], 0) + 0);
        assert(count_eq_upto(s, s[0], 1) == count_eq_upto(s, s[0], 0) + 1);
    }
}

/// Whether the index pair `(i, j)` of the paired dataset is discordant.
pub open spec fn is_discordant(x: Seq<u64>, y: Seq<u64>, i: int, j: int) -> bool {
    concordance_of(x[i], y[i], x[j], y[j]) == Concordance::Discordant
}

/// Number of positions `t` in `[i+1, k)` with the pair `(i, t)` discordant.
pub open spec fn row_discordant_upto(x: Seq<u64>, y: Seq<u64>, i: int, k: int) -> int
    decreases k - i,
{
    if k <= i + 1 {
        0
    } else {
        row_discordant_upto(x, y, i, k - 1) + if is_discordant(x, y, i, k - 1) {
            1int
        } else {
            0int
        }
    }
}

/// Number of discordant pairs `(a, b)` with `a < i` and `a < b < len`.
pub open spec fn discordant_upto(x: Seq<u64>, y: Seq<u64>, i: int) -> int
    decreases i,
{
    if i <= 0 {
        0
    } else {
        discordant_upto(x, y, i - 1) + row_discordant_upto(x, y, i - 1, x.len() as int)
    }
}

/// Number of discordant unordered index pairs of the paired dataset.
pub open spec fn discordant_pairs(x: Seq<u64>, y: Seq<u64>) -> int {
    discordant_upto(x, y, x.len() as int)
}

proof fn lemma_row_bounded(x: Seq<u64>, y: Seq<u64>, i: int, k: int)
    ensures
        0 <= row_discordant_upto(x, y, i, k),
        row_discordant_upto(x, y, i, k) <= (if k <= i + 1 {
            0int
        } else {
            k - i - 1
        }),
    decreases k - i,
{
    if k > i + 1 {
        lemma_row_bounded(x, y, i, k - 1);
    }
}

proof fn lemma_discordant_upto_bounded(x: Seq<u64>, y: Seq<u64>, i: int)
    requires
        0 <= i <= x.len(),
    ensures
        0 <= discordant_upto(x, y, i),
        discordant_upto(x, y, i) <= i * x.len(),
    decreases i,
{
    let n = x.len() as int;
    if i > 0 {
        lemma_discordant_upto_bounded(x, y, i - 1);
        lemma_row_bounded(x, y, i - 1, n);
        assert((i - 1) * n + n == i * n) by (nonlinear_arith);
    }
}

proof fn lemma_discordant_upto_tight(x: Seq<u64>, y: Seq<u64>, i: int)
    requires
        0 <= i <= x.len(),
    ensures
        0 <= 2 * discordant_upto(x, y, i),
        2 * discordant_upto(x, y, i) <= i * (2 * x.len() - i - 1),
    decreases i,
{
    let n = x.len() as int;
    if i > 0 {
        lemma_discordant_upto_tight(x, y, i - 1);
        lemma_row_bounded(x, y, i - 1, n);
        assert((i - 1) * (2 * n - i) + 2 * (n - i) == i * (2 * n - i - 1)) by (nonlinear_arith);
    }
}

/// The discordant pairs are among the n(n-1)/2 unordered index pairs, so
/// tau-a, which is 1 - 2*discordant/m over m = n(n-1)/2 pairs, always lies
/// between -1 and 1.
pub proof fn lemma_discordant_at_most_pairs(x: Seq<u64>, y: Seq<u64>)
    ensures
        0 <= discordant_pairs(x, y),
        discordant_pairs(x, y) <= total_pairs(x.len() as int),
{
    let n = x.len() as int;
    lemma_discordant_upto_tight(x, y, n);
    assert(n * (2 * n - n - 1) == n * (n - 1)) by (nonlinear_arith);
    assert(2 * discordant_pairs(x, y) <= n * (n - 1) ==> discordant_pairs(x, y) <= n * (n - 1)
        / 2) by (nonlinear_arith);
}

/// Number of discordant unordered index pairs, scanned exactly once each.
pub fn count_discordant(x: &Vec<u64>, y: &Vec<u64>) -> (d: u64)
    requires
        x@.len() == y@.len(),
        x@.len() < 0x1_0000_0000,
    ensures
        d as int == discordant_pairs(x@, y@),
{
    let n = x.len();
    let mut d: u64 = 0;
    let mut i: usize = 0;
    while i < n
        invariant
            i <= n,
            n == x@.len(),
            n == y@.len(),
            n < 0x1_0000_0000,
            d as int == discordant_upto(x@, y@, i as int),
        decreases n - i,
    {
        let mut j: usize = i + 1;
        while j < n
            invariant
                i < n,
                i + 1 <= j <= n,
                n == x@.len(),
                n == y@.len(),
                n < 0x1_0000_0000,
                d as int == discordant_upto(x@, y@, i as int) + row_discordant_upto(
                    x@,
                    y@,
                    i as int,
                    j as int,
                ),
            decreases n - j,
        {
            let c = concordance(x[i], y[i], x[j], y[j]);
            if c == Concordance::Discordant {
                proof {
                    lemma_discordant_upto_bounded(x@, y@, i as int);
                    lemma_row_bounded(x@, y@, i as int, j as int);
                    assert(d as int + 1 <= 0xffff_ffff_ffff_ffff) by (nonlinear_arith)
                        requires
                            d as int <= (i as int) * (n as int) + (j as int) - (i as int) - 1,
                            0 <= (i as int),
                            (i as int) < (n as int),
                            (i as int) < (j as int),
                            (j as int) <= (n as int),
                            (n as int) < 0x1_0000_0000,
                    ;
                }
                d = d + 1;
            }
            j = j + 1;
        }
        i = i + 1;
    }
    d
}

/// Total number of unordered pairs of distinct indices among `n`
/// observations: the tau-a denominator.
pub open spec fn total_pairs(n: int) -> int {
    n * (n - 1) / 2
}

/// Computes `n * (n - 1) / 2`, the number of unordered index pairs.
pub fn pair_count(n: u64) -> (m: u64)
    requires
        n < 0x1_0000_0000,
    ensures
        m as int == total_pairs(n as int),
{
    if n == 0 {
        0
    } else {
        proof {
            assert(n * (n - 1) <= 0xffff_ffff_ffff_ffff) by (nonlinear_arith)
                requires
                    0 < n < 0x1_0000_0000,
            ;
        }
        n * (n - 1) / 2
    }
}

} // verus!

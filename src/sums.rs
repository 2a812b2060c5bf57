//! Finite sums and counts used by the contracts, with the lemmas about them.
use vstd::prelude::*;
use vstd::set_lib::{lemma_int_range, lemma_map_size, lemma_subset_equality, set_int_range};

verus! {

/// `f(0) + f(1) + ... + f(n - 1)`.
pub open spec fn sum_range(f: spec_fn(int) -> int, n: int) -> int
    decreases n,
{
    if n <= 0 {
        0
    } else {
        sum_range(f, n - 1) + f(n - 1)
    }
}

/// Number of positions of `s` that hold `true`.
pub open spec fn count_true(s: Seq<bool>) -> int {
    sum_range(|k: int| if s[k] { 1int } else { 0int }, s.len() as int)
}

/// Sums of functions that agree on `[0, n)` are equal.
pub proof fn lemma_sum_congruent(f: spec_fn(int) -> int, g: spec_fn(int) -> int, n: int)
    requires
        forall|k: int| 0 <= k < n ==> #[trigger] f(k) == g(k),
    ensures
        sum_range(f, n) == sum_range(g, n),
    decreases n,
{
    if n > 0 {
        lemma_sum_congruent(f, g, n - 1);
    }
}

/// A sum is monotone in its terms.
pub proof fn lemma_sum_le(f: spec_fn(int) -> int, g: spec_fn(int) -> int, n: int)
    requires
        forall|k: int| 0 <= k < n ==> #[trigger] f(k) <= g(k),
    ensures
        sum_range(f, n) <= sum_range(g, n),
    decreases n,
{
    if n > 0 {
        lemma_sum_le(f, g, n - 1);
    }
}

/// Sums of two functions add up.
pub proof fn lemma_sum_add(f: spec_fn(int) -> int, g: spec_fn(int) -> int, h: spec_fn(int) -> int, n: int)
    requires
        forall|k: int| 0 <= k < n ==> #[trigger] h(k) == f(k) + g(k),
    ensures
        sum_range(h, n) == sum_range(f, n) + sum_range(g, n),
    decreases n,
{
    if n > 0 {
        lemma_sum_add(f, g, h, n - 1);
    }
}

/// Changing one term changes the sum by the difference.
pub proof fn lemma_sum_update(f: spec_fn(int) -> int, g: spec_fn(int) -> int, n: int, i: int)
    requires
        0 <= i < n,
        forall|k: int| 0 <= k < n && k != i ==> #[trigger] f(k) == g(k),
    ensures
        sum_range(g, n) == sum_range(f, n) - f(i) + g(i),
    decreases n,
{
    if n - 1 == i {
        lemma_sum_congruent(f, g, n - 1);
    } else {
        lemma_sum_update(f, g, n - 1, i);
    }
}

/// A sum of `n` terms in `[lo, hi]` lies in `[n * lo, n * hi]`.
pub proof fn lemma_sum_bounds(f: spec_fn(int) -> int, n: int, lo: int, hi: int)
    requires
        n >= 0,
        forall|k: int| 0 <= k < n ==> lo <= #[trigger] f(k) <= hi,
    ensures
        n * lo <= sum_range(f, n) <= n * hi,
    decreases n,
{
    if n > 0 {
        lemma_sum_bounds(f, n - 1, lo, hi);
        assert((n - 1) * lo + lo == n * lo) by (nonlinear_arith);
        assert((n - 1) * hi + hi == n * hi) by (nonlinear_arith);
    } else {
        assert(n * lo == 0 && n * hi == 0) by (nonlinear_arith)
            requires
                n == 0,
        ;
    }
}

/// Reordering the terms by a bijection of `[0, n)` keeps the sum.
pub proof fn lemma_sum_permuted(f: spec_fn(int) -> int, p: spec_fn(int) -> int, q: spec_fn(int) -> int, n: int)
    requires
        forall|k: int| 0 <= k < n ==> 0 <= #[trigger] p(k) < n && q(p(k)) == k,
        forall|j: int| 0 <= j < n ==> 0 <= #[trigger] q(j) < n && p(q(j)) == j,
    ensures
        sum_range(|k: int| f(p(k)), n) == sum_range(f, n),
    decreases n,
{
    if n > 0 {
        let k0 = q(n - 1);
        let p_next = |k: int| if k == k0 { p(n - 1) } else { p(k) };
        let q_next = |j: int| if j == p(n - 1) { k0 } else { q(j) };
        assert forall|k: int| 0 <= k < n - 1 implies 0 <= #[trigger] p_next(k) < n - 1 && q_next(p_next(k)) == k by {
            if k == k0 {
                assert(p(n - 1) != n - 1);
            } else {
                assert(p(k) != p(k0));
            }
        }
        assert forall|j: int| 0 <= j < n - 1 implies 0 <= #[trigger] q_next(j) < n - 1 && p_next(q_next(j)) == j by {
            if j == p(n - 1) {
                assert(k0 != n - 1);
            } else {
                assert(q(j) != n - 1);
            }
        }
        lemma_sum_permuted(f, p_next, q_next, n - 1);
        let fp = |k: int| f(p(k));
        let fp_next = |k: int| f(p_next(k));
        if k0 < n - 1 {
            lemma_sum_update(fp, fp_next, n - 1, k0);
        } else {
            lemma_sum_congruent(fp, fp_next, n - 1);
        }
    }
}

/// An injective map of `[0, n)` into itself reaches every point: here `j`.
pub proof fn lemma_injective_onto(p: spec_fn(int) -> int, n: int, j: int) -> (k: int)
    requires
        0 <= j < n,
        forall|k: int| 0 <= k < n ==> 0 <= #[trigger] p(k) < n,
        forall|k1: int, k2: int| 0 <= k1 < n && 0 <= k2 < n && k1 != k2 ==> #[trigger] p(k1) != #[trigger] p(k2),
    ensures
        0 <= k < n,
        p(k) == j,
{
    let x = set_int_range(0, n);
    lemma_int_range(0, n);
    let y = x.map(p);
    assert(vstd::relations::injective_on(p, x));
    lemma_map_size(x, y, p);
    assert(y.subset_of(x));
    lemma_subset_equality(y, x);
    assert(x.contains(j));
    assert(y.contains(j));
    choose|k: int| x.contains(k) && p(k) == j
}

/// `count_true` lies between 0 and the length.
pub proof fn lemma_count_true_bounds(s: Seq<bool>)
    ensures
        0 <= count_true(s) <= s.len(),
{
    lemma_sum_bounds(|k: int| if s[k] { 1int } else { 0int }, s.len() as int, 0, 1);
}

/// Setting one position changes the count by at most one, as expected.
pub proof fn lemma_count_true_update(s: Seq<bool>, i: int, b: bool)
    requires
        0 <= i < s.len(),
    ensures
        count_true(s.update(i, b)) == count_true(s) - (if s[i] { 1int } else { 0int }) + (if b {
            1int
        } else {
            0int
        }),
{
    let t = s.update(i, b);
    lemma_sum_update(
        |k: int| if s[k] { 1int } else { 0int },
        |k: int| if t[k] { 1int } else { 0int },
        s.len() as int,
        i,
    );
}

/// The count over a prefix grows by the next position.
pub proof fn lemma_count_true_take(s: Seq<bool>, i: int)
    requires
        0 <= i < s.len(),
    ensures
        count_true(s.take(i + 1)) == count_true(s.take(i)) + (if s[i] { 1int } else { 0int }),
{
    let a = s.take(i + 1);
    let b = s.take(i);
    lemma_sum_congruent(
        |k: int| if a[k] { 1int } else { 0int },
        |k: int| if b[k] { 1int } else { 0int },
        i,
    );
}

/// A positive count has a `true` position.
pub proof fn lemma_count_true_witness(s: Seq<bool>)
    requires
        count_true(s) > 0,
    ensures
        exists|k: int| 0 <= k < s.len() && s[k],
{
    if forall|k: int| 0 <= k < s.len() ==> !s[k] {
        lemma_sum_bounds(|k: int| if s[k] { 1int } else { 0int }, s.len() as int, 0, 0);
    }
}

/// A count below the length has a `false` position.
pub proof fn lemma_count_false_witness(s: Seq<bool>)
    requires
        count_true(s) < s.len(),
    ensures
        exists|k: int| 0 <= k < s.len() && !s[k],
{
    if forall|k: int| 0 <= k < s.len() ==> s[k] {
        lemma_sum_bounds(|k: int| if s[k] { 1int } else { 0int }, s.len() as int, 1, 1);
    }
}

/// Counts of complementary sequences add up to the length.
pub proof fn lemma_count_complement(s: Seq<bool>, t: Seq<bool>)
    requires
        s.len() == t.len(),
        forall|k: int| 0 <= k < s.len() ==> t[k] == !s[k],
    ensures
        count_true(s) + count_true(t) == s.len(),
{
    let n = s.len() as int;
    lemma_sum_add(
        |k: int| if s[k] { 1int } else { 0int },
        |k: int| if t[k] { 1int } else { 0int },
        |k: int| 1int,
        n,
    );
    lemma_sum_bounds(|k: int| 1int, n, 1, 1);
}

/// Adding `e` to the terms selected by `b` adds `e` times their number.
pub proof fn lemma_sum_masked(f: spec_fn(int) -> int, g: spec_fn(int) -> int, b: Seq<bool>, e: int)
    requires
        forall|k: int| 0 <= k < b.len() ==> #[trigger] g(k) == f(k) + if b[k] { e } else { 0 },
    ensures
        sum_range(g, b.len() as int) == sum_range(f, b.len() as int) + e * count_true(b),
{
    lemma_sum_masked_prefix(f, g, b, e, b.len() as int);
}

proof fn lemma_sum_masked_prefix(f: spec_fn(int) -> int, g: spec_fn(int) -> int, b: Seq<bool>, e: int, n: int)
    requires
        0 <= n <= b.len(),
        forall|k: int| 0 <= k < b.len() ==> #[trigger] g(k) == f(k) + if b[k] { e } else { 0 },
    ensures
        sum_range(g, n) == sum_range(f, n) + e * sum_range(|k: int| if b[k] { 1int } else { 0int }, n),
    decreases n,
{
    if n > 0 {
        lemma_sum_masked_prefix(f, g, b, e, n - 1);
        let s = sum_range(|k: int| if b[k] { 1int } else { 0int }, n - 1);
        let t = if b[n - 1] { 1int } else { 0int };
        assert(e * s + e * t == e * (s + t)) by (nonlinear_arith);
    }
}

/// A sequence whose `true` positions include those of another and one more
/// has a larger count.
pub proof fn lemma_count_true_grows(a: Seq<bool>, b: Seq<bool>, k: int)
    requires
        a.len() == b.len(),
        forall|l: int| 0 <= l < a.len() && #[trigger] a[l] ==> b[l],
        0 <= k < a.len(),
        !a[k],
        b[k],
    ensures
        count_true(a) < count_true(b),
{
    let a2 = a.update(k, true);
    lemma_count_true_update(a, k, true);
    lemma_sum_le(
        |l: int| if a2[l] { 1int } else { 0int },
        |l: int| if b[l] { 1int } else { 0int },
        a.len() as int,
    );
}

} // verus!

//! Finite sums of integer-valued functions, and the small algebra of
//! rearrangements that the ring lemmas are built on.

use vstd::prelude::*;

verus! {

/// `f(lo) + f(lo + 1) + ... + f(hi - 1)`; `0` when the range is empty.
pub open spec fn sum_range(lo: int, hi: int, f: spec_fn(int) -> int) -> int
    decreases hi - lo,
{
    if lo >= hi {
        0
    } else {
        f(lo) + sum_range(lo + 1, hi, f)
    }
}

/// Peeling the last term off a non-empty sum.
pub proof fn lemma_sum_snoc(lo: int, hi: int, f: spec_fn(int) -> int)
    requires
        lo <= hi,
    ensures
        sum_range(lo, hi + 1, f) == sum_range(lo, hi, f) + f(hi),
    decreases hi - lo,
{
    if lo == hi {
        assert(sum_range(lo + 1, hi + 1, f) == 0);
    } else {
        lemma_sum_snoc(lo + 1, hi, f);
    }
}

/// Functions equal on the range have equal sums.
pub proof fn lemma_sum_eq(lo: int, hi: int, f: spec_fn(int) -> int, g: spec_fn(int) -> int)
    requires
        forall|i: int| lo <= i < hi ==> #[trigger] f(i) == g(i),
    ensures
        sum_range(lo, hi, f) == sum_range(lo, hi, g),
    decreases hi - lo,
{
    if lo < hi {
        lemma_sum_eq(lo + 1, hi, f, g);
    }
}

/// A sum of zeros is zero.
pub proof fn lemma_sum_zero(lo: int, hi: int, f: spec_fn(int) -> int)
    requires
        forall|i: int| lo <= i < hi ==> #[trigger] f(i) == 0,
    ensures
        sum_range(lo, hi, f) == 0,
    decreases hi - lo,
{
    if lo < hi {
        lemma_sum_zero(lo + 1, hi, f);
    }
}

/// Sums distribute over pointwise addition.
pub proof fn lemma_sum_add(
    lo: int,
    hi: int,
    f: spec_fn(int) -> int,
    g: spec_fn(int) -> int,
    h: spec_fn(int) -> int,
)
    requires
        forall|i: int| lo <= i < hi ==> #[trigger] h(i) == f(i) + g(i),
    ensures
        sum_range(lo, hi, h) == sum_range(lo, hi, f) + sum_range(lo, hi, g),
    decreases hi - lo,
{
    if lo < hi {
        lemma_sum_add(lo + 1, hi, f, g, h);
    }
}

/// A constant factor moves out of a sum.
pub proof fn lemma_sum_scale(
    lo: int,
    hi: int,
    c: int,
    f: spec_fn(int) -> int,
    g: spec_fn(int) -> int,
)
    requires
        forall|i: int| lo <= i < hi ==> #[trigger] g(i) == c * f(i),
    ensures
        sum_range(lo, hi, g) == c * sum_range(lo, hi, f),
    decreases hi - lo,
{
    if lo >= hi {
        assert(c * 0 == 0) by (nonlinear_arith);
    } else {
        lemma_sum_scale(lo + 1, hi, c, f, g);
        assert(c * (f(lo) + sum_range(lo + 1, hi, f)) == c * f(lo) + c * sum_range(
            lo + 1,
            hi,
            f,
        )) by (nonlinear_arith);
    }
}

/// If a single index can be non-zero, the sum is that term.
pub proof fn lemma_sum_single(lo: int, hi: int, f: spec_fn(int) -> int, i0: int)
    requires
        lo <= i0 < hi,
        forall|i: int| lo <= i < hi && i != i0 ==> #[trigger] f(i) == 0,
    ensures
        sum_range(lo, hi, f) == f(i0),
    decreases hi - lo,
{
    if lo == i0 {
        lemma_sum_zero(lo + 1, hi, f);
    } else {
        lemma_sum_single(lo + 1, hi, f, i0);
    }
}

/// A termwise bound gives a bound on the sum.
pub proof fn lemma_sum_bound(lo: int, hi: int, f: spec_fn(int) -> int, b: int)
    requires
        lo <= hi,
        0 <= b,
        forall|i: int| lo <= i < hi ==> -b <= #[trigger] f(i) <= b,
    ensures
        -(hi - lo) * b <= sum_range(lo, hi, f) <= (hi - lo) * b,
    decreases hi - lo,
{
    if lo >= hi {
        assert((hi - lo) * b == 0 && (-(hi - lo)) * b == 0) by (nonlinear_arith)
            requires hi == lo;
    } else {
        lemma_sum_bound(lo + 1, hi, f, b);
        assert((hi - lo) * b == (hi - lo - 1) * b + b && (-(hi - lo)) * b == (-(hi - lo - 1)) * b
            - b) by (nonlinear_arith);
    }
}

/// Splitting a sum at a midpoint.
pub proof fn lemma_sum_split(lo: int, mid: int, hi: int, f: spec_fn(int) -> int)
    requires
        lo <= mid <= hi,
    ensures
        sum_range(lo, hi, f) == sum_range(lo, mid, f) + sum_range(mid, hi, f),
    decreases mid - lo,
{
    if lo < mid {
        lemma_sum_split(lo + 1, mid, hi, f);
    }
}

/// Shifting the summation window.
pub proof fn lemma_sum_shift(lo: int, hi: int, d: int, f: spec_fn(int) -> int, g: spec_fn(int) -> int)
    requires
        forall|t: int| lo + d <= t < hi + d ==> #[trigger] g(t) == f(t - d),
    ensures
        sum_range(lo + d, hi + d, g) == sum_range(lo, hi, f),
    decreases hi - lo,
{
    if lo < hi {
        lemma_sum_shift(lo + 1, hi, d, f, g);
    }
}

/// Sums of termwise congruent functions are congruent.
pub proof fn lemma_sum_mod(
    lo: int,
    hi: int,
    f: spec_fn(int) -> int,
    g: spec_fn(int) -> int,
    q: int,
)
    requires
        q > 0,
        forall|i: int| lo <= i < hi ==> #[trigger] f(i) % q == #[trigger] g(i) % q,
    ensures
        sum_range(lo, hi, f) % q == sum_range(lo, hi, g) % q,
    decreases hi - lo,
{
    if lo < hi {
        lemma_sum_mod(lo + 1, hi, f, g, q);
        vstd::arithmetic::div_mod::lemma_add_mod_noop(f(lo), sum_range(lo + 1, hi, f), q);
        vstd::arithmetic::div_mod::lemma_add_mod_noop(g(lo), sum_range(lo + 1, hi, g), q);
    }
}

/// Exchanging the order of a double sum.
pub proof fn lemma_sum_swap(n: int, m: int, ff: spec_fn(int, int) -> int)
    ensures
        sum_range(0, n, |i: int| sum_range(0, m, |j: int| ff(i, j))) == sum_range(
            0,
            m,
            |j: int| sum_range(0, n, |i: int| ff(i, j)),
        ),
    decreases n,
{
    let rows = |i: int| sum_range(0, m, |j: int| ff(i, j));
    let cols_full = |j: int| sum_range(0, n, |i: int| ff(i, j));
    if n <= 0 {
        assert forall|j: int| 0 <= j < m implies #[trigger] cols_full(j) == 0 by {
        }
        lemma_sum_zero(0, m, cols_full);
    } else {
        let cols_short = |j: int| sum_range(0, n - 1, |i: int| ff(i, j));
        let last_row = |j: int| ff(n - 1, j);
        lemma_sum_swap(n - 1, m, ff);
        lemma_sum_snoc(0, n - 1, rows);
        assert forall|j: int| 0 <= j < m implies #[trigger] cols_full(j) == cols_short(j)
            + last_row(j) by {
            lemma_sum_snoc(0, n - 1, |i: int| ff(i, j));
        }
        lemma_sum_add(0, m, cols_short, last_row, cols_full);
    }
}

} // verus!

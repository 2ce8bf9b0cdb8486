//! The abstract negacyclic product and its algebra: commutativity,
//! associativity, distributivity, congruence modulo `q`, magnitude bounds,
//! and the bridge from the executable convolve-and-fold pipeline.
//!
//! A length-`n` coefficient sequence extends to an antiperiodic function on
//! all of `Z` (`next_c`), under which the product in `Z[x]/(x^n + 1)` is a
//! windowed convolution (`nmul_at`).

use vstd::prelude::*;
use crate::sums::{sum_range, lemma_sum_snoc, lemma_sum_eq, lemma_sum_zero, lemma_sum_add,
    lemma_sum_scale, lemma_sum_single, lemma_sum_bound, lemma_sum_mod, lemma_sum_swap,
    lemma_sum_split, lemma_sum_shift};
use crate::poly::{pcoeff, sign_alt, conv_at, conv, fold_at, fold_width, red};

verus! {

/// The antiperiodic extension of a coefficient sequence: period `2n`, with
/// `f(d + n) == -f(d)` because `x^n` is `-1` in the ring.
pub open spec fn next_c(y: Seq<int>, n: nat, d: int) -> int {
    sign_alt(d / n as int) * pcoeff(y, d % n as int)
}

/// The weight with which exponent offset `e` contributes to one coefficient.
pub open spec fn wrap_w(e: int, n: nat) -> int {
    if e % n as int == 0 {
        sign_alt(e / n as int)
    } else {
        0
    }
}

/// Coefficient `j` of the product of `x` and `y` in `Z[x]/(x^n + 1)`.
pub open spec fn nmul_at(x: Seq<int>, y: Seq<int>, n: nat, j: int) -> int {
    sum_range(
        0,
        n as int,
        |i: int| pcoeff(x, i) * sum_range(0, n as int, |l: int| pcoeff(y, l) * wrap_w(j - i - l, n)),
    )
}

/// The product of `x` and `y` in `Z[x]/(x^n + 1)` as a length-`n` sequence.
pub open spec fn nmul(x: Seq<int>, y: Seq<int>, n: nat) -> Seq<int> {
    Seq::new(n, |j: int| nmul_at(x, y, n, j))
}

/// Parity of a sum of indices, as alternating signs.
proof fn lemma_sign_alt_add(a: int, b: int)
    ensures
        sign_alt(a + b) == sign_alt(a) * sign_alt(b),
{
    vstd::arithmetic::div_mod::lemma_add_mod_noop(a, b, 2);
}

/// The inner weighted sum picks out exactly one stored coefficient: it is
/// the antiperiodic extension.
proof fn lemma_pick(y: Seq<int>, n: nat, d: int)
    requires
        n >= 1,
    ensures
        sum_range(0, n as int, |l: int| pcoeff(y, l) * wrap_w(d - l, n)) == next_c(y, n, d),
{
    let ni = n as int;
    let f = |l: int| pcoeff(y, l) * wrap_w(d - l, n);
    let l0 = d % ni;
    vstd::arithmetic::div_mod::lemma_mod_bound(d, ni);
    vstd::arithmetic::div_mod::lemma_fundamental_div_mod(d, ni);
    let k0 = d / ni;
    assert((d - l0) % ni == 0 && (d - l0) / ni == k0) by {
        assert(d - l0 == k0 * ni + 0) by (nonlinear_arith)
            requires d == ni * k0 + l0;
        vstd::arithmetic::div_mod::lemma_fundamental_div_mod_converse_mod(d - l0, ni, k0, 0);
        vstd::arithmetic::div_mod::lemma_fundamental_div_mod_converse_div(d - l0, ni, k0, 0);
    }
    assert forall|l: int| 0 <= l < ni && l != l0 implies #[trigger] f(l) == 0 by {
        assert((d - l) % ni != 0) by {
            if (d - l) % ni == 0 {
                let kk = (d - l) / ni;
                vstd::arithmetic::div_mod::lemma_fundamental_div_mod(d - l, ni);
                vstd::arithmetic::div_mod::lemma_fundamental_div_mod_converse_mod(d, ni, kk, l);
            }
        }
        assert(pcoeff(y, l) * 0 == 0) by (nonlinear_arith);
    }
    lemma_sum_single(0, ni, f, l0);
    assert(pcoeff(y, l0) * sign_alt(k0) == sign_alt(k0) * pcoeff(y, l0)) by (nonlinear_arith);
}

/// The antiperiodic extension flips sign across one period.
proof fn lemma_next_antiperiodic(y: Seq<int>, n: nat, d: int)
    requires
        n >= 1,
    ensures
        next_c(y, n, d + n) == -next_c(y, n, d),
{
    let ni = n as int;
    vstd::arithmetic::div_mod::lemma_mod_add_multiples_vanish(d, ni);
    vstd::arithmetic::div_mod::lemma_div_plus_one(d, ni);
    lemma_sign_alt_add(d / ni, 1);
    assert(sign_alt(d / ni + 1) * pcoeff(y, d % ni) == -(sign_alt(d / ni) * pcoeff(y, d % ni)))
        by (nonlinear_arith)
        requires sign_alt(d / ni + 1) == sign_alt(d / ni) * sign_alt(1);
}

/// Shifting the argument by a multiple of the period multiplies by a sign.
proof fn lemma_next_multiple(y: Seq<int>, n: nat, d: int, k: int)
    requires
        n >= 1,
    ensures
        next_c(y, n, d + k * n) == sign_alt(k) * next_c(y, n, d),
{
    let ni = n as int;
    vstd::arithmetic::div_mod::lemma_mod_multiples_vanish(k, d, ni);
    assert(k * ni + d == d + k * ni) by (nonlinear_arith);
    vstd::arithmetic::div_mod::lemma_fundamental_div_mod(d, ni);
    vstd::arithmetic::div_mod::lemma_mod_bound(d, ni);
    assert(d + k * ni == (d / ni + k) * ni + d % ni) by (nonlinear_arith)
        requires d == ni * (d / ni) + d % ni;
    vstd::arithmetic::div_mod::lemma_fundamental_div_mod_converse_div(
        d + k * ni,
        ni,
        d / ni + k,
        d % ni,
    );
    lemma_sign_alt_add(d / ni, k);
    assert(sign_alt(d / ni + k) * pcoeff(y, d % ni) == sign_alt(k) * (sign_alt(d / ni) * pcoeff(
        y,
        d % ni,
    ))) by (nonlinear_arith)
        requires sign_alt(d / ni + k) == sign_alt(d / ni) * sign_alt(k);
}

/// On the stored range the extension is the coefficient itself.
proof fn lemma_next_small(y: Seq<int>, n: nat, d: int)
    requires
        n >= 1,
        0 <= d < n,
    ensures
        next_c(y, n, d) == pcoeff(y, d),
{
    vstd::arithmetic::div_mod::lemma_small_mod(d as nat, n);
    vstd::arithmetic::div_mod::lemma_basic_div_specific_divisor(n as int);
}

/// The product coefficient as a single windowed sum over the extension.
pub proof fn lemma_nmul_at_alt(x: Seq<int>, y: Seq<int>, n: nat, j: int)
    requires
        n >= 1,
    ensures
        nmul_at(x, y, n, j) == sum_range(
            0,
            n as int,
            |i: int| pcoeff(x, i) * next_c(y, n, j - i),
        ),
{
    let ni = n as int;
    let f = |i: int| pcoeff(x, i) * sum_range(0, ni, |l: int| pcoeff(y, l) * wrap_w(j - i - l, n));
    let g = |i: int| pcoeff(x, i) * next_c(y, n, j - i);
    assert forall|i: int| 0 <= i < ni implies #[trigger] f(i) == g(i) by {
        lemma_pick(y, n, j - i);
    }
    lemma_sum_eq(0, ni, f, g);
}

/// Sliding the length-`n` summation window of a product of two extensions
/// by one position at a time leaves the sum unchanged.
proof fn lemma_window_shift_prod(y: Seq<int>, z: Seq<int>, n: nat, d: int, c: int)
    requires
        n >= 1,
        c >= 0,
    ensures
        sum_range(0, n as int, |a: int| next_c(y, n, a + c) * next_c(z, n, d - (a + c)))
            == sum_range(0, n as int, |a: int| next_c(y, n, a) * next_c(z, n, d - a)),
    decreases c,
{
    let ni = n as int;
    let fc = |a: int| next_c(y, n, a + c) * next_c(z, n, d - (a + c));
    let f0 = |a: int| next_c(y, n, a) * next_c(z, n, d - a);
    if c == 0 {
        lemma_sum_eq(0, ni, fc, f0);
    } else {
        lemma_window_shift_prod(y, z, n, d, c - 1);
        let fp = |a: int| next_c(y, n, a + (c - 1)) * next_c(z, n, d - (a + (c - 1)));
        lemma_sum_split(0, 1, ni, fp);
        lemma_sum_single(0, 1, fp, 0);
        lemma_sum_shift(0, ni - 1, 1, fc, fp);
        lemma_sum_snoc(0, ni - 1, fc);
        lemma_next_antiperiodic(y, n, c - 1);
        lemma_next_antiperiodic(z, n, d - (c - 1) - ni);
        assert(fc(ni - 1) == next_c(y, n, (c - 1) + n as int) * next_c(z, n, d - (c - 1) - ni));
        assert(next_c(y, n, (c - 1) + n as int) == -next_c(y, n, c - 1));
        assert(next_c(z, n, (d - (c - 1) - ni) + n as int) == -next_c(z, n, d - (c - 1) - ni));
        assert((-next_c(y, n, c - 1)) * next_c(z, n, d - (c - 1) - ni) == next_c(y, n, c - 1) * (
        -next_c(z, n, d - (c - 1) - ni))) by (nonlinear_arith);
        assert(fc(ni - 1) == fp(0));
        assert(sum_range(0, ni, fc) == sum_range(0, ni, fp));
    }
}

/// The convolution coefficient with its index range widened to `[0, n)`.
proof fn lemma_conv_at_ext(x: Seq<int>, y: Seq<int>, n: nat, k: int)
    requires
        n >= 1,
        x.len() <= n,
    ensures
        conv_at(x, y, k) == sum_range(0, n as int, |i: int| pcoeff(x, i) * pcoeff(y, k - i)),
{
    let ni = n as int;
    let f = |i: int| pcoeff(x, i) * pcoeff(y, k - i);
    lemma_sum_split(0, x.len() as int, ni, f);
    assert forall|i: int| x.len() <= i < ni implies #[trigger] f(i) == 0 by {
        assert(pcoeff(x, i) == 0);
        assert(0int * pcoeff(y, k - i) == 0) by (nonlinear_arith);
    }
    lemma_sum_zero(x.len() as int, ni, f);
}

/// Convolution coefficients vanish outside the carrier.
proof fn lemma_conv_at_zero(x: Seq<int>, y: Seq<int>, k: int)
    requires
        k < 0 || k >= x.len() + y.len() - 1,
    ensures
        conv_at(x, y, k) == 0,
{
    let f = |i: int| pcoeff(x, i) * pcoeff(y, k - i);
    assert forall|i: int| 0 <= i < x.len() implies #[trigger] f(i) == 0 by {
        assert(pcoeff(y, k - i) == 0);
        assert(pcoeff(x, i) * 0 == 0) by (nonlinear_arith);
    }
    lemma_sum_zero(0, x.len() as int, f);
}

/// Every coefficient of the convolution, read through `pcoeff`.
proof fn lemma_conv_pcoeff(x: Seq<int>, y: Seq<int>, k: int)
    ensures
        pcoeff(conv(x, y), k) == conv_at(x, y, k),
{
    if x.len() == 0 || y.len() == 0 {
        let f = |i: int| pcoeff(x, i) * pcoeff(y, k - i);
        assert forall|i: int| 0 <= i < x.len() implies #[trigger] f(i) == 0 by {
            assert(pcoeff(y, k - i) == 0);
            assert(pcoeff(x, i) * 0 == 0) by (nonlinear_arith);
        }
        lemma_sum_zero(0, x.len() as int, f);
    } else {
        if !(0 <= k < x.len() + y.len() - 1) {
            lemma_conv_at_zero(x, y, k);
        }
    }
}

/// The extension evaluated just below the carrier: the two-term window.
proof fn lemma_next_window(y: Seq<int>, n: nat, d: int)
    requires
        n >= 1,
        y.len() <= n,
        -n < d < n,
    ensures
        next_c(y, n, d) == pcoeff(y, d) - pcoeff(y, d + n),
{
    let ni = n as int;
    if d >= 0 {
        lemma_next_small(y, n, d);
        assert(pcoeff(y, d + ni) == 0);
    } else {
        vstd::arithmetic::div_mod::lemma_fundamental_div_mod_converse_mod(d, ni, -1, d + ni);
        vstd::arithmetic::div_mod::lemma_fundamental_div_mod_converse_div(d, ni, -1, d + ni);
        assert(sign_alt(-1) == -1);
        assert(pcoeff(y, d) == 0);
        assert((-1int) * pcoeff(y, d + ni) == -pcoeff(y, d + ni)) by (nonlinear_arith);
    }
}

/// The executable pipeline (convolve, then fold modulo `x^n + 1`) computes
/// exactly the abstract negacyclic product, coefficient by coefficient.
pub proof fn lemma_red_conv_nmul(x: Seq<int>, y: Seq<int>, n: nat)
    requires
        n >= 1,
        x.len() <= n,
        y.len() <= n,
    ensures
        red(conv(x, y), n).len() <= n,
        forall|j: int| 0 <= j < n ==> #[trigger] pcoeff(red(conv(x, y), n), j) == nmul_at(
            x,
            y,
            n,
            j,
        ),
        forall|j: int| !(0 <= j < n) ==> #[trigger] pcoeff(red(conv(x, y), n), j) == 0,
        forall|j: int| 0 <= j < n ==> conv_at(x, y, j) - conv_at(x, y, j + n) == #[trigger] nmul_at(
            x,
            y,
            n,
            j,
        ),
{
    let ni = n as int;
    let cc = conv(x, y);
    assert(cc.len() <= 2 * n - 1) by {
        if x.len() != 0 && y.len() != 0 {
            assert(x.len() + y.len() - 1 <= 2 * n - 1);
        }
    }
    assert forall|j: int| 0 <= j < n implies #[trigger] pcoeff(red(cc, n), j) == conv_at(x, y, j)
        - conv_at(x, y, j + ni) by {
        if cc.len() <= n {
            lemma_conv_pcoeff(x, y, j);
            assert(conv_at(x, y, j + ni) == 0) by {
                if x.len() == 0 || y.len() == 0 {
                    lemma_conv_pcoeff(x, y, j + ni);
                } else {
                    lemma_conv_at_zero(x, y, j + ni);
                }
            }
        } else {
            assert(n >= 2) by {
                if n == 1 {
                    assert(cc.len() <= 2 * n - 1 == n);
                }
            }
            let w = fold_width(cc.len(), n);
            assert(w == 2) by {
                let r0 = cc.len() + ni - 1 - 2 * ni;
                assert(0 <= r0 < ni);
                assert(cc.len() + ni - 1 == 2 * ni + r0);
                vstd::arithmetic::div_mod::lemma_fundamental_div_mod_converse_div(
                    cc.len() + ni - 1,
                    ni,
                    2,
                    r0,
                );
            }
            let f = |m: int| sign_alt(m) * pcoeff(cc, j + m * ni);
            lemma_sum_snoc(0, 1, f);
            lemma_sum_single(0, 1, f, 0);
            assert(f(0) == 1 * pcoeff(cc, j));
            assert(f(1) == (-1int) * pcoeff(cc, j + 1 * ni));
            assert(1 * pcoeff(cc, j) == pcoeff(cc, j) && (-1int) * pcoeff(cc, j + 1 * ni)
                == -pcoeff(cc, j + 1 * ni) && 1 * ni == ni && 0 * ni == 0 && j + 0 == j)
                by (nonlinear_arith);
            assert(fold_at(cc, n, j) == pcoeff(cc, j) - pcoeff(cc, j + ni));
            lemma_conv_pcoeff(x, y, j);
            lemma_conv_pcoeff(x, y, j + ni);
        }
    }
    assert forall|j: int| 0 <= j < n implies conv_at(x, y, j) - conv_at(x, y, j + ni) == nmul_at(
        x,
        y,
        n,
        j,
    ) by {
        lemma_nmul_at_alt(x, y, n, j);
        let fa = |i: int| pcoeff(x, i) * pcoeff(y, j - i);
        let fb = |i: int| pcoeff(x, i) * pcoeff(y, j + ni - i);
        let fnb = |i: int| -(pcoeff(x, i) * pcoeff(y, j + ni - i));
        let fn_ = |i: int| pcoeff(x, i) * next_c(y, n, j - i);
        assert forall|i: int| 0 <= i < ni implies #[trigger] fn_(i) == fa(i) + fnb(i) by {
            lemma_next_window(y, n, j - i);
            assert(pcoeff(x, i) * (pcoeff(y, j - i) - pcoeff(y, j + ni - i)) == pcoeff(x, i)
                * pcoeff(y, j - i) - pcoeff(x, i) * pcoeff(y, j + ni - i)) by (nonlinear_arith);
        }
        lemma_sum_add(0, ni, fa, fnb, fn_);
        assert forall|i: int| 0 <= i < ni implies #[trigger] fnb(i) == (-1int) * fb(i) by {
            assert(-(pcoeff(x, i) * pcoeff(y, j + ni - i)) == (-1int) * (pcoeff(x, i) * pcoeff(
                y,
                j + ni - i,
            ))) by (nonlinear_arith);
        }
        lemma_sum_scale(0, ni, -1, fb, fnb);
        lemma_conv_at_ext(x, y, n, j);
        lemma_conv_at_ext(x, y, n, j + ni);
        assert((-1int) * sum_range(0, ni, fb) == -sum_range(0, ni, fb)) by (nonlinear_arith);
    }
    assert forall|j: int| !(0 <= j < n) implies #[trigger] pcoeff(red(cc, n), j) == 0 by {
        if cc.len() <= n {
            lemma_conv_pcoeff(x, y, j);
            if x.len() != 0 && y.len() != 0 && 0 <= j {
                lemma_conv_at_zero(x, y, j);
            }
        }
    }
}

/// The negacyclic product is commutative.
pub proof fn lemma_nmul_comm(x: Seq<int>, y: Seq<int>, n: nat, j: int)
    requires
        n >= 1,
    ensures
        nmul_at(x, y, n, j) == nmul_at(y, x, n, j),
{
    let ni = n as int;
    let ff = |i: int, l: int| pcoeff(x, i) * (pcoeff(y, l) * wrap_w(j - i - l, n));
    let lrow = |i: int| sum_range(0, ni, |l: int| ff(i, l));
    let lterm = |i: int| pcoeff(x, i) * sum_range(0, ni, |l: int| pcoeff(y, l) * wrap_w(j - i - l, n));
    assert forall|i: int| 0 <= i < ni implies #[trigger] lterm(i) == lrow(i) by {
        lemma_sum_scale(
            0,
            ni,
            pcoeff(x, i),
            |l: int| pcoeff(y, l) * wrap_w(j - i - l, n),
            |l: int| ff(i, l),
        );
    }
    lemma_sum_eq(0, ni, lterm, lrow);
    lemma_sum_swap(ni, ni, ff);
    let gg = |l: int, i: int| pcoeff(y, l) * (pcoeff(x, i) * wrap_w(j - l - i, n));
    let grow = |l: int| sum_range(0, ni, |i: int| gg(l, i));
    let gterm = |l: int| pcoeff(y, l) * sum_range(0, ni, |i: int| pcoeff(x, i) * wrap_w(j - l - i, n));
    assert forall|l: int| 0 <= l < ni implies #[trigger] gterm(l) == grow(l) by {
        lemma_sum_scale(
            0,
            ni,
            pcoeff(y, l),
            |i: int| pcoeff(x, i) * wrap_w(j - l - i, n),
            |i: int| gg(l, i),
        );
    }
    lemma_sum_eq(0, ni, gterm, grow);
    let swapped = |l: int| sum_range(0, ni, |i: int| ff(i, l));
    assert forall|l: int| 0 <= l < ni implies #[trigger] swapped(l) == grow(l) by {
        assert forall|i: int| 0 <= i < ni implies #[trigger] ff(i, l) == gg(l, i) by {
            assert(j - i - l == j - l - i);
            assert(pcoeff(x, i) * (pcoeff(y, l) * wrap_w(j - i - l, n)) == pcoeff(y, l) * (pcoeff(
                x,
                i,
            ) * wrap_w(j - i - l, n))) by (nonlinear_arith);
        }
        lemma_sum_eq(0, ni, |i: int| ff(i, l), |i: int| gg(l, i));
    }
    lemma_sum_eq(0, ni, swapped, grow);
}

/// The negacyclic product distributes over coefficient-wise sums.
pub proof fn lemma_nmul_dist(x: Seq<int>, y: Seq<int>, z: Seq<int>, s: Seq<int>, n: nat, j: int)
    requires
        n >= 1,
        forall|d: int| #[trigger] pcoeff(s, d) == pcoeff(y, d) + pcoeff(z, d),
    ensures
        nmul_at(x, s, n, j) == nmul_at(x, y, n, j) + nmul_at(x, z, n, j),
{
    let ni = n as int;
    lemma_nmul_at_alt(x, s, n, j);
    lemma_nmul_at_alt(x, y, n, j);
    lemma_nmul_at_alt(x, z, n, j);
    let fs = |i: int| pcoeff(x, i) * next_c(s, n, j - i);
    let fy = |i: int| pcoeff(x, i) * next_c(y, n, j - i);
    let fz = |i: int| pcoeff(x, i) * next_c(z, n, j - i);
    assert forall|i: int| 0 <= i < ni implies #[trigger] fs(i) == fy(i) + fz(i) by {
        let d = j - i;
        assert(pcoeff(s, d % ni) == pcoeff(y, d % ni) + pcoeff(z, d % ni));
        assert(sign_alt(d / ni) * (pcoeff(y, d % ni) + pcoeff(z, d % ni)) == sign_alt(d / ni)
            * pcoeff(y, d % ni) + sign_alt(d / ni) * pcoeff(z, d % ni)) by (nonlinear_arith);
        assert(pcoeff(x, i) * (next_c(y, n, d) + next_c(z, n, d)) == pcoeff(x, i) * next_c(y, n, d)
            + pcoeff(x, i) * next_c(z, n, d)) by (nonlinear_arith);
    }
    lemma_sum_add(0, ni, fy, fz, fs);
}

/// The negacyclic product respects congruence modulo `q` in its left factor.
pub proof fn lemma_nmul_congruent(
    x: Seq<int>,
    x2: Seq<int>,
    y: Seq<int>,
    n: nat,
    j: int,
    q: int,
)
    requires
        n >= 1,
        q >= 1,
        forall|d: int| #[trigger] pcoeff(x, d) % q == #[trigger] pcoeff(x2, d) % q,
    ensures
        nmul_at(x, y, n, j) % q == nmul_at(x2, y, n, j) % q,
{
    let ni = n as int;
    lemma_nmul_at_alt(x, y, n, j);
    lemma_nmul_at_alt(x2, y, n, j);
    let f1 = |i: int| pcoeff(x, i) * next_c(y, n, j - i);
    let f2 = |i: int| pcoeff(x2, i) * next_c(y, n, j - i);
    assert forall|i: int| 0 <= i < ni implies #[trigger] f1(i) % q == #[trigger] f2(i) % q by {
        let c = next_c(y, n, j - i);
        vstd::arithmetic::div_mod::lemma_mul_mod_noop_left(pcoeff(x, i), c, q);
        vstd::arithmetic::div_mod::lemma_mul_mod_noop_left(pcoeff(x2, i), c, q);
    }
    lemma_sum_mod(0, ni, f1, f2, q);
}

/// Magnitude of a product coefficient: at most `n` products of two bounds.
pub proof fn lemma_nmul_bound(x: Seq<int>, y: Seq<int>, n: nat, j: int, bx: int, by: int)
    requires
        n >= 1,
        0 <= bx,
        0 <= by,
        forall|d: int| -bx <= #[trigger] pcoeff(x, d) <= bx,
        forall|d: int| -by <= #[trigger] pcoeff(y, d) <= by,
    ensures
        -(n as int * (bx * by)) <= nmul_at(x, y, n, j) <= n as int * (bx * by),
{
    let ni = n as int;
    lemma_nmul_at_alt(x, y, n, j);
    let f = |i: int| pcoeff(x, i) * next_c(y, n, j - i);
    assert forall|i: int| 0 <= i < ni implies -(bx * by) <= #[trigger] f(i) <= bx * by by {
        let d = j - i;
        let c = next_c(y, n, d);
        assert(-by <= pcoeff(y, d % ni) <= by);
        assert(-by <= c <= by) by (nonlinear_arith)
            requires
                c == sign_alt(d / ni) * pcoeff(y, d % ni),
                sign_alt(d / ni) == 1 || sign_alt(d / ni) == -1,
                -by <= pcoeff(y, d % ni) <= by,
        ;
        assert(-(bx * by) <= pcoeff(x, i) * c <= bx * by) by (nonlinear_arith)
            requires -bx <= pcoeff(x, i) <= bx, -by <= c <= by, 0 <= bx, 0 <= by,
        ;
    }
    assert(0 <= bx * by) by (nonlinear_arith)
        requires 0 <= bx, 0 <= by;
    lemma_sum_bound(0, ni, f, bx * by);
    assert((-(ni)) * (bx * by) == -(ni * (bx * by))) by (nonlinear_arith);
}

/// Negating one factor negates the product.
pub proof fn lemma_nmul_neg(x: Seq<int>, xn: Seq<int>, y: Seq<int>, n: nat, j: int)
    requires
        n >= 1,
        forall|d: int| #[trigger] pcoeff(xn, d) == -pcoeff(x, d),
    ensures
        nmul_at(xn, y, n, j) == -nmul_at(x, y, n, j),
{
    let ni = n as int;
    lemma_nmul_at_alt(x, y, n, j);
    lemma_nmul_at_alt(xn, y, n, j);
    let f = |i: int| pcoeff(x, i) * next_c(y, n, j - i);
    let g = |i: int| pcoeff(xn, i) * next_c(y, n, j - i);
    assert forall|i: int| 0 <= i < ni implies #[trigger] g(i) == (-1int) * f(i) by {
        assert((-pcoeff(x, i)) * next_c(y, n, j - i) == (-1int) * (pcoeff(x, i) * next_c(
            y,
            n,
            j - i,
        ))) by (nonlinear_arith);
    }
    lemma_sum_scale(0, ni, -1, f, g);
    assert((-1int) * sum_range(0, ni, f) == -sum_range(0, ni, f)) by (nonlinear_arith);
}

/// Scaling one factor scales the product.
pub proof fn lemma_nmul_scale(x: Seq<int>, xs: Seq<int>, y: Seq<int>, n: nat, j: int, c: int)
    requires
        n >= 1,
        forall|d: int| #[trigger] pcoeff(xs, d) == c * pcoeff(x, d),
    ensures
        nmul_at(xs, y, n, j) == c * nmul_at(x, y, n, j),
{
    let ni = n as int;
    lemma_nmul_at_alt(x, y, n, j);
    lemma_nmul_at_alt(xs, y, n, j);
    let f = |i: int| pcoeff(x, i) * next_c(y, n, j - i);
    let g = |i: int| pcoeff(xs, i) * next_c(y, n, j - i);
    assert forall|i: int| 0 <= i < ni implies #[trigger] g(i) == c * f(i) by {
        assert((c * pcoeff(x, i)) * next_c(y, n, j - i) == c * (pcoeff(x, i) * next_c(
            y,
            n,
            j - i,
        ))) by (nonlinear_arith);
    }
    lemma_sum_scale(0, ni, c, f, g);
}

/// The product as a sequence is symmetric in its factors.
pub proof fn lemma_nmul_comm_seq(x: Seq<int>, y: Seq<int>, n: nat)
    requires
        n >= 1,
    ensures
        nmul(x, y, n) == nmul(y, x, n),
{
    assert forall|j: int| 0 <= j < n implies #[trigger] (nmul(x, y, n)[j]) == nmul(y, x, n)[j] by {
        lemma_nmul_comm(x, y, n, j);
    }
    assert(nmul(x, y, n) =~= nmul(y, x, n));
}

/// Associativity at the level of whole sequences.
pub proof fn lemma_nmul_assoc_seq(x: Seq<int>, y: Seq<int>, z: Seq<int>, n: nat)
    requires
        n >= 1,
        y.len() <= n,
    ensures
        nmul(nmul(x, y, n), z, n) == nmul(x, nmul(y, z, n), n),
{
    assert forall|j: int| 0 <= j < n implies #[trigger] (nmul(nmul(x, y, n), z, n)[j]) == nmul(
        x,
        nmul(y, z, n),
        n,
    )[j] by {
        lemma_nmul_assoc(x, y, z, n, j);
    }
    assert(nmul(nmul(x, y, n), z, n) =~= nmul(x, nmul(y, z, n), n));
}

/// The negacyclic product is associative.
pub proof fn lemma_nmul_assoc(x: Seq<int>, y: Seq<int>, z: Seq<int>, n: nat, j: int)
    requires
        n >= 1,
        y.len() <= n,
    ensures
        nmul_at(nmul(x, y, n), z, n, j) == nmul_at(x, nmul(y, z, n), n, j),
{
    let ni = n as int;
    let aa = nmul(x, y, n);
    let bb = nmul(y, z, n);
    lemma_nmul_at_alt(aa, z, n, j);
    lemma_nmul_at_alt(x, bb, n, j);
    // Flatten the left-hand side into a double sum.
    let ff = |a: int, i: int| pcoeff(x, i) * (next_c(y, n, a - i) * next_c(z, n, j - a));
    let lterm = |a: int| pcoeff(aa, a) * next_c(z, n, j - a);
    let lrow = |a: int| sum_range(0, ni, |i: int| ff(a, i));
    assert forall|a: int| 0 <= a < ni implies #[trigger] lterm(a) == lrow(a) by {
        lemma_nmul_at_alt(x, y, n, a);
        assert(pcoeff(aa, a) == sum_range(0, ni, |i: int| pcoeff(x, i) * next_c(y, n, a - i)));
        let zc = next_c(z, n, j - a);
        let g = |i: int| pcoeff(x, i) * next_c(y, n, a - i);
        let gz = |i: int| zc * (pcoeff(x, i) * next_c(y, n, a - i));
        lemma_sum_scale(0, ni, zc, g, gz);
        assert forall|i: int| 0 <= i < ni implies #[trigger] (ff(a, i)) == gz(i) by {
            assert(pcoeff(x, i) * (next_c(y, n, a - i) * zc) == zc * (pcoeff(x, i) * next_c(
                y,
                n,
                a - i,
            ))) by (nonlinear_arith);
        }
        lemma_sum_eq(0, ni, |i: int| ff(a, i), gz);
        assert(pcoeff(aa, a) * zc == zc * pcoeff(aa, a)) by (nonlinear_arith);
    }
    lemma_sum_eq(0, ni, lterm, lrow);
    lemma_sum_swap(ni, ni, ff);
    // For each i, the inner window is the extension of the product of y and z.
    let rterm = |i: int| pcoeff(x, i) * next_c(bb, n, j - i);
    let rrow = |i: int| sum_range(0, ni, |a: int| ff(a, i));
    assert forall|i: int| 0 <= i < ni implies #[trigger] rrow(i) == rterm(i) by {
        let d = j - i;
        let shift = ni * i - i;
        assert(shift >= 0) by (nonlinear_arith)
            requires ni >= 1, 0 <= i, shift == ni * i - i;
        // Pull the constant factor out of the row.
        let g1 = |a: int| next_c(y, n, a - i) * next_c(z, n, j - a);
        let g1x = |a: int| pcoeff(x, i) * (next_c(y, n, a - i) * next_c(z, n, j - a));
        lemma_sum_scale(0, ni, pcoeff(x, i), g1, g1x);
        assert forall|a: int| 0 <= a < ni implies #[trigger] (ff(a, i)) == g1x(a) by {
        }
        lemma_sum_eq(0, ni, |a: int| ff(a, i), g1x);
        assert(rrow(i) == pcoeff(x, i) * sum_range(0, ni, g1));
        // Slide the window by a whole number of periods to start at zero.
        let g2 = |a: int| next_c(y, n, a + shift) * next_c(z, n, d - (a + shift));
        assert forall|a: int| 0 <= a < ni implies #[trigger] g2(a) == g1(a) by {
            lemma_next_multiple(y, n, a - i, i);
            assert((a - i) + i * ni == a + shift) by (nonlinear_arith)
                requires shift == ni * i - i;
            lemma_next_multiple(z, n, d - (a + shift), i);
            assert((d - (a + shift)) + i * ni == d - (a - i)) by (nonlinear_arith)
                requires shift == ni * i - i;
            assert(j - a == d - (a - i));
            lemma_sign_alt_add(i, i);
            assert(sign_alt(i) * sign_alt(i) == 1) by (nonlinear_arith)
                requires sign_alt(i) == 1 || sign_alt(i) == -1;
            let sy = next_c(y, n, a - i);
            let sz = next_c(z, n, d - (a + shift));
            assert(next_c(y, n, a + shift) == sign_alt(i) * sy);
            assert(next_c(z, n, d - (a - i)) == sign_alt(i) * sz);
            assert((sign_alt(i) * sy) * sz == sy * (sign_alt(i) * sz)) by (nonlinear_arith);
            assert(sy * (sign_alt(i) * sz) == sy * next_c(z, n, d - (a - i)));
        }
        lemma_sum_eq(0, ni, g2, g1);
        lemma_window_shift_prod(y, z, n, d, shift);
        let g0 = |a: int| next_c(y, n, a) * next_c(z, n, d - a);
        assert(sum_range(0, ni, g1) == sum_range(0, ni, g0));
        // The base window is one coefficient of the product, up to the sign
        // of the period that `d` lies in.
        let k0 = d / ni;
        let e0 = d % ni;
        vstd::arithmetic::div_mod::lemma_fundamental_div_mod(d, ni);
        vstd::arithmetic::div_mod::lemma_mod_bound(d, ni);
        let g3 = |a: int| next_c(y, n, a) * next_c(z, n, e0 - a);
        assert forall|a: int| 0 <= a < ni implies #[trigger] g0(a) == sign_alt(k0) * g3(a) by {
            assert((e0 - a) + k0 * ni == d - a) by (nonlinear_arith)
                requires d == ni * k0 + e0;
            lemma_next_multiple(z, n, e0 - a, k0);
            assert(next_c(y, n, a) * (sign_alt(k0) * next_c(z, n, e0 - a)) == sign_alt(k0) * (
            next_c(y, n, a) * next_c(z, n, e0 - a))) by (nonlinear_arith);
        }
        lemma_sum_scale(0, ni, sign_alt(k0), g3, g0);
        // And that coefficient is the product coefficient at e0.
        lemma_nmul_at_alt(y, z, n, e0);
        let g4 = |a: int| pcoeff(y, a) * next_c(z, n, e0 - a);
        assert forall|a: int| 0 <= a < ni implies #[trigger] g3(a) == g4(a) by {
            lemma_next_small(y, n, a);
        }
        lemma_sum_eq(0, ni, g3, g4);
        assert(pcoeff(bb, e0) == nmul_at(y, z, n, e0));
        assert(sum_range(0, ni, g3) == pcoeff(bb, e0));
        assert(next_c(bb, n, d) == sign_alt(k0) * pcoeff(bb, e0));
        assert(rrow(i) == pcoeff(x, i) * (sign_alt(k0) * pcoeff(bb, e0))) by (nonlinear_arith)
            requires
                rrow(i) == pcoeff(x, i) * sum_range(0, ni, g1),
                sum_range(0, ni, g1) == sign_alt(k0) * pcoeff(bb, e0),
        ;
    }
    lemma_sum_eq(0, ni, rrow, rterm);
}

} // verus!

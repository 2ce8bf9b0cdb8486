//! Fast multiplication in `Z_q[x]/(x^n + 1)` through the number-theoretic
//! transform of the `ntt` crate, proved to agree with the schoolbook
//! `polymul` whenever `omega` is a primitive `2n`-th root of unity mod `q`.

use vstd::prelude::*;
use crate::sums::{sum_range, lemma_sum_eq, lemma_sum_zero, lemma_sum_single, lemma_sum_split,
    lemma_sum_mod, lemma_sum_snoc, lemma_sum_bound};
use crate::poly::{Poly, pcoeff, to_ints, conv, conv_at, red, fold_at, fold_width, sign_alt,
    centered, modc_seq, trim, mul_spec, rem_spec, modc_spec, bounded, lemma_centered,
    lemma_trim_pcoeff, lemma_padded_eq_trim, lemma_trim_modc_absorb, polyrem, mod_coeffs};
use crate::ring::{nmul_at, lemma_red_conv_nmul};

verus! {

/// `b^e` modulo `m`, with every intermediate value reduced.
pub open spec fn pow_mod(b: int, e: nat, m: int) -> int
    decreases e,
{
    if e == 0 {
        1int % m
    } else {
        (b * pow_mod(b, (e - 1) as nat, m)) % m
    }
}

/// Whether `n` is a power of two.
pub open spec fn is_pow2(n: nat) -> bool
    decreases n,
{
    if n == 0 {
        false
    } else if n == 1 {
        true
    } else {
        n % 2 == 0 && is_pow2(n / 2)
    }
}

/// No integer in `[2, d]` divides `n`.
pub open spec fn no_factor_upto(n: int, d: int) -> bool
    decreases d,
{
    if d < 2 {
        true
    } else {
        n % d != 0 && no_factor_upto(n, d - 1)
    }
}

/// Primality of an integer.
pub open spec fn is_prime(n: int) -> bool {
    n >= 2 && forall|d: int| 2 <= d < n ==> #[trigger] (n % d) != 0
}

/// Unfolds the factor-free range check into individual facts.
proof fn lemma_no_factor_upto(n: int, d: int)
    requires
        no_factor_upto(n, d),
    ensures
        forall|e: int| 2 <= e <= d ==> #[trigger] (n % e) != 0,
    decreases d,
{
    if d >= 2 {
        lemma_no_factor_upto(n, d - 1);
    }
}

/// Trial division up to a square root proves primality.
pub proof fn lemma_prime_by_trial(n: int, k: int)
    requires
        n >= 2,
        k >= 1,
        (k + 1) * (k + 1) > n,
        no_factor_upto(n, k),
    ensures
        is_prime(n),
{
    lemma_no_factor_upto(n, k);
    assert forall|d: int| 2 <= d < n implies #[trigger] (n % d) != 0 by {
        if n % d == 0 {
            assert(2 <= d <= k ==> n % d != 0);
            assert(d > k);
            vstd::arithmetic::div_mod::lemma_fundamental_div_mod(n, d);
            let e = n / d;
            vstd::arithmetic::div_mod::lemma_div_pos_is_pos(n, d);
            assert(n == d * e);
            assert(e >= 2) by (nonlinear_arith)
                requires n == d * e, 2 <= d < n, e >= 0;
            assert(e <= k) by (nonlinear_arith)
                requires n == d * e, d >= k + 1, e >= 2, (k + 1) * (k + 1) > n, k >= 1;
            assert(n % e == 0) by {
                vstd::arithmetic::div_mod::lemma_mod_multiples_basic(d, e);
                assert(d * e == e * d) by (nonlinear_arith);
            }
        }
    }
}

/// The cyclic convolution of two length-`n` sequences, coefficient `k`.
pub open spec fn cconv_at(a: Seq<int>, b: Seq<int>, n: nat, k: int) -> int {
    sum_range(0, n as int, |i: int| pcoeff(a, i) * pcoeff(b, (k - i) % n as int))
}

/// Relies on `ntt::omega`: for a prime modulus `p` it computes a primitive
/// root `g` of `p` and returns `g^((p-1)/n) mod p`, a primitive `n`-th root
/// of unity; for even `n` its `n/2`-th power is therefore `-1 mod p`.
#[verifier::external_body]
pub(crate) fn ntt_omega(modulus: i64, n: usize) -> (r: i64)
    requires
        is_prime(modulus as int),
        modulus >= 3,
        n >= 2,
        n % 2 == 0,
        (modulus - 1) % (n as int) == 0,
        (modulus - 1) * (modulus - 1) <= 0x7fff_ffff_ffff_ffff,
    ensures
        1 <= r < modulus,
        pow_mod(r as int, (n / 2) as nat, modulus as int) == modulus - 1,
{
    ntt::omega(modulus, n)
}

/// Relies on `ntt::polymul_ntt`: a radix-2 decimation NTT, pointwise
/// products, and the inverse transform, all in arithmetic that keeps every
/// value congruent modulo `p` and below `p` in magnitude; with `omega` a
/// primitive `n`-th root of unity mod `p` (odd `p`, `n` a power of two) the
/// result is the cyclic convolution of the inputs modulo `p`.
#[verifier::external_body]
fn ntt_polymul(a: &Vec<i64>, b: &Vec<i64>, n: usize, p: i64, omega: i64) -> (r: Vec<i64>)
    requires
        a@.len() == n,
        b@.len() == n,
        n >= 2,
        is_pow2(n as nat),
        p >= 3,
        p % 2 == 1,
        (p - 1) * (p - 1) <= 0x7fff_ffff_ffff_ffff,
        bounded(to_ints(a@), (p - 1) as int),
        bounded(to_ints(b@), (p - 1) as int),
        1 <= omega < p,
        pow_mod(omega as int, (n / 2) as nat, p as int) == p - 1,
    ensures
        r@.len() == n,
        forall|k: int|
            0 <= k < n ==> -p < #[trigger] (r@[k]) < p && (r@[k] as int - cconv_at(
                to_ints(a@),
                to_ints(b@),
                n as nat,
                k,
            )) % (p as int) == 0,
{
    ntt::polymul_ntt(a.as_slice(), b.as_slice(), n, p, omega)
}

/// Coefficient `j` of a fold is the alternating fold sum, whatever the
/// length of the carrier.
proof fn lemma_red_pcoeff(s: Seq<int>, n: nat, j: int)
    requires
        n >= 1,
        0 <= j < n,
    ensures
        pcoeff(red(s, n), j) == fold_at(s, n, j),
{
    let ni = n as int;
    let w = fold_width(s.len(), n);
    let f = |m: int| sign_alt(m) * pcoeff(s, j + m * ni);
    if s.len() <= n {
        if s.len() == 0 {
            assert(w == 0) by {
                assert((ni - 1) / ni == 0) by {
                    vstd::arithmetic::div_mod::lemma_basic_div_specific_divisor(ni);
                }
            }
        } else {
            assert(w == 1) by {
                let r0 = s.len() + ni - 1 - ni;
                assert(0 <= r0 < ni);
                vstd::arithmetic::div_mod::lemma_fundamental_div_mod_converse_div(
                    s.len() + ni - 1,
                    ni,
                    1,
                    r0,
                );
            }
            lemma_sum_single(0, 1, f, 0);
            assert(f(0) == 1 * pcoeff(s, j + 0 * ni));
            assert(1 * pcoeff(s, j + 0 * ni) == pcoeff(s, j) && j + 0 * ni == j)
                by (nonlinear_arith);
        }
    }
}

/// Folding ignores trailing zeros of the carrier.
proof fn lemma_fold_at_trim(s: Seq<int>, n: nat, j: int)
    requires
        n >= 1,
        0 <= j < n,
    ensures
        fold_at(trim(s), n, j) == fold_at(s, n, j),
{
    let ni = n as int;
    lemma_trim_pcoeff(s);
    let w1 = fold_width(trim(s).len(), n);
    let w2 = fold_width(s.len(), n);
    let f1 = |m: int| sign_alt(m) * pcoeff(trim(s), j + m * ni);
    let f2 = |m: int| sign_alt(m) * pcoeff(s, j + m * ni);
    assert(w1 <= w2) by {
        vstd::arithmetic::div_mod::lemma_div_is_ordered(
            trim(s).len() + ni - 1,
            s.len() + ni - 1,
            ni,
        );
    }
    assert(0 <= w1) by {
        vstd::arithmetic::div_mod::lemma_div_pos_is_pos(trim(s).len() + ni - 1, ni);
    }
    assert forall|m: int| 0 <= m < w2 implies #[trigger] f1(m) == f2(m) by {
        assert(pcoeff(trim(s), j + m * ni) == pcoeff(s, j + m * ni));
    }
    lemma_sum_eq(0, w1, f1, f2);
    lemma_sum_split(0, w1, w2, f2);
    assert(w1 * ni >= trim(s).len() + ni - 1 - (ni - 1)) by {
        vstd::arithmetic::div_mod::lemma_fundamental_div_mod(trim(s).len() + ni - 1, ni);
        vstd::arithmetic::div_mod::lemma_mod_bound(trim(s).len() + ni - 1, ni);
        assert(ni * w1 == w1 * ni) by (nonlinear_arith);
    }
    assert forall|m: int| w1 <= m < w2 implies #[trigger] f2(m) == 0 by {
        assert(j + m * ni >= trim(s).len()) by (nonlinear_arith)
            requires
                m >= w1,
                w1 == (trim(s).len() + ni - 1) as int / ni,
                ni >= 1,
                j >= 0,
                w1 * ni >= trim(s).len() + ni - 1 - (ni - 1),
        ;
        assert(pcoeff(s, j + m * ni) == pcoeff(trim(s), j + m * ni));
        assert(sign_alt(m) * 0 == 0) by (nonlinear_arith);
    }
    lemma_sum_zero(w1, w2, f2);
}

/// A magnitude bound carries through the fold.
pub proof fn lemma_red_bound(s: Seq<int>, n: nat, b: int)
    requires
        n >= 1,
        0 <= b,
        bounded(s, b),
    ensures
        bounded(red(s, n), (s.len() + 1) as int * b),
{
    let ni = n as int;
    let len = s.len() as int;
    assert forall|j: int| 0 <= j < red(s, n).len() implies -((len + 1) * b) <= #[trigger] (red(
        s,
        n,
    )[j]) <= (len + 1) * b by {
        if s.len() <= n {
            assert(-b <= s[j] <= b);
            assert(b <= (len + 1) * b) by (nonlinear_arith)
                requires 0 <= b, len >= 0;
        } else {
            let w = fold_width(s.len(), n);
            let f = |m: int| sign_alt(m) * pcoeff(s, j + m * ni);
            assert forall|m: int| 0 <= m < w implies -b <= #[trigger] f(m) <= b by {
                let v = pcoeff(s, j + m * ni);
                assert(-b <= v <= b);
                assert(sign_alt(m) * v == v || sign_alt(m) * v == -v) by (nonlinear_arith);
            }
            assert(0 <= w <= len) by {
                vstd::arithmetic::div_mod::lemma_div_pos_is_pos(len + ni - 1, ni);
                assert(len + ni - 1 <= len * ni + ni - 1) by (nonlinear_arith)
                    requires len >= 1, ni >= 1;
                vstd::arithmetic::div_mod::lemma_div_is_ordered(
                    len + ni - 1,
                    len * ni + ni - 1,
                    ni,
                );
                vstd::arithmetic::div_mod::lemma_fundamental_div_mod_converse_div(
                    len * ni + ni - 1,
                    ni,
                    len,
                    ni - 1,
                );
            }
            lemma_sum_bound(0, w, f, b);
            assert(w * b <= (len + 1) * b && (-w) * b >= -((len + 1) * b) && (-w) * b == -(w * b))
                by (nonlinear_arith)
                requires 0 <= w <= len, 0 <= b;
        }
    }
}

/// The product of `x` and `y` in `Z_q[x]/(f)` for `f = x^n + 1`, computed by
/// transforming zero-padded copies of the operands, multiplying pointwise,
/// and transforming back; it returns exactly what `polymul` returns.
pub fn polymul_fast(x: &Poly, y: &Poly, q: i64, f: &Poly, omega: i64) -> (r: Poly)
    requires
        f@.len() >= 2,
        is_pow2((f@.len() - 1) as nat),
        2 * (f@.len() - 1) < 0x8000_0000,
        x@.len() <= f@.len() - 1,
        y@.len() <= f@.len() - 1,
        q >= 3,
        q % 2 == 1,
        (q - 1) * (q - 1) <= 0x7fff_ffff_ffff_ffff,
        bounded(x@, (q - 1) as int),
        bounded(y@, (q - 1) as int),
        1 <= omega < q,
        pow_mod(omega as int, (f@.len() - 1) as nat, q as int) == q - 1,
    ensures
        r@ == mul_spec(x@, y@, q as int, (f@.len() - 1) as nat),
{
    let ghost n = (f@.len() - 1) as nat;
    let nn: usize = f.len() - 1;
    let n2: usize = 2 * nn;
    let mut xp: Vec<i64> = Vec::new();
    let mut i: usize = 0;
    let xv = x.coeffs();
    while i < n2
        invariant
            n2 == 2 * nn,
            to_ints(xv@) == x@,
            x@.len() <= nn,
            i <= n2,
            xp@.len() == i,
            forall|k: int| 0 <= k < i ==> (#[trigger] xp@[k]) as int == pcoeff(x@, k),
        decreases n2 - i,
    {
        if i < xv.len() {
            proof {
                assert(x@[i as int] == xv@[i as int] as int);
            }
            xp.push(xv[i]);
        } else {
            xp.push(0);
        }
        i = i + 1;
    }
    let mut yp: Vec<i64> = Vec::new();
    let mut i2: usize = 0;
    let yv = y.coeffs();
    while i2 < n2
        invariant
            n2 == 2 * nn,
            to_ints(yv@) == y@,
            y@.len() <= nn,
            i2 <= n2,
            yp@.len() == i2,
            forall|k: int| 0 <= k < i2 ==> (#[trigger] yp@[k]) as int == pcoeff(y@, k),
        decreases n2 - i2,
    {
        if i2 < yv.len() {
            proof {
                assert(y@[i2 as int] == yv@[i2 as int] as int);
            }
            yp.push(yv[i2]);
        } else {
            yp.push(0);
        }
        i2 = i2 + 1;
    }
    proof {
        assert forall|k: int| #[trigger] pcoeff(to_ints(xp@), k) == pcoeff(x@, k) by {
            if 0 <= k < xp@.len() {
                assert(to_ints(xp@)[k] == xp@[k] as int);
            }
        }
        assert forall|k: int| #[trigger] pcoeff(to_ints(yp@), k) == pcoeff(y@, k) by {
            if 0 <= k < yp@.len() {
                assert(to_ints(yp@)[k] == yp@[k] as int);
            }
        }
        assert(is_pow2((n2) as nat)) by {
            assert((2 * n) % 2 == 0 && (2 * n) / 2 == n) by {
                vstd::arithmetic::div_mod::lemma_fundamental_div_mod_converse_div(
                    2 * n as int,
                    2,
                    n as int,
                    0,
                );
                vstd::arithmetic::div_mod::lemma_fundamental_div_mod_converse_mod(
                    2 * n as int,
                    2,
                    n as int,
                    0,
                );
            }
        }
        assert(bounded(to_ints(xp@), (q - 1) as int)) by {
            assert forall|k: int| 0 <= k < to_ints(xp@).len() implies -((q - 1) as int) <= #[trigger] (
            to_ints(xp@)[k]) <= (q - 1) as int by {
                assert(to_ints(xp@)[k] == pcoeff(x@, k));
            }
        }
        assert(bounded(to_ints(yp@), (q - 1) as int)) by {
            assert forall|k: int| 0 <= k < to_ints(yp@).len() implies -((q - 1) as int) <= #[trigger] (
            to_ints(yp@)[k]) <= (q - 1) as int by {
                assert(to_ints(yp@)[k] == pcoeff(y@, k));
            }
        }
        assert((n2 / 2) as nat == n) by {
            vstd::arithmetic::div_mod::lemma_fundamental_div_mod_converse_div(
                2 * n as int,
                2,
                n as int,
                0,
            );
        }
    }
    let w = ntt_polymul(&xp, &yp, n2, q, omega);
    // The cyclic convolution at double length is the plain convolution.
    proof {
        lemma_cconv_is_conv(x@, y@, n, to_ints(xp@), to_ints(yp@));
        assert forall|k: int| 0 <= k < n2 implies (#[trigger] (to_ints(w@)[k]) - conv_at(
            x@,
            y@,
            k,
        )) % (q as int) == 0 by {
            assert(to_ints(w@)[k] == w@[k] as int);
            assert((w@[k] as int - cconv_at(to_ints(xp@), to_ints(yp@), (2 * n) as nat, k)) % (
            q as int) == 0);
        }
    }
    let wp = Poly::new(w);
    proof {
        lemma_trim_pcoeff(to_ints(w@));
        assert(bounded(red(wp@, n), 0x7fff_ffff_ffff_ffff)) by {
            assert(bounded(wp@, (q - 1) as int)) by {
                assert forall|k: int| 0 <= k < wp@.len() implies -((q - 1) as int) <= #[trigger] (
                wp@[k]) <= (q - 1) as int by {
                    assert(pcoeff(wp@, k) == pcoeff(to_ints(w@), k));
                    assert(to_ints(w@)[k] == w@[k] as int);
                }
            }
            lemma_red_bound(wp@, n, (q - 1) as int);
            assert(wp@.len() <= to_ints(w@).len());
            assert(wp@.len() < 0x8000_0000);
            assert forall|k: int| 0 <= k < red(wp@, n).len() implies -0x7fff_ffff_ffff_ffff
                <= #[trigger] (red(wp@, n)[k]) <= 0x7fff_ffff_ffff_ffff by {
                assert((q - 1) as int <= 0xB504_F333) by (nonlinear_arith)
                    requires 3 <= q, (q - 1) * (q - 1) <= 0x7fff_ffff_ffff_ffff;
                assert((wp@.len() + 1) as int * (q - 1) as int <= 0x7fff_ffff_ffff_ffff)
                    by (nonlinear_arith)
                    requires
                        wp@.len() < 0x8000_0000,
                        3 <= q,
                        (q - 1) as int <= 0xB504_F333,
                ;
            }
        }
    }
    let rr = polyrem(wp, f);
    let res = mod_coeffs(rr, q);
    proof {
        lemma_fast_matches(x@, y@, n, to_ints(w@), q as int);
        assert(res@ == trim(modc_seq(trim(red(trim(to_ints(w@)), n)), q as int)));
        assert(res@ == mul_spec(x@, y@, q as int, n));
    }
    res
}

/// At double length the cyclic convolution has no wrap-around: it equals the
/// plain convolution of the unpadded operands.
proof fn lemma_cconv_is_conv(x: Seq<int>, y: Seq<int>, n: nat, xp: Seq<int>, yp: Seq<int>)
    requires
        n >= 1,
        x.len() <= n,
        y.len() <= n,
        forall|k: int| #[trigger] pcoeff(xp, k) == pcoeff(x, k),
        forall|k: int| #[trigger] pcoeff(yp, k) == pcoeff(y, k),
    ensures
        forall|k: int| 0 <= k < 2 * n ==> #[trigger] cconv_at(xp, yp, 2 * n, k) == conv_at(
            x,
            y,
            k,
        ),
{
    let ni = n as int;
    let m = 2 * ni;
    assert forall|k: int| 0 <= k < m implies #[trigger] cconv_at(xp, yp, 2 * n, k) == conv_at(
        x,
        y,
        k,
    ) by {
        let fc = |i: int| pcoeff(xp, i) * pcoeff(yp, (k - i) % m);
        let fp = |i: int| pcoeff(x, i) * pcoeff(y, k - i);
        assert forall|i: int| 0 <= i < m implies #[trigger] fc(i) == fp(i) by {
            if i <= k {
                assert(0 <= k - i < m);
                vstd::arithmetic::div_mod::lemma_small_mod((k - i) as nat, (2 * n) as nat);
                assert(pcoeff(yp, k - i) == pcoeff(y, k - i));
            } else {
                // negative offset: the cyclic index wraps to k - i + 2n, which
                // lies beyond the unpadded carrier whenever x contributes.
                assert(-m < k - i < 0);
                vstd::arithmetic::div_mod::lemma_fundamental_div_mod_converse_mod(
                    k - i,
                    m,
                    -1,
                    k - i + m,
                );
                if i < x.len() {
                    assert(k - i + m >= ni);
                    assert(pcoeff(y, k - i + m) == 0);
                    assert(pcoeff(yp, k - i + m) == 0);
                    assert(pcoeff(x, i) * 0 == 0) by (nonlinear_arith);
                    assert(pcoeff(y, k - i) == 0);
                    assert(pcoeff(x, i) * pcoeff(y, k - i) == 0) by (nonlinear_arith)
                        requires pcoeff(y, k - i) == 0;
                } else {
                    assert(pcoeff(x, i) == 0);
                    assert(pcoeff(xp, i) == 0);
                    assert(0int * pcoeff(yp, (k - i) % m) == 0 && 0int * pcoeff(y, k - i) == 0)
                        by (nonlinear_arith);
                }
            }
        }
        lemma_sum_eq(0, m, fc, fp);
        // widen the plain convolution to the padded range
        let fps = |i: int| pcoeff(x, i) * pcoeff(y, k - i);
        lemma_sum_split(0, x.len() as int, m, fps);
        assert forall|i: int| x.len() <= i < m implies #[trigger] fps(i) == 0 by {
            assert(pcoeff(x, i) == 0);
            assert(0int * pcoeff(y, k - i) == 0) by (nonlinear_arith);
        }
        lemma_sum_zero(x.len() as int, m, fps);
    }
}

/// Congruence of the transform output propagates through fold, centering and
/// trimming: the fast product equals the schoolbook product.
proof fn lemma_fast_matches(x: Seq<int>, y: Seq<int>, n: nat, w: Seq<int>, q: int)
    requires
        n >= 1,
        q >= 1,
        x.len() <= n,
        y.len() <= n,
        forall|k: int| 0 <= k < w.len() ==> (#[trigger] w[k] - conv_at(x, y, k)) % q == 0,
        w.len() == 2 * n,
    ensures
        trim(modc_seq(trim(red(trim(w), n)), q)) == mul_spec(x, y, q, n),
{
    let ni = n as int;
    lemma_trim_pcoeff(w);
    lemma_trim_pcoeff(red(trim(w), n));
    lemma_trim_pcoeff(red(conv(x, y), n));
    lemma_red_conv_nmul(x, y, n);
    // both folds agree with the exact product modulo q, coefficient-wise
    assert forall|j: int| #[trigger] centered(pcoeff(red(trim(w), n), j), q) == centered(
        pcoeff(red(conv(x, y), n), j),
        q,
    ) by {
        if 0 <= j < n {
            lemma_red_pcoeff(trim(w), n, j);
            lemma_fold_at_trim(w, n, j);
            // the fold of w is w[j] - w[j + n], congruent to the fold of conv
            let wfold = fold_at(w, n, j);
            assert(wfold == pcoeff(w, j) - pcoeff(w, j + ni)) by {
                let ww = fold_width(w.len(), n);
                assert(ww == 2) by {
                    vstd::arithmetic::div_mod::lemma_fundamental_div_mod_converse_div(
                        2 * ni + ni - 1,
                        ni,
                        2,
                        ni - 1,
                    );
                }
                let fw = |m: int| sign_alt(m) * pcoeff(w, j + m * ni);
                lemma_sum_snoc(0, 1, fw);
                lemma_sum_single(0, 1, fw, 0);
                assert(fw(0) == 1 * pcoeff(w, j + 0 * ni) && fw(1) == (-1int) * pcoeff(
                    w,
                    j + 1 * ni,
                ));
                assert(1 * pcoeff(w, j + 0 * ni) == pcoeff(w, j) && (-1int) * pcoeff(w, j + 1 * ni)
                    == -pcoeff(w, j + ni) && j + 0 * ni == j && j + 1 * ni == j + ni)
                    by (nonlinear_arith);
            }
            assert((pcoeff(w, j) - conv_at(x, y, j)) % q == 0);
            assert((pcoeff(w, j + ni) - conv_at(x, y, j + ni)) % q == 0);
            let a0 = pcoeff(w, j) - conv_at(x, y, j);
            let b0 = pcoeff(w, j + ni) - conv_at(x, y, j + ni);
            assert((wfold - (conv_at(x, y, j) - conv_at(x, y, j + ni))) % q == 0) by {
                vstd::arithmetic::div_mod::lemma_sub_mod_noop(a0, b0, q);
                assert(0int % q == 0) by {
                    vstd::arithmetic::div_mod::lemma_small_mod(0nat, q as nat);
                }
                assert((a0 - b0) % q == 0);
                assert(wfold - (conv_at(x, y, j) - conv_at(x, y, j + ni)) == a0 - b0);
            }
            assert((wfold - nmul_at(x, y, n, j)) % q == 0);
            // congruent values center identically
            vstd::arithmetic::div_mod::lemma_sub_mod_noop(wfold, nmul_at(x, y, n, j), q);
            vstd::arithmetic::div_mod::lemma_mod_twice(wfold, q);
            vstd::arithmetic::div_mod::lemma_mod_twice(nmul_at(x, y, n, j), q);
            assert(wfold % q == nmul_at(x, y, n, j) % q) by {
                lemma_cong_mod(wfold, nmul_at(x, y, n, j), q);
            }
        } else {
            assert(pcoeff(red(trim(w), n), j) == 0) by {
                if 0 <= j && j < red(trim(w), n).len() {
                    assert(trim(w).len() <= n);
                    assert(red(trim(w), n) == trim(w));
                }
            }
            assert(pcoeff(red(conv(x, y), n), j) == 0);
        }
    }
    // equal centered folds give equal centered, trimmed sequences
    let aa = trim(red(trim(w), n));
    let bb = trim(red(conv(x, y), n));
    lemma_trim_trimmed_both(red(trim(w), n), red(conv(x, y), n), q);
    assert(trim(modc_seq(aa, q)) == trim(modc_seq(bb, q))) by {
        assert forall|j: int| #[trigger] pcoeff(modc_seq(aa, q), j) == pcoeff(
            modc_seq(bb, q),
            j,
        ) by {
            lemma_modc_pcoeff(aa, q, j);
            lemma_modc_pcoeff(bb, q, j);
            assert(pcoeff(aa, j) == pcoeff(red(trim(w), n), j));
            assert(pcoeff(bb, j) == pcoeff(red(conv(x, y), n), j));
        }
        lemma_padded_eq_trim(modc_seq(aa, q), modc_seq(bb, q));
    }
}

/// Trim facts for both folds, paired for the congruence argument.
proof fn lemma_trim_trimmed_both(a: Seq<int>, b: Seq<int>, q: int)
    requires
        q >= 1,
    ensures
        forall|j: int| #[trigger] pcoeff(trim(a), j) == pcoeff(a, j),
        forall|j: int| #[trigger] pcoeff(trim(b), j) == pcoeff(b, j),
{
    lemma_trim_pcoeff(a);
    lemma_trim_pcoeff(b);
}

/// Reading a centered sequence through `pcoeff` centers the padded read.
proof fn lemma_modc_pcoeff(s: Seq<int>, q: int, j: int)
    requires
        q >= 1,
    ensures
        pcoeff(modc_seq(s, q), j) == centered(pcoeff(s, j), q),
{
    if !(0 <= j < s.len()) {
        assert(centered(0, q) == 0) by {
            vstd::arithmetic::div_mod::lemma_small_mod(0nat, q as nat);
        }
    }
}

/// Convolution coefficients vanish at or beyond index `2n - 1`.
proof fn lemma_conv_zero(x: Seq<int>, y: Seq<int>, k: int)
    requires
        k >= x.len() + y.len() - 1 || k < 0,
    ensures
        conv_at(x, y, k) == 0,
{
    let f = |i: int| pcoeff(x, i) * pcoeff(y, k - i);
    assert forall|i: int| 0 <= i < x.len() implies #[trigger] f(i) == 0 by {
        assert(pcoeff(y, k - i) == 0);
        assert(pcoeff(x, i) * 0 == 0) by (nonlinear_arith);
    }
    lemma_sum_zero(0, x.len() as int, f);
}

/// Equal residues from a vanishing difference.
proof fn lemma_cong_mod(a: int, b: int, q: int)
    requires
        q >= 1,
        (a - b) % q == 0,
    ensures
        a % q == b % q,
{
    vstd::arithmetic::div_mod::lemma_fundamental_div_mod(a - b, q);
    let k = (a - b) / q;
    assert(a == b + q * k);
    vstd::arithmetic::div_mod::lemma_mod_multiples_vanish(k, b, q);
    assert(q * k + b == b + q * k) by (nonlinear_arith);
}

} // verus!

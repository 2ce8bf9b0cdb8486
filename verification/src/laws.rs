//! The laws of the scheme: reduction idempotence, stability of the centered
//! residue, round-trip correctness of decryption for fresh ciphertexts, and
//! correctness of the homomorphic sum and the one-hop homomorphic product,
//! each under its stated noise budget.

use vstd::prelude::*;
use crate::poly::{pcoeff, bounded, centered, modc_seq, trim, red, conv, padd, neg_seq, mul_spec,
    add_spec, inv_spec, rem_spec, modc_spec, nearest_int_spec, lemma_trim_pcoeff,
    lemma_trim_trimmed, lemma_trim_of_trimmed, lemma_padded_eq_trim, lemma_centered,
    lemma_centered_identity, lemma_mul_spec_shape, lemma_add_spec_shape,
    lemma_centered_trim_shape, lemma_red_len};
use crate::ring::{nmul, nmul_at, lemma_red_conv_nmul, lemma_nmul_comm, lemma_nmul_comm_seq,
    lemma_nmul_dist, lemma_nmul_congruent, lemma_nmul_bound, lemma_nmul_assoc,
    lemma_nmul_assoc_seq, lemma_nmul_scale, lemma_nmul_neg};
use crate::keygen::keygen_b_spec;
use crate::encrypt::{scale_spec, encrypt_c0_spec, encrypt_c1_spec};
use crate::decrypt::{digits_spec, decrypt_spec};

verus! {

/// Congruence modulo `q`.
pub open spec fn cong(a: int, b: int, q: int) -> bool {
    (a - b) % q == 0
}

/// Basic congruence facts: reflexivity, symmetry, transitivity, addition.
pub proof fn lemma_cong_basic(a: int, b: int, c: int, d: int, q: int)
    requires
        q >= 1,
        cong(a, b, q),
        cong(c, d, q),
    ensures
        cong(b, a, q),
        cong(a + c, b + d, q),
        cong(-a, -b, q),
{
    vstd::arithmetic::div_mod::lemma_small_mod(0nat, q as nat);
    vstd::arithmetic::div_mod::lemma_add_mod_noop(a - b, c - d, q);
    assert((a + c) - (b + d) == (a - b) + (c - d));
    vstd::arithmetic::div_mod::lemma_sub_mod_noop(a - b, a - b, q);
    vstd::arithmetic::div_mod::lemma_sub_mod_noop(0, a - b, q);
    assert((0 - (a - b)) % q == 0);
    assert(b - a == 0 - (a - b));
    assert((-a) - (-b) == 0 - (a - b));
}

/// Transitivity of congruence.
pub proof fn lemma_cong_trans(a: int, b: int, c: int, q: int)
    requires
        q >= 1,
        cong(a, b, q),
        cong(b, c, q),
    ensures
        cong(a, c, q),
{
    vstd::arithmetic::div_mod::lemma_add_mod_noop(a - b, b - c, q);
    vstd::arithmetic::div_mod::lemma_small_mod(0nat, q as nat);
    assert(a - c == (a - b) + (b - c));
}

/// Congruent values have equal least residues, and conversely.
pub proof fn lemma_cong_mod_eq(a: int, b: int, q: int)
    requires
        q >= 1,
    ensures
        cong(a, b, q) <==> a % q == b % q,
{
    vstd::arithmetic::div_mod::lemma_sub_mod_noop(a, b, q);
    vstd::arithmetic::div_mod::lemma_mod_bound(a, q);
    vstd::arithmetic::div_mod::lemma_mod_bound(b, q);
    if a % q == b % q {
        vstd::arithmetic::div_mod::lemma_small_mod(0nat, q as nat);
        assert((a % q - b % q) % q == 0);
    } else {
        if (a - b) % q == 0 {
            assert(a % q == b % q) by {
                vstd::arithmetic::div_mod::lemma_fundamental_div_mod(a - b, q);
                let k = (a - b) / q;
                assert(a == b + q * k);
                vstd::arithmetic::div_mod::lemma_mod_multiples_vanish(k, b, q);
                assert(q * k + b == b + q * k) by (nonlinear_arith);
            }
        }
    }
}

/// The centered residue is congruent to the value it represents.
pub proof fn lemma_cong_centered(c: int, q: int)
    requires
        q >= 1,
    ensures
        cong(centered(c, q), c, q),
{
    lemma_centered(c, q);
    vstd::arithmetic::div_mod::lemma_sub_mod_noop(centered(c, q), c, q);
    vstd::arithmetic::div_mod::lemma_small_mod(0nat, q as nat);
}

/// Congruence under a square modulus implies congruence under the modulus.
pub proof fn lemma_cong_down(a: int, b: int, q: int)
    requires
        q >= 1,
        cong(a, b, q * q),
    ensures
        cong(a, b, q),
{
    assert(q * q >= 1) by (nonlinear_arith)
        requires q >= 1;
    vstd::arithmetic::div_mod::lemma_fundamental_div_mod(a - b, q * q);
    let k = (a - b) / (q * q);
    assert(a - b == q * (q * k)) by (nonlinear_arith)
        requires a - b == (q * q) * k;
    vstd::arithmetic::div_mod::lemma_mod_multiples_basic(q * k, q);
    assert(q * (q * k) == (q * k) * q) by (nonlinear_arith);
}

/// Padded sums read coefficient-wise.
pub proof fn lemma_padd_pcoeff(x: Seq<int>, y: Seq<int>)
    ensures
        forall|d: int| #[trigger] pcoeff(padd(x, y), d) == pcoeff(x, d) + pcoeff(y, d),
{
}

/// Negated sequences read coefficient-wise.
pub proof fn lemma_neg_pcoeff(x: Seq<int>)
    ensures
        forall|d: int| #[trigger] pcoeff(neg_seq(x), d) == -pcoeff(x, d),
{
    assert forall|d: int| #[trigger] pcoeff(neg_seq(x), d) == -pcoeff(x, d) by {
        if 0 <= d < x.len() {
            assert(neg_seq(x)[d] == -x[d]);
        }
    }
}

/// Reading a centered sequence through `pcoeff` centers the padded read.
pub proof fn lemma_modc_pcoeff_all(s: Seq<int>, q: int)
    requires
        q >= 1,
    ensures
        forall|j: int| #[trigger] pcoeff(modc_seq(s, q), j) == centered(pcoeff(s, j), q),
{
    assert forall|j: int| #[trigger] pcoeff(modc_seq(s, q), j) == centered(pcoeff(s, j), q) by {
        if 0 <= j < s.len() {
            assert(modc_seq(s, q)[j] == centered(s[j], q));
        } else {
            vstd::arithmetic::div_mod::lemma_small_mod(0nat, q as nat);
        }
    }
}

/// A ring sum of two reduced operands, coefficient by coefficient.
pub proof fn lemma_add_spec_pcoeff(x: Seq<int>, y: Seq<int>, q: int, n: nat)
    requires
        q >= 1,
        x.len() <= n,
        y.len() <= n,
    ensures
        forall|j: int| #[trigger] pcoeff(add_spec(x, y, q, n), j) == centered(
            pcoeff(x, j) + pcoeff(y, j),
            q,
        ),
{
    let s = padd(x, y);
    lemma_red_len(s, n);
    assert(red(s, n) == s);
    lemma_trim_pcoeff(s);
    lemma_trim_pcoeff(modc_seq(trim(s), q));
    lemma_modc_pcoeff_all(trim(s), q);
    lemma_padd_pcoeff(x, y);
    assert forall|j: int| #[trigger] pcoeff(add_spec(x, y, q, n), j) == centered(
        pcoeff(x, j) + pcoeff(y, j),
        q,
    ) by {
        assert(pcoeff(add_spec(x, y, q, n), j) == pcoeff(modc_seq(trim(s), q), j));
        assert(pcoeff(trim(s), j) == pcoeff(s, j));
    }
}

/// A ring product of two reduced operands, coefficient by coefficient.
pub proof fn lemma_mul_spec_pcoeff(x: Seq<int>, y: Seq<int>, q: int, n: nat)
    requires
        q >= 1,
        n >= 1,
        x.len() <= n,
        y.len() <= n,
    ensures
        forall|j: int| 0 <= j < n ==> #[trigger] pcoeff(mul_spec(x, y, q, n), j) == centered(
            nmul_at(x, y, n, j),
            q,
        ),
        forall|j: int| !(0 <= j < n) ==> #[trigger] pcoeff(mul_spec(x, y, q, n), j) == 0,
{
    let rr = red(conv(x, y), n);
    lemma_red_conv_nmul(x, y, n);
    lemma_trim_pcoeff(rr);
    lemma_trim_pcoeff(modc_seq(trim(rr), q));
    lemma_modc_pcoeff_all(trim(rr), q);
    assert forall|j: int| 0 <= j < n implies #[trigger] pcoeff(mul_spec(x, y, q, n), j)
        == centered(nmul_at(x, y, n, j), q) by {
        assert(pcoeff(mul_spec(x, y, q, n), j) == pcoeff(modc_seq(trim(rr), q), j));
        assert(pcoeff(trim(rr), j) == pcoeff(rr, j));
    }
    assert forall|j: int| !(0 <= j < n) implies #[trigger] pcoeff(mul_spec(x, y, q, n), j)
        == 0 by {
        assert(pcoeff(mul_spec(x, y, q, n), j) == pcoeff(modc_seq(trim(rr), q), j));
        assert(pcoeff(trim(rr), j) == pcoeff(rr, j));
        vstd::arithmetic::div_mod::lemma_small_mod(0nat, q as nat);
    }
}

/// The additive inverse, coefficient by coefficient.
pub proof fn lemma_inv_spec_pcoeff(x: Seq<int>, q: int)
    requires
        q >= 1,
    ensures
        forall|d: int| #[trigger] pcoeff(inv_spec(x, q), d) == centered(-pcoeff(x, d), q),
        inv_spec(x, q).len() <= x.len(),
{
    lemma_trim_pcoeff(modc_seq(neg_seq(x), q));
    lemma_modc_pcoeff_all(neg_seq(x), q);
    lemma_neg_pcoeff(x);
}

/// A coefficient-wise bound read through `pcoeff`.
pub proof fn lemma_bounded_pcoeff(s: Seq<int>, b: int)
    requires
        0 <= b,
        bounded(s, b),
    ensures
        forall|d: int| -b <= #[trigger] pcoeff(s, d) <= b,
{
}

/// Rounding a near-multiple of `q` recovers the multiplier exactly.
pub proof fn lemma_nearest_multiple(mult: int, d: int, q: int)
    requires
        q >= 1,
        2 * d < q,
        2 * d > -q,
    ensures
        nearest_int_spec(mult * q + d, q) == mult,
{
    let a = mult * q + d;
    let h = q / 2;
    vstd::arithmetic::div_mod::lemma_fundamental_div_mod(q, 2);
    vstd::arithmetic::div_mod::lemma_mod_bound(q, 2);
    assert(0 <= d + h < q);
    if a > 0 {
        assert(a + h == mult * q + (d + h));
        vstd::arithmetic::div_mod::lemma_fundamental_div_mod_converse_div(a + h, q, mult, d + h);
    } else {
        assert(-a + h == (-mult) * q + (h - d)) by (nonlinear_arith)
            requires a == mult * q + d;
        assert(0 <= h - d < q);
        vstd::arithmetic::div_mod::lemma_fundamental_div_mod_converse_div(
            -a + h,
            q,
            -mult,
            h - d,
        );
    }
}

/// A centered scaled coefficient rounds back to its digit when the noise
/// stays under the budget.
pub proof fn lemma_round_digit(c: int, digit: int, noise: int, bnd: int, q: int, t: int)
    requires
        q >= 3,
        2 <= t < q,
        0 <= digit < t,
        -bnd <= noise <= bnd,
        0 <= bnd,
        2 * (t * bnd + t) <= q,
        cong(c, (digit * q) / t + noise, q),
    ensures
        nearest_int_spec(c * t, q) % t == digit,
{
    let v = (digit * q) / t + noise;
    vstd::arithmetic::div_mod::lemma_fundamental_div_mod(c - v, q);
    let k = (c - v) / q;
    assert(c == v + q * k);
    vstd::arithmetic::div_mod::lemma_fundamental_div_mod(digit * q, t);
    let r = (digit * q) % t;
    vstd::arithmetic::div_mod::lemma_mod_bound(digit * q, t);
    // c * t == (digit + t*k) * q + (t*noise - r)
    let dd = t * noise - r;
    let w = (digit * q) / t;
    assert(c * t == v * t + (q * k) * t) by (nonlinear_arith)
        requires c == v + q * k;
    assert(v * t == w * t + noise * t) by (nonlinear_arith)
        requires v == w + noise;
    assert(w * t == t * w && noise * t == t * noise) by (nonlinear_arith);
    assert(t * w == digit * q - r);
    assert((q * k) * t == (t * k) * q) by (nonlinear_arith);
    assert((digit + t * k) * q == digit * q + (t * k) * q) by (nonlinear_arith);
    assert(c * t == (digit + t * k) * q + dd);
    assert(2 * dd < q && 2 * dd > -q) by (nonlinear_arith)
        requires
            dd == t * noise - r,
            -bnd <= noise <= bnd,
            0 <= r < t,
            2 * (t * bnd + t) <= q,
            0 <= bnd,
            2 <= t,
    ;
    lemma_nearest_multiple(digit + t * k, dd, q);
    assert((digit + t * k) % t == digit) by {
        vstd::arithmetic::div_mod::lemma_mod_multiples_vanish(k, digit, t);
        assert(t * k + digit == digit + t * k);
        vstd::arithmetic::div_mod::lemma_small_mod(digit as nat, t as nat);
    }
}

/// Reducing twice by `x^n + 1` is the same as reducing once.
pub proof fn lemma_polyrem_idempotent(s: Seq<int>, n: nat)
    requires
        n >= 1,
    ensures
        rem_spec(rem_spec(s, n), n) == rem_spec(s, n),
{
    let r1 = rem_spec(s, n);
    lemma_trim_pcoeff(red(s, n));
    lemma_red_len(s, n);
    assert(r1.len() <= n);
    lemma_red_len(r1, n);
    assert(red(r1, n) == r1);
    lemma_trim_trimmed(red(s, n));
    lemma_trim_of_trimmed(r1);
}

/// Centering is idempotent, and the two boundary values `q/2 + 1` and
/// `-q/2` fall in the same class for an odd modulus: repeated centering
/// cannot drift.
pub proof fn lemma_centered_stable(c: int, q: int)
    requires
        q >= 1,
        q % 2 == 1,
    ensures
        centered(centered(c, q), q) == centered(c, q),
        centered(q / 2 + 1, q) == centered(-(q / 2), q),
{
    lemma_centered(c, q);
    lemma_centered_identity(centered(c, q), q);
    assert((q / 2 + 1) - (-(q / 2)) == q) by {
        vstd::arithmetic::div_mod::lemma_fundamental_div_mod(q, 2);
    }
    assert(cong(q / 2 + 1, -(q / 2), q)) by {
        vstd::arithmetic::div_mod::lemma_mod_self_0(q);
    }
    lemma_cong_mod_eq(q / 2 + 1, -(q / 2), q);
}

/// Centering a whole polynomial twice equals centering it once: repeated
/// passes through `mod_coeffs` cannot drift.
pub proof fn lemma_mod_coeffs_stable(s: Seq<int>, q: int)
    requires
        q >= 1,
    ensures
        modc_spec(modc_spec(s, q), q) == modc_spec(s, q),
{
    let once = modc_spec(s, q);
    lemma_modc_pcoeff_all(s, q);
    lemma_modc_pcoeff_all(once, q);
    lemma_trim_pcoeff(modc_seq(s, q));
    lemma_trim_pcoeff(modc_seq(once, q));
    assert forall|j: int| #[trigger] pcoeff(modc_seq(once, q), j) == pcoeff(once, j) by {
        assert(pcoeff(once, j) == pcoeff(modc_seq(s, q), j));
        assert(pcoeff(modc_seq(s, q), j) == centered(pcoeff(s, j), q));
        lemma_centered(pcoeff(s, j), q);
        lemma_centered_identity(centered(pcoeff(s, j), q), q);
    }
    lemma_padded_eq_trim(modc_seq(once, q), once);
    lemma_trim_trimmed(modc_seq(s, q));
    lemma_trim_of_trimmed(once);
}

/// The noise a fresh ciphertext carries into decryption.
pub open spec fn fresh_noise(
    e2: Seq<int>,
    s: Seq<int>,
    e: Seq<int>,
    u: Seq<int>,
    e1: Seq<int>,
    n: nat,
    j: int,
) -> int {
    nmul_at(e2, s, n, j) - nmul_at(e, u, n, j) + pcoeff(e1, j)
}

/// For a fresh ciphertext, the combination `c1*s + c0` that decryption
/// centers is, coefficient by coefficient and modulo `q`, the scaled
/// plaintext digit plus the noise of the sampled polynomials, bounded by
/// `2n + 1`.
pub proof fn lemma_fresh_ct_cong(
    a: Seq<int>,
    s: Seq<int>,
    e: Seq<int>,
    u: Seq<int>,
    e1: Seq<int>,
    e2: Seq<int>,
    m: Seq<int>,
    q: int,
    t: int,
    n: nat,
    j: int,
)
    requires
        n >= 1,
        q >= 3,
        2 <= t < q,
        a.len() <= n,
        s.len() <= n,
        e.len() <= n,
        u.len() <= n,
        e1.len() <= n,
        e2.len() <= n,
        m.len() <= n,
        bounded(s, 1),
        bounded(e, 1),
        bounded(u, 1),
        bounded(e1, 1),
        bounded(e2, 1),
        forall|jj: int| 0 <= #[trigger] pcoeff(m, jj) < t,
        0 <= j < n,
    ensures
        cong(
            pcoeff(mul_spec(encrypt_c1_spec(a, u, e2, q, n), s, q, n), j) + pcoeff(
                encrypt_c0_spec(keygen_b_spec(a, s, e, q, n), m, u, e1, q, t, n),
                j,
            ),
            (pcoeff(m, j) * q) / t + fresh_noise(e2, s, e, u, e1, n, j),
            q,
        ),
        -(2 * n as int + 1) <= fresh_noise(e2, s, e, u, e1, n, j) <= 2 * n as int + 1,
        encrypt_c0_spec(keygen_b_spec(a, s, e, q, n), m, u, e1, q, t, n).len() <= n,
        encrypt_c1_spec(a, u, e2, q, n).len() <= n,
        mul_spec(encrypt_c1_spec(a, u, e2, q, n), s, q, n).len() <= n,
{
    let qq = q * q;
    assert(qq >= 9 && qq >= q) by (nonlinear_arith)
        requires q >= 3, qq == q * q;
    let b = keygen_b_spec(a, s, e, q, n);
    let c0 = encrypt_c0_spec(b, m, u, e1, q, t, n);
    let c1 = encrypt_c1_spec(a, u, e2, q, n);
    let pia = inv_spec(a, q);
    let ie = inv_spec(e, q);
    let pias = mul_spec(pia, s, q, n);
    let mu = mul_spec(a, u, qq, n);
    let bu = mul_spec(b, u, qq, n);
    let mapseq = m.map(|jj: int, c: int| (c * q) / t);
    let sm = scale_spec(m, q, t);
    let s1 = add_spec(bu, e1, qq, n);
    let xx = mul_spec(c1, s, q, n);
    let asq = nmul(a, s, n);
    let nb = padd(neg_seq(asq), neg_seq(e));
    // shapes
    lemma_inv_spec_pcoeff(a, q);
    lemma_inv_spec_pcoeff(e, q);
    lemma_mul_spec_shape(pia, s, q, n);
    lemma_add_spec_shape(pias, ie, q, n);
    assert(b.len() <= n);
    lemma_mul_spec_shape(a, u, qq, n);
    lemma_mul_spec_shape(b, u, qq, n);
    lemma_centered_trim_shape(mapseq, q);
    assert(sm.len() <= n);
    lemma_add_spec_shape(bu, e1, qq, n);
    lemma_add_spec_shape(s1, sm, qq, n);
    lemma_add_spec_shape(mu, e2, qq, n);
    assert(c0.len() <= n && c1.len() <= n);
    lemma_mul_spec_shape(c1, s, q, n);
    lemma_add_spec_shape(xx, c0, q, n);
    // coefficient-wise congruences that do not depend on j
    lemma_add_spec_pcoeff(mu, e2, qq, n);
    lemma_padd_pcoeff(mu, e2);
    assert forall|d: int| #[trigger] pcoeff(c1, d) % q == pcoeff(padd(mu, e2), d) % q by {
        lemma_cong_centered(pcoeff(mu, d) + pcoeff(e2, d), qq);
        lemma_cong_down(pcoeff(c1, d), pcoeff(mu, d) + pcoeff(e2, d), q);
        lemma_cong_mod_eq(pcoeff(c1, d), pcoeff(padd(mu, e2), d), q);
    }
    lemma_mul_spec_pcoeff(a, u, qq, n);
    assert forall|d: int| #[trigger] pcoeff(mu, d) % q == pcoeff(nmul(a, u, n), d) % q by {
        if 0 <= d < n {
            assert(pcoeff(mu, d) == centered(nmul_at(a, u, n, d), qq));
            lemma_cong_centered(nmul_at(a, u, n, d), qq);
            lemma_cong_down(pcoeff(mu, d), nmul_at(a, u, n, d), q);
            assert(pcoeff(nmul(a, u, n), d) == nmul_at(a, u, n, d));
            lemma_cong_mod_eq(pcoeff(mu, d), pcoeff(nmul(a, u, n), d), q);
        } else {
            assert(pcoeff(mu, d) == 0);
            assert(pcoeff(nmul(a, u, n), d) == 0);
        }
    }
    // b is congruent to -a*s - e, coefficient by coefficient
    lemma_mul_spec_pcoeff(pia, s, q, n);
    lemma_add_spec_pcoeff(pias, ie, q, n);
    lemma_neg_pcoeff(a);
    lemma_neg_pcoeff(e);
    lemma_neg_pcoeff(asq);
    lemma_padd_pcoeff(neg_seq(asq), neg_seq(e));
    assert forall|d: int| #[trigger] pcoeff(pia, d) % q == pcoeff(neg_seq(a), d) % q by {
        lemma_cong_centered(-pcoeff(a, d), q);
        lemma_cong_mod_eq(pcoeff(pia, d), pcoeff(neg_seq(a), d), q);
    }
    assert forall|d: int| #[trigger] pcoeff(b, d) % q == pcoeff(nb, d) % q by {
        assert(pcoeff(b, d) == centered(pcoeff(pias, d) + pcoeff(ie, d), q));
        lemma_cong_centered(pcoeff(pias, d) + pcoeff(ie, d), q);
        lemma_cong_centered(-pcoeff(e, d), q);
        if 0 <= d < n {
            assert(pcoeff(pias, d) == centered(nmul_at(pia, s, n, d), q));
            lemma_cong_centered(nmul_at(pia, s, n, d), q);
            lemma_nmul_congruent(pia, neg_seq(a), s, n, d, q);
            lemma_nmul_neg(a, neg_seq(a), s, n, d);
            lemma_cong_mod_eq(nmul_at(pia, s, n, d), -nmul_at(a, s, n, d), q);
            lemma_cong_trans(pcoeff(pias, d), nmul_at(pia, s, n, d), -nmul_at(a, s, n, d), q);
            assert(pcoeff(nb, d) == -nmul_at(a, s, n, d) + -pcoeff(e, d));
            lemma_cong_basic(
                pcoeff(pias, d),
                -nmul_at(a, s, n, d),
                pcoeff(ie, d),
                -pcoeff(e, d),
                q,
            );
            lemma_cong_trans(
                pcoeff(b, d),
                pcoeff(pias, d) + pcoeff(ie, d),
                -nmul_at(a, s, n, d) + -pcoeff(e, d),
                q,
            );
            lemma_cong_mod_eq(pcoeff(b, d), pcoeff(nb, d), q);
        } else {
            assert(pcoeff(pias, d) == 0);
            assert(pcoeff(nb, d) == 0 + -pcoeff(e, d));
            assert(pcoeff(e, d) == 0);
            lemma_cong_basic(pcoeff(pias, d), 0, pcoeff(ie, d), 0, q);
            lemma_cong_trans(pcoeff(b, d), pcoeff(pias, d) + pcoeff(ie, d), 0, q);
            lemma_cong_mod_eq(pcoeff(b, d), pcoeff(nb, d), q);
        }
    }
    // the scaled plaintext, coefficient by coefficient
    lemma_trim_pcoeff(modc_seq(mapseq, q));
    lemma_modc_pcoeff_all(mapseq, q);
    assert forall|j: int| #[trigger] pcoeff(mapseq, j) == (pcoeff(m, j) * q) / t by {
        if 0 <= j < m.len() {
            assert(mapseq[j] == (m[j] * q) / t);
        } else {
            assert(0int * q == 0) by (nonlinear_arith);
            vstd::arithmetic::div_mod::lemma_div_of0(t);
        }
    }
    lemma_mul_spec_pcoeff(c1, s, q, n);
    lemma_mul_spec_pcoeff(b, u, qq, n);
    lemma_add_spec_pcoeff(bu, e1, qq, n);
    lemma_add_spec_pcoeff(s1, sm, qq, n);
    lemma_bounded_pcoeff(s, 1);
    lemma_bounded_pcoeff(e, 1);
    lemma_bounded_pcoeff(u, 1);
    lemma_bounded_pcoeff(e1, 1);
    lemma_bounded_pcoeff(e2, 1);
    {
        let asu = nmul_at(nmul(a, s, n), u, n, j);
        let noise = nmul_at(e2, s, n, j) - nmul_at(e, u, n, j) + pcoeff(e1, j);
        // the c1 * s term
        lemma_nmul_congruent(c1, padd(mu, e2), s, n, j, q);
        lemma_nmul_comm(padd(mu, e2), s, n, j);
        lemma_nmul_dist(s, mu, e2, padd(mu, e2), n, j);
        lemma_nmul_comm(s, mu, n, j);
        lemma_nmul_comm(s, e2, n, j);
        lemma_nmul_congruent(mu, nmul(a, u, n), s, n, j, q);
        lemma_nmul_assoc(a, u, s, n, j);
        lemma_nmul_comm_seq(u, s, n);
        lemma_nmul_assoc(a, s, u, n, j);
        assert(nmul_at(nmul(a, u, n), s, n, j) == asu);
        lemma_cong_mod_eq(nmul_at(c1, s, n, j), nmul_at(padd(mu, e2), s, n, j), q);
        lemma_cong_mod_eq(nmul_at(mu, s, n, j), nmul_at(nmul(a, u, n), s, n, j), q);
        lemma_cong_basic(
            nmul_at(mu, s, n, j),
            asu,
            nmul_at(e2, s, n, j),
            nmul_at(e2, s, n, j),
            q,
        );
        lemma_cong_trans(
            nmul_at(c1, s, n, j),
            nmul_at(mu, s, n, j) + nmul_at(e2, s, n, j),
            asu + nmul_at(e2, s, n, j),
            q,
        );
        assert(pcoeff(xx, j) == centered(nmul_at(c1, s, n, j), q));
        lemma_cong_centered(nmul_at(c1, s, n, j), q);
        lemma_cong_trans(pcoeff(xx, j), nmul_at(c1, s, n, j), asu + nmul_at(e2, s, n, j), q);
        // the c0 term
        lemma_nmul_congruent(b, nb, u, n, j, q);
        lemma_nmul_comm(nb, u, n, j);
        lemma_nmul_dist(u, neg_seq(asq), neg_seq(e), nb, n, j);
        lemma_nmul_comm(u, neg_seq(asq), n, j);
        lemma_nmul_comm(u, neg_seq(e), n, j);
        lemma_nmul_neg(asq, neg_seq(asq), u, n, j);
        lemma_nmul_neg(e, neg_seq(e), u, n, j);
        assert(nmul_at(asq, u, n, j) == asu) by {
            assert(pcoeff(nmul(a, s, n), j) == nmul_at(a, s, n, j));
        }
        lemma_cong_mod_eq(nmul_at(b, u, n, j), nmul_at(nb, u, n, j), q);
        assert(nmul_at(nb, u, n, j) == -asu - nmul_at(e, u, n, j)) by {
            assert(nmul_at(nb, u, n, j) == nmul_at(neg_seq(asq), u, n, j) + nmul_at(
                neg_seq(e),
                u,
                n,
                j,
            ));
        }
        assert(pcoeff(bu, j) == centered(nmul_at(b, u, n, j), qq));
        lemma_cong_centered(nmul_at(b, u, n, j), qq);
        lemma_cong_down(pcoeff(bu, j), nmul_at(b, u, n, j), q);
        lemma_cong_trans(pcoeff(bu, j), nmul_at(b, u, n, j), -asu - nmul_at(e, u, n, j), q);
        assert(pcoeff(s1, j) == centered(pcoeff(bu, j) + pcoeff(e1, j), qq));
        lemma_cong_centered(pcoeff(bu, j) + pcoeff(e1, j), qq);
        lemma_cong_down(pcoeff(s1, j), pcoeff(bu, j) + pcoeff(e1, j), q);
        assert(pcoeff(c0, j) == centered(pcoeff(s1, j) + pcoeff(sm, j), qq));
        lemma_cong_centered(pcoeff(s1, j) + pcoeff(sm, j), qq);
        lemma_cong_down(pcoeff(c0, j), pcoeff(s1, j) + pcoeff(sm, j), q);
        // the scaled plaintext coefficient
        let smraw = (pcoeff(m, j) * q) / t;
        assert(pcoeff(sm, j) == centered(pcoeff(mapseq, j), q));
        lemma_cong_centered(pcoeff(mapseq, j), q);
        assert(cong(pcoeff(sm, j), smraw, q));
        // assemble
        lemma_cong_basic(
            pcoeff(bu, j),
            -asu - nmul_at(e, u, n, j),
            pcoeff(e1, j),
            pcoeff(e1, j),
            q,
        );
        lemma_cong_trans(
            pcoeff(s1, j),
            pcoeff(bu, j) + pcoeff(e1, j),
            -asu - nmul_at(e, u, n, j) + pcoeff(e1, j),
            q,
        );
        lemma_cong_basic(
            pcoeff(s1, j),
            -asu - nmul_at(e, u, n, j) + pcoeff(e1, j),
            pcoeff(sm, j),
            smraw,
            q,
        );
        lemma_cong_trans(
            pcoeff(c0, j),
            pcoeff(s1, j) + pcoeff(sm, j),
            -asu - nmul_at(e, u, n, j) + pcoeff(e1, j) + smraw,
            q,
        );
        lemma_cong_basic(
            pcoeff(xx, j),
            asu + nmul_at(e2, s, n, j),
            pcoeff(c0, j),
            -asu - nmul_at(e, u, n, j) + pcoeff(e1, j) + smraw,
            q,
        );
        assert(asu + nmul_at(e2, s, n, j) + (-asu - nmul_at(e, u, n, j) + pcoeff(e1, j) + smraw)
            == smraw + noise);
        assert(noise == fresh_noise(e2, s, e, u, e1, n, j));
        lemma_nmul_bound(e2, s, n, j, 1, 1);
        lemma_nmul_bound(e, u, n, j, 1, 1);
        assert(n as int * (1 * 1) == n as int) by (nonlinear_arith);
    }
}

/// Round-trip correctness: decrypting a fresh encryption of a plaintext
/// block recovers the block exactly, for every parameter set, key material
/// and ephemeral randomness within the noise budget `2*(t*(2n+1) + t) <= q`.
/// The key is ternary, as are the error and ephemeral polynomials; the
/// budget covers their worst-case products.
pub proof fn lemma_round_trip(
    a: Seq<int>,
    s: Seq<int>,
    e: Seq<int>,
    u: Seq<int>,
    e1: Seq<int>,
    e2: Seq<int>,
    m: Seq<int>,
    q: int,
    t: int,
    n: nat,
)
    requires
        n >= 1,
        q >= 3,
        2 <= t < q,
        a.len() <= n,
        s.len() <= n,
        e.len() <= n,
        u.len() <= n,
        e1.len() <= n,
        e2.len() <= n,
        m.len() <= n,
        bounded(s, 1),
        bounded(e, 1),
        bounded(u, 1),
        bounded(e1, 1),
        bounded(e2, 1),
        forall|j: int| 0 <= #[trigger] pcoeff(m, j) < t,
        2 * (t * (2 * n + 1) + t) <= q,
    ensures
        decrypt_spec(
            s,
            encrypt_c0_spec(keygen_b_spec(a, s, e, q, n), m, u, e1, q, t, n),
            encrypt_c1_spec(a, u, e2, q, n),
            q,
            t,
            n,
        ) == trim(m),
{
    let b = keygen_b_spec(a, s, e, q, n);
    let c0 = encrypt_c0_spec(b, m, u, e1, q, t, n);
    let c1 = encrypt_c1_spec(a, u, e2, q, n);
    let xx = mul_spec(c1, s, q, n);
    let scaled = add_spec(xx, c0, q, n);
    lemma_fresh_ct_cong(a, s, e, u, e1, e2, m, q, t, n, 0);
    lemma_add_spec_pcoeff(xx, c0, q, n);
    lemma_mul_spec_shape(c1, s, q, n);
    crate::poly::lemma_ring_len(xx, c0, q, n);
    // every coefficient rounds back to its digit
    assert forall|j: int| 0 <= j < n implies #[trigger] nearest_int_spec(
        pcoeff(scaled, j) * t,
        q,
    ) % t == pcoeff(m, j) by {
        lemma_fresh_ct_cong(a, s, e, u, e1, e2, m, q, t, n, j);
        let noise = fresh_noise(e2, s, e, u, e1, n, j);
        assert(pcoeff(scaled, j) == centered(pcoeff(xx, j) + pcoeff(c0, j), q));
        lemma_cong_centered(pcoeff(xx, j) + pcoeff(c0, j), q);
        lemma_cong_trans(
            pcoeff(scaled, j),
            pcoeff(xx, j) + pcoeff(c0, j),
            (pcoeff(m, j) * q) / t + noise,
            q,
        );
        lemma_round_digit(pcoeff(scaled, j), pcoeff(m, j), noise, 2 * n as int + 1, q, t);
    }
    // package the digits back into the trimmed plaintext
    let digits = scaled.map(|jj: int, c: int| nearest_int_spec(c * t, q) % t);
    assert forall|j: int| #[trigger] pcoeff(digits, j) == pcoeff(m, j) by {
        if 0 <= j < scaled.len() {
            assert(digits[j] == nearest_int_spec(scaled[j] * t, q) % t);
            assert(pcoeff(scaled, j) == scaled[j]);
            assert(scaled.len() <= n);
        } else if 0 <= j < n {
            assert(pcoeff(scaled, j) == 0);
            assert(nearest_int_spec(0 * t, q) % t == pcoeff(m, j));
            assert(0int * t == 0) by (nonlinear_arith);
            assert(nearest_int_spec(0, q) == 0) by {
                vstd::arithmetic::div_mod::lemma_fundamental_div_mod(q, 2);
                vstd::arithmetic::div_mod::lemma_mod_bound(q, 2);
                vstd::arithmetic::div_mod::lemma_fundamental_div_mod_converse_div(
                    0 + q / 2,
                    q,
                    0,
                    q / 2,
                );
                assert(0int * q + q / 2 == q / 2) by (nonlinear_arith);
            }
            vstd::arithmetic::div_mod::lemma_small_mod(0nat, t as nat);
        } else {
            assert(pcoeff(m, j) == 0);
        }
    }
    lemma_padded_eq_trim(digits, m);
    assert(decrypt_spec(s, c0, c1, q, t, n) == trim(digits));
}

/// A ring sum under the sentinel modulus: plain coefficient sums.
pub proof fn lemma_add_spec0_pcoeff(x: Seq<int>, y: Seq<int>, n: nat)
    requires
        x.len() <= n,
        y.len() <= n,
    ensures
        forall|j: int| #[trigger] pcoeff(add_spec(x, y, 0, n), j) == pcoeff(x, j) + pcoeff(y, j),
        add_spec(x, y, 0, n).len() <= n,
{
    let s = padd(x, y);
    lemma_red_len(s, n);
    assert(red(s, n) == s);
    lemma_trim_pcoeff(s);
    lemma_padd_pcoeff(x, y);
}

/// Rounding recovers the sum of two digits modulo `t` when the combined
/// noise and the two scaling remainders stay under the budget.
pub proof fn lemma_round_digit_sum(
    c: int,
    d0: int,
    d1: int,
    noise: int,
    bnd: int,
    q: int,
    t: int,
)
    requires
        q >= 3,
        2 <= t < q,
        0 <= d0 < t,
        0 <= d1 < t,
        -bnd <= noise <= bnd,
        0 <= bnd,
        2 * (t * bnd + 2 * t) <= q,
        cong(c, (d0 * q) / t + (d1 * q) / t + noise, q),
    ensures
        nearest_int_spec(c * t, q) % t == (d0 + d1) % t,
{
    let v = (d0 * q) / t + (d1 * q) / t + noise;
    vstd::arithmetic::div_mod::lemma_fundamental_div_mod(c - v, q);
    let k = (c - v) / q;
    assert(c == v + q * k);
    vstd::arithmetic::div_mod::lemma_fundamental_div_mod(d0 * q, t);
    vstd::arithmetic::div_mod::lemma_fundamental_div_mod(d1 * q, t);
    let r0 = (d0 * q) % t;
    let r1 = (d1 * q) % t;
    vstd::arithmetic::div_mod::lemma_mod_bound(d0 * q, t);
    vstd::arithmetic::div_mod::lemma_mod_bound(d1 * q, t);
    let w0 = (d0 * q) / t;
    let w1 = (d1 * q) / t;
    let dd = t * noise - r0 - r1;
    assert(c * t == v * t + (q * k) * t) by (nonlinear_arith)
        requires c == v + q * k;
    assert(v * t == w0 * t + w1 * t + noise * t) by (nonlinear_arith)
        requires v == w0 + w1 + noise;
    assert(w0 * t == t * w0 && w1 * t == t * w1 && noise * t == t * noise) by (nonlinear_arith);
    assert(t * w0 == d0 * q - r0);
    assert(t * w1 == d1 * q - r1);
    assert((q * k) * t == (t * k) * q) by (nonlinear_arith);
    assert((d0 + d1 + t * k) * q == d0 * q + d1 * q + (t * k) * q) by (nonlinear_arith);
    assert(c * t == (d0 + d1 + t * k) * q + dd);
    assert(2 * dd < q && 2 * dd > -q) by (nonlinear_arith)
        requires
            dd == t * noise - r0 - r1,
            -bnd <= noise <= bnd,
            0 <= r0 < t,
            0 <= r1 < t,
            2 * (t * bnd + 2 * t) <= q,
            0 <= bnd,
            2 <= t,
    ;
    lemma_nearest_multiple(d0 + d1 + t * k, dd, q);
    assert((d0 + d1 + t * k) % t == (d0 + d1) % t) by {
        vstd::arithmetic::div_mod::lemma_mod_multiples_vanish(k, d0 + d1, t);
        assert(t * k + (d0 + d1) == d0 + d1 + t * k);
    }
}

/// Homomorphic addition: the coefficient-wise sum of two fresh ciphertexts
/// under one key decrypts to the digit-wise sum of the two plaintext blocks
/// modulo `t`, within the doubled noise budget.
pub proof fn lemma_hom_add(
    a: Seq<int>,
    s: Seq<int>,
    e: Seq<int>,
    u0: Seq<int>,
    e10: Seq<int>,
    e20: Seq<int>,
    m0: Seq<int>,
    u1: Seq<int>,
    e11: Seq<int>,
    e21: Seq<int>,
    m1: Seq<int>,
    q: int,
    t: int,
    n: nat,
)
    requires
        n >= 1,
        q >= 3,
        2 <= t < q,
        a.len() <= n,
        s.len() <= n,
        e.len() <= n,
        u0.len() <= n,
        e10.len() <= n,
        e20.len() <= n,
        m0.len() <= n,
        u1.len() <= n,
        e11.len() <= n,
        e21.len() <= n,
        m1.len() <= n,
        bounded(s, 1),
        bounded(e, 1),
        bounded(u0, 1),
        bounded(e10, 1),
        bounded(e20, 1),
        bounded(u1, 1),
        bounded(e11, 1),
        bounded(e21, 1),
        forall|jj: int| 0 <= #[trigger] pcoeff(m0, jj) < t,
        forall|jj: int| 0 <= #[trigger] pcoeff(m1, jj) < t,
        2 * (t * (2 * (2 * n as int + 1)) + 2 * t) <= q,
    ensures
        decrypt_spec(
            s,
            add_spec(
                encrypt_c0_spec(keygen_b_spec(a, s, e, q, n), m0, u0, e10, q, t, n),
                encrypt_c0_spec(keygen_b_spec(a, s, e, q, n), m1, u1, e11, q, t, n),
                0,
                n,
            ),
            add_spec(
                encrypt_c1_spec(a, u0, e20, q, n),
                encrypt_c1_spec(a, u1, e21, q, n),
                0,
                n,
            ),
            q,
            t,
            n,
        ) == trim(Seq::new(n, |j: int| (pcoeff(m0, j) + pcoeff(m1, j)) % t)),
{
    let b = keygen_b_spec(a, s, e, q, n);
    let c0a = encrypt_c0_spec(b, m0, u0, e10, q, t, n);
    let c0b = encrypt_c0_spec(b, m1, u1, e11, q, t, n);
    let c1a = encrypt_c1_spec(a, u0, e20, q, n);
    let c1b = encrypt_c1_spec(a, u1, e21, q, n);
    let c0s = add_spec(c0a, c0b, 0, n);
    let c1s = add_spec(c1a, c1b, 0, n);
    let xx = mul_spec(c1s, s, q, n);
    let scaled = add_spec(xx, c0s, q, n);
    lemma_fresh_ct_cong(a, s, e, u0, e10, e20, m0, q, t, n, 0);
    lemma_fresh_ct_cong(a, s, e, u1, e11, e21, m1, q, t, n, 0);
    lemma_add_spec0_pcoeff(c0a, c0b, n);
    lemma_add_spec0_pcoeff(c1a, c1b, n);
    lemma_mul_spec_shape(c1s, s, q, n);
    lemma_add_spec_shape(xx, c0s, q, n);
    lemma_mul_spec_pcoeff(c1s, s, q, n);
    lemma_mul_spec_pcoeff(c1a, s, q, n);
    lemma_mul_spec_pcoeff(c1b, s, q, n);
    lemma_add_spec_pcoeff(xx, c0s, q, n);
    lemma_padd_pcoeff(c1a, c1b);
    assert forall|d: int| #[trigger] pcoeff(c1s, d) % q == pcoeff(padd(c1a, c1b), d) % q by {
    }
    assert forall|j: int| 0 <= j < n implies #[trigger] nearest_int_spec(
        pcoeff(scaled, j) * t,
        q,
    ) % t == (pcoeff(m0, j) + pcoeff(m1, j)) % t by {
        lemma_fresh_ct_cong(a, s, e, u0, e10, e20, m0, q, t, n, j);
        lemma_fresh_ct_cong(a, s, e, u1, e11, e21, m1, q, t, n, j);
        let na = fresh_noise(e20, s, e, u0, e10, n, j);
        let nb2 = fresh_noise(e21, s, e, u1, e11, n, j);
        let va = (pcoeff(m0, j) * q) / t + na;
        let vb = (pcoeff(m1, j) * q) / t + nb2;
        // split the summed second component
        lemma_nmul_congruent(c1s, padd(c1a, c1b), s, n, j, q);
        lemma_nmul_comm(padd(c1a, c1b), s, n, j);
        lemma_nmul_dist(s, c1a, c1b, padd(c1a, c1b), n, j);
        lemma_nmul_comm(s, c1a, n, j);
        lemma_nmul_comm(s, c1b, n, j);
        lemma_cong_mod_eq(nmul_at(c1s, s, n, j), nmul_at(padd(c1a, c1b), s, n, j), q);
        // replace each product coefficient by its centered form
        let xa = pcoeff(mul_spec(c1a, s, q, n), j);
        let xb = pcoeff(mul_spec(c1b, s, q, n), j);
        assert(xa == centered(nmul_at(c1a, s, n, j), q));
        assert(xb == centered(nmul_at(c1b, s, n, j), q));
        lemma_cong_centered(nmul_at(c1a, s, n, j), q);
        lemma_cong_centered(nmul_at(c1b, s, n, j), q);
        // from the fresh-ciphertext congruences
        assert(cong(xa + pcoeff(c0a, j), va, q));
        assert(cong(xb + pcoeff(c0b, j), vb, q));
        vstd::arithmetic::div_mod::lemma_small_mod(0nat, q as nat);
        assert(0int % q == 0);
        lemma_cong_basic(xa, nmul_at(c1a, s, n, j), xb, nmul_at(c1b, s, n, j), q);
        lemma_cong_basic(xb, nmul_at(c1b, s, n, j), xa, nmul_at(c1a, s, n, j), q);
        lemma_cong_basic(nmul_at(c1a, s, n, j), xa, pcoeff(c0a, j), pcoeff(c0a, j), q);
        lemma_cong_trans(nmul_at(c1a, s, n, j) + pcoeff(c0a, j), xa + pcoeff(c0a, j), va, q);
        lemma_cong_basic(nmul_at(c1b, s, n, j), xb, pcoeff(c0b, j), pcoeff(c0b, j), q);
        lemma_cong_trans(nmul_at(c1b, s, n, j) + pcoeff(c0b, j), xb + pcoeff(c0b, j), vb, q);
        lemma_cong_basic(
            nmul_at(c1a, s, n, j) + pcoeff(c0a, j),
            va,
            nmul_at(c1b, s, n, j) + pcoeff(c0b, j),
            vb,
            q,
        );
        // assemble the full scaled coefficient
        assert(pcoeff(xx, j) == centered(nmul_at(c1s, s, n, j), q));
        lemma_cong_centered(nmul_at(c1s, s, n, j), q);
        assert(pcoeff(scaled, j) == centered(pcoeff(xx, j) + pcoeff(c0s, j), q));
        lemma_cong_centered(pcoeff(xx, j) + pcoeff(c0s, j), q);
        assert(pcoeff(c0s, j) == pcoeff(c0a, j) + pcoeff(c0b, j));
        lemma_cong_basic(
            pcoeff(xx, j),
            nmul_at(c1s, s, n, j),
            pcoeff(c0s, j),
            pcoeff(c0s, j),
            q,
        );
        lemma_cong_trans(
            pcoeff(scaled, j),
            pcoeff(xx, j) + pcoeff(c0s, j),
            nmul_at(c1s, s, n, j) + pcoeff(c0s, j),
            q,
        );
        lemma_cong_basic(
            nmul_at(c1s, s, n, j),
            nmul_at(c1a, s, n, j) + nmul_at(c1b, s, n, j),
            pcoeff(c0s, j),
            pcoeff(c0s, j),
            q,
        );
        lemma_cong_trans(
            pcoeff(scaled, j),
            nmul_at(c1s, s, n, j) + pcoeff(c0s, j),
            nmul_at(c1a, s, n, j) + nmul_at(c1b, s, n, j) + pcoeff(c0s, j),
            q,
        );
        assert(nmul_at(c1a, s, n, j) + nmul_at(c1b, s, n, j) + pcoeff(c0s, j) == (nmul_at(
            c1a,
            s,
            n,
            j,
        ) + pcoeff(c0a, j)) + (nmul_at(c1b, s, n, j) + pcoeff(c0b, j)));
        lemma_cong_trans(pcoeff(scaled, j), (nmul_at(c1a, s, n, j) + pcoeff(c0a, j)) + (nmul_at(
            c1b,
            s,
            n,
            j,
        ) + pcoeff(c0b, j)), va + vb, q);
        assert(va + vb == (pcoeff(m0, j) * q) / t + (pcoeff(m1, j) * q) / t + (na + nb2));
        lemma_round_digit_sum(
            pcoeff(scaled, j),
            pcoeff(m0, j),
            pcoeff(m1, j),
            na + nb2,
            2 * (2 * n as int + 1),
            q,
            t,
        );
    }
    // package the digits
    let digits = scaled.map(|jj: int, c: int| nearest_int_spec(c * t, q) % t);
    let expected = Seq::new(n, |j: int| (pcoeff(m0, j) + pcoeff(m1, j)) % t);
    assert forall|j: int| #[trigger] pcoeff(digits, j) == pcoeff(expected, j) by {
        if 0 <= j < scaled.len() {
            assert(digits[j] == nearest_int_spec(scaled[j] * t, q) % t);
            assert(pcoeff(scaled, j) == scaled[j]);
            assert(scaled.len() <= n);
        } else if 0 <= j < n {
            assert(pcoeff(scaled, j) == 0);
            assert(nearest_int_spec(0 * t, q) % t == (pcoeff(m0, j) + pcoeff(m1, j)) % t);
            assert(0int * t == 0) by (nonlinear_arith);
            assert(nearest_int_spec(0, q) == 0) by {
                vstd::arithmetic::div_mod::lemma_fundamental_div_mod(q, 2);
                vstd::arithmetic::div_mod::lemma_mod_bound(q, 2);
                vstd::arithmetic::div_mod::lemma_fundamental_div_mod_converse_div(
                    0 + q / 2,
                    q,
                    0,
                    q / 2,
                );
                assert(0int * q + q / 2 == q / 2) by (nonlinear_arith);
            }
            vstd::arithmetic::div_mod::lemma_small_mod(0nat, t as nat);
            assert(pcoeff(expected, j) == (pcoeff(m0, j) + pcoeff(m1, j)) % t);
        } else {
        }
    }
    lemma_padded_eq_trim(digits, expected);
    assert(decrypt_spec(s, c0s, c1s, q, t, n) == trim(digits));
}

/// The degree-2 decryption identity, re-derived from the decryption
/// equation: with `d0 = x0*y0`, `d1 = x0*y1 + x1*y0` and `d2 = x1*y1`
/// computed under any modulus `qm`, the combination `d0 + d1*s + d2*s^2` is
/// congruent, coefficient by coefficient, to the ring product
/// `(x0 + x1*s) * (y0 + y1*s)` of the two decryption combinations.
pub proof fn lemma_deg2_identity(
    x0: Seq<int>,
    x1: Seq<int>,
    y0: Seq<int>,
    y1: Seq<int>,
    s: Seq<int>,
    qm: int,
    n: nat,
    j: int,
)
    requires
        n >= 1,
        qm >= 1,
        x0.len() <= n,
        x1.len() <= n,
        y0.len() <= n,
        y1.len() <= n,
        s.len() <= n,
        0 <= j < n,
    ensures
        cong(
            pcoeff(
                crate::homomorphic::deg2_combine_spec(
                    mul_spec(x0, y0, qm, n),
                    add_spec(mul_spec(x0, y1, qm, n), mul_spec(x1, y0, qm, n), qm, n),
                    mul_spec(x1, y1, qm, n),
                    s,
                    qm,
                    n,
                ),
                j,
            ),
            nmul_at(padd(x0, nmul(x1, s, n)), padd(y0, nmul(y1, s, n)), n, j),
            qm,
        ),
{
    let d0 = mul_spec(x0, y0, qm, n);
    let d01 = mul_spec(x0, y1, qm, n);
    let d10 = mul_spec(x1, y0, qm, n);
    let d1 = add_spec(d01, d10, qm, n);
    let d2 = mul_spec(x1, y1, qm, n);
    let d1s = mul_spec(d1, s, qm, n);
    let d2s = mul_spec(d2, s, qm, n);
    let d2ss = mul_spec(d2s, s, qm, n);
    let inner = add_spec(d0, d1s, qm, n);
    let nm01 = nmul(x0, y1, n);
    let nm10 = nmul(x1, y0, n);
    let nm11 = nmul(x1, y1, n);
    let xs = nmul(x1, s, n);
    let ys = nmul(y1, s, n);
    let ss = nmul(s, s, n);
    crate::poly::lemma_ring_len(d01, d10, qm, n);
    lemma_mul_spec_shape(x0, y0, qm, n);
    lemma_mul_spec_shape(x0, y1, qm, n);
    lemma_mul_spec_shape(x1, y0, qm, n);
    lemma_mul_spec_shape(x1, y1, qm, n);
    lemma_mul_spec_shape(d1, s, qm, n);
    lemma_mul_spec_shape(d2s, s, qm, n);
    lemma_mul_spec_shape(d2, s, qm, n);
    crate::poly::lemma_ring_len(d0, d1s, qm, n);
    // the combination splits into its three parts
    lemma_add_spec_pcoeff(inner, d2ss, qm, n);
    lemma_add_spec_pcoeff(d0, d1s, qm, n);
    lemma_cong_centered(pcoeff(inner, j) + pcoeff(d2ss, j), qm);
    lemma_cong_centered(pcoeff(d0, j) + pcoeff(d1s, j), qm);
    // each product coefficient is congruent to its abstract product
    lemma_mul_spec_pcoeff(x0, y0, qm, n);
    lemma_mul_spec_pcoeff(x0, y1, qm, n);
    lemma_mul_spec_pcoeff(x1, y0, qm, n);
    lemma_mul_spec_pcoeff(x1, y1, qm, n);
    lemma_mul_spec_pcoeff(d1, s, qm, n);
    lemma_mul_spec_pcoeff(d2, s, qm, n);
    lemma_mul_spec_pcoeff(d2s, s, qm, n);
    lemma_add_spec_pcoeff(d01, d10, qm, n);
    // the middle term: d1 is congruent to the sum of the two cross products
    lemma_padd_pcoeff(nm01, nm10);
    assert forall|d: int| #[trigger] pcoeff(d1, d) % qm == pcoeff(padd(nm01, nm10), d) % qm by {
        lemma_cong_centered(pcoeff(d01, d) + pcoeff(d10, d), qm);
        if 0 <= d < n {
            lemma_cong_centered(nmul_at(x0, y1, n, d), qm);
            lemma_cong_centered(nmul_at(x1, y0, n, d), qm);
            lemma_cong_basic(pcoeff(d01, d), nmul_at(x0, y1, n, d), pcoeff(d10, d), nmul_at(
                x1,
                y0,
                n,
                d,
            ), qm);
            lemma_cong_trans(
                pcoeff(d1, d),
                pcoeff(d01, d) + pcoeff(d10, d),
                nmul_at(x0, y1, n, d) + nmul_at(x1, y0, n, d),
                qm,
            );
            lemma_cong_mod_eq(pcoeff(d1, d), pcoeff(padd(nm01, nm10), d), qm);
        } else {
            vstd::arithmetic::div_mod::lemma_small_mod(0nat, qm as nat);
            lemma_cong_mod_eq(pcoeff(d1, d), pcoeff(padd(nm01, nm10), d), qm);
        }
    }
    lemma_nmul_congruent(d1, padd(nm01, nm10), s, n, j, qm);
    lemma_nmul_comm(padd(nm01, nm10), s, n, j);
    lemma_nmul_dist(s, nm01, nm10, padd(nm01, nm10), n, j);
    lemma_nmul_comm(s, nm01, n, j);
    lemma_nmul_comm(s, nm10, n, j);
    // rearrange the cross products
    lemma_nmul_assoc(x0, y1, s, n, j);
    lemma_nmul_assoc(x1, y0, s, n, j);
    lemma_nmul_comm_seq(y0, s, n);
    lemma_nmul_assoc(x1, s, y0, n, j);
    // the quadratic term: two congruence replacements, then pure algebra
    assert forall|d: int| #[trigger] pcoeff(d2s, d) % qm == pcoeff(nmul(d2, s, n), d) % qm by {
        if 0 <= d < n {
            lemma_cong_centered(nmul_at(d2, s, n, d), qm);
            lemma_cong_mod_eq(pcoeff(d2s, d), pcoeff(nmul(d2, s, n), d), qm);
        }
    }
    lemma_nmul_congruent(d2s, nmul(d2, s, n), s, n, j, qm);
    assert forall|d: int| #[trigger] pcoeff(nmul(d2, s, n), d) % qm == pcoeff(
        nmul(nm11, s, n),
        d,
    ) % qm by {
        if 0 <= d < n {
            assert forall|dd: int| #[trigger] pcoeff(d2, dd) % qm == pcoeff(nm11, dd) % qm by {
                if 0 <= dd < n {
                    lemma_cong_centered(nmul_at(x1, y1, n, dd), qm);
                    lemma_cong_mod_eq(pcoeff(d2, dd), pcoeff(nm11, dd), qm);
                }
            }
            lemma_nmul_congruent(d2, nm11, s, n, d, qm);
        }
    }
    lemma_nmul_congruent(nmul(d2, s, n), nmul(nm11, s, n), s, n, j, qm);
    // ((x1*y1)*s)*s == (x1*s)*(y1*s), as pure ring algebra
    lemma_nmul_assoc(nm11, s, s, n, j);
    lemma_nmul_assoc_seq(x1, y1, ss, n);
    lemma_nmul_assoc(x1, y1, ss, n, j);
    assert(nmul_at(nmul(nm11, s, n), s, n, j) == nmul_at(x1, nmul(y1, ss, n), n, j)) by {
        assert(nmul_at(nmul(nm11, s, n), s, n, j) == nmul_at(nm11, ss, n, j));
        assert(nmul_at(nm11, ss, n, j) == nmul_at(x1, nmul(y1, ss, n), n, j));
    }
    lemma_nmul_assoc(x1, s, ys, n, j);
    lemma_nmul_assoc_seq(s, y1, s, n);
    lemma_nmul_comm_seq(s, y1, n);
    lemma_nmul_assoc_seq(y1, s, s, n);
    assert(nmul(s, ys, n) == nmul(y1, ss, n)) by {
        assert(nmul(s, nmul(y1, s, n), n) == nmul(nmul(s, y1, n), s, n));
        assert(nmul(s, y1, n) == nmul(y1, s, n));
        assert(nmul(nmul(y1, s, n), s, n) == nmul(y1, nmul(s, s, n), n));
    }
    assert(nmul_at(xs, ys, n, j) == nmul_at(x1, nmul(y1, ss, n), n, j)) by {
        assert(nmul_at(nmul(x1, s, n), ys, n, j) == nmul_at(x1, nmul(s, ys, n), n, j));
    }
    // expand the right-hand side product of the two decryption combinations
    let ee0 = padd(x0, xs);
    let ee1 = padd(y0, ys);
    lemma_padd_pcoeff(x0, xs);
    lemma_padd_pcoeff(y0, ys);
    lemma_nmul_dist(ee0, y0, ys, ee1, n, j);
    lemma_nmul_comm(ee0, y0, n, j);
    lemma_nmul_dist(y0, x0, xs, ee0, n, j);
    lemma_nmul_comm(y0, x0, n, j);
    lemma_nmul_comm(y0, xs, n, j);
    lemma_nmul_comm(ee0, ys, n, j);
    lemma_nmul_dist(ys, x0, xs, ee0, n, j);
    lemma_nmul_comm(ys, x0, n, j);
    lemma_nmul_comm(ys, xs, n, j);
    assert(nmul_at(ee0, ee1, n, j) == nmul_at(x0, y0, n, j) + nmul_at(xs, y0, n, j) + nmul_at(
        x0,
        ys,
        n,
        j,
    ) + nmul_at(xs, ys, n, j));
    // assemble the congruence chain for the three parts
    lemma_cong_centered(nmul_at(x0, y0, n, j), qm);
    lemma_cong_centered(nmul_at(d1, s, n, j), qm);
    lemma_cong_centered(nmul_at(d2s, s, n, j), qm);
    lemma_cong_mod_eq(nmul_at(d1, s, n, j), nmul_at(padd(nm01, nm10), s, n, j), qm);
    lemma_cong_mod_eq(nmul_at(d2s, s, n, j), nmul_at(nmul(d2, s, n), s, n, j), qm);
    lemma_cong_mod_eq(nmul_at(nmul(d2, s, n), s, n, j), nmul_at(nmul(nm11, s, n), s, n, j), qm);
    lemma_cong_trans(pcoeff(d1s, j), nmul_at(d1, s, n, j), nmul_at(padd(nm01, nm10), s, n, j), qm);
    lemma_cong_trans(pcoeff(d2ss, j), nmul_at(d2s, s, n, j), nmul_at(nmul(d2, s, n), s, n, j), qm);
    lemma_cong_trans(
        pcoeff(d2ss, j),
        nmul_at(nmul(d2, s, n), s, n, j),
        nmul_at(nmul(nm11, s, n), s, n, j),
        qm,
    );
    assert(nmul_at(padd(nm01, nm10), s, n, j) == nmul_at(x0, ys, n, j) + nmul_at(xs, y0, n, j)) by {
        assert(nmul_at(nm01, s, n, j) == nmul_at(x0, ys, n, j));
        assert(nmul_at(nm10, s, n, j) == nmul_at(x1, nmul(y0, s, n), n, j));
        assert(nmul(y0, s, n) == nmul(s, y0, n));
        assert(nmul_at(x1, nmul(s, y0, n), n, j) == nmul_at(nmul(x1, s, n), y0, n, j));
    }
    assert(nmul_at(nmul(nm11, s, n), s, n, j) == nmul_at(xs, ys, n, j));
    lemma_cong_basic(pcoeff(d0, j), nmul_at(x0, y0, n, j), pcoeff(d1s, j), nmul_at(
        x0,
        ys,
        n,
        j,
    ) + nmul_at(xs, y0, n, j), qm);
    lemma_cong_trans(
        pcoeff(inner, j),
        pcoeff(d0, j) + pcoeff(d1s, j),
        nmul_at(x0, y0, n, j) + (nmul_at(x0, ys, n, j) + nmul_at(xs, y0, n, j)),
        qm,
    );
    lemma_cong_basic(
        pcoeff(inner, j),
        nmul_at(x0, y0, n, j) + (nmul_at(x0, ys, n, j) + nmul_at(xs, y0, n, j)),
        pcoeff(d2ss, j),
        nmul_at(xs, ys, n, j),
        qm,
    );
    let combine = add_spec(inner, d2ss, qm, n);
    lemma_cong_trans(
        pcoeff(combine, j),
        pcoeff(inner, j) + pcoeff(d2ss, j),
        nmul_at(x0, y0, n, j) + (nmul_at(x0, ys, n, j) + nmul_at(xs, y0, n, j)) + nmul_at(
            xs,
            ys,
            n,
            j,
        ),
        qm,
    );
}

/// A sequence scaled coefficient-wise.
pub open spec fn scaled_seq(m: Seq<int>, c: int) -> Seq<int> {
    m.map(|i: int, v: int| c * v)
}

/// Scaled sequences read coefficient-wise.
pub proof fn lemma_scaled_pcoeff(m: Seq<int>, c: int)
    ensures
        forall|d: int| #[trigger] pcoeff(scaled_seq(m, c), d) == c * pcoeff(m, d),
{
    assert forall|d: int| #[trigger] pcoeff(scaled_seq(m, c), d) == c * pcoeff(m, d) by {
        if 0 <= d < m.len() {
            assert(scaled_seq(m, c)[d] == c * m[d]);
        } else {
            assert(c * 0 == 0) by (nonlinear_arith);
        }
    }
}

/// Homomorphic multiplication: if the two ciphertexts decrypt exactly, with
/// their combinations `c1*s + c0` equal to the scaled digits plus noise
/// polynomials `w0`, `w1` over the integers, then the degree-2 decryption
/// path recovers the ring product of the two plaintext blocks modulo `t`,
/// whenever the rounding budget and the expanded modulus absorb the
/// quadratic noise.  The budgets are stated over the actual magnitudes of
/// the two plaintext blocks (`bm0`, `bm1`), so small messages instantiate
/// the law even under plaintext moduli with room for their product.
pub proof fn lemma_hom_mul(
    c00: Seq<int>,
    c01: Seq<int>,
    c10: Seq<int>,
    c11: Seq<int>,
    s: Seq<int>,
    m0: Seq<int>,
    m1: Seq<int>,
    w0: Seq<int>,
    w1: Seq<int>,
    bw: int,
    bm0: int,
    bm1: int,
    q: int,
    t: int,
    n: nat,
)
    requires
        n >= 1,
        q >= 3,
        2 <= t < q,
        c00.len() <= n,
        c01.len() <= n,
        c10.len() <= n,
        c11.len() <= n,
        s.len() <= n,
        m0.len() <= n,
        m1.len() <= n,
        w0.len() <= n,
        w1.len() <= n,
        forall|jj: int|
            0 <= jj < n ==> nmul_at(c01, s, n, jj) + pcoeff(c00, jj) == (q / t) * pcoeff(m0, jj)
                + #[trigger] pcoeff(w0, jj),
        forall|jj: int|
            0 <= jj < n ==> nmul_at(c11, s, n, jj) + pcoeff(c10, jj) == (q / t) * pcoeff(m1, jj)
                + #[trigger] pcoeff(w1, jj),
        bounded(m0, bm0),
        bounded(m1, bm1),
        bounded(w0, bw),
        bounded(w1, bw),
        0 <= bw,
        0 <= bm0,
        0 <= bm1,
        2 * ((q / t) * (n as int * (bm0 * bw) + n as int * (bm1 * bw)) + n as int * (bw * bw)) < (
        q / t) * (q / t),
        2 * ((q / t) * ((q / t) * (n as int * (bm0 * bm1))) + (q / t) * (n as int * (bm0 * bw)
            + n as int * (bm1 * bw)) + n as int * (bw * bw)) < q * q,
    ensures
        crate::homomorphic::decrypt_deg2_spec(
            mul_spec(c00, c10, q * q, n),
            add_spec(
                mul_spec(c00, c11, q * q, n),
                mul_spec(c01, c10, q * q, n),
                q * q,
                n,
            ),
            mul_spec(c01, c11, q * q, n),
            s,
            q,
            t,
            n,
        ) == trim(modc_seq(nmul(m0, m1, n), t)),
{
    let qq = q * q;
    let dl = q / t;
    assert(qq >= 9 && dl >= 1) by {
        assert(q * q >= 9) by (nonlinear_arith)
            requires q >= 3;
        vstd::arithmetic::div_mod::lemma_div_is_ordered(t, q, t);
        vstd::arithmetic::div_mod::lemma_div_by_self(t);
    }
    let dd = dl * dl;
    assert(dd >= 1) by (nonlinear_arith)
        requires dl >= 1, dd == dl * dl;
    let d0 = mul_spec(c00, c10, qq, n);
    let d1 = add_spec(mul_spec(c00, c11, qq, n), mul_spec(c01, c10, qq, n), qq, n);
    let d2 = mul_spec(c01, c11, qq, n);
    let combine = crate::homomorphic::deg2_combine_spec(d0, d1, d2, s, qq, n);
    let ee0 = padd(c00, nmul(c01, s, n));
    let ee1 = padd(c10, nmul(c11, s, n));
    let sw0 = padd(scaled_seq(m0, dl), w0);
    let sw1 = padd(scaled_seq(m1, dl), w1);
    let sc0 = scaled_seq(m0, dl);
    let sc1 = scaled_seq(m1, dl);
    let prod = nmul(m0, m1, n);
    lemma_padd_pcoeff(c00, nmul(c01, s, n));
    lemma_padd_pcoeff(c10, nmul(c11, s, n));
    lemma_padd_pcoeff(sc0, w0);
    lemma_padd_pcoeff(sc1, w1);
    lemma_scaled_pcoeff(m0, dl);
    lemma_scaled_pcoeff(m1, dl);
    // the two decryption combinations equal the scaled digits plus noise
    assert forall|d: int| #[trigger] pcoeff(ee0, d) == pcoeff(sw0, d) by {
        if 0 <= d < n {
            assert(pcoeff(nmul(c01, s, n), d) == nmul_at(c01, s, n, d));
        } else {
            assert(dl * 0 == 0) by (nonlinear_arith);
        }
    }
    assert forall|d: int| #[trigger] pcoeff(ee1, d) == pcoeff(sw1, d) by {
        if 0 <= d < n {
            assert(pcoeff(nmul(c11, s, n), d) == nmul_at(c11, s, n, d));
        } else {
            assert(dl * 0 == 0) by (nonlinear_arith);
        }
    }
    // shape and noise bounds of the product terms
    lemma_bounded_pcoeff(m0, bm0);
    lemma_bounded_pcoeff(m1, bm1);
    lemma_bounded_pcoeff(w0, bw);
    lemma_bounded_pcoeff(w1, bw);
    let big = dl * (dl * (n as int * (bm0 * bm1))) + dl * (n as int * (bm0 * bw) + n as int * (bm1
        * bw)) + n as int * (bw * bw);
    // every coefficient of the combination equals the exact integer value
    assert forall|j: int| 0 <= j < n implies #[trigger] pcoeff(combine, j) == dd * nmul_at(
        m0,
        m1,
        n,
        j,
    ) + (dl * (nmul_at(m0, w1, n, j) + nmul_at(m1, w0, n, j)) + nmul_at(w0, w1, n, j)) by {
        lemma_deg2_identity(c00, c01, c10, c11, s, qq, n, j);
        // replace both factors by their scaled-digit form
        assert forall|d: int| #[trigger] pcoeff(ee0, d) % qq == pcoeff(sw0, d) % qq by {
        }
        assert forall|d: int| #[trigger] pcoeff(ee1, d) % qq == pcoeff(sw1, d) % qq by {
        }
        lemma_nmul_congruent(ee0, sw0, ee1, n, j, qq);
        lemma_nmul_comm(sw0, ee1, n, j);
        lemma_nmul_congruent(ee1, sw1, sw0, n, j, qq);
        lemma_nmul_comm(sw1, sw0, n, j);
        lemma_cong_mod_eq(nmul_at(ee0, ee1, n, j), nmul_at(sw0, ee1, n, j), qq);
        lemma_cong_mod_eq(nmul_at(ee1, sw0, n, j), nmul_at(sw1, sw0, n, j), qq);
        lemma_cong_trans(nmul_at(ee0, ee1, n, j), nmul_at(sw0, ee1, n, j), nmul_at(
            sw0,
            sw1,
            n,
            j,
        ), qq);
        // expand the product of the two scaled-digit forms exactly
        lemma_nmul_dist(sw0, sc1, w1, sw1, n, j);
        lemma_nmul_comm(sw0, sc1, n, j);
        lemma_nmul_dist(sc1, sc0, w0, sw0, n, j);
        lemma_nmul_comm(sc1, sc0, n, j);
        lemma_nmul_comm(sc1, w0, n, j);
        lemma_nmul_comm(sw0, w1, n, j);
        lemma_nmul_dist(w1, sc0, w0, sw0, n, j);
        lemma_nmul_comm(w1, sc0, n, j);
        lemma_nmul_comm(w1, w0, n, j);
        lemma_nmul_scale(m0, sc0, sc1, n, j, dl);
        lemma_nmul_scale(m1, sc1, m0, n, j, dl);
        lemma_nmul_comm(m0, sc1, n, j);
        lemma_nmul_comm(m0, m1, n, j);
        lemma_nmul_scale(m0, sc0, w1, n, j, dl);
        lemma_nmul_scale(m1, sc1, w0, n, j, dl);
        assert(nmul_at(sc1, w0, n, j) == nmul_at(w0, sc1, n, j)) by {
            lemma_nmul_comm(sc1, w0, n, j);
        }
        assert(nmul_at(w0, sc1, n, j) == dl * nmul_at(w0, m1, n, j)) by {
            lemma_nmul_comm(w0, sc1, n, j);
            lemma_nmul_comm(w0, m1, n, j);
            assert(nmul_at(sc1, w0, n, j) == dl * nmul_at(m1, w0, n, j));
        }
        assert(nmul_at(w0, m1, n, j) == nmul_at(m1, w0, n, j)) by {
            lemma_nmul_comm(w0, m1, n, j);
        }
        assert(nmul_at(w1, sw0, n, j) == nmul_at(sw0, w1, n, j)) by {
            lemma_nmul_comm(w1, sw0, n, j);
        }
        assert(nmul_at(w1, sc0, n, j) == nmul_at(sc0, w1, n, j)) by {
            lemma_nmul_comm(w1, sc0, n, j);
        }
        assert(nmul_at(sc0, w1, n, j) == dl * nmul_at(m0, w1, n, j));
        assert(nmul_at(w1, w0, n, j) == nmul_at(w0, w1, n, j)) by {
            lemma_nmul_comm(w1, w0, n, j);
        }
        assert(nmul_at(sc0, sc1, n, j) == dd * nmul_at(m0, m1, n, j)) by (nonlinear_arith)
            requires
                nmul_at(sc0, sc1, n, j) == dl * nmul_at(m0, sc1, n, j),
                nmul_at(m0, sc1, n, j) == nmul_at(sc1, m0, n, j),
                nmul_at(sc1, m0, n, j) == dl * nmul_at(m1, m0, n, j),
                nmul_at(m1, m0, n, j) == nmul_at(m0, m1, n, j),
                dd == dl * dl,
        ;
        let tt = dd * nmul_at(m0, m1, n, j) + (dl * (nmul_at(m0, w1, n, j) + nmul_at(
            m1,
            w0,
            n,
            j,
        )) + nmul_at(w0, w1, n, j));
        assert(nmul_at(sw0, sw1, n, j) == tt) by (nonlinear_arith)
            requires
                nmul_at(sw0, sw1, n, j) == nmul_at(sw0, sc1, n, j) + nmul_at(sw0, w1, n, j),
                nmul_at(sw0, sc1, n, j) == nmul_at(sc1, sc0, n, j) + nmul_at(sc1, w0, n, j),
                nmul_at(sc1, sc0, n, j) == nmul_at(sc0, sc1, n, j),
                nmul_at(sc0, sc1, n, j) == dd * nmul_at(m0, m1, n, j),
                nmul_at(sc1, w0, n, j) == nmul_at(w0, sc1, n, j),
                nmul_at(w0, sc1, n, j) == dl * nmul_at(w0, m1, n, j),
                nmul_at(w0, m1, n, j) == nmul_at(m1, w0, n, j),
                nmul_at(sw0, w1, n, j) == nmul_at(w1, sw0, n, j),
                nmul_at(w1, sw0, n, j) == nmul_at(w1, sc0, n, j) + nmul_at(w1, w0, n, j),
                nmul_at(w1, sc0, n, j) == nmul_at(sc0, w1, n, j),
                nmul_at(sc0, w1, n, j) == dl * nmul_at(m0, w1, n, j),
                nmul_at(w1, w0, n, j) == nmul_at(w0, w1, n, j),
                tt == dd * nmul_at(m0, m1, n, j) + (dl * (nmul_at(m0, w1, n, j) + nmul_at(
                    m1,
                    w0,
                    n,
                    j,
                )) + nmul_at(w0, w1, n, j)),
        ;
        // the magnitudes stay inside the expanded modulus
        lemma_nmul_bound(m0, m1, n, j, bm0, bm1);
        lemma_nmul_bound(m0, w1, n, j, bm0, bw);
        lemma_nmul_bound(m1, w0, n, j, bm1, bw);
        lemma_nmul_bound(w0, w1, n, j, bw, bw);
        assert(-big <= tt <= big) by (nonlinear_arith)
            requires
                tt == dd * nmul_at(m0, m1, n, j) + (dl * (nmul_at(m0, w1, n, j) + nmul_at(
                    m1,
                    w0,
                    n,
                    j,
                )) + nmul_at(w0, w1, n, j)),
                dd == dl * dl,
                dl >= 1,
                big == dl * (dl * (n as int * (bm0 * bm1))) + dl * (n as int * (bm0 * bw)
                    + n as int * (bm1 * bw)) + n as int * (bw * bw),
                -(n as int * (bm0 * bm1)) <= nmul_at(m0, m1, n, j) <= n as int * (bm0 * bm1),
                -(n as int * (bm0 * bw)) <= nmul_at(m0, w1, n, j) <= n as int * (bm0 * bw),
                -(n as int * (bm1 * bw)) <= nmul_at(m1, w0, n, j) <= n as int * (bm1 * bw),
                -(n as int * (bw * bw)) <= nmul_at(w0, w1, n, j) <= n as int * (bw * bw),
        ;
        assert(2 * big < qq) by (nonlinear_arith)
            requires
                big == dl * (dl * (n as int * (bm0 * bm1))) + dl * (n as int * (bm0 * bw)
                    + n as int * (bm1 * bw)) + n as int * (bw * bw),
                2 * (dl * (dl * (n as int * (bm0 * bm1))) + dl * (n as int * (bm0 * bw) + n as int
                    * (bm1 * bw)) + n as int * (bw * bw)) < q * q,
                qq == q * q,
        ;
        // both the stored coefficient and the exact value lie in the
        // centered window and are congruent, so they are equal
        let inner2 = add_spec(d0, mul_spec(d1, s, qq, n), qq, n);
        let d2ss2 = mul_spec(mul_spec(d2, s, qq, n), s, qq, n);
        crate::poly::lemma_ring_len(d0, mul_spec(d1, s, qq, n), qq, n);
        lemma_mul_spec_shape(mul_spec(d2, s, qq, n), s, qq, n);
        lemma_add_spec_pcoeff(inner2, d2ss2, qq, n);
        lemma_cong_centered(pcoeff(inner2, j) + pcoeff(d2ss2, j), qq);
        lemma_centered(pcoeff(inner2, j) + pcoeff(d2ss2, j), qq);
        lemma_cong_trans(
            pcoeff(combine, j),
            nmul_at(ee0, ee1, n, j),
            nmul_at(sw0, sw1, n, j),
            qq,
        );
        lemma_cong_mod_eq(pcoeff(combine, j), tt, qq);
        assert(centered(pcoeff(combine, j), qq) == centered(tt, qq));
        vstd::arithmetic::div_mod::lemma_fundamental_div_mod(qq, 2);
        vstd::arithmetic::div_mod::lemma_mod_bound(qq, 2);
        assert(tt <= qq / 2 && qq / 2 - qq < tt);
        lemma_centered_identity(pcoeff(combine, j), qq);
        lemma_centered_identity(tt, qq);
    }
    // round each coefficient back to the product digit
    assert forall|j: int| 0 <= j < n implies #[trigger] nearest_int_spec(pcoeff(combine, j), dd)
        == nmul_at(m0, m1, n, j) by {
        lemma_nmul_bound(m0, w1, n, j, bm0, bw);
        lemma_nmul_bound(m1, w0, n, j, bm1, bw);
        lemma_nmul_bound(w0, w1, n, j, bw, bw);
        let cc = dl * (nmul_at(m0, w1, n, j) + nmul_at(m1, w0, n, j)) + nmul_at(w0, w1, n, j);
        assert(2 * cc < dd && 2 * cc > -dd) by (nonlinear_arith)
            requires
                cc == dl * (nmul_at(m0, w1, n, j) + nmul_at(m1, w0, n, j)) + nmul_at(
                    w0,
                    w1,
                    n,
                    j,
                ),
                dl >= 1,
                dd == dl * dl,
                -(n as int * (bm0 * bw)) <= nmul_at(m0, w1, n, j) <= n as int * (bm0 * bw),
                -(n as int * (bm1 * bw)) <= nmul_at(m1, w0, n, j) <= n as int * (bm1 * bw),
                -(n as int * (bw * bw)) <= nmul_at(w0, w1, n, j) <= n as int * (bw * bw),
                2 * (dl * (n as int * (bm0 * bw) + n as int * (bm1 * bw)) + n as int * (bw * bw))
                    < dl * dl,
        ;
        assert(pcoeff(combine, j) == nmul_at(m0, m1, n, j) * dd + cc) by (nonlinear_arith)
            requires
                pcoeff(combine, j) == dd * nmul_at(m0, m1, n, j) + cc,
        ;
        lemma_nearest_multiple(nmul_at(m0, m1, n, j), cc, dd);
    }
    // package the rounded digits, centered modulo t
    let digits = combine.map(|jj: int, c: int| nearest_int_spec(c, (q / t) * (q / t)));
    crate::poly::lemma_trim_modc_absorb(digits, t);
    lemma_trim_pcoeff(digits);
    assert forall|d: int| #[trigger] pcoeff(modc_seq(digits, t), d) == pcoeff(
        modc_seq(prod, t),
        d,
    ) by {
        lemma_modc_pcoeff_all(digits, t);
        lemma_modc_pcoeff_all(prod, t);
        if 0 <= d < combine.len() {
            assert(combine.len() <= n) by {
                crate::poly::lemma_ring_len(
                    add_spec(d0, mul_spec(d1, s, qq, n), qq, n),
                    mul_spec(mul_spec(d2, s, qq, n), s, qq, n),
                    qq,
                    n,
                );
            }
            assert(digits[d] == nearest_int_spec(combine[d], dd));
            assert(pcoeff(combine, d) == combine[d]);
            assert(nearest_int_spec(pcoeff(combine, d), dd) == nmul_at(m0, m1, n, d));
            assert(pcoeff(prod, d) == nmul_at(m0, m1, n, d));
        } else if 0 <= d < n {
            assert(combine.len() <= n) by {
                crate::poly::lemma_ring_len(
                    add_spec(d0, mul_spec(d1, s, qq, n), qq, n),
                    mul_spec(mul_spec(d2, s, qq, n), s, qq, n),
                    qq,
                    n,
                );
            }
            assert(pcoeff(combine, d) == 0);
            assert(nearest_int_spec(pcoeff(combine, d), dd) == nmul_at(m0, m1, n, d));
            assert(pcoeff(digits, d) == 0);
            assert(nearest_int_spec(0, dd) == 0) by {
                vstd::arithmetic::div_mod::lemma_fundamental_div_mod(dd, 2);
                vstd::arithmetic::div_mod::lemma_mod_bound(dd, 2);
                vstd::arithmetic::div_mod::lemma_fundamental_div_mod_converse_div(
                    0 + dd / 2,
                    dd,
                    0,
                    dd / 2,
                );
                assert(0int * dd + dd / 2 == dd / 2) by (nonlinear_arith);
            }
            assert(pcoeff(prod, d) == 0);
            vstd::arithmetic::div_mod::lemma_small_mod(0nat, t as nat);
        } else {
            assert(pcoeff(digits, d) == 0);
            assert(pcoeff(prod, d) == 0);
            vstd::arithmetic::div_mod::lemma_small_mod(0nat, t as nat);
        }
    }
    lemma_padded_eq_trim(modc_seq(digits, t), modc_seq(prod, t));
}

} // verus!

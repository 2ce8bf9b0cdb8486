//! Decryption: the secret key removes the masking product, and each
//! coefficient is rounded back to a plaintext digit.

use vstd::prelude::*;
use crate::poly::{Poly, pcoeff, to_ints, bounded, mul_spec, add_spec, nearest_int_spec, trim,
    red, conv, modc_seq, centered, mod_coeffs, polyadd, nearest_int, euclid_rem,
    lemma_mul_spec_shape, lemma_add_spec_shape, lemma_trim_pcoeff, lemma_padded_eq_trim,
    lemma_centered, lemma_centered_trim_shape};
use crate::ring::{nmul_at, lemma_red_conv_nmul, lemma_nmul_congruent};
use crate::params::Parameters;
use crate::transform::polymul_fast;

verus! {

/// The rounded digits of a scaled-plaintext polynomial: each coefficient `c`
/// becomes the nearest integer to `c*t/q`, reduced to `[0, t)`.
pub open spec fn digits_spec(s: Seq<int>, q: int, t: int) -> Seq<int> {
    trim(s.map(|j: int, c: int| nearest_int_spec(c * t, q) % t))
}

/// What decryption recovers from a ciphertext `(c0, c1)`: the digits of
/// `c1*sk + c0`, reduced in `Z_q[x]/(x^n + 1)`.
pub open spec fn decrypt_spec(
    sk: Seq<int>,
    c0: Seq<int>,
    c1: Seq<int>,
    q: int,
    t: int,
    n: nat,
) -> Seq<int> {
    digits_spec(add_spec(mul_spec(c1, sk, q, n), c0, q, n), q, t)
}

/// Decrypts one ciphertext block with the secret key.
pub fn decrypt(sk: &Poly, ct: &[Poly; 2], params: &Parameters) -> (r: Poly)
    requires
        params.wf(),
        params.ntt_ready(),
        params.q * params.q <= 0x7fff_ffff_ffff_ffff,
        sk@.len() <= params.n,
        ct[0]@.len() <= params.n,
        ct[1]@.len() <= params.n,
        bounded(sk@, (params.q - 1) as int),
        bounded(ct[1]@, 0x4000_0000_0000_0000),
        bounded(ct[0]@, 0x4000_0000_0000_0000),
    ensures
        r@ == decrypt_spec(
            sk@,
            ct[0]@,
            ct[1]@,
            params.q as int,
            params.t as int,
            params.n as nat,
        ),
{
    let q = params.q;
    let t = params.t;
    // center the masking component modulo q first: a congruent operand gives
    // the same reduced product, and the transform wants small values
    let c1c = mod_coeffs(ct[1].duplicate(), q);
    proof {
        lemma_centered_trim_shape(ct[1]@, q as int);
        lemma_trim_pcoeff(modc_seq(ct[1]@, q as int));
        lemma_modc_pc(ct[1]@, q as int);
        assert(bounded(c1c@, (q - 1) as int)) by {
            assert forall|k: int| 0 <= k < c1c@.len() implies -((q - 1) as int) <= #[trigger] (
            c1c@[k]) <= (q - 1) as int by {
                assert(-(q as int / 2) <= c1c@[k] <= q as int / 2);
            }
        }
    }
    let prod = polymul_fast(&c1c, sk, q, &params.f, params.omega);
    proof {
        lemma_mul_spec_shape(ct[1]@, sk@, q as int, params.n as nat);
        assert forall|d: int| #[trigger] pcoeff(c1c@, d) % (q as int) == #[trigger] pcoeff(
            ct[1]@,
            d,
        ) % (q as int) by {
            assert(pcoeff(c1c@, d) == pcoeff(modc_seq(ct[1]@, q as int), d));
            if 0 <= d < ct[1]@.len() {
                lemma_centered(ct[1]@[d], q as int);
            }
        }
        lemma_mul_spec_congruent(c1c@, ct[1]@, sk@, q as int, params.n as nat);
        assert(prod@ == mul_spec(ct[1]@, sk@, q as int, params.n as nat));
    }
    let scaled = polyadd(&prod, &ct[0], q, &params.f);
    proof {
        lemma_add_spec_shape(prod@, ct[0]@, q as int, params.n as nat);
    }
    let sv = scaled.coeffs();
    let mut out: Vec<i64> = Vec::new();
    let mut i: usize = 0;
    while i < sv.len()
        invariant
            3 <= q,
            2 <= t < q,
            q * q <= 0x7fff_ffff_ffff_ffff,
            to_ints(sv@) == scaled@,
            bounded(scaled@, (q / 2) as int),
            i <= sv@.len(),
            out@.len() == i,
            forall|k: int|
                0 <= k < i ==> (#[trigger] out@[k]) as int == nearest_int_spec(
                    scaled@[k] * (t as int),
                    q as int,
                ) % (t as int),
        decreases sv@.len() - i,
    {
        proof {
            assert(scaled@[i as int] == sv@[i as int] as int);
            assert(-(q * q) <= scaled@[i as int] * (t as int) <= q * q) by (nonlinear_arith)
                requires
                    -(q / 2) as int <= scaled@[i as int] <= (q / 2) as int,
                    2 <= t < q,
                    3 <= q,
            ;
        }
        let c = sv[i];
        let digit = nearest_int(c * t, q);
        let red_digit = euclid_rem(digit, t);
        out.push(red_digit);
        i = i + 1;
    }
    proof {
        assert(to_ints(out@) =~= scaled@.map(
            |j: int, c: int| nearest_int_spec(c * (t as int), q as int) % (t as int),
        ));
    }
    Poly::new(out)
}

/// Reading a centered sequence through `pcoeff` centers the padded read.
proof fn lemma_modc_pc(s: Seq<int>, q: int)
    requires
        q >= 1,
    ensures
        forall|j: int| #[trigger] pcoeff(modc_seq(s, q), j) == centered(pcoeff(s, j), q),
{
    assert forall|j: int| #[trigger] pcoeff(modc_seq(s, q), j) == centered(pcoeff(s, j), q) by {
        if 0 <= j < s.len() {
            assert(modc_seq(s, q)[j] == centered(s[j], q));
        } else {
            vstd::arithmetic::div_mod::lemma_small_mod(0nat, q as nat);
        }
    }
}

/// Congruent left operands have the same reduced, centered ring product.
proof fn lemma_mul_spec_congruent(x: Seq<int>, x2: Seq<int>, y: Seq<int>, q: int, n: nat)
    requires
        q >= 1,
        n >= 1,
        x.len() <= n,
        x2.len() <= n,
        y.len() <= n,
        forall|d: int| #[trigger] pcoeff(x, d) % q == #[trigger] pcoeff(x2, d) % q,
    ensures
        mul_spec(x, y, q, n) == mul_spec(x2, y, q, n),
{
    let r1 = red(conv(x, y), n);
    let r2 = red(conv(x2, y), n);
    lemma_red_conv_nmul(x, y, n);
    lemma_red_conv_nmul(x2, y, n);
    lemma_trim_pcoeff(r1);
    lemma_trim_pcoeff(r2);
    lemma_modc_pc(trim(r1), q);
    lemma_modc_pc(trim(r2), q);
    assert forall|j: int| #[trigger] pcoeff(modc_seq(trim(r1), q), j) == pcoeff(
        modc_seq(trim(r2), q),
        j,
    ) by {
        if 0 <= j < n {
            lemma_nmul_congruent(x, x2, y, n, j, q);
            assert(pcoeff(trim(r1), j) == nmul_at(x, y, n, j));
            assert(pcoeff(trim(r2), j) == nmul_at(x2, y, n, j));
        } else {
            assert(pcoeff(trim(r1), j) == 0);
            assert(pcoeff(trim(r2), j) == 0);
        }
    }
    lemma_padded_eq_trim(modc_seq(trim(r1), q), modc_seq(trim(r2), q));
}

/// The digit sequence is never longer than its source.
pub proof fn lemma_digits_len(s: Seq<int>, q: int, t: int)
    ensures
        digits_spec(s, q, t).len() <= s.len(),
{
    lemma_trim_pcoeff(s.map(|j: int, c: int| nearest_int_spec(c * t, q) % t));
}

} // verus!

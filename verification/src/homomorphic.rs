//! The homomorphic evaluator: ciphertext addition, one-hop multiplication
//! into a degree-2 ciphertext, and the matching decryption path.  The
//! multiplication is a one-shot capability: its output cannot be fed into
//! another multiplication without relinearization, which this library does
//! not provide.

use vstd::prelude::*;
use crate::poly::{Poly, pcoeff, bounded, mul_spec, add_spec, padd, red, trim, modc_seq, centered,
    nearest_int_spec, modc_spec, polymul, polyadd, nearest_int, mod_coeffs, to_ints,
    lemma_mul_spec_shape, lemma_add_spec_shape, lemma_red_len, lemma_trim_pcoeff};
use crate::params::Parameters;

verus! {

/// The coefficient-wise sum of two ciphertexts, left unreduced (the
/// sentinel modulus `0`) so that decryption may center it under any
/// modulus later.
pub fn ciphertext_add(x: &(Poly, Poly), y: &(Poly, Poly), params: &Parameters) -> (r: (
    Poly,
    Poly,
))
    requires
        params.wf(),
        x.0@.len() <= params.n,
        x.1@.len() <= params.n,
        y.0@.len() <= params.n,
        y.1@.len() <= params.n,
        bounded(x.0@, 0x3fff_ffff_ffff_ffff),
        bounded(x.1@, 0x3fff_ffff_ffff_ffff),
        bounded(y.0@, 0x3fff_ffff_ffff_ffff),
        bounded(y.1@, 0x3fff_ffff_ffff_ffff),
    ensures
        r.0@ == add_spec(x.0@, y.0@, 0, params.n as nat),
        r.1@ == add_spec(x.1@, y.1@, 0, params.n as nat),
{
    proof {
        lemma_ct_add_fits(x.0@, y.0@, params.n as nat);
        lemma_ct_add_fits(x.1@, y.1@, params.n as nat);
    }
    let c0 = polyadd(&x.0, &y.0, 0, &params.f);
    let c1 = polyadd(&x.1, &y.1, 0, &params.f);
    (c0, c1)
}

/// Unreduced sums of reduced ciphertext components stay within `i64`.
proof fn lemma_ct_add_fits(x: Seq<int>, y: Seq<int>, n: nat)
    requires
        x.len() <= n,
        y.len() <= n,
        bounded(x, 0x3fff_ffff_ffff_ffff),
        bounded(y, 0x3fff_ffff_ffff_ffff),
    ensures
        bounded(red(padd(x, y), n), 0x7fff_ffff_ffff_ffff),
{
    let s = padd(x, y);
    lemma_red_len(s, n);
    assert(red(s, n) == s);
    assert forall|j: int| 0 <= j < s.len() implies -0x7fff_ffff_ffff_ffff <= #[trigger] (s[j])
        <= 0x7fff_ffff_ffff_ffff by {
        assert(s[j] == pcoeff(x, j) + pcoeff(y, j));
    }
}

/// One homomorphic multiplication: the three ring products of the two
/// ciphertext pairs, taken under the expanded modulus `q*q`.  With the
/// decryption identity `m ~ c0 + c1*s`, the product satisfies
/// `(c0 + c1*s)*(c0' + c1'*s) == d0 + d1*s + d2*s^2`.
pub fn ciphertext_mul(x: &(Poly, Poly), y: &(Poly, Poly), params: &Parameters) -> (r: (
    Poly,
    Poly,
    Poly,
))
    requires
        params.wf(),
        params.q * params.q <= 0x7fff_ffff_ffff_ffff,
        x.0@.len() <= params.n,
        x.1@.len() <= params.n,
        y.0@.len() <= params.n,
        y.1@.len() <= params.n,
        x.0@.len() < 0x8000_0000,
        bounded(x.0@, 0x8000_0000),
        bounded(x.1@, 0x8000_0000),
        bounded(y.0@, 0x8000_0000),
        bounded(y.1@, 0x8000_0000),
    ensures
        r.0@ == mul_spec(x.0@, y.0@, (params.q * params.q) as int, params.n as nat),
        r.1@ == add_spec(
            mul_spec(x.0@, y.1@, (params.q * params.q) as int, params.n as nat),
            mul_spec(x.1@, y.0@, (params.q * params.q) as int, params.n as nat),
            (params.q * params.q) as int,
            params.n as nat,
        ),
        r.2@ == mul_spec(x.1@, y.1@, (params.q * params.q) as int, params.n as nat),
{
    let qq = params.q * params.q;
    proof {
        assert(qq >= 9) by (nonlinear_arith)
            requires params.q >= 3, qq == params.q * params.q;
    }
    let d0 = polymul(&x.0, &y.0, qq, &params.f);
    let xy01 = polymul(&x.0, &y.1, qq, &params.f);
    let xy10 = polymul(&x.1, &y.0, qq, &params.f);
    proof {
        lemma_mul_spec_shape(x.0@, y.1@, qq as int, params.n as nat);
        lemma_mul_spec_shape(x.1@, y.0@, qq as int, params.n as nat);
        assert((qq / 2) as int <= 0x4000_0000_0000_0000);
    }
    let d1 = polyadd(&xy01, &xy10, qq, &params.f);
    let d2 = polymul(&x.1, &y.1, qq, &params.f);
    (d0, d1, d2)
}

/// What the degree-2 decryption rescales: `d0 + d1*s + d2*s^2` mod `q*q`.
pub open spec fn deg2_combine_spec(
    d0: Seq<int>,
    d1: Seq<int>,
    d2: Seq<int>,
    s: Seq<int>,
    qq: int,
    n: nat,
) -> Seq<int> {
    add_spec(
        add_spec(d0, mul_spec(d1, s, qq, n), qq, n),
        mul_spec(mul_spec(d2, s, qq, n), s, qq, n),
        qq,
        n,
    )
}

/// The digits a degree-2 ciphertext decrypts to: each coefficient rescaled
/// by the squared scaling factor and centered modulo `t`.
pub open spec fn decrypt_deg2_spec(
    d0: Seq<int>,
    d1: Seq<int>,
    d2: Seq<int>,
    s: Seq<int>,
    q: int,
    t: int,
    n: nat,
) -> Seq<int> {
    modc_spec(
        trim(
            deg2_combine_spec(d0, d1, d2, s, q * q, n).map(
                |j: int, c: int| nearest_int_spec(c, (q / t) * (q / t)),
            ),
        ),
        t,
    )
}

/// Decrypts a degree-2 ciphertext: removes the secret with the identity
/// `d0 + d1*s + d2*s^2`, rescales each coefficient by the square of the
/// plaintext scaling factor, and reduces modulo `t`.
///
/// The modulus bound `q*q <= 2^32` comes from the product chain: the inner
/// products are taken modulo `q^2`, so their centered coefficients reach
/// `q^2/2`, and the multiplier accepts operands up to `2^31` — the fixed
/// machine limit its overflow argument is built on.  Widening it would mean
/// trading the constant operand bounds in `polymul`'s contract for
/// caller-supplied ones.
pub fn decrypt_deg2(sk: &Poly, ct: &(Poly, Poly, Poly), params: &Parameters) -> (r: Poly)
    requires
        params.wf(),
        params.q * params.q <= 0x1_0000_0000,
        sk@.len() <= params.n,
        ct.0@.len() <= params.n,
        ct.1@.len() <= params.n,
        ct.2@.len() <= params.n,
        bounded(sk@, 0x8000_0000),
        bounded(ct.0@, 0x4000_0000_0000_0000),
        bounded(ct.1@, 0x8000_0000),
        bounded(ct.2@, 0x8000_0000),
    ensures
        r@ == decrypt_deg2_spec(
            ct.0@,
            ct.1@,
            ct.2@,
            sk@,
            params.q as int,
            params.t as int,
            params.n as nat,
        ),
{
    let q = params.q;
    let t = params.t;
    let qq = q * q;
    proof {
        assert(qq >= 9) by (nonlinear_arith)
            requires q >= 3, qq == q * q;
        assert(qq <= 0x7fff_ffff_ffff_ffff);
    }
    let d1s = polymul(&ct.1, sk, qq, &params.f);
    proof {
        lemma_mul_spec_shape(ct.1@, sk@, qq as int, params.n as nat);
        assert((qq / 2) as int <= 0x4000_0000_0000_0000);
    }
    let d2s = polymul(&ct.2, sk, qq, &params.f);
    proof {
        lemma_mul_spec_shape(ct.2@, sk@, qq as int, params.n as nat);
    }
    proof {
        assert((qq / 2) as int <= 0x8000_0000);
    }
    let d2ss = polymul(&d2s, sk, qq, &params.f);
    proof {
        lemma_mul_spec_shape(d2s@, sk@, qq as int, params.n as nat);
    }
    let s01 = polyadd(&ct.0, &d1s, qq, &params.f);
    proof {
        lemma_add_spec_shape(ct.0@, d1s@, qq as int, params.n as nat);
    }
    let combined = polyadd(&s01, &d2ss, qq, &params.f);
    proof {
        lemma_add_spec_shape(s01@, d2ss@, qq as int, params.n as nat);
    }
    let delta = q / t;
    proof {
        vstd::arithmetic::div_mod::lemma_div_pos_is_pos(q as int, t as int);
        assert(delta >= 1) by {
            vstd::arithmetic::div_mod::lemma_div_is_ordered(t as int, q as int, t as int);
            vstd::arithmetic::div_mod::lemma_div_by_self(t as int);
        }
        assert(delta * delta <= q * q && delta * delta >= 1) by (nonlinear_arith)
            requires 1 <= delta, delta <= q, q >= 3;
        assert(delta <= q) by {
            vstd::arithmetic::div_mod::lemma_div_is_ordered_by_denominator(q as int, 1, t as int);
            vstd::arithmetic::div_mod::lemma_div_basics(q as int);
        }
    }
    let dd = delta * delta;
    let cv = combined.coeffs();
    let mut out: Vec<i64> = Vec::new();
    let mut i: usize = 0;
    while i < cv.len()
        invariant
            dd >= 1,
            to_ints(cv@) == combined@,
            i <= cv@.len(),
            out@.len() == i,
            forall|k: int|
                0 <= k < i ==> (#[trigger] out@[k]) as int == nearest_int_spec(
                    combined@[k],
                    dd as int,
                ),
        decreases cv@.len() - i,
    {
        proof {
            assert(combined@[i as int] == cv@[i as int] as int);
        }
        let v = nearest_int(cv[i], dd);
        out.push(v);
        i = i + 1;
    }
    proof {
        assert(to_ints(out@) =~= combined@.map(
            |j: int, c: int| nearest_int_spec(c, ((q as int) / (t as int)) * ((q as int) / (
            t as int))),
        ));
    }
    mod_coeffs(Poly::new(out), t)
}

} // verus!
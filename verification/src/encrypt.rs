//! Encryption: the plaintext digits are scaled by `q/t` and hidden inside a
//! noisy combination of the public key with fresh ternary randomness.

use vstd::prelude::*;
use crate::poly::{Poly, pcoeff, to_ints, bounded, mul_spec, add_spec, modc_seq, trim,
    polymul, polyadd, lemma_centered_trim_shape, lemma_trim_pcoeff, lemma_mul_spec_shape,
    lemma_add_spec_shape};
use crate::params::Parameters;
use crate::sample::gen_ternary_poly;
use crate::keygen::seed_offset;

verus! {

/// The scaled plaintext: each digit `c` becomes `floor(c*q/t)`, centered
/// mod `q`.  This is a deliberate choice over the alternative `c*(q/t)`:
/// scaling before the division loses at most a fraction per coefficient
/// instead of `c` whole fractions, which tightens the rounding error that
/// decryption must absorb; the two coincide whenever `t` divides `q`.  The
/// round-trip and homomorphic laws are stated and proved for this form.
pub open spec fn scale_spec(m: Seq<int>, q: int, t: int) -> Seq<int> {
    trim(modc_seq(m.map(|j: int, c: int| (c * q) / t), q))
}

/// What encryption produces from the public key, the message and the
/// ephemeral values: products are taken under the expanded modulus `q*q`,
/// so one later homomorphic multiplication keeps its precision.
pub open spec fn encrypt_c0_spec(
    b: Seq<int>,
    m: Seq<int>,
    u: Seq<int>,
    e1: Seq<int>,
    q: int,
    t: int,
    n: nat,
) -> Seq<int> {
    add_spec(
        add_spec(mul_spec(b, u, q * q, n), e1, q * q, n),
        scale_spec(m, q, t),
        q * q,
        n,
    )
}

/// The second ciphertext component: `a*u + e2` under the expanded modulus.
pub open spec fn encrypt_c1_spec(a: Seq<int>, u: Seq<int>, e2: Seq<int>, q: int, n: nat) -> Seq<
    int,
> {
    add_spec(mul_spec(a, u, q * q, n), e2, q * q, n)
}

/// Scales each plaintext digit `c` to `floor(c*q/t)` and centers modulo
/// `q` (see `scale_spec` for why the division comes last).
pub fn scale_plaintext(m: &Poly, q: i64, t: i64) -> (r: Poly)
    requires
        1 <= t <= q,
        q * q <= 0x7fff_ffff_ffff_ffff,
        forall|j: int| 0 <= #[trigger] pcoeff(m@, j) < t,
    ensures
        r@ == scale_spec(m@, q as int, t as int),
        r@.len() <= m@.len(),
        bounded(r@, (q as int) / 2),
{
    let mv = m.coeffs();
    let mut out: Vec<i64> = Vec::new();
    let mut i: usize = 0;
    while i < mv.len()
        invariant
            1 <= t <= q,
            q * q <= 0x7fff_ffff_ffff_ffff,
            to_ints(mv@) == m@,
            forall|j: int| 0 <= #[trigger] pcoeff(m@, j) < t,
            i <= mv@.len(),
            out@.len() == i,
            forall|k: int|
                0 <= k < i ==> (#[trigger] out@[k]) as int == (m@[k] * q) / (t as int),
        decreases mv@.len() - i,
    {
        proof {
            assert(pcoeff(m@, i as int) == m@[i as int]);
            assert(m@[i as int] == mv@[i as int] as int);
            assert(0 <= m@[i as int] * q <= q * q) by (nonlinear_arith)
                requires 0 <= m@[i as int] < t, 1 <= t <= q;
        }
        let num: u64 = ((mv[i] as i64) as u64) * (q as u64);
        let sc: u64 = num / (t as u64);
        proof {
            vstd::arithmetic::div_mod::lemma_div_is_ordered_by_denominator(num as int, 1, t as int);
            vstd::arithmetic::div_mod::lemma_div_basics(num as int);
        }
        out.push(sc as i64);
        i = i + 1;
    }
    proof {
        assert(to_ints(out@) =~= m@.map(|j: int, c: int| (c * (q as int)) / (t as int)));
    }
    let p = Poly::new(out);
    let r = crate::poly::mod_coeffs(p, q);
    proof {
        crate::poly::lemma_trim_modc_absorb(to_ints(out@), q as int);
        lemma_trim_pcoeff(to_ints(out@));
        lemma_centered_trim_shape(to_ints(out@), q as int);
        lemma_centered_trim_shape(trim(to_ints(out@)), q as int);
    }
    r
}

/// The deterministic part of encryption: ciphertext `(c0, c1)` from the
/// public key `(b, a)`, the plaintext block `m`, and the ephemeral values
/// `u`, `e1`, `e2`.
pub fn encrypt_core(
    pk: &[Poly; 2],
    m: &Poly,
    u: &Poly,
    e1: &Poly,
    e2: &Poly,
    params: &Parameters,
) -> (r: (Poly, Poly))
    requires
        params.wf(),
        params.q * params.q <= 0x7fff_ffff_ffff_ffff,
        pk[0]@.len() <= params.n,
        pk[1]@.len() <= params.n,
        m@.len() <= params.n,
        u@.len() <= params.n,
        e1@.len() <= params.n,
        e2@.len() <= params.n,
        bounded(pk[0]@, 0x8000_0000),
        bounded(pk[1]@, 0x8000_0000),
        bounded(u@, 1),
        bounded(e1@, 1),
        bounded(e2@, 1),
        forall|j: int| 0 <= #[trigger] pcoeff(m@, j) < params.t,
    ensures
        r.0@ == encrypt_c0_spec(
            pk[0]@,
            m@,
            u@,
            e1@,
            params.q as int,
            params.t as int,
            params.n as nat,
        ),
        r.1@ == encrypt_c1_spec(pk[1]@, u@, e2@, params.q as int, params.n as nat),
        r.0@.len() <= params.n,
        r.1@.len() <= params.n,
        bounded(r.0@, ((params.q * params.q) / 2) as int),
        bounded(r.1@, ((params.q * params.q) / 2) as int),
{
    let q = params.q;
    let qq = q * q;
    proof {
        assert(qq >= 9) by (nonlinear_arith)
            requires q >= 3, qq == q * q;
    }
    let scaled_m = scale_plaintext(m, q, params.t);
    proof {
        assert((q / 2) as int <= 0x4000_0000_0000_0000);
    }
    let bu = polymul(&pk[0], u, qq, &params.f);
    let au = polymul(&pk[1], u, qq, &params.f);
    proof {
        lemma_mul_spec_shape(pk[0]@, u@, qq as int, params.n as nat);
        lemma_mul_spec_shape(pk[1]@, u@, qq as int, params.n as nat);
        assert((qq / 2) as int <= 0x4000_0000_0000_0000);
    }
    let s0 = polyadd(&bu, e1, qq, &params.f);
    proof {
        lemma_add_spec_shape(bu@, e1@, qq as int, params.n as nat);
    }
    let c0 = polyadd(&s0, &scaled_m, qq, &params.f);
    let c1 = polyadd(&au, e2, qq, &params.f);
    proof {
        lemma_add_spec_shape(s0@, scaled_m@, qq as int, params.n as nat);
        lemma_add_spec_shape(au@, e2@, qq as int, params.n as nat);
        crate::poly::lemma_ring_len(s0@, scaled_m@, qq as int, params.n as nat);
        crate::poly::lemma_ring_len(au@, e2@, qq as int, params.n as nat);
    }
    (c0, c1)
}

/// Encrypts one plaintext block with fresh ternary randomness; a seed makes
/// the drawing reproducible, with derived seeds keeping the three draws
/// independent.
pub fn encrypt(pk: &[Poly; 2], m: &Poly, params: &Parameters, seed: Option<u64>) -> (r: (
    Poly,
    Poly,
))
    requires
        params.wf(),
        params.q * params.q <= 0x7fff_ffff_ffff_ffff,
        pk[0]@.len() <= params.n,
        pk[1]@.len() <= params.n,
        m@.len() <= params.n,
        bounded(pk[0]@, 0x8000_0000),
        bounded(pk[1]@, 0x8000_0000),
        forall|j: int| 0 <= #[trigger] pcoeff(m@, j) < params.t,
    ensures
        exists|u: Seq<int>, e1: Seq<int>, e2: Seq<int>|
            {
                &&& #[trigger] bounded(u, 1)
                &&& #[trigger] bounded(e1, 1)
                &&& #[trigger] bounded(e2, 1)
                &&& u.len() <= params.n
                &&& e1.len() <= params.n
                &&& e2.len() <= params.n
                &&& r.0@ == encrypt_c0_spec(
                    pk[0]@,
                    m@,
                    u,
                    e1,
                    params.q as int,
                    params.t as int,
                    params.n as nat,
                )
                &&& r.1@ == encrypt_c1_spec(pk[1]@, u, e2, params.q as int, params.n as nat)
            },
        r.0@.len() <= params.n,
        r.1@.len() <= params.n,
        bounded(r.0@, ((params.q * params.q) / 2) as int),
        bounded(r.1@, ((params.q * params.q) / 2) as int),
{
    let n = params.n;
    let e1 = gen_ternary_poly(n, seed);
    let e2 = gen_ternary_poly(n, seed_offset(seed, 1));
    let u = gen_ternary_poly(n, seed_offset(seed, 2));
    let r = encrypt_core(pk, m, &u, &e1, &e2, params);
    proof {
        assert(bounded(u@, 1) && bounded(e1@, 1) && bounded(e2@, 1));
    }
    r
}

} // verus!

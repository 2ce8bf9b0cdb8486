//! Key generation: a ternary secret, a uniform public polynomial, and the
//! noisy product that hides the secret.

use vstd::prelude::*;
use crate::poly::{Poly, pcoeff, bounded, mul_spec, add_spec, inv_spec, neg_seq, modc_seq, trim,
    polyinv, polyadd, lemma_centered_trim_shape, lemma_trim_pcoeff};
use crate::params::Parameters;
use crate::transform::polymul_fast;
use crate::sample::{gen_ternary_poly, gen_uniform_poly};

verus! {

/// The public polynomial `b = -a*sk - e`, reduced in `Z_q[x]/(x^n + 1)`.
pub open spec fn keygen_b_spec(a: Seq<int>, sk: Seq<int>, e: Seq<int>, q: int, n: nat) -> Seq<
    int,
> {
    add_spec(mul_spec(inv_spec(a, q), sk, q, n), inv_spec(e, q), q, n)
}

/// The deterministic part of key generation: from the uniform polynomial
/// `a`, the secret `sk` and the error `e`, the public value `b = -a*sk - e`.
pub fn keygen_core(a: &Poly, sk: &Poly, e: &Poly, params: &Parameters) -> (b: Poly)
    requires
        params.wf(),
        params.ntt_ready(),
        a@.len() <= params.n,
        sk@.len() <= params.n,
        e@.len() <= params.n,
        bounded(a@, (params.q / 2) as int),
        bounded(sk@, (params.q - 1) as int),
        bounded(e@, (params.q / 2) as int),
    ensures
        b@ == keygen_b_spec(a@, sk@, e@, params.q as int, params.n as nat),
        b@.len() <= params.n,
        bounded(b@, (params.q / 2) as int),
{
    let q = params.q;
    let na = polyinv(a, q);
    proof {
        lemma_centered_trim_shape(neg_seq(a@), q as int);
        lemma_trim_pcoeff(modc_seq(neg_seq(a@), q as int));
        assert(na@.len() <= a@.len());
    }
    let prod = polymul_fast(&na, sk, q, &params.f, params.omega);
    proof {
        crate::poly::lemma_mul_spec_shape(na@, sk@, q as int, params.n as nat);
    }
    let ne = polyinv(e, q);
    proof {
        lemma_centered_trim_shape(neg_seq(e@), q as int);
        lemma_trim_pcoeff(modc_seq(neg_seq(e@), q as int));
        assert(ne@.len() <= e@.len());
    }
    let b = polyadd(&prod, &ne, q, &params.f);
    proof {
        crate::poly::lemma_ring_len(prod@, ne@, q as int, params.n as nat);
        crate::poly::lemma_add_spec_shape(prod@, ne@, q as int, params.n as nat);
    }
    b
}

/// Generates a key pair: the secret `sk` and the public pair `(b, a)` with
/// `b = -a*sk - e` for a fresh uniform `a` and fresh ternary `sk`, `e`.
/// A seed makes the drawing reproducible; successive draws use successive
/// derived seeds so that the three polynomials stay independent.
pub fn keygen(params: &Parameters, seed: Option<u64>) -> (r: ([Poly; 2], Poly))
    requires
        params.wf(),
        params.ntt_ready(),
    ensures
        r.1@.len() <= params.n,
        bounded(r.1@, 1),
        r.0[1]@.len() <= params.n,
        bounded(r.0[1]@, (params.q / 2) as int),
        r.0[0]@.len() <= params.n,
        bounded(r.0[0]@, (params.q / 2) as int),
        exists|e: Seq<int>|
            #[trigger] bounded(e, 1) && e.len() <= params.n && r.0[0]@ == keygen_b_spec(
                r.0[1]@,
                r.1@,
                e,
                params.q as int,
                params.n as nat,
            ),
{
    let n = params.n;
    let sk = gen_ternary_poly(n, seed);
    let a = gen_uniform_poly(n, params.q, seed_offset(seed, 1));
    let e = gen_ternary_poly(n, seed_offset(seed, 2));
    let b = keygen_core(&a, &sk, &e, params);
    proof {
        assert(bounded(sk@, (params.q - 1) as int)) by {
            assert(forall|k: int| 0 <= k < sk@.len() ==> -1 <= #[trigger] (sk@[k]) <= 1);
        }
        assert(bounded(e@, (params.q / 2) as int)) by {
            assert(forall|k: int| 0 <= k < e@.len() ==> -1 <= #[trigger] (e@[k]) <= 1);
        }
        assert(bounded(e@, 1) && e@.len() <= params.n && b@ == keygen_b_spec(
            a@,
            sk@,
            e@,
            params.q as int,
            params.n as nat,
        ));
    }
    ([b, a], sk)
}

/// A derived seed for the next independent draw of a seeded run.
pub fn seed_offset(seed: Option<u64>, k: u64) -> (r: Option<u64>)
    ensures
        r is Some <==> seed is Some,
{
    match seed {
        Some(s) => Some(s.wrapping_add(k)),
        None => None,
    }
}

} // verus!

//! Scheme parameters: ring degree, moduli, the fixed modulus polynomial
//! `x^n + 1`, and the root of unity that drives the fast multiplication.

use vstd::prelude::*;
use crate::poly::{Poly, to_ints, trim, lemma_trim_of_trimmed};
use crate::transform::{pow_mod, is_pow2, is_prime, no_factor_upto, lemma_prime_by_trial};
use crate::transform::ntt_omega;

verus! {

/// The coefficient sequence of `x^n + 1`.
pub open spec fn xn_plus_1(n: nat) -> Seq<int> {
    Seq::new(
        n + 1,
        |i: int|
            if i == 0 || i == n {
                1
            } else {
                0
            },
    )
}

/// The parameters of one instance of the scheme.
#[derive(Debug)]
pub struct Parameters {
    /// Ring degree: a power of two.
    pub n: usize,
    /// Ciphertext modulus: an odd prime.
    pub q: i64,
    /// Plaintext modulus, below `q`.
    pub t: i64,
    /// A primitive `2n`-th root of unity modulo `q`.
    pub omega: i64,
    /// The modulus polynomial `x^n + 1`.
    pub f: Poly,
    /// Standard deviation used when errors are drawn from a rounded normal
    /// distribution by an external sampler.
    pub sigma: i64,
}

impl Parameters {
    /// Structural validity of a parameter set.
    pub open spec fn wf(&self) -> bool {
        &&& 1 <= self.n
        &&& self.n < 0x4000_0000
        &&& is_pow2(self.n as nat)
        &&& 3 <= self.q
        &&& self.q % 2 == 1
        &&& (self.q - 1) * (self.q - 1) <= 0x7fff_ffff_ffff_ffff
        &&& 2 <= self.t < self.q
        &&& self.f@ == xn_plus_1(self.n as nat)
        &&& 0 <= self.sigma
    }

    /// Whether `omega` supports transforms of length `2n` modulo `q`.
    pub open spec fn ntt_ready(&self) -> bool {
        &&& 1 <= self.omega < self.q
        &&& pow_mod(self.omega as int, self.n as nat, self.q as int) == self.q - 1
    }
}

/// Builds the modulus polynomial `x^n + 1`.
pub fn make_modulus_poly(n: usize) -> (r: Poly)
    requires
        1 <= n,
        n < 0x4000_0000,
    ensures
        r@ == xn_plus_1(n as nat),
{
    let mut v: Vec<i64> = Vec::new();
    let mut i: usize = 0;
    while i < n + 1
        invariant
            1 <= n < 0x4000_0000,
            i <= n + 1,
            v@.len() == i,
            forall|k: int| 0 <= k < i ==> (#[trigger] v@[k]) as int == xn_plus_1(n as nat)[k],
        decreases n + 1 - i,
    {
        if i == 0 || i == n {
            v.push(1);
        } else {
            v.push(0);
        }
        i = i + 1;
    }
    proof {
        assert(to_ints(v@) =~= xn_plus_1(n as nat));
        assert(to_ints(v@).last() == 1);
        lemma_trim_of_trimmed(to_ints(v@));
    }
    Poly::new(v)
}

/// One fixed trial divisor does not divide the default modulus.
proof fn lemma_mod_nonzero_12289(d: i64)
    requires
        2 <= d <= 110,
    ensures
        12289int % (d as int) != 0,
{
    assert(12289i64 % d != 0) by (bit_vector)
        requires 2 <= d <= 110;
}

/// Pointwise non-divisibility assembles into the range check.
proof fn lemma_nofactor_build(x: int, d: int)
    requires
        forall|e: int| 2 <= e <= d ==> #[trigger] (x % e) != 0,
    ensures
        no_factor_upto(x, d),
    decreases d,
{
    if d >= 2 {
        lemma_nofactor_build(x, d - 1);
    }
}

/// Decides primality by trial division.
pub fn check_prime(x: i64) -> (r: bool)
    requires
        x >= 2,
    ensures
        r == is_prime(x as int),
{
    let mut d: i64 = 2;
    while (d as u64) <= (x as u64) / (d as u64)
        invariant
            2 <= d,
            d <= x,
            x >= 2,
            no_factor_upto(x as int, d - 1),
        decreases x - d,
    {
        proof {
            vstd::arithmetic::div_mod::lemma_div_is_ordered_by_denominator(x as int, 2, d as int);
            vstd::arithmetic::div_mod::lemma_fundamental_div_mod(x as int, 2);
            assert(d < x);
        }
        if (x as u64) % (d as u64) == 0 {
            proof {
                assert((x as int) % (d as int) == 0);
            }
            return false;
        }
        proof {
            assert(no_factor_upto(x as int, d as int));
        }
        d = d + 1;
    }
    proof {
        vstd::arithmetic::div_mod::lemma_fundamental_div_mod(x as int, d as int);
        vstd::arithmetic::div_mod::lemma_mod_bound(x as int, d as int);
        assert((x as u64) / (d as u64) == (x as int) / (d as int));
        assert((d as int) > (x as int) / (d as int));
        assert((d as int) * (d as int) > x as int) by (nonlinear_arith)
            requires
                x as int == (d as int) * ((x as int) / (d as int)) + (x as int) % (d as int),
                (x as int) / (d as int) <= (d as int) - 1,
                0 <= (x as int) % (d as int) < d as int,
                d >= 2,
        ;
        lemma_prime_by_trial(x as int, d - 1);
    }
    true
}

/// Whether `n` is a power of two, decided by repeated halving.
pub fn check_pow2(n: usize) -> (r: bool)
    ensures
        r == is_pow2(n as nat),
{
    if n == 0 {
        return false;
    }
    let mut m: usize = n;
    while m > 1
        invariant
            m >= 1,
            is_pow2(n as nat) == is_pow2(m as nat),
        decreases m,
    {
        if m % 2 != 0 {
            return false;
        }
        m = m / 2;
    }
    true
}

/// A custom parameter triple the scheme accepts: a power-of-two degree and
/// an odd prime modulus with `q ≡ 1 (mod 2n)` and room for `t`.
pub open spec fn valid_custom(n: usize, q: i64, t: i64) -> bool {
    &&& 1 <= n < 0x4000_0000
    &&& is_pow2(n as nat)
    &&& 3 <= q
    &&& q % 2 == 1
    &&& (q - 1) * (q - 1) <= 0x7fff_ffff_ffff_ffff
    &&& 2 <= t < q
    &&& is_prime(q as int)
    &&& (q - 1) % (2 * n as i64) == 0
}

/// Builds a parameter set: the defaults when any override is missing, and
/// otherwise the given triple, rejected unless it is NTT-friendly.
pub fn build_params(n: Option<usize>, q: Option<i64>, t: Option<i64>) -> (r: Option<Parameters>)
    ensures
        match r {
            Some(p) => p.wf() && p.ntt_ready(),
            None => true,
        },
        n is Some && q is Some && t is Some ==> {
            &&& (r is Some <==> valid_custom(n.unwrap(), q.unwrap(), t.unwrap()))
            &&& (r is Some ==> r.unwrap().n == n.unwrap() && r.unwrap().q == q.unwrap()
                && r.unwrap().t == t.unwrap())
        },
        !(n is Some && q is Some && t is Some) ==> r is Some && r.unwrap().n == 512
            && r.unwrap().q == 12289 && r.unwrap().t == 2,
{
    if let (Some(nv), Some(qv), Some(tv)) = (n, q, t) {
        if nv < 1 || nv >= 0x4000_0000 {
            return None;
        }
        if !check_pow2(nv) {
            return None;
        }
        if qv < 3 || qv % 2 == 0 {
            return None;
        }
        if qv - 1 > 0xB504_F333 {
            proof {
                assert((qv - 1) * (qv - 1) > 0x7fff_ffff_ffff_ffff) by (nonlinear_arith)
                    requires qv - 1 > 0xB504_F333;
            }
            return None;
        }
        proof {
            assert((qv - 1) * (qv - 1) <= 0x7fff_ffff_ffff_ffff) by (nonlinear_arith)
                requires 2 <= qv - 1 <= 0xB504_F333;
        }
        if tv < 2 || tv >= qv {
            return None;
        }
        if !check_prime(qv) {
            return None;
        }
        if ((qv - 1) as u64) % ((2 * (nv as i64)) as u64) != 0 {
            return None;
        }
        proof {
            assert((qv - 1) as int % (2 * nv as int) == 0);
        }
        let f = make_modulus_poly(nv);
        let omega = ntt_omega(qv, 2 * nv);
        proof {
            assert((2 * nv as int) / 2 == nv as int) by {
                vstd::arithmetic::div_mod::lemma_fundamental_div_mod_converse_div(
                    2 * nv as int,
                    2,
                    nv as int,
                    0,
                );
            }
        }
        Some(Parameters { n: nv, q: qv, t: tv, omega, f, sigma: 8 })
    } else {
        Some(Parameters::default())
    }
}

impl Default for Parameters {
    /// The reference parameter set: `n = 512`, `q = 12289`, `t = 2`,
    /// `sigma = 8`, with a primitive `1024`-th root of unity.
    fn default() -> (r: Parameters)
        ensures
            r.wf(),
            r.ntt_ready(),
            r.n == 512 && r.q == 12289 && r.t == 2 && r.sigma == 8,
    {
        let f = make_modulus_poly(512);
        proof {
            assert forall|e: int| 2 <= e <= 110 implies #[trigger] (12289int % e) != 0 by {
                lemma_mod_nonzero_12289(e as i64);
            }
            lemma_nofactor_build(12289, 110);
            lemma_prime_by_trial(12289, 110);
            assert(is_pow2(512nat)) by {
                reveal_with_fuel(is_pow2, 12);
            }
        }
        let omega = ntt_omega(12289, 1024);
        proof {
            assert((1024int) / 2 == 512) by {
                vstd::arithmetic::div_mod::lemma_fundamental_div_mod_converse_div(1024, 2, 512, 0);
            }
        }
        Parameters { n: 512, q: 12289, t: 2, omega, f, sigma: 8 }
    }
}

} // verus!

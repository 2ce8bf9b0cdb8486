//! Coefficient samplers for key material, errors and ephemeral randomness,
//! drawing through the `rand` crate.

use vstd::prelude::*;
use crate::poly::{Poly, pcoeff, to_ints, bounded, trim, modc_seq, centered, lemma_trim_pcoeff,
    lemma_centered, mod_coeffs};

verus! {

#[verifier::external_type_specification]
#[verifier::external_body]
pub struct ExStdRng(rand::rngs::StdRng);

/// Relies on rand::SeedableRng::seed_from_u64: a generator with the given
/// seed, so that seeded runs are reproducible.
#[verifier::external_body]
fn rng_from_seed(seed: u64) -> (r: rand::rngs::StdRng) {
    rand::SeedableRng::seed_from_u64(seed)
}

/// Relies on rand::SeedableRng::from_entropy: a generator seeded from the
/// operating system's entropy source.
#[verifier::external_body]
fn rng_from_entropy() -> (r: rand::rngs::StdRng) {
    rand::SeedableRng::from_entropy()
}

/// Relies on rand::Rng::gen_range: a uniform draw from the half-open range.
#[verifier::external_body]
fn rand_range(rng: &mut rand::rngs::StdRng, lo: i64, hi: i64) -> (r: i64)
    requires
        lo < hi,
    ensures
        lo <= r < hi,
{
    rand::Rng::gen_range(rng, lo..hi)
}

/// A generator from an optional seed: seeded runs are deterministic, and an
/// absent seed draws from the entropy source.
fn make_rng(seed: Option<u64>) -> rand::rngs::StdRng {
    match seed {
        Some(s) => rng_from_seed(s),
        None => rng_from_entropy(),
    }
}

/// A vector of `size` draws from `[lo, hi)`.
fn sample_vec(size: usize, lo: i64, hi: i64, seed: Option<u64>) -> (r: Vec<i64>)
    requires
        lo < hi,
    ensures
        r@.len() == size,
        forall|k: int| 0 <= k < size ==> lo <= #[trigger] (r@[k]) < hi,
{
    let mut rng = make_rng(seed);
    let mut v: Vec<i64> = Vec::new();
    let mut i: usize = 0;
    while i < size
        invariant
            lo < hi,
            i <= size,
            v@.len() == i,
            forall|k: int| 0 <= k < i ==> lo <= #[trigger] (v@[k]) < hi,
        decreases size - i,
    {
        let c = rand_range(&mut rng, lo, hi);
        v.push(c);
        i = i + 1;
    }
    v
}

/// A polynomial of `size` coefficients drawn uniformly from `{0, 1}`.
pub fn gen_binary_poly(size: usize, seed: Option<u64>) -> (r: Poly)
    ensures
        r@.len() <= size,
        bounded(r@, 1),
        forall|k: int| 0 <= #[trigger] pcoeff(r@, k) <= 1,
{
    let v = sample_vec(size, 0, 2, seed);
    let r = Poly::new(v);
    proof {
        lemma_trim_pcoeff(to_ints(v@));
        assert forall|k: int| 0 <= #[trigger] pcoeff(r@, k) <= 1 by {
            assert(pcoeff(r@, k) == pcoeff(to_ints(v@), k));
            if 0 <= k < v@.len() {
                assert(to_ints(v@)[k] == v@[k] as int);
            }
        }
        assert forall|k: int| 0 <= k < r@.len() implies -1 <= #[trigger] (r@[k]) <= 1 by {
            assert(pcoeff(r@, k) == pcoeff(to_ints(v@), k));
            if 0 <= k < v@.len() {
                assert(to_ints(v@)[k] == v@[k] as int);
            }
        }
    }
    r
}

/// A polynomial of `size` coefficients drawn uniformly from `{-1, 0, 1}`.
pub fn gen_ternary_poly(size: usize, seed: Option<u64>) -> (r: Poly)
    ensures
        r@.len() <= size,
        bounded(r@, 1),
{
    let v = sample_vec(size, -1, 2, seed);
    let r = Poly::new(v);
    proof {
        lemma_trim_pcoeff(to_ints(v@));
        assert forall|k: int| 0 <= k < r@.len() implies -1 <= #[trigger] (r@[k]) <= 1 by {
            assert(pcoeff(r@, k) == pcoeff(to_ints(v@), k));
            if 0 <= k < v@.len() {
                assert(to_ints(v@)[k] == v@[k] as int);
            }
        }
    }
    r
}

/// A polynomial of `size` coefficients drawn uniformly from `[0, q)` and
/// then centered modulo `q`: every coefficient lies in the centered window
/// `(q/2 - q, q/2]`.
pub fn gen_uniform_poly(size: usize, q: i64, seed: Option<u64>) -> (r: Poly)
    requires
        q >= 1,
    ensures
        r@.len() <= size,
        bounded(r@, (q as int) / 2),
        forall|k: int|
            0 <= k < r@.len() ==> (q as int) / 2 - q < #[trigger] (r@[k]) <= (q as int) / 2,
{
    let v = sample_vec(size, 0, q, seed);
    let p = Poly::new(v);
    let r = mod_coeffs(p, q);
    proof {
        lemma_trim_pcoeff(to_ints(v@));
        lemma_trim_pcoeff(modc_seq(trim(to_ints(v@)), q as int));
        assert(r@.len() <= size) by {
            assert(modc_seq(trim(to_ints(v@)), q as int).len() == trim(to_ints(v@)).len());
        }
        assert forall|k: int| 0 <= k < r@.len() implies -((q as int) / 2) <= #[trigger] (r@[k])
            <= (q as int) / 2 && (q as int) / 2 - q < r@[k] by {
            assert(pcoeff(r@, k) == pcoeff(modc_seq(trim(to_ints(v@)), q as int), k));
            assert(modc_seq(trim(to_ints(v@)), q as int)[k] == centered(
                trim(to_ints(v@))[k],
                q as int,
            ));
            lemma_centered(trim(to_ints(v@))[k], q as int);
        }
    }
    r
}

} // verus!

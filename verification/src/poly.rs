//! Polynomials with integer coefficients, and the arithmetic of the
//! negacyclic quotient ring Z_q[x]/(x^n + 1).
//!
//! A `Poly` stores its coefficient vector with trailing zeros removed, so two
//! equal ring elements of different nominal lengths compare equal.  The spec
//! side models a polynomial as a `Seq<int>` read through `pcoeff`, which
//! extends the sequence with zeros in both directions.

use vstd::prelude::*;
use crate::sums::{sum_range, lemma_sum_snoc, lemma_sum_eq, lemma_sum_zero, lemma_sum_add, lemma_sum_single, lemma_sum_bound, lemma_sum_mod};

verus! {

/// Coefficient sequences of `i64` values, widened to `int` for specs.
pub open spec fn to_ints(s: Seq<i64>) -> Seq<int> {
    s.map(|i: int, c: i64| c as int)
}

/// Coefficient sequences of `i128` values, widened to `int` for specs.
pub open spec fn ints128(s: Seq<i128>) -> Seq<int> {
    s.map(|i: int, c: i128| c as int)
}

/// The coefficient of `x^i`, zero outside the stored range.
pub open spec fn pcoeff(s: Seq<int>, i: int) -> int {
    if 0 <= i < s.len() {
        s[i]
    } else {
        0
    }
}

/// Whether a coefficient sequence carries no trailing zero.
pub open spec fn is_trimmed(s: Seq<int>) -> bool {
    s.len() == 0 || s.last() != 0
}

/// The sequence with trailing zeros removed.
pub open spec fn trim(s: Seq<int>) -> Seq<int>
    decreases s.len(),
{
    if s.len() == 0 {
        s
    } else if s.last() == 0 {
        trim(s.drop_last())
    } else {
        s
    }
}

/// All coefficients bounded by `b` in magnitude.
pub open spec fn bounded(s: Seq<int>, b: int) -> bool {
    forall|i: int| 0 <= i < s.len() ==> -b <= #[trigger] s[i] <= b
}

/// The centered residue of `c` modulo `q > 0`: the representative of
/// `c + qZ` in `(-q/2, q/2]` for even `q` and `[-(q-1)/2, (q-1)/2]` for odd.
pub open spec fn centered(c: int, q: int) -> int {
    let r = c % q;
    if r > q / 2 {
        r - q
    } else {
        r
    }
}

/// Centered residues, coefficient by coefficient.
pub open spec fn modc_seq(s: Seq<int>, q: int) -> Seq<int> {
    s.map(|i: int, c: int| centered(c, q))
}

/// Coefficient `k` of the product `x * y` (plain convolution).
pub open spec fn conv_at(x: Seq<int>, y: Seq<int>, k: int) -> int {
    sum_range(0, x.len() as int, |i: int| pcoeff(x, i) * pcoeff(y, k - i))
}

/// The plain product of two coefficient sequences.
pub open spec fn conv(x: Seq<int>, y: Seq<int>) -> Seq<int> {
    if x.len() == 0 || y.len() == 0 {
        Seq::empty()
    } else {
        Seq::new((x.len() + y.len() - 1) as nat, |k: int| conv_at(x, y, k))
    }
}

/// `(-1)^m` for the negacyclic folding.
pub open spec fn sign_alt(m: int) -> int {
    if m % 2 == 0 {
        1
    } else {
        -1
    }
}

/// How many length-`n` slices cover a sequence of length `len`.
pub open spec fn fold_width(len: nat, n: nat) -> int {
    (len + n - 1) as int / n as int
}

/// Coefficient `j` of the negacyclic fold: `x^n` is identified with `-1`,
/// so slice `m` enters with sign `(-1)^m`.
pub open spec fn fold_at(s: Seq<int>, n: nat, j: int) -> int {
    sum_range(0, fold_width(s.len(), n), |m: int| sign_alt(m) * pcoeff(s, j + m * n as int))
}

/// Reduction modulo `x^n + 1`: sequences that already fit are untouched.
pub open spec fn red(s: Seq<int>, n: nat) -> Seq<int> {
    if s.len() <= n {
        s
    } else {
        Seq::new(n, |j: int| fold_at(s, n, j))
    }
}

/// What `mod_coeffs` returns: `q == 0` is the sentinel for "no reduction".
pub open spec fn modc_spec(s: Seq<int>, q: int) -> Seq<int> {
    if q == 0 {
        s
    } else {
        trim(modc_seq(s, q))
    }
}

/// What `polyrem` returns.
pub open spec fn rem_spec(s: Seq<int>, n: nat) -> Seq<int> {
    trim(red(s, n))
}

/// What `polymul` returns.
pub open spec fn mul_spec(x: Seq<int>, y: Seq<int>, q: int, n: nat) -> Seq<int> {
    modc_spec(rem_spec(conv(x, y), n), q)
}

/// Coefficient-wise sum, padded to the longer length.
pub open spec fn padd(x: Seq<int>, y: Seq<int>) -> Seq<int> {
    Seq::new(if x.len() >= y.len() { x.len() } else { y.len() }, |j: int| pcoeff(x, j) + pcoeff(y, j))
}

/// What `polyadd` returns.
pub open spec fn add_spec(x: Seq<int>, y: Seq<int>, q: int, n: nat) -> Seq<int> {
    modc_spec(rem_spec(padd(x, y), n), q)
}

/// Coefficient-wise negation.
pub open spec fn neg_seq(x: Seq<int>) -> Seq<int> {
    x.map(|i: int, c: int| -c)
}

/// What `polyinv` returns.
pub open spec fn inv_spec(x: Seq<int>, q: int) -> Seq<int> {
    if q == 0 {
        neg_seq(x)
    } else {
        trim(modc_seq(neg_seq(x), q))
    }
}

/// The integer nearest to `a / b`, ties rounded away from zero; `b >= 1`.
pub open spec fn nearest_int_spec(a: int, b: int) -> int {
    if a > 0 {
        (a + b / 2) / b
    } else {
        -((-a + b / 2) / b)
    }
}

// ---------------------------------------------------------------------------
// Lemmas about trim, pcoeff and centered.
// ---------------------------------------------------------------------------

/// Trimming never changes a coefficient, it only shortens the carrier.
pub proof fn lemma_trim_pcoeff(s: Seq<int>)
    ensures
        trim(s).len() <= s.len(),
        forall|j: int| #[trigger] pcoeff(trim(s), j) == pcoeff(s, j),
    decreases s.len(),
{
    if s.len() > 0 && s.last() == 0 {
        lemma_trim_pcoeff(s.drop_last());
        assert forall|j: int| #[trigger] pcoeff(trim(s), j) == pcoeff(s, j) by {
            assert(pcoeff(trim(s), j) == pcoeff(s.drop_last(), j));
        }
    }
}

/// The result of trimming is trimmed.
pub proof fn lemma_trim_trimmed(s: Seq<int>)
    ensures
        is_trimmed(trim(s)),
    decreases s.len(),
{
    if s.len() > 0 && s.last() == 0 {
        lemma_trim_trimmed(s.drop_last());
    }
}

/// Sequences with the same padded coefficients have the same trimmed form.
pub proof fn lemma_padded_eq_trim(a: Seq<int>, b: Seq<int>)
    requires
        forall|j: int| #[trigger] pcoeff(a, j) == pcoeff(b, j),
    ensures
        trim(a) == trim(b),
    decreases a.len() + b.len(),
{
    if a.len() > 0 && a.last() == 0 {
        assert(pcoeff(a, a.len() - 1) == 0);
        assert forall|j: int| #[trigger] pcoeff(a.drop_last(), j) == pcoeff(b, j) by {
            assert(pcoeff(a, j) == pcoeff(b, j));
        }
        lemma_padded_eq_trim(a.drop_last(), b);
    } else if b.len() > 0 && b.last() == 0 {
        assert(pcoeff(b, b.len() - 1) == 0);
        assert forall|j: int| #[trigger] pcoeff(a, j) == pcoeff(b.drop_last(), j) by {
            assert(pcoeff(a, j) == pcoeff(b, j));
        }
        lemma_padded_eq_trim(a, b.drop_last());
    } else {
        if a.len() > b.len() {
            assert(pcoeff(a, a.len() - 1) == pcoeff(b, a.len() - 1));
            assert(false);
        }
        if b.len() > a.len() {
            assert(pcoeff(a, b.len() - 1) == pcoeff(b, b.len() - 1));
            assert(false);
        }
        assert forall|j: int| 0 <= j < a.len() implies a[j] == b[j] by {
            assert(pcoeff(a, j) == pcoeff(b, j));
        }
        assert(a =~= b);
    }
}

/// A trimmed sequence trims to itself.
pub proof fn lemma_trim_of_trimmed(s: Seq<int>)
    requires
        is_trimmed(s),
    ensures
        trim(s) == s,
{
}

/// Range and congruence facts about the centered residue.
pub proof fn lemma_centered(c: int, q: int)
    requires
        q >= 1,
    ensures
        q / 2 - q < centered(c, q) <= q / 2,
        centered(c, q) % q == c % q,
        (c - centered(c, q)) % q == 0,
{
    vstd::arithmetic::div_mod::lemma_mod_bound(c, q);
    let r = c % q;
    if r > q / 2 {
        vstd::arithmetic::div_mod::lemma_mod_sub_multiples_vanish(r, q);
        vstd::arithmetic::div_mod::lemma_mod_twice(c, q);
        assert((r - q) % q == r % q);
    } else {
        vstd::arithmetic::div_mod::lemma_mod_twice(c, q);
    }
    vstd::arithmetic::div_mod::lemma_sub_mod_noop(c, centered(c, q), q);
    vstd::arithmetic::div_mod::lemma_mod_self_0(q);
    assert((c - centered(c, q)) % q == (c % q - centered(c, q) % q) % q);
    vstd::arithmetic::div_mod::lemma_small_mod(0nat, q as nat);
}

/// Congruent values have the same centered residue.
pub proof fn lemma_centered_congruent(a: int, b: int, q: int)
    requires
        q >= 1,
        a % q == b % q,
    ensures
        centered(a, q) == centered(b, q),
{
}

/// A value already in the centered window is its own centered residue.
pub proof fn lemma_centered_identity(c: int, q: int)
    requires
        q >= 1,
        q / 2 - q < c <= q / 2,
    ensures
        centered(c, q) == c,
{
    if c >= 0 {
        vstd::arithmetic::div_mod::lemma_small_mod(c as nat, q as nat);
    } else {
        vstd::arithmetic::div_mod::lemma_mod_add_multiples_vanish(c, q);
        vstd::arithmetic::div_mod::lemma_small_mod((c + q) as nat, q as nat);
    }
}

/// A centered, trimmed sequence stays within `q/2` and its length bound.
pub proof fn lemma_centered_trim_shape(s: Seq<int>, q: int)
    requires
        q >= 1,
    ensures
        trim(modc_seq(s, q)).len() <= s.len(),
        bounded(trim(modc_seq(s, q)), q / 2),
{
    lemma_trim_pcoeff(modc_seq(s, q));
    assert forall|j: int| 0 <= j < trim(modc_seq(s, q)).len() implies -(q / 2) <= #[trigger] (trim(
        modc_seq(s, q),
    )[j]) <= q / 2 by {
        assert(pcoeff(trim(modc_seq(s, q)), j) == pcoeff(modc_seq(s, q), j));
        assert(modc_seq(s, q)[j] == centered(s[j], q));
        lemma_centered(s[j], q);
    }
}

/// The folded form never exceeds the ring degree in length.
pub proof fn lemma_red_len(s: Seq<int>, n: nat)
    ensures
        red(s, n).len() <= n || red(s, n).len() == s.len(),
        s.len() <= n ==> red(s, n) == s,
        s.len() > n ==> red(s, n).len() == n,
{
}

/// Shape of a product in the ring: at most `n` coefficients, centered.
pub proof fn lemma_mul_spec_shape(x: Seq<int>, y: Seq<int>, q: int, n: nat)
    requires
        q >= 1,
    ensures
        mul_spec(x, y, q, n).len() <= n,
        bounded(mul_spec(x, y, q, n), q / 2),
{
    let rr = red(conv(x, y), n);
    lemma_trim_pcoeff(rr);
    lemma_centered_trim_shape(trim(rr), q);
    lemma_trim_pcoeff(modc_seq(trim(rr), q));
}

/// Shape of a sum in the ring: at most `n` coefficients, centered.
pub proof fn lemma_add_spec_shape(x: Seq<int>, y: Seq<int>, q: int, n: nat)
    requires
        q >= 1,
    ensures
        add_spec(x, y, q, n).len() <= n || add_spec(x, y, q, n).len() <= padd(x, y).len(),
        add_spec(x, y, q, n).len() <= n || (x.len() <= n && y.len() <= n && add_spec(
            x,
            y,
            q,
            n,
        ).len() <= n),
        x.len() <= n && y.len() <= n ==> add_spec(x, y, q, n).len() <= n,
        bounded(add_spec(x, y, q, n), q / 2),
{
    let rr = red(padd(x, y), n);
    lemma_trim_pcoeff(rr);
    lemma_centered_trim_shape(trim(rr), q);
    lemma_trim_pcoeff(modc_seq(trim(rr), q));
}

/// Ring results never exceed the ring degree in length.
pub proof fn lemma_ring_len(x: Seq<int>, y: Seq<int>, q: int, n: nat)
    ensures
        add_spec(x, y, q, n).len() <= n || add_spec(x, y, q, n).len() <= padd(x, y).len(),
        red(padd(x, y), n).len() <= n,
        red(conv(x, y), n).len() <= n,
        q != 0 ==> add_spec(x, y, q, n).len() <= n && mul_spec(x, y, q, n).len() <= n,
        q == 0 ==> add_spec(x, y, q, n).len() <= n && mul_spec(x, y, q, n).len() <= n,
{
    lemma_trim_pcoeff(red(padd(x, y), n));
    lemma_trim_pcoeff(red(conv(x, y), n));
    if q != 0 {
        lemma_trim_pcoeff(modc_seq(trim(red(padd(x, y), n)), q));
        lemma_trim_pcoeff(modc_seq(trim(red(conv(x, y), n)), q));
    }
}

// ---------------------------------------------------------------------------
// The polynomial type.
// ---------------------------------------------------------------------------

/// A polynomial over `i64` coefficients, stored least-significant first with
/// trailing zeros removed; the zero polynomial is the empty vector.
#[derive(Debug, PartialEq, Eq)]
pub struct Poly {
    coeffs: Vec<i64>,
}

impl View for Poly {
    type V = Seq<int>;

    closed spec fn view(&self) -> Seq<int> {
        to_ints(self.coeffs@)
    }
}

impl Poly {
    /// The stored form never ends in a zero coefficient.
    #[verifier::type_invariant]
    pub open spec fn wf(self) -> bool {
        is_trimmed(self@)
    }

    /// Builds a polynomial from a coefficient vector, dropping trailing zeros.
    pub fn new(coeffs: Vec<i64>) -> (r: Poly)
        ensures
            r@ == trim(to_ints(coeffs@)),
    {
        let mut v = coeffs;
        while v.len() > 0 && v[v.len() - 1] == 0
            invariant
                trim(to_ints(v@)) == trim(to_ints(coeffs@)),
            decreases v.len(),
        {
            let ghost pre = to_ints(v@);
            v.pop();
            proof {
                assert(to_ints(v@) =~= pre.drop_last());
            }
        }
        proof {
            lemma_trim_of_trimmed(to_ints(v@));
        }
        Poly { coeffs: v }
    }

    /// An equal polynomial with its own storage.
    pub fn duplicate(&self) -> (r: Poly)
        ensures
            r@ == self@,
    {
        proof {
            use_type_invariant(self);
        }
        let mut v: Vec<i64> = Vec::new();
        let mut i: usize = 0;
        while i < self.coeffs.len()
            invariant
                i <= self.coeffs@.len(),
                v@ == self.coeffs@.take(i as int),
            decreases self.coeffs@.len() - i,
        {
            v.push(self.coeffs[i]);
            proof {
                assert(v@ =~= self.coeffs@.take(i + 1));
            }
            i = i + 1;
        }
        proof {
            assert(v@ =~= self.coeffs@);
        }
        Poly { coeffs: v }
    }

    /// The coefficient vector, least-significant first.
    pub fn coeffs(&self) -> (r: &Vec<i64>)
        ensures
            to_ints(r@) == self@,
    {
        &self.coeffs
    }

    /// The number of stored coefficients.
    pub fn len(&self) -> (r: usize)
        ensures
            r == self@.len(),
    {
        self.coeffs.len()
    }
}

// ---------------------------------------------------------------------------
// Executable arithmetic.
// ---------------------------------------------------------------------------

/// Centers one value modulo `q >= 1`.
fn center_val(c: i128, q: i64) -> (r: i64)
    requires
        1 <= q,
    ensures
        r as int == centered(c as int, q as int),
{
    let qq: u128 = q as u128;
    let ci: Ghost<int> = Ghost(c as int);
    let qi: Ghost<int> = Ghost(q as int);
    let e: u128;
    if c >= 0 {
        e = (c as u128) % qq;
    } else {
        let d: u128 = (-(c + 1)) as u128;
        let rp: u128 = d % qq;
        e = qq - 1 - rp;
        proof {
            let di = d as int;
            vstd::arithmetic::div_mod::lemma_fundamental_div_mod(di, qi@);
            vstd::arithmetic::div_mod::lemma_mod_bound(di, qi@);
            let k = di / qi@;
            let r0 = di % qi@;
            assert(ci@ == (-k - 1) * qi@ + (qi@ - 1 - r0)) by (nonlinear_arith)
                requires
                    ci@ == -di - 1,
                    di == qi@ * k + r0,
            ;
            vstd::arithmetic::div_mod::lemma_fundamental_div_mod_converse_mod(
                ci@,
                qi@,
                -k - 1,
                qi@ - 1 - r0,
            );
        }
    }
    proof {
        vstd::arithmetic::div_mod::lemma_mod_bound(ci@, qi@);
    }
    let half: u128 = qq / 2;
    if e > half {
        (e as i64) - q
    } else {
        e as i64
    }
}

/// The least non-negative residue of `a` modulo `m >= 1`.
pub fn euclid_rem(a: i64, m: i64) -> (r: i64)
    requires
        1 <= m,
    ensures
        r as int == (a as int) % (m as int),
        0 <= r < m,
{
    let mm: u64 = m as u64;
    let r: u64;
    if a >= 0 {
        r = (a as u64) % mm;
    } else {
        let d: u64 = (-((a as i128) + 1)) as u64;
        let rp: u64 = d % mm;
        r = mm - 1 - rp;
        proof {
            let ai = a as int;
            let mi = m as int;
            let di = d as int;
            vstd::arithmetic::div_mod::lemma_fundamental_div_mod(di, mi);
            vstd::arithmetic::div_mod::lemma_mod_bound(di, mi);
            let k = di / mi;
            let r0 = di % mi;
            assert(ai == (-k - 1) * mi + (mi - 1 - r0)) by (nonlinear_arith)
                requires
                    ai == -di - 1,
                    di == mi * k + r0,
            ;
            vstd::arithmetic::div_mod::lemma_fundamental_div_mod_converse_mod(
                ai,
                mi,
                -k - 1,
                mi - 1 - r0,
            );
        }
    }
    proof {
        vstd::arithmetic::div_mod::lemma_mod_bound(a as int, m as int);
    }
    r as i64
}

/// Centers each entry of an `i64` vector modulo `q >= 1` and trims.
fn center_small_vec(v: Vec<i64>, q: i64) -> (r: Poly)
    requires
        1 <= q,
    ensures
        r@ == trim(modc_seq(to_ints(v@), q as int)),
{
    let mut out: Vec<i64> = Vec::new();
    let mut i: usize = 0;
    while i < v.len()
        invariant
            1 <= q,
            i <= v@.len(),
            out@.len() == i,
            forall|k: int|
                0 <= k < i ==> #[trigger] (out@[k]) as int == centered(to_ints(v@)[k], q as int),
        decreases v@.len() - i,
    {
        let c = center_val(v[i] as i128, q);
        out.push(c);
        i = i + 1;
    }
    proof {
        assert(to_ints(out@) =~= modc_seq(to_ints(v@), q as int));
    }
    Poly::new(out)
}

/// Centers each entry of an `i128` vector modulo `q >= 1` and trims.
fn center_vec128(v: Vec<i128>, q: i64) -> (r: Poly)
    requires
        1 <= q,
    ensures
        r@ == trim(modc_seq(ints128(v@), q as int)),
{
    let mut out: Vec<i64> = Vec::new();
    let mut i: usize = 0;
    while i < v.len()
        invariant
            1 <= q,
            i <= v@.len(),
            out@.len() == i,
            forall|k: int|
                0 <= k < i ==> #[trigger] (out@[k]) as int == centered(ints128(v@)[k], q as int),
        decreases v@.len() - i,
    {
        let c = center_val(v[i], q);
        out.push(c);
        i = i + 1;
    }
    proof {
        assert(to_ints(out@) =~= modc_seq(ints128(v@), q as int));
    }
    Poly::new(out)
}

/// Narrows an `i128` vector whose entries fit in `i64` and trims.
fn narrow_vec128(v: Vec<i128>) -> (r: Poly)
    requires
        bounded(ints128(v@), 0x7fff_ffff_ffff_ffff),
    ensures
        r@ == trim(ints128(v@)),
{
    let mut out: Vec<i64> = Vec::new();
    let mut i: usize = 0;
    while i < v.len()
        invariant
            bounded(ints128(v@), 0x7fff_ffff_ffff_ffff),
            i <= v@.len(),
            out@.len() == i,
            forall|k: int| 0 <= k < i ==> #[trigger] (out@[k]) as int == ints128(v@)[k],
        decreases v@.len() - i,
    {
        assert(ints128(v@)[i as int] == v@[i as int] as int);
        let c: i64 = v[i] as i64;
        out.push(c);
        i = i + 1;
    }
    proof {
        assert(to_ints(out@) =~= ints128(v@));
    }
    Poly::new(out)
}

/// Maps every coefficient of `x` to its centered residue modulo `modulus`;
/// with the sentinel `modulus == 0` the polynomial is returned unchanged.
pub fn mod_coeffs(x: Poly, modulus: i64) -> (r: Poly)
    requires
        modulus >= 0,
    ensures
        r@ == modc_spec(x@, modulus as int),
{
    if modulus == 0 {
        x
    } else {
        center_small_vec(x.coeffs, modulus)
    }
}

/// The additive inverse of `x`, centered modulo `modulus` unless the
/// sentinel `modulus == 0` asks for the plain negation.
pub fn polyinv(x: &Poly, modulus: i64) -> (r: Poly)
    requires
        modulus >= 0,
        bounded(x@, 0x4000_0000_0000_0000),
    ensures
        r@ == inv_spec(x@, modulus as int),
{
    proof {
        use_type_invariant(x);
    }
    let mut out: Vec<i64> = Vec::new();
    let mut i: usize = 0;
    while i < x.coeffs.len()
        invariant
            bounded(x@, 0x4000_0000_0000_0000),
            i <= x@.len(),
            out@.len() == i,
            forall|k: int| 0 <= k < i ==> #[trigger] (out@[k]) as int == -x@[k],
        decreases x@.len() - i,
    {
        assert(x@[i as int] == x.coeffs@[i as int] as int);
        let c: i64 = -x.coeffs[i];
        out.push(c);
        i = i + 1;
    }
    proof {
        assert(to_ints(out@) =~= neg_seq(x@));
    }
    if modulus == 0 {
        proof {
            if x@.len() > 0 {
                assert(neg_seq(x@).last() == -x@.last());
            }
            lemma_trim_of_trimmed(to_ints(out@));
        }
        Poly { coeffs: out }
    } else {
        center_small_vec(out, modulus)
    }
}

/// The integer nearest to `a / b` for `b >= 1`, ties rounded away from zero.
pub fn nearest_int(a: i64, b: i64) -> (r: i64)
    requires
        b >= 1,
    ensures
        r as int == nearest_int_spec(a as int, b as int),
{
    let bb: u128 = b as u128;
    let half: u128 = bb / 2;
    if a > 0 {
        let num: u128 = (a as u128) + half;
        let quot: u128 = num / bb;
        proof {
            if b == 1 {
                vstd::arithmetic::div_mod::lemma_div_basics(num as int);
            } else {
                vstd::arithmetic::div_mod::lemma_div_is_ordered_by_denominator(
                    num as int,
                    2,
                    b as int,
                );
                vstd::arithmetic::div_mod::lemma_fundamental_div_mod(num as int, 2);
            }
        }
        quot as i64
    } else {
        let da: u128 = (-(a as i128)) as u128;
        let num: u128 = da + half;
        let quot: u128 = num / bb;
        proof {
            if b == 1 {
                vstd::arithmetic::div_mod::lemma_div_basics(num as int);
            } else {
                vstd::arithmetic::div_mod::lemma_div_is_ordered_by_denominator(
                    num as int,
                    2,
                    b as int,
                );
                vstd::arithmetic::div_mod::lemma_fundamental_div_mod(num as int, 2);
            }
        }
        (-(quot as i128)) as i64
    }
}

// ---------------------------------------------------------------------------
// Reduction modulo x^n + 1 and the two product routines.
// ---------------------------------------------------------------------------

/// The partial negacyclic fold: slices whose source index is below `upto`
/// have been folded in, the constant slice always counts.
pub(crate) open spec fn fold_upto(s: Seq<int>, n: nat, j: int, upto: int) -> int {
    sum_range(
        0,
        fold_width(s.len(), n),
        |m: int|
            if m == 0 || j + m * (n as int) < upto {
                sign_alt(m) * pcoeff(s, j + m * (n as int))
            } else {
                0
            },
    )
}

/// Absorbing an inner trim under a centering pass.
pub proof fn lemma_trim_modc_absorb(s: Seq<int>, q: int)
    requires
        q >= 1,
    ensures
        trim(modc_seq(trim(s), q)) == trim(modc_seq(s, q)),
{
    lemma_trim_pcoeff(s);
    assert forall|j: int|
        #[trigger] pcoeff(modc_seq(trim(s), q), j) == pcoeff(modc_seq(s, q), j) by {
        if 0 <= j < s.len() {
            if j < trim(s).len() {
                assert(pcoeff(trim(s), j) == pcoeff(s, j));
            } else {
                assert(pcoeff(s, j) == pcoeff(trim(s), j));
                assert(s[j] == 0);
                vstd::arithmetic::div_mod::lemma_small_mod(0nat, q as nat);
                assert(centered(0, q) == 0);
            }
        }
    }
    lemma_padded_eq_trim(modc_seq(trim(s), q), modc_seq(s, q));
}

/// Bounds on the partial fold.
proof fn lemma_fold_upto_bound(s: Seq<int>, n: nat, j: int, upto: int, bnd: int)
    requires
        n >= 1,
        0 <= bnd,
        bounded(s, bnd),
    ensures
        -(fold_width(s.len(), n)) * bnd <= fold_upto(s, n, j, upto) <= fold_width(s.len(), n)
            * bnd,
        fold_width(s.len(), n) <= s.len() || s.len() == 0,
        0 <= fold_width(s.len(), n),
{
    let w = fold_width(s.len(), n);
    let len = s.len() as int;
    vstd::arithmetic::div_mod::lemma_div_pos_is_pos(len + n - 1, n as int);
    if len >= 1 {
        assert(len + n as int - 1 <= len * n as int + n as int - 1) by (nonlinear_arith)
            requires len >= 1, n >= 1;
        vstd::arithmetic::div_mod::lemma_div_is_ordered(
            len + n as int - 1,
            len * n as int + n as int - 1,
            n as int,
        );
        vstd::arithmetic::div_mod::lemma_fundamental_div_mod_converse_div(
            len * n as int + n as int - 1,
            n as int,
            len,
            n as int - 1,
        );
    }
    let f = |m: int|
        if m == 0 || j + m * (n as int) < upto {
            sign_alt(m) * pcoeff(s, j + m * (n as int))
        } else {
            0
        };
    assert forall|m: int| 0 <= m < w implies -bnd <= #[trigger] f(m) <= bnd by {
        let v = pcoeff(s, j + m * (n as int));
        assert(-bnd <= v <= bnd);
        assert(sign_alt(m) * v == v || sign_alt(m) * v == -v) by (nonlinear_arith);
    }
    lemma_sum_bound(0, w, f, bnd);
}

/// In-place negacyclic fold of an `i128` coefficient vector.
fn fold_reduce(v: Vec<i128>, n: usize, bnd: Ghost<int>) -> (r: Vec<i128>)
    requires
        n >= 1,
        0 <= bnd@,
        bounded(ints128(v@), bnd@),
        (v@.len() + 2) * bnd@ <= 0x4000_0000_0000_0000_0000_0000_0000_0000,
    ensures
        ints128(r@) == red(ints128(v@), n as nat),
        bounded(ints128(r@), (v@.len() + 1) * bnd@),
{
    let ghost orig = ints128(v@);
    let ghost len = v@.len() as int;
    let ghost ni = n as int;
    let ghost w = fold_width(orig.len(), n as nat);
    if v.len() <= n {
        proof {
            assert(red(orig, n as nat) == orig);
            assert forall|k: int| 0 <= k < orig.len() implies -((len + 1) * bnd@) <= #[trigger] orig[k]
                <= (len + 1) * bnd@ by {
                assert(bnd@ <= (len + 1) * bnd@) by (nonlinear_arith)
                    requires 0 <= bnd@, len >= 0;
            }
        }
        return v;
    }
    let mut v = v;
    let mut i: usize = n;
    proof {
        assert forall|j: int| 0 <= j < ni implies fold_upto(orig, n as nat, j, ni) == orig[j] by {
            let f = |m: int|
                if m == 0 || j + m * ni < ni {
                    sign_alt(m) * pcoeff(orig, j + m * ni)
                } else {
                    0
                };
            assert forall|m: int| 0 <= m < w && m != 0 implies #[trigger] f(m) == 0 by {
                assert(j + m * ni >= ni) by (nonlinear_arith)
                    requires m >= 1, ni >= 1, j >= 0;
            }
            lemma_fold_upto_bound(orig, n as nat, j, ni, bnd@);
            vstd::arithmetic::div_mod::lemma_div_is_ordered(ni, len + ni - 1, ni);
            vstd::arithmetic::div_mod::lemma_div_by_self(ni);
            lemma_sum_single(0, w, f, 0);
        }
    }
    while i < v.len()
        invariant
            n >= 1,
            n < v@.len(),
            i >= n,
            i <= v@.len(),
            v@.len() == orig.len(),
            orig.len() == len,
            ni == n as int,
            w == fold_width(orig.len(), n as nat),
            0 <= bnd@,
            bounded(orig, bnd@),
            (len + 2) * bnd@ <= 0x4000_0000_0000_0000_0000_0000_0000_0000,
            forall|k: int| n <= k < len ==> #[trigger] (ints128(v@)[k]) == orig[k],
            forall|j: int| 0 <= j < ni ==> #[trigger] (ints128(v@)[j]) == fold_upto(
                orig,
                n as nat,
                j,
                i as int,
            ),
        decreases v@.len() - i,
    {
        let j = i % n;
        let s = i / n;
        let ghost ji = j as int;
        let ghost mi = s as int;
        proof {
            vstd::arithmetic::div_mod::lemma_fundamental_div_mod(i as int, ni);
            vstd::arithmetic::div_mod::lemma_mod_bound(i as int, ni);
            vstd::arithmetic::div_mod::lemma_div_pos_is_pos(i as int, ni);
            assert(i as int == ni * mi + ji);
            assert(mi >= 1) by (nonlinear_arith)
                requires
                    i as int >= ni,
                    i as int == ni * mi + ji,
                    0 <= ji < ni,
                    ni >= 1,
            ;
            assert(mi < w) by {
                vstd::arithmetic::div_mod::lemma_div_is_ordered(i as int, len - 1, ni);
                vstd::arithmetic::div_mod::lemma_div_plus_one(len - 1, ni);
            }
            lemma_fold_upto_bound(orig, n as nat, ji, i as int, bnd@);
            assert(w * bnd@ + bnd@ <= (len + 2) * bnd@) by (nonlinear_arith)
                requires 0 <= bnd@, w <= len;
            assert((-w) * bnd@ == -(w * bnd@)) by (nonlinear_arith);
            assert(orig[i as int] == ints128(v@)[i as int]);
            assert(ints128(v@)[ji] == v@[ji] as int);
            assert(ints128(v@)[i as int] == v@[i as int] as int);
            assert(-bnd@ <= orig[i as int] <= bnd@);
            assert(-(w * bnd@) <= fold_upto(orig, n as nat, ji, i as int) <= w * bnd@);
        }
        let cur = v[j];
        let inc = v[i];
        let nv: i128 = if s % 2 == 0 {
            cur + inc
        } else {
            cur - inc
        };
        let ghost pre = ints128(v@);
        v.set(j, nv);
        proof {
            assert(ints128(v@) =~= pre.update(ji, nv as int));
            let f1 = |m: int|
                if m == 0 || ji + m * ni < i as int {
                    sign_alt(m) * pcoeff(orig, ji + m * ni)
                } else {
                    0
                };
            let f2 = |m: int|
                if m == 0 || ji + m * ni < i as int + 1 {
                    sign_alt(m) * pcoeff(orig, ji + m * ni)
                } else {
                    0
                };
            let fd = |m: int|
                if m == mi {
                    sign_alt(mi) * pcoeff(orig, i as int)
                } else {
                    0
                };
            assert forall|m: int| 0 <= m < w implies #[trigger] f2(m) == f1(m) + fd(m) by {
                if m != mi {
                    assert(ji + m * ni != i as int) by {
                        if ji + m * ni == i as int {
                            vstd::arithmetic::div_mod::lemma_fundamental_div_mod_converse_mod(
                                i as int,
                                ni,
                                m,
                                ji,
                            );
                            vstd::arithmetic::div_mod::lemma_fundamental_div_mod_converse_div(
                                i as int,
                                ni,
                                m,
                                ji,
                            );
                        }
                    }
                } else {
                    assert(ji + mi * ni == i as int);
                }
            }
            lemma_sum_add(0, w, f1, fd, f2);
            lemma_sum_single(0, w, fd, mi);
            assert(fold_upto(orig, n as nat, ji, i as int + 1) == fold_upto(
                orig,
                n as nat,
                ji,
                i as int,
            ) + sign_alt(mi) * orig[i as int]);
            assert(sign_alt(mi) * orig[i as int] == if mi % 2 == 0 {
                orig[i as int]
            } else {
                -orig[i as int]
            }) by (nonlinear_arith);
            assert forall|j2: int| 0 <= j2 < ni && j2 != ji implies fold_upto(
                orig,
                n as nat,
                j2,
                i as int + 1,
            ) == fold_upto(orig, n as nat, j2, i as int) by {
                let g1 = |m: int|
                    if m == 0 || j2 + m * ni < i as int {
                        sign_alt(m) * pcoeff(orig, j2 + m * ni)
                    } else {
                        0
                    };
                let g2 = |m: int|
                    if m == 0 || j2 + m * ni < i as int + 1 {
                        sign_alt(m) * pcoeff(orig, j2 + m * ni)
                    } else {
                        0
                    };
                assert forall|m: int| 0 <= m < w implies #[trigger] g1(m) == g2(m) by {
                    if j2 + m * ni == i as int {
                        vstd::arithmetic::div_mod::lemma_fundamental_div_mod_converse_mod(
                            i as int,
                            ni,
                            m,
                            j2,
                        );
                    }
                }
                lemma_sum_eq(0, w, g1, g2);
            }
        }
        i = i + 1;
    }
    proof {
        assert forall|j: int| 0 <= j < ni implies fold_upto(orig, n as nat, j, len) == fold_at(
            orig,
            n as nat,
            j,
        ) by {
            let f1 = |m: int|
                if m == 0 || j + m * ni < len {
                    sign_alt(m) * pcoeff(orig, j + m * ni)
                } else {
                    0
                };
            let f2 = |m: int| sign_alt(m) * pcoeff(orig, j + m * ni);
            assert forall|m: int| 0 <= m < w implies #[trigger] f1(m) == f2(m) by {
                if !(m == 0 || j + m * ni < len) {
                    assert(pcoeff(orig, j + m * ni) == 0);
                }
            }
            lemma_sum_eq(0, w, f1, f2);
        }
    }
    let ghost pre_t = v@;
    v.truncate(n);
    proof {
        assert forall|j: int| 0 <= j < ni implies ints128(v@)[j] == fold_at(orig, n as nat, j) by {
            assert(v@[j] == pre_t[j]);
            assert(ints128(v@)[j] == v@[j] as int);
            assert(ints128(pre_t)[j] == pre_t[j] as int);
        }
        assert(ints128(v@) =~= red(orig, n as nat));
        assert forall|j: int| 0 <= j < ni implies -((len + 1) * bnd@) <= #[trigger] (red(
            orig,
            n as nat,
        )[j]) <= (len + 1) * bnd@ by {
            lemma_fold_upto_bound(orig, n as nat, j, len, bnd@);
            assert(w * bnd@ <= (len + 1) * bnd@ && (-w) * bnd@ >= -((len + 1) * bnd@))
                by (nonlinear_arith)
                requires 0 <= bnd@, w <= len;
            assert((-w) * bnd@ == -(w * bnd@)) by (nonlinear_arith);
        }
    }
    v
}

/// The full convolution of two non-empty `i64` coefficient vectors.
fn conv_i128(x: &Vec<i64>, y: &Vec<i64>) -> (r: Vec<i128>)
    requires
        x@.len() >= 1,
        y@.len() >= 1,
        x@.len() < 0x8000_0000,
        y@.len() < 0x8000_0000,
        bounded(to_ints(x@), 0x8000_0000),
        bounded(to_ints(y@), 0x8000_0000),
    ensures
        ints128(r@) == conv(to_ints(x@), to_ints(y@)),
        bounded(ints128(r@), x@.len() as int * 0x4000_0000_0000_0000),
{
    let ghost xs = to_ints(x@);
    let ghost ys = to_ints(y@);
    let ghost lx = x@.len() as int;
    let clen: usize = x.len() + y.len() - 1;
    let mut out: Vec<i128> = Vec::new();
    let mut k: usize = 0;
    while k < clen
        invariant
            xs == to_ints(x@),
            ys == to_ints(y@),
            lx == x@.len() as int,
            1 <= lx < 0x8000_0000,
            1 <= y@.len() < 0x8000_0000,
            clen == x@.len() + y@.len() - 1,
            bounded(xs, 0x8000_0000),
            bounded(ys, 0x8000_0000),
            k <= clen,
            out@.len() == k,
            forall|kk: int| 0 <= kk < k ==> (#[trigger] out@[kk]) as int == conv_at(xs, ys, kk),
            forall|kk: int|
                0 <= kk < k ==> -(lx * 0x4000_0000_0000_0000) <= (#[trigger] out@[kk]) as int
                    <= lx * 0x4000_0000_0000_0000,
        decreases clen - k,
    {
        let ghost term = |i: int| pcoeff(xs, i) * pcoeff(ys, k - i);
        let mut acc: i128 = 0;
        let mut i: usize = 0;
        while i < x.len()
            invariant
                xs == to_ints(x@),
                ys == to_ints(y@),
                lx == x@.len() as int,
                1 <= lx < 0x8000_0000,
                1 <= y@.len() < 0x8000_0000,
                bounded(xs, 0x8000_0000),
                bounded(ys, 0x8000_0000),
                term == (|i: int| pcoeff(xs, i) * pcoeff(ys, k as int - i)),
                i <= lx,
                acc as int == sum_range(0, i as int, term),
                -(i as int) * 0x4000_0000_0000_0000 <= acc as int <= (i as int)
                    * 0x4000_0000_0000_0000,
            decreases lx - i,
        {
            let t: i128 = if i <= k && k - i < y.len() {
                proof {
                    assert(xs[i as int] == x@[i as int] as int);
                    assert(ys[k - i] == y@[(k - i) as int] as int);
                    assert(-0x4000_0000_0000_0000 <= (x@[i as int] as int) * (y@[(k - i) as int]
                        as int) <= 0x4000_0000_0000_0000) by (nonlinear_arith)
                        requires
                            -0x8000_0000 <= x@[i as int] as int <= 0x8000_0000,
                            -0x8000_0000 <= y@[(k - i) as int] as int <= 0x8000_0000,
                    ;
                }
                (x[i] as i128) * (y[k - i] as i128)
            } else {
                proof {
                    assert(pcoeff(ys, k as int - i as int) == 0);
                    assert(term(i as int) == pcoeff(xs, i as int) * 0);
                    assert(pcoeff(xs, i as int) * 0 == 0) by (nonlinear_arith);
                }
                0
            };
            proof {
                lemma_sum_snoc(0, i as int, term);
                assert((-(i as int)) * 0x4000_0000_0000_0000 - 0x4000_0000_0000_0000 == (-(
                i as int + 1)) * 0x4000_0000_0000_0000 && (i as int) * 0x4000_0000_0000_0000
                    + 0x4000_0000_0000_0000 == (i as int + 1) * 0x4000_0000_0000_0000)
                    by (nonlinear_arith);
            }
            acc = acc + t;
            i = i + 1;
        }
        proof {
            assert((lx) * 0x4000_0000_0000_0000 <= 0x8000_0000 * 0x4000_0000_0000_0000)
                by (nonlinear_arith)
                requires lx < 0x8000_0000;
        }
        out.push(acc);
        k = k + 1;
    }
    proof {
        assert forall|kk: int| 0 <= kk < out@.len() implies #[trigger] (ints128(out@)[kk])
            == out@[kk] as int by {
        }
        assert(ints128(out@) =~= conv(xs, ys));
    }
    out
}

/// The product of `x` and `y` in `Z_modulus[x]/(f)` for `f = x^n + 1`;
/// the sentinel `modulus == 0` leaves the folded product uncentered.
pub fn polymul(x: &Poly, y: &Poly, modulus: i64, f: &Poly) -> (r: Poly)
    requires
        modulus >= 0,
        f@.len() >= 2,
        x@.len() < 0x8000_0000,
        y@.len() < 0x8000_0000,
        bounded(x@, 0x8000_0000),
        bounded(y@, 0x8000_0000),
        modulus == 0 ==> bounded(
            red(conv(x@, y@), (f@.len() - 1) as nat),
            0x7fff_ffff_ffff_ffff,
        ),
    ensures
        r@ == mul_spec(x@, y@, modulus as int, (f@.len() - 1) as nat),
{
    let ghost n = (f@.len() - 1) as nat;
    let nn: usize = f.len() - 1;
    if x.len() == 0 || y.len() == 0 {
        let r = Poly::new(Vec::new());
        proof {
            assert(to_ints(Seq::<i64>::empty()) =~= Seq::<int>::empty());
            assert(conv(x@, y@) == Seq::<int>::empty());
            assert(red(Seq::<int>::empty(), n) == Seq::<int>::empty());
            if modulus != 0 {
                assert(modc_seq(Seq::<int>::empty(), modulus as int) =~= Seq::<int>::empty());
            }
        }
        return r;
    }
    let cv = conv_i128(x.coeffs(), y.coeffs());
    let ghost bnd = x@.len() as int * 0x4000_0000_0000_0000;
    proof {
        assert(cv@.len() == ints128(cv@).len());
        assert(ints128(cv@).len() == conv(x@, y@).len());
        assert(0 <= bnd && (cv@.len() + 2) * bnd <= 0x4000_0000_0000_0000_0000_0000_0000_0000)
            by (nonlinear_arith)
            requires
                cv@.len() < 0x1_0000_0000,
                bnd == x@.len() as int * 0x4000_0000_0000_0000,
                1 <= x@.len() < 0x8000_0000,
        ;
    }
    let folded = fold_reduce(cv, nn, Ghost(bnd));
    if modulus != 0 {
        let r = center_vec128(folded, modulus);
        proof {
            lemma_trim_modc_absorb(red(conv(x@, y@), n), modulus as int);
        }
        r
    } else {
        narrow_vec128(folded)
    }
}

/// The sum of `x` and `y` in `Z_modulus[x]/(f)` for `f = x^n + 1`;
/// the sentinel `modulus == 0` leaves the folded sum uncentered.
pub fn polyadd(x: &Poly, y: &Poly, modulus: i64, f: &Poly) -> (r: Poly)
    requires
        modulus >= 0,
        f@.len() >= 2,
        x@.len() < 0x8000_0000,
        y@.len() < 0x8000_0000,
        bounded(x@, 0x4000_0000_0000_0000),
        bounded(y@, 0x4000_0000_0000_0000),
        modulus == 0 ==> bounded(
            red(padd(x@, y@), (f@.len() - 1) as nat),
            0x7fff_ffff_ffff_ffff,
        ),
    ensures
        r@ == add_spec(x@, y@, modulus as int, (f@.len() - 1) as nat),
{
    let ghost n = (f@.len() - 1) as nat;
    let nn: usize = f.len() - 1;
    let mx: usize = if x.len() >= y.len() {
        x.len()
    } else {
        y.len()
    };
    if mx == 0 {
        let r = Poly::new(Vec::new());
        proof {
            assert(padd(x@, y@) =~= Seq::<int>::empty());
            assert(red(Seq::<int>::empty(), n) == Seq::<int>::empty());
            assert(to_ints(Seq::<i64>::empty()) =~= Seq::<int>::empty());
            if modulus != 0 {
                assert(modc_seq(Seq::<int>::empty(), modulus as int) =~= Seq::<int>::empty());
            }
        }
        return r;
    }
    let mut sums: Vec<i128> = Vec::new();
    let mut k: usize = 0;
    while k < mx
        invariant
            mx == if x@.len() >= y@.len() { x@.len() } else { y@.len() },
            bounded(x@, 0x4000_0000_0000_0000),
            bounded(y@, 0x4000_0000_0000_0000),
            k <= mx,
            sums@.len() == k,
            forall|kk: int| 0 <= kk < k ==> (#[trigger] sums@[kk]) as int == padd(x@, y@)[kk],
            forall|kk: int|
                0 <= kk < k ==> -0x8000_0000_0000_0000 <= (#[trigger] sums@[kk]) as int
                    <= 0x8000_0000_0000_0000,
        decreases mx - k,
    {
        let a: i128 = if k < x.len() {
            proof {
                assert(x@[k as int] == x.coeffs@[k as int] as int);
            }
            x.coeffs()[k] as i128
        } else {
            0
        };
        let b: i128 = if k < y.len() {
            proof {
                assert(y@[k as int] == y.coeffs@[k as int] as int);
            }
            y.coeffs()[k] as i128
        } else {
            0
        };
        sums.push(a + b);
        k = k + 1;
    }
    proof {
        assert forall|kk: int| 0 <= kk < sums@.len() implies #[trigger] (ints128(sums@)[kk])
            == sums@[kk] as int by {
        }
        assert(ints128(sums@) =~= padd(x@, y@));
    }
    let folded = fold_reduce(sums, nn, Ghost(0x8000_0000_0000_0000));
    if modulus != 0 {
        let r = center_vec128(folded, modulus);
        proof {
            lemma_trim_modc_absorb(red(padd(x@, y@), n), modulus as int);
        }
        r
    } else {
        narrow_vec128(folded)
    }
}

/// The remainder of `x` modulo `f = x^n + 1`, by negacyclic folding.
pub fn polyrem(x: Poly, f: &Poly) -> (r: Poly)
    requires
        f@.len() >= 2,
        x@.len() < 0x8000_0000,
        bounded(red(x@, (f@.len() - 1) as nat), 0x7fff_ffff_ffff_ffff),
    ensures
        r@ == rem_spec(x@, (f@.len() - 1) as nat),
{
    let nn: usize = f.len() - 1;
    let mut wide: Vec<i128> = Vec::new();
    let mut i: usize = 0;
    let xv = x.coeffs();
    while i < xv.len()
        invariant
            i <= xv@.len(),
            wide@.len() == i,
            to_ints(xv@) == x@,
            forall|k: int| 0 <= k < i ==> (#[trigger] wide@[k]) as int == x@[k],
        decreases xv@.len() - i,
    {
        proof {
            assert(x@[i as int] == xv@[i as int] as int);
        }
        wide.push(xv[i] as i128);
        i = i + 1;
    }
    proof {
        assert forall|k: int| 0 <= k < wide@.len() implies #[trigger] (ints128(wide@)[k])
            == wide@[k] as int by {
        }
        assert(ints128(wide@) =~= x@);
        assert forall|k: int| 0 <= k < x@.len() implies -0x8000_0000_0000_0000 <= #[trigger] (
        x@[k]) <= 0x8000_0000_0000_0000 by {
            assert(x@[k] == x.coeffs@[k] as int);
        }
    }
    let folded = fold_reduce(wide, nn, Ghost(0x8000_0000_0000_0000));
    narrow_vec128(folded)
}

/// The difference of `x` and `y` in `Z_modulus[x]/(f)`, as the sum of `x`
/// with the additive inverse of `y`.
pub fn polysub(x: &Poly, y: &Poly, modulus: i64, f: Poly) -> (r: Poly)
    requires
        modulus >= 0,
        f@.len() >= 2,
        x@.len() < 0x8000_0000,
        y@.len() < 0x8000_0000,
        bounded(x@, 0x4000_0000_0000_0000),
        bounded(y@, 0x4000_0000_0000_0000),
        modulus == 0 ==> bounded(
            red(padd(x@, neg_seq(y@)), (f@.len() - 1) as nat),
            0x7fff_ffff_ffff_ffff,
        ),
    ensures
        r@ == add_spec(x@, inv_spec(y@, modulus as int), modulus as int, (f@.len() - 1) as nat),
{
    let yin = polyinv(y, modulus);
    proof {
        if modulus != 0 {
            lemma_trim_pcoeff(modc_seq(neg_seq(y@), modulus as int));
            assert forall|i: int| 0 <= i < yin@.len() implies -0x4000_0000_0000_0000 <= #[trigger] (
            yin@[i]) <= 0x4000_0000_0000_0000 by {
                assert(pcoeff(yin@, i) == pcoeff(modc_seq(neg_seq(y@), modulus as int), i));
                lemma_centered(neg_seq(y@)[i], modulus as int);
            }
        } else {
            assert forall|i: int| 0 <= i < yin@.len() implies -0x4000_0000_0000_0000 <= #[trigger] (
            yin@[i]) <= 0x4000_0000_0000_0000 by {
                assert(yin@[i] == -y@[i]);
            }
        }
    }
    polyadd(x, &yin, modulus, &f)
}

} // verus!

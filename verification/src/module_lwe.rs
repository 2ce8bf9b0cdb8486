//! The module variant of the scheme: rank-`k` vectors and matrices of ring
//! elements in place of single polynomials.  Rank `1` recovers the scalar
//! scheme.

use vstd::prelude::*;
use crate::poly::{Poly, pcoeff, to_ints, bounded, mul_spec, add_spec, inv_spec, trim,
    polymul, polyadd, polysub, lemma_ring_len, lemma_mul_spec_shape, lemma_trim_pcoeff};
use crate::params::{xn_plus_1, make_modulus_poly};
use crate::sample::{gen_ternary_poly, gen_uniform_poly};
use crate::keygen::seed_offset;

verus! {

/// The views of a vector of polynomials.
pub open spec fn views_of(v: Seq<Poly>) -> Seq<Seq<int>> {
    v.map(|i: int, p: Poly| p@)
}

/// Every polynomial of a vector fits the ring degree and the bound.
pub open spec fn vec_wf(v: Seq<Poly>, n: nat, b: int) -> bool {
    forall|i: int| 0 <= i < v.len() ==> (#[trigger] v[i])@.len() <= n && bounded(v[i]@, b)
}

/// The reference parameters of the module variant: degree 4, modulus 67,
/// rank 2, and the modulus polynomial `x^4 + 1`.
pub fn parameters() -> (r: (usize, usize, usize, Poly))
    ensures
        r.0 == 4 && r.1 == 67 && r.2 == 2,
        r.3@ == xn_plus_1(4),
{
    let f = make_modulus_poly(4);
    (4, 67, 2, f)
}

/// The running ring sum of coefficient-wise vector addition.
pub open spec fn addvec_spec(v0: Seq<Seq<int>>, v1: Seq<Seq<int>>, q: int, n: nat, i: int) -> Seq<
    int,
>
    recommends
        0 <= i < v0.len(),
{
    add_spec(v0[i], v1[i], q, n)
}

/// Adds two equal-length vectors of polynomials entry by entry.
pub fn add_vec(v0: &Vec<Poly>, v1: &Vec<Poly>, modulus: i64, poly_mod: &Poly) -> (r: Vec<Poly>)
    requires
        modulus >= 0,
        poly_mod@.len() >= 2,
            poly_mod@.len() <= 0x8000_0000,
        v0@.len() == v1@.len(),
        vec_wf(v0@, (poly_mod@.len() - 1) as nat, 0x4000_0000_0000_0000),
        vec_wf(v1@, (poly_mod@.len() - 1) as nat, 0x4000_0000_0000_0000),
        modulus >= 1,
    ensures
        r@.len() == v0@.len(),
        forall|i: int|
            0 <= i < r@.len() ==> (#[trigger] r@[i])@ == addvec_spec(
                views_of(v0@),
                views_of(v1@),
                modulus as int,
                (poly_mod@.len() - 1) as nat,
                i,
            ),
{
    let mut out: Vec<Poly> = Vec::new();
    let mut i: usize = 0;
    while i < v0.len()
        invariant
            modulus >= 1,
            poly_mod@.len() >= 2,
            poly_mod@.len() <= 0x8000_0000,
            v0@.len() == v1@.len(),
            vec_wf(v0@, (poly_mod@.len() - 1) as nat, 0x4000_0000_0000_0000),
            vec_wf(v1@, (poly_mod@.len() - 1) as nat, 0x4000_0000_0000_0000),
            i <= v0@.len(),
            out@.len() == i,
            forall|k: int|
                0 <= k < i ==> (#[trigger] out@[k])@ == addvec_spec(
                    views_of(v0@),
                    views_of(v1@),
                    modulus as int,
                    (poly_mod@.len() - 1) as nat,
                    k,
                ),
        decreases v0@.len() - i,
    {
        let s = polyadd(&v0[i], &v1[i], modulus, poly_mod);
        proof {
            assert(views_of(v0@)[i as int] == v0@[i as int]@);
            assert(views_of(v1@)[i as int] == v1@[i as int]@);
        }
        out.push(s);
        i = i + 1;
    }
    out
}

/// The ring dot product of the first `k` entries of two vectors.
pub open spec fn dot_spec(v0: Seq<Seq<int>>, v1: Seq<Seq<int>>, q: int, n: nat, k: int) -> Seq<
    int,
>
    decreases k,
{
    if k <= 0 {
        Seq::empty()
    } else {
        add_spec(
            dot_spec(v0, v1, q, n, k - 1),
            mul_spec(v0[k - 1], v1[k - 1], q, n),
            q,
            n,
        )
    }
}

/// The dot product of two equal-length vectors of polynomials.
pub fn mul_vec_simple(v0: &Vec<Poly>, v1: &Vec<Poly>, modulus: i64, poly_mod: &Poly) -> (r: Poly)
    requires
        modulus >= 1,
        poly_mod@.len() >= 2,
            poly_mod@.len() <= 0x8000_0000,
        v0@.len() == v1@.len(),
        vec_wf(v0@, (poly_mod@.len() - 1) as nat, 0x8000_0000),
        vec_wf(v1@, (poly_mod@.len() - 1) as nat, 0x8000_0000),
    ensures
        r@ == dot_spec(
            views_of(v0@),
            views_of(v1@),
            modulus as int,
            (poly_mod@.len() - 1) as nat,
            v0@.len() as int,
        ),
{
    let ghost n = (poly_mod@.len() - 1) as nat;
    let mut acc = Poly::new(Vec::new());
    proof {
        assert(to_ints(Seq::<i64>::empty()) =~= Seq::<int>::empty());
        assert(acc@ == dot_spec(views_of(v0@), views_of(v1@), modulus as int, n, 0));
    }
    let mut i: usize = 0;
    while i < v0.len()
        invariant
            modulus >= 1,
            poly_mod@.len() >= 2,
            poly_mod@.len() <= 0x8000_0000,
            n == (poly_mod@.len() - 1) as nat,
            v0@.len() == v1@.len(),
            vec_wf(v0@, n, 0x8000_0000),
            vec_wf(v1@, n, 0x8000_0000),
            i <= v0@.len(),
            acc@ == dot_spec(views_of(v0@), views_of(v1@), modulus as int, n, i as int),
            acc@.len() <= n,
            bounded(acc@, (modulus / 2) as int),
        decreases v0@.len() - i,
    {
        let p = polymul(&v0[i], &v1[i], modulus, poly_mod);
        proof {
            lemma_mul_spec_shape(v0@[i as int]@, v1@[i as int]@, modulus as int, n);
            assert(views_of(v0@)[i as int] == v0@[i as int]@);
            assert(views_of(v1@)[i as int] == v1@[i as int]@);
            assert((modulus / 2) as int <= 0x4000_0000_0000_0000);
        }
        let next = polyadd(&acc, &p, modulus, poly_mod);
        proof {
            crate::poly::lemma_add_spec_shape(acc@, p@, modulus as int, n);
        }
        acc = next;
        i = i + 1;
    }
    acc
}

/// A matrix of polynomials applied to a vector, row by row.
pub fn mul_mat_vec_simple(m: &Vec<Vec<Poly>>, v: &Vec<Poly>, modulus: i64, poly_mod: &Poly) -> (r:
    Vec<Poly>)
    requires
        modulus >= 1,
        poly_mod@.len() >= 2,
            poly_mod@.len() <= 0x8000_0000,
        forall|i: int|
            0 <= i < m@.len() ==> (#[trigger] m@[i])@.len() == v@.len() && vec_wf(
                m@[i]@,
                (poly_mod@.len() - 1) as nat,
                0x8000_0000,
            ),
        vec_wf(v@, (poly_mod@.len() - 1) as nat, 0x8000_0000),
    ensures
        r@.len() == m@.len(),
        forall|i: int|
            0 <= i < r@.len() ==> (#[trigger] r@[i])@ == dot_spec(
                views_of(m@[i]@),
                views_of(v@),
                modulus as int,
                (poly_mod@.len() - 1) as nat,
                v@.len() as int,
            ),
{
    let mut out: Vec<Poly> = Vec::new();
    let mut i: usize = 0;
    while i < m.len()
        invariant
            modulus >= 1,
            poly_mod@.len() >= 2,
            poly_mod@.len() <= 0x8000_0000,
            forall|k: int|
                0 <= k < m@.len() ==> (#[trigger] m@[k])@.len() == v@.len() && vec_wf(
                    m@[k]@,
                    (poly_mod@.len() - 1) as nat,
                    0x8000_0000,
                ),
            vec_wf(v@, (poly_mod@.len() - 1) as nat, 0x8000_0000),
            i <= m@.len(),
            out@.len() == i,
            forall|k: int|
                0 <= k < i ==> (#[trigger] out@[k])@ == dot_spec(
                    views_of(m@[k]@),
                    views_of(v@),
                    modulus as int,
                    (poly_mod@.len() - 1) as nat,
                    v@.len() as int,
                ),
        decreases m@.len() - i,
    {
        let row = mul_vec_simple(&m[i], v, modulus, poly_mod);
        out.push(row);
        i = i + 1;
    }
    out
}

/// Transposes a non-empty rectangular matrix of polynomials.
pub fn transpose(m: &Vec<Vec<Poly>>) -> (r: Vec<Vec<Poly>>)
    requires
        m@.len() >= 1,
        forall|i: int| 0 <= i < m@.len() ==> (#[trigger] m@[i])@.len() == m@[0]@.len(),
    ensures
        r@.len() == m@[0]@.len(),
        forall|j: int| 0 <= j < r@.len() ==> (#[trigger] r@[j])@.len() == m@.len(),
        forall|j: int, i: int|
            0 <= j < r@.len() && 0 <= i < m@.len() ==> (#[trigger] r@[j]@[i])@ == m@[i]@[j]@,
{
    let cols = m[0].len();
    let mut out: Vec<Vec<Poly>> = Vec::new();
    let mut j: usize = 0;
    while j < cols
        invariant
            m@.len() >= 1,
            cols == m@[0]@.len(),
            forall|i: int| 0 <= i < m@.len() ==> (#[trigger] m@[i])@.len() == cols,
            j <= cols,
            out@.len() == j,
            forall|jj: int| 0 <= jj < j ==> (#[trigger] out@[jj])@.len() == m@.len(),
            forall|jj: int, i: int|
                0 <= jj < j && 0 <= i < m@.len() ==> (#[trigger] out@[jj]@[i])@ == m@[i]@[jj]@,
        decreases cols - j,
    {
        let mut rowj: Vec<Poly> = Vec::new();
        let mut i: usize = 0;
        while i < m.len()
            invariant
                m@.len() >= 1,
                cols == m@[0]@.len(),
                j < cols,
                forall|ii: int| 0 <= ii < m@.len() ==> (#[trigger] m@[ii])@.len() == cols,
                i <= m@.len(),
                rowj@.len() == i,
                forall|ii: int| 0 <= ii < i ==> (#[trigger] rowj@[ii])@ == m@[ii]@[j as int]@,
            decreases m@.len() - i,
        {
            let p = m[i][j].duplicate();
            rowj.push(p);
            i = i + 1;
        }
        out.push(rowj);
        j = j + 1;
    }
    out
}

/// A rank-`rank` vector of fresh ternary polynomials.
pub fn gen_small_vector(size: usize, rank: usize, seed: Option<u64>) -> (r: Vec<Poly>)
    ensures
        r@.len() == rank,
        vec_wf(r@, size as nat, 1),
{
    let mut out: Vec<Poly> = Vec::new();
    let mut i: usize = 0;
    while i < rank
        invariant
            i <= rank,
            out@.len() == i,
            vec_wf(out@, size as nat, 1),
        decreases rank - i,
    {
        let p = gen_ternary_poly(size, seed_offset(seed, i as u64));
        proof {
            assert(forall|k: int|
                0 <= k < out@.len() + 1 ==> (#[trigger] out@.push(p)[k])@.len() <= size as nat
                    && bounded(out@.push(p)[k]@, 1));
        }
        out.push(p);
        i = i + 1;
    }
    out
}

/// A rank-by-rank matrix of fresh uniform polynomials, centered modulo the
/// ciphertext modulus.
pub fn gen_uniform_matrix(size: usize, rank: usize, modulus: i64, seed: Option<u64>) -> (r: Vec<
    Vec<Poly>>)
    requires
        modulus >= 1,
        rank < 0x1_0000,
    ensures
        r@.len() == rank,
        forall|i: int|
            0 <= i < r@.len() ==> (#[trigger] r@[i])@.len() == rank && vec_wf(
                r@[i]@,
                size as nat,
                (modulus / 2) as int,
            ),
{
    let mut out: Vec<Vec<Poly>> = Vec::new();
    let mut i: usize = 0;
    while i < rank
        invariant
            modulus >= 1,
            rank < 0x1_0000,
            i <= rank,
            out@.len() == i,
            forall|k: int|
                0 <= k < i ==> (#[trigger] out@[k])@.len() == rank && vec_wf(
                    out@[k]@,
                    size as nat,
                    (modulus / 2) as int,
                ),
        decreases rank - i,
    {
        let mut row: Vec<Poly> = Vec::new();
        let mut j: usize = 0;
        while j < rank
            invariant
                modulus >= 1,
                rank < 0x1_0000,
                i < rank,
                j <= rank,
                row@.len() == j,
                vec_wf(row@, size as nat, (modulus / 2) as int),
            decreases rank - j,
        {
            let p = gen_uniform_poly(
                size,
                modulus,
                seed_offset(seed, (i as u64) * 0x1_0000 + (j as u64)),
            );
            proof {
                assert(forall|k: int|
                    0 <= k < row@.len() + 1 ==> (#[trigger] row@.push(p)[k])@.len() <= size as nat
                        && bounded(row@.push(p)[k]@, (modulus / 2) as int));
            }
            row.push(p);
            j = j + 1;
        }
        out.push(row);
        i = i + 1;
    }
    out
}

/// Module key generation: a uniform matrix `a`, small `sk` and `e`, and the
/// public vector `t = a*sk + e`.
pub fn keygen(size: usize, modulus: i64, rank: usize, poly_mod: &Poly) -> (r: (
    Vec<Vec<Poly>>,
    Vec<Poly>,
    Vec<Poly>,
))
    requires
        modulus >= 3,
        modulus <= 0x1_0000_0000,
        rank < 0x1_0000,
        poly_mod@.len() >= 2,
            poly_mod@.len() <= 0x8000_0000,
        size as int <= poly_mod@.len() - 1,
    ensures
        r.0@.len() == rank,
        r.1@.len() == rank,
        r.2@.len() == rank,
        vec_wf(r.2@, size as nat, 1),
        forall|i: int|
            0 <= i < rank ==> (#[trigger] r.0@[i])@.len() == rank && vec_wf(
                r.0@[i]@,
                size as nat,
                (modulus / 2) as int,
            ),
        vec_wf(r.1@, (poly_mod@.len() - 1) as nat, (modulus / 2) as int),
        exists|e: Seq<Poly>|
            #[trigger] vec_wf(e, size as nat, 1) && e.len() == rank && forall|i: int|
                0 <= i < rank ==> (#[trigger] r.1@[i])@ == add_spec(
                    dot_spec(
                        views_of(r.0@[i]@),
                        views_of(r.2@),
                        modulus as int,
                        (poly_mod@.len() - 1) as nat,
                        rank as int,
                    ),
                    e[i]@,
                    modulus as int,
                    (poly_mod@.len() - 1) as nat,
                ),
{
    let ghost n = (poly_mod@.len() - 1) as nat;
    let a = gen_uniform_matrix(size, rank, modulus, None);
    let sk = gen_small_vector(size, rank, None);
    let e = gen_small_vector(size, rank, None);
    proof {
        assert forall|i: int| 0 <= i < rank implies vec_wf(#[trigger] a@[i]@, n, 0x8000_0000) by {
            assert(vec_wf(a@[i]@, size as nat, (modulus / 2) as int));
            assert forall|k: int|
                0 <= k < a@[i]@.len() implies (#[trigger] a@[i]@[k])@.len() <= n && bounded(
                a@[i]@[k]@,
                0x8000_0000,
            ) by {
                assert(a@[i]@[k]@.len() <= size as nat);
                assert(bounded(a@[i]@[k]@, (modulus / 2) as int));
                assert forall|c: int| 0 <= c < a@[i]@[k]@.len() implies -0x8000_0000 <= #[trigger] (
                a@[i]@[k]@[c]) <= 0x8000_0000 by {
                    assert(-((modulus / 2) as int) <= a@[i]@[k]@[c] <= (modulus / 2) as int);
                }
            }
        }
        assert(vec_wf(sk@, n, 0x8000_0000)) by {
            assert forall|k: int|
                0 <= k < sk@.len() implies (#[trigger] sk@[k])@.len() <= n && bounded(
                sk@[k]@,
                0x8000_0000,
            ) by {
                assert(sk@[k]@.len() <= size as nat);
                assert(bounded(sk@[k]@, 1));
                assert forall|c: int| 0 <= c < sk@[k]@.len() implies -0x8000_0000 <= #[trigger] (
                sk@[k]@[c]) <= 0x8000_0000 by {
                    assert(-1 <= sk@[k]@[c] <= 1);
                }
            }
        }
    }
    let ask = mul_mat_vec_simple(&a, &sk, modulus, poly_mod);
    proof {
        assert forall|i: int| 0 <= i < ask@.len() implies (#[trigger] ask@[i])@.len() <= n
            && bounded(ask@[i]@, 0x4000_0000_0000_0000) by {
            lemma_dot_shape(views_of(a@[i]@), views_of(sk@), modulus as int, n, rank as int);
        }
        assert(vec_wf(ask@, n, 0x4000_0000_0000_0000));
        assert(vec_wf(e@, n, 0x4000_0000_0000_0000)) by {
            assert forall|k: int|
                0 <= k < e@.len() implies (#[trigger] e@[k])@.len() <= n && bounded(
                e@[k]@,
                0x4000_0000_0000_0000,
            ) by {
                assert(bounded(e@[k]@, 1));
                assert forall|c: int| 0 <= c < e@[k]@.len() implies -0x4000_0000_0000_0000
                    <= #[trigger] (e@[k]@[c]) <= 0x4000_0000_0000_0000 by {
                    assert(-1 <= e@[k]@[c] <= 1);
                }
            }
        }
    }
    let t = add_vec(&ask, &e, modulus, poly_mod);
    proof {
        assert forall|i: int|
            0 <= i < rank implies (#[trigger] t@[i])@ == add_spec(
            dot_spec(views_of(a@[i]@), views_of(sk@), modulus as int, n, rank as int),
            e@[i]@,
            modulus as int,
            n,
        ) by {
            assert(t@[i]@ == addvec_spec(views_of(ask@), views_of(e@), modulus as int, n, i));
            assert(views_of(ask@)[i] == ask@[i]@);
            assert(views_of(e@)[i] == e@[i]@);
            assert(ask@[i]@ == dot_spec(
                views_of(a@[i]@),
                views_of(sk@),
                modulus as int,
                n,
                sk@.len() as int,
            ));
        }
        assert(vec_wf(e@, size as nat, 1));
        assert(vec_wf(t@, (poly_mod@.len() - 1) as nat, (modulus / 2) as int)) by {
            assert forall|i: int| 0 <= i < t@.len() implies (#[trigger] t@[i])@.len() <= n
                && bounded(t@[i]@, (modulus / 2) as int) by {
                assert(t@[i]@ == addvec_spec(views_of(ask@), views_of(e@), modulus as int, n, i));
                crate::poly::lemma_add_spec_shape(
                    views_of(ask@)[i],
                    views_of(e@)[i],
                    modulus as int,
                    n,
                );
                assert(views_of(ask@)[i] == ask@[i]@);
                assert(views_of(e@)[i] == e@[i]@);
                assert(ask@[i]@.len() <= n && e@[i]@.len() <= n);
            }
        }
    }
    (a, t, sk)
}

/// A dot product has the shape of a ring element.
proof fn lemma_dot_shape(v0: Seq<Seq<int>>, v1: Seq<Seq<int>>, q: int, n: nat, k: int)
    requires
        q >= 1,
        q <= 0x7fff_ffff_ffff_ffff,
    ensures
        dot_spec(v0, v1, q, n, k).len() <= n,
        bounded(dot_spec(v0, v1, q, n, k), 0x4000_0000_0000_0000),
    decreases k,
{
    if k > 0 {
        lemma_dot_shape(v0, v1, q, n, k - 1);
        crate::poly::lemma_add_spec_shape(
            dot_spec(v0, v1, q, n, k - 1),
            mul_spec(v0[k - 1], v1[k - 1], q, n),
            q,
            n,
        );
        lemma_ring_len(dot_spec(v0, v1, q, n, k - 1), mul_spec(v0[k - 1], v1[k - 1], q, n), q, n);
        assert forall|j: int| 0 <= j < dot_spec(v0, v1, q, n, k).len() implies
            -0x4000_0000_0000_0000 <= #[trigger] (dot_spec(v0, v1, q, n, k)[j])
                <= 0x4000_0000_0000_0000 by {
            assert(-(q / 2) <= dot_spec(v0, v1, q, n, k)[j] <= q / 2);
        }
    }
}

/// The views of column `j` of a matrix of polynomials.
pub open spec fn col_views(m: Seq<Vec<Poly>>, j: int) -> Seq<Seq<int>> {
    Seq::new(m.len(), |l: int| m[l]@[j]@)
}

/// The message bits scaled to the upper half of the modulus.
pub open spec fn scaled_bits(m_b: Seq<i64>, half_q: int) -> Seq<int> {
    Seq::new(m_b.len(), |k: int| (m_b[k] as int) * half_q)
}

/// Module encryption: `u = a^T*r + e1` and `v = t.r + e2 - m*(q/2 + 1)`,
/// with the binary message scaled to the upper half of the modulus.
pub fn encrypt(
    a: &Vec<Vec<Poly>>,
    t: &Vec<Poly>,
    m_b: Vec<i64>,
    f: &Poly,
    q: i64,
    r: &Vec<Poly>,
    e1: &Vec<Poly>,
    e2: &Poly,
) -> (res: (Vec<Poly>, Poly))
    requires
        q >= 3,
        q <= 0x1_0000_0000,
        f@.len() >= 2,
        f@.len() <= 0x8000_0000,
        a@.len() >= 1,
        a@.len() == r@.len(),
        a@.len() == t@.len(),
        a@.len() == e1@.len(),
        a@.len() < 0x1_0000,
        forall|i: int|
            0 <= i < a@.len() ==> (#[trigger] a@[i])@.len() == a@.len() && vec_wf(
                a@[i]@,
                (f@.len() - 1) as nat,
                0x8000_0000,
            ),
        vec_wf(t@, (f@.len() - 1) as nat, 0x8000_0000),
        vec_wf(r@, (f@.len() - 1) as nat, 0x8000_0000),
        vec_wf(e1@, (f@.len() - 1) as nat, 0x4000_0000_0000_0000),
        e2@.len() <= f@.len() - 1,
        bounded(e2@, 0x4000_0000_0000_0000),
        m_b@.len() <= f@.len() - 1,
        forall|k: int| 0 <= k < m_b@.len() ==> 0 <= #[trigger] (m_b@[k]) <= 1,
    ensures
        res.0@.len() == a@.len(),
        vec_wf(res.0@, (f@.len() - 1) as nat, (q / 2) as int),
        res.1@.len() <= f@.len() - 1,
        bounded(res.1@, (q / 2) as int),
        forall|i: int|
            0 <= i < res.0@.len() ==> (#[trigger] res.0@[i])@ == add_spec(
                dot_spec(
                    col_views(a@, i),
                    views_of(r@),
                    q as int,
                    (f@.len() - 1) as nat,
                    r@.len() as int,
                ),
                e1@[i]@,
                q as int,
                (f@.len() - 1) as nat,
            ),
        res.1@ == add_spec(
            add_spec(
                dot_spec(
                    views_of(t@),
                    views_of(r@),
                    q as int,
                    (f@.len() - 1) as nat,
                    r@.len() as int,
                ),
                e2@,
                q as int,
                (f@.len() - 1) as nat,
            ),
            inv_spec(trim(scaled_bits(m_b@, (q / 2 + 1) as int)), q as int),
            q as int,
            (f@.len() - 1) as nat,
        ),
{
    let half_q = q / 2 + 1;
    let mut scaled: Vec<i64> = Vec::new();
    let mut i: usize = 0;
    while i < m_b.len()
        invariant
            q >= 3,
            half_q == q / 2 + 1,
            i <= m_b@.len(),
            scaled@.len() == i,
            forall|k: int| 0 <= k < m_b@.len() ==> 0 <= #[trigger] (m_b@[k]) <= 1,
            forall|k: int| 0 <= k < i ==> #[trigger] (scaled@[k]) == m_b@[k] * half_q,
        decreases m_b@.len() - i,
    {
        let c = m_b[i];
        proof {
            assert(c * half_q == if c == 0 { 0int } else { half_q as int }) by (nonlinear_arith)
                requires 0 <= c <= 1, half_q >= 1;
        }
        scaled.push(c * half_q);
        i = i + 1;
    }
    let m_poly = Poly::new(scaled);
    let at = transpose(a);
    let atr = mul_mat_vec_simple(&at, r, q, f);
    proof {
        assert forall|k: int| 0 <= k < atr@.len() implies (#[trigger] atr@[k])@.len() <= (f@.len()
            - 1) as nat && bounded(atr@[k]@, 0x4000_0000_0000_0000) by {
            lemma_dot_shape(views_of(at@[k]@), views_of(r@), q as int, (f@.len() - 1) as nat, r@.len() as int);
        }
    }
    let u = add_vec(&atr, e1, q, f);
    let tr = mul_vec_simple(t, r, q, f);
    proof {
        lemma_dot_shape(views_of(t@), views_of(r@), q as int, (f@.len() - 1) as nat, t@.len() as int);
    }
    let tre2 = polyadd(&tr, e2, q, f);
    proof {
        crate::poly::lemma_add_spec_shape(tr@, e2@, q as int, (f@.len() - 1) as nat);
        crate::poly::lemma_trim_pcoeff(to_ints(scaled@));
        assert(bounded(m_poly@, 0x4000_0000_0000_0000)) by {
            assert forall|k: int| 0 <= k < m_poly@.len() implies -0x4000_0000_0000_0000
                <= #[trigger] (m_poly@[k]) <= 0x4000_0000_0000_0000 by {
                assert(pcoeff(m_poly@, k) == pcoeff(to_ints(scaled@), k));
                assert(to_ints(scaled@)[k] == scaled@[k] as int);
                assert(scaled@[k] == m_b@[k] * half_q);
                assert(0 <= m_b@[k] * half_q <= half_q) by (nonlinear_arith)
                    requires 0 <= m_b@[k] <= 1, half_q >= 1;
            }
        }
        assert(m_poly@.len() <= (f@.len() - 1) as nat);
    }
    let v = polysub(&tre2, &m_poly, q, f.duplicate());
    proof {
        let n = (f@.len() - 1) as nat;
        assert(vec_wf(u@, n, (q / 2) as int)) by {
            assert forall|i: int| 0 <= i < u@.len() implies (#[trigger] u@[i])@.len() <= n
                && bounded(u@[i]@, (q / 2) as int) by {
                assert(u@[i]@ == addvec_spec(views_of(atr@), views_of(e1@), q as int, n, i));
                crate::poly::lemma_add_spec_shape(
                    views_of(atr@)[i],
                    views_of(e1@)[i],
                    q as int,
                    n,
                );
                assert(views_of(atr@)[i] == atr@[i]@);
                assert(views_of(e1@)[i] == e1@[i]@);
                assert(atr@[i]@.len() <= n && e1@[i]@.len() <= n);
            }
        }
        crate::poly::lemma_add_spec_shape(tre2@, inv_spec(m_poly@, q as int), q as int, n);
        crate::poly::lemma_ring_len(tre2@, inv_spec(m_poly@, q as int), q as int, n);
        // the transposed rows are the columns of `a`
        assert forall|i: int| 0 <= i < u@.len() implies (#[trigger] u@[i])@ == add_spec(
            dot_spec(col_views(a@, i), views_of(r@), q as int, n, r@.len() as int),
            e1@[i]@,
            q as int,
            n,
        ) by {
            assert(u@[i]@ == addvec_spec(views_of(atr@), views_of(e1@), q as int, n, i));
            assert(views_of(atr@)[i] == atr@[i]@);
            assert(views_of(e1@)[i] == e1@[i]@);
            assert(views_of(at@[i]@) =~= col_views(a@, i)) by {
                assert forall|l: int| 0 <= l < a@.len() implies #[trigger] (views_of(at@[i]@)[l])
                    == col_views(a@, i)[l] by {
                    assert(views_of(at@[i]@)[l] == at@[i]@[l]@);
                    assert(at@[i]@[l]@ == a@[l]@[i]@);
                }
            }
        }
        // the scaled message polynomial is the scaled bit sequence, trimmed
        assert(m_poly@ == trim(scaled_bits(m_b@, (q / 2 + 1) as int))) by {
            assert(to_ints(scaled@) =~= scaled_bits(m_b@, (q / 2 + 1) as int));
        }
    }
    (u, v)
}

/// The threshold decoder of the module variant: a coefficient reads as the
/// bit `1` exactly when it lies strictly nearer to the scaled one, `q/2 + 1`,
/// than to zero (distance to zero taken modulo `q`, whichever side is
/// closer).
pub open spec fn module_bit(c: int, q: int) -> int {
    let dist_one = if q / 2 + 1 >= c {
        q / 2 + 1 - c
    } else {
        c - (q / 2 + 1)
    };
    let dist_zero_a = if c >= 0 {
        c
    } else {
        -c
    };
    let dist_zero_b = if q - c >= 0 {
        q - c
    } else {
        c - q
    };
    let dist_zero = if dist_zero_a <= dist_zero_b {
        dist_zero_a
    } else {
        dist_zero_b
    };
    if dist_one < dist_zero {
        1
    } else {
        0
    }
}

/// Module decryption: one bit per stored coefficient of `v - sk.u` in the
/// ring, each decoded by the threshold rule.
pub fn decrypt(
    sk: &Vec<Poly>,
    q: i64,
    poly_mod: &Poly,
    u: &Vec<Poly>,
    v: &Poly,
) -> (r: Vec<i64>)
    requires
        q >= 3,
        q <= 0x1_0000_0000,
        poly_mod@.len() >= 2,
        poly_mod@.len() <= 0x8000_0000,
        sk@.len() == u@.len(),
        vec_wf(sk@, (poly_mod@.len() - 1) as nat, 0x8000_0000),
        vec_wf(u@, (poly_mod@.len() - 1) as nat, 0x8000_0000),
        v@.len() <= poly_mod@.len() - 1,
        bounded(v@, 0x4000_0000_0000_0000),
    ensures
        forall|k: int| 0 <= k < r@.len() ==> #[trigger] (r@[k]) == 0 || r@[k] == 1,
        r@.len() == add_spec(
            v@,
            inv_spec(
                dot_spec(
                    views_of(sk@),
                    views_of(u@),
                    q as int,
                    (poly_mod@.len() - 1) as nat,
                    sk@.len() as int,
                ),
                q as int,
            ),
            q as int,
            (poly_mod@.len() - 1) as nat,
        ).len(),
        forall|k: int|
            0 <= k < r@.len() ==> (#[trigger] r@[k]) as int == module_bit(
                add_spec(
                    v@,
                    inv_spec(
                        dot_spec(
                            views_of(sk@),
                            views_of(u@),
                            q as int,
                            (poly_mod@.len() - 1) as nat,
                            sk@.len() as int,
                        ),
                        q as int,
                    ),
                    q as int,
                    (poly_mod@.len() - 1) as nat,
                )[k],
                q as int,
            ),
{
    let sku = mul_vec_simple(sk, u, q, poly_mod);
    proof {
        lemma_dot_shape(views_of(sk@), views_of(u@), q as int, (poly_mod@.len() - 1) as nat, sk@.len() as int);
    }
    let scaled = polysub(v, &sku, q, poly_mod.duplicate());
    proof {
        crate::poly::lemma_add_spec_shape(
            v@,
            inv_spec(sku@, q as int),
            q as int,
            (poly_mod@.len() - 1) as nat,
        );
    }
    let half_q = q / 2 + 1;
    let sv = scaled.coeffs();
    let mut out: Vec<i64> = Vec::new();
    let mut i: usize = 0;
    while i < sv.len()
        invariant
            q >= 3,
            q <= 0x1_0000_0000,
            half_q == q / 2 + 1,
            to_ints(sv@) == scaled@,
            bounded(scaled@, (q / 2) as int),
            i <= sv@.len(),
            out@.len() == i,
            forall|k: int| 0 <= k < i ==> #[trigger] (out@[k]) == 0 || out@[k] == 1,
            forall|k: int|
                0 <= k < i ==> (#[trigger] out@[k]) as int == module_bit(scaled@[k], q as int),
        decreases sv@.len() - i,
    {
        proof {
            assert(scaled@[i as int] == sv@[i as int] as int);
        }
        let c = sv[i];
        let dist_one = if half_q >= c {
            half_q - c
        } else {
            c - half_q
        };
        let dist_zero_a = if c >= 0 {
            c
        } else {
            -c
        };
        let qc = q - c;
        let dist_zero_b = if qc >= 0 {
            qc
        } else {
            -qc
        };
        let dist_zero = if dist_zero_a <= dist_zero_b {
            dist_zero_a
        } else {
            dist_zero_b
        };
        let bit: i64 = if dist_one < dist_zero {
            1
        } else {
            0
        };
        out.push(bit);
        i = i + 1;
    }
    out
}

} // verus!

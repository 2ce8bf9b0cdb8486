//! Transport encoding of keys, ciphertexts and messages: fixed-width
//! coefficient blocks serialized through `bincode` and `base64`, and the
//! bit-per-coefficient message encoding.
//!
//! Serialization itself is an external collaborator: the library states its
//! round-trip property at the boundary and verifies everything around it.

use vstd::prelude::*;
use crate::poly::{Poly, pcoeff, to_ints, bounded, trim, lemma_trim_pcoeff};
use crate::params::Parameters;
use crate::keygen::{keygen, keygen_b_spec, seed_offset};
use crate::encrypt::encrypt;
use crate::decrypt::decrypt;
use std::collections::HashMap;

verus! {

/// Why a transport string was rejected.
#[derive(Debug, PartialEq, Eq)]
pub enum LweError {
    /// The base64 or binary layer could not be decoded.
    BadEncoding,
    /// The coefficient count does not match the parameters.
    BadLength,
    /// A decoded value lies outside the range the scheme accepts.
    BadValue,
}

/// The byte string `bincode` produces for a vector of 64-bit integers:
/// a little-endian length header followed by each value in fixed width.
pub uninterp spec fn bincode_bytes_of(s: Seq<i64>) -> Seq<u8>;

/// What `bincode` parses a byte string as, when read as a vector of 64-bit
/// integers: a function of the bytes alone (`None` where parsing fails).
pub uninterp spec fn bincode_parsed(b: Seq<u8>) -> Option<Seq<i64>>;

/// The base64 text of a byte string, standard alphabet with padding.
pub uninterp spec fn base64_of(b: Seq<u8>) -> Seq<char>;

/// The UTF-8 bytes of a character sequence.
pub uninterp spec fn utf8_of(s: Seq<char>) -> Seq<u8>;

/// Relies on bincode::serialize: the fixed-width little-endian encoding of
/// the vector.  Serializing a plain integer vector into memory cannot fail:
/// the default configuration sets no size limit and the in-memory writer
/// reports no errors, so the result is always present.
#[verifier::external_body]
fn bincode_encode(v: &Vec<i64>) -> (r: Option<Vec<u8>>)
    ensures
        r is Some,
        r.unwrap()@ == bincode_bytes_of(v@),
{
    match bincode::serialize(v) {
        Ok(b) => Some(b),
        Err(_) => None,
    }
}

/// Relies on bincode::deserialize: a deterministic parser of the byte
/// string (named `bincode_parsed`) that inverts bincode::serialize, so a
/// byte string that is the encoding of some vector decodes to that vector.
#[verifier::external_body]
fn bincode_decode(b: &Vec<u8>) -> (r: Option<Vec<i64>>)
    ensures
        forall|s: Seq<i64>| b@ == #[trigger] bincode_bytes_of(s) ==> r is Some && r.unwrap()@ == s,
        r is Some <==> bincode_parsed(b@) is Some,
        r is Some ==> Some(r.unwrap()@) == bincode_parsed(b@),
{
    match bincode::deserialize::<Vec<i64>>(b.as_slice()) {
        Ok(v) => Some(v),
        Err(_) => None,
    }
}

/// Relies on base64::Engine::encode with the standard engine.
#[verifier::external_body]
fn base64_encode(b: &Vec<u8>) -> (r: String)
    ensures
        r@ == base64_of(b@),
{
    base64::Engine::encode(&base64::engine::general_purpose::STANDARD, b)
}

/// Relies on base64::Engine::decode with the standard engine: the inverse
/// of its encode.  The engine requires canonical padding and rejects
/// non-zero trailing bits, so it accepts exactly the canonical encodings:
/// encoded byte strings decode losslessly, and whatever decodes is the
/// decoding of its own re-encoding.
#[verifier::external_body]
fn base64_decode(s: &String) -> (r: Option<Vec<u8>>)
    ensures
        forall|b: Seq<u8>| s@ == #[trigger] base64_of(b) ==> r is Some && r.unwrap()@ == b,
        r is Some ==> s@ == base64_of(r.unwrap()@),
{
    match base64::Engine::decode(&base64::engine::general_purpose::STANDARD, s.as_str()) {
        Ok(v) => Some(v),
        Err(_) => None,
    }
}

/// Relies on str::as_bytes: the UTF-8 bytes of the string.
#[verifier::external_body]
fn utf8_bytes(s: &String) -> (r: Vec<u8>)
    ensures
        r@ == utf8_of(s@),
{
    s.as_bytes().to_vec()
}

/// Relies on String::from_utf8: the inverse of str::as_bytes, so the UTF-8
/// bytes of any string decode back to that string, and a decoded string's
/// own UTF-8 bytes are the input.
#[verifier::external_body]
fn utf8_string(b: Vec<u8>) -> (r: Option<String>)
    ensures
        forall|t: Seq<char>| b@ == #[trigger] utf8_of(t) ==> r is Some && r.unwrap()@ == t,
        r is Some ==> utf8_of(r.unwrap()@) == b@,
{
    match String::from_utf8(b) {
        Ok(s) => Some(s),
        Err(_) => None,
    }
}

/// Bit `sh` of a byte, as an integer coefficient.
pub open spec fn bit_val(b: u8, sh: u64) -> int {
    ((b >> sh) & 1) as int
}

/// The most-significant-bit-first bit stream of a byte string.
pub fn bytes_to_bits(bytes: &Vec<u8>) -> (r: Vec<i64>)
    requires
        bytes@.len() * 8 <= usize::MAX,
    ensures
        r@.len() == bytes@.len() * 8,
        forall|i: int, k: int|
            0 <= i < bytes@.len() && 0 <= k < 8 ==> #[trigger] (r@[8 * i + k]) as int == bit_val(
                bytes@[i],
                (7 - k) as u64,
            ),
        forall|j: int| 0 <= j < r@.len() ==> 0 <= #[trigger] (r@[j]) <= 1,
{
    let mut out: Vec<i64> = Vec::new();
    let mut i: usize = 0;
    while i < bytes.len()
        invariant
            bytes@.len() * 8 <= usize::MAX,
            i <= bytes@.len(),
            out@.len() == 8 * i,
            forall|ii: int, k: int|
                0 <= ii < i && 0 <= k < 8 ==> #[trigger] (out@[8 * ii + k]) as int == bit_val(
                    bytes@[ii],
                    (7 - k) as u64,
                ),
            forall|j: int| 0 <= j < out@.len() ==> 0 <= #[trigger] (out@[j]) <= 1,
        decreases bytes@.len() - i,
    {
        let b = bytes[i];
        let mut k: usize = 0;
        while k < 8
            invariant
                i < bytes@.len(),
                b == bytes@[i as int],
                k <= 8,
                out@.len() == 8 * i + k,
                forall|ii: int, kk: int|
                    0 <= ii < i && 0 <= kk < 8 ==> #[trigger] (out@[8 * ii + kk]) as int
                        == bit_val(bytes@[ii], (7 - kk) as u64),
                forall|kk: int|
                    0 <= kk < k ==> #[trigger] (out@[8 * (i as int) + kk]) as int == bit_val(
                        bytes@[i as int],
                        (7 - kk) as u64,
                    ),
                forall|j: int| 0 <= j < out@.len() ==> 0 <= #[trigger] (out@[j]) <= 1,
            decreases 8 - k,
        {
            let sh: u64 = (7 - k) as u64;
            proof {
                assert(((b >> sh) & 1) <= 1) by (bit_vector);
            }
            let bit: i64 = ((b >> sh) & 1) as i64;
            out.push(bit);
            k = k + 1;
        }
        i = i + 1;
    }
    out
}

/// The value of one most-significant-first bit group.
pub open spec fn byte_of_bits(s: Seq<int>, base: int) -> int {
    pcoeff(s, base) * 128 + pcoeff(s, base + 1) * 64 + pcoeff(s, base + 2) * 32 + pcoeff(
        s,
        base + 3,
    ) * 16 + pcoeff(s, base + 4) * 8 + pcoeff(s, base + 5) * 4 + pcoeff(s, base + 6) * 2 + pcoeff(
        s,
        base + 7,
    )
}

/// Packs a 0/1 bit stream, eight most-significant-first bits per byte.
pub fn bits_to_bytes(bits: &Vec<i64>) -> (r: Vec<u8>)
    requires
        bits@.len() % 8 == 0,
        bits@.len() + 8 <= usize::MAX,
        forall|j: int| 0 <= j < bits@.len() ==> 0 <= #[trigger] (bits@[j]) <= 1,
    ensures
        r@.len() * 8 == bits@.len(),
        forall|i: int|
            0 <= i < r@.len() ==> (#[trigger] r@[i]) as int == byte_of_bits(
                to_ints(bits@),
                8 * i,
            ),
{
    let mut out: Vec<u8> = Vec::new();
    let mut i: usize = 0;
    while i + 8 <= bits.len()
        invariant
            bits@.len() % 8 == 0,
            bits@.len() + 8 <= usize::MAX,
            forall|j: int| 0 <= j < bits@.len() ==> 0 <= #[trigger] (bits@[j]) <= 1,
            i % 8 == 0,
            i <= bits@.len(),
            out@.len() * 8 == i,
            forall|ii: int|
                0 <= ii < out@.len() ==> (#[trigger] out@[ii]) as int == byte_of_bits(
                    to_ints(bits@),
                    8 * ii,
                ),
        decreases bits@.len() - i,
    {
        let mut acc: u8 = 0;
        let mut k: usize = 0;
        while k < 8
            invariant
                i + 8 <= bits@.len(),
                bits@.len() + 8 <= usize::MAX,
                forall|j: int| 0 <= j < bits@.len() ==> 0 <= #[trigger] (bits@[j]) <= 1,
                k <= 8,
                acc as int == partial_byte(to_ints(bits@), i as int, k as int),
                (acc as int) < pow2k(k as int),
            decreases 8 - k,
        {
            let bit = bits[i + k];
            proof {
                assert(to_ints(bits@)[i + k] == bits@[(i + k) as int] as int);
                lemma_pow2k_mono(k as int, 7);
                assert(pow2k(7) == 128) by {
                    reveal_with_fuel(pow2k, 8);
                }
                assert(pow2k(k as int + 1) == 2 * pow2k(k as int));
            }
            acc = acc * 2 + (bit as u8);
            k = k + 1;
        }
        proof {
            lemma_partial_byte_full(to_ints(bits@), i as int);
        }
        out.push(acc);
        i = i + 8;
    }
    proof {
        assert(i == bits@.len()) by {
            vstd::arithmetic::div_mod::lemma_fundamental_div_mod(bits@.len() as int, 8);
            vstd::arithmetic::div_mod::lemma_fundamental_div_mod(i as int, 8);
        }
    }
    out
}

/// The coefficients of a polynomial, zero-padded to the block width `n`.
pub fn padded_coeffs(p: &Poly, n: usize) -> (r: Vec<i64>)
    requires
        p@.len() <= n,
    ensures
        r@.len() == n,
        forall|k: int| 0 <= k < n ==> (#[trigger] r@[k]) as int == pcoeff(p@, k),
{
    let pv = p.coeffs();
    let mut out: Vec<i64> = Vec::new();
    let mut i: usize = 0;
    while i < n
        invariant
            to_ints(pv@) == p@,
            p@.len() <= n,
            i <= n,
            out@.len() == i,
            forall|k: int| 0 <= k < i ==> (#[trigger] out@[k]) as int == pcoeff(p@, k),
        decreases n - i,
    {
        if i < pv.len() {
            proof {
                assert(p@[i as int] == pv@[i as int] as int);
            }
            out.push(pv[i]);
        } else {
            out.push(0);
        }
        i = i + 1;
    }
    out
}

/// The coefficients of a block, zero-padded to width `n`, as stored values.
pub open spec fn padded_block(s: Seq<int>, n: nat) -> Seq<i64> {
    Seq::new(n, |k: int| pcoeff(s, k) as i64)
}

/// What the key map holds: under the keys `"public"` and `"secret"`, base64
/// text of the bincode blocks of a fresh key pair — the `b` block then the
/// `a` block, each padded to exactly `n` coefficients, and the padded
/// ternary secret.  The map view itself is pinned under the standard
/// library's key-model assumption for `String`, which vstd leaves
/// uninterpreted.
pub open spec fn keygen_string_post(
    a: Seq<int>,
    sk: Seq<int>,
    e: Seq<int>,
    kp: String,
    ks: String,
    vp: String,
    vs: String,
    m: Map<String, String>,
    q: int,
    n: nat,
) -> bool {
    &&& bounded(sk, 1) && sk.len() <= n
    &&& bounded(e, 1) && e.len() <= n
    &&& bounded(a, q / 2) && a.len() <= n
    &&& vp@ == base64_of(
        bincode_bytes_of(padded_block(keygen_b_spec(a, sk, e, q, n), n) + padded_block(a, n)),
    )
    &&& vs@ == base64_of(bincode_bytes_of(padded_block(sk, n)))
    &&& kp@ == "public"@
    &&& ks@ == "secret"@
    &&& (vstd::std_specs::hash::obeys_key_model::<String>() ==> m == Map::<String, String>::empty(
    ).insert(ks, vs).insert(kp, vp))
}

/// Generates a key pair and returns it as base64 text under the keys
/// `"secret"` and `"public"`; the public entry carries the `b` block then
/// the `a` block, each padded to exactly `n` coefficients.
pub fn keygen_string(params: &Parameters, seed: Option<u64>) -> (r: HashMap<String, String>)
    requires
        params.wf(),
        params.ntt_ready(),
    ensures
        exists|a: Seq<int>, sk: Seq<int>, e: Seq<int>, kp: String, ks: String, vp: String, vs:
            String| #[trigger] keygen_string_post(
            a,
            sk,
            e,
            kp,
            ks,
            vp,
            vs,
            r@,
            params.q as int,
            params.n as nat,
        ),
{
    let ghost n = params.n as nat;
    let ghost q = params.q as int;
    let (pk, sk) = keygen(params, seed);
    let ghost aw = pk[1]@;
    let ghost skw = sk@;
    let ghost ew = choose|e: Seq<int>|
        #[trigger] bounded(e, 1) && e.len() <= params.n && pk[0]@ == crate::keygen::keygen_b_spec(
            pk[1]@,
            sk@,
            e,
            params.q as int,
            params.n as nat,
        );
    let mut pk_coeffs = padded_coeffs(&pk[0], params.n);
    let mut a_coeffs = padded_coeffs(&pk[1], params.n);
    proof {
        lemma_padded_block(pk_coeffs@, pk[0]@, n);
        lemma_padded_block(a_coeffs@, pk[1]@, n);
    }
    let ghost bblock = pk_coeffs@;
    let ghost ablock = a_coeffs@;
    pk_coeffs.append(&mut a_coeffs);
    proof {
        assert(pk_coeffs@ == bblock + ablock);
    }
    let sk_coeffs = padded_coeffs(&sk, params.n);
    proof {
        lemma_padded_block(sk_coeffs@, sk@, n);
    }
    let pk_bytes = bincode_encode(&pk_coeffs).unwrap();
    let sk_bytes = bincode_encode(&sk_coeffs).unwrap();
    let pk_b64 = base64_encode(&pk_bytes);
    let sk_b64 = base64_encode(&sk_bytes);
    let ghost vpw = pk_b64;
    let ghost vsw = sk_b64;
    let ks = "secret".to_string();
    let kp = "public".to_string();
    let ghost ksw = ks;
    let ghost kpw = kp;
    let mut keys: HashMap<String, String> = HashMap::new();
    keys.insert(ks, sk_b64);
    keys.insert(kp, pk_b64);
    proof {
        assert(keygen_string_post(aw, skw, ew, kpw, ksw, vpw, vsw, keys@, q, n));
    }
    keys
}

/// The padded coefficient vector is the padded block of the view.
proof fn lemma_padded_block(v: Seq<i64>, p: Seq<int>, n: nat)
    requires
        v.len() == n,
        forall|k: int| 0 <= k < n ==> (#[trigger] v[k]) as int == pcoeff(p, k),
    ensures
        v == padded_block(p, n),
{
    assert forall|k: int| 0 <= k < n implies #[trigger] (v[k]) == padded_block(p, n)[k] by {
        assert(v[k] as int == pcoeff(p, k));
    }
    assert(v =~= padded_block(p, n));
}

/// Decodes a base64 coefficient blob, checking the expected count and the
/// admissible magnitude of every value.  Each error names its exact cause:
/// the transport layers reject, the count differs, or a value is out of
/// range.
fn decode_coeffs(s: &String, expect: usize, limit: i64) -> (r: Result<Vec<i64>, LweError>)
    requires
        limit >= 0,
    ensures
        match r {
            Ok(v) => v@.len() == expect && bounded(to_ints(v@), limit as int) && (exists|
                b: Seq<u8>,
            |
                s@ == base64_of(b) && #[trigger] bincode_parsed(b) == Some(v@)) && forall|
                b: Seq<u8>,
            |
                s@ == base64_of(b) && #[trigger] bincode_parsed(b) is Some ==> bincode_parsed(
                    b,
                ).unwrap() == v@,
            Err(e) => match e {
                LweError::BadEncoding => forall|b: Seq<u8>|
                    s@ == base64_of(b) ==> #[trigger] bincode_parsed(b) is None,
                LweError::BadLength => (exists|b: Seq<u8>|
                    s@ == base64_of(b) && #[trigger] bincode_parsed(b) is Some) && forall|
                    b: Seq<u8>,
                |
                    s@ == base64_of(b) && #[trigger] bincode_parsed(b) is Some ==> bincode_parsed(
                        b,
                    ).unwrap().len() != expect,
                LweError::BadValue => (exists|b: Seq<u8>|
                    s@ == base64_of(b) && #[trigger] bincode_parsed(b) is Some) && forall|
                    b: Seq<u8>,
                |
                    s@ == base64_of(b) && #[trigger] bincode_parsed(b) is Some ==> bincode_parsed(
                        b,
                    ).unwrap().len() == expect && !bounded(
                        to_ints(bincode_parsed(b).unwrap()),
                        limit as int,
                    ),
            },
        },
{
    let bytes_opt = base64_decode(s);
    let ghost gbo = bytes_opt;
    let bytes = match bytes_opt {
        Some(b) => b,
        None => {
            return Err(LweError::BadEncoding);
        },
    };
    proof {
        assert(bytes == gbo.unwrap());
        // the decoder pins the byte string: any preimage of `s` is `bytes`
        assert forall|b: Seq<u8>| s@ == base64_of(b) implies b == bytes@ by {
            assert(gbo is Some && gbo.unwrap()@ == b);
        }
    }
    let vals_opt = bincode_decode(&bytes);
    let ghost gvo = vals_opt;
    let vals = match vals_opt {
        Some(v) => v,
        None => {
            proof {
                assert forall|b: Seq<u8>| s@ == base64_of(b) implies #[trigger] bincode_parsed(b)
                    is None by {
                    assert(b == bytes@);
                }
            }
            return Err(LweError::BadEncoding);
        },
    };
    proof {
        assert(vals == gvo.unwrap());
        assert(bincode_parsed(bytes@) == Some(vals@));
        assert forall|b: Seq<u8>|
            s@ == base64_of(b) && #[trigger] bincode_parsed(b) is Some implies bincode_parsed(
            b,
        ).unwrap() == vals@ by {
            assert(b == bytes@);
        }
        assert(exists|b: Seq<u8>| s@ == base64_of(b) && #[trigger] bincode_parsed(b) is Some);
    }
    if vals.len() != expect {
        return Err(LweError::BadLength);
    }
    let mut i: usize = 0;
    while i < vals.len()
        invariant
            limit >= 0,
            i <= vals@.len(),
            vals@.len() == expect,
            forall|k: int| 0 <= k < i ==> -limit <= #[trigger] (vals@[k]) <= limit,
            forall|b: Seq<u8>|
                s@ == base64_of(b) && #[trigger] bincode_parsed(b) is Some ==> bincode_parsed(
                    b,
                ).unwrap() == vals@,
            exists|b: Seq<u8>| s@ == base64_of(b) && #[trigger] bincode_parsed(b) is Some,
        decreases vals@.len() - i,
    {
        let c = vals[i];
        if c > limit || c < -limit {
            proof {
                assert(to_ints(vals@)[i as int] == vals@[i as int] as int);
                assert(!bounded(to_ints(vals@), limit as int));
            }
            return Err(LweError::BadValue);
        }
        i = i + 1;
    }
    proof {
        assert forall|k: int| 0 <= k < to_ints(vals@).len() implies -(limit as int) <= #[trigger] (
        to_ints(vals@)[k]) <= limit as int by {
            assert(to_ints(vals@)[k] == vals@[k] as int);
        }
    }
    Ok(vals)
}

/// The bit stream of a byte string, most significant bit of each byte
/// first.
pub open spec fn bits_of(bytes: Seq<u8>) -> Seq<int> {
    Seq::new(bytes.len() * 8, |j: int| bit_val(bytes[j / 8], (7 - (j % 8)) as u64))
}

/// Bits `[n*i, min(n*(i+1), len))` of a stream: plaintext block `i`.
pub open spec fn block_bits(bits: Seq<int>, n: nat, i: int) -> Seq<int> {
    bits.subrange(
        n as int * i,
        if n as int * (i + 1) <= bits.len() {
            n as int * (i + 1)
        } else {
            bits.len() as int
        },
    )
}

/// Block `i` of a ciphertext blob is a fresh encryption of plaintext block
/// `i` under some ternary draws: the `c0` polynomial then the `c1`
/// polynomial, each padded to `n` stored coefficients.
pub open spec fn cts_block_ok(
    cs: Seq<i64>,
    bits: Seq<int>,
    b: Seq<int>,
    a: Seq<int>,
    q: int,
    t: int,
    n: nat,
    i: int,
) -> bool {
    exists|u: Seq<int>, e1: Seq<int>, e2: Seq<int>|
        {
            &&& #[trigger] bounded(u, 1)
            &&& #[trigger] bounded(e1, 1)
            &&& #[trigger] bounded(e2, 1)
            &&& u.len() <= n
            &&& e1.len() <= n
            &&& e2.len() <= n
            &&& cs.subrange(2 * n as int * i, 2 * n as int * i + n as int) == padded_block(
                crate::encrypt::encrypt_c0_spec(b, trim(block_bits(bits, n, i)), u, e1, q, t, n),
                n,
            )
            &&& cs.subrange(2 * n as int * i + n as int, 2 * n as int * (i + 1)) == padded_block(
                crate::encrypt::encrypt_c1_spec(a, u, e2, q, n),
                n,
            )
        }
}

/// The key condition the encryptor accepts: canonical transport carrying
/// exactly `2n` centered coefficients.
pub open spec fn pk_string_ok(s: Seq<char>, q: int, n: nat) -> bool {
    exists|b: Seq<u8>|
        s == base64_of(b) && #[trigger] bincode_parsed(b) is Some && bincode_parsed(
            b,
        ).unwrap().len() == 2 * n && bounded(to_ints(bincode_parsed(b).unwrap()), q / 2)
}

/// The `b` block of a decoded public key.
pub open spec fn pk_b_block(pk: Seq<i64>, n: nat) -> Seq<int> {
    trim(to_ints(pk.take(n as int)))
}

/// The `a` block of a decoded public key.
pub open spec fn pk_a_block(pk: Seq<i64>, n: nat) -> Seq<int> {
    trim(to_ints(pk.skip(n as int)))
}

/// Encrypts a text message under a base64 public key: the UTF-8 bytes
/// become one bit per coefficient, most significant bit of each byte first,
/// chunked into blocks of `n` with the final block zero-padded; each block's
/// ciphertext pair is appended, every polynomial padded to `n`.  Success
/// comes exactly on a well-formed key and an accepted message size; each
/// error names what was rejected.
#[verifier::rlimit(60)]
pub fn encrypt_string(pk_string: &String, message: &String, params: &Parameters, seed: Option<
    u64,
>) -> (r: Result<String, LweError>)
    requires
        params.wf(),
        params.ntt_ready(),
        params.q * params.q <= 0x7fff_ffff_ffff_ffff,
    ensures
        r is Ok <==> pk_string_ok(pk_string@, params.q as int, params.n as nat) && utf8_of(
            message@,
        ).len() <= 0x1000_0000,
        match r {
            Ok(ct) => exists|pkb: Seq<u8>, cs: Seq<i64>|
                {
                    &&& pk_string@ == base64_of(pkb)
                    &&& #[trigger] bincode_parsed(pkb) is Some
                    &&& cs.len() as int == 2 * params.n as int * crate::poly::fold_width(
                        bits_of(utf8_of(message@)).len(),
                        params.n as nat,
                    )
                    &&& ct@ == base64_of(#[trigger] bincode_bytes_of(cs))
                    &&& forall|i: int|
                        0 <= i < crate::poly::fold_width(
                            bits_of(utf8_of(message@)).len(),
                            params.n as nat,
                        ) ==> #[trigger] cts_block_ok(
                            cs,
                            bits_of(utf8_of(message@)),
                            pk_b_block(bincode_parsed(pkb).unwrap(), params.n as nat),
                            pk_a_block(bincode_parsed(pkb).unwrap(), params.n as nat),
                            params.q as int,
                            params.t as int,
                            params.n as nat,
                            i,
                        )
                },
            Err(e) => match e {
                LweError::BadEncoding => forall|b: Seq<u8>|
                    pk_string@ == base64_of(b) ==> #[trigger] bincode_parsed(b) is None,
                LweError::BadLength => ((exists|b: Seq<u8>|
                    pk_string@ == base64_of(b) && #[trigger] bincode_parsed(b) is Some) && forall|
                    b: Seq<u8>,
                |
                    pk_string@ == base64_of(b) && #[trigger] bincode_parsed(b) is Some
                        ==> bincode_parsed(b).unwrap().len() != 2 * params.n) || (pk_string_ok(
                    pk_string@,
                    params.q as int,
                    params.n as nat,
                ) && utf8_of(message@).len() > 0x1000_0000),
                LweError::BadValue => (exists|b: Seq<u8>|
                    pk_string@ == base64_of(b) && #[trigger] bincode_parsed(b) is Some) && forall|
                    b: Seq<u8>,
                |
                    pk_string@ == base64_of(b) && #[trigger] bincode_parsed(b) is Some
                        ==> bincode_parsed(b).unwrap().len() == 2 * params.n && !bounded(
                        to_ints(bincode_parsed(b).unwrap()),
                        (params.q / 2) as int,
                    ),
            },
        },
{
    let n = params.n;
    let ghost qi = params.q as int;
    let ghost ti = params.t as int;
    let ghost nn = params.n as nat;
    let pk_arr = match decode_coeffs(pk_string, 2 * n, params.q / 2) {
        Ok(v) => v,
        Err(er) => {
            return Err(er);
        },
    };
    let ghost pkb = choose|b: Seq<u8>|
        pk_string@ == base64_of(b) && #[trigger] bincode_parsed(b) == Some(pk_arr@);
    let mut b_part: Vec<i64> = Vec::new();
    let mut a_part: Vec<i64> = Vec::new();
    let mut i: usize = 0;
    while i < n
        invariant
            n == params.n,
            n < 0x4000_0000,
            pk_arr@.len() == 2 * n,
            bounded(to_ints(pk_arr@), (params.q / 2) as int),
            i <= n,
            b_part@.len() == i,
            a_part@.len() == i,
            forall|k: int| 0 <= k < i ==> #[trigger] (b_part@[k]) == pk_arr@[k],
            forall|k: int| 0 <= k < i ==> #[trigger] (a_part@[k]) == pk_arr@[k + n],
        decreases n - i,
    {
        b_part.push(pk_arr[i]);
        a_part.push(pk_arr[n + i]);
        i = i + 1;
    }
    proof {
        assert(to_ints(b_part@) =~= to_ints(pk_arr@.take(n as int))) by {
            assert forall|k: int| 0 <= k < n implies #[trigger] (to_ints(b_part@)[k]) == to_ints(
                pk_arr@.take(n as int),
            )[k] by {
                assert(to_ints(b_part@)[k] == b_part@[k] as int);
                assert(to_ints(pk_arr@.take(n as int))[k] == pk_arr@.take(n as int)[k] as int);
            }
        }
        assert(to_ints(a_part@) =~= to_ints(pk_arr@.skip(n as int))) by {
            assert forall|k: int| 0 <= k < n implies #[trigger] (to_ints(a_part@)[k]) == to_ints(
                pk_arr@.skip(n as int),
            )[k] by {
                assert(to_ints(a_part@)[k] == a_part@[k] as int);
                assert(to_ints(pk_arr@.skip(n as int))[k] == pk_arr@.skip(n as int)[k] as int);
            }
        }
        assert forall|k: int| 0 <= k < to_ints(b_part@).len() implies -((params.q / 2) as int)
            <= #[trigger] (to_ints(b_part@)[k]) <= (params.q / 2) as int by {
            assert(to_ints(b_part@)[k] == b_part@[k] as int);
            assert(b_part@[k] == pk_arr@[k]);
            assert(to_ints(pk_arr@)[k] == pk_arr@[k] as int);
        }
        assert forall|k: int| 0 <= k < to_ints(a_part@).len() implies -((params.q / 2) as int)
            <= #[trigger] (to_ints(a_part@)[k]) <= (params.q / 2) as int by {
            assert(to_ints(a_part@)[k] == a_part@[k] as int);
            assert(a_part@[k] == pk_arr@[k + params.n]);
            assert(to_ints(pk_arr@)[k + params.n] == pk_arr@[k + params.n] as int);
        }
    }
    let ghost bpart_view = b_part@;
    let ghost apart_view = a_part@;
    let pk_b = Poly::new(b_part);
    let pk_a = Poly::new(a_part);
    proof {
        lemma_decoded_bounds(bpart_view, pk_b@, (params.q / 2) as int);
        lemma_decoded_bounds(apart_view, pk_a@, (params.q / 2) as int);
        assert(params.q <= 0xB504_F334) by (nonlinear_arith)
            requires params.q >= 3, (params.q - 1) * (params.q - 1) <= 0x7fff_ffff_ffff_ffff;
        assert((params.q / 2) as int <= 0x8000_0000);
        assert(pk_b@ == pk_b_block(pk_arr@, nn));
        assert(pk_a@ == pk_a_block(pk_arr@, nn));
    }
    let pk = [pk_b, pk_a];
    let msg_bytes = utf8_bytes(message);
    if msg_bytes.len() > 0x1000_0000 {
        proof {
            assert(pk_string_ok(pk_string@, qi, nn));
        }
        return Err(LweError::BadLength);
    }
    let bits = bytes_to_bits(&msg_bytes);
    let ghost gbits = bits_of(utf8_of(message@));
    proof {
        lemma_bits_stream(bits@, msg_bytes@);
        assert(to_ints(bits@) == gbits);
    }
    let ghost nb = crate::poly::fold_width(gbits.len(), nn);
    let mut cts: Vec<i64> = Vec::new();
    let mut start: usize = 0;
    let mut counter: u64 = 0;
    let ghost mut bi: int = 0;
    proof {
        vstd::arithmetic::div_mod::lemma_div_pos_is_pos(gbits.len() + nn - 1, nn as int);
    }
    while start < bits.len()
        invariant
            bits@.len() <= 0x8000_0000,
            start <= bits@.len(),
            params.n < 0x4000_0000,
            n == params.n,
            params.wf(),
            params.ntt_ready(),
            params.q * params.q <= 0x7fff_ffff_ffff_ffff,
            qi == params.q as int,
            ti == params.t as int,
            nn == params.n as nat,
            pk[0]@.len() <= params.n,
            pk[1]@.len() <= params.n,
            bounded(pk[0]@, 0x8000_0000),
            bounded(pk[1]@, 0x8000_0000),
            forall|j: int| 0 <= j < bits@.len() ==> 0 <= #[trigger] (bits@[j]) <= 1,
            to_ints(bits@) == gbits,
            0 <= bi,
            cts@.len() as int == 2 * nn * bi,
            if nn * bi <= bits@.len() {
                start as int == nn * bi
            } else {
                start as int == bits@.len()
            },
            bi > 0 ==> nn * (bi - 1) < bits@.len(),
            forall|i: int|
                0 <= i < bi ==> #[trigger] cts_block_ok(cts@, gbits, pk[0]@, pk[1]@, qi, ti, nn, i),
        decreases bits@.len() - start,
    {
        proof {
            assert(start as int == nn * bi) by {
                if nn * bi > bits@.len() {
                    assert(start as int == bits@.len());
                    assert(start < bits@.len());
                }
            }
        }
        let upper = if start + params.n <= bits.len() {
            start + params.n
        } else {
            bits.len()
        };
        let mut block: Vec<i64> = Vec::new();
        let mut j: usize = start;
        while j < upper
            invariant
                start <= j <= upper,
                upper <= bits@.len(),
                forall|jj: int| 0 <= jj < bits@.len() ==> 0 <= #[trigger] (bits@[jj]) <= 1,
                block@.len() == j - start,
                forall|k: int| 0 <= k < block@.len() ==> #[trigger] (block@[k]) == bits@[start + k],
                forall|k: int| 0 <= k < block@.len() ==> 0 <= #[trigger] (block@[k]) <= 1,
            decreases upper - j,
        {
            block.push(bits[j]);
            j = j + 1;
        }
        let m = Poly::new(block);
        proof {
            lemma_trim_pcoeff(to_ints(block@));
            assert(upper - start <= params.n);
            assert forall|jj: int| 0 <= #[trigger] pcoeff(m@, jj) < params.t by {
                assert(pcoeff(m@, jj) == pcoeff(to_ints(block@), jj));
                if 0 <= jj < block@.len() {
                    assert(to_ints(block@)[jj] == block@[jj] as int);
                }
            }
            assert(to_ints(block@) =~= block_bits(gbits, nn, bi)) by {
                assert(upper as int == if nn * (bi + 1) <= gbits.len() {
                    nn * (bi + 1)
                } else {
                    gbits.len() as int
                }) by (nonlinear_arith)
                    requires
                        start as int == nn * bi,
                        upper as int == if start + nn <= gbits.len() {
                            start as int + nn
                        } else {
                            gbits.len() as int
                        },
                        gbits.len() == bits@.len(),
                ;
                assert forall|k: int| 0 <= k < block@.len() implies #[trigger] (to_ints(
                    block@,
                )[k]) == block_bits(gbits, nn, bi)[k] by {
                    assert(to_ints(block@)[k] == block@[k] as int);
                    assert(block@[k] == bits@[start + k]);
                    assert(gbits[start + k] == bits@[start + k] as int);
                }
            }
            assert(m@ == trim(block_bits(gbits, nn, bi)));
        }
        let ct = crate::encrypt::encrypt(&pk, &m, params, seed_offset(seed, counter));
        let mut c0p = padded_coeffs(&ct.0, params.n);
        let mut c1p = padded_coeffs(&ct.1, params.n);
        proof {
            lemma_padded_block(c0p@, ct.0@, nn);
            lemma_padded_block(c1p@, ct.1@, nn);
        }
        let ghost pre = cts@;
        let ghost c0v = c0p@;
        let ghost c1v = c1p@;
        cts.append(&mut c0p);
        cts.append(&mut c1p);
        proof {
            assert(cts@ == pre + c0v + c1v);
            assert(cts@.len() as int == 2 * nn * (bi + 1)) by (nonlinear_arith)
                requires
                    cts@.len() == pre.len() + c0v.len() + c1v.len(),
                    pre.len() as int == 2 * nn * bi,
                    c0v.len() == nn,
                    c1v.len() == nn,
            ;
            // the new block sits at its slot, and earlier blocks are intact
            assert forall|i: int|
                0 <= i < bi + 1 implies #[trigger] cts_block_ok(
                cts@,
                gbits,
                pk[0]@,
                pk[1]@,
                qi,
                ti,
                nn,
                i,
            ) by {
                if i < bi {
                    assert(2 * nn * (i + 1) <= 2 * nn * bi) by (nonlinear_arith)
                        requires 0 <= i, i + 1 <= bi, nn >= 1;
                    assert(cts@ =~= pre + (c0v + c1v));
                    lemma_block_stable(pre, c0v + c1v, gbits, pk[0]@, pk[1]@, qi, ti, nn, i);
                } else {
                    let (u, e1, e2) = choose|u: Seq<int>, e1: Seq<int>, e2: Seq<int>|
                        {
                            &&& #[trigger] bounded(u, 1)
                            &&& #[trigger] bounded(e1, 1)
                            &&& #[trigger] bounded(e2, 1)
                            &&& u.len() <= params.n
                            &&& e1.len() <= params.n
                            &&& e2.len() <= params.n
                            &&& ct.0@ == crate::encrypt::encrypt_c0_spec(
                                pk[0]@,
                                m@,
                                u,
                                e1,
                                params.q as int,
                                params.t as int,
                                params.n as nat,
                            )
                            &&& ct.1@ == crate::encrypt::encrypt_c1_spec(
                                pk[1]@,
                                u,
                                e2,
                                params.q as int,
                                params.n as nat,
                            )
                        };
                    assert(2 * nn * i == pre.len());
                    assert(2 * nn * (i + 1) == pre.len() + 2 * nn) by (nonlinear_arith)
                        requires 2 * nn * i == pre.len(), i == bi;
                    assert(cts@.subrange(2 * nn * i, 2 * nn * i + nn as int) =~= c0v);
                    assert(cts@.subrange(2 * nn * i + nn as int, 2 * nn * (i + 1)) =~= c1v);
                    assert(cts@.subrange(2 * nn * i, 2 * nn * i + nn as int) == padded_block(
                        crate::encrypt::encrypt_c0_spec(
                            pk[0]@,
                            trim(block_bits(gbits, nn, i)),
                            u,
                            e1,
                            qi,
                            ti,
                            nn,
                        ),
                        nn,
                    ));
                    assert(cts@.subrange(2 * nn * i + nn as int, 2 * nn * (i + 1))
                        == padded_block(crate::encrypt::encrypt_c1_spec(pk[1]@, u, e2, qi, nn), nn));
                }
            }
            bi = bi + 1;
            assert(if nn * bi <= bits@.len() {
                upper as int == nn * bi
            } else {
                upper as int == bits@.len()
            }) by (nonlinear_arith)
                requires
                    start as int == nn * (bi - 1),
                    upper as int == if start + nn <= bits@.len() {
                        start as int + nn
                    } else {
                        bits@.len() as int
                    },
            ;
            assert(nn * (bi - 1) < bits@.len());
        }
        counter = counter.wrapping_add(3);
        start = upper;
    }
    proof {
        // the block count is exactly the covering width of the bit stream
        assert(bi == nb) by {
            if gbits.len() == 0 {
                assert(bi == 0);
                assert((0 + nn - 1) as int / nn as int == 0) by {
                    vstd::arithmetic::div_mod::lemma_basic_div_specific_divisor(nn as int);
                }
            } else {
                assert(nn * bi >= gbits.len() && nn * (bi - 1) < gbits.len()) by {
                    if nn * bi <= bits@.len() {
                        assert(start as int == nn * bi);
                    }
                }
                let rr = gbits.len() + nn - 1 - nn * bi;
                assert(0 <= rr < nn && gbits.len() + nn - 1 == bi * nn + rr) by (nonlinear_arith)
                    requires
                        rr == gbits.len() + nn - 1 - nn * bi,
                        nn * bi >= gbits.len(),
                        nn * (bi - 1) < gbits.len(),
                        nn >= 1,
                ;
                vstd::arithmetic::div_mod::lemma_fundamental_div_mod_converse_div(
                    gbits.len() + nn - 1,
                    nn as int,
                    bi,
                    rr,
                );
            }
        }
    }
    let ct_bytes = bincode_encode(&cts).unwrap();
    let out = base64_encode(&ct_bytes);
    proof {
        assert(pk_string_ok(pk_string@, qi, nn));
        assert(pk_string@ == base64_of(pkb) && bincode_parsed(pkb) == Some(pk_arr@));
        assert(pk_b_block(bincode_parsed(pkb).unwrap(), nn) == pk[0]@);
        assert(pk_a_block(bincode_parsed(pkb).unwrap(), nn) == pk[1]@);
        assert(out@ == base64_of(bincode_bytes_of(cts@)));
    }
    Ok(out)
}

/// Appending to a ciphertext blob leaves the existing blocks in place.
proof fn lemma_block_stable(
    pre: Seq<i64>,
    ext: Seq<i64>,
    bits: Seq<int>,
    b: Seq<int>,
    a: Seq<int>,
    q: int,
    t: int,
    n: nat,
    i: int,
)
    requires
        cts_block_ok(pre, bits, b, a, q, t, n, i),
        0 <= i,
        n >= 1,
        2 * n as int * (i + 1) <= pre.len(),
    ensures
        cts_block_ok(pre + ext, bits, b, a, q, t, n, i),
{
    assert(0 <= 2 * n as int * i && 2 * n as int * i + n as int <= 2 * n as int * (i + 1))
        by (nonlinear_arith)
        requires 0 <= i, n >= 1;
    let (u, e1, e2) = choose|u: Seq<int>, e1: Seq<int>, e2: Seq<int>|
        {
            &&& #[trigger] bounded(u, 1)
            &&& #[trigger] bounded(e1, 1)
            &&& #[trigger] bounded(e2, 1)
            &&& u.len() <= n
            &&& e1.len() <= n
            &&& e2.len() <= n
            &&& pre.subrange(2 * n as int * i, 2 * n as int * i + n as int) == padded_block(
                crate::encrypt::encrypt_c0_spec(b, trim(block_bits(bits, n, i)), u, e1, q, t, n),
                n,
            )
            &&& pre.subrange(2 * n as int * i + n as int, 2 * n as int * (i + 1)) == padded_block(
                crate::encrypt::encrypt_c1_spec(a, u, e2, q, n),
                n,
            )
        };
    assert((pre + ext).subrange(2 * n as int * i, 2 * n as int * i + n as int) =~= pre.subrange(
        2 * n as int * i,
        2 * n as int * i + n as int,
    ));
    assert((pre + ext).subrange(2 * n as int * i + n as int, 2 * n as int * (i + 1))
        =~= pre.subrange(2 * n as int * i + n as int, 2 * n as int * (i + 1)));
}

/// The produced bit vector is the bit stream of the byte string.
proof fn lemma_bits_stream(bits: Seq<i64>, bytes: Seq<u8>)
    requires
        bits.len() == bytes.len() * 8,
        forall|i: int, k: int|
            0 <= i < bytes.len() && 0 <= k < 8 ==> #[trigger] (bits[8 * i + k]) as int == bit_val(
                bytes[i],
                (7 - k) as u64,
            ),
    ensures
        to_ints(bits) == bits_of(bytes),
{
    assert forall|j: int| 0 <= j < bits.len() implies #[trigger] (to_ints(bits)[j]) == bits_of(
        bytes,
    )[j] by {
        vstd::arithmetic::div_mod::lemma_fundamental_div_mod(j, 8);
        vstd::arithmetic::div_mod::lemma_mod_bound(j, 8);
        let ii = j / 8;
        let kk = j % 8;
        assert(0 <= ii < bytes.len()) by (nonlinear_arith)
            requires j == 8 * ii + kk, 0 <= kk < 8, 0 <= j < bytes.len() * 8;
        assert(bits[8 * ii + kk] as int == bit_val(bytes[ii], (7 - kk) as u64));
        assert(to_ints(bits)[j] == bits[j] as int);
    }
    assert(to_ints(bits) =~= bits_of(bytes));
}

/// Decodes a base64 coefficient blob of any length, checking magnitudes;
/// each error names its exact cause, and a length failure cannot arise.
fn decode_coeffs_any(s: &String, limit: i64) -> (r: Result<Vec<i64>, LweError>)
    requires
        limit >= 0,
    ensures
        match r {
            Ok(v) => bounded(to_ints(v@), limit as int) && (exists|b: Seq<u8>|
                s@ == base64_of(b) && #[trigger] bincode_parsed(b) == Some(v@)) && forall|
                b: Seq<u8>,
            |
                s@ == base64_of(b) && #[trigger] bincode_parsed(b) is Some ==> bincode_parsed(
                    b,
                ).unwrap() == v@,
            Err(e) => !(e matches LweError::BadLength) && (e matches LweError::BadEncoding
                ==> forall|b: Seq<u8>|
                s@ == base64_of(b) ==> #[trigger] bincode_parsed(b) is None) && (e
                matches LweError::BadValue ==> (exists|b: Seq<u8>|
                s@ == base64_of(b) && #[trigger] bincode_parsed(b) is Some) && forall|b: Seq<u8>|
                s@ == base64_of(b) && #[trigger] bincode_parsed(b) is Some ==> !bounded(
                    to_ints(bincode_parsed(b).unwrap()),
                    limit as int,
                )),
        },
{
    let bytes_opt = base64_decode(s);
    let ghost gbo = bytes_opt;
    let bytes = match bytes_opt {
        Some(b) => b,
        None => {
            return Err(LweError::BadEncoding);
        },
    };
    proof {
        assert(bytes == gbo.unwrap());
        assert forall|b: Seq<u8>| s@ == base64_of(b) implies b == bytes@ by {
            assert(gbo is Some && gbo.unwrap()@ == b);
        }
    }
    let vals_opt = bincode_decode(&bytes);
    let ghost gvo = vals_opt;
    let vals = match vals_opt {
        Some(v) => v,
        None => {
            proof {
                assert forall|b: Seq<u8>| s@ == base64_of(b) implies #[trigger] bincode_parsed(b)
                    is None by {
                    assert(b == bytes@);
                }
            }
            return Err(LweError::BadEncoding);
        },
    };
    proof {
        assert(vals == gvo.unwrap());
        assert(bincode_parsed(bytes@) == Some(vals@));
        assert forall|b: Seq<u8>|
            s@ == base64_of(b) && #[trigger] bincode_parsed(b) is Some implies bincode_parsed(
            b,
        ).unwrap() == vals@ by {
            assert(b == bytes@);
        }
        assert(exists|b: Seq<u8>| s@ == base64_of(b) && #[trigger] bincode_parsed(b) is Some);
    }
    let mut i: usize = 0;
    while i < vals.len()
        invariant
            limit >= 0,
            i <= vals@.len(),
            forall|k: int| 0 <= k < i ==> -limit <= #[trigger] (vals@[k]) <= limit,
            forall|b: Seq<u8>|
                s@ == base64_of(b) && #[trigger] bincode_parsed(b) is Some ==> bincode_parsed(
                    b,
                ).unwrap() == vals@,
            exists|b: Seq<u8>| s@ == base64_of(b) && #[trigger] bincode_parsed(b) is Some,
        decreases vals@.len() - i,
    {
        let c = vals[i];
        if c > limit || c < -limit {
            proof {
                assert(to_ints(vals@)[i as int] == vals@[i as int] as int);
                assert(!bounded(to_ints(vals@), limit as int));
            }
            return Err(LweError::BadValue);
        }
        i = i + 1;
    }
    proof {
        assert forall|k: int| 0 <= k < to_ints(vals@).len() implies -(limit as int) <= #[trigger] (
        to_ints(vals@)[k]) <= limit as int by {
            assert(to_ints(vals@)[k] == vals@[k] as int);
        }
    }
    Ok(vals)
}

/// The digits all blocks of a ciphertext blob decrypt to under a key,
/// padded to `n` digits per block and concatenated in block order.
pub open spec fn all_digits(sk: Seq<int>, cv: Seq<i64>, q: int, t: int, n: nat, nb: int) -> Seq<
    int,
>
    decreases nb,
{
    if nb <= 0 {
        Seq::empty()
    } else {
        all_digits(sk, cv, q, t, n, nb - 1) + Seq::new(
            n,
            |k: int|
                pcoeff(
                    crate::decrypt::decrypt_spec(
                        sk,
                        trim(
                            to_ints(
                                cv.subrange(
                                    2 * n as int * (nb - 1),
                                    2 * n as int * (nb - 1) + n as int,
                                ),
                            ),
                        ),
                        trim(
                            to_ints(
                                cv.subrange(2 * n as int * (nb - 1) + n as int, 2 * n as int * nb),
                            ),
                        ),
                        q,
                        t,
                        n,
                    ),
                    k,
                ),
        )
    }
}

/// Eight bits per byte, most significant bit first.
pub open spec fn packed_bytes(bits: Seq<int>) -> Seq<u8> {
    Seq::new((bits.len() / 8) as nat, |i: int| byte_of_bits(bits, 8 * i) as u8)
}

/// Trailing zero bytes removed.
pub open spec fn trim_zero_bytes(b: Seq<u8>) -> Seq<u8>
    decreases b.len(),
{
    if b.len() == 0 {
        b
    } else if b.last() == 0 {
        trim_zero_bytes(b.drop_last())
    } else {
        b
    }
}

/// Both transport layers decode and every decoded value passes its check:
/// the key carries exactly `n` coefficients below `q`, the ciphertext a
/// whole number of `2n`-blocks of admissible magnitude within the size cap.
pub open spec fn decrypt_transport_ok(
    sks: Seq<char>,
    cts: Seq<char>,
    skb: Seq<u8>,
    ctb: Seq<u8>,
    q: int,
    n: nat,
) -> bool {
    &&& sks == base64_of(skb)
    &&& bincode_parsed(skb) is Some
    &&& bincode_parsed(skb).unwrap().len() == n
    &&& bounded(to_ints(bincode_parsed(skb).unwrap()), q - 1)
    &&& cts == base64_of(ctb)
    &&& bincode_parsed(ctb) is Some
    &&& bincode_parsed(ctb).unwrap().len() as int % (2 * n as int) == 0
    &&& bincode_parsed(ctb).unwrap().len() <= 0x1000_0000
    &&& bounded(to_ints(bincode_parsed(ctb).unwrap()), 0x4000_0000_0000_0000)
}

/// The decrypted digit stream of the decoded blobs.
pub open spec fn decoded_digits(skb: Seq<u8>, ctb: Seq<u8>, q: int, t: int, n: nat) -> Seq<int> {
    all_digits(
        trim(to_ints(bincode_parsed(skb).unwrap())),
        bincode_parsed(ctb).unwrap(),
        q,
        t,
        n,
        bincode_parsed(ctb).unwrap().len() as int / (2 * n as int),
    )
}

/// What a successful decryption returns: the UTF-8 bytes of the output are
/// the zero-trimmed byte packing of the per-block decryption digits of the
/// decoded ciphertext under the decoded key.
pub open spec fn decrypt_string_ok(
    sks: Seq<char>,
    cts: Seq<char>,
    out: Seq<char>,
    q: int,
    t: int,
    n: nat,
) -> bool {
    exists|skb: Seq<u8>, ctb: Seq<u8>|
        {
            &&& #[trigger] decrypt_transport_ok(sks, cts, skb, ctb, q, n)
            &&& n >= 8
            &&& forall|k: int|
                0 <= k < decoded_digits(skb, ctb, q, t, n).len() ==> 0 <= #[trigger] (
                decoded_digits(skb, ctb, q, t, n)[k]) <= 1
            &&& utf8_of(out) == trim_zero_bytes(packed_bytes(decoded_digits(skb, ctb, q, t, n)))
        }
}

/// A decryption whose digit stream holds a value other than a bit.
pub open spec fn decrypt_digits_bad(
    sks: Seq<char>,
    cts: Seq<char>,
    q: int,
    t: int,
    n: nat,
) -> bool {
    exists|skb: Seq<u8>, ctb: Seq<u8>|
        {
            &&& #[trigger] decrypt_transport_ok(sks, cts, skb, ctb, q, n)
            &&& n >= 8
            &&& exists|k: int|
                0 <= k < decoded_digits(skb, ctb, q, t, n).len() && !(0 <= #[trigger] (
                decoded_digits(skb, ctb, q, t, n)[k]) <= 1)
        }
}

/// A decryption whose packed bytes are not the UTF-8 text of any string.
pub open spec fn decrypt_not_text(sks: Seq<char>, cts: Seq<char>, q: int, t: int, n: nat) -> bool {
    exists|skb: Seq<u8>, ctb: Seq<u8>|
        {
            &&& #[trigger] decrypt_transport_ok(sks, cts, skb, ctb, q, n)
            &&& n >= 8
            &&& forall|tt: Seq<char>|
                trim_zero_bytes(packed_bytes(decoded_digits(skb, ctb, q, t, n)))
                    != #[trigger] utf8_of(tt)
        }
}

/// A blob that parses, but never to the expected coefficient count.
pub open spec fn parsed_len_bad(s: Seq<char>, expect: int) -> bool {
    &&& exists|b: Seq<u8>| s == base64_of(b) && #[trigger] bincode_parsed(b) is Some
    &&& forall|b: Seq<u8>|
        s == base64_of(b) && #[trigger] bincode_parsed(b) is Some ==> bincode_parsed(
            b,
        ).unwrap().len() != expect
}

/// A key blob that parses to the right count, but out of range.
pub open spec fn parsed_value_bad(s: Seq<char>, expect: int, limit: int) -> bool {
    &&& exists|b: Seq<u8>| s == base64_of(b) && #[trigger] bincode_parsed(b) is Some
    &&& forall|b: Seq<u8>|
        s == base64_of(b) && #[trigger] bincode_parsed(b) is Some ==> bincode_parsed(
            b,
        ).unwrap().len() == expect && !bounded(to_ints(bincode_parsed(b).unwrap()), limit)
}

/// A ciphertext blob that parses, but fails the block-count or size check.
pub open spec fn ct_len_bad(s: Seq<char>, n: nat) -> bool {
    &&& exists|b: Seq<u8>| s == base64_of(b) && #[trigger] bincode_parsed(b) is Some
    &&& forall|b: Seq<u8>|
        s == base64_of(b) && #[trigger] bincode_parsed(b) is Some ==> bincode_parsed(
            b,
        ).unwrap().len() as int % (2 * n as int) != 0 || bincode_parsed(b).unwrap().len()
            > 0x1000_0000
}

/// A ciphertext blob that parses, but holds a value out of range.
pub open spec fn ct_value_bad(s: Seq<char>) -> bool {
    &&& exists|b: Seq<u8>| s == base64_of(b) && #[trigger] bincode_parsed(b) is Some
    &&& forall|b: Seq<u8>|
        s == base64_of(b) && #[trigger] bincode_parsed(b) is Some ==> !bounded(
            to_ints(bincode_parsed(b).unwrap()),
            0x4000_0000_0000_0000,
        )
}

/// Decrypts a base64 ciphertext under a base64 secret key: each block of
/// `2n` coefficients is one ciphertext pair, each decrypted block yields
/// `n` bits, the bits reassemble into bytes most significant first, and
/// trailing zero padding is removed before the UTF-8 text is rebuilt.
/// Malformed transport input is reported by kind, never silently defaulted.
#[verifier::rlimit(60)]
pub fn decrypt_string(sk_string: &String, ciphertext_string: &String, params: &Parameters) -> (r:
    Result<String, LweError>)
    requires
        params.wf(),
        params.ntt_ready(),
        params.q * params.q <= 0x7fff_ffff_ffff_ffff,
    ensures
        match r {
            Ok(out) => decrypt_string_ok(
                sk_string@,
                ciphertext_string@,
                out@,
                params.q as int,
                params.t as int,
                params.n as nat,
            ),
            Err(e) => match e {
                LweError::BadEncoding => (forall|b: Seq<u8>|
                    sk_string@ == base64_of(b) ==> #[trigger] bincode_parsed(b) is None) || (
                forall|b: Seq<u8>|
                    ciphertext_string@ == base64_of(b) ==> #[trigger] bincode_parsed(b) is None)
                    || decrypt_not_text(
                    sk_string@,
                    ciphertext_string@,
                    params.q as int,
                    params.t as int,
                    params.n as nat,
                ),
                LweError::BadLength => parsed_len_bad(sk_string@, params.n as int) || params.n < 8
                    || ct_len_bad(ciphertext_string@, params.n as nat),
                LweError::BadValue => parsed_value_bad(
                    sk_string@,
                    params.n as int,
                    (params.q - 1) as int,
                ) || ct_value_bad(ciphertext_string@) || decrypt_digits_bad(
                    sk_string@,
                    ciphertext_string@,
                    params.q as int,
                    params.t as int,
                    params.n as nat,
                ),
            },
        },
{
    let n = params.n;
    let ghost qi = params.q as int;
    let ghost ti = params.t as int;
    let ghost nn = params.n as nat;
    let sk_arr = match decode_coeffs(sk_string, n, params.q - 1) {
        Ok(v) => v,
        Err(er) => {
            return Err(er);
        },
    };
    let ghost skb = choose|b: Seq<u8>|
        sk_string@ == base64_of(b) && #[trigger] bincode_parsed(b) == Some(sk_arr@);
    let ghost sk_view = sk_arr@;
    let sk = Poly::new(sk_arr);
    proof {
        lemma_decoded_bounds(sk_view, sk@, (params.q - 1) as int);
    }
    if n < 8 {
        return Err(LweError::BadLength);
    }
    let cts = match decode_coeffs_any(ciphertext_string, 0x4000_0000_0000_0000) {
        Ok(v) => v,
        Err(er) => {
            return Err(er);
        },
    };
    let ghost ctb = choose|b: Seq<u8>|
        ciphertext_string@ == base64_of(b) && #[trigger] bincode_parsed(b) == Some(cts@);
    if cts.len() % (2 * n) != 0 {
        proof {
            assert(ct_len_bad(ciphertext_string@, nn));
        }
        return Err(LweError::BadLength);
    }
    if cts.len() > 0x1000_0000 {
        proof {
            assert(ct_len_bad(ciphertext_string@, nn));
        }
        return Err(LweError::BadLength);
    }
    proof {
        assert(decrypt_transport_ok(sk_string@, ciphertext_string@, skb, ctb, qi, nn));
    }
    let ghost nb = cts@.len() as int / (2 * nn as int);
    proof {
        vstd::arithmetic::div_mod::lemma_fundamental_div_mod(cts@.len() as int, 2 * nn as int);
        vstd::arithmetic::div_mod::lemma_div_pos_is_pos(cts@.len() as int, 2 * nn as int);
    }
    let mut all_bits: Vec<i64> = Vec::new();
    let mut start: usize = 0;
    let ghost mut bi: int = 0;
    while start + 2 * n <= cts.len()
        invariant
            params.wf(),
            params.ntt_ready(),
            params.q * params.q <= 0x7fff_ffff_ffff_ffff,
            qi == params.q as int,
            ti == params.t as int,
            nn == params.n as nat,
            n == params.n,
            n < 0x4000_0000,
            n >= 8,
            sk@.len() <= n,
            bounded(sk@, (params.q - 1) as int),
            bounded(to_ints(cts@), 0x4000_0000_0000_0000),
            cts@.len() <= 0x1000_0000,
            cts@.len() as int == 2 * nn * nb,
            0 <= bi <= nb,
            start <= cts@.len(),
            start as int == 2 * nn * bi,
            all_bits@.len() as int == nn * bi,
            to_ints(all_bits@) == all_digits(sk@, cts@, qi, ti, nn, bi),
        decreases cts@.len() - start,
    {
        proof {
            assert(bi < nb) by (nonlinear_arith)
                requires
                    start as int == 2 * nn * bi,
                    start as int + 2 * nn <= 2 * nn * nb,
                    nn >= 1,
            ;
        }
        let mut c0v: Vec<i64> = Vec::new();
        let mut c1v: Vec<i64> = Vec::new();
        let mut j: usize = 0;
        while j < n
            invariant
                start + 2 * n <= cts@.len(),
                cts@.len() <= 0x1000_0000,
                n < 0x4000_0000,
                bounded(to_ints(cts@), 0x4000_0000_0000_0000),
                j <= n,
                c0v@.len() == j,
                c1v@.len() == j,
                forall|k: int| 0 <= k < j ==> #[trigger] (c0v@[k]) == cts@[start + k],
                forall|k: int| 0 <= k < j ==> #[trigger] (c1v@[k]) == cts@[start + n + k],
            decreases n - j,
        {
            c0v.push(cts[start + j]);
            c1v.push(cts[start + n + j]);
            j = j + 1;
        }
        proof {
            assert(c0v@ =~= cts@.subrange(start as int, start as int + n as int));
            assert(c1v@ =~= cts@.subrange(start as int + n as int, start as int + 2 * n as int));
            assert forall|k: int| 0 <= k < to_ints(c0v@).len() implies -0x4000_0000_0000_0000
                <= #[trigger] (to_ints(c0v@)[k]) <= 0x4000_0000_0000_0000 by {
                assert(to_ints(c0v@)[k] == c0v@[k] as int);
                assert(to_ints(cts@)[start + k] == cts@[start + k] as int);
            }
            assert forall|k: int| 0 <= k < to_ints(c1v@).len() implies -0x4000_0000_0000_0000
                <= #[trigger] (to_ints(c1v@)[k]) <= 0x4000_0000_0000_0000 by {
                assert(to_ints(c1v@)[k] == c1v@[k] as int);
                assert(to_ints(cts@)[start + n + k] == cts@[start + n + k] as int);
            }
        }
        let ghost c0view = c0v@;
        let ghost c1view = c1v@;
        let c0 = Poly::new(c0v);
        let c1 = Poly::new(c1v);
        proof {
            lemma_decoded_bounds(c0view, c0@, 0x4000_0000_0000_0000);
            lemma_decoded_bounds(c1view, c1@, 0x4000_0000_0000_0000);
        }
        let ct = [c0, c1];
        let dec = decrypt(&sk, &ct, params);
        proof {
            crate::decrypt::lemma_digits_len(
                crate::poly::add_spec(
                    crate::poly::mul_spec(ct[1]@, sk@, params.q as int, params.n as nat),
                    ct[0]@,
                    params.q as int,
                    params.n as nat,
                ),
                params.q as int,
                params.t as int,
            );
            crate::poly::lemma_ring_len(
                crate::poly::mul_spec(ct[1]@, sk@, params.q as int, params.n as nat),
                ct[0]@,
                params.q as int,
                params.n as nat,
            );
        }
        let mut block_bits_v = padded_coeffs(&dec, n);
        let ghost pre_bits = all_bits@;
        let ghost blockv = block_bits_v@;
        all_bits.append(&mut block_bits_v);
        proof {
            assert(all_bits@ == pre_bits + blockv);
            assert(2 * nn * (bi + 1) == start as int + 2 * nn) by (nonlinear_arith)
                requires start as int == 2 * nn * bi;
            assert(c0view == cts@.subrange(2 * nn * bi, 2 * nn * bi + nn as int));
            assert(c1view == cts@.subrange(2 * nn * bi + nn as int, 2 * nn * (bi + 1)));
            assert(c0@ == trim(to_ints(cts@.subrange(2 * nn * bi, 2 * nn * bi + nn as int))));
            assert(c1@ == trim(
                to_ints(cts@.subrange(2 * nn * bi + nn as int, 2 * nn * (bi + 1))),
            ));
            assert(to_ints(all_bits@) =~= all_digits(sk@, cts@, qi, ti, nn, bi + 1)) by {
                assert forall|k: int| 0 <= k < all_bits@.len() implies #[trigger] (to_ints(
                    all_bits@,
                )[k]) == all_digits(sk@, cts@, qi, ti, nn, bi + 1)[k] by {
                    assert(to_ints(all_bits@)[k] == all_bits@[k] as int);
                    if k < pre_bits.len() {
                        assert(all_bits@[k] == pre_bits[k]);
                        assert(to_ints(pre_bits)[k] == pre_bits[k] as int);
                    } else {
                        assert(all_bits@[k] == blockv[k - pre_bits.len()]);
                        assert(blockv[k - pre_bits.len()] as int == pcoeff(
                            dec@,
                            k - pre_bits.len(),
                        ));
                    }
                }
            }
            bi = bi + 1;
            assert(all_bits@.len() as int == nn * bi) by (nonlinear_arith)
                requires
                    all_bits@.len() == pre_bits.len() + blockv.len(),
                    pre_bits.len() as int == nn * (bi - 1),
                    blockv.len() == nn,
            ;
            assert(start as int + 2 * nn == 2 * nn * bi) by (nonlinear_arith)
                requires start as int == 2 * nn * (bi - 1);
            assert(bi <= nb) by (nonlinear_arith)
                requires
                    2 * nn * bi <= 2 * nn * nb + 2 * nn - 1,
                    start as int + 2 * nn <= cts@.len() as int,
                    start as int + 2 * nn == 2 * nn * bi,
                    cts@.len() as int == 2 * nn * nb,
                    nn >= 1,
            ;
        }
        start = start + 2 * n;
    }
    proof {
        assert(bi == nb) by (nonlinear_arith)
            requires
                start as int == 2 * nn * bi,
                start as int + 2 * nn > 2 * nn * nb,
                cts@.len() as int == 2 * nn * nb,
                start as int <= cts@.len() as int,
                0 <= bi <= nb,
                nn >= 1,
        ;
        assert(to_ints(all_bits@) == decoded_digits(skb, ctb, qi, ti, nn));
    }
    let ghost digits = decoded_digits(skb, ctb, qi, ti, nn);
    // a valid decryption carries only zeros and ones
    let mut i: usize = 0;
    while i < all_bits.len()
        invariant
            to_ints(all_bits@) == digits,
            digits == decoded_digits(skb, ctb, qi, ti, nn),
            i <= all_bits@.len(),
            decrypt_transport_ok(sk_string@, ciphertext_string@, skb, ctb, qi, nn),
            nn >= 8,
            qi == params.q as int,
            ti == params.t as int,
            nn == params.n as nat,
            forall|k: int| 0 <= k < i ==> 0 <= #[trigger] (all_bits@[k]) <= 1,
        decreases all_bits@.len() - i,
    {
        let c = all_bits[i];
        if c < 0 || c > 1 {
            proof {
                assert(digits[i as int] == all_bits@[i as int] as int);
                assert(!(0 <= digits[i as int] <= 1));
                assert(decrypt_digits_bad(sk_string@, ciphertext_string@, qi, ti, nn));
            }
            return Err(LweError::BadValue);
        }
        i = i + 1;
    }
    proof {
        assert forall|k: int| 0 <= k < digits.len() implies 0 <= #[trigger] (digits[k]) <= 1 by {
            assert(digits[k] == all_bits@[k] as int);
        }
        // a power-of-two block width of at least eight packs into whole bytes
        lemma_pow2_multiple_of_8(nn);
        assert(all_bits@.len() as int % 8 == 0) by {
            vstd::arithmetic::div_mod::lemma_fundamental_div_mod(nn as int, 8);
            assert(all_bits@.len() as int == 8 * ((nn as int / 8) * nb)) by (nonlinear_arith)
                requires
                    all_bits@.len() as int == nn * nb,
                    nn as int == 8 * (nn as int / 8) + nn as int % 8,
                    nn as int % 8 == 0,
            ;
            vstd::arithmetic::div_mod::lemma_mod_multiples_basic((nn as int / 8) * nb, 8);
            assert(8 * ((nn as int / 8) * nb) == ((nn as int / 8) * nb) * 8) by (nonlinear_arith);
        }
        assert(all_bits@.len() <= 0x1000_0000) by (nonlinear_arith)
            requires
                all_bits@.len() as int == nn * nb,
                cts@.len() as int == 2 * nn * nb,
                cts@.len() <= 0x1000_0000,
                nn >= 1,
                0 <= nb,
        ;
    }
    if all_bits.len() % 8 != 0 {
        return Err(LweError::BadLength);
    }
    if all_bits.len() > 0x1000_0000 {
        return Err(LweError::BadLength);
    }
    let packed_v = bits_to_bytes(&all_bits);
    proof {
        assert(packed_v@ =~= packed_bytes(digits)) by {
            assert forall|k: int| 0 <= k < packed_v@.len() implies #[trigger] (packed_v@[k])
                == packed_bytes(digits)[k] by {
                assert(packed_v@[k] as int == byte_of_bits(to_ints(all_bits@), 8 * k));
                lemma_byte_range(digits, 8 * k);
            }
        }
    }
    let ghost packed = packed_v@;
    // trim the zero padding that block alignment appended
    let mut bytes = packed_v;
    while bytes.len() > 0 && bytes[bytes.len() - 1] == 0
        invariant
            trim_zero_bytes(bytes@) == trim_zero_bytes(packed),
        decreases bytes.len(),
    {
        let ghost pre = bytes@;
        bytes.pop();
        proof {
            assert(bytes@ =~= pre.drop_last());
        }
    }
    proof {
        assert(trim_zero_bytes(bytes@) == bytes@);
    }
    match utf8_string(bytes) {
        Some(s) => {
            proof {
                assert(utf8_of(s@) == trim_zero_bytes(packed_bytes(digits)));
                assert(decrypt_string_ok(sk_string@, ciphertext_string@, s@, qi, ti, nn));
            }
            Ok(s)
        },
        None => {
            proof {
                assert forall|tt: Seq<char>|
                    trim_zero_bytes(packed_bytes(digits)) != #[trigger] utf8_of(tt) by {
                }
                assert(decrypt_not_text(sk_string@, ciphertext_string@, qi, ti, nn));
            }
            Err(LweError::BadEncoding)
        },
    }
}

/// A power of two of at least eight is a multiple of eight: it halves
/// evenly three times.
proof fn lemma_pow2_multiple_of_8(n: nat)
    requires
        crate::transform::is_pow2(n),
        n >= 8,
    ensures
        n as int % 8 == 0,
{
    let m1 = n / 2;
    let m2 = m1 / 2;
    let m3 = m2 / 2;
    assert(n % 2 == 0 && crate::transform::is_pow2(m1));
    vstd::arithmetic::div_mod::lemma_fundamental_div_mod(n as int, 2);
    assert(m1 >= 4);
    assert(m1 % 2 == 0 && crate::transform::is_pow2(m2));
    vstd::arithmetic::div_mod::lemma_fundamental_div_mod(m1 as int, 2);
    assert(m2 >= 2);
    assert(m2 % 2 == 0);
    vstd::arithmetic::div_mod::lemma_fundamental_div_mod(m2 as int, 2);
    assert(n as int == 8 * m3) by (nonlinear_arith)
        requires
            n as int == 2 * (m1 as int) + n as int % 2,
            n % 2 == 0,
            m1 as int == 2 * (m2 as int) + m1 as int % 2,
            m1 % 2 == 0,
            m2 as int == 2 * (m3 as int) + m2 as int % 2,
            m2 % 2 == 0,
    ;
    vstd::arithmetic::div_mod::lemma_mod_multiples_basic(m3 as int, 8);
    assert(8 * (m3 as int) == (m3 as int) * 8) by (nonlinear_arith);
}

/// A byte value assembled from eight bits stays within a byte.
proof fn lemma_byte_range(bits: Seq<int>, base: int)
    requires
        forall|k: int| 0 <= k < bits.len() ==> 0 <= #[trigger] (bits[k]) <= 1,
    ensures
        0 <= byte_of_bits(bits, base) <= 255,
{
    assert(0 <= pcoeff(bits, base) * 128 <= 128) by (nonlinear_arith)
        requires 0 <= pcoeff(bits, base) <= 1;
    assert(0 <= pcoeff(bits, base + 1) * 64 <= 64) by (nonlinear_arith)
        requires 0 <= pcoeff(bits, base + 1) <= 1;
    assert(0 <= pcoeff(bits, base + 2) * 32 <= 32) by (nonlinear_arith)
        requires 0 <= pcoeff(bits, base + 2) <= 1;
    assert(0 <= pcoeff(bits, base + 3) * 16 <= 16) by (nonlinear_arith)
        requires 0 <= pcoeff(bits, base + 3) <= 1;
    assert(0 <= pcoeff(bits, base + 4) * 8 <= 8) by (nonlinear_arith)
        requires 0 <= pcoeff(bits, base + 4) <= 1;
    assert(0 <= pcoeff(bits, base + 5) * 4 <= 4) by (nonlinear_arith)
        requires 0 <= pcoeff(bits, base + 5) <= 1;
    assert(0 <= pcoeff(bits, base + 6) * 2 <= 2) by (nonlinear_arith)
        requires 0 <= pcoeff(bits, base + 6) <= 1;
}

/// A trimmed decoded vector keeps its bound./// A trimmed decoded vector keeps its bound.
proof fn lemma_decoded_bounds(v: Seq<i64>, p: Seq<int>, b: int)
    requires
        0 <= b,
        p == trim(to_ints(v)),
        bounded(to_ints(v), b),
    ensures
        bounded(p, b),
        p.len() <= v.len(),
{
    lemma_trim_pcoeff(to_ints(v));
    assert forall|k: int| 0 <= k < p.len() implies -b <= #[trigger] (p[k]) <= b by {
        assert(pcoeff(p, k) == pcoeff(to_ints(v), k));
        assert(to_ints(v)[k] == -(p.len()) + p.len() + to_ints(v)[k]);
    }
}

/// The running value of the first `k` bits of a group.
pub open spec fn partial_byte(s: Seq<int>, base: int, k: int) -> int
    decreases k,
{
    if k <= 0 {
        0
    } else {
        partial_byte(s, base, k - 1) * 2 + pcoeff(s, base + k - 1)
    }
}

/// Two to the `k`-th, for byte packing.
pub open spec fn pow2k(k: int) -> int
    decreases k,
{
    if k <= 0 {
        1
    } else {
        2 * pow2k(k - 1)
    }
}

/// Powers of two are positive and monotone.
proof fn lemma_pow2k_mono(a: int, b: int)
    requires
        0 <= a <= b,
    ensures
        1 <= pow2k(a) <= pow2k(b),
    decreases b,
{
    if a < b {
        lemma_pow2k_mono(a, b - 1);
    } else if a > 0 {
        lemma_pow2k_mono(a - 1, a - 1);
    }
}

/// Eight accumulated bits are the full byte value.
proof fn lemma_partial_byte_full(s: Seq<int>, base: int)
    ensures
        partial_byte(s, base, 8) == byte_of_bits(s, base),
{
    reveal_with_fuel(partial_byte, 9);
}

} // verus!

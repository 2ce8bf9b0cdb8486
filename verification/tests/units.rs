//! Unit tests of the ring arithmetic, rounding, parameters, samplers, the
//! bit codec and the module variant.

use ring_lwe::module_lwe::{add_vec, gen_small_vector, gen_uniform_matrix, mul_mat_vec_simple,
    mul_vec_simple, parameters, transpose};
use ring_lwe::{build_params, gen_binary_poly, gen_ternary_poly, gen_uniform_poly, mod_coeffs,
    nearest_int, polyadd, polyinv, polymul, polyrem, polysub, Parameters, Poly};

#[test]
fn test_nearest_int_values() {
    assert_eq!(nearest_int(7, 3), 2);
    assert_eq!(nearest_int(8, 3), 3);
    assert_eq!(nearest_int(-7, 3), -2);
    assert_eq!(nearest_int(-8, 3), -3);
    // ties round away from zero
    assert_eq!(nearest_int(3, 2), 2);
    assert_eq!(nearest_int(-3, 2), -2);
    assert_eq!(nearest_int(0, 5), 0);
}

#[test]
fn test_mod_coeffs_centered() {
    let p = Poly::new(vec![0, 1, 16, 9, -8, 17, 34, -17]);
    let r = mod_coeffs(p, 17);
    assert_eq!(r.coeffs(), &vec![0, 1, -1, -8, -8]);
}

// the two boundary residues fall in one class, and centering is stable
#[test]
fn test_mod_coeffs_boundary() {
    let q: i64 = 17;
    let upper = mod_coeffs(Poly::new(vec![q / 2 + 1]), q);
    let lower = mod_coeffs(Poly::new(vec![-(q / 2)]), q);
    assert_eq!(upper, lower);
    let twice = mod_coeffs(upper.duplicate(), q);
    assert_eq!(twice, lower);
}

#[test]
fn test_polyrem_idempotent() {
    let params = Parameters::default();
    let p = Poly::new((1..100i64).collect::<Vec<i64>>());
    let f4 = build_params(Some(4), Some(17), Some(2)).unwrap().f;
    let once = polyrem(p, &f4);
    let twice = polyrem(once.duplicate(), &f4);
    assert_eq!(once, twice);
    let _ = params;
}

#[test]
fn test_polyadd_polysub() {
    let f = build_params(Some(4), Some(17), Some(2)).unwrap().f;
    let a = Poly::new(vec![1, 2, 3]);
    let b = Poly::new(vec![5, -2, 4, 8]);
    let s = polyadd(&a, &b, 17, &f);
    assert_eq!(s.coeffs(), &vec![6, 0, 7, 8]);
    let d = polysub(&s, &b, 17, f);
    assert_eq!(d, a);
}

#[test]
fn test_polyinv_adds_to_zero() {
    let f = build_params(Some(4), Some(17), Some(2)).unwrap().f;
    let a = Poly::new(vec![3, -5, 8]);
    let n = polyinv(&a, 17);
    let z = polyadd(&a, &n, 17, &f);
    assert_eq!(z, Poly::new(Vec::new()));
}

#[test]
fn test_build_params_rejects_bad_inputs() {
    // degree that is not a power of two
    assert!(build_params(Some(3), Some(17), Some(2)).is_none());
    // even modulus
    assert!(build_params(Some(4), Some(16), Some(2)).is_none());
    // plaintext modulus out of range
    assert!(build_params(Some(4), Some(17), Some(17)).is_none());
    // modulus without a 2n-th root of unity
    assert!(build_params(Some(8), Some(19), Some(2)).is_none());
    // a missing override falls back to the defaults
    let p = build_params(None, None, None).unwrap();
    assert_eq!((p.n, p.q, p.t), (512, 12289, 2));
}

#[test]
fn test_samplers_ranges() {
    let bin = gen_binary_poly(64, Some(4));
    for &c in bin.coeffs() {
        assert!(c == 0 || c == 1);
    }
    let ter = gen_ternary_poly(64, Some(5));
    for &c in ter.coeffs() {
        assert!(-1 <= c && c <= 1);
    }
    let uni = gen_uniform_poly(64, 17, Some(6));
    for &c in uni.coeffs() {
        assert!(-8 <= c && c <= 8);
    }
    // a seeded draw is reproducible
    let again = gen_uniform_poly(64, 17, Some(6));
    assert_eq!(uni, again);
}

#[test]
fn test_module_parameters_and_transpose() {
    let (n, q, k, f) = parameters();
    assert_eq!((n, q, k), (4, 67, 2));
    assert_eq!(f.coeffs(), &vec![1, 0, 0, 0, 1]);
    let m = vec![
        vec![Poly::new(vec![1]), Poly::new(vec![2])],
        vec![Poly::new(vec![3]), Poly::new(vec![4])],
    ];
    let t = transpose(&m);
    assert_eq!(t[0][1].coeffs(), &vec![3]);
    assert_eq!(t[1][0].coeffs(), &vec![2]);
}

#[test]
fn test_module_vector_arithmetic() {
    let (_, q, _, f) = parameters();
    let v0 = vec![Poly::new(vec![1, 2]), Poly::new(vec![0, 1])];
    let v1 = vec![Poly::new(vec![3]), Poly::new(vec![5])];
    let s = add_vec(&v0, &v1, q as i64, &f);
    assert_eq!(s[0].coeffs(), &vec![4, 2]);
    assert_eq!(s[1].coeffs(), &vec![5, 1]);
    // (1 + 2x)*3 + x*5 = 3 + 11x
    let d = mul_vec_simple(&v0, &v1, q as i64, &f);
    assert_eq!(d.coeffs(), &vec![3, 11]);
    let m = vec![v0, vec![Poly::new(vec![1]), Poly::new(vec![1])]];
    let r = mul_mat_vec_simple(&m, &v1, q as i64, &f);
    assert_eq!(r[0].coeffs(), &vec![3, 11]);
    assert_eq!(r[1].coeffs(), &vec![8]);
}

#[test]
fn test_module_round_trip() {
    let (n, q, k, f) = parameters();
    let (a, t, sk) = ring_lwe::module_lwe::keygen(n, q as i64, k, &f);
    // ephemeral values of zero leave only the message and the key error,
    // which the threshold decoder absorbs
    let zero_vec = vec![Poly::new(Vec::new()), Poly::new(Vec::new())];
    let zero = Poly::new(Vec::new());
    let m_b = vec![1i64, 0, 1, 1];
    let (u, v) = ring_lwe::module_lwe::encrypt(&a, &t, m_b.clone(), &f, q as i64, &zero_vec,
        &zero_vec, &zero);
    let mut dec = ring_lwe::module_lwe::decrypt(&sk, q as i64, &f, &u, &v);
    dec.resize(n, 0);
    let mut expected = m_b.clone();
    expected.resize(n, 0);
    assert_eq!(dec, expected);
}

#[test]
fn test_bit_codec_round_trip() {
    let bytes: Vec<u8> = vec![0x68, 0x00, 0xff, 0x41];
    let bits = ring_lwe::codec::bytes_to_bits(&bytes);
    assert_eq!(bits.len(), 32);
    assert_eq!(&bits[0..8], &[0, 1, 1, 0, 1, 0, 0, 0]);
    let back = ring_lwe::codec::bits_to_bytes(&bits);
    assert_eq!(back, bytes);
}

// the transport blob is real base64 over real bincode, with fixed-width
// blocks: a wrapper that handed its input through unchanged would fail here
#[test]
fn test_transport_encoding_layout() {
    let params = Parameters::default();
    let keys = ring_lwe::codec::keygen_string(&params, Some(10));
    let pk_string = keys.get("public").unwrap();
    let bytes =
        base64::Engine::decode(&base64::engine::general_purpose::STANDARD, pk_string.as_str())
            .unwrap();
    let coeffs: Vec<i64> = bincode::deserialize(&bytes).unwrap();
    assert_eq!(coeffs.len(), 2 * params.n);
    for &c in &coeffs {
        assert!(-params.q / 2 <= c && c <= params.q / 2);
    }
}

// wrong coefficient counts and oversized values are rejected by kind
#[test]
fn test_decrypt_string_length_and_value_errors() {
    let params = Parameters::default();
    let short: Vec<i64> = vec![1, 2, 3];
    let short_b64 = base64::Engine::encode(
        &base64::engine::general_purpose::STANDARD,
        bincode::serialize(&short).unwrap(),
    );
    let keys = ring_lwe::codec::keygen_string(&params, Some(11));
    let sk = keys.get("secret").unwrap();
    assert_eq!(
        ring_lwe::codec::decrypt_string(&short_b64, &short_b64, &params),
        Err(ring_lwe::codec::LweError::BadLength)
    );
    let huge: Vec<i64> = vec![i64::MAX; params.n];
    let huge_b64 = base64::Engine::encode(
        &base64::engine::general_purpose::STANDARD,
        bincode::serialize(&huge).unwrap(),
    );
    assert_eq!(
        ring_lwe::codec::decrypt_string(&huge_b64, sk, &params),
        Err(ring_lwe::codec::LweError::BadValue)
    );
}

#[test]
fn test_gen_samplers_length() {
    let sm = gen_small_vector(4, 2, Some(8));
    assert_eq!(sm.len(), 2);
    let um = gen_uniform_matrix(4, 2, 67, Some(9));
    assert_eq!(um.len(), 2);
    assert_eq!(um[0].len(), 2);
}

//! End-to-end tests of the scheme: string round trip, homomorphic addition
//! and multiplication, and the fast multiplication path.

use ring_lwe::codec::{decrypt_string, encrypt_string, keygen_string};
use ring_lwe::decrypt::decrypt;
use ring_lwe::encrypt::encrypt;
use ring_lwe::homomorphic::{ciphertext_add, ciphertext_mul, decrypt_deg2};
use ring_lwe::keygen::{keygen, keygen_core};
use ring_lwe::sample::gen_ternary_poly;
use ring_lwe::{build_params, mod_coeffs, polyadd, polymul, polymul_fast, Parameters, Poly};

// Test for basic keygen/encrypt/decrypt of a message
#[test]
pub fn test_basic() {
    let seed = None; //set the random seed
    let message = String::from("hello");
    let params = Parameters::default();
    let keypair = keygen_string(&params, seed);
    let pk_string = keypair.get("public").unwrap();
    let sk_string = keypair.get("secret").unwrap();
    let ciphertext_string = encrypt_string(pk_string, &message, &params, seed).unwrap();
    let decrypted_message = decrypt_string(sk_string, &ciphertext_string, &params).unwrap();
    assert_eq!(message, decrypted_message, "test failed: {} != {}", message, decrypted_message);
}

// Test homomorphic addition property: ensure sum of encrypted plaintexts
// decrypts to the plaintext sum reduced modulo the plaintext modulus
#[test]
pub fn test_hom_add() {
    let seed = None; //set the random seed
    let params = Parameters::default();

    // Create polynomials from ints
    let m0_poly = Poly::new({
        let mut v = vec![0i64; params.n];
        v[0] = 2;
        v
    });
    let m1_poly = Poly::new({
        let mut v = vec![0i64; params.n];
        v[0] = 3;
        v
    });

    // the plaintext sum, digit-wise modulo t
    let raw_sum = polyadd(&m0_poly, &m1_poly, 0, &params.f);
    let plaintext_sum = mod_coeffs(raw_sum, params.t);
    let (pk, sk) = keygen(&params, seed);

    // Encrypt plaintext messages
    let u = encrypt(&pk, &m0_poly, &params, seed);
    let v = encrypt(&pk, &m1_poly, &params, seed);

    // Compute sum of encrypted data
    let s = ciphertext_add(&u, &v, &params);
    let ciphertext_sum = [s.0, s.1];

    // Decrypt ciphertext sum u+v
    let decrypted_sum = decrypt(&sk, &ciphertext_sum, &params);

    assert_eq!(decrypted_sum, plaintext_sum, "test failed: sum mismatch");
}

// Test homomorphic multiplication property: the degree-2 decryption of the
// ciphertext product recovers the plaintext product.  The public value `a`
// is drawn ternary here so that the key equation holds without wrap-around,
// which the one-hop multiplication requires, and the plaintext modulus
// leaves room for the product digit.
#[test]
pub fn test_hom_prod() {
    let params = build_params(Some(16), Some(12289), Some(32)).unwrap();

    //create polynomials from ints
    let m0_poly = Poly::new(vec![2i64]);
    let m1_poly = Poly::new(vec![3i64]);

    // Generate the keypair from small public randomness
    let a = gen_ternary_poly(params.n, Some(11));
    let sk = gen_ternary_poly(params.n, Some(12));
    let e = gen_ternary_poly(params.n, Some(13));
    let b = keygen_core(&a, &sk, &e, &params);
    let pk = [b, a];

    // Encrypt plaintext messages
    let u = encrypt(&pk, &m0_poly, &params, Some(21));
    let v = encrypt(&pk, &m1_poly, &params, Some(22));

    let plaintext_prod = polymul(&m0_poly, &m1_poly, 0, &params.f);
    //compute product of encrypted data
    let c = ciphertext_mul(&u, &v, &params);
    //decrypt along the degree-2 path, rescaling by the squared factor
    let decrypted_prod = decrypt_deg2(&sk, &c, &params);

    assert_eq!(plaintext_prod, decrypted_prod, "test failed: product mismatch");
}

// Test fast NTT-based multiplication against the schoolbook reference
#[test]
pub fn test_polymul_fast() {
    let p: i64 = 17; // Prime modulus
    let root: i64 = 3; // Primitive root for the modulus
    let n: usize = 8; // Length of the transform
    let params = build_params(Some(4), Some(p), Some(2)).unwrap();

    // Compute the n-th root of unity omega = g^((p - 1) / n) % p
    let omega = ntt::mod_exp(root, (p - 1) / n as i64, p);

    // Input polynomials
    let a = Poly::new(vec![1, 2, 3, 4]);
    let b = Poly::new(vec![5, 6, 7, 8]);

    let c_std = polymul(&a, &b, p, &params.f);
    let c_fast = polymul_fast(&a, &b, p, &params.f, omega);

    assert_eq!(c_std, c_fast, "test failed: fast path disagrees");
}

// The fast path agrees with the schoolbook path on full-width random
// operands under the default parameters
#[test]
pub fn test_polymul_fast_uniform() {
    let params = Parameters::default();
    let a = ring_lwe::gen_uniform_poly(params.n, params.q, Some(31));
    let b = ring_lwe::gen_uniform_poly(params.n, params.q, Some(32));
    let c_std = polymul(&a, &b, params.q, &params.f);
    let c_fast = polymul_fast(&a, &b, params.q, &params.f, params.omega);
    assert_eq!(c_std, c_fast);
}

// The concrete multiplication scenario with its expected vector
#[test]
pub fn test_mul_concrete() {
    let params = build_params(Some(4), Some(17), Some(2)).unwrap();
    let a = Poly::new(vec![1, 2, 3, 4]);
    let b = Poly::new(vec![5, 6, 7, 8]);
    let c = polymul(&a, &b, 17, &params.f);
    assert_eq!(c, Poly::new(vec![-5, -2, 2, -8]));
}

// A block of digits survives one encryption round trip under custom
// parameters with a larger plaintext modulus
#[test]
pub fn test_block_round_trip() {
    let params = build_params(Some(64), Some(12289), Some(8)).unwrap();
    let (pk, sk) = keygen(&params, Some(5));
    let m = Poly::new(vec![7, 0, 3, 1, 2, 5, 6, 4, 1, 1, 0, 7]);
    let ct = encrypt(&pk, &m, &params, Some(6));
    let dec = decrypt(&sk, &[ct.0, ct.1], &params);
    assert_eq!(dec, m);
}

// The string layer reports malformed transport input instead of panicking
#[test]
pub fn test_decrypt_string_errors() {
    let params = Parameters::default();
    let bad = String::from("@@not-base64@@");
    let ct = String::from("AAAA");
    match decrypt_string(&bad, &ct, &params) {
        Err(ring_lwe::codec::LweError::BadEncoding) => (),
        other => panic!("expected a decoding error, got {:?}", other),
    }
    // a syntactically valid but wrongly sized secret key is rejected too
    let keys = keygen_string(&params, Some(1));
    let sk = keys.get("secret").unwrap();
    match decrypt_string(sk, &bad, &params) {
        Err(ring_lwe::codec::LweError::BadEncoding) => (),
        other => panic!("expected a decoding error, got {:?}", other),
    }
}

// The encryptor rejects malformed public keys by kind: undecodable text,
// a wrong coefficient count, and out-of-range values
#[test]
pub fn test_encrypt_string_errors() {
    let params = Parameters::default();
    let msg = String::from("hi");
    let bad = String::from("***");
    match encrypt_string(&bad, &msg, &params, None) {
        Err(ring_lwe::codec::LweError::BadEncoding) => (),
        other => panic!("expected a decoding error, got {:?}", other),
    }
    let short: Vec<i64> = vec![1, 2, 3];
    let short_b64 = base64::Engine::encode(
        &base64::engine::general_purpose::STANDARD,
        bincode::serialize(&short).unwrap(),
    );
    match encrypt_string(&short_b64, &msg, &params, None) {
        Err(ring_lwe::codec::LweError::BadLength) => (),
        other => panic!("expected a length error, got {:?}", other),
    }
    let huge: Vec<i64> = vec![i64::MAX; 2 * params.n];
    let huge_b64 = base64::Engine::encode(
        &base64::engine::general_purpose::STANDARD,
        bincode::serialize(&huge).unwrap(),
    );
    match encrypt_string(&huge_b64, &msg, &params, None) {
        Err(ring_lwe::codec::LweError::BadValue) => (),
        other => panic!("expected a value error, got {:?}", other),
    }
}

// An empty message encrypts and decrypts to an empty message
#[test]
pub fn test_empty_message_round_trip() {
    let params = Parameters::default();
    let keypair = keygen_string(&params, Some(2));
    let pk_string = keypair.get("public").unwrap();
    let sk_string = keypair.get("secret").unwrap();
    let message = String::new();
    let ct = encrypt_string(pk_string, &message, &params, Some(3)).unwrap();
    let dec = decrypt_string(sk_string, &ct, &params).unwrap();
    assert_eq!(dec, message);
}

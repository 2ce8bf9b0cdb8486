pub mod sums;
pub mod poly;
pub mod ring;
pub mod transform;
pub mod params;
pub mod sample;
pub mod keygen;
pub mod encrypt;
pub mod decrypt;
pub mod laws;
pub mod homomorphic;
pub mod codec;
pub mod module_lwe;

pub use params::Parameters;
pub use params::build_params;
pub use poly::Poly;
pub use poly::mod_coeffs;
pub use poly::nearest_int;
pub use poly::polyadd;
pub use poly::polyinv;
pub use poly::polymul;
pub use poly::polyrem;
pub use poly::polysub;
pub use sample::gen_binary_poly;
pub use sample::gen_ternary_poly;
pub use sample::gen_uniform_poly;
pub use transform::polymul_fast;

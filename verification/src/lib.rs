//! Threshold secret sharing over a prime field (Shamir's scheme).
//!
//! A secret in `[0, prime)` is split into shares `(id, value)` such that any
//! `threshold` of them determine the secret by Lagrange interpolation at zero,
//! while fewer leave it undetermined.

pub mod field;
pub mod lagrange;
pub mod poly;
pub mod scheme;

pub use field::gcd;
pub use field::mod_inverse;
pub use lagrange::lagrange_interpolation_at_zero;
pub use poly::poly_curve_eval;
pub use scheme::SecretData;
pub use scheme::ShamirError;
pub use scheme::DEFAULT_PRIME;

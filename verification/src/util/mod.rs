//! Number theory, finite fields and linear algebra used by the group algorithms.
pub mod ntheory;

pub use self::ntheory::{extract_roots, factorize, gcd, is_prime, lcm, mod_inverse};
pub mod linalg;
pub use self::linalg::{composition_series, ModularMatrix, ModularSubspace, MonomialMatrix};
pub mod field;
pub use self::field::FiniteField;


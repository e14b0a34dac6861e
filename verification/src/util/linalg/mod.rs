//! Linear algebra helpers: monomial matrices over roots of unity and matrices over `F_p`.
pub mod monomial_matrix;
pub use self::monomial_matrix::MonomialMatrix;
pub mod kernel;
pub mod modular_matrix;
pub use self::modular_matrix::{composition_series, ModularMatrix, ModularSubspace};

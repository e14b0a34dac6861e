//! A collection of PC presentations of well-known finite solvable groups.
pub mod cyclic;
pub use self::cyclic::cyclic;
pub mod abelian;
pub use self::abelian::abelian;
pub mod dihedral;
pub use self::dihedral::dihedral;
pub mod quaternion;
pub use self::quaternion::quaternion;
pub mod affine1d;
pub use self::affine1d::affine1d;
pub mod unipotent;
pub use self::unipotent::unipotent;
pub mod upper_triangular;
pub use self::upper_triangular::upper_triangular;
pub mod outliers;
pub use self::outliers::{a4, s3, s4, sl2_3};

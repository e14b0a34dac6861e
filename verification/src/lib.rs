//! Finite polycyclic groups given by power-commutator presentations.
pub mod util;
pub mod text;
pub mod word;
pub use crate::word::{Term, Word};
pub mod presentation;
pub use crate::presentation::Presentation;
pub mod builder;
pub use crate::builder::{Builder, BuilderError};
pub mod collection;
pub mod collector;
pub use crate::collector::Collector;
pub mod element;
pub use crate::element::Element;
pub mod consistency;
pub use crate::consistency::{verify_consistency, ConsistencyError};
pub mod zoo;
pub mod generating_sequence;
pub use crate::generating_sequence::GeneratingSequence;
pub mod series;
pub mod span;
pub use crate::series::{
    chief_series, commutator_subgroup, is_abelian, is_abelian_subgroup, is_nilpotent, is_nilpotent_subgroup,
    is_supersolvable, lower_central_series, nilpotency_class, nilpotency_class_subgroup,
};
pub mod extension;
pub use crate::extension::{central_extension, split_extension, ExtensionError};
pub mod baum_clausen;
pub use crate::baum_clausen::{
    group_exponent, irreducible_representations, BaumClausenError, BaumClausenStage, Representation,
};

//! Structural diffing for replicated value trees.
//!
//! The crate models hierarchical documents as value trees (maps, sequences,
//! grapheme-indexed text and typed scalars), computes the edit script that
//! turns one tree into another, and proves that replaying the script against
//! the first tree yields the second.

pub mod convert;
pub mod diff;
pub mod laws;
pub mod script;
pub mod value;

pub use convert::Automergeable;
pub use convert::ToAutomerge;
pub use convert::map_value;
pub use convert::text_value;
pub use diff::diff_value;
pub use diff::diff_values;
pub use script::DiffError;
pub use script::Op;
pub use script::PathElem;
pub use script::apply_op_exec;
pub use script::apply_script;
pub use value::MapKind;
pub use value::Scalar;
pub use value::ScalarView;
pub use value::Value;
pub use value::ValueView;
pub use value::clone_value;
pub use value::values_equal;

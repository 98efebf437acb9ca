//! The errors that writes and strict look-ups report.

use crate::prop::PropType;
use vstd::prelude::*;

verus! {

/// What went wrong in a write or a strict look-up.
#[derive(Debug, PartialEq, Eq)]
pub enum GraphError {
    /// A value's kind differs from the kind that its property cell holds.
    IncorrectPropertyType,
    /// A property name was registered before with another declared kind.
    PropertyTypeError { name: String, expected: PropType, actual: PropType },
    /// A write-once property already has a value.
    ConstantPropertyMutationError { prop_id: usize },
    /// A layer name that a strict look-up does not know.
    InvalidLayer(String),
    /// A property name that a strict look-up does not know.
    PropertyMissingError(String),
    /// A dense identifier that no record has.
    InvalidIdentifier,
}

} // verus!

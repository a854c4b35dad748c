//! The closed set of failures that an evaluation can report.
use vstd::prelude::*;

verus! {

/// Why an evaluation failed. Every error ends the evaluation that raised it.
#[derive(Debug, Clone, Copy, PartialEq, Eq, Structural)]
pub enum FilsonError {
    /// The record holds nothing at the requested path.
    ExtractionError,
    /// The two operands are of different variants.
    TypeError,
    /// An ordering operator was applied to a collection.
    OrderingProhibitedError,
    /// The extracted operand of `intersects` is not a collection or text.
    IntersectsError,
    /// The extracted operand of `is_subset` is not a collection or text.
    IsSubsetError,
    /// The extracted operand of `is_superset` is not a collection or text.
    IsSupersetError,
}

pub type FilsonResult<T> = Result<T, FilsonError>;

impl FilsonError {
    /// A human-readable description of the error.
    pub fn message(&self) -> (r: &'static str) {
        match self {
            FilsonError::ExtractionError => "Data by specified path doesn't exist.",
            FilsonError::TypeError => "Values are of different types.",
            FilsonError::OrderingProhibitedError => "Ordering operations between collection types are not allowed.",
            FilsonError::IntersectsError => "Can't check for intersection, since extracted data isn't array/set/map/string.",
            FilsonError::IsSubsetError => "Can't check if subset, since extracted data isn't array/set/map/string.",
            FilsonError::IsSupersetError => "Can't check if superset, since extracted data isn't array/set/map/string.",
        }
    }
}

} // verus!

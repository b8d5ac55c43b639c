use vstd::prelude::*;

verus! {

/// Every way an operation of this library can fail.
#[derive(Clone, Copy, Debug, PartialEq, Eq, Structural)]
pub enum LinalgError {
    EmptyVector,
    EmptyMatrix,
    LengthMismatch,
    ShapeMismatch,
    RaggedRows,
    ColumnLengthMismatch,
    DivisionByZero,
    ZeroVectorNormalization,
    ZeroVectorSimilarity,
    IndexOutOfRange,
}

impl LinalgError {
    /// A human-readable description of the failure.
    pub fn message(&self) -> (r: &'static str)
        ensures
            *self == LinalgError::EmptyVector ==> r == "Vector must have at least one element",
            *self == LinalgError::EmptyMatrix ==> r == "Matrix cannot be empty",
            *self == LinalgError::LengthMismatch ==> r == "Vectors must have the same length",
            *self == LinalgError::ShapeMismatch ==> r == "Incompatible shapes for multiplication",
            *self == LinalgError::RaggedRows ==> r == "All rows must have the same number of columns",
            *self == LinalgError::ColumnLengthMismatch ==> r == "Column length mismatch",
            *self == LinalgError::DivisionByZero ==> r == "Division by zero",
            *self == LinalgError::ZeroVectorNormalization ==> r == "Cannot normalize zero vector",
            *self == LinalgError::ZeroVectorSimilarity ==> r == "Cannot compute cosine similarity with zero vector",
            *self == LinalgError::IndexOutOfRange ==> r == "Column index out of range",
    {
        match self {
            LinalgError::EmptyVector => "Vector must have at least one element",
            LinalgError::EmptyMatrix => "Matrix cannot be empty",
            LinalgError::LengthMismatch => "Vectors must have the same length",
            LinalgError::ShapeMismatch => "Incompatible shapes for multiplication",
            LinalgError::RaggedRows => "All rows must have the same number of columns",
            LinalgError::ColumnLengthMismatch => "Column length mismatch",
            LinalgError::DivisionByZero => "Division by zero",
            LinalgError::ZeroVectorNormalization => "Cannot normalize zero vector",
            LinalgError::ZeroVectorSimilarity => "Cannot compute cosine similarity with zero vector",
            LinalgError::IndexOutOfRange => "Column index out of range",
        }
    }
}

} // verus!

use vstd::prelude::*;

verus! {

/// What can go wrong in a vector index.
#[derive(Debug)]
pub enum VectorError {
    /// The stored vectors could not be written out or read back.
    IndexError(String),
    /// A vector has another number of components than the index.
    DimensionMismatch { expected: usize, got: usize },
}

/// The result of an operation on a vector index.
pub type VectorResult<T> = Result<T, VectorError>;

} // verus!

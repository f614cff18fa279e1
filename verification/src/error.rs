//! What can be wrong with a request.
use vstd::prelude::*;

verus! {

/// Errors of the construction of subspaces.
#[derive(Clone, Copy, Debug, PartialEq, Eq)]
pub enum MathError {
    /// The field has fewer dimensions than the subspace is to have.
    DomainSizeTooLarge,
}

/// Errors of the transforms.
#[derive(Clone, Copy, Debug, PartialEq, Eq)]
pub enum Error {
    /// The length of the data is not a power of two.
    PowerOfTwoLengthRequired,
    /// There are fewer rounds than are to be skipped.
    SkipRoundsTooLarge,
    /// The shape does not match the length of the data.
    BatchTooLarge,
    /// There is no coset with this index.
    CosetIndexOutOfBounds { coset: usize, coset_bits: usize },
    /// The domain is too small for the shape and the coset.
    DomainTooSmall { log_required_domain_size: usize },
    /// The domain could not be constructed.
    MathError(MathError),
}

} // verus!

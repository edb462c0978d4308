use vstd::prelude::*;

verus! {

/// Why a homology computation stopped without a result.
#[derive(Clone, Copy, Debug, PartialEq, Eq, Structural)]
pub enum HomologyError {
    /// A face of some simplex is missing from the basis one dimension below.
    MalformedComplex,
    /// A pivot was asked of a region that is empty or holds only zeros.
    DegenerateMatrix,
    /// A transformation matrix and the matrix kept as its inverse do not
    /// multiply to the identity.
    TransformNotInvertible,
    /// An intermediate value does not fit in `i128`.
    Overflow,
}

} // verus!

use vstd::prelude::*;

verus! {

/// A value that is one of two alternatives: a minimal sum type for callers
/// that thread two different sources of values through one place.
#[derive(Debug, Clone, PartialEq, Eq)]
pub enum Either<L, R> {
    Left(L),
    Right(R),
}

} // verus!

use vstd::prelude::*;

verus! {

/// Why the linear-programming engine found no plan.
#[derive(Clone, Debug, PartialEq, Eq)]
pub enum LpFailure {
    Infeasible,
    Unbounded,
    /// The engine's answer does not meet the constraints.
    Numerical,
    Other(String),
}

#[derive(Clone, Debug)]
pub enum Error {
    TargetParsingFailed(String),
    FilterParsingFailed(String),
    UnknownItem(String),
    UnknownBuilding(String),
    InvalidBuilding(String),
    InvalidRecipeIndex(usize),
    ResolutionFailed(LpFailure),
}

} // verus!

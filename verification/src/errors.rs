use vstd::prelude::*;

verus! {

/// The ways building or querying a dependency graph can fail.
///
/// `MissingDependency` and `CyclicDependency` report bad caller input and are
/// checked in that order: referential integrity first, cycles second.
/// `InternalInconsistency` marks a must-not-happen state: tranche generation
/// found no placeable element even though elements remain.
#[derive(Clone, Copy, Debug, PartialEq, Eq, Structural)]
pub enum ValidationError {
    MissingDependency,
    CyclicDependency,
    InternalInconsistency,
}

impl ValidationError {
    /// A human-readable description of the error.
    pub fn message(&self) -> (r: String)
        ensures
            *self == ValidationError::MissingDependency ==> r@
                == "Some dependencies do not exist as elements"@,
            *self == ValidationError::CyclicDependency ==> r@ == "Cyclic dependency detected"@,
            *self == ValidationError::InternalInconsistency ==> r@
                == "No element is free of unplaced dependencies"@,
    {
        match self {
            ValidationError::MissingDependency => {
                String::from_str("Some dependencies do not exist as elements")
            },
            ValidationError::CyclicDependency => String::from_str("Cyclic dependency detected"),
            ValidationError::InternalInconsistency => {
                String::from_str("No element is free of unplaced dependencies")
            },
        }
    }
}

} // verus!

//! Conditions that label control-flow edges.
use vstd::prelude::*;
use crate::value::Rvalue;

verus! {

/// The condition under which a control transfer is taken.
#[derive(Debug, PartialEq, Eq)]
pub enum Guard {
    /// The transfer is unconditional.
    Always,
    /// The transfer is never taken.
    Never,
    /// The transfer is taken when `flag` holds the truth value `expected`.
    Predicate { flag: Rvalue, expected: bool },
}

impl Guard {
    /// The guard of an unconditional transfer.
    pub fn always() -> (r: Guard)
        ensures
            r == Guard::Always,
    {
        Guard::Always
    }

    /// A copy of this guard that Verus knows to be equal to it.
    pub fn duplicate(&self) -> (r: Guard)
        ensures
            r == *self,
    {
        match self {
            Guard::Always => Guard::Always,
            Guard::Never => Guard::Never,
            Guard::Predicate { flag, expected } => Guard::Predicate {
                flag: flag.duplicate(),
                expected: *expected,
            },
        }
    }
}

impl Clone for Guard {
    fn clone(&self) -> Self {
        self.duplicate()
    }
}

} // verus!

use vstd::prelude::*;
use crate::requirement::Requirement;

verus! {

/// The one way planning can fail.
#[derive(Debug, Clone, Copy, PartialEq, Eq, Structural)]
pub enum GymError {
    /// No configuration of any bar of the requirement's kind has the
    /// requested weight, or none can be reached from the configurations
    /// chosen for the requirements before it.
    InvalidRequirement(Requirement),
}

} // verus!

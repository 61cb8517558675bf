//! The reasons for which a request is turned down.

use crate::ident::ApprovalId;
use vstd::prelude::*;

verus! {

/// Why an approval was not granted.
#[derive(Clone, Copy, Debug, PartialEq, Eq, Structural)]
pub enum ApprovalError {
    /// The approver's level is below the level that the approval requires.
    InsufficientLevel,
    /// A prerequisite is not approved yet; `prerequisite` is the identifier of
    /// the first such one, in the order in which the prerequisites were added.
    UnsatisfiedPrerequisite { prerequisite: ApprovalId },
    /// The approval was granted before; the first approver stays on record.
    AlreadyApproved,
}

/// Why prerequisites were not added.
#[derive(Clone, Copy, Debug, PartialEq, Eq, Structural)]
pub enum CycleError {
    /// With the new prerequisites the approval would require itself, directly
    /// or through other approvals.
    CycleDetected,
}

} // verus!

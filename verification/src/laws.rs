//! What holds of the graph over more than one request.

use crate::error::ApprovalError;
use crate::ident::ApprovalId;
use crate::model::{
    approval_outcome, granted, has_unapproved_prerequisite, prerequisite, well_formed,
};
use crate::node::ApprovalView;
use vstd::prelude::*;

verus! {

/// An approval is granted once. Where a request on approval `n` is granted,
/// a second request on it is turned down, whoever makes it and at whatever
/// level: as `AlreadyApproved` if the second approver's level suffices. The
/// approver of the first request stays on record.
pub proof fn law_granted_once(
    g: Seq<ApprovalView>,
    n: int,
    first: Seq<char>,
    first_level: u8,
    second_level: u8,
)
    requires
        well_formed(g),
        0 <= n < g.len(),
        approval_outcome(g, n, first_level) is Ok,
    ensures
        approval_outcome(granted(g, n, first), n, second_level) is Err,
        second_level >= g[n].level ==> approval_outcome(granted(g, n, first), n, second_level)
            == Err::<ApprovalId, ApprovalError>(ApprovalError::AlreadyApproved),
        granted(g, n, first)[n].approved,
        granted(g, n, first)[n].approver_id == Some(first),
{
    let after = granted(g, n, first);
    assert(!has_unapproved_prerequisite(after, n)) by {
        // each prerequisite was granted before, and none is revoked
        assert forall|k: int| 0 <= k < after[n].requires_approval_from.len() implies (
        #[trigger] prerequisite(after, n, k)).approved by {
            assert(prerequisite(g, n, k).approved);
        }
    }
}

/// Granting never revokes: every approval that was granted before a request
/// is, after it, as it was, with the same approver on record.
pub proof fn law_grants_are_kept(
    g: Seq<ApprovalView>,
    n: int,
    approver: Seq<char>,
    approver_level: u8,
)
    requires
        0 <= n < g.len(),
        approval_outcome(g, n, approver_level) is Ok,
    ensures
        forall|i: int|
            0 <= i < g.len() && g[i].approved ==> #[trigger] granted(g, n, approver)[i] == g[i],
{
}

} // verus!

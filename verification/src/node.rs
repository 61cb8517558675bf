//! The approval node: the unit of authorization state.

use crate::ident::{is_random_uuid, ApprovalId};
use vstd::prelude::*;

verus! {

/// A handle to an approval held in a graph: the index of its slot.
#[derive(Clone, Copy, Debug, PartialEq, Eq, Structural)]
pub struct ApprovalRef {
    pub index: usize,
}

/// What an approval holds, as mathematical values.
pub struct ApprovalView {
    pub id: ApprovalId,
    pub level: u8,
    pub approved: bool,
    pub approver_id: Option<Seq<char>>,
    pub entity_id: Seq<char>,
    pub requires_approval_from: Seq<ApprovalRef>,
}

impl ApprovalView {
    /// An approver is on record exactly when the approval is granted.
    pub open spec fn wf(self) -> bool {
        self.approver_id is Some <==> self.approved
    }

    /// A newly created approval: not granted, without prerequisites.
    pub open spec fn fresh(id: ApprovalId, level: u8, entity_id: Seq<char>) -> ApprovalView {
        ApprovalView {
            id,
            level,
            approved: false,
            approver_id: None,
            entity_id,
            requires_approval_from: Seq::empty(),
        }
    }

    /// This approval once `approver` has granted it.
    pub open spec fn granted_by(self, approver: Seq<char>) -> ApprovalView {
        ApprovalView { approved: true, approver_id: Some(approver), ..self }
    }

    /// This approval with `more` prerequisites after those it has.
    pub open spec fn requiring(self, more: Seq<ApprovalRef>) -> ApprovalView {
        ApprovalView { requires_approval_from: self.requires_approval_from + more, ..self }
    }
}

/// A required sign-off on an entity at an authorization level, which may wait
/// for other approvals to be granted first.
#[derive(Clone, Debug, PartialEq, Eq)]
pub struct Approval {
    id: ApprovalId,
    level: u8,
    approved: bool,
    approver_id: Option<String>,
    entity_id: String,
    requires_approval_from: Vec<ApprovalRef>,
}

impl View for Approval {
    type V = ApprovalView;

    closed spec fn view(&self) -> ApprovalView {
        ApprovalView {
            id: self.id,
            level: self.level,
            approved: self.approved,
            approver_id: match self.approver_id {
                Some(approver) => Some(approver@),
                None => None,
            },
            entity_id: self.entity_id@,
            requires_approval_from: self.requires_approval_from@,
        }
    }
}

impl Approval {
    /// A new approval under the identifier `id`.
    pub fn with_id(id: ApprovalId, level: u8, entity_id: &str) -> (node: Approval)
        ensures
            node@ == ApprovalView::fresh(id, level, entity_id@),
    {
        Approval {
            id,
            level,
            approved: false,
            approver_id: None,
            entity_id: entity_id.to_owned(),
            requires_approval_from: Vec::new(),
        }
    }

    /// A new approval under a fresh random identifier.
    pub fn new(level: u8, entity_id: &str) -> (node: Approval)
        ensures
            is_random_uuid(node@.id.value),
            node@ == ApprovalView::fresh(node@.id, level, entity_id@),
    {
        Approval::with_id(ApprovalId::random(), level, entity_id)
    }

    /// The identifier given at creation.
    pub fn id(&self) -> (id: ApprovalId)
        ensures
            id == self@.id,
    {
        self.id
    }

    /// The authorization level that an approver needs.
    pub fn level(&self) -> (level: u8)
        ensures
            level == self@.level,
    {
        self.level
    }

    /// Whether the approval is granted.
    pub fn is_approved(&self) -> (approved: bool)
        ensures
            approved == self@.approved,
    {
        self.approved
    }

    /// Who granted the approval, if it is granted.
    pub fn approver_id(&self) -> (approver: Option<&String>)
        ensures
            approver is Some <==> self@.approver_id is Some,
            approver matches Some(name) ==> self@.approver_id == Some(name@),
    {
        self.approver_id.as_ref()
    }

    /// The entity whose action this approval gates.
    pub fn entity_id(&self) -> (entity: &String)
        ensures
            entity@ == self@.entity_id,
    {
        &self.entity_id
    }

    /// The prerequisites, in the order in which they were added.
    pub fn prerequisites(&self) -> (prerequisites: &Vec<ApprovalRef>)
        ensures
            prerequisites@ == self@.requires_approval_from,
    {
        &self.requires_approval_from
    }

    /// Records that `approver_id` has granted this approval.
    pub(crate) fn record_approval(&mut self, approver_id: String)
        ensures
            final(self)@ == old(self)@.granted_by(approver_id@),
    {
        self.approved = true;
        self.approver_id = Some(approver_id);
    }

    /// Appends `approvals` to the prerequisites, in their order.
    pub(crate) fn require_approval_from(&mut self, approvals: Vec<ApprovalRef>)
        ensures
            final(self)@ == old(self)@.requiring(approvals@),
    {
        let mut approvals = approvals;
        self.requires_approval_from.append(&mut approvals);
    }
}

} // verus!

//! The approval graph: the arena that holds the approvals, and the rules by
//! which prerequisites are added and approvals are granted.

use crate::error::{ApprovalError, CycleError};
use crate::ident::{is_random_uuid, ApprovalId};
use crate::model::{
    adjacency, approval_outcome, first_unapproved, granted, has_unapproved_prerequisite, holds,
    holds_all, lemma_empty_well_formed, lemma_first_unapproved, lemma_push_fresh_well_formed,
    lemma_with_prerequisites_well_formed, lemma_would_cycle, prerequisite, well_formed,
    with_prerequisites, would_cycle,
};
use crate::node::{Approval, ApprovalRef, ApprovalView};
use crate::search::reached_from_any;
use vstd::prelude::*;

verus! {

/// The approvals of one orchestrator. An approval is named by the handle that
/// its creation returned, and names its prerequisites by their handles, so
/// that several approvals can wait for the same one.
#[derive(Clone, Debug, PartialEq, Eq)]
pub struct ApprovalGraph {
    nodes: Vec<Approval>,
}

impl View for ApprovalGraph {
    type V = Seq<ApprovalView>;

    closed spec fn view(&self) -> Seq<ApprovalView> {
        Seq::new(self.nodes@.len(), |i: int| self.nodes@[i]@)
    }
}

impl ApprovalGraph {
    /// The invariant that every operation keeps.
    pub open spec fn wf(&self) -> bool {
        well_formed(self@)
    }

    /// A graph without approvals.
    pub fn new() -> (graph: ApprovalGraph)
        ensures
            graph.wf(),
            graph@ == Seq::<ApprovalView>::empty(),
    {
        let graph = ApprovalGraph { nodes: Vec::new() };
        proof {
            lemma_empty_well_formed();
        }
        graph
    }

    /// How many approvals the graph holds.
    pub fn len(&self) -> (len: usize)
        ensures
            len == self@.len(),
    {
        self.nodes.len()
    }

    /// Whether `node` names an approval of this graph.
    pub fn contains(&self, node: ApprovalRef) -> (found: bool)
        ensures
            found == holds(self@, node),
    {
        node.index < self.nodes.len()
    }

    /// The approval that `node` names.
    pub fn get(&self, node: ApprovalRef) -> (approval: &Approval)
        requires
            holds(self@, node),
        ensures
            approval@ == self@[node.index as int],
    {
        &self.nodes[node.index]
    }

    /// Whether the approval that `node` names is granted.
    pub fn is_approved(&self, node: ApprovalRef) -> (approved: bool)
        requires
            holds(self@, node),
        ensures
            approved == self@[node.index as int].approved,
    {
        self.nodes[node.index].is_approved()
    }

    /// Takes a newly made approval into the graph and hands out its handle.
    fn adopt(&mut self, approval: Approval) -> (node: ApprovalRef)
        requires
            old(self).wf(),
            approval@ == ApprovalView::fresh(approval@.id, approval@.level, approval@.entity_id),
        ensures
            final(self).wf(),
            node.index == old(self)@.len(),
            final(self)@ == old(self)@.push(approval@),
    {
        let index: usize = self.nodes.len();
        proof {
            lemma_push_fresh_well_formed(self@, approval@);
        }
        self.nodes.push(approval);
        assert(self@ =~= old(self)@.push(approval@));
        ApprovalRef { index }
    }

    /// Adds a new approval under the identifier `id`: not granted, without
    /// prerequisites.
    pub fn create_approval_with_id(
        &mut self,
        id: ApprovalId,
        level: u8,
        entity_id: &str,
    ) -> (node: ApprovalRef)
        requires
            old(self).wf(),
        ensures
            final(self).wf(),
            node.index == old(self)@.len(),
            final(self)@ == old(self)@.push(ApprovalView::fresh(id, level, entity_id@)),
    {
        self.adopt(Approval::with_id(id, level, entity_id))
    }

    /// Adds a new approval under a fresh random identifier: not granted,
    /// without prerequisites.
    pub fn create_approval(&mut self, level: u8, entity_id: &str) -> (node: ApprovalRef)
        requires
            old(self).wf(),
        ensures
            final(self).wf(),
            node.index == old(self)@.len(),
            final(self)@.len() == old(self)@.len() + 1,
            is_random_uuid(final(self)@[node.index as int].id.value),
            final(self)@ == old(self)@.push(
                ApprovalView::fresh(final(self)@[node.index as int].id, level, entity_id@),
            ),
    {
        self.adopt(Approval::new(level, entity_id))
    }

    /// Makes the approval that `node` names wait for `prerequisites`, which are
    /// appended in their order to those it has. The same prerequisite may be
    /// named more than once, and by more than one approval.
    ///
    /// Nothing is added if the approval would then require itself, directly
    /// or through other approvals. An approval that is granted stays granted,
    /// whatever is added to it or to others.
    pub fn add_prerequisites(
        &mut self,
        node: ApprovalRef,
        prerequisites: Vec<ApprovalRef>,
    ) -> (r: Result<(), CycleError>)
        requires
            old(self).wf(),
            holds(old(self)@, node),
            holds_all(old(self)@, prerequisites@),
        ensures
            final(self).wf(),
            // prerequisites that would close a cycle are turned down, all
            // others are taken
            r == Err::<(), CycleError>(CycleError::CycleDetected) <==> would_cycle(
                old(self)@,
                node.index as int,
                prerequisites@,
            ),
            r == Ok::<(), CycleError>(()) <==> !would_cycle(
                old(self)@,
                node.index as int,
                prerequisites@,
            ),
            // a request turned down changes nothing
            r is Err ==> final(self)@ == old(self)@,
            // prerequisites taken are appended in their order
            r is Ok ==> final(self)@ == with_prerequisites(
                old(self)@,
                node.index as int,
                prerequisites@,
            ),
            // either way no approval is granted or revoked
            final(self)@.len() == old(self)@.len(),
            forall|i: int|
                0 <= i < old(self)@.len() ==> (#[trigger] final(self)@[i]).approved == old(
                    self,
                )@[i].approved,
            forall|i: int|
                0 <= i < old(self)@.len() ==> (#[trigger] final(self)@[i]).approver_id == old(
                    self,
                )@[i].approver_id,
    {
        let ghost g = self@;
        let ghost n = node.index as int;
        let ghost more = prerequisites@;
        proof {
            lemma_would_cycle(g, n, more);
        }
        if reached_from_any(self, &prerequisites, node) {
            return Err(CycleError::CycleDetected);
        }
        self.nodes[node.index].require_approval_from(prerequisites);
        proof {
            assert(self@ =~= with_prerequisites(g, n, more));
            lemma_with_prerequisites_well_formed(g, n, more);
        }
        Ok(())
    }

    /// Grants the approval that `node` names on behalf of `approver_id`, and
    /// returns the approval's identifier.
    ///
    /// The request is turned down, and the graph left as it was, if the
    /// approver's level is below the approval's level; else if a prerequisite
    /// is not granted, of which the first is reported; else if the approval
    /// was granted before. Only the prerequisites themselves are looked at,
    /// as they are now: none is granted on the caller's behalf.
    pub fn approve(
        &mut self,
        node: ApprovalRef,
        approver_id: String,
        approver_level: u8,
    ) -> (r: Result<ApprovalId, ApprovalError>)
        requires
            old(self).wf(),
            holds(old(self)@, node),
        ensures
            final(self).wf(),
            r == approval_outcome(old(self)@, node.index as int, approver_level),
            // an approver below the approval's level is always turned down
            approver_level < old(self)@[node.index as int].level ==> r == Err::<
                ApprovalId,
                ApprovalError,
            >(ApprovalError::InsufficientLevel),
            // so is one at or above it, while a prerequisite is not granted
            approver_level >= old(self)@[node.index as int].level && has_unapproved_prerequisite(
                old(self)@,
                node.index as int,
            ) ==> r == Err::<ApprovalId, ApprovalError>(
                ApprovalError::UnsatisfiedPrerequisite {
                    prerequisite: first_unapproved(old(self)@, node.index as int).id,
                },
            ),
            // a request turned down changes nothing
            r is Err ==> final(self)@ == old(self)@,
            // a request granted records the grant and the approver, nothing else
            r is Ok ==> final(self)@ == granted(old(self)@, node.index as int, approver_id@),
    {
        let ghost g = self@;
        let ghost n = node.index as int;
        let target = &self.nodes[node.index];
        if approver_level < target.level() {
            return Err(ApprovalError::InsufficientLevel);
        }
        let prerequisites = target.prerequisites();
        let mut k: usize = 0;
        while k < prerequisites.len()
            invariant
                self@ == g,
                old(self)@ == g,
                well_formed(g),
                n == node.index,
                0 <= n < g.len(),
                approver_level >= g[n].level,
                prerequisites@ == g[n].requires_approval_from,
                k <= prerequisites.len(),
                forall|j: int| 0 <= j < k ==> (#[trigger] prerequisite(g, n, j)).approved,
            decreases prerequisites.len() - k,
        {
            let required = &self.nodes[prerequisites[k].index];
            if !required.is_approved() {
                proof {
                    lemma_first_unapproved(g, n, k as int);
                }
                return Err(ApprovalError::UnsatisfiedPrerequisite { prerequisite: required.id() });
            }
            k += 1;
        }
        if target.is_approved() {
            return Err(ApprovalError::AlreadyApproved);
        }
        let id = target.id();
        self.nodes[node.index].record_approval(approver_id);
        proof {
            assert(self@ =~= granted(g, n, approver_id@));
            assert(adjacency(self@) =~= adjacency(g));
        }
        Ok(id)
    }
}

} // verus!

//! The mathematical model of an approval graph: a sequence of approvals, each
//! naming its prerequisites by their positions in the sequence.

use crate::error::ApprovalError;
use crate::ident::ApprovalId;
use crate::node::{ApprovalRef, ApprovalView};
use crate::reach::{
    acyclic, extended, has_edge, lemma_extended_gets_cycle, lemma_extended_stays_acyclic,
    lemma_same_edges_same_cycles, on_cycle, reaches_from_any, reaches_in,
};
use vstd::prelude::*;

verus! {

/// The positions that a list of handles names.
pub open spec fn indices(refs: Seq<ApprovalRef>) -> Seq<int> {
    Seq::new(refs.len(), |k: int| refs[k].index as int)
}

/// The prerequisite relation as a directed graph: an edge leads from each
/// approval to each of its prerequisites.
pub open spec fn adjacency(g: Seq<ApprovalView>) -> Seq<Seq<int>> {
    Seq::new(g.len(), |i: int| indices(g[i].requires_approval_from))
}

/// `node` names an approval of the graph.
pub open spec fn holds(g: Seq<ApprovalView>, node: ApprovalRef) -> bool {
    node.index < g.len()
}

/// Each of `refs` names an approval of the graph.
pub open spec fn holds_all(g: Seq<ApprovalView>, refs: Seq<ApprovalRef>) -> bool {
    forall|k: int| 0 <= k < refs.len() ==> holds(g, #[trigger] refs[k])
}

/// The invariant of an approval graph: each approval has an approver on record
/// exactly when it is granted, every prerequisite is an approval of the graph,
/// and no approval requires itself, directly or through others.
pub open spec fn well_formed(g: Seq<ApprovalView>) -> bool {
    &&& forall|i: int| 0 <= i < g.len() ==> (#[trigger] g[i]).wf()
    &&& forall|i: int| 0 <= i < g.len() ==> holds_all(g, (#[trigger] g[i]).requires_approval_from)
    &&& acyclic(adjacency(g))
}

/// The approval that stands `k`-th among the prerequisites of approval `n`.
pub open spec fn prerequisite(g: Seq<ApprovalView>, n: int, k: int) -> ApprovalView {
    g[g[n].requires_approval_from[k].index as int]
}

/// Approval `n` has a prerequisite that is not granted.
pub open spec fn has_unapproved_prerequisite(g: Seq<ApprovalView>, n: int) -> bool {
    exists|k: int|
        0 <= k < g[n].requires_approval_from.len() && !(#[trigger] prerequisite(g, n, k)).approved
}

/// The `k`-th prerequisite of approval `n` is not granted, and all before it
/// are.
pub open spec fn is_first_unapproved(g: Seq<ApprovalView>, n: int, k: int) -> bool {
    &&& 0 <= k < g[n].requires_approval_from.len()
    &&& !prerequisite(g, n, k).approved
    &&& forall|j: int| 0 <= j < k ==> (#[trigger] prerequisite(g, n, j)).approved
}

/// The first prerequisite of approval `n`, in the order in which they were
/// added, that is not granted.
pub open spec fn first_unapproved(g: Seq<ApprovalView>, n: int) -> ApprovalView {
    prerequisite(g, n, choose|k: int| is_first_unapproved(g, n, k))
}

/// What a request to grant approval `n` at `approver_level` comes to: the
/// level is tested first, then the prerequisites, then whether the approval
/// was granted before.
pub open spec fn approval_outcome(g: Seq<ApprovalView>, n: int, approver_level: u8) -> Result<
    ApprovalId,
    ApprovalError,
> {
    if approver_level < g[n].level {
        Err(ApprovalError::InsufficientLevel)
    } else if has_unapproved_prerequisite(g, n) {
        Err(ApprovalError::UnsatisfiedPrerequisite { prerequisite: first_unapproved(g, n).id })
    } else if g[n].approved {
        Err(ApprovalError::AlreadyApproved)
    } else {
        Ok(g[n].id)
    }
}

/// The graph after `approver` has granted approval `n`.
pub open spec fn granted(g: Seq<ApprovalView>, n: int, approver: Seq<char>) -> Seq<ApprovalView> {
    g.update(n, g[n].granted_by(approver))
}

/// The graph after approval `n` has got `more` prerequisites.
pub open spec fn with_prerequisites(g: Seq<ApprovalView>, n: int, more: Seq<ApprovalRef>) -> Seq<
    ApprovalView,
> {
    g.update(n, g[n].requiring(more))
}

/// With `more` prerequisites on approval `n`, some approval would require
/// itself, directly or through others.
pub open spec fn would_cycle(g: Seq<ApprovalView>, n: int, more: Seq<ApprovalRef>) -> bool {
    !acyclic(adjacency(with_prerequisites(g, n, more)))
}

/// The first prerequisite that is not granted is the one before which all are
/// granted.
pub proof fn lemma_first_unapproved(g: Seq<ApprovalView>, n: int, k: int)
    requires
        is_first_unapproved(g, n, k),
    ensures
        has_unapproved_prerequisite(g, n),
        first_unapproved(g, n) == prerequisite(g, n, k),
{
    // of two that are first, neither stands before the other
    let chosen = choose|j: int| is_first_unapproved(g, n, j);
    assert(chosen == k);
}

/// New prerequisites on approval `n` are new edges from `n`.
pub proof fn lemma_adjacency_with_prerequisites(
    g: Seq<ApprovalView>,
    n: int,
    more: Seq<ApprovalRef>,
)
    requires
        0 <= n < g.len(),
    ensures
        adjacency(with_prerequisites(g, n, more)) == extended(adjacency(g), n, indices(more)),
{
    let left = adjacency(with_prerequisites(g, n, more));
    let right = extended(adjacency(g), n, indices(more));
    assert(left[n] =~= right[n]);
    assert(left =~= right);
}

/// The graph without approvals is well-formed.
pub proof fn lemma_empty_well_formed()
    ensures
        well_formed(Seq::<ApprovalView>::empty()),
{
    let adj = adjacency(Seq::<ApprovalView>::empty());
    assert forall|a: int| !#[trigger] on_cycle(adj, a) by {
        if on_cycle(adj, a) {
            // a cycle has a last edge, and there is no edge
            let steps = choose|steps: nat| steps > 0 && #[trigger] reaches_in(adj, a, a, steps);
            let mid = choose|mid: int|
                reaches_in(adj, a, mid, (steps - 1) as nat) && #[trigger] has_edge(adj, mid, a);
            assert(has_edge(adj, mid, a));
        }
    }
}

/// A new approval without prerequisites keeps the graph well-formed.
pub proof fn lemma_push_fresh_well_formed(g: Seq<ApprovalView>, node: ApprovalView)
    requires
        well_formed(g),
        node.wf(),
        node.requires_approval_from.len() == 0,
    ensures
        well_formed(g.push(node)),
{
    let next = g.push(node);
    assert forall|i: int| 0 <= i < next.len() implies holds_all(
        next,
        (#[trigger] next[i]).requires_approval_from,
    ) by {
        if i < g.len() {
            assert(holds_all(g, g[i].requires_approval_from));
        }
    }
    // the new approval has no edge, and none leads to it
    let adj = adjacency(g);
    let wider = adjacency(next);
    assert forall|u: int, v: int| #[trigger] has_edge(adj, u, v) <==> has_edge(wider, u, v) by {
        if 0 <= u < g.len() {
            assert(adj[u] == wider[u]);
        }
    }
    lemma_same_edges_same_cycles(adj, wider);
}

/// New prerequisites that name approvals of the graph and close no cycle
/// keep the graph well-formed.
pub proof fn lemma_with_prerequisites_well_formed(
    g: Seq<ApprovalView>,
    n: int,
    more: Seq<ApprovalRef>,
)
    requires
        well_formed(g),
        0 <= n < g.len(),
        holds_all(g, more),
        !would_cycle(g, n, more),
    ensures
        well_formed(with_prerequisites(g, n, more)),
{
    let next = with_prerequisites(g, n, more);
    assert forall|i: int| 0 <= i < next.len() implies holds_all(
        next,
        (#[trigger] next[i]).requires_approval_from,
    ) by {
        assert(holds_all(g, g[i].requires_approval_from));
        if i == n {
            let before = g[n].requires_approval_from;
            assert forall|k: int| 0 <= k < before.len() + more.len() implies holds(
                next,
                #[trigger] (before + more)[k],
            ) by {
                if k < before.len() {
                    assert(holds(g, before[k]));
                } else {
                    assert(holds(g, more[k - before.len()]));
                }
            }
        }
    }
}

/// In a well-formed graph, new prerequisites on approval `n` would close a
/// cycle exactly if `n` is one of them or is reached from one of them along
/// the prerequisites that are there; and then `n` itself would require itself.
pub proof fn lemma_would_cycle(g: Seq<ApprovalView>, n: int, more: Seq<ApprovalRef>)
    requires
        well_formed(g),
        0 <= n < g.len(),
    ensures
        would_cycle(g, n, more) <==> reaches_from_any(adjacency(g), indices(more), n),
        would_cycle(g, n, more) <==> on_cycle(adjacency(with_prerequisites(g, n, more)), n),
{
    lemma_adjacency_with_prerequisites(g, n, more);
    if reaches_from_any(adjacency(g), indices(more), n) {
        lemma_extended_gets_cycle(adjacency(g), n, indices(more));
    } else {
        lemma_extended_stays_acyclic(adjacency(g), n, indices(more));
    }
}

} // verus!

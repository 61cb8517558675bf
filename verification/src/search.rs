//! The search that guards the graph against cycles: which approvals are
//! reached from given ones along the prerequisites.

use crate::graph::ApprovalGraph;
use crate::model::{adjacency, holds, holds_all, indices};
use crate::node::ApprovalRef;
use crate::reach::{
    has_edge, lemma_closed_set_holds_reachable, lemma_reaches_self, lemma_reaches_then_edge,
    reaches, reaches_from_any, reaches_in,
};
use vstd::prelude::*;

verus! {

/// How many nodes are not marked.
spec fn unmarked(marks: Seq<bool>) -> nat
    decreases marks.len(),
{
    if marks.len() == 0 {
        0
    } else {
        unmarked(marks.drop_last()) + if marks.last() {
            0nat
        } else {
            1nat
        }
    }
}

/// Marking a node leaves one unmarked node less.
proof fn lemma_mark(marks: Seq<bool>, i: int)
    requires
        0 <= i < marks.len(),
        !marks[i],
    ensures
        unmarked(marks.update(i, true)) + 1 == unmarked(marks),
    decreases marks.len(),
{
    if i == marks.len() - 1 {
        assert(marks.update(i, true).drop_last() =~= marks.drop_last());
    } else {
        assert(marks.update(i, true).drop_last() =~= marks.drop_last().update(i, true));
        lemma_mark(marks.drop_last(), i);
    }
}

/// The first `upto` successors of `u` are marked.
spec fn successors_marked(adj: Seq<Seq<int>>, marks: Seq<bool>, u: int, upto: int) -> bool {
    forall|j: int| 0 <= j < upto ==> is_marked(marks, #[trigger] adj[u][j])
}

/// Node `v` is marked.
spec fn is_marked(marks: Seq<bool>, v: int) -> bool {
    0 <= v < marks.len() && marks[v]
}

/// Each of `starts` is marked.
spec fn all_marked(marks: Seq<bool>, starts: Seq<int>) -> bool {
    forall|k: int| 0 <= k < starts.len() ==> is_marked(marks, #[trigger] starts[k])
}

/// What holds of the marks and of the stack all through the search for `t`
/// from `starts`: `t` is not marked, the stack holds marked nodes, and every
/// marked node is reached from one of `starts`.
spec fn searching(
    adj: Seq<Seq<int>>,
    starts: Seq<int>,
    t: int,
    marks: Seq<bool>,
    stack: Seq<usize>,
) -> bool {
    &&& marks.len() == adj.len()
    &&& 0 <= t < adj.len()
    &&& !marks[t]
    &&& forall|i: int|
        0 <= i < stack.len() ==> (#[trigger] stack[i]) < adj.len() && marks[stack[i] as int]
    &&& forall|v: int|
        0 <= v < adj.len() && #[trigger] marks[v] ==> reaches_from_any(adj, starts, v)
}

/// Every marked node that is neither on the stack nor `except` has all its
/// successors marked.
spec fn settled(adj: Seq<Seq<int>>, marks: Seq<bool>, stack: Seq<usize>, except: int) -> bool {
    forall|u: usize|
        u < adj.len() && marks[u as int] && !(#[trigger] stack.contains(u)) && u != except
            ==> successors_marked(adj, marks, u as int, adj[u as int].len() as int)
}

/// Marking `v` and pushing it on the stack keeps the search's invariant.
proof fn lemma_push_keeps(
    adj: Seq<Seq<int>>,
    starts: Seq<int>,
    t: int,
    marks: Seq<bool>,
    stack: Seq<usize>,
    except: int,
    v: usize,
)
    requires
        searching(adj, starts, t, marks, stack),
        settled(adj, marks, stack, except),
        v < adj.len(),
        v != t,
        !marks[v as int],
        reaches_from_any(adj, starts, v as int),
    ensures
        searching(adj, starts, t, marks.update(v as int, true), stack.push(v)),
        settled(adj, marks.update(v as int, true), stack.push(v), except),
        unmarked(marks.update(v as int, true)) + 1 == unmarked(marks),
        is_marked(marks.update(v as int, true), v as int),
        forall|w: int| is_marked(marks, w) ==> is_marked(marks.update(v as int, true), w),
{
    let marks2 = marks.update(v as int, true);
    let stack2 = stack.push(v);
    lemma_mark(marks, v as int);
    assert forall|i: int| 0 <= i < stack2.len() implies (#[trigger] stack2[i]) < adj.len()
        && marks2[stack2[i] as int] by {
        if i < stack.len() {
            assert(stack2[i] == stack[i]);
        }
    }
    assert(stack2[stack.len() as int] == v);
    assert forall|u: usize|
        u < adj.len() && marks2[u as int] && !(#[trigger] stack2.contains(u)) && u
            != except implies successors_marked(
        adj,
        marks2,
        u as int,
        adj[u as int].len() as int,
    ) by {
        // `u` is not `v`, which is on the stack now: it was settled before
        if stack.contains(u) {
            let i = choose|i: int| 0 <= i < stack.len() && stack[i] == u;
            assert(stack2[i] == u);
        }
        assert(successors_marked(adj, marks, u as int, adj[u as int].len() as int));
    }
}

/// Taking the top of the stack keeps the search's invariant, with the node
/// taken as the one that is being expanded.
proof fn lemma_pop_keeps(
    adj: Seq<Seq<int>>,
    starts: Seq<int>,
    t: int,
    marks: Seq<bool>,
    stack: Seq<usize>,
)
    requires
        searching(adj, starts, t, marks, stack),
        settled(adj, marks, stack, -1),
        stack.len() > 0,
    ensures
        searching(adj, starts, t, marks, stack.drop_last()),
        settled(adj, marks, stack.drop_last(), stack.last() as int),
{
    let rest = stack.drop_last();
    assert forall|i: int| 0 <= i < rest.len() implies (#[trigger] rest[i]) < adj.len()
        && marks[rest[i] as int] by {
        assert(rest[i] == stack[i]);
    }
    assert forall|u: usize|
        u < adj.len() && marks[u as int] && !(#[trigger] rest.contains(u)) && u
            != stack.last() as int implies successors_marked(
        adj,
        marks,
        u as int,
        adj[u as int].len() as int,
    ) by {
        if stack.contains(u) {
            let i = choose|i: int| 0 <= i < stack.len() && stack[i] == u;
            assert(rest[i] == u);
        }
    }
}

/// When the stack is empty and `t` is still not marked, none of `starts`
/// reaches `t`.
proof fn lemma_search_exhausted(
    adj: Seq<Seq<int>>,
    starts: Seq<int>,
    t: int,
    marks: Seq<bool>,
    stack: Seq<usize>,
)
    requires
        searching(adj, starts, t, marks, stack),
        settled(adj, marks, stack, -1),
        stack.len() == 0,
        adj.len() <= usize::MAX,
        all_marked(marks, starts),
    ensures
        !reaches_from_any(adj, starts, t),
{
    let inside = Set::new(|v: int| 0 <= v < adj.len() && marks[v]);
    assert forall|u: int, v: int|
        inside.contains(u) && #[trigger] has_edge(adj, u, v) implies inside.contains(v) by {
        // `u` is settled, and `v` is one of its successors
        let j = choose|j: int| 0 <= j < adj[u].len() && adj[u][j] == v;
        assert(!stack.contains(u as usize));
        assert(is_marked(marks, adj[u][j]));
    }
    assert forall|k: int| 0 <= k < starts.len() implies !reaches(adj, #[trigger] starts[k], t) by {
        if reaches(adj, starts[k], t) {
            let steps = choose|steps: nat| reaches_in(adj, starts[k], t, steps);
            lemma_closed_set_holds_reachable(adj, inside, starts[k], t, steps);
        }
    }
}

/// A marked node with an edge to `t` shows that one of `starts` reaches `t`.
proof fn lemma_search_found(adj: Seq<Seq<int>>, starts: Seq<int>, u: int, t: int)
    requires
        reaches_from_any(adj, starts, u),
        has_edge(adj, u, t),
    ensures
        reaches_from_any(adj, starts, t),
{
    let k = choose|k: int| 0 <= k < starts.len() && reaches(adj, #[trigger] starts[k], u);
    lemma_reaches_then_edge(adj, starts[k], u, t);
}

/// Whether `target` is one of `starts` or a prerequisite, direct or through
/// other approvals, of one of them.
#[verifier::loop_isolation(false)]
pub(crate) fn reached_from_any(
    graph: &ApprovalGraph,
    starts: &Vec<ApprovalRef>,
    target: ApprovalRef,
) -> (found: bool)
    requires
        graph.wf(),
        holds(graph@, target),
        holds_all(graph@, starts@),
    ensures
        found == reaches_from_any(adjacency(graph@), indices(starts@), target.index as int),
{
    let ghost adj = adjacency(graph@);
    let ghost origins = indices(starts@);
    let ghost t = target.index as int;
    let n: usize = graph.len();
    let mut marks: Vec<bool> = Vec::new();
    while marks.len() < n
        invariant
            marks.len() <= n,
            forall|i: int| 0 <= i < marks.len() ==> !marks@[i],
        decreases n - marks.len(),
    {
        marks.push(false);
    }
    let mut stack: Vec<usize> = Vec::new();
    let mut k: usize = 0;
    while k < starts.len()
        invariant
            k <= starts.len(),
            searching(adj, origins, t, marks@, stack@),
            settled(adj, marks@, stack@, -1),
            forall|i: int| 0 <= i < k ==> is_marked(marks@, #[trigger] origins[i]),
        decreases starts.len() - k,
    {
        let start: usize = starts[k].index;
        assert(origins[k as int] == start);
        proof {
            lemma_reaches_self(adj, start as int);
        }
        if start == target.index {
            return true;
        }
        if !marks[start] {
            proof {
                lemma_push_keeps(adj, origins, t, marks@, stack@, -1, start);
            }
            marks[start] = true;
            stack.push(start);
        }
        k += 1;
    }
    while stack.len() > 0
        invariant
            searching(adj, origins, t, marks@, stack@),
            settled(adj, marks@, stack@, -1),
            all_marked(marks@, origins),
        decreases 2 * unmarked(marks@) + stack@.len(),
    {
        let ghost before = 2 * unmarked(marks@) + stack@.len();
        proof {
            lemma_pop_keeps(adj, origins, t, marks@, stack@);
        }
        let u: usize = stack.pop().unwrap();
        let prerequisites = graph.get(ApprovalRef { index: u }).prerequisites();
        let mut j: usize = 0;
        while j < prerequisites.len()
            invariant
                j <= prerequisites.len(),
                searching(adj, origins, t, marks@, stack@),
                settled(adj, marks@, stack@, u as int),
                successors_marked(adj, marks@, u as int, j as int),
                all_marked(marks@, origins),
                2 * unmarked(marks@) + stack@.len() < before,
            decreases prerequisites.len() - j,
        {
            let v: usize = prerequisites[j].index;
            assert(adj[u as int][j as int] == v);
            proof {
                lemma_search_found(adj, origins, u as int, v as int);
            }
            if v == target.index {
                return true;
            }
            if !marks[v] {
                proof {
                    lemma_push_keeps(adj, origins, t, marks@, stack@, u as int, v);
                }
                marks[v] = true;
                stack.push(v);
            }
            j += 1;
        }
    }
    proof {
        lemma_search_exhausted(adj, origins, t, marks@, stack@);
    }
    false
}

} // verus!

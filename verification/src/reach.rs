//! Reachability in a directed graph given by successor lists.
//!
//! A graph is a `Seq<Seq<int>>`: the nodes are the indices, and `adj[a]` lists
//! the successors of node `a`.

use vstd::prelude::*;

verus! {

/// There is an edge from `a` to `b`.
pub open spec fn has_edge(adj: Seq<Seq<int>>, a: int, b: int) -> bool {
    0 <= a < adj.len() && adj[a].contains(b)
}

/// `b` is reached from `a` by following exactly `steps` edges.
pub open spec fn reaches_in(adj: Seq<Seq<int>>, a: int, b: int, steps: nat) -> bool
    decreases steps,
{
    if steps == 0 {
        a == b
    } else {
        exists|mid: int|
            reaches_in(adj, a, mid, (steps - 1) as nat) && #[trigger] has_edge(adj, mid, b)
    }
}

/// `b` is reached from `a` by following edges, possibly none.
pub open spec fn reaches(adj: Seq<Seq<int>>, a: int, b: int) -> bool {
    exists|steps: nat| reaches_in(adj, a, b, steps)
}

/// `b` is reached from at least one of `starts`.
pub open spec fn reaches_from_any(adj: Seq<Seq<int>>, starts: Seq<int>, b: int) -> bool {
    exists|k: int| 0 <= k < starts.len() && reaches(adj, #[trigger] starts[k], b)
}

/// `a` is reached from itself by one edge or more.
pub open spec fn on_cycle(adj: Seq<Seq<int>>, a: int) -> bool {
    exists|steps: nat| steps > 0 && #[trigger] reaches_in(adj, a, a, steps)
}

/// No node is reached from itself by one edge or more.
pub open spec fn acyclic(adj: Seq<Seq<int>>) -> bool {
    forall|a: int| !#[trigger] on_cycle(adj, a)
}

/// The graph with `extra` appended to the successors of `node`.
pub open spec fn extended(adj: Seq<Seq<int>>, node: int, extra: Seq<int>) -> Seq<Seq<int>> {
    adj.update(node, adj[node] + extra)
}

/// Every node reaches itself.
pub proof fn lemma_reaches_self(adj: Seq<Seq<int>>, a: int)
    ensures
        reaches(adj, a, a),
{
    assert(reaches_in(adj, a, a, 0));
}

/// A path can be prolonged by one edge.
pub proof fn lemma_reaches_then_edge(adj: Seq<Seq<int>>, a: int, b: int, c: int)
    requires
        reaches(adj, a, b),
        has_edge(adj, b, c),
    ensures
        reaches(adj, a, c),
{
    let n = choose|steps: nat| reaches_in(adj, a, b, steps);
    assert(reaches_in(adj, a, c, n + 1));
}

/// Two paths that meet make one path, as long as both together.
pub proof fn lemma_reaches_in_transitive(
    adj: Seq<Seq<int>>,
    a: int,
    b: int,
    c: int,
    first: nat,
    second: nat,
)
    requires
        reaches_in(adj, a, b, first),
        reaches_in(adj, b, c, second),
    ensures
        reaches_in(adj, a, c, first + second),
    decreases second,
{
    if second > 0 {
        let mid = choose|mid: int|
            reaches_in(adj, b, mid, (second - 1) as nat) && #[trigger] has_edge(adj, mid, c);
        lemma_reaches_in_transitive(adj, a, b, mid, first, (second - 1) as nat);
    }
}

/// Reachability is transitive.
pub proof fn lemma_reaches_transitive(adj: Seq<Seq<int>>, a: int, b: int, c: int)
    requires
        reaches(adj, a, b),
        reaches(adj, b, c),
    ensures
        reaches(adj, a, c),
{
    let first = choose|steps: nat| reaches_in(adj, a, b, steps);
    let second = choose|steps: nat| reaches_in(adj, b, c, steps);
    lemma_reaches_in_transitive(adj, a, b, c, first, second);
}

/// A set of nodes that holds `a` and, with each node, its successors, holds
/// every node that `a` reaches.
pub proof fn lemma_closed_set_holds_reachable(
    adj: Seq<Seq<int>>,
    inside: Set<int>,
    a: int,
    b: int,
    steps: nat,
)
    requires
        inside.contains(a),
        forall|u: int, v: int|
            inside.contains(u) && #[trigger] has_edge(adj, u, v) ==> inside.contains(v),
        reaches_in(adj, a, b, steps),
    ensures
        inside.contains(b),
    decreases steps,
{
    if steps > 0 {
        let mid = choose|mid: int|
            reaches_in(adj, a, mid, (steps - 1) as nat) && #[trigger] has_edge(adj, mid, b);
        lemma_closed_set_holds_reachable(adj, inside, a, mid, (steps - 1) as nat);
    }
}

/// The edges of an extended graph are the old ones and those from `node` to
/// each of `extra`.
pub proof fn lemma_extended_edges(adj: Seq<Seq<int>>, node: int, extra: Seq<int>)
    requires
        0 <= node < adj.len(),
    ensures
        forall|a: int, b: int| #[trigger]
            has_edge(extended(adj, node, extra), a, b) <==> has_edge(adj, a, b) || (a == node
                && extra.contains(b)),
{
    let ext = extended(adj, node, extra);
    let before = adj[node];
    let after = before + extra;
    assert forall|a: int, b: int| #[trigger]
        has_edge(ext, a, b) <==> has_edge(adj, a, b) || (a == node && extra.contains(b)) by {
        if a == node && before.contains(b) {
            let i = choose|i: int| 0 <= i < before.len() && before[i] == b;
            assert(after[i] == b);
        }
        if a == node && extra.contains(b) {
            let i = choose|i: int| 0 <= i < extra.len() && extra[i] == b;
            assert(after[before.len() + i] == b);
        }
    }
}

/// A graph that has every edge of another has every path of it.
pub proof fn lemma_paths_kept(
    adj: Seq<Seq<int>>,
    wider: Seq<Seq<int>>,
    a: int,
    b: int,
    steps: nat,
)
    requires
        forall|u: int, v: int| #[trigger] has_edge(adj, u, v) ==> has_edge(wider, u, v),
        reaches_in(adj, a, b, steps),
    ensures
        reaches_in(wider, a, b, steps),
    decreases steps,
{
    if steps > 0 {
        let mid = choose|mid: int|
            reaches_in(adj, a, mid, (steps - 1) as nat) && #[trigger] has_edge(adj, mid, b);
        lemma_paths_kept(adj, wider, a, mid, (steps - 1) as nat);
    }
}

/// Two graphs with the same edges are both acyclic or both not.
pub proof fn lemma_same_edges_same_cycles(adj: Seq<Seq<int>>, other: Seq<Seq<int>>)
    requires
        forall|u: int, v: int| #[trigger] has_edge(adj, u, v) <==> has_edge(other, u, v),
        acyclic(adj),
    ensures
        acyclic(other),
{
    assert forall|a: int| !#[trigger] on_cycle(other, a) by {
        if on_cycle(other, a) {
            let steps = choose|steps: nat| steps > 0 && #[trigger] reaches_in(other, a, a, steps);
            lemma_paths_kept(other, adj, a, a, steps);
            assert(on_cycle(adj, a));
        }
    }
}

/// Where none of `extra` reaches `node`, a path of the extended graph either
/// was a path before, or passes once through an added edge: then its start
/// reached `node` before, and one of `extra` reached its end.
proof fn lemma_extended_path_splits(
    adj: Seq<Seq<int>>,
    node: int,
    extra: Seq<int>,
    a: int,
    b: int,
    steps: nat,
)
    requires
        0 <= node < adj.len(),
        !reaches_from_any(adj, extra, node),
        reaches_in(extended(adj, node, extra), a, b, steps),
    ensures
        reaches(adj, a, b) || (reaches(adj, a, node) && reaches_from_any(adj, extra, b)),
    decreases steps,
{
    let ext = extended(adj, node, extra);
    if steps == 0 {
        lemma_reaches_self(adj, a);
    } else {
        let mid = choose|mid: int|
            reaches_in(ext, a, mid, (steps - 1) as nat) && #[trigger] has_edge(ext, mid, b);
        lemma_extended_path_splits(adj, node, extra, a, mid, (steps - 1) as nat);
        lemma_extended_edges(adj, node, extra);
        if has_edge(adj, mid, b) {
            if reaches(adj, a, mid) {
                lemma_reaches_then_edge(adj, a, mid, b);
            } else {
                let k = choose|k: int|
                    0 <= k < extra.len() && reaches(adj, #[trigger] extra[k], mid);
                lemma_reaches_then_edge(adj, extra[k], mid, b);
            }
        } else {
            // The last edge is an added one, from `node` to `b`. No added edge
            // came before it, or one of `extra` would have reached `node`.
            let k = choose|k: int| 0 <= k < extra.len() && extra[k] == b;
            lemma_reaches_self(adj, extra[k]);
        }
    }
}

/// Appending successors to a node of an acyclic graph leaves it acyclic if
/// none of them reached that node.
pub proof fn lemma_extended_stays_acyclic(adj: Seq<Seq<int>>, node: int, extra: Seq<int>)
    requires
        acyclic(adj),
        0 <= node < adj.len(),
        !reaches_from_any(adj, extra, node),
    ensures
        acyclic(extended(adj, node, extra)),
{
    let ext = extended(adj, node, extra);
    assert forall|a: int| !#[trigger] on_cycle(ext, a) by {
        if on_cycle(ext, a) {
            let steps = choose|steps: nat| steps > 0 && #[trigger] reaches_in(ext, a, a, steps);
            let mid = choose|mid: int|
                reaches_in(ext, a, mid, (steps - 1) as nat) && #[trigger] has_edge(ext, mid, a);
            lemma_extended_path_splits(adj, node, extra, a, mid, (steps - 1) as nat);
            lemma_extended_edges(adj, node, extra);
            if !has_edge(adj, mid, a) {
                // the cycle ends with an added edge, from `node` to `a`, and
                // `a` reached `node` before
                let k = choose|k: int| 0 <= k < extra.len() && extra[k] == a;
                assert(reaches_from_any(adj, extra, node));
            } else if reaches(adj, a, mid) {
                // the cycle was there before
                let n = choose|n: nat| reaches_in(adj, a, mid, n);
                assert(reaches_in(adj, a, a, n + 1));
                assert(on_cycle(adj, a));
            } else {
                // the cycle passes through an added edge: one of `extra`
                // reached `mid`, then `a`, then `node`
                let k = choose|k: int|
                    0 <= k < extra.len() && reaches(adj, #[trigger] extra[k], mid);
                lemma_reaches_then_edge(adj, extra[k], mid, a);
                lemma_reaches_transitive(adj, extra[k], a, node);
            }
        }
    }
}

/// Appending a successor that reached the node closes a cycle through the
/// node.
pub proof fn lemma_extended_gets_cycle(adj: Seq<Seq<int>>, node: int, extra: Seq<int>)
    requires
        0 <= node < adj.len(),
        reaches_from_any(adj, extra, node),
    ensures
        on_cycle(extended(adj, node, extra), node),
{
    let ext = extended(adj, node, extra);
    let k = choose|k: int| 0 <= k < extra.len() && reaches(adj, #[trigger] extra[k], node);
    let n = choose|n: nat| reaches_in(adj, extra[k], node, n);
    lemma_extended_edges(adj, node, extra);
    lemma_paths_kept(adj, ext, extra[k], node, n);
    assert(has_edge(ext, node, extra[k]));
    assert(reaches_in(ext, node, node, 0));
    lemma_reaches_in_transitive(ext, node, extra[k], node, 1, n);
}

} // verus!

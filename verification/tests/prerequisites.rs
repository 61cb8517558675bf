use approval_graph::error::CycleError;
use approval_graph::graph::ApprovalGraph;
use approval_graph::ident::ApprovalId;
use approval_graph::node::ApprovalRef;

fn chain(length: usize) -> (ApprovalGraph, Vec<ApprovalRef>) {
    let mut graph = ApprovalGraph::new();
    let mut nodes = Vec::new();
    for i in 0..length {
        let node = graph.create_approval_with_id(ApprovalId { value: i as u128 }, 1, "e");
        if i > 0 {
            assert_eq!(graph.add_prerequisites(node, vec![nodes[i - 1]]), Ok(()));
        }
        nodes.push(node);
    }
    (graph, nodes)
}

#[test]
fn approval_cannot_require_itself() {
    let mut graph = ApprovalGraph::new();
    let node = graph.create_approval(1, "e");
    let before = graph.clone();
    assert_eq!(
        graph.add_prerequisites(node, vec![node]),
        Err(CycleError::CycleDetected)
    );
    assert_eq!(graph, before);
    assert!(graph.get(node).prerequisites().is_empty());
}

#[test]
fn two_approvals_cannot_require_each_other() {
    let mut graph = ApprovalGraph::new();
    let a = graph.create_approval(1, "e");
    let b = graph.create_approval(1, "e");
    assert_eq!(graph.add_prerequisites(a, vec![b]), Ok(()));
    let before = graph.clone();
    assert_eq!(graph.add_prerequisites(b, vec![a]), Err(CycleError::CycleDetected));
    assert_eq!(graph, before);
    assert_eq!(graph.get(a).prerequisites(), &vec![b]);
    assert!(graph.get(b).prerequisites().is_empty());
}

#[test]
fn long_chain_cannot_be_closed() {
    let (mut graph, nodes) = chain(50);
    let before = graph.clone();
    assert_eq!(
        graph.add_prerequisites(nodes[0], vec![nodes[49]]),
        Err(CycleError::CycleDetected)
    );
    assert_eq!(
        graph.add_prerequisites(nodes[10], vec![nodes[30]]),
        Err(CycleError::CycleDetected)
    );
    assert_eq!(graph, before);
}

#[test]
fn chain_can_be_shortcut_forwards() {
    let (mut graph, nodes) = chain(50);
    assert_eq!(graph.add_prerequisites(nodes[30], vec![nodes[10]]), Ok(()));
    assert_eq!(graph.get(nodes[30]).prerequisites(), &vec![nodes[29], nodes[10]]);
}

#[test]
fn one_offending_prerequisite_rejects_the_whole_batch() {
    let mut graph = ApprovalGraph::new();
    let a = graph.create_approval(1, "e");
    let b = graph.create_approval(1, "e");
    let c = graph.create_approval(1, "e");
    assert_eq!(graph.add_prerequisites(a, vec![b]), Ok(()));
    let before = graph.clone();
    assert_eq!(
        graph.add_prerequisites(b, vec![c, a]),
        Err(CycleError::CycleDetected)
    );
    assert_eq!(graph, before);
    assert!(graph.get(b).prerequisites().is_empty());
    assert_eq!(graph.add_prerequisites(b, vec![c]), Ok(()));
}

#[test]
fn diamond_is_no_cycle() {
    let mut graph = ApprovalGraph::new();
    let bottom = graph.create_approval(1, "e");
    let left = graph.create_approval(1, "e");
    let right = graph.create_approval(1, "e");
    let top = graph.create_approval(1, "e");
    assert_eq!(graph.add_prerequisites(left, vec![bottom]), Ok(()));
    assert_eq!(graph.add_prerequisites(right, vec![bottom]), Ok(()));
    assert_eq!(graph.add_prerequisites(top, vec![left, right]), Ok(()));
    assert_eq!(graph.add_prerequisites(top, vec![bottom]), Ok(()));
    assert_eq!(graph.get(top).prerequisites(), &vec![left, right, bottom]);
    assert_eq!(
        graph.add_prerequisites(bottom, vec![top]),
        Err(CycleError::CycleDetected)
    );
}

#[test]
fn prerequisite_may_be_created_after_its_dependent() {
    let mut graph = ApprovalGraph::new();
    let early = graph.create_approval(1, "e");
    let late = graph.create_approval(1, "e");
    assert_eq!(graph.add_prerequisites(early, vec![late]), Ok(()));
    assert_eq!(graph.get(early).prerequisites(), &vec![late]);
}

#[test]
fn prerequisites_keep_their_order_over_several_additions() {
    let mut graph = ApprovalGraph::new();
    let a = graph.create_approval(1, "e");
    let b = graph.create_approval(1, "e");
    let c = graph.create_approval(1, "e");
    let top = graph.create_approval(1, "e");
    assert_eq!(graph.add_prerequisites(top, vec![c, a]), Ok(()));
    assert_eq!(graph.add_prerequisites(top, vec![b]), Ok(()));
    assert_eq!(graph.get(top).prerequisites(), &vec![c, a, b]);
}

#[test]
fn same_prerequisite_may_be_named_twice() {
    let mut graph = ApprovalGraph::new();
    let a = graph.create_approval(1, "e");
    let top = graph.create_approval(1, "e");
    assert_eq!(graph.add_prerequisites(top, vec![a, a]), Ok(()));
    assert_eq!(graph.add_prerequisites(top, vec![a]), Ok(()));
    assert_eq!(graph.get(top).prerequisites(), &vec![a, a, a]);
    assert!(graph.approve(top, String::from("x"), 1).is_err());
    assert!(graph.approve(a, String::from("x"), 1).is_ok());
    assert!(graph.approve(top, String::from("x"), 1).is_ok());
}

#[test]
fn no_prerequisites_is_no_change() {
    let mut graph = ApprovalGraph::new();
    let a = graph.create_approval(1, "e");
    let before = graph.clone();
    assert_eq!(graph.add_prerequisites(a, Vec::new()), Ok(()));
    assert_eq!(graph, before);
}

#[test]
fn adding_prerequisites_neither_grants_nor_revokes() {
    let mut graph = ApprovalGraph::new();
    let a = graph.create_approval(1, "e");
    let b = graph.create_approval(1, "e");
    let c = graph.create_approval(1, "e");
    assert!(graph.approve(a, String::from("x"), 1).is_ok());
    assert_eq!(graph.add_prerequisites(a, vec![b]), Ok(()));
    assert_eq!(graph.add_prerequisites(c, vec![a]), Ok(()));
    assert!(graph.is_approved(a));
    assert_eq!(graph.get(a).approver_id(), Some(&String::from("x")));
    assert!(!graph.is_approved(b));
    assert!(!graph.is_approved(c));
}

#[test]
fn cycle_through_a_branch_is_found() {
    let mut graph = ApprovalGraph::new();
    let mut nodes = Vec::new();
    for _ in 0..6 {
        nodes.push(graph.create_approval(1, "e"));
    }
    // 0 -> 1, 0 -> 2, 2 -> 3, 3 -> 4, 1 -> 5
    assert_eq!(graph.add_prerequisites(nodes[0], vec![nodes[1], nodes[2]]), Ok(()));
    assert_eq!(graph.add_prerequisites(nodes[2], vec![nodes[3]]), Ok(()));
    assert_eq!(graph.add_prerequisites(nodes[3], vec![nodes[4]]), Ok(()));
    assert_eq!(graph.add_prerequisites(nodes[1], vec![nodes[5]]), Ok(()));
    assert_eq!(
        graph.add_prerequisites(nodes[4], vec![nodes[5], nodes[0]]),
        Err(CycleError::CycleDetected)
    );
    assert_eq!(graph.add_prerequisites(nodes[4], vec![nodes[5], nodes[1]]), Ok(()));
    assert_eq!(
        graph.add_prerequisites(nodes[5], vec![nodes[2]]),
        Err(CycleError::CycleDetected)
    );
    assert_eq!(
        graph.add_prerequisites(nodes[1], vec![nodes[0]]),
        Err(CycleError::CycleDetected)
    );
}

#[test]
fn rejected_addition_does_not_block_later_approval() {
    let mut graph = ApprovalGraph::new();
    let a = graph.create_approval(1, "e");
    let b = graph.create_approval(1, "e");
    assert_eq!(graph.add_prerequisites(b, vec![a]), Ok(()));
    assert_eq!(graph.add_prerequisites(a, vec![b]), Err(CycleError::CycleDetected));
    assert!(graph.approve(a, String::from("x"), 1).is_ok());
    assert!(graph.approve(b, String::from("x"), 1).is_ok());
}

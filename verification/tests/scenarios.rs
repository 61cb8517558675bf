use approval_graph::error::ApprovalError;
use approval_graph::graph::ApprovalGraph;
use approval_graph::node::ApprovalRef;

fn two_levels() -> (ApprovalGraph, ApprovalRef, ApprovalRef) {
    let mut graph = ApprovalGraph::new();
    let l1 = graph.create_approval(1, "entity1");
    let l2 = graph.create_approval(2, "entity1");
    assert_eq!(graph.add_prerequisites(l2, vec![l1]), Ok(()));
    (graph, l1, l2)
}

#[test]
fn level_two_waits_for_level_one() {
    let (mut graph, l1, l2) = two_levels();
    let l1_id = graph.get(l1).id();
    let outcome = graph.approve(l2, String::from("alice"), 2);
    assert_eq!(
        outcome,
        Err(ApprovalError::UnsatisfiedPrerequisite { prerequisite: l1_id })
    );
    assert!(!graph.is_approved(l2));
    assert_eq!(graph.get(l2).approver_id(), None);
}

#[test]
fn level_two_follows_level_one() {
    let (mut graph, l1, l2) = two_levels();
    let l1_id = graph.get(l1).id();
    let l2_id = graph.get(l2).id();
    assert_eq!(graph.approve(l1, String::from("bob"), 1), Ok(l1_id));
    assert!(graph.is_approved(l1));
    assert_eq!(graph.approve(l2, String::from("alice"), 2), Ok(l2_id));
    assert!(graph.is_approved(l2));
    assert_eq!(graph.get(l2).approver_id(), Some(&String::from("alice")));
    assert_eq!(graph.get(l1).approver_id(), Some(&String::from("bob")));
}

#[test]
fn level_one_approver_cannot_grant_level_two() {
    let (mut graph, l1, l2) = two_levels();
    assert_eq!(
        graph.approve(l2, String::from("alice"), 1),
        Err(ApprovalError::InsufficientLevel)
    );
    let l1_id = graph.get(l1).id();
    assert_eq!(graph.approve(l1, String::from("bob"), 1), Ok(l1_id));
    assert_eq!(
        graph.approve(l2, String::from("alice"), 1),
        Err(ApprovalError::InsufficientLevel)
    );
    assert!(!graph.is_approved(l2));
}

#[test]
fn of_two_requests_on_one_approval_one_is_granted() {
    let mut graph = ApprovalGraph::new();
    let node = graph.create_approval(3, "entity1");
    let id = graph.get(node).id();
    let first = graph.approve(node, String::from("alice"), 3);
    let second = graph.approve(node, String::from("bob"), 5);
    assert_eq!(first, Ok(id));
    assert_eq!(second, Err(ApprovalError::AlreadyApproved));
    assert!(graph.is_approved(node));
    assert_eq!(graph.get(node).approver_id(), Some(&String::from("alice")));
}

#[test]
fn level_two_requested_first_is_refused() {
    let entity_id = String::from("entity1");
    let mut graph = ApprovalGraph::new();
    let level_1_approval = graph.create_approval(1, &entity_id);
    let level_2_approval = graph.create_approval(2, &entity_id);
    assert_eq!(
        graph.add_prerequisites(level_2_approval, vec![level_1_approval]),
        Ok(())
    );
    let success2 = graph.approve(level_2_approval, String::from("approver_level_2"), 2);
    assert!(success2.is_err());
    assert!(!graph.is_approved(level_1_approval));
    assert!(!graph.is_approved(level_2_approval));
}

use approval_graph::graph::ApprovalGraph;
use approval_graph::ident::ApprovalId;
use approval_graph::node::{Approval, ApprovalRef};
use uuid::{Uuid, Variant};

#[test]
fn new_approval_is_not_granted_and_waits_for_nothing() {
    let node = Approval::new(3, "entity1");
    assert_eq!(node.level(), 3);
    assert_eq!(node.entity_id(), "entity1");
    assert!(!node.is_approved());
    assert_eq!(node.approver_id(), None);
    assert!(node.prerequisites().is_empty());
}

#[test]
fn approval_keeps_the_identifier_it_is_given() {
    let id = ApprovalId { value: 0xa1a2a3a4b1b2c1c2d1d2d3d4d5d6d7d8 };
    let node = Approval::with_id(id, 200, "invoice-17");
    assert_eq!(node.id(), id);
    assert_eq!(node.level(), 200);
    assert_eq!(node.entity_id(), "invoice-17");
    assert!(!node.is_approved());
    assert_eq!(node.approver_id(), None);
    assert!(node.prerequisites().is_empty());
}

#[test]
fn fresh_identifier_is_a_random_uuid() {
    for _ in 0..64 {
        let id = ApprovalId::random();
        let uuid = Uuid::from_u128(id.value);
        assert_eq!(uuid.get_version_num(), 4);
        assert_eq!(uuid.get_variant(), Variant::RFC4122);
        assert_eq!(
            id.value & 0x0000_0000_0000_f000_c000_0000_0000_0000,
            0x0000_0000_0000_4000_8000_0000_0000_0000
        );
    }
}

#[test]
fn fresh_identifiers_differ() {
    let mut seen = Vec::new();
    for _ in 0..100 {
        let id = ApprovalId::random();
        assert!(!seen.contains(&id));
        seen.push(id);
    }
}

#[test]
fn created_approvals_get_random_uuids_that_differ() {
    let mut graph = ApprovalGraph::new();
    let a = graph.create_approval(1, "entity1");
    let b = graph.create_approval(2, "entity1");
    let id_a = graph.get(a).id();
    let id_b = graph.get(b).id();
    assert_ne!(id_a, id_b);
    assert_eq!(Uuid::from_u128(id_a.value).get_version_num(), 4);
    assert_eq!(Uuid::from_u128(id_b.value).get_version_num(), 4);
    assert_eq!(Approval::new(1, "e").id().value >> 76 & 0xf, 4);
}

#[test]
fn new_graph_is_empty() {
    let graph = ApprovalGraph::new();
    assert_eq!(graph.len(), 0);
    assert!(!graph.contains(ApprovalRef { index: 0 }));
}

#[test]
fn handles_count_up_from_zero() {
    let mut graph = ApprovalGraph::new();
    let a = graph.create_approval(1, "x");
    let b = graph.create_approval_with_id(ApprovalId { value: 7 }, 2, "y");
    let c = graph.create_approval(3, "z");
    assert_eq!(a, ApprovalRef { index: 0 });
    assert_eq!(b, ApprovalRef { index: 1 });
    assert_eq!(c, ApprovalRef { index: 2 });
    assert_eq!(graph.len(), 3);
    assert!(graph.contains(a) && graph.contains(b) && graph.contains(c));
    assert!(!graph.contains(ApprovalRef { index: 3 }));
    assert!(!graph.contains(ApprovalRef { index: usize::MAX }));
}

#[test]
fn created_approval_holds_what_it_was_created_with() {
    let mut graph = ApprovalGraph::new();
    let first = graph.create_approval(1, "entity1");
    let before = graph.get(first).clone();
    let node = graph.create_approval_with_id(ApprovalId { value: 42 }, 7, "entity2");
    let held = graph.get(node);
    assert_eq!(held.id(), ApprovalId { value: 42 });
    assert_eq!(held.level(), 7);
    assert_eq!(held.entity_id(), "entity2");
    assert!(!held.is_approved());
    assert!(!graph.is_approved(node));
    assert_eq!(held.approver_id(), None);
    assert!(held.prerequisites().is_empty());
    assert_eq!(held, &Approval::with_id(ApprovalId { value: 42 }, 7, "entity2"));
    assert_eq!(graph.get(first), &before);
}

#[test]
fn is_approved_follows_the_grant() {
    let mut graph = ApprovalGraph::new();
    let a = graph.create_approval(1, "e");
    let b = graph.create_approval(1, "e");
    assert!(!graph.is_approved(a));
    assert!(graph.approve(a, String::from("x"), 1).is_ok());
    assert!(graph.is_approved(a));
    assert!(graph.get(a).is_approved());
    assert!(!graph.is_approved(b));
}

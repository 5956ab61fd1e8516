use membership::failure_detector::{FailureDetector, InternalFailureDetector};
use membership::graph::{Action, Error as GraphError, Event, NodeId};
use membership::hash::compute_hash;
use membership::node_membership::{Error, Message};
use membership::NodeMembership;

fn genesis_message(creator: u64, members: &[u64]) -> Message {
    Message::Event(Event::new(
        NodeId(creator),
        None,
        None,
        Action::Init(members.iter().map(|m| NodeId(*m)).collect()),
    ))
}

fn event_of(m: &Message) -> &Event {
    match m {
        Message::Event(e) => e,
    }
}

#[test]
fn fresh_node_has_no_group() {
    let node = NodeMembership::new(NodeId(1));
    assert!(node.group().is_empty());
    assert_eq!(node.graph().len(), 0);
}

#[test]
fn genesis_projection() {
    let mut node = NodeMembership::new(NodeId(1));
    let out = node.handle_message(&genesis_message(2, &[10, 20, 30])).unwrap();
    assert!(out.is_empty());
    assert_eq!(node.group(), vec![NodeId(10), NodeId(20), NodeId(30)]);
}

#[test]
fn first_genesis_decides_the_group() {
    let mut node = NodeMembership::new(NodeId(1));
    node.handle_message(&genesis_message(2, &[1, 2])).unwrap();
    node.handle_message(&genesis_message(3, &[3])).unwrap();
    assert_eq!(node.group(), vec![NodeId(1), NodeId(2)]);
}

#[test]
fn poll_without_failures_is_idempotent() {
    let mut node = NodeMembership::new(NodeId(1));
    node.handle_message(&genesis_message(2, &[1, 2])).unwrap();
    assert!(node.poll().unwrap().is_empty());
    assert_eq!(node.graph().len(), 1);
    assert!(node.poll().unwrap().is_empty());
    assert_eq!(node.graph().len(), 1);
}

#[test]
fn poll_emits_one_removal_per_failure() {
    let mut detector = InternalFailureDetector::new();
    detector.report_failure(NodeId(5));
    detector.report_failure(NodeId(6));
    let mut node = NodeMembership::with_failure_detector(NodeId(1), detector);
    let g = genesis_message(2, &[1, 2, 5, 6]);
    let hg = event_of(&g).hash().unwrap();
    node.handle_message(&g).unwrap();

    let out = node.poll().unwrap();
    assert_eq!(out.len(), 2);
    assert_eq!(node.graph().len(), 3);
    let first = event_of(&out[0]);
    let second = event_of(&out[1]);
    assert_eq!(*first.creator_id(), NodeId(1));
    assert!(first.self_parent().is_none());
    assert_eq!(first.other_parent(), Some(&hg));
    assert!(matches!(first.action(), Action::Remove(NodeId(5))));
    assert_eq!(second.self_parent(), Some(&first.hash().unwrap()));
    assert_eq!(second.other_parent(), Some(&hg));
    assert!(matches!(second.action(), Action::Remove(NodeId(6))));
    assert!(node.graph().contains(&second.hash().unwrap()));

    // The queue was drained.
    assert!(node.poll().unwrap().is_empty());
    assert_eq!(node.graph().len(), 3);
    // Proposals do not change the group until agreed.
    assert_eq!(node.group(), vec![NodeId(1), NodeId(2), NodeId(5), NodeId(6)]);
}

#[test]
fn failure_detector_drains_its_queue() {
    let mut detector = InternalFailureDetector::new();
    assert!(detector.poll_failures().is_ok());
    assert!(detector.dequeue_failures().is_empty());
    detector.report_failure(NodeId(4));
    assert!(detector.poll_failures().is_ok());
    assert_eq!(detector.dequeue_failures(), vec![NodeId(4)]);
    assert!(detector.dequeue_failures().is_empty());
}

#[test]
fn redelivery_is_not_an_error() {
    let mut node = NodeMembership::new(NodeId(1));
    let g = genesis_message(2, &[1, 2]);
    node.handle_message(&g).unwrap();
    assert!(node.handle_message(&g).unwrap().is_empty());
    assert_eq!(node.graph().len(), 1);
}

#[test]
fn dangling_message_is_rejected() {
    let mut node = NodeMembership::new(NodeId(1));
    node.handle_message(&genesis_message(2, &[1, 2])).unwrap();
    let forged = Message::Event(Event::new(
        NodeId(2),
        None,
        Some(compute_hash(b"unknown")),
        Action::Add(NodeId(3)),
    ));
    let before = node.graph().len();
    let r = node.handle_message(&forged);
    assert!(matches!(r, Err(Error::Graph(GraphError::DanglingParent))));
    assert_eq!(node.graph().len(), before);
}

#[test]
fn non_canonical_message_is_rejected() {
    let mut node = NodeMembership::new(NodeId(1));
    let r = node.handle_message(&genesis_message(2, &[3, 1]));
    assert!(matches!(r, Err(Error::Graph(GraphError::Hash(_)))));
    assert_eq!(node.graph().len(), 0);
}

#[test]
fn received_event_becomes_the_other_parent() {
    let mut detector = InternalFailureDetector::new();
    detector.report_failure(NodeId(2));
    let mut node = NodeMembership::with_failure_detector(NodeId(1), detector);
    let g = genesis_message(1, &[1, 2]);
    node.handle_message(&g).unwrap();
    let out = node.poll().unwrap();
    // The node's own genesis is not a received event.
    assert!(event_of(&out[0]).other_parent().is_none());
}

#[test]
fn message_round_trip_to_a_fresh_node() {
    let mut detector = InternalFailureDetector::new();
    detector.report_failure(NodeId(3));
    let mut sender = NodeMembership::with_failure_detector(NodeId(1), detector);
    let out = sender.poll().unwrap();
    assert_eq!(out.len(), 1);
    let sent_hash = out[0].event().hash().unwrap();

    let bytes = out[0].to_bytes().unwrap();
    let received = Message::from_bytes(&bytes).unwrap();
    let mut receiver = NodeMembership::new(NodeId(2));
    receiver.handle_message(&received).unwrap();
    assert_eq!(receiver.graph().len(), 1);
    assert!(receiver.graph().contains(&sent_hash));
    assert_eq!(received.event().hash().unwrap(), sent_hash);
}

#[test]
fn message_bytes_follow_bincode_layout() {
    let parent = compute_hash(b"p");
    let m = Message::Event(Event::new(NodeId(4), Some(parent), Some(parent), Action::Add(NodeId(8))));
    let expected =
        bincode::serialize(&(0u32, 4u64, Some(parent.0), Some(parent.0), 1u32, 8u64)).unwrap();
    assert_eq!(m.to_bytes().unwrap(), expected);
    let back = Message::from_bytes(&expected).unwrap();
    assert_eq!(back.to_bytes().unwrap(), expected);
    let g = genesis_message(1, &[5, 6]);
    let bytes = g.to_bytes().unwrap();
    assert!(matches!(
        Message::from_bytes(&bytes).unwrap().event().action(),
        Action::Init(ids) if ids == &vec![NodeId(5), NodeId(6)]
    ));
}

#[test]
fn malformed_bytes_are_not_a_message() {
    assert!(Message::from_bytes(&[]).is_none());
    let good = genesis_message(1, &[5, 6]).to_bytes().unwrap();
    // Truncated.
    assert!(Message::from_bytes(&good[..good.len() - 1]).is_none());
    // Trailing byte.
    let mut longer = good.clone();
    longer.push(0);
    assert!(Message::from_bytes(&longer).is_none());
    // Unknown message tag.
    let mut tagged = good.clone();
    tagged[0] = 1;
    assert!(Message::from_bytes(&tagged).is_none());
    // Unknown option tag for the self-parent.
    let mut opt = good;
    opt[12] = 2;
    assert!(Message::from_bytes(&opt).is_none());
}

#[test]
fn non_canonical_message_has_no_bytes() {
    assert!(genesis_message(1, &[2, 2]).to_bytes().is_err());
}

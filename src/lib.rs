//! Distributed node group membership.
//!
//! Each node keeps a gossip graph: a content-addressed, hash-linked causal history of events.
//! `NodeMembership` is the replicated state machine in front of it:
//!
//! - `NodeMembership::poll` asks the failure detector for new failures and returns the gossip
//!   messages to send to remote nodes.
//! - `NodeMembership::handle_message` takes in a message received from a remote node.
//! - `NodeMembership::group` returns the currently agreed group members.
pub mod codec;
pub mod failure_detector;
pub mod graph;
pub mod hash;
pub mod node_membership;

pub use node_membership::NodeMembership;

//! Failure detection: the interface that the membership state machine consumes, and a local
//! failure detector that holds a queue of reported failures.
use vstd::prelude::*;

use crate::graph::NodeId;

verus! {

/// A failure detector error.
#[derive(Clone, Copy, Debug, PartialEq, Eq, Structural)]
pub enum Error {
    /// A polling error.
    Poll,
}

/// An interface to a node failure detector.
pub trait FailureDetector {
    /// The node failures found and not yet taken, oldest first.
    spec fn queued(&self) -> Seq<NodeId>;

    /// The detector finds no failures on its own: a polling pass succeeds and adds nothing to
    /// the queue.
    spec fn passive(&self) -> bool;

    /// Finds any new failures and appends those to the failure queue.
    fn poll_failures(&mut self) -> (r: Result<(), Error>)
        ensures
            old(self).queued().is_prefix_of(final(self).queued()),
            final(self).passive() == old(self).passive(),
            old(self).passive() ==> r is Ok && final(self).queued() == old(self).queued(),
    ;

    /// Takes any unhandled node failures for processing and removes those from the queue of
    /// unhandled failures.
    fn dequeue_failures(&mut self) -> (r: Vec<NodeId>)
        ensures
            r@ == old(self).queued(),
            final(self).queued() == Seq::<NodeId>::empty(),
            final(self).passive() == old(self).passive(),
    ;
}

/// The internal node failure detector. It uses only the knowledge of the local node: failures
/// are reported to it, and a polling pass finds nothing beyond them.
pub struct InternalFailureDetector {
    /// The queue of unhandled node failures.
    failures: Vec<NodeId>,
}

impl FailureDetector for InternalFailureDetector {
    closed spec fn queued(&self) -> Seq<NodeId> {
        self.failures@
    }

    closed spec fn passive(&self) -> bool {
        true
    }

    fn poll_failures(&mut self) -> (r: Result<(), Error>) {
        Ok(())
    }

    fn dequeue_failures(&mut self) -> (r: Vec<NodeId>) {
        let mut taken: Vec<NodeId> = Vec::new();
        std::mem::swap(&mut taken, &mut self.failures);
        taken
    }
}

impl InternalFailureDetector {
    /// Creates a new failure detector with no unhandled failures.
    pub fn new() -> (r: Self)
        ensures
            r.queued() == Seq::<NodeId>::empty(),
            r.passive(),
    {
        InternalFailureDetector { failures: Vec::new() }
    }

    /// Records that a node is believed to have failed.
    pub fn report_failure(&mut self, id: NodeId)
        ensures
            final(self).queued() == old(self).queued().push(id),
            final(self).passive(),
    {
        self.failures.push(id);
    }
}

} // verus!

//! `NodeMembership` is a replicated node membership state machine with an interface to an
//! external networking layer:
//!
//! - `NodeMembership::poll` queries the failure detector for any new failures, and outputs gossip
//!   messages for the networking layer to send to remote nodes.
//! - `NodeMembership::handle_message` handles a message received by the networking layer from a
//!   remote node.
//!
//! Each new failure becomes a local `Remove` event whose self-parent is the previous local event
//! and whose other-parent is the latest event received from another node. A received event whose
//! parents are not in the graph is rejected, and the graph is left as it was.
//!
//! The agreed group is the founding set of the first `Init` event in the graph. `Add` and
//! `Remove` proposals are kept in the graph and gossiped, but no agreement rule settles them
//! yet, so they do not change the group.
use vstd::prelude::*;

use crate::codec::{
    canonical, decode_message, encode_message, event_hash, lemma_message_round_trip, small_lists,
};
use crate::failure_detector::{Error as FailureDetectorError, FailureDetector, InternalFailureDetector};
use crate::graph::{
    insert_outcome, valid_events, Action, ActionView, Error as GraphError, Event, EventView, Graph,
    NodeId,
};

verus! {

/// A node membership error.
#[derive(Clone, Copy, Debug, PartialEq, Eq, Structural)]
pub enum Error {
    /// A failure detector error.
    FailureDetector(FailureDetectorError),
    /// A gossip graph error.
    Graph(GraphError),
}

/// A gossip message.
#[derive(Clone, Debug)]
pub enum Message {
    Event(Event),
}

impl View for Message {
    type V = EventView;

    open spec fn view(&self) -> EventView {
        match self {
            Message::Event(e) => e@,
        }
    }
}

/// The state of a node: its graph, the hash of its latest own event and the hash of the latest
/// event it received from another node.
pub struct MembershipState {
    pub graph: Seq<EventView>,
    pub last_own: Option<Seq<u8>>,
    pub last_other: Option<Seq<u8>>,
}

/// A node state is consistent: its graph is valid, and the events it remembers are in it.
pub open spec fn valid_state(st: MembershipState) -> bool {
    &&& valid_events(st.graph)
    &&& (st.last_own matches Some(h) ==> h.len() == 32 && crate::graph::has_hash(
        st.graph,
        h,
        st.graph.len() as int,
    ))
    &&& (st.last_other matches Some(h) ==> h.len() == 32 && crate::graph::has_hash(
        st.graph,
        h,
        st.graph.len() as int,
    ))
}

/// The local event that reports the failure of `f`.
pub open spec fn removal_event(our_id: NodeId, st: MembershipState, f: NodeId) -> EventView {
    EventView {
        creator_id: our_id,
        self_parent: st.last_own,
        other_parent: st.last_other,
        action: ActionView::Remove(f),
    }
}

/// Puts `e` in front of the events of a successful outcome.
pub open spec fn prepend(e: EventView, res: Result<Seq<EventView>, GraphError>) -> Result<
    Seq<EventView>,
    GraphError,
> {
    match res {
        Ok(es) => Ok(seq![e] + es),
        Err(err) => Err(err),
    }
}

/// Puts `es` in front of the events of a successful outcome.
pub open spec fn prepend_all(es: Seq<EventView>, res: Result<Seq<EventView>, GraphError>) -> Result<
    Seq<EventView>,
    GraphError,
> {
    match res {
        Ok(rest) => Ok(es + rest),
        Err(err) => Err(err),
    }
}

/// What creating and inserting one local event per failure in `fs`, in order, yields: the new
/// state, and the events created or the first insertion error.
pub open spec fn removals_outcome(our_id: NodeId, st: MembershipState, fs: Seq<NodeId>) -> (
    MembershipState,
    Result<Seq<EventView>, GraphError>,
)
    decreases fs.len(),
{
    if fs.len() == 0 {
        (st, Ok(Seq::empty()))
    } else {
        let e = removal_event(our_id, st, fs[0]);
        let (g2, res) = insert_outcome(st.graph, e);
        match res {
            Err(err) => (st, Err(err)),
            Ok(_) => {
                let st2 = MembershipState {
                    graph: g2,
                    last_own: Some(event_hash(e)),
                    last_other: st.last_other,
                };
                let (st3, rest) = removals_outcome(our_id, st2, fs.drop_first());
                (st3, prepend(e, rest))
            },
        }
    }
}

/// What receiving the event `e` yields: the new state, or an insertion error with the state
/// unchanged.
pub open spec fn receive_outcome(our_id: NodeId, st: MembershipState, e: EventView) -> (
    MembershipState,
    Result<(), GraphError>,
) {
    let (g2, res) = insert_outcome(st.graph, e);
    match res {
        Err(err) => (st, Err(err)),
        Ok(_) => (
            MembershipState {
                graph: g2,
                last_own: st.last_own,
                last_other: if e.creator_id != our_id {
                    Some(event_hash(e))
                } else {
                    st.last_other
                },
            },
            Ok(()),
        ),
    }
}

/// The members of the first `Init` event of `g`, or none if there is no such event.
pub open spec fn genesis_members(g: Seq<EventView>) -> Seq<NodeId>
    decreases g.len(),
{
    if g.len() == 0 {
        Seq::empty()
    } else if let ActionView::Init(ids) = g[0].action {
        ids
    } else {
        genesis_members(g.drop_first())
    }
}

/// The values of a list of messages.
pub open spec fn messages_view(ms: Seq<Message>) -> Seq<EventView> {
    ms.map_values(|m: Message| m@)
}

/// The state of node group membership.
pub struct NodeMembership<D: FailureDetector> {
    /// The ID of this node.
    our_id: NodeId,
    /// The gossip graph local to this node.
    graph: Graph,
    /// The failure detector subsystem.
    failure_detector: D,
    /// The hash of the latest event created by this node.
    last_own: Option<crate::hash::Hash>,
    /// The hash of the latest event received from another node.
    last_other: Option<crate::hash::Hash>,
}

impl NodeMembership<InternalFailureDetector> {
    /// Constructs a new state of group membership for the node `our_id`, with the internal
    /// failure detector.
    pub fn new(our_id: NodeId) -> (r: Self)
        ensures
            r.wf(),
            r.our_id() == our_id,
            r.state() == (MembershipState {
                graph: Seq::empty(),
                last_own: None,
                last_other: None,
            }),
            r.detector().queued() == Seq::<NodeId>::empty(),
            r.detector().passive(),
    {
        Self::with_failure_detector(our_id, InternalFailureDetector::new())
    }
}

impl<D: FailureDetector> NodeMembership<D> {
    /// The ID of this node.
    pub closed spec fn our_id(&self) -> NodeId {
        self.our_id
    }

    /// The failure detector.
    pub closed spec fn detector(&self) -> D {
        self.failure_detector
    }

    /// The state of this node.
    pub closed spec fn state(&self) -> MembershipState {
        MembershipState {
            graph: self.graph@,
            last_own: crate::graph::opt_hash_view(self.last_own),
            last_other: crate::graph::opt_hash_view(self.last_other),
        }
    }

    /// The state is consistent.
    pub closed spec fn wf(&self) -> bool {
        &&& self.graph.wf()
        &&& valid_state(self.state())
    }

    /// Constructs a new state of group membership for the node `our_id`, with the given failure
    /// detector.
    pub fn with_failure_detector(our_id: NodeId, failure_detector: D) -> (r: Self)
        ensures
            r.wf(),
            r.our_id() == our_id,
            r.state() == (MembershipState {
                graph: Seq::empty(),
                last_own: None,
                last_other: None,
            }),
            r.detector() == failure_detector,
    {
        let graph = Graph::new();
        proof {
            graph.lemma_valid();
        }
        NodeMembership { our_id, graph, failure_detector, last_own: None, last_other: None }
    }

    /// The gossip graph local to this node.
    pub fn graph(&self) -> (r: &Graph)
        requires
            self.wf(),
        ensures
            r.wf(),
            r@ == self.state().graph,
    {
        &self.graph
    }

    /// Creates, inserts and returns as messages one local `Remove` event per node of
    /// `failures`, in order. Each new event has the previous local event as its self-parent
    /// and the latest event received from another node as its other-parent.
    pub fn emit_removals(&mut self, failures: &Vec<NodeId>) -> (r: Result<Vec<Message>, Error>)
        requires
            old(self).wf(),
        ensures
            final(self).wf(),
            final(self).our_id() == old(self).our_id(),
            final(self).detector() == old(self).detector(),
            final(self).state() == removals_outcome(
                old(self).our_id(),
                old(self).state(),
                failures@,
            ).0,
            r is Ok <==> removals_outcome(old(self).our_id(), old(self).state(), failures@).1 is Ok,
            r matches Ok(ms) ==> removals_outcome(
                old(self).our_id(),
                old(self).state(),
                failures@,
            ).1 == Ok::<Seq<EventView>, GraphError>(messages_view(ms@)),
            r matches Err(e) ==> removals_outcome(
                old(self).our_id(),
                old(self).state(),
                failures@,
            ).1 matches Err(ge) && e == Error::Graph(ge),
    {
        let ghost st0 = self.state();
        let ghost fs = failures@;
        let ghost our = self.our_id;
        let mut msgs: Vec<Message> = Vec::new();
        let mut i: usize = 0;
        assert(fs.subrange(0, fs.len() as int) =~= fs);
        assert(messages_view(msgs@) =~= Seq::<EventView>::empty());
        while i < failures.len()
            invariant
                self.wf(),
                self.our_id == our,
                our == old(self).our_id(),
                st0 == old(self).state(),
                self.detector() == old(self).detector(),
                i <= failures.len(),
                fs == failures@,
                removals_outcome(our, st0, fs) == (
                    removals_outcome(our, self.state(), fs.subrange(i as int, fs.len() as int)).0,
                    prepend_all(
                        messages_view(msgs@),
                        removals_outcome(our, self.state(), fs.subrange(i as int, fs.len() as int)).1,
                    ),
                ),
            decreases failures.len() - i,
        {
            let ghost cur = self.state();
            let ghost sub = fs.subrange(i as int, fs.len() as int);
            assert(sub.drop_first() =~= fs.subrange(i + 1, fs.len() as int));
            let f = failures[i];
            let ev = Event::new(self.our_id, self.last_own, self.last_other, Action::Remove(f));
            let ghost e = ev@;
            assert(e == removal_event(our, cur, sub[0]));
            let msg_ev = ev.copy();
            match self.graph.insert_index(ev) {
                Ok(j) => {
                    let h = self.graph.hash_at(j);
                    self.last_own = Some(h);
                    let ghost before = msgs@;
                    msgs.push(Message::Event(msg_ev));
                    proof {
                        self.graph.lemma_valid();
                        self.lemma_remembered_kept(cur, e);
                        assert(messages_view(msgs@) =~= messages_view(before).push(e));
                        lemma_prepend_push(messages_view(before), e, removals_outcome(
                            our,
                            self.state(),
                            fs.subrange(i + 1, fs.len() as int),
                        ).1);
                    }
                },
                Err(e) => {
                    assert(sub.len() > 0);
                    assert(removals_outcome(our, cur, sub).0 == cur);
                    return Err(Error::Graph(e));
                },
            }
            i = i + 1;
        }
        proof {
            assert(messages_view(msgs@) + Seq::<EventView>::empty() =~= messages_view(msgs@));
        }
        Ok(msgs)
    }

    /// After an event is inserted, the state remembers only events of the graph.
    proof fn lemma_remembered_kept(&self, cur: MembershipState, e: EventView)
        requires
            self.graph.wf(),
            valid_state(cur),
            insert_outcome(cur.graph, e).1 is Ok,
            self.state().graph == insert_outcome(cur.graph, e).0,
            self.state().last_other == cur.last_other || self.state().last_other == Some(
                event_hash(e),
            ),
            self.state().last_own == cur.last_own || self.state().last_own == Some(event_hash(e)),
            self.state().last_own matches Some(h) ==> h.len() == 32,
            self.state().last_other matches Some(h) ==> h.len() == 32,
        ensures
            self.wf(),
    {
        let g = cur.graph;
        let g2 = self.graph@;
        self.graph.lemma_valid();
        let k = insert_outcome(g, e).1->Ok_0;
        assert(0 <= k < g2.len() && g2[k] == e) by {
            if canonical(e) && crate::graph::has_hash(g, event_hash(e), g.len() as int) {
            } else {
                assert(g2 == g.push(e));
            }
        }
        assert(crate::graph::has_hash(g2, event_hash(e), g2.len() as int)) by {
            assert(event_hash(g2[k]) == event_hash(e));
        }
        assert forall|h: Seq<u8>| crate::graph::has_hash(g, h, g.len() as int) implies crate::graph::has_hash(
            g2,
            h,
            g2.len() as int,
        ) by {
            let w = choose|w: int| 0 <= w < g.len() && w < g.len() && #[trigger] event_hash(g[w]) == h;
            assert(g2.len() >= g.len());
            assert(g2[w] == g[w]);
            assert(event_hash(g2[w]) == h);
        }
    }

    /// Polls the failure detector for any new failures and outputs messages for the networking
    /// layer to send to remote nodes: one local `Remove` event for each failure.
    pub fn poll(&mut self) -> (r: Result<Vec<Message>, Error>)
        requires
            old(self).wf(),
        ensures
            final(self).wf(),
            final(self).our_id() == old(self).our_id(),
            final(self).detector().passive() == old(self).detector().passive(),
            r matches Err(Error::FailureDetector(_)) ==> final(self).state() == old(self).state(),
            !(r matches Err(Error::FailureDetector(_))) ==> final(self).detector().queued()
                == Seq::<NodeId>::empty() && exists|fs: Seq<NodeId>|
                old(self).detector().queued().is_prefix_of(fs) && #[trigger] removals_outcome(
                    old(self).our_id(),
                    old(self).state(),
                    fs,
                ).0 == final(self).state() && (r matches Ok(ms) ==> removals_outcome(
                    old(self).our_id(),
                    old(self).state(),
                    fs,
                ).1 == Ok::<Seq<EventView>, GraphError>(messages_view(ms@))) && (r matches Err(
                    e,
                ) ==> removals_outcome(old(self).our_id(), old(self).state(), fs).1 matches Err(ge)
                    && e == Error::Graph(ge)),
            old(self).detector().passive() ==> ({
                let (st, res) = removals_outcome(
                    old(self).our_id(),
                    old(self).state(),
                    old(self).detector().queued(),
                );
                &&& final(self).state() == st
                &&& r is Ok <==> res is Ok
                &&& r matches Ok(ms) ==> res == Ok::<Seq<EventView>, GraphError>(messages_view(ms@))
                &&& r matches Err(e) ==> res matches Err(ge) && e == Error::Graph(ge)
            }),
    {
        match self.failure_detector.poll_failures() {
            Ok(()) => {},
            Err(e) => {
                return Err(Error::FailureDetector(e));
            },
        }
        let failures = self.failure_detector.dequeue_failures();
        self.emit_removals(&failures)
    }

    /// Handles an incoming message from the networking layer: inserts the event it carries. An
    /// event already in the graph is accepted again without change; an event whose parents are
    /// not in the graph is rejected.
    pub fn handle_message(&mut self, msg: &Message) -> (r: Result<Vec<Message>, Error>)
        requires
            old(self).wf(),
        ensures
            final(self).wf(),
            final(self).our_id() == old(self).our_id(),
            final(self).detector() == old(self).detector(),
            final(self).state() == receive_outcome(old(self).our_id(), old(self).state(), msg@).0,
            r is Ok <==> receive_outcome(old(self).our_id(), old(self).state(), msg@).1 is Ok,
            r matches Ok(ms) ==> ms@.len() == 0,
            r matches Err(e) ==> receive_outcome(
                old(self).our_id(),
                old(self).state(),
                msg@,
            ).1 matches Err(ge) && e == Error::Graph(ge),
    {
        let ghost cur = self.state();
        match msg {
            Message::Event(event) => {
                let ev = event.copy();
                match self.graph.insert_index(ev) {
                    Ok(j) => {
                        if event.creator_id().0 != self.our_id.0 {
                            let h = self.graph.hash_at(j);
                            self.last_other = Some(h);
                        }
                        proof {
                            self.lemma_remembered_kept(cur, event@);
                        }
                        Ok(Vec::new())
                    },
                    Err(e) => Err(Error::Graph(e)),
                }
            },
        }
    }

    /// Returns the currently agreed group members: those of the first `Init` event.
    pub fn group(&self) -> (r: Vec<NodeId>)
        requires
            self.wf(),
        ensures
            r@ == genesis_members(self.state().graph),
    {
        let ghost g = self.graph@;
        let n = self.graph.len();
        let mut i: usize = 0;
        assert(g.subrange(0, n as int) =~= g);
        while i < n
            invariant
                self.graph.wf(),
                g == self.graph@,
                n == g.len(),
                i <= n,
                genesis_members(g) == genesis_members(g.subrange(i as int, n as int)),
            decreases n - i,
        {
            let er = self.graph.get_by_index(i).unwrap();
            assert(g.subrange(i as int, n as int).drop_first() =~= g.subrange(i + 1, n as int));
            if let Action::Init(ids) = er.action() {
                return crate::graph::copy_ids(ids);
            }
            i = i + 1;
        }
        Vec::new()
    }
}

/// Moving one created event from the outcome into the list already emitted changes nothing.
proof fn lemma_prepend_push(es: Seq<EventView>, e: EventView, rest: Result<Seq<EventView>, GraphError>)
    ensures
        prepend_all(es, prepend(e, rest)) == prepend_all(es.push(e), rest),
{
    if let Ok(r) = rest {
        assert(es + (seq![e] + r) =~= es.push(e) + r);
    }
}

/// A graph that holds only one `Init` event yields its members as the group.
pub proof fn lemma_genesis_group(e: EventView, ids: Seq<NodeId>)
    requires
        e.action == ActionView::Init(ids),
    ensures
        genesis_members(seq![e]) == ids,
{
}

/// With no new failures, polling creates no event and leaves the state unchanged, however
/// often it is repeated.
pub proof fn lemma_poll_no_failures(our_id: NodeId, st: MembershipState)
    ensures
        removals_outcome(our_id, st, Seq::empty()) == (st, Ok::<Seq<EventView>, GraphError>(
            Seq::empty(),
        )),
        removals_outcome(our_id, removals_outcome(our_id, st, Seq::empty()).0, Seq::empty()) == (
            st,
            Ok::<Seq<EventView>, GraphError>(Seq::empty()),
        ),
{
}

/// A received event, not yet known, that refers to a parent absent from the graph is
/// rejected with an error, and the node state is left unchanged.
pub proof fn lemma_dangling_message_rejected(our_id: NodeId, st: MembershipState, e: EventView)
    requires
        canonical(e),
        !crate::graph::has_hash(st.graph, event_hash(e), st.graph.len() as int),
        !crate::graph::parent_present(st.graph, e.self_parent, st.graph.len() as int)
            || !crate::graph::parent_present(st.graph, e.other_parent, st.graph.len() as int),
    ensures
        receive_outcome(our_id, st, e) == (st, Err::<(), GraphError>(GraphError::DanglingParent)),
{
}

/// A parentless event sent as bytes and read back by a node with an empty graph is stored
/// there under the hash it had at its sender.
pub proof fn lemma_round_trip_to_fresh_node(receiver: NodeId, e: EventView)
    requires
        canonical(e),
        small_lists(e),
        e.self_parent is None,
        e.other_parent is None,
    ensures
        decode_message(encode_message(e)) == Some(e),
        ({
            let fresh = MembershipState { graph: Seq::empty(), last_own: None, last_other: None };
            let (st, res) = receive_outcome(receiver, fresh, decode_message(encode_message(e))->Some_0);
            &&& res is Ok
            &&& crate::graph::has_hash(st.graph, event_hash(e), st.graph.len() as int)
        }),
{
    lemma_message_round_trip(e);
    let g = Seq::<EventView>::empty();
    assert(!crate::graph::has_hash(g, event_hash(e), 0));
    assert(insert_outcome(g, e).0 == g.push(e));
    assert(event_hash(g.push(e)[0]) == event_hash(e));
}

} // verus!

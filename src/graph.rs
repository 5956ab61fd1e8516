//! The gossip graph: a content-addressed, hash-linked causal history of events.
use vstd::prelude::*;

use std::collections::HashMap;

use crate::codec::{canonical, event_hash, le_u64_at};
use vstd::set_lib::{lemma_int_range, lemma_len_subset, set_int_range};
use crate::hash::Error as HashError;

verus! {

broadcast use vstd::std_specs::hash::group_hash_axioms;

/// A peer node's unique identifier.
#[derive(Clone, Copy, Debug, PartialEq, Eq, Structural, PartialOrd, Ord, Hash)]
pub struct NodeId(pub u64);

/// Group membership actions.
#[derive(Clone, Debug)]
pub enum Action {
    /// Register the initial group; the members are listed in strictly ascending order.
    Init(Vec<NodeId>),
    /// A proposal to add a node.
    Add(NodeId),
    /// A proposal to remove a node.
    Remove(NodeId),
}

/// The mathematical value of an `Action`.
pub enum ActionView {
    Init(Seq<NodeId>),
    Add(NodeId),
    Remove(NodeId),
}

impl View for Action {
    type V = ActionView;

    open spec fn view(&self) -> ActionView {
        match self {
            Action::Init(ids) => ActionView::Init(ids@),
            Action::Add(n) => ActionView::Add(*n),
            Action::Remove(n) => ActionView::Remove(*n),
        }
    }
}

/// The value of an optional hash: its bytes, if any.
pub open spec fn opt_hash_view(h: Option<crate::hash::Hash>) -> Option<Seq<u8>> {
    match h {
        Some(h) => Some(h@),
        None => None,
    }
}

/// A copy of a list of node identifiers.
pub fn copy_ids(ids: &Vec<NodeId>) -> (r: Vec<NodeId>)
    ensures
        r@ == ids@,
{
    let mut r: Vec<NodeId> = Vec::new();
    let mut i: usize = 0;
    while i < ids.len()
        invariant
            i <= ids.len(),
            r@ == ids@.subrange(0, i as int),
        decreases ids.len() - i,
    {
        r.push(ids[i]);
        i = i + 1;
    }
    assert(r@ =~= ids@);
    r
}

impl Action {
    /// A copy of this action.
    pub fn copy(&self) -> (r: Action)
        ensures
            r@ == self@,
    {
        match self {
            Action::Init(ids) => Action::Init(copy_ids(ids)),
            Action::Add(n) => Action::Add(*n),
            Action::Remove(n) => Action::Remove(*n),
        }
    }
}

/// A gossip event.
#[derive(Clone, Debug)]
pub struct Event {
    /// The ID of the creator of the event.
    creator_id: NodeId,
    /// The hash of the self-parent event.
    self_parent: Option<crate::hash::Hash>,
    /// The hash of the other-parent event.
    other_parent: Option<crate::hash::Hash>,
    /// The event action.
    action: Action,
}

/// The mathematical value of an `Event`.
pub struct EventView {
    pub creator_id: NodeId,
    pub self_parent: Option<Seq<u8>>,
    pub other_parent: Option<Seq<u8>>,
    pub action: ActionView,
}

impl View for Event {
    type V = EventView;

    closed spec fn view(&self) -> EventView {
        EventView {
            creator_id: self.creator_id,
            self_parent: opt_hash_view(self.self_parent),
            other_parent: opt_hash_view(self.other_parent),
            action: self.action@,
        }
    }
}

impl Event {
    /// Builds an event from its parts.
    pub fn new(
        creator_id: NodeId,
        self_parent: Option<crate::hash::Hash>,
        other_parent: Option<crate::hash::Hash>,
        action: Action,
    ) -> (r: Event)
        ensures
            r@ == (EventView {
                creator_id,
                self_parent: opt_hash_view(self_parent),
                other_parent: opt_hash_view(other_parent),
                action: action@,
            }),
    {
        Event { creator_id, self_parent, other_parent, action }
    }

    /// A copy of this event.
    pub fn copy(&self) -> (r: Event)
        ensures
            r@ == self@,
    {
        Event {
            creator_id: self.creator_id,
            self_parent: self.self_parent,
            other_parent: self.other_parent,
            action: self.action.copy(),
        }
    }

    /// The ID of the creator of the event.
    pub fn creator_id(&self) -> (r: &NodeId)
        ensures
            *r == self@.creator_id,
    {
        &self.creator_id
    }

    /// The hash of the self-parent of the event.
    pub fn self_parent(&self) -> (r: Option<&crate::hash::Hash>)
        ensures
            r is Some <==> self@.self_parent is Some,
            r is Some ==> Some(r->Some_0@) == self@.self_parent,
    {
        self.self_parent.as_ref()
    }

    /// The hash of the other-parent of the event.
    pub fn other_parent(&self) -> (r: Option<&crate::hash::Hash>)
        ensures
            r is Some <==> self@.other_parent is Some,
            r is Some ==> Some(r->Some_0@) == self@.other_parent,
    {
        self.other_parent.as_ref()
    }

    /// The event action.
    pub fn action(&self) -> (r: &Action)
        ensures
            r@ == self@.action,
    {
        &self.action
    }
}


impl Event {
    /// Whether two events are equal, field by field.
    pub fn same_as(&self, other: &Event) -> (r: bool)
        ensures
            r == (self@ == other@),
    {
        if self.creator_id != other.creator_id {
            return false;
        }
        if !same_opt_hash(&self.self_parent, &other.self_parent) {
            return false;
        }
        if !same_opt_hash(&self.other_parent, &other.other_parent) {
            return false;
        }
        self.action.same_as(&other.action)
    }
}

impl Action {
    /// Whether two actions are equal.
    pub fn same_as(&self, other: &Action) -> (r: bool)
        ensures
            r == (self@ == other@),
    {
        match self {
            Action::Init(a) => match other {
                Action::Init(b) => {
                    if a.len() != b.len() {
                        return false;
                    }
                    let mut i: usize = 0;
                    while i < a.len()
                        invariant
                            i <= a.len(),
                            a.len() == b.len(),
                            self@ == ActionView::Init(a@),
                            other@ == ActionView::Init(b@),
                            forall|k: int| 0 <= k < i ==> a@[k] == b@[k],
                        decreases a.len() - i,
                    {
                        if a[i].0 != b[i].0 {
                            assert(a@[i as int] != b@[i as int]);
                            return false;
                        }
                        i = i + 1;
                    }
                    assert(a@ =~= b@);
                    true
                },
                _ => false,
            },
            Action::Add(a) => match other {
                Action::Add(b) => a.0 == b.0,
                _ => false,
            },
            Action::Remove(a) => match other {
                Action::Remove(b) => a.0 == b.0,
                _ => false,
            },
        }
    }
}

/// Whether two optional hashes are equal.
fn same_opt_hash(a: &Option<crate::hash::Hash>, b: &Option<crate::hash::Hash>) -> (r: bool)
    ensures
        r == (opt_hash_view(*a) == opt_hash_view(*b)),
{
    match (a, b) {
        (Some(x), Some(y)) => x.same_as(y),
        (None, None) => true,
        _ => false,
    }
}

/// A reference to an `Event`, and its index in the gossip graph. References compare by index
/// only.
#[derive(Clone, Debug)]
pub struct EventRef<'a> {
    pub event: &'a Event,
    pub index: usize,
}

impl<'a> PartialEq for EventRef<'a> {
    fn eq(&self, other: &Self) -> (r: bool) {
        self.index == other.index
    }
}

impl<'a> Eq for EventRef<'a> {
}

impl<'a> vstd::std_specs::cmp::PartialEqSpecImpl for EventRef<'a> {
    open spec fn obeys_eq_spec() -> bool {
        true
    }

    open spec fn eq_spec(&self, other: &Self) -> bool {
        self.index == other.index
    }
}

impl<'a> PartialOrd for EventRef<'a> {
    fn partial_cmp(&self, other: &Self) -> (r: Option<std::cmp::Ordering>) {
        if self.index < other.index {
            Some(std::cmp::Ordering::Less)
        } else if self.index == other.index {
            Some(std::cmp::Ordering::Equal)
        } else {
            Some(std::cmp::Ordering::Greater)
        }
    }
}

impl<'a> vstd::std_specs::cmp::PartialOrdSpecImpl for EventRef<'a> {
    open spec fn obeys_partial_cmp_spec() -> bool {
        true
    }

    open spec fn partial_cmp_spec(&self, other: &Self) -> Option<std::cmp::Ordering> {
        if self.index < other.index {
            Some(std::cmp::Ordering::Less)
        } else if self.index == other.index {
            Some(std::cmp::Ordering::Equal)
        } else {
            Some(std::cmp::Ordering::Greater)
        }
    }
}

impl<'a> EventRef<'a> {
    /// The ID of the creator of the event.
    pub fn creator_id(&self) -> (r: &NodeId)
        ensures
            *r == self.event@.creator_id,
    {
        self.event.creator_id()
    }

    /// The hash of the self-parent of the event.
    pub fn self_parent(&self) -> (r: Option<&crate::hash::Hash>)
        ensures
            r is Some <==> self.event@.self_parent is Some,
            r is Some ==> Some(r->Some_0@) == self.event@.self_parent,
    {
        self.event.self_parent()
    }

    /// The hash of the other-parent of the event.
    pub fn other_parent(&self) -> (r: Option<&crate::hash::Hash>)
        ensures
            r is Some <==> self.event@.other_parent is Some,
            r is Some ==> Some(r->Some_0@) == self.event@.other_parent,
    {
        self.event.other_parent()
    }

    /// The event action.
    pub fn action(&self) -> (r: &Action)
        ensures
            r@ == self.event@.action,
    {
        self.event.action()
    }
}

/// A gossip graph error.
#[derive(Clone, Copy, Debug, PartialEq, Eq, Structural)]
pub enum Error {
    /// The event has no canonical encoding, so it cannot be hashed.
    Hash(HashError),
    /// A parent hash of the event names no event in the graph.
    DanglingParent,
    /// An event with the same hash but different content is already in the graph.
    HashCollision,
}

/// Some event among the first `bound` ones of `g` has hash `h`.
pub open spec fn has_hash(g: Seq<EventView>, h: Seq<u8>, bound: int) -> bool {
    exists|j: int| 0 <= j < bound && j < g.len() && #[trigger] event_hash(g[j]) == h
}

/// The index of the event of `g` with hash `h`, where there is one.
pub open spec fn index_of(g: Seq<EventView>, h: Seq<u8>) -> int {
    choose|j: int| 0 <= j < g.len() && #[trigger] event_hash(g[j]) == h
}

/// A parent reference is absent, or names one of the first `bound` events.
pub open spec fn parent_present(g: Seq<EventView>, p: Option<Seq<u8>>, bound: int) -> bool {
    p matches Some(h) ==> has_hash(g, h, bound)
}

/// The parents of the event at index `i` are among the events inserted before it.
pub open spec fn parents_before(g: Seq<EventView>, i: int) -> bool {
    &&& parent_present(g, g[i].self_parent, i)
    &&& parent_present(g, g[i].other_parent, i)
}

/// A sequence of events that a graph can hold: each has a canonical encoding, no two share a
/// hash, and each refers only to parents inserted before it.
pub open spec fn valid_events(g: Seq<EventView>) -> bool {
    &&& forall|i: int| 0 <= i < g.len() ==> canonical(#[trigger] g[i])
    &&& forall|i: int, j: int|
        0 <= i < j < g.len() ==> event_hash(#[trigger] g[i]) != event_hash(#[trigger] g[j])
    &&& forall|i: int| 0 <= i < g.len() ==> #[trigger] parents_before(g, i)
}

/// What inserting `e` into the events `g` yields: the new events, and the index of `e` or an
/// error.
pub open spec fn insert_outcome(g: Seq<EventView>, e: EventView) -> (Seq<EventView>, Result<
    int,
    Error,
>) {
    if !canonical(e) {
        (g, Err(Error::Hash(HashError::ComputeHashSerialize)))
    } else if has_hash(g, event_hash(e), g.len() as int) {
        let j = index_of(g, event_hash(e));
        if g[j] == e {
            (g, Ok(j))
        } else {
            (g, Err(Error::HashCollision))
        }
    } else if parent_present(g, e.self_parent, g.len() as int) && parent_present(
        g,
        e.other_parent,
        g.len() as int,
    ) {
        (g.push(e), Ok(g.len() as int))
    } else {
        (g, Err(Error::DanglingParent))
    }
}

/// The index of the event that a parent reference names, if any.
pub open spec fn parent_index(g: Seq<EventView>, p: Option<Seq<u8>>) -> Option<int> {
    match p {
        Some(h) => if has_hash(g, h, g.len() as int) {
            Some(index_of(g, h))
        } else {
            None
        },
        None => None,
    }
}

/// The event at index `a` is reached from the one at index `x` by following parent links
/// (every event is its own ancestor).
pub open spec fn is_ancestor(g: Seq<EventView>, x: int, a: int) -> bool
    decreases x,
{
    if x < 0 || x >= g.len() {
        false
    } else if x == a {
        true
    } else {
        (match parent_index(g, g[x].self_parent) {
            Some(j) => 0 <= j < x && is_ancestor(g, j, a),
            None => false,
        }) || (match parent_index(g, g[x].other_parent) {
            Some(j) => 0 <= j < x && is_ancestor(g, j, a),
            None => false,
        })
    }
}

/// The resolved parent indices of a stored event.
#[derive(Clone, Copy, Debug)]
struct Parents {
    self_parent: Option<usize>,
    other_parent: Option<usize>,
}

/// A resolved parent index agrees with the parent hash of the event at index `i`.
spec fn link_ok(g: Seq<EventView>, link: Option<usize>, p: Option<Seq<u8>>, i: int) -> bool {
    match link {
        Some(j) => j < i && p == Some(event_hash(g[j as int])),
        None => p is None,
    }
}

/// Both parents, where present, have been met.
spec fn parents_seen(seen: Seq<bool>, p: Parents) -> bool {
    &&& (p.self_parent matches Some(j) ==> seen[j as int])
    &&& (p.other_parent matches Some(j) ==> seen[j as int])
}

/// A gossip graph.
#[derive(Clone, Debug)]
pub struct Graph {
    /// All events in the graph, in insertion order.
    events: Vec<Event>,
    /// The hash of each event in `events`.
    hashes: Vec<crate::hash::Hash>,
    /// The indices of the parents of each event in `events`.
    parents: Vec<Parents>,
    /// The indices of the events, grouped by the first 8 bytes of their hashes.
    by_prefix: HashMap<u64, Vec<usize>>,
}

/// The key under which an event with hash `h` is indexed: its first 8 bytes.
spec fn bucket_key(h: Seq<u8>) -> u64 {
    le_u64_at(h, 0)
}

/// The first 8 bytes of a hash, as a little-endian number.
fn key_of(h: &crate::hash::Hash) -> (r: u64)
    ensures
        r == bucket_key(h@),
{
    let b = &h.0;
    (b[0] as u64) | ((b[1] as u64) << 8u64) | ((b[2] as u64) << 16u64) | ((b[3] as u64) << 24u64)
        | ((b[4] as u64) << 32u64) | ((b[5] as u64) << 40u64) | ((b[6] as u64) << 48u64) | ((b[7]
        as u64) << 56u64)
}

impl View for Graph {
    type V = Seq<EventView>;

    closed spec fn view(&self) -> Seq<EventView> {
        Seq::new(self.events.len() as nat, |i: int| self.events[i]@)
    }
}

/// The only event whose hash is `h` is the one at index `j`.
pub proof fn lemma_index_of(g: Seq<EventView>, h: Seq<u8>, j: int)
    requires
        valid_events(g),
        0 <= j < g.len(),
        event_hash(g[j]) == h,
    ensures
        has_hash(g, h, g.len() as int),
        index_of(g, h) == j,
{
    let k = index_of(g, h);
    assert(event_hash(g[j]) == h);
    if k != j {
        if k < j {
            assert(event_hash(g[k]) != event_hash(g[j]));
        } else {
            assert(event_hash(g[j]) != event_hash(g[k]));
        }
    }
}

impl Default for Graph {
    fn default() -> (r: Self)
        ensures
            r.wf(),
            r@ == Seq::<EventView>::empty(),
    {
        Graph::new()
    }
}

impl Graph {
    /// The graph is well formed: its events are valid, and the stored hashes and parent
    /// indices agree with them.
    pub closed spec fn wf(&self) -> bool {
        &&& self.events.len() == self.hashes.len()
        &&& self.events.len() == self.parents.len()
        &&& valid_events(self@)
        &&& forall|i: int| 0 <= i < self.hashes.len() ==> #[trigger] self.hashes[i]@ == event_hash(self@[i])
        &&& forall|i: int| 0 <= i < self.parents.len() ==> link_ok(self@, #[trigger] self.parents[i].self_parent, self@[i].self_parent, i)
        &&& forall|i: int| 0 <= i < self.parents.len() ==> link_ok(self@, #[trigger] self.parents[i].other_parent, self@[i].other_parent, i)
        &&& forall|i: int| 0 <= i < self.hashes.len() ==> self.by_prefix@.contains_key(bucket_key(#[trigger] self.hashes[i]@))
            && self.by_prefix@[bucket_key(self.hashes[i]@)]@.contains(i as usize)
        &&& forall|k: u64, t: int| self.by_prefix@.contains_key(k) && 0 <= t < self.by_prefix@[k].len()
            ==> #[trigger] self.by_prefix@[k][t] < self.hashes.len()
    }

    /// The events of a well-formed graph are valid.
    pub proof fn lemma_valid(&self)
        requires
            self.wf(),
        ensures
            valid_events(self@),
    {
    }

    /// Constructs a new, empty gossip graph.
    pub fn new() -> (r: Self)
        ensures
            r.wf(),
            r@ == Seq::<EventView>::empty(),
    {
        let r = Graph {
            events: Vec::new(),
            hashes: Vec::new(),
            parents: Vec::new(),
            by_prefix: HashMap::new(),
        };
        assert(r@ =~= Seq::<EventView>::empty());
        r
    }

    /// The number of events in the graph.
    pub fn len(&self) -> (r: usize)
        ensures
            r == self@.len(),
    {
        self.events.len()
    }

    /// Looks up the index of the event with hash `h`.
    fn find(&self, h: &crate::hash::Hash) -> (r: Option<usize>)
        requires
            self.wf(),
        ensures
            r is Some <==> has_hash(self@, h@, self@.len() as int),
            r matches Some(j) ==> j < self@.len() && event_hash(self@[j as int]) == h@ && index_of(
                self@,
                h@,
            ) == j,
    {
        let key = key_of(h);
        let bucket = match self.by_prefix.get(&key) {
            Some(bucket) => bucket,
            None => {
                assert forall|k: int| 0 <= k < self@.len() implies event_hash(#[trigger] self@[k])
                    != h@ by {
                    assert(self.hashes[k]@ == event_hash(self@[k]));
                }
                return None;
            },
        };
        let mut t: usize = 0;
        while t < bucket.len()
            invariant
                self.wf(),
                self.by_prefix@.contains_key(key),
                key == bucket_key(h@),
                *bucket == self.by_prefix@[key],
                t <= bucket.len(),
                forall|u: int| 0 <= u < t ==> self.hashes[bucket@[u] as int]@ != h@,
            decreases bucket.len() - t,
        {
            let i = bucket[t];
            assert(self.by_prefix@[key][t as int] < self.hashes.len());
            if self.hashes[i].same_as(h) {
                proof {
                    assert(self.hashes[i as int]@ == event_hash(self@[i as int]));
                    lemma_index_of(self@, h@, i as int);
                }
                return Some(i);
            }
            t = t + 1;
        }
        assert forall|k: int| 0 <= k < self@.len() implies event_hash(#[trigger] self@[k]) != h@ by {
            assert(self.hashes[k]@ == event_hash(self@[k]));
            if self.hashes[k]@ == h@ {
                let u = choose|u: int| 0 <= u < bucket@.len() && bucket@[u] == k as usize;
                assert(self.hashes[bucket@[u] as int]@ != h@);
            }
        }
        None
    }

    /// Gets the index of an event with the given hash.
    pub fn get_index(&self, hash: &crate::hash::Hash) -> (r: Option<usize>)
        requires
            self.wf(),
        ensures
            r is Some <==> has_hash(self@, hash@, self@.len() as int),
            r matches Some(j) ==> j < self@.len() && event_hash(self@[j as int]) == hash@,
    {
        self.find(hash)
    }

    /// Checks whether this graph contains an event with the given hash.
    pub fn contains(&self, hash: &crate::hash::Hash) -> (r: bool)
        requires
            self.wf(),
        ensures
            r == has_hash(self@, hash@, self@.len() as int),
    {
        self.find(hash).is_some()
    }

    /// The hash of the event at index `i`.
    pub fn hash_at(&self, i: usize) -> (r: crate::hash::Hash)
        requires
            self.wf(),
            i < self@.len(),
        ensures
            r@ == event_hash(self@[i as int]),
    {
        self.hashes[i]
    }

    /// Gets the event with a given index, if it exists.
    pub fn get_by_index(&self, index: usize) -> (r: Option<EventRef<'_>>)
        ensures
            r is Some <==> index < self@.len(),
            r matches Some(er) ==> er.index == index && er.event@ == self@[index as int],
    {
        if index < self.events.len() {
            Some(EventRef { event: &self.events[index], index })
        } else {
            None
        }
    }

    /// Gets the event with a given hash, if it exists.
    pub fn get_by_hash(&self, hash: &crate::hash::Hash) -> (r: Option<EventRef<'_>>)
        requires
            self.wf(),
        ensures
            r is Some <==> has_hash(self@, hash@, self@.len() as int),
            r matches Some(er) ==> er.index < self@.len() && er.event@ == self@[er.index as int]
                && event_hash(er.event@) == hash@,
    {
        match self.find(hash) {
            Some(index) => self.get_by_index(index),
            None => None,
        }
    }

    /// Inserts an event and returns its index. An event already in the graph is not stored
    /// twice: its index is returned.
    pub fn insert_index(&mut self, event: Event) -> (r: Result<usize, Error>)
        requires
            old(self).wf(),
        ensures
            final(self).wf(),
            final(self)@ == insert_outcome(old(self)@, event@).0,
            r is Ok <==> insert_outcome(old(self)@, event@).1 is Ok,
            r matches Ok(i) ==> insert_outcome(old(self)@, event@).1 == Ok::<int, Error>(i as int)
                && i < final(self)@.len() && final(self)@[i as int] == event@,
            r matches Err(e) ==> insert_outcome(old(self)@, event@).1 == Err::<int, Error>(e),
    {
        let ghost g = self@;
        let h = match event.hash() {
            Ok(h) => h,
            Err(e) => {
                return Err(Error::Hash(e));
            },
        };
        match self.find(&h) {
            Some(j) => {
                if self.events[j].same_as(&event) {
                    return Ok(j);
                } else {
                    return Err(Error::HashCollision);
                }
            },
            None => {},
        }
        let sp = match event.self_parent() {
            Some(p) => match self.find(p) {
                Some(j) => Some(j),
                None => {
                    return Err(Error::DanglingParent);
                },
            },
            None => None,
        };
        let op = match event.other_parent() {
            Some(p) => match self.find(p) {
                Some(j) => Some(j),
                None => {
                    return Err(Error::DanglingParent);
                },
            },
            None => None,
        };
        let ghost e = event@;
        let n = self.events.len();
        self.events.push(event);
        self.hashes.push(h);
        self.parents.push(Parents { self_parent: sp, other_parent: op });
        let key = key_of(&h);
        let ghost before = self.by_prefix@;
        let mut bucket = match self.by_prefix.remove(&key) {
            Some(b) => b,
            None => Vec::new(),
        };
        let ghost old_bucket = bucket@;
        bucket.push(n);
        self.by_prefix.insert(key, bucket);
        proof {
            assert forall|i: int| 0 <= i < self.hashes.len() implies self.by_prefix@.contains_key(
                bucket_key(#[trigger] self.hashes[i]@),
            ) && self.by_prefix@[bucket_key(self.hashes[i]@)]@.contains(i as usize) by {
                if i < n {
                    assert(self.hashes[i] == old(self).hashes[i]);
                    let ki = bucket_key(self.hashes[i]@);
                    assert(before.contains_key(ki) && before[ki]@.contains(i as usize));
                    if ki == key {
                        let u = choose|u: int| 0 <= u < before[ki]@.len() && before[ki]@[u] == i as usize;
                        assert(self.by_prefix@[ki]@[u] == i as usize);
                    }
                } else {
                    assert(self.by_prefix@[key]@[old_bucket.len() as int] == n);
                }
            }
            assert forall|k: u64, t: int| self.by_prefix@.contains_key(k) && 0 <= t
                < self.by_prefix@[k].len() implies #[trigger] self.by_prefix@[k][t]
                < self.hashes.len() by {
                if k == key {
                    if t < old_bucket.len() {
                        assert(before[key][t] < n);
                    }
                } else {
                    assert(before[k][t] < n);
                }
            }
            let g2 = self@;
            assert(g2 =~= g.push(e));
            assert forall|i: int| 0 <= i < g2.len() implies #[trigger] parents_before(g2, i) by {
                if i < n {
                    assert(parents_before(g, i));
                    if let Some(x) = g[i].self_parent {
                        let w = choose|j: int| 0 <= j < i && j < g.len() && #[trigger] event_hash(g[j]) == x;
                        assert(event_hash(g2[w]) == x);
                    }
                    if let Some(x) = g[i].other_parent {
                        let w = choose|j: int| 0 <= j < i && j < g.len() && #[trigger] event_hash(g[j]) == x;
                        assert(event_hash(g2[w]) == x);
                    }
                } else {
                    if let Some(x) = e.self_parent {
                        let w = sp.unwrap() as int;
                        assert(event_hash(g2[w]) == x);
                    }
                    if let Some(x) = e.other_parent {
                        let w = op.unwrap() as int;
                        assert(event_hash(g2[w]) == x);
                    }
                }
            }
            assert forall|i: int, j: int| 0 <= i < j < g2.len() implies event_hash(#[trigger] g2[i])
                != event_hash(#[trigger] g2[j]) by {
                if j == n {
                    assert(event_hash(g[i]) != h@);
                } else {
                    assert(event_hash(g[i]) != event_hash(g[j]));
                }
            }
            assert forall|i: int| 0 <= i < self.parents.len() implies link_ok(
                g2,
                #[trigger] self.parents[i].self_parent,
                g2[i].self_parent,
                i,
            ) by {
                if i < n {
                    assert(link_ok(g, old(self).parents[i].self_parent, g[i].self_parent, i));
                }
            }
            assert forall|i: int| 0 <= i < self.parents.len() implies link_ok(
                g2,
                #[trigger] self.parents[i].other_parent,
                g2[i].other_parent,
                i,
            ) by {
                if i < n {
                    assert(link_ok(g, old(self).parents[i].other_parent, g[i].other_parent, i));
                }
            }
            assert forall|i: int| 0 <= i < self.hashes.len() implies #[trigger] self.hashes[i]@
                == event_hash(g2[i]) by {
                if i < n {
                    assert(old(self).hashes[i]@ == event_hash(g[i]));
                }
            }
        }
        Ok(n)
    }

    /// Inserts a new event into the graph, and returns a reference to the stored event. An
    /// event already in the graph is not stored twice: the reference is to the stored one.
    ///
    /// Fails, leaving the graph unchanged, with `Error::Hash` where the event has no canonical
    /// encoding, `Error::HashCollision` where a different event with the same hash is stored,
    /// and `Error::DanglingParent` where a parent hash names no stored event.
    pub fn insert(&mut self, event: Event) -> (r: Result<EventRef<'_>, Error>)
        requires
            old(self).wf(),
        ensures
            final(self).wf(),
            final(self)@ == insert_outcome(old(self)@, event@).0,
            r is Ok <==> insert_outcome(old(self)@, event@).1 is Ok,
            r matches Ok(er) ==> insert_outcome(old(self)@, event@).1 == Ok::<int, Error>(
                er.index as int,
            ) && er.event@ == event@,
            r matches Err(e) ==> insert_outcome(old(self)@, event@).1 == Err::<int, Error>(e),
    {
        let index = self.insert_index(event)?;
        Ok(EventRef { event: &self.events[index], index })
    }
}

/// A parent of the event at index `x` is an ancestor of every event that `x` is an ancestor
/// of.
pub proof fn lemma_ancestor_parent(g: Seq<EventView>, s: int, x: int, j: int)
    requires
        valid_events(g),
        is_ancestor(g, s, x),
        0 <= j < x,
        parent_index(g, g[x].self_parent) == Some(j) || parent_index(g, g[x].other_parent) == Some(
            j,
        ),
    ensures
        is_ancestor(g, s, j),
    decreases s,
{
    assert(is_ancestor(g, j, j));
    if s != x {
        if let Some(p) = parent_index(g, g[s].self_parent) {
            if 0 <= p < s && is_ancestor(g, p, x) {
                lemma_ancestor_parent(g, p, x, j);
                return;
            }
        }
        if let Some(p) = parent_index(g, g[s].other_parent) {
            if 0 <= p < s && is_ancestor(g, p, x) {
                lemma_ancestor_parent(g, p, x, j);
            }
        }
    }
}

/// The state of a traversal of the ancestors of an event in a graph: breadth first, the
/// other-parent before the self-parent of each event.
pub struct AncestorIter<'a> {
    /// The graph.
    graph: &'a Graph,
    /// The indices of every event met so far, in the order they are visited; those before
    /// `head` have been visited.
    queue: Vec<usize>,
    /// The number of visited events.
    head: usize,
    /// Whether each event of the graph has been met.
    seen: Vec<bool>,
}

impl<'a> AncestorIter<'a> {
    /// The graph being traversed.
    pub closed spec fn graph(&self) -> Seq<EventView> {
        self.graph@
    }

    /// The index of the event whose ancestors are listed.
    pub closed spec fn start(&self) -> int {
        self.queue[0] as int
    }

    /// The indices of the events visited so far, in order.
    pub closed spec fn visited(&self) -> Seq<int> {
        self.queue@.subrange(0, self.head as int).map_values(|i: usize| i as int)
    }

    /// Every ancestor has been visited.
    pub closed spec fn done(&self) -> bool {
        self.head == self.queue.len()
    }

    /// The traversal state is consistent.
    pub closed spec fn inv(&self) -> bool {
        let g = self.graph@;
        let n = g.len();
        &&& self.graph.wf()
        &&& self.seen.len() == n
        &&& 0 < self.queue.len() <= n
        &&& self.head <= self.queue.len()
        &&& forall|k: int| 0 <= k < self.queue.len() ==> #[trigger] self.queue[k] < n
        &&& forall|k: int| 0 <= k < self.queue.len() ==> self.seen[#[trigger] self.queue[k] as int]
        &&& forall|j: int| 0 <= j < n && #[trigger] self.seen[j] ==> exists|k: int|
            0 <= k < self.queue.len() && self.queue[k] == j
        &&& self.queue@.no_duplicates()
        &&& forall|k: int|
            0 <= k < self.queue.len() ==> is_ancestor(g, self.queue[0] as int, #[trigger] self.queue[k] as int)
        &&& forall|k: int|
            0 <= k < self.head ==> parents_seen(self.seen@, #[trigger] self.graph.parents[self.queue[k] as int])
    }

    /// A measure that each visit decreases: every event is queued at most once and visited
    /// once.
    pub closed spec fn progress(&self) -> int {
        2 * (self.graph@.len() - self.queue.len()) + (self.queue.len() - self.head)
    }

    /// Visits the next ancestor, if any is left.
    pub fn next(&mut self) -> (r: Option<EventRef<'a>>)
        requires
            old(self).inv(),
        ensures
            final(self).inv(),
            final(self).graph() == old(self).graph(),
            final(self).start() == old(self).start(),
            r is None <==> old(self).done(),
            r is None ==> final(self).visited() == old(self).visited() && final(self).done(),
            r matches Some(er) ==> final(self).visited() == old(self).visited().push(er.index as int)
                && er.index < final(self).graph().len() && er.event@ == final(self).graph()[er.index as int]
                && 0 <= final(self).progress() < old(self).progress(),
    {
        if self.head >= self.queue.len() {
            return None;
        }
        let ghost old_visited = self.visited();
        let ghost g = self.graph@;
        let graph: &'a Graph = self.graph;
        let x = self.queue[self.head];
        self.head = self.head + 1;
        let links = graph.parents[x];
        proof {
            assert(link_ok(g, links.self_parent, g[x as int].self_parent, x as int));
            assert(link_ok(g, links.other_parent, g[x as int].other_parent, x as int));
            assert(is_ancestor(g, self.queue[0] as int, x as int));
        }
        if let Some(j) = links.other_parent {
            proof {
                lemma_index_of(g, event_hash(g[j as int]), j as int);
                lemma_ancestor_parent(g, self.queue[0] as int, x as int, j as int);
            }
            if !self.seen[j] {
                self.push_unseen(j);
            }
        }
        if let Some(j) = links.self_parent {
            proof {
                lemma_index_of(g, event_hash(g[j as int]), j as int);
                lemma_ancestor_parent(g, self.queue[0] as int, x as int, j as int);
            }
            if !self.seen[j] {
                self.push_unseen(j);
            }
        }
        proof {
            assert(self.visited() =~= old_visited.push(x as int));
        }
        Some(EventRef { event: &graph.events[x], index: x })
    }

    /// Records an ancestor met for the first time.
    fn push_unseen(&mut self, j: usize)
        requires
            j < old(self).seen.len(),
            !old(self).seen[j as int],
            old(self).head > 0,
            is_ancestor(old(self).graph@, old(self).queue[0] as int, j as int),
            ({
                let s = *old(self);
                let g = s.graph@;
                let n = g.len();
                &&& s.graph.wf()
                &&& s.seen.len() == n
                &&& 0 < s.queue.len()
                &&& s.head <= s.queue.len()
                &&& forall|k: int| 0 <= k < s.queue.len() ==> #[trigger] s.queue[k] < n
                &&& forall|k: int| 0 <= k < s.queue.len() ==> s.seen[#[trigger] s.queue[k] as int]
                &&& forall|i: int| 0 <= i < n && #[trigger] s.seen[i] ==> exists|k: int|
                    0 <= k < s.queue.len() && s.queue[k] == i
                &&& s.queue@.no_duplicates()
                &&& forall|k: int|
                    0 <= k < s.queue.len() ==> is_ancestor(g, s.queue[0] as int, #[trigger] s.queue[k] as int)
            }),
        ensures
            final(self).graph == old(self).graph,
            final(self).head == old(self).head,
            final(self).queue@ == old(self).queue@.push(j),
            final(self).seen@ == old(self).seen@.update(j as int, true),
            ({
                let s = *final(self);
                let g = s.graph@;
                let n = g.len();
                &&& s.seen.len() == n
                &&& 0 < s.queue.len() <= n
                &&& forall|k: int| 0 <= k < s.queue.len() ==> #[trigger] s.queue[k] < n
                &&& forall|k: int| 0 <= k < s.queue.len() ==> s.seen[#[trigger] s.queue[k] as int]
                &&& forall|i: int| 0 <= i < n && #[trigger] s.seen[i] ==> exists|k: int|
                    0 <= k < s.queue.len() && s.queue[k] == i
                &&& s.queue@.no_duplicates()
                &&& forall|k: int|
                    0 <= k < s.queue.len() ==> is_ancestor(g, s.queue[0] as int, #[trigger] s.queue[k] as int)
            }),
    {
        let ghost q0 = self.queue@;
        let ghost n = self.seen.len();
        self.seen.set(j, true);
        self.queue.push(j);
        proof {
            let q = self.queue@;
            assert(q[0] == q0[0]);
            assert forall|i: int| 0 <= i < n && #[trigger] self.seen[i] implies exists|k: int|
                0 <= k < q.len() && q[k] == i by {
                if i == j {
                    assert(q[q.len() - 1] == i);
                } else {
                    assert(old(self).seen[i]);
                    let k = choose|k: int| 0 <= k < q0.len() && q0[k] == i;
                    assert(q[k] == i);
                }
            }
            assert forall|a: int, b: int| 0 <= a < q.len() && 0 <= b < q.len() && a != b implies q[a]
                != q[b] by {
                if b == q.len() - 1 {
                    assert(old(self).seen[q0[a] as int]);
                } else if a == q.len() - 1 {
                    assert(old(self).seen[q0[b] as int]);
                }
            }
            let s = q.map_values(|i: usize| i as int).to_set();
            assert(s.subset_of(set_int_range(0, n as int)));
            lemma_int_range(0, n as int);
            lemma_len_subset(s, set_int_range(0, n as int));
            q.map_values(|i: usize| i as int).unique_seq_to_set();
            assert(q.map_values(|i: usize| i as int).no_duplicates());
        }
    }
}

impl<'a> AncestorIter<'a> {
    /// Every ancestor of a met event is met, once the traversal is done.
    proof fn lemma_closed(&self, x: int, a: int)
        requires
            self.inv(),
            self.done(),
            0 <= x < self.graph@.len(),
            self.seen[x],
            is_ancestor(self.graph@, x, a),
        ensures
            0 <= a < self.graph@.len(),
            self.seen[a],
        decreases x,
    {
        let g = self.graph@;
        if x != a {
            let k = choose|k: int| 0 <= k < self.queue.len() && self.queue[k] == x;
            let links = self.graph.parents[x];
            assert(parents_seen(self.seen@, self.graph.parents[self.queue[k] as int]));
            assert(link_ok(g, links.self_parent, g[x].self_parent, x));
            assert(link_ok(g, links.other_parent, g[x].other_parent, x));
            if let Some(j) = links.self_parent {
                lemma_index_of(g, event_hash(g[j as int]), j as int);
                if is_ancestor(g, j as int, a) {
                    self.lemma_closed(j as int, a);
                }
            }
            if let Some(j) = links.other_parent {
                lemma_index_of(g, event_hash(g[j as int]), j as int);
                if is_ancestor(g, j as int, a) {
                    self.lemma_closed(j as int, a);
                }
            }
        }
    }

    /// A finished traversal has visited exactly the ancestors of its start, each once.
    pub proof fn lemma_done_complete(&self)
        requires
            self.inv(),
            self.done(),
        ensures
            self.visited().no_duplicates(),
            forall|a: int|
                #![trigger self.visited().contains(a)]
                is_ancestor(self.graph(), self.start(), a) <==> self.visited().contains(a),
    {
        let v = self.visited();
        assert(self.queue@.subrange(0, self.head as int) =~= self.queue@);
        assert forall|a: int, b: int| 0 <= a < v.len() && 0 <= b < v.len() && a != b implies v[a]
            != v[b] by {
            assert(self.queue@[a] != self.queue@[b]);
        }
        assert forall|a: int| is_ancestor(self.graph(), self.start(), a) implies v.contains(a) by {
            assert(self.seen[self.queue[0] as int]);
            self.lemma_closed(self.start(), a);
            let k = choose|k: int| 0 <= k < self.queue.len() && self.queue[k] == a;
            assert(v[k] == a);
        }
        assert forall|a: int| v.contains(a) implies is_ancestor(self.graph(), self.start(), a) by {
            let k = choose|k: int| 0 <= k < v.len() && v[k] == a;
            assert(is_ancestor(self.graph@, self.queue[0] as int, self.queue[k] as int));
        }
    }

    /// Visits all the remaining ancestors and lists them in the order they are visited.
    pub fn to_vec(self) -> (r: Vec<EventRef<'a>>)
        requires
            self.inv(),
            self.visited() == Seq::<int>::empty(),
        ensures
            r@.map_values(|er: EventRef<'a>| er.index as int).no_duplicates(),
            forall|a: int|
                #![trigger is_ancestor(self.graph(), self.start(), a)]
                is_ancestor(self.graph(), self.start(), a) <==> exists|k: int|
                    0 <= k < r.len() && r[k].index == a,
            forall|k: int|
                0 <= k < r.len() ==> #[trigger] r[k].index < self.graph().len() && r[k].event@
                    == self.graph()[r[k].index as int],
    {
        let mut it = self;
        let mut r: Vec<EventRef<'a>> = Vec::new();
        loop
            invariant
                it.inv(),
                it.graph() == self.graph(),
                it.start() == self.start(),
                r@.map_values(|er: EventRef<'a>| er.index as int) == it.visited(),
                forall|k: int|
                    0 <= k < r.len() ==> #[trigger] r[k].index < self.graph().len() && r[k].event@
                        == self.graph()[r[k].index as int],
            decreases it.progress(),
        {
            match it.next() {
                Some(er) => {
                    let ghost before = r@;
                    r.push(er);
                    proof {
                        assert(r@.map_values(|er: EventRef<'a>| er.index as int) =~= before.map_values(
                            |er: EventRef<'a>| er.index as int,
                        ).push(er.index as int));
                    }
                },
                None => {
                    proof {
                        it.lemma_done_complete();
                        let m = r@.map_values(|er: EventRef<'a>| er.index as int);
                        assert forall|a: int|
                            #![trigger is_ancestor(self.graph(), self.start(), a)]
                            is_ancestor(self.graph(), self.start(), a) implies exists|k: int|
                                0 <= k < r.len() && r[k].index == a by {
                            assert(it.visited().contains(a));
                            let k = choose|k: int| 0 <= k < m.len() && m[k] == a;
                            assert(r[k].index == a);
                        }
                        assert forall|a: int|
                            (exists|k: int| 0 <= k < r.len() && r[k].index == a) implies is_ancestor(
                                self.graph(),
                                self.start(),
                                a,
                            ) by {
                            let k = choose|k: int| 0 <= k < r.len() && r[k].index == a;
                            assert(m[k] == a);
                            assert(it.visited().contains(a));
                        }
                    }
                    return r;
                },
            }
        }
    }
}

impl Graph {
    /// Gets all the ancestors of an event in the graph, the event included: a traversal that
    /// visits each of them once, breadth first, the other-parent before the self-parent.
    pub fn ancestors<'a>(&'a self, event: EventRef<'a>) -> (r: AncestorIter<'a>)
        requires
            self.wf(),
            event.index < self@.len(),
        ensures
            r.inv(),
            r.graph() == self@,
            r.start() == event.index,
            r.visited() == Seq::<int>::empty(),
    {
        let n = self.events.len();
        let mut seen: Vec<bool> = Vec::new();
        let mut i: usize = 0;
        while i < n
            invariant
                i <= n,
                seen.len() == i,
                forall|k: int| 0 <= k < i ==> seen[k] == (k == event.index),
            decreases n - i,
        {
            seen.push(i == event.index);
            i = i + 1;
        }
        let mut queue: Vec<usize> = Vec::new();
        queue.push(event.index);
        let r = AncestorIter { graph: self, queue, head: 0, seen };
        proof {
            assert(r.queue[0] == event.index);
            assert(is_ancestor(self@, event.index as int, event.index as int));
            assert(r.visited() =~= Seq::<int>::empty());
        }
        r
    }
}

/// Inserting an event keeps the events valid.
pub proof fn lemma_insert_valid(g: Seq<EventView>, e: EventView)
    requires
        valid_events(g),
    ensures
        valid_events(insert_outcome(g, e).0),
        insert_outcome(g, e).1 matches Ok(i) ==> 0 <= i < insert_outcome(g, e).0.len()
            && insert_outcome(g, e).0[i] == e,
        g.is_prefix_of(insert_outcome(g, e).0),
{
    let g2 = insert_outcome(g, e).0;
    if canonical(e) && !has_hash(g, event_hash(e), g.len() as int) && parent_present(
        g,
        e.self_parent,
        g.len() as int,
    ) && parent_present(g, e.other_parent, g.len() as int) {
        assert(g2 == g.push(e));
        assert forall|i: int| 0 <= i < g2.len() implies #[trigger] parents_before(g2, i) by {
            let p = if i < g.len() { g[i] } else { e };
            assert(g2[i] == p);
            if i < g.len() {
                assert(parents_before(g, i));
            }
            if let Some(x) = p.self_parent {
                let w = choose|j: int| 0 <= j < i && j < g.len() && #[trigger] event_hash(g[j]) == x;
                assert(event_hash(g2[w]) == x);
            }
            if let Some(x) = p.other_parent {
                let w = choose|j: int| 0 <= j < i && j < g.len() && #[trigger] event_hash(g[j]) == x;
                assert(event_hash(g2[w]) == x);
            }
        }
        assert forall|i: int, j: int| 0 <= i < j < g2.len() implies event_hash(#[trigger] g2[i])
            != event_hash(#[trigger] g2[j]) by {
            if j == g.len() {
                assert(event_hash(g[i]) != event_hash(e));
            } else {
                assert(event_hash(g[i]) != event_hash(g[j]));
            }
        }
    }
}

/// Inserting the same event twice: the second insertion changes nothing and returns the
/// index that the first one returned.
pub proof fn lemma_insert_idempotent(g: Seq<EventView>, e: EventView)
    requires
        valid_events(g),
        insert_outcome(g, e).1 is Ok,
    ensures
        insert_outcome(insert_outcome(g, e).0, e) == insert_outcome(g, e),
        insert_outcome(insert_outcome(g, e).0, e).0.len() == insert_outcome(g, e).0.len(),
{
    let (g1, r1) = insert_outcome(g, e);
    let i = r1->Ok_0;
    lemma_insert_valid(g, e);
    lemma_index_of(g1, event_hash(e), i);
}

/// A parent of an event always stands at a smaller index than the event.
pub proof fn lemma_parent_earlier(g: Seq<EventView>, x: int, p: Option<Seq<u8>>)
    requires
        valid_events(g),
        0 <= x < g.len(),
        p == g[x].self_parent || p == g[x].other_parent,
    ensures
        parent_index(g, p) matches Some(j) ==> 0 <= j < x,
{
    if let Some(h) = p {
        assert(parents_before(g, x));
        if has_hash(g, h, g.len() as int) {
            let w = choose|j: int| 0 <= j < x && j < g.len() && #[trigger] event_hash(g[j]) == h;
            lemma_index_of(g, h, w);
        }
    }
}

/// The event at index `y` is the self-parent or the other-parent of the one at index `x`.
pub open spec fn parent_link(g: Seq<EventView>, x: int, y: int) -> bool {
    Some(y) == parent_index(g, g[x].self_parent) || Some(y) == parent_index(g, g[x].other_parent)
}

/// Following parent links, from event to parent, never comes back to an event already
/// visited: the indices strictly decrease, so a traversal always ends.
pub proof fn lemma_parent_chain_acyclic(g: Seq<EventView>, path: Seq<int>)
    requires
        valid_events(g),
        path.len() > 0,
        0 <= path[0] < g.len(),
        forall|k: int| 0 <= k < path.len() - 1 ==> #[trigger] parent_link(g, path[k], path[k + 1]),
    ensures
        forall|a: int, b: int| 0 <= a < b < path.len() ==> path[b] < path[a],
        path.no_duplicates(),
    decreases path.len(),
{
    if path.len() > 1 {
        let x = path[0];
        assert(parent_link(g, path[0], path[1]));
        lemma_parent_earlier(g, x, g[x].self_parent);
        lemma_parent_earlier(g, x, g[x].other_parent);
        let rest = path.drop_first();
        assert forall|k: int| 0 <= k < rest.len() - 1 implies #[trigger] parent_link(
            g,
            rest[k],
            rest[k + 1],
        ) by {
            assert(parent_link(g, path[k + 1], path[(k + 1) + 1]));
            assert(rest[k + 1] == path[k + 2]);
            assert(rest[k] == path[k + 1]);
        }
        lemma_parent_chain_acyclic(g, rest);
        assert forall|a: int, b: int| 0 <= a < b < path.len() implies path[b] < path[a] by {
            if a == 0 {
                if b > 1 {
                    assert(rest[b - 1] < rest[0]);
                }
            } else {
                assert(rest[b - 1] < rest[a - 1]);
            }
        }
    }
}

/// An event with a canonical encoding, not yet in the graph, whose self-parent or
/// other-parent names no event of the graph, is rejected and the graph is left unchanged.
pub proof fn lemma_dangling_rejected(g: Seq<EventView>, e: EventView)
    requires
        canonical(e),
        !has_hash(g, event_hash(e), g.len() as int),
        !parent_present(g, e.self_parent, g.len() as int) || !parent_present(
            g,
            e.other_parent,
            g.len() as int,
        ),
    ensures
        insert_outcome(g, e) == (g, Err::<int, Error>(Error::DanglingParent)),
{
}

} // verus!

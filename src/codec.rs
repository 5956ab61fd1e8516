//! The canonical byte encoding of events and messages.
//!
//! The layout is little-endian with fixed-width integers: a `u64` takes 8 bytes, an enum tag 4
//! bytes, an optional hash one tag byte (0 or 1) followed by the 32 bytes of the hash, and a list
//! its length as a `u64` followed by its items. Equal values encode to equal bytes, and the
//! hash of an event is the SHA3-256 digest of its encoding.
use vstd::prelude::*;

use crate::graph::{Action, ActionView, Event, EventView, NodeId};
use crate::node_membership::Message;
use crate::hash::{compute_hash, sha3_256_of, Error as HashError};

verus! {

/// The 8 little-endian bytes of `x`.
pub open spec fn u64_le(x: u64) -> Seq<u8> {
    seq![
        x as u8,
        (x >> 8u64) as u8,
        (x >> 16u64) as u8,
        (x >> 24u64) as u8,
        (x >> 32u64) as u8,
        (x >> 40u64) as u8,
        (x >> 48u64) as u8,
        (x >> 56u64) as u8,
    ]
}

/// The 4 little-endian bytes of an enum tag.
pub open spec fn tag_le(t: u8) -> Seq<u8> {
    seq![t, 0u8, 0u8, 0u8]
}

/// The encoding of an optional hash.
pub open spec fn encode_opt_hash(h: Option<Seq<u8>>) -> Seq<u8> {
    match h {
        Some(h) => seq![1u8] + h,
        None => seq![0u8],
    }
}

/// The concatenated encodings of a list of node identifiers.
pub open spec fn encode_ids(ids: Seq<NodeId>) -> Seq<u8>
    decreases ids.len(),
{
    if ids.len() == 0 {
        Seq::empty()
    } else {
        encode_ids(ids.drop_last()) + u64_le(ids.last().0)
    }
}

/// The encoding of an action.
pub open spec fn encode_action(a: ActionView) -> Seq<u8> {
    match a {
        ActionView::Init(ids) => tag_le(0) + u64_le(ids.len() as u64) + encode_ids(ids),
        ActionView::Add(n) => tag_le(1) + u64_le(n.0),
        ActionView::Remove(n) => tag_le(2) + u64_le(n.0),
    }
}

/// The encoding of an event.
pub open spec fn encode_event(e: EventView) -> Seq<u8> {
    u64_le(e.creator_id.0) + encode_opt_hash(e.self_parent) + encode_opt_hash(e.other_parent)
        + encode_action(e.action)
}

/// The members of an initial group are listed in strictly ascending order.
pub open spec fn strictly_ascending(ids: Seq<NodeId>) -> bool {
    forall|i: int, j: int| 0 <= i < j < ids.len() ==> ids[i].0 < ids[j].0
}

/// An event has a canonical encoding: its hashes are 32 bytes long and an initial group lists
/// each member once, in ascending order.
pub open spec fn canonical(e: EventView) -> bool {
    &&& (e.self_parent matches Some(h) ==> h.len() == 32)
    &&& (e.other_parent matches Some(h) ==> h.len() == 32)
    &&& (e.action matches ActionView::Init(ids) ==> strictly_ascending(ids))
}

/// The content address of an event.
pub open spec fn event_hash(e: EventView) -> Seq<u8> {
    sha3_256_of(encode_event(e))
}

/// Appends the encoding of `x`.
fn push_u64(out: &mut Vec<u8>, x: u64)
    ensures
        final(out)@ == old(out)@ + u64_le(x),
{
    out.push(x as u8);
    out.push((x >> 8u64) as u8);
    out.push((x >> 16u64) as u8);
    out.push((x >> 24u64) as u8);
    out.push((x >> 32u64) as u8);
    out.push((x >> 40u64) as u8);
    out.push((x >> 48u64) as u8);
    out.push((x >> 56u64) as u8);
    assert(final(out)@ =~= old(out)@ + u64_le(x));
}

/// Appends an enum tag.
fn push_tag(out: &mut Vec<u8>, t: u8)
    ensures
        final(out)@ == old(out)@ + tag_le(t),
{
    out.push(t);
    out.push(0u8);
    out.push(0u8);
    out.push(0u8);
    assert(final(out)@ =~= old(out)@ + tag_le(t));
}

/// Appends the encoding of an optional hash.
fn push_opt_hash(out: &mut Vec<u8>, h: Option<&crate::hash::Hash>)
    ensures
        final(out)@ == old(out)@ + encode_opt_hash(
            match h {
                Some(h) => Some(h@),
                None => None,
            },
        ),
{
    match h {
        None => {
            out.push(0u8);
            assert(final(out)@ =~= old(out)@ + seq![0u8]);
        },
        Some(h) => {
            out.push(1u8);
            let ghost mid = out@;
            let mut i: usize = 0;
            while i < 32
                invariant
                    i <= 32,
                    h@.len() == 32,
                    out@ == mid + h@.subrange(0, i as int),
                decreases 32 - i,
            {
                out.push(h.0[i]);
                assert(h@.subrange(0, i + 1) =~= h@.subrange(0, i as int).push(h@[i as int]));
                i = i + 1;
            }
            assert(h@.subrange(0, 32) =~= h@);
            assert(out@ =~= old(out)@ + (seq![1u8] + h@));
        },
    }
}

/// Whether the members of an initial group are listed in strictly ascending order.
pub fn is_strictly_ascending(ids: &Vec<NodeId>) -> (r: bool)
    ensures
        r == strictly_ascending(ids@),
{
    let mut i: usize = 1;
    while i < ids.len()
        invariant
            1 <= i,
            forall|a: int, b: int| 0 <= a < b < i && b < ids@.len() ==> ids@[a].0 < ids@[b].0,
        decreases ids.len() - i,
    {
        if ids[i - 1].0 >= ids[i].0 {
            return false;
        }
        assert forall|a: int, b: int| 0 <= a < b < i + 1 && b < ids@.len() implies ids@[a].0
            < ids@[b].0 by {
            if b == i && a < i - 1 {
                assert(ids@[a].0 < ids@[i - 1].0);
            }
        }
        i = i + 1;
    }
    true
}

/// Appends the encodings of a list of node identifiers.
fn push_ids(out: &mut Vec<u8>, ids: &Vec<NodeId>)
    ensures
        final(out)@ == old(out)@ + encode_ids(ids@),
{
    let mut i: usize = 0;
    while i < ids.len()
        invariant
            i <= ids.len(),
            out@ == old(out)@ + encode_ids(ids@.subrange(0, i as int)),
        decreases ids.len() - i,
    {
        push_u64(out, ids[i].0);
        let ghost pre = ids@.subrange(0, i + 1);
        assert(pre.drop_last() =~= ids@.subrange(0, i as int));
        i = i + 1;
    }
    assert(ids@.subrange(0, ids.len() as int) =~= ids@);
}

impl Event {
    /// The canonical encoding of this event, or an error where it has none.
    pub fn encode(&self) -> (r: Result<Vec<u8>, HashError>)
        ensures
            r is Ok <==> canonical(self@),
            r matches Ok(bytes) ==> bytes@ == encode_event(self@),
            r matches Err(e) ==> e == HashError::ComputeHashSerialize,
    {
        if let Action::Init(ids) = self.action() {
            if !is_strictly_ascending(ids) {
                return Err(HashError::ComputeHashSerialize);
            }
        }
        let mut out: Vec<u8> = Vec::new();
        push_u64(&mut out, self.creator_id().0);
        push_opt_hash(&mut out, self.self_parent());
        push_opt_hash(&mut out, self.other_parent());
        match self.action() {
            Action::Init(ids) => {
                push_tag(&mut out, 0);
                push_u64(&mut out, ids.len() as u64);
                push_ids(&mut out, ids);
            },
            Action::Add(n) => {
                push_tag(&mut out, 1);
                push_u64(&mut out, n.0);
            },
            Action::Remove(n) => {
                push_tag(&mut out, 2);
                push_u64(&mut out, n.0);
            },
        }
        assert(out@ =~= encode_event(self@));
        Ok(out)
    }

    /// The content address of this event, or an error where it has no canonical encoding.
    pub fn hash(&self) -> (r: Result<crate::hash::Hash, HashError>)
        ensures
            r is Ok <==> canonical(self@),
            r matches Ok(h) ==> h@ == event_hash(self@),
            r matches Err(e) ==> e == HashError::ComputeHashSerialize,
    {
        let bytes = self.encode()?;
        Ok(compute_hash(bytes.as_slice()))
    }
}

/// The little-endian `u64` held in the 8 bytes of `b` from `pos`.
pub open spec fn le_u64_at(b: Seq<u8>, pos: int) -> u64 {
    (b[pos] as u64) | ((b[pos + 1] as u64) << 8u64) | ((b[pos + 2] as u64) << 16u64) | ((b[pos
        + 3] as u64) << 24u64) | ((b[pos + 4] as u64) << 32u64) | ((b[pos + 5] as u64) << 40u64)
        | ((b[pos + 6] as u64) << 48u64) | ((b[pos + 7] as u64) << 56u64)
}

/// Reads an optional hash at `pos`: the value and the position after it.
pub open spec fn decode_opt_hash(b: Seq<u8>, pos: int) -> Option<(Option<Seq<u8>>, int)> {
    if 0 <= pos < b.len() && b[pos] == 0 {
        Some((None, pos + 1))
    } else if 0 <= pos && pos + 33 <= b.len() && b[pos] == 1 {
        Some((Some(b.subrange(pos + 1, pos + 33)), pos + 33))
    } else {
        None
    }
}

/// The `count` node identifiers stored from `pos` on.
pub open spec fn ids_at(b: Seq<u8>, pos: int, count: nat) -> Seq<NodeId> {
    Seq::new(count, |i: int| NodeId(le_u64_at(b, pos + 8 * i)))
}

/// Reads an action that fills the bytes from `pos` to the end.
pub open spec fn decode_action(b: Seq<u8>, pos: int) -> Option<ActionView> {
    if !(0 <= pos && pos + 12 <= b.len() && b[pos + 1] == 0 && b[pos + 2] == 0 && b[pos + 3]
        == 0) {
        None
    } else {
        let v = le_u64_at(b, pos + 4);
        let rest = b.len() - (pos + 12);
        if b[pos] == 1 && rest == 0 {
            Some(ActionView::Add(NodeId(v)))
        } else if b[pos] == 2 && rest == 0 {
            Some(ActionView::Remove(NodeId(v)))
        } else if b[pos] == 0 && rest == 8 * v {
            Some(ActionView::Init(ids_at(b, pos + 12, v as nat)))
        } else {
            None
        }
    }
}

/// Reads an event that fills the bytes from `pos` to the end.
pub open spec fn decode_event(b: Seq<u8>, pos: int) -> Option<EventView> {
    if !(0 <= pos && pos + 8 <= b.len()) {
        None
    } else {
        match decode_opt_hash(b, pos + 8) {
            None => None,
            Some((sp, p1)) => match decode_opt_hash(b, p1) {
                None => None,
                Some((op, p2)) => match decode_action(b, p2) {
                    None => None,
                    Some(a) => Some(
                        EventView {
                            creator_id: NodeId(le_u64_at(b, pos)),
                            self_parent: sp,
                            other_parent: op,
                            action: a,
                        },
                    ),
                },
            },
        }
    }
}

/// The encoding of a message that carries the event `e`: an enum tag, then the event.
pub open spec fn encode_message(e: EventView) -> Seq<u8> {
    tag_le(0) + encode_event(e)
}

/// Reads a message, if the bytes hold one.
pub open spec fn decode_message(b: Seq<u8>) -> Option<EventView> {
    if b.len() >= 4 && b[0] == 0 && b[1] == 0 && b[2] == 0 && b[3] == 0 {
        decode_event(b, 4)
    } else {
        None
    }
}

/// Lists of node identifiers short enough that their length, counted in bytes, fits a `u64`.
pub open spec fn small_lists(e: EventView) -> bool {
    e.action matches ActionView::Init(ids) ==> ids.len() < 0x2000_0000_0000_0000
}

proof fn lemma_u64_round_trip(x: u64)
    ensures
        le_u64_at(u64_le(x), 0) == x,
{
    let b = u64_le(x);
    assert(le_u64_at(b, 0) == (x as u8 as u64) | (((x >> 8u64) as u8 as u64) << 8u64) | (((x
        >> 16u64) as u8 as u64) << 16u64) | (((x >> 24u64) as u8 as u64) << 24u64) | (((x
        >> 32u64) as u8 as u64) << 32u64) | (((x >> 40u64) as u8 as u64) << 40u64) | (((x
        >> 48u64) as u8 as u64) << 48u64) | (((x >> 56u64) as u8 as u64) << 56u64));
    assert((x as u8 as u64) | (((x >> 8u64) as u8 as u64) << 8u64) | (((x >> 16u64) as u8 as u64)
        << 16u64) | (((x >> 24u64) as u8 as u64) << 24u64) | (((x >> 32u64) as u8 as u64)
        << 32u64) | (((x >> 40u64) as u8 as u64) << 40u64) | (((x >> 48u64) as u8 as u64)
        << 48u64) | (((x >> 56u64) as u8 as u64) << 56u64) == x) by (bit_vector);
}

/// The 8 bytes of `x`, read back from inside a longer byte string.
proof fn lemma_read_u64(pre: Seq<u8>, x: u64, post: Seq<u8>)
    ensures
        le_u64_at(pre + u64_le(x) + post, pre.len() as int) == x,
{
    let b = pre + u64_le(x) + post;
    let p = pre.len() as int;
    lemma_u64_round_trip(x);
    assert forall|k: int| 0 <= k < 8 implies b[p + k] == u64_le(x)[k] by {}
    assert(le_u64_at(b, p) == le_u64_at(u64_le(x), 0));
}

/// The encoding of a list of identifiers holds the 8 bytes of each, in order.
proof fn lemma_encode_ids(ids: Seq<NodeId>)
    ensures
        encode_ids(ids).len() == 8 * ids.len(),
        forall|i: int|
            0 <= i < ids.len() ==> encode_ids(ids).subrange(8 * i, 8 * i + 8) == u64_le(
                #[trigger] ids[i].0,
            ),
    decreases ids.len(),
{
    if ids.len() > 0 {
        let front = ids.drop_last();
        lemma_encode_ids(front);
        let enc = encode_ids(ids);
        assert forall|i: int| 0 <= i < ids.len() implies enc.subrange(8 * i, 8 * i + 8) == u64_le(
            #[trigger] ids[i].0,
        ) by {
            if i < ids.len() - 1 {
                assert(front[i] == ids[i]);
                assert(enc.subrange(8 * i, 8 * i + 8) =~= encode_ids(front).subrange(8 * i, 8 * i + 8));
            } else {
                assert(enc.subrange(8 * i, 8 * i + 8) =~= u64_le(ids.last().0));
            }
        }
    }
}

/// A list of identifiers, read back from inside a longer byte string.
proof fn lemma_read_ids(pre: Seq<u8>, ids: Seq<NodeId>)
    ensures
        ids_at(pre + encode_ids(ids), pre.len() as int, ids.len()) == ids,
{
    let b = pre + encode_ids(ids);
    let p = pre.len() as int;
    lemma_encode_ids(ids);
    assert forall|i: int| 0 <= i < ids.len() implies #[trigger] ids_at(b, p, ids.len())[i]
        == ids[i] by {
        let tail = encode_ids(ids).subrange(8 * i + 8, 8 * ids.len() as int);
        assert(b =~= (pre + encode_ids(ids).subrange(0, 8 * i)) + u64_le(ids[i].0) + tail) by {
            assert(encode_ids(ids) =~= encode_ids(ids).subrange(0, 8 * i) + encode_ids(ids).subrange(
                8 * i,
                8 * i + 8,
            ) + tail);
        }
        lemma_read_u64(pre + encode_ids(ids).subrange(0, 8 * i), ids[i].0, tail);
    }
    assert(ids_at(b, p, ids.len()) =~= ids);
}

/// An optional hash, read back from inside a longer byte string.
proof fn lemma_read_opt_hash(pre: Seq<u8>, h: Option<Seq<u8>>, post: Seq<u8>)
    requires
        h matches Some(x) ==> x.len() == 32,
    ensures
        decode_opt_hash(pre + encode_opt_hash(h) + post, pre.len() as int) == Some(
            (h, pre.len() + encode_opt_hash(h).len() as int),
        ),
{
    let b = pre + encode_opt_hash(h) + post;
    let p = pre.len() as int;
    assert(b[p] == encode_opt_hash(h)[0]);
    if let Some(x) = h {
        assert(b.subrange(p + 1, p + 33) =~= x);
    }
}

/// An `Add` or `Remove` action, read back at the end of a byte string.
proof fn lemma_read_tagged(pre: Seq<u8>, t: u8, x: u64)
    requires
        t == 1 || t == 2,
    ensures
        decode_action(pre + tag_le(t) + u64_le(x), pre.len() as int) == (if t == 1 {
            Some(ActionView::Add(NodeId(x)))
        } else {
            Some(ActionView::Remove(NodeId(x)))
        }),
{
    let b = pre + tag_le(t) + u64_le(x);
    let p = pre.len() as int;
    assert(b =~= pre + tag_le(t) + u64_le(x) + Seq::<u8>::empty());
    lemma_read_u64(pre + tag_le(t), x, Seq::empty());
    assert(b[p] == t && b[p + 1] == 0 && b[p + 2] == 0 && b[p + 3] == 0);
}

/// An `Init` action, read back at the end of a byte string.
proof fn lemma_read_init(pre: Seq<u8>, ids: Seq<NodeId>)
    requires
        ids.len() < 0x2000_0000_0000_0000,
    ensures
        decode_action(pre + encode_action(ActionView::Init(ids)), pre.len() as int) == Some(
            ActionView::Init(ids),
        ),
{
    let b = pre + encode_action(ActionView::Init(ids));
    let p = pre.len() as int;
    let n = ids.len() as u64;
    lemma_encode_ids(ids);
    let t = tag_le(0) + u64_le(n);
    assert(b =~= pre + tag_le(0) + u64_le(n) + encode_ids(ids));
    lemma_read_u64(pre + tag_le(0), n, encode_ids(ids));
    assert(b =~= (pre + t) + encode_ids(ids));
    lemma_read_ids(pre + t, ids);
    assert(b[p] == 0 && b[p + 1] == 0 && b[p + 2] == 0 && b[p + 3] == 0);
    assert(b.len() - (p + 12) == 8 * n);
}

/// An action, read back at the end of a byte string.
proof fn lemma_read_action(pre: Seq<u8>, a: ActionView)
    requires
        a matches ActionView::Init(ids) ==> ids.len() < 0x2000_0000_0000_0000,
    ensures
        decode_action(pre + encode_action(a), pre.len() as int) == Some(a),
{
    match a {
        ActionView::Init(ids) => lemma_read_init(pre, ids),
        ActionView::Add(n) => {
            assert(encode_action(a) == tag_le(1) + u64_le(n.0));
            assert(pre + encode_action(a) == pre + tag_le(1) + u64_le(n.0));
            lemma_read_tagged(pre, 1, n.0);
        },
        ActionView::Remove(n) => {
            assert(encode_action(a) == tag_le(2) + u64_le(n.0));
            assert(pre + encode_action(a) == pre + tag_le(2) + u64_le(n.0));
            lemma_read_tagged(pre, 2, n.0);
        },
    }
}

/// The bytes of a message, cut where its fields begin.
proof fn lemma_message_parts(e: EventView)
    ensures
        ({
            let t = tag_le(0);
            let c = u64_le(e.creator_id.0);
            let s = encode_opt_hash(e.self_parent);
            let o = encode_opt_hash(e.other_parent);
            let a = encode_action(e.action);
            let b = encode_message(e);
            &&& b == t + c + (s + o + a)
            &&& b == (t + c) + s + (o + a)
            &&& b == (t + c + s) + o + a
            &&& b == (t + c + s + o) + a
        }),
{
    let t = tag_le(0);
    let c = u64_le(e.creator_id.0);
    let s = encode_opt_hash(e.self_parent);
    let o = encode_opt_hash(e.other_parent);
    let a = encode_action(e.action);
    let b = encode_message(e);
    assert(b =~= t + c + (s + o + a));
    assert(b =~= (t + c) + s + (o + a));
    assert(b =~= (t + c + s) + o + a);
    assert(b =~= (t + c + s + o) + a);
}

/// Decoding the encoding of a message gives back the event it carries.
pub proof fn lemma_message_round_trip(e: EventView)
    requires
        canonical(e),
        small_lists(e),
    ensures
        decode_message(encode_message(e)) == Some(e),
{
    let b = encode_message(e);
    let c = u64_le(e.creator_id.0);
    let s = encode_opt_hash(e.self_parent);
    let o = encode_opt_hash(e.other_parent);
    let a = encode_action(e.action);
    let t = tag_le(0);
    lemma_message_parts(e);
    lemma_read_u64(t, e.creator_id.0, s + o + a);
    lemma_read_opt_hash(t + c, e.self_parent, o + a);
    lemma_read_opt_hash(t + c + s, e.other_parent, a);
    lemma_read_action(t + c + s + o, e.action);
    assert(b[0] == 0 && b[1] == 0 && b[2] == 0 && b[3] == 0);
}

/// Reads the little-endian `u64` at `pos`.
fn read_u64(b: &[u8], pos: usize) -> (r: u64)
    requires
        pos + 8 <= b@.len(),
    ensures
        r == le_u64_at(b@, pos as int),
{
    (b[pos] as u64) | ((b[pos + 1] as u64) << 8u64) | ((b[pos + 2] as u64) << 16u64) | ((b[pos
        + 3] as u64) << 24u64) | ((b[pos + 4] as u64) << 32u64) | ((b[pos + 5] as u64) << 40u64)
        | ((b[pos + 6] as u64) << 48u64) | ((b[pos + 7] as u64) << 56u64)
}

/// Reads an optional hash at `pos`.
fn read_opt_hash(b: &[u8], pos: usize) -> (r: Option<(Option<crate::hash::Hash>, usize)>)
    requires
        pos <= b@.len(),
    ensures
        decode_opt_hash(b@, pos as int) matches Some((h, p)) ==> r matches Some((x, q))
            && crate::graph::opt_hash_view(x) == h && q == p,
        decode_opt_hash(b@, pos as int) is None ==> r is None,
{
    if pos < b.len() && b[pos] == 0 {
        Some((None, pos + 1))
    } else if pos < b.len() && b[pos] == 1 && b.len() - pos >= 33 {
        let h = [b[pos + 1], b[pos + 2], b[pos + 3], b[pos + 4], b[pos + 5], b[pos + 6], b[pos + 7], b[pos + 8], b[pos + 9], b[pos + 10], b[pos + 11], b[pos + 12], b[pos + 13], b[pos + 14], b[pos + 15], b[pos + 16], b[pos + 17], b[pos + 18], b[pos + 19], b[pos + 20], b[pos + 21], b[pos + 22], b[pos + 23], b[pos + 24], b[pos + 25], b[pos + 26], b[pos + 27], b[pos + 28], b[pos + 29], b[pos + 30], b[pos + 31], b[pos + 32]];
        assert(h@ =~= b@.subrange(pos + 1, pos + 33));
        Some((Some(crate::hash::Hash(h)), pos + 33))
    } else {
        None
    }
}

/// Reads `count` node identifiers from `pos` on.
fn read_ids(b: &[u8], pos: usize, count: usize) -> (r: Vec<NodeId>)
    requires
        pos + 8 * count <= b@.len(),
    ensures
        r@ == ids_at(b@, pos as int, count as nat),
{
    let mut r: Vec<NodeId> = Vec::new();
    let mut i: usize = 0;
    let n = b.len();
    while i < count
        invariant
            i <= count,
            n == b@.len(),
            pos + 8 * count <= b@.len(),
            r@ == ids_at(b@, pos as int, i as nat),
        decreases count - i,
    {
        assert(8 * i + 8 <= 8 * count) by (nonlinear_arith)
            requires
                i < count,
        ;
        r.push(NodeId(read_u64(b, pos + 8 * i)));
        assert(r@ =~= ids_at(b@, pos as int, (i + 1) as nat));
        i = i + 1;
    }
    r
}

/// Reads an action that fills the bytes from `pos` to the end.
fn read_action(b: &[u8], pos: usize) -> (r: Option<Action>)
    requires
        pos <= b@.len(),
    ensures
        r is Some <==> decode_action(b@, pos as int) is Some,
        r matches Some(a) ==> decode_action(b@, pos as int) == Some(a@),
{
    if b.len() - pos < 12 || b[pos + 1] != 0 || b[pos + 2] != 0 || b[pos + 3] != 0 {
        return None;
    }
    let v = read_u64(b, pos + 4);
    let rest = b.len() - (pos + 12);
    let tag = b[pos];
    if tag == 1 && rest == 0 {
        Some(Action::Add(NodeId(v)))
    } else if tag == 2 && rest == 0 {
        Some(Action::Remove(NodeId(v)))
    } else if tag == 0 && rest % 8 == 0 && (rest / 8) as u64 == v {
        let count = rest / 8;
        let ids = read_ids(b, pos + 12, count);
        Some(Action::Init(ids))
    } else {
        proof {
            if tag == 0 && rest == 8 * v {
                assert(rest % 8 == 0 && rest / 8 == v);
            }
        }
        None
    }
}

impl Message {
    /// The event that this message carries.
    pub fn event(&self) -> (r: &Event)
        ensures
            r@ == self@,
    {
        match self {
            Message::Event(e) => e,
        }
    }

    /// The canonical encoding of this message, or an error where the event it carries has none.
    pub fn to_bytes(&self) -> (r: Result<Vec<u8>, HashError>)
        ensures
            r is Ok <==> canonical(self@),
            r matches Ok(bytes) ==> bytes@ == encode_message(self@),
            r matches Err(e) ==> e == HashError::ComputeHashSerialize,
    {
        let mut body = self.event().encode()?;
        let mut out: Vec<u8> = Vec::new();
        push_tag(&mut out, 0);
        out.append(&mut body);
        Ok(out)
    }

    /// Reads a message from its encoding; `None` where the bytes hold no message.
    pub fn from_bytes(bytes: &[u8]) -> (r: Option<Message>)
        ensures
            r is Some <==> decode_message(bytes@) is Some,
            r matches Some(m) ==> decode_message(bytes@) == Some(m@),
    {
        if bytes.len() < 12 || bytes[0] != 0 || bytes[1] != 0 || bytes[2] != 0 || bytes[3] != 0 {
            return None;
        }
        let creator = read_u64(bytes, 4);
        let (sp, p1) = match read_opt_hash(bytes, 12) {
            Some(x) => x,
            None => {
                return None;
            },
        };
        let (op, p2) = match read_opt_hash(bytes, p1) {
            Some(x) => x,
            None => {
                return None;
            },
        };
        let action = match read_action(bytes, p2) {
            Some(a) => a,
            None => {
                return None;
            },
        };
        Some(Message::Event(Event::new(NodeId(creator), sp, op, action)))
    }
}

} // verus!

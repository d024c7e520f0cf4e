//! Broadcast by gossip: every node keeps the set of messages it has heard of
//! and, on each tick, tells each of a few chosen neighbours what it believes
//! that neighbour has not heard yet.

use vstd::prelude::*;
use std::collections::HashSet;
use vstd::std_specs::iter::IteratorSpec;
use crate::message::{batch_view, names, BodyView, Message, MessageBody, MessageView, Name};
use crate::node::{all_from, numbered_from, request_id, without, MessageHandler, Node, NodeView};
use crate::str_map::{lemma_as_map_entry, StrMap};
use crate::strings::str_eq;

verus! {

broadcast use vstd::std_specs::hash::group_hash_axioms;

/// The most messages that one gossip message carries.
pub const GOSSIP_BATCH: usize = 1024;

/// The number of neighbours that a node gossips with.
pub const FANOUT: usize = 4;

/// What the state of a broadcast node stands for.
pub struct BroadcastView {
    /// The messages the node has heard of.
    pub messages: Set<u64>,
    /// The neighbours the node gossips with.
    pub gossip_peers: Seq<Name>,
    /// For each peer, the messages the node believes the peer has heard of.
    pub peer_seen: Map<Name, Set<u64>>,
}

/// The messages that the node believes `peer` has heard of.
pub open spec fn seen_by(peer_seen: Map<Name, Set<u64>>, peer: Name) -> Set<u64> {
    if peer_seen.contains_key(peer) {
        peer_seen[peer]
    } else {
        Set::empty()
    }
}

/// `l` lists every element of `s` once.
pub open spec fn is_listing(l: Seq<u64>, s: Set<u64>) -> bool {
    l.no_duplicates() && l.to_set() == s
}

/// `delta` is a fit choice of what to tell a peer: messages the node has and
/// believes the peer has not, none twice, no more than one message carries,
/// and all of them unless there are too many.
pub open spec fn valid_delta(delta: Seq<u64>, messages: Set<u64>, seen: Set<u64>) -> bool {
    &&& delta.no_duplicates()
    &&& forall|i: int| 0 <= i < delta.len() ==> messages.contains(#[trigger] delta[i]) && !seen.contains(delta[i])
    &&& delta.len() <= GOSSIP_BATCH
    &&& delta.len() < GOSSIP_BATCH ==> forall|x: u64|
        messages.contains(x) && !seen.contains(x) ==> #[trigger] delta.contains(x)
}

/// `pick` is a fit choice of `k` neighbours for the node `id` among `peers`:
/// the first `k` of the peers other than the node itself in some order, or
/// all of them where there are fewer.
pub open spec fn picked_from(pick: Seq<Name>, peers: Seq<Name>, id: Name, k: nat) -> bool {
    exists|order: Seq<Name>| #[trigger]
        order.to_multiset() == without(peers, id).to_multiset() && pick == order.take(
            if k <= order.len() {
                k as int
            } else {
                order.len() as int
            },
        )
}

/// What the node believes of its peers after a round of gossip in which it
/// told the `i`-th neighbour `deltas[i]`: each neighbour is believed to have
/// heard what it was told.
pub open spec fn seen_after(peer_seen: Map<Name, Set<u64>>, peers: Seq<Name>, deltas: Seq<Seq<u64>>) -> Map<
    Name,
    Set<u64>,
>
    decreases peers.len(),
{
    if peers.len() == 0 || deltas.len() != peers.len() {
        peer_seen
    } else {
        let before = seen_after(peer_seen, peers.drop_last(), deltas.drop_last());
        before.insert(peers.last(), seen_by(before, peers.last()).union(deltas.last().to_set()))
    }
}

/// The messages of a round of gossip in which the node tells the `i`-th
/// neighbour `deltas[i]`: one to each neighbour for which there is something
/// to tell, in the order of the neighbours.
pub open spec fn gossip_out(n: NodeView, peers: Seq<Name>, deltas: Seq<Seq<u64>>) -> Seq<MessageView>
    decreases peers.len(),
{
    if peers.len() == 0 || deltas.len() != peers.len() {
        Seq::empty()
    } else {
        let before = gossip_out(n, peers.drop_last(), deltas.drop_last());
        if deltas.last().len() == 0 {
            before
        } else {
            before.push(
                MessageView {
                    src: n.id,
                    dest: peers.last(),
                    body: BodyView::BroadcastGossip {
                        msg_id: (n.msg_id + 1 + before.len()) as u64,
                        messages: deltas.last(),
                    },
                },
            )
        }
    }
}

/// Each `deltas[i]` is a fit choice for the `i`-th neighbour at its turn.
pub open spec fn deltas_valid(
    messages: Set<u64>,
    peer_seen: Map<Name, Set<u64>>,
    peers: Seq<Name>,
    deltas: Seq<Seq<u64>>,
) -> bool
    decreases peers.len(),
{
    deltas.len() == peers.len() && (peers.len() == 0 || {
        &&& deltas_valid(messages, peer_seen, peers.drop_last(), deltas.drop_last())
        &&& valid_delta(
            deltas.last(),
            messages,
            seen_by(seen_after(peer_seen, peers.drop_last(), deltas.drop_last()), peers.last()),
        )
    })
}

/// A node without a name, without neighbours or without messages does not
/// gossip.
pub open spec fn idle(s: BroadcastView, n: NodeView) -> bool {
    n.id.len() == 0 || s.gossip_peers.len() == 0 || s.messages.is_empty()
}

/// A round of gossip in which the node tells the `i`-th neighbour
/// `deltas[i]`.
pub open spec fn gossip_round(s: BroadcastView, n: NodeView, deltas: Seq<Seq<u64>>) -> (
    BroadcastView,
    NodeView,
    Seq<MessageView>,
) {
    let out = gossip_out(n, s.gossip_peers, deltas);
    (
        BroadcastView { peer_seen: seen_after(s.peer_seen, s.gossip_peers, deltas), ..s },
        NodeView { msg_id: (n.msg_id + out.len()) as u64, ..n },
        out,
    )
}

/// The node's state after it has heard `items` from `peer`: it has heard of
/// them itself, and believes that the peer has.
pub open spec fn heard_from(s: BroadcastView, peer: Name, items: Seq<u64>) -> BroadcastView {
    BroadcastView {
        messages: s.messages.union(items.to_set()),
        peer_seen: s.peer_seen.insert(peer, seen_by(s.peer_seen, peer).union(items.to_set())),
        ..s
    }
}

/// What a broadcast node does with one message, where `pick` is the choice of
/// neighbours it makes on `init` and `listing` the order in which it lists
/// its messages on `read`.
pub open spec fn broadcast_step(
    s: BroadcastView,
    n: NodeView,
    m: MessageView,
    pick: Seq<Name>,
    listing: Seq<u64>,
) -> (BroadcastView, NodeView, Seq<MessageView>) {
    let next = (n.msg_id + 1) as u64;
    let bumped = NodeView { msg_id: next, ..n };
    match m.body {
        BodyView::Init { msg_id, node_id, node_ids } => (
            BroadcastView { gossip_peers: pick, ..s },
            NodeView { id: node_id, peers: without(node_ids, node_id), msg_id: next },
            seq![
                MessageView {
                    src: node_id,
                    dest: m.src,
                    body: BodyView::InitOk { msg_id: next, in_reply_to: msg_id },
                },
            ],
        ),
        BodyView::Topology { msg_id, .. } => (
            s,
            bumped,
            seq![
                MessageView {
                    src: n.id,
                    dest: m.src,
                    body: BodyView::TopologyOk { msg_id: next, in_reply_to: msg_id },
                },
            ],
        ),
        BodyView::Broadcast { msg_id, message } => (
            BroadcastView { messages: s.messages.insert(message), ..s },
            bumped,
            seq![
                MessageView {
                    src: n.id,
                    dest: m.src,
                    body: BodyView::BroadcastOk { msg_id: next, in_reply_to: msg_id },
                },
            ],
        ),
        BodyView::BroadcastGossip { messages, .. } => (heard_from(s, m.src, messages), n, Seq::empty()),
        BodyView::Read { msg_id } => (
            s,
            bumped,
            seq![
                MessageView {
                    src: n.id,
                    dest: m.src,
                    body: BodyView::ReadOk {
                        msg_id: next,
                        in_reply_to: msg_id,
                        messages: Some(listing),
                        value: None,
                    },
                },
            ],
        ),
        _ => (s, n, Seq::empty()),
    }
}

/// The list that a `read_ok` in `out` carries, or the empty list.
pub open spec fn listed(out: Seq<MessageView>) -> Seq<u64> {
    if out.len() == 1 && out[0].body is ReadOk && out[0].body->ReadOk_messages is Some {
        out[0].body->ReadOk_messages->0
    } else {
        Seq::empty()
    }
}

/// A round of gossip changes nothing in what the node believes of a peer
/// that is not among its neighbours.
pub proof fn lemma_round_leaves_others(
    peer_seen: Map<Name, Set<u64>>,
    peers: Seq<Name>,
    deltas: Seq<Seq<u64>>,
    p: Name,
)
    requires
        deltas.len() == peers.len(),
        !peers.contains(p),
    ensures
        seen_by(seen_after(peer_seen, peers, deltas), p) == seen_by(peer_seen, p),
    decreases peers.len(),
{
    if peers.len() > 0 {
        let front = peers.drop_last();
        assert(peers[peers.len() - 1] != p);
        assert(!front.contains(p)) by {
            if front.contains(p) {
                let j = choose|j: int| 0 <= j < front.len() && front[j] == p;
                assert(peers[j] == p);
            }
        }
        lemma_round_leaves_others(peer_seen, front, deltas.drop_last(), p);
    }
}

/// What a round of gossip does for the `i`-th of neighbours that are all
/// different. What the neighbour is told is a fit choice from what the node
/// had and believed the neighbour had not when the round began: those
/// messages themselves, or 1024 of them where there are more. And after the
/// round the node believes that the neighbour has heard what it believed
/// before and what it was told.
pub proof fn lemma_round_for_peer(
    messages: Set<u64>,
    peer_seen: Map<Name, Set<u64>>,
    peers: Seq<Name>,
    deltas: Seq<Seq<u64>>,
    i: int,
)
    requires
        peers.no_duplicates(),
        deltas_valid(messages, peer_seen, peers, deltas),
        0 <= i < peers.len(),
    ensures
        valid_delta(deltas[i], messages, seen_by(peer_seen, peers[i])),
        seen_by(seen_after(peer_seen, peers, deltas), peers[i]) == seen_by(peer_seen, peers[i]).union(
            deltas[i].to_set(),
        ),
    decreases peers.len(),
{
    let front = peers.drop_last();
    let told = deltas.drop_last();
    let last = peers.len() - 1;
    assert(front.no_duplicates());
    if i == last {
        assert(!front.contains(peers[last])) by {
            if front.contains(peers[last]) {
                let j = choose|j: int| 0 <= j < front.len() && front[j] == peers[last];
                assert(peers[j] == peers[last]);
            }
        }
        lemma_round_leaves_others(peer_seen, front, told, peers[last]);
    } else {
        assert(front[i] == peers[i]);
        assert(told[i] == deltas[i]);
        lemma_round_for_peer(messages, peer_seen, front, told, i);
        assert(peers[last] != peers[i]);
    }
}

/// The messages of a round of gossip among neighbours that are all
/// different: a neighbour for which there is something to tell gets exactly
/// one message, which carries the node's name and what the neighbour is
/// told; a neighbour for which there is nothing gets none; and nobody else
/// gets any.
pub proof fn lemma_round_messages(n: NodeView, peers: Seq<Name>, deltas: Seq<Seq<u64>>)
    requires
        peers.no_duplicates(),
        deltas.len() == peers.len(),
    ensures
        gossip_out(n, peers, deltas).len() <= peers.len(),
        forall|j: int|
            0 <= j < gossip_out(n, peers, deltas).len() ==> exists|i: int|
                0 <= i < peers.len() && deltas[i].len() > 0 && (#[trigger] gossip_out(n, peers, deltas)[j])
                    == (MessageView {
                    src: n.id,
                    dest: peers[i],
                    body: BodyView::BroadcastGossip { msg_id: (n.msg_id + 1 + j) as u64, messages: deltas[i] },
                }),
        forall|i: int|
            0 <= i < peers.len() && (#[trigger] deltas[i]).len() > 0 ==> exists|j: int|
                0 <= j < gossip_out(n, peers, deltas).len() && gossip_out(n, peers, deltas)[j].dest
                    == peers[i],
        forall|j: int, k: int|
            0 <= j < k < gossip_out(n, peers, deltas).len() ==> gossip_out(n, peers, deltas)[j].dest
                != gossip_out(n, peers, deltas)[k].dest,
    decreases peers.len(),
{
    if peers.len() > 0 {
        let front = peers.drop_last();
        let told = deltas.drop_last();
        let last = peers.len() - 1;
        assert(front.no_duplicates());
        lemma_round_messages(n, front, told);
        let before = gossip_out(n, front, told);
        let out = gossip_out(n, peers, deltas);
        assert(deltas.last() == deltas[last]);
        assert(peers.last() == peers[last]);
        assert forall|j: int| 0 <= j < out.len() implies exists|i: int|
            0 <= i < peers.len() && deltas[i].len() > 0 && (#[trigger] out[j]) == (MessageView {
                src: n.id,
                dest: peers[i],
                body: BodyView::BroadcastGossip { msg_id: (n.msg_id + 1 + j) as u64, messages: deltas[i] },
            }) by {
            if j < before.len() {
                assert(out[j] == before[j]);
                let i = choose|i: int|
                    0 <= i < front.len() && told[i].len() > 0 && before[j] == (MessageView {
                        src: n.id,
                        dest: front[i],
                        body: BodyView::BroadcastGossip {
                            msg_id: (n.msg_id + 1 + j) as u64,
                            messages: told[i],
                        },
                    });
                assert(peers[i] == front[i] && deltas[i] == told[i]);
            } else {
                assert(deltas[last].len() > 0);
            }
        }
        assert forall|i: int| 0 <= i < peers.len() && (#[trigger] deltas[i]).len() > 0 implies exists|
            j: int,
        | 0 <= j < out.len() && out[j].dest == peers[i] by {
            if i < last {
                assert(told[i] == deltas[i]);
                let j = choose|j: int| 0 <= j < before.len() && before[j].dest == front[i];
                assert(out[j] == before[j]);
                assert(out[j].dest == peers[i]);
            } else {
                assert(out[before.len() as int].dest == peers[i]);
            }
        }
        assert forall|j: int, k: int| 0 <= j < k < out.len() implies out[j].dest != out[k].dest by {
            if k < before.len() {
                assert(out[j] == before[j] && out[k] == before[k]);
            } else {
                assert(out[j] == before[j]);
                let i = choose|i: int|
                    0 <= i < front.len() && told[i].len() > 0 && before[j] == (MessageView {
                        src: n.id,
                        dest: front[i],
                        body: BodyView::BroadcastGossip {
                            msg_id: (n.msg_id + 1 + j) as u64,
                            messages: told[i],
                        },
                    });
                assert(peers[i] == front[i]);
                assert(peers[i] != peers[last]);
            }
        }
    }
}

/// After a round among neighbours that are all different in which every
/// neighbour was told all that it was believed not to have heard, there is
/// nothing left to tell: as long as the node hears of no new message, the
/// next round sends nothing.
pub proof fn lemma_round_then_quiet(
    s: BroadcastView,
    n: NodeView,
    deltas: Seq<Seq<u64>>,
    next: Seq<Seq<u64>>,
)
    requires
        s.gossip_peers.no_duplicates(),
        deltas_valid(s.messages, s.peer_seen, s.gossip_peers, deltas),
        forall|i: int| 0 <= i < deltas.len() ==> (#[trigger] deltas[i]).len() < GOSSIP_BATCH,
        deltas_valid(s.messages, gossip_round(s, n, deltas).0.peer_seen, s.gossip_peers, next),
    ensures
        forall|i: int| 0 <= i < next.len() ==> (#[trigger] next[i]).len() == 0,
        gossip_out(gossip_round(s, n, deltas).1, s.gossip_peers, next) == Seq::<MessageView>::empty(),
{
    let peers = s.gossip_peers;
    let after = seen_after(s.peer_seen, peers, deltas);
    assert forall|i: int| 0 <= i < next.len() implies (#[trigger] next[i]).len() == 0 by {
        lemma_round_for_peer(s.messages, s.peer_seen, peers, deltas, i);
        lemma_round_for_peer(s.messages, after, peers, next, i);
        if next[i].len() > 0 {
            let x = next[i][0];
            assert(s.messages.contains(x) && !seen_by(after, peers[i]).contains(x));
            assert(!seen_by(s.peer_seen, peers[i]).contains(x));
            assert(deltas[i].contains(x));
            assert(deltas[i].to_set().contains(x));
        }
    }
    lemma_quiet_out(gossip_round(s, n, deltas).1, peers, next);
}

/// A round in which nobody is told anything sends nothing.
pub proof fn lemma_quiet_out(n: NodeView, peers: Seq<Name>, deltas: Seq<Seq<u64>>)
    requires
        deltas.len() == peers.len(),
        forall|i: int| 0 <= i < deltas.len() ==> (#[trigger] deltas[i]).len() == 0,
    ensures
        gossip_out(n, peers, deltas) == Seq::<MessageView>::empty(),
    decreases peers.len(),
{
    if peers.len() > 0 {
        let told = deltas.drop_last();
        assert forall|i: int| 0 <= i < told.len() implies (#[trigger] told[i]).len() == 0 by {
            assert(told[i] == deltas[i]);
        }
        lemma_quiet_out(n, peers.drop_last(), told);
        assert(deltas.last() == deltas[deltas.len() - 1]);
    }
}

/// Hearing of a message twice is the same as hearing of it once.
pub proof fn lemma_broadcast_idempotent(
    s: BroadcastView,
    n: NodeView,
    m: MessageView,
    again: MessageView,
)
    requires
        m.body is Broadcast,
        again.body is Broadcast,
        m.body->Broadcast_message == again.body->Broadcast_message,
    ensures
        ({
            let once = broadcast_step(s, n, m, Seq::empty(), Seq::empty());
            broadcast_step(once.0, once.1, again, Seq::empty(), Seq::empty()).0 == once.0
        }),
{
    let x = m.body->Broadcast_message;
    assert(s.messages.insert(x).insert(x) =~= s.messages.insert(x));
}

/// Hearing the same gossip twice is the same as hearing it once.
pub proof fn lemma_gossip_idempotent(s: BroadcastView, peer: Name, items: Seq<u64>)
    ensures
        heard_from(heard_from(s, peer, items), peer, items) == heard_from(s, peer, items),
{
    let once = heard_from(s, peer, items);
    let twice = heard_from(once, peer, items);
    assert(twice.messages =~= once.messages);
    assert(seen_by(once.peer_seen, peer).union(items.to_set()) =~= seen_by(once.peer_seen, peer));
    assert(twice.peer_seen =~= once.peer_seen);
}

/// The neighbours picked are peers of the node, none is the node itself, and
/// there are `k` of them, or as many as the node has peers where those are
/// fewer; and where no peer is named twice, no neighbour is picked twice.
pub proof fn lemma_picked(pick: Seq<Name>, peers: Seq<Name>, id: Name, k: nat)
    requires
        picked_from(pick, peers, id, k),
    ensures
        pick.len() == if k <= without(peers, id).len() {
            k
        } else {
            without(peers, id).len()
        },
        forall|i: int| 0 <= i < pick.len() ==> peers.contains(#[trigger] pick[i]) && pick[i] != id,
        peers.no_duplicates() ==> pick.no_duplicates(),
{
    broadcast use vstd::seq_lib::group_to_multiset_ensures;

    let order = choose|order: Seq<Name>| #[trigger]
        order.to_multiset() == without(peers, id).to_multiset() && pick == order.take(
            if k <= order.len() {
                k as int
            } else {
                order.len() as int
            },
        );
    let others = without(peers, id);
    crate::node::lemma_without_members(peers, id);
    assert(order.len() == others.len()) by {
        assert(order.to_multiset().len() == order.len());
        assert(others.to_multiset().len() == others.len());
    }
    assert forall|i: int| 0 <= i < pick.len() implies peers.contains(#[trigger] pick[i]) && pick[i]
        != id by {
        assert(order[i] == pick[i]);
        assert(order.contains(order[i]));
        assert(order.to_multiset().count(order[i]) > 0);
        assert(others.to_multiset().count(order[i]) > 0);
        assert(others.contains(order[i]));
    }
    if peers.no_duplicates() {
        others.lemma_multiset_has_no_duplicates();
        order.lemma_multiset_has_no_duplicates_conv();
        assert forall|a: int, b: int| 0 <= a < pick.len() && 0 <= b < pick.len() && a != b implies pick[a]
            != pick[b] by {
            assert(pick[a] == order[a] && pick[b] == order[b]);
        }
    }
}

/// Puts the names in a random order.
///
/// This calls `shuffle` of `rand::seq::SliceRandom` with the generator of the
/// current thread. All that is claimed of it is that it rearranges: the names
/// afterwards are the names before, each as often as before.
#[verifier::external_body]
fn shuffle_names(v: &mut Vec<String>)
    ensures
        names(final(v)@).to_multiset() == names(old(v)@).to_multiset(),
{
    let mut rng = rand::rng();
    rand::seq::SliceRandom::shuffle(v.as_mut_slice(), &mut rng);
}

/// The state of a broadcast node.
#[derive(Debug)]
pub struct MultiNodeBroadcastNode {
    /// The messages the node has heard of.
    pub messages: HashSet<u64>,
    /// The neighbours the node gossips with.
    pub gossip_peers: Vec<String>,
    /// For each peer, the messages the node believes the peer has heard of.
    pub peer_seen: StrMap<HashSet<u64>>,
}

impl View for MultiNodeBroadcastNode {
    type V = BroadcastView;

    open spec fn view(&self) -> BroadcastView {
        BroadcastView {
            messages: self.messages@,
            gossip_peers: names(self.gossip_peers@),
            peer_seen: self.peer_seen@.map_values(|h: HashSet<u64>| h@),
        }
    }
}

/// The messages of `messages` that are not in `seen`, in some order, as far
/// as one gossip message has room for them.
fn missing_for(messages: &HashSet<u64>, seen: &HashSet<u64>) -> (delta: Vec<u64>)
    ensures
        valid_delta(delta@, messages@, seen@),
{
    let mut delta: Vec<u64> = Vec::new();
    let ghost all = messages.iter().remaining();
    for x in iter: messages.iter()
        invariant
            iter.seq() == all,
            all.unref().no_duplicates(),
            all.unref().to_set() == messages@,
            delta@.no_duplicates(),
            delta@.len() <= GOSSIP_BATCH,
            forall|i: int|
                0 <= i < delta@.len() ==> messages@.contains(#[trigger] delta@[i]) && !seen@.contains(
                    delta@[i],
                ) && exists|j: int| 0 <= j < iter.index() && *all[j] == delta@[i],
            delta@.len() < GOSSIP_BATCH ==> forall|j: int|
                0 <= j < iter.index() && !seen@.contains(*all[j]) ==> delta@.contains(*#[trigger] all[j]),
    {
        let ghost at = iter.index();
        proof {
            assert(all.unref()[at] == *x);
            assert(all.unref().contains(*x));
            assert(messages@.contains(*x));
        }
        if delta.len() < GOSSIP_BATCH && !seen.contains(x) {
            let ghost before = delta@;
            proof {
                assert forall|i: int| 0 <= i < before.len() implies before[i] != *x by {
                    let j = choose|j: int| 0 <= j < at && *all[j] == before[i];
                    assert(all.unref()[j] == before[i]);
                    assert(all.unref()[at] == *x);
                }
            }
            delta.push(*x);
            proof {
                assert forall|i: int| 0 <= i < delta@.len() implies messages@.contains(
                    #[trigger] delta@[i],
                ) && !seen@.contains(delta@[i]) && exists|j: int|
                    0 <= j < at + 1 && *all[j] == delta@[i] by {
                    if i < before.len() {
                        assert(delta@[i] == before[i]);
                        let j = choose|j: int| 0 <= j < at && *all[j] == before[i];
                        assert(*all[j] == delta@[i]);
                    } else {
                        assert(*all[at] == delta@[i]);
                    }
                }
                assert forall|j: int| 0 <= j < at + 1 && !seen@.contains(*all[j]) implies delta@.contains(
                    *#[trigger] all[j],
                ) by {
                    if j < at {
                        assert(before.contains(*all[j]));
                        let i = choose|i: int| 0 <= i < before.len() && before[i] == *all[j];
                        assert(delta@[i] == *all[j]);
                    } else {
                        assert(delta@[before.len() as int] == *all[j]);
                    }
                }
            }
        }
    }
    proof {
        if delta@.len() < GOSSIP_BATCH {
            assert forall|x: u64| messages@.contains(x) && !seen@.contains(x) implies #[trigger] delta@.contains(
                x,
            ) by {
                assert(all.unref().to_set().contains(x));
                assert(all.unref().contains(x));
                let j = choose|j: int| 0 <= j < all.unref().len() && all.unref()[j] == x;
                assert(*all[j] == x);
            }
        }
    }
    delta
}

impl Default for MultiNodeBroadcastNode {
    fn default() -> (s: Self)
        ensures
            s@ == (BroadcastView {
                messages: Set::empty(),
                gossip_peers: Seq::empty(),
                peer_seen: Map::empty(),
            }),
    {
        MultiNodeBroadcastNode::new()
    }
}

impl MultiNodeBroadcastNode {
    /// A node that has heard of nothing and has no neighbours.
    pub fn new() -> (s: Self)
        ensures
            s@ == (BroadcastView {
                messages: Set::empty(),
                gossip_peers: Seq::empty(),
                peer_seen: Map::empty(),
            }),
    {
        let s = MultiNodeBroadcastNode {
            messages: HashSet::new(),
            gossip_peers: Vec::new(),
            peer_seen: StrMap::new(),
        };
        proof {
            assert(s@.gossip_peers =~= Seq::empty());
            assert(s@.peer_seen =~= Map::empty());
        }
        s
    }

    /// Picks `k` of the node's peers at random as neighbours, or all of them
    /// where there are fewer.
    pub fn construct_k_regular_neighbors(&self, node: &Node, k: usize) -> (pick: Vec<String>)
        ensures
            picked_from(names(pick@), node@.peers, node@.id, k as nat),
    {
        let mut others: Vec<String> = Vec::new();
        let mut i: usize = 0;
        proof {
            assert(names(node.peers@).take(0) =~= Seq::empty());
            assert(names(others@) =~= Seq::empty());
        }
        while i < node.peers.len()
            invariant
                i <= node.peers@.len(),
                names(others@) == without(names(node.peers@).take(i as int), node.id@),
            decreases node.peers@.len() - i,
        {
            proof {
                let all = names(node.peers@);
                assert(all.take(i + 1).drop_last() =~= all.take(i as int));
                assert(all.take(i + 1).last() == node.peers@[i as int]@);
            }
            if !str_eq(node.peers[i].as_str(), node.id.as_str()) {
                let ghost before = others@;
                others.push(node.peers[i].clone());
                proof {
                    assert(names(others@) =~= names(before).push(node.peers@[i as int]@));
                }
            }
            i = i + 1;
        }
        proof {
            assert(names(node.peers@).take(node.peers@.len() as int) =~= names(node.peers@));
        }
        shuffle_names(&mut others);
        let ghost order = names(others@);
        let take = if k <= others.len() {
            k
        } else {
            others.len()
        };
        let mut pick: Vec<String> = Vec::new();
        let mut j: usize = 0;
        proof {
            assert(names(pick@) =~= order.take(0));
        }
        while j < take
            invariant
                j <= take <= others@.len(),
                order == names(others@),
                names(pick@) == order.take(j as int),
            decreases take - j,
        {
            let ghost before = pick@;
            pick.push(others[j].clone());
            proof {
                assert(names(pick@) =~= names(before).push(others@[j as int]@));
                assert(order.take(j + 1) =~= order.take(j as int).push(order[j as int]));
            }
            j = j + 1;
        }
        proof {
            assert(order.to_multiset() == without(node@.peers, node@.id).to_multiset());
        }
        pick
    }

    /// Records that `peer` has heard of `items`.
    fn mark_seen(&mut self, peer: &str, items: &Vec<u64>)
        ensures
            final(self)@ == (BroadcastView {
                peer_seen: old(self)@.peer_seen.insert(
                    peer@,
                    seen_by(old(self)@.peer_seen, peer@).union(items@.to_set()),
                ),
                ..old(self)@
            }),
    {
        let at = match self.peer_seen.find(peer) {
            Some(i) => {
                proof {
                    lemma_as_map_entry(self.peer_seen.entries(), i as int);
                }
                i
            },
            None => {
                let n = self.peer_seen.len();
                self.peer_seen.insert(peer.to_owned(), HashSet::new());
                proof {
                    lemma_as_map_entry(self.peer_seen.entries(), n as int);
                }
                n
            },
        };
        let ghost mid = self.peer_seen@;
        let mut set = self.peer_seen.replace_at(at, HashSet::new());
        let ghost start = set@;
        assert(start == seen_by(old(self)@.peer_seen, peer@));
        let mut i: usize = 0;
        proof {
            assert(items@.take(0).to_set() =~= Set::empty());
            assert(start.union(Set::empty()) =~= start);
        }
        while i < items.len()
            invariant
                i <= items@.len(),
                set@ == start.union(items@.take(i as int).to_set()),
            decreases items@.len() - i,
        {
            set.insert(items[i]);
            proof {
                assert(items@.take(i + 1) =~= items@.take(i as int).push(items@[i as int]));
                assert(items@.take(i + 1).to_set() =~= items@.take(i as int).to_set().insert(
                    items@[i as int],
                )) by {
                    let shorter = items@.take(i as int);
                    let longer = items@.take(i + 1);
                    assert forall|x: u64| longer.to_set().contains(x) <==> shorter.to_set().insert(
                        items@[i as int],
                    ).contains(x) by {
                        if longer.contains(x) {
                            let t = choose|t: int| 0 <= t < longer.len() && longer[t] == x;
                            if t < i {
                                assert(shorter[t] == x);
                            }
                        }
                        if shorter.contains(x) {
                            let t = choose|t: int| 0 <= t < shorter.len() && shorter[t] == x;
                            assert(longer[t] == x);
                        }
                        if x == items@[i as int] {
                            assert(longer[i as int] == x);
                        }
                    }
                }
                assert(set@ =~= start.union(items@.take(i + 1).to_set()));
            }
            i = i + 1;
        }
        proof {
            assert(items@.take(items@.len() as int) =~= items@);
        }
        let ghost grown = set;
        let _ = self.peer_seen.replace_at(at, set);
        proof {
            assert(self.peer_seen@ =~= mid.insert(peer@, grown));
            assert(self@.peer_seen =~= old(self)@.peer_seen.insert(
                peer@,
                seen_by(old(self)@.peer_seen, peer@).union(items@.to_set()),
            ));
        }
    }

    /// Hears of one message.
    pub fn handle_broadcast(&mut self, message: u64)
        ensures
            final(self)@ == (BroadcastView {
                messages: old(self)@.messages.insert(message),
                ..old(self)@
            }),
    {
        self.messages.insert(message);
    }

    /// Hears `messages` from `peer`.
    pub fn handle_broadcast_gossip_from(&mut self, peer: &str, messages: Vec<u64>)
        ensures
            final(self)@ == heard_from(old(self)@, peer@, messages@),
    {
        self.mark_seen(peer, &messages);
        let ghost start = self.messages@;
        let mut i: usize = 0;
        proof {
            assert(messages@.take(0).to_set() =~= Set::empty());
            assert(start.union(Set::empty()) =~= start);
        }
        while i < messages.len()
            invariant
                i <= messages@.len(),
                self.messages@ =~= start.union(messages@.take(i as int).to_set()),
                self@.gossip_peers == old(self)@.gossip_peers,
                self@.peer_seen == heard_from(old(self)@, peer@, messages@).peer_seen,
            decreases messages@.len() - i,
        {
            self.messages.insert(messages[i]);
            proof {
                let shorter = messages@.take(i as int);
                let longer = messages@.take(i + 1);
                assert forall|x: u64| longer.to_set().contains(x) <==> shorter.to_set().insert(
                    messages@[i as int],
                ).contains(x) by {
                    if longer.contains(x) {
                        let t = choose|t: int| 0 <= t < longer.len() && longer[t] == x;
                        if t < i {
                            assert(shorter[t] == x);
                        }
                    }
                    if shorter.contains(x) {
                        let t = choose|t: int| 0 <= t < shorter.len() && shorter[t] == x;
                        assert(longer[t] == x);
                    }
                    if x == messages@[i as int] {
                        assert(longer[i as int] == x);
                    }
                }
                assert(longer.to_set() =~= shorter.to_set().insert(messages@[i as int]));
            }
            i = i + 1;
        }
        proof {
            assert(messages@.take(messages@.len() as int) =~= messages@);
        }
    }

    /// The messages the node has heard of, each once, in no particular order.
    pub fn handle_read(&self) -> (out: Vec<u64>)
        ensures
            is_listing(out@, self@.messages),
    {
        let mut out: Vec<u64> = Vec::new();
        let ghost all = self.messages.iter().remaining();
        for x in iter: self.messages.iter()
            invariant
                iter.seq() == all,
                out@.len() == iter.index(),
                out@ == all.take(iter.index()).unref(),
        {
            out.push(*x);
            proof {
                assert(all.take(iter.index() + 1) == all.take(iter.index()).push(all[iter.index()]));
            }
        }
        proof {
            assert(all.take(all.len() as int) == all);
        }
        out
    }

    /// One round of gossip: tells each neighbour what the node believes it has
    /// not heard yet, and from then on believes that it has.
    pub fn gossip(&mut self, node: &mut Node) -> (out: Vec<Message>)
        requires
            old(node).has_ids(old(self).gossip_peers@.len() as int),
        ensures
            idle(old(self)@, old(node)@) ==> (final(self)@, final(node)@, batch_view(out@)) == (
                old(self)@,
                old(node)@,
                Seq::<MessageView>::empty(),
            ),
            !idle(old(self)@, old(node)@) ==> exists|deltas: Seq<Seq<u64>>| #[trigger]
                deltas_valid(
                    old(self)@.messages,
                    old(self)@.peer_seen,
                    old(self)@.gossip_peers,
                    deltas,
                ) && (final(self)@, final(node)@, batch_view(out@)) == gossip_round(
                    old(self)@,
                    old(node)@,
                    deltas,
                ),
            all_from(batch_view(out@), final(node)@.id),
            numbered_from(batch_view(out@), old(node).msg_id),
            final(node)@ == (NodeView { msg_id: (old(node).msg_id + out@.len()) as u64, ..old(node)@ }),
            forall|i: int|
                0 <= i < out@.len() ==> (#[trigger] batch_view(out@)[i]).body is BroadcastGossip,
    {
        let mut out: Vec<Message> = Vec::new();
        let n = self.gossip_peers.len();
        let ghost mut deltas: Seq<Seq<u64>> = Seq::empty();
        let ghost peers = names(self.gossip_peers@);
        if node.id.as_str().unicode_len() == 0 || n == 0 || self.messages.is_empty() {
            proof {
                assert(batch_view(out@) =~= Seq::empty());
            }
            return out;
        }
        let mut i: usize = 0;
        proof {
            assert(peers.take(0) =~= Seq::empty());
            assert(batch_view(out@) =~= Seq::empty());
        }
        while i < n
            invariant
                i <= n,
                n == self.gossip_peers@.len(),
                peers == names(self.gossip_peers@),
                self@.gossip_peers == old(self)@.gossip_peers,
                self@.messages == old(self)@.messages,
                node@.id == old(node)@.id,
                node@.peers == old(node)@.peers,
                node.msg_id == old(node).msg_id + out@.len(),
                out@.len() <= i,
                old(node).has_ids(n as int),
                deltas_valid(old(self)@.messages, old(self)@.peer_seen, peers.take(i as int), deltas),
                self@.peer_seen == seen_after(old(self)@.peer_seen, peers.take(i as int), deltas),
                batch_view(out@) == gossip_out(old(node)@, peers.take(i as int), deltas),
                all_from(batch_view(out@), old(node)@.id),
                numbered_from(batch_view(out@), old(node).msg_id),
                forall|t: int|
                    0 <= t < out@.len() ==> (#[trigger] batch_view(out@)[t]).body is BroadcastGossip,
            decreases n - i,
        {
            proof {
                assert(peers.take(i + 1).drop_last() =~= peers.take(i as int));
                assert(peers.take(i + 1).last() == self.gossip_peers@[i as int]@);
            }
            let peer = self.gossip_peers[i].clone();
            let delta = match self.peer_seen.get(peer.as_str()) {
                Some(seen) => missing_for(&self.messages, seen),
                None => {
                    let nothing: HashSet<u64> = HashSet::new();
                    missing_for(&self.messages, &nothing)
                },
            };
            proof {
                assert(valid_delta(delta@, self@.messages, seen_by(self@.peer_seen, peer@)));
                assert(deltas.push(delta@).drop_last() =~= deltas);
            }
            self.mark_seen(peer.as_str(), &delta);
            proof {
                assert(names(self.gossip_peers@).len() == self.gossip_peers@.len());
            }
            if delta.len() > 0 {
                let id = node.next_msg_id();
                let ghost sent = out@;
                out.push(
                    Message {
                        src: node.id.clone(),
                        dest: peer,
                        body: MessageBody::BroadcastGossip { msg_id: id, messages: delta },
                    },
                );
                proof {
                    assert(batch_view(out@) =~= batch_view(sent).push(batch_view(out@).last()));
                    assert forall|t: int| 0 <= t < out@.len() implies (#[trigger] batch_view(out@)[t]).src
                        == old(node)@.id by {
                        if t < sent.len() {
                            assert(batch_view(out@)[t] == batch_view(sent)[t]);
                        }
                    }
                    assert forall|t: int| 0 <= t < out@.len() implies (#[trigger] batch_view(
                        out@,
                    )[t]).body.msg_id() == Some((old(node).msg_id + 1 + t) as u64) by {
                        if t < sent.len() {
                            assert(batch_view(out@)[t] == batch_view(sent)[t]);
                        }
                    }
                    assert forall|t: int| 0 <= t < out@.len() implies (#[trigger] batch_view(
                        out@,
                    )[t]).body is BroadcastGossip by {
                        if t < sent.len() {
                            assert(batch_view(out@)[t] == batch_view(sent)[t]);
                        }
                    }
                }
            }
            proof {
                deltas = deltas.push(delta@);
            }
            i = i + 1;
        }
        proof {
            assert(peers.take(n as int) =~= peers);
            assert(deltas_valid(
                old(self)@.messages,
                old(self)@.peer_seen,
                old(self)@.gossip_peers,
                deltas,
            ) && (self@, node@, batch_view(out@)) == gossip_round(old(self)@, old(node)@, deltas));
        }
        out
    }
}

/// Whether the message number is to be had that a step on `m` may need.
pub open spec fn broadcast_ready(n: NodeView, m: MessageView) -> bool {
    match m.body {
        BodyView::Init { .. }
        | BodyView::Topology { .. }
        | BodyView::Broadcast { .. }
        | BodyView::Read { .. } => n.msg_id + 1 <= u64::MAX,
        _ => true,
    }
}

/// What holds of every step of a broadcast node: every message sent carries
/// the node's name; the messages sent are numbered onward from the node's
/// last number; an answer goes to the request in hand; and the node never
/// forgets a message it has heard of.
pub proof fn lemma_broadcast_step(
    s: BroadcastView,
    n: NodeView,
    m: MessageView,
    pick: Seq<Name>,
    listing: Seq<u64>,
)
    requires
        broadcast_ready(n, m),
    ensures
        all_from(broadcast_step(s, n, m, pick, listing).2, broadcast_step(s, n, m, pick, listing).1.id),
        numbered_from(broadcast_step(s, n, m, pick, listing).2, n.msg_id),
        broadcast_step(s, n, m, pick, listing).1.msg_id == n.msg_id + broadcast_step(
            s,
            n,
            m,
            pick,
            listing,
        ).2.len(),
        forall|i: int|
            0 <= i < broadcast_step(s, n, m, pick, listing).2.len() ==> match (#[trigger] broadcast_step(
                s,
                n,
                m,
                pick,
                listing,
            ).2[i]).body.in_reply_to() {
                Some(r) => request_id(m.body) == Some(r),
                None => true,
            },
        s.messages.subset_of(broadcast_step(s, n, m, pick, listing).0.messages),
        m.body is Unknown ==> broadcast_step(s, n, m, pick, listing) == (
            s,
            n,
            Seq::<MessageView>::empty(),
        ),
{
}

impl MessageHandler for MultiNodeBroadcastNode {
    open spec fn ticks(&self, node: &Node) -> bool {
        node.has_ids(self.gossip_peers@.len() as int)
    }

    fn can_tick(&self, node: &Node) -> (b: bool) {
        node.can_number(self.gossip_peers.len())
    }

    /// A tick is a round of gossip.
    fn tick(&mut self, node: &mut Node) -> (out: Vec<Message>)
        ensures
            idle(old(self)@, old(node)@) ==> out@.len() == 0 && final(self)@ == old(self)@,
            !idle(old(self)@, old(node)@) ==> exists|deltas: Seq<Seq<u64>>| #[trigger]
                deltas_valid(
                    old(self)@.messages,
                    old(self)@.peer_seen,
                    old(self)@.gossip_peers,
                    deltas,
                ) && (final(self)@, final(node)@, batch_view(out@)) == gossip_round(
                    old(self)@,
                    old(node)@,
                    deltas,
                ),
    {
        self.gossip(node)
    }

    open spec fn accepts(&self, node: &Node, message: &Message) -> bool {
        broadcast_ready(node@, message@)
    }

    open spec fn awaits(&self, r: u64) -> bool {
        false
    }

    fn can_handle(&self, node: &Node, message: &Message) -> (b: bool) {
        match &message.body {
            MessageBody::Init { .. }
            | MessageBody::Topology { .. }
            | MessageBody::Broadcast { .. }
            | MessageBody::Read { .. } => node.can_number(1),
            _ => true,
        }
    }

    /// Takes one message of the broadcast. On `init` the node picks its
    /// neighbours, and on `read` it lists its messages in some order.
    fn handle(&mut self, node: &mut Node, message: Message) -> (out: Vec<Message>)
        ensures
            (final(self)@, final(node)@, batch_view(out@)) == broadcast_step(
                old(self)@,
                old(node)@,
                message@,
                final(self)@.gossip_peers,
                listed(batch_view(out@)),
            ),
            message.body is Init ==> picked_from(
                final(self)@.gossip_peers,
                final(node)@.peers,
                final(node)@.id,
                FANOUT as nat,
            ),
            message.body is Read ==> is_listing(listed(batch_view(out@)), old(self)@.messages),
    {
        let mut out: Vec<Message> = Vec::new();
        let Message { src, dest, body } = message;
        match body {
            MessageBody::Init { msg_id, node_id, node_ids } => {
                node.handle_init(node_id, node_ids);
                self.gossip_peers = self.construct_k_regular_neighbors(node, FANOUT);
                let reply = node.init_ok(src, msg_id);
                out.push(reply);
            },
            MessageBody::Topology { msg_id, topology: _ } => {
                let id = node.next_msg_id();
                let reply = node.reply(src, MessageBody::TopologyOk { msg_id: id, in_reply_to: msg_id });
                out.push(reply);
            },
            MessageBody::Broadcast { msg_id, message } => {
                self.handle_broadcast(message);
                let id = node.next_msg_id();
                let reply = node.reply(src, MessageBody::BroadcastOk { msg_id: id, in_reply_to: msg_id });
                out.push(reply);
            },
            MessageBody::BroadcastGossip { msg_id: _, messages } => {
                self.handle_broadcast_gossip_from(src.as_str(), messages);
            },
            MessageBody::Read { msg_id } => {
                let messages = self.handle_read();
                let id = node.next_msg_id();
                let reply = node.reply(
                    src,
                    MessageBody::ReadOk {
                        msg_id: id,
                        in_reply_to: msg_id,
                        messages: Some(messages),
                        value: None,
                    },
                );
                out.push(reply);
            },
            _ => {},
        }
        proof {
            let expected = broadcast_step(
                old(self)@,
                old(node)@,
                message@,
                self@.gossip_peers,
                listed(batch_view(out@)),
            );
            lemma_broadcast_step(
                old(self)@,
                old(node)@,
                message@,
                self@.gossip_peers,
                listed(batch_view(out@)),
            );
            assert(batch_view(out@) =~= expected.2);
        }
        out
    }
}

} // verus!

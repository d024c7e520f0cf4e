//! Broadcast on a single node: the node keeps the messages in the order in
//! which it first heard of them, and passes each on to whatever peers it has.

use vstd::prelude::*;
use std::collections::HashSet;
use crate::message::{batch_view, names, BodyView, Message, MessageBody, MessageView, Name};
use crate::node::{all_from, numbered_from, request_id, without, MessageHandler, Node, NodeView};
use crate::strings::str_eq;

verus! {

broadcast use vstd::std_specs::hash::group_hash_axioms;

/// What the state of the node stands for.
pub struct SingleBroadcastView {
    /// The messages in the order in which the node first heard of them.
    pub messages: Seq<u64>,
    /// The messages that the node has heard of.
    pub seen: Set<u64>,
}

impl SingleBroadcastView {
    /// The state after the node has heard of `message`: a message that is new
    /// is added at the end, one that is known changes nothing.
    pub open spec fn heard(self, message: u64) -> SingleBroadcastView {
        if self.seen.contains(message) {
            self
        } else {
            SingleBroadcastView { messages: self.messages.push(message), seen: self.seen.insert(message) }
        }
    }

    /// The list holds every message that the node has heard of, once.
    pub open spec fn consistent(self) -> bool {
        self.messages.no_duplicates() && self.messages.to_set() == self.seen
    }
}

/// The messages by which `message` is passed on: one to each peer other than
/// the node itself, in the order of the peers, numbered onward from the
/// node's last number.
pub open spec fn relay(n: NodeView, peers: Seq<Name>, message: u64) -> Seq<MessageView>
    decreases peers.len(),
{
    if peers.len() == 0 {
        Seq::empty()
    } else {
        let before = relay(n, peers.drop_last(), message);
        if peers.last() == n.id {
            before
        } else {
            before.push(
                MessageView {
                    src: n.id,
                    dest: peers.last(),
                    body: BodyView::Broadcast { msg_id: (n.msg_id + 1 + before.len()) as u64, message },
                },
            )
        }
    }
}

/// No more messages are passed on than there are peers.
pub proof fn lemma_relay_len(n: NodeView, peers: Seq<Name>, message: u64)
    ensures
        relay(n, peers, message).len() <= peers.len(),
    decreases peers.len(),
{
    if peers.len() > 0 {
        lemma_relay_len(n, peers.drop_last(), message);
    }
}

/// Every message passed on carries the node's name and the next number.
pub proof fn lemma_relay(n: NodeView, peers: Seq<Name>, message: u64, i: int)
    requires
        0 <= i < relay(n, peers, message).len(),
    ensures
        relay(n, peers, message)[i].src == n.id,
        relay(n, peers, message)[i].body.msg_id() == Some((n.msg_id + 1 + i) as u64),
        relay(n, peers, message)[i].body.in_reply_to() is None,
    decreases peers.len(),
{
    if peers.len() > 0 {
        let before = relay(n, peers.drop_last(), message);
        if i < before.len() {
            lemma_relay(n, peers.drop_last(), message, i);
        }
    }
}

/// What the node does with one message.
pub open spec fn single_broadcast_step(s: SingleBroadcastView, n: NodeView, m: MessageView) -> (
    SingleBroadcastView,
    NodeView,
    Seq<MessageView>,
) {
    let next = (n.msg_id + 1) as u64;
    let bumped = NodeView { msg_id: next, ..n };
    match m.body {
        BodyView::Init { msg_id, node_id, node_ids } => (
            s,
            NodeView { id: node_id, peers: without(node_ids, node_id), msg_id: next },
            seq![
                MessageView {
                    src: node_id,
                    dest: m.src,
                    body: BodyView::InitOk { msg_id: next, in_reply_to: msg_id },
                },
            ],
        ),
        BodyView::Topology { msg_id, .. } => (
            s,
            bumped,
            seq![
                MessageView {
                    src: n.id,
                    dest: m.src,
                    body: BodyView::TopologyOk { msg_id: next, in_reply_to: msg_id },
                },
            ],
        ),
        BodyView::Broadcast { msg_id, message } => {
            let passed = relay(n, n.peers, message);
            let last = (n.msg_id + passed.len() + 1) as u64;
            (
                s.heard(message),
                NodeView { msg_id: last, ..n },
                passed.push(
                    MessageView {
                        src: n.id,
                        dest: m.src,
                        body: BodyView::BroadcastOk { msg_id: last, in_reply_to: msg_id },
                    },
                ),
            )
        },
        BodyView::Read { msg_id } => (
            s,
            bumped,
            seq![
                MessageView {
                    src: n.id,
                    dest: m.src,
                    body: BodyView::ReadOk {
                        msg_id: next,
                        in_reply_to: msg_id,
                        messages: Some(s.messages),
                        value: None,
                    },
                },
            ],
        ),
        _ => (s, n, Seq::empty()),
    }
}

/// Whether the message numbers are to be had that a step on `m` may need:
/// for a broadcast one for each peer and one for the answer.
pub open spec fn single_broadcast_ready(n: NodeView, m: MessageView) -> bool {
    match m.body {
        BodyView::Broadcast { .. } => n.msg_id + n.peers.len() + 1 <= u64::MAX,
        BodyView::Init { .. } | BodyView::Topology { .. } | BodyView::Read { .. } => n.msg_id + 1
            <= u64::MAX,
        _ => true,
    }
}

/// What holds of every step of the node: every message sent carries the
/// node's name; the messages sent are numbered onward from the node's last
/// number; an answer goes to the request in hand; hearing of a message that
/// is known changes nothing; and a list that holds every message once stays
/// such a list, which is what a read reports.
pub proof fn lemma_single_broadcast_step(s: SingleBroadcastView, n: NodeView, m: MessageView)
    requires
        single_broadcast_ready(n, m),
    ensures
        all_from(single_broadcast_step(s, n, m).2, single_broadcast_step(s, n, m).1.id),
        numbered_from(single_broadcast_step(s, n, m).2, n.msg_id),
        single_broadcast_step(s, n, m).1.msg_id == n.msg_id + single_broadcast_step(s, n, m).2.len(),
        forall|i: int|
            0 <= i < single_broadcast_step(s, n, m).2.len() ==> match (#[trigger] single_broadcast_step(
                s,
                n,
                m,
            ).2[i]).body.in_reply_to() {
                Some(r) => request_id(m.body) == Some(r),
                None => true,
            },
        s.consistent() ==> single_broadcast_step(s, n, m).0.consistent(),
        m.body is Broadcast ==> single_broadcast_step(s, n, m).0.heard(m.body->Broadcast_message)
            == single_broadcast_step(s, n, m).0,
        m.body is Unknown ==> single_broadcast_step(s, n, m) == (s, n, Seq::<MessageView>::empty()),
{
    let out = single_broadcast_step(s, n, m).2;
    match m.body {
        BodyView::Broadcast { msg_id, message } => {
            let passed = relay(n, n.peers, message);
            lemma_relay_len(n, n.peers, message);
            assert forall|i: int| 0 <= i < out.len() implies (#[trigger] out[i]).src == n.id && out[i].body.msg_id()
                == Some((n.msg_id + 1 + i) as u64) && match out[i].body.in_reply_to() {
                Some(r) => request_id(m.body) == Some(r),
                None => true,
            } by {
                if i < passed.len() {
                    lemma_relay(n, n.peers, message, i);
                }
            }
            if s.consistent() && !s.seen.contains(message) {
                let grown = s.messages.push(message);
                assert(!s.messages.contains(message));
                assert forall|a: int, b: int| 0 <= a < grown.len() && 0 <= b < grown.len() && a != b implies grown[a]
                    != grown[b] by {
                    if a < s.messages.len() {
                        assert(s.messages.contains(grown[a]));
                    }
                    if b < s.messages.len() {
                        assert(s.messages.contains(grown[b]));
                    }
                }
                assert forall|x: u64| grown.to_set().contains(x) <==> s.seen.insert(message).contains(x) by {
                    if grown.contains(x) {
                        let t = choose|t: int| 0 <= t < grown.len() && grown[t] == x;
                        if t < s.messages.len() {
                            assert(s.messages.contains(x));
                        }
                    }
                    if s.seen.contains(x) {
                        assert(s.messages.contains(x));
                        let t = choose|t: int| 0 <= t < s.messages.len() && s.messages[t] == x;
                        assert(grown[t] == x);
                    }
                    if x == message {
                        assert(grown[s.messages.len() as int] == x);
                    }
                }
                assert(grown.to_set() =~= s.seen.insert(message));
            }
        },
        _ => {},
    }
}

/// The state of the node.
#[derive(Debug)]
pub struct SingleNodeBroadcastNode {
    /// The messages in the order in which the node first heard of them.
    pub messages: Vec<u64>,
    /// The messages that the node has heard of.
    pub seen: HashSet<u64>,
}

impl View for SingleNodeBroadcastNode {
    type V = SingleBroadcastView;

    open spec fn view(&self) -> SingleBroadcastView {
        SingleBroadcastView { messages: self.messages@, seen: self.seen@ }
    }
}

impl Default for SingleNodeBroadcastNode {
    fn default() -> (s: Self)
        ensures
            s@ == (SingleBroadcastView { messages: Seq::empty(), seen: Set::empty() }),
    {
        SingleNodeBroadcastNode::new()
    }
}

impl SingleNodeBroadcastNode {
    /// A node that has heard of nothing.
    pub fn new() -> (s: Self)
        ensures
            s@ == (SingleBroadcastView { messages: Seq::empty(), seen: Set::empty() }),
    {
        SingleNodeBroadcastNode { messages: Vec::new(), seen: HashSet::new() }
    }

    /// Hears of `message` and passes it on to every peer.
    pub fn handle_broadcast(&mut self, node: &mut Node, message: u64) -> (out: Vec<Message>)
        requires
            old(node).has_ids(old(node)@.peers.len() as int),
        ensures
            final(self)@ == old(self)@.heard(message),
            batch_view(out@) == relay(old(node)@, old(node)@.peers, message),
            final(node)@ == (NodeView { msg_id: (old(node).msg_id + out@.len()) as u64, ..old(node)@ }),
    {
        let mut out: Vec<Message> = Vec::new();
        if self.seen.insert(message) {
            self.messages.push(message);
        } else {
            proof {
                assert(self.seen@ =~= old(self).seen@);
            }
        }
        let n = node.peers.len();
        let ghost peers = names(node.peers@);
        let mut i: usize = 0;
        proof {
            assert(peers.take(0) =~= Seq::empty());
            assert(batch_view(out@) =~= Seq::empty());
        }
        while i < n
            invariant
                i <= n,
                n == node.peers@.len(),
                peers == names(node.peers@),
                node@.id == old(node)@.id,
                node@.peers == old(node)@.peers,
                node.msg_id == old(node).msg_id + out@.len(),
                out@.len() <= i,
                old(node).has_ids(n as int),
                self@ == old(self)@.heard(message),
                batch_view(out@) == relay(old(node)@, peers.take(i as int), message),
            decreases n - i,
        {
            proof {
                assert(peers.take(i + 1).drop_last() =~= peers.take(i as int));
                assert(peers.take(i + 1).last() == node.peers@[i as int]@);
            }
            if !str_eq(node.peers[i].as_str(), node.id.as_str()) {
                let id = node.next_msg_id();
                let ghost sent = out@;
                proof {
                    assert(names(node.peers@).len() == node.peers@.len());
                }
                out.push(
                    Message {
                        src: node.id.clone(),
                        dest: node.peers[i].clone(),
                        body: MessageBody::Broadcast { msg_id: id, message },
                    },
                );
                proof {
                    assert(batch_view(out@) =~= batch_view(sent).push(batch_view(out@).last()));
                }
            }
            i = i + 1;
        }
        proof {
            assert(peers.take(n as int) =~= peers);
        }
        out
    }

    /// The messages in the order in which the node first heard of them.
    pub fn handle_read(&self) -> (out: Vec<u64>)
        ensures
            out@ == self@.messages,
    {
        self.messages.clone()
    }
}

impl MessageHandler for SingleNodeBroadcastNode {
    open spec fn ticks(&self, node: &Node) -> bool {
        true
    }

    fn can_tick(&self, node: &Node) -> (b: bool) {
        true
    }

    /// This workload does not gossip: a tick changes nothing and sends
    /// nothing.
    fn tick(&mut self, node: &mut Node) -> (out: Vec<Message>)
        ensures
            out@.len() == 0,
            *final(self) == *old(self),
    {
        let out: Vec<Message> = Vec::new();
        proof {
            assert(batch_view(out@) =~= Seq::empty());
        }
        out
    }

    open spec fn accepts(&self, node: &Node, message: &Message) -> bool {
        single_broadcast_ready(node@, message@)
    }

    open spec fn awaits(&self, r: u64) -> bool {
        false
    }

    fn can_handle(&self, node: &Node, message: &Message) -> (b: bool) {
        match &message.body {
            MessageBody::Broadcast { .. } => node.can_number_peers(1),
            MessageBody::Init { .. } | MessageBody::Topology { .. } | MessageBody::Read { .. } => node.can_number(
                1,
            ),
            _ => true,
        }
    }

    /// Takes one message of the broadcast.
    fn handle(&mut self, node: &mut Node, message: Message) -> (out: Vec<Message>)
        ensures
            (final(self)@, final(node)@, batch_view(out@)) == single_broadcast_step(
                old(self)@,
                old(node)@,
                message@,
            ),
    {
        proof {
            lemma_single_broadcast_step(self@, node@, message@);
        }
        let mut out: Vec<Message> = Vec::new();
        let Message { src, dest, body } = message;
        match body {
            MessageBody::Init { msg_id, node_id, node_ids } => {
                node.handle_init(node_id, node_ids);
                let reply = node.init_ok(src, msg_id);
                out.push(reply);
            },
            MessageBody::Topology { msg_id, topology: _ } => {
                let id = node.next_msg_id();
                let reply = node.reply(src, MessageBody::TopologyOk { msg_id: id, in_reply_to: msg_id });
                out.push(reply);
            },
            MessageBody::Broadcast { msg_id, message } => {
                proof {
                    lemma_relay_len(node@, node@.peers, message);
                }
                out = self.handle_broadcast(node, message);
                let id = node.next_msg_id();
                let ghost sent = out@;
                let reply = node.reply(src, MessageBody::BroadcastOk { msg_id: id, in_reply_to: msg_id });
                out.push(reply);
                proof {
                    assert(batch_view(out@) =~= batch_view(sent).push(batch_view(out@).last()));
                }
            },
            MessageBody::Read { msg_id } => {
                let messages = self.handle_read();
                let id = node.next_msg_id();
                let reply = node.reply(
                    src,
                    MessageBody::ReadOk {
                        msg_id: id,
                        in_reply_to: msg_id,
                        messages: Some(messages),
                        value: None,
                    },
                );
                out.push(reply);
            },
            _ => {},
        }
        proof {
            assert(batch_view(out@) =~= single_broadcast_step(old(self)@, old(node)@, message@).2);
        }
        out
    }
}

} // verus!

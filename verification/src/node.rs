//! The part of a node that every workload shares: who the node is, who its
//! peers are, and the numbering of the messages it sends.

use vstd::prelude::*;
use crate::message::{batch_view, names, BodyView, Message, MessageBody, MessageView, Name};
use crate::strings::str_eq;

verus! {

/// The names of `s` in order, with every occurrence of `x` left out.
pub open spec fn without(s: Seq<Name>, x: Name) -> Seq<Name>
    decreases s.len(),
{
    if s.len() == 0 {
        Seq::empty()
    } else if s.last() == x {
        without(s.drop_last(), x)
    } else {
        without(s.drop_last(), x).push(s.last())
    }
}

/// Every name of `without(s, x)` is a name of `s` other than `x`, and every
/// such name of `s` is kept.
pub proof fn lemma_without_members(s: Seq<Name>, x: Name)
    ensures
        forall|n: Name| #[trigger] without(s, x).contains(n) <==> (s.contains(n) && n != x),
        without(s, x).len() <= s.len(),
        s.no_duplicates() ==> without(s, x).no_duplicates(),
    decreases s.len(),
{
    if s.len() > 0 {
        let front = s.drop_last();
        lemma_without_members(front, x);
        let w = without(s, x);
        let wf = without(front, x);
        assert forall|n: Name| #[trigger] w.contains(n) <==> (s.contains(n) && n != x) by {
            if w.contains(n) {
                let i = choose|i: int| 0 <= i < w.len() && w[i] == n;
                if s.last() != x && i == wf.len() {
                    assert(s[s.len() - 1] == n);
                } else {
                    assert(wf[i] == n);
                    assert(wf.contains(n));
                    assert(front.contains(n));
                    let j = choose|j: int| 0 <= j < front.len() && front[j] == n;
                    assert(s[j] == n);
                }
            }
            if s.contains(n) && n != x {
                let j = choose|j: int| 0 <= j < s.len() && s[j] == n;
                if j < front.len() {
                    assert(front[j] == n);
                    assert(front.contains(n));
                    assert(wf.contains(n));
                    let i = choose|i: int| 0 <= i < wf.len() && wf[i] == n;
                    assert(w[i] == n);
                } else {
                    assert(s.last() == n);
                    assert(w[wf.len() as int] == n);
                }
            }
        }
        if s.no_duplicates() {
            assert(front.no_duplicates());
            if s.last() != x {
                assert(!front.contains(s.last())) by {
                    if front.contains(s.last()) {
                        let j = choose|j: int| 0 <= j < front.len() && front[j] == s.last();
                        assert(s[j] == s[s.len() - 1]);
                    }
                }
                assert(!wf.contains(s.last()));
                assert forall|a: int, b: int| 0 <= a < w.len() && 0 <= b < w.len() && a != b implies w[a]
                    != w[b] by {
                    if a == w.len() - 1 {
                        assert(without(front, x).contains(w[b]));
                    } else if b == w.len() - 1 {
                        assert(without(front, x).contains(w[a]));
                    }
                }
            }
        }
    }
}

/// Tells whether `x` is one of the names in `v`.
pub fn name_in(v: &Vec<String>, x: &str) -> (b: bool)
    ensures
        b == names(v@).contains(x@),
{
    let mut i: usize = 0;
    while i < v.len()
        invariant
            i <= v@.len(),
            forall|j: int| 0 <= j < i ==> names(v@)[j] != x@,
        decreases v@.len() - i,
    {
        if str_eq(v[i].as_str(), x) {
            proof {
                assert(names(v@)[i as int] == x@);
            }
            return true;
        }
        i = i + 1;
    }
    false
}

/// What a node's shared state stands for.
pub struct NodeView {
    pub id: Name,
    pub peers: Seq<Name>,
    pub msg_id: u64,
}

/// The shared state of a node.
#[derive(Clone, Debug)]
pub struct Node {
    /// The node's own name; empty until the node is initialised.
    pub id: String,
    /// The other members of the cluster, in the order in which they were
    /// announced.
    pub peers: Vec<String>,
    /// The number that the last outbound message carried.
    pub msg_id: u64,
}

impl View for Node {
    type V = NodeView;

    open spec fn view(&self) -> NodeView {
        NodeView { id: self.id@, peers: names(self.peers@), msg_id: self.msg_id }
    }
}

/// The batch carries the numbers `after + 1`, `after + 2`, ... in order, one
/// for each message: numbers rise strictly and none is used twice.
pub open spec fn numbered_from(batch: Seq<MessageView>, after: u64) -> bool {
    forall|i: int| 0 <= i < batch.len() ==> (#[trigger] batch[i]).body.msg_id() == Some((after + 1 + i) as u64)
}

/// Every message of the batch is sent under the name `id`.
pub open spec fn all_from(batch: Seq<MessageView>, id: Name) -> bool {
    forall|i: int| 0 <= i < batch.len() ==> (#[trigger] batch[i]).src == id
}

/// The identifier by which a client knows its request: the one the client
/// chose, also where a peer has forwarded the request under a number of its
/// own.
pub open spec fn request_id(body: BodyView) -> Option<u64> {
    match body {
        BodyView::ForwardSend { orig_msg_id, .. } => Some(orig_msg_id),
        _ => body.msg_id(),
    }
}

impl Node {
    /// A node that has not been initialised yet.
    pub fn new() -> (n: Self)
        ensures
            n@ == (NodeView { id: Seq::empty(), peers: Seq::empty(), msg_id: 0 }),
    {
        let n = Node { id: String::new(), peers: Vec::new(), msg_id: 0 };
        proof {
            assert(names(n.peers@) =~= Seq::empty());
        }
        n
    }

    /// Whether `n` more messages can be numbered.
    pub open spec fn has_ids(&self, n: int) -> bool {
        self.msg_id + n <= u64::MAX
    }

    /// Tells whether `n` more messages can be numbered.
    pub fn can_number(&self, n: usize) -> (b: bool)
        ensures
            b == self.has_ids(n as int),
    {
        n as u64 <= u64::MAX - self.msg_id
    }

    /// Tells whether one message for each peer and `extra` more can be
    /// numbered.
    pub fn can_number_peers(&self, extra: u64) -> (b: bool)
        ensures
            b == self.has_ids(self@.peers.len() + extra),
    {
        let room = u64::MAX - self.msg_id;
        extra <= room && self.peers.len() as u64 <= room - extra
    }

    /// Takes the node's name and the members of the cluster. The peers are the
    /// members other than the node itself, in the order given.
    pub fn handle_init(&mut self, node_id: String, node_ids: Vec<String>)
        ensures
            final(self)@ == (NodeView {
                id: node_id@,
                peers: without(names(node_ids@), node_id@),
                msg_id: old(self).msg_id,
            }),
    {
        let mut peers: Vec<String> = Vec::new();
        let mut i: usize = 0;
        proof {
            assert(names(node_ids@).take(0) =~= Seq::empty());
            assert(names(peers@) =~= Seq::empty());
        }
        while i < node_ids.len()
            invariant
                i <= node_ids@.len(),
                names(peers@) == without(names(node_ids@).take(i as int), node_id@),
            decreases node_ids@.len() - i,
        {
            proof {
                let all = names(node_ids@);
                assert(all.take(i + 1).drop_last() =~= all.take(i as int));
                assert(all.take(i + 1).last() == node_ids@[i as int]@);
            }
            if !str_eq(node_ids[i].as_str(), node_id.as_str()) {
                let ghost before = peers@;
                peers.push(node_ids[i].clone());
                proof {
                    assert(names(peers@) =~= names(before).push(node_ids@[i as int]@));
                }
            }
            i = i + 1;
        }
        proof {
            assert(names(node_ids@).take(node_ids@.len() as int) =~= names(node_ids@));
        }
        self.id = node_id;
        self.peers = peers;
    }

    /// The next message number: one more than the last.
    pub fn next_msg_id(&mut self) -> (id: u64)
        requires
            old(self).has_ids(1),
        ensures
            id == old(self).msg_id + 1,
            final(self)@ == (NodeView { msg_id: id, ..old(self)@ }),
    {
        self.msg_id = self.msg_id + 1;
        self.msg_id
    }

    /// The answer to an `init` request, under a fresh number.
    pub fn init_ok(&mut self, dest: String, in_reply_to: u64) -> (m: Message)
        requires
            old(self).has_ids(1),
        ensures
            final(self)@ == (NodeView { msg_id: (old(self).msg_id + 1) as u64, ..old(self)@ }),
            m@ == (MessageView {
                src: old(self).id@,
                dest: dest@,
                body: BodyView::InitOk { msg_id: (old(self).msg_id + 1) as u64, in_reply_to },
            }),
    {
        let msg_id = self.next_msg_id();
        Message { src: self.id.clone(), dest, body: MessageBody::InitOk { msg_id, in_reply_to } }
    }

    /// A message from this node to `dest` with the given body. The body's
    /// numbers are the caller's to set.
    pub fn reply(&mut self, dest: String, body: MessageBody) -> (m: Message)
        ensures
            final(self)@ == old(self)@,
            m@ == (MessageView { src: old(self).id@, dest: dest@, body: body@ }),
    {
        Message { src: self.id.clone(), dest, body }
    }
}

impl Default for Node {
    fn default() -> (n: Self)
        ensures
            n@ == (NodeView { id: Seq::empty(), peers: Seq::empty(), msg_id: 0 }),
    {
        Node::new()
    }
}

/// A workload: what a node does with each message that reaches it.
pub trait MessageHandler {
    /// Whether the numbers that handling `message` needs are still to be had:
    /// message numbers, and the counters of the workload.
    spec fn accepts(&self, node: &Node, message: &Message) -> bool;

    /// Whether the handler has recorded a request numbered `r` that it has yet
    /// to answer.
    spec fn awaits(&self, r: u64) -> bool;

    /// Tells whether `handle` may be called with `message`.
    fn can_handle(&self, node: &Node, message: &Message) -> (b: bool)
        ensures
            b == self.accepts(node, message),
    ;

    /// Takes one inbound message and returns the messages to send, in order.
    ///
    /// Whatever the workload: every message sent carries the node's name, the
    /// messages sent are numbered onward from the node's last number, a
    /// message that answers a request answers the one in hand or one that was
    /// awaiting its answer, and an unknown body is answered by nothing.
    fn handle(&mut self, node: &mut Node, message: Message) -> (out: Vec<Message>)
        requires
            old(self).accepts(old(node), &message),
        ensures
            all_from(batch_view(out@), final(node).id@),
            numbered_from(batch_view(out@), old(node).msg_id),
            final(node).msg_id == old(node).msg_id + out@.len(),
            forall|i: int|
                0 <= i < out@.len() ==> match (#[trigger] batch_view(out@)[i]).body.in_reply_to() {
                    Some(r) => request_id(message@.body) == Some(r) || old(self).awaits(r),
                    None => true,
                },
            message.body is Unknown ==> out@.len() == 0 && final(node)@ == old(node)@,
    ;

    /// Whether the message numbers that a tick needs are still to be had.
    spec fn ticks(&self, node: &Node) -> bool;

    /// Tells whether `tick` may be called.
    fn can_tick(&self, node: &Node) -> (b: bool)
        ensures
            b == self.ticks(node),
    ;

    /// Takes a tick of the timer and returns the messages to send, in order.
    /// A workload that does not gossip sends nothing.
    ///
    /// Whatever the workload: every message sent carries the node's name, the
    /// messages sent are numbered onward from the node's last number, none of
    /// them answers a request, and the node keeps its name and its peers.
    fn tick(&mut self, node: &mut Node) -> (out: Vec<Message>)
        requires
            old(self).ticks(old(node)),
        ensures
            all_from(batch_view(out@), final(node).id@),
            numbered_from(batch_view(out@), old(node).msg_id),
            final(node)@ == (NodeView { msg_id: (old(node).msg_id + out@.len()) as u64, ..old(node)@ }),
            forall|i: int|
                0 <= i < out@.len() ==> (#[trigger] batch_view(out@)[i]).body.in_reply_to() is None,
    ;
}

} // verus!

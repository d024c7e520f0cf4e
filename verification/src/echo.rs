//! The echo workload: every `echo` request is answered with what it carried.

use vstd::prelude::*;
use crate::message::{batch_view, BodyView, Message, MessageBody, MessageView};
use crate::node::{all_from, numbered_from, request_id, without, MessageHandler, Node, NodeView};

verus! {

/// What an echo node does with one message.
pub open spec fn echo_step(n: NodeView, m: MessageView) -> (NodeView, Seq<MessageView>) {
    let next = (n.msg_id + 1) as u64;
    match m.body {
        BodyView::Init { msg_id, node_id, node_ids } => (
            NodeView { id: node_id, peers: without(node_ids, node_id), msg_id: next },
            seq![
                MessageView {
                    src: node_id,
                    dest: m.src,
                    body: BodyView::InitOk { msg_id: next, in_reply_to: msg_id },
                },
            ],
        ),
        BodyView::Echo { msg_id, echo } => (
            NodeView { msg_id: next, ..n },
            seq![
                MessageView {
                    src: n.id,
                    dest: m.src,
                    body: BodyView::EchoOk { msg_id: next, in_reply_to: msg_id, echo },
                },
            ],
        ),
        _ => (n, Seq::empty()),
    }
}

/// Whether the message number is to be had that a step on `m` may need.
pub open spec fn echo_ready(n: NodeView, m: MessageView) -> bool {
    match m.body {
        BodyView::Init { .. } | BodyView::Echo { .. } => n.msg_id + 1 <= u64::MAX,
        _ => true,
    }
}

/// What holds of every step of an echo node: every message sent carries the
/// node's name; the messages sent are numbered onward from the node's last
/// number; and an answer goes to the request in hand.
pub proof fn lemma_echo_step(n: NodeView, m: MessageView)
    requires
        echo_ready(n, m),
    ensures
        all_from(echo_step(n, m).1, echo_step(n, m).0.id),
        numbered_from(echo_step(n, m).1, n.msg_id),
        echo_step(n, m).0.msg_id == n.msg_id + echo_step(n, m).1.len(),
        forall|i: int|
            0 <= i < echo_step(n, m).1.len() ==> match (#[trigger] echo_step(n, m).1[i]).body.in_reply_to() {
                Some(r) => request_id(m.body) == Some(r),
                None => true,
            },
        m.body is Unknown ==> echo_step(n, m) == (n, Seq::<MessageView>::empty()),
{
}

/// An echo node, which has no state of its own.
#[derive(Clone, Copy, Debug, Default)]
pub struct EchoNode;

impl MessageHandler for EchoNode {
    open spec fn ticks(&self, node: &Node) -> bool {
        true
    }

    fn can_tick(&self, node: &Node) -> (b: bool) {
        true
    }

    /// This workload does not gossip: a tick changes nothing and sends
    /// nothing.
    fn tick(&mut self, node: &mut Node) -> (out: Vec<Message>)
        ensures
            out@.len() == 0,
            *final(self) == *old(self),
    {
        let out: Vec<Message> = Vec::new();
        proof {
            assert(batch_view(out@) =~= Seq::empty());
        }
        out
    }

    open spec fn accepts(&self, node: &Node, message: &Message) -> bool {
        echo_ready(node@, message@)
    }

    open spec fn awaits(&self, r: u64) -> bool {
        false
    }

    fn can_handle(&self, node: &Node, message: &Message) -> (b: bool) {
        match &message.body {
            MessageBody::Init { .. } | MessageBody::Echo { .. } => node.can_number(1),
            _ => true,
        }
    }

    /// Takes one message of the echo workload.
    fn handle(&mut self, node: &mut Node, message: Message) -> (out: Vec<Message>)
        ensures
            (final(node)@, batch_view(out@)) == echo_step(old(node)@, message@),
    {
        proof {
            lemma_echo_step(node@, message@);
        }
        let mut out: Vec<Message> = Vec::new();
        let Message { src, dest, body } = message;
        match body {
            MessageBody::Init { msg_id, node_id, node_ids } => {
                node.handle_init(node_id, node_ids);
                let reply = node.init_ok(src, msg_id);
                out.push(reply);
            },
            MessageBody::Echo { msg_id, echo } => {
                let id = node.next_msg_id();
                let reply = node.reply(
                    src,
                    MessageBody::EchoOk { msg_id: id, in_reply_to: msg_id, echo },
                );
                out.push(reply);
            },
            _ => {},
        }
        proof {
            assert(batch_view(out@) =~= echo_step(old(node)@, message@).1);
        }
        out
    }
}

} // verus!

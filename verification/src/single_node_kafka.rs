//! The log of a single node: messages are appended under keys, polled from
//! an offset on, and committed.

use vstd::prelude::*;
use crate::log::{log_of, logs_append, logs_commit, logs_list, logs_poll, LogView, Logs};
use crate::message::{batch_view, BodyView, Message, MessageBody, MessageView, Name};
use crate::node::{all_from, numbered_from, request_id, without, MessageHandler, Node, NodeView};

verus! {

/// What a node of the log does with one message.
pub open spec fn log_step(s: Map<Name, LogView>, n: NodeView, m: MessageView) -> (
    Map<Name, LogView>,
    NodeView,
    Seq<MessageView>,
) {
    let next = (n.msg_id + 1) as u64;
    let bumped = NodeView { msg_id: next, ..n };
    match m.body {
        BodyView::Init { msg_id, node_id, node_ids } => (
            s,
            NodeView { id: node_id, peers: without(node_ids, node_id), msg_id: next },
            seq![
                MessageView {
                    src: node_id,
                    dest: m.src,
                    body: BodyView::InitOk { msg_id: next, in_reply_to: msg_id },
                },
            ],
        ),
        BodyView::Send { msg_id, key, msg } => (
            logs_append(s, key, msg),
            bumped,
            seq![
                MessageView {
                    src: n.id,
                    dest: m.src,
                    body: BodyView::SendOk {
                        msg_id: next,
                        in_reply_to: msg_id,
                        offset: log_of(s, key).next_offset,
                    },
                },
            ],
        ),
        BodyView::Poll { msg_id, offsets } => (
            s,
            bumped,
            seq![
                MessageView {
                    src: n.id,
                    dest: m.src,
                    body: BodyView::PollOk { msg_id: next, in_reply_to: msg_id, msgs: logs_poll(s, offsets) },
                },
            ],
        ),
        BodyView::CommitOffsets { msg_id, offsets } => (
            logs_commit(s, offsets),
            bumped,
            seq![
                MessageView {
                    src: n.id,
                    dest: m.src,
                    body: BodyView::CommitOffsetsOk { msg_id: next, in_reply_to: msg_id },
                },
            ],
        ),
        BodyView::ListCommittedOffsets { msg_id, keys } => (
            s,
            bumped,
            seq![
                MessageView {
                    src: n.id,
                    dest: m.src,
                    body: BodyView::ListCommittedOffsetsOk {
                        msg_id: next,
                        in_reply_to: msg_id,
                        offsets: logs_list(s, keys),
                    },
                },
            ],
        ),
        _ => (s, n, Seq::empty()),
    }
}

/// Whether the numbers are to be had that a step on `m` may need: a message
/// number for an answer, and for a message to append the next offset of the
/// key's log.
pub open spec fn log_ready(s: Map<Name, LogView>, n: NodeView, m: MessageView) -> bool {
    match m.body {
        BodyView::Send { key, .. } => n.msg_id + 1 <= u64::MAX && log_of(s, key).next_offset < u64::MAX,
        BodyView::Init { .. }
        | BodyView::Poll { .. }
        | BodyView::CommitOffsets { .. }
        | BodyView::ListCommittedOffsets { .. } => n.msg_id + 1 <= u64::MAX,
        _ => true,
    }
}

/// Every log has only been appended to.
pub open spec fn all_dense(s: Map<Name, LogView>) -> bool {
    forall|k: Name| s.contains_key(k) ==> (#[trigger] s[k]).dense()
}

/// What holds of every step of a node of the log: every message sent carries
/// the node's name; the messages sent are numbered onward from the node's
/// last number; an answer goes to the request in hand; and logs that have
/// only been appended to stay so.
pub proof fn lemma_log_step(s: Map<Name, LogView>, n: NodeView, m: MessageView)
    requires
        log_ready(s, n, m),
    ensures
        all_from(log_step(s, n, m).2, log_step(s, n, m).1.id),
        numbered_from(log_step(s, n, m).2, n.msg_id),
        log_step(s, n, m).1.msg_id == n.msg_id + log_step(s, n, m).2.len(),
        forall|i: int|
            0 <= i < log_step(s, n, m).2.len() ==> match (#[trigger] log_step(s, n, m).2[i]).body.in_reply_to() {
                Some(r) => request_id(m.body) == Some(r),
                None => true,
            },
        all_dense(s) ==> all_dense(log_step(s, n, m).0),
        m.body is Unknown ==> log_step(s, n, m) == (s, n, Seq::<MessageView>::empty()),
{
    if all_dense(s) {
        match m.body {
            BodyView::Send { key, msg, .. } => {
                let log = log_of(s, key);
                assert(log.dense());
                assert(log.append(msg).dense());
            },
            BodyView::CommitOffsets { offsets, .. } => {
                let after = logs_commit(s, offsets);
                assert forall|k: Name| after.contains_key(k) implies (#[trigger] after[k]).dense() by {
                    crate::log::lemma_commit_monotone(s, offsets, k);
                    if s.contains_key(k) {
                        assert(s[k].dense());
                    }
                }
            },
            _ => {},
        }
    }
}

/// The state of a node of the log.
#[derive(Clone, Debug)]
pub struct KafkaNode {
    /// The logs, one for each key.
    pub logs: Logs,
}

impl View for KafkaNode {
    type V = Map<Name, LogView>;

    open spec fn view(&self) -> Map<Name, LogView> {
        self.logs@
    }
}

impl Default for KafkaNode {
    fn default() -> (s: Self)
        ensures
            s@ == Map::<Name, LogView>::empty(),
    {
        KafkaNode::new()
    }
}

impl KafkaNode {
    /// A node without logs.
    pub fn new() -> (s: Self)
        ensures
            s@ == Map::<Name, LogView>::empty(),
    {
        KafkaNode { logs: Logs::new() }
    }
}

impl MessageHandler for KafkaNode {
    open spec fn ticks(&self, node: &Node) -> bool {
        true
    }

    fn can_tick(&self, node: &Node) -> (b: bool) {
        true
    }

    /// This workload does not gossip: a tick changes nothing and sends
    /// nothing.
    fn tick(&mut self, node: &mut Node) -> (out: Vec<Message>)
        ensures
            out@.len() == 0,
            *final(self) == *old(self),
    {
        let out: Vec<Message> = Vec::new();
        proof {
            assert(batch_view(out@) =~= Seq::empty());
        }
        out
    }

    open spec fn accepts(&self, node: &Node, message: &Message) -> bool {
        log_ready(self@, node@, message@)
    }

    open spec fn awaits(&self, r: u64) -> bool {
        false
    }

    fn can_handle(&self, node: &Node, message: &Message) -> (b: bool) {
        match &message.body {
            MessageBody::Send { key, .. } => node.can_number(1) && self.logs.has_room(key.as_str()),
            MessageBody::Init { .. }
            | MessageBody::Poll { .. }
            | MessageBody::CommitOffsets { .. }
            | MessageBody::ListCommittedOffsets { .. } => node.can_number(1),
            _ => true,
        }
    }

    /// Takes one message of the log.
    fn handle(&mut self, node: &mut Node, message: Message) -> (out: Vec<Message>)
        ensures
            (final(self)@, final(node)@, batch_view(out@)) == log_step(old(self)@, old(node)@, message@),
    {
        proof {
            lemma_log_step(self@, node@, message@);
        }
        let mut out: Vec<Message> = Vec::new();
        let Message { src, dest, body } = message;
        match body {
            MessageBody::Init { msg_id, node_id, node_ids } => {
                node.handle_init(node_id, node_ids);
                let reply = node.init_ok(src, msg_id);
                out.push(reply);
            },
            MessageBody::Send { msg_id, key, msg } => {
                let offset = self.logs.append(key.as_str(), msg);
                let id = node.next_msg_id();
                let reply = node.reply(
                    src,
                    MessageBody::SendOk { msg_id: id, in_reply_to: msg_id, offset },
                );
                out.push(reply);
            },
            MessageBody::Poll { msg_id, offsets } => {
                let msgs = self.logs.poll(&offsets);
                let id = node.next_msg_id();
                let reply = node.reply(src, MessageBody::PollOk { msg_id: id, in_reply_to: msg_id, msgs });
                out.push(reply);
            },
            MessageBody::CommitOffsets { msg_id, offsets } => {
                self.logs.commit_offsets(offsets);
                let id = node.next_msg_id();
                let reply = node.reply(
                    src,
                    MessageBody::CommitOffsetsOk { msg_id: id, in_reply_to: msg_id },
                );
                out.push(reply);
            },
            MessageBody::ListCommittedOffsets { msg_id, keys } => {
                let offsets = self.logs.list_committed_offsets(keys.as_slice());
                let id = node.next_msg_id();
                let reply = node.reply(
                    src,
                    MessageBody::ListCommittedOffsetsOk { msg_id: id, in_reply_to: msg_id, offsets },
                );
                out.push(reply);
            },
            _ => {},
        }
        proof {
            assert(batch_view(out@) =~= log_step(old(self)@, old(node)@, message@).2);
        }
        out
    }
}

} // verus!

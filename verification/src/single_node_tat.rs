//! The transactional store of a single node: every transaction runs straight
//! against the store.

use vstd::prelude::*;
use std::collections::HashMap;
use crate::message::{batch_view, ops_view, BodyView, Message, MessageBody, MessageView, Op};
use crate::node::{all_from, numbered_from, request_id, without, MessageHandler, Node, NodeView};
use crate::txn::{process_ops, run_results, run_store, Store};

verus! {

/// What a node of this store does with one message.
pub open spec fn tat_step(s: Store, n: NodeView, m: MessageView) -> (Store, NodeView, Seq<MessageView>) {
    let next = (n.msg_id + 1) as u64;
    match m.body {
        BodyView::Init { msg_id, node_id, node_ids } => (
            s,
            NodeView { id: node_id, peers: without(node_ids, node_id), msg_id: next },
            seq![
                MessageView {
                    src: node_id,
                    dest: m.src,
                    body: BodyView::InitOk { msg_id: next, in_reply_to: msg_id },
                },
            ],
        ),
        BodyView::Txn { msg_id, txn } => (
            run_store(s, txn),
            NodeView { msg_id: next, ..n },
            seq![
                MessageView {
                    src: n.id,
                    dest: m.src,
                    body: BodyView::TxnOk { msg_id: next, in_reply_to: msg_id, txn: run_results(s, txn) },
                },
            ],
        ),
        _ => (s, n, Seq::empty()),
    }
}

/// Whether the message number is to be had that a step on `m` may need.
pub open spec fn tat_ready(n: NodeView, m: MessageView) -> bool {
    match m.body {
        BodyView::Init { .. } | BodyView::Txn { .. } => n.msg_id + 1 <= u64::MAX,
        _ => true,
    }
}

/// What holds of every step of a node of this store: every message sent
/// carries the node's name; the messages sent are numbered onward from the
/// node's last number; and an answer goes to the request in hand.
pub proof fn lemma_tat_step(s: Store, n: NodeView, m: MessageView)
    requires
        tat_ready(n, m),
    ensures
        all_from(tat_step(s, n, m).2, tat_step(s, n, m).1.id),
        numbered_from(tat_step(s, n, m).2, n.msg_id),
        tat_step(s, n, m).1.msg_id == n.msg_id + tat_step(s, n, m).2.len(),
        forall|i: int|
            0 <= i < tat_step(s, n, m).2.len() ==> match (#[trigger] tat_step(s, n, m).2[i]).body.in_reply_to() {
                Some(r) => request_id(m.body) == Some(r),
                None => true,
            },
        m.body is Unknown ==> tat_step(s, n, m) == (s, n, Seq::<MessageView>::empty()),
{
}

/// The state of a node of this store.
#[derive(Clone, Debug)]
pub struct TatNode {
    /// The value of each key that was written.
    pub entries: HashMap<u64, Option<u64>>,
}

impl View for TatNode {
    type V = Store;

    open spec fn view(&self) -> Store {
        self.entries@
    }
}

impl Default for TatNode {
    fn default() -> (s: Self)
        ensures
            s@ == Map::<u64, Option<u64>>::empty(),
    {
        TatNode::new()
    }
}

impl TatNode {
    /// A node with an empty store.
    pub fn new() -> (s: Self)
        ensures
            s@ == Map::<u64, Option<u64>>::empty(),
    {
        TatNode { entries: HashMap::new() }
    }

    /// Runs the operations of a transaction, each against what the ones
    /// before it left, and returns them as they are reported to the client.
    /// An operation that is neither a read nor a write is passed over.
    pub fn process_txn(&mut self, txn: Vec<Op>) -> (results: Vec<Op>)
        ensures
            final(self)@ == run_store(old(self)@, ops_view(txn@)),
            ops_view(results@) == run_results(old(self)@, ops_view(txn@)),
    {
        process_ops(&mut self.entries, txn)
    }
}

impl MessageHandler for TatNode {
    open spec fn ticks(&self, node: &Node) -> bool {
        true
    }

    fn can_tick(&self, node: &Node) -> (b: bool) {
        true
    }

    /// This workload does not gossip: a tick changes nothing and sends
    /// nothing.
    fn tick(&mut self, node: &mut Node) -> (out: Vec<Message>)
        ensures
            out@.len() == 0,
            *final(self) == *old(self),
    {
        let out: Vec<Message> = Vec::new();
        proof {
            assert(batch_view(out@) =~= Seq::empty());
        }
        out
    }

    open spec fn accepts(&self, node: &Node, message: &Message) -> bool {
        tat_ready(node@, message@)
    }

    open spec fn awaits(&self, r: u64) -> bool {
        false
    }

    fn can_handle(&self, node: &Node, message: &Message) -> (b: bool) {
        match &message.body {
            MessageBody::Init { .. } | MessageBody::Txn { .. } => node.can_number(1),
            _ => true,
        }
    }

    /// Takes one message of this store.
    fn handle(&mut self, node: &mut Node, message: Message) -> (out: Vec<Message>)
        ensures
            (final(self)@, final(node)@, batch_view(out@)) == tat_step(old(self)@, old(node)@, message@),
    {
        proof {
            lemma_tat_step(self@, node@, message@);
        }
        let mut out: Vec<Message> = Vec::new();
        let Message { src, dest, body } = message;
        match body {
            MessageBody::Init { msg_id, node_id, node_ids } => {
                node.handle_init(node_id, node_ids);
                let reply = node.init_ok(src, msg_id);
                out.push(reply);
            },
            MessageBody::Txn { msg_id, txn } => {
                let results = self.process_txn(txn);
                let id = node.next_msg_id();
                let reply = node.reply(
                    src,
                    MessageBody::TxnOk { msg_id: id, in_reply_to: msg_id, txn: results },
                );
                out.push(reply);
            },
            _ => {},
        }
        proof {
            assert(batch_view(out@) =~= tat_step(old(self)@, old(node)@, message@).2);
        }
        out
    }
}

} // verus!

//! The transactional store with read-uncommitted isolation: a transaction
//! runs straight against the store, and its writes are sent on to the peers.

use vstd::prelude::*;
use std::collections::HashMap;
use crate::message::{batch_view, ops_view, BodyView, Message, MessageBody, MessageView, Name, Op};
use crate::node::{all_from, numbered_from, request_id, without, MessageHandler, Node, NodeView};
use crate::txn::{clone_ops, keep_writes, process_ops, run_results, run_store, writes_only, OpView, Store};

verus! {

/// The messages by which the writes of a transaction reach the peers: the
/// writes to each peer, in the order of the peers, numbered onward from the
/// node's last number.
pub open spec fn write_copies(n: NodeView, writes: Seq<OpView>) -> Seq<MessageView> {
    Seq::new(
        n.peers.len(),
        |i: int|
            MessageView {
                src: n.id,
                dest: n.peers[i],
                body: BodyView::TarutReplicate { msg_id: (n.msg_id + 1 + i) as u64, txn: writes },
            },
    )
}

/// What a node does with a transaction that `client` sent under the number
/// `msg_id`: it runs the operations against its store, sends the writes among
/// them to every peer, and answers the client with the results.
pub open spec fn tx_step(s: Store, n: NodeView, client: Name, msg_id: u64, ops: Seq<OpView>) -> (
    Store,
    NodeView,
    Seq<MessageView>,
) {
    let last = (n.msg_id + n.peers.len() + 1) as u64;
    (
        run_store(s, ops),
        NodeView { msg_id: last, ..n },
        write_copies(n, writes_only(ops)).push(
            MessageView {
                src: n.id,
                dest: client,
                body: BodyView::TxnOk { msg_id: last, in_reply_to: msg_id, txn: run_results(s, ops) },
            },
        ),
    )
}

/// What a node of this store does with one message. The writes that a peer
/// sends are run against the store and not sent on.
pub open spec fn tarut_step(s: Store, n: NodeView, m: MessageView) -> (Store, NodeView, Seq<MessageView>) {
    let next = (n.msg_id + 1) as u64;
    match m.body {
        BodyView::Init { msg_id, node_id, node_ids } => (
            s,
            NodeView { id: node_id, peers: without(node_ids, node_id), msg_id: next },
            seq![
                MessageView {
                    src: node_id,
                    dest: m.src,
                    body: BodyView::InitOk { msg_id: next, in_reply_to: msg_id },
                },
            ],
        ),
        BodyView::Txn { msg_id, txn } => tx_step(s, n, m.src, msg_id, txn),
        BodyView::TarutReplicate { txn, .. } => (run_store(s, txn), n, Seq::empty()),
        _ => (s, n, Seq::empty()),
    }
}

/// Whether the message numbers are to be had that a step on `m` may need:
/// for a transaction one for each peer and one for the client.
pub open spec fn tarut_ready(n: NodeView, m: MessageView) -> bool {
    match m.body {
        BodyView::Init { .. } => n.msg_id + 1 <= u64::MAX,
        BodyView::Txn { .. } => n.msg_id + n.peers.len() + 1 <= u64::MAX,
        _ => true,
    }
}

/// What holds of every step of a node of this store: every message sent
/// carries the node's name; the messages sent are numbered onward from the
/// node's last number; an answer goes to the request in hand; and a peer that
/// runs the writes sent to it leaves a key as the transaction left it.
pub proof fn lemma_tarut_step(s: Store, n: NodeView, m: MessageView)
    requires
        tarut_ready(n, m),
    ensures
        all_from(tarut_step(s, n, m).2, tarut_step(s, n, m).1.id),
        numbered_from(tarut_step(s, n, m).2, n.msg_id),
        tarut_step(s, n, m).1.msg_id == n.msg_id + tarut_step(s, n, m).2.len(),
        forall|i: int|
            0 <= i < tarut_step(s, n, m).2.len() ==> match (#[trigger] tarut_step(
                s,
                n,
                m,
            ).2[i]).body.in_reply_to() {
                Some(r) => request_id(m.body) == Some(r),
                None => true,
            },
        m.body is Txn ==> forall|peer: Store|
            run_store(peer, writes_only(m.body->Txn_txn)) == #[trigger] run_store(peer, m.body->Txn_txn),
        m.body is Unknown ==> tarut_step(s, n, m) == (s, n, Seq::<MessageView>::empty()),
{
    if m.body is Txn {
        assert forall|peer: Store|
            run_store(peer, writes_only(m.body->Txn_txn)) == #[trigger] run_store(
                peer,
                m.body->Txn_txn,
            ) by {
            crate::txn::lemma_writes_suffice(peer, m.body->Txn_txn);
        }
    }
}

/// The state of a node of this store.
#[derive(Clone, Debug)]
pub struct TarutNode {
    /// The value of each key that was written.
    pub entries: HashMap<u64, Option<u64>>,
}

impl View for TarutNode {
    type V = Store;

    open spec fn view(&self) -> Store {
        self.entries@
    }
}

impl Default for TarutNode {
    fn default() -> (s: Self)
        ensures
            s@ == Map::<u64, Option<u64>>::empty(),
    {
        TarutNode::new()
    }
}

impl TarutNode {
    /// A node with an empty store.
    pub fn new() -> (s: Self)
        ensures
            s@ == Map::<u64, Option<u64>>::empty(),
    {
        TarutNode { entries: HashMap::new() }
    }

    /// Runs the operations of a transaction, each against what the ones
    /// before it left, and returns them as they are reported to the client.
    /// An operation that is neither a read nor a write is passed over.
    pub fn process_txn(&mut self, txn: Vec<Op>) -> (results: Vec<Op>)
        ensures
            final(self)@ == run_store(old(self)@, ops_view(txn@)),
            ops_view(results@) == run_results(old(self)@, ops_view(txn@)),
    {
        process_ops(&mut self.entries, txn)
    }

    /// Runs a transaction that `message.src` sent under the number `msg_id`,
    /// sends its writes to every peer and answers the client.
    pub fn handle_tx(&mut self, node: &mut Node, message: Message, msg_id: u64, txn: Vec<Op>) -> (out:
        Vec<Message>)
        requires
            old(node).has_ids(old(node)@.peers.len() + 1 as int),
        ensures
            (final(self)@, final(node)@, batch_view(out@)) == tx_step(
                old(self)@,
                old(node)@,
                message.src@,
                msg_id,
                ops_view(txn@),
            ),
    {
        let mut out: Vec<Message> = Vec::new();
        let writes = keep_writes(&txn);
        let results = self.process_txn(txn);
        let ghost copies = write_copies(old(node)@, ops_view(writes@));
        let n = node.peers.len();
        let mut i: usize = 0;
        proof {
            assert(batch_view(out@) =~= copies.take(0));
        }
        while i < n
            invariant
                i <= n,
                n == node.peers@.len(),
                node@.id == old(node)@.id,
                node@.peers == old(node)@.peers,
                node.msg_id == old(node).msg_id + i,
                old(node).has_ids(n + 1),
                copies == write_copies(old(node)@, ops_view(writes@)),
                batch_view(out@) == copies.take(i as int),
            decreases n - i,
        {
            let id = node.next_msg_id();
            let ghost sent = out@;
            out.push(
                Message {
                    src: node.id.clone(),
                    dest: node.peers[i].clone(),
                    body: MessageBody::TarutReplicate { msg_id: id, txn: clone_ops(&writes) },
                },
            );
            proof {
                assert(batch_view(out@) =~= batch_view(sent).push(copies[i as int]));
                assert(copies.take(i + 1) =~= copies.take(i as int).push(copies[i as int]));
            }
            i = i + 1;
        }
        proof {
            assert(copies.take(n as int) =~= copies);
        }
        let id = node.next_msg_id();
        let ghost sent = out@;
        out.push(
            Message {
                src: node.id.clone(),
                dest: message.src,
                body: MessageBody::TxnOk { msg_id: id, in_reply_to: msg_id, txn: results },
            },
        );
        proof {
            assert(batch_view(out@) =~= batch_view(sent).push(batch_view(out@).last()));
        }
        out
    }
}

impl MessageHandler for TarutNode {
    open spec fn ticks(&self, node: &Node) -> bool {
        true
    }

    fn can_tick(&self, node: &Node) -> (b: bool) {
        true
    }

    /// This workload does not gossip: a tick changes nothing and sends
    /// nothing.
    fn tick(&mut self, node: &mut Node) -> (out: Vec<Message>)
        ensures
            out@.len() == 0,
            *final(self) == *old(self),
    {
        let out: Vec<Message> = Vec::new();
        proof {
            assert(batch_view(out@) =~= Seq::empty());
        }
        out
    }

    open spec fn accepts(&self, node: &Node, message: &Message) -> bool {
        tarut_ready(node@, message@)
    }

    open spec fn awaits(&self, r: u64) -> bool {
        false
    }

    fn can_handle(&self, node: &Node, message: &Message) -> (b: bool) {
        match &message.body {
            MessageBody::Init { .. } => node.can_number(1),
            MessageBody::Txn { .. } => node.can_number_peers(1),
            _ => true,
        }
    }

    /// Takes one message of this store.
    fn handle(&mut self, node: &mut Node, message: Message) -> (out: Vec<Message>)
        ensures
            (final(self)@, final(node)@, batch_view(out@)) == tarut_step(
                old(self)@,
                old(node)@,
                message@,
            ),
    {
        proof {
            lemma_tarut_step(self@, node@, message@);
        }
        let mut out: Vec<Message> = Vec::new();
        let Message { src, dest, body } = message;
        match body {
            MessageBody::Init { msg_id, node_id, node_ids } => {
                node.handle_init(node_id, node_ids);
                let reply = node.init_ok(src, msg_id);
                out.push(reply);
            },
            MessageBody::Txn { msg_id, txn } => {
                let from_client = Message { src, dest, body: MessageBody::Unknown };
                out = self.handle_tx(node, from_client, msg_id, txn);
            },
            MessageBody::TarutReplicate { msg_id: _, txn } => {
                let _ = self.process_txn(txn);
            },
            _ => {},
        }
        proof {
            assert(batch_view(out@) =~= tarut_step(old(self)@, old(node)@, message@).2);
        }
        out
    }
}

} // verus!

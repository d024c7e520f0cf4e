//! The replicated log: one leader, chosen by name, appends and replicates;
//! the other nodes forward to it and acknowledge.

use vstd::prelude::*;
use std::collections::HashMap;
use crate::log::{log_of, logs_append, logs_commit, logs_insert_at, logs_list, logs_poll, LogView, Logs};
use crate::message::{batch_view, names, BodyView, Message, MessageBody, MessageView, Name};
use crate::node::{all_from, name_in, numbered_from, request_id, without, MessageHandler, Node, NodeView};
use crate::strings::{str_before, str_eq, str_lt};

verus! {

broadcast use vstd::std_specs::hash::group_hash_axioms;

/// The least of the names in the order of strings, or the empty name where
/// there is none.
pub open spec fn least_name(s: Seq<Name>) -> Name
    decreases s.len(),
{
    if s.len() == 0 {
        Seq::empty()
    } else if s.len() == 1 {
        s[0]
    } else {
        let m = least_name(s.drop_last());
        if str_before(s.last(), m) {
            s.last()
        } else {
            m
        }
    }
}

/// The least name is one of the names, none of them comes before it, and
/// every other name comes after it: all nodes that are given the same names,
/// in whatever order, settle on the same leader.
pub proof fn lemma_least_name(s: Seq<Name>)
    requires
        s.len() > 0,
    ensures
        s.contains(least_name(s)),
        forall|i: int| 0 <= i < s.len() ==> !str_before(#[trigger] s[i], least_name(s)),
        forall|i: int|
            0 <= i < s.len() ==> (#[trigger] s[i]) == least_name(s) || str_before(least_name(s), s[i]),
    decreases s.len(),
{
    lemma_least_name_bound(s);
    assert forall|i: int| 0 <= i < s.len() implies (#[trigger] s[i]) == least_name(s) || str_before(
        least_name(s),
        s[i],
    ) by {
        crate::strings::lemma_lex_total(
            crate::strings::bytes_of(s[i]),
            crate::strings::bytes_of(least_name(s)),
        );
        if crate::strings::bytes_of(s[i]) == crate::strings::bytes_of(least_name(s)) {
            crate::strings::lemma_bytes_injective(s[i], least_name(s));
        }
    }
}

/// The least name is one of the names, and none of them comes before it.
proof fn lemma_least_name_bound(s: Seq<Name>)
    requires
        s.len() > 0,
    ensures
        s.contains(least_name(s)),
        forall|i: int| 0 <= i < s.len() ==> !str_before(#[trigger] s[i], least_name(s)),
    decreases s.len(),
{
    if s.len() == 1 {
        assert(s[0] == least_name(s));
        crate::strings::lemma_lex_irreflexive(crate::strings::bytes_of(s[0]));
    } else {
        let front = s.drop_last();
        lemma_least_name_bound(front);
        let m = least_name(front);
        let j = choose|j: int| 0 <= j < front.len() && front[j] == m;
        assert(s[j] == m);
        assert(s[s.len() - 1] == s.last());
        assert forall|i: int| 0 <= i < s.len() implies !str_before(#[trigger] s[i], least_name(s)) by {
            if str_before(s.last(), m) {
                if i < front.len() {
                    assert(front[i] == s[i]);
                    if str_before(s[i], s.last()) {
                        crate::strings::lemma_lex_transitive(
                            crate::strings::bytes_of(s[i]),
                            crate::strings::bytes_of(s.last()),
                            crate::strings::bytes_of(m),
                        );
                    }
                } else {
                    crate::strings::lemma_lex_irreflexive(crate::strings::bytes_of(s.last()));
                }
            } else {
                if i < front.len() {
                    assert(front[i] == s[i]);
                }
            }
        }
    }
}

/// The number of nodes, the leader among them, that must hold a message
/// before its sender is answered, in a cluster with `peers` other nodes.
pub open spec fn quorum_of(peers: nat) -> nat {
    (peers + 1) / 2 + 1
}

/// What the leader remembers of a message that is not yet held by a quorum.
#[derive(Clone, Debug)]
pub struct Pending {
    /// Who sent the message.
    pub client: String,
    /// The number the sender gave its request.
    pub client_msg_id: u64,
    /// The nodes that hold the message, the leader first.
    pub from: Vec<String>,
}

/// What a pending record stands for.
pub struct PendingView {
    pub client: Name,
    pub client_msg_id: u64,
    pub ack_from: Seq<Name>,
}

impl View for Pending {
    type V = PendingView;

    open spec fn view(&self) -> PendingView {
        PendingView {
            client: self.client@,
            client_msg_id: self.client_msg_id,
            ack_from: names(self.from@),
        }
    }
}

impl Pending {
    /// The number of nodes that hold the message.
    pub fn acks(&self) -> (n: usize)
        ensures
            n == self@.ack_from.len(),
    {
        self.from.len()
    }
}

/// What the state of a node of the replicated log stands for.
pub struct KafkaView {
    pub leader: Name,
    pub next_offset: u64,
    pub logs: Map<Name, LogView>,
    pub pendings: Map<u64, PendingView>,
}

/// The state of a node of the replicated log.
pub struct KafkaNode {
    /// The leader of the cluster; empty until the node is initialised.
    pub leader: String,
    /// One more than the offset that the leader gave last.
    pub next_offset: u64,
    /// The logs, one for each key.
    pub logs: Logs,
    /// By offset, the messages not yet held by a quorum.
    pub pendings: HashMap<u64, Pending>,
}

impl View for KafkaNode {
    type V = KafkaView;

    open spec fn view(&self) -> KafkaView {
        KafkaView {
            leader: self.leader@,
            next_offset: self.next_offset,
            logs: self.logs@,
            pendings: self.pendings@.map_values(|p: Pending| p@),
        }
    }
}

/// The messages by which the leader hands `msg` to its peers: one for each
/// peer, in the order of the peers, numbered onward from the node's last
/// number.
pub open spec fn replicate_batch(n: NodeView, key: Name, msg: u64, offset: u64) -> Seq<MessageView> {
    Seq::new(
        n.peers.len(),
        |i: int|
            MessageView {
                src: n.id,
                dest: n.peers[i],
                body: BodyView::Replicate { msg_id: (n.msg_id + 1 + i) as u64, key, msg, offset },
            },
    )
}

/// What a node does with a message sent by `client` under the number
/// `client_msg_id`. A node that is not the leader forwards it to the leader
/// and does nothing more. The leader appends it, records it as pending with
/// itself as the first holder, and hands it to every peer; where the leader
/// alone is a quorum it answers the client at once and drops the record.
pub open spec fn send_step(
    s: KafkaView,
    n: NodeView,
    client: Name,
    client_msg_id: u64,
    key: Name,
    msg: u64,
) -> (KafkaView, NodeView, Seq<MessageView>) {
    if n.id != s.leader {
        (
            s,
            NodeView { msg_id: (n.msg_id + 1) as u64, ..n },
            seq![
                MessageView {
                    src: n.id,
                    dest: s.leader,
                    body: BodyView::ForwardSend {
                        msg_id: (n.msg_id + 1) as u64,
                        orig_src: client,
                        orig_msg_id: client_msg_id,
                        key,
                        msg,
                    },
                },
            ],
        )
    } else {
        let offset = log_of(s.logs, key).next_offset;
        let pending = PendingView { client, client_msg_id, ack_from: seq![n.id] };
        let appended = KafkaView {
            logs: logs_append(s.logs, key, msg),
            next_offset: (offset + 1) as u64,
            pendings: s.pendings.insert(offset, pending),
            ..s
        };
        let copies = replicate_batch(n, key, msg, offset);
        if quorum_of(n.peers.len()) <= 1 {
            (
                KafkaView { pendings: appended.pendings.remove(offset), ..appended },
                NodeView { msg_id: (n.msg_id + n.peers.len() + 1) as u64, ..n },
                copies.push(
                    MessageView {
                        src: n.id,
                        dest: client,
                        body: BodyView::SendOk {
                            msg_id: (n.msg_id + n.peers.len() + 1) as u64,
                            in_reply_to: client_msg_id,
                            offset,
                        },
                    },
                ),
            )
        } else {
            (appended, NodeView { msg_id: (n.msg_id + n.peers.len()) as u64, ..n }, copies)
        }
    }
}

/// What the leader does when `src` acknowledges the message at `offset`. An
/// acknowledgement for an offset that is not pending, or from a node that has
/// acknowledged before, changes nothing. Otherwise the node is counted, and
/// once a quorum holds the message the client is answered and the record
/// dropped.
pub open spec fn ack_step(s: KafkaView, n: NodeView, src: Name, offset: u64) -> (
    KafkaView,
    NodeView,
    Seq<MessageView>,
) {
    if !s.pendings.contains_key(offset) {
        (s, n, Seq::empty())
    } else {
        let p = s.pendings[offset];
        if p.ack_from.contains(src) {
            (s, n, Seq::empty())
        } else {
            let ack_from = p.ack_from.push(src);
            if ack_from.len() >= quorum_of(n.peers.len()) {
                (
                    KafkaView { pendings: s.pendings.remove(offset), ..s },
                    NodeView { msg_id: (n.msg_id + 1) as u64, ..n },
                    seq![
                        MessageView {
                            src: n.id,
                            dest: p.client,
                            body: BodyView::SendOk {
                                msg_id: (n.msg_id + 1) as u64,
                                in_reply_to: p.client_msg_id,
                                offset,
                            },
                        },
                    ],
                )
            } else {
                (
                    KafkaView { pendings: s.pendings.insert(offset, PendingView { ack_from, ..p }), ..s },
                    n,
                    Seq::empty(),
                )
            }
        }
    }
}

/// One answer from the node to `dest`, under the node's next number.
pub open spec fn one_reply(n: NodeView, dest: Name, body: BodyView) -> Seq<MessageView> {
    seq![MessageView { src: n.id, dest, body }]
}

/// The node after it has numbered one message.
pub open spec fn bumped(n: NodeView) -> NodeView {
    NodeView { msg_id: (n.msg_id + 1) as u64, ..n }
}

/// What a node of the replicated log does with one message: its next state,
/// the next state of the shared part, and the messages it sends.
pub open spec fn kafka_step(s: KafkaView, n: NodeView, m: MessageView) -> (
    KafkaView,
    NodeView,
    Seq<MessageView>,
) {
    let next = (n.msg_id + 1) as u64;
    match m.body {
        BodyView::Init { msg_id, node_id, node_ids } => {
            let joined = NodeView { id: node_id, peers: without(node_ids, node_id), msg_id: next };
            (
                KafkaView { leader: least_name(node_ids), ..s },
                joined,
                one_reply(joined, m.src, BodyView::InitOk { msg_id: next, in_reply_to: msg_id }),
            )
        },
        BodyView::Send { msg_id, key, msg } => send_step(s, n, m.src, msg_id, key, msg),
        BodyView::ForwardSend { orig_src, orig_msg_id, key, msg, .. } => send_step(
            s,
            n,
            orig_src,
            orig_msg_id,
            key,
            msg,
        ),
        BodyView::Replicate { msg_id, key, msg, offset } => (
            KafkaView { logs: logs_insert_at(s.logs, key, offset, msg), ..s },
            bumped(n),
            one_reply(n, m.src, BodyView::ReplicateOk { msg_id: next, in_reply_to: msg_id, offset }),
        ),
        BodyView::ReplicateOk { offset, .. } => ack_step(s, n, m.src, offset),
        BodyView::Poll { msg_id, offsets } => (
            s,
            bumped(n),
            one_reply(
                n,
                m.src,
                BodyView::PollOk { msg_id: next, in_reply_to: msg_id, msgs: logs_poll(s.logs, offsets) },
            ),
        ),
        BodyView::CommitOffsets { msg_id, offsets } => (
            KafkaView { logs: logs_commit(s.logs, offsets), ..s },
            bumped(n),
            one_reply(n, m.src, BodyView::CommitOffsetsOk { msg_id: next, in_reply_to: msg_id }),
        ),
        BodyView::ListCommittedOffsets { msg_id, keys } => (
            s,
            bumped(n),
            one_reply(
                n,
                m.src,
                BodyView::ListCommittedOffsetsOk {
                    msg_id: next,
                    in_reply_to: msg_id,
                    offsets: logs_list(s.logs, keys),
                },
            ),
        ),
        _ => (s, n, Seq::empty()),
    }
}

impl Default for KafkaNode {
    fn default() -> (s: Self)
        ensures
            s@ == (KafkaView {
                leader: Seq::empty(),
                next_offset: 0,
                logs: Map::empty(),
                pendings: Map::empty(),
            }),
    {
        KafkaNode::new()
    }
}

impl KafkaNode {
    /// A node that knows no leader and holds nothing.
    pub fn new() -> (s: Self)
        ensures
            s@ == (KafkaView {
                leader: Seq::empty(),
                next_offset: 0,
                logs: Map::empty(),
                pendings: Map::empty(),
            }),
    {
        let s = KafkaNode {
            leader: String::new(),
            next_offset: 0,
            logs: Logs::new(),
            pendings: HashMap::new(),
        };
        proof {
            assert(s@.pendings =~= Map::empty());
        }
        s
    }

    /// The size of a quorum in the node's cluster.
    pub fn quorum(&self, node: &Node) -> (q: usize)
        ensures
            q == quorum_of(node@.peers.len()),
    {
        let n = node.peers.len();
        n / 2 + n % 2 + 1
    }

    /// Takes the node's name and the members of the cluster, and settles on
    /// the member with the least name as the leader.
    pub fn handle_init(&mut self, node: &mut Node, node_id: String, node_ids: Vec<String>)
        ensures
            final(self)@ == (KafkaView { leader: least_name(names(node_ids@)), ..old(self)@ }),
            final(node)@ == (NodeView {
                id: node_id@,
                peers: without(names(node_ids@), node_id@),
                msg_id: old(node).msg_id,
            }),
    {
        let mut leader = String::new();
        if node_ids.len() > 0 {
            let mut best: usize = 0;
            let mut i: usize = 1;
            proof {
                assert(names(node_ids@).take(1) =~= seq![node_ids@[0]@]);
            }
            while i < node_ids.len()
                invariant
                    1 <= i <= node_ids@.len(),
                    best < i,
                    node_ids@[best as int]@ == least_name(names(node_ids@).take(i as int)),
                decreases node_ids@.len() - i,
            {
                proof {
                    let all = names(node_ids@);
                    assert(all.take(i + 1).drop_last() =~= all.take(i as int));
                    assert(all.take(i + 1).last() == node_ids@[i as int]@);
                }
                if str_lt(node_ids[i].as_str(), node_ids[best].as_str()) {
                    best = i;
                }
                i = i + 1;
            }
            proof {
                assert(names(node_ids@).take(node_ids@.len() as int) =~= names(node_ids@));
            }
            leader = node_ids[best].clone();
        }
        node.handle_init(node_id, node_ids);
        self.leader = leader;
    }

    /// Takes a message that `message.src` sent under the number `msg_id`: the
    /// leader appends and replicates it, any other node forwards it to the
    /// leader.
    pub fn handle_send(
        &mut self,
        node: &mut Node,
        message: Message,
        msg_id: u64,
        key: String,
        msg: u64,
    ) -> (out: Vec<Message>)
        requires
            old(node)@.id == old(self)@.leader ==> old(node).has_ids(old(node)@.peers.len() + 1 as int)
                && old(self).logs.can_append(key@),
            old(node)@.id != old(self)@.leader ==> old(node).has_ids(1),
        ensures
            (final(self)@, final(node)@, batch_view(out@)) == send_step(
                old(self)@,
                old(node)@,
                message.src@,
                msg_id,
                key@,
                msg,
            ),
    {
        let mut out: Vec<Message> = Vec::new();
        let client = message.src;
        if !str_eq(node.id.as_str(), self.leader.as_str()) {
            let id = node.next_msg_id();
            out.push(
                Message {
                    src: node.id.clone(),
                    dest: self.leader.clone(),
                    body: MessageBody::ForwardSend {
                        msg_id: id,
                        orig_src: client,
                        orig_msg_id: msg_id,
                        key,
                        msg,
                    },
                },
            );
            proof {
                assert(batch_view(out@) =~= send_step(
                    old(self)@,
                    old(node)@,
                    client@,
                    msg_id,
                    key@,
                    msg,
                ).2);
            }
        } else {
            let offset = self.logs.append(key.as_str(), msg);
            self.next_offset = offset + 1;
            let mut from: Vec<String> = Vec::new();
            from.push(node.id.clone());
            let pending = Pending { client: client.clone(), client_msg_id: msg_id, from };
            proof {
                assert(pending@.ack_from =~= seq![node.id@]);
            }
            let ghost before = self.pendings@;
            self.pendings.insert(offset, pending);
            proof {
                assert(self@.pendings =~= old(self)@.pendings.insert(offset, pending@));
            }
            let ghost copies = replicate_batch(old(node)@, key@, msg, offset);
            let n = node.peers.len();
            let mut i: usize = 0;
            while i < n
                invariant
                    i <= n,
                    n == node.peers@.len(),
                    node@.id == old(node)@.id,
                    node@.peers == old(node)@.peers,
                    node.msg_id == old(node).msg_id + i,
                    old(node).has_ids(n + 1),
                    copies == replicate_batch(old(node)@, key@, msg, offset),
                    batch_view(out@) == copies.take(i as int),
                decreases n - i,
            {
                let id = node.next_msg_id();
                let ghost sent = out@;
                out.push(
                    Message {
                        src: node.id.clone(),
                        dest: node.peers[i].clone(),
                        body: MessageBody::Replicate { msg_id: id, key: key.clone(), msg, offset },
                    },
                );
                proof {
                    assert(batch_view(out@) =~= batch_view(sent).push(copies[i as int]));
                    assert(copies.take(i + 1) =~= copies.take(i as int).push(copies[i as int]));
                }
                i = i + 1;
            }
            proof {
                assert(copies.take(n as int) =~= copies);
            }
            if self.quorum(node) <= 1 {
                let id = node.next_msg_id();
                let ghost sent = out@;
                out.push(
                    Message {
                        src: node.id.clone(),
                        dest: client,
                        body: MessageBody::SendOk { msg_id: id, in_reply_to: msg_id, offset },
                    },
                );
                self.pendings.remove(&offset);
                proof {
                    assert(batch_view(out@) =~= batch_view(sent).push(batch_view(out@).last()));
                    assert(self@.pendings =~= old(self)@.pendings.insert(offset, pending@).remove(offset));
                }
            }
        }
        out
    }

    /// Counts the acknowledgement by `src` of the message at `offset`, and
    /// answers the client once a quorum holds the message.
    pub fn handle_replicate_ok(&mut self, node: &mut Node, src: String, offset: u64) -> (out: Vec<
        Message,
    >)
        requires
            old(node).has_ids(1),
        ensures
            (final(self)@, final(node)@, batch_view(out@)) == ack_step(
                old(self)@,
                old(node)@,
                src@,
                offset,
            ),
    {
        let mut out: Vec<Message> = Vec::new();
        let quorum = self.quorum(node);
        let ghost before = self.pendings@;
        match self.pendings.remove(&offset) {
            Some(p) => {
                let mut p = p;
                if name_in(&p.from, src.as_str()) {
                    self.pendings.insert(offset, p);
                    proof {
                        assert(self.pendings@ =~= before);
                    }
                } else {
                    let ghost held = p@;
                    let ghost earlier = p.from@;
                    p.from.push(src);
                    proof {
                        assert(names(p.from@) =~= names(earlier).push(src@));
                    }
                    if p.from.len() >= quorum {
                        let id = node.next_msg_id();
                        out.push(
                            Message {
                                src: node.id.clone(),
                                dest: p.client,
                                body: MessageBody::SendOk {
                                    msg_id: id,
                                    in_reply_to: p.client_msg_id,
                                    offset,
                                },
                            },
                        );
                        proof {
                            assert(self@.pendings =~= old(self)@.pendings.remove(offset));
                            assert(batch_view(out@) =~= ack_step(old(self)@, old(node)@, src@, offset).2);
                        }
                    } else {
                        let ghost counted = p@;
                        self.pendings.insert(offset, p);
                        proof {
                            assert(self@.pendings =~= old(self)@.pendings.insert(offset, counted));
                            assert(batch_view(out@) =~= Seq::empty());
                        }
                    }
                }
            },
            None => {
                proof {
                    assert(self.pendings@ =~= before);
                }
            },
        }
        proof {
            assert(batch_view(out@) =~= ack_step(old(self)@, old(node)@, src@, offset).2);
        }
        out
    }
}

/// Whether some pending record is owed an answer to the request numbered `r`.
pub open spec fn owes_answer(pendings: Map<u64, PendingView>, r: u64) -> bool {
    exists|o: u64| #[trigger] pendings.contains_key(o) && pendings[o].client_msg_id == r
}

/// Whether the numbers are to be had that a step on `m` may need: one message
/// number for an answer, and for a message to append one number for each peer
/// and the next offset of the key's log.
pub open spec fn kafka_ready(s: KafkaView, n: NodeView, m: MessageView) -> bool {
    match m.body {
        BodyView::Send { key, .. } | BodyView::ForwardSend { key, .. } => if n.id == s.leader {
            n.msg_id + n.peers.len() + 1 <= u64::MAX && log_of(s.logs, key).next_offset < u64::MAX
        } else {
            n.msg_id + 1 <= u64::MAX
        },
        BodyView::Init { .. }
        | BodyView::Replicate { .. }
        | BodyView::ReplicateOk { .. }
        | BodyView::Poll { .. }
        | BodyView::CommitOffsets { .. }
        | BodyView::ListCommittedOffsets { .. } => n.msg_id + 1 <= u64::MAX,
        _ => true,
    }
}

/// What holds of every step of a node of the replicated log: every message
/// sent carries the node's name; the messages sent are numbered onward from
/// the node's last number; an answer goes to the request in hand or to one
/// recorded as pending; a record is pending only for a request that was
/// pending before or is the one in hand; and a client is answered from a
/// pending record only when a quorum holds its message.
pub proof fn lemma_kafka_step(s: KafkaView, n: NodeView, m: MessageView)
    requires
        kafka_ready(s, n, m),
    ensures
        all_from(kafka_step(s, n, m).2, kafka_step(s, n, m).1.id),
        numbered_from(kafka_step(s, n, m).2, n.msg_id),
        kafka_step(s, n, m).1.msg_id == n.msg_id + kafka_step(s, n, m).2.len(),
        forall|i: int|
            0 <= i < kafka_step(s, n, m).2.len() ==> match (#[trigger] kafka_step(
                s,
                n,
                m,
            ).2[i]).body.in_reply_to() {
                Some(r) => request_id(m.body) == Some(r) || owes_answer(s.pendings, r),
                None => true,
            },
        forall|r: u64|
            owes_answer(kafka_step(s, n, m).0.pendings, r) ==> owes_answer(s.pendings, r)
                || request_id(m.body) == Some(r),
        m.body is Unknown ==> kafka_step(s, n, m) == (s, n, Seq::<MessageView>::empty()),
        m.body is ReplicateOk && kafka_step(s, n, m).2.len() > 0 ==> {
            &&& s.pendings.contains_key(m.body->ReplicateOk_offset)
            &&& s.pendings[m.body->ReplicateOk_offset].ack_from.len() + 1 >= quorum_of(n.peers.len())
            &&& !kafka_step(s, n, m).0.pendings.contains_key(m.body->ReplicateOk_offset)
        },
{
    let (s2, n2, out) = kafka_step(s, n, m);
    match m.body {
        BodyView::Send { msg_id, key, msg } => {
            lemma_send_step(s, n, m.src, msg_id, key, msg);
        },
        BodyView::ForwardSend { orig_src, orig_msg_id, key, msg, .. } => {
            lemma_send_step(s, n, orig_src, orig_msg_id, key, msg);
        },
        BodyView::ReplicateOk { offset, .. } => {
            if out.len() > 0 {
                assert(s.pendings.contains_key(offset));
                assert(owes_answer(s.pendings, s.pendings[offset].client_msg_id));
            }
            assert forall|r: u64| owes_answer(s2.pendings, r) implies owes_answer(s.pendings, r) by {
                let o = choose|o: u64| #[trigger]
                    s2.pendings.contains_key(o) && s2.pendings[o].client_msg_id == r;
                assert(s.pendings.contains_key(o));
            }
        },
        _ => {},
    }
}

/// A node that has taken a copy of a message holds it at its offset under
/// its key, and so does the leader that has appended it: a node acknowledges,
/// and the leader counts itself, only for what it holds.
pub proof fn lemma_holds(s: KafkaView, n: NodeView, m: MessageView)
    requires
        kafka_ready(s, n, m),
    ensures
        m.body matches BodyView::Replicate { key, msg, offset, .. } ==> {
            &&& kafka_step(s, n, m).0.logs.contains_key(key)
            &&& kafka_step(s, n, m).0.logs[key].entries.contains_key(offset)
            &&& kafka_step(s, n, m).0.logs[key].entries[offset] == msg
            &&& kafka_step(s, n, m).2 == one_reply(
                n,
                m.src,
                BodyView::ReplicateOk {
                    msg_id: (n.msg_id + 1) as u64,
                    in_reply_to: m.body->Replicate_msg_id,
                    offset,
                },
            )
        },
        m.body matches BodyView::Send { key, msg, .. } ==> n.id == s.leader ==> {
            let offset = log_of(s.logs, key).next_offset;
            &&& kafka_step(s, n, m).0.logs.contains_key(key)
            &&& kafka_step(s, n, m).0.logs[key].entries.contains_key(offset)
            &&& kafka_step(s, n, m).0.logs[key].entries[offset] == msg
            &&& kafka_step(s, n, m).0.logs[key].next_offset == offset + 1
        },
{
}

/// What holds of a step on a message to append, whoever sent it.
pub proof fn lemma_send_step(
    s: KafkaView,
    n: NodeView,
    client: Name,
    client_msg_id: u64,
    key: Name,
    msg: u64,
)
    requires
        n.id == s.leader ==> n.msg_id + n.peers.len() + 1 <= u64::MAX,
        n.id != s.leader ==> n.msg_id + 1 <= u64::MAX,
    ensures
        all_from(send_step(s, n, client, client_msg_id, key, msg).2, n.id),
        send_step(s, n, client, client_msg_id, key, msg).1.id == n.id,
        numbered_from(send_step(s, n, client, client_msg_id, key, msg).2, n.msg_id),
        send_step(s, n, client, client_msg_id, key, msg).1.msg_id == n.msg_id + send_step(
            s,
            n,
            client,
            client_msg_id,
            key,
            msg,
        ).2.len(),
        forall|i: int|
            0 <= i < send_step(s, n, client, client_msg_id, key, msg).2.len() ==> match (#[trigger] send_step(
                s,
                n,
                client,
                client_msg_id,
                key,
                msg,
            ).2[i]).body.in_reply_to() {
                Some(r) => r == client_msg_id,
                None => true,
            },
        forall|r: u64|
            owes_answer(send_step(s, n, client, client_msg_id, key, msg).0.pendings, r)
                ==> owes_answer(s.pendings, r) || r == client_msg_id,
{
    let (s2, n2, out) = send_step(s, n, client, client_msg_id, key, msg);
    assert forall|r: u64| owes_answer(s2.pendings, r) implies owes_answer(s.pendings, r) || r
        == client_msg_id by {
        let o = choose|o: u64| #[trigger]
            s2.pendings.contains_key(o) && s2.pendings[o].client_msg_id == r;
        if r != client_msg_id {
            assert(s.pendings.contains_key(o));
        }
    }
}

impl MessageHandler for KafkaNode {
    open spec fn ticks(&self, node: &Node) -> bool {
        true
    }

    fn can_tick(&self, node: &Node) -> (b: bool) {
        true
    }

    /// This workload does not gossip: a tick changes nothing and sends
    /// nothing.
    fn tick(&mut self, node: &mut Node) -> (out: Vec<Message>)
        ensures
            out@.len() == 0,
            *final(self) == *old(self),
    {
        let out: Vec<Message> = Vec::new();
        proof {
            assert(batch_view(out@) =~= Seq::empty());
        }
        out
    }

    open spec fn accepts(&self, node: &Node, message: &Message) -> bool {
        kafka_ready(self@, node@, message@)
    }

    open spec fn awaits(&self, r: u64) -> bool {
        owes_answer(self@.pendings, r)
    }

    fn can_handle(&self, node: &Node, message: &Message) -> (b: bool) {
        match &message.body {
            MessageBody::Send { key, .. } | MessageBody::ForwardSend { key, .. } => {
                if str_eq(node.id.as_str(), self.leader.as_str()) {
                    node.can_number_peers(1) && self.logs.has_room(key.as_str())
                } else {
                    node.can_number(1)
                }
            },
            MessageBody::Init { .. }
            | MessageBody::Replicate { .. }
            | MessageBody::ReplicateOk { .. }
            | MessageBody::Poll { .. }
            | MessageBody::CommitOffsets { .. }
            | MessageBody::ListCommittedOffsets { .. } => node.can_number(1),
            _ => true,
        }
    }

    /// Takes one message of the replicated log.
    fn handle(&mut self, node: &mut Node, message: Message) -> (out: Vec<Message>)
        ensures
            (final(self)@, final(node)@, batch_view(out@)) == kafka_step(
                old(self)@,
                old(node)@,
                message@,
            ),
    {
        proof {
            lemma_kafka_step(self@, node@, message@);
        }
        let mut out: Vec<Message> = Vec::new();
        let Message { src, dest, body } = message;
        match body {
            MessageBody::Init { msg_id, node_id, node_ids } => {
                self.handle_init(node, node_id, node_ids);
                let reply = node.init_ok(src, msg_id);
                out.push(reply);
            },
            MessageBody::Send { msg_id, key, msg } => {
                let from_client = Message { src, dest, body: MessageBody::Unknown };
                out = self.handle_send(node, from_client, msg_id, key, msg);
            },
            MessageBody::ForwardSend { msg_id: _, orig_src, orig_msg_id, key, msg } => {
                let from_client = Message { src: orig_src, dest, body: MessageBody::Unknown };
                out = self.handle_send(node, from_client, orig_msg_id, key, msg);
            },
            MessageBody::Replicate { msg_id, key, msg, offset } => {
                self.logs.insert_at(key.as_str(), offset, msg);
                let id = node.next_msg_id();
                let reply = node.reply(
                    src,
                    MessageBody::ReplicateOk { msg_id: id, in_reply_to: msg_id, offset },
                );
                out.push(reply);
            },
            MessageBody::ReplicateOk { msg_id: _, in_reply_to: _, offset } => {
                out = self.handle_replicate_ok(node, src, offset);
            },
            MessageBody::Poll { msg_id, offsets } => {
                let msgs = self.logs.poll(&offsets);
                let id = node.next_msg_id();
                let reply = node.reply(
                    src,
                    MessageBody::PollOk { msg_id: id, in_reply_to: msg_id, msgs },
                );
                out.push(reply);
            },
            MessageBody::CommitOffsets { msg_id, offsets } => {
                self.logs.commit_offsets(offsets);
                let id = node.next_msg_id();
                let reply = node.reply(
                    src,
                    MessageBody::CommitOffsetsOk { msg_id: id, in_reply_to: msg_id },
                );
                out.push(reply);
            },
            MessageBody::ListCommittedOffsets { msg_id, keys } => {
                let offsets = self.logs.list_committed_offsets(keys.as_slice());
                let id = node.next_msg_id();
                let reply = node.reply(
                    src,
                    MessageBody::ListCommittedOffsetsOk { msg_id: id, in_reply_to: msg_id, offsets },
                );
                out.push(reply);
            },
            _ => {},
        }
        proof {
            assert(batch_view(out@) =~= kafka_step(old(self)@, old(node)@, message@).2);
        }
        out
    }
}

} // verus!

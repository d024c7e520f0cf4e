//! The grow-only counter: every node counts what was added at it, and the
//! nodes tell one another their counts.

use vstd::prelude::*;
use crate::kv::{added, can_add, fresh, merged, total, Counter, Counters, KV};
use crate::message::{batch_view, names, BodyView, Message, MessageBody, MessageView, Name};
use crate::node::{all_from, numbered_from, request_id, without, MessageHandler, Node, NodeView};
use crate::str_map::{as_map, lemma_as_map_entry, put, StrMap};

verus! {

/// For each node, the version that a peer is believed to know of it.
pub type Versions = Seq<(Name, u64)>;

/// What the state of a node of the counter stands for.
pub struct CounterView {
    /// The counters of the cluster, as this node knows them.
    pub counters: Counters,
    /// For each peer, the versions that the peer is believed to know.
    pub known: Map<Name, Versions>,
}

/// The version that `versions` holds of the node `id`, or 0.
pub open spec fn version_in(versions: Versions, id: Name) -> u64 {
    if as_map(versions).contains_key(id) {
        as_map(versions)[id]
    } else {
        0
    }
}

/// The versions that a peer is believed to know once it has sent or been sent
/// `counters`: of each node that they speak of, the greater of the version
/// believed before and the version they give.
pub open spec fn raised(versions: Versions, counters: Counters) -> Versions
    decreases counters.len(),
{
    if counters.len() == 0 {
        versions
    } else {
        let before = raised(versions, counters.drop_last());
        let (id, c) = counters.last();
        let held = version_in(before, id);
        put(before, id, if c.version > held { c.version } else { held })
    }
}

/// The versions that `peer` is believed to know; none before anything is
/// believed of it.
pub open spec fn known_of(known: Map<Name, Versions>, peer: Name) -> Versions {
    if known.contains_key(peer) {
        known[peer]
    } else {
        Seq::empty()
    }
}

/// What is believed of the peers once `peer` has sent or been sent
/// `counters`.
pub open spec fn learned(known: Map<Name, Versions>, peer: Name, counters: Counters) -> Map<
    Name,
    Versions,
> {
    known.insert(peer, raised(known_of(known, peer), counters))
}

/// What is believed of the peers once the cluster is known: nothing yet of a
/// peer that was not known before.
pub open spec fn prepared(known: Map<Name, Versions>, peers: Seq<Name>) -> Map<Name, Versions>
    decreases peers.len(),
{
    if peers.len() == 0 {
        known
    } else {
        let before = prepared(known, peers.drop_last());
        if before.contains_key(peers.last()) {
            before
        } else {
            before.insert(peers.last(), Seq::empty())
        }
    }
}

/// What is believed of the peers once each of them has been sent `counters`.
pub open spec fn told_all(known: Map<Name, Versions>, peers: Seq<Name>, counters: Counters) -> Map<
    Name,
    Versions,
>
    decreases peers.len(),
{
    if peers.len() == 0 {
        known
    } else {
        learned(told_all(known, peers.drop_last(), counters), peers.last(), counters)
    }
}

/// A node without a name, without peers or without counters does not
/// gossip.
pub open spec fn quiet(s: Counters, n: NodeView) -> bool {
    n.id.len() == 0 || n.peers.len() == 0 || s.len() == 0
}

/// The messages of a round of gossip: the node's counters, all of them, to
/// each peer, in the order of the peers, numbered onward from the node's last
/// number. A node without a name, without peers or without counters sends
/// nothing.
pub open spec fn counter_gossip(s: Counters, n: NodeView) -> Seq<MessageView> {
    if quiet(s, n) {
        Seq::empty()
    } else {
        Seq::new(
            n.peers.len(),
            |i: int|
                MessageView {
                    src: n.id,
                    dest: n.peers[i],
                    body: BodyView::CounterGossip { msg_id: (n.msg_id + 1 + i) as u64, counters: s },
                },
        )
    }
}

/// The node after a round of gossip: every peer is believed to know what it
/// was sent.
pub open spec fn after_gossip(s: CounterView, n: NodeView) -> CounterView {
    if quiet(s.counters, n) {
        s
    } else {
        CounterView { known: told_all(s.known, n.peers, s.counters), ..s }
    }
}

/// What a node of the counter does with one message.
pub open spec fn counter_step(s: CounterView, n: NodeView, m: MessageView) -> (
    CounterView,
    NodeView,
    Seq<MessageView>,
) {
    let next = (n.msg_id + 1) as u64;
    let bumped = NodeView { msg_id: next, ..n };
    match m.body {
        BodyView::Init { msg_id, node_id, node_ids } => (
            CounterView {
                counters: fresh(node_ids),
                known: prepared(s.known, without(node_ids, node_id)),
            },
            NodeView { id: node_id, peers: without(node_ids, node_id), msg_id: next },
            seq![
                MessageView {
                    src: node_id,
                    dest: m.src,
                    body: BodyView::InitOk { msg_id: next, in_reply_to: msg_id },
                },
            ],
        ),
        BodyView::Add { msg_id, delta } => (
            CounterView { counters: added(s.counters, n.id, delta), ..s },
            bumped,
            seq![
                MessageView {
                    src: n.id,
                    dest: m.src,
                    body: BodyView::AddOk { msg_id: next, in_reply_to: msg_id },
                },
            ],
        ),
        BodyView::Read { msg_id } => (
            s,
            bumped,
            seq![
                MessageView {
                    src: n.id,
                    dest: m.src,
                    body: BodyView::ReadOk {
                        msg_id: next,
                        in_reply_to: msg_id,
                        messages: None,
                        value: Some(total(s.counters) as u64),
                    },
                },
            ],
        ),
        BodyView::CounterGossip { counters, .. } => (
            CounterView {
                counters: merged(s.counters, counters),
                known: learned(s.known, m.src, counters),
            },
            n,
            Seq::empty(),
        ),
        _ => (s, n, Seq::empty()),
    }
}

/// Whether the numbers are to be had that a step on `m` may need: a message
/// number for an answer, room in the node's own entry for an addition, and a
/// sum that fits the answer for a read.
pub open spec fn counter_ready(s: CounterView, n: NodeView, m: MessageView) -> bool {
    match m.body {
        BodyView::Init { .. } => n.msg_id + 1 <= u64::MAX,
        BodyView::Add { delta, .. } => n.msg_id + 1 <= u64::MAX && can_add(s.counters, n.id, delta),
        BodyView::Read { .. } => n.msg_id + 1 <= u64::MAX && total(s.counters) <= u64::MAX,
        _ => true,
    }
}

/// What holds of every step of a node of the counter: every message sent
/// carries the node's name; the messages sent are numbered onward from the
/// node's last number; an answer goes to the request in hand; a read reports
/// the sum of the counters; and an addition raises that sum by exactly what
/// was added.
pub proof fn lemma_counter_step(s: CounterView, n: NodeView, m: MessageView)
    requires
        counter_ready(s, n, m),
    ensures
        all_from(counter_step(s, n, m).2, counter_step(s, n, m).1.id),
        numbered_from(counter_step(s, n, m).2, n.msg_id),
        counter_step(s, n, m).1.msg_id == n.msg_id + counter_step(s, n, m).2.len(),
        forall|i: int|
            0 <= i < counter_step(s, n, m).2.len() ==> match (#[trigger] counter_step(
                s,
                n,
                m,
            ).2[i]).body.in_reply_to() {
                Some(r) => request_id(m.body) == Some(r),
                None => true,
            },
        m.body is Add ==> total(counter_step(s, n, m).0.counters) == total(s.counters) + m.body->Add_delta,
        m.body is Read ==> counter_step(s, n, m).2[0].body->ReadOk_value == Some(total(s.counters) as u64),
        m.body is Unknown ==> counter_step(s, n, m) == (s, n, Seq::<MessageView>::empty()),
{
    if m.body is Add {
        crate::kv::lemma_add_total(s.counters, n.id, m.body->Add_delta);
    }
}

/// Once a peer has sent or been sent counters, it is believed to know of
/// each node that they speak of a version no less than the one they give, and
/// what was believed of it before is believed still.
pub proof fn lemma_raised(versions: Versions, counters: Counters, id: Name)
    requires
        crate::str_map::keys_distinct(versions),
    ensures
        crate::str_map::keys_distinct(raised(versions, counters)),
        version_in(raised(versions, counters), id) >= version_in(versions, id),
        forall|i: int|
            0 <= i < counters.len() && (#[trigger] counters[i]).0 == id ==> version_in(
                raised(versions, counters),
                id,
            ) >= counters[i].1.version,
    decreases counters.len(),
{
    if counters.len() > 0 {
        let front = counters.drop_last();
        lemma_raised(versions, front, id);
        lemma_raised(versions, front, counters.last().0);
        let before = raised(versions, front);
        let (last_id, c) = counters.last();
        let held = version_in(before, last_id);
        crate::str_map::lemma_put(before, last_id, if c.version > held { c.version } else { held });
        assert forall|i: int| 0 <= i < counters.len() && (#[trigger] counters[i]).0 == id implies version_in(
            raised(versions, counters),
            id,
        ) >= counters[i].1.version by {
            if i < front.len() {
                assert(front[i] == counters[i]);
            }
        }
    }
}

/// The state of a node of the counter.
#[derive(Debug)]
pub struct GrowOnlyCounterNode {
    /// The counters of the cluster, as this node knows them.
    pub kv: KV,
    /// For each peer, the versions that the peer is believed to know, by
    /// node.
    pub peer_known_versions: StrMap<StrMap<u64>>,
}

impl View for GrowOnlyCounterNode {
    type V = CounterView;

    open spec fn view(&self) -> CounterView {
        CounterView {
            counters: self.kv@,
            known: self.peer_known_versions@.map_values(|m: StrMap<u64>| m.entries()),
        }
    }
}

impl Default for GrowOnlyCounterNode {
    fn default() -> (s: Self)
        ensures
            s@ == (CounterView { counters: Seq::empty(), known: Map::empty() }),
    {
        GrowOnlyCounterNode::new()
    }
}

/// What `known` stands for.
pub open spec fn known_view(known: &StrMap<StrMap<u64>>) -> Map<Name, Versions> {
    known@.map_values(|m: StrMap<u64>| m.entries())
}

/// Records that `peer` knows `counters`.
fn learn(known: &mut StrMap<StrMap<u64>>, peer: &str, counters: &StrMap<Counter>)
    ensures
        known_view(final(known)) == learned(known_view(old(known)), peer@, counters.entries()),
{
    let at = match known.find(peer) {
        Some(i) => {
            proof {
                lemma_as_map_entry(known.entries(), i as int);
            }
            i
        },
        None => {
            let n = known.len();
            known.insert(peer.to_owned(), StrMap::new());
            proof {
                lemma_as_map_entry(known.entries(), n as int);
            }
            n
        },
    };
    let ghost mid = known@;
    let mut versions = known.replace_at(at, StrMap::new());
    let ghost start = versions.entries();
    assert(start == known_of(known_view(old(known)), peer@));
    let n = counters.len();
    let mut i: usize = 0;
    proof {
        assert(counters.entries().take(0) =~= Seq::empty());
    }
    while i < n
        invariant
            i <= n,
            n == counters.entries().len(),
            versions.entries() == raised(start, counters.entries().take(i as int)),
        decreases n - i,
    {
        proof {
            let all = counters.entries();
            assert(all.take(i + 1).drop_last() =~= all.take(i as int));
            assert(all.take(i + 1).last() == all[i as int]);
        }
        let id = counters.key_at(i);
        let version = counters.value_at(i).version;
        let held = match versions.get(id.as_str()) {
            Some(v) => *v,
            None => 0,
        };
        versions.insert(
            id.clone(),
            if version > held {
                version
            } else {
                held
            },
        );
        i = i + 1;
    }
    proof {
        assert(counters.entries().take(n as int) =~= counters.entries());
    }
    let ghost grown = versions;
    let _ = known.replace_at(at, versions);
    proof {
        assert(known@ =~= mid.insert(peer@, grown));
        assert(known_view(known) =~= learned(known_view(old(known)), peer@, counters.entries()));
    }
}

/// A copy of a map of counters.
fn copy_counters(counters: &StrMap<Counter>) -> (copy: StrMap<Counter>)
    ensures
        copy.entries() == counters.entries(),
{
    let mut copy: StrMap<Counter> = StrMap::new();
    let n = counters.len();
    let mut i: usize = 0;
    proof {
        assert(counters.entries().take(0) =~= Seq::empty());
    }
    while i < n
        invariant
            i <= n,
            n == counters.entries().len(),
            crate::str_map::keys_distinct(counters.entries()),
            copy.entries() == counters.entries().take(i as int),
        decreases n - i,
    {
        let key = counters.key_at(i).clone();
        let value = *counters.value_at(i);
        proof {
            let all = counters.entries();
            if crate::str_map::has_key(copy.entries(), key@) {
                let j = crate::str_map::position_of(copy.entries(), key@);
                assert(all[j].0 == all[i as int].0);
            }
            assert(all.take(i + 1) =~= all.take(i as int).push(all[i as int]));
        }
        copy.insert(key, value);
        i = i + 1;
    }
    proof {
        assert(counters.entries().take(n as int) =~= counters.entries());
    }
    copy
}

impl GrowOnlyCounterNode {
    /// A node that knows no counter and believes nothing of any peer.
    pub fn new() -> (s: Self)
        ensures
            s@ == (CounterView { counters: Seq::empty(), known: Map::empty() }),
    {
        let s = GrowOnlyCounterNode { kv: KV::new(), peer_known_versions: StrMap::new() };
        proof {
            assert(s@.known =~= Map::empty());
        }
        s
    }

    /// One round of gossip: the node's counters to every peer, each of which
    /// is from then on believed to know them.
    pub fn gossip(&mut self, node: &mut Node) -> (out: Vec<Message>)
        requires
            old(node).has_ids(old(node)@.peers.len() as int),
        ensures
            final(self)@ == after_gossip(old(self)@, old(node)@),
            batch_view(out@) == counter_gossip(old(self)@.counters, old(node)@),
            final(node)@ == (NodeView { msg_id: (old(node).msg_id + out@.len()) as u64, ..old(node)@ }),
            all_from(batch_view(out@), final(node)@.id),
            numbered_from(batch_view(out@), old(node).msg_id),
    {
        let mut out: Vec<Message> = Vec::new();
        let n = node.peers.len();
        if node.id.as_str().unicode_len() == 0 || n == 0 || self.kv.is_empty() {
            proof {
                assert(batch_view(out@) =~= Seq::empty());
            }
            return out;
        }
        let ghost copies = counter_gossip(self@.counters, old(node)@);
        let ghost peers = names(node.peers@);
        let mut i: usize = 0;
        proof {
            assert(batch_view(out@) =~= copies.take(0));
            assert(peers.take(0) =~= Seq::empty());
        }
        while i < n
            invariant
                i <= n,
                n == node.peers@.len(),
                peers == names(node.peers@),
                self@.counters == old(self)@.counters,
                self@.known == told_all(old(self)@.known, peers.take(i as int), old(self)@.counters),
                node@.id == old(node)@.id,
                node@.peers == old(node)@.peers,
                node.msg_id == old(node).msg_id + i,
                old(node).has_ids(n as int),
                copies == counter_gossip(old(self)@.counters, old(node)@),
                copies.len() == n,
                batch_view(out@) == copies.take(i as int),
            decreases n - i,
        {
            proof {
                assert(peers.take(i + 1).drop_last() =~= peers.take(i as int));
                assert(peers.take(i + 1).last() == node.peers@[i as int]@);
            }
            let id = node.next_msg_id();
            let ghost sent = out@;
            proof {
                assert(names(node.peers@).len() == node.peers@.len());
            }
            learn(&mut self.peer_known_versions, node.peers[i].as_str(), &self.kv.counters);
            out.push(
                Message {
                    src: node.id.clone(),
                    dest: node.peers[i].clone(),
                    body: MessageBody::CounterGossip {
                        msg_id: id,
                        counters: copy_counters(&self.kv.counters),
                    },
                },
            );
            proof {
                assert(batch_view(out@) =~= batch_view(sent).push(copies[i as int]));
                assert(copies.take(i + 1) =~= copies.take(i as int).push(copies[i as int]));
            }
            i = i + 1;
        }
        proof {
            assert(copies.take(n as int) =~= copies);
            assert(peers.take(n as int) =~= peers);
        }
        out
    }

    /// Adds `delta` at this node.
    pub fn handle_add(&mut self, node: &Node, delta: u64)
        requires
            can_add(old(self)@.counters, node@.id, delta),
        ensures
            final(self)@ == (CounterView {
                counters: added(old(self)@.counters, node@.id, delta),
                ..old(self)@
            }),
    {
        self.kv.add(node.id.clone(), delta);
    }

    /// The sum of the counters.
    pub fn handle_read(&self) -> (sum: u64)
        requires
            total(self@.counters) <= u64::MAX,
        ensures
            sum == total(self@.counters),
    {
        self.kv.read()
    }

    /// Takes the counters that the peer `from_peer` has sent, and from then on
    /// believes that the peer knows them.
    pub fn handle_counter_gossip(&mut self, from_peer: String, counters: StrMap<Counter>)
        ensures
            final(self)@ == (CounterView {
                counters: merged(old(self)@.counters, counters.entries()),
                known: learned(old(self)@.known, from_peer@, counters.entries()),
            }),
    {
        learn(&mut self.peer_known_versions, from_peer.as_str(), &counters);
        self.kv.merge(counters);
    }

    /// Gets ready to believe something of each of `peers`.
    fn prepare(&mut self, peers: &Vec<String>)
        ensures
            final(self)@ == (CounterView {
                known: prepared(old(self)@.known, names(peers@)),
                ..old(self)@
            }),
    {
        let mut i: usize = 0;
        proof {
            assert(names(peers@).take(0) =~= Seq::empty());
        }
        while i < peers.len()
            invariant
                i <= peers@.len(),
                self@.counters == old(self)@.counters,
                self@.known == prepared(old(self)@.known, names(peers@).take(i as int)),
            decreases peers@.len() - i,
        {
            proof {
                let all = names(peers@);
                assert(all.take(i + 1).drop_last() =~= all.take(i as int));
                assert(all.take(i + 1).last() == peers@[i as int]@);
            }
            if !self.peer_known_versions.contains_key(peers[i].as_str()) {
                let ghost before = self.peer_known_versions@;
                let ghost view_before = self@.known;
                self.peer_known_versions.insert(peers[i].clone(), StrMap::new());
                proof {
                    assert(self@.known =~= view_before.insert(peers@[i as int]@, Seq::empty()));
                }
            }
            i = i + 1;
        }
        proof {
            assert(names(peers@).take(peers@.len() as int) =~= names(peers@));
        }
    }
}

impl MessageHandler for GrowOnlyCounterNode {
    open spec fn ticks(&self, node: &Node) -> bool {
        node.has_ids(node@.peers.len() as int)
    }

    fn can_tick(&self, node: &Node) -> (b: bool) {
        node.can_number_peers(0)
    }

    /// A tick is a round of gossip.
    fn tick(&mut self, node: &mut Node) -> (out: Vec<Message>)
        ensures
            final(self)@ == after_gossip(old(self)@, old(node)@),
            batch_view(out@) == counter_gossip(old(self)@.counters, old(node)@),
    {
        self.gossip(node)
    }

    open spec fn accepts(&self, node: &Node, message: &Message) -> bool {
        counter_ready(self@, node@, message@)
    }

    open spec fn awaits(&self, r: u64) -> bool {
        false
    }

    fn can_handle(&self, node: &Node, message: &Message) -> (b: bool) {
        match &message.body {
            MessageBody::Init { .. } => node.can_number(1),
            MessageBody::Add { delta, .. } => node.can_number(1) && self.kv.has_room(
                node.id.as_str(),
                *delta,
            ),
            MessageBody::Read { .. } => node.can_number(1) && self.kv.can_read(),
            _ => true,
        }
    }

    /// Takes one message of the counter.
    fn handle(&mut self, node: &mut Node, message: Message) -> (out: Vec<Message>)
        ensures
            (final(self)@, final(node)@, batch_view(out@)) == counter_step(
                old(self)@,
                old(node)@,
                message@,
            ),
    {
        proof {
            lemma_counter_step(self@, node@, message@);
        }
        let mut out: Vec<Message> = Vec::new();
        let Message { src, dest, body } = message;
        match body {
            MessageBody::Init { msg_id, node_id, node_ids } => {
                let mut ids: Vec<String> = Vec::new();
                let mut i: usize = 0;
                while i < node_ids.len()
                    invariant
                        i <= node_ids@.len(),
                        crate::message::names(ids@) == crate::message::names(node_ids@).take(i as int),
                    decreases node_ids@.len() - i,
                {
                    let ghost before = ids@;
                    ids.push(node_ids[i].clone());
                    proof {
                        assert(crate::message::names(ids@) =~= crate::message::names(before).push(
                            node_ids@[i as int]@,
                        ));
                        assert(crate::message::names(node_ids@).take(i + 1) =~= crate::message::names(
                            node_ids@,
                        ).take(i as int).push(node_ids@[i as int]@));
                    }
                    i = i + 1;
                }
                proof {
                    assert(crate::message::names(node_ids@).take(node_ids@.len() as int)
                        =~= crate::message::names(node_ids@));
                }
                self.kv.init(ids);
                node.handle_init(node_id, node_ids);
                self.prepare(&node.peers);
                let reply = node.init_ok(src, msg_id);
                out.push(reply);
            },
            MessageBody::Add { msg_id, delta } => {
                self.handle_add(node, delta);
                let id = node.next_msg_id();
                let reply = node.reply(src, MessageBody::AddOk { msg_id: id, in_reply_to: msg_id });
                out.push(reply);
            },
            MessageBody::Read { msg_id } => {
                let value = self.handle_read();
                let id = node.next_msg_id();
                let reply = node.reply(
                    src,
                    MessageBody::ReadOk {
                        msg_id: id,
                        in_reply_to: msg_id,
                        messages: None,
                        value: Some(value),
                    },
                );
                out.push(reply);
            },
            MessageBody::CounterGossip { msg_id: _, counters } => {
                self.handle_counter_gossip(src, counters);
            },
            _ => {},
        }
        proof {
            assert(batch_view(out@) =~= counter_step(old(self)@, old(node)@, message@).2);
        }
        out
    }
}

} // verus!

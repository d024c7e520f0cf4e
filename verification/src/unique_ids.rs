//! Identifiers that no two nodes give out: the time in milliseconds, a hash
//! of the node's name and a count within the millisecond, side by side in 64
//! bits.

use vstd::prelude::*;
use std::time::{Duration, SystemTime};
use crate::message::{batch_view, BodyView, Message, MessageBody, MessageView, Name};
use crate::node::{all_from, numbered_from, request_id, without, MessageHandler, Node, NodeView};
use crate::strings::bytes_of;

verus! {

/// The bits of an identifier that hold the time.
pub const TIME_BITS: u64 = 42;

/// The bits of an identifier that hold the hash of the node's name.
pub const NODE_BITS: u64 = 10;

/// The bits of an identifier that hold the count within a millisecond.
pub const SEQ_BITS: u64 = 12;

/// The bits below the time in an identifier.
pub const TIME_SHIFT: u64 = NODE_BITS + SEQ_BITS;

/// The greatest time that fits its bits.
pub const TIME_MASK: u64 = 0x3ff_ffff_ffff;

/// The greatest hash that fits its bits.
pub const NODE_MASK: u64 = 0x3ff;

/// The greatest count that fits its bits.
pub const SEQ_MASK: u64 = 0xfff;

/// A point in time as the system clock tells it.
#[verifier::external_type_specification]
#[verifier::external_body]
pub struct ExSystemTime(SystemTime);

/// The 64-bit XXH3 hash of a sequence of bytes, with the seed 0.
pub uninterp spec fn xxh3_64_of(bytes: Seq<u8>) -> u64;

/// The hash of `bytes`.
///
/// This calls `xxh3_64` of `xxhash_rust::xxh3`, which computes the 64-bit
/// XXH3 hash of its input with the default secret and no seed. The hash is a
/// function of the bytes alone; what it is on given bytes is not stated here.
#[verifier::external_body]
fn xxh3_64(bytes: &[u8]) -> (h: u64)
    ensures
        h == xxh3_64_of(bytes@),
{
    xxhash_rust::xxh3::xxh3_64(bytes)
}

/// The time now.
///
/// This calls `SystemTime::now`. Nothing is claimed of what it returns.
#[verifier::external_body]
fn system_now() -> SystemTime {
    SystemTime::now()
}

/// The time from the start of 1970 to `t`, or nothing where `t` lies before
/// it.
///
/// This calls `SystemTime::duration_since` with `UNIX_EPOCH`. Nothing is
/// claimed of what it returns.
#[verifier::external_body]
fn since_epoch(t: &SystemTime) -> Option<Duration> {
    match t.duration_since(std::time::UNIX_EPOCH) {
        Ok(d) => Some(d),
        Err(_) => None,
    }
}

/// The whole milliseconds in `d`.
///
/// This calls `Duration::as_millis`. Nothing is claimed of what it returns.
#[verifier::external_body]
fn whole_millis(d: &Duration) -> u128 {
    d.as_millis()
}

/// The identifier made of a time, the bits of a node and a count: the time
/// in the highest bits, the count in the lowest, the node between them.
pub open spec fn make_id(ts: u64, node_bits: u64, seq: u64) -> u64 {
    (ts << TIME_SHIFT) | (node_bits << SEQ_BITS) | seq
}

/// The bits of the node in an identifier.
pub open spec fn node_of(id: u64) -> u64 {
    (id >> SEQ_BITS) & NODE_MASK
}

/// The part of a name's hash that an identifier holds.
pub open spec fn node_bits_of(name: Name) -> u64 {
    xxh3_64_of(bytes_of(name)) & NODE_MASK
}

/// What a generator stands for.
pub struct IdGenView {
    /// The part of the node's hash that the identifiers hold.
    pub node_bits: u64,
    /// The time of the last identifier.
    pub last_ms: u64,
    /// The count of the last identifier within its millisecond.
    pub seq: u16,
    /// The identifiers given out so far.
    pub issued: Set<u64>,
}

impl IdGenView {
    /// The generator of a node that has given out nothing yet.
    pub open spec fn fresh(node_bits: u64) -> IdGenView {
        IdGenView { node_bits, last_ms: 0, seq: 0, issued: Set::empty() }
    }

    /// The identifier that the generator has given out last.
    pub open spec fn id(self) -> u64 {
        make_id(self.last_ms, self.node_bits, self.seq as u64)
    }

    /// Every part fits its bits, and every identifier given out so far has
    /// the bits of this node and is no greater than the last.
    pub open spec fn wf(self) -> bool {
        &&& self.node_bits <= NODE_MASK
        &&& self.last_ms <= TIME_MASK
        &&& self.seq <= SEQ_MASK
        &&& forall|x: u64| #[trigger] self.issued.contains(x) ==> x <= self.id() && node_of(x) == self.node_bits
    }

    /// Whether an identifier is left to give out: the time and the count have
    /// not both reached their greatest value.
    pub open spec fn has_room(self) -> bool {
        self.last_ms < TIME_MASK || self.seq < SEQ_MASK
    }

    /// The time and the count of the identifier given out at the clock
    /// reading `now_ms`. A reading later than the last time starts a new
    /// millisecond at the count 0. Otherwise the count goes on within the last
    /// time; and once the counts of that millisecond are used up, the time
    /// moves on by one and the count starts at 0. The time never falls.
    pub open spec fn next(self, now_ms: u64) -> (u64, u16) {
        let ts = now_ms & TIME_MASK;
        if ts > self.last_ms {
            (ts, 0)
        } else if self.seq < SEQ_MASK {
            (self.last_ms, (self.seq + 1) as u16)
        } else {
            ((self.last_ms + 1) as u64, 0)
        }
    }

    /// The generator after it gave out an identifier at the clock reading
    /// `now_ms`.
    pub open spec fn tick(self, now_ms: u64) -> IdGenView {
        let (ts, seq) = self.next(now_ms);
        IdGenView {
            last_ms: ts,
            seq,
            issued: self.issued.insert(make_id(ts, self.node_bits, seq as u64)),
            ..self
        }
    }
}

/// A time, the bits of a node and a count that fit their bits can be read
/// back from the identifier made of them.
pub proof fn lemma_id_fields(ts: u64, node_bits: u64, seq: u64)
    requires
        ts <= TIME_MASK,
        node_bits <= NODE_MASK,
        seq <= SEQ_MASK,
    ensures
        make_id(ts, node_bits, seq) >> TIME_SHIFT == ts,
        node_of(make_id(ts, node_bits, seq)) == node_bits,
        make_id(ts, node_bits, seq) & SEQ_MASK == seq,
{
    assert(((ts << 22) | (node_bits << 12) | seq) >> 22 == ts && ((((ts << 22) | (node_bits << 12) | seq)
        >> 12) & 0x3ff) == node_bits && (((ts << 22) | (node_bits << 12) | seq) & 0xfff) == seq) by (bit_vector)
        requires
            ts <= 0x3ff_ffff_ffff,
            node_bits <= 0x3ff,
            seq <= 0xfff,
    ;
}

/// Two identifiers are different if they differ in their time, in the bits
/// of their node or in their count.
pub proof fn lemma_ids_distinct(ts1: u64, node1: u64, seq1: u64, ts2: u64, node2: u64, seq2: u64)
    requires
        ts1 <= TIME_MASK,
        ts2 <= TIME_MASK,
        node1 <= NODE_MASK,
        node2 <= NODE_MASK,
        seq1 <= SEQ_MASK,
        seq2 <= SEQ_MASK,
        ts1 != ts2 || node1 != node2 || seq1 != seq2,
    ensures
        make_id(ts1, node1, seq1) != make_id(ts2, node2, seq2),
{
    lemma_id_fields(ts1, node1, seq1);
    lemma_id_fields(ts2, node2, seq2);
}

/// The identifiers of one node rise with the time, and within one time with
/// the count.
pub proof fn lemma_id_order(ts1: u64, seq1: u64, ts2: u64, seq2: u64, node_bits: u64)
    requires
        ts1 <= TIME_MASK,
        ts2 <= TIME_MASK,
        node_bits <= NODE_MASK,
        seq1 <= SEQ_MASK,
        seq2 <= SEQ_MASK,
        ts1 < ts2 || (ts1 == ts2 && seq1 < seq2),
    ensures
        make_id(ts1, node_bits, seq1) < make_id(ts2, node_bits, seq2),
{
    assert(((ts1 << 22) | (node_bits << 12) | seq1) < ((ts2 << 22) | (node_bits << 12) | seq2)) by (bit_vector)
        requires
            ts1 <= 0x3ff_ffff_ffff,
            ts2 <= 0x3ff_ffff_ffff,
            node_bits <= 0x3ff,
            seq1 <= 0xfff,
            seq2 <= 0xfff,
            ts1 < ts2 || (ts1 == ts2 && seq1 < seq2),
    ;
}

/// Every identifier that a generator gives out is greater than all it gave
/// out before, so no generator gives out an identifier twice; and the time of
/// the generator never falls.
pub proof fn lemma_tick(g: IdGenView, now_ms: u64)
    requires
        g.wf(),
        g.has_room(),
    ensures
        g.tick(now_ms).wf(),
        g.tick(now_ms).id() > g.id(),
        !g.issued.contains(g.tick(now_ms).id()),
        g.tick(now_ms).issued == g.issued.insert(g.tick(now_ms).id()),
        g.tick(now_ms).last_ms >= g.last_ms,
        g.tick(now_ms).node_bits == g.node_bits,
        now_ms & TIME_MASK > g.last_ms ==> g.tick(now_ms).id() == make_id(
            now_ms & TIME_MASK,
            g.node_bits,
            0,
        ),
{
    assert(now_ms & 0x3ff_ffff_ffff <= 0x3ff_ffff_ffff) by (bit_vector);
    let h = g.tick(now_ms);
    lemma_id_order(g.last_ms, g.seq as u64, h.last_ms, h.seq as u64, g.node_bits);
    lemma_id_fields(h.last_ms, h.node_bits, h.seq as u64);
    assert forall|x: u64| #[trigger] h.issued.contains(x) implies x <= h.id() && node_of(x)
        == h.node_bits by {
        if x != h.id() {
            assert(g.issued.contains(x));
        }
    }
}

/// Generators whose nodes differ in their bits never give out the same
/// identifier.
pub proof fn lemma_nodes_apart(a: IdGenView, b: IdGenView)
    requires
        a.wf(),
        b.wf(),
        a.node_bits != b.node_bits,
    ensures
        a.issued.disjoint(b.issued),
{
    assert forall|x: u64| !(a.issued.contains(x) && b.issued.contains(x)) by {
        if a.issued.contains(x) && b.issued.contains(x) {
            assert(node_of(x) == a.node_bits);
            assert(node_of(x) == b.node_bits);
        }
    }
}

/// A generator of identifiers for one node.
pub struct IdGen {
    node_bits: u64,
    last_ms: u64,
    seq: u16,
    issued: Ghost<Set<u64>>,
}

impl View for IdGen {
    type V = IdGenView;

    closed spec fn view(&self) -> IdGenView {
        IdGenView {
            node_bits: self.node_bits,
            last_ms: self.last_ms,
            seq: self.seq,
            issued: self.issued@,
        }
    }
}

impl IdGen {
    #[verifier::type_invariant]
    spec fn inv(&self) -> bool {
        self@.wf()
    }

    /// A generator for the node `node_id` that has given out nothing yet.
    pub fn new(node_id: &str) -> (g: Self)
        ensures
            g@ == IdGenView::fresh(node_bits_of(node_id@)),
            g@.wf(),
    {
        let hash = xxh3_64(node_id.as_bytes());
        assert(hash & 0x3ff <= 0x3ff) by (bit_vector);
        IdGen { node_bits: hash & NODE_MASK, last_ms: 0, seq: 0, issued: Ghost(Set::empty()) }
    }

    /// Tells whether an identifier is left to give out.
    pub fn can_generate(&self) -> (b: bool)
        ensures
            b == self@.has_room(),
            self@.wf(),
    {
        proof {
            use_type_invariant(self);
        }
        self.last_ms < TIME_MASK || (self.seq as u64) < SEQ_MASK
    }

    /// The identifier for the clock reading `now_ms`, in milliseconds since
    /// the start of 1970. It is greater than every identifier that this
    /// generator gave out before.
    pub fn generate_at(&mut self, now_ms: u64) -> (id: u64)
        requires
            old(self)@.has_room(),
        ensures
            old(self)@.wf(),
            final(self)@.wf(),
            final(self)@ == old(self)@.tick(now_ms),
            id == final(self)@.id(),
            id > old(self)@.id(),
            !old(self)@.issued.contains(id),
            final(self)@.issued == old(self)@.issued.insert(id),
    {
        proof {
            use_type_invariant(&*self);
            lemma_tick(self@, now_ms);
        }
        let ts = now_ms & TIME_MASK;
        assert(now_ms & 0x3ff_ffff_ffff <= 0x3ff_ffff_ffff) by (bit_vector);
        let (last_ms, seq): (u64, u16) = if ts > self.last_ms {
            (ts, 0)
        } else if (self.seq as u64) < SEQ_MASK {
            (self.last_ms, self.seq + 1)
        } else {
            (self.last_ms + 1, 0)
        };
        let id = (last_ms << TIME_SHIFT) | (self.node_bits << SEQ_BITS) | (seq as u64);
        let ghost issued = self.issued@.insert(id);
        *self = IdGen { node_bits: self.node_bits, last_ms, seq, issued: Ghost(issued) };
        id
    }

    /// The identifier for the time that the system clock tells; a clock that
    /// is set before 1970 counts as 0. It is greater than every identifier
    /// that this generator gave out before.
    pub fn generate(&mut self) -> (id: u64)
        requires
            old(self)@.has_room(),
        ensures
            old(self)@.wf(),
            final(self)@.wf(),
            final(self)@ == old(self)@.tick(final(self)@.last_ms),
            id == final(self)@.id(),
            id > old(self)@.id(),
            !old(self)@.issued.contains(id),
            final(self)@.issued == old(self)@.issued.insert(id),
    {
        let now = system_now();
        let now_ms: u64 = match since_epoch(&now) {
            Some(d) => {
                let ms = whole_millis(&d);
                #[verifier::truncate]
                (ms as u64)
            },
            None => 0,
        };
        let id = self.generate_at(now_ms);
        proof {
            lemma_tick_at_own_time(old(self)@, now_ms);
        }
        id
    }
}

/// A generator that ticks at a clock reading ends as if it had ticked at the
/// time it then shows.
pub proof fn lemma_tick_at_own_time(g: IdGenView, now_ms: u64)
    requires
        g.wf(),
        g.has_room(),
    ensures
        g.tick(g.tick(now_ms).last_ms) == g.tick(now_ms),
{
    let ts = g.tick(now_ms).last_ms;
    assert(now_ms & 0x3ff_ffff_ffff <= 0x3ff_ffff_ffff) by (bit_vector);
    assert(ts & 0x3ff_ffff_ffff == ts) by (bit_vector)
        requires
            ts <= 0x3ff_ffff_ffff,
    ;
}

/// The generator of a node named `id`, once it is needed: the one there is,
/// or a new one.
pub open spec fn generator_for(s: Option<IdGenView>, id: Name) -> IdGenView {
    match s {
        Some(g) => g,
        None => IdGenView::fresh(node_bits_of(id)),
    }
}

/// What a node of this workload does with one message, where `ts` is the
/// time at which it gives out an identifier.
pub open spec fn unique_step(s: Option<IdGenView>, n: NodeView, m: MessageView, ts: u64) -> (
    Option<IdGenView>,
    NodeView,
    Seq<MessageView>,
) {
    let next = (n.msg_id + 1) as u64;
    match m.body {
        BodyView::Init { msg_id, node_id, node_ids } => (
            Some(generator_for(s, node_id)),
            NodeView { id: node_id, peers: without(node_ids, node_id), msg_id: next },
            seq![
                MessageView {
                    src: node_id,
                    dest: m.src,
                    body: BodyView::InitOk { msg_id: next, in_reply_to: msg_id },
                },
            ],
        ),
        BodyView::Generate { msg_id } => {
            let g = generator_for(s, n.id).tick(ts);
            (
                Some(g),
                NodeView { msg_id: next, ..n },
                seq![
                    MessageView {
                        src: n.id,
                        dest: m.src,
                        body: BodyView::GenerateOk { msg_id: next, in_reply_to: msg_id, id: g.id() },
                    },
                ],
            )
        },
        _ => (s, n, Seq::empty()),
    }
}

/// Whether the numbers are to be had that a step on `m` may need: a message
/// number for the answer, and for a request an identifier that is left to
/// give out.
pub open spec fn unique_ready(s: Option<IdGenView>, n: NodeView, m: MessageView) -> bool {
    match m.body {
        BodyView::Init { .. } => n.msg_id + 1 <= u64::MAX,
        BodyView::Generate { .. } => n.msg_id + 1 <= u64::MAX && generator_for(s, n.id).has_room(),
        _ => true,
    }
}

/// The generator, where there is one, is well formed.
pub open spec fn generator_wf(s: Option<IdGenView>) -> bool {
    match s {
        Some(g) => g.wf(),
        None => true,
    }
}

/// What holds of every step of a node of this workload: every message sent
/// carries the node's name; the messages sent are numbered onward from the
/// node's last number; an answer goes to the request in hand; and a request
/// for an identifier is answered by exactly one message, which carries an
/// identifier that the node has not given out before.
pub proof fn lemma_unique_step(s: Option<IdGenView>, n: NodeView, m: MessageView, ts: u64)
    requires
        unique_ready(s, n, m),
        generator_wf(s),
    ensures
        all_from(unique_step(s, n, m, ts).2, unique_step(s, n, m, ts).1.id),
        numbered_from(unique_step(s, n, m, ts).2, n.msg_id),
        unique_step(s, n, m, ts).1.msg_id == n.msg_id + unique_step(s, n, m, ts).2.len(),
        forall|i: int|
            0 <= i < unique_step(s, n, m, ts).2.len() ==> match (#[trigger] unique_step(
                s,
                n,
                m,
                ts,
            ).2[i]).body.in_reply_to() {
                Some(r) => request_id(m.body) == Some(r),
                None => true,
            },
        generator_wf(unique_step(s, n, m, ts).0),
        m.body is Generate ==> {
            &&& unique_step(s, n, m, ts).2.len() == 1
            &&& unique_step(s, n, m, ts).2[0].body is GenerateOk
            &&& !generator_for(s, n.id).issued.contains(unique_step(s, n, m, ts).2[0].body->GenerateOk_id)
            &&& unique_step(s, n, m, ts).0->0.issued == generator_for(s, n.id).issued.insert(
                unique_step(s, n, m, ts).2[0].body->GenerateOk_id,
            )
        },
        m.body is Unknown ==> unique_step(s, n, m, ts) == (s, n, Seq::<MessageView>::empty()),
{
    lemma_fresh_wf(n.id);
    match m.body {
        BodyView::Generate { .. } => {
            lemma_tick(generator_for(s, n.id), ts);
        },
        BodyView::Init { node_id, .. } => {
            lemma_fresh_wf(node_id);
        },
        _ => {},
    }
}

/// The generator that a node starts with is well formed and has every
/// identifier left to give out.
pub proof fn lemma_fresh_wf(name: Name)
    ensures
        node_bits_of(name) <= NODE_MASK,
        IdGenView::fresh(node_bits_of(name)).wf(),
        IdGenView::fresh(node_bits_of(name)).has_room(),
{
    let h = xxh3_64_of(bytes_of(name));
    assert(h & 0x3ff <= 0x3ff) by (bit_vector);
}

/// The state of a node of this workload.
pub struct UniqueIdNode {
    /// The generator, once the node knows its name.
    pub id_gen: Option<IdGen>,
}

impl View for UniqueIdNode {
    type V = Option<IdGenView>;

    open spec fn view(&self) -> Option<IdGenView> {
        match self.id_gen {
            Some(g) => Some(g@),
            None => None,
        }
    }
}

impl Default for UniqueIdNode {
    fn default() -> (s: Self)
        ensures
            s@ is None,
    {
        UniqueIdNode { id_gen: None }
    }
}

impl UniqueIdNode {
    /// The time of the last identifier, or 0 where none was given out.
    pub open spec fn last_ms(&self) -> u64 {
        match self@ {
            Some(g) => g.last_ms,
            None => 0,
        }
    }
}

impl MessageHandler for UniqueIdNode {
    open spec fn ticks(&self, node: &Node) -> bool {
        true
    }

    fn can_tick(&self, node: &Node) -> (b: bool) {
        true
    }

    /// This workload does not gossip: a tick changes nothing and sends
    /// nothing.
    fn tick(&mut self, node: &mut Node) -> (out: Vec<Message>)
        ensures
            out@.len() == 0,
            *final(self) == *old(self),
    {
        let out: Vec<Message> = Vec::new();
        proof {
            assert(batch_view(out@) =~= Seq::empty());
        }
        out
    }

    open spec fn accepts(&self, node: &Node, message: &Message) -> bool {
        unique_ready(self@, node@, message@)
    }

    open spec fn awaits(&self, r: u64) -> bool {
        false
    }

    fn can_handle(&self, node: &Node, message: &Message) -> (b: bool) {
        match &message.body {
            MessageBody::Init { .. } => node.can_number(1),
            MessageBody::Generate { .. } => node.can_number(1) && match &self.id_gen {
                Some(g) => g.can_generate(),
                None => true,
            },
            _ => true,
        }
    }

    /// Takes one message of this workload. An identifier is given out for the
    /// time that the system clock tells; the time that the generator shows
    /// afterwards is that time, or a later one where the clock has not moved
    /// on and the counts of its millisecond are used up.
    fn handle(&mut self, node: &mut Node, message: Message) -> (out: Vec<Message>)
        ensures
            (final(self)@, final(node)@, batch_view(out@)) == unique_step(
                old(self)@,
                old(node)@,
                message@,
                final(self).last_ms(),
            ),
    {
        let mut out: Vec<Message> = Vec::new();
        let _ = match &self.id_gen {
            Some(g) => g.can_generate(),
            None => true,
        };
        let Message { src, dest, body } = message;
        match body {
            MessageBody::Init { msg_id, node_id, node_ids } => {
                node.handle_init(node_id, node_ids);
                if self.id_gen.is_none() {
                    self.id_gen = Some(IdGen::new(node.id.as_str()));
                }
                let reply = node.init_ok(src, msg_id);
                out.push(reply);
            },
            MessageBody::Generate { msg_id } => {
                let mut g = match self.id_gen.take() {
                    Some(g) => g,
                    None => IdGen::new(node.id.as_str()),
                };
                let unique_id = g.generate();
                self.id_gen = Some(g);
                let id = node.next_msg_id();
                let reply = node.reply(
                    src,
                    MessageBody::GenerateOk { msg_id: id, in_reply_to: msg_id, id: unique_id },
                );
                out.push(reply);
            },
            _ => {},
        }
        proof {
            lemma_unique_step(old(self)@, old(node)@, message@, self.last_ms());
            assert(batch_view(out@) =~= unique_step(old(self)@, old(node)@, message@, self.last_ms()).2);
        }
        out
    }
}

} // verus!

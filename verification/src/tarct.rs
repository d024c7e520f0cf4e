//! The transactional store with read-committed isolation: a transaction is
//! staged beside the store, checked against the versions it read, and only
//! then committed under a new version.

use vstd::prelude::*;
use std::collections::HashMap;
use crate::message::{
    batch_view, lemma_names_differ, ops_view, versioned_ops_view, BodyView, ErrorCode, Message, MessageBody, MessageView,
    Name, Op, VersionedOp,
};
use crate::node::{all_from, numbered_from, request_id, without, MessageHandler, Node, NodeView};
use crate::strings::str_eq;

verus! {

broadcast use vstd::std_specs::hash::group_hash_axioms;

/// What the store stands for: the committed value of each key that was
/// written, and the version of its last write.
pub struct KvView {
    pub entries: Map<u64, Option<u64>>,
    pub versions: Map<u64, u64>,
}

impl KvView {
    /// The store that holds nothing.
    pub open spec fn empty() -> KvView {
        KvView { entries: Map::empty(), versions: Map::empty() }
    }

    /// The committed value of `key`; none where the key was never written or
    /// was written empty.
    pub open spec fn get(self, key: u64) -> Option<u64> {
        if self.entries.contains_key(key) {
            self.entries[key]
        } else {
            None
        }
    }

    /// The version of the last write to `key`; 0 where the key was never
    /// written.
    pub open spec fn version(self, key: u64) -> u64 {
        if self.versions.contains_key(key) {
            self.versions[key]
        } else {
            0
        }
    }

    /// The store after a write of `val` to `key` under `version` arrives: the
    /// write replaces what is there if its version is strictly greater, and
    /// is dropped otherwise.
    pub open spec fn apply(self, key: u64, val: Option<u64>, version: u64) -> KvView {
        if version > self.version(key) {
            KvView {
                entries: self.entries.insert(key, val),
                versions: self.versions.insert(key, version),
            }
        } else {
            self
        }
    }

    /// The store after the writes of a batch arrive, one after the other.
    pub open spec fn merge_batch(self, writes: Seq<(u64, Option<u64>, u64)>) -> KvView
        decreases writes.len(),
    {
        if writes.len() == 0 {
            self
        } else {
            let w = writes.last();
            self.merge_batch(writes.drop_last()).apply(w.0, w.1, w.2)
        }
    }

    /// No version in the store is above `clock`.
    pub open spec fn within(self, clock: u64) -> bool {
        forall|k: u64| self.version(k) <= clock
    }
}

/// A write that arrives never lowers the version of any key, and a key keeps
/// its value unless its version rises.
pub proof fn lemma_apply_monotone(kv: KvView, key: u64, val: Option<u64>, version: u64, k: u64)
    ensures
        kv.apply(key, val, version).version(k) >= kv.version(k),
        kv.apply(key, val, version).version(k) == kv.version(k) ==> kv.apply(key, val, version).get(k)
            == kv.get(k),
        kv.apply(key, val, version).version(key) == if version > kv.version(key) {
            version
        } else {
            kv.version(key)
        },
{
}

/// A batch that arrives never lowers the version of any key, and a key keeps
/// its value unless its version rises.
pub proof fn lemma_merge_monotone(kv: KvView, writes: Seq<(u64, Option<u64>, u64)>, k: u64)
    ensures
        kv.merge_batch(writes).version(k) >= kv.version(k),
        kv.merge_batch(writes).version(k) == kv.version(k) ==> kv.merge_batch(writes).get(k) == kv.get(
            k,
        ),
    decreases writes.len(),
{
    if writes.len() > 0 {
        let w = writes.last();
        lemma_merge_monotone(kv, writes.drop_last(), k);
        lemma_apply_monotone(kv.merge_batch(writes.drop_last()), w.0, w.1, w.2, k);
    }
}

/// The committed store of a node.
#[derive(Clone, Debug)]
pub struct KV {
    /// The committed value of each key that was written.
    pub entries: HashMap<u64, Option<u64>>,
    /// The version of the last write to each key.
    pub versions: HashMap<u64, u64>,
}

impl View for KV {
    type V = KvView;

    open spec fn view(&self) -> KvView {
        KvView { entries: self.entries@, versions: self.versions@ }
    }
}

impl Default for KV {
    fn default() -> (kv: Self)
        ensures
            kv@ == KvView::empty(),
    {
        KV::new()
    }
}

impl KV {
    /// A store that holds nothing.
    pub fn new() -> (kv: Self)
        ensures
            kv@ == KvView::empty(),
    {
        KV { entries: HashMap::new(), versions: HashMap::new() }
    }

    /// The committed value of `key`.
    pub fn get(&self, key: &u64) -> (val: Option<u64>)
        ensures
            val == self@.get(*key),
    {
        match self.entries.get(key) {
            Some(v) => *v,
            None => None,
        }
    }

    /// The version of the last write to `key`, or 0.
    pub fn version(&self, key: &u64) -> (v: u64)
        ensures
            v == self@.version(*key),
    {
        match self.versions.get(key) {
            Some(v) => *v,
            None => 0,
        }
    }

    /// Takes a write of `val` to `key` under `version`: it is kept only if
    /// its version is strictly greater than the key's.
    pub fn apply(&mut self, key: u64, val: Option<u64>, version: u64)
        ensures
            final(self)@ == old(self)@.apply(key, val, version),
    {
        let current = self.version(&key);
        if version > current {
            self.entries.insert(key, val);
            self.versions.insert(key, version);
        }
    }

    /// Takes the writes of a batch, one after the other.
    pub fn merge_batch(&mut self, writes: Vec<(u64, Option<u64>, u64)>)
        ensures
            final(self)@ == old(self)@.merge_batch(writes@),
    {
        let mut i: usize = 0;
        proof {
            assert(writes@.take(0) =~= Seq::empty());
        }
        while i < writes.len()
            invariant
                i <= writes@.len(),
                self@ == old(self)@.merge_batch(writes@.take(i as int)),
            decreases writes@.len() - i,
        {
            proof {
                assert(writes@.take(i + 1).drop_last() =~= writes@.take(i as int));
            }
            let w = writes[i];
            self.apply(w.0, w.1, w.2);
            i = i + 1;
        }
        proof {
            assert(writes@.take(writes@.len() as int) =~= writes@);
        }
    }
}

/// The writes staged so far, by rising key, each key once.
pub type WriteSet = Seq<(u64, Option<u64>)>;

/// The value staged for `key`, if one is staged.
pub open spec fn ws_get(ws: WriteSet, key: u64) -> Option<Option<u64>>
    decreases ws.len(),
{
    if ws.len() == 0 {
        None
    } else if ws.last().0 == key {
        Some(ws.last().1)
    } else {
        ws_get(ws.drop_last(), key)
    }
}

/// The staged writes after `val` is staged for `key`: in place of an earlier
/// write to the key, or at the key's place in the order.
pub open spec fn ws_put(ws: WriteSet, key: u64, val: Option<u64>) -> WriteSet
    decreases ws.len(),
{
    if ws.len() == 0 {
        seq![(key, val)]
    } else if ws.last().0 == key {
        ws.drop_last().push((key, val))
    } else if ws.last().0 < key {
        ws.push((key, val))
    } else {
        ws_put(ws.drop_last(), key, val).push(ws.last())
    }
}

/// The keys rise strictly.
pub open spec fn ws_sorted(ws: WriteSet) -> bool {
    forall|i: int, j: int| 0 <= i < j < ws.len() ==> ws[i].0 < ws[j].0
}

/// Where `ws_put` puts its write, told from a position `j` behind which every
/// key is greater and before which the last key is not.
pub proof fn lemma_ws_put_at(ws: WriteSet, key: u64, val: Option<u64>, j: int)
    requires
        0 <= j <= ws.len(),
        forall|t: int| j <= t < ws.len() ==> ws[t].0 > key,
        j > 0 ==> ws[j - 1].0 <= key,
    ensures
        ws_put(ws, key, val) == if j > 0 && ws[j - 1].0 == key {
            ws.update(j - 1, (key, val))
        } else {
            ws.insert(j, (key, val))
        },
    decreases ws.len() - j,
{
    if ws.len() == 0 {
        assert(seq![(key, val)] =~= ws.insert(0, (key, val)));
    } else if j == ws.len() {
        if ws.last().0 == key {
            assert(ws.drop_last().push((key, val)) =~= ws.update(j - 1, (key, val)));
        } else {
            assert(ws.push((key, val)) =~= ws.insert(j, (key, val)));
        }
    } else {
        let front = ws.drop_last();
        lemma_ws_put_at(front, key, val, j);
        if j > 0 && ws[j - 1].0 == key {
            assert(front.update(j - 1, (key, val)).push(ws.last()) =~= ws.update(j - 1, (key, val)));
        } else {
            assert(front.insert(j, (key, val)).push(ws.last()) =~= ws.insert(j, (key, val)));
        }
    }
}

/// Staging a write stages the value for its key and leaves every other key
/// as it was.
pub proof fn lemma_ws_put_get(ws: WriteSet, key: u64, val: Option<u64>, k: u64)
    ensures
        ws_get(ws_put(ws, key, val), k) == if k == key {
            Some(val)
        } else {
            ws_get(ws, k)
        },
    decreases ws.len(),
{
    let put = ws_put(ws, key, val);
    if ws.len() == 0 {
        assert(put.last() == (key, val));
        assert(put.drop_last() =~= ws);
    } else if ws.last().0 == key {
        assert(put.last() == (key, val));
        assert(put.drop_last() =~= ws.drop_last());
    } else if ws.last().0 < key {
        assert(put.last() == (key, val));
        assert(put.drop_last() =~= ws);
    } else {
        let inner = ws_put(ws.drop_last(), key, val);
        lemma_ws_put_get(ws.drop_last(), key, val, k);
        assert(put.last() == ws.last());
        assert(put.drop_last() =~= inner);
    }
}

/// Every staged write is the one just staged or was staged before.
pub proof fn lemma_ws_put_members(ws: WriteSet, key: u64, val: Option<u64>, i: int)
    requires
        0 <= i < ws_put(ws, key, val).len(),
    ensures
        ws_put(ws, key, val)[i] == (key, val) || ws.contains(ws_put(ws, key, val)[i]),
    decreases ws.len(),
{
    let put = ws_put(ws, key, val);
    if ws.len() == 0 {
    } else if ws.last().0 == key {
        if i < put.len() - 1 {
            assert(ws[i] == put[i]);
        }
    } else if ws.last().0 < key {
        if i < put.len() - 1 {
            assert(ws[i] == put[i]);
        }
    } else {
        let front = ws.drop_last();
        let inner = ws_put(front, key, val);
        if i < inner.len() {
            lemma_ws_put_members(front, key, val, i);
            if inner[i] != (key, val) {
                let j = choose|j: int| 0 <= j < front.len() && front[j] == inner[i];
                assert(ws[j] == put[i]);
            }
        } else {
            assert(ws[ws.len() - 1] == put[i]);
        }
    }
}

/// Staging a write keeps the keys rising.
pub proof fn lemma_ws_put_sorted(ws: WriteSet, key: u64, val: Option<u64>)
    requires
        ws_sorted(ws),
    ensures
        ws_sorted(ws_put(ws, key, val)),
    decreases ws.len(),
{
    let put = ws_put(ws, key, val);
    if ws.len() == 0 {
    } else if ws.last().0 == key {
        assert forall|i: int, j: int| 0 <= i < j < put.len() implies put[i].0 < put[j].0 by {
            assert(ws[i].0 < ws[j].0);
        }
    } else if ws.last().0 < key {
        assert forall|i: int, j: int| 0 <= i < j < put.len() implies put[i].0 < put[j].0 by {
            if j == ws.len() {
                if i < ws.len() - 1 {
                    assert(ws[i].0 < ws[ws.len() - 1].0);
                }
            } else {
                assert(ws[i].0 < ws[j].0);
            }
        }
    } else {
        let front = ws.drop_last();
        assert(ws_sorted(front)) by {
            assert forall|i: int, j: int| 0 <= i < j < front.len() implies front[i].0 < front[j].0 by {
                assert(ws[i].0 < ws[j].0);
            }
        }
        lemma_ws_put_sorted(front, key, val);
        let inner = ws_put(front, key, val);
        assert forall|i: int, j: int| 0 <= i < j < put.len() implies put[i].0 < put[j].0 by {
            if j == inner.len() {
                assert(put[i] == inner[i]);
                lemma_ws_put_members(front, key, val, i);
                if inner[i] != (key, val) {
                    let t = choose|t: int| 0 <= t < front.len() && front[t] == inner[i];
                    assert(ws[t].0 < ws[ws.len() - 1].0);
                }
            } else {
                assert(inner[i].0 < inner[j].0);
            }
        }
    }
}

/// What a staged transaction stands for.
pub struct StagedView {
    /// The operations as they are reported to the client: a read with the
    /// value it observed, a write as it was given.
    pub results: Seq<(Name, u64, Option<u64>)>,
    /// For each read, the key and the version the store had for it.
    pub read_set: Seq<(u64, u64)>,
    /// The writes, by rising key.
    pub write_set: WriteSet,
}

/// A transaction that has run beside the store and changed nothing yet.
#[derive(Clone, Debug)]
pub struct Staged {
    pub results: Vec<Op>,
    pub read_set: Vec<(u64, u64)>,
    pub write_set: Vec<(u64, Option<u64>)>,
}

impl View for Staged {
    type V = StagedView;

    open spec fn view(&self) -> StagedView {
        StagedView {
            results: ops_view(self.results@),
            read_set: self.read_set@,
            write_set: self.write_set@,
        }
    }
}

impl StagedView {
    /// Nothing staged.
    pub open spec fn empty() -> StagedView {
        StagedView { results: Seq::empty(), read_set: Seq::empty(), write_set: Seq::empty() }
    }

    /// The staged transaction after one more operation has run. A read sees
    /// the write staged for its key, if there is one, and the committed value
    /// otherwise, and records the key's committed version. A write is staged
    /// and reported as given. Any other operation is passed over.
    pub open spec fn step(self, kv: KvView, op: (Name, u64, Option<u64>)) -> StagedView {
        if op.0 == "r"@ {
            let val = match ws_get(self.write_set, op.1) {
                Some(v) => v,
                None => kv.get(op.1),
            };
            StagedView {
                results: self.results.push((op.0, op.1, val)),
                read_set: self.read_set.push((op.1, kv.version(op.1))),
                ..self
            }
        } else if op.0 == "w"@ {
            StagedView {
                results: self.results.push(op),
                write_set: ws_put(self.write_set, op.1, op.2),
                ..self
            }
        } else {
            self
        }
    }
}

/// The transaction `ops` staged beside the store `kv`.
pub open spec fn stage_ops(kv: KvView, ops: Seq<(Name, u64, Option<u64>)>) -> StagedView
    decreases ops.len(),
{
    if ops.len() == 0 {
        StagedView::empty()
    } else {
        stage_ops(kv, ops.drop_last()).step(kv, ops.last())
    }
}

/// Some read of the transaction is stale: the store's version of its key is
/// no longer the one that was recorded.
pub open spec fn conflicts(kv: KvView, read_set: Seq<(u64, u64)>) -> bool {
    exists|i: int| 0 <= i < read_set.len() && kv.version((#[trigger] read_set[i]).0) != read_set[i].1
}

/// The store after the staged writes are applied under `version`.
pub open spec fn apply_writes(kv: KvView, ws: WriteSet, version: u64) -> KvView
    decreases ws.len(),
{
    if ws.len() == 0 {
        kv
    } else {
        apply_writes(kv, ws.drop_last(), version).apply(ws.last().0, ws.last().1, version)
    }
}

/// The batch by which committed writes reach the peers: the staged writes in
/// their order, each as a write under `version`.
pub open spec fn write_batch(ws: WriteSet, version: u64) -> Seq<(Name, u64, Option<u64>, u64)> {
    ws.map_values(|w: (u64, Option<u64>)| ("w"@, w.0, w.1, version))
}

/// The writes among the operations of a replicated batch, in their order.
pub open spec fn writes_of(batch: Seq<(Name, u64, Option<u64>, u64)>) -> Seq<(u64, Option<u64>, u64)>
    decreases batch.len(),
{
    if batch.len() == 0 {
        Seq::empty()
    } else {
        let op = batch.last();
        if op.0 == "w"@ {
            writes_of(batch.drop_last()).push((op.1, op.2, op.3))
        } else {
            writes_of(batch.drop_last())
        }
    }
}

/// The clock after it has seen the versions of `writes`: the greatest of them
/// and itself.
pub open spec fn clock_after(clock: u64, writes: Seq<(u64, Option<u64>, u64)>) -> u64
    decreases writes.len(),
{
    if writes.len() == 0 {
        clock
    } else {
        let c = clock_after(clock, writes.drop_last());
        if writes.last().2 > c {
            writes.last().2
        } else {
            c
        }
    }
}

/// What the state of a node of this store stands for.
pub struct TarctView {
    pub kv: KvView,
    pub commit_ts: u64,
}

/// The state of a node of this store.
#[derive(Clone, Debug)]
pub struct TarctNode {
    /// The committed store.
    pub kv: KV,
    /// The node's clock: the version of its last commit, and no less than any
    /// version that reached it from a peer.
    pub commit_ts: u64,
}

impl View for TarctNode {
    type V = TarctView;

    open spec fn view(&self) -> TarctView {
        TarctView { kv: self.kv@, commit_ts: self.commit_ts }
    }
}

/// The text of the error that answers an aborted transaction.
pub open spec fn abort_text() -> Name {
    "Transaction aborted. Conflict detected"@
}

/// The messages by which a commit reaches the peers: the batch to each peer,
/// in the order of the peers, numbered onward from the node's last number.
pub open spec fn commit_batch(n: NodeView, batch: Seq<(Name, u64, Option<u64>, u64)>) -> Seq<
    MessageView,
> {
    Seq::new(
        n.peers.len(),
        |i: int|
            MessageView {
                src: n.id,
                dest: n.peers[i],
                body: BodyView::TarctReplicate { msg_id: (n.msg_id + 1 + i) as u64, txn: batch },
            },
    )
}

/// What a node does with a staged transaction of `client`. If a read is stale
/// the transaction is aborted: the client gets an error with the code for a
/// conflict, nothing is written and nothing is sent to the peers. Otherwise,
/// if it wrote anything, the clock advances by one, the writes are applied
/// under the new version and sent to every peer; and the client gets the
/// results, after the messages to the peers.
pub open spec fn commit_step(s: TarctView, n: NodeView, client: Name, msg_id: u64, st: StagedView) -> (
    TarctView,
    NodeView,
    Seq<MessageView>,
) {
    let next = (n.msg_id + 1) as u64;
    if conflicts(s.kv, st.read_set) {
        (
            s,
            NodeView { msg_id: next, ..n },
            seq![
                MessageView {
                    src: n.id,
                    dest: client,
                    body: BodyView::Error {
                        msg_id: next,
                        in_reply_to: msg_id,
                        code: ErrorCode::TxnConflict,
                        text: Some(abort_text()),
                        extra: None,
                    },
                },
            ],
        )
    } else if st.write_set.len() == 0 {
        (
            s,
            NodeView { msg_id: next, ..n },
            seq![
                MessageView {
                    src: n.id,
                    dest: client,
                    body: BodyView::TxnOk { msg_id: next, in_reply_to: msg_id, txn: st.results },
                },
            ],
        )
    } else {
        let version = (s.commit_ts + 1) as u64;
        let last = (n.msg_id + n.peers.len() + 1) as u64;
        (
            TarctView { kv: apply_writes(s.kv, st.write_set, version), commit_ts: version },
            NodeView { msg_id: last, ..n },
            commit_batch(n, write_batch(st.write_set, version)).push(
                MessageView {
                    src: n.id,
                    dest: client,
                    body: BodyView::TxnOk { msg_id: last, in_reply_to: msg_id, txn: st.results },
                },
            ),
        )
    }
}

/// What a node does with a transaction of `client`: it stages the operations
/// beside the store and commits what it staged.
pub open spec fn tx_step(
    s: TarctView,
    n: NodeView,
    client: Name,
    msg_id: u64,
    ops: Seq<(Name, u64, Option<u64>)>,
) -> (TarctView, NodeView, Seq<MessageView>) {
    commit_step(s, n, client, msg_id, stage_ops(s.kv, ops))
}

/// What a node of this store does with one message.
pub open spec fn tarct_step(s: TarctView, n: NodeView, m: MessageView) -> (
    TarctView,
    NodeView,
    Seq<MessageView>,
) {
    match m.body {
        BodyView::Init { msg_id, node_id, node_ids } => {
            let next = (n.msg_id + 1) as u64;
            (
                s,
                NodeView { id: node_id, peers: without(node_ids, node_id), msg_id: next },
                seq![
                    MessageView {
                        src: node_id,
                        dest: m.src,
                        body: BodyView::InitOk { msg_id: next, in_reply_to: msg_id },
                    },
                ],
            )
        },
        BodyView::Txn { msg_id, txn } => tx_step(s, n, m.src, msg_id, txn),
        BodyView::TarctReplicate { txn, .. } => (
            TarctView {
                kv: s.kv.merge_batch(writes_of(txn)),
                commit_ts: clock_after(s.commit_ts, writes_of(txn)),
            },
            n,
            Seq::empty(),
        ),
        _ => (s, n, Seq::empty()),
    }
}

/// A copy of a batch of versioned operations.
pub fn clone_versioned(ops: &Vec<VersionedOp>) -> (copy: Vec<VersionedOp>)
    ensures
        versioned_ops_view(copy@) == versioned_ops_view(ops@),
{
    let mut copy: Vec<VersionedOp> = Vec::new();
    let mut i: usize = 0;
    while i < ops.len()
        invariant
            i <= ops@.len(),
            versioned_ops_view(copy@) == versioned_ops_view(ops@).take(i as int),
        decreases ops@.len() - i,
    {
        let ghost before = copy@;
        copy.push((ops[i].0.clone(), ops[i].1, ops[i].2, ops[i].3));
        proof {
            assert(versioned_ops_view(copy@) =~= versioned_ops_view(before).push(
                versioned_ops_view(ops@)[i as int],
            ));
            assert(versioned_ops_view(ops@).take(i + 1) =~= versioned_ops_view(ops@).take(
                i as int,
            ).push(versioned_ops_view(ops@)[i as int]));
        }
        i = i + 1;
    }
    proof {
        assert(versioned_ops_view(ops@).take(ops@.len() as int) =~= versioned_ops_view(ops@));
    }
    copy
}

/// The value staged for `key`, if one is staged.
fn staged_value(ws: &Vec<(u64, Option<u64>)>, key: u64) -> (r: Option<Option<u64>>)
    ensures
        r == ws_get(ws@, key),
{
    let mut i: usize = ws.len();
    proof {
        assert(ws@.take(i as int) =~= ws@);
    }
    while i > 0
        invariant
            i <= ws@.len(),
            ws_get(ws@, key) == ws_get(ws@.take(i as int), key),
        decreases i,
    {
        proof {
            assert(ws@.take(i as int).drop_last() =~= ws@.take(i - 1));
        }
        if ws[i - 1].0 == key {
            return Some(ws[i - 1].1);
        }
        i = i - 1;
    }
    None
}

/// Stages `val` for `key`.
fn stage_write(ws: &mut Vec<(u64, Option<u64>)>, key: u64, val: Option<u64>)
    ensures
        final(ws)@ == ws_put(old(ws)@, key, val),
{
    let mut j: usize = ws.len();
    while j > 0 && ws[j - 1].0 > key
        invariant
            j <= ws@.len(),
            ws@ == old(ws)@,
            forall|t: int| j <= t < ws@.len() ==> ws@[t].0 > key,
        decreases j,
    {
        j = j - 1;
    }
    proof {
        lemma_ws_put_at(ws@, key, val, j as int);
    }
    if j > 0 && ws[j - 1].0 == key {
        ws[j - 1] = (key, val);
    } else {
        ws.insert(j, (key, val));
    }
}

impl Default for TarctNode {
    fn default() -> (s: Self)
        ensures
            s@ == (TarctView { kv: KvView::empty(), commit_ts: 0 }),
    {
        TarctNode::new()
    }
}

impl TarctNode {
    /// A node with an empty store and its clock at 0.
    pub fn new() -> (s: Self)
        ensures
            s@ == (TarctView { kv: KvView::empty(), commit_ts: 0 }),
    {
        TarctNode { kv: KV::new(), commit_ts: 0 }
    }

    /// Runs the operations of a transaction beside the store, which it leaves
    /// as it is.
    pub fn stage(&self, txn: &Vec<Op>) -> (st: Staged)
        ensures
            st@ == stage_ops(self@.kv, ops_view(txn@)),
    {
        let mut st = Staged { results: Vec::new(), read_set: Vec::new(), write_set: Vec::new() };
        let mut i: usize = 0;
        proof {
            assert(ops_view(txn@).take(0) =~= Seq::empty());
            assert(ops_view(st.results@) =~= Seq::empty());
        }
        while i < txn.len()
            invariant
                i <= txn@.len(),
                st@ == stage_ops(self@.kv, ops_view(txn@).take(i as int)),
            decreases txn@.len() - i,
        {
            proof {
                let all = ops_view(txn@);
                assert(all.take(i + 1).drop_last() =~= all.take(i as int));
                assert(all.take(i + 1).last() == (txn@[i as int].0@, txn@[i as int].1, txn@[i as int].2));
            }
            let key = txn[i].1;
            let ghost before = st@;
            let ghost reported = st.results@;
            if str_eq(txn[i].0.as_str(), "r") {
                let val = match staged_value(&st.write_set, key) {
                    Some(v) => v,
                    None => self.kv.get(&key),
                };
                let version = self.kv.version(&key);
                st.read_set.push((key, version));
                st.results.push((txn[i].0.clone(), key, val));
                proof {
                    assert(ops_view(st.results@) =~= ops_view(reported).push((txn@[i as int].0@, key, val)));
                }
            } else if str_eq(txn[i].0.as_str(), "w") {
                let val = txn[i].2;
                stage_write(&mut st.write_set, key, val);
                st.results.push((txn[i].0.clone(), key, val));
                proof {
                    assert(ops_view(st.results@) =~= ops_view(reported).push((txn@[i as int].0@, key, val)));
                }
            }
            i = i + 1;
        }
        proof {
            assert(ops_view(txn@).take(txn@.len() as int) =~= ops_view(txn@));
        }
        st
    }

    /// Whether the numbers are to be had that committing `st` may need.
    pub open spec fn can_commit(&self, node: &Node) -> bool {
        node.has_ids(node@.peers.len() + 1 as int) && self.commit_ts < u64::MAX
    }

    /// Checks a staged transaction of `client` against the store and, if none
    /// of its reads is stale, commits it.
    pub fn commit(&mut self, node: &mut Node, client: String, msg_id: u64, st: Staged) -> (out: Vec<
        Message,
    >)
        requires
            old(self).can_commit(old(node)),
        ensures
            (final(self)@, final(node)@, batch_view(out@)) == commit_step(
                old(self)@,
                old(node)@,
                client@,
                msg_id,
                st@,
            ),
    {
        let mut out: Vec<Message> = Vec::new();
        let Staged { results, read_set, write_set } = st;
        let mut i: usize = 0;
        while i < read_set.len()
            invariant
                i <= read_set@.len(),
                forall|j: int| 0 <= j < i ==> self@.kv.version((#[trigger] read_set@[j]).0) == read_set@[j].1,
                *self == *old(self),
                *node == *old(node),
                out@.len() == 0,
                old(self).can_commit(old(node)),
                st.read_set == read_set,
            decreases read_set@.len() - i,
        {
            let current = self.kv.version(&read_set[i].0);
            if current != read_set[i].1 {
                let id = node.next_msg_id();
                out.push(
                    Message {
                        src: node.id.clone(),
                        dest: client,
                        body: MessageBody::Error {
                            msg_id: id,
                            in_reply_to: msg_id,
                            code: ErrorCode::TxnConflict,
                            text: Some("Transaction aborted. Conflict detected".to_owned()),
                            extra: None,
                        },
                    },
                );
                proof {
                    assert(old(self)@.kv.version(read_set@[i as int].0) != read_set@[i as int].1);
                    assert(conflicts(old(self)@.kv, st@.read_set));
                    let expected = commit_step(old(self)@, old(node)@, client@, msg_id, st@).2;
                    assert(batch_view(out@).len() == 1);
                    assert(batch_view(out@)[0] == expected[0]);
                    assert(batch_view(out@) =~= expected);
                }
                return out;
            }
            i = i + 1;
        }
        assert(!conflicts(self@.kv, read_set@));
        if write_set.len() > 0 {
            self.commit_ts = self.commit_ts + 1;
            let version = self.commit_ts;
            let mut batch: Vec<VersionedOp> = Vec::new();
            let mut w: usize = 0;
            proof {
                assert(write_set@.take(0) =~= Seq::empty());
                assert(versioned_ops_view(batch@) =~= write_batch(write_set@.take(0), version));
            }
            while w < write_set.len()
                invariant
                    w <= write_set@.len(),
                    self.commit_ts == version,
                    self@.kv == apply_writes(old(self)@.kv, write_set@.take(w as int), version),
                    versioned_ops_view(batch@) == write_batch(write_set@.take(w as int), version),
                decreases write_set@.len() - w,
            {
                proof {
                    assert(write_set@.take(w + 1).drop_last() =~= write_set@.take(w as int));
                }
                let (key, val) = write_set[w];
                self.kv.apply(key, val, version);
                let ghost before = batch@;
                batch.push(("w".to_owned(), key, val, version));
                proof {
                    assert(versioned_ops_view(batch@) =~= versioned_ops_view(before).push(
                        ("w"@, key, val, version),
                    ));
                    assert(write_batch(write_set@.take(w + 1), version) =~= write_batch(
                        write_set@.take(w as int),
                        version,
                    ).push(("w"@, key, val, version)));
                }
                w = w + 1;
            }
            proof {
                assert(write_set@.take(write_set@.len() as int) =~= write_set@);
            }
            let ghost copies = commit_batch(old(node)@, write_batch(write_set@, version));
            let n = node.peers.len();
            let mut p: usize = 0;
            while p < n
                invariant
                    p <= n,
                    n == node.peers@.len(),
                    node@.id == old(node)@.id,
                    node@.peers == old(node)@.peers,
                    node.msg_id == old(node).msg_id + p,
                    old(node).has_ids(n + 1),
                    versioned_ops_view(batch@) == write_batch(write_set@, version),
                    copies == commit_batch(old(node)@, write_batch(write_set@, version)),
                    batch_view(out@) == copies.take(p as int),
                decreases n - p,
            {
                let id = node.next_msg_id();
                let ghost sent = out@;
                out.push(
                    Message {
                        src: node.id.clone(),
                        dest: node.peers[p].clone(),
                        body: MessageBody::TarctReplicate { msg_id: id, txn: clone_versioned(&batch) },
                    },
                );
                proof {
                    assert(batch_view(out@) =~= batch_view(sent).push(copies[p as int]));
                    assert(copies.take(p + 1) =~= copies.take(p as int).push(copies[p as int]));
                }
                p = p + 1;
            }
            proof {
                assert(copies.take(n as int) =~= copies);
            }
        }
        let id = node.next_msg_id();
        let ghost sent = out@;
        out.push(
            Message {
                src: node.id.clone(),
                dest: client,
                body: MessageBody::TxnOk { msg_id: id, in_reply_to: msg_id, txn: results },
            },
        );
        proof {
            assert(batch_view(out@) =~= batch_view(sent).push(batch_view(out@).last()));
            assert(batch_view(out@) =~= commit_step(old(self)@, old(node)@, client@, msg_id, st@).2);
        }
        out
    }

    /// Runs a transaction that `message.src` sent under the number `msg_id`.
    pub fn handle_tx(&mut self, node: &mut Node, message: Message, msg_id: u64, txn: Vec<Op>) -> (out:
        Vec<Message>)
        requires
            old(self).can_commit(old(node)),
        ensures
            (final(self)@, final(node)@, batch_view(out@)) == tx_step(
                old(self)@,
                old(node)@,
                message.src@,
                msg_id,
                ops_view(txn@),
            ),
    {
        let st = self.stage(&txn);
        self.commit(node, message.src, msg_id, st)
    }
}

/// Whether the numbers are to be had that a step on `m` may need: for a
/// transaction one message number for each peer and one for the client, and a
/// tick of the clock; for `init` one message number.
pub open spec fn tarct_ready(s: TarctView, n: NodeView, m: MessageView) -> bool {
    match m.body {
        BodyView::Txn { .. } => n.msg_id + n.peers.len() + 1 <= u64::MAX && s.commit_ts < u64::MAX,
        BodyView::Init { .. } => n.msg_id + 1 <= u64::MAX,
        _ => true,
    }
}

/// The staged writes of a transaction are in the order of their keys, each
/// key once.
pub proof fn lemma_stage_sorted(kv: KvView, ops: Seq<(Name, u64, Option<u64>)>)
    ensures
        ws_sorted(stage_ops(kv, ops).write_set),
    decreases ops.len(),
{
    if ops.len() > 0 {
        lemma_stage_sorted(kv, ops.drop_last());
        let st = stage_ops(kv, ops.drop_last());
        lemma_ws_put_sorted(st.write_set, ops.last().1, ops.last().2);
    }
}

/// Every read of a staged transaction records the version that the store
/// has for its key, so a transaction that is committed against the store it
/// was staged beside has no stale read.
pub proof fn lemma_stage_reads_current(kv: KvView, ops: Seq<(Name, u64, Option<u64>)>)
    ensures
        forall|i: int|
            0 <= i < stage_ops(kv, ops).read_set.len() ==> kv.version(
                (#[trigger] stage_ops(kv, ops).read_set[i]).0,
            ) == stage_ops(kv, ops).read_set[i].1,
        !conflicts(kv, stage_ops(kv, ops).read_set),
    decreases ops.len(),
{
    if ops.len() > 0 {
        lemma_stage_reads_current(kv, ops.drop_last());
        let st = stage_ops(kv, ops.drop_last());
        let all = stage_ops(kv, ops).read_set;
        assert forall|i: int| 0 <= i < all.len() implies kv.version((#[trigger] all[i]).0) == all[i].1 by {
            if i < st.read_set.len() {
                assert(all[i] == st.read_set[i]);
            }
        }
    }
}

/// A read that follows the operations `ops` in a transaction observes the
/// last value that `ops` wrote to its key; where `ops` wrote none, it observes
/// the committed value.
pub proof fn lemma_read_your_writes(kv: KvView, ops: Seq<(Name, u64, Option<u64>)>, key: u64)
    ensures
        stage_ops(kv, ops.push(("r"@, key, None))).results.last() == (
            "r"@,
            key,
            match ws_get(stage_ops(kv, ops).write_set, key) {
                Some(v) => v,
                None => kv.get(key),
            },
        ),
        forall|val: Option<u64>|
            ws_get(#[trigger] stage_ops(kv, ops.push(("w"@, key, val))).write_set, key) == Some(val),
{
    let read = ops.push(("r"@, key, None));
    assert(read.drop_last() =~= ops);
    assert forall|val: Option<u64>|
        ws_get(#[trigger] stage_ops(kv, ops.push(("w"@, key, val))).write_set, key) == Some(val) by {
        let written = ops.push(("w"@, key, val));
        assert(written.drop_last() =~= ops);
        lemma_ws_put_get(stage_ops(kv, ops).write_set, key, val, key);
        lemma_names_differ();
    }
}


/// Applying writes whose keys rise, under a version above every version in
/// the store, leaves each written key with its written value under the new
/// version and every other key as it was.
pub proof fn lemma_apply_writes(kv: KvView, ws: WriteSet, version: u64, k: u64)
    requires
        ws_sorted(ws),
        forall|q: u64| kv.version(q) < version,
    ensures
        match ws_get(ws, k) {
            Some(v) => apply_writes(kv, ws, version).get(k) == v && apply_writes(kv, ws, version).version(
                k,
            ) == version,
            None => apply_writes(kv, ws, version).get(k) == kv.get(k) && apply_writes(
                kv,
                ws,
                version,
            ).version(k) == kv.version(k),
        },
    decreases ws.len(),
{
    if ws.len() > 0 {
        let front = ws.drop_last();
        assert(ws_sorted(front)) by {
            assert forall|i: int, j: int| 0 <= i < j < front.len() implies front[i].0 < front[j].0 by {
                assert(ws[i].0 < ws[j].0);
            }
        }
        lemma_apply_writes(kv, front, version, k);
        lemma_apply_writes(kv, front, version, ws.last().0);
        assert(ws_get(front, ws.last().0) is None) by {
            lemma_ws_get_found(front, ws.last().0);
            if ws_get(front, ws.last().0) is Some {
                let t = choose|t: int| 0 <= t < front.len() && front[t].0 == ws.last().0;
                assert(ws[t].0 < ws[ws.len() - 1].0);
            }
        }
    }
}

/// A key that is staged is the key of some staged write.
pub proof fn lemma_ws_get_found(ws: WriteSet, k: u64)
    ensures
        ws_get(ws, k) is Some ==> exists|t: int| 0 <= t < ws.len() && ws[t].0 == k,
    decreases ws.len(),
{
    if ws.len() > 0 {
        if ws.last().0 == k {
            assert(ws[ws.len() - 1].0 == k);
        } else {
            lemma_ws_get_found(ws.drop_last(), k);
            if ws_get(ws, k) is Some {
                let t = choose|t: int| 0 <= t < ws.drop_last().len() && ws.drop_last()[t].0 == k;
                assert(ws[t].0 == k);
            }
        }
    }
}

/// What holds of committing a staged transaction. If some read is stale, the
/// client gets exactly one error with the code for a conflict, and the store
/// and the clock stay as they were. If none is, every read still has the
/// version it observed, and the client gets the results; and where the clock
/// was no less than every version in the store and the staged keys rise, each
/// written key then holds its written value under the new value of the clock,
/// which again is no less than any version in the store.
pub proof fn lemma_commit_step(s: TarctView, n: NodeView, client: Name, msg_id: u64, st: StagedView)
    requires
        s.commit_ts < u64::MAX,
    ensures
        conflicts(s.kv, st.read_set) ==> {
            &&& commit_step(s, n, client, msg_id, st).0 == s
            &&& commit_step(s, n, client, msg_id, st).2.len() == 1
            &&& commit_step(s, n, client, msg_id, st).2[0].body is Error
            &&& commit_step(s, n, client, msg_id, st).2[0].body->Error_code.spec_code() == 30
            &&& commit_step(s, n, client, msg_id, st).2[0].body->Error_in_reply_to == msg_id
            &&& commit_step(s, n, client, msg_id, st).2[0].dest == client
        },
        !conflicts(s.kv, st.read_set) ==> {
            &&& forall|i: int|
                0 <= i < st.read_set.len() ==> s.kv.version((#[trigger] st.read_set[i]).0)
                    == st.read_set[i].1
            &&& commit_step(s, n, client, msg_id, st).2.last().body == (BodyView::TxnOk {
                msg_id: commit_step(s, n, client, msg_id, st).1.msg_id,
                in_reply_to: msg_id,
                txn: st.results,
            })
            &&& commit_step(s, n, client, msg_id, st).2.last().dest == client
        },
        !conflicts(s.kv, st.read_set) && s.kv.within(s.commit_ts) && ws_sorted(st.write_set) ==> {
            &&& commit_step(s, n, client, msg_id, st).0.kv.within(
                commit_step(s, n, client, msg_id, st).0.commit_ts,
            )
            &&& forall|k: u64| #[trigger]
                ws_get(st.write_set, k) is Some ==> {
                    &&& commit_step(s, n, client, msg_id, st).0.kv.get(k) == ws_get(st.write_set, k)->0
                    &&& commit_step(s, n, client, msg_id, st).0.kv.version(k) == commit_step(
                        s,
                        n,
                        client,
                        msg_id,
                        st,
                    ).0.commit_ts
                }
            &&& forall|k: u64| #[trigger]
                ws_get(st.write_set, k) is None ==> {
                    &&& commit_step(s, n, client, msg_id, st).0.kv.get(k) == s.kv.get(k)
                    &&& commit_step(s, n, client, msg_id, st).0.kv.version(k) == s.kv.version(k)
                }
        },
{
    let (s2, n2, out) = commit_step(s, n, client, msg_id, st);
    if !conflicts(s.kv, st.read_set) {
        if s.kv.within(s.commit_ts) && ws_sorted(st.write_set) {
            let version = (s.commit_ts + 1) as u64;
            assert forall|k: u64| ws_get(st.write_set, k) is Some implies s2.kv.get(k) == ws_get(
                st.write_set,
                k,
            )->0 && s2.kv.version(k) == s2.commit_ts by {
                lemma_ws_get_found(st.write_set, k);
                lemma_apply_writes(s.kv, st.write_set, version, k);
            }
            assert forall|k: u64| ws_get(st.write_set, k) is None implies s2.kv.get(k) == s.kv.get(k)
                && s2.kv.version(k) == s.kv.version(k) by {
                if st.write_set.len() > 0 {
                    lemma_apply_writes(s.kv, st.write_set, version, k);
                }
            }
            assert forall|k: u64| s2.kv.version(k) <= s2.commit_ts by {
                if st.write_set.len() > 0 {
                    lemma_apply_writes(s.kv, st.write_set, version, k);
                }
            }
        }
    }
}

/// Writes that arrive from a peer leave the clock no less than every version
/// in the store, if it was so before.
pub proof fn lemma_merge_within(kv: KvView, clock: u64, writes: Seq<(u64, Option<u64>, u64)>)
    requires
        kv.within(clock),
    ensures
        kv.merge_batch(writes).within(clock_after(clock, writes)),
        clock_after(clock, writes) >= clock,
    decreases writes.len(),
{
    if writes.len() > 0 {
        let front = writes.drop_last();
        lemma_merge_within(kv, clock, front);
        let merged = kv.merge_batch(front);
        let w = writes.last();
        assert forall|k: u64| kv.merge_batch(writes).version(k) <= clock_after(clock, writes) by {
            assert(merged.version(k) <= clock_after(clock, front));
            lemma_apply_monotone(merged, w.0, w.1, w.2, k);
        }
    }
}

/// What holds of every step of a node of this store: every message sent
/// carries the node's name; the messages sent are numbered onward from the
/// node's last number; an answer goes to the request in hand; a transaction
/// is never aborted, because nothing reaches the store between its reads and
/// its commit; and the clock stays no less than every version in the store.
pub proof fn lemma_tarct_step(s: TarctView, n: NodeView, m: MessageView)
    requires
        tarct_ready(s, n, m),
    ensures
        all_from(tarct_step(s, n, m).2, tarct_step(s, n, m).1.id),
        numbered_from(tarct_step(s, n, m).2, n.msg_id),
        tarct_step(s, n, m).1.msg_id == n.msg_id + tarct_step(s, n, m).2.len(),
        forall|i: int|
            0 <= i < tarct_step(s, n, m).2.len() ==> match (#[trigger] tarct_step(
                s,
                n,
                m,
            ).2[i]).body.in_reply_to() {
                Some(r) => request_id(m.body) == Some(r),
                None => true,
            },
        forall|i: int|
            0 <= i < tarct_step(s, n, m).2.len() ==> !((#[trigger] tarct_step(s, n, m).2[i]).body is Error),
        m.body is Txn ==> tarct_step(s, n, m).2.len() > 0 && tarct_step(s, n, m).2.last().body is TxnOk,
        s.kv.within(s.commit_ts) ==> tarct_step(s, n, m).0.kv.within(tarct_step(s, n, m).0.commit_ts),
        tarct_step(s, n, m).0.commit_ts >= s.commit_ts,
        m.body is Unknown ==> tarct_step(s, n, m) == (s, n, Seq::<MessageView>::empty()),
{
    match m.body {
        BodyView::Txn { msg_id, txn } => {
            let st = stage_ops(s.kv, txn);
            lemma_stage_reads_current(s.kv, txn);
            lemma_stage_sorted(s.kv, txn);
            lemma_commit_step(s, n, m.src, msg_id, st);
        },
        BodyView::TarctReplicate { txn, .. } => {
            if s.kv.within(s.commit_ts) {
                lemma_merge_within(s.kv, s.commit_ts, writes_of(txn));
            }
            lemma_clock_rises(s.commit_ts, writes_of(txn));
        },
        _ => {},
    }
}

/// The clock never falls.
pub proof fn lemma_clock_rises(clock: u64, writes: Seq<(u64, Option<u64>, u64)>)
    ensures
        clock_after(clock, writes) >= clock,
        forall|i: int| 0 <= i < writes.len() ==> clock_after(clock, writes) >= (#[trigger] writes[i]).2,
    decreases writes.len(),
{
    if writes.len() > 0 {
        lemma_clock_rises(clock, writes.drop_last());
        assert forall|i: int| 0 <= i < writes.len() implies clock_after(clock, writes) >= (
        #[trigger] writes[i]).2 by {
            if i < writes.len() - 1 {
                assert(writes.drop_last()[i] == writes[i]);
            }
        }
    }
}

impl MessageHandler for TarctNode {
    open spec fn ticks(&self, node: &Node) -> bool {
        true
    }

    fn can_tick(&self, node: &Node) -> (b: bool) {
        true
    }

    /// This workload does not gossip: a tick changes nothing and sends
    /// nothing.
    fn tick(&mut self, node: &mut Node) -> (out: Vec<Message>)
        ensures
            out@.len() == 0,
            *final(self) == *old(self),
    {
        let out: Vec<Message> = Vec::new();
        proof {
            assert(batch_view(out@) =~= Seq::empty());
        }
        out
    }

    open spec fn accepts(&self, node: &Node, message: &Message) -> bool {
        tarct_ready(self@, node@, message@)
    }

    open spec fn awaits(&self, r: u64) -> bool {
        false
    }

    fn can_handle(&self, node: &Node, message: &Message) -> (b: bool) {
        match &message.body {
            MessageBody::Txn { .. } => node.can_number_peers(1) && self.commit_ts < u64::MAX,
            MessageBody::Init { .. } => node.can_number(1),
            _ => true,
        }
    }

    /// Takes one message of this store.
    fn handle(&mut self, node: &mut Node, message: Message) -> (out: Vec<Message>)
        ensures
            (final(self)@, final(node)@, batch_view(out@)) == tarct_step(
                old(self)@,
                old(node)@,
                message@,
            ),
    {
        proof {
            lemma_tarct_step(self@, node@, message@);
        }
        let mut out: Vec<Message> = Vec::new();
        let Message { src, dest, body } = message;
        match body {
            MessageBody::Init { msg_id, node_id, node_ids } => {
                node.handle_init(node_id, node_ids);
                let reply = node.init_ok(src, msg_id);
                out.push(reply);
            },
            MessageBody::Txn { msg_id, txn } => {
                let from_client = Message { src, dest, body: MessageBody::Unknown };
                out = self.handle_tx(node, from_client, msg_id, txn);
            },
            MessageBody::TarctReplicate { msg_id: _, txn } => {
                let mut writes: Vec<(u64, Option<u64>, u64)> = Vec::new();
                let mut clock = self.commit_ts;
                let mut i: usize = 0;
                proof {
                    assert(versioned_ops_view(txn@).take(0) =~= Seq::empty());
                }
                while i < txn.len()
                    invariant
                        i <= txn@.len(),
                        writes@ == writes_of(versioned_ops_view(txn@).take(i as int)),
                        clock == clock_after(self.commit_ts, writes@),
                    decreases txn@.len() - i,
                {
                    proof {
                        let all = versioned_ops_view(txn@);
                        assert(all.take(i + 1).drop_last() =~= all.take(i as int));
                        assert(all.take(i + 1).last() == (
                            txn@[i as int].0@,
                            txn@[i as int].1,
                            txn@[i as int].2,
                            txn@[i as int].3,
                        ));
                    }
                    if str_eq(txn[i].0.as_str(), "w") {
                        let ghost before = writes@;
                        writes.push((txn[i].1, txn[i].2, txn[i].3));
                        proof {
                            assert(writes@.drop_last() =~= before);
                        }
                        if txn[i].3 > clock {
                            clock = txn[i].3;
                        }
                    }
                    i = i + 1;
                }
                proof {
                    assert(versioned_ops_view(txn@).take(txn@.len() as int) =~= versioned_ops_view(txn@));
                }
                self.kv.merge_batch(writes);
                self.commit_ts = clock;
            },
            _ => {},
        }
        proof {
            assert(batch_view(out@) =~= tarct_step(old(self)@, old(node)@, message@).2);
        }
        out
    }
}

} // verus!

//! The messages that nodes and clients exchange, and what they stand for.

use vstd::prelude::*;
use crate::kv::Counter;
use crate::str_map::StrMap;

verus! {

/// Further fields of an error body, carried through without being read.
#[verifier::external_type_specification]
#[verifier::external_body]
pub struct ExJsonValue(serde_json::Value);

/// One operation of a transaction: `"r"` or `"w"`, the key, and the value
/// written or read.
pub type Op = (String, u64, Option<u64>);

/// One replicated write of a committed transaction: an operation and the
/// version it was committed with.
pub type VersionedOp = (String, u64, Option<u64>, u64);

/// The codes that an error body can carry.
#[derive(Clone, Copy, Debug, PartialEq, Eq, Structural)]
pub enum ErrorCode {
    Timeout,
    NodeNotFound,
    NotSupported,
    TemporarilyUnavailable,
    MalformedMessage,
    Crash,
    Abort,
    KeyDoesNotExist,
    KeyAlreadyExists,
    PreconditionFailed,
    TxnConflict,
    Other,
}

impl ErrorCode {
    /// The number that stands for the code in a message.
    pub open spec fn spec_code(self) -> u64 {
        match self {
            ErrorCode::Timeout => 0,
            ErrorCode::NodeNotFound => 1,
            ErrorCode::NotSupported => 10,
            ErrorCode::TemporarilyUnavailable => 11,
            ErrorCode::MalformedMessage => 12,
            ErrorCode::Crash => 13,
            ErrorCode::Abort => 14,
            ErrorCode::KeyDoesNotExist => 20,
            ErrorCode::KeyAlreadyExists => 21,
            ErrorCode::PreconditionFailed => 22,
            ErrorCode::TxnConflict => 30,
            ErrorCode::Other => 999,
        }
    }

    /// The number that stands for the code in a message.
    #[verifier::when_used_as_spec(spec_code)]
    pub fn code(self) -> (n: u64)
        ensures
            n == self.spec_code(),
    {
        match self {
            ErrorCode::Timeout => 0,
            ErrorCode::NodeNotFound => 1,
            ErrorCode::NotSupported => 10,
            ErrorCode::TemporarilyUnavailable => 11,
            ErrorCode::MalformedMessage => 12,
            ErrorCode::Crash => 13,
            ErrorCode::Abort => 14,
            ErrorCode::KeyDoesNotExist => 20,
            ErrorCode::KeyAlreadyExists => 21,
            ErrorCode::PreconditionFailed => 22,
            ErrorCode::TxnConflict => 30,
            ErrorCode::Other => 999,
        }
    }

    /// The code that a number stands for, if it stands for one.
    pub fn from_code(n: u64) -> (r: Option<ErrorCode>)
        ensures
            match r {
                Some(c) => c.spec_code() == n,
                None => forall|c: ErrorCode| c.spec_code() != n,
            },
    {
        if n == 0 {
            Some(ErrorCode::Timeout)
        } else if n == 1 {
            Some(ErrorCode::NodeNotFound)
        } else if n == 10 {
            Some(ErrorCode::NotSupported)
        } else if n == 11 {
            Some(ErrorCode::TemporarilyUnavailable)
        } else if n == 12 {
            Some(ErrorCode::MalformedMessage)
        } else if n == 13 {
            Some(ErrorCode::Crash)
        } else if n == 14 {
            Some(ErrorCode::Abort)
        } else if n == 20 {
            Some(ErrorCode::KeyDoesNotExist)
        } else if n == 21 {
            Some(ErrorCode::KeyAlreadyExists)
        } else if n == 22 {
            Some(ErrorCode::PreconditionFailed)
        } else if n == 30 {
            Some(ErrorCode::TxnConflict)
        } else if n == 999 {
            Some(ErrorCode::Other)
        } else {
            None
        }
    }
}

/// What a message carries. A body whose kind this library does not know is
/// `Unknown`, and no workload answers it.
#[derive(Clone, Debug)]
#[allow(inconsistent_fields)]
pub enum MessageBody {
    Init { msg_id: u64, node_id: String, node_ids: Vec<String> },
    InitOk { msg_id: u64, in_reply_to: u64 },
    Echo { msg_id: u64, echo: String },
    EchoOk { msg_id: u64, in_reply_to: u64, echo: String },
    Generate { msg_id: u64 },
    GenerateOk { msg_id: u64, in_reply_to: u64, id: u64 },
    Broadcast { msg_id: u64, message: u64 },
    BroadcastOk { msg_id: u64, in_reply_to: u64 },
    BroadcastGossip { msg_id: u64, messages: Vec<u64> },
    Read { msg_id: u64 },
    ReadOk { msg_id: u64, in_reply_to: u64, messages: Option<Vec<u64>>, value: Option<u64> },
    Topology { msg_id: u64, topology: StrMap<Vec<String>> },
    TopologyOk { msg_id: u64, in_reply_to: u64 },
    Add { msg_id: u64, delta: u64 },
    AddOk { msg_id: u64, in_reply_to: u64 },
    CounterGossip { msg_id: u64, counters: StrMap<Counter> },
    Send { msg_id: u64, key: String, msg: u64 },
    SendOk { msg_id: u64, in_reply_to: u64, offset: u64 },
    Poll { msg_id: u64, offsets: StrMap<u64> },
    PollOk { msg_id: u64, in_reply_to: u64, msgs: StrMap<Vec<(u64, u64)>> },
    CommitOffsets { msg_id: u64, offsets: StrMap<u64> },
    CommitOffsetsOk { msg_id: u64, in_reply_to: u64 },
    ListCommittedOffsets { msg_id: u64, keys: Vec<String> },
    ListCommittedOffsetsOk { msg_id: u64, in_reply_to: u64, offsets: StrMap<u64> },
    ForwardSend { msg_id: u64, orig_src: String, orig_msg_id: u64, key: String, msg: u64 },
    Replicate { msg_id: u64, key: String, msg: u64, offset: u64 },
    ReplicateOk { msg_id: u64, in_reply_to: u64, offset: u64 },
    Txn { msg_id: u64, txn: Vec<Op> },
    TxnOk { msg_id: u64, in_reply_to: u64, txn: Vec<Op> },
    TarutReplicate { msg_id: u64, txn: Vec<Op> },
    TarctReplicate { msg_id: u64, txn: Vec<VersionedOp> },
    Error {
        msg_id: u64,
        in_reply_to: u64,
        code: ErrorCode,
        text: Option<String>,
        extra: Option<serde_json::Value>,
    },
    Unknown,
}

/// One message on its way from `src` to `dest`.
#[derive(Clone, Debug)]
pub struct Message {
    pub src: String,
    pub dest: String,
    pub body: MessageBody,
}

/// A name as a sequence of characters.
pub type Name = Seq<char>;

/// The names in a list of strings.
pub open spec fn names(v: Seq<String>) -> Seq<Name> {
    v.map_values(|s: String| s@)
}

/// The names of the two operations differ.
pub proof fn lemma_names_differ()
    ensures
        "r"@ != "w"@,
{
    reveal_strlit("r");
    reveal_strlit("w");
    assert("r"@[0] != "w"@[0]);
}

/// An operation with its name as a sequence of characters.
pub open spec fn op_view(op: Op) -> (Name, u64, Option<u64>) {
    (op.0@, op.1, op.2)
}

/// The operations of a transaction.
pub open spec fn ops_view(v: Seq<Op>) -> Seq<(Name, u64, Option<u64>)> {
    v.map_values(|op: Op| op_view(op))
}

/// A versioned operation with its name as a sequence of characters.
pub open spec fn versioned_op_view(op: VersionedOp) -> (Name, u64, Option<u64>, u64) {
    (op.0@, op.1, op.2, op.3)
}

/// The operations of a replicated batch.
pub open spec fn versioned_ops_view(v: Seq<VersionedOp>) -> Seq<(Name, u64, Option<u64>, u64)> {
    v.map_values(|op: VersionedOp| versioned_op_view(op))
}

/// The entries of a map of neighbours.
pub open spec fn topology_view(s: Seq<(Name, Vec<String>)>) -> Seq<(Name, Seq<Name>)> {
    s.map_values(|e: (Name, Vec<String>)| (e.0, names(e.1@)))
}

/// The entries of a map of polled messages.
pub open spec fn polled_view(s: Seq<(Name, Vec<(u64, u64)>)>) -> Seq<(Name, Seq<(u64, u64)>)> {
    s.map_values(|e: (Name, Vec<(u64, u64)>)| (e.0, e.1@))
}

/// A list of numbers, where there is one.
pub open spec fn opt_list_view(v: Option<Vec<u64>>) -> Option<Seq<u64>> {
    match v {
        Some(l) => Some(l@),
        None => None,
    }
}

/// A text, where there is one.
pub open spec fn opt_text_view(v: Option<String>) -> Option<Name> {
    match v {
        Some(t) => Some(t@),
        None => None,
    }
}

/// What a body stands for: the same fields, with every string as a sequence
/// of characters, every list as a sequence and every map as the sequence of
/// its entries.
#[allow(inconsistent_fields)]
pub enum BodyView {
    Init { msg_id: u64, node_id: Name, node_ids: Seq<Name> },
    InitOk { msg_id: u64, in_reply_to: u64 },
    Echo { msg_id: u64, echo: Name },
    EchoOk { msg_id: u64, in_reply_to: u64, echo: Name },
    Generate { msg_id: u64 },
    GenerateOk { msg_id: u64, in_reply_to: u64, id: u64 },
    Broadcast { msg_id: u64, message: u64 },
    BroadcastOk { msg_id: u64, in_reply_to: u64 },
    BroadcastGossip { msg_id: u64, messages: Seq<u64> },
    Read { msg_id: u64 },
    ReadOk { msg_id: u64, in_reply_to: u64, messages: Option<Seq<u64>>, value: Option<u64> },
    Topology { msg_id: u64, topology: Seq<(Name, Seq<Name>)> },
    TopologyOk { msg_id: u64, in_reply_to: u64 },
    Add { msg_id: u64, delta: u64 },
    AddOk { msg_id: u64, in_reply_to: u64 },
    CounterGossip { msg_id: u64, counters: Seq<(Name, Counter)> },
    Send { msg_id: u64, key: Name, msg: u64 },
    SendOk { msg_id: u64, in_reply_to: u64, offset: u64 },
    Poll { msg_id: u64, offsets: Seq<(Name, u64)> },
    PollOk { msg_id: u64, in_reply_to: u64, msgs: Seq<(Name, Seq<(u64, u64)>)> },
    CommitOffsets { msg_id: u64, offsets: Seq<(Name, u64)> },
    CommitOffsetsOk { msg_id: u64, in_reply_to: u64 },
    ListCommittedOffsets { msg_id: u64, keys: Seq<Name> },
    ListCommittedOffsetsOk { msg_id: u64, in_reply_to: u64, offsets: Seq<(Name, u64)> },
    ForwardSend { msg_id: u64, orig_src: Name, orig_msg_id: u64, key: Name, msg: u64 },
    Replicate { msg_id: u64, key: Name, msg: u64, offset: u64 },
    ReplicateOk { msg_id: u64, in_reply_to: u64, offset: u64 },
    Txn { msg_id: u64, txn: Seq<(Name, u64, Option<u64>)> },
    TxnOk { msg_id: u64, in_reply_to: u64, txn: Seq<(Name, u64, Option<u64>)> },
    TarutReplicate { msg_id: u64, txn: Seq<(Name, u64, Option<u64>)> },
    TarctReplicate { msg_id: u64, txn: Seq<(Name, u64, Option<u64>, u64)> },
    Error {
        msg_id: u64,
        in_reply_to: u64,
        code: ErrorCode,
        text: Option<Name>,
        extra: Option<serde_json::Value>,
    },
    Unknown,
}

impl BodyView {
    /// The identifier that the sender gave the message, where the body has one.
    pub open spec fn msg_id(self) -> Option<u64> {
        match self {
            BodyView::Init { msg_id, .. } => Some(msg_id),
            BodyView::InitOk { msg_id, .. } => Some(msg_id),
            BodyView::Echo { msg_id, .. } => Some(msg_id),
            BodyView::EchoOk { msg_id, .. } => Some(msg_id),
            BodyView::Generate { msg_id } => Some(msg_id),
            BodyView::GenerateOk { msg_id, .. } => Some(msg_id),
            BodyView::Broadcast { msg_id, .. } => Some(msg_id),
            BodyView::BroadcastOk { msg_id, .. } => Some(msg_id),
            BodyView::BroadcastGossip { msg_id, .. } => Some(msg_id),
            BodyView::Read { msg_id } => Some(msg_id),
            BodyView::ReadOk { msg_id, .. } => Some(msg_id),
            BodyView::Topology { msg_id, .. } => Some(msg_id),
            BodyView::TopologyOk { msg_id, .. } => Some(msg_id),
            BodyView::Add { msg_id, .. } => Some(msg_id),
            BodyView::AddOk { msg_id, .. } => Some(msg_id),
            BodyView::CounterGossip { msg_id, .. } => Some(msg_id),
            BodyView::Send { msg_id, .. } => Some(msg_id),
            BodyView::SendOk { msg_id, .. } => Some(msg_id),
            BodyView::Poll { msg_id, .. } => Some(msg_id),
            BodyView::PollOk { msg_id, .. } => Some(msg_id),
            BodyView::CommitOffsets { msg_id, .. } => Some(msg_id),
            BodyView::CommitOffsetsOk { msg_id, .. } => Some(msg_id),
            BodyView::ListCommittedOffsets { msg_id, .. } => Some(msg_id),
            BodyView::ListCommittedOffsetsOk { msg_id, .. } => Some(msg_id),
            BodyView::ForwardSend { msg_id, .. } => Some(msg_id),
            BodyView::Replicate { msg_id, .. } => Some(msg_id),
            BodyView::ReplicateOk { msg_id, .. } => Some(msg_id),
            BodyView::Txn { msg_id, .. } => Some(msg_id),
            BodyView::TxnOk { msg_id, .. } => Some(msg_id),
            BodyView::TarutReplicate { msg_id, .. } => Some(msg_id),
            BodyView::TarctReplicate { msg_id, .. } => Some(msg_id),
            BodyView::Error { msg_id, .. } => Some(msg_id),
            BodyView::Unknown => None,
        }
    }

    /// The identifier of the request that the body answers, where it answers
    /// one.
    pub open spec fn in_reply_to(self) -> Option<u64> {
        match self {
            BodyView::InitOk { in_reply_to, .. } => Some(in_reply_to),
            BodyView::EchoOk { in_reply_to, .. } => Some(in_reply_to),
            BodyView::GenerateOk { in_reply_to, .. } => Some(in_reply_to),
            BodyView::BroadcastOk { in_reply_to, .. } => Some(in_reply_to),
            BodyView::ReadOk { in_reply_to, .. } => Some(in_reply_to),
            BodyView::TopologyOk { in_reply_to, .. } => Some(in_reply_to),
            BodyView::AddOk { in_reply_to, .. } => Some(in_reply_to),
            BodyView::SendOk { in_reply_to, .. } => Some(in_reply_to),
            BodyView::PollOk { in_reply_to, .. } => Some(in_reply_to),
            BodyView::CommitOffsetsOk { in_reply_to, .. } => Some(in_reply_to),
            BodyView::ListCommittedOffsetsOk { in_reply_to, .. } => Some(in_reply_to),
            BodyView::ReplicateOk { in_reply_to, .. } => Some(in_reply_to),
            BodyView::TxnOk { in_reply_to, .. } => Some(in_reply_to),
            BodyView::Error { in_reply_to, .. } => Some(in_reply_to),
            _ => None,
        }
    }
}

impl View for MessageBody {
    type V = BodyView;

    open spec fn view(&self) -> BodyView {
        match *self {
            MessageBody::Init { msg_id, node_id, node_ids } => BodyView::Init {
                msg_id,
                node_id: node_id@,
                node_ids: names(node_ids@),
            },
            MessageBody::InitOk { msg_id, in_reply_to } => BodyView::InitOk { msg_id, in_reply_to },
            MessageBody::Echo { msg_id, echo } => BodyView::Echo { msg_id, echo: echo@ },
            MessageBody::EchoOk { msg_id, in_reply_to, echo } => BodyView::EchoOk {
                msg_id,
                in_reply_to,
                echo: echo@,
            },
            MessageBody::Generate { msg_id } => BodyView::Generate { msg_id },
            MessageBody::GenerateOk { msg_id, in_reply_to, id } => BodyView::GenerateOk {
                msg_id,
                in_reply_to,
                id,
            },
            MessageBody::Broadcast { msg_id, message } => BodyView::Broadcast { msg_id, message },
            MessageBody::BroadcastOk { msg_id, in_reply_to } => BodyView::BroadcastOk {
                msg_id,
                in_reply_to,
            },
            MessageBody::BroadcastGossip { msg_id, messages } => BodyView::BroadcastGossip {
                msg_id,
                messages: messages@,
            },
            MessageBody::Read { msg_id } => BodyView::Read { msg_id },
            MessageBody::ReadOk { msg_id, in_reply_to, messages, value } => BodyView::ReadOk {
                msg_id,
                in_reply_to,
                messages: opt_list_view(messages),
                value,
            },
            MessageBody::Topology { msg_id, topology } => BodyView::Topology {
                msg_id,
                topology: topology_view(topology.entries()),
            },
            MessageBody::TopologyOk { msg_id, in_reply_to } => BodyView::TopologyOk {
                msg_id,
                in_reply_to,
            },
            MessageBody::Add { msg_id, delta } => BodyView::Add { msg_id, delta },
            MessageBody::AddOk { msg_id, in_reply_to } => BodyView::AddOk { msg_id, in_reply_to },
            MessageBody::CounterGossip { msg_id, counters } => BodyView::CounterGossip {
                msg_id,
                counters: counters.entries(),
            },
            MessageBody::Send { msg_id, key, msg } => BodyView::Send { msg_id, key: key@, msg },
            MessageBody::SendOk { msg_id, in_reply_to, offset } => BodyView::SendOk {
                msg_id,
                in_reply_to,
                offset,
            },
            MessageBody::Poll { msg_id, offsets } => BodyView::Poll {
                msg_id,
                offsets: offsets.entries(),
            },
            MessageBody::PollOk { msg_id, in_reply_to, msgs } => BodyView::PollOk {
                msg_id,
                in_reply_to,
                msgs: polled_view(msgs.entries()),
            },
            MessageBody::CommitOffsets { msg_id, offsets } => BodyView::CommitOffsets {
                msg_id,
                offsets: offsets.entries(),
            },
            MessageBody::CommitOffsetsOk { msg_id, in_reply_to } => BodyView::CommitOffsetsOk {
                msg_id,
                in_reply_to,
            },
            MessageBody::ListCommittedOffsets { msg_id, keys } => BodyView::ListCommittedOffsets {
                msg_id,
                keys: names(keys@),
            },
            MessageBody::ListCommittedOffsetsOk {
                msg_id,
                in_reply_to,
                offsets,
            } => BodyView::ListCommittedOffsetsOk { msg_id, in_reply_to, offsets: offsets.entries() },
            MessageBody::ForwardSend {
                msg_id,
                orig_src,
                orig_msg_id,
                key,
                msg,
            } => BodyView::ForwardSend {
                msg_id,
                orig_src: orig_src@,
                orig_msg_id,
                key: key@,
                msg,
            },
            MessageBody::Replicate { msg_id, key, msg, offset } => BodyView::Replicate {
                msg_id,
                key: key@,
                msg,
                offset,
            },
            MessageBody::ReplicateOk { msg_id, in_reply_to, offset } => BodyView::ReplicateOk {
                msg_id,
                in_reply_to,
                offset,
            },
            MessageBody::Txn { msg_id, txn } => BodyView::Txn { msg_id, txn: ops_view(txn@) },
            MessageBody::TxnOk { msg_id, in_reply_to, txn } => BodyView::TxnOk {
                msg_id,
                in_reply_to,
                txn: ops_view(txn@),
            },
            MessageBody::TarutReplicate { msg_id, txn } => BodyView::TarutReplicate {
                msg_id,
                txn: ops_view(txn@),
            },
            MessageBody::TarctReplicate { msg_id, txn } => BodyView::TarctReplicate {
                msg_id,
                txn: versioned_ops_view(txn@),
            },
            MessageBody::Error { msg_id, in_reply_to, code, text, extra } => BodyView::Error {
                msg_id,
                in_reply_to,
                code,
                text: opt_text_view(text),
                extra,
            },
            MessageBody::Unknown => BodyView::Unknown,
        }
    }
}

/// What a message stands for.
pub struct MessageView {
    pub src: Name,
    pub dest: Name,
    pub body: BodyView,
}

impl View for Message {
    type V = MessageView;

    open spec fn view(&self) -> MessageView {
        MessageView { src: self.src@, dest: self.dest@, body: self.body@ }
    }
}

/// What a batch of messages stands for.
pub open spec fn batch_view(v: Seq<Message>) -> Seq<MessageView> {
    v.map_values(|m: Message| m@)
}

} // verus!

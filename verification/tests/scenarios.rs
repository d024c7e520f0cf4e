use maelstrom::grow_only_counter::GrowOnlyCounterNode;
use maelstrom::multi_node_broadcast::MultiNodeBroadcastNode;
use maelstrom::multi_node_kafka::KafkaNode;
use maelstrom::tarct::TarctNode;
use maelstrom::unique_ids::UniqueIdNode;
use maelstrom::{ErrorCode, Message, MessageBody, MessageHandler, Node, StrMap};

fn names(ids: &[&str]) -> Vec<String> {
    ids.iter().map(|id| id.to_string()).collect()
}

fn client_message(dest: &str, body: MessageBody) -> Message {
    Message { src: "c1".to_string(), dest: dest.to_string(), body }
}

#[test]
fn scenario_unique_id_smoke() {
    let mut handler = UniqueIdNode::default();
    let mut node = Node::new();
    let init = client_message(
        "n1",
        MessageBody::Init { msg_id: 0, node_id: "n1".to_string(), node_ids: names(&["n1"]) },
    );
    assert_eq!(handler.handle(&mut node, init).len(), 1);

    let first = handler.handle(&mut node, client_message("n1", MessageBody::Generate { msg_id: 1 }));
    let second = handler.handle(&mut node, client_message("n1", MessageBody::Generate { msg_id: 2 }));
    assert_eq!(first.len(), 1);
    assert_eq!(second.len(), 1);

    let mut ids = Vec::new();
    let mut answered = Vec::new();
    let mut numbers = Vec::new();
    for reply in first.iter().chain(second.iter()) {
        assert_eq!(reply.src, "n1");
        assert_eq!(reply.dest, "c1");
        match &reply.body {
            MessageBody::GenerateOk { msg_id, in_reply_to, id } => {
                ids.push(*id);
                answered.push(*in_reply_to);
                numbers.push(*msg_id);
            }
            _ => panic!("expected generate_ok"),
        }
    }
    assert_eq!(answered, vec![1, 2]);
    assert_ne!(ids[0], ids[1]);
    assert_eq!(numbers, vec![2, 3]);
}

#[test]
fn scenario_broadcast_convergence() {
    let ids = ["n1", "n2", "n3"];
    let mut handlers = Vec::new();
    let mut nodes = Vec::new();
    for id in ids {
        let mut handler = MultiNodeBroadcastNode::new();
        let mut node = Node::new();
        let init = client_message(
            id,
            MessageBody::Init { msg_id: 1, node_id: id.to_string(), node_ids: names(&ids) },
        );
        let replies = handler.handle(&mut node, init);
        assert_eq!(replies.len(), 1);
        assert_eq!(handler.gossip_peers.len(), 2);
        handlers.push(handler);
        nodes.push(node);
    }

    let broadcast = Message {
        src: "c".to_string(),
        dest: "n1".to_string(),
        body: MessageBody::Broadcast { msg_id: 10, message: 42 },
    };
    let replies = handlers[0].handle(&mut nodes[0], broadcast);
    assert_eq!(replies.len(), 1);
    assert_eq!(replies[0].dest, "c");
    match &replies[0].body {
        MessageBody::BroadcastOk { in_reply_to, .. } => assert_eq!(*in_reply_to, 10),
        _ => panic!("expected broadcast_ok"),
    }

    for _ in 0..3 {
        let mut in_flight = Vec::new();
        for i in 0..3 {
            in_flight.extend(handlers[i].gossip(&mut nodes[i]));
        }
        for message in in_flight {
            let at = ids.iter().position(|id| *id == message.dest).unwrap();
            let replies = handlers[at].handle(&mut nodes[at], message);
            assert_eq!(replies.len(), 0);
        }
    }

    for i in 1..3 {
        let read = client_message(ids[i], MessageBody::Read { msg_id: 20 });
        let replies = handlers[i].handle(&mut nodes[i], read);
        assert_eq!(replies.len(), 1);
        match &replies[0].body {
            MessageBody::ReadOk { messages, value, in_reply_to, .. } => {
                assert_eq!(*in_reply_to, 20);
                assert_eq!(messages.as_ref().unwrap(), &vec![42]);
                assert_eq!(*value, None);
            }
            _ => panic!("expected read_ok"),
        }
    }
}

#[test]
fn scenario_counter_gossip() {
    let ids = ["n1", "n2"];
    let mut handlers = Vec::new();
    let mut nodes = Vec::new();
    for id in ids {
        let mut handler = GrowOnlyCounterNode::new();
        let mut node = Node::new();
        let init = client_message(
            id,
            MessageBody::Init { msg_id: 1, node_id: id.to_string(), node_ids: names(&ids) },
        );
        assert_eq!(handler.handle(&mut node, init).len(), 1);
        handlers.push(handler);
        nodes.push(node);
    }
    let added = handlers[0].handle(&mut nodes[0], client_message("n1", MessageBody::Add { msg_id: 2, delta: 5 }));
    assert!(matches!(added[0].body, MessageBody::AddOk { in_reply_to: 2, .. }));
    let added = handlers[1].handle(&mut nodes[1], client_message("n2", MessageBody::Add { msg_id: 3, delta: 7 }));
    assert!(matches!(added[0].body, MessageBody::AddOk { in_reply_to: 3, .. }));

    for _ in 0..2 {
        let mut in_flight = Vec::new();
        for i in 0..2 {
            let sent = handlers[i].gossip(&mut nodes[i]);
            assert_eq!(sent.len(), 1);
            in_flight.extend(sent);
        }
        for message in in_flight {
            let at = ids.iter().position(|id| *id == message.dest).unwrap();
            assert_eq!(handlers[at].handle(&mut nodes[at], message).len(), 0);
        }
    }

    for i in 0..2 {
        let replies = handlers[i].handle(&mut nodes[i], client_message(ids[i], MessageBody::Read { msg_id: 9 }));
        assert_eq!(replies.len(), 1);
        match &replies[0].body {
            MessageBody::ReadOk { value, messages, .. } => {
                assert_eq!(*value, Some(12));
                assert!(messages.is_none());
            }
            _ => panic!("expected read_ok"),
        }
    }
}

#[test]
fn scenario_kafka_quorum() {
    let ids = ["n1", "n2", "n3"];
    let mut leader = KafkaNode::new();
    let mut leader_node = Node::new();
    leader.handle_init(&mut leader_node, "n1".to_string(), names(&ids));
    let mut follower = KafkaNode::new();
    let mut follower_node = Node::new();
    follower.handle_init(&mut follower_node, "n2".to_string(), names(&ids));
    assert_eq!(leader.leader, "n1");
    assert_eq!(follower.leader, "n1");

    let send = client_message(
        "n2",
        MessageBody::Send { msg_id: 1, key: "k".to_string(), msg: 99 },
    );
    let forwarded = follower.handle(&mut follower_node, send);
    assert_eq!(forwarded.len(), 1);
    assert_eq!(forwarded[0].src, "n2");
    assert_eq!(forwarded[0].dest, "n1");
    match &forwarded[0].body {
        MessageBody::ForwardSend { orig_src, orig_msg_id, key, msg, .. } => {
            assert_eq!(orig_src, "c1");
            assert_eq!(*orig_msg_id, 1);
            assert_eq!(key, "k");
            assert_eq!(*msg, 99);
        }
        _ => panic!("expected forward_send"),
    }

    let copies = leader.handle(&mut leader_node, forwarded[0].clone());
    assert_eq!(copies.len(), 2);
    assert_eq!(copies[0].dest, "n2");
    assert_eq!(copies[1].dest, "n3");
    for copy in &copies {
        match &copy.body {
            MessageBody::Replicate { key, msg, offset, .. } => {
                assert_eq!(key, "k");
                assert_eq!(*msg, 99);
                assert_eq!(*offset, 0);
            }
            _ => panic!("expected replicate"),
        }
    }

    let acks = follower.handle(&mut follower_node, copies[0].clone());
    assert_eq!(acks.len(), 1);
    assert_eq!(acks[0].dest, "n1");
    assert!(matches!(acks[0].body, MessageBody::ReplicateOk { offset: 0, .. }));

    let answer = leader.handle(&mut leader_node, acks[0].clone());
    assert_eq!(answer.len(), 1);
    assert_eq!(answer[0].dest, "c1");
    match &answer[0].body {
        MessageBody::SendOk { in_reply_to, offset, .. } => {
            assert_eq!(*in_reply_to, 1);
            assert_eq!(*offset, 0);
        }
        _ => panic!("expected send_ok"),
    }
    assert_eq!(leader.pendings.len(), 0);

    let mut from = StrMap::new();
    from.insert("k".to_string(), 0);
    let polled = follower.logs.poll(&from);
    assert_eq!(polled.get("k"), Some(&vec![(0, 99)]));
    let polled = leader.logs.poll(&from);
    assert_eq!(polled.get("k"), Some(&vec![(0, 99)]));
}

#[test]
fn scenario_tarct_commit_after_replicate() {
    let mut handler = TarctNode::new();
    let mut node = Node::new();
    node.handle_init("n1".to_string(), names(&["n1", "n2"]));

    let replicate = Message {
        src: "n2".to_string(),
        dest: "n1".to_string(),
        body: MessageBody::TarctReplicate { msg_id: 3, txn: vec![("w".to_string(), 1, Some(100), 5)] },
    };
    assert_eq!(handler.handle(&mut node, replicate).len(), 0);
    assert_eq!(handler.kv.get(&1), Some(100));
    assert_eq!(handler.kv.version(&1), 5);
    assert!(handler.commit_ts >= 5);
    let clock = handler.commit_ts;

    let txn = client_message(
        "n1",
        MessageBody::Txn {
            msg_id: 7,
            txn: vec![("r".to_string(), 1, None), ("w".to_string(), 1, Some(200))],
        },
    );
    let out = handler.handle(&mut node, txn);
    assert_eq!(out.len(), 2);
    assert_eq!(out[0].dest, "n2");
    match &out[0].body {
        MessageBody::TarctReplicate { txn, .. } => {
            assert_eq!(txn, &vec![("w".to_string(), 1, Some(200), clock + 1)]);
        }
        _ => panic!("expected tarct_replicate"),
    }
    assert_eq!(out[1].dest, "c1");
    match &out[1].body {
        MessageBody::TxnOk { in_reply_to, txn, .. } => {
            assert_eq!(*in_reply_to, 7);
            assert_eq!(
                txn,
                &vec![("r".to_string(), 1, Some(100)), ("w".to_string(), 1, Some(200))]
            );
        }
        _ => panic!("expected txn_ok"),
    }
    assert_eq!(handler.commit_ts, clock + 1);
    assert_eq!(handler.kv.version(&1), clock + 1);
    assert_eq!(handler.kv.get(&1), Some(200));
}

#[test]
fn scenario_tarct_conflict_between_read_and_commit() {
    let mut handler = TarctNode::new();
    let mut node = Node::new();
    node.handle_init("n1".to_string(), names(&["n1", "n2"]));
    handler.kv.apply(1, Some(100), 5);
    handler.commit_ts = 5;

    let staged = handler.stage(&vec![("r".to_string(), 1, None), ("w".to_string(), 1, Some(200))]);
    assert_eq!(staged.read_set, vec![(1, 5)]);
    assert_eq!(staged.write_set, vec![(1, Some(200))]);

    let replicate = Message {
        src: "n2".to_string(),
        dest: "n1".to_string(),
        body: MessageBody::TarctReplicate { msg_id: 3, txn: vec![("w".to_string(), 1, Some(300), 8)] },
    };
    assert_eq!(handler.handle(&mut node, replicate).len(), 0);

    let out = handler.commit(&mut node, "c1".to_string(), 7, staged);
    assert_eq!(out.len(), 1);
    assert_eq!(out[0].src, "n1");
    assert_eq!(out[0].dest, "c1");
    match &out[0].body {
        MessageBody::Error { in_reply_to, code, text, extra, .. } => {
            assert_eq!(*in_reply_to, 7);
            assert_eq!(*code, ErrorCode::TxnConflict);
            assert_eq!(code.code(), 30);
            assert_eq!(text.as_deref(), Some("Transaction aborted. Conflict detected"));
            assert!(extra.is_none());
        }
        _ => panic!("expected error"),
    }
    assert_eq!(handler.kv.get(&1), Some(300));
    assert_eq!(handler.kv.version(&1), 8);
    assert_eq!(handler.commit_ts, 8);
}

#[test]
fn scenario_log_poll_bounds() {
    let mut handler = maelstrom::single_node_kafka::KafkaNode::new();
    let mut node = Node::new();
    node.handle_init("n1".to_string(), names(&["n1"]));
    let values = [11u64, 22, 33];
    for (i, value) in values.iter().enumerate() {
        let send = client_message(
            "n1",
            MessageBody::Send { msg_id: i as u64, key: "k".to_string(), msg: *value },
        );
        let replies = handler.handle(&mut node, send);
        match &replies[0].body {
            MessageBody::SendOk { offset, .. } => assert_eq!(*offset, i as u64),
            _ => panic!("expected send_ok"),
        }
    }

    let mut from_one = StrMap::new();
    from_one.insert("k".to_string(), 1);
    let replies = handler.handle(&mut node, client_message("n1", MessageBody::Poll { msg_id: 10, offsets: from_one }));
    match &replies[0].body {
        MessageBody::PollOk { msgs, .. } => {
            assert_eq!(msgs.len(), 1);
            assert_eq!(msgs.get("k"), Some(&vec![(1, 22), (2, 33)]));
        }
        _ => panic!("expected poll_ok"),
    }

    let mut from_three = StrMap::new();
    from_three.insert("k".to_string(), 3);
    from_three.insert("absent".to_string(), 0);
    let replies = handler.handle(&mut node, client_message("n1", MessageBody::Poll { msg_id: 11, offsets: from_three }));
    match &replies[0].body {
        MessageBody::PollOk { msgs, .. } => {
            assert_eq!(msgs.len(), 1);
            assert_eq!(msgs.get("k"), Some(&Vec::new()));
            assert!(!msgs.contains_key("absent"));
        }
        _ => panic!("expected poll_ok"),
    }
}

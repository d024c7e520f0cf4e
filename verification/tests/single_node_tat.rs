use maelstrom::{Message, MessageBody, MessageHandler, Node};

#[test]
fn test_tat_node_new() {
    let node = maelstrom::single_node_tat::TatNode::new();
    assert!(node.entries.is_empty());
}

#[test]
fn test_tat_node_default() {
    let node = maelstrom::single_node_tat::TatNode::default();
    assert!(node.entries.is_empty());
}

#[test]
fn test_process_txn_read_nonexistent_key() {
    let mut node = maelstrom::single_node_tat::TatNode::new();
    let txn = vec![("r".to_string(), 1, None)];
    let results = node.process_txn(txn);

    assert_eq!(results.len(), 1);
    assert_eq!(results[0], ("r".to_string(), 1, None));
}

#[test]
fn test_process_txn_write_operation() {
    let mut node = maelstrom::single_node_tat::TatNode::new();
    let txn = vec![("w".to_string(), 1, Some(42))];
    let results = node.process_txn(txn);

    assert_eq!(results.len(), 1);
    assert_eq!(results[0], ("w".to_string(), 1, Some(42)));
    assert_eq!(node.entries.get(&1), Some(&Some(42)));
}

#[test]
fn test_process_txn_write_then_read() {
    let mut node = maelstrom::single_node_tat::TatNode::new();
    let txn = vec![
        ("w".to_string(), 1, Some(42)),
        ("r".to_string(), 1, None),
    ];
    let results = node.process_txn(txn);

    assert_eq!(results.len(), 2);
    assert_eq!(results[0], ("w".to_string(), 1, Some(42)));
    assert_eq!(results[1], ("r".to_string(), 1, Some(42)));
}

#[test]
fn test_process_txn_write_null_value() {
    let mut node = maelstrom::single_node_tat::TatNode::new();
    let txn = vec![("w".to_string(), 1, None)];
    let results = node.process_txn(txn);

    assert_eq!(results.len(), 1);
    assert_eq!(results[0], ("w".to_string(), 1, None));
    assert_eq!(node.entries.get(&1), Some(&None));
}

#[test]
fn test_process_txn_overwrite_value() {
    let mut node = maelstrom::single_node_tat::TatNode::new();
    let txn = vec![
        ("w".to_string(), 1, Some(42)),
        ("w".to_string(), 1, Some(99)),
        ("r".to_string(), 1, None),
    ];
    let results = node.process_txn(txn);

    assert_eq!(results.len(), 3);
    assert_eq!(results[0], ("w".to_string(), 1, Some(42)));
    assert_eq!(results[1], ("w".to_string(), 1, Some(99)));
    assert_eq!(results[2], ("r".to_string(), 1, Some(99)));
}

#[test]
fn test_process_txn_multiple_keys() {
    let mut node = maelstrom::single_node_tat::TatNode::new();
    let txn = vec![
        ("w".to_string(), 1, Some(10)),
        ("w".to_string(), 2, Some(20)),
        ("r".to_string(), 1, None),
        ("r".to_string(), 2, None),
        ("r".to_string(), 3, None),
    ];
    let results = node.process_txn(txn);

    assert_eq!(results.len(), 5);
    assert_eq!(results[0], ("w".to_string(), 1, Some(10)));
    assert_eq!(results[1], ("w".to_string(), 2, Some(20)));
    assert_eq!(results[2], ("r".to_string(), 1, Some(10)));
    assert_eq!(results[3], ("r".to_string(), 2, Some(20)));
    assert_eq!(results[4], ("r".to_string(), 3, None));
}

#[test]
fn test_handle_init_message() {
    let mut handler = maelstrom::single_node_tat::TatNode::new();
    let mut node = Node::new();

    let init_message = Message {
        src: "c1".to_string(),
        dest: "n1".to_string(),
        body: MessageBody::Init {
            msg_id: 1,
            node_id: "n1".to_string(),
            node_ids: vec!["n1".to_string(), "n2".to_string()],
        },
    };

    let responses = handler.handle(&mut node, init_message);

    assert_eq!(responses.len(), 1);
    assert_eq!(responses[0].src, "n1");
    assert_eq!(responses[0].dest, "c1");
    if let MessageBody::InitOk { in_reply_to, .. } = &responses[0].body {
        assert_eq!(*in_reply_to, 1);
    } else {
        panic!("Expected InitOk message body");
    }
}

#[test]
fn test_handle_txn_message() {
    let mut handler = maelstrom::single_node_tat::TatNode::new();
    let mut node = Node::new();

    // Initialize the node first
    node.handle_init("n1".to_string(), vec!["n1".to_string(), "n2".to_string()]);

    let txn_message = Message {
        src: "c1".to_string(),
        dest: "n1".to_string(),
        body: MessageBody::Txn {
            msg_id: 1,
            txn: vec![
                ("w".to_string(), 1, Some(42)),
                ("r".to_string(), 1, None),
            ],
        },
    };

    let responses = handler.handle(&mut node, txn_message);

    assert_eq!(responses.len(), 1);
    assert_eq!(responses[0].src, "n1");
    assert_eq!(responses[0].dest, "c1");
    if let MessageBody::TxnOk { in_reply_to, txn, .. } = &responses[0].body {
        assert_eq!(*in_reply_to, 1);
        assert_eq!(txn.len(), 2);
        assert_eq!(txn[0], ("w".to_string(), 1, Some(42)));
        assert_eq!(txn[1], ("r".to_string(), 1, Some(42)));
    } else {
        panic!("Expected TxnOk message body");
    }
}

#[test]
fn test_handle_unknown_message() {
    let mut handler = maelstrom::single_node_tat::TatNode::new();
    let mut node = Node::new();

    let echo_message = Message {
        src: "c1".to_string(),
        dest: "n1".to_string(),
        body: MessageBody::Echo {
            msg_id: 1,
            echo: "test".to_string(),
        },
    };

    let responses = handler.handle(&mut node, echo_message);
    assert_eq!(responses.len(), 0);
}

use maelstrom::{Message, MessageBody, MessageHandler, Node};

#[test]
fn test_unique_id_node_handles_init_message() {
    let mut handler = maelstrom::unique_ids::UniqueIdNode::default();
    let mut node = Node::new();

    let init_message = Message {
        src: "c1".to_string(),
        dest: "n1".to_string(),
        body: MessageBody::Init {
            msg_id: 1,
            node_id: "n1".to_string(),
            node_ids: vec!["n1".to_string(), "n2".to_string(), "n3".to_string()],
        },
    };

    let responses = handler.handle(&mut node, init_message);

    assert_eq!(responses.len(), 1);
    assert_eq!(responses[0].src, "n1");
    assert_eq!(responses[0].dest, "c1");

    match &responses[0].body {
        MessageBody::InitOk {
            msg_id: _,
            in_reply_to,
        } => {
            assert_eq!(in_reply_to, &1);
        }
        _ => panic!("Expected InitOk message"),
    }

    // Verify node state was updated
    assert_eq!(node.id, "n1");
    assert_eq!(node.peers, vec!["n2", "n3"]);
}

#[test]
fn test_unique_id_node_ignores_unknown_messages() {
    let mut handler = maelstrom::unique_ids::UniqueIdNode::default();
    let mut node = Node::new();

    let unknown_message = Message {
        src: "c1".to_string(),
        dest: "n1".to_string(),
        body: MessageBody::Echo {
            msg_id: 1,
            echo: "test".to_string(),
        },
    };

    let responses = handler.handle(&mut node, unknown_message);

    assert_eq!(responses.len(), 0);
}

#[test]
fn test_unique_id_node_generates_unique_ids_for_many_requests() {
    let mut handler = maelstrom::unique_ids::UniqueIdNode::default();
    let mut node = Node::new();

    // Initialize node first
    node.handle_init("n1".to_string(), vec!["n1".to_string()]);

    let mut generated_ids = std::collections::HashSet::new();

    // Send 100 generate messages and collect all unique IDs
    for i in 0..100 {
        let generate_message = Message {
            src: "c1".to_string(),
            dest: "n1".to_string(),
            body: MessageBody::Generate { msg_id: i },
        };

        let responses = handler.handle(&mut node, generate_message);
        assert_eq!(responses.len(), 1);

        match &responses[0].body {
            MessageBody::GenerateOk {
                msg_id: _,
                in_reply_to,
                id,
            } => {
                assert_eq!(in_reply_to, &i);
                // Insert the ID into the set - if it's not unique, insert will return false
                assert!(generated_ids.insert(*id), "Generated non-unique ID: {id}");
            }
            _ => panic!("Expected GenerateOk message"),
        }
    }

    // Verify we have exactly 100 unique IDs
    assert_eq!(generated_ids.len(), 100);
}

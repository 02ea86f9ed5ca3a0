use siput_core::chain::block::Block;
use siput_core::chain::transaction::Transaction;
use siput_core::events::{Event, EventType, NodeStatus, TransactionStatus};

fn check_id(e: &Event) {
    let (ts, uuid) = e.id.split_once('_').unwrap();
    assert_eq!(ts, e.timestamp.to_string());
    assert_eq!(uuid.len(), 32);
    assert!(uuid.chars().all(|c| c.is_ascii_hexdigit()));
}

#[test]
fn event_constructors_and_routing_names() {
    let tx = Transaction::new([1; 20], [2; 20], 5, 0, 21000, 1);
    let block = Block::default();
    let cases: Vec<(Event, &str)> = vec![
        (Event::new_block(block.clone(), 3, "n".to_string()), "new_block"),
        (Event::new_transaction(tx, TransactionStatus::Pending, "n".to_string()), "new_transaction"),
        (
            Event::contract_event([3; 20], "Transfer".to_string(), vec![1], [4; 32], "ab".to_string(), "n".to_string()),
            "contract_event",
        ),
        (Event::peer_connected("p".to_string(), "addr".to_string(), "n".to_string()), "peer_connected"),
        (Event::peer_disconnected("p".to_string(), None, "n".to_string()), "peer_disconnected"),
        (Event::node_status_changed(NodeStatus::Running, "n".to_string()), "node_status"),
        (Event::new_block_created(block, 4, "n".to_string()), "block_created"),
        (Event::new_transaction_confirmed(tx, [5; 32], "n".to_string()), "transaction_confirmed"),
        (Event::new_contract_executed([3; 20], "m".to_string(), vec![], 7, "n".to_string()), "contract_executed"),
        (Event::new_custom("my_event".to_string(), serde_json::Value::Null, "n".to_string()), "my_event"),
    ];
    for (event, name) in &cases {
        assert_eq!(event.event_type_string(), *name);
        assert_eq!(event.source_node, "n");
        check_id(event);
    }
    match &cases[7].0.event_type {
        EventType::TransactionConfirmed { block_height, block_hash, .. } => {
            assert_eq!(*block_height, 0);
            assert_eq!(*block_hash, [5; 32]);
        },
        _ => panic!("a confirmation event"),
    }
}

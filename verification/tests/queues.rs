use synap_server::error::SynapError;
use synap_server::queue::{Queue, QueueConfig, QueueManager, QueueMessage};

#[test]
fn test_queue_publish_consume() {
    let mut manager = QueueManager::new(QueueConfig::default());
    manager.create_queue("test_queue", None).unwrap();
    let msg_id = manager.publish("test_queue", b"Hello".to_vec(), None, None).unwrap();
    assert!(!msg_id.is_empty());
    let message = manager.consume("test_queue", "consumer1").unwrap();
    assert!(message.is_some());
    assert_eq!(message.unwrap().payload, b"Hello");
}

#[test]
fn test_queue_priority() {
    let mut manager = QueueManager::new(QueueConfig::default());
    manager.create_queue("priority_queue", None).unwrap();
    manager.publish("priority_queue", b"Low".to_vec(), Some(1), None).unwrap();
    manager.publish("priority_queue", b"High".to_vec(), Some(9), None).unwrap();
    manager.publish("priority_queue", b"Medium".to_vec(), Some(5), None).unwrap();

    let msg1 = manager.consume("priority_queue", "c1").unwrap().unwrap();
    assert_eq!(msg1.payload, b"High");
    assert_eq!(msg1.priority, 9);
    let msg2 = manager.consume("priority_queue", "c1").unwrap().unwrap();
    assert_eq!(msg2.payload, b"Medium");
    assert_eq!(msg2.priority, 5);
    let msg3 = manager.consume("priority_queue", "c1").unwrap().unwrap();
    assert_eq!(msg3.payload, b"Low");
    assert_eq!(msg3.priority, 1);
}

#[test]
fn test_queue_ack_nack() {
    let mut manager = QueueManager::new(QueueConfig::default());
    manager.create_queue("ack_queue", None).unwrap();
    let msg_id = manager.publish("ack_queue", b"Test".to_vec(), None, None).unwrap();
    let message = manager.consume("ack_queue", "c1").unwrap().unwrap();
    assert_eq!(message.id, msg_id);
    assert!(manager.ack("ack_queue", &msg_id).is_ok());
    assert!(manager.ack("ack_queue", &msg_id).is_err());
}

#[test]
fn test_queue_nack_requeue() {
    let mut manager = QueueManager::new(QueueConfig::default());
    manager.create_queue("nack_queue", None).unwrap();
    let msg_id = manager.publish("nack_queue", b"Test".to_vec(), None, Some(2)).unwrap();
    manager.consume("nack_queue", "c1").unwrap();
    manager.nack("nack_queue", &msg_id, true).unwrap();
    let message = manager.consume("nack_queue", "c1").unwrap().unwrap();
    assert_eq!(message.id, msg_id);
    assert_eq!(message.retry_count, 1);
}

#[test]
fn test_queue_dead_letter() {
    let mut manager = QueueManager::new(QueueConfig::default());
    manager.create_queue("dlq_queue", None).unwrap();
    let msg_id = manager.publish("dlq_queue", b"Test".to_vec(), None, Some(0)).unwrap();
    let message = manager.consume("dlq_queue", "c1").unwrap();
    assert!(message.is_some());
    manager.nack("dlq_queue", &msg_id, true).unwrap();
    let stats = manager.stats("dlq_queue").unwrap();
    assert_eq!(stats.depth, 0);
    assert_eq!(stats.dead_lettered, 1);
    assert_eq!(stats.nacked, 1);
    assert!(manager.consume("dlq_queue", "c1").unwrap().is_none());
}

#[test]
fn test_queue_stats() {
    let mut manager = QueueManager::new(QueueConfig::default());
    manager.create_queue("stats_queue", None).unwrap();
    for i in 0..5 {
        manager.publish("stats_queue", format!("msg{}", i).into_bytes(), None, None).unwrap();
    }
    let stats = manager.stats("stats_queue").unwrap();
    assert_eq!(stats.depth, 5);
    assert_eq!(stats.published, 5);
}

#[test]
fn test_queue_purge() {
    let mut manager = QueueManager::new(QueueConfig::default());
    manager.create_queue("purge_queue", None).unwrap();
    for i in 0..10 {
        manager.publish("purge_queue", format!("msg{}", i).into_bytes(), None, None).unwrap();
    }
    assert_eq!(manager.purge("purge_queue").unwrap(), 10);
    assert_eq!(manager.stats("purge_queue").unwrap().depth, 0);
}

#[test]
fn test_list_queues() {
    let mut manager = QueueManager::new(QueueConfig::default());
    manager.create_queue("queue1", None).unwrap();
    manager.create_queue("queue2", None).unwrap();
    manager.create_queue("queue3", None).unwrap();
    let queues = manager.list_queues();
    assert_eq!(queues.len(), 3);
    assert!(queues.contains(&"queue1".to_string()));
    assert!(queues.contains(&"queue2".to_string()));
    assert!(queues.contains(&"queue3".to_string()));
}

#[test]
fn test_delete_queue() {
    let mut manager = QueueManager::new(QueueConfig::default());
    manager.create_queue("temp_queue", None).unwrap();
    assert!(manager.delete_queue("temp_queue").unwrap());
    assert!(!manager.delete_queue("temp_queue").unwrap());
}

#[test]
fn unknown_queue_and_full_queue_errors() {
    let mut manager = QueueManager::new(QueueConfig { max_depth: 1, ..QueueConfig::default() });
    assert!(matches!(manager.publish("nope", vec![1], None, None), Err(SynapError::QueueNotFound(ref n)) if n == "nope"));
    manager.create_queue("tiny", None).unwrap();
    manager.publish("tiny", vec![1], None, None).unwrap();
    assert!(matches!(manager.publish("tiny", vec![2], None, None), Err(SynapError::QueueFull(ref n)) if n == "tiny"));
    assert!(matches!(manager.ack("tiny", "missing"), Err(SynapError::MessageNotFound(ref m)) if m == "missing"));
}

#[test]
fn expired_deliveries_are_requeued() {
    let mut q = Queue::new("q".to_string(), QueueConfig::default());
    let m = QueueMessage::new_with("m1".to_string(), vec![7], 3, 5, 0);
    q.publish(m).unwrap();
    let got = q.consume_at("c".to_string(), 100).unwrap();
    assert_eq!(got.id, "m1");
    q.check_expired_pending_at(129);
    assert!(q.waiting().is_empty());
    q.check_expired_pending_at(130);
    let back = q.waiting();
    assert_eq!(back.len(), 1);
    assert_eq!(back[0].retry_count, 1);
    assert_eq!(q.stats().nacked, 1);
}

#[test]
fn equal_priorities_keep_arrival_order() {
    let mut q = Queue::new("q".to_string(), QueueConfig::default());
    q.publish(QueueMessage::new_with("a".to_string(), vec![], 5, 0, 0)).unwrap();
    q.publish(QueueMessage::new_with("b".to_string(), vec![], 5, 0, 0)).unwrap();
    q.publish(QueueMessage::new_with("c".to_string(), vec![], 7, 0, 0)).unwrap();
    q.publish(QueueMessage::new_with("d".to_string(), vec![], 42, 0, 0)).unwrap();
    let ids: Vec<String> = q.waiting().into_iter().map(|m| m.id).collect();
    assert_eq!(ids, vec!["d".to_string(), "c".to_string(), "a".to_string(), "b".to_string()]);
}

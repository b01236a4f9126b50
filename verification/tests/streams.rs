use synap_server::stream::{Room, StreamConfig, StreamEvent, StreamManager};

#[test]
fn test_stream_create_room() {
    let mut manager = StreamManager::new(StreamConfig::default());
    manager.create_room("test-room").unwrap();
    let rooms = manager.list_rooms();
    assert_eq!(rooms.len(), 1);
    assert!(rooms.contains(&"test-room".to_string()));
}

#[test]
fn test_stream_publish_consume() {
    let mut manager = StreamManager::new(StreamConfig::default());
    manager.create_room("chat").unwrap();
    let offset1 = manager.publish("chat", "message", b"Hello".to_vec()).unwrap();
    let offset2 = manager.publish("chat", "message", b"World".to_vec()).unwrap();
    assert_eq!(offset1, 0);
    assert_eq!(offset2, 1);
    let events = manager.consume("chat", "subscriber1", 0, 10).unwrap();
    assert_eq!(events.len(), 2);
    assert_eq!(events[0].data, b"Hello");
    assert_eq!(events[1].data, b"World");
    assert_eq!(events[0].offset, 0);
    assert_eq!(events[1].offset, 1);
}

#[test]
fn test_stream_offset_tracking() {
    let mut manager = StreamManager::new(StreamConfig::default());
    manager.create_room("events").unwrap();
    for i in 0..5 {
        manager.publish("events", "update", format!("event_{}", i).into_bytes()).unwrap();
    }
    let events = manager.consume("events", "sub1", 2, 10).unwrap();
    assert_eq!(events.len(), 3);
    assert_eq!(events[0].offset, 2);
    let events = manager.consume("events", "sub2", 4, 10).unwrap();
    assert_eq!(events.len(), 1);
    assert_eq!(events[0].offset, 4);
}

#[test]
fn test_stream_ring_buffer_overflow() {
    let mut config = StreamConfig::default();
    config.max_buffer_size = 5;
    let mut manager = StreamManager::new(config);
    manager.create_room("limited").unwrap();
    for i in 0..10 {
        manager.publish("limited", "msg", vec![i]).unwrap();
    }
    let stats = manager.room_stats("limited").unwrap();
    assert_eq!(stats.message_count, 5);
    assert_eq!(stats.min_offset, 5);
    assert_eq!(stats.max_offset, 9);
    let events = manager.consume("limited", "sub", 5, 10).unwrap();
    assert_eq!(events.len(), 5);
    assert_eq!(events[0].offset, 5);
    assert_eq!(events[4].offset, 9);
}

#[test]
fn test_stream_multiple_subscribers() {
    let mut manager = StreamManager::new(StreamConfig::default());
    manager.create_room("broadcast").unwrap();
    for i in 0..5 {
        manager.publish("broadcast", "event", vec![i]).unwrap();
    }
    let events1 = manager.consume("broadcast", "sub1", 0, 10).unwrap();
    let events2 = manager.consume("broadcast", "sub2", 3, 10).unwrap();
    let events3 = manager.consume("broadcast", "sub3", 5, 10).unwrap();
    assert_eq!(events1.len(), 5);
    assert_eq!(events2.len(), 2);
    assert_eq!(events3.len(), 0);
    let stats = manager.room_stats("broadcast").unwrap();
    assert_eq!(stats.subscriber_count, 3);
}

#[test]
fn rooms_are_named_once_and_errors_name_them() {
    let mut manager = StreamManager::new(StreamConfig::default());
    manager.create_room("r").unwrap();
    assert_eq!(manager.create_room("r").unwrap_err(), "Room 'r' already exists");
    assert_eq!(manager.publish("x", "e", vec![]).unwrap_err(), "Room 'x' not found");
    assert_eq!(manager.consume("x", "s", 0, 1).unwrap_err(), "Room 'x' not found");
    assert!(manager.room_stats("x").is_err());
    manager.delete_room("r").unwrap();
    assert_eq!(manager.delete_room("r").unwrap_err(), "Room 'r' not found");
    assert!(manager.list_rooms().is_empty());
}

#[test]
fn consume_limit_and_publication_counters() {
    let mut manager = StreamManager::new(StreamConfig::default());
    manager.create_room("c").unwrap();
    for i in 0..6u8 {
        manager.publish_at("c", "e", vec![i], format!("id-{}", i), 100 + i as u64).unwrap();
    }
    let events = manager.consume("c", "s", 1, 3).unwrap();
    let offsets: Vec<u64> = events.iter().map(|e| e.offset).collect();
    assert_eq!(offsets, vec![1, 2, 3]);
    assert_eq!(events[0].id, "id-1");
    assert_eq!(events[0].timestamp, 101);
    let stats = manager.room_stats("c").unwrap();
    assert_eq!(stats.total_published, 6);
    assert_eq!(stats.total_consumed, 3);
    assert_eq!(stats.max_offset, 5);
}

#[test]
fn compaction_drops_events_past_retention() {
    let config = StreamConfig { max_buffer_size: 100, retention_secs: 10, auto_compact: true, compact_interval_secs: 60 };
    let mut room = Room::new("r".to_string(), config);
    for t in [100u64, 105, 111, 120] {
        room.publish(StreamEvent::new_with(format!("e{}", t), "r".to_string(), "e".to_string(), vec![], t));
    }
    // At 120 the cutoff is 110: events of 100 and 105 go.
    room.compact_at(120);
    let stats = room.stats();
    assert_eq!(stats.message_count, 2);
    let events = room.consume("s", 0, 10);
    let offsets: Vec<u64> = events.iter().map(|e| e.offset).collect();
    assert_eq!(offsets, vec![2, 3]);

    let quiet = StreamConfig { auto_compact: false, ..config };
    let mut keep = Room::new("k".to_string(), quiet);
    keep.publish(StreamEvent::new_with("a".to_string(), "k".to_string(), "e".to_string(), vec![], 1));
    keep.compact_at(1_000_000);
    assert_eq!(keep.consume("s", 0, 10).len(), 1);
}

#[test]
fn mixed_compaction_keeps_order() {
    let mut manager = StreamManager::new(StreamConfig { max_buffer_size: 10, retention_secs: 5, auto_compact: true, compact_interval_secs: 1 });
    manager.create_room("a").unwrap();
    manager.publish_at("a", "e", vec![1], "1".to_string(), 50).unwrap();
    manager.publish_at("a", "e", vec![2], "2".to_string(), 10).unwrap();
    manager.publish_at("a", "e", vec![3], "3".to_string(), 60).unwrap();
    manager.compact_all_at(61);
    let events = manager.consume("a", "s", 0, 10).unwrap();
    let data: Vec<Vec<u8>> = events.iter().map(|e| e.data.clone()).collect();
    assert_eq!(data, vec![vec![3]]);
}

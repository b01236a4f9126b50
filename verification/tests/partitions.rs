use synap_server::partition::{PartitionConfig, PartitionEvent, PartitionedTopic, Partition, RetentionPolicy};

fn event(data: Vec<u8>, key: Option<Vec<u8>>, ts: u64) -> PartitionEvent {
    PartitionEvent::new_with("id".to_string(), "t".to_string(), "e".to_string(), key, data, ts)
}

#[test]
fn event_size_counts_payload_key_topic_and_type() {
    let e = PartitionEvent::new("topic".to_string(), "type".to_string(), Some(b"key".to_vec()), b"data".to_vec());
    assert_eq!(e.size_bytes, 4 + 3 + 5 + 4);
    assert_eq!(e.id.len(), 36);
    assert_eq!(e.offset, 0);
}

#[test]
fn append_assigns_consecutive_offsets_and_read_filters() {
    let mut p = Partition::new_at(7, "t".to_string(), PartitionConfig::default(), 100);
    assert_eq!(p.append_at(event(vec![1], None, 100), 100), 0);
    assert_eq!(p.append_at(event(vec![2], None, 100), 100), 1);
    assert_eq!(p.append_at(event(vec![3], None, 100), 100), 2);
    let got = p.read(1, 10);
    assert_eq!(got.len(), 2);
    assert_eq!(got[0].data, vec![2]);
    assert_eq!(got[0].partition_id, 7);
    assert_eq!(got[1].offset, 2);
    assert_eq!(p.read(0, 1).len(), 1);
    let st = p.stats_at(103);
    assert_eq!(st.message_count, 3);
    assert_eq!(st.max_offset, 2);
    assert_eq!(st.last_compaction, 3);
}

#[test]
fn retention_by_count_keeps_newest() {
    let config = PartitionConfig { retention: RetentionPolicy::Messages { max_messages: 5 }, ..Default::default() };
    let mut p = Partition::new_at(0, "t".to_string(), config, 0);
    for i in 0..10u8 {
        p.append_at(event(vec![i], None, 0), 0);
    }
    let r = p.compact_at(0);
    assert_eq!(r.messages_removed, 5);
    let st = p.stats_at(0);
    assert_eq!(st.message_count, 5);
    assert_eq!(st.min_offset, 5);
    assert_eq!(p.get_all_events()[0].data, vec![5]);
}

#[test]
fn retention_by_size_fits_limit() {
    let config = PartitionConfig { retention: RetentionPolicy::Size { max_bytes: 100 }, ..Default::default() };
    let mut p = Partition::new_at(0, "t".to_string(), config, 0);
    for i in 0..10u8 {
        p.append_at(event(vec![i; 50], None, 0), 0);
    }
    p.compact_at(0);
    assert!(p.stats_at(0).total_bytes <= 100);
}

#[test]
fn retention_by_time_drops_old_events() {
    let config = PartitionConfig { retention: RetentionPolicy::Time { retention_secs: 1 }, ..Default::default() };
    let mut p = Partition::new_at(0, "t".to_string(), config, 1000);
    p.append_at(event(b"old".to_vec(), None, 1000), 1000);
    p.append_at(event(b"new".to_vec(), None, 1005), 1000);
    p.compact_at(1005);
    let all = p.get_all_events();
    assert_eq!(all.len(), 1);
    assert_eq!(all[0].data, b"new".to_vec());
    assert_eq!(p.stats_at(1005).min_offset, 1);
}

#[test]
fn same_key_goes_to_same_partition() {
    let config = PartitionConfig { num_partitions: 3, ..Default::default() };
    let mut topic = PartitionedTopic::new("orders".to_string(), config);
    let (p1, _) = topic.publish(event(b"d1".to_vec(), Some(b"key1".to_vec()), 1));
    let (p2, o2) = topic.publish(event(b"d2".to_vec(), Some(b"key1".to_vec()), 1));
    assert_eq!(p1, p2);
    assert_eq!(o2, 1);
    assert_eq!(topic.partition_count(), 3);
    assert_eq!(topic.name(), "orders");
    let expected = (crc32fast::hash(b"key1") as usize) % 3;
    assert_eq!(p1, expected);
}

#[test]
fn keyless_events_go_to_least_loaded_partition() {
    let config = PartitionConfig { num_partitions: 3, ..Default::default() };
    let mut topic = PartitionedTopic::new("rr".to_string(), config);
    let ids: Vec<usize> = (0..6).map(|i| topic.publish(event(vec![i], None, 1)).0).collect();
    assert_eq!(ids, vec![0, 1, 2, 0, 1, 2]);
}

#[test]
fn consume_all_merges_by_timestamp() {
    let config = PartitionConfig { num_partitions: 2, ..Default::default() };
    let mut topic = PartitionedTopic::new("m".to_string(), config);
    topic.publish(event(vec![1], None, 30));
    topic.publish(event(vec![2], None, 10));
    topic.publish(event(vec![3], None, 20));
    let all = topic.consume_all(0, 100);
    let stamps: Vec<u64> = all.iter().map(|e| e.timestamp).collect();
    assert_eq!(stamps, vec![10, 20, 30]);
    assert_eq!(topic.consume_all(0, 2).len(), 2);
}

#[test]
fn unknown_partition_is_an_error() {
    let topic = PartitionedTopic::new("x".to_string(), PartitionConfig::default());
    assert_eq!(topic.consume_partition(9, 0, 10).unwrap_err(), "Partition 9 not found");
    assert!(topic.consume_partition(2, 0, 10).unwrap().is_empty());
}

#[test]
fn combined_retention_applies_count_limit() {
    let config = PartitionConfig {
        num_partitions: 1,
        retention: RetentionPolicy::Combined { retention_secs: Some(3600), max_bytes: Some(1000), max_messages: Some(10) },
        ..Default::default()
    };
    let mut topic = PartitionedTopic::new_at("c".to_string(), config, 5000);
    for i in 0..20u8 {
        topic.publish_at(event(vec![i; 10], None, 5000), 5000);
    }
    let results = topic.compact_all_at(5000);
    assert_eq!(results.len(), 1);
    assert_eq!(results[0].1.messages_removed, 10);
    assert_eq!(topic.stats_at(5000)[0].message_count, 10);
    assert_eq!(topic.get_all_events()[0].1.len(), 10);
}

#[test]
fn key_partition_follows_the_crc32_check_value() {
    // CRC-32 of "123456789" is 0xCBF43926, which leaves 2 modulo 4.
    let config = PartitionConfig { num_partitions: 4, ..Default::default() };
    let mut topic = PartitionedTopic::new("t".to_string(), config);
    let (p, _) = topic.publish(event(b"d".to_vec(), Some(b"123456789".to_vec()), 1));
    assert_eq!(p, 2);
}

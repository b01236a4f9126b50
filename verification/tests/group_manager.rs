use synap_server::consumer_group::{AssignmentStrategy, ConsumerGroupConfig, ConsumerGroupManager, GroupState};

#[test]
fn test_consumer_group_creation() {
    let mut manager = ConsumerGroupManager::new(ConsumerGroupConfig::default());
    manager.create_group("test-group", "test-topic", 6, None).unwrap();
    let groups = manager.list_groups();
    assert_eq!(groups.len(), 1);
}

#[test]
fn test_consumer_join_leave() {
    let mut manager = ConsumerGroupManager::new(ConsumerGroupConfig::default());
    manager.create_group("group1", "topic1", 6, None).unwrap();
    let member = manager.join_group("group1", 30).unwrap();
    assert_eq!(member.group_id, "group1");
    manager.leave_group("group1", &member.id).unwrap();
}

#[test]
fn test_round_robin_assignment() {
    let config = ConsumerGroupConfig { strategy: AssignmentStrategy::RoundRobin, ..Default::default() };
    let mut manager = ConsumerGroupManager::new(config);
    manager.create_group("rr-group", "topic", 6, None).unwrap();
    let m1 = manager.join_group("rr-group", 30).unwrap();
    let m2 = manager.join_group("rr-group", 30).unwrap();
    let m3 = manager.join_group("rr-group", 30).unwrap();
    manager.rebalance_group("rr-group").unwrap();
    let a1 = manager.get_assignment("rr-group", &m1.id).unwrap();
    let a2 = manager.get_assignment("rr-group", &m2.id).unwrap();
    let a3 = manager.get_assignment("rr-group", &m3.id).unwrap();
    assert_eq!(a1.len(), 2);
    assert_eq!(a2.len(), 2);
    assert_eq!(a3.len(), 2);
}

#[test]
fn test_range_assignment() {
    let config = ConsumerGroupConfig { strategy: AssignmentStrategy::Range, ..Default::default() };
    let mut manager = ConsumerGroupManager::new(config);
    manager.create_group("range-group", "topic", 7, None).unwrap();
    let m1 = manager.join_group("range-group", 30).unwrap();
    let m2 = manager.join_group("range-group", 30).unwrap();
    let m3 = manager.join_group("range-group", 30).unwrap();
    manager.rebalance_group("range-group").unwrap();
    let a1 = manager.get_assignment("range-group", &m1.id).unwrap();
    let a2 = manager.get_assignment("range-group", &m2.id).unwrap();
    let a3 = manager.get_assignment("range-group", &m3.id).unwrap();
    assert_eq!(a1.len() + a2.len() + a3.len(), 7);
}

#[test]
fn test_offset_commit() {
    let mut manager = ConsumerGroupManager::new(ConsumerGroupConfig::default());
    manager.create_group("offset-group", "topic", 3, None).unwrap();
    manager.commit_offset("offset-group", 0, 100).unwrap();
    manager.commit_offset("offset-group", 1, 200).unwrap();
    let offset0 = manager.get_offset("offset-group", 0).unwrap();
    let offset1 = manager.get_offset("offset-group", 1).unwrap();
    assert_eq!(offset0, Some(100));
    assert_eq!(offset1, Some(200));
}

#[test]
fn test_heartbeat() {
    let mut manager = ConsumerGroupManager::new(ConsumerGroupConfig::default());
    manager.create_group("hb-group", "topic", 3, None).unwrap();
    let member = manager.join_group("hb-group", 30).unwrap();
    manager.heartbeat("hb-group", &member.id).unwrap();
}

#[test]
fn test_rebalance_on_member_leave() {
    let mut manager = ConsumerGroupManager::new(ConsumerGroupConfig::default());
    manager.create_group("rb-group", "topic", 6, None).unwrap();
    let m1 = manager.join_group("rb-group", 30).unwrap();
    let m2 = manager.join_group("rb-group", 30).unwrap();
    manager.rebalance_group("rb-group").unwrap();
    manager.leave_group("rb-group", &m2.id).unwrap();
    manager.rebalance_group("rb-group").unwrap();
    let assignment = manager.get_assignment("rb-group", &m1.id).unwrap();
    assert_eq!(assignment.len(), 6);
}

#[test]
fn missing_and_duplicate_groups() {
    let mut manager = ConsumerGroupManager::new(ConsumerGroupConfig::default());
    assert_eq!(manager.join_group("nope", 30).unwrap_err(), "Consumer group 'nope' not found");
    assert_eq!(manager.get_offset("nope", 0).unwrap_err(), "Consumer group 'nope' not found");
    assert!(manager.delete_group("nope").is_err());
    manager.create_group("g", "t", 2, None).unwrap();
    assert_eq!(manager.create_group("g", "t", 2, None).unwrap_err(), "Consumer group 'g' already exists");
    assert_eq!(manager.get_offset("g", 0).unwrap(), None);
    manager.delete_group("g").unwrap();
    assert!(manager.list_groups().is_empty());
}

#[test]
fn groups_due_for_rebalance() {
    let mut manager = ConsumerGroupManager::new(ConsumerGroupConfig::default());
    manager.create_group_at("a", "t", 4, None, 1_000).unwrap();
    manager.create_group_at("b", "t", 4, None, 1_000).unwrap();
    assert!(manager.groups_to_rebalance_at(1_000).is_empty());
    manager.join_group_at("a", "m1".to_string(), 30, 1_000).unwrap();
    assert_eq!(manager.groups_to_rebalance_at(1_001), vec!["a".to_string()]);
    manager.rebalance_group_at("a", 1_001).unwrap();
    assert!(manager.groups_to_rebalance_at(1_002).is_empty());
    // The member stops sending heartbeats: the group is due again.
    assert_eq!(manager.groups_to_rebalance_at(1_040), vec!["a".to_string()]);
    let stats = manager.group_stats_at("a", 1_011).unwrap();
    assert_eq!(stats.member_count, 1);
    assert_eq!(stats.state, GroupState::Stable);
    assert_eq!(stats.last_rebalance_secs, 10);
}

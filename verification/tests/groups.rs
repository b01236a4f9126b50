use synap_server::consumer_group::{AssignmentStrategy, ConsumerGroup, ConsumerGroupConfig, ConsumerMember, GroupState};

fn group(strategy: AssignmentStrategy, partitions: usize) -> ConsumerGroup {
    let config = ConsumerGroupConfig { strategy, ..Default::default() };
    ConsumerGroup::new_at("g".to_string(), "topic".to_string(), partitions, config, 0)
}

#[test]
fn round_robin_assignment() {
    let mut g = group(AssignmentStrategy::RoundRobin, 5);
    g.join_at("m1".to_string(), 30, 0);
    g.join_at("m2".to_string(), 30, 0);
    assert_eq!(g.state(), GroupState::Rebalancing);
    g.rebalance_at(1).unwrap();
    assert_eq!(g.state(), GroupState::Stable);
    assert_eq!(g.get_assignment("m1").unwrap(), vec![0, 2, 4]);
    assert_eq!(g.get_assignment("m2").unwrap(), vec![1, 3]);
    assert_eq!(g.stats_at(5).generation, 1);
    assert_eq!(g.stats_at(5).last_rebalance_secs, 4);
}

#[test]
fn range_assignment() {
    let mut g = group(AssignmentStrategy::Range, 7);
    g.join_at("a".to_string(), 30, 0);
    g.join_at("b".to_string(), 30, 0);
    g.join_at("c".to_string(), 30, 0);
    g.rebalance_at(0).unwrap();
    assert_eq!(g.get_assignment("a").unwrap(), vec![0, 1, 2]);
    assert_eq!(g.get_assignment("b").unwrap(), vec![3, 4]);
    assert_eq!(g.get_assignment("c").unwrap(), vec![5, 6]);
}

#[test]
fn sticky_assignment_keeps_and_spreads() {
    let mut g = group(AssignmentStrategy::Sticky, 4);
    g.join_at("a".to_string(), 30, 0);
    g.rebalance_at(0).unwrap();
    assert_eq!(g.get_assignment("a").unwrap(), vec![0, 1, 2, 3]);
    g.join_at("b".to_string(), 30, 0);
    g.rebalance_at(0).unwrap();
    // target 2: "a" keeps its first three, sheds the fourth to "b".
    assert_eq!(g.get_assignment("a").unwrap(), vec![0, 1, 2]);
    assert_eq!(g.get_assignment("b").unwrap(), vec![3]);
}

#[test]
fn expired_members_leave_on_rebalance() {
    let mut g = group(AssignmentStrategy::RoundRobin, 2);
    g.join_at("old".to_string(), 10, 0);
    g.join_at("new".to_string(), 10, 50);
    assert!(g.needs_rebalance_at(55));
    g.rebalance_at(55).unwrap();
    assert!(g.get_assignment("old").is_err());
    assert_eq!(g.get_assignment("new").unwrap(), vec![0, 1]);
    assert!(!g.needs_rebalance_at(55));
    g.rebalance_at(100).unwrap();
    assert_eq!(g.state(), GroupState::Empty);
    assert_eq!(g.stats_at(100).member_count, 0);
}

#[test]
fn leave_and_heartbeat_errors_name_the_member() {
    let mut g = group(AssignmentStrategy::RoundRobin, 1);
    assert_eq!(g.leave("ghost").unwrap_err(), "Member ghost not found in group");
    assert_eq!(g.heartbeat_at("ghost", 1).unwrap_err(), "Member ghost not found in group");
    assert_eq!(g.get_assignment("ghost").unwrap_err(), "Member ghost not found");
    let m = g.join_at("m".to_string(), 5, 0);
    assert_eq!(m.group_id, "g");
    assert!(g.heartbeat_at("m", 4).is_ok());
    assert!(g.members()[0].is_alive_at(8));
    assert!(g.leave("m").is_ok());
    assert!(g.members().is_empty());
}

#[test]
fn committed_offsets() {
    let mut g = group(AssignmentStrategy::RoundRobin, 3);
    assert_eq!(g.get_offset(1), None);
    g.commit_offset(1, 10);
    g.commit_offset(2, 20);
    g.commit_offset(1, 11);
    assert_eq!(g.get_offset(1), Some(11));
    assert_eq!(g.get_offset(2), Some(20));
    assert_eq!(g.stats_at(0).committed_partitions, 2);
}

#[test]
fn member_liveness() {
    let mut m = ConsumerMember::new_at("id".to_string(), "g".to_string(), 30, 100);
    assert!(m.is_alive_at(129));
    assert!(!m.is_alive_at(130));
    m.heartbeat_at(200);
    assert!(m.is_alive_at(229));
    assert_eq!(ConsumerMember::new("g".to_string(), 1).id.len(), 36);
}
